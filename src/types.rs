use vstd::prelude::*;

verus! {

/// A coordinate of the sparse space.
pub type DimId = u32;

/// Identity of one stored vector.
pub type RecordId = u32;

/// The weight of one populated coordinate.
pub type DimWeight = i32;

/// A dot product of two sparse vectors.
pub type Score = i128;

/// Stands for "no weight at all" (minus infinity): no weight is smaller.
pub const NO_WEIGHT: DimWeight = -2147483648;

/// The largest absolute value of a product of two weights.
pub open spec fn max_product() -> int {
    0x4000_0000_0000_0000
}

/// The product of two weights is never larger in absolute value than `max_product()`.
pub proof fn lemma_product_bound(a: DimWeight, b: DimWeight)
    ensures
        -max_product() <= a * b <= max_product(),
{
    assert(-0x4000_0000_0000_0000 <= a * b <= 0x4000_0000_0000_0000) by (nonlinear_arith)
        requires
            -0x8000_0000 <= a < 0x8000_0000,
            -0x8000_0000 <= b < 0x8000_0000,
    ;
}

} // verus!
