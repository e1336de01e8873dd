use vstd::prelude::*;

use crate::types::{lemma_product_bound, max_product, DimId, DimWeight, Score};

verus! {

/// A vector given by its populated coordinates: `indices[i]` carries `weights[i]`.
pub struct SparseVector {
    pub indices: Vec<DimId>,
    pub weights: Vec<DimWeight>,
}

/// Dimension ids that strictly increase.
pub open spec fn strictly_increasing(s: Seq<DimId>) -> bool {
    forall|i: int, j: int| 0 <= i < j < s.len() ==> s[i] < s[j]
}

/// The weight that `(indices, weights)` gives dimension `d`, zero where it has none.
pub open spec fn weight_at(indices: Seq<DimId>, weights: Seq<DimWeight>, d: DimId) -> int {
    if exists|j: int| 0 <= j < indices.len() && indices[j] == d {
        weights[choose|j: int| 0 <= j < indices.len() && indices[j] == d] as int
    } else {
        0
    }
}

/// Sum of `a.weights[i] * weight_at(b, a.indices[i])` over the first `n` entries of `a`.
pub open spec fn dot_prefix(
    ai: Seq<DimId>,
    aw: Seq<DimWeight>,
    bi: Seq<DimId>,
    bw: Seq<DimWeight>,
    n: int,
) -> int
    decreases n,
{
    if n <= 0 {
        0
    } else {
        dot_prefix(ai, aw, bi, bw, n - 1) + aw[n - 1] * weight_at(bi, bw, ai[n - 1])
    }
}

/// The dot product: the sum of the products of the weights at the dimensions both populate.
pub open spec fn dot(ai: Seq<DimId>, aw: Seq<DimWeight>, bi: Seq<DimId>, bw: Seq<DimWeight>) -> int {
    dot_prefix(ai, aw, bi, bw, ai.len() as int)
}

impl SparseVector {
    /// Same number of indices and weights, indices strictly ascending.
    pub open spec fn wf(&self) -> bool {
        &&& self.indices.len() == self.weights.len()
        &&& strictly_increasing(self.indices@)
    }

    /// The weight this vector gives dimension `d` (zero where it has none).
    pub open spec fn weight(&self, d: DimId) -> int {
        weight_at(self.indices@, self.weights@, d)
    }

    /// The dot product of two vectors.
    pub open spec fn spec_dot(&self, other: &SparseVector) -> int {
        dot(self.indices@, self.weights@, other.indices@, other.weights@)
    }

    pub fn new(indices: Vec<DimId>, weights: Vec<DimWeight>) -> (r: SparseVector)
        ensures
            r.indices@ == indices@,
            r.weights@ == weights@,
    {
        SparseVector { indices, weights }
    }

    /// Merge-style dot product over the two ascending index lists.
    pub fn dot_product(&self, other: &SparseVector) -> (r: Score)
        requires
            self.wf(),
            other.wf(),
        ensures
            r == self.spec_dot(other),
    {
        let ghost ai = self.indices@;
        let ghost aw = self.weights@;
        let ghost bi = other.indices@;
        let ghost bw = other.weights@;
        let mut result: Score = 0;
        let mut i: usize = 0;
        let mut j: usize = 0;
        while i < self.indices.len() && j < other.indices.len()
            invariant
                self.wf(),
                other.wf(),
                ai == self.indices@,
                aw == self.weights@,
                bi == other.indices@,
                bw == other.weights@,
                i <= ai.len(),
                j <= bi.len(),
                result == dot_prefix(ai, aw, bi, bw, i as int),
                -(i as int) * max_product() <= result <= (i as int) * max_product(),
                i < ai.len() ==> forall|k: int| 0 <= k < j ==> bi[k] < ai[i as int],
            decreases ai.len() - i + bi.len() - j,
        {
            let x = self.indices[i];
            let y = other.indices[j];
            if x < y {
                proof {
                    lemma_weight_absent(bi, bw, x, j as int);
                }
                i += 1;
            } else if x == y {
                proof {
                    lemma_weight_found(bi, bw, j as int);
                    lemma_product_bound(aw[i as int], bw[j as int]);
                }
                result = result + (self.weights[i] as i128) * (other.weights[j] as i128);
                i += 1;
                j += 1;
            } else {
                j += 1;
            }
        }
        proof {
            if i < ai.len() {
                lemma_rest_absent(ai, aw, bi, bw, i as int);
            }
        }
        result
    }
}

/// Where every index of `bi` below `j` is smaller than `d` and `bi[j]` is larger, `d` has no weight.
pub proof fn lemma_weight_absent(bi: Seq<DimId>, bw: Seq<DimWeight>, d: DimId, j: int)
    requires
        strictly_increasing(bi),
        0 <= j < bi.len(),
        d < bi[j],
        forall|k: int| 0 <= k < j ==> bi[k] < d,
    ensures
        weight_at(bi, bw, d) == 0,
{
    assert forall|k: int| 0 <= k < bi.len() implies bi[k] != d by {
        if k > j {
            assert(bi[j] < bi[k]);
        }
    }
}

/// The weight at an index that a strictly increasing list holds is the weight stored there.
pub proof fn lemma_weight_found(bi: Seq<DimId>, bw: Seq<DimWeight>, j: int)
    requires
        strictly_increasing(bi),
        0 <= j < bi.len(),
    ensures
        weight_at(bi, bw, bi[j]) == bw[j],
{
    let k = choose|k: int| 0 <= k < bi.len() && bi[k] == bi[j];
    if k < j {
        assert(bi[k] < bi[j]);
    } else if k > j {
        assert(bi[j] < bi[k]);
    }
}

/// Once every index of `bi` is below `ai[i]`, the entries of `a` from `i` on add nothing.
pub proof fn lemma_rest_absent(
    ai: Seq<DimId>,
    aw: Seq<DimWeight>,
    bi: Seq<DimId>,
    bw: Seq<DimWeight>,
    i: int,
)
    requires
        strictly_increasing(ai),
        0 <= i < ai.len(),
        forall|k: int| 0 <= k < bi.len() ==> bi[k] < ai[i],
    ensures
        dot_prefix(ai, aw, bi, bw, ai.len() as int) == dot_prefix(ai, aw, bi, bw, i),
    decreases ai.len() - i,
{
    let n = ai.len() as int;
    assert forall|m: int| i <= m < n implies weight_at(bi, bw, ai[m]) == 0 by {
        if m > i {
            assert(ai[i] < ai[m]);
        }
        assert forall|k: int| 0 <= k < bi.len() implies bi[k] != ai[m] by {}
    }
    lemma_prefix_zero_tail(ai, aw, bi, bw, i, n);
}

/// A prefix sum does not change over entries whose weight in `b` is zero.
proof fn lemma_prefix_zero_tail(
    ai: Seq<DimId>,
    aw: Seq<DimWeight>,
    bi: Seq<DimId>,
    bw: Seq<DimWeight>,
    i: int,
    n: int,
)
    requires
        0 <= i <= n <= ai.len(),
        forall|m: int| i <= m < n ==> weight_at(bi, bw, ai[m]) == 0,
    ensures
        dot_prefix(ai, aw, bi, bw, n) == dot_prefix(ai, aw, bi, bw, i),
    decreases n - i,
{
    if n > i {
        lemma_prefix_zero_tail(ai, aw, bi, bw, i, n - 1);
    }
}

/// A dot product over `n` entries is at most `n` maximal products in absolute value.
pub proof fn lemma_dot_bound(ai: Seq<DimId>, aw: Seq<DimWeight>, bi: Seq<DimId>, bw: Seq<DimWeight>, n: int)
    requires
        0 <= n <= ai.len(),
        n <= aw.len(),
        bi.len() == bw.len(),
    ensures
        -n * max_product() <= dot_prefix(ai, aw, bi, bw, n) <= n * max_product(),
    decreases n,
{
    if n > 0 {
        lemma_dot_bound(ai, aw, bi, bw, n - 1);
        let w = weight_at(bi, bw, ai[n - 1]);
        assert(-0x8000_0000 <= w < 0x8000_0000);
        lemma_product_bound(aw[n - 1], w as DimWeight);
    }
}

impl SparseVector {
    /// A dot product with a valid vector fits in a `Score`.
    pub proof fn lemma_dot_fits(&self, other: &SparseVector)
        requires
            self.wf(),
            other.wf(),
        ensures
            self.spec_dot(other) as Score == self.spec_dot(other),
    {
        lemma_dot_bound(self.indices@, self.weights@, other.indices@, other.weights@, self.indices.len() as int);
        let n = self.indices.len() as int;
        assert(n * max_product() <= 0x1_0000_0000_0000_0000 * 0x4000_0000_0000_0000) by (nonlinear_arith)
            requires
                n <= 0x1_0000_0000_0000_0000,
                max_product() == 0x4000_0000_0000_0000,
        ;
    }
}

} // verus!
