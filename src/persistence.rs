use vstd::prelude::*;

use crate::inverted_index::InvertedIndexRam;
use crate::posting::{PostingElement, PostingList};
use crate::types::DimId;

verus! {

/// Bytes of one posting-list header: start and end offsets, each a little-endian `u64`.
pub const POSTING_HEADER_SIZE: usize = 16;

/// Bytes of one posting element: id, weight and max-next weight, each a little-endian
/// 32-bit word.
pub const POSTING_ELEMENT_SIZE: usize = 12;

/// The little-endian bytes of a 32-bit word.
#[verifier::opaque]
pub open spec fn u32_le(x: u32) -> Seq<u8> {
    seq![
        (x & 0xff) as u8,
        ((x >> 8u32) & 0xff) as u8,
        ((x >> 16u32) & 0xff) as u8,
        ((x >> 24u32) & 0xff) as u8,
    ]
}

/// The little-endian bytes of a 64-bit word.
#[verifier::opaque]
pub open spec fn u64_le(x: u64) -> Seq<u8> {
    seq![
        (x & 0xff) as u8,
        ((x >> 8u64) & 0xff) as u8,
        ((x >> 16u64) & 0xff) as u8,
        ((x >> 24u64) & 0xff) as u8,
        ((x >> 32u64) & 0xff) as u8,
        ((x >> 40u64) & 0xff) as u8,
        ((x >> 48u64) & 0xff) as u8,
        ((x >> 56u64) & 0xff) as u8,
    ]
}

/// The 32-bit word stored little-endian at `p`.
#[verifier::opaque]
pub open spec fn read_u32(b: Seq<u8>, p: int) -> u32 {
    (b[p] as u32) | ((b[p + 1] as u32) << 8u32) | ((b[p + 2] as u32) << 16u32) | ((b[p + 3] as u32)
        << 24u32)
}

/// The 64-bit word stored little-endian at `p`.
#[verifier::opaque]
pub open spec fn read_u64(b: Seq<u8>, p: int) -> u64 {
    (b[p] as u64) | ((b[p + 1] as u64) << 8u64) | ((b[p + 2] as u64) << 16u64) | ((b[p + 3] as u64)
        << 24u64) | ((b[p + 4] as u64) << 32u64) | ((b[p + 5] as u64) << 40u64) | ((b[p + 6] as u64)
        << 48u64) | ((b[p + 7] as u64) << 56u64)
}

/// The twelve bytes of one element.
pub open spec fn element_bytes(e: PostingElement) -> Seq<u8> {
    u32_le(e.id) + u32_le(#[verifier::truncate] (e.weight as u32)) + u32_le(
        #[verifier::truncate] (e.max_next_weight as u32),
    )
}

/// The element stored at `p`.
pub open spec fn read_element(b: Seq<u8>, p: int) -> PostingElement {
    PostingElement {
        id: read_u32(b, p),
        weight: #[verifier::truncate] (read_u32(b, p + 4) as i32),
        max_next_weight: #[verifier::truncate] (read_u32(b, p + 8) as i32),
    }
}

/// The bytes of a posting list: its elements one after the other.
pub open spec fn posting_bytes(s: Seq<PostingElement>) -> Seq<u8>
    decreases s.len(),
{
    if s.len() == 0 {
        Seq::empty()
    } else {
        posting_bytes(s.drop_last()) + element_bytes(s.last())
    }
}

/// Bytes taken by the elements of the first `n` posting lists.
pub open spec fn region_len(ps: Seq<Seq<PostingElement>>, n: int) -> int
    decreases n,
{
    if n <= 0 {
        0
    } else {
        region_len(ps, n - 1) + 12 * ps[n - 1].len()
    }
}

/// The headers of the first `n` posting lists, whose elements start at byte `base`.
pub open spec fn headers_bytes(ps: Seq<Seq<PostingElement>>, n: int, base: int) -> Seq<u8>
    decreases n,
{
    if n <= 0 {
        Seq::empty()
    } else {
        headers_bytes(ps, n - 1, base) + u64_le((base + region_len(ps, n - 1)) as u64) + u64_le(
            (base + region_len(ps, n)) as u64,
        )
    }
}

/// The elements of the first `n` posting lists, list after list.
pub open spec fn elements_bytes(ps: Seq<Seq<PostingElement>>, n: int) -> Seq<u8>
    decreases n,
{
    if n <= 0 {
        Seq::empty()
    } else {
        elements_bytes(ps, n - 1) + posting_bytes(ps[n - 1])
    }
}

/// The file of an index whose posting list of dimension `d` is `ps[d]`: all headers, then
/// all elements.
pub open spec fn index_bytes(ps: Seq<Seq<PostingElement>>) -> Seq<u8> {
    headers_bytes(ps, ps.len() as int, 16 * ps.len() as int) + elements_bytes(ps, ps.len() as int)
}

/// The posting list of dimension `d` read from file bytes `b` holding `count` headers.
/// `None` for a dimension past the table, or a header that points outside the file or at a
/// range that is not a whole number of elements.
pub open spec fn decode_posting(b: Seq<u8>, count: int, d: int) -> Option<Seq<PostingElement>> {
    if d < 0 || d >= count || 16 * d + 16 > b.len() {
        None
    } else {
        let start = read_u64(b, 16 * d) as int;
        let end = read_u64(b, 16 * d + 8) as int;
        if start <= end && end <= b.len() && (end - start) % 12 == 0 {
            Some(Seq::new(((end - start) / 12) as nat, |i: int| read_element(b, start + 12 * i)))
        } else {
            None
        }
    }
}

proof fn lemma_word_lengths(x: u32, y: u64)
    ensures
        u32_le(x).len() == 4,
        u64_le(y).len() == 8,
{
    reveal(u32_le);
    reveal(u64_le);
}

proof fn lemma_u32_round_trip(x: u32)
    ensures
        read_u32(u32_le(x), 0) == x,
{
    reveal(u32_le);
    reveal(read_u32);
    let b = u32_le(x);
    let b0 = (x & 0xff) as u8;
    let b1 = ((x >> 8u32) & 0xff) as u8;
    let b2 = ((x >> 16u32) & 0xff) as u8;
    let b3 = ((x >> 24u32) & 0xff) as u8;
    assert(b[0] == b0 && b[1] == b1 && b[2] == b2 && b[3] == b3);
    assert((b0 as u32) | ((b1 as u32) << 8u32) | ((b2 as u32) << 16u32) | ((b3 as u32) << 24u32) == x)
        by (bit_vector)
        requires
            b0 == (x & 0xff) as u8,
            b1 == ((x >> 8u32) & 0xff) as u8,
            b2 == ((x >> 16u32) & 0xff) as u8,
            b3 == ((x >> 24u32) & 0xff) as u8,
    ;
}

proof fn lemma_u64_round_trip(x: u64)
    ensures
        read_u64(u64_le(x), 0) == x,
{
    reveal(u64_le);
    reveal(read_u64);
    let b = u64_le(x);
    let b0 = (x & 0xff) as u8;
    let b1 = ((x >> 8u64) & 0xff) as u8;
    let b2 = ((x >> 16u64) & 0xff) as u8;
    let b3 = ((x >> 24u64) & 0xff) as u8;
    let b4 = ((x >> 32u64) & 0xff) as u8;
    let b5 = ((x >> 40u64) & 0xff) as u8;
    let b6 = ((x >> 48u64) & 0xff) as u8;
    let b7 = ((x >> 56u64) & 0xff) as u8;
    assert(b[0] == b0 && b[1] == b1 && b[2] == b2 && b[3] == b3);
    assert(b[4] == b4 && b[5] == b5 && b[6] == b6 && b[7] == b7);
    assert((b0 as u64) | ((b1 as u64) << 8u64) | ((b2 as u64) << 16u64) | ((b3 as u64) << 24u64) | ((
    b4 as u64) << 32u64) | ((b5 as u64) << 40u64) | ((b6 as u64) << 48u64) | ((b7 as u64) << 56u64)
        == x) by (bit_vector)
        requires
            b0 == (x & 0xff) as u8,
            b1 == ((x >> 8u64) & 0xff) as u8,
            b2 == ((x >> 16u64) & 0xff) as u8,
            b3 == ((x >> 24u64) & 0xff) as u8,
            b4 == ((x >> 32u64) & 0xff) as u8,
            b5 == ((x >> 40u64) & 0xff) as u8,
            b6 == ((x >> 48u64) & 0xff) as u8,
            b7 == ((x >> 56u64) & 0xff) as u8,
    ;
}

proof fn lemma_i32_bits(w: i32)
    ensures
        (#[verifier::truncate] ((#[verifier::truncate] (w as u32)) as i32)) == w,
{
    assert((#[verifier::truncate] ((#[verifier::truncate] (w as u32)) as i32)) == w) by (bit_vector);
}

/// Reading at `p` only looks at the bytes from `p` on: bytes equal there read equal.
proof fn lemma_read_u32_at(b: Seq<u8>, p: int, c: Seq<u8>)
    requires
        0 <= p,
        p + c.len() <= b.len(),
        c.len() == 4,
        forall|j: int| 0 <= j < 4 ==> b[p + j] == c[j],
    ensures
        read_u32(b, p) == read_u32(c, 0),
{
    reveal(read_u32);
    assert(b[p] == c[0] && b[p + 1] == c[1] && b[p + 2] == c[2] && b[p + 3] == c[3]);
}

proof fn lemma_read_u64_at(b: Seq<u8>, p: int, c: Seq<u8>)
    requires
        0 <= p,
        p + 8 <= b.len(),
        b.subrange(p, p + 8) == c,
    ensures
        read_u64(b, p) == read_u64(c, 0),
{
    reveal(read_u64);
    assert(forall|j: int| 0 <= j < 8 ==> #[trigger] c[j] == b[p + j]);
    assert(b[p] == c[0] && b[p + 1] == c[1] && b[p + 2] == c[2] && b[p + 3] == c[3]);
    assert(b[p + 4] == c[4] && b[p + 5] == c[5] && b[p + 6] == c[6] && b[p + 7] == c[7]);
}

/// An element's bytes read back as the element.
proof fn lemma_read_element_at(b: Seq<u8>, p: int, e: PostingElement)
    requires
        0 <= p,
        p + 12 <= b.len(),
        forall|j: int| 0 <= j < 12 ==> b[p + j] == element_bytes(e)[j],
    ensures
        read_element(b, p) == e,
{
    let eb = element_bytes(e);
    lemma_word_lengths(e.id, 0);
    lemma_word_lengths(#[verifier::truncate] (e.weight as u32), 0);
    lemma_word_lengths(#[verifier::truncate] (e.max_next_weight as u32), 0);
    let ci = u32_le(e.id);
    let cw = u32_le(#[verifier::truncate] (e.weight as u32));
    let cm = u32_le(#[verifier::truncate] (e.max_next_weight as u32));
    assert(eb == ci + cw + cm);
    assert forall|j: int| 0 <= j < 4 implies b[p + j] == #[trigger] ci[j] by {
        assert(b[p + j] == eb[j]);
    }
    lemma_read_u32_at(b, p, ci);
    assert forall|j: int| 0 <= j < 4 implies b[p + 4 + j] == #[trigger] cw[j] by {
        assert(b[p + (4 + j)] == eb[4 + j]);
    }
    assert forall|j: int| 0 <= j < 4 implies b[p + 8 + j] == #[trigger] cm[j] by {
        assert(b[p + (8 + j)] == eb[8 + j]);
    }
    lemma_read_u32_at(b, p + 4, cw);
    lemma_read_u32_at(b, p + 8, cm);
    lemma_u32_round_trip(e.id);
    lemma_u32_round_trip(#[verifier::truncate] (e.weight as u32));
    lemma_u32_round_trip(#[verifier::truncate] (e.max_next_weight as u32));
    lemma_i32_bits(e.weight);
    lemma_i32_bits(e.max_next_weight);
}

proof fn lemma_element_len(e: PostingElement)
    ensures
        element_bytes(e).len() == 12,
{
    lemma_word_lengths(e.id, 0);
    lemma_word_lengths(#[verifier::truncate] (e.weight as u32), 0);
    lemma_word_lengths(#[verifier::truncate] (e.max_next_weight as u32), 0);
}

/// Element `i` of a posting list stands at bytes `12 * i` to `12 * i + 12` of its bytes.
proof fn lemma_posting_bytes(s: Seq<PostingElement>)
    ensures
        posting_bytes(s).len() == 12 * s.len(),
        forall|i: int, j: int|
            0 <= i < s.len() && 0 <= j < 12 ==> posting_bytes(s)[12 * i + j] == #[trigger] element_bytes(
                s[i],
            )[j],
    decreases s.len(),
{
    if s.len() > 0 {
        let t = s.drop_last();
        lemma_posting_bytes(t);
        lemma_element_len(s.last());
        assert forall|i: int, j: int|
            0 <= i < s.len() && 0 <= j < 12 implies posting_bytes(s)[12 * i + j] == #[trigger] element_bytes(
            s[i],
        )[j] by {
            if i < t.len() {
                assert(t[i] == s[i]);
                assert(element_bytes(t[i])[j] == posting_bytes(t)[12 * i + j]);
            }
        }
    }
}

proof fn lemma_region_len_monotone(ps: Seq<Seq<PostingElement>>, a: int, b: int)
    requires
        0 <= a <= b,
    ensures
        region_len(ps, a) <= region_len(ps, b),
    decreases b - a,
{
    if a < b {
        lemma_region_len_monotone(ps, a, b - 1);
    }
}

/// List `d`'s bytes stand at `region_len(ps, d)` in the elements of the first `n` lists.
proof fn lemma_elements_bytes(ps: Seq<Seq<PostingElement>>, n: int)
    requires
        0 <= n <= ps.len(),
    ensures
        elements_bytes(ps, n).len() == region_len(ps, n),
        forall|d: int, j: int|
            0 <= d < n && 0 <= j < 12 * ps[d].len() ==> elements_bytes(ps, n)[region_len(ps, d) + j]
                == #[trigger] posting_bytes(ps[d])[j],
    decreases n,
{
    if n > 0 {
        lemma_elements_bytes(ps, n - 1);
        lemma_posting_bytes(ps[n - 1]);
        let prev = elements_bytes(ps, n - 1);
        let last = posting_bytes(ps[n - 1]);
        assert(elements_bytes(ps, n) == prev + last);
        assert forall|d: int, j: int|
            0 <= d < n && 0 <= j < 12 * ps[d].len() implies elements_bytes(ps, n)[region_len(ps, d) + j]
            == #[trigger] posting_bytes(ps[d])[j] by {
            lemma_region_len_monotone(ps, 0, d);
            if d < n - 1 {
                lemma_region_len_monotone(ps, d + 1, n - 1);
                assert(region_len(ps, d) + j < prev.len());
                assert(prev[region_len(ps, d) + j] == posting_bytes(ps[d])[j]);
                assert((prev + last)[region_len(ps, d) + j] == prev[region_len(ps, d) + j]);
            } else {
                assert((prev + last)[prev.len() + j] == last[j]);
            }
        }
    }
}

/// The headers of the first `n` lists take `16 * n` bytes.
proof fn lemma_headers_len(ps: Seq<Seq<PostingElement>>, n: int, base: int)
    requires
        0 <= n <= ps.len(),
    ensures
        headers_bytes(ps, n, base).len() == 16 * n,
    decreases n,
{
    if n > 0 {
        lemma_headers_len(ps, n - 1, base);
        lemma_word_lengths(0, (base + region_len(ps, n - 1)) as u64);
        lemma_word_lengths(0, (base + region_len(ps, n)) as u64);
    }
}

/// The header of list `d` stands at byte `16 * d`.
proof fn lemma_header_at(ps: Seq<Seq<PostingElement>>, n: int, base: int, d: int)
    requires
        0 <= d < n <= ps.len(),
    ensures
        headers_bytes(ps, n, base).subrange(16 * d, 16 * d + 8) == u64_le((base + region_len(ps, d)) as u64),
        headers_bytes(ps, n, base).subrange(16 * d + 8, 16 * d + 16) == u64_le((base + region_len(ps, d + 1)) as u64),
    decreases n,
{
    let prev = headers_bytes(ps, n - 1, base);
    let a = u64_le((base + region_len(ps, n - 1)) as u64);
    let c = u64_le((base + region_len(ps, n)) as u64);
    let all = headers_bytes(ps, n, base);
    lemma_headers_len(ps, n - 1, base);
    lemma_word_lengths(0, (base + region_len(ps, n - 1)) as u64);
    lemma_word_lengths(0, (base + region_len(ps, n)) as u64);
    assert(all == prev + a + c);
    if d < n - 1 {
        lemma_header_at(ps, n - 1, base, d);
        assert(all.subrange(16 * d, 16 * d + 8) =~= prev.subrange(16 * d, 16 * d + 8));
        assert(all.subrange(16 * d + 8, 16 * d + 16) =~= prev.subrange(16 * d + 8, 16 * d + 16));
    } else {
        assert(all.subrange(16 * d, 16 * d + 8) =~= a);
        assert(all.subrange(16 * d + 8, 16 * d + 16) =~= c);
    }
}

/// In the file of an index, the elements of list `d` read back one by one.
proof fn lemma_decode_elements(ps: Seq<Seq<PostingElement>>, d: int)
    requires
        0 <= d < ps.len(),
    ensures
        forall|i: int|
            0 <= i < ps[d].len() ==> #[trigger] read_element(index_bytes(ps), 16 * ps.len() + region_len(ps, d) + 12 * i)
                == ps[d][i],
{
    let n = ps.len() as int;
    let base = 16 * n;
    let eb = elements_bytes(ps, n);
    let b = index_bytes(ps);
    let start = base + region_len(ps, d);
    lemma_headers_len(ps, n, base);
    lemma_elements_bytes(ps, n);
    lemma_posting_bytes(ps[d]);
    lemma_region_len_monotone(ps, d + 1, n);
    lemma_region_len_monotone(ps, 0, d);
    let hb = headers_bytes(ps, n, base);
    assert(b == hb + eb);
    assert forall|i: int| 0 <= i < ps[d].len() implies #[trigger] read_element(b, start + 12 * i) == ps[d][i] by {
        let ce = element_bytes(ps[d][i]);
        assert forall|j: int| 0 <= j < 12 implies b[start + 12 * i + j] == #[trigger] ce[j] by {
            assert(0 <= 12 * i + j < 12 * ps[d].len()) by (nonlinear_arith)
                requires
                    0 <= i < ps[d].len(),
                    0 <= j < 12,
            ;
            assert(eb[region_len(ps, d) + (12 * i + j)] == posting_bytes(ps[d])[12 * i + j]);
            assert((hb + eb)[hb.len() + (region_len(ps, d) + (12 * i + j))] == eb[region_len(ps, d) + (12 * i + j)]);
        }
        assert(start + 12 * i + 12 <= b.len()) by (nonlinear_arith)
            requires
                0 <= i < ps[d].len(),
                start == base + region_len(ps, d),
                region_len(ps, d + 1) == region_len(ps, d) + 12 * ps[d].len(),
                region_len(ps, d + 1) <= region_len(ps, n),
                b.len() == base + region_len(ps, n),
        ;
        lemma_read_element_at(b, start + 12 * i, ps[d][i]);
    }
}

/// Reading back the file of an index gives every posting list as it was written.
pub proof fn lemma_round_trip(ps: Seq<Seq<PostingElement>>, d: int)
    requires
        0 <= d < ps.len(),
        16 * ps.len() + region_len(ps, ps.len() as int) <= u64::MAX,
    ensures
        decode_posting(index_bytes(ps), ps.len() as int, d) == Some(ps[d]),
{
    let n = ps.len() as int;
    let b = index_bytes(ps);
    let start = 16 * n + region_len(ps, d);
    let end = 16 * n + region_len(ps, d + 1);
    lemma_header_of(ps, d);
    lemma_decode_elements(ps, d);
    assert((end - start) / 12 == ps[d].len());
    let decoded = Seq::new(((end - start) / 12) as nat, |i: int| read_element(b, start + 12 * i));
    assert forall|i: int| 0 <= i < ps[d].len() implies decoded[i] == ps[d][i] by {
        assert(read_element(b, start + 12 * i) == ps[d][i]);
    }
    assert(decoded =~= ps[d]);
}

/// The header of list `d` in the file of an index reads back as the byte range of its
/// elements, which lies inside the file.
proof fn lemma_header_of(ps: Seq<Seq<PostingElement>>, d: int)
    requires
        0 <= d < ps.len(),
        16 * ps.len() + region_len(ps, ps.len() as int) <= u64::MAX,
    ensures
        ({
            let b = index_bytes(ps);
            let start = 16 * ps.len() + region_len(ps, d);
            let end = 16 * ps.len() + region_len(ps, d + 1);
            &&& 16 * d + 16 <= b.len()
            &&& read_u64(b, 16 * d) as int == start
            &&& read_u64(b, 16 * d + 8) as int == end
            &&& start <= end <= b.len()
            &&& end - start == 12 * ps[d].len()
        }),
{
    let n = ps.len() as int;
    let base = 16 * n;
    let hb = headers_bytes(ps, n, base);
    let eb = elements_bytes(ps, n);
    let b = index_bytes(ps);
    assert(b == hb + eb);
    lemma_headers_len(ps, n, base);
    lemma_header_at(ps, n, base, d);
    lemma_elements_len(ps, n);
    lemma_region_len_monotone(ps, 0, d);
    lemma_region_len_monotone(ps, d, d + 1);
    lemma_region_len_monotone(ps, d + 1, n);
    let start = base + region_len(ps, d);
    let end = base + region_len(ps, d + 1);
    let cs = u64_le(start as u64);
    let ce = u64_le(end as u64);
    lemma_word_lengths(0, start as u64);
    lemma_word_lengths(0, end as u64);
    assert(b.subrange(16 * d, 16 * d + 8) =~= hb.subrange(16 * d, 16 * d + 8));
    assert(b.subrange(16 * d + 8, 16 * d + 16) =~= hb.subrange(16 * d + 8, 16 * d + 16));
    lemma_read_u64_at(b, 16 * d, cs);
    lemma_read_u64_at(b, 16 * d + 8, ce);
    lemma_u64_round_trip(start as u64);
    lemma_u64_round_trip(end as u64);
}

/// The elements of the first `n` lists take `region_len(ps, n)` bytes.
proof fn lemma_elements_len(ps: Seq<Seq<PostingElement>>, n: int)
    requires
        0 <= n <= ps.len(),
    ensures
        elements_bytes(ps, n).len() == region_len(ps, n),
    decreases n,
{
    if n > 0 {
        lemma_elements_len(ps, n - 1);
        lemma_posting_bytes(ps[n - 1]);
    }
}

/// The posting lists of an index, by dimension.
pub open spec fn postings_of(ix: &InvertedIndexRam) -> Seq<Seq<PostingElement>> {
    ix.postings@.map_values(|p: PostingList| p.elements@)
}

/// The size of an index's file in bytes: headers, then elements.
pub open spec fn file_len(ps: Seq<Seq<PostingElement>>) -> int {
    16 * ps.len() + region_len(ps, ps.len() as int)
}

/// What the side file records: how many headers the index file holds.
pub struct InvertedIndexFileHeader {
    pub posting_count: usize,
}

/// Where the elements of one posting list lie in the index file.
pub struct PostingListFileHeader {
    pub start_offset: u64,
    pub end_offset: u64,
}

fn push_u32(out: &mut Vec<u8>, x: u32)
    ensures
        final(out)@ == old(out)@ + u32_le(x),
{
    reveal(u32_le);
    out.push((x & 0xff) as u8);
    out.push(((x >> 8u32) & 0xff) as u8);
    out.push(((x >> 16u32) & 0xff) as u8);
    out.push(((x >> 24u32) & 0xff) as u8);
    assert(final(out)@ =~= old(out)@ + u32_le(x));
}

fn push_u64(out: &mut Vec<u8>, x: u64)
    ensures
        final(out)@ == old(out)@ + u64_le(x),
{
    reveal(u64_le);
    out.push((x & 0xff) as u8);
    out.push(((x >> 8u64) & 0xff) as u8);
    out.push(((x >> 16u64) & 0xff) as u8);
    out.push(((x >> 24u64) & 0xff) as u8);
    out.push(((x >> 32u64) & 0xff) as u8);
    out.push(((x >> 40u64) & 0xff) as u8);
    out.push(((x >> 48u64) & 0xff) as u8);
    out.push(((x >> 56u64) & 0xff) as u8);
    assert(final(out)@ =~= old(out)@ + u64_le(x));
}

fn read_u32_at(b: &[u8], p: usize) -> (r: u32)
    requires
        p + 4 <= b@.len(),
    ensures
        r == read_u32(b@, p as int),
{
    reveal(read_u32);
    (b[p] as u32) | ((b[p + 1] as u32) << 8u32) | ((b[p + 2] as u32) << 16u32) | ((b[p + 3] as u32)
        << 24u32)
}

fn read_u64_at(b: &[u8], p: usize) -> (r: u64)
    requires
        p + 8 <= b@.len(),
    ensures
        r == read_u64(b@, p as int),
{
    reveal(read_u64);
    (b[p] as u64) | ((b[p + 1] as u64) << 8u64) | ((b[p + 2] as u64) << 16u64) | ((b[p + 3] as u64)
        << 24u64) | ((b[p + 4] as u64) << 32u64) | ((b[p + 5] as u64) << 40u64) | ((b[p + 6] as u64)
        << 48u64) | ((b[p + 7] as u64) << 56u64)
}

/// Sizes in bytes of the headers and of the elements of an index's file; `None` where the
/// file would not fit in memory.
pub fn calculate_file_length(inverted_index_ram: &InvertedIndexRam) -> (r: Option<(usize, usize)>)
    ensures
        match r {
            Some((h, e)) => {
                &&& h == 16 * inverted_index_ram.postings.len()
                &&& e == region_len(postings_of(inverted_index_ram), inverted_index_ram.postings.len() as int)
                &&& h + e <= usize::MAX
            },
            None => file_len(postings_of(inverted_index_ram)) > usize::MAX,
        },
{
    let ghost ps = postings_of(inverted_index_ram);
    let n = inverted_index_ram.postings.len();
    if n > usize::MAX / 16 {
        proof {
            lemma_region_len_monotone(ps, 0, n as int);
        }
        return None;
    }
    let headers = n * 16;
    let mut total: usize = headers;
    let mut d: usize = 0;
    while d < n
        invariant
            n == inverted_index_ram.postings.len(),
            ps == postings_of(inverted_index_ram),
            headers == 16 * n,
            d <= n,
            total == headers + region_len(ps, d as int),
            region_len(ps, d as int) >= 0,
        decreases n - d,
    {
        let len = inverted_index_ram.postings[d].elements.len();
        assert(ps[d as int].len() == len);
        if len > (usize::MAX - total) / 12 {
            proof {
                lemma_region_len_monotone(ps, d as int + 1, n as int);
            }
            return None;
        }
        total = total + len * 12;
        d += 1;
    }
    Some((headers, total - headers))
}

/// Appends the header of every posting list: the byte range of its elements, the elements
/// starting after all headers, list after list.
pub fn save_posting_headers(out: &mut Vec<u8>, inverted_index_ram: &InvertedIndexRam, total_posting_headers_size: usize)
    requires
        total_posting_headers_size == 16 * inverted_index_ram.postings.len(),
        file_len(postings_of(inverted_index_ram)) <= usize::MAX,
    ensures
        final(out)@ == old(out)@ + headers_bytes(
            postings_of(inverted_index_ram),
            inverted_index_ram.postings.len() as int,
            total_posting_headers_size as int,
        ),
{
    let ghost ps = postings_of(inverted_index_ram);
    let ghost start = old(out)@;
    let n = inverted_index_ram.postings.len();
    let mut elements_offset: usize = total_posting_headers_size;
    let mut d: usize = 0;
    while d < n
        invariant
            n == inverted_index_ram.postings.len(),
            ps == postings_of(inverted_index_ram),
            file_len(ps) <= usize::MAX,
            total_posting_headers_size == 16 * n,
            d <= n,
            elements_offset == total_posting_headers_size + region_len(ps, d as int),
            out@ == start + headers_bytes(ps, d as int, total_posting_headers_size as int),
        decreases n - d,
    {
        proof {
            lemma_region_len_monotone(ps, d as int + 1, n as int);
        }
        let size = inverted_index_ram.postings[d].elements.len() * 12;
        assert(ps[d as int].len() * 12 == size);
        let header = PostingListFileHeader {
            start_offset: elements_offset as u64,
            end_offset: (elements_offset + size) as u64,
        };
        push_u64(out, header.start_offset);
        push_u64(out, header.end_offset);
        elements_offset = elements_offset + size;
        d += 1;
        assert(out@ =~= start + headers_bytes(ps, d as int, total_posting_headers_size as int));
    }
}

/// Appends the elements of every posting list, list after list.
pub fn save_posting_elements(out: &mut Vec<u8>, inverted_index_ram: &InvertedIndexRam)
    ensures
        final(out)@ == old(out)@ + elements_bytes(
            postings_of(inverted_index_ram),
            inverted_index_ram.postings.len() as int,
        ),
{
    let ghost ps = postings_of(inverted_index_ram);
    let ghost start = old(out)@;
    let n = inverted_index_ram.postings.len();
    let mut d: usize = 0;
    while d < n
        invariant
            n == inverted_index_ram.postings.len(),
            ps == postings_of(inverted_index_ram),
            d <= n,
            out@ == start + elements_bytes(ps, d as int),
        decreases n - d,
    {
        let elements = &inverted_index_ram.postings[d].elements;
        assert(elements@ == ps[d as int]);
        let ghost before = out@;
        let mut i: usize = 0;
        while i < elements.len()
            invariant
                i <= elements.len(),
                out@ == before + posting_bytes(elements@.subrange(0, i as int)),
            decreases elements.len() - i,
        {
            let e = elements[i];
            push_u32(out, e.id);
            push_u32(out, #[verifier::truncate] (e.weight as u32));
            push_u32(out, #[verifier::truncate] (e.max_next_weight as u32));
            i += 1;
            assert(elements@.subrange(0, i as int).drop_last() =~= elements@.subrange(0, i - 1));
            assert(out@ =~= before + posting_bytes(elements@.subrange(0, i as int)));
        }
        assert(elements@.subrange(0, elements.len() as int) =~= elements@);
        d += 1;
        assert(out@ =~= start + elements_bytes(ps, d as int));
    }
}

/// The bytes of an index's file; `None` where it would not fit in memory.
pub fn serialize_index(inverted_index_ram: &InvertedIndexRam) -> (r: Option<Vec<u8>>)
    ensures
        match r {
            Some(b) => b@ == index_bytes(postings_of(inverted_index_ram)),
            None => file_len(postings_of(inverted_index_ram)) > usize::MAX,
        },
{
    match calculate_file_length(inverted_index_ram) {
        None => None,
        Some((headers, elements)) => {
            let mut out: Vec<u8> = Vec::with_capacity(headers + elements);
            save_posting_headers(&mut out, inverted_index_ram, headers);
            save_posting_elements(&mut out, inverted_index_ram);
            assert(out@ =~= index_bytes(postings_of(inverted_index_ram)));
            Some(out)
        },
    }
}

/// Reads the posting list of dimension `id` from the bytes of an index file with
/// `posting_count` headers.
pub fn posting_from_bytes(bytes: &[u8], posting_count: usize, id: DimId) -> (r: Option<Vec<PostingElement>>)
    ensures
        match r {
            Some(v) => decode_posting(bytes@, posting_count as int, id as int) == Some(v@),
            None => decode_posting(bytes@, posting_count as int, id as int) is None,
        },
{
    let d = id as usize;
    if bytes.len() < 16 || d >= posting_count || d > (bytes.len() - 16) / 16 {
        return None;
    }
    let start = read_u64_at(bytes, d * 16);
    let end = read_u64_at(bytes, d * 16 + 8);
    if start > end || end > bytes.len() as u64 || (end - start) % 12 != 0 {
        return None;
    }
    let start = start as usize;
    let count = ((end as usize) - start) / 12;
    assert(count * 12 == end - start);
    let mut elements: Vec<PostingElement> = Vec::with_capacity(count);
    let mut i: usize = 0;
    while i < count
        invariant
            i <= count,
            count * 12 == end - start,
            start <= end <= bytes@.len(),
            bytes@.len() <= usize::MAX,
            elements@ == Seq::new(i as nat, |k: int| read_element(bytes@, start + 12 * k)),
        decreases count - i,
    {
        assert(12 * i + 12 <= end - start) by (nonlinear_arith)
            requires
                i < count,
                count * 12 == end - start,
        ;
        let p = start + 12 * i;
        let element = PostingElement {
            id: read_u32_at(bytes, p),
            weight: #[verifier::truncate] (read_u32_at(bytes, p + 4) as i32),
            max_next_weight: #[verifier::truncate] (read_u32_at(bytes, p + 8) as i32),
        };
        elements.push(element);
        i += 1;
        assert(elements@ =~= Seq::new(i as nat, |k: int| read_element(bytes@, start + 12 * k)));
    }
    Some(elements)
}

} // verus!
