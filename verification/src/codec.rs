//! The canonical binary encoding used by every hashed structure. All
//! multi-byte integers are big-endian; variable-length byte strings carry a
//! 64-bit length prefix; fixed-width fields are written raw, in declared
//! field order. The encoding is deterministic, so hashes agree across nodes.

use vstd::prelude::*;

verus! {

/// A `u64` as 8 big-endian bytes.
pub open spec fn u64_be(x: u64) -> Seq<u8> {
    Seq::new(8, |i: int| (((x >> ((56 - 8 * i) as u64)) & 0xff) as u8))
}

/// A `u32` as 4 big-endian bytes.
pub open spec fn u32_be(x: u32) -> Seq<u8> {
    Seq::new(4, |i: int| (((x >> ((24 - 8 * i) as u32)) & 0xff) as u8))
}

/// A `u128` as 16 big-endian bytes.
pub open spec fn u128_be(x: u128) -> Seq<u8> {
    Seq::new(16, |i: int| (((x >> ((120 - 8 * i) as u128)) & 0xff) as u8))
}

/// A byte string with its 64-bit big-endian length prefix.
pub open spec fn len_prefixed(data: Seq<u8>) -> Seq<u8> {
    u64_be(data.len() as u64) + data
}

pub fn push_u64_be(out: &mut Vec<u8>, x: u64)
    ensures
        final(out)@ == old(out)@ + u64_be(x),
{
    let ghost orig = out@;
    let mut i: usize = 0;
    while i < 8
        invariant
            i <= 8,
            out@.len() == orig.len() + i,
            forall|j: int| 0 <= j < orig.len() ==> out@[j] == orig[j],
            forall|j: int|
                0 <= j < i ==> #[trigger] out@[orig.len() + j] == (((x >> ((56 - 8 * j)
                    as u64)) & 0xff) as u8),
        decreases 8 - i,
    {
        let sh: u64 = 56 - 8 * (i as u64);
        out.push(((x >> sh) & 0xff) as u8);
        i = i + 1;
    }
    proof {
        assert forall|j: int| 0 <= j < out@.len() implies out@[j] == (orig + u64_be(x))[j] by {
            if j < orig.len() {
                assert(out@[j] == orig[j]);
            } else {
                let k = j - orig.len();
                assert(out@[orig.len() + k] == (((x >> ((56 - 8 * k) as u64)) & 0xff) as u8));
                assert(u64_be(x)[k] == (((x >> ((56 - 8 * k) as u64)) & 0xff) as u8));
            }
        }
        assert(out@ =~= orig + u64_be(x));
    }
}

pub fn push_u32_be(out: &mut Vec<u8>, x: u32)
    ensures
        final(out)@ == old(out)@ + u32_be(x),
{
    let ghost orig = out@;
    let mut i: usize = 0;
    while i < 4
        invariant
            i <= 4,
            out@.len() == orig.len() + i,
            forall|j: int| 0 <= j < orig.len() ==> out@[j] == orig[j],
            forall|j: int|
                0 <= j < i ==> #[trigger] out@[orig.len() + j] == (((x >> ((24 - 8 * j)
                    as u32)) & 0xff) as u8),
        decreases 4 - i,
    {
        let sh: u32 = 24 - 8 * (i as u32);
        out.push(((x >> sh) & 0xff) as u8);
        i = i + 1;
    }
    proof {
        assert forall|j: int| 0 <= j < out@.len() implies out@[j] == (orig + u32_be(x))[j] by {
            if j < orig.len() {
                assert(out@[j] == orig[j]);
            } else {
                let k = j - orig.len();
                assert(out@[orig.len() + k] == (((x >> ((24 - 8 * k) as u32)) & 0xff) as u8));
                assert(u32_be(x)[k] == (((x >> ((24 - 8 * k) as u32)) & 0xff) as u8));
            }
        }
        assert(out@ =~= orig + u32_be(x));
    }
}

pub fn push_u128_be(out: &mut Vec<u8>, x: u128)
    ensures
        final(out)@ == old(out)@ + u128_be(x),
{
    let ghost orig = out@;
    let mut i: usize = 0;
    while i < 16
        invariant
            i <= 16,
            out@.len() == orig.len() + i,
            forall|j: int| 0 <= j < orig.len() ==> out@[j] == orig[j],
            forall|j: int|
                0 <= j < i ==> #[trigger] out@[orig.len() + j] == (((x >> ((120 - 8 * j)
                    as u128)) & 0xff) as u8),
        decreases 16 - i,
    {
        let sh: u32 = 120 - 8 * (i as u32);
        out.push(((x >> (sh as u128)) & 0xff) as u8);
        i = i + 1;
    }
    proof {
        assert forall|j: int| 0 <= j < out@.len() implies out@[j] == (orig + u128_be(x))[j] by {
            if j < orig.len() {
                assert(out@[j] == orig[j]);
            } else {
                let k = j - orig.len();
                assert(out@[orig.len() + k] == (((x >> ((120 - 8 * k) as u128)) & 0xff) as u8));
                assert(u128_be(x)[k] == (((x >> ((120 - 8 * k) as u128)) & 0xff) as u8));
            }
        }
        assert(out@ =~= orig + u128_be(x));
    }
}

pub fn push_bytes(out: &mut Vec<u8>, data: &Vec<u8>)
    ensures
        final(out)@ == old(out)@ + data@,
{
    out.extend_from_slice(data.as_slice());
}

/// A byte string preceded by its 64-bit length.
pub fn push_len_prefixed(out: &mut Vec<u8>, data: &Vec<u8>)
    ensures
        final(out)@ == old(out)@ + len_prefixed(data@),
{
    let ghost orig = out@;
    push_u64_be(out, data.len() as u64);
    push_bytes(out, data);
    proof {
        assert(out@ =~= orig + len_prefixed(data@));
    }
}

/// Big-endian encoding loses no information.
pub proof fn lemma_u64_be_injective(x: u64, y: u64)
    requires
        u64_be(x) == u64_be(y),
    ensures
        x == y,
{
    assert(u64_be(x)[0] == ((x >> 56u64) & 0xff) as u8);
    assert(u64_be(y)[0] == ((y >> 56u64) & 0xff) as u8);
    assert(u64_be(x)[1] == ((x >> 48u64) & 0xff) as u8);
    assert(u64_be(y)[1] == ((y >> 48u64) & 0xff) as u8);
    assert(u64_be(x)[2] == ((x >> 40u64) & 0xff) as u8);
    assert(u64_be(y)[2] == ((y >> 40u64) & 0xff) as u8);
    assert(u64_be(x)[3] == ((x >> 32u64) & 0xff) as u8);
    assert(u64_be(y)[3] == ((y >> 32u64) & 0xff) as u8);
    assert(u64_be(x)[4] == ((x >> 24u64) & 0xff) as u8);
    assert(u64_be(y)[4] == ((y >> 24u64) & 0xff) as u8);
    assert(u64_be(x)[5] == ((x >> 16u64) & 0xff) as u8);
    assert(u64_be(y)[5] == ((y >> 16u64) & 0xff) as u8);
    assert(u64_be(x)[6] == ((x >> 8u64) & 0xff) as u8);
    assert(u64_be(y)[6] == ((y >> 8u64) & 0xff) as u8);
    assert(u64_be(x)[7] == ((x >> 0u64) & 0xff) as u8);
    assert(u64_be(y)[7] == ((y >> 0u64) & 0xff) as u8);
    assert(x == y) by (bit_vector)
        requires
            ((x >> 56u64) & 0xff) as u8 == ((y >> 56u64) & 0xff) as u8,
            ((x >> 48u64) & 0xff) as u8 == ((y >> 48u64) & 0xff) as u8,
            ((x >> 40u64) & 0xff) as u8 == ((y >> 40u64) & 0xff) as u8,
            ((x >> 32u64) & 0xff) as u8 == ((y >> 32u64) & 0xff) as u8,
            ((x >> 24u64) & 0xff) as u8 == ((y >> 24u64) & 0xff) as u8,
            ((x >> 16u64) & 0xff) as u8 == ((y >> 16u64) & 0xff) as u8,
            ((x >> 8u64) & 0xff) as u8 == ((y >> 8u64) & 0xff) as u8,
            ((x >> 0u64) & 0xff) as u8 == ((y >> 0u64) & 0xff) as u8,
    ;
}

/// A pair of big-endian `u64`s loses no information.
pub proof fn lemma_u64_be_pair_injective(x1: u64, y1: u64, x2: u64, y2: u64)
    requires
        u64_be(x1) + u64_be(y1) == u64_be(x2) + u64_be(y2),
    ensures
        x1 == x2,
        y1 == y2,
{
    lemma_concat_split(u64_be(x1), u64_be(y1), u64_be(x2), u64_be(y2));
    lemma_u64_be_injective(x1, x2);
    lemma_u64_be_injective(y1, y2);
}

/// Splitting a concatenation at a known boundary recovers both halves.
pub proof fn lemma_concat_split(a1: Seq<u8>, b1: Seq<u8>, a2: Seq<u8>, b2: Seq<u8>)
    requires
        a1.len() == a2.len(),
        a1 + b1 == a2 + b2,
    ensures
        a1 == a2,
        b1 == b2,
{
    assert((a1 + b1).len() == a1.len() + b1.len());
    assert((a2 + b2).len() == a2.len() + b2.len());
    assert(b1.len() == b2.len());
    assert forall|i: int| 0 <= i < a1.len() implies a1[i] == a2[i] by {
        assert((a1 + b1)[i] == a1[i]);
        assert((a2 + b2)[i] == a2[i]);
    }
    assert(a1 =~= a2);
    assert forall|i: int| 0 <= i < b1.len() implies b1[i] == b2[i] by {
        assert((a1 + b1)[a1.len() + i] == b1[i]);
        assert((a2 + b2)[a2.len() + i] == b2[i]);
    }
    assert(b1 =~= b2);
}

} // verus!
