//! 32-byte content hashes and 20-byte account addresses, with the
//! big-endian byte ordering used by the proof-of-work comparison, and the
//! SHA-256 primitive behind a trusted wrapper.

use vstd::prelude::*;

verus! {

/// The SHA-256 digest of a byte string, named abstractly: the digest is a
/// function of the input bytes alone.
pub uninterp spec fn sha256(data: Seq<u8>) -> Seq<u8>;

/// Whether SHA-256 is injective. Real-world collisions are believed
/// infeasible to find; statements that depend on the absence of collisions
/// take this as a hypothesis.
pub open spec fn sha256_injective() -> bool {
    forall|a: Seq<u8>, b: Seq<u8>| #[trigger] sha256(a) == #[trigger] sha256(b) ==> a == b
}

/// A 32-byte content hash. Ordering is unsigned big-endian, so comparison
/// starts at the most significant byte.
#[derive(Clone, Copy, Debug, PartialEq, Eq, Hash)]
pub struct H256 {
    bytes: [u8; 32],
}

/// A 20-byte account address, derived from an Ed25519 public key as the
/// last 20 bytes of its SHA-256 digest.
#[derive(Clone, Copy, Debug, PartialEq, Eq, Hash)]
pub struct Address {
    bytes: [u8; 20],
}

impl View for H256 {
    type V = Seq<u8>;

    closed spec fn view(&self) -> Seq<u8> {
        self.bytes@
    }
}

impl View for Address {
    type V = Seq<u8>;

    closed spec fn view(&self) -> Seq<u8> {
        self.bytes@
    }
}

/// A hash's view is exactly 32 bytes.
pub broadcast proof fn lemma_h256_view_len(h: H256)
    ensures
        (#[trigger] h@).len() == 32,
{
}

/// An address's view is exactly 20 bytes.
pub broadcast proof fn lemma_address_view_len(a: Address)
    ensures
        (#[trigger] a@).len() == 20,
{
}

/// The all-zero 32-byte string: the default hash.
pub open spec fn zero_hash() -> Seq<u8> {
    Seq::new(32, |i: int| 0u8)
}

impl H256 {
    pub fn from_bytes(bytes: [u8; 32]) -> (r: H256)
        ensures
            r@ == bytes@,
    {
        H256 { bytes }
    }

    pub fn zero() -> (r: H256)
        ensures
            r@ == zero_hash(),
    {
        let bytes = [0u8; 32];
        proof {
            assert(bytes@ =~= zero_hash());
        }
        H256 { bytes }
    }

    pub fn to_bytes(&self) -> (r: [u8; 32])
        ensures
            r@ == self@,
    {
        self.bytes
    }

    /// Byte-for-byte equality.
    pub fn eq_h(&self, other: &H256) -> (r: bool)
        ensures
            r == (self@ == other@),
    {
        let mut i: usize = 0;
        while i < 32
            invariant
                i <= 32,
                forall|j: int| 0 <= j < i ==> self.bytes@[j] == other.bytes@[j],
            decreases 32 - i,
        {
            if self.bytes[i] != other.bytes[i] {
                return false;
            }
            i = i + 1;
        }
        proof {
            assert(self@ =~= other@);
        }
        true
    }

    /// Append the 32 bytes to a buffer.
    pub fn append_to(&self, out: &mut Vec<u8>)
        ensures
            final(out)@ == old(out)@ + self@,
    {
        let ghost orig = out@;
        let mut i: usize = 0;
        while i < 32
            invariant
                i <= 32,
                out@ == orig + self@.subrange(0, i as int),
            decreases 32 - i,
        {
            out.push(self.bytes[i]);
            proof {
                assert(out@ =~= orig + self@.subrange(0, i + 1));
            }
            i = i + 1;
        }
        proof {
            assert(self@.subrange(0, 32) =~= self@);
        }
    }

    /// Whether `self <= other` as unsigned big-endian integers.
    pub fn le(&self, other: &H256) -> (r: bool)
        ensures
            r == bytes_le(self@, other@),
    {
        let mut i: usize = 0;
        while i < 32
            invariant
                i <= 32,
                forall|j: int| 0 <= j < i ==> self.bytes@[j] == other.bytes@[j],
            decreases 32 - i,
        {
            if self.bytes[i] < other.bytes[i] {
                proof {
                    assert(bytes_lt(self@, other@));
                }
                return true;
            }
            if self.bytes[i] > other.bytes[i] {
                proof {
                    lemma_first_difference_not_lt(self@, other@, i as int);
                    assert(self@ !~= other@);
                }
                return false;
            }
            i = i + 1;
        }
        proof {
            assert(self@ =~= other@);
        }
        true
    }
}

impl Address {
    pub fn from_bytes(bytes: [u8; 20]) -> (r: Address)
        ensures
            r@ == bytes@,
    {
        Address { bytes }
    }

    pub fn to_bytes(&self) -> (r: [u8; 20])
        ensures
            r@ == self@,
    {
        self.bytes
    }

    /// The address that a public key hashes to: the last 20 bytes of the
    /// key's SHA-256 digest.
    pub fn from_public_key_bytes(pk: &Vec<u8>) -> (r: Address)
        ensures
            r@ == address_of_pk(pk@),
    {
        let h = sha256_digest(pk);
        let hb = h.to_bytes();
        let mut bytes = [0u8; 20];
        let mut i: usize = 0;
        while i < 20
            invariant
                i <= 20,
                hb@ == sha256(pk@),
                forall|j: int| 0 <= j < i ==> bytes@[j] == hb@[j + 12],
            decreases 20 - i,
        {
            bytes[i] = hb[i + 12];
            i = i + 1;
        }
        proof {
            assert(bytes@ =~= address_of_pk(pk@));
        }
        Address { bytes }
    }

    /// Append the 20 bytes to a buffer.
    pub fn append_to(&self, out: &mut Vec<u8>)
        ensures
            final(out)@ == old(out)@ + self@,
    {
        let ghost orig = out@;
        let mut i: usize = 0;
        while i < 20
            invariant
                i <= 20,
                out@ == orig + self@.subrange(0, i as int),
            decreases 20 - i,
        {
            out.push(self.bytes[i]);
            proof {
                assert(out@ =~= orig + self@.subrange(0, i + 1));
            }
            i = i + 1;
        }
        proof {
            assert(self@.subrange(0, 20) =~= self@);
        }
    }

    /// Byte-for-byte equality.
    pub fn eq_a(&self, other: &Address) -> (r: bool)
        ensures
            r == (self@ == other@),
    {
        let mut i: usize = 0;
        while i < 20
            invariant
                i <= 20,
                forall|j: int| 0 <= j < i ==> self.bytes@[j] == other.bytes@[j],
            decreases 20 - i,
        {
            if self.bytes[i] != other.bytes[i] {
                return false;
            }
            i = i + 1;
        }
        proof {
            assert(self@ =~= other@);
        }
        true
    }

    /// Whether `self < other` in byte-lexicographic order.
    pub fn lt(&self, other: &Address) -> (r: bool)
        ensures
            r == bytes_lt(self@, other@),
    {
        let mut i: usize = 0;
        while i < 20
            invariant
                i <= 20,
                forall|j: int| 0 <= j < i ==> self.bytes@[j] == other.bytes@[j],
            decreases 20 - i,
        {
            if self.bytes[i] < other.bytes[i] {
                return true;
            }
            if self.bytes[i] > other.bytes[i] {
                proof {
                    lemma_first_difference_not_lt(self@, other@, i as int);
                }
                return false;
            }
            i = i + 1;
        }
        proof {
            lemma_equal_not_lt(self@, other@);
        }
        false
    }
}

/// Strict lexicographic order on equal-length byte strings: some position
/// decides, and all positions before it agree.
pub open spec fn bytes_lt(a: Seq<u8>, b: Seq<u8>) -> bool {
    exists|i: int|
        0 <= i < a.len() && #[trigger] a[i] < b[i] && (forall|j: int| 0 <= j < i ==> a[j] == b[j])
}

/// Lexicographic order, allowing equality.
pub open spec fn bytes_le(a: Seq<u8>, b: Seq<u8>) -> bool {
    a == b || bytes_lt(a, b)
}

/// The last 20 bytes of the SHA-256 digest of a public key.
pub open spec fn address_of_pk(pk: Seq<u8>) -> Seq<u8> {
    sha256(pk).subrange(12, 32)
}

/// Two equal-length byte strings compare: equal, or one is less.
pub proof fn lemma_bytes_lt_total(a: Seq<u8>, b: Seq<u8>)
    requires
        a.len() == b.len(),
    ensures
        a == b || bytes_lt(a, b) || bytes_lt(b, a),
{
    if a != b {
        let i = lemma_find_first_difference(a, b, 0);
        if a[i] < b[i] {
            assert(bytes_lt(a, b));
        } else {
            assert(bytes_lt(b, a));
        }
    }
}

/// The first position where two unequal strings differ.
proof fn lemma_find_first_difference(a: Seq<u8>, b: Seq<u8>, k: int) -> (i: int)
    requires
        a.len() == b.len(),
        0 <= k <= a.len(),
        a != b,
        forall|j: int| 0 <= j < k ==> a[j] == b[j],
    ensures
        k <= i < a.len(),
        a[i] != b[i],
        forall|j: int| 0 <= j < i ==> a[j] == b[j],
    decreases a.len() - k,
{
    if k == a.len() {
        assert(a =~= b);
        k
    } else if a[k] != b[k] {
        k
    } else {
        lemma_find_first_difference(a, b, k + 1)
    }
}

/// Strict lexicographic order is transitive on equal-length strings.
pub proof fn lemma_bytes_lt_trans(a: Seq<u8>, b: Seq<u8>, c: Seq<u8>)
    requires
        a.len() == b.len(),
        b.len() == c.len(),
        bytes_lt(a, b),
        bytes_lt(b, c),
    ensures
        bytes_lt(a, c),
{
    let i = choose|i: int|
        0 <= i < a.len() && #[trigger] a[i] < b[i] && (forall|j: int| 0 <= j < i ==> a[j] == b[j]);
    let k = choose|k: int|
        0 <= k < b.len() && #[trigger] b[k] < c[k] && (forall|j: int| 0 <= j < k ==> b[j] == c[j]);
    if i < k {
        assert(a[i] < c[i] && (forall|j: int| 0 <= j < i ==> a[j] == c[j]));
        assert(bytes_lt(a, c));
    } else if k < i {
        assert(a[k] < c[k] && (forall|j: int| 0 <= j < k ==> a[j] == c[j]));
        assert(bytes_lt(a, c));
    } else {
        assert(a[i] < c[i] && (forall|j: int| 0 <= j < i ==> a[j] == c[j]));
        assert(bytes_lt(a, c));
    }
}

proof fn lemma_first_difference_not_lt(a: Seq<u8>, b: Seq<u8>, i: int)
    requires
        a.len() == b.len(),
        0 <= i < a.len(),
        a[i] > b[i],
        forall|j: int| 0 <= j < i ==> a[j] == b[j],
    ensures
        !bytes_lt(a, b),
{
    assert forall|k: int|
        0 <= k < a.len() && #[trigger] a[k] < b[k] implies !(forall|j: int|
        0 <= j < k ==> a[j] == b[j]) by {
        if k < i {
            assert(a[k] == b[k]);
        } else if k == i {
            assert(a[i] > b[i]);
        } else {
            assert(a[i] != b[i]);
            assert(0 <= i < k);
        }
    }
}

proof fn lemma_equal_not_lt(a: Seq<u8>, b: Seq<u8>)
    requires
        a.len() == b.len(),
        forall|j: int| 0 <= j < a.len() ==> a[j] == b[j],
    ensures
        !bytes_lt(a, b),
{
}

/// Relies on ring::digest::digest with ring::digest::SHA256: the result is
/// the 32-byte SHA-256 digest of the input, a function of the input alone.
#[verifier::external_body]
pub fn sha256_digest(data: &Vec<u8>) -> (r: H256)
    ensures
        r@ == sha256(data@),
{
    let d = ring::digest::digest(&ring::digest::SHA256, data);
    let mut bytes = [0u8; 32];
    bytes.copy_from_slice(d.as_ref());
    H256 { bytes }
}

} // verus!
