//! A Merkle tree over an ordered transaction list. Adjacent pairs are
//! hashed together; an odd last item is paired with itself. The root of an
//! empty list is the all-zero hash. A path lists the sibling hash at each
//! level from leaf to root.

use vstd::prelude::*;
use crate::hash::{sha256, sha256_digest, sha256_injective, zero_hash, H256};
use crate::transaction::{stx_hash, SignedTransaction, StxView};

verus! {

/// The hash of two child hashes laid side by side.
pub open spec fn hash_pair(l: Seq<u8>, r: Seq<u8>) -> Seq<u8> {
    sha256(l + r)
}

/// One level up: pairs hashed, an odd last element paired with itself.
pub open spec fn parent_level(level: Seq<Seq<u8>>) -> Seq<Seq<u8>> {
    Seq::new(
        ((level.len() + 1) / 2) as nat,
        |i: int|
            if 2 * i + 1 < level.len() {
                hash_pair(level[2 * i], level[2 * i + 1])
            } else {
                hash_pair(level[2 * i], level[2 * i])
            },
    )
}

/// The root a level reduces to.
pub open spec fn root_of_level(level: Seq<Seq<u8>>) -> Seq<u8>
    decreases level.len(),
{
    if level.len() == 0 {
        zero_hash()
    } else if level.len() == 1 {
        level[0]
    } else {
        root_of_level(parent_level(level))
    }
}

/// The leaf hashes of a transaction list.
pub open spec fn leaf_hashes(data: Seq<StxView>) -> Seq<Seq<u8>> {
    Seq::new(data.len(), |i: int| stx_hash(data[i]))
}

/// The Merkle root a transaction list commits to.
pub open spec fn merkle_root_of(data: Seq<StxView>) -> Seq<u8> {
    root_of_level(leaf_hashes(data))
}

/// The sibling hashes along the path from a leaf to the root.
pub open spec fn proof_of_level(level: Seq<Seq<u8>>, idx: int) -> Seq<Seq<u8>>
    decreases level.len(),
{
    if level.len() <= 1 {
        Seq::empty()
    } else {
        let sib = if idx % 2 == 0 {
            if idx + 1 < level.len() {
                level[idx + 1]
            } else {
                level[idx]
            }
        } else {
            level[idx - 1]
        };
        seq![sib] + proof_of_level(parent_level(level), idx / 2)
    }
}

/// Recompute the root bottom-up: bit 0 of the index at each level decides
/// the order of concatenation.
pub open spec fn verify_fold(datum: Seq<u8>, path: Seq<Seq<u8>>, idx: int) -> Seq<u8>
    decreases path.len(),
{
    if path.len() == 0 {
        datum
    } else {
        let next = if idx % 2 == 0 {
            hash_pair(datum, path[0])
        } else {
            hash_pair(path[0], datum)
        };
        verify_fold(next, path.drop_first(), idx / 2)
    }
}

/// What a successful verification means.
pub open spec fn verify_spec(
    root: Seq<u8>,
    datum: Seq<u8>,
    path: Seq<Seq<u8>>,
    index: int,
    leaf_size: int,
) -> bool {
    0 <= index < leaf_size && verify_fold(datum, path, index) == root
}

/// The views of a level's hashes.
pub open spec fn level_view(v: Seq<H256>) -> Seq<Seq<u8>> {
    Seq::new(v.len(), |i: int| v[i]@)
}

/// All levels of the tree, leaves first. Level `k+1` pairs level `k`; the
/// last level is the root alone.
pub struct MerkleTree {
    values: Vec<Vec<H256>>,
}

impl MerkleTree {
    /// Either no leaves at all, or a full pyramid of levels.
    pub closed spec fn wf(&self) -> bool {
        if self.values@.len() == 0 {
            true
        } else {
            &&& level_view(self.values@.last()@).len() == 1
            &&& forall|k: int|
                0 <= k < self.values@.len() - 1 ==> #[trigger] level_view(self.values@[k]@).len()
                    > 1
            &&& forall|k: int|
                0 <= k < self.values@.len() - 1 ==> #[trigger] level_view(self.values@[k + 1]@)
                    == parent_level(level_view(self.values@[k]@))
        }
    }

    /// The leaf hashes the tree was built over.
    pub closed spec fn view(&self) -> Seq<Seq<u8>> {
        if self.values@.len() == 0 {
            Seq::empty()
        } else {
            level_view(self.values@[0]@)
        }
    }

    /// Build the tree over a transaction list.
    pub fn new(data: &Vec<SignedTransaction>) -> (r: MerkleTree)
        ensures
            r.wf(),
            r@ == leaf_hashes(data@.map_values(|t: SignedTransaction| t@)),
    {
        let ghost dview = data@.map_values(|t: SignedTransaction| t@);
        if data.len() == 0 {
            let r = MerkleTree { values: Vec::new() };
            proof {
                assert(r@ =~= leaf_hashes(dview));
            }
            return r;
        }
        let mut leaves: Vec<H256> = Vec::new();
        let mut i: usize = 0;
        while i < data.len()
            invariant
                i <= data@.len(),
                leaves@.len() == i,
                forall|j: int| 0 <= j < i ==> #[trigger] leaves@[j]@ == stx_hash(data@[j]@),
            decreases data@.len() - i,
        {
            let h = data[i].hash();
            leaves.push(h);
            i = i + 1;
        }
        proof {
            assert(level_view(leaves@) =~= leaf_hashes(dview));
        }
        let mut values: Vec<Vec<H256>> = Vec::new();
        values.push(leaves);
        while values[values.len() - 1].len() > 1
            invariant
                values@.len() >= 1,
                level_view(values@[0]@) == leaf_hashes(dview),
                forall|k: int|
                    0 <= k < values@.len() ==> #[trigger] level_view(values@[k]@).len() > 0,
                forall|k: int|
                    0 <= k < values@.len() - 1 ==> #[trigger] level_view(values@[k]@).len() > 1,
                forall|k: int|
                    0 <= k < values@.len() - 1 ==> #[trigger] level_view(values@[k + 1]@)
                        == parent_level(level_view(values@[k]@)),
            decreases level_view(values@.last()@).len(),
        {
            let current = &values[values.len() - 1];
            let n = current.len();
            let mut next: Vec<H256> = Vec::new();
            let mut j: usize = 0;
            let ghost cur_view = level_view(current@);
            while j + 1 < n
                invariant
                    n == cur_view.len(),
                    n >= 2,
                    cur_view == level_view(values@.last()@),
                    values@.len() >= 1,
                    j % 2 == 0,
                    j <= n + 1,
                    next@.len() == j / 2,
                    forall|p: int|
                        0 <= p < j / 2 ==> #[trigger] next@[p]@ == parent_level(cur_view)[p],
                decreases n - j,
            {
                let left = &values[values.len() - 1][j];
                let right = &values[values.len() - 1][j + 1];
                let parent = hash_pair_exec(left, right);
                next.push(parent);
                j = j + 2;
            }
            if j < n {
                let left = &values[values.len() - 1][j];
                let parent = hash_pair_exec(left, left);
                next.push(parent);
                proof {
                    assert(j + 1 == n);
                    assert(next@.len() == (n + 1) / 2);
                    assert(next@[j as int / 2]@ == parent_level(cur_view)[j as int / 2]);
                }
            }
            proof {
                assert(next@.len() == (n as int + 1) / 2);
                assert(level_view(next@) =~= parent_level(cur_view));
            }
            let ghost values_before = values@;
            values.push(next);
            proof {
                assert(values@.last()@ == next@);
                assert forall|k: int|
                    0 <= k < values@.len() - 1 implies #[trigger] level_view(values@[k + 1]@)
                    == parent_level(level_view(values@[k]@)) by {
                    if k < values_before.len() - 1 {
                        assert(values@[k]@ == values_before[k]@);
                        assert(values@[k + 1]@ == values_before[k + 1]@);
                        assert(level_view(values_before[k + 1]@) == parent_level(
                            level_view(values_before[k]@),
                        ));
                    } else {
                        assert(values@[k]@ == values_before.last()@);
                    }
                }
                assert(parent_level(cur_view).len() < cur_view.len());
            }
        }
        let r = MerkleTree { values };
        proof {
            assert(r.wf());
        }
        r
    }

    /// The root: the single hash of the last level, or all zeroes for an
    /// empty tree.
    pub fn root(&self) -> (r: H256)
        requires
            self.wf(),
        ensures
            r@ == root_of_level(self@),
    {
        if self.values.len() == 0 {
            return H256::zero();
        }
        proof {
            self.lemma_root_from(0);
        }
        self.values[self.values.len() - 1][0]
    }

    /// The root of each level equals the root of the level below it.
    proof fn lemma_root_from(&self, k: int)
        requires
            self.wf(),
            self.values@.len() > 0,
            0 <= k < self.values@.len(),
        ensures
            root_of_level(level_view(self.values@[k]@)) == level_view(self.values@.last()@)[0],
        decreases self.values@.len() - k,
    {
        if k == self.values@.len() - 1 {
        } else {
            assert(level_view(self.values@[k]@).len() > 1);
            self.lemma_root_from(k + 1);
        }
    }

    /// The sibling hashes for the leaf at `index`, or an empty path when
    /// the index is out of range.
    pub fn proof_at(&self, index: usize) -> (r: Vec<H256>)
        requires
            self.wf(),
        ensures
            index < self@.len() ==> level_view(r@) == proof_of_level(self@, index as int),
            index >= self@.len() ==> r@.len() == 0,
    {
        let mut out: Vec<H256> = Vec::new();
        if self.values.len() == 0 {
            return out;
        }
        if index >= self.values[0].len() {
            return out;
        }
        let mut cur_idx: usize = index;
        let mut level: usize = 0;
        let levels = self.values.len();
        while level < levels - 1
            invariant
                self.wf(),
                self.values@.len() == levels,
                levels >= 1,
                level < levels,
                index < self@.len(),
                cur_idx < level_view(self.values@[level as int]@).len(),
                proof_of_level(self@, index as int) == level_view(out@) + proof_of_level(
                    level_view(self.values@[level as int]@),
                    cur_idx as int,
                ),
            decreases levels - level,
        {
            let ghost lv = level_view(self.values@[level as int]@);
            let ghost rest = proof_of_level(lv, cur_idx as int);
            let ghost out_prev = out@;
            let cur_level = &self.values[level];
            if cur_idx % 2 == 0 {
                if cur_idx + 1 < cur_level.len() {
                    out.push(cur_level[cur_idx + 1]);
                } else {
                    out.push(cur_level[cur_idx]);
                }
            } else {
                out.push(cur_level[cur_idx - 1]);
            }
            proof {
                let next_lv = level_view(self.values@[level + 1]@);
                assert(lv.len() > 1);
                assert(next_lv == parent_level(lv));
                let sib = if cur_idx as int % 2 == 0 {
                    if cur_idx as int + 1 < lv.len() {
                        lv[cur_idx as int + 1]
                    } else {
                        lv[cur_idx as int]
                    }
                } else {
                    lv[cur_idx as int - 1]
                };
                assert(out@.last()@ == sib);
                assert(rest == seq![sib] + proof_of_level(next_lv, cur_idx as int / 2));
                assert(level_view(out@) =~= level_view(out_prev) + seq![sib]);
                assert((cur_idx / 2) as int == cur_idx as int / 2);
                assert(cur_idx as int / 2 < next_lv.len());
                assert(level_view(out_prev) + rest =~= level_view(out@) + proof_of_level(
                    next_lv,
                    cur_idx as int / 2,
                ));
            }
            cur_idx = cur_idx / 2;
            level = level + 1;
        }
        proof {
            assert(level == levels - 1);
            assert(level_view(self.values@[level as int]@).len() == 1);
            assert(proof_of_level(level_view(self.values@[level as int]@), cur_idx as int)
                =~= Seq::<Seq<u8>>::empty());
            assert(level_view(out@) + Seq::<Seq<u8>>::empty() =~= level_view(out@));
        }
        out
    }
}

/// SHA-256 of two hashes laid side by side.
pub fn hash_pair_exec(left: &H256, right: &H256) -> (r: H256)
    ensures
        r@ == hash_pair(left@, right@),
{
    let mut combined: Vec<u8> = Vec::new();
    left.append_to(&mut combined);
    right.append_to(&mut combined);
    sha256_digest(&combined)
}

/// Check a Merkle path: recompute the root from a leaf hash and the
/// sibling path, and reject an index at or beyond the leaf count.
pub fn verify(root: &H256, datum: &H256, path: &Vec<H256>, index: usize, leaf_size: usize) -> (r:
    bool)
    ensures
        r == verify_spec(root@, datum@, level_view(path@), index as int, leaf_size as int),
{
    if index >= leaf_size {
        return false;
    }
    let mut cur_hash: H256 = *datum;
    let mut cur_idx: usize = index;
    let mut k: usize = 0;
    let n = path.len();
    proof {
        assert(level_view(path@).skip(0) =~= level_view(path@));
    }
    while k < n
        invariant
            n == path@.len(),
            k <= n,
            verify_fold(datum@, level_view(path@), index as int) == verify_fold(
                cur_hash@,
                level_view(path@).skip(k as int),
                cur_idx as int,
            ),
        decreases n - k,
    {
        let ghost before = level_view(path@).skip(k as int);
        let next = if cur_idx % 2 == 0 {
            hash_pair_exec(&cur_hash, &path[k])
        } else {
            hash_pair_exec(&path[k], &cur_hash)
        };
        proof {
            assert(before[0] == path@[k as int]@);
            assert(before.drop_first() =~= level_view(path@).skip(k + 1));
            assert((cur_idx / 2) as int == cur_idx as int / 2);
        }
        cur_hash = next;
        cur_idx = cur_idx / 2;
        k = k + 1;
    }
    proof {
        assert(level_view(path@).skip(n as int) =~= Seq::<Seq<u8>>::empty());
    }
    cur_hash.eq_h(root)
}

/// A path produced for a leaf verifies against the root: soundness of the
/// Merkle path scheme.
pub proof fn lemma_merkle_proof_sound(leaves: Seq<Seq<u8>>, i: int)
    requires
        0 <= i < leaves.len(),
    ensures
        verify_fold(leaves[i], proof_of_level(leaves, i), i) == root_of_level(leaves),
    decreases leaves.len(),
{
    if leaves.len() == 1 {
    } else {
        let parent = parent_level(leaves);
        let p = proof_of_level(leaves, i);
        assert(p.drop_first() =~= proof_of_level(parent, i / 2));
        let next = if i % 2 == 0 {
            hash_pair(leaves[i], p[0])
        } else {
            hash_pair(p[0], leaves[i])
        };
        assert(next == parent[i / 2]);
        assert(0 <= i / 2 < parent.len());
        lemma_merkle_proof_sound(parent, i / 2);
    }
}

/// Concatenations of the same tail, or of the same head, cancel.
proof fn lemma_concat_cancel(a: Seq<u8>, b: Seq<u8>, c: Seq<u8>, d: Seq<u8>)
    requires
        a + b == c + d,
        a.len() == c.len() || b.len() == d.len(),
    ensures
        a == c,
        b == d,
{
    assert((a + b).len() == a.len() + b.len());
    assert((c + d).len() == c.len() + d.len());
    crate::codec::lemma_concat_split(a, b, c, d);
}

/// Folding is injective in the datum: if SHA-256 is collision-free, two
/// different leaf hashes cannot both verify against the same root through
/// the same path and index.
pub proof fn lemma_fold_injective(d1: Seq<u8>, d2: Seq<u8>, path: Seq<Seq<u8>>, idx: int)
    requires
        sha256_injective(),
        verify_fold(d1, path, idx) == verify_fold(d2, path, idx),
    ensures
        d1 == d2,
    decreases path.len(),
{
    if path.len() == 0 {
    } else {
        let n1 = if idx % 2 == 0 {
            hash_pair(d1, path[0])
        } else {
            hash_pair(path[0], d1)
        };
        let n2 = if idx % 2 == 0 {
            hash_pair(d2, path[0])
        } else {
            hash_pair(path[0], d2)
        };
        lemma_fold_injective(n1, n2, path.drop_first(), idx / 2);
        if idx % 2 == 0 {
            assert(d1 + path[0] == d2 + path[0]);
            lemma_concat_cancel(d1, path[0], d2, path[0]);
        } else {
            assert(path[0] + d1 == path[0] + d2);
            lemma_concat_cancel(path[0], d1, path[0], d2);
        }
    }
}

/// Folding is injective in the path as well, for proofs of equal
/// element-wise length: flipping a path element falsifies verification.
pub proof fn lemma_fold_injective_full(
    d1: Seq<u8>,
    p1: Seq<Seq<u8>>,
    d2: Seq<u8>,
    p2: Seq<Seq<u8>>,
    idx: int,
)
    requires
        sha256_injective(),
        p1.len() == p2.len(),
        forall|k: int| 0 <= k < p1.len() ==> #[trigger] p1[k].len() == p2[k].len(),
        verify_fold(d1, p1, idx) == verify_fold(d2, p2, idx),
    ensures
        d1 == d2,
        p1 == p2,
    decreases p1.len(),
{
    if p1.len() == 0 {
        assert(p1 =~= p2);
    } else {
        let n1 = if idx % 2 == 0 {
            hash_pair(d1, p1[0])
        } else {
            hash_pair(p1[0], d1)
        };
        let n2 = if idx % 2 == 0 {
            hash_pair(d2, p2[0])
        } else {
            hash_pair(p2[0], d2)
        };
        assert(forall|k: int|
            0 <= k < p1.drop_first().len() ==> #[trigger] p1.drop_first()[k].len()
                == p2.drop_first()[k].len());
        lemma_fold_injective_full(n1, p1.drop_first(), n2, p2.drop_first(), idx / 2);
        if idx % 2 == 0 {
            assert(d1 + p1[0] == d2 + p2[0]);
            lemma_concat_cancel(d1, p1[0], d2, p2[0]);
        } else {
            assert(p1[0] + d1 == p2[0] + d2);
            lemma_concat_cancel(p1[0], d1, p2[0], d2);
        }
        assert(p1 =~= seq![p1[0]] + p1.drop_first());
        assert(p2 =~= seq![p2[0]] + p2.drop_first());
    }
}

} // verus!
