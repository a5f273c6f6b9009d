//! The mempool: signed transactions not yet included in a committed block,
//! keyed by their hash. Insertion is idempotent; removal is bulk.

use vstd::prelude::*;
use crate::hash::H256;
use crate::kvmap::{Dup, KvMap, MapKey};
use crate::transaction::{stx_hash, SignedTransaction, StxView};

verus! {

pub struct Mempool {
    transactions: KvMap<H256, SignedTransaction>,
}

impl Mempool {
    /// Entries are well-formed and each is keyed by its own hash.
    pub closed spec fn wf(&self) -> bool {
        &&& self.transactions.wf()
        &&& forall|k: Seq<u8>|
            self.transactions@.contains_key(k) ==> #[trigger] stx_hash(self.transactions@[k]) == k
    }

    /// The set of held transactions, keyed by hash.
    pub closed spec fn view(&self) -> Map<Seq<u8>, StxView> {
        self.transactions@
    }

    pub fn new() -> (r: Mempool)
        ensures
            r.wf(),
            r@ == Map::<Seq<u8>, StxView>::empty(),
    {
        Mempool { transactions: KvMap::new() }
    }

    /// Add a transaction under its hash; a duplicate hash is silently
    /// dropped, so the first arrival wins.
    pub fn insert(&mut self, tx: SignedTransaction)
        requires
            old(self).wf(),
        ensures
            final(self).wf(),
            final(self)@ == if old(self)@.contains_key(stx_hash(tx@)) {
                old(self)@
            } else {
                old(self)@.insert(stx_hash(tx@), tx@)
            },
            final(self)@.contains_key(stx_hash(tx@)),
    {
        let ghost orig = self@;
        let hash = tx.hash();
        if !self.transactions.contains(&hash) {
            self.transactions.insert(hash, tx);
            proof {
                assert forall|k: Seq<u8>| self@.contains_key(k) implies #[trigger] stx_hash(
                    self@[k],
                ) == k by {
                    if k != hash@ {
                        assert(orig.contains_key(k));
                    }
                }
            }
        }
    }

    /// Every held transaction, in unspecified order.
    pub fn select_transactions(&self) -> (r: Vec<SignedTransaction>)
        requires
            self.wf(),
        ensures
            forall|i: int|
                0 <= i < r@.len() ==> self@.contains_key(stx_hash(#[trigger] r@[i]@)) && self@[
                    stx_hash(r@[i]@)] == r@[i]@,
            forall|k: Seq<u8>| #[trigger]
                self@.contains_key(k) ==> exists|i: int| 0 <= i < r@.len() && stx_hash(r@[i]@) == k,
            r@.len() == self@.dom().len(),
    {
        let n = self.transactions.entry_count();
        let mut out: Vec<SignedTransaction> = Vec::new();
        let mut i: usize = 0;
        while i < n
            invariant
                self.wf(),
                n == self.transactions.num_entries(),
                i <= n,
                out@.len() == i,
                forall|j: int|
                    0 <= j < i ==> #[trigger] out@[j]@ == self.transactions.entry_view_at(j).1
                        && self@.contains_key(stx_hash(out@[j]@)) && self@[stx_hash(out@[j]@)]
                        == out@[j]@,
            decreases n - i,
        {
            let entry = self.transactions.entry_at(i);
            let tx = entry.1.dup();
            proof {
                assert(stx_hash(tx@) == entry.0.key());
            }
            out.push(tx);
            i = i + 1;
        }
        proof {
            assert forall|k: Seq<u8>| #[trigger] self@.contains_key(k) implies exists|j: int|
                0 <= j < out@.len() && stx_hash(out@[j]@) == k by {
                let w = self.transactions.lemma_entries_cover(k);
                assert(stx_hash(out@[w]@) == k);
            }
            self.transactions.lemma_len();
        }
        out
    }

    /// Drop every transaction whose hash is listed.
    pub fn remove_transactions(&mut self, hashes: &Vec<H256>)
        requires
            old(self).wf(),
        ensures
            final(self).wf(),
            final(self)@ == old(self)@.remove_keys(
                Set::new(|k: Seq<u8>| exists|i: int| 0 <= i < hashes@.len() && hashes@[i]@ == k),
            ),
            forall|i: int| 0 <= i < hashes@.len() ==> !final(self)@.contains_key(#[trigger] hashes@[i]@),
    {
        let ghost orig = self@;
        let ghost all = Set::new(
            |k: Seq<u8>| exists|i: int| 0 <= i < hashes@.len() && hashes@[i]@ == k,
        );
        let n = hashes.len();
        let mut i: usize = 0;
        while i < n
            invariant
                self.wf(),
                n == hashes@.len(),
                i <= n,
                self@ == orig.remove_keys(
                    Set::new(
                        |k: Seq<u8>| exists|j: int| 0 <= j < i && #[trigger] hashes@[j]@ == k,
                    ),
                ),
            decreases n - i,
        {
            self.transactions.remove(&hashes[i]);
            proof {
                let prev = Set::new(
                    |k: Seq<u8>| exists|j: int| 0 <= j < i && #[trigger] hashes@[j]@ == k,
                );
                let next = Set::new(
                    |k: Seq<u8>| exists|j: int| 0 <= j < i + 1 && #[trigger] hashes@[j]@ == k,
                );
                assert forall|k: Seq<u8>| #[trigger] next.contains(k) implies prev.contains(k)
                    || k == hashes@[i as int]@ by {
                    let j = choose|j: int| 0 <= j < i + 1 && #[trigger] hashes@[j]@ == k;
                    if j < i {
                        assert(prev.contains(k));
                    }
                }
                assert(orig.remove_keys(prev).remove(hashes@[i as int]@) =~= orig.remove_keys(
                    next,
                ));
            }
            i = i + 1;
        }
        proof {
            let last = Set::new(
                |k: Seq<u8>| exists|j: int| 0 <= j < n && #[trigger] hashes@[j]@ == k,
            );
            assert(last =~= all);
            assert forall|i2: int| 0 <= i2 < hashes@.len() implies !self@.contains_key(
                #[trigger] hashes@[i2]@,
            ) by {
                assert(all.contains(hashes@[i2]@));
            }
        }
    }

    /// How many transactions are held.
    pub fn len(&self) -> (r: usize)
        requires
            self.wf(),
        ensures
            r == self@.dom().len(),
    {
        self.transactions.len()
    }

    /// The held transaction with a hash, if any.
    pub fn get_transaction(&self, hash: &H256) -> (r: Option<SignedTransaction>)
        requires
            self.wf(),
        ensures
            match r {
                Some(tx) => self@.contains_key(hash@) && tx@ == self@[hash@],
                None => !self@.contains_key(hash@),
            },
    {
        match self.transactions.get(hash) {
            Some(tx) => Some(tx.dup()),
            None => None,
        }
    }

    /// Whether a transaction with this hash is held.
    pub fn contains(&self, hash: &H256) -> (r: bool)
        requires
            self.wf(),
        ensures
            r == self@.contains_key(hash@),
    {
        self.transactions.contains(hash)
    }
}

} // verus!
