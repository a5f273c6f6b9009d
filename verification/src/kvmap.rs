//! A verified association map from byte-string keys to values, the shape
//! every keyspace of this crate shares: blocks by hash, trie nodes by hash,
//! heights by hash, mempool entries by hash, account updates by address.
//! The view is a mathematical `Map` from the key's bytes to the value's view.

use vstd::prelude::*;
use vstd::pervasive::VecAdditionalExecFns;
use vstd::map::*;

verus! {

/// A key addressed by a byte string: hashes and addresses.
pub trait MapKey: Sized {
    spec fn key(&self) -> Seq<u8>;

    fn key_eq(&self, other: &Self) -> (r: bool)
        ensures
            r == (self.key() == other.key()),
    ;

    fn key_dup(&self) -> (r: Self)
        ensures
            r.key() == self.key(),
    ;
}

/// A value that can be duplicated without changing its view.
pub trait Dup: View + Sized {
    fn dup(&self) -> (r: Self)
        ensures
            r@ == self@,
    ;
}

impl MapKey for crate::hash::H256 {
    open spec fn key(&self) -> Seq<u8> {
        self@
    }

    fn key_eq(&self, other: &Self) -> (r: bool) {
        self.eq_h(other)
    }

    fn key_dup(&self) -> (r: Self) {
        *self
    }
}

impl MapKey for crate::hash::Address {
    open spec fn key(&self) -> Seq<u8> {
        self@
    }

    fn key_eq(&self, other: &Self) -> (r: bool) {
        self.eq_a(other)
    }

    fn key_dup(&self) -> (r: Self) {
        *self
    }
}

impl Dup for u64 {
    fn dup(&self) -> (r: u64) {
        *self
    }
}

/// The map an entry list denotes; a later entry for the same key wins.
pub open spec fn map_of<K: MapKey, V: View>(entries: Seq<(K, V)>) -> Map<Seq<u8>, V::V>
    decreases entries.len(),
{
    if entries.len() == 0 {
        Map::empty()
    } else {
        map_of(entries.drop_last()).insert(entries.last().0.key(), entries.last().1@)
    }
}

/// No two entries share a key.
pub open spec fn keys_distinct<K: MapKey, V: View>(entries: Seq<(K, V)>) -> bool {
    forall|i: int, j: int|
        0 <= i < j < entries.len() ==> #[trigger] entries[i].0.key() != #[trigger] entries[j].0.key()
}

/// An association list with distinct keys, seen as a map.
pub struct KvMap<K: MapKey, V: Dup> {
    entries: Vec<(K, V)>,
}

/// The map a sequence of key-bytes/value pairs denotes; a later entry for
/// the same key wins.
pub open spec fn entries_to_map<T>(entries: Seq<(Seq<u8>, T)>) -> Map<Seq<u8>, T>
    decreases entries.len(),
{
    if entries.len() == 0 {
        Map::empty()
    } else {
        entries_to_map(entries.drop_last()).insert(entries.last().0, entries.last().1)
    }
}

/// An entry's key names its value in the denoted map.
pub proof fn lemma_map_of_index<K: MapKey, V: View>(entries: Seq<(K, V)>, i: int)
    requires
        keys_distinct(entries),
        0 <= i < entries.len(),
    ensures
        map_of(entries).contains_key(entries[i].0.key()),
        map_of(entries)[entries[i].0.key()] == entries[i].1@,
    decreases entries.len(),
{
    if i == entries.len() - 1 {
    } else {
        let prior = entries.drop_last();
        assert(entries[i].0.key() != entries.last().0.key());
        assert(prior[i] == entries[i]);
        assert(keys_distinct(prior)) by {
            assert forall|p: int, q: int|
                0 <= p < q < prior.len() implies #[trigger] prior[p].0.key()
                != #[trigger] prior[q].0.key() by {
                assert(prior[p] == entries[p]);
                assert(prior[q] == entries[q]);
            }
        }
        lemma_map_of_index(prior, i);
    }
}

/// A key no entry carries is not in the denoted map.
pub proof fn lemma_map_of_missing<K: MapKey, V: View>(entries: Seq<(K, V)>, k: Seq<u8>)
    requires
        forall|i: int| 0 <= i < entries.len() ==> #[trigger] entries[i].0.key() != k,
    ensures
        !map_of(entries).contains_key(k),
    decreases entries.len(),
{
    if entries.len() > 0 {
        let prior = entries.drop_last();
        assert forall|i: int| 0 <= i < prior.len() implies #[trigger] prior[i].0.key() != k by {
            assert(prior[i] == entries[i]);
        }
        lemma_map_of_missing(prior, k);
    }
}

/// Every key of the denoted map is carried by some entry.
pub proof fn lemma_map_of_witness<K: MapKey, V: View>(entries: Seq<(K, V)>, k: Seq<u8>) -> (i:
    int)
    requires
        map_of(entries).contains_key(k),
    ensures
        0 <= i < entries.len(),
        entries[i].0.key() == k,
    decreases entries.len(),
{
    if entries.last().0.key() == k {
        entries.len() - 1
    } else {
        let i = lemma_map_of_witness(entries.drop_last(), k);
        assert(entries.drop_last()[i] == entries[i]);
        i
    }
}

impl<K: MapKey, V: Dup> KvMap<K, V> {
    /// Distinct keys: the representation denotes its map faithfully.
    pub closed spec fn wf(&self) -> bool {
        keys_distinct(self.entries@)
    }

    pub closed spec fn view(&self) -> Map<Seq<u8>, V::V> {
        map_of(self.entries@)
    }

    pub fn new() -> (r: Self)
        ensures
            r.wf(),
            r@ == Map::<Seq<u8>, V::V>::empty(),
    {
        KvMap { entries: Vec::new() }
    }

    /// How many keys the map holds.
    pub fn len(&self) -> (r: usize)
        requires
            self.wf(),
        ensures
            r == self@.dom().len(),
    {
        proof {
            self.lemma_len();
        }
        self.entries.len()
    }

    pub proof fn lemma_len(&self)
        requires
            self.wf(),
        ensures
            self@.dom().finite(),
            self@.dom().len() == self.num_entries(),
    {
        Self::lemma_len_rec(self.entries@);
    }

    proof fn lemma_len_rec(entries: Seq<(K, V)>)
        requires
            keys_distinct(entries),
        ensures
            map_of(entries).dom().finite(),
            map_of(entries).dom().len() == entries.len(),
        decreases entries.len(),
    {
        if entries.len() > 0 {
            let prior = entries.drop_last();
            assert(keys_distinct(prior)) by {
                assert forall|p: int, q: int|
                    0 <= p < q < prior.len() implies #[trigger] prior[p].0.key()
                    != #[trigger] prior[q].0.key() by {
                    assert(prior[p] == entries[p]);
                    assert(prior[q] == entries[q]);
                }
            }
            Self::lemma_len_rec(prior);
            assert forall|i: int| 0 <= i < prior.len() implies #[trigger] prior[i].0.key()
                != entries.last().0.key() by {
                assert(prior[i] == entries[i]);
            }
            lemma_map_of_missing(prior, entries.last().0.key());
        }
    }

    fn find(&self, key: &K) -> (r: Option<usize>)
        ensures
            match r {
                Some(i) => i < self.entries@.len() && self.entries@[i as int].0.key() == key.key(),
                None => forall|i: int|
                    0 <= i < self.entries@.len() ==> #[trigger] self.entries@[i].0.key()
                        != key.key(),
            },
    {
        let mut i: usize = 0;
        while i < self.entries.len()
            invariant
                i <= self.entries@.len(),
                forall|j: int| 0 <= j < i ==> #[trigger] self.entries@[j].0.key() != key.key(),
            decreases self.entries@.len() - i,
        {
            if self.entries[i].0.key_eq(key) {
                return Some(i);
            }
            i = i + 1;
        }
        None
    }

    /// Whether the map holds the key.
    pub fn contains(&self, key: &K) -> (r: bool)
        requires
            self.wf(),
        ensures
            r == self@.contains_key(key.key()),
    {
        match self.find(key) {
            Some(i) => {
                proof {
                    lemma_map_of_index(self.entries@, i as int);
                }
                true
            },
            None => {
                proof {
                    lemma_map_of_missing(self.entries@, key.key());
                }
                false
            },
        }
    }

    /// The value a key names, if any.
    pub fn get(&self, key: &K) -> (r: Option<&V>)
        requires
            self.wf(),
        ensures
            match r {
                Some(v) => self@.contains_key(key.key()) && v@ == self@[key.key()],
                None => !self@.contains_key(key.key()),
            },
    {
        match self.find(key) {
            Some(i) => {
                proof {
                    lemma_map_of_index(self.entries@, i as int);
                }
                Some(&self.entries[i].1)
            },
            None => {
                proof {
                    lemma_map_of_missing(self.entries@, key.key());
                }
                None
            },
        }
    }

    /// Bind a key to a value, replacing any earlier binding.
    pub fn insert(&mut self, key: K, value: V)
        requires
            old(self).wf(),
        ensures
            final(self).wf(),
            final(self)@ == old(self)@.insert(key.key(), value@),
    {
        let found = self.find(&key);
        match found {
            Some(i) => {
                let ghost orig = self.entries@;
                let ghost k = key.key();
                let ghost vv = value@;
                self.entries.set(i, (key, value));
                proof {
                    let cur = self.entries@;
                    assert(keys_distinct(cur)) by {
                        assert forall|p: int, q: int|
                            0 <= p < q < cur.len() implies #[trigger] cur[p].0.key()
                            != #[trigger] cur[q].0.key() by {
                            assert(orig[p].0.key() != orig[q].0.key());
                        }
                    }
                    let m1 = map_of(cur);
                    let m2 = map_of(orig).insert(k, vv);
                    assert_maps_equal!(m1, m2, k2 => {
                        Self::lemma_lookup_both(orig, cur, i as int, k, k2);
                    });
                }
            },
            None => {
                let ghost orig = self.entries@;
                self.entries.push((key, value));
                proof {
                    assert(self.entries@.drop_last() =~= orig);
                    assert(keys_distinct(self.entries@)) by {
                        let cur = self.entries@;
                        assert forall|p: int, q: int|
                            0 <= p < q < cur.len() implies #[trigger] cur[p].0.key()
                            != #[trigger] cur[q].0.key() by {
                            if q < cur.len() - 1 {
                                assert(orig[p].0.key() != orig[q].0.key());
                            } else {
                                assert(orig[p].0.key() != cur[q].0.key());
                            }
                        }
                    }
                }
            },
        }
    }

    /// Lookups after an in-place overwrite at `i` agree with a map insert.
    proof fn lemma_lookup_both(
        orig: Seq<(K, V)>,
        cur: Seq<(K, V)>,
        i: int,
        k: Seq<u8>,
        k2: Seq<u8>,
    )
        requires
            keys_distinct(orig),
            keys_distinct(cur),
            0 <= i < orig.len(),
            cur.len() == orig.len(),
            orig[i].0.key() == k,
            cur[i].0.key() == k,
            forall|j: int| 0 <= j < orig.len() && j != i ==> cur[j] == orig[j],
        ensures
            map_of(cur).contains_key(k2) == map_of(orig).insert(k, cur[i].1@).contains_key(k2),
            map_of(cur).contains_key(k2) ==> map_of(cur)[k2] == map_of(orig).insert(
                k,
                cur[i].1@,
            )[k2],
    {
        let target = map_of(orig).insert(k, cur[i].1@);
        if k2 == k {
            lemma_map_of_index(cur, i);
        } else {
            if map_of(cur).contains_key(k2) {
                let w = lemma_map_of_witness(cur, k2);
                assert(w != i);
                assert(orig[w] == cur[w]);
                lemma_map_of_index(cur, w);
                lemma_map_of_index(orig, w);
            }
            if map_of(orig).contains_key(k2) {
                let w = lemma_map_of_witness(orig, k2);
                assert(w != i);
                assert(orig[w] == cur[w]);
                lemma_map_of_index(cur, w);
            }
            if !map_of(cur).contains_key(k2) && map_of(orig).insert(k, cur[i].1@).contains_key(
                k2,
            ) {
                let w = lemma_map_of_witness(orig, k2);
                assert(cur[w] == orig[w]);
                lemma_map_of_index(cur, w);
            }
        }
    }

    /// Remove a key's binding, if present.
    pub fn remove(&mut self, key: &K)
        requires
            old(self).wf(),
        ensures
            final(self).wf(),
            final(self)@ == old(self)@.remove(key.key()),
    {
        let found = self.find(key);
        match found {
            Some(i) => {
                let ghost orig = self.entries@;
                let ghost k = key.key();
                self.entries.swap_remove(i);
                proof {
                    let cur = self.entries@;
                    let moved = orig.update(i as int, orig.last()).drop_last();
                    assert(cur =~= moved);
                    assert(keys_distinct(cur)) by {
                        assert forall|p: int, q: int|
                            0 <= p < q < cur.len() implies #[trigger] cur[p].0.key()
                            != #[trigger] cur[q].0.key() by {
                            let pp = if p == i { orig.len() - 1 } else { p };
                            let qq = if q == i { orig.len() - 1 } else { q };
                            assert(cur[p] == orig[pp] && cur[q] == orig[qq]);
                            assert(pp != qq);
                            if pp < qq {
                                assert(orig[pp].0.key() != orig[qq].0.key());
                            } else {
                                assert(orig[qq].0.key() != orig[pp].0.key());
                            }
                        }
                    }
                    let m1 = map_of(cur);
                    let m2 = map_of(orig).remove(k);
                    assert_maps_equal!(m1, m2, k2 => {
                        Self::lemma_remove_lookup(orig, cur, i as int, k, k2);
                    });
                }
            },
            None => {
                proof {
                    lemma_map_of_missing(self.entries@, key.key());
                    assert(self@ =~= self@.remove(key.key()));
                }
            },
        }
    }

    /// Lookups after removing the entry at `i` agree with a map remove.
    proof fn lemma_remove_lookup(
        orig: Seq<(K, V)>,
        cur: Seq<(K, V)>,
        i: int,
        k: Seq<u8>,
        k2: Seq<u8>,
    )
        requires
            keys_distinct(orig),
            keys_distinct(cur),
            0 <= i < orig.len(),
            cur.len() == orig.len() - 1,
            orig[i].0.key() == k,
            forall|j: int|
                0 <= j < cur.len() ==> #[trigger] cur[j] == (if j == i {
                    orig[orig.len() - 1]
                } else {
                    orig[j]
                }),
    ensures
            map_of(cur).contains_key(k2) == map_of(orig).remove(k).contains_key(k2),
            map_of(cur).contains_key(k2) ==> map_of(cur)[k2] == map_of(orig).remove(k)[k2],
    {
        if map_of(cur).contains_key(k2) {
            let w = lemma_map_of_witness(cur, k2);
            let ww = if w == i { orig.len() - 1 } else { w };
            assert(cur[w] == orig[ww]);
            assert(ww != i || k2 == k);
            assert(k2 != k) by {
                if w == i {
                    assert(orig[i].0.key() != orig[orig.len() - 1].0.key());
                } else {
                    assert(orig[i].0.key() != orig[w].0.key());
                }
            }
            lemma_map_of_index(cur, w);
            lemma_map_of_index(orig, ww);
        } else {
            if map_of(orig).remove(k).contains_key(k2) {
                let w = lemma_map_of_witness(orig, k2);
                assert(w != i);
                if w == orig.len() - 1 {
                    assert(cur[i] == orig[w]);
                    lemma_map_of_index(cur, i);
                } else {
                    assert(cur[w] == orig[w]);
                    lemma_map_of_index(cur, w);
                }
            }
        }
    }

    /// The number of entries: one per key.
    pub closed spec fn num_entries(&self) -> nat {
        self.entries@.len()
    }

    /// The key bytes and value view of the entry at an index.
    pub closed spec fn entry_view_at(&self, i: int) -> (Seq<u8>, V::V) {
        (self.entries@[i].0.key(), self.entries@[i].1@)
    }

    /// The number of entries; entry order carries no meaning.
    pub fn entry_count(&self) -> (r: usize)
        ensures
            r == self.num_entries(),
    {
        self.entries.len()
    }

    /// The entry at an index, for walking the whole map.
    pub fn entry_at(&self, i: usize) -> (r: &(K, V))
        requires
            self.wf(),
            i < self.num_entries(),
        ensures
            r.0.key() == self.entry_view_at(i as int).0,
            r.1@ == self.entry_view_at(i as int).1,
            self@.contains_key(r.0.key()),
            self@[r.0.key()] == r.1@,
    {
        proof {
            lemma_map_of_index(self.entries@, i as int);
        }
        &self.entries[i]
    }

    /// The map equals the fold of its entry views.
    pub proof fn lemma_view_is_entries_map(&self)
        ensures
            self@ == entries_to_map(
                Seq::new(self.num_entries(), |i: int| self.entry_view_at(i)),
            ),
    {
        Self::lemma_view_is_entries_map_rec(self.entries@);
        assert(Seq::new(self.num_entries(), |i: int| self.entry_view_at(i)) =~= self.entries@.map_values(
            |e: (K, V)| (e.0.key(), e.1@),
        ));
    }

    proof fn lemma_view_is_entries_map_rec(entries: Seq<(K, V)>)
        ensures
            map_of(entries) == entries_to_map(
                entries.map_values(|e: (K, V)| (e.0.key(), e.1@)),
            ),
        decreases entries.len(),
    {
        let mapped = entries.map_values(|e: (K, V)| (e.0.key(), e.1@));
        if entries.len() == 0 {
        } else {
            Self::lemma_view_is_entries_map_rec(entries.drop_last());
            assert(mapped.drop_last() =~= entries.drop_last().map_values(
                |e: (K, V)| (e.0.key(), e.1@),
            ));
            assert(mapped.last() == (entries.last().0.key(), entries.last().1@));
        }
    }

    /// Every key of the map appears as some entry.
    pub proof fn lemma_entries_cover(&self, k: Seq<u8>) -> (i: int)
        requires
            self.wf(),
            self@.contains_key(k),
        ensures
            0 <= i < self.num_entries(),
            self.entry_view_at(i).0 == k,
            self.entry_view_at(i).1 == self@[k],
    {
        let i = lemma_map_of_witness(self.entries@, k);
        lemma_map_of_index(self.entries@, i);
        i
    }

    /// Entries carry distinct keys.
    pub proof fn lemma_entries_distinct(&self, i: int, j: int)
        requires
            self.wf(),
            0 <= i < j < self.num_entries(),
        ensures
            self.entry_view_at(i).0 != self.entry_view_at(j).0,
    {
    }

    /// Copy every binding of `other` into `self`, as one batch.
    pub fn merge_from(&mut self, other: &KvMap<K, V>)
        requires
            old(self).wf(),
            other.wf(),
        ensures
            final(self).wf(),
            final(self)@ == old(self)@.union_prefer_right(other@),
    {
        let ghost orig = self@;
        let n = other.entry_count();
        let mut i: usize = 0;
        while i < n
            invariant
                self.wf(),
                other.wf(),
                n == other.entries@.len(),
                i <= n,
                self@ == orig.union_prefer_right(map_of(other.entries@.subrange(0, i as int))),
            decreases n - i,
        {
            let entry = other.entry_at(i);
            let k = entry.0.key_dup();
            let v = entry.1.dup();
            let ghost before = self@;
            self.insert(k, v);
            proof {
                let sub1 = other.entries@.subrange(0, i + 1);
                assert(sub1.drop_last() =~= other.entries@.subrange(0, i as int));
                assert(self@ =~= orig.union_prefer_right(map_of(sub1)));
            }
            i = i + 1;
        }
        proof {
            assert(other.entries@.subrange(0, n as int) =~= other.entries@);
            assert(self@ =~= orig.union_prefer_right(other@));
        }
    }
}

} // verus!
