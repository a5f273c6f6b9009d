//! The authenticated state trie: a binary radix trie over the 160 bits of
//! an address, high bit first, content-addressed and copy-on-write. Batch
//! update returns a new root and the freshly created nodes; readers load
//! nodes lazily from the store and never see in-flight updates.

use vstd::prelude::*;
use crate::account::{account_enc, account_hash, Account};
use crate::hash::{sha256, sha256_digest, H256, Address};
use crate::kvmap::{Dup, KvMap, MapKey};

verus! {

broadcast use crate::hash::lemma_h256_view_len, crate::hash::lemma_address_view_len;

/// A trie node: an empty subtree, a single account, or two children named
/// by their hashes.
#[derive(Clone, Debug)]
pub enum NodeData {
    Empty,
    Leaf(Address, Account),
    Branch(H256, H256),
}

/// The mathematical value of a node.
#[verifier::ext_equal]
pub enum NodeView {
    Empty,
    Leaf(Seq<u8>, Account),
    Branch(Seq<u8>, Seq<u8>),
}

impl View for NodeData {
    type V = NodeView;

    open spec fn view(&self) -> NodeView {
        match self {
            NodeData::Empty => NodeView::Empty,
            NodeData::Leaf(a, acc) => NodeView::Leaf(a@, *acc),
            NodeData::Branch(l, r) => NodeView::Branch(l@, r@),
        }
    }
}

/// A node together with its content hash.
#[derive(Clone, Debug)]
pub struct Node {
    pub hash: H256,
    pub data: NodeData,
}

/// The canonical encoding of a node: a tag byte, then the payload. A leaf
/// commits to the account's hash, not its raw fields.
pub open spec fn node_enc(n: NodeView) -> Seq<u8> {
    match n {
        NodeView::Empty => seq![0u8],
        NodeView::Leaf(a, acc) => seq![1u8] + a + account_hash(acc),
        NodeView::Branch(l, r) => seq![2u8] + l + r,
    }
}

/// The content address of a node.
pub open spec fn node_hash(n: NodeView) -> Seq<u8> {
    sha256(node_enc(n))
}

/// Field widths a node held in executable form always has.
pub open spec fn node_wf(n: NodeView) -> bool {
    match n {
        NodeView::Empty => true,
        NodeView::Leaf(a, acc) => a.len() == 20,
        NodeView::Branch(l, r) => l.len() == 32 && r.len() == 32,
    }
}

/// Every value is filed under its own content hash.
pub open spec fn hash_consistent(nodes: Map<Seq<u8>, NodeView>) -> bool {
    forall|k: Seq<u8>| nodes.contains_key(k) ==> #[trigger] node_hash(nodes[k]) == k
}

/// Every value has executable field widths.
pub open spec fn nodes_wf(nodes: Map<Seq<u8>, NodeView>) -> bool {
    forall|k: Seq<u8>| nodes.contains_key(k) ==> #[trigger] node_wf(nodes[k])
}

/// Bit `index` of an address, high bit of the first byte first; zero past
/// the end.
pub open spec fn bit_at(addr: Seq<u8>, index: int) -> u8 {
    if index >= 160 || index < 0 {
        0u8
    } else {
        (addr[index / 8] >> ((7 - (index % 8)) as u8)) & 1
    }
}

/// Bit `index` of an address, high bit first; zero at or past bit 160.
pub fn get_bit_at(data: &Address, index: usize) -> (r: u8)
    ensures
        r == bit_at(data@, index as int),
{
    if index >= 160 {
        return 0;
    }
    let bytes = data.to_bytes();
    let byte_index = index / 8;
    let bit_index = (7 - (index % 8)) as u8;
    (bytes[byte_index] >> bit_index) & 1
}

impl NodeData {
    /// The canonical encoding.
    pub fn encode(&self) -> (r: Vec<u8>)
        ensures
            r@ == node_enc(self@),
    {
        let mut out: Vec<u8> = Vec::new();
        match self {
            NodeData::Empty => {
                out.push(0u8);
                proof {
                    assert(out@ =~= node_enc(self@));
                }
            },
            NodeData::Leaf(a, acc) => {
                out.push(1u8);
                a.append_to(&mut out);
                let ah = acc.hash();
                ah.append_to(&mut out);
                proof {
                    assert(out@ =~= node_enc(self@));
                }
            },
            NodeData::Branch(l, r) => {
                out.push(2u8);
                l.append_to(&mut out);
                r.append_to(&mut out);
                proof {
                    assert(out@ =~= node_enc(self@));
                }
            },
        }
        out
    }

    /// SHA-256 of the canonical encoding.
    pub fn hash(&self) -> (r: H256)
        ensures
            r@ == node_hash(self@),
    {
        let enc = self.encode();
        sha256_digest(&enc)
    }
}

impl Dup for NodeData {
    fn dup(&self) -> (r: NodeData) {
        match self {
            NodeData::Empty => NodeData::Empty,
            NodeData::Leaf(a, acc) => NodeData::Leaf(*a, *acc),
            NodeData::Branch(l, r) => NodeData::Branch(*l, *r),
        }
    }
}

impl Node {
    /// Pair a node with its content hash.
    pub fn new(data: NodeData) -> (r: Node)
        ensures
            r.data@ == data@,
            r.hash@ == node_hash(data@),
    {
        let hash = data.hash();
        Node { hash, data }
    }
}

/// What a lookup finds: descend by the address's bits, return the account
/// only at a leaf whose key matches exactly. A missing node, an empty
/// subtree, a foreign leaf, or a branch deeper than the key has bits all
/// yield nothing.
pub open spec fn trie_get(
    nodes: Map<Seq<u8>, NodeView>,
    h: Seq<u8>,
    addr: Seq<u8>,
    d: int,
) -> Option<Account>
    decreases 160 - d,
{
    if !nodes.contains_key(h) {
        None
    } else {
        match nodes[h] {
            NodeView::Empty => None,
            NodeView::Leaf(a, acc) => if a == addr {
                Some(acc)
            } else {
                None
            },
            NodeView::Branch(l, r) => {
                if d >= 160 || d < 0 {
                    None
                } else if bit_at(addr, d) == 0 {
                    trie_get(nodes, l, addr, d + 1)
                } else {
                    trie_get(nodes, r, addr, d + 1)
                }
            },
        }
    }
}

/// An update list: addresses paired with the accounts to write.
pub open spec fn items_view(s: Seq<(Address, Account)>) -> Seq<(Seq<u8>, Account)> {
    Seq::new(s.len(), |i: int| (s[i].0@, s[i].1))
}

/// All addresses are 20 bytes.
pub open spec fn items_wf(items: Seq<(Seq<u8>, Account)>) -> bool {
    forall|i: int| 0 <= i < items.len() ==> (#[trigger] items[i].0).len() == 20
}

/// No two entries write the same address.
pub open spec fn items_distinct(items: Seq<(Seq<u8>, Account)>) -> bool {
    forall|i: int, j: int|
        0 <= i < j < items.len() ==> (#[trigger] items[i]).0 != (#[trigger] items[j]).0
}

/// The entries that fall in the `bit == which` half at depth `d`.
pub open spec fn items_split(
    items: Seq<(Seq<u8>, Account)>,
    d: int,
    which: u8,
) -> Seq<(Seq<u8>, Account)> {
    items.filter(|p: (Seq<u8>, Account)| bit_at(p.0, d) == which)
}

/// The canonical node over an update set: empty, a lone leaf, or a branch
/// splitting by the bit at this depth. Rebuilding from scratch always
/// produces this shape.
pub open spec fn build_node(items: Seq<(Seq<u8>, Account)>, d: int) -> NodeView
    decreases 160 - d,
{
    if items.len() == 0 {
        NodeView::Empty
    } else if items.len() == 1 {
        NodeView::Leaf(items[0].0, items[0].1)
    } else if d >= 160 || d < 0 {
        NodeView::Empty
    } else {
        NodeView::Branch(
            node_hash(build_node(items_split(items, d, 0), d + 1)),
            node_hash(build_node(items_split(items, d, 1), d + 1)),
        )
    }
}

/// The root hash of the canonical subtree.
pub open spec fn build_hash(items: Seq<(Seq<u8>, Account)>, d: int) -> Seq<u8> {
    node_hash(build_node(items, d))
}

/// The nodes a from-scratch rebuild files, keyed by hash: leaves and
/// branches, but not empty children.
pub open spec fn build_nodes(items: Seq<(Seq<u8>, Account)>, d: int) -> Map<Seq<u8>, NodeView>
    decreases 160 - d,
{
    if items.len() == 0 {
        Map::empty()
    } else if items.len() == 1 {
        Map::empty().insert(build_hash(items, d), build_node(items, d))
    } else if d >= 160 || d < 0 {
        Map::empty()
    } else {
        build_nodes(items_split(items, d, 0), d + 1).union_prefer_right(
            build_nodes(items_split(items, d, 1), d + 1),
        ).insert(build_hash(items, d), build_node(items, d))
    }
}

/// What one batch step returns: the new subtree hash and the nodes it
/// files. Mirrors the update algorithm exactly: a branch partitions the
/// updates and recurses; a leaf joins the updates (unless overwritten) and
/// rebuilds from scratch; anything else rebuilds from scratch. An empty
/// update list leaves the subtree untouched.
pub open spec fn batch_step(
    nodes: Map<Seq<u8>, NodeView>,
    h: Seq<u8>,
    items: Seq<(Seq<u8>, Account)>,
    d: int,
) -> (Seq<u8>, Map<Seq<u8>, NodeView>)
    decreases 160 - d,
{
    if items.len() == 0 {
        (h, Map::empty())
    } else {
        let node = if nodes.contains_key(h) {
            nodes[h]
        } else {
            NodeView::Empty
        };
        match node {
            NodeView::Empty => (build_hash(items, d), build_nodes(items, d)),
            NodeView::Leaf(a, acc) => {
                if exists|i: int| 0 <= i < items.len() && (#[trigger] items[i]).0 == a {
                    (build_hash(items, d), build_nodes(items, d))
                } else {
                    let joined = items + seq![(a, acc)];
                    (build_hash(joined, d), build_nodes(joined, d))
                }
            },
            NodeView::Branch(l, r) => {
                if d >= 160 || d < 0 {
                    (build_hash(items, d), build_nodes(items, d))
                } else {
                    let (lh, ln) = batch_step(nodes, l, items_split(items, d, 0), d + 1);
                    let (rh, rn) = batch_step(nodes, r, items_split(items, d, 1), d + 1);
                    let parent = NodeView::Branch(lh, rh);
                    (
                        node_hash(parent),
                        ln.union_prefer_right(rn).insert(node_hash(parent), parent),
                    )
                }
            },
        }
    }
}

/// The store of trie nodes, keyed by content hash.
pub type NodeStore = KvMap<H256, NodeData>;

/// A handle on one version of the state: the hash of its root node. Nodes
/// themselves live in the store.
pub struct StateTrie {
    pub root_hash: H256,
}

impl StateTrie {
    /// A fresh, empty trie; its root node is saved to the store so that
    /// the root hash resolves.
    pub fn new(store: &mut NodeStore) -> (r: StateTrie)
        requires
            old(store).wf(),
        ensures
            final(store).wf(),
            final(store)@ == old(store)@.insert(node_hash(NodeView::Empty), NodeView::Empty),
            r.root_hash@ == node_hash(NodeView::Empty),
    {
        let empty = Node::new(NodeData::Empty);
        store.insert(empty.hash, empty.data);
        StateTrie { root_hash: empty.hash }
    }

    /// The state at an existing root, for reading a historical version or
    /// a fork.
    pub fn new_from_root(root: H256) -> (r: StateTrie)
        ensures
            r.root_hash@ == root@,
    {
        StateTrie { root_hash: root }
    }

    /// Look an account up, descending by the address's bits.
    pub fn get(&self, nodes: &NodeStore, address: &Address) -> (r: Option<Account>)
        requires
            nodes.wf(),
        ensures
            r == trie_get(nodes@, self.root_hash@, address@, 0),
    {
        Self::get_recursive(nodes, &self.root_hash, address, 0)
    }

    fn get_recursive(nodes: &NodeStore, node_hash_arg: &H256, key: &Address, depth: usize) -> (r:
        Option<Account>)
        requires
            nodes.wf(),
            depth <= 160,
        ensures
            r == trie_get(nodes@, node_hash_arg@, key@, depth as int),
        decreases 160 - depth,
    {
        let found = nodes.get(node_hash_arg);
        match found {
            None => None,
            Some(node) => match node {
                NodeData::Empty => None,
                NodeData::Leaf(leaf_addr, account) => {
                    if leaf_addr.eq_a(key) {
                        Some(*account)
                    } else {
                        None
                    }
                },
                NodeData::Branch(left, right) => {
                    if depth >= 160 {
                        None
                    } else {
                        let bit = get_bit_at(key, depth);
                        let left = *left;
                        let right = *right;
                        if bit == 0 {
                            Self::get_recursive(nodes, &left, key, depth + 1)
                        } else {
                            Self::get_recursive(nodes, &right, key, depth + 1)
                        }
                    }
                },
            },
        }
    }

    /// Apply one account write: a batch of one.
    pub fn insert(&self, nodes: &NodeStore, address: Address, account: Account) -> (r: (
        H256,
        KvMap<H256, NodeData>,
    ))
        requires
            nodes.wf(),
        ensures
            r.1.wf(),
            (r.0@, r.1@) == batch_step(
                nodes@,
                self.root_hash@,
                seq![(address@, account)],
                0,
            ),
    {
        let mut updates: KvMap<Address, Account> = KvMap::new();
        updates.insert(address, account);
        let mut list: Vec<(Address, Account)> = Vec::new();
        list.push((address, account));
        let mut new_nodes: KvMap<H256, NodeData> = KvMap::new();
        proof {
            assert(items_view(list@) =~= seq![(address@, account)]);
        }
        let root = Self::insert_batch_recursive(nodes, &self.root_hash, list, 0, &mut new_nodes);
        proof {
            assert(new_nodes@ =~= Map::<Seq<u8>, NodeView>::empty().union_prefer_right(
                batch_step(nodes@, self.root_hash@, seq![(address@, account)], 0).1,
            ));
            assert((root@, new_nodes@) == batch_step(
                nodes@,
                self.root_hash@,
                seq![(address@, account)],
                0,
            ));
        }
        (root, new_nodes)
    }

    /// Apply a batch of account writes against this root. Returns the new
    /// root hash and every freshly created node keyed by its hash; an
    /// empty batch returns the current root and no nodes.
    pub fn insert_batch(&self, nodes: &NodeStore, updates: &KvMap<Address, Account>) -> (r: (
        H256,
        KvMap<H256, NodeData>,
    ))
        requires
            nodes.wf(),
            updates.wf(),
        ensures
            r.1.wf(),
            updates@.dom().len() == 0 ==> r.0@ == self.root_hash@ && r.1@ == Map::<
                Seq<u8>,
                NodeView,
            >::empty(),
            exists|items: Seq<(Seq<u8>, Account)>|
                {
                    &&& items_wf(items)
                    &&& items_distinct(items)
                    &&& #[trigger] items_map(items) == updates@
                    &&& (r.0@, r.1@) == batch_step(nodes@, self.root_hash@, items, 0)
                },
    {
        let mut new_nodes: KvMap<H256, NodeData> = KvMap::new();
        let n = updates.entry_count();
        if n == 0 {
            proof {
                updates.lemma_len();
                let items = Seq::<(Seq<u8>, Account)>::empty();
                assert(updates@.dom() =~= Set::<Seq<u8>>::empty());
                assert(updates@ =~= Map::<Seq<u8>, Account>::empty());
                assert(items_map(items) =~= Map::<Seq<u8>, Account>::empty());
                assert(items_map(items) == updates@);
                assert((self.root_hash@, new_nodes@) == batch_step(
                    nodes@,
                    self.root_hash@,
                    items,
                    0,
                ));
            }
            return (self.root_hash, new_nodes);
        }
        let mut list: Vec<(Address, Account)> = Vec::new();
        let mut i: usize = 0;
        while i < n
            invariant
                updates.wf(),
                n == updates.num_entries(),
                i <= n,
                list@.len() == i,
                forall|j: int|
                    0 <= j < i ==> (#[trigger] list@[j].0)@ == updates.entry_view_at(j).0
                        && list@[j].1 == updates.entry_view_at(j).1,
            decreases n - i,
        {
            let entry = updates.entry_at(i);
            list.push((entry.0.key_dup(), *&entry.1));
            i = i + 1;
        }
        let ghost items = items_view(list@);
        proof {
            assert(items_wf(items));
            assert forall|p: int, q: int| 0 <= p < q < items.len() implies (
            #[trigger] items[p]).0 != (#[trigger] items[q]).0 by {
                updates.lemma_entries_distinct(p, q);
            }
            lemma_items_map_matches(list@, updates);
        }
        let root = Self::insert_batch_recursive(nodes, &self.root_hash, list, 0, &mut new_nodes);
        proof {
            assert(new_nodes@ =~= Map::<Seq<u8>, NodeView>::empty().union_prefer_right(
                batch_step(nodes@, self.root_hash@, items, 0).1,
            ));
            assert((root@, new_nodes@) == batch_step(nodes@, self.root_hash@, items, 0));
            updates.lemma_len();
        }
        (root, new_nodes)
    }

    /// The update algorithm: load the node at `node_hash_arg`; a branch
    /// partitions the updates by the bit at this depth and recurses; a
    /// leaf not being overwritten joins the updates; then rebuild from
    /// scratch. Filed nodes go into `new_nodes`.
    fn insert_batch_recursive(
        nodes: &NodeStore,
        node_hash_arg: &H256,
        updates: Vec<(Address, Account)>,
        depth: usize,
        new_nodes: &mut KvMap<H256, NodeData>,
    ) -> (r: H256)
        requires
            nodes.wf(),
            old(new_nodes).wf(),
            items_distinct(items_view(updates@)),
            depth <= 160,
        ensures
            final(new_nodes).wf(),
            (r@, final(new_nodes)@) == {
                let (h2, added) = batch_step(
                    nodes@,
                    node_hash_arg@,
                    items_view(updates@),
                    depth as int,
                );
                (h2, old(new_nodes)@.union_prefer_right(added))
            },
        decreases 160 - depth,
    {
        let ghost items = items_view(updates@);
        let ghost orig_new = new_nodes@;
        if updates.len() == 0 {
            proof {
                assert(orig_new.union_prefer_right(Map::empty()) =~= orig_new);
            }
            return *node_hash_arg;
        }
        let found = nodes.get(node_hash_arg);
        match found {
            None => {
                let r = Self::build_subtree_from_scratch(&updates, depth, new_nodes);
                r
            },
            Some(node) => {
                match node {
                    NodeData::Empty => {
                        let r = Self::build_subtree_from_scratch(&updates, depth, new_nodes);
                        r
                    },
                    NodeData::Leaf(curr_addr, curr_acc) => {
                        let curr_addr = *curr_addr;
                        let curr_acc = *curr_acc;
                        let mut overridden = false;
                        let mut i: usize = 0;
                        let n = updates.len();
                        while i < n
                            invariant
                                n == updates@.len(),
                                i <= n,
                                items == items_view(updates@),
                                overridden == exists|j: int|
                                    0 <= j < i && (#[trigger] items[j]).0 == curr_addr@,
                            decreases n - i,
                        {
                            if updates[i].0.eq_a(&curr_addr) {
                                overridden = true;
                                proof {
                                    assert((items[i as int]).0 == curr_addr@);
                                }
                            }
                            i = i + 1;
                        }
                        if overridden {
                            let r = Self::build_subtree_from_scratch(&updates, depth, new_nodes);
                            r
                        } else {
                            let mut combined = updates;
                            combined.push((curr_addr, curr_acc));
                            proof {
                                let cv = items_view(combined@);
                                assert(cv =~= items + seq![(curr_addr@, curr_acc)]);
                                assert forall|p: int, q: int|
                                    0 <= p < q < cv.len() implies (#[trigger] cv[p]).0 != (
                                #[trigger] cv[q]).0 by {
                                    if q < cv.len() - 1 {
                                        assert(cv[p] == items[p] && cv[q] == items[q]);
                                    } else {
                                        assert(cv[p] == items[p]);
                                        assert(cv[q].0 == curr_addr@);
                                    }
                                }
                            }
                            let r = Self::build_subtree_from_scratch(
                                &combined,
                                depth,
                                new_nodes,
                            );
                            r
                        }
                    },
                    NodeData::Branch(left, right) => {
                        let left = *left;
                        let right = *right;
                        if depth >= 160 {
                            let r = Self::build_subtree_from_scratch(&updates, depth, new_nodes);
                            r
                        } else {
                            let (left_updates, right_updates) = split_updates(&updates, depth);
                            let new_left = Self::insert_batch_recursive(
                                nodes,
                                &left,
                                left_updates,
                                depth + 1,
                                new_nodes,
                            );
                            let ghost after_left = new_nodes@;
                            let new_right = Self::insert_batch_recursive(
                                nodes,
                                &right,
                                right_updates,
                                depth + 1,
                                new_nodes,
                            );
                            let new_node = Node::new(NodeData::Branch(new_left, new_right));
                            new_nodes.insert(new_node.hash, new_node.data);
                            proof {
                                let (lh, ln) = batch_step(
                                    nodes@,
                                    left@,
                                    items_split(items, depth as int, 0),
                                    depth as int + 1,
                                );
                                let (rh, rn) = batch_step(
                                    nodes@,
                                    right@,
                                    items_split(items, depth as int, 1),
                                    depth as int + 1,
                                );
                                let parent = NodeView::Branch(lh, rh);
                                assert(new_nodes@ =~= orig_new.union_prefer_right(
                                    ln.union_prefer_right(rn).insert(node_hash(parent), parent),
                                ));
                            }
                            new_node.hash
                        }
                    },
                }
            },
        }
    }

    /// Rebuild a subtree over an update set alone: empty, a lone leaf, or
    /// a branch over the two halves split by this depth's bit.
    fn build_subtree_from_scratch(
        items: &Vec<(Address, Account)>,
        depth: usize,
        new_nodes: &mut KvMap<H256, NodeData>,
    ) -> (r: H256)
        requires
            old(new_nodes).wf(),
            items_distinct(items_view(items@)),
            depth <= 160,
        ensures
            final(new_nodes).wf(),
            r@ == build_hash(items_view(items@), depth as int),
            final(new_nodes)@ == old(new_nodes)@.union_prefer_right(
                build_nodes(items_view(items@), depth as int),
            ),
        decreases 160 - depth,
    {
        let ghost iv = items_view(items@);
        let ghost orig_new = new_nodes@;
        if items.len() == 0 {
            let empty = Node::new(NodeData::Empty);
            proof {
                assert(orig_new.union_prefer_right(Map::empty()) =~= orig_new);
            }
            return empty.hash;
        }
        if items.len() == 1 {
            let leaf = Node::new(NodeData::Leaf(items[0].0, items[0].1));
            new_nodes.insert(leaf.hash, leaf.data);
            proof {
                assert(build_node(iv, depth as int) == NodeView::Leaf(iv[0].0, iv[0].1));
                assert(new_nodes@ =~= orig_new.union_prefer_right(
                    build_nodes(iv, depth as int),
                ));
            }
            return leaf.hash;
        }
        if depth >= 160 {
            let empty = Node::new(NodeData::Empty);
            proof {
                assert(orig_new.union_prefer_right(Map::empty()) =~= orig_new);
            }
            return empty.hash;
        }
        let (left_items, right_items) = split_updates(items, depth);
        let left_hash = Self::build_subtree_from_scratch(&left_items, depth + 1, new_nodes);
        let right_hash = Self::build_subtree_from_scratch(&right_items, depth + 1, new_nodes);
        let branch = Node::new(NodeData::Branch(left_hash, right_hash));
        new_nodes.insert(branch.hash, branch.data);
        proof {
            let ln = build_nodes(items_split(iv, depth as int, 0), depth as int + 1);
            let rn = build_nodes(items_split(iv, depth as int, 1), depth as int + 1);
            assert(new_nodes@ =~= orig_new.union_prefer_right(
                ln.union_prefer_right(rn).insert(
                    build_hash(iv, depth as int),
                    build_node(iv, depth as int),
                ),
            ));
        }
        branch.hash
    }
}

/// Partition updates by the bit at `depth`, preserving order.
fn split_updates(items: &Vec<(Address, Account)>, depth: usize) -> (r: (
    Vec<(Address, Account)>,
    Vec<(Address, Account)>,
))
    requires
        items_distinct(items_view(items@)),
        depth < 160,
    ensures
        items_view(r.0@) == items_split(items_view(items@), depth as int, 0),
        items_view(r.1@) == items_split(items_view(items@), depth as int, 1),
        items_distinct(items_view(r.0@)),
        items_distinct(items_view(r.1@)),
{
    let ghost iv = items_view(items@);
    let mut left: Vec<(Address, Account)> = Vec::new();
    let mut right: Vec<(Address, Account)> = Vec::new();
    let mut i: usize = 0;
    proof {
        assert(iv.subrange(0, 0) =~= Seq::<(Seq<u8>, Account)>::empty());
        assert(items_view(left@) =~= iv.subrange(0, 0).filter(
            |p: (Seq<u8>, Account)| bit_at(p.0, depth as int) == 0,
        ));
        assert(items_view(right@) =~= iv.subrange(0, 0).filter(
            |p: (Seq<u8>, Account)| bit_at(p.0, depth as int) == 1,
        ));
    }
    while i < items.len()
        invariant
            i <= items@.len(),
            iv == items_view(items@),
            iv.len() == items@.len(),
            items_view(left@) == iv.subrange(0, i as int).filter(
                |p: (Seq<u8>, Account)| bit_at(p.0, depth as int) == 0,
            ),
            items_view(right@) == iv.subrange(0, i as int).filter(
                |p: (Seq<u8>, Account)| bit_at(p.0, depth as int) == 1,
            ),
        decreases items@.len() - i,
    {
        let bit = get_bit_at(&items[i].0, depth);
        let ghost prefix = iv.subrange(0, i as int);
        let ghost prefix1 = iv.subrange(0, i as int + 1);
        proof {
            assert(prefix1.drop_last() =~= prefix);
            assert(prefix1.last() == iv[i as int]);
            reveal_with_fuel(Seq::filter, 2);
        }
        if bit == 0 {
            left.push((items[i].0, items[i].1));
            proof {
                assert(items_view(left@) =~= prefix1.filter(
                    |p: (Seq<u8>, Account)| bit_at(p.0, depth as int) == 0,
                ));
                assert(items_view(right@) =~= prefix1.filter(
                    |p: (Seq<u8>, Account)| bit_at(p.0, depth as int) == 1,
                ));
            }
        } else {
            right.push((items[i].0, items[i].1));
            proof {
                assert(bit_at(iv[i as int].0, depth as int) == 1) by {
                    assert(bit_at(iv[i as int].0, depth as int) == bit);
                    lemma_bit_at_is_bit(iv[i as int].0, depth as int);
                }
                assert(items_view(left@) =~= prefix1.filter(
                    |p: (Seq<u8>, Account)| bit_at(p.0, depth as int) == 0,
                ));
                assert(items_view(right@) =~= prefix1.filter(
                    |p: (Seq<u8>, Account)| bit_at(p.0, depth as int) == 1,
                ));
            }
        }
        i = i + 1;
    }
    proof {
        assert(iv.subrange(0, iv.len() as int) =~= iv);
        lemma_filter_distinct(iv, |p: (Seq<u8>, Account)| bit_at(p.0, depth as int) == 0);
        lemma_filter_distinct(iv, |p: (Seq<u8>, Account)| bit_at(p.0, depth as int) == 1);
    }
    (left, right)
}

/// A bit is zero or one.
pub proof fn lemma_bit_at_is_bit(addr: Seq<u8>, d: int)
    ensures
        bit_at(addr, d) == 0 || bit_at(addr, d) == 1,
{
    if 0 <= d < 160 {
        let b = addr[d / 8];
        let sh = (7 - (d % 8)) as u8;
        assert((b >> sh) & 1 == 0 || (b >> sh) & 1 == 1) by (bit_vector);
    }
}

/// A filtered element comes from some position of the unfiltered list.
pub proof fn lemma_filter_origin(
    items: Seq<(Seq<u8>, Account)>,
    f: spec_fn((Seq<u8>, Account)) -> bool,
    i: int,
) -> (w: int)
    requires
        0 <= i < items.filter(f).len(),
    ensures
        0 <= w < items.len(),
        items[w] == items.filter(f)[i],
    decreases items.len(),
{
    reveal(Seq::filter);
    items.filter_lemma(f);
    let prior = items.drop_last();
    if f(items.last()) && i == items.filter(f).len() - 1 {
        items.len() - 1
    } else {
        let w = lemma_filter_origin(prior, f, i);
        assert(prior[w] == items[w]);
        assert(prior.filter(f)[i] == items.filter(f)[i]);
        w
    }
}

/// Filtering a list of distinct addresses keeps the addresses distinct.
pub proof fn lemma_filter_distinct(
    items: Seq<(Seq<u8>, Account)>,
    f: spec_fn((Seq<u8>, Account)) -> bool,
)
    requires
        items_distinct(items),
    ensures
        items_distinct(items.filter(f)),
    decreases items.len(),
{
    reveal(Seq::filter);
    if items.len() == 0 {
    } else {
        let prior = items.drop_last();
        assert(items_distinct(prior)) by {
            assert forall|p: int, q: int|
                0 <= p < q < prior.len() implies (#[trigger] prior[p]).0 != (
            #[trigger] prior[q]).0 by {
                assert(prior[p] == items[p]);
                assert(prior[q] == items[q]);
            }
        }
        lemma_filter_distinct(prior, f);
        let out = items.filter(f);
        let pout = prior.filter(f);
        assert forall|i: int, j: int| 0 <= i < j < out.len() implies (#[trigger] out[i]).0 != (
        #[trigger] out[j]).0 by {
            if f(items.last()) && j == out.len() - 1 {
                assert(out[j] == items.last());
                assert(out[i] == pout[i]);
                let w = lemma_filter_origin(prior, f, i);
                assert(prior[w] == items[w]);
                assert(items[w].0 != items.last().0);
            } else {
                assert(out[i] == pout[i] && out[j] == pout[j]);
            }
        }
    }
}


/// The account map an update list denotes; a later entry wins.
pub open spec fn items_map(items: Seq<(Seq<u8>, Account)>) -> Map<Seq<u8>, Account> {
    crate::kvmap::entries_to_map(items)
}

/// The update list built from a map's entries denotes that map.
proof fn lemma_items_map_matches(list: Seq<(Address, Account)>, updates: &KvMap<Address, Account>)
    requires
        updates.wf(),
        list.len() == updates.num_entries(),
        forall|j: int|
            0 <= j < list.len() ==> (#[trigger] list[j].0)@ == updates.entry_view_at(j).0
                && list[j].1 == updates.entry_view_at(j).1,
    ensures
        items_map(items_view(list)) == updates@,
{
    updates.lemma_view_is_entries_map();
    assert(items_view(list) =~= Seq::new(
        updates.num_entries(),
        |i: int| updates.entry_view_at(i),
    ));
}


/// An entry's address names its account in the denoted map.
proof fn lemma_items_map_index(items: Seq<(Seq<u8>, Account)>, i: int)
    requires
        items_distinct(items),
        0 <= i < items.len(),
    ensures
        items_map(items).contains_key(items[i].0),
        items_map(items)[items[i].0] == items[i].1,
    decreases items.len(),
{
    if i < items.len() - 1 {
        let prior = items.drop_last();
        assert(prior[i] == items[i]);
        assert(items_distinct(prior)) by {
            assert forall|p: int, q: int|
                0 <= p < q < prior.len() implies (#[trigger] prior[p]).0 != (
            #[trigger] prior[q]).0 by {
                assert(prior[p] == items[p] && prior[q] == items[q]);
            }
        }
        lemma_items_map_index(prior, i);
        assert(items[i].0 != items.last().0);
    }
}

/// An address no entry carries is not in the denoted map.
proof fn lemma_items_map_missing(items: Seq<(Seq<u8>, Account)>, k: Seq<u8>)
    requires
        forall|i: int| 0 <= i < items.len() ==> (#[trigger] items[i]).0 != k,
    ensures
        !items_map(items).contains_key(k),
    decreases items.len(),
{
    if items.len() > 0 {
        let prior = items.drop_last();
        assert forall|i: int| 0 <= i < prior.len() implies (#[trigger] prior[i]).0 != k by {
            assert(prior[i] == items[i]);
        }
        lemma_items_map_missing(prior, k);
    }
}

/// Every address of the denoted map is carried by some entry.
proof fn lemma_items_map_witness(items: Seq<(Seq<u8>, Account)>, k: Seq<u8>) -> (i: int)
    requires
        items_map(items).contains_key(k),
    ensures
        0 <= i < items.len(),
        items[i].0 == k,
    decreases items.len(),
{
    if items.last().0 == k {
        items.len() - 1
    } else {
        let i = lemma_items_map_witness(items.drop_last(), k);
        assert(items.drop_last()[i] == items[i]);
        i
    }
}

/// With distinct addresses, the denoted map has one key per entry.
proof fn lemma_items_map_len(items: Seq<(Seq<u8>, Account)>)
    requires
        items_distinct(items),
    ensures
        items_map(items).dom().finite(),
        items_map(items).dom().len() == items.len(),
    decreases items.len(),
{
    if items.len() > 0 {
        let prior = items.drop_last();
        assert(items_distinct(prior)) by {
            assert forall|p: int, q: int|
                0 <= p < q < prior.len() implies (#[trigger] prior[p]).0 != (
            #[trigger] prior[q]).0 by {
                assert(prior[p] == items[p] && prior[q] == items[q]);
            }
        }
        lemma_items_map_len(prior);
        assert forall|i: int| 0 <= i < prior.len() implies (#[trigger] prior[i]).0
            != items.last().0 by {
            assert(prior[i] == items[i]);
        }
        lemma_items_map_missing(prior, items.last().0);
    }
}

/// What a filtered half denotes: the entries of the original map whose
/// address has the chosen bit.
proof fn lemma_split_map_char(items: Seq<(Seq<u8>, Account)>, d: int, w: u8, k: Seq<u8>)
    requires
        items_distinct(items),
    ensures
        items_map(items_split(items, d, w)).contains_key(k) <==> (items_map(items).contains_key(
            k,
        ) && bit_at(k, d) == w),
        items_map(items_split(items, d, w)).contains_key(k) ==> items_map(
            items_split(items, d, w),
        )[k] == items_map(items)[k],
{
    let f = |p: (Seq<u8>, Account)| bit_at(p.0, d) == w;
    let split = items_split(items, d, w);
    lemma_filter_distinct(items, f);
    items.filter_lemma(f);
    if items_map(split).contains_key(k) {
        let i = lemma_items_map_witness(split, k);
        lemma_items_map_index(split, i);
        let wsrc = lemma_filter_origin(items, f, i);
        assert(items[wsrc] == split[i]);
        assert(f(split[i]));
        lemma_items_map_index(items, wsrc);
    }
    if items_map(items).contains_key(k) && bit_at(k, d) == w {
        let i = lemma_items_map_witness(items, k);
        lemma_items_map_index(items, i);
        assert(f(items[i]));
        assert(split.contains(items[i]));
        let j = choose|j: int| 0 <= j < split.len() && #[trigger] split[j] == items[i];
        lemma_items_map_index(split, j);
    }
}

/// Equal update maps filter to equal update maps.
proof fn lemma_split_same_map(
    s1: Seq<(Seq<u8>, Account)>,
    s2: Seq<(Seq<u8>, Account)>,
    d: int,
    w: u8,
)
    requires
        items_distinct(s1),
        items_distinct(s2),
        items_map(s1) == items_map(s2),
    ensures
        items_map(items_split(s1, d, w)) == items_map(items_split(s2, d, w)),
{
    let m1 = items_map(items_split(s1, d, w));
    let m2 = items_map(items_split(s2, d, w));
    assert forall|k: Seq<u8>| #[trigger] m1.contains_key(k) implies m2.contains_key(k) && m1[k]
        == m2[k] by {
        lemma_split_map_char(s1, d, w, k);
        lemma_split_map_char(s2, d, w, k);
    }
    assert forall|k: Seq<u8>| #[trigger] m2.contains_key(k) implies m1.contains_key(k) by {
        lemma_split_map_char(s1, d, w, k);
        lemma_split_map_char(s2, d, w, k);
    }
    assert(m1 =~= m2);
}

/// A rebuilt subtree is a function of the update map alone: any two
/// enumerations of the same map build the same node, the same root hash,
/// and the same set of fresh nodes.
pub proof fn lemma_build_same_map(s1: Seq<(Seq<u8>, Account)>, s2: Seq<(Seq<u8>, Account)>, d: int)
    requires
        items_distinct(s1),
        items_distinct(s2),
        items_map(s1) == items_map(s2),
    ensures
        build_node(s1, d) == build_node(s2, d),
        build_nodes(s1, d) == build_nodes(s2, d),
    decreases 160 - d,
{
    lemma_items_map_len(s1);
    lemma_items_map_len(s2);
    if s1.len() == 0 {
    } else if s1.len() == 1 {
        lemma_items_map_index(s1, 0);
        lemma_items_map_index(s2, 0);
        let i = lemma_items_map_witness(s1, s2[0].0);
        assert(i == 0);
        assert(s1[0].0 == s2[0].0 && s1[0].1 == s2[0].1);
        assert(s1[0] == s2[0]);
    } else if d >= 160 || d < 0 {
    } else {
        lemma_filter_distinct(s1, |p: (Seq<u8>, Account)| bit_at(p.0, d) == 0u8);
        lemma_filter_distinct(s2, |p: (Seq<u8>, Account)| bit_at(p.0, d) == 0u8);
        lemma_filter_distinct(s1, |p: (Seq<u8>, Account)| bit_at(p.0, d) == 1u8);
        lemma_filter_distinct(s2, |p: (Seq<u8>, Account)| bit_at(p.0, d) == 1u8);
        lemma_split_same_map(s1, s2, d, 0);
        lemma_split_same_map(s1, s2, d, 1);
        lemma_build_same_map(items_split(s1, d, 0), items_split(s2, d, 0), d + 1);
        lemma_build_same_map(items_split(s1, d, 1), items_split(s2, d, 1), d + 1);
    }
}

/// The batch update is a function of the update map alone: applied to the
/// same subtree, any two enumerations of the same map produce the same new
/// root and the same fresh nodes. With `insert_batch`'s contract this makes
/// the returned root and node set depend only on the store, the old root
/// and the written accounts: updates commute, and re-running a batch is
/// deterministic.
pub proof fn lemma_batch_step_same_map(
    nodes: Map<Seq<u8>, NodeView>,
    h: Seq<u8>,
    s1: Seq<(Seq<u8>, Account)>,
    s2: Seq<(Seq<u8>, Account)>,
    d: int,
)
    requires
        items_distinct(s1),
        items_distinct(s2),
        items_map(s1) == items_map(s2),
    ensures
        batch_step(nodes, h, s1, d) == batch_step(nodes, h, s2, d),
    decreases 160 - d,
{
    lemma_items_map_len(s1);
    lemma_items_map_len(s2);
    if s1.len() == 0 {
    } else {
        let node = if nodes.contains_key(h) {
            nodes[h]
        } else {
            NodeView::Empty
        };
        match node {
            NodeView::Empty => {
                lemma_build_same_map(s1, s2, d);
            },
            NodeView::Leaf(a, acc) => {
                assert((exists|i: int| 0 <= i < s1.len() && (#[trigger] s1[i]).0 == a) <==> (
                exists|i: int| 0 <= i < s2.len() && (#[trigger] s2[i]).0 == a)) by {
                    if exists|i: int| 0 <= i < s1.len() && (#[trigger] s1[i]).0 == a {
                        let i = choose|i: int| 0 <= i < s1.len() && (#[trigger] s1[i]).0 == a;
                        lemma_items_map_index(s1, i);
                        let j = lemma_items_map_witness(s2, a);
                    }
                    if exists|i: int| 0 <= i < s2.len() && (#[trigger] s2[i]).0 == a {
                        let i = choose|i: int| 0 <= i < s2.len() && (#[trigger] s2[i]).0 == a;
                        lemma_items_map_index(s2, i);
                        let j = lemma_items_map_witness(s1, a);
                    }
                }
                if exists|i: int| 0 <= i < s1.len() && (#[trigger] s1[i]).0 == a {
                    lemma_build_same_map(s1, s2, d);
                } else {
                    let j1 = s1 + seq![(a, acc)];
                    let j2 = s2 + seq![(a, acc)];
                    assert(j1.drop_last() =~= s1);
                    assert(j2.drop_last() =~= s2);
                    assert(items_map(j1) == items_map(s1).insert(a, acc));
                    assert(items_map(j2) == items_map(s2).insert(a, acc));
                    assert(items_distinct(j1)) by {
                        assert forall|p: int, q: int|
                            0 <= p < q < j1.len() implies (#[trigger] j1[p]).0 != (
                        #[trigger] j1[q]).0 by {
                            if q < j1.len() - 1 {
                                assert(j1[p] == s1[p] && j1[q] == s1[q]);
                            } else {
                                assert(j1[p] == s1[p] && j1[q].0 == a);
                            }
                        }
                    }
                    assert(items_distinct(j2)) by {
                        assert forall|p: int, q: int|
                            0 <= p < q < j2.len() implies (#[trigger] j2[p]).0 != (
                        #[trigger] j2[q]).0 by {
                            if q < j2.len() - 1 {
                                assert(j2[p] == s2[p] && j2[q] == s2[q]);
                            } else {
                                assert(j2[p] == s2[p] && j2[q].0 == a);
                            }
                        }
                    }
                    lemma_build_same_map(j1, j2, d);
                }
            },
            NodeView::Branch(l, r) => {
                if d >= 160 || d < 0 {
                    lemma_build_same_map(s1, s2, d);
                } else {
                    lemma_filter_distinct(s1, |p: (Seq<u8>, Account)| bit_at(p.0, d) == 0u8);
                    lemma_filter_distinct(s2, |p: (Seq<u8>, Account)| bit_at(p.0, d) == 0u8);
                    lemma_filter_distinct(s1, |p: (Seq<u8>, Account)| bit_at(p.0, d) == 1u8);
                    lemma_filter_distinct(s2, |p: (Seq<u8>, Account)| bit_at(p.0, d) == 1u8);
                    lemma_split_same_map(s1, s2, d, 0);
                    lemma_split_same_map(s1, s2, d, 1);
                    lemma_batch_step_same_map(nodes, l, items_split(s1, d, 0), items_split(
                        s2,
                        d,
                        0,
                    ), d + 1);
                    lemma_batch_step_same_map(nodes, r, items_split(s1, d, 1), items_split(
                        s2,
                        d,
                        1,
                    ), d + 1);
                }
            },
        }
    }
}

} // verus!
