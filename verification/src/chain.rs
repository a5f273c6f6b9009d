//! The blockchain: persistent keyspaces for blocks, state nodes and
//! heights, the validation pipeline, commit with first-seen fork ties, and
//! the longest-chain walk.

use vstd::prelude::*;
use crate::account::Account;
use crate::block::{block_hash, genesis_view, Block, BlockView};
use crate::hash::{bytes_le, Address, H256};
use crate::kvmap::{Dup, KvMap};
use crate::merkle::{merkle_root_of, MerkleTree};
use crate::transaction::{stx_sender, stx_valid_sig, StxView, TxView};
use crate::trie::{
    batch_step, items_map, node_hash, trie_get, NodeData, NodeStore, NodeView, StateTrie,
};

verus! {

broadcast use crate::hash::lemma_h256_view_len, crate::hash::lemma_address_view_len;

/// The subsidy credited to the coinbase of every block, on top of fees.
pub const BLOCK_REWARD: u64 = 50;

/// The durable keyspaces: blocks by hash, trie nodes by hash, and block
/// heights by hash, plus the current tip pointer.
pub struct Storage {
    blocks: KvMap<H256, Block>,
    state_nodes: NodeStore,
    heights: KvMap<H256, u64>,
    tip_hash: Option<H256>,
}

impl Storage {
    pub closed spec fn wf(&self) -> bool {
        &&& self.blocks.wf()
        &&& self.state_nodes.wf()
        &&& self.heights.wf()
    }

    pub closed spec fn blocks_view(&self) -> Map<Seq<u8>, BlockView> {
        self.blocks@
    }

    pub closed spec fn nodes_view(&self) -> Map<Seq<u8>, NodeView> {
        self.state_nodes@
    }

    pub closed spec fn heights_view(&self) -> Map<Seq<u8>, u64> {
        self.heights@
    }

    pub closed spec fn tip_view(&self) -> Option<Seq<u8>> {
        match self.tip_hash {
            Some(h) => Some(h@),
            None => None,
        }
    }

    /// Empty keyspaces, no tip.
    pub fn new() -> (r: Storage)
        ensures
            r.wf(),
            r.blocks_view() == Map::<Seq<u8>, BlockView>::empty(),
            r.nodes_view() == Map::<Seq<u8>, NodeView>::empty(),
            r.heights_view() == Map::<Seq<u8>, u64>::empty(),
            r.tip_view() is None,
    {
        Storage {
            blocks: KvMap::new(),
            state_nodes: KvMap::new(),
            heights: KvMap::new(),
            tip_hash: None,
        }
    }

    /// File one trie node under its hash.
    pub fn save_state_node(&mut self, hash: H256, node: NodeData)
        requires
            old(self).wf(),
        ensures
            final(self).wf(),
            final(self).nodes_view() == old(self).nodes_view().insert(hash@, node@),
            final(self).blocks_view() == old(self).blocks_view(),
            final(self).heights_view() == old(self).heights_view(),
            final(self).tip_view() == old(self).tip_view(),
    {
        self.state_nodes.insert(hash, node);
    }

    /// File a batch of trie nodes, as one atomic write.
    pub fn batch_save_state_nodes(&mut self, nodes: &KvMap<H256, NodeData>)
        requires
            old(self).wf(),
            nodes.wf(),
        ensures
            final(self).wf(),
            final(self).nodes_view() == old(self).nodes_view().union_prefer_right(nodes@),
            final(self).blocks_view() == old(self).blocks_view(),
            final(self).heights_view() == old(self).heights_view(),
            final(self).tip_view() == old(self).tip_view(),
    {
        self.state_nodes.merge_from(nodes);
    }

    /// The trie node a hash names, if stored.
    pub fn get_state_node(&self, hash: &H256) -> (r: Option<NodeData>)
        requires
            self.wf(),
        ensures
            match r {
                Some(n) => self.nodes_view().contains_key(hash@) && n@ == self.nodes_view()[hash@],
                None => !self.nodes_view().contains_key(hash@),
            },
    {
        match self.state_nodes.get(hash) {
            Some(n) => Some(n.dup()),
            None => None,
        }
    }

    /// Record the tip pointer.
    pub fn save_tip(&mut self, hash: H256)
        requires
            old(self).wf(),
        ensures
            final(self).wf(),
            final(self).tip_view() == Some(hash@),
            final(self).blocks_view() == old(self).blocks_view(),
            final(self).nodes_view() == old(self).nodes_view(),
            final(self).heights_view() == old(self).heights_view(),
    {
        self.tip_hash = Some(hash);
    }

    /// The recorded tip pointer, if any.
    pub fn get_tip(&self) -> (r: Option<H256>)
        requires
            self.wf(),
        ensures
            match r {
                Some(h) => self.tip_view() == Some(h@),
                None => self.tip_view() is None,
            },
    {
        match &self.tip_hash {
            Some(h) => Some(*h),
            None => None,
        }
    }

    /// The node keyspace, for trie reads.
    pub fn state_nodes(&self) -> (r: &NodeStore)
        ensures
            r@ == self.nodes_view(),
            self.wf() ==> r.wf(),
    {
        &self.state_nodes
    }
}

/// Why a block fails validation, reported fail-fast: the first violated
/// check in pipeline order.
#[derive(Debug, PartialEq, Eq, Clone, Copy)]
pub enum ExecError {
    /// The parent block is not stored: the block is an orphan.
    UnknownParent,
    /// The block hash exceeds its difficulty target.
    PowViolation,
    /// The difficulty differs from the parent's.
    DifficultyMismatch,
    /// Some body transaction carries an invalid signature.
    BadSignature,
    /// The coinbase value is not the reward plus the fee sum.
    CoinbaseMismatch,
    /// The body does not hash to the header's Merkle root.
    MerkleMismatch,
    /// A transaction's nonce is not its sender's next nonce.
    NonceMismatch,
    /// A sender cannot cover value plus fee.
    InsufficientBalance,
    /// A balance credit or a nonce increment would exceed its width.
    ValueOverflow,
    /// Applying the body does not reach the header's state root.
    StateRootMismatch,
}

/// The flat fee a transaction burns.
pub open spec fn fee_of(t: TxView) -> int {
    t.gas_price * t.gas_limit
}

/// Value plus fee: what the sender must cover.
pub open spec fn cost_of(t: TxView) -> int {
    t.value + fee_of(t)
}

/// The fee sum of the first `n` body transactions.
pub open spec fn total_fee_prefix(data: Seq<StxView>, n: int) -> int
    decreases n,
{
    if n <= 0 {
        0
    } else {
        total_fee_prefix(data, n - 1) + fee_of(data[n - 1].transaction)
    }
}

/// The fee sum of the whole body.
pub open spec fn total_fee(data: Seq<StxView>) -> int {
    total_fee_prefix(data, data.len() as int)
}

/// The account a running execution sees: pending updates shadow the parent
/// state; an absent account is the default.
pub open spec fn acct_at(
    nodes: Map<Seq<u8>, NodeView>,
    root: Seq<u8>,
    upd: Map<Seq<u8>, Account>,
    a: Seq<u8>,
) -> Account {
    if upd.contains_key(a) {
        upd[a]
    } else {
        match trie_get(nodes, root, a, 0) {
            Some(acc) => acc,
            None => Account { nonce: 0, balance: 0 },
        }
    }
}

/// The outcome of applying transactions: the accumulated updates, or the
/// first per-transaction check that failed.
pub enum ApplyResult {
    Applied(Map<Seq<u8>, Account>),
    BadNonce,
    ShortBalance,
    Overflow,
}

/// Apply one transaction: check the nonce, check the balance, debit the
/// sender and bump its nonce, credit the receiver.
pub open spec fn apply_tx(
    nodes: Map<Seq<u8>, NodeView>,
    root: Seq<u8>,
    upd: Map<Seq<u8>, Account>,
    t: StxView,
) -> ApplyResult {
    let sender = stx_sender(t);
    let sacc = acct_at(nodes, root, upd, sender);
    if t.transaction.nonce != sacc.nonce {
        ApplyResult::BadNonce
    } else if sacc.balance < cost_of(t.transaction) {
        ApplyResult::ShortBalance
    } else if sacc.nonce == u64::MAX {
        ApplyResult::Overflow
    } else {
        let upd1 = upd.insert(
            sender,
            Account {
                nonce: (sacc.nonce + 1) as u64,
                balance: (sacc.balance - cost_of(t.transaction)) as u64,
            },
        );
        let racc = acct_at(nodes, root, upd1, t.transaction.to);
        if racc.balance + t.transaction.value > u64::MAX {
            ApplyResult::Overflow
        } else {
            ApplyResult::Applied(
                upd1.insert(
                    t.transaction.to,
                    Account {
                        nonce: racc.nonce,
                        balance: (racc.balance + t.transaction.value) as u64,
                    },
                ),
            )
        }
    }
}

/// Apply the first `n` body transactions in order.
pub open spec fn apply_prefix(
    nodes: Map<Seq<u8>, NodeView>,
    root: Seq<u8>,
    data: Seq<StxView>,
    n: int,
) -> ApplyResult
    decreases n,
{
    if n <= 0 {
        ApplyResult::Applied(Map::empty())
    } else {
        match apply_prefix(nodes, root, data, n - 1) {
            ApplyResult::Applied(upd) => apply_tx(nodes, root, upd, data[n - 1]),
            e => e,
        }
    }
}

/// Credit the whole coinbase value to the miner after the body.
pub open spec fn apply_coinbase(
    nodes: Map<Seq<u8>, NodeView>,
    root: Seq<u8>,
    upd: Map<Seq<u8>, Account>,
    cb: TxView,
) -> ApplyResult {
    let macc = acct_at(nodes, root, upd, cb.to);
    if macc.balance + cb.value > u64::MAX {
        ApplyResult::Overflow
    } else {
        ApplyResult::Applied(
            upd.insert(cb.to, Account { nonce: macc.nonce, balance: (macc.balance + cb.value) as u64 }),
        )
    }
}

/// The body applied and the coinbase credited, against the state at `root`.
pub open spec fn apply_block(
    nodes: Map<Seq<u8>, NodeView>,
    root: Seq<u8>,
    b: BlockView,
) -> ApplyResult {
    match apply_prefix(nodes, root, b.data, b.data.len() as int) {
        ApplyResult::Applied(upd) => apply_coinbase(nodes, root, upd, b.coinbase),
        e => e,
    }
}

/// A failed transaction check persists through the remaining prefix.
pub proof fn lemma_apply_error_sticks(
    nodes: Map<Seq<u8>, NodeView>,
    root: Seq<u8>,
    data: Seq<StxView>,
    k: int,
    m: int,
)
    requires
        k <= m,
        !(apply_prefix(nodes, root, data, k) is Applied),
    ensures
        apply_prefix(nodes, root, data, m) == apply_prefix(nodes, root, data, k),
    decreases m - k,
{
    if k < m {
        lemma_apply_error_sticks(nodes, root, data, k, m - 1);
    }
}

/// Checks 1 to 3: known parent, proof of work, inherited difficulty.
pub open spec fn header_checks(blocks: Map<Seq<u8>, BlockView>, b: BlockView) -> bool {
    &&& blocks.contains_key(b.parent)
    &&& bytes_le(block_hash(b), b.difficulty)
    &&& b.difficulty == blocks[b.parent].difficulty
}

/// Check 4: every body transaction carries a valid signature.
pub open spec fn sigs_ok(b: BlockView) -> bool {
    forall|i: int| 0 <= i < b.data.len() ==> stx_valid_sig(#[trigger] b.data[i])
}

/// Check 5: the coinbase pays exactly the reward plus the fee sum.
pub open spec fn coinbase_ok(b: BlockView) -> bool {
    b.coinbase.value == BLOCK_REWARD + total_fee(b.data)
}

/// Check 6: the body hashes to the header's Merkle root.
pub open spec fn merkle_ok(b: BlockView) -> bool {
    merkle_root_of(b.data) == b.merkle_root
}

/// The height a hash is recorded at; unknown hashes count as height zero.
pub open spec fn height_of(heights: Map<Seq<u8>, u64>, h: Seq<u8>) -> u64 {
    if heights.contains_key(h) {
        heights[h]
    } else {
        0
    }
}

/// Determinism of execution. `execute_block`'s success arm already pins the
/// returned hash to the block's own; this pins the node set: the fresh
/// nodes are a function of the store, the parent state root and the update
/// map that applying the block produced, whatever order that map was
/// enumerated in.
pub proof fn lemma_execution_nodes_deterministic(
    nodes: Map<Seq<u8>, NodeView>,
    root: Seq<u8>,
    items1: Seq<(Seq<u8>, Account)>,
    items2: Seq<(Seq<u8>, Account)>,
)
    requires
        crate::trie::items_distinct(items1),
        crate::trie::items_distinct(items2),
        items_map(items1) == items_map(items2),
    ensures
        batch_step(nodes, root, items1, 0) == batch_step(nodes, root, items2, 0),
{
    crate::trie::lemma_batch_step_same_map(nodes, root, items1, items2, 0);
}

pub struct Blockchain {
    pub tip: H256,
    pub storage: Storage,
}

/// The address funded at genesis.
pub open spec fn god_address() -> Seq<u8> {
    seq![
        0x67u8, 0xd3u8, 0x9du8, 0xa2u8, 0x2du8, 0x10u8, 0x6bu8, 0x68u8, 0x6cu8, 0x4fu8, 0x30u8,
        0x1bu8, 0x6fu8, 0x35u8, 0x76u8, 0x00u8, 0xd2u8, 0x8fu8, 0xc1u8, 0x04u8,
    ]
}

/// The account funded at genesis.
pub open spec fn god_account() -> Account {
    Account { nonce: 0, balance: 100_000_000 }
}

/// The node store right after a fresh empty trie: the empty node alone.
pub open spec fn genesis_empty_store() -> Map<Seq<u8>, NodeView> {
    Map::empty().insert(node_hash(NodeView::Empty), NodeView::Empty)
}

/// The state root of the genesis trie: the empty trie updated with the god
/// account.
pub open spec fn genesis_state_root() -> Seq<u8> {
    batch_step(
        genesis_empty_store(),
        node_hash(NodeView::Empty),
        seq![(god_address(), god_account())],
        0,
    ).0
}

/// The trie nodes the genesis state files.
pub open spec fn genesis_state_nodes() -> Map<Seq<u8>, NodeView> {
    batch_step(
        genesis_empty_store(),
        node_hash(NodeView::Empty),
        seq![(god_address(), god_account())],
        0,
    ).1
}

impl Blockchain {
    /// The storage is well formed, the tip is a stored block, and every
    /// stored block has a height; above height zero the parent is stored
    /// one level down, so walking parents from any block terminates.
    pub open spec fn wf(&self) -> bool {
        &&& self.storage.wf()
        &&& self.storage.blocks_view().contains_key(self.tip@)
        &&& self.storage.tip_view() == Some(self.tip@)
        &&& forall|h: Seq<u8>|
            self.storage.blocks_view().contains_key(h)
                ==> #[trigger] self.storage.heights_view().contains_key(h)
        &&& forall|h: Seq<u8>|
            #![trigger self.storage.blocks_view()[h]]
            self.storage.blocks_view().contains_key(h) && self.storage.heights_view()[h] > 0
                ==> self.storage.blocks_view().contains_key(
                self.storage.blocks_view()[h].parent,
            ) && self.storage.heights_view()[self.storage.blocks_view()[h].parent]
                == self.storage.heights_view()[h] - 1
    }

    /// Boot from nothing: build the genesis state trie holding the god
    /// account, persist it, and commit the genesis block at height zero.
    /// Every honest node computes the same genesis hash.
    pub fn new() -> (r: Blockchain)
        ensures
            r.wf(),
            r.tip@ == block_hash(genesis_view(genesis_state_root())),
            r.storage.blocks_view() == Map::<Seq<u8>, BlockView>::empty().insert(
                r.tip@,
                genesis_view(genesis_state_root()),
            ),
            r.storage.heights_view() == Map::<Seq<u8>, u64>::empty().insert(r.tip@, 0u64),
            r.storage.nodes_view() == genesis_empty_store().union_prefer_right(
                genesis_state_nodes(),
            ),
            r.storage.tip_view() == Some(r.tip@),
            height_of(r.storage.heights_view(), r.tip@) == 0,
    {
        let mut storage = Storage::new();
        let trie = StateTrie::new(&mut storage.state_nodes);
        let god_bytes = [
            0x67u8, 0xd3u8, 0x9du8, 0xa2u8, 0x2du8, 0x10u8, 0x6bu8, 0x68u8, 0x6cu8, 0x4fu8,
            0x30u8, 0x1bu8, 0x6fu8, 0x35u8, 0x76u8, 0x00u8, 0xd2u8, 0x8fu8, 0xc1u8, 0x04u8,
        ];
        proof {
            assert(god_bytes@ =~= god_address());
            assert(storage.nodes_view() =~= genesis_empty_store());
        }
        let god_addr = Address::from_bytes(god_bytes);
        let god_acct = Account::new(0, 100_000_000);
        let (genesis_root, nodes) = trie.insert(&storage.state_nodes, god_addr, god_acct);
        proof {
            assert(seq![(god_addr@, god_acct)] =~= seq![(god_address(), god_account())]);
            assert(genesis_root@ == genesis_state_root());
            assert(nodes@ == genesis_state_nodes());
        }
        storage.batch_save_state_nodes(&nodes);
        let genesis_block = Block::genesis(genesis_root);
        let genesis_hash = genesis_block.hash();
        storage.blocks.insert(genesis_hash, genesis_block);
        storage.heights.insert(genesis_hash, 0);
        storage.tip_hash = Some(genesis_hash);
        let r = Blockchain { tip: genesis_hash, storage };
        proof {
            assert(r.storage.blocks_view() =~= Map::<Seq<u8>, BlockView>::empty().insert(
                r.tip@,
                genesis_view(genesis_state_root()),
            ));
            assert(r.storage.heights_view() =~= Map::<Seq<u8>, u64>::empty().insert(
                r.tip@,
                0u64,
            ));
        }
        r
    }

    /// Validate a block against the store, fail-fast: the result names the
    /// first violated check, or carries the block hash and the fresh state
    /// nodes on success.
    pub fn execute_block(storage: &Storage, block: &Block) -> (r: Result<
        (H256, KvMap<H256, NodeData>),
        ExecError,
    >)
        requires
            storage.wf(),
        ensures
            match r {
                Ok(p) => {
                    &&& header_checks(storage.blocks_view(), block@)
                    &&& sigs_ok(block@)
                    &&& coinbase_ok(block@)
                    &&& merkle_ok(block@)
                    &&& p.0@ == block_hash(block@)
                    &&& p.1.wf()
                    &&& exists|items: Seq<(Seq<u8>, Account)>|
                        {
                            &&& crate::trie::items_wf(items)
                            &&& crate::trie::items_distinct(items)
                            &&& apply_block(
                                storage.nodes_view(),
                                storage.blocks_view()[block@.parent].state_root,
                                block@,
                            ) == ApplyResult::Applied(#[trigger] items_map(items))
                            &&& batch_step(
                                storage.nodes_view(),
                                storage.blocks_view()[block@.parent].state_root,
                                items,
                                0,
                            ).0 == block@.state_root
                            &&& p.1@ == batch_step(
                                storage.nodes_view(),
                                storage.blocks_view()[block@.parent].state_root,
                                items,
                                0,
                            ).1
                        }
                },
                Err(ExecError::UnknownParent) => !storage.blocks_view().contains_key(
                    block@.parent,
                ),
                Err(ExecError::PowViolation) => storage.blocks_view().contains_key(block@.parent)
                    && !bytes_le(block_hash(block@), block@.difficulty),
                Err(ExecError::DifficultyMismatch) => {
                    &&& storage.blocks_view().contains_key(block@.parent)
                    &&& bytes_le(block_hash(block@), block@.difficulty)
                    &&& block@.difficulty != storage.blocks_view()[block@.parent].difficulty
                },
                Err(ExecError::BadSignature) => header_checks(storage.blocks_view(), block@)
                    && !sigs_ok(block@),
                Err(ExecError::CoinbaseMismatch) => {
                    &&& header_checks(storage.blocks_view(), block@)
                    &&& sigs_ok(block@)
                    &&& !coinbase_ok(block@)
                },
                Err(ExecError::MerkleMismatch) => {
                    &&& header_checks(storage.blocks_view(), block@)
                    &&& sigs_ok(block@)
                    &&& coinbase_ok(block@)
                    &&& !merkle_ok(block@)
                },
                Err(ExecError::NonceMismatch) => {
                    &&& header_checks(storage.blocks_view(), block@)
                    &&& sigs_ok(block@)
                    &&& coinbase_ok(block@)
                    &&& merkle_ok(block@)
                    &&& apply_block(
                        storage.nodes_view(),
                        storage.blocks_view()[block@.parent].state_root,
                        block@,
                    ) == ApplyResult::BadNonce
                },
                Err(ExecError::InsufficientBalance) => {
                    &&& header_checks(storage.blocks_view(), block@)
                    &&& sigs_ok(block@)
                    &&& coinbase_ok(block@)
                    &&& merkle_ok(block@)
                    &&& apply_block(
                        storage.nodes_view(),
                        storage.blocks_view()[block@.parent].state_root,
                        block@,
                    ) == ApplyResult::ShortBalance
                },
                Err(ExecError::ValueOverflow) => {
                    &&& header_checks(storage.blocks_view(), block@)
                    &&& sigs_ok(block@)
                    &&& coinbase_ok(block@)
                    &&& merkle_ok(block@)
                    &&& apply_block(
                        storage.nodes_view(),
                        storage.blocks_view()[block@.parent].state_root,
                        block@,
                    ) == ApplyResult::Overflow
                },
                Err(ExecError::StateRootMismatch) => {
                    &&& header_checks(storage.blocks_view(), block@)
                    &&& sigs_ok(block@)
                    &&& coinbase_ok(block@)
                    &&& merkle_ok(block@)
                    &&& exists|items: Seq<(Seq<u8>, Account)>|
                        {
                            &&& crate::trie::items_wf(items)
                            &&& crate::trie::items_distinct(items)
                            &&& apply_block(
                                storage.nodes_view(),
                                storage.blocks_view()[block@.parent].state_root,
                                block@,
                            ) == ApplyResult::Applied(#[trigger] items_map(items))
                            &&& batch_step(
                                storage.nodes_view(),
                                storage.blocks_view()[block@.parent].state_root,
                                items,
                                0,
                            ).0 != block@.state_root
                        }
                },
            },
    {
        let block_hash_val = block.hash();
        let parent_hash = block.get_parent();
        let parent = match storage.blocks.get(&parent_hash) {
            Some(p) => p,
            None => {
                return Err(ExecError::UnknownParent);
            },
        };
        let block_difficulty = block.get_difficulty();
        if !block_hash_val.le(&block_difficulty) {
            return Err(ExecError::PowViolation);
        }
        if !block_difficulty.eq_h(&parent.get_difficulty()) {
            return Err(ExecError::DifficultyMismatch);
        }
        proof {
            assert(header_checks(storage.blocks_view(), block@));
        }
        let ghost dv = block@.data;
        let mut total_fee_acc: u128 = 0;
        let mut fee_overflow = false;
        let mut i: usize = 0;
        let n = block.data.len();
        while i < n
            invariant
                n == block.data@.len(),
                dv == block@.data,
                dv.len() == n,
                i <= n,
                storage.wf(),
                header_checks(storage.blocks_view(), block@),
                forall|j: int| 0 <= j < i ==> stx_valid_sig(#[trigger] dv[j]),
                !fee_overflow ==> total_fee_acc == total_fee_prefix(dv, i as int),
                fee_overflow ==> total_fee_prefix(dv, i as int) > u128::MAX,
                forall|j: int| 0 <= j < dv.len() ==> #[trigger] dv[j] == block.data@[j]@,
            decreases n - i,
        {
            let tx = &block.data[i];
            if !tx.verify() {
                proof {
                    assert(!stx_valid_sig(block@.data[i as int]));
                    assert(!sigs_ok(block@));
                }
                return Err(ExecError::BadSignature);
            }
            let gp = tx.transaction.gas_price;
            let gl = tx.transaction.gas_limit;
            proof {
                assert((gp as int) * (gl as int) < 0x100000000000000000000000000000000int)
                    by (nonlinear_arith)
                    requires
                        gp <= 0xffffffffffffffffu64,
                        gl <= 0xffffffffffffffffu64,
                ;
                assert(fee_of(dv[i as int].transaction) == (gp as int) * (gl as int));
                assert(fee_of(dv[i as int].transaction) >= 0) by (nonlinear_arith)
                    requires
                        gp >= 0,
                        gl >= 0,
                ;
            }
            let fee: u128 = (gp as u128) * (gl as u128);
            if fee_overflow || total_fee_acc > u128::MAX - fee {
                fee_overflow = true;
                proof {
                    assert(total_fee_prefix(dv, i + 1) == total_fee_prefix(dv, i as int)
                        + fee_of(dv[i as int].transaction));
                }
            } else {
                total_fee_acc = total_fee_acc + fee;
            }
            i = i + 1;
        }
        proof {
            assert(sigs_ok(block@));
        }
        if fee_overflow {
            proof {
                assert(block@.coinbase.value <= u64::MAX < u128::MAX);
            }
            return Err(ExecError::CoinbaseMismatch);
        }
        if total_fee_acc > u128::MAX - (BLOCK_REWARD as u128) {
            return Err(ExecError::CoinbaseMismatch);
        }
        let expected_reward: u128 = (BLOCK_REWARD as u128) + total_fee_acc;
        if (block.coinbase.value as u128) != expected_reward {
            return Err(ExecError::CoinbaseMismatch);
        }
        proof {
            assert(coinbase_ok(block@));
        }
        let tree = MerkleTree::new(&block.data);
        let calculated_root = tree.root();
        if !calculated_root.eq_h(&block.get_merkle_root()) {
            return Err(ExecError::MerkleMismatch);
        }
        proof {
            assert(merkle_ok(block@));
        }
        let parent_state_root = parent.state_root;
        let ghost root = parent_state_root@;
        let ghost nv = storage.nodes_view();
        let state = StateTrie::new_from_root(parent_state_root);
        let mut account_updates: KvMap<Address, Account> = KvMap::new();
        let mut i2: usize = 0;
        proof {
            assert(storage.blocks_view()[block@.parent].state_root == root);
        }
        while i2 < n
            invariant
                storage.wf(),
                header_checks(storage.blocks_view(), block@),
                sigs_ok(block@),
                coinbase_ok(block@),
                merkle_ok(block@),
                root == storage.blocks_view()[block@.parent].state_root,
                n == block.data@.len(),
                dv == block@.data,
                dv.len() == n,
                i2 <= n,
                nv == storage.nodes_view(),
                state.root_hash@ == root,
                account_updates.wf(),
                apply_prefix(nv, root, dv, i2 as int) == ApplyResult::Applied(account_updates@),
                forall|j: int| 0 <= j < dv.len() ==> #[trigger] dv[j] == block.data@[j]@,
            decreases n - i2,
        {
            let tx = &block.data[i2];
            let ghost t = dv[i2 as int];
            let sender_addr = tx.sender_address();
            let gp = tx.transaction.gas_price;
            let gl = tx.transaction.gas_limit;
            let tv = tx.transaction.value;
            proof {
                assert((gp as int) * (gl as int) < 0x100000000000000000000000000000000int
                    - 0xffffffffffffffffint) by (nonlinear_arith)
                    requires
                        gp <= 0xffffffffffffffffu64,
                        gl <= 0xffffffffffffffffu64,
                ;
                assert((gp as int) * (gl as int) >= 0) by (nonlinear_arith)
                    requires
                        gp >= 0,
                        gl >= 0,
                ;
            }
            let total_cost: u128 = (tv as u128) + (gp as u128) * (gl as u128);
            proof {
                assert(total_cost == cost_of(t.transaction));
            }
            let sender_acc = match account_updates.get(&sender_addr) {
                Some(acc) => *acc,
                None => match state.get(storage.state_nodes(), &sender_addr) {
                    Some(acc) => acc,
                    None => Account { nonce: 0, balance: 0 },
                },
            };
            proof {
                assert(sender_acc == acct_at(nv, root, account_updates@, stx_sender(t)));
            }
            if tx.transaction.nonce != sender_acc.nonce {
                proof {
                    assert(apply_prefix(nv, root, dv, i2 + 1) == ApplyResult::BadNonce);
                    lemma_apply_error_sticks(nv, root, dv, i2 + 1, dv.len() as int);
                    assert(apply_block(nv, root, block@) == ApplyResult::BadNonce);
                }
                return Err(ExecError::NonceMismatch);
            }
            if (sender_acc.balance as u128) < total_cost {
                proof {
                    assert(apply_prefix(nv, root, dv, i2 + 1) == ApplyResult::ShortBalance);
                    lemma_apply_error_sticks(nv, root, dv, i2 + 1, dv.len() as int);
                    assert(apply_block(nv, root, block@) == ApplyResult::ShortBalance);
                }
                return Err(ExecError::InsufficientBalance);
            }
            if sender_acc.nonce == u64::MAX {
                proof {
                    assert(apply_prefix(nv, root, dv, i2 + 1) == ApplyResult::Overflow);
                    lemma_apply_error_sticks(nv, root, dv, i2 + 1, dv.len() as int);
                    assert(apply_block(nv, root, block@) == ApplyResult::Overflow);
                }
                return Err(ExecError::ValueOverflow);
            }
            let new_sender = Account {
                nonce: sender_acc.nonce + 1,
                balance: ((sender_acc.balance as u128) - total_cost) as u64,
            };
            account_updates.insert(sender_addr, new_sender);
            let receiver_addr = tx.transaction.to;
            let receiver_acc = match account_updates.get(&receiver_addr) {
                Some(acc) => *acc,
                None => match state.get(storage.state_nodes(), &receiver_addr) {
                    Some(acc) => acc,
                    None => Account { nonce: 0, balance: 0 },
                },
            };
            if receiver_acc.balance > u64::MAX - tv {
                proof {
                    assert(receiver_acc == acct_at(nv, root, account_updates@, t.transaction.to));
                    assert(apply_prefix(nv, root, dv, i2 + 1) == ApplyResult::Overflow);
                    lemma_apply_error_sticks(nv, root, dv, i2 + 1, dv.len() as int);
                    assert(apply_block(nv, root, block@) == ApplyResult::Overflow);
                }
                return Err(ExecError::ValueOverflow);
            }
            let new_receiver = Account {
                nonce: receiver_acc.nonce,
                balance: receiver_acc.balance + tv,
            };
            account_updates.insert(receiver_addr, new_receiver);
            proof {
                assert(apply_prefix(nv, root, dv, i2 + 1) == ApplyResult::Applied(
                    account_updates@,
                ));
            }
            i2 = i2 + 1;
        }
        let miner_addr = block.coinbase.to;
        let cb_value = block.coinbase.value;
        let miner_acc = match account_updates.get(&miner_addr) {
            Some(acc) => *acc,
            None => match state.get(storage.state_nodes(), &miner_addr) {
                Some(acc) => acc,
                None => Account { nonce: 0, balance: 0 },
            },
        };
        if miner_acc.balance > u64::MAX - cb_value {
            proof {
                assert(miner_acc == acct_at(nv, root, account_updates@, block@.coinbase.to));
                assert(apply_block(nv, root, block@) == ApplyResult::Overflow);
            }
            return Err(ExecError::ValueOverflow);
        }
        let new_miner = Account { nonce: miner_acc.nonce, balance: miner_acc.balance + cb_value };
        account_updates.insert(miner_addr, new_miner);
        proof {
            assert(apply_block(nv, root, block@) == ApplyResult::Applied(account_updates@));
        }
        let (final_root, new_nodes) = state.insert_batch(storage.state_nodes(), &account_updates);
        if !final_root.eq_h(&block.state_root) {
            return Err(ExecError::StateRootMismatch);
        }
        Ok((block_hash_val, new_nodes))
    }

    /// Commit a validated block: idempotent, refuses an orphan, records the
    /// height, and advances the tip only on a strictly greater height, so
    /// the first-seen block wins a tie.
    pub fn commit_block(&mut self, block: &Block, new_nodes: KvMap<H256, NodeData>)
        requires
            old(self).wf(),
            new_nodes.wf(),
        ensures
            final(self).wf(),
            old(self).storage.blocks_view().contains_key(block_hash(block@)) ==> *final(self)
                == *old(self),
            !old(self).storage.blocks_view().contains_key(block_hash(block@)) && !old(
                self,
            ).storage.blocks_view().contains_key(block@.parent) ==> *final(self) == *old(self),
            (!old(self).storage.blocks_view().contains_key(block_hash(block@)) && old(
                self,
            ).storage.blocks_view().contains_key(block@.parent) && height_of(
                old(self).storage.heights_view(),
                block@.parent,
            ) < u64::MAX) ==> {
                &&& final(self).storage.blocks_view() == old(self).storage.blocks_view().insert(
                    block_hash(block@),
                    block@,
                )
                &&& final(self).storage.nodes_view() == old(
                    self,
                ).storage.nodes_view().union_prefer_right(new_nodes@)
                &&& final(self).storage.heights_view() == old(
                    self,
                ).storage.heights_view().insert(
                    block_hash(block@),
                    (height_of(old(self).storage.heights_view(), block@.parent) + 1) as u64,
                )
                &&& final(self).tip@ == if height_of(
                    old(self).storage.heights_view(),
                    block@.parent,
                ) + 1 > height_of(old(self).storage.heights_view(), old(self).tip@) {
                    block_hash(block@)
                } else {
                    old(self).tip@
                }
            },
            height_of(final(self).storage.heights_view(), final(self).tip@) >= height_of(
                old(self).storage.heights_view(),
                old(self).tip@,
            ),
            final(self).storage.tip_view() == Some(final(self).tip@),
            forall|h: Seq<u8>|
                #[trigger] old(self).storage.blocks_view().contains_key(h) ==> final(self).storage.blocks_view().contains_key(h),
    {
        let block_hash_val = block.hash();
        if self.contains_block(&block_hash_val) {
            return;
        }
        let parent_hash = block.get_parent();
        if !self.contains_block(&parent_hash) {
            return;
        }
        let parent_height = self.get_height(&parent_hash);
        if parent_height == u64::MAX {
            return;
        }
        let current_height = parent_height + 1;
        let ghost old_self = *self;
        self.storage.blocks.insert(block_hash_val, block.dup());
        self.storage.state_nodes.merge_from(&new_nodes);
        self.storage.heights.insert(block_hash_val, current_height);
        let tip_hash = self.tip;
        let tip_height = self.get_height(&tip_hash);
        if current_height > tip_height {
            self.tip = block_hash_val;
            self.storage.tip_hash = Some(block_hash_val);
        }
        proof {
            let bh = block_hash(block@);
            let bs = self.storage.blocks_view();
            assert forall|h: Seq<u8>| bs.contains_key(h) implies #[trigger] self.storage.heights_view().contains_key(
                h,
            ) by {
                if h != bh {
                    assert(old_self.storage.blocks_view().contains_key(h));
                }
            }
            assert forall|h: Seq<u8>|
                #![trigger self.storage.blocks_view()[h]]
                bs.contains_key(h) && self.storage.heights_view()[h] > 0 implies bs.contains_key(
                bs[h].parent,
            ) && self.storage.heights_view()[bs[h].parent] == self.storage.heights_view()[h]
                - 1 by {
                if h == bh {
                    assert(bs[h] == block@);
                    assert(block@.parent != bh) by {
                        assert(old_self.storage.blocks_view().contains_key(block@.parent));
                        assert(!old_self.storage.blocks_view().contains_key(bh));
                    }
                } else {
                    assert(old_self.storage.blocks_view().contains_key(h));
                    assert(old_self.storage.blocks_view()[h] == bs[h]);
                    if self.storage.heights_view()[h] > 0 {
                        assert(old_self.storage.heights_view()[h] > 0);
                        assert(bs[h].parent != bh) by {
                            assert(old_self.storage.blocks_view().contains_key(bs[h].parent));
                        }
                    }
                }
            }
        }
    }

    /// Whether a block with this hash is stored.
    pub fn contains_block(&self, hash: &H256) -> (r: bool)
        requires
            self.storage.wf(),
        ensures
            r == self.storage.blocks_view().contains_key(hash@),
    {
        self.storage.blocks.contains(hash)
    }

    /// The stored block with this hash, if any.
    pub fn get_block(&self, hash: &H256) -> (r: Option<Block>)
        requires
            self.storage.wf(),
        ensures
            match r {
                Some(b) => self.storage.blocks_view().contains_key(hash@) && b@
                    == self.storage.blocks_view()[hash@],
                None => !self.storage.blocks_view().contains_key(hash@),
            },
    {
        match self.storage.blocks.get(hash) {
            Some(b) => Some(b.dup()),
            None => None,
        }
    }

    /// The height recorded for a hash; an unknown hash counts as zero.
    pub fn get_height(&self, hash: &H256) -> (r: u64)
        requires
            self.storage.wf(),
        ensures
            r == height_of(self.storage.heights_view(), hash@),
    {
        match self.storage.heights.get(hash) {
            Some(h) => *h,
            None => 0,
        }
    }

    /// The current tip hash.
    pub fn tip(&self) -> (r: H256)
        ensures
            r == self.tip,
    {
        self.tip
    }

    /// The difficulty of the tip block.
    pub fn get_difficulty(&self) -> (r: H256)
        requires
            self.wf(),
        ensures
            r@ == self.storage.blocks_view()[self.tip@].difficulty,
    {
        match self.storage.blocks.get(&self.tip) {
            Some(b) => b.get_difficulty(),
            None => H256::zero(),
        }
    }

    /// The state trie at the tip block's state root.
    pub fn get_state_at_tip(&self) -> (r: StateTrie)
        requires
            self.wf(),
        ensures
            r.root_hash@ == self.storage.blocks_view()[self.tip@].state_root,
    {
        match self.storage.blocks.get(&self.tip) {
            Some(b) => StateTrie::new_from_root(b.state_root),
            None => StateTrie::new_from_root(H256::zero()),
        }
    }

    /// The account at an address in the tip state; an absent account is
    /// the default.
    pub fn get_account(&self, addr: &Address) -> (r: Account)
        requires
            self.wf(),
        ensures
            r == (match trie_get(
                self.storage.nodes_view(),
                self.storage.blocks_view()[self.tip@].state_root,
                addr@,
                0,
            ) {
                Some(acc) => acc,
                None => Account { nonce: 0, balance: 0 },
            }),
    {
        let state = self.get_state_at_tip();
        match state.get(self.storage.state_nodes(), addr) {
            Some(acc) => acc,
            None => Account { nonce: 0, balance: 0 },
        }
    }

    /// The hashes of the chain from the height-zero block up to the tip.
    pub fn all_blocks_in_longest_chain(&self) -> (r: Vec<H256>)
        requires
            self.wf(),
        ensures
            r@.len() == height_of(self.storage.heights_view(), self.tip@) + 1,
            r@[r@.len() - 1]@ == self.tip@,
            forall|i: int|
                0 <= i < r@.len() ==> self.storage.blocks_view().contains_key(
                    (#[trigger] r@[i])@,
                ) && height_of(self.storage.heights_view(), r@[i]@) == i,
            forall|i: int|
                0 < i < r@.len() ==> self.storage.blocks_view()[(#[trigger] r@[i])@].parent == r@[
                    i - 1]@,
    {
        let mut chain: Vec<H256> = Vec::new();
        let mut curr = self.tip;
        chain.push(curr);
        let mut height = self.get_height(&curr);
        let ghost total = height_of(self.storage.heights_view(), self.tip@);
        while height > 0
            invariant
                self.wf(),
                chain@.len() >= 1,
                chain@.len() == total - height + 1,
                chain@[0]@ == curr@,
                self.storage.blocks_view().contains_key(curr@),
                height == height_of(self.storage.heights_view(), curr@),
                chain@[chain@.len() - 1]@ == self.tip@,
                forall|i: int|
                    0 <= i < chain@.len() ==> self.storage.blocks_view().contains_key(
                        (#[trigger] chain@[i])@,
                    ) && height_of(self.storage.heights_view(), chain@[i]@) == height + i,
                forall|i: int|
                    0 < i < chain@.len() ==> self.storage.blocks_view()[(
                    #[trigger] chain@[i])@].parent == chain@[i - 1]@,
            decreases height,
        {
            let block = match self.storage.blocks.get(&curr) {
                Some(b) => b,
                None => {
                    proof {
                        assert(false);
                    }
                    return chain;
                },
            };
            let parent = block.get_parent();
            let ghost old_chain = chain@;
            chain.insert(0, parent);
            proof {
                assert(self.storage.blocks_view()[curr@] == block@);
                assert(parent@ == block@.parent);
                assert(self.storage.heights_view().contains_key(curr@));
                assert(self.storage.heights_view()[curr@] == height);
                assert(self.storage.blocks_view().contains_key(parent@));
                assert(self.storage.heights_view()[parent@] == height - 1);
                let combined = seq![parent] + old_chain;
                assert(chain@ =~= combined);
                assert(chain@[0] == parent);
                assert forall|i: int| 0 < i < chain@.len() implies #[trigger] chain@[i]
                    == old_chain[i - 1] by {
                    assert(chain@[i] == combined[i]);
                    assert(combined[i] == old_chain[i - 1]);
                }
                assert forall|i: int|
                    0 < i < chain@.len() implies self.storage.blocks_view()[(
                #[trigger] chain@[i])@].parent == chain@[i - 1]@ by {
                    assert(chain@[i] == old_chain[i - 1]);
                    if i == 1 {
                        assert(chain@[1]@ == old_chain[0]@);
                        assert(old_chain[0]@ == curr@);
                        assert(self.storage.blocks_view()[curr@].parent == parent@);
                        assert(chain@[0]@ == parent@);
                    } else {
                        assert(chain@[i - 1] == old_chain[i - 2]);
                        assert(self.storage.blocks_view()[old_chain[i - 1]@].parent == old_chain[
                            i - 2]@);
                    }
                }
                assert forall|i: int|
                    0 <= i < chain@.len() implies self.storage.blocks_view().contains_key(
                    (#[trigger] chain@[i])@,
                ) && height_of(self.storage.heights_view(), chain@[i]@) == (height - 1) + i by {
                    if i == 0 {
                        assert(chain@[0]@ == parent@);
                        assert(height_of(self.storage.heights_view(), parent@) == height - 1);
                    } else {
                        assert(chain@[i] == old_chain[i - 1]);
                        assert(self.storage.blocks_view().contains_key(old_chain[i - 1]@));
                        assert(height_of(self.storage.heights_view(), old_chain[i - 1]@)
                            == height + (i - 1));
                    }
                }
                let li = chain@.len() - 1;
                assert(0 < li < chain@.len());
                assert(chain@[li] == combined[li]);
                assert(combined[li] == old_chain[li - 1]);
                assert(old_chain[li - 1]@ == self.tip@);
            }
            curr = parent;
            height = height - 1;
        }
        chain
    }
}

} // verus!
