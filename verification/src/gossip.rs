//! The gossip protocol: typed peer messages, the orphan buffer, and the
//! handler that turns one inbound message into state changes, replies to
//! the sender, and broadcasts.

use vstd::prelude::*;
use crate::block::{Block, BlockView};
use crate::chain::{height_of, Blockchain};
use crate::hash::H256;
use crate::kvmap::{Dup, KvMap};
use crate::mempool::Mempool;
use crate::transaction::{stx_hash, stx_valid_sig, SignedTransaction, StxView};

verus! {

broadcast use crate::hash::lemma_h256_view_len, crate::hash::lemma_address_view_len;

/// The wire message set exchanged between peers.
pub enum Message {
    Ping(String),
    Pong(String),
    NewBlockHashes(Vec<H256>),
    GetBlocks(Vec<H256>),
    Blocks(Vec<Block>),
    NewTransactionHashes(Vec<H256>),
    GetTransactions(Vec<H256>),
    Transactions(Vec<SignedTransaction>),
    GetBlockchain,
    SendBlockchain(Vec<Block>),
    GetMempool,
    SendMempool(Vec<SignedTransaction>),
    GetBlockHeight,
    BlockHeight(u64),
}

/// A list of blocks buffered under one missing parent.
pub struct BlockList {
    pub items: Vec<Block>,
}

impl View for BlockList {
    type V = Seq<BlockView>;

    open spec fn view(&self) -> Seq<BlockView> {
        self.items@.map_values(|b: Block| b@)
    }
}

impl Dup for BlockList {
    fn dup(&self) -> (r: BlockList) {
        let mut items: Vec<Block> = Vec::new();
        let mut i: usize = 0;
        while i < self.items.len()
            invariant
                i <= self.items@.len(),
                items@.len() == i,
                forall|j: int| 0 <= j < i ==> #[trigger] items@[j]@ == self.items@[j]@,
            decreases self.items@.len() - i,
        {
            items.push(self.items[i].dup());
            i = i + 1;
        }
        proof {
            assert(items@.map_values(|b: Block| b@) =~= self.items@.map_values(|b: Block| b@));
        }
        BlockList { items }
    }
}

/// Orphan blocks, keyed by the parent hash they wait for.
pub type OrphanBuffer = KvMap<H256, BlockList>;

/// The mempool after an ingest: nothing is removed, and anything new is a
/// transaction from the batch with a valid signature, keyed by its hash.
pub open spec fn mempool_gains_only_valid(
    before: Map<Seq<u8>, StxView>,
    after: Map<Seq<u8>, StxView>,
    txs: Seq<StxView>,
) -> bool {
    &&& forall|k: Seq<u8>|
        #[trigger] after.contains_key(k) ==> before.contains_key(k) || (exists|i: int|
            0 <= i < txs.len() && stx_hash(#[trigger] txs[i]) == k && stx_valid_sig(txs[i]))
    &&& forall|k: Seq<u8>| #[trigger] before.contains_key(k) ==> after.contains_key(k)
    &&& forall|i: int|
        0 <= i < txs.len() && stx_valid_sig(#[trigger] txs[i]) ==> after.contains_key(
            stx_hash(txs[i]),
        )
}

/// The views of a hash list.
pub open spec fn hash_views(v: Seq<H256>) -> Seq<Seq<u8>> {
    v.map_values(|h: H256| h@)
}

/// The delivered keys that name nothing stored, in delivery order.
pub open spec fn missing_keys<V>(stored: Map<Seq<u8>, V>, hs: Seq<Seq<u8>>) -> Seq<Seq<u8>> {
    hs.filter(|h: Seq<u8>| !stored.contains_key(h))
}

/// The stored values of the known keys, in delivery order; unknown keys
/// are omitted.
pub open spec fn known_values<V>(stored: Map<Seq<u8>, V>, hs: Seq<Seq<u8>>) -> Seq<V>
    decreases hs.len(),
{
    if hs.len() == 0 {
        Seq::empty()
    } else {
        known_values(stored, hs.drop_last()) + if stored.contains_key(hs.last()) {
            seq![stored[hs.last()]]
        } else {
            Seq::empty()
        }
    }
}

/// A chain dump: the stored blocks along the canonical chain, root first,
/// tip last, one per height.
pub open spec fn chain_reply(
    blocks: Map<Seq<u8>, BlockView>,
    heights: Map<Seq<u8>, u64>,
    tip: Seq<u8>,
    bs: Seq<BlockView>,
    hs: Seq<Seq<u8>>,
) -> bool {
    &&& bs.len() == hs.len()
    &&& hs.len() == height_of(heights, tip) + 1
    &&& hs.len() > 0 && hs[hs.len() - 1] == tip
    &&& forall|i: int|
        0 <= i < hs.len() ==> blocks.contains_key(#[trigger] hs[i]) && height_of(heights, hs[i])
            == i && bs[i] == blocks[hs[i]]
    &&& forall|i: int| 0 < i < hs.len() ==> blocks[#[trigger] hs[i]].parent == hs[i - 1]
}

/// `chain_reply` over a block list still in executable form.
pub open spec fn chain_reply_blocks(
    blocks: Map<Seq<u8>, BlockView>,
    heights: Map<Seq<u8>, u64>,
    tip: Seq<u8>,
    bs: Seq<Block>,
    hs: Seq<Seq<u8>>,
) -> bool {
    chain_reply(blocks, heights, tip, bs.map_values(|b: Block| b@), hs)
}

/// The message asks the sender for exactly one missing parent block.
pub open spec fn requests_parent(m: Message, parent: Seq<u8>) -> bool {
    m matches Message::GetBlocks(hs) && hs@.len() == 1 && hs@[0]@ == parent
}

/// The message announces freshly committed blocks, all of them stored.
pub open spec fn is_commit_broadcast(blocks: Map<Seq<u8>, BlockView>, m: Message) -> bool {
    m matches Message::NewBlockHashes(hs) && hs@.len() > 0 && forall|j: int|
        0 <= j < hs@.len() ==> blocks.contains_key((#[trigger] hs@[j])@)
}

/// The message is a `SendBlockchain` carrying the canonical chain.
pub open spec fn is_chain_dump(
    blocks: Map<Seq<u8>, BlockView>,
    heights: Map<Seq<u8>, u64>,
    tip: Seq<u8>,
    m: Message,
) -> bool {
    m matches Message::SendBlockchain(bs) && exists|hs: Seq<Seq<u8>>| #[trigger] chain_reply_blocks(
        blocks,
        heights,
        tip,
        bs@,
        hs,
    )
}

/// The message announces exactly the hashes that entered the mempool.
pub open spec fn is_new_tx_broadcast(
    before: Map<Seq<u8>, StxView>,
    after: Map<Seq<u8>, StxView>,
    m: Message,
) -> bool {
    m matches Message::NewTransactionHashes(hs) && (forall|j: int|
        0 <= j < hs@.len() ==> after.contains_key((#[trigger] hs@[j])@) && !before.contains_key(
            hs@[j]@,
        )) && (forall|k: Seq<u8>|
        after.contains_key(k) && !before.contains_key(k) ==> exists|j: int|
            0 <= j < hs@.len() && (#[trigger] hs@[j])@ == k)
}

/// Handle one inbound peer message: mutate the chain, the mempool and the
/// orphan buffer, and return the replies for the sender and the messages to
/// broadcast. The tip's height never decreases, and the three stores stay
/// well formed.
#[verifier::rlimit(100)]
#[verifier::spinoff_prover]
pub fn handle_message(
    chain: &mut Blockchain,
    mempool: &mut Mempool,
    orphans: &mut OrphanBuffer,
    msg: Message,
) -> (r: (Vec<Message>, Vec<Message>))
    requires
        old(chain).wf(),
        old(mempool).wf(),
        old(orphans).wf(),
    ensures
        final(chain).wf(),
        final(mempool).wf(),
        final(orphans).wf(),
        height_of(final(chain).storage.heights_view(), final(chain).tip@) >= height_of(
            old(chain).storage.heights_view(),
            old(chain).tip@,
        ),
        (msg is Ping || msg is Pong || msg is NewBlockHashes || msg is GetBlocks || msg
            is NewTransactionHashes || msg is GetTransactions || msg is GetBlockchain || msg
            is GetMempool || msg is GetBlockHeight || msg is BlockHeight) ==> *final(chain)
            == *old(chain),
        (msg is Ping || msg is Pong || msg is NewBlockHashes || msg is GetBlocks || msg
            is NewTransactionHashes || msg is GetTransactions || msg is GetBlockchain || msg
            is GetMempool || msg is GetBlockHeight || msg is BlockHeight) ==> final(mempool)@
            == old(mempool)@ && final(orphans)@ == old(orphans)@,
        (msg is Blocks || msg is SendBlockchain) ==> forall|k: Seq<u8>|
            #[trigger] final(mempool)@.contains_key(k) ==> old(mempool)@.contains_key(k) && final(mempool)@[k] == old(mempool)@[k],
        msg matches Message::Transactions(txs) ==> mempool_gains_only_valid(
            old(mempool)@,
            final(mempool)@,
            txs@.map_values(|t: SignedTransaction| t@),
        ) && *final(chain) == *old(chain) && final(orphans)@ == old(orphans)@,
        msg matches Message::SendMempool(txs) ==> mempool_gains_only_valid(
            old(mempool)@,
            final(mempool)@,
            txs@.map_values(|t: SignedTransaction| t@),
        ) && *final(chain) == *old(chain) && final(orphans)@ == old(orphans)@,
        msg matches Message::Ping(nonce) ==> r.0@.len() == 1 && r.1@.len() == 0 && (r.0@[0]
            matches Message::Pong(p) && p@ == nonce@),
        msg matches Message::Pong(_) ==> r.0@.len() == 0 && r.1@.len() == 0,
        msg matches Message::GetBlockHeight ==> r.1@.len() == 0 && r.0@.len() == 1 && (r.0@[0]
            matches Message::BlockHeight(h) && h == height_of(
            old(chain).storage.heights_view(),
            old(chain).tip@,
        )),
        msg matches Message::BlockHeight(h) ==> r.1@.len() == 0 && (h > height_of(
            old(chain).storage.heights_view(),
            old(chain).tip@,
        ) ==> r.0@.len() == 2 && r.0@[0] is GetBlockchain && r.0@[1] is GetMempool) && (h
            <= height_of(old(chain).storage.heights_view(), old(chain).tip@) ==> r.0@.len() == 0),
        msg matches Message::NewBlockHashes(hs) ==> r.1@.len() == 0 && {
            let m = missing_keys(old(chain).storage.blocks_view(), hash_views(hs@));
            if m.len() == 0 {
                r.0@.len() == 0
            } else {
                r.0@.len() == 1 && (r.0@[0] matches Message::GetBlocks(ms) && hash_views(ms@)
                    == m)
            }
        },
        msg matches Message::GetBlocks(hs) ==> r.1@.len() == 0 && {
            let f = known_values(old(chain).storage.blocks_view(), hash_views(hs@));
            if f.len() == 0 {
                r.0@.len() == 0
            } else {
                r.0@.len() == 1 && (r.0@[0] matches Message::Blocks(bs) && bs@.map_values(
                    |b: Block| b@,
                ) == f)
            }
        },
        msg matches Message::NewTransactionHashes(hs) ==> r.1@.len() == 0 && {
            let m = missing_keys(old(mempool)@, hash_views(hs@));
            if m.len() == 0 {
                r.0@.len() == 0
            } else {
                r.0@.len() == 1 && (r.0@[0] matches Message::GetTransactions(ms) && hash_views(
                    ms@,
                ) == m)
            }
        },
        msg matches Message::GetTransactions(hs) ==> r.1@.len() == 0 && {
            let f = known_values(old(mempool)@, hash_views(hs@));
            if f.len() == 0 {
                r.0@.len() == 0
            } else {
                r.0@.len() == 1 && (r.0@[0] matches Message::Transactions(ts)
                    && ts@.map_values(|t: SignedTransaction| t@) == f)
            }
        },
        msg is GetBlockchain ==> r.1@.len() == 0 && r.0@.len() == 1 && is_chain_dump(
            old(chain).storage.blocks_view(),
            old(chain).storage.heights_view(),
            old(chain).tip@,
            r.0@[0],
        ),
        msg is GetMempool ==> r.1@.len() == 0 && (if old(mempool)@.dom().len() == 0 {
            r.0@.len() == 0
        } else {
            r.0@.len() == 1 && (r.0@[0] matches Message::SendMempool(ts) && ts@.len() == old(mempool)@.dom().len() && (forall|i: int|
                0 <= i < ts@.len() ==> old(mempool)@.contains_key(
                    stx_hash(#[trigger] ts@[i]@),
                ) && old(mempool)@[stx_hash(ts@[i]@)] == ts@[i]@) && (forall|k: Seq<u8>|
                #[trigger] old(mempool)@.contains_key(k) ==> exists|i: int|
                    0 <= i < ts@.len() && stx_hash(#[trigger] ts@[i]@) == k))
        }),
        msg is SendBlockchain ==> r.0@.len() == 0 && r.1@.len() == 0 && final(mempool)@ == old(mempool)@ && final(orphans)@ == old(orphans)@,
        msg is SendMempool ==> r.0@.len() == 0 && r.1@.len() == 0,
        msg matches Message::Blocks(bs) ==> {
            &&& forall|ri: int| 0 <= ri < r.0@.len() ==> (#[trigger] r.0@[ri]) is GetBlocks
            &&& forall|i: int|
                0 <= i < bs@.len() && !final(chain).storage.blocks_view().contains_key(
                    (#[trigger] bs@[i])@.parent,
                ) ==> final(orphans)@.contains_key(bs@[i]@.parent) && final(orphans)@[bs@[
                    i]@.parent].contains(bs@[i]@) && exists|ri: int|
                    0 <= ri < r.0@.len() && #[trigger] requests_parent(r.0@[ri], bs@[i]@.parent)
            &&& forall|k: Seq<u8>|
                #[trigger] final(orphans)@.contains_key(k) ==> old(orphans)@.contains_key(k) || (
                exists|i: int| 0 <= i < bs@.len() && (#[trigger] bs@[i])@.parent == k)
            &&& forall|k: Seq<u8>|
                #[trigger] old(orphans)@.contains_key(k) && !final(orphans)@.contains_key(k)
                    ==> final(chain).storage.blocks_view().contains_key(k)
            &&& r.1@.len() <= 1
            &&& r.1@.len() == 1 ==> is_commit_broadcast(
                final(chain).storage.blocks_view(),
                r.1@[0],
            )
        },
        msg is Transactions ==> r.0@.len() == 0 && (if final(mempool)@ == old(mempool)@ {
            r.1@.len() == 0
        } else {
            r.1@.len() == 1 && is_new_tx_broadcast(old(mempool)@, final(mempool)@, r.1@[0])
        }),
{
    let mut replies: Vec<Message> = Vec::new();
    let mut broadcasts: Vec<Message> = Vec::new();
    match msg {
        Message::Ping(nonce) => {
            replies.push(Message::Pong(nonce));
        },
        Message::Pong(_) => {},
        Message::NewBlockHashes(hashes) => {
            let mut missing: Vec<H256> = Vec::new();
            let mut i: usize = 0;
            proof {
                assert(hash_views(hashes@.subrange(0, 0)) =~= Seq::<Seq<u8>>::empty());
                assert(hash_views(missing@) =~= missing_keys(
                    chain.storage.blocks_view(),
                    hash_views(hashes@.subrange(0, 0)),
                ));
            }
            while i < hashes.len()
                invariant
                    chain.wf(),
                    *chain == *old(chain),
                    *mempool == *old(mempool),
                    *orphans == *old(orphans),
                    i <= hashes@.len(),
                    hash_views(missing@) == missing_keys(
                        chain.storage.blocks_view(),
                        hash_views(hashes@.subrange(0, i as int)),
                    ),
                decreases hashes@.len() - i,
            {
                let ghost pre = hash_views(hashes@.subrange(0, i as int));
                let ghost pre1 = hash_views(hashes@.subrange(0, i + 1));
                proof {
                    assert(pre1.drop_last() =~= pre);
                    assert(pre1.last() == hashes@[i as int]@);
                    reveal_with_fuel(Seq::filter, 2);
                }
                if !chain.contains_block(&hashes[i]) {
                    missing.push(hashes[i]);
                }
                proof {
                    assert(hash_views(missing@) =~= missing_keys(
                        chain.storage.blocks_view(),
                        pre1,
                    ));
                }
                i = i + 1;
            }
            proof {
                assert(hashes@.subrange(0, hashes@.len() as int) =~= hashes@);
            }
            if missing.len() > 0 {
                replies.push(Message::GetBlocks(missing));
            }
        },
        Message::GetBlocks(hashes) => {
            let mut found: Vec<Block> = Vec::new();
            let mut i: usize = 0;
            proof {
                assert(hash_views(hashes@.subrange(0, 0)) =~= Seq::<Seq<u8>>::empty());
                assert(found@.map_values(|b: Block| b@) =~= known_values(
                    chain.storage.blocks_view(),
                    hash_views(hashes@.subrange(0, 0)),
                ));
            }
            while i < hashes.len()
                invariant
                    chain.wf(),
                    *chain == *old(chain),
                    *mempool == *old(mempool),
                    *orphans == *old(orphans),
                    i <= hashes@.len(),
                    found@.map_values(|b: Block| b@) == known_values(
                        chain.storage.blocks_view(),
                        hash_views(hashes@.subrange(0, i as int)),
                    ),
                decreases hashes@.len() - i,
            {
                let ghost pre = hash_views(hashes@.subrange(0, i as int));
                let ghost pre1 = hash_views(hashes@.subrange(0, i + 1));
                proof {
                    assert(pre1.drop_last() =~= pre);
                    assert(pre1.last() == hashes@[i as int]@);
                }
                match chain.get_block(&hashes[i]) {
                    Some(b) => {
                        found.push(b);
                    },
                    None => {},
                }
                proof {
                    assert(found@.map_values(|b: Block| b@) =~= known_values(
                        chain.storage.blocks_view(),
                        pre1,
                    ));
                }
                i = i + 1;
            }
            proof {
                assert(hashes@.subrange(0, hashes@.len() as int) =~= hashes@);
            }
            if found.len() > 0 {
                replies.push(Message::Blocks(found));
            }
        },
        Message::Blocks(blocks) => {
            let accepted = ingest_blocks(chain, mempool, orphans, blocks, &mut replies);
            if accepted.len() > 0 {
                broadcasts.push(Message::NewBlockHashes(accepted));
            }
        },
        Message::NewTransactionHashes(hashes) => {
            let mut missing: Vec<H256> = Vec::new();
            let mut i: usize = 0;
            proof {
                assert(hash_views(hashes@.subrange(0, 0)) =~= Seq::<Seq<u8>>::empty());
                assert(hash_views(missing@) =~= missing_keys(
                    mempool@,
                    hash_views(hashes@.subrange(0, 0)),
                ));
            }
            while i < hashes.len()
                invariant
                    mempool.wf(),
                    *chain == *old(chain),
                    *mempool == *old(mempool),
                    *orphans == *old(orphans),
                    i <= hashes@.len(),
                    hash_views(missing@) == missing_keys(
                        mempool@,
                        hash_views(hashes@.subrange(0, i as int)),
                    ),
                decreases hashes@.len() - i,
            {
                let ghost pre = hash_views(hashes@.subrange(0, i as int));
                let ghost pre1 = hash_views(hashes@.subrange(0, i + 1));
                proof {
                    assert(pre1.drop_last() =~= pre);
                    assert(pre1.last() == hashes@[i as int]@);
                    reveal_with_fuel(Seq::filter, 2);
                }
                if !mempool.contains(&hashes[i]) {
                    missing.push(hashes[i]);
                }
                proof {
                    assert(hash_views(missing@) =~= missing_keys(mempool@, pre1));
                }
                i = i + 1;
            }
            proof {
                assert(hashes@.subrange(0, hashes@.len() as int) =~= hashes@);
            }
            if missing.len() > 0 {
                replies.push(Message::GetTransactions(missing));
            }
        },
        Message::GetTransactions(hashes) => {
            let mut found: Vec<SignedTransaction> = Vec::new();
            let mut i: usize = 0;
            proof {
                assert(hash_views(hashes@.subrange(0, 0)) =~= Seq::<Seq<u8>>::empty());
                assert(found@.map_values(|t: SignedTransaction| t@) =~= known_values(
                    mempool@,
                    hash_views(hashes@.subrange(0, 0)),
                ));
            }
            while i < hashes.len()
                invariant
                    mempool.wf(),
                    *chain == *old(chain),
                    *mempool == *old(mempool),
                    *orphans == *old(orphans),
                    i <= hashes@.len(),
                    found@.map_values(|t: SignedTransaction| t@) == known_values(
                        mempool@,
                        hash_views(hashes@.subrange(0, i as int)),
                    ),
                decreases hashes@.len() - i,
            {
                let ghost pre = hash_views(hashes@.subrange(0, i as int));
                let ghost pre1 = hash_views(hashes@.subrange(0, i + 1));
                proof {
                    assert(pre1.drop_last() =~= pre);
                    assert(pre1.last() == hashes@[i as int]@);
                }
                match mempool.get_transaction(&hashes[i]) {
                    Some(tx) => {
                        found.push(tx);
                    },
                    None => {},
                }
                proof {
                    assert(found@.map_values(|t: SignedTransaction| t@) =~= known_values(
                        mempool@,
                        pre1,
                    ));
                }
                i = i + 1;
            }
            proof {
                assert(hashes@.subrange(0, hashes@.len() as int) =~= hashes@);
            }
            if found.len() > 0 {
                replies.push(Message::Transactions(found));
            }
        },
        Message::Transactions(txs) => {
            let accepted = ingest_transactions(mempool, &txs);
            if accepted.len() > 0 {
                let announce = Message::NewTransactionHashes(accepted);
                proof {
                    assert(announce matches Message::NewTransactionHashes(hs) && mempool@.contains_key(
                        hs@[0]@,
                    ) && !old(mempool)@.contains_key(hs@[0]@));
                    assert(mempool@ != old(mempool)@);
                    assert(is_new_tx_broadcast(old(mempool)@, mempool@, announce));
                }
                broadcasts.push(announce);
            }
        },
        Message::GetBlockchain => {
            let hashes = chain.all_blocks_in_longest_chain();
            let mut found: Vec<Block> = Vec::new();
            let mut i: usize = 0;
            while i < hashes.len()
                invariant
                    chain.wf(),
                    *chain == *old(chain),
                    *mempool == *old(mempool),
                    *orphans == *old(orphans),
                    i <= hashes@.len(),
                    hashes@.len() == height_of(chain.storage.heights_view(), chain.tip@) + 1,
                    hashes@[hashes@.len() - 1]@ == chain.tip@,
                    forall|j: int|
                        0 <= j < hashes@.len() ==> chain.storage.blocks_view().contains_key(
                            (#[trigger] hashes@[j])@,
                        ) && height_of(chain.storage.heights_view(), hashes@[j]@) == j,
                    forall|j: int|
                        0 < j < hashes@.len() ==> chain.storage.blocks_view()[(
                        #[trigger] hashes@[j])@].parent == hashes@[j - 1]@,
                    found@.len() == i,
                    forall|j: int|
                        0 <= j < i ==> #[trigger] found@[j]@ == chain.storage.blocks_view()[
                            hashes@[j]@],
                decreases hashes@.len() - i,
            {
                match chain.get_block(&hashes[i]) {
                    Some(b) => {
                        found.push(b);
                    },
                    None => {
                        proof {
                            assert(false);
                        }
                    },
                }
                i = i + 1;
            }
            let reply = Message::SendBlockchain(found);
            proof {
                let hv = hash_views(hashes@);
                assert(reply matches Message::SendBlockchain(bs) && chain_reply_blocks(
                    chain.storage.blocks_view(),
                    chain.storage.heights_view(),
                    chain.tip@,
                    bs@,
                    hv,
                ));
                assert(is_chain_dump(
                    chain.storage.blocks_view(),
                    chain.storage.heights_view(),
                    chain.tip@,
                    reply,
                ));
            }
            replies.push(reply);
        },
        Message::SendBlockchain(blocks) => {
            let mut i: usize = 0;
            let n = blocks.len();
            let ghost m0 = mempool@;
            while i < n
                invariant
                    chain.wf(),
                    mempool.wf(),
                    n == blocks@.len(),
                    height_of(chain.storage.heights_view(), chain.tip@) >= height_of(
                        old(chain).storage.heights_view(),
                        old(chain).tip@,
                    ),
                    mempool@ == m0,
                    *mempool == *old(mempool),
                    *orphans == *old(orphans),
                decreases n - i,
            {
                match Blockchain::execute_block(&chain.storage, &blocks[i]) {
                    Ok(p) => {
                        chain.commit_block(&blocks[i], p.1);
                    },
                    Err(_) => {
                        break;
                    },
                }
                i = i + 1;
            }
            proof {
                assert forall|k: Seq<u8>| mempool@.contains_key(k) implies #[trigger] m0.contains_key(
                    k,
                ) && mempool@[k] == m0[k] by {}
            }
        },
        Message::GetMempool => {
            let txs = mempool.select_transactions();
            if txs.len() > 0 {
                replies.push(Message::SendMempool(txs));
            }
        },
        Message::SendMempool(txs) => {
            let _accepted = ingest_transactions(mempool, &txs);
        },
        Message::GetBlockHeight => {
            let tip = chain.tip();
            let height = chain.get_height(&tip);
            replies.push(Message::BlockHeight(height));
        },
        Message::BlockHeight(peer_height) => {
            let tip = chain.tip();
            let my_height = chain.get_height(&tip);
            if peer_height > my_height {
                replies.push(Message::GetBlockchain);
                replies.push(Message::GetMempool);
            }
        },
    }
    (replies, broadcasts)
}

/// Insert the transactions that are not yet held and carry valid
/// signatures. Returns the hashes of the new insertions, for rebroadcast.
fn ingest_transactions(mempool: &mut Mempool, txs: &Vec<SignedTransaction>) -> (r: Vec<H256>)
    requires
        old(mempool).wf(),
    ensures
        final(mempool).wf(),
        mempool_gains_only_valid(
            old(mempool)@,
            final(mempool)@,
            txs@.map_values(|t: SignedTransaction| t@),
        ),
        forall|j: int|
            0 <= j < r@.len() ==> final(mempool)@.contains_key((#[trigger] r@[j])@) && !old(
                mempool,
            )@.contains_key(r@[j]@),
        forall|k: Seq<u8>|
            final(mempool)@.contains_key(k) && !old(mempool)@.contains_key(k) ==> exists|j: int|
                0 <= j < r@.len() && (#[trigger] r@[j])@ == k,
        r@.len() == 0 ==> final(mempool)@ == old(mempool)@,
{
    let ghost tv = txs@.map_values(|t: SignedTransaction| t@);
    let mut accepted: Vec<H256> = Vec::new();
    let mut i: usize = 0;
    let n = txs.len();
    while i < n
        invariant
            mempool.wf(),
            tv == txs@.map_values(|t: SignedTransaction| t@),
            n == txs@.len(),
            i <= n,
            forall|k: Seq<u8>|
                #[trigger] mempool@.contains_key(k) ==> old(mempool)@.contains_key(k) || (exists|
                    j: int,
                |
                    0 <= j < i && stx_hash(#[trigger] tv[j]) == k && stx_valid_sig(tv[j])),
            forall|k: Seq<u8>|
                #[trigger] old(mempool)@.contains_key(k) ==> mempool@.contains_key(k),
            forall|j: int|
                0 <= j < i && stx_valid_sig(#[trigger] tv[j]) ==> mempool@.contains_key(
                    stx_hash(tv[j]),
                ),
            forall|j: int|
                0 <= j < accepted@.len() ==> mempool@.contains_key((#[trigger] accepted@[j])@)
                    && !old(mempool)@.contains_key(accepted@[j]@),
            forall|k: Seq<u8>|
                #[trigger] mempool@.contains_key(k) && !old(mempool)@.contains_key(k) ==> exists|
                    j: int,
                | 0 <= j < accepted@.len() && (#[trigger] accepted@[j])@ == k,
            accepted@.len() == 0 ==> mempool@ == old(mempool)@,
        decreases n - i,
    {
        let tx = &txs[i];
        let hash = tx.hash();
        let known = mempool.contains(&hash);
        let ghost before = mempool@;
        let ghost accepted_before = accepted@;
        if !known {
            if tx.verify() {
                mempool.insert(tx.dup());
                accepted.push(hash);
                proof {
                    assert(tv[i as int] == tx@);
                    assert forall|k: Seq<u8>| #[trigger] mempool@.contains_key(k) implies
                        before.contains_key(k) || (exists|j: int|
                        0 <= j < i + 1 && stx_hash(#[trigger] tv[j]) == k && stx_valid_sig(
                            tv[j],
                        )) by {
                        if !before.contains_key(k) {
                            assert(k == stx_hash(tv[i as int]) && stx_valid_sig(tv[i as int]));
                        }
                    }
                    assert forall|k: Seq<u8>|
                        #[trigger] mempool@.contains_key(k) && !old(mempool)@.contains_key(
                        k) implies exists|j: int|
                        0 <= j < accepted@.len() && (#[trigger] accepted@[j])@ == k by {
                        if before.contains_key(k) {
                            let j = choose|j: int|
                                0 <= j < accepted_before.len() && (
                                #[trigger] accepted_before[j])@ == k;
                            assert(accepted@[j]@ == k);
                        } else {
                            assert(accepted@[accepted@.len() - 1]@ == k);
                        }
                    }
                }
            }
        }
        proof {
            assert forall|j: int|
                0 <= j < i + 1 && stx_valid_sig(#[trigger] tv[j]) implies mempool@.contains_key(
                stx_hash(tv[j]),
            ) by {
                if j < i {
                    assert(before.contains_key(stx_hash(tv[j])));
                } else {
                    assert(tv[i as int] == txs@[i as int]@);
                }
            }
        }
        i = i + 1;
    }
    accepted
}

/// Ingest a batch of peer blocks. A block whose parent is unknown is
/// buffered under that parent and the parent is requested from the sender;
/// a block whose parent is known is executed and, on success, committed,
/// its transactions pruned from the mempool, and any orphans waiting on it
/// queued in turn. Returns the hashes of the newly committed blocks.
#[verifier::rlimit(100)]
fn ingest_blocks(
    chain: &mut Blockchain,
    mempool: &mut Mempool,
    orphans: &mut OrphanBuffer,
    blocks: Vec<Block>,
    replies: &mut Vec<Message>,
) -> (r: Vec<H256>)
    requires
        old(chain).wf(),
        old(mempool).wf(),
        old(orphans).wf(),
    ensures
        final(chain).wf(),
        final(mempool).wf(),
        final(orphans).wf(),
        height_of(final(chain).storage.heights_view(), final(chain).tip@) >= height_of(
            old(chain).storage.heights_view(),
            old(chain).tip@,
        ),
        forall|k: Seq<u8>|
            #[trigger] final(mempool)@.contains_key(k) ==> old(mempool)@.contains_key(k) && final(mempool)@[k] == old(mempool)@[k],
        forall|h: Seq<u8>|
            #[trigger] old(chain).storage.blocks_view().contains_key(h) ==> final(chain).storage.blocks_view().contains_key(h),
        forall|i: int|
            0 <= i < blocks@.len() && !final(chain).storage.blocks_view().contains_key(
                (#[trigger] blocks@[i])@.parent,
            ) ==> final(orphans)@.contains_key(blocks@[i]@.parent) && final(orphans)@[blocks@[
                i]@.parent].contains(blocks@[i]@) && exists|ri: int|
                0 <= ri < final(replies)@.len() && #[trigger] requests_parent(
                    final(replies)@[ri],
                    blocks@[i]@.parent,
                ),
        forall|k: Seq<u8>|
            #[trigger] final(orphans)@.contains_key(k) ==> old(orphans)@.contains_key(k) || (
            exists|i: int| 0 <= i < blocks@.len() && (#[trigger] blocks@[i])@.parent == k),
        forall|k: Seq<u8>|
            #[trigger] old(orphans)@.contains_key(k) && !final(orphans)@.contains_key(k) ==> final(chain).storage.blocks_view().contains_key(k),
        final(replies)@.len() >= old(replies)@.len(),
        forall|ri: int|
            0 <= ri < old(replies)@.len() ==> #[trigger] final(replies)@[ri] == old(replies)@[ri],
        forall|ri: int|
            old(replies)@.len() <= ri < final(replies)@.len() ==> (#[trigger] final(replies)@[
                ri]) is GetBlocks,
        forall|j: int|
            0 <= j < r@.len() ==> final(chain).storage.blocks_view().contains_key(
                (#[trigger] r@[j])@,
            ),
{
    let mut committed: Vec<H256> = Vec::new();
    let mut b: usize = 0;
    let n = blocks.len();
    while b < n
        invariant
            chain.wf(),
            mempool.wf(),
            orphans.wf(),
            n == blocks@.len(),
            b <= n,
            height_of(chain.storage.heights_view(), chain.tip@) >= height_of(
                old(chain).storage.heights_view(),
                old(chain).tip@,
            ),
            forall|k: Seq<u8>|
                #[trigger] mempool@.contains_key(k) ==> old(mempool)@.contains_key(k) && mempool@[
                    k] == old(mempool)@[k],
            forall|h: Seq<u8>|
                #[trigger] old(chain).storage.blocks_view().contains_key(h)
                    ==> chain.storage.blocks_view().contains_key(h),
            forall|i: int|
                0 <= i < b && !chain.storage.blocks_view().contains_key(
                    (#[trigger] blocks@[i])@.parent,
                ) ==> orphans@.contains_key(blocks@[i]@.parent) && orphans@[blocks@[
                    i]@.parent].contains(blocks@[i]@) && exists|ri: int|
                    0 <= ri < replies@.len() && #[trigger] requests_parent(
                        replies@[ri],
                        blocks@[i]@.parent,
                    ),
            forall|k: Seq<u8>|
                #[trigger] orphans@.contains_key(k) ==> old(orphans)@.contains_key(k) || (exists|
                    i: int,
                | 0 <= i < b && (#[trigger] blocks@[i])@.parent == k),
            forall|k: Seq<u8>|
                #[trigger] old(orphans)@.contains_key(k) && !orphans@.contains_key(k)
                    ==> chain.storage.blocks_view().contains_key(k),
            replies@.len() >= old(replies)@.len(),
            forall|ri: int|
                0 <= ri < old(replies)@.len() ==> #[trigger] replies@[ri] == old(replies)@[ri],
            forall|ri: int|
                old(replies)@.len() <= ri < replies@.len() ==> (#[trigger] replies@[ri])
                    is GetBlocks,
            forall|j: int|
                0 <= j < committed@.len() ==> chain.storage.blocks_view().contains_key(
                    (#[trigger] committed@[j])@,
                ),
        decreases n - b,
    {
        let block = blocks[b].dup();
        let parent_hash = block.get_parent();
        let ghost orphans_before = orphans@;
        let ghost replies_before = replies@;
        if !chain.contains_block(&parent_hash) {
            let ghost prior_list: Seq<BlockView> = if orphans@.contains_key(parent_hash@) {
                orphans@[parent_hash@]
            } else {
                Seq::empty()
            };
            let waiting = match orphans.get(&parent_hash) {
                Some(list) => {
                    let mut copy = list.dup();
                    copy.items.push(block);
                    copy
                },
                None => {
                    let mut items: Vec<Block> = Vec::new();
                    items.push(block);
                    BlockList { items }
                },
            };
            proof {
                assert(waiting@ =~= prior_list.push(blocks@[b as int]@));
            }
            orphans.insert(parent_hash, waiting);
            let mut want: Vec<H256> = Vec::new();
            want.push(parent_hash);
            replies.push(Message::GetBlocks(want));
            proof {
                assert(requests_parent(replies@[replies@.len() - 1], blocks@[b as int]@.parent));
                assert forall|i: int|
                    0 <= i < b + 1 && !chain.storage.blocks_view().contains_key(
                        (#[trigger] blocks@[i])@.parent,
                    ) implies orphans@.contains_key(blocks@[i]@.parent) && orphans@[blocks@[
                    i]@.parent].contains(blocks@[i]@) && exists|ri: int|
                    0 <= ri < replies@.len() && #[trigger] requests_parent(
                        replies@[ri],
                        blocks@[i]@.parent,
                    ) by {
                    if i == b {
                        assert(orphans@[blocks@[i]@.parent] == prior_list.push(
                            blocks@[b as int]@,
                        ));
                        assert(orphans@[blocks@[i]@.parent][prior_list.len() as int] == blocks@[
                            i]@);
                    } else {
                        assert(orphans_before.contains_key(blocks@[i]@.parent));
                        assert(orphans_before[blocks@[i]@.parent].contains(blocks@[i]@));
                        if blocks@[i]@.parent == parent_hash@ {
                            let w = choose|w: int|
                                0 <= w < prior_list.len() && #[trigger] prior_list[w] == blocks@[
                                    i]@;
                            assert(orphans@[blocks@[i]@.parent][w] == blocks@[i]@);
                        }
                        let ri = choose|ri: int|
                            0 <= ri < replies_before.len() && #[trigger] requests_parent(
                                replies_before[ri],
                                blocks@[i]@.parent,
                            );
                        assert(requests_parent(replies@[ri], blocks@[i]@.parent));
                    }
                }
            }
        } else {
            let mut queue: Vec<Block> = Vec::new();
            queue.push(block);
            let ghost chain_before = *chain;
            drain_queue(chain, mempool, orphans, &mut queue, &mut committed);
            proof {
                assert forall|i: int|
                    0 <= i < b + 1 && !chain.storage.blocks_view().contains_key(
                        (#[trigger] blocks@[i])@.parent,
                    ) implies orphans@.contains_key(blocks@[i]@.parent) && orphans@[blocks@[
                    i]@.parent].contains(blocks@[i]@) && exists|ri: int|
                    0 <= ri < replies@.len() && #[trigger] requests_parent(
                        replies@[ri],
                        blocks@[i]@.parent,
                    ) by {
                    if i == b {
                        assert(chain_before.storage.blocks_view().contains_key(
                            blocks@[b as int]@.parent,
                        ));
                        assert(chain.storage.blocks_view().contains_key(
                            blocks@[b as int]@.parent,
                        ));
                    } else {
                        assert(!chain_before.storage.blocks_view().contains_key(
                            blocks@[i]@.parent,
                        ));
                        assert(orphans_before.contains_key(blocks@[i]@.parent));
                        assert(orphans@.contains_key(blocks@[i]@.parent));
                        assert(orphans@[blocks@[i]@.parent] == orphans_before[blocks@[
                            i]@.parent]);
                        let ri = choose|ri: int|
                            0 <= ri < replies_before.len() && #[trigger] requests_parent(
                                replies_before[ri],
                                blocks@[i]@.parent,
                            );
                        assert(requests_parent(replies@[ri], blocks@[i]@.parent));
                    }
                }
            }
        }
        b = b + 1;
    }
    committed
}

/// Execute and commit queued blocks; each commit wakes the orphans that
/// waited on it, until the queue is empty. A block that fails execution is
/// dropped together with nothing else: its descendants stay unreachable in
/// the buffer. Stored blocks only accumulate; orphan entries are removed
/// only when the block they waited for is stored; every hash recorded in
/// `committed` names a stored block.
fn drain_queue(
    chain: &mut Blockchain,
    mempool: &mut Mempool,
    orphans: &mut OrphanBuffer,
    queue: &mut Vec<Block>,
    committed: &mut Vec<H256>,
)
    requires
        old(chain).wf(),
        old(mempool).wf(),
        old(orphans).wf(),
        forall|j: int|
            0 <= j < old(committed)@.len() ==> old(chain).storage.blocks_view().contains_key(
                (#[trigger] old(committed)@[j])@,
            ),
    ensures
        final(chain).wf(),
        final(mempool).wf(),
        final(orphans).wf(),
        height_of(final(chain).storage.heights_view(), final(chain).tip@) >= height_of(
            old(chain).storage.heights_view(),
            old(chain).tip@,
        ),
        forall|k: Seq<u8>|
            #[trigger] final(mempool)@.contains_key(k) ==> old(mempool)@.contains_key(k) && final(mempool)@[k] == old(mempool)@[k],
        forall|h: Seq<u8>|
            #[trigger] old(chain).storage.blocks_view().contains_key(h) ==> final(chain).storage.blocks_view().contains_key(h),
        forall|k: Seq<u8>|
            #[trigger] final(orphans)@.contains_key(k) ==> old(orphans)@.contains_key(k) && final(orphans)@[k] == old(orphans)@[k],
        forall|k: Seq<u8>|
            #[trigger] old(orphans)@.contains_key(k) && !final(orphans)@.contains_key(k) ==> final(chain).storage.blocks_view().contains_key(k),
        forall|j: int|
            0 <= j < final(committed)@.len() ==> final(chain).storage.blocks_view().contains_key(
                (#[trigger] final(committed)@[j])@,
            ),
    decreases old(orphans)@.dom().len(), old(queue)@.len(),
{
    proof {
        orphans.lemma_len();
    }
    let next = queue.pop();
    let blk = match next {
        Some(blk) => blk,
        None => {
            return ;
        },
    };
    let ghost orphans0 = orphans@;
    match Blockchain::execute_block(&chain.storage, &blk) {
        Ok(p) => {
            let blk_hash = blk.hash();
            chain.commit_block(&blk, p.1);
            let mut tx_hashes: Vec<H256> = Vec::new();
            let mut i: usize = 0;
            while i < blk.data.len()
                invariant
                    i <= blk.data@.len(),
                decreases blk.data@.len() - i,
            {
                let h = blk.data[i].hash();
                tx_hashes.push(h);
                i = i + 1;
            }
            mempool.remove_transactions(&tx_hashes);
            if !chain.contains_block(&blk_hash) {
                // the commit was refused; nothing advanced, drop the block
                drain_queue(chain, mempool, orphans, queue, committed);
                return ;
            }
            committed.push(blk_hash);
            let woken = match orphans.get(&blk_hash) {
                Some(list) => Some(list.dup()),
                None => None,
            };
            match woken {
                Some(list) => {
                    orphans.remove(&blk_hash);
                    proof {
                        orphans.lemma_len();
                        assert(orphans@.dom().len() < orphans0.dom().len()) by {
                            assert(orphans@ == orphans0.remove(blk_hash@));
                            assert(orphans0.dom().remove(blk_hash@) =~= orphans@.dom());
                            vstd::set::axiom_set_remove_len(orphans0.dom(), blk_hash@);
                        }
                    }
                    let mut j: usize = 0;
                    while j < list.items.len()
                        invariant
                            j <= list.items@.len(),
                        decreases list.items@.len() - j,
                    {
                        queue.push(list.items[j].dup());
                        j = j + 1;
                    }
                    drain_queue(chain, mempool, orphans, queue, committed);
                },
                None => {
                    drain_queue(chain, mempool, orphans, queue, committed);
                },
            }
        },
        Err(_) => {
            drain_queue(chain, mempool, orphans, queue, committed);
        },
    }
}

} // verus!
