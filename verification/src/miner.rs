//! The miner: a control state machine driven by signals, deterministic
//! template assembly from mempool candidates under state-aware feasibility,
//! proof-of-work search in bounded quanta, and the sink step that commits a
//! mined block and prunes its transactions from the mempool.

use vstd::prelude::*;
use crate::account::Account;
use crate::block::{block_hash, Block, BlockView};
use crate::chain::{
    acct_at, apply_block, apply_prefix, apply_tx, coinbase_ok, cost_of, fee_of, merkle_ok,
    ApplyResult, Blockchain, BLOCK_REWARD,
};
use crate::hash::{bytes_le, bytes_lt, Address, H256};
use crate::kvmap::{Dup, KvMap, MapKey};
use crate::mempool::Mempool;
use crate::transaction::{stx_hash, stx_sender, SignedTransaction, StxView, Transaction};
use crate::trie::{batch_step, items_map, NodeData, NodeStore, StateTrie};

verus! {

broadcast use crate::hash::lemma_h256_view_len, crate::hash::lemma_address_view_len;

/// What other components may ask of the miner.
#[derive(Clone, Copy, Debug, PartialEq, Eq)]
pub enum ControlSignal {
    /// Run, pacing iterations by this many microseconds.
    Start(u64),
    Stop,
    /// The tip or the mempool changed: restart the template.
    Update,
    Exit,
}

/// The miner's operating state, private to its thread.
#[derive(Clone, Copy, Debug, PartialEq, Eq)]
pub enum OperatingState {
    Paused,
    Run(u64),
    /// A block was mined and handed off; wait for the sink to advance the
    /// tip before mining again.
    MinedWait(u64),
    ShutDown,
}

/// The control table: how each signal moves the machine.
pub open spec fn transition(state: OperatingState, signal: ControlSignal) -> OperatingState {
    match state {
        OperatingState::ShutDown => OperatingState::ShutDown,
        OperatingState::Paused => match signal {
            ControlSignal::Start(l) => OperatingState::Run(l),
            ControlSignal::Stop => OperatingState::Paused,
            ControlSignal::Update => OperatingState::Paused,
            ControlSignal::Exit => OperatingState::ShutDown,
        },
        OperatingState::Run(l) => match signal {
            ControlSignal::Start(l2) => OperatingState::Run(l2),
            ControlSignal::Stop => OperatingState::Paused,
            ControlSignal::Update => OperatingState::Run(l),
            ControlSignal::Exit => OperatingState::ShutDown,
        },
        OperatingState::MinedWait(l) => match signal {
            ControlSignal::Start(l2) => OperatingState::Run(l2),
            ControlSignal::Stop => OperatingState::MinedWait(l),
            ControlSignal::Update => OperatingState::Run(l),
            ControlSignal::Exit => OperatingState::ShutDown,
        },
    }
}

/// Apply one control signal to the miner's state.
pub fn miner_transition(state: OperatingState, signal: ControlSignal) -> (r: OperatingState)
    ensures
        r == transition(state, signal),
{
    match state {
        OperatingState::ShutDown => OperatingState::ShutDown,
        OperatingState::Paused => match signal {
            ControlSignal::Start(l) => OperatingState::Run(l),
            ControlSignal::Stop => OperatingState::Paused,
            ControlSignal::Update => OperatingState::Paused,
            ControlSignal::Exit => OperatingState::ShutDown,
        },
        OperatingState::Run(l) => match signal {
            ControlSignal::Start(l2) => OperatingState::Run(l2),
            ControlSignal::Stop => OperatingState::Paused,
            ControlSignal::Update => OperatingState::Run(l),
            ControlSignal::Exit => OperatingState::ShutDown,
        },
        OperatingState::MinedWait(l) => match signal {
            ControlSignal::Start(l2) => OperatingState::Run(l2),
            ControlSignal::Stop => OperatingState::MinedWait(l),
            ControlSignal::Update => OperatingState::Run(l),
            ControlSignal::Exit => OperatingState::ShutDown,
        },
    }
}

/// The template's candidate order: sender address byte-lexicographic
/// ascending, then nonce ascending.
pub open spec fn key_le(a: (Seq<u8>, u64), b: (Seq<u8>, u64)) -> bool {
    bytes_lt(a.0, b.0) || (a.0 == b.0 && a.1 <= b.1)
}

/// The views of a transaction list.
pub open spec fn tx_views(s: Seq<SignedTransaction>) -> Seq<StxView> {
    s.map_values(|t: SignedTransaction| t@)
}

/// The transaction views an entry list carries.
pub open spec fn entry_views(s: Seq<(Address, SignedTransaction)>) -> Seq<StxView> {
    s.map_values(|e: (Address, SignedTransaction)| e.1@)
}

/// Entries are sorted by sender then nonce.
pub open spec fn entries_sorted(s: Seq<(Address, SignedTransaction)>) -> bool {
    forall|p: int, q: int|
        0 <= p < q < s.len() ==> key_le(
            ((#[trigger] s[p]).0@, s[p].1@.transaction.nonce),
            ((#[trigger] s[q]).0@, s[q].1@.transaction.nonce),
        )
}

/// Each entry carries its transaction's sender.
pub open spec fn entries_keyed(s: Seq<(Address, SignedTransaction)>) -> bool {
    forall|p: int| 0 <= p < s.len() ==> (#[trigger] s[p].0)@ == stx_sender(s[p].1@)
}

/// A candidate's sort key: sender address bytes, then wire nonce.
pub open spec fn stx_key(t: StxView) -> (Seq<u8>, u64) {
    (stx_sender(t), t.transaction.nonce)
}

/// Where the insertion scan files a new candidate in a sorted list: after
/// every entry whose key is at most the new key.
pub open spec fn scan_pos(s: Seq<StxView>, t: StxView) -> int
    decreases s.len(),
{
    if s.len() == 0 {
        0
    } else if key_le(stx_key(s[0]), stx_key(t)) {
        1 + scan_pos(s.drop_first(), t)
    } else {
        0
    }
}

/// The deterministic candidate order: each transaction inserted in turn at
/// its scan position.
pub open spec fn sorted_upto(s: Seq<StxView>, n: int) -> Seq<StxView>
    decreases n,
{
    if n <= 0 {
        Seq::empty()
    } else {
        let prior = sorted_upto(s, n - 1);
        prior.insert(scan_pos(prior, s[n - 1]), s[n - 1])
    }
}

/// The candidates sorted by sender address, then nonce.
pub open spec fn sorted_candidates(s: Seq<StxView>) -> Seq<StxView> {
    sorted_upto(s, s.len() as int)
}

/// The header with only the nonce replaced.
pub open spec fn with_nonce(b: BlockView, n: u32) -> BlockView {
    BlockView {
        parent: b.parent,
        nonce: n,
        difficulty: b.difficulty,
        timestamp: b.timestamp,
        merkle_root: b.merkle_root,
        state_root: b.state_root,
        coinbase: b.coinbase,
        data: b.data,
    }
}

/// A nonce advanced by `k` single steps, wrapping at the top of `u32`.
pub open spec fn nonce_after(n: u32, k: int) -> u32
    decreases k,
{
    if k <= 0 {
        n
    } else {
        let p = nonce_after(n, k - 1);
        if p == u32::MAX {
            0u32
        } else {
            (p + 1) as u32
        }
    }
}

/// The running template: what is included so far, the projected account
/// updates, and the fee sum.
#[verifier::ext_equal]
pub struct TemplateState {
    pub included: Seq<StxView>,
    pub upd: Map<Seq<u8>, Account>,
    pub fee: int,
}

/// Consider one candidate against the projected state: include it only if
/// its nonce is the sender's next and the projected balance covers value
/// plus fee; on inclusion debit the sender, bump its nonce, credit the
/// receiver and add the fee. A credit or nonce that would not fit skips
/// the transaction.
pub open spec fn select_step(
    nodes: Map<Seq<u8>, crate::trie::NodeView>,
    root: Seq<u8>,
    st: TemplateState,
    t: StxView,
) -> TemplateState {
    let sender = stx_sender(t);
    let sacc = acct_at(nodes, root, st.upd, sender);
    if t.transaction.nonce == sacc.nonce && sacc.balance >= cost_of(t.transaction) && sacc.nonce
        < u64::MAX {
        let new_sender = Account {
            nonce: (sacc.nonce + 1) as u64,
            balance: (sacc.balance - cost_of(t.transaction)) as u64,
        };
        let upd1 = st.upd.insert(sender, new_sender);
        let racc = acct_at(nodes, root, upd1, t.transaction.to);
        if racc.balance + t.transaction.value <= u64::MAX {
            TemplateState {
                included: st.included.push(t),
                upd: upd1.insert(
                    t.transaction.to,
                    Account {
                        nonce: racc.nonce,
                        balance: (racc.balance + t.transaction.value) as u64,
                    },
                ),
                fee: st.fee + fee_of(t.transaction),
            }
        } else {
            st
        }
    } else {
        st
    }
}

/// The template after walking the first `n` sorted candidates.
pub open spec fn select_upto(
    nodes: Map<Seq<u8>, crate::trie::NodeView>,
    root: Seq<u8>,
    s: Seq<StxView>,
    n: int,
) -> TemplateState
    decreases n,
{
    if n <= 0 {
        TemplateState { included: Seq::empty(), upd: Map::empty(), fee: 0 }
    } else {
        select_step(nodes, root, select_upto(nodes, root, s, n - 1), s[n - 1])
    }
}

/// The whole deterministic template over a candidate set.
pub open spec fn template_of(
    nodes: Map<Seq<u8>, crate::trie::NodeView>,
    root: Seq<u8>,
    candidates: Seq<StxView>,
) -> TemplateState {
    select_upto(
        nodes,
        root,
        sorted_candidates(candidates),
        sorted_candidates(candidates).len() as int,
    )
}

/// Whether an entry's key is at most the probe key.
fn le_key(entry: &(Address, SignedTransaction), sender: &Address, nonce: u64) -> (r: bool)
    ensures
        r == key_le((entry.0@, entry.1@.transaction.nonce), (sender@, nonce)),
{
    if entry.0.lt(sender) {
        true
    } else if entry.0.eq_a(sender) {
        entry.1.transaction.nonce <= nonce
    } else {
        false
    }
}

/// Sort candidates by sender then nonce. Every output entry carries its
/// sender address; the output holds exactly the input's transactions,
/// reordered.
fn sort_candidates(txs: &Vec<SignedTransaction>) -> (r: Vec<(Address, SignedTransaction)>)
    ensures
        r@.len() == txs@.len(),
        entries_keyed(r@),
        entries_sorted(r@),
        entry_views(r@) == sorted_candidates(tx_views(txs@)),
        forall|i: int|
            0 <= i < r@.len() ==> tx_views(txs@).contains((#[trigger] r@[i]).1@),
        forall|j: int|
            0 <= j < txs@.len() ==> entry_views(r@).contains((#[trigger] txs@[j])@),
{
    let mut out: Vec<(Address, SignedTransaction)> = Vec::new();
    let mut i: usize = 0;
    proof {
        assert(entry_views(out@) =~= sorted_upto(tx_views(txs@), 0));
    }
    while i < txs.len()
        invariant
            i <= txs@.len(),
            out@.len() == i,
            entries_keyed(out@),
            entries_sorted(out@),
            entry_views(out@) == sorted_upto(tx_views(txs@), i as int),
            forall|p: int|
                0 <= p < out@.len() ==> tx_views(txs@.subrange(0, i as int)).contains(
                    (#[trigger] out@[p]).1@,
                ),
            forall|j: int|
                0 <= j < i ==> entry_views(out@).contains((#[trigger] txs@[j])@),
        decreases txs@.len() - i,
    {
        let tx = txs[i].dup();
        let sender = tx.sender_address();
        let ghost old_out = out@;
        let ghost prefix = txs@.subrange(0, i as int);
        let ghost prefix1 = txs@.subrange(0, i + 1);
        insert_sorted(&mut out, sender, tx);
        proof {
            assert(tx_views(txs@)[i as int] == txs@[i as int]@);
            assert(entry_views(out@) == sorted_upto(tx_views(txs@), i + 1));
            assert(tx_views(prefix1).drop_last() =~= tx_views(prefix));
            assert(tx_views(prefix1)[i as int] == txs@[i as int]@);
            assert forall|p: int| 0 <= p < out@.len() implies tx_views(prefix1).contains(
                (#[trigger] out@[p]).1@,
            ) by {
                if out@[p].1@ == tx@ {
                    assert(tx_views(prefix1)[i as int] == out@[p].1@);
                } else {
                    let q = choose|q: int|
                        0 <= q < old_out.len() && #[trigger] old_out[q].1@ == out@[p].1@;
                    let w = choose|w: int|
                        0 <= w < tx_views(prefix).len() && #[trigger] tx_views(prefix)[w]
                            == old_out[q].1@;
                    assert(tx_views(prefix1)[w] == out@[p].1@);
                }
            }
            assert forall|j: int| 0 <= j < i + 1 implies entry_views(out@).contains(
                (#[trigger] txs@[j])@,
            ) by {
                if j == i {
                    let w = choose|w: int|
                        0 <= w < out@.len() && #[trigger] out@[w].1@ == tx@;
                    assert(entry_views(out@)[w] == txs@[j]@);
                } else {
                    let q = choose|q: int|
                        0 <= q < entry_views(old_out).len() && #[trigger] entry_views(old_out)[q]
                            == txs@[j]@;
                    let w = choose|w: int|
                        0 <= w < out@.len() && #[trigger] out@[w].1@ == old_out[q].1@;
                    assert(entry_views(out@)[w] == txs@[j]@);
                }
            }
        }
        i = i + 1;
    }
    proof {
        assert(txs@.subrange(0, txs@.len() as int) =~= txs@);
    }
    out
}

/// The scan position: everything before it compares at most the probe key,
/// and the entry at it (if any) compares strictly greater.
proof fn lemma_scan_pos_char(s: Seq<StxView>, t: StxView)
    ensures
        0 <= scan_pos(s, t) <= s.len(),
        forall|j: int| 0 <= j < scan_pos(s, t) ==> key_le(stx_key(#[trigger] s[j]), stx_key(t)),
        scan_pos(s, t) < s.len() ==> !key_le(stx_key(s[scan_pos(s, t)]), stx_key(t)),
    decreases s.len(),
{
    if s.len() > 0 && key_le(stx_key(s[0]), stx_key(t)) {
        let rest = s.drop_first();
        lemma_scan_pos_char(rest, t);
        assert forall|j: int| 0 <= j < scan_pos(s, t) implies key_le(
            stx_key(#[trigger] s[j]),
            stx_key(t),
        ) by {
            if j > 0 {
                assert(rest[j - 1] == s[j]);
            }
        }
        if scan_pos(s, t) < s.len() {
            assert(rest[scan_pos(rest, t)] == s[scan_pos(s, t)]);
        }
    }
}

/// Insert one keyed transaction into a sorted entry list, keeping it
/// sorted. The list gains exactly the new entry; all old entries remain.
#[verifier::rlimit(100)]
fn insert_sorted(out: &mut Vec<(Address, SignedTransaction)>, sender: Address, tx: SignedTransaction)
    requires
        entries_keyed(old(out)@),
        entries_sorted(old(out)@),
        sender@ == stx_sender(tx@),
    ensures
        final(out)@.len() == old(out)@.len() + 1,
        entries_keyed(final(out)@),
        entries_sorted(final(out)@),
        entry_views(final(out)@) == entry_views(old(out)@).insert(
            scan_pos(entry_views(old(out)@), tx@),
            tx@,
        ),
        exists|p: int| 0 <= p < final(out)@.len() && #[trigger] final(out)@[p].1@ == tx@,
        forall|p: int|
            0 <= p < final(out)@.len() ==> (#[trigger] final(out)@[p]).1@ == tx@ || exists|q: int|
                0 <= q < old(out)@.len() && #[trigger] old(out)@[q].1@ == final(out)@[p].1@,
        forall|q: int|
            0 <= q < old(out)@.len() ==> exists|p: int|
                0 <= p < final(out)@.len() && #[trigger] final(out)@[p].1@ == (#[trigger] old(
                    out,
                )@[q]).1@,
{
    let nonce = tx.transaction.nonce;
    let mut pos: usize = 0;
    while pos < out.len() && le_key(&out[pos], &sender, nonce)
        invariant
            pos <= out@.len(),
            entries_keyed(out@),
            entries_sorted(out@),
            out@ == old(out)@,
            sender@ == stx_sender(tx@),
            nonce == tx@.transaction.nonce,
            forall|p: int|
                0 <= p < pos ==> key_le(
                    ((#[trigger] out@[p]).0@, out@[p].1@.transaction.nonce),
                    (sender@, nonce),
                ),
        decreases out@.len() - pos,
    {
        pos = pos + 1;
    }
    let ghost old_out = out@;
    let ghost entry = (sender, tx);
    let ghost key = (sender@, tx@.transaction.nonce);
    proof {
        lemma_key_order_total(old_out, pos as int, key);
    }
    out.insert(pos, (sender, tx));
    proof {
        let ev_old = entry_views(old_out);
        lemma_scan_pos_char(ev_old, tx@);
        let sp = scan_pos(ev_old, tx@);
        assert(pos as int == sp) by {
            if (pos as int) < sp {
                assert(key_le(stx_key(ev_old[pos as int]), stx_key(tx@)));
                assert(ev_old[pos as int] == old_out[pos as int].1@);
                assert(stx_key(ev_old[pos as int]) == (
                    old_out[pos as int].0@,
                    old_out[pos as int].1@.transaction.nonce,
                ));
            } else if sp < pos as int {
                assert(key_le(
                    (old_out[sp].0@, old_out[sp].1@.transaction.nonce),
                    (sender@, tx@.transaction.nonce),
                ));
                assert(ev_old[sp] == old_out[sp].1@);
                assert(stx_key(ev_old[sp]) == (old_out[sp].0@, old_out[sp].1@.transaction.nonce));
            }
        }
        ev_old.insert_ensures(sp, tx@);
        assert forall|p: int| 0 <= p < out@.len() implies #[trigger] out@[p] == (if p
            < pos as int {
            old_out[p]
        } else if p == pos as int {
            entry
        } else {
            old_out[p - 1]
        }) by {
            assert(out@[p] == old_out.insert(pos as int, entry)[p]);
        }
        assert(entry.0@ == stx_sender(entry.1@));
        assert forall|p: int, q: int| 0 <= p < q < out@.len() implies key_le(
            ((#[trigger] out@[p]).0@, out@[p].1@.transaction.nonce),
            ((#[trigger] out@[q]).0@, out@[q].1@.transaction.nonce),
        ) by {
            if q < pos {
                assert(out@[p] == old_out[p] && out@[q] == old_out[q]);
            } else if q == pos {
                assert(out@[p] == old_out[p] && out@[q] == entry);
                assert(key_le((old_out[p].0@, old_out[p].1@.transaction.nonce), key));
            } else if p < pos {
                assert(out@[p] == old_out[p] && out@[q] == old_out[q - 1]);
                if q - 1 == p {
                    assert(p < pos <= q - 1);
                } else {
                    assert(key_le(
                        (old_out[p].0@, old_out[p].1@.transaction.nonce),
                        (old_out[q - 1].0@, old_out[q - 1].1@.transaction.nonce),
                    ));
                }
            } else if p == pos {
                assert(out@[p] == entry && out@[q] == old_out[q - 1]);
                assert(pos <= q - 1 < old_out.len());
                assert(key_le(key, (old_out[q - 1].0@, old_out[q - 1].1@.transaction.nonce)));
            } else {
                assert(out@[p] == old_out[p - 1] && out@[q] == old_out[q - 1]);
                assert(key_le(
                    (old_out[p - 1].0@, old_out[p - 1].1@.transaction.nonce),
                    (old_out[q - 1].0@, old_out[q - 1].1@.transaction.nonce),
                ));
            }
        }
        assert forall|p: int| 0 <= p < out@.len() implies (#[trigger] out@[p].0)@ == stx_sender(
            out@[p].1@,
        ) by {
            if p < pos as int {
                assert(out@[p] == old_out[p]);
            } else if p > pos as int {
                assert(out@[p] == old_out[p - 1]);
            }
        }
        assert(out@[pos as int].1@ == tx@);
        assert forall|p: int| 0 <= p < out@.len() implies (#[trigger] out@[p].1)@ == tx@
            || exists|q: int| 0 <= q < old_out.len() && #[trigger] old_out[q].1@ == out@[p].1@ by {
            if p < pos as int {
                assert(old_out[p].1@ == out@[p].1@);
            } else if p > pos as int {
                assert(old_out[p - 1].1@ == out@[p].1@);
            }
        }
        assert forall|q: int| 0 <= q < old_out.len() implies exists|p: int|
            0 <= p < out@.len() && #[trigger] out@[p].1@ == (#[trigger] old_out[q]).1@ by {
            let pp = if q < pos as int { q } else { q + 1 };
            assert(out@[pp] == old_out[q]);
            assert(out@[pp].1@ == old_out[q].1@);
        }
        assert forall|p: int| 0 <= p < entry_views(out@).len() implies #[trigger] entry_views(
            out@,
        )[p] == entry_views(old_out).insert(scan_pos(entry_views(old_out), tx@), tx@)[p] by {
            let ev_old2 = entry_views(old_out);
            let sp2 = scan_pos(ev_old2, tx@);
            assert(entry_views(out@)[p] == out@[p].1@);
            if p < sp2 {
                assert(out@[p] == old_out[p]);
                assert(ev_old2.insert(sp2, tx@)[p] == ev_old2[p]);
                assert(ev_old2[p] == old_out[p].1@);
            } else if p == sp2 {
                assert(out@[p] == entry);
                assert(ev_old2.insert(sp2, tx@)[p] == tx@);
            } else {
                assert(out@[p] == old_out[p - 1]);
                assert(ev_old2.insert(sp2, tx@)[(p - 1) + 1] == ev_old2[p - 1]);
                assert(ev_old2[p - 1] == old_out[p - 1].1@);
            }
        }
        assert(entry_views(out@) =~= entry_views(old_out).insert(
            scan_pos(entry_views(old_out), tx@),
            tx@,
        ));
    }
}

/// Entries before the insertion point are at most the new key; entries at
/// or after it are at least the new key, given the prefix bound and the
/// stop condition of the scan.
proof fn lemma_key_order_total(
    out: Seq<(Address, SignedTransaction)>,
    pos: int,
    key: (Seq<u8>, u64),
)
    requires
        key.0.len() == 20,
        0 <= pos <= out.len(),
        forall|p: int, q: int|
            0 <= p < q < out.len() ==> key_le(
                ((#[trigger] out[p]).0@, out[p].1@.transaction.nonce),
                ((#[trigger] out[q]).0@, out[q].1@.transaction.nonce),
            ),
        forall|p: int|
            0 <= p < pos ==> key_le(((#[trigger] out[p]).0@, out[p].1@.transaction.nonce), key),
        pos < out.len() ==> !key_le(((out[pos as int]).0@, out[pos as int].1@.transaction.nonce), key),
    ensures
        forall|p: int|
            pos <= p < out.len() ==> key_le(key, ((#[trigger] out[p]).0@, out[p].1@.transaction.nonce)),
{
    if pos < out.len() {
        let pk = ((out[pos as int]).0@, out[pos as int].1@.transaction.nonce);
        assert(key_le(key, pk)) by {
            lemma_key_le_total(pk, key);
        }
        assert forall|p: int| pos <= p < out.len() implies key_le(
            key,
            ((#[trigger] out[p]).0@, out[p].1@.transaction.nonce),
        ) by {
            if p > pos {
                assert(key_le(pk, ((out[p]).0@, out[p].1@.transaction.nonce)));
                lemma_key_le_trans(key, pk, ((out[p]).0@, out[p].1@.transaction.nonce));
            }
        }
    }
}

/// The candidate order is total: two keys compare one way or the other.
proof fn lemma_key_le_total(a: (Seq<u8>, u64), b: (Seq<u8>, u64))
    requires
        a.0.len() == b.0.len(),
    ensures
        key_le(a, b) || key_le(b, a),
{
    crate::hash::lemma_bytes_lt_total(a.0, b.0);
}

/// The candidate order is transitive.
proof fn lemma_key_le_trans(a: (Seq<u8>, u64), b: (Seq<u8>, u64), c: (Seq<u8>, u64))
    requires
        a.0.len() == b.0.len(),
        b.0.len() == c.0.len(),
        key_le(a, b),
        key_le(b, c),
    ensures
        key_le(a, c),
{
    if bytes_lt(a.0, b.0) && bytes_lt(b.0, c.0) {
        crate::hash::lemma_bytes_lt_trans(a.0, b.0, c.0);
    }
}

/// The miner's coinbase would not fit: some account already holds nearly
/// the whole supply.
pub open spec fn coinbase_overflows(
    nodes: Map<Seq<u8>, crate::trie::NodeView>,
    root: Seq<u8>,
    upd: Map<Seq<u8>, Account>,
    miner: Seq<u8>,
    fee: int,
) -> bool {
    acct_at(nodes, root, upd, miner).balance + BLOCK_REWARD + fee > u64::MAX
}

/// Assemble a candidate block atop the current tip: walk the candidates in
/// deterministic order, include each transaction only if its nonce is the
/// sender's next and the projected balance covers it, credit the coinbase,
/// and project the new state root. The header starts with nonce zero; the
/// proof-of-work search fills it in.

/// Consider one candidate: include it only if its nonce is the sender's
/// next, the projected balance covers value plus fee, and no balance or
/// nonce would overflow; on inclusion, debit the sender, credit the
/// receiver and add the fee.
#[verifier::rlimit(100)]
fn try_include(
    state: &StateTrie,
    nodes: &NodeStore,
    updates: &mut KvMap<Address, Account>,
    included: &mut Vec<SignedTransaction>,
    total_fee_acc: &mut u128,
    sender: &Address,
    tx: &SignedTransaction,
)
    requires
        nodes.wf(),
        old(updates).wf(),
        sender@ == stx_sender(tx@),
        apply_prefix(
            nodes@,
            state.root_hash@,
            tx_views(old(included)@),
            old(included)@.len() as int,
        ) == ApplyResult::Applied(old(updates)@),
        *old(total_fee_acc) == crate::chain::total_fee(tx_views(old(included)@)),
        *old(total_fee_acc) <= old(included)@.len() * 0xffffffffffffffffu128,
    ensures
        final(updates).wf(),
        final(included)@.len() == old(included)@.len() || final(included)@.len() == old(
            included,
        )@.len() + 1,
        forall|i: int|
            0 <= i < old(included)@.len() ==> #[trigger] final(included)@[i] == old(included)@[i],
        final(included)@.len() == old(included)@.len() + 1 ==> final(included)@[old(
            included,
        )@.len() as int]@ == tx@,
        apply_prefix(
            nodes@,
            state.root_hash@,
            tx_views(final(included)@),
            final(included)@.len() as int,
        ) == ApplyResult::Applied(final(updates)@),
        *final(total_fee_acc) == crate::chain::total_fee(tx_views(final(included)@)),
        *final(total_fee_acc) <= final(included)@.len() * 0xffffffffffffffffu128,
        (TemplateState {
            included: tx_views(final(included)@),
            upd: final(updates)@,
            fee: *final(total_fee_acc) as int,
        }) == select_step(
            nodes@,
            state.root_hash@,
            TemplateState {
                included: tx_views(old(included)@),
                upd: old(updates)@,
                fee: *old(total_fee_acc) as int,
            },
            tx@,
        ),
{
    let ghost nv = nodes@;
    let ghost root = state.root_hash@;
    let ghost iv_before = tx_views(included@);
    let gp = tx.transaction.gas_price;
    let gl = tx.transaction.gas_limit;
    let tv = tx.transaction.value;
    proof {
        assert((gp as int) * (gl as int) < 0x100000000000000000000000000000000int
            - 0xffffffffffffffffint) by (nonlinear_arith)
            requires
                gp <= 0xffffffffffffffffu64,
                gl <= 0xffffffffffffffffu64,
        ;
        assert((gp as int) * (gl as int) >= 0) by (nonlinear_arith)
            requires
                gp >= 0,
                gl >= 0,
        ;
    }
    let fee: u128 = (gp as u128) * (gl as u128);
    let total_cost: u128 = (tv as u128) + fee;
    let sender_acc = match updates.get(sender) {
        Some(acc) => *acc,
        None => match state.get(nodes, sender) {
            Some(acc) => acc,
            None => Account { nonce: 0, balance: 0 },
        },
    };
    proof {
        assert(sender_acc == acct_at(nv, root, updates@, stx_sender(tx@)));
    }
    if tx.transaction.nonce == sender_acc.nonce && (sender_acc.balance as u128) >= total_cost
        && sender_acc.nonce < u64::MAX {
        let new_sender = Account {
            nonce: sender_acc.nonce + 1,
            balance: ((sender_acc.balance as u128) - total_cost) as u64,
        };
        let receiver_addr = tx.transaction.to;
        let receiver_acc = if receiver_addr.eq_a(sender) {
            new_sender
        } else {
            match updates.get(&receiver_addr) {
                Some(acc) => *acc,
                None => match state.get(nodes, &receiver_addr) {
                    Some(acc) => acc,
                    None => Account { nonce: 0, balance: 0 },
                },
            }
        };
        proof {
            assert(receiver_acc == acct_at(
                nv,
                root,
                updates@.insert(stx_sender(tx@), new_sender),
                tx@.transaction.to,
            ));
        }
        if receiver_acc.balance <= u64::MAX - tv {
            let ghost upd_before = updates@;
            updates.insert(sender.key_dup(), new_sender);
            let new_receiver = Account {
                nonce: receiver_acc.nonce,
                balance: receiver_acc.balance + tv,
            };
            updates.insert(receiver_addr, new_receiver);
            let cur_len = included.len();
            proof {
                assert(fee <= 0xffffffffffffffffu128) by {
                    assert(total_cost <= sender_acc.balance as u128);
                }
                assert(*total_fee_acc + fee <= (included@.len() + 1)
                    * 0xffffffffffffffffu128) by (nonlinear_arith)
                    requires
                        *total_fee_acc <= included@.len() * 0xffffffffffffffffu128,
                        fee <= 0xffffffffffffffffu128,
                ;
                assert(included@.len() == cur_len);
                assert(usize::MAX <= u64::MAX);
                assert((included@.len() + 1) * 0xffffffffffffffffu128
                    < 0x100000000000000000000000000000000int) by (nonlinear_arith)
                    requires
                        included@.len() + 1 <= 0x10000000000000000int,
                ;
            }
            *total_fee_acc = *total_fee_acc + fee;
            included.push(tx.dup());
            proof {
                let iv = tx_views(included@);
                assert(iv.drop_last() =~= iv_before);
                assert(iv[iv.len() - 1] == tx@);
                assert(apply_tx(nv, root, upd_before, tx@) == ApplyResult::Applied(updates@));
                assert(apply_prefix(nv, root, iv, iv.len() - 1) == ApplyResult::Applied(
                    upd_before,
                )) by {
                    lemma_apply_prefix_same(nv, root, iv, iv_before, iv_before.len() as int);
                }
                assert(apply_prefix(nv, root, iv, iv.len() as int) == ApplyResult::Applied(
                    updates@,
                ));
                assert(crate::chain::total_fee_prefix(iv, iv.len() - 1)
                    == crate::chain::total_fee_prefix(iv_before, iv_before.len() as int)) by {
                    lemma_total_fee_prefix_same(iv, iv_before, iv_before.len() as int);
                }
            }
        }
    }
}

#[verifier::rlimit(100)]
pub fn assemble_template(
    chain: &Blockchain,
    candidates: &Vec<SignedTransaction>,
    miner_address: Address,
    timestamp: u128,
) -> (r: Option<(Block, KvMap<H256, NodeData>)>)
    requires
        chain.wf(),
    ensures
        match r {
            Some(p) => {
                &&& p.0@.parent == chain.tip@
                &&& p.0@.difficulty == chain.storage.blocks_view()[chain.tip@].difficulty
                &&& p.0@.timestamp == timestamp
                &&& p.0@.nonce == 0
                &&& p.0@.coinbase.to == miner_address@
                &&& p.0@.coinbase.nonce == 0
                &&& p.0@.coinbase.gas_price == 0
                &&& p.0@.coinbase.gas_limit == 0
                &&& coinbase_ok(p.0@)
                &&& merkle_ok(p.0@)
                &&& p.0@.data == template_of(
                    chain.storage.nodes_view(),
                    chain.storage.blocks_view()[chain.tip@].state_root,
                    candidates@.map_values(|t: SignedTransaction| t@),
                ).included
                &&& p.0@.coinbase.value == BLOCK_REWARD + template_of(
                    chain.storage.nodes_view(),
                    chain.storage.blocks_view()[chain.tip@].state_root,
                    candidates@.map_values(|t: SignedTransaction| t@),
                ).fee
                &&& p.1.wf()
                &&& forall|i: int|
                    0 <= i < p.0@.data.len() ==> tx_views(candidates@).contains(
                        #[trigger] p.0@.data[i],
                    )
                &&& exists|items: Seq<(Seq<u8>, Account)>|
                    {
                        &&& crate::trie::items_wf(items)
                        &&& crate::trie::items_distinct(items)
                        &&& apply_block(
                            chain.storage.nodes_view(),
                            chain.storage.blocks_view()[chain.tip@].state_root,
                            p.0@,
                        ) == ApplyResult::Applied(#[trigger] items_map(items))
                        &&& batch_step(
                            chain.storage.nodes_view(),
                            chain.storage.blocks_view()[chain.tip@].state_root,
                            items,
                            0,
                        ).0 == p.0@.state_root
                        &&& p.1@ == batch_step(
                            chain.storage.nodes_view(),
                            chain.storage.blocks_view()[chain.tip@].state_root,
                            items,
                            0,
                        ).1
                    }
            },
            None => true,
        },
        (r is None) <==> coinbase_overflows(
            chain.storage.nodes_view(),
            chain.storage.blocks_view()[chain.tip@].state_root,
            template_of(
                chain.storage.nodes_view(),
                chain.storage.blocks_view()[chain.tip@].state_root,
                candidates@.map_values(|t: SignedTransaction| t@),
            ).upd,
            miner_address@,
            template_of(
                chain.storage.nodes_view(),
                chain.storage.blocks_view()[chain.tip@].state_root,
                candidates@.map_values(|t: SignedTransaction| t@),
            ).fee,
        ),
{
    let parent_hash = chain.tip();
    let parent = match chain.get_block(&parent_hash) {
        Some(b) => b,
        None => {
            proof {
                assert(false);
            }
            vstd::pervasive::unreached()
        },
    };
    let difficulty = parent.get_difficulty();
    let parent_state_root = parent.state_root;
    let ghost nv = chain.storage.nodes_view();
    let ghost root = parent_state_root@;
    let state = StateTrie::new_from_root(parent_state_root);
    let sorted = sort_candidates(candidates);
    let mut included: Vec<SignedTransaction> = Vec::new();
    let mut updates: KvMap<Address, Account> = KvMap::new();
    let mut total_fee_acc: u128 = 0;
    let mut k: usize = 0;
    let n = sorted.len();
    proof {
        assert(tx_views(included@) =~= Seq::<StxView>::empty());
        assert((TemplateState {
            included: tx_views(included@),
            upd: updates@,
            fee: total_fee_acc as int,
        }) =~= select_upto(nv, root, entry_views(sorted@), 0));
    }
    while k < n
        invariant
            chain.wf(),
            n == sorted@.len(),
            k <= n,
            nv == chain.storage.nodes_view(),
            state.root_hash@ == root,
            updates.wf(),
            apply_prefix(nv, root, tx_views(included@), included@.len() as int)
                == ApplyResult::Applied(updates@),
            (TemplateState {
                included: tx_views(included@),
                upd: updates@,
                fee: total_fee_acc as int,
            }) == select_upto(nv, root, entry_views(sorted@), k as int),
            entry_views(sorted@) == sorted_candidates(tx_views(candidates@)),
            total_fee_acc == crate::chain::total_fee(tx_views(included@)),
            total_fee_acc <= included@.len() * 0xffffffffffffffffu128,
            included@.len() <= k,
            entries_keyed(sorted@),
            forall|i: int|
                0 <= i < included@.len() ==> tx_views(candidates@).contains(
                    (#[trigger] included@[i])@,
                ),
            forall|i: int|
                0 <= i < sorted@.len() ==> tx_views(candidates@).contains(
                    (#[trigger] sorted@[i]).1@,
                ),
        decreases n - k,
    {
        let entry = &sorted[k];
        let ghost included_before = included@;
        proof {
            assert((sorted@[k as int].0)@ == stx_sender(sorted@[k as int].1@));
            assert(entry_views(sorted@)[k as int] == sorted@[k as int].1@);
        }
        try_include(&state, chain.storage.state_nodes(), &mut updates, &mut included,
            &mut total_fee_acc, &entry.0, &entry.1);
        proof {
            if included@.len() != included_before.len() {
                assert forall|i: int| 0 <= i < included@.len() implies tx_views(
                    candidates@,
                ).contains((#[trigger] included@[i])@) by {
                    if i < included_before.len() {
                        assert(included@[i] == included_before[i]);
                    } else {
                        assert(included@[i]@ == sorted@[k as int].1@);
                        assert(tx_views(candidates@).contains(sorted@[k as int].1@));
                    }
                }
            }
        }
        k = k + 1;
    }
    let ghost iv = tx_views(included@);
    let ghost template = template_of(nv, root, tx_views(candidates@));
    proof {
        assert(root == chain.storage.blocks_view()[chain.tip@].state_root);
        assert(tx_views(candidates@) == candidates@.map_values(|t: SignedTransaction| t@));
        assert(sorted_candidates(tx_views(candidates@)).len() == n) by {
            assert(entry_views(sorted@).len() == n);
        }
        assert(template == select_upto(nv, root, entry_views(sorted@), n as int));
        assert(template.included == iv && template.upd == updates@ && template.fee
            == total_fee_acc as int);
    }
    if total_fee_acc > (u64::MAX - BLOCK_REWARD) as u128 {
        proof {
            assert(crate::chain::total_fee(iv) == total_fee_acc as int);
            assert(0 <= crate::chain::total_fee(iv));
            assert(coinbase_overflows(
                chain.storage.nodes_view(),
                chain.storage.blocks_view()[chain.tip@].state_root,
                updates@,
                miner_address@,
                crate::chain::total_fee(iv),
            ));
        }
        return None;
    }
    let reward: u64 = BLOCK_REWARD + (total_fee_acc as u64);
    let miner_acc = match updates.get(&miner_address) {
        Some(acc) => *acc,
        None => match state.get(chain.storage.state_nodes(), &miner_address) {
            Some(acc) => acc,
            None => Account { nonce: 0, balance: 0 },
        },
    };
    proof {
        assert(miner_acc == acct_at(nv, root, updates@, miner_address@));
    }
    if miner_acc.balance > u64::MAX - reward {
        proof {
            assert(crate::chain::total_fee(iv) == total_fee_acc as int);
            assert(0 <= crate::chain::total_fee(iv));
            assert(coinbase_overflows(
                chain.storage.nodes_view(),
                chain.storage.blocks_view()[chain.tip@].state_root,
                updates@,
                miner_address@,
                crate::chain::total_fee(iv),
            ));
        }
        return None;
    }
    let new_miner = Account { nonce: miner_acc.nonce, balance: miner_acc.balance + reward };
    updates.insert(miner_address, new_miner);
    let coinbase = Transaction::new(0, 0, 0, miner_address, reward, Vec::new());
    let (final_root, new_nodes) = state.insert_batch(chain.storage.state_nodes(), &updates);
    let block = Block::new(
        parent_hash,
        0,
        difficulty,
        timestamp,
        final_root,
        coinbase,
        included,
    );
    proof {
        assert(block@.data == iv);
        assert(coinbase.to@ == miner_address@);
        assert(coinbase@.data =~= Seq::<u8>::empty());
        assert(apply_block(nv, root, block@) == ApplyResult::Applied(updates@));
        assert(coinbase_ok(block@));
    }
    Some((block, new_nodes))
}

/// Applying a shared prefix gives the same outcome.
proof fn lemma_apply_prefix_same(
    nodes: Map<Seq<u8>, crate::trie::NodeView>,
    root: Seq<u8>,
    a: Seq<StxView>,
    b: Seq<StxView>,
    n: int,
)
    requires
        0 <= n <= a.len(),
        n <= b.len(),
        forall|i: int| 0 <= i < n ==> a[i] == b[i],
    ensures
        apply_prefix(nodes, root, a, n) == apply_prefix(nodes, root, b, n),
    decreases n,
{
    if n > 0 {
        lemma_apply_prefix_same(nodes, root, a, b, n - 1);
    }
}

/// Fee prefixes agree on a shared prefix.
proof fn lemma_total_fee_prefix_same(a: Seq<StxView>, b: Seq<StxView>, n: int)
    requires
        0 <= n <= a.len(),
        n <= b.len(),
        forall|i: int| 0 <= i < n ==> a[i] == b[i],
    ensures
        crate::chain::total_fee_prefix(a, n) == crate::chain::total_fee_prefix(b, n),
    decreases n,
{
    if n > 0 {
        lemma_total_fee_prefix_same(a, b, n - 1);
    }
}

/// One quantum of proof-of-work: try up to `attempts` nonces, wrapping.
/// True means the block in hand now satisfies its difficulty target. Only
/// the nonce changes.
pub fn pow_search(block: &mut Block, attempts: u64) -> (r: bool)
    ensures
        final(block)@ == with_nonce(old(block)@, final(block)@.nonce),
        r ==> bytes_le(block_hash(final(block)@), final(block)@.difficulty),
        r ==> exists|k: int|
            0 <= k < attempts && final(block)@.nonce == #[trigger] nonce_after(
                old(block)@.nonce,
                k,
            ),
        !r ==> final(block)@.nonce == nonce_after(old(block)@.nonce, attempts as int),
        !r ==> forall|k: int|
            0 <= k < attempts ==> !bytes_le(
                block_hash(with_nonce(old(block)@, #[trigger] nonce_after(old(block)@.nonce, k))),
                old(block)@.difficulty,
            ),
        attempts > 0 && bytes_le(block_hash(old(block)@), old(block)@.difficulty) ==> r,
{
    let mut tries: u64 = 0;
    while tries < attempts
        invariant
            tries <= attempts,
            block@ == with_nonce(old(block)@, block@.nonce),
            block@.nonce == nonce_after(old(block)@.nonce, tries as int),
            forall|k: int|
                0 <= k < tries ==> !bytes_le(
                    block_hash(
                        with_nonce(old(block)@, #[trigger] nonce_after(old(block)@.nonce, k)),
                    ),
                    old(block)@.difficulty,
                ),
        decreases attempts - tries,
    {
        let h = block.hash();
        let difficulty = block.get_difficulty();
        if h.le(&difficulty) {
            proof {
                assert(block@.nonce == nonce_after(old(block)@.nonce, tries as int));
            }
            return true;
        }
        let nonce = block.get_nonce();
        let new_nonce: u32 = if nonce == u32::MAX {
            0
        } else {
            nonce + 1
        };
        block.set_nonce(&new_nonce);
        proof {
            assert(block@ =~= with_nonce(old(block)@, block@.nonce));
        }
        tries = tries + 1;
    }
    false
}

/// The sink step for a mined block: commit it, then prune every included
/// transaction from the mempool. After this, nothing from the block's body
/// remains pending.
pub fn process_mined_block(
    chain: &mut Blockchain,
    mempool: &mut Mempool,
    block: &Block,
    new_nodes: KvMap<H256, NodeData>,
)
    requires
        old(chain).wf(),
        old(mempool).wf(),
        new_nodes.wf(),
    ensures
        final(chain).wf(),
        final(mempool).wf(),
        forall|i: int|
            0 <= i < block@.data.len() ==> !final(mempool)@.contains_key(
                stx_hash(#[trigger] block@.data[i]),
            ),
        crate::chain::height_of(final(chain).storage.heights_view(), final(chain).tip@)
            >= crate::chain::height_of(old(chain).storage.heights_view(), old(chain).tip@),
        // the commit itself takes effect exactly as commit_block prescribes
        old(chain).storage.blocks_view().contains_key(block_hash(block@)) ==> *final(chain)
            == *old(chain),
        !old(chain).storage.blocks_view().contains_key(block_hash(block@)) && !old(
            chain,
        ).storage.blocks_view().contains_key(block@.parent) ==> *final(chain) == *old(chain),
        (!old(chain).storage.blocks_view().contains_key(block_hash(block@)) && old(
            chain,
        ).storage.blocks_view().contains_key(block@.parent) && crate::chain::height_of(
            old(chain).storage.heights_view(),
            block@.parent,
        ) < u64::MAX) ==> {
            &&& final(chain).storage.blocks_view() == old(chain).storage.blocks_view().insert(
                block_hash(block@),
                block@,
            )
            &&& final(chain).storage.nodes_view() == old(
                chain,
            ).storage.nodes_view().union_prefer_right(new_nodes@)
            &&& final(chain).storage.heights_view() == old(chain).storage.heights_view().insert(
                block_hash(block@),
                (crate::chain::height_of(old(chain).storage.heights_view(), block@.parent)
                    + 1) as u64,
            )
            &&& final(chain).tip@ == if crate::chain::height_of(
                old(chain).storage.heights_view(),
                block@.parent,
            ) + 1 > crate::chain::height_of(old(chain).storage.heights_view(), old(chain).tip@) {
                block_hash(block@)
            } else {
                old(chain).tip@
            }
        },
        final(chain).storage.tip_view() == Some(final(chain).tip@),
{
    chain.commit_block(block, new_nodes);
    let mut tx_hashes: Vec<H256> = Vec::new();
    let mut i: usize = 0;
    while i < block.data.len()
        invariant
            i <= block.data@.len(),
            tx_hashes@.len() == i,
            forall|j: int|
                0 <= j < i ==> (#[trigger] tx_hashes@[j])@ == stx_hash(block@.data[j]),
        decreases block.data@.len() - i,
    {
        let h = block.data[i].hash();
        tx_hashes.push(h);
        i = i + 1;
    }
    mempool.remove_transactions(&tx_hashes);
    proof {
        assert forall|j: int| 0 <= j < block@.data.len() implies !mempool@.contains_key(
            stx_hash(#[trigger] block@.data[j]),
        ) by {
            assert(tx_hashes@[j]@ == stx_hash(block@.data[j]));
        }
    }
}

} // verus!

