use minichain::account::Account;
use minichain::block::Block;
use minichain::chain::{Blockchain, ExecError};
use minichain::hash::{Address, H256};
use minichain::kvmap::KvMap;
use minichain::mempool::Mempool;
use minichain::miner::{assemble_template, pow_search, process_mined_block};
use minichain::transaction::Transaction;
use minichain::trie::{NodeData, NodeStore, StateTrie};
use minichain::wallet::Wallet;

fn god_address() -> Address {
    Address::from_bytes([
        0x67, 0xd3, 0x9d, 0xa2, 0x2d, 0x10, 0x6b, 0x68, 0x6c, 0x4f, 0x30, 0x1b, 0x6f, 0x35,
        0x76, 0x00, 0xd2, 0x8f, 0xc1, 0x04,
    ])
}

fn easy_difficulty() -> H256 {
    H256::from_bytes([255u8; 32])
}

fn zero_coinbase(to: Address, value: u64) -> Transaction {
    Transaction::new(0, 0, 0, to, value, Vec::new())
}

/// A chain whose tip is an unvalidated block with an all-ones difficulty
/// and a state holding `account` at `addr`, so that children of the tip can
/// be mined and executed instantly.
fn easy_chain(addr: Address, account: Account) -> (Blockchain, H256) {
    let mut chain = Blockchain::new();
    let genesis_hash = chain.tip();
    let mut scratch: NodeStore = KvMap::new();
    let trie = StateTrie::new(&mut scratch);
    let mut upd: KvMap<Address, Account> = KvMap::new();
    upd.insert(addr, account);
    let (root, mut nodes) = trie.insert_batch(&scratch, &upd);
    // the fresh empty node must also be visible to readers of this root
    let empty = minichain::trie::Node::new(NodeData::Empty);
    nodes.insert(empty.hash, empty.data);
    let filler = Block::new(
        genesis_hash,
        0,
        easy_difficulty(),
        1,
        root,
        zero_coinbase(Address::from_bytes([0u8; 20]), 0),
        Vec::new(),
    );
    let fh = filler.hash();
    chain.commit_block(&filler, nodes);
    assert!(chain.contains_block(&fh));
    (chain, fh)
}

#[test]
fn genesis_bootstrap() {
    let chain = Blockchain::new();
    let tip = chain.tip();
    assert_eq!(chain.get_height(&tip), 0);
    let god = chain.get_account(&god_address());
    assert_eq!(god.balance, 100_000_000);
    assert_eq!(god.nonce, 0);
    // an unrelated account is the default
    let other = chain.get_account(&Address::from_bytes([9u8; 20]));
    assert_eq!(other.balance, 0);
    assert_eq!(other.nonce, 0);
}

#[test]
fn single_transfer() {
    let w1 = Wallet::new(vec![7u8; 32]).unwrap();
    let w2 = Wallet::new(vec![8u8; 32]).unwrap();
    let a1 = w1.get_my_address();
    let a2 = w2.get_my_address();
    // fund the sender with nonce 1, so its next wire nonce (1) matches
    let (mut chain, _tip) = easy_chain(a1, Account::new(1, 100_000_000));
    let tx = w1.create_signed_transaction(a2, 100, 1, 10, 0);
    assert!(tx.verify());
    let mut mempool = Mempool::new();
    mempool.insert(tx);
    assert_eq!(mempool.len(), 1);
    let candidates = mempool.select_transactions();
    let (mut block, _nodes) = assemble_template(&chain, &candidates, a2, 42).unwrap();
    assert!(pow_search(&mut block, 1000));
    let bh = block.hash();
    match Blockchain::execute_block(&chain.storage, &block) {
        Ok((h, executed_nodes)) => {
            assert!(h.eq_h(&bh));
            process_mined_block(&mut chain, &mut mempool, &block, executed_nodes);
        },
        Err(e) => panic!("execution failed: {:?}", e),
    }
    assert_eq!(mempool.len(), 0);
    let sender = chain.get_account(&a1);
    assert_eq!(sender.balance, 100_000_000 - 100 - 10);
    assert_eq!(sender.nonce, 2);
    let receiver = chain.get_account(&a2);
    assert_eq!(receiver.balance, 100 + 50 + 10);
    let tip = chain.tip();
    assert!(tip.eq_h(&bh));
    assert_eq!(chain.get_height(&tip), 2);
}

#[test]
fn execution_is_deterministic() {
    let a1 = Address::from_bytes([3u8; 20]);
    let (mut chain, _tip) = easy_chain(a1, Account::new(0, 1000));
    let (mut block, _nodes) = assemble_template(&chain, &Vec::new(), a1, 7).unwrap();
    assert!(pow_search(&mut block, 1000));
    let r1 = Blockchain::execute_block(&chain.storage, &block).unwrap();
    let r2 = Blockchain::execute_block(&chain.storage, &block).unwrap();
    assert!(r1.0.eq_h(&r2.0));
    assert_eq!(r1.1.entry_count(), r2.1.entry_count());
    chain.commit_block(&block, r1.1);
    assert!(chain.tip().eq_h(&block.hash()));
}

#[test]
fn commit_is_idempotent_and_tie_keeps_first() {
    let miner_a = Address::from_bytes([1u8; 20]);
    let miner_b = Address::from_bytes([2u8; 20]);
    let (mut chain, _tip) = easy_chain(miner_a, Account::new(0, 0));
    let (mut b1, _) = assemble_template(&chain, &Vec::new(), miner_a, 100).unwrap();
    assert!(pow_search(&mut b1, 1000));
    let (mut b1p, _) = assemble_template(&chain, &Vec::new(), miner_b, 100).unwrap();
    assert!(pow_search(&mut b1p, 1000));
    let n1 = Blockchain::execute_block(&chain.storage, &b1).unwrap().1;
    chain.commit_block(&b1, n1);
    let tip_after_first = chain.tip();
    let h_after_first = chain.get_height(&tip_after_first);
    assert!(tip_after_first.eq_h(&b1.hash()));

    // committing the same block again changes nothing
    let n1_again = Blockchain::execute_block(&chain.storage, &b1).unwrap().1;
    chain.commit_block(&b1, n1_again);
    assert!(chain.tip().eq_h(&tip_after_first));
    assert_eq!(chain.get_height(&chain.tip()), h_after_first);

    // a fork block at the same height does not move the tip
    let n2 = Blockchain::execute_block(&chain.storage, &b1p).unwrap().1;
    chain.commit_block(&b1p, n2);
    assert!(chain.contains_block(&b1p.hash()));
    assert!(chain.tip().eq_h(&b1.hash()));
}

#[test]
fn fork_adopted_on_strict_majority() {
    let miner_a = Address::from_bytes([1u8; 20]);
    let miner_b = Address::from_bytes([2u8; 20]);
    let (mut chain, _tip) = easy_chain(miner_a, Account::new(0, 0));
    let (mut b1, _) = assemble_template(&chain, &Vec::new(), miner_a, 100).unwrap();
    assert!(pow_search(&mut b1, 1000));
    let (mut b1p, _) = assemble_template(&chain, &Vec::new(), miner_b, 100).unwrap();
    assert!(pow_search(&mut b1p, 1000));
    let n = Blockchain::execute_block(&chain.storage, &b1).unwrap().1;
    chain.commit_block(&b1, n);
    let n = Blockchain::execute_block(&chain.storage, &b1p).unwrap().1;
    chain.commit_block(&b1p, n);
    assert!(chain.tip().eq_h(&b1.hash()));
    // build b2' against a second node whose tip is b1'
    let (mut node_b, _t2) = easy_chain(miner_a, Account::new(0, 0));
    let nb = Blockchain::execute_block(&node_b.storage, &b1p).unwrap().1;
    node_b.commit_block(&b1p, nb);
    assert!(node_b.tip().eq_h(&b1p.hash()));
    let (mut b2p, _) = assemble_template(&node_b, &Vec::new(), miner_b, 200).unwrap();
    assert!(pow_search(&mut b2p, 1000));
    // deliver b2' to the first node
    let n = Blockchain::execute_block(&chain.storage, &b2p).unwrap().1;
    chain.commit_block(&b2p, n);
    assert!(chain.tip().eq_h(&b2p.hash()));
    assert_eq!(chain.get_height(&chain.tip()), 3);
}

#[test]
fn longest_chain_walk_is_root_to_tip() {
    let miner_a = Address::from_bytes([1u8; 20]);
    let (mut chain, filler_hash) = easy_chain(miner_a, Account::new(0, 0));
    let (mut b1, _) = assemble_template(&chain, &Vec::new(), miner_a, 100).unwrap();
    assert!(pow_search(&mut b1, 1000));
    let n = Blockchain::execute_block(&chain.storage, &b1).unwrap().1;
    chain.commit_block(&b1, n);
    let hashes = chain.all_blocks_in_longest_chain();
    assert_eq!(hashes.len(), 3);
    assert!(hashes[2].eq_h(&b1.hash()));
    assert!(hashes[1].eq_h(&filler_hash));
    for (i, h) in hashes.iter().enumerate() {
        assert_eq!(chain.get_height(h), i as u64);
    }
}

#[test]
fn replay_rejected_by_nonce() {
    let w1 = Wallet::new(vec![7u8; 32]).unwrap();
    let a1 = w1.get_my_address();
    let a2 = Address::from_bytes([5u8; 20]);
    let (chain, tip) = easy_chain(a1, Account::new(1, 100_000_000));
    let tx = w1.create_signed_transaction(a2, 100, 1, 10, 0);
    // the same signed transaction twice leaves one mempool entry
    let mut mempool = Mempool::new();
    mempool.insert(tx.clone());
    mempool.insert(tx.clone());
    assert_eq!(mempool.len(), 1);
    // a block carrying two copies fails on the second copy's nonce
    let parent = chain.get_block(&tip).unwrap();
    let fee = 2 * (1 * 10);
    let block = Block::new(
        tip,
        0,
        easy_difficulty(),
        9,
        parent.state_root,
        zero_coinbase(a2, 50 + fee),
        vec![tx.clone(), tx.clone()],
    );
    match Blockchain::execute_block(&chain.storage, &block) {
        Err(ExecError::NonceMismatch) => {},
        Err(other) => panic!("expected a nonce mismatch, got {:?}", other),
        Ok(_) => panic!("validation unexpectedly passed"),
    }
}

#[test]
fn execute_rejects_each_bad_block() {
    let a1 = Address::from_bytes([3u8; 20]);
    let (chain, tip) = easy_chain(a1, Account::new(0, 1000));
    let parent = chain.get_block(&tip).unwrap();
    // unknown parent
    let orphan = Block::new(
        H256::from_bytes([0xabu8; 32]),
        0,
        easy_difficulty(),
        9,
        parent.state_root,
        zero_coinbase(a1, 50),
        Vec::new(),
    );
    match Blockchain::execute_block(&chain.storage, &orphan) {
        Err(ExecError::UnknownParent) => {},
        Err(other) => panic!("unexpected error {:?}", other),
        Ok(_) => panic!("validation unexpectedly passed"),
    }
    // difficulty mismatch with the parent: almost the parent's target, so
    // the proof-of-work comparison still passes
    let mut near = [255u8; 32];
    near[31] = 254;
    let wrong_diff = Block::new(
        tip,
        0,
        H256::from_bytes(near),
        9,
        parent.state_root,
        zero_coinbase(a1, 50),
        Vec::new(),
    );
    match Blockchain::execute_block(&chain.storage, &wrong_diff) {
        Err(ExecError::DifficultyMismatch) => {},
        Err(other) => panic!("unexpected error {:?}", other),
        Ok(_) => panic!("validation unexpectedly passed"),
    }
    // pow violation: a hash cannot meet an all-zero target
    let zero_diff = Block::new(
        tip,
        0,
        H256::zero(),
        9,
        parent.state_root,
        zero_coinbase(a1, 50),
        Vec::new(),
    );
    match Blockchain::execute_block(&chain.storage, &zero_diff) {
        Err(ExecError::PowViolation) => {},
        Err(other) => panic!("unexpected error {:?}", other),
        Ok(_) => panic!("validation unexpectedly passed"),
    }
    // coinbase must be reward plus fees
    let wrong_coinbase = Block::new(
        tip,
        0,
        easy_difficulty(),
        9,
        parent.state_root,
        zero_coinbase(a1, 51),
        Vec::new(),
    );
    match Blockchain::execute_block(&chain.storage, &wrong_coinbase) {
        Err(ExecError::CoinbaseMismatch) => {},
        Err(other) => panic!("unexpected error {:?}", other),
        Ok(_) => panic!("validation unexpectedly passed"),
    }
    // a garbled signature is rejected
    let w = Wallet::new(vec![9u8; 32]).unwrap();
    let mut bad_tx = w.create_signed_transaction(a1, 1, 0, 0, 0);
    bad_tx.signature[0] ^= 1;
    let bad_sig = Block::new(
        tip,
        0,
        easy_difficulty(),
        9,
        parent.state_root,
        zero_coinbase(a1, 50),
        vec![bad_tx],
    );
    match Blockchain::execute_block(&chain.storage, &bad_sig) {
        Err(ExecError::BadSignature) => {},
        Err(other) => panic!("unexpected error {:?}", other),
        Ok(_) => panic!("validation unexpectedly passed"),
    }
    // a wrong state root is the last check to fail
    let wrong_root = Block::new(
        tip,
        0,
        easy_difficulty(),
        9,
        H256::from_bytes([0x11u8; 32]),
        zero_coinbase(a1, 50),
        Vec::new(),
    );
    match Blockchain::execute_block(&chain.storage, &wrong_root) {
        Err(ExecError::StateRootMismatch) => {},
        Err(other) => panic!("unexpected error {:?}", other),
        Ok(_) => panic!("validation unexpectedly passed"),
    }
}
