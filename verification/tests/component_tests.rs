use minichain::account::Account;
use minichain::block::Block;
use minichain::chain::Blockchain;
use minichain::gossip::{handle_message, Message, OrphanBuffer};
use minichain::hash::{sha256_digest, Address, H256};
use minichain::kvmap::KvMap;
use minichain::mempool::Mempool;
use minichain::merkle::{verify, MerkleTree};
use minichain::miner::{
    assemble_template, miner_transition, pow_search, ControlSignal, OperatingState,
};
use minichain::transaction::Transaction;
use minichain::trie::{get_bit_at, NodeStore, StateTrie};
use minichain::wallet::Wallet;

fn signed(seed: u8, nonce: u64, value: u64) -> minichain::transaction::SignedTransaction {
    let w = Wallet::new(vec![seed; 32]).unwrap();
    w.create_signed_transaction(Address::from_bytes([seed; 20]), value, 1, 2, nonce)
}

#[test]
fn sha256_wrapper_matches_known_vector() {
    let digest = sha256_digest(&vec![0x61u8, 0x62u8, 0x63u8]);
    let expected = H256::from_bytes([
        0xba, 0x78, 0x16, 0xbf, 0x8f, 0x01, 0xcf, 0xea, 0x41, 0x41, 0x40, 0xde, 0x5d, 0xae,
        0x22, 0x23, 0xb0, 0x03, 0x61, 0xa3, 0x96, 0x17, 0x7a, 0x9c, 0xb4, 0x10, 0xff, 0x61,
        0xf2, 0x00, 0x15, 0xad,
    ]);
    assert!(digest.eq_h(&expected));
}

#[test]
fn hash_ordering_is_big_endian() {
    let mut lo = [0u8; 32];
    lo[31] = 9;
    let mut hi = [0u8; 32];
    hi[0] = 1;
    let lo = H256::from_bytes(lo);
    let hi = H256::from_bytes(hi);
    assert!(lo.le(&hi));
    assert!(!hi.le(&lo));
    assert!(lo.le(&lo));
}

#[test]
fn address_bits_walk_high_bit_first() {
    let mut bytes = [0u8; 20];
    bytes[0] = 0b1000_0000;
    bytes[1] = 0b0000_0001;
    let a = Address::from_bytes(bytes);
    assert_eq!(get_bit_at(&a, 0), 1);
    assert_eq!(get_bit_at(&a, 1), 0);
    assert_eq!(get_bit_at(&a, 15), 1);
    assert_eq!(get_bit_at(&a, 160), 0);
}

#[test]
fn signatures_verify_and_garbling_fails() {
    let w = Wallet::new(vec![1u8; 32]).unwrap();
    let tx = w.create_signed_transaction(Address::from_bytes([2u8; 20]), 5, 1, 1, 0);
    assert!(tx.verify());
    let mut garbled = tx.clone();
    garbled.signature[10] ^= 0xff;
    assert!(!garbled.verify());
    let mut wrong_key = tx.clone();
    wrong_key.public_key = Wallet::new(vec![2u8; 32]).unwrap().get_public_key_bytes();
    assert!(!wrong_key.verify());
}

#[test]
fn merkle_proofs_are_sound_and_flips_fail() {
    let txs = vec![signed(1, 0, 1), signed(2, 0, 2), signed(3, 0, 3), signed(4, 0, 4), signed(
        5, 0, 5,
    )];
    let tree = MerkleTree::new(&txs);
    let root = tree.root();
    let n = txs.len();
    for i in 0..n {
        let datum = txs[i].hash();
        let path = tree.proof_at(i);
        assert!(verify(&root, &datum, &path, i, n));
        // a flipped datum bit falsifies
        let mut bad = datum.to_bytes();
        bad[0] ^= 1;
        assert!(!verify(&root, &H256::from_bytes(bad), &path, i, n));
        // a flipped path element falsifies
        if path.len() > 0 {
            let mut bad_path = path.clone();
            let mut b = bad_path[0].to_bytes();
            b[5] ^= 1;
            bad_path[0] = H256::from_bytes(b);
            assert!(!verify(&root, &datum, &bad_path, i, n));
        }
        // a flipped index falsifies
        assert!(!verify(&root, &datum, &path, (i + 1) % n, n));
        // an out-of-range index is rejected
        assert!(!verify(&root, &datum, &path, n, n));
    }
    // the empty tree's root is all zeroes
    let empty = MerkleTree::new(&Vec::new());
    assert!(empty.root().eq_h(&H256::zero()));
}

#[test]
fn trie_round_trip_and_empty_batch() {
    let mut store: NodeStore = KvMap::new();
    let trie = StateTrie::new(&mut store);
    // an empty batch returns the current root and files nothing
    let empty_updates: KvMap<Address, Account> = KvMap::new();
    let (same_root, no_nodes) = trie.insert_batch(&store, &empty_updates);
    assert!(same_root.eq_h(&trie.root_hash));
    assert_eq!(no_nodes.entry_count(), 0);
    // two writes in one batch
    let a1 = Address::from_bytes([0x00u8; 20]);
    let a2 = Address::from_bytes([0xffu8; 20]);
    let a3 = Address::from_bytes([0x0fu8; 20]);
    let mut upd: KvMap<Address, Account> = KvMap::new();
    upd.insert(a1, Account::new(1, 10));
    upd.insert(a2, Account::new(2, 20));
    let (root1, nodes1) = trie.insert_batch(&store, &upd);
    store.merge_from(&nodes1);
    let t1 = StateTrie::new_from_root(root1);
    assert_eq!(t1.get(&store, &a1), Some(Account::new(1, 10)));
    assert_eq!(t1.get(&store, &a2), Some(Account::new(2, 20)));
    assert_eq!(t1.get(&store, &a3), None);
    // a second batch overwrites one key and adds another
    let mut upd2: KvMap<Address, Account> = KvMap::new();
    upd2.insert(a1, Account::new(3, 30));
    upd2.insert(a3, Account::new(4, 40));
    let (root2, nodes2) = t1.insert_batch(&store, &upd2);
    store.merge_from(&nodes2);
    let t2 = StateTrie::new_from_root(root2);
    assert_eq!(t2.get(&store, &a1), Some(Account::new(3, 30)));
    assert_eq!(t2.get(&store, &a2), Some(Account::new(2, 20)));
    assert_eq!(t2.get(&store, &a3), Some(Account::new(4, 40)));
    // the same final map written as one batch gives the same root
    let mut fresh: NodeStore = KvMap::new();
    let trie_b = StateTrie::new(&mut fresh);
    let mut all: KvMap<Address, Account> = KvMap::new();
    all.insert(a1, Account::new(3, 30));
    all.insert(a2, Account::new(2, 20));
    all.insert(a3, Account::new(4, 40));
    let (root_single, _) = trie_b.insert_batch(&fresh, &all);
    assert!(root_single.eq_h(&root2));
    // the old root still reads the old values: copy on write
    assert_eq!(t1.get(&store, &a1), Some(Account::new(1, 10)));
}

#[test]
fn mempool_is_idempotent_and_prunes() {
    let mut mempool = Mempool::new();
    let tx = signed(1, 0, 5);
    let h = tx.hash();
    mempool.insert(tx.clone());
    mempool.insert(tx.clone());
    assert_eq!(mempool.len(), 1);
    assert!(mempool.contains(&h));
    let got = mempool.get_transaction(&h).unwrap();
    assert!(got.hash().eq_h(&h));
    mempool.remove_transactions(&vec![h]);
    assert_eq!(mempool.len(), 0);
    assert!(!mempool.contains(&h));
}

#[test]
fn miner_control_table() {
    let p = OperatingState::Paused;
    assert_eq!(miner_transition(p, ControlSignal::Start(5)), OperatingState::Run(5));
    assert_eq!(miner_transition(p, ControlSignal::Stop), OperatingState::Paused);
    assert_eq!(miner_transition(p, ControlSignal::Update), OperatingState::Paused);
    assert_eq!(miner_transition(p, ControlSignal::Exit), OperatingState::ShutDown);
    let r = OperatingState::Run(5);
    assert_eq!(miner_transition(r, ControlSignal::Start(9)), OperatingState::Run(9));
    assert_eq!(miner_transition(r, ControlSignal::Stop), OperatingState::Paused);
    assert_eq!(miner_transition(r, ControlSignal::Update), OperatingState::Run(5));
    assert_eq!(miner_transition(r, ControlSignal::Exit), OperatingState::ShutDown);
    let m = OperatingState::MinedWait(5);
    assert_eq!(miner_transition(m, ControlSignal::Start(9)), OperatingState::Run(9));
    assert_eq!(miner_transition(m, ControlSignal::Stop), OperatingState::MinedWait(5));
    assert_eq!(miner_transition(m, ControlSignal::Update), OperatingState::Run(5));
    assert_eq!(miner_transition(m, ControlSignal::Exit), OperatingState::ShutDown);
    let s = OperatingState::ShutDown;
    assert_eq!(miner_transition(s, ControlSignal::Start(9)), OperatingState::ShutDown);
}

#[test]
fn block_hash_covers_header_not_body() {
    let a1 = Address::from_bytes([3u8; 20]);
    let coinbase = Transaction::new(0, 0, 0, a1, 50, Vec::new());
    let b1 = Block::new(
        H256::zero(),
        0,
        H256::from_bytes([255u8; 32]),
        7,
        H256::zero(),
        coinbase.clone(),
        Vec::new(),
    );
    // a different nonce gives a different hash
    let mut b2 = b1.clone();
    b2.set_nonce(&1);
    assert!(!b1.hash().eq_h(&b2.hash()));
    // a tampered merkle root changes the block hash
    let mut b3 = b1.clone();
    b3.merkle_root = H256::from_bytes([9u8; 32]);
    assert!(!b1.hash().eq_h(&b3.hash()));
    // swapping the body while keeping the header leaves the hash unchanged
    let mut b4 = b1.clone();
    b4.data = vec![signed(1, 0, 1)];
    assert!(b1.hash().eq_h(&b4.hash()));
}

#[test]
fn orphan_blocks_reorder() {
    let miner_a = Address::from_bytes([1u8; 20]);
    // build b1 and b2 on a scratch node
    let (mut scratch_chain, _t) = easy_chain_for_gossip(miner_a);
    let (mut b1, _) = assemble_template(&scratch_chain, &Vec::new(), miner_a, 100).unwrap();
    assert!(pow_search(&mut b1, 1000));
    let n = Blockchain::execute_block(&scratch_chain.storage, &b1).unwrap().1;
    scratch_chain.commit_block(&b1, n);
    let (mut b2, _) = assemble_template(&scratch_chain, &Vec::new(), miner_a, 200).unwrap();
    assert!(pow_search(&mut b2, 1000));
    // deliver them out of order to a fresh node
    let (mut node, _t2) = easy_chain_for_gossip(miner_a);
    let mut mempool = Mempool::new();
    let mut orphans: OrphanBuffer = KvMap::new();
    let (replies, broadcasts) =
        handle_message(&mut node, &mut mempool, &mut orphans, Message::Blocks(vec![b2.clone()]));
    // the orphan was buffered and its parent requested
    assert_eq!(broadcasts.len(), 0);
    assert_eq!(replies.len(), 1);
    match &replies[0] {
        Message::GetBlocks(hs) => {
            assert_eq!(hs.len(), 1);
            assert!(hs[0].eq_h(&b1.hash()));
        },
        _ => panic!("expected a block request"),
    }
    assert!(!node.contains_block(&b2.hash()));
    // the parent arrives: both blocks commit, the tip is the child
    let (_replies2, broadcasts2) =
        handle_message(&mut node, &mut mempool, &mut orphans, Message::Blocks(vec![b1.clone()]));
    assert!(node.contains_block(&b1.hash()));
    assert!(node.contains_block(&b2.hash()));
    assert!(node.tip().eq_h(&b2.hash()));
    assert_eq!(orphans.len(), 0);
    assert_eq!(broadcasts2.len(), 1);
    match &broadcasts2[0] {
        Message::NewBlockHashes(hs) => assert_eq!(hs.len(), 2),
        _ => panic!("expected a rebroadcast"),
    }
}

#[test]
fn ping_and_height_messages() {
    let miner_a = Address::from_bytes([1u8; 20]);
    let (mut node, _t) = easy_chain_for_gossip(miner_a);
    let mut mempool = Mempool::new();
    let mut orphans: OrphanBuffer = KvMap::new();
    let (replies, broadcasts) = handle_message(
        &mut node,
        &mut mempool,
        &mut orphans,
        Message::Ping(String::from("hail")),
    );
    assert_eq!(broadcasts.len(), 0);
    match &replies[0] {
        Message::Pong(s) => assert_eq!(s, "hail"),
        _ => panic!("expected a pong"),
    }
    let (replies, _b) =
        handle_message(&mut node, &mut mempool, &mut orphans, Message::GetBlockHeight);
    match &replies[0] {
        Message::BlockHeight(h) => assert_eq!(*h, 1),
        _ => panic!("expected a height"),
    }
    // a taller peer triggers a pull
    let (replies, _b) =
        handle_message(&mut node, &mut mempool, &mut orphans, Message::BlockHeight(9));
    assert_eq!(replies.len(), 2);
    // an equal peer does not
    let (replies, _b) =
        handle_message(&mut node, &mut mempool, &mut orphans, Message::BlockHeight(1));
    assert_eq!(replies.len(), 0);
}

#[test]
fn transactions_message_rejects_bad_signatures() {
    let miner_a = Address::from_bytes([1u8; 20]);
    let (mut node, _t) = easy_chain_for_gossip(miner_a);
    let mut mempool = Mempool::new();
    let mut orphans: OrphanBuffer = KvMap::new();
    let good = signed(1, 0, 5);
    let mut bad = signed(2, 0, 6);
    bad.signature[3] ^= 1;
    let (_r, broadcasts) = handle_message(
        &mut node,
        &mut mempool,
        &mut orphans,
        Message::Transactions(vec![good.clone(), bad.clone()]),
    );
    assert_eq!(mempool.len(), 1);
    assert!(mempool.contains(&good.hash()));
    assert!(!mempool.contains(&bad.hash()));
    match &broadcasts[0] {
        Message::NewTransactionHashes(hs) => assert_eq!(hs.len(), 1),
        _ => panic!("expected a rebroadcast"),
    }
}

fn easy_chain_for_gossip(addr: Address) -> (Blockchain, H256) {
    let mut chain = Blockchain::new();
    let genesis_hash = chain.tip();
    let mut scratch: NodeStore = KvMap::new();
    let trie = StateTrie::new(&mut scratch);
    let mut upd: KvMap<Address, Account> = KvMap::new();
    upd.insert(addr, Account::new(0, 1000));
    let (root, mut nodes) = trie.insert_batch(&scratch, &upd);
    let empty = minichain::trie::Node::new(minichain::trie::NodeData::Empty);
    nodes.insert(empty.hash, empty.data);
    let filler = Block::new(
        genesis_hash,
        0,
        H256::from_bytes([255u8; 32]),
        1,
        root,
        Transaction::new(0, 0, 0, Address::from_bytes([0u8; 20]), 0, Vec::new()),
        Vec::new(),
    );
    let fh = filler.hash();
    chain.commit_block(&filler, nodes);
    (chain, fh)
}
