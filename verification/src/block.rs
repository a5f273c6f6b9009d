//! Blocks: a proof-of-work header committing to a parent, a Merkle root
//! over the body, and a state root; the body is the ordered transaction
//! list. The block hash covers the header alone.

use vstd::prelude::*;
use crate::codec::{push_u128_be, push_u32_be, u128_be, u32_be};
use crate::hash::{sha256, sha256_digest, zero_hash, Address, H256};
use crate::kvmap::Dup;
use crate::merkle::{merkle_root_of, MerkleTree};
use crate::transaction::{tx_enc, SignedTransaction, StxView, Transaction, TxView};

verus! {

#[derive(Clone, Debug)]
pub struct Block {
    pub parent: H256,
    pub nonce: u32,
    pub difficulty: H256,
    pub timestamp: u128,
    pub merkle_root: H256,
    pub state_root: H256,
    pub coinbase: Transaction,
    pub data: Vec<SignedTransaction>,
}

/// The mathematical value of a block.
#[verifier::ext_equal]
pub struct BlockView {
    pub parent: Seq<u8>,
    pub nonce: u32,
    pub difficulty: Seq<u8>,
    pub timestamp: u128,
    pub merkle_root: Seq<u8>,
    pub state_root: Seq<u8>,
    pub coinbase: TxView,
    pub data: Seq<StxView>,
}

impl View for Block {
    type V = BlockView;

    open spec fn view(&self) -> BlockView {
        BlockView {
            parent: self.parent@,
            nonce: self.nonce,
            difficulty: self.difficulty@,
            timestamp: self.timestamp,
            merkle_root: self.merkle_root@,
            state_root: self.state_root@,
            coinbase: self.coinbase@,
            data: self.data@.map_values(|t: SignedTransaction| t@),
        }
    }
}

/// The canonical encoding of the header tuple: the block-hash preimage.
/// The body is authenticated only through `merkle_root`.
pub open spec fn header_enc(b: BlockView) -> Seq<u8> {
    b.parent + u32_be(b.nonce) + b.difficulty + u128_be(b.timestamp) + b.merkle_root
        + b.state_root + tx_enc(b.coinbase)
}

/// The block hash: SHA-256 of the header encoding.
pub open spec fn block_hash(b: BlockView) -> Seq<u8> {
    sha256(header_enc(b))
}

/// The fixed difficulty target: first three bytes zero, the rest 0xff.
pub open spec fn genesis_difficulty() -> Seq<u8> {
    Seq::new(32, |i: int| if i < 3 { 0u8 } else { 255u8 })
}

/// The all-zero 20-byte address.
pub open spec fn zero_address() -> Seq<u8> {
    Seq::new(20, |i: int| 0u8)
}

/// The default coinbase of the genesis block.
pub open spec fn genesis_coinbase() -> TxView {
    TxView { nonce: 0, gas_price: 0, gas_limit: 0, to: zero_address(), value: 0, data: Seq::empty() }
}

/// The genesis block over a given state root.
pub open spec fn genesis_view(state_root: Seq<u8>) -> BlockView {
    BlockView {
        parent: zero_hash(),
        nonce: 0,
        difficulty: genesis_difficulty(),
        timestamp: 0,
        merkle_root: merkle_root_of(Seq::empty()),
        state_root,
        coinbase: genesis_coinbase(),
        data: Seq::empty(),
    }
}

impl Block {
    /// Assemble a block; the Merkle root is computed from the body.
    pub fn new(
        parent: H256,
        nonce: u32,
        difficulty: H256,
        timestamp: u128,
        state_root: H256,
        coinbase: Transaction,
        data: Vec<SignedTransaction>,
    ) -> (r: Block)
        ensures
            r@ == (BlockView {
                parent: parent@,
                nonce,
                difficulty: difficulty@,
                timestamp,
                merkle_root: merkle_root_of(data@.map_values(|t: SignedTransaction| t@)),
                state_root: state_root@,
                coinbase: coinbase@,
                data: data@.map_values(|t: SignedTransaction| t@),
            }),
    {
        let tree = MerkleTree::new(&data);
        let merkle_root = tree.root();
        Block { parent, nonce, difficulty, timestamp, merkle_root, state_root, coinbase, data }
    }

    pub fn get_parent(&self) -> (r: H256)
        ensures
            r@ == self@.parent,
    {
        self.parent
    }

    pub fn get_difficulty(&self) -> (r: H256)
        ensures
            r@ == self@.difficulty,
    {
        self.difficulty
    }

    pub fn get_merkle_root(&self) -> (r: H256)
        ensures
            r@ == self@.merkle_root,
    {
        self.merkle_root
    }

    pub fn get_timestamp(&self) -> (r: u128)
        ensures
            r == self@.timestamp,
    {
        self.timestamp
    }

    pub fn get_nonce(&self) -> (r: u32)
        ensures
            r == self@.nonce,
    {
        self.nonce
    }

    pub fn set_nonce(&mut self, nonce: &u32)
        ensures
            final(self)@.nonce == *nonce,
            final(self)@.parent == old(self)@.parent,
            final(self)@.difficulty == old(self)@.difficulty,
            final(self)@.timestamp == old(self)@.timestamp,
            final(self)@.merkle_root == old(self)@.merkle_root,
            final(self)@.state_root == old(self)@.state_root,
            final(self)@.coinbase == old(self)@.coinbase,
            final(self)@.data == old(self)@.data,
    {
        self.nonce = *nonce;
    }

    pub fn set_timestamp(&mut self, timestamp: &u128)
        ensures
            final(self)@.timestamp == *timestamp,
            final(self)@.parent == old(self)@.parent,
            final(self)@.difficulty == old(self)@.difficulty,
            final(self)@.nonce == old(self)@.nonce,
            final(self)@.merkle_root == old(self)@.merkle_root,
            final(self)@.state_root == old(self)@.state_root,
            final(self)@.coinbase == old(self)@.coinbase,
            final(self)@.data == old(self)@.data,
    {
        self.timestamp = *timestamp;
    }

    /// SHA-256 of the canonical header encoding.
    pub fn hash(&self) -> (r: H256)
        ensures
            r@ == block_hash(self@),
    {
        let mut out: Vec<u8> = Vec::new();
        self.parent.append_to(&mut out);
        push_u32_be(&mut out, self.nonce);
        self.difficulty.append_to(&mut out);
        push_u128_be(&mut out, self.timestamp);
        self.merkle_root.append_to(&mut out);
        self.state_root.append_to(&mut out);
        let coinbase_enc = self.coinbase.encode();
        crate::codec::push_bytes(&mut out, &coinbase_enc);
        proof {
            assert(out@ =~= header_enc(self@));
        }
        sha256_digest(&out)
    }

    /// The genesis block: fixed parameters, so every honest node computes
    /// the same genesis hash.
    pub fn genesis(state_root: H256) -> (r: Block)
        ensures
            r@ == genesis_view(state_root@),
    {
        let zero = H256::zero();
        let mut difficulty_bytes = [255u8; 32];
        let mut i: usize = 0;
        while i < 3
            invariant
                i <= 3,
                forall|j: int| 0 <= j < i ==> difficulty_bytes@[j] == 0u8,
                forall|j: int| i <= j < 32 ==> difficulty_bytes@[j] == 255u8,
            decreases 3 - i,
        {
            difficulty_bytes[i] = 0;
            i = i + 1;
        }
        proof {
            assert(difficulty_bytes@ =~= genesis_difficulty());
        }
        let difficulty = H256::from_bytes(difficulty_bytes);
        let data: Vec<SignedTransaction> = Vec::new();
        let tree = MerkleTree::new(&data);
        let merkle_root = tree.root();
        let zero_addr_bytes = [0u8; 20];
        proof {
            assert(zero_addr_bytes@ =~= zero_address());
        }
        let coinbase = Transaction::new(0, 0, 0, Address::from_bytes(zero_addr_bytes), 0, Vec::new());
        proof {
            assert(data@.map_values(|t: SignedTransaction| t@) =~= Seq::<StxView>::empty());
        }
        let r = Block {
            parent: zero,
            nonce: 0,
            difficulty,
            timestamp: 0,
            merkle_root,
            state_root,
            coinbase,
            data,
        };
        proof {
            assert(r@ =~= genesis_view(state_root@));
        }
        r
    }
}

/// Mutating the Merkle root changes the block hash: the header commits to
/// the body's digest. Holds wherever SHA-256 is collision-free.
pub proof fn lemma_block_hash_commits_merkle_root(b1: BlockView, b2: BlockView)
    requires
        crate::hash::sha256_injective(),
        b1.parent.len() == 32,
        b2.parent.len() == 32,
        b1.difficulty.len() == 32,
        b2.difficulty.len() == 32,
        b1.merkle_root.len() == 32,
        b2.merkle_root.len() == 32,
        b1.merkle_root != b2.merkle_root,
    ensures
        block_hash(b1) != block_hash(b2),
{
    if block_hash(b1) == block_hash(b2) {
        assert(header_enc(b1) == header_enc(b2));
        let q1 = b1.parent + u32_be(b1.nonce) + b1.difficulty + u128_be(b1.timestamp);
        let q2 = b2.parent + u32_be(b2.nonce) + b2.difficulty + u128_be(b2.timestamp);
        let pre1 = q1 + b1.merkle_root;
        let pre2 = q2 + b2.merkle_root;
        let suf1 = b1.state_root + tx_enc(b1.coinbase);
        let suf2 = b2.state_root + tx_enc(b2.coinbase);
        assert(header_enc(b1) =~= pre1 + suf1);
        assert(header_enc(b2) =~= pre2 + suf2);
        assert(q1.len() == 84 && q2.len() == 84);
        assert(pre1.len() == pre2.len());
        crate::codec::lemma_concat_split(pre1, suf1, pre2, suf2);
        crate::codec::lemma_concat_split(q1, b1.merkle_root, q2, b2.merkle_root);
        assert(false);
    }
}

impl Dup for Block {
    fn dup(&self) -> (r: Block) {
        let mut data: Vec<SignedTransaction> = Vec::new();
        let mut i: usize = 0;
        while i < self.data.len()
            invariant
                i <= self.data@.len(),
                data@.len() == i,
                forall|j: int| 0 <= j < i ==> #[trigger] data@[j]@ == self.data@[j]@,
            decreases self.data@.len() - i,
        {
            data.push(self.data[i].dup());
            i = i + 1;
        }
        proof {
            assert(data@.map_values(|t: SignedTransaction| t@) =~= self.data@.map_values(
                |t: SignedTransaction| t@,
            ));
        }
        let r = Block {
            parent: self.parent,
            nonce: self.nonce,
            difficulty: self.difficulty,
            timestamp: self.timestamp,
            merkle_root: self.merkle_root,
            state_root: self.state_root,
            coinbase: self.coinbase.dup(),
            data,
        };
        proof {
            assert(r@ =~= self@);
        }
        r
    }
}

} // verus!
