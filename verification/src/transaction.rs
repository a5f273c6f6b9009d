//! Value-transfer transactions, their canonical encoding, and Ed25519
//! signing and verification through trusted wrappers around ring.

use vstd::prelude::*;
use crate::codec::{len_prefixed, push_len_prefixed, push_u64_be, u64_be};
use crate::hash::{address_of_pk, sha256, sha256_digest, Address, H256};
use crate::kvmap::Dup;
use ring::signature::KeyPair;

verus! {

/// An unsigned value transfer: a flat `gas_price * gas_limit` fee is burned
/// from the sender and recovered through the block's coinbase. `data` is an
/// opaque blob, hashed but never interpreted.
#[derive(Clone, Debug)]
pub struct Transaction {
    pub nonce: u64,
    pub gas_price: u64,
    pub gas_limit: u64,
    pub to: Address,
    pub value: u64,
    pub data: Vec<u8>,
}

/// A transaction together with the Ed25519 signature over its canonical
/// encoding and the signer's public key, from which the sender address is
/// derived.
#[derive(Clone, Debug)]
pub struct SignedTransaction {
    pub transaction: Transaction,
    pub signature: Vec<u8>,
    pub public_key: Vec<u8>,
}

/// The mathematical value of a transaction.
pub struct TxView {
    pub nonce: u64,
    pub gas_price: u64,
    pub gas_limit: u64,
    pub to: Seq<u8>,
    pub value: u64,
    pub data: Seq<u8>,
}

/// The mathematical value of a signed transaction.
pub struct StxView {
    pub transaction: TxView,
    pub signature: Seq<u8>,
    pub public_key: Seq<u8>,
}

impl View for Transaction {
    type V = TxView;

    open spec fn view(&self) -> TxView {
        TxView {
            nonce: self.nonce,
            gas_price: self.gas_price,
            gas_limit: self.gas_limit,
            to: self.to@,
            value: self.value,
            data: self.data@,
        }
    }
}

impl View for SignedTransaction {
    type V = StxView;

    open spec fn view(&self) -> StxView {
        StxView {
            transaction: self.transaction@,
            signature: self.signature@,
            public_key: self.public_key@,
        }
    }
}

/// The canonical encoding of an unsigned transaction: the signature domain
/// and the hashing domain.
pub open spec fn tx_enc(t: TxView) -> Seq<u8> {
    u64_be(t.nonce) + u64_be(t.gas_price) + u64_be(t.gas_limit) + t.to + u64_be(t.value)
        + len_prefixed(t.data)
}

/// The hash of an unsigned transaction.
pub open spec fn tx_hash(t: TxView) -> Seq<u8> {
    sha256(tx_enc(t))
}

/// The canonical encoding of a signed transaction: signature and public key
/// are part of the preimage, so re-signing gives a new mempool identity.
pub open spec fn stx_enc(st: StxView) -> Seq<u8> {
    tx_enc(st.transaction) + len_prefixed(st.signature) + len_prefixed(st.public_key)
}

/// The hash of a signed transaction: its identity in the mempool and in
/// Merkle leaves.
pub open spec fn stx_hash(st: StxView) -> Seq<u8> {
    sha256(stx_enc(st))
}

/// The sender of a signed transaction: the address its public key hashes to.
pub open spec fn stx_sender(st: StxView) -> Seq<u8> {
    address_of_pk(st.public_key)
}

/// Whether a signed transaction carries a valid signature over its
/// transaction's canonical encoding.
pub open spec fn stx_valid_sig(st: StxView) -> bool {
    ed25519_verifies(tx_enc(st.transaction), st.public_key, st.signature)
}

impl Transaction {
    pub fn new(nonce: u64, gas_price: u64, gas_limit: u64, to: Address, value: u64, data: Vec<
        u8,
    >) -> (r: Transaction)
        ensures
            r@ == (TxView { nonce, gas_price, gas_limit, to: to@, value, data: data@ }),
    {
        Transaction { nonce, gas_price, gas_limit, to, value, data }
    }

    /// The canonical encoding.
    pub fn encode(&self) -> (r: Vec<u8>)
        ensures
            r@ == tx_enc(self@),
    {
        let mut out: Vec<u8> = Vec::new();
        push_u64_be(&mut out, self.nonce);
        push_u64_be(&mut out, self.gas_price);
        push_u64_be(&mut out, self.gas_limit);
        let to_bytes = self.to.to_bytes();
        let mut i: usize = 0;
        let ghost mid = out@;
        while i < 20
            invariant
                i <= 20,
                to_bytes@ == self.to@,
                out@ == mid + to_bytes@.subrange(0, i as int),
            decreases 20 - i,
        {
            out.push(to_bytes[i]);
            proof {
                assert(out@ =~= mid + to_bytes@.subrange(0, i + 1));
            }
            i = i + 1;
        }
        proof {
            assert(to_bytes@.subrange(0, 20) =~= self.to@);
        }
        push_u64_be(&mut out, self.value);
        push_len_prefixed(&mut out, &self.data);
        proof {
            assert(out@ =~= tx_enc(self@));
        }
        out
    }

    /// SHA-256 of the canonical encoding.
    pub fn hash(&self) -> (r: H256)
        ensures
            r@ == tx_hash(self@),
    {
        let enc = self.encode();
        sha256_digest(&enc)
    }
}

impl Dup for Transaction {
    fn dup(&self) -> (r: Transaction) {
        let mut data: Vec<u8> = Vec::new();
        data.extend_from_slice(self.data.as_slice());
        proof {
            assert(data@ =~= self.data@);
        }
        Transaction {
            nonce: self.nonce,
            gas_price: self.gas_price,
            gas_limit: self.gas_limit,
            to: self.to,
            value: self.value,
            data,
        }
    }
}

impl SignedTransaction {
    /// The canonical encoding of the whole signed object.
    pub fn encode(&self) -> (r: Vec<u8>)
        ensures
            r@ == stx_enc(self@),
    {
        let mut out = self.transaction.encode();
        push_len_prefixed(&mut out, &self.signature);
        push_len_prefixed(&mut out, &self.public_key);
        proof {
            assert(out@ =~= stx_enc(self@));
        }
        out
    }

    /// SHA-256 of the canonical encoding: the mempool identity.
    pub fn hash(&self) -> (r: H256)
        ensures
            r@ == stx_hash(self@),
    {
        let enc = self.encode();
        sha256_digest(&enc)
    }

    /// The address the public key hashes to.
    pub fn sender_address(&self) -> (r: Address)
        ensures
            r@ == stx_sender(self@),
    {
        Address::from_public_key_bytes(&self.public_key)
    }

    /// Whether the signature is a valid Ed25519 signature, by the carried
    /// public key, over the transaction's canonical encoding.
    pub fn verify(&self) -> (r: bool)
        ensures
            r == stx_valid_sig(self@),
    {
        verify(&self.transaction, &self.public_key, &self.signature)
    }
}

impl Dup for SignedTransaction {
    fn dup(&self) -> (r: SignedTransaction) {
        let mut signature: Vec<u8> = Vec::new();
        signature.extend_from_slice(self.signature.as_slice());
        let mut public_key: Vec<u8> = Vec::new();
        public_key.extend_from_slice(self.public_key.as_slice());
        proof {
            assert(signature@ =~= self.signature@);
            assert(public_key@ =~= self.public_key@);
        }
        SignedTransaction { transaction: self.transaction.dup(), signature, public_key }
    }
}

/// Whether an Ed25519 signature by a public key over a message is valid: a
/// function of the three byte strings alone.
pub uninterp spec fn ed25519_verifies(msg: Seq<u8>, pk: Seq<u8>, sig: Seq<u8>) -> bool;

/// The Ed25519 public key that a 32-byte seed determines.
pub uninterp spec fn ed25519_pk_of_seed(seed: Seq<u8>) -> Seq<u8>;

/// The Ed25519 signature that a seed produces over a message: Ed25519
/// signing is deterministic.
pub uninterp spec fn ed25519_sig(seed: Seq<u8>, msg: Seq<u8>) -> Seq<u8>;

/// Relies on ring::signature::UnparsedPublicKey::verify with the ED25519
/// algorithm: acceptance depends on message, public key and signature alone.
#[verifier::external_body]
fn ed25519_verify(msg: &Vec<u8>, public_key: &Vec<u8>, signature: &Vec<u8>) -> (r: bool)
    ensures
        r == ed25519_verifies(msg@, public_key@, signature@),
{
    let key = ring::signature::UnparsedPublicKey::new(
        &ring::signature::ED25519,
        public_key.as_slice(),
    );
    key.verify(msg, signature).is_ok()
}

/// Relies on ring::signature::Ed25519KeyPair::from_seed_unchecked, which
/// accepts every 32-byte seed, and ring::signature::KeyPair::public_key: the
/// 32-byte public key is computed from the seed alone.
#[verifier::external_body]
pub fn ed25519_public_key(seed: &Vec<u8>) -> (r: Vec<u8>)
    requires
        seed@.len() == 32,
    ensures
        r@ == ed25519_pk_of_seed(seed@),
        r@.len() == 32,
{
    let kp = ring::signature::Ed25519KeyPair::from_seed_unchecked(seed).unwrap();
    kp.public_key().as_ref().to_vec()
}

/// Relies on ring::signature::Ed25519KeyPair::{from_seed_unchecked, sign}:
/// Ed25519 signing is deterministic in seed and message, the signature is 64
/// bytes, and it verifies under the key pair's public key.
#[verifier::external_body]
fn ed25519_sign(seed: &Vec<u8>, msg: &Vec<u8>) -> (r: Vec<u8>)
    requires
        seed@.len() == 32,
    ensures
        r@ == ed25519_sig(seed@, msg@),
        r@.len() == 64,
        ed25519_verifies(msg@, ed25519_pk_of_seed(seed@), r@),
{
    let kp = ring::signature::Ed25519KeyPair::from_seed_unchecked(seed).unwrap();
    kp.sign(msg).as_ref().to_vec()
}

/// Sign a transaction's canonical encoding with the key pair a seed
/// determines.
pub fn sign(t: &Transaction, seed: &Vec<u8>) -> (r: Vec<u8>)
    requires
        seed@.len() == 32,
    ensures
        r@ == ed25519_sig(seed@, tx_enc(t@)),
        ed25519_verifies(tx_enc(t@), ed25519_pk_of_seed(seed@), r@),
{
    let msg = t.encode();
    ed25519_sign(seed, &msg)
}

/// Verify a signature over a transaction's canonical encoding.
pub fn verify(t: &Transaction, public_key: &Vec<u8>, signature: &Vec<u8>) -> (r: bool)
    ensures
        r == ed25519_verifies(tx_enc(t@), public_key@, signature@),
{
    let msg = t.encode();
    ed25519_verify(&msg, public_key, signature)
}

} // verus!
