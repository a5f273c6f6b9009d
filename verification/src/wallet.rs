//! A wallet: an Ed25519 seed and the public key it determines. It builds
//! and signs transactions locally; the current account nonce must be
//! supplied by whoever queried the chain.

use vstd::prelude::*;
use crate::hash::{address_of_pk, Address};
use crate::transaction::{
    ed25519_pk_of_seed, ed25519_public_key, ed25519_sig, sign, stx_valid_sig, tx_enc,
    SignedTransaction, Transaction, TxView,
};

verus! {

pub struct Wallet {
    seed: Vec<u8>,
    public_key: Vec<u8>,
}

impl Wallet {
    /// The key pair is the one the 32-byte seed determines.
    pub closed spec fn wf(&self) -> bool {
        &&& self.seed@.len() == 32
        &&& self.public_key@ == ed25519_pk_of_seed(self.seed@)
    }

    /// The seed this wallet signs with.
    pub closed spec fn seed_view(&self) -> Seq<u8> {
        self.seed@
    }

    /// A wallet over a 32-byte private key seed; any other length is
    /// rejected.
    pub fn new(seed: Vec<u8>) -> (r: Option<Wallet>)
        ensures
            match r {
                Some(w) => seed@.len() == 32 && w.wf() && w.seed_view() == seed@,
                None => seed@.len() != 32,
            },
    {
        if seed.len() != 32 {
            return None;
        }
        let public_key = ed25519_public_key(&seed);
        Some(Wallet { seed, public_key })
    }

    /// The signing key's public half.
    pub fn get_public_key_bytes(&self) -> (r: Vec<u8>)
        requires
            self.wf(),
        ensures
            r@ == ed25519_pk_of_seed(self.seed_view()),
    {
        let mut out: Vec<u8> = Vec::new();
        crate::codec::push_bytes(&mut out, &self.public_key);
        proof {
            assert(out@ =~= self.public_key@);
        }
        out
    }

    /// The address this wallet's public key hashes to.
    pub fn get_my_address(&self) -> (r: Address)
        requires
            self.wf(),
        ensures
            r@ == address_of_pk(ed25519_pk_of_seed(self.seed_view())),
    {
        Address::from_public_key_bytes(&self.public_key)
    }

    /// Build and sign a transfer. The wire nonce is the account's current
    /// nonce plus one; the data blob is empty.
    pub fn create_signed_transaction(
        &self,
        receiver: Address,
        amount: u64,
        fee_price: u64,
        fee_limit: u64,
        nonce: u64,
    ) -> (r: SignedTransaction)
        requires
            self.wf(),
            nonce < u64::MAX,
        ensures
            r@.transaction == (TxView {
                nonce: (nonce + 1) as u64,
                gas_price: fee_price,
                gas_limit: fee_limit,
                to: receiver@,
                value: amount,
                data: Seq::empty(),
            }),
            r@.public_key == ed25519_pk_of_seed(self.seed_view()),
            r@.signature == ed25519_sig(self.seed_view(), tx_enc(r@.transaction)),
            stx_valid_sig(r@),
    {
        let t = Transaction::new(nonce + 1, fee_price, fee_limit, receiver, amount, Vec::new());
        proof {
            assert(t@.data =~= Seq::<u8>::empty());
        }
        let signature = sign(&t, &self.seed);
        let public_key = self.get_public_key_bytes();
        SignedTransaction { transaction: t, signature, public_key }
    }
}

} // verus!
