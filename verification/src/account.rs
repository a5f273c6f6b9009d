//! Account state: a replay-protection nonce and a balance. An account's
//! hash is the SHA-256 digest of `nonce || balance`, both big-endian.

use vstd::prelude::*;
use crate::codec::{lemma_u64_be_pair_injective, push_u64_be, u64_be};
use crate::hash::{sha256, sha256_digest, H256};

verus! {

#[derive(Clone, Copy, Debug, PartialEq, Eq)]
pub struct Account {
    pub nonce: u64,
    pub balance: u64,
}

/// The canonical encoding hashed to form an account's digest.
pub open spec fn account_enc(a: Account) -> Seq<u8> {
    u64_be(a.nonce) + u64_be(a.balance)
}

/// The digest that a leaf of the state trie commits to.
pub open spec fn account_hash(a: Account) -> Seq<u8> {
    sha256(account_enc(a))
}

impl Account {
    pub fn new(nonce: u64, balance: u64) -> (r: Account)
        ensures
            r == (Account { nonce, balance }),
    {
        Account { nonce, balance }
    }

    /// SHA-256 of the canonical encoding.
    pub fn hash(&self) -> (r: H256)
        ensures
            r@ == account_hash(*self),
    {
        let mut bytes: Vec<u8> = Vec::new();
        push_u64_be(&mut bytes, self.nonce);
        push_u64_be(&mut bytes, self.balance);
        proof {
            assert(bytes@ =~= account_enc(*self));
        }
        sha256_digest(&bytes)
    }
}

impl Default for Account {
    /// The empty account: never used, never funded.
    fn default() -> (r: Account)
        ensures
            r == (Account { nonce: 0, balance: 0 }),
    {
        Account { nonce: 0, balance: 0 }
    }
}

impl View for Account {
    type V = Account;

    open spec fn view(&self) -> Account {
        *self
    }
}

impl crate::kvmap::Dup for Account {
    fn dup(&self) -> (r: Account) {
        *self
    }
}

/// Distinct accounts have distinct canonical encodings.
pub proof fn lemma_account_enc_injective(a: Account, b: Account)
    requires
        account_enc(a) == account_enc(b),
    ensures
        a == b,
{
    lemma_u64_be_pair_injective(a.nonce, a.balance, b.nonce, b.balance);
}

} // verus!
