//! A verified account-model blockchain core: content-addressed hashing,
//! an authenticated binary radix state trie, Merkle trees over transaction
//! lists, block execution and commitment, a mempool, the miner control
//! machine, and the gossip protocol's message handling.

pub mod account;
pub mod block;
pub mod chain;
pub mod gossip;
pub mod codec;
pub mod hash;
pub mod kvmap;
pub mod mempool;
pub mod merkle;
pub mod miner;
pub mod transaction;
pub mod trie;
pub mod wallet;
