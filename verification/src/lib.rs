//! Verified core of a ledger transaction indexer: it locates the oldest
//! block a node still serves, partitions the unindexed range into windows,
//! drives each window through fetch/retry/decode steps, persists decoded
//! cross-chain transfer messages into a sorted key-value store under a
//! height-ordered composite key, and answers range queries over that store.

pub mod bootstrap;
pub mod decode;
pub mod digits;
pub mod encoding;
pub mod keys;
pub mod messages;
pub mod persist;
pub mod query;
pub mod schedule;
pub mod store;
pub mod worker;
