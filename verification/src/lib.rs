//! In-memory Merkle persistence core: a bounded, left-leaning, append-only
//! Merkle tree with prefix trimming, and a write-behind database wrapper that
//! queues committed tree patches and serves consistent reads over the queue.

pub mod hash;
pub mod merkle;
pub mod types;
pub mod database;
pub mod parallel;
