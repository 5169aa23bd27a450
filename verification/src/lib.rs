//! An embeddable key-value store: two storage backends behind one contract,
//! compression at rest, TTL expiration, a secondary value index, a small
//! condition-based query language, and snapshot persistence.

pub mod error;
pub mod types;
pub mod codec;
pub mod storage;
pub mod btree;
pub mod hashmap;
pub mod index;
pub mod query;
pub mod database;
pub mod laws;
pub mod snapshot;
