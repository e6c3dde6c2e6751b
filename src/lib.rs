//! The storage engine of a firehose collection index: the key schema of its
//! five partitions, batch ingest, the roll-up of live counts into hourly,
//! weekly and all-time aggregates with rank indexes, deferred account
//! deletes, feed trimming, and the read path.
//!
//! The engine is written as planning functions: each takes what was read
//! from the keyspace and returns the list of inserts and removes to commit
//! atomically, with contracts over a model of the keyspace (`store::Db`).
use vstd::prelude::*;

pub mod batch;
pub mod codec;
pub mod did_ids;
pub mod engine;
pub mod keys;
pub mod maintenance;
pub mod reader;
pub mod rollup;
pub mod sketch;
pub mod store;
pub mod store_types;
pub mod tree;
pub mod types;

verus! {

} // verus!
