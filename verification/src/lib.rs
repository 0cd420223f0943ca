//! HiveDB: an append-only event log with deterministic projections, document
//! collections with secondary indexes, and the bookkeeping of a hybrid search
//! index.

pub mod api;
pub mod bits;
pub mod cache;
pub mod causal;
pub mod clock;
pub mod collections;
pub mod concurrent;
pub mod context;
pub mod db;
pub mod error;
pub mod event;
pub mod harness;
pub mod index;
pub mod json;
pub mod lists;
pub mod log;
pub mod memory;
pub mod projection;
pub mod reactive;
pub mod record;
pub mod shard;
pub mod sorted;
pub mod state;
pub mod text;
