//! A forensic evidence store for a Byzantine-fault-tolerant consensus
//! protocol: quorum certificates and nil-block flags are kept in a durable
//! key-value log, and an in-memory round index, rebuilt from the log at open
//! time, serves per-round queries for after-the-fact safety analysis.

pub mod errors;
pub mod hash_value;
pub mod records;
pub mod log;
pub mod index;
pub mod store;
