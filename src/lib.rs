//! Inconsistent Replication: replicas accept operations in any order and
//! clients settle consistency from the replicas' answers. This crate holds
//! the protocol logic: quorum decisions, the per-replica record, the
//! replica's and the client's state machines, and the record merge of a
//! view change.

pub mod client;
pub mod compute;
pub mod merge;
pub mod order;
pub mod quorum;
pub mod record;
pub mod replica;
pub mod types;
