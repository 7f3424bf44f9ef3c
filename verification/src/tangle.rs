//! The ledger and what it is made of.

pub mod block;
pub mod canonical;
pub mod digest;
pub mod encoding;
pub mod graph;
pub mod keys;
pub mod ledger;
pub mod signature;
pub mod storage;
