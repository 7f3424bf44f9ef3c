//! A tamper-evident ledger of signed blocks arranged as a directed acyclic graph.
//!
//! Blocks are identified by the digest of their content, carry the signature of
//! their author, and are only accepted once every block they refer to has been
//! accepted.

pub mod tangle;

pub use tangle::storage::Tangle;
pub use tangle::storage::TangleError;
