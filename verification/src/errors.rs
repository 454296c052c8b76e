//! The error taxonomy of the store: a closed set of four conditions.

use vstd::prelude::*;

verus! {

/// Everything that can go wrong in the store.
#[derive(Debug)]
pub enum KvsError {
    /// A filesystem operation failed. The engine itself performs no file
    /// operations; an embedder reports its failures through this variant.
    Io(String),
    /// A record could not be encoded or decoded; a truncated or malformed
    /// tail of a log file lands here.
    Serde(String),
    /// `remove` was asked for a key that is not in the store; carries the
    /// key.
    KeyNotFound(String),
    /// A locator resolved to a record whose variant or key did not match
    /// the queried key: the index and the logs diverge; carries the key.
    UnexpectedCommandType(String),
}

} // verus!
