//! Errors surfaced by the log's parsing and reading operations.

use vstd::prelude::*;

verus! {

/// What went wrong while parsing or reading log data.
#[derive(Debug, Copy, Clone, PartialEq, Eq, Structural)]
pub enum WalError {
    /// A magic number did not match, an overhead record expected valid was not,
    /// or a verified read found a checksum mismatch.
    InvalidData,
    /// Fewer bytes were present than the format requires.
    UnexpectedEof,
}

} // verus!
