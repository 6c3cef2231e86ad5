//! Why a scan can fail.

use vstd::prelude::*;

verus! {

/// The two ways in which a document can lack the array that a scan looks for.
#[derive(Clone, Copy, Debug, PartialEq, Eq, Structural)]
pub enum ScanError {
    /// The bytes of the key occur nowhere in the buffer.
    AnchorNotFound,
    /// The key occurs, but no `[` stands at or after its first occurrence.
    BracketNotFound,
}

} // verus!
