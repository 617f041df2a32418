//! The failure modes of the tree.
use vstd::prelude::*;

verus! {

/// Every way an operation of the tree can fail.
#[derive(Debug)]
pub enum BTreeError {
    /// The key is not in the tree.
    KeyNotFound,
    /// Reading or writing the backing storage failed; the message says why.
    Io(String),
    /// A node could not be encoded or decoded; the message says why.
    Serialization(String),
    /// A page does not hold what the tree expects there.
    CorruptPage { page_id: u64 },
    /// No page id is left to allocate.
    PagerFull { max: u64 },
    /// The minimum degree is below 2.
    InvalidOrder { got: usize },
}

} // verus!
