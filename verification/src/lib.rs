use vstd::prelude::*;

pub mod key;
pub mod block;
pub mod iterator;
pub mod mem_table;
pub mod lsm_iterator;
pub mod lsm_storage;
pub mod table;

verus! {

/// The error classes that the engine surfaces to its callers.
#[derive(Clone, Copy, Debug, PartialEq, Eq)]
pub enum Error {
    /// A file read, write or sync failed.
    Io,
    /// A block, footer or meta section did not decode.
    Format,
    /// `next` was called on an iterator after an earlier failure.
    Tainted,
    /// An empty key, or an empty value handed to a plain write.
    InvalidArgument,
}

} // verus!
