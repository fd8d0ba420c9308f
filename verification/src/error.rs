use vstd::prelude::*;

verus! {

/// A failure to encode.
#[derive(Debug, Clone, PartialEq, Eq, Structural)]
pub enum Error {
    /// Failed to encode as bytes because the table exceeded 127 items.
    ///
    /// The contained value is the size of the table.
    TableTooLarge(usize),
    /// Failed to encode because an item was not found in the table.
    ///
    /// The contained value is the index of the offending item in the
    /// slice that was being encoded.
    TableMissingItems(usize),
}

} // verus!
