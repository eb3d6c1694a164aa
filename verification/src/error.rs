//! What can go wrong.
use vstd::prelude::*;

verus! {

/// Why an operation cannot go on.
#[derive(Clone, Copy, Debug, PartialEq, Eq, Structural)]
pub enum Error {
    /// A row does not hold a value of its table.
    Codec,
    /// The database was not opened with the column family of an id table.
    NoColumnFamily,
    /// The stored sequence of an id table is not eight bytes long.
    SequenceLength,
    /// The sequence of an id table has reached its end.
    SequenceExhausted,
    /// A record links to a target that has no linkers at all.
    EmptyTarget,
    /// A record links to a target that does not have the record among its linkers.
    MissingLinker,
    /// A row of linkers holds the id of an account above the current sequence.
    ExistingAboveSequence,
    /// Linkers to be merged into a row hold the id of an account above the current sequence.
    NewAboveSequence,
}

}
