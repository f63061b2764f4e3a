//! What can go wrong while a file is cut, parsed and merged.

use vstd::prelude::*;

verus! {

/// Why a line is not a record.
#[derive(Clone, Copy, Debug, PartialEq, Eq, Structural)]
pub enum Fault {
    /// The line holds no separator.
    MissingSeparator,
    /// The text after the first separator is not a decimal number in range.
    InvalidValue,
}

/// A failure that ends the whole run.
#[derive(Clone, Copy, Debug, PartialEq, Eq, Structural)]
pub enum Error {
    /// Reading, seeking or opening the input failed.
    Io,
    /// The chunk with this id ends inside a line although more input
    /// follows: some line is longer than the read window.
    BoundaryOverflow { chunk: usize },
    /// Line `line` (counted from 0) of chunk `chunk` is not a record.
    MalformedRecord { chunk: usize, line: usize, fault: Fault },
    /// Some key was observed more often than a `u64` can count.
    CountOverflow,
    /// A stage ended before the stage it depends on had signalled completion.
    ChannelClosed,
}

} // verus!
