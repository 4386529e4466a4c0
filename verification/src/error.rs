//! The failures that table handling can report.

use vstd::prelude::*;

verus! {

/// Why an operation on a table or an integer slice was refused.
#[derive(Debug, Clone, Copy, PartialEq, Eq, Structural)]
pub enum Error {
    /// The image is shorter than a header, or its size disagrees with the header.
    BadHeader,
    /// An integer slice is neither 4 nor 8 bytes long.
    UnsupportedWidth,
    /// A 64-bit tagged integer was narrowed to 32 bits.
    KindMismatch,
    /// A record was written to a table that already holds `len` records.
    TableFull,
    /// A sequential reader has handed out every record.
    EndOfTable,
}

} // verus!
