//! The ways in which a table operation fails.

use vstd::prelude::*;

verus! {

/// Why a column could not be used.
#[derive(Debug, PartialEq, Eq)]
pub enum IndexError {
    /// No header of the table carries this name.
    ColumnNotFound { column: String },
    /// The position lies at or past the number of headers.
    IndexOutOfRange { index: usize },
}

} // verus!
