//! The ways an edit can be refused.

use vstd::prelude::*;

verus! {

/// Why an edit or a read was refused. A refused call changes nothing.
#[derive(Clone, Copy, Debug, PartialEq, Eq, Structural)]
pub enum EditError {
    /// The position lies beyond the end of the document.
    OutOfBounds,
    /// The position lies inside the document, but the range that begins
    /// there does not end inside it.
    InvalidRange,
    /// The text to insert holds a value that is no Unicode scalar value.
    EncodingError,
}

} // verus!
