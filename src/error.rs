//! The errors of the library.

use vstd::prelude::*;

verus! {

/// What can go wrong while reading an image or extracting it.
#[derive(Clone, Debug, PartialEq, Eq)]
pub enum XisoError {
    /// Neither candidate volume offset holds the header magic.
    UnsupportedFormat,
    /// A directory record in the given sector runs past the end of that sector.
    BrokenDirectory { sector: u64 },
    /// After writing, the destination's size differs from the record's size.
    VerificationFailed { path: String },
    /// The remote side answered in a way that cannot be used.
    Remote { reason: String },
}

} // verus!
