//! Errors of the SGF module.

use vstd::prelude::*;

verus! {

/// What went wrong.
#[derive(Debug, Clone, Copy, PartialEq, Eq, Structural)]
pub enum SgfErrorKind {
    ParseError,
    VariationNotFound,
    InvalidRootTokenPlacement,
}

/// An error of the SGF module.
#[derive(Debug, Clone, Copy, PartialEq, Eq, Structural)]
pub struct SgfError {
    pub kind: SgfErrorKind,
}

impl SgfError {
    /// The error of a kind.
    pub fn from_kind(kind: SgfErrorKind) -> (r: SgfError)
        ensures
            r.kind == kind,
    {
        SgfError { kind }
    }
}

} // verus!
