//! Errors of shape and layout validation.
use vstd::prelude::*;

verus! {

/// What went wrong when a shape, stride or range was checked.
#[derive(Clone, Copy, Debug, PartialEq, Eq, Structural)]
pub enum ErrorKind {
    /// incompatible shape
    IncompatibleShape,
    /// incompatible memory layout
    IncompatibleLayout,
    /// the shape does not fit inside type limits
    RangeLimited,
    /// out of bounds indexing
    OutOfBounds,
    /// aliasing array elements
    Unsupported,
    /// overflow when computing offset, length, etc.
    Overflow,
}

/// An error related to array shape or layout.
#[derive(Clone, Copy, Debug, PartialEq, Eq, Structural)]
pub struct ShapeError {
    repr: ErrorKind,
}

impl ShapeError {
    pub closed spec fn spec_kind(&self) -> ErrorKind {
        self.repr
    }

    /// Return the `ErrorKind` of this error.
    pub fn kind(&self) -> (r: ErrorKind)
        ensures
            r == self.spec_kind(),
    {
        self.repr
    }

    /// Create a new `ShapeError` of the given kind.
    pub fn from_kind(kind: ErrorKind) -> (r: ShapeError)
        ensures
            r.spec_kind() == kind,
    {
        ShapeError { repr: kind }
    }
}

} // verus!
