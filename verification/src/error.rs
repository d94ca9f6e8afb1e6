//! The errors of the checked interface.

use vstd::prelude::*;

verus! {

/// Why a checked call did not do its work.
#[derive(Clone, Copy, Debug, PartialEq, Eq, Structural)]
pub enum CodecError {
    /// The buffer is shorter than the longest encoding of the type, so the
    /// call neither read nor wrote it.
    BufferTooSmall,
    /// The type is not one of the supported numeric types. No type that this
    /// crate implements its traits for gives this error.
    UnsupportedType,
}

impl CodecError {
    /// A short description of the error.
    pub fn message(self) -> (text: &'static str)
        ensures
            self == CodecError::BufferTooSmall ==> text@ == "buffer too small"@,
            self == CodecError::UnsupportedType ==> text@ == "unsupported type"@,
    {
        match self {
            CodecError::BufferTooSmall => "buffer too small",
            CodecError::UnsupportedType => "unsupported type",
        }
    }
}

} // verus!
