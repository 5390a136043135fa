//! The closed set of failure kinds shared by encoding and decoding.

use vstd::prelude::*;

use crate::format::{DecodeFault, EncodeFault};

verus! {

/// An encode or decode failure. Every operation is fail-fast: any inner
/// failure unwinds the whole call immediately as one of these values.
#[derive(Debug, Clone, PartialEq, Eq)]
pub enum Error {
    /// A data-level inconsistency found during decoding (a truncated buffer,
    /// an invalid discriminant byte, a broken byte budget), or a payload too
    /// long for its 4-byte length prefix; carries a description.
    Custom(String),
    /// The requested or supplied shape lies outside the supported subset.
    Unimplemented,
    /// A variant index too large for the single wire byte that holds it.
    InvalidData,
}

impl Error {
    /// The human-readable description of this error.
    pub fn message(&self) -> (r: String)
        ensures
            r@ == match self {
                Error::Custom(msg) => msg@,
                Error::Unimplemented => "Unsupported type"@,
                Error::InvalidData => "Invalid data"@,
            },
    {
        match self {
            Error::Custom(msg) => msg.clone(),
            Error::Unimplemented => "Unsupported type".to_owned(),
            Error::InvalidData => "Invalid data".to_owned(),
        }
    }
}

impl From<String> for Error {
    /// Wraps a description as a data-level failure.
    fn from(msg: String) -> (r: Self) {
        Error::Custom(msg)
    }
}

impl vstd::std_specs::convert::FromSpecImpl<String> for Error {
    open spec fn obeys_from_spec() -> bool {
        true
    }

    open spec fn from_spec(msg: String) -> Error {
        Error::Custom(msg)
    }
}

/// Which [`Error`] value an encoder reports for each encode fault. A payload
/// too long for its prefix carries a description, so only its variant is
/// pinned.
pub open spec fn encode_error_matches(f: EncodeFault, e: Error) -> bool {
    match f {
        EncodeFault::Unsupported => e == Error::Unimplemented,
        EncodeFault::IndexTooLarge => e == Error::InvalidData,
        EncodeFault::Oversize => e matches Error::Custom(_),
    }
}

/// Which [`Error`] value a decoder reports for each decode fault. Malformed
/// data carries a description, so only its variant is pinned.
pub open spec fn decode_error_matches(f: DecodeFault, e: Error) -> bool {
    match f {
        DecodeFault::Unsupported => e == Error::Unimplemented,
        DecodeFault::Malformed => e matches Error::Custom(_),
    }
}

} // verus!
