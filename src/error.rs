//! The errors of the decoding direction.
use cesu8::Error as CesuError;
use vstd::prelude::*;

verus! {

/// The error returned when bytes are neither UTF-8 nor MUTF-8.
///
/// It carries no detail on purpose: where MUTF-8 is read at a trust boundary,
/// an input is either taken whole or rejected whole, and the reason is not
/// disclosed.
#[derive(Clone, Copy, Debug, PartialEq, Eq, Structural)]
pub struct Error;

impl Error {
    /// A short description of the error.
    pub fn message(&self) -> (r: &'static str)
        ensures
            r@ == "invalid MUTF-8 data"@,
    {
        "invalid MUTF-8 data"
    }
}

impl From<CesuError> for Error {
    fn from(_e: CesuError) -> (r: Error)
        ensures
            r == Error,
    {
        Error
    }
}

impl vstd::std_specs::convert::FromSpecImpl<CesuError> for Error {
    open spec fn obeys_from_spec() -> bool {
        true
    }

    open spec fn from_spec(v: CesuError) -> Error {
        Error
    }
}

/// The error of converting MUTF-8 data to UTF-8 data, with no detail beyond
/// the fact that it failed.
#[derive(Clone, Copy, Debug, PartialEq, Eq, Structural)]
pub struct DecodingError;

impl DecodingError {
    /// A short description of the error.
    pub fn message(&self) -> (r: &'static str)
        ensures
            r@ == "could not convert MUTF-8 data to UTF-8 data"@,
    {
        "could not convert MUTF-8 data to UTF-8 data"
    }
}

} // verus!
