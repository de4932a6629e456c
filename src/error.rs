//! The errors that the library reports.
use vstd::prelude::*;

verus! {

/// An I/O error of std, carried through unchanged.
#[verifier::external_type_specification]
#[verifier::external_body]
pub struct ExIoError(std::io::Error);

/// Errors of this library.
#[derive(Debug)]
pub enum EcError {
    /// A simple error that is described by a string.
    Simple(&'static str),
    /// A GPU kernel execution was aborted.
    Aborted,
    /// An I/O error.
    Io(std::io::Error),
}

/// Result wrapper that always uses [`EcError`] as error.
pub type EcResult<T> = Result<T, EcError>;

impl EcError {
    /// The message that describes the error, where it carries one of its own.
    pub fn describe(&self) -> (r: Option<&'static str>)
        ensures
            r == match self {
                EcError::Simple(m) => Some(*m),
                EcError::Aborted => Some("GPU call was aborted!"),
                EcError::Io(_) => None::<&'static str>,
            },
    {
        match self {
            EcError::Simple(m) => Some(*m),
            EcError::Aborted => Some("GPU call was aborted!"),
            EcError::Io(_) => None,
        }
    }
}

} // verus!
