use vstd::prelude::*;

use crate::status::Status;

verus! {

#[verifier::external_type_specification]
#[verifier::external_body]
pub struct ExFromUtf8Error(std::string::FromUtf8Error);

#[verifier::external_type_specification]
#[verifier::external_body]
pub struct ExIoError(std::io::Error);

/// Why an operation on the protocol stream failed.
#[derive(Debug)]
pub enum Error {
    /// The daemon answered with a status other than `Success`.
    SanedError(Status),
    /// The bytes do not follow the wire format.
    BadNetworkDataError(String),
    /// A string field does not hold UTF-8 text.
    FromUtf8Error(std::string::FromUtf8Error),
    /// The transport failed.
    IOError(std::io::Error),
    /// The reply ended before the field being read was complete.
    Truncated,
}

/// The class of a failure, as contracts speak of it.
#[derive(Debug, Clone, Copy, PartialEq, Eq, Structural)]
pub enum Fault {
    Status(Status),
    Malformed,
    NotText,
    Transport,
    Truncated,
}

impl Error {
    pub open spec fn fault(self) -> Fault {
        match self {
            Error::SanedError(s) => Fault::Status(s),
            Error::BadNetworkDataError(_) => Fault::Malformed,
            Error::FromUtf8Error(_) => Fault::NotText,
            Error::IOError(_) => Fault::Transport,
            Error::Truncated => Fault::Truncated,
        }
    }
}

impl From<Status> for Error {
    fn from(status: Status) -> (r: Error)
        ensures
            r == Error::SanedError(status),
    {
        Error::SanedError(status)
    }
}

impl vstd::std_specs::convert::FromSpecImpl<Status> for Error {
    open spec fn obeys_from_spec() -> bool {
        true
    }

    open spec fn from_spec(status: Status) -> Error {
        Error::SanedError(status)
    }
}

impl From<std::string::FromUtf8Error> for Error {
    fn from(error: std::string::FromUtf8Error) -> (r: Error)
        ensures
            r == Error::FromUtf8Error(error),
    {
        Error::FromUtf8Error(error)
    }
}

impl vstd::std_specs::convert::FromSpecImpl<std::string::FromUtf8Error> for Error {
    open spec fn obeys_from_spec() -> bool {
        true
    }

    open spec fn from_spec(error: std::string::FromUtf8Error) -> Error {
        Error::FromUtf8Error(error)
    }
}

impl From<std::io::Error> for Error {
    fn from(error: std::io::Error) -> (r: Error)
        ensures
            r == Error::IOError(error),
    {
        Error::IOError(error)
    }
}

impl vstd::std_specs::convert::FromSpecImpl<std::io::Error> for Error {
    open spec fn obeys_from_spec() -> bool {
        true
    }

    open spec fn from_spec(error: std::io::Error) -> Error {
        Error::IOError(error)
    }
}

/// Whether `r` is a failure of class `f`.
pub open spec fn fails_with<T>(r: Result<T, Error>, f: Fault) -> bool {
    r matches Err(e) && e.fault() == f
}

/// Whether `r` is what a decoding step that gives `s` calls for: the value it
/// describes, or a failure of the class it names.
pub open spec fn agrees<T: View>(r: Result<T, Error>, s: Result<T::V, Fault>) -> bool {
    match s {
        Ok(v) => r matches Ok(x) && x@ == v,
        Err(f) => fails_with(r, f),
    }
}

} // verus!
