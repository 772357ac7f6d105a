use vstd::prelude::*;

verus! {

/// The result code that opens every reply of the daemon.
#[derive(Debug, Clone, Copy, PartialEq, Eq, Structural)]
pub enum Status {
    Success,
    Unsupported,
    Cancelled,
    DeviceBusy,
    Invalid,
    Eof,
    Jammed,
    NoDocs,
    CoverOpen,
    IoError,
    NoMem,
    AccessDenied,
    /// A well-formed code outside the known set.
    Unknown(i32),
}

/// The status named by a wire code; total, unknown codes are kept as they are.
pub open spec fn status_of(code: i32) -> Status {
    if code == 0 {
        Status::Success
    } else if code == 1 {
        Status::Unsupported
    } else if code == 2 {
        Status::Cancelled
    } else if code == 3 {
        Status::DeviceBusy
    } else if code == 4 {
        Status::Invalid
    } else if code == 5 {
        Status::Eof
    } else if code == 6 {
        Status::Jammed
    } else if code == 7 {
        Status::NoDocs
    } else if code == 8 {
        Status::CoverOpen
    } else if code == 9 {
        Status::IoError
    } else if code == 10 {
        Status::NoMem
    } else if code == 11 {
        Status::AccessDenied
    } else {
        Status::Unknown(code)
    }
}

impl From<i32> for Status {
    fn from(code: i32) -> (r: Status)
        ensures
            r == status_of(code),
    {
        match code {
            0 => Status::Success,
            1 => Status::Unsupported,
            2 => Status::Cancelled,
            3 => Status::DeviceBusy,
            4 => Status::Invalid,
            5 => Status::Eof,
            6 => Status::Jammed,
            7 => Status::NoDocs,
            8 => Status::CoverOpen,
            9 => Status::IoError,
            10 => Status::NoMem,
            11 => Status::AccessDenied,
            other => Status::Unknown(other),
        }
    }
}

impl vstd::std_specs::convert::FromSpecImpl<i32> for Status {
    open spec fn obeys_from_spec() -> bool {
        true
    }

    open spec fn from_spec(code: i32) -> Status {
        status_of(code)
    }
}

} // verus!
