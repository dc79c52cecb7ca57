use vstd::prelude::*;

verus! {

/// The closed set of failure kinds that the codec reports.
#[derive(Debug, Clone, Copy, PartialEq, Eq, Structural)]
pub enum Error {
    Error,
    OutOfMemory,
    NotCompressible,
    InputOverrun,
    OutputOverrun,
    LookbehindOverrun,
    EOFNotFound,
    InputNotConsumed,
    NotYetImplemented,
    InvalidArgument,
    InvalidAlignment,
    OutputNotConsumed,
    InternalError,
}

impl Error {
    /// The failure kind that a numeric status stands for. Every status
    /// without a kind of its own, zero and the positive ones included, is
    /// the generic failure.
    pub open spec fn of_code(code: int) -> Error {
        if code == -2 {
            Error::OutOfMemory
        } else if code == -3 {
            Error::NotCompressible
        } else if code == -4 {
            Error::InputOverrun
        } else if code == -5 {
            Error::OutputOverrun
        } else if code == -6 {
            Error::LookbehindOverrun
        } else if code == -7 {
            Error::EOFNotFound
        } else if code == -8 {
            Error::InputNotConsumed
        } else if code == -9 {
            Error::NotYetImplemented
        } else if code == -10 {
            Error::InvalidArgument
        } else if code == -11 {
            Error::InvalidAlignment
        } else if code == -12 {
            Error::OutputNotConsumed
        } else if code == -99 {
            Error::InternalError
        } else {
            Error::Error
        }
    }

    /// What a numeric status says of a call: zero is success, any other
    /// status the failure kind that it stands for.
    pub open spec fn of_status(code: int) -> Result<(), Error> {
        if code == 0 {
            Ok(())
        } else {
            Err(Error::of_code(code))
        }
    }

    /// Reads the numeric status of a call.
    pub fn from_status(code: i32) -> (outcome: Result<(), Error>)
        ensures
            outcome == Error::of_status(code as int),
    {
        if code == 0 {
            Ok(())
        } else {
            Err(Error::from_code(code))
        }
    }

    /// Gives the failure kind that a numeric status stands for.
    pub fn from_code(code: i32) -> (kind: Error)
        ensures
            kind == Error::of_code(code as int),
    {
        match code {
            -2 => Error::OutOfMemory,
            -3 => Error::NotCompressible,
            -4 => Error::InputOverrun,
            -5 => Error::OutputOverrun,
            -6 => Error::LookbehindOverrun,
            -7 => Error::EOFNotFound,
            -8 => Error::InputNotConsumed,
            -9 => Error::NotYetImplemented,
            -10 => Error::InvalidArgument,
            -11 => Error::InvalidAlignment,
            -12 => Error::OutputNotConsumed,
            -99 => Error::InternalError,
            _ => Error::Error,
        }
    }
}

} // verus!
