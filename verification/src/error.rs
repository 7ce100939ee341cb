//! The error taxonomy shared by every component.

use crate::uiaa::UiaaInfo;
use vstd::prelude::*;

verus! {

/// The Matrix error code carried by a caller-facing validation failure.
#[derive(Clone, Copy, Debug, PartialEq, Eq, Structural)]
pub enum ErrorKind {
    Forbidden,
    InvalidUsername,
    UserInUse,
    MissingParam,
    InvalidParam,
    NotFound,
    Unrecognized,
    BadJson,
}

/// What went wrong, by kind.
#[derive(Debug)]
pub enum Error {
    /// Missing or invalid configuration; fatal at startup.
    BadConfig(&'static str),
    /// Persisted bytes fail to decode.
    BadDatabase(&'static str),
    /// Caller-facing validation failure.
    BadRequest(ErrorKind, &'static str),
    /// A unique-constraint collision that is expected under concurrency.
    Conflict(&'static str),
    /// Not a failure: an auth challenge the client must complete.
    Uiaa(UiaaInfo),
}

impl Error {
    /// A database error with the given message.
    pub fn bad_database(message: &'static str) -> (e: Error)
        ensures
            e == Error::BadDatabase(message),
    {
        Error::BadDatabase(message)
    }

    /// A configuration error with the given message.
    pub fn bad_config(message: &'static str) -> (e: Error)
        ensures
            e == Error::BadConfig(message),
    {
        Error::BadConfig(message)
    }

    /// The literal message this error was built with.
    pub fn message(&self) -> (m: &'static str)
        ensures
            m == match *self {
                Error::BadConfig(s) => s,
                Error::BadDatabase(s) => s,
                Error::BadRequest(_, s) => s,
                Error::Conflict(s) => s,
                Error::Uiaa(_) => "User-Interactive Authentication required.",
            },
    {
        match self {
            Error::BadConfig(s) => s,
            Error::BadDatabase(s) => s,
            Error::BadRequest(_, s) => s,
            Error::Conflict(s) => s,
            Error::Uiaa(_) => "User-Interactive Authentication required.",
        }
    }
}

} // verus!
