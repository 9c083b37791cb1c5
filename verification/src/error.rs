//! Why a request fails, and what the client is told.

use vstd::prelude::*;

verus! {

/// `std::io::Error`, which an I/O failure carries for the log.
#[verifier::external_type_specification]
#[verifier::external_body]
pub struct ExIoError(std::io::Error);

/// A failed request.
#[derive(Debug)]
pub enum ServeError {
    NotFound,
    Forbidden,
    BadRequest,
    Io(std::io::Error),
}

impl From<std::io::Error> for ServeError {
    fn from(e: std::io::Error) -> (r: Self) {
        ServeError::Io(e)
    }
}

impl vstd::std_specs::convert::FromSpecImpl<std::io::Error> for ServeError {
    open spec fn obeys_from_spec() -> bool {
        true
    }

    open spec fn from_spec(e: std::io::Error) -> Self {
        ServeError::Io(e)
    }
}

/// The HTTP status that answers a failed request.
pub open spec fn error_status(e: ServeError) -> u16 {
    match e {
        ServeError::NotFound => 404,
        ServeError::Forbidden => 403,
        ServeError::BadRequest => 400,
        ServeError::Io(_) => 500,
    }
}

/// The body that answers a failed request.
pub open spec fn error_body(e: ServeError) -> Seq<char> {
    match e {
        ServeError::NotFound => "Not Found"@,
        ServeError::Forbidden => "Forbidden"@,
        ServeError::BadRequest => "Bad Request"@,
        ServeError::Io(_) => "Internal Server Error"@,
    }
}

impl ServeError {
    /// Status and body of the response. The body is one of four fixed texts, so it never
    /// tells a path of the file system.
    pub fn reply(&self) -> (r: (u16, &'static str))
        ensures
            r.0 == error_status(*self),
            r.1@ == error_body(*self),
    {
        match self {
            ServeError::NotFound => (404, "Not Found"),
            ServeError::Forbidden => (403, "Forbidden"),
            ServeError::BadRequest => (400, "Bad Request"),
            ServeError::Io(_) => (500, "Internal Server Error"),
        }
    }
}

} // verus!
