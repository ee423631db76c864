//! The wire-visible error taxonomy of the service.

use vstd::prelude::*;

verus! {

/// Every failure a handler can report, keyed to the HTTP status code that
/// carries it to the client.
#[derive(Clone, Copy, Debug, PartialEq, Eq, Structural)]
pub enum ApiError {
    /// Unknown session, unknown file, or unknown preview host (404).
    NotFound,
    /// Malformed base64, an oversized body, or an invalid path (400).
    BadRequest,
    /// Sandbox creation or destruction failure, or a worker failure (500).
    Internal,
    /// The proxy could not reach or relay the backend (502).
    BadGateway,
}

impl ApiError {
    /// The HTTP status code that reports this error.
    pub fn status_code(&self) -> (r: u16)
        ensures
            *self == ApiError::NotFound ==> r == 404,
            *self == ApiError::BadRequest ==> r == 400,
            *self == ApiError::Internal ==> r == 500,
            *self == ApiError::BadGateway ==> r == 502,
    {
        match self {
            ApiError::NotFound => 404,
            ApiError::BadRequest => 400,
            ApiError::Internal => 500,
            ApiError::BadGateway => 502,
        }
    }
}

} // verus!
