//! The bodies and status codes with which an HTTP gateway answers for the
//! cluster.

use vstd::prelude::*;

pub mod cluster;

verus! {

/// The errors that the gateway reports.
#[derive(Clone, Copy, Debug, PartialEq, Eq, Structural)]
pub enum HttpError {
    KeyNotFound,
    UnknownError,
    BadRequest,
}

/// The body of a request to store an entry.
#[derive(Clone, Debug, PartialEq)]
pub struct EntryRequestBody {
    pub key: String,
    pub value: String,
}

/// The body of an answer.
#[derive(Clone, Debug, PartialEq)]
pub enum ReplyBody {
    /// The value found for a key.
    Value { value: String },
    /// Whether an entry was stored.
    Stored { success: bool },
    /// What went wrong.
    Failed { error: HttpError },
}

/// An answer of the gateway: the HTTP status code and the body.
#[derive(Clone, Debug, PartialEq)]
pub struct Reply {
    pub status: u16,
    pub body: ReplyBody,
}

} // verus!
