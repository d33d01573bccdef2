//! The messages of the `Cache` and `Cluster` services, and the status with
//! which a call fails.

use vstd::prelude::*;

verus! {

/// The key of an entry.
#[derive(Clone, Debug, PartialEq)]
pub struct Key {
    pub key: String,
}

/// The value of an entry.
#[derive(Clone, Debug, PartialEq)]
pub struct Value {
    pub value: String,
}

/// A key-value pair to store. Either part may be missing on the wire.
#[derive(Clone, Debug, PartialEq)]
pub struct Entry {
    pub key: Option<Key>,
    pub value: Option<Value>,
}

/// The answer to a lookup.
#[derive(Clone, Debug, PartialEq)]
pub struct GetResponse {
    pub value: Option<Value>,
}

/// The answer to a store.
#[derive(Clone, Debug, PartialEq)]
pub struct PutResponse {}

/// A health probe.
#[derive(Clone, Debug, PartialEq)]
pub struct PingRequest {}

/// The health of a node.
#[derive(Clone, Copy, Debug, PartialEq, Eq, Structural)]
pub enum Pong {
    Serving,
}

/// The answer to a health probe.
#[derive(Clone, Debug, PartialEq)]
pub struct PongResponse {
    pub pong: Pong,
}

/// Why a call failed, by kind.
#[derive(Clone, Copy, Debug, PartialEq, Eq, Structural)]
pub enum Code {
    Unknown,
    InvalidArgument,
    NotFound,
    FailedPrecondition,
    Internal,
}

/// The failure of a call: its kind and a message for the caller.
#[derive(Clone, Debug, PartialEq)]
pub struct Status {
    pub code: Code,
    pub message: String,
}

impl Status {
    /// A status of the given kind with the given message.
    pub fn new(code: Code, message: &str) -> (status: Self)
        ensures
            status.code == code,
            status.message@ == message@,
    {
        Status { code, message: String::from_str(message) }
    }

    /// The requested entity was not found.
    pub fn not_found(message: &str) -> (status: Self)
        ensures
            status.code == Code::NotFound,
            status.message@ == message@,
    {
        Status::new(Code::NotFound, message)
    }

    /// The caller sent an argument that cannot be served.
    pub fn invalid_argument(message: &str) -> (status: Self)
        ensures
            status.code == Code::InvalidArgument,
            status.message@ == message@,
    {
        Status::new(Code::InvalidArgument, message)
    }

    /// The system is not in a state in which the call can be served.
    pub fn failed_precondition(message: &str) -> (status: Self)
        ensures
            status.code == Code::FailedPrecondition,
            status.message@ == message@,
    {
        Status::new(Code::FailedPrecondition, message)
    }

    /// An invariant of the serving side is broken.
    pub fn internal(message: &str) -> (status: Self)
        ensures
            status.code == Code::Internal,
            status.message@ == message@,
    {
        Status::new(Code::Internal, message)
    }

    /// A failure of no other kind.
    pub fn unknown(message: &str) -> (status: Self)
        ensures
            status.code == Code::Unknown,
            status.message@ == message@,
    {
        Status::new(Code::Unknown, message)
    }
}

} // verus!
