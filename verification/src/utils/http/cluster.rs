//! How the gateway turns its requests into cluster calls and the outcomes of
//! those calls into answers.

use super::{EntryRequestBody, HttpError, Reply, ReplyBody};
use crate::rpc::{Entry, GetResponse, Key, PutResponse, Status, Value};
use vstd::prelude::*;

verus! {

/// The lookup that `GET /entry/{key}` asks for.
pub fn key_of(path: String) -> (key: Key)
    ensures
        key.key == path,
{
    Key { key: path }
}

/// The answer to `GET /entry/{key}`: 200 with the value that the cluster
/// found, 500 where the cluster answered without a value, 404 where the
/// call failed.
pub fn get(outcome: Result<GetResponse, Status>) -> (reply: Reply)
    ensures
        match outcome {
            Ok(response) => match response.value {
                Some(value) => reply.status == 200 && reply.body == (ReplyBody::Value { value: value.value }),
                None => reply.status == 500 && reply.body == (ReplyBody::Failed {
                    error: HttpError::UnknownError,
                }),
            },
            Err(_) => reply.status == 404 && reply.body == (ReplyBody::Failed { error: HttpError::KeyNotFound }),
        },
{
    match outcome {
        Ok(response) => {
            if let Some(value) = response.value {
                Reply { status: 200, body: ReplyBody::Value { value: value.value } }
            } else {
                Reply { status: 500, body: ReplyBody::Failed { error: HttpError::UnknownError } }
            }
        },
        Err(_) => Reply { status: 404, body: ReplyBody::Failed { error: HttpError::KeyNotFound } },
    }
}

/// The entry that the body of `POST /entry` asks to store.
pub fn entry_of(body: EntryRequestBody) -> (entry: Entry)
    ensures
        entry == (Entry { key: Some(Key { key: body.key }), value: Some(Value { value: body.value }) }),
{
    Entry { key: Some(Key { key: body.key }), value: Some(Value { value: body.value }) }
}

/// The answer to `POST /entry`: 200 where the cluster stored the entry,
/// 400 where the call failed.
pub fn save(outcome: Result<PutResponse, Status>) -> (reply: Reply)
    ensures
        match outcome {
            Ok(_) => reply.status == 200 && reply.body == (ReplyBody::Stored { success: true }),
            Err(_) => reply.status == 400 && reply.body == (ReplyBody::Failed { error: HttpError::BadRequest }),
        },
{
    match outcome {
        Ok(_) => Reply { status: 200, body: ReplyBody::Stored { success: true } },
        Err(_) => Reply { status: 400, body: ReplyBody::Failed { error: HttpError::BadRequest } },
    }
}

} // verus!
