use vstd::prelude::*;

use crate::errors::KVStoreError;

verus! {

/// The server's answer to a request.
#[derive(Debug)]
pub enum Response {
    /// The request succeeded, with the value read, if any.
    Succeeded(Option<String>),
    /// The request failed, with the error's message.
    Failed(String),
}

impl Response {
    /// What the client makes of the answer: the value of a success, or a
    /// `ServerError` that carries the server's message.
    pub fn into_result(self) -> (r: Result<Option<String>, KVStoreError>)
        ensures
            match self {
                Response::Succeeded(v) => r == Ok::<Option<String>, KVStoreError>(v),
                Response::Failed(m) => r matches Err(KVStoreError::ServerError(s)) && s == m,
            },
    {
        match self {
            Response::Succeeded(v) => Ok(v),
            Response::Failed(m) => Err(KVStoreError::ServerError(m)),
        }
    }
}

} // verus!
