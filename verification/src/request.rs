use vstd::prelude::*;

verus! {

/// A request that a client sends to the server.
#[derive(Debug)]
pub enum Request {
    SET(String, String),
    RM(String),
    GET(String),
}

} // verus!
