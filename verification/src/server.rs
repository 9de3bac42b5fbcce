//! The server's decisions: which engine serves a data directory, and how a
//! request is answered.  Reading requests from the network and writing the
//! answers is left to the caller.
use vstd::prelude::*;

use crate::engine::kvs_engine::{EngineCall, KvsEngine};
use crate::errors::{is_message_of, KVStoreError};
use crate::request::Request;
use crate::response::Response;

verus! {

/// The storage engines that the server can run.
#[derive(Debug, Clone, Copy, PartialEq, Eq)]
pub enum EngineType {
    KvStore,
    SledKvStore,
}

impl EngineType {
    /// The name of the engine, which also names its data directory: `kvs`
    /// or `sled`.
    pub fn name(&self) -> (r: String)
        ensures
            r@ == match self {
                EngineType::KvStore => "kvs"@,
                EngineType::SledKvStore => "sled"@,
            },
    {
        match self {
            EngineType::KvStore => String::from_str("kvs"),
            EngineType::SledKvStore => String::from_str("sled"),
        }
    }
}

/// Which engine serves the current directory.  `requested` is the engine
/// asked for, if any; `kvs_exists` and `sled_exists` say whether the data
/// directory of each engine is already there.  Without a request, an
/// existing `sled` directory chooses `sled`, and otherwise `kvs`; a request
/// for one engine where the other's directory exists is a
/// `ChangeEngineError`; any request other than `sled` asks for `kvs`.
pub fn choose_engine(requested: Option<String>, kvs_exists: bool, sled_exists: bool) -> (r: Result<
    EngineType,
    KVStoreError,
>)
    ensures
        match requested {
            None => r == Ok::<EngineType, KVStoreError>(
                if sled_exists {
                    EngineType::SledKvStore
                } else {
                    EngineType::KvStore
                },
            ),
            Some(eg) => if eg@ == "sled"@ {
                if kvs_exists {
                    r matches Err(KVStoreError::ChangeEngineError)
                } else {
                    r == Ok::<EngineType, KVStoreError>(EngineType::SledKvStore)
                }
            } else {
                if sled_exists {
                    r matches Err(KVStoreError::ChangeEngineError)
                } else {
                    r == Ok::<EngineType, KVStoreError>(EngineType::KvStore)
                }
            },
        },
{
    match requested {
        None => {
            if sled_exists {
                return Ok(EngineType::SledKvStore);
            }
            Ok(EngineType::KvStore)
        },
        Some(eg) => {
            let sled_name = EngineType::SledKvStore.name();
            if eg == sled_name {
                if kvs_exists {
                    return Err(KVStoreError::ChangeEngineError);
                }
                Ok(EngineType::SledKvStore)
            } else {
                if sled_exists {
                    return Err(KVStoreError::ChangeEngineError);
                }
                Ok(EngineType::KvStore)
            }
        },
    }
}

/// The answer to a request from the engine's result: a success carries the
/// value read, if any; a failure carries the error's message.
pub fn respond(result: Result<Option<String>, KVStoreError>) -> (r: Response)
    ensures
        match result {
            Ok(v) => r == Response::Succeeded(v),
            Err(e) => r matches Response::Failed(m) && is_message_of(e, m@),
        },
{
    match result {
        Ok(v) => Response::Succeeded(v),
        Err(e) => Response::Failed(e.message()),
    }
}

/// `r` answers `request` with the engine, which was `before` and is now
/// `after`: exactly one call is made on it, the one the request names (a
/// read for `GET`, a write for `SET`, a removal for `RM`) with the request's
/// key and value; the answer is what that call returned (the value read, or
/// nothing, on success; the message of its error on failure); and the
/// contents change as the request says where it succeeds.
pub open spec fn serves<E: KvsEngine>(before: E, request: Request, after: E, r: Response) -> bool {
    &&& after.calls().len() == before.calls().len() + 1
    &&& after.calls().drop_last() =~= before.calls()
    &&& match request {
        Request::GET(k) => {
            &&& after.contents() == before.contents()
            &&& r matches Response::Succeeded(v) ==> match v {
                Some(s) => before.contents().contains_key(k@)
                    && s@ == before.contents()[k@],
                None => !before.contents().contains_key(k@),
            }
        },
        Request::SET(k, v) => r matches Response::Succeeded(x) ==> {
            &&& x is None
            &&& after.contents() == before.contents().insert(k@, v@)
        },
        Request::RM(k) => {
            &&& r matches Response::Succeeded(x) ==> {
                &&& x is None
                &&& before.contents().contains_key(k@)
                &&& after.contents() == before.contents().remove(k@)
            }
            &&& !before.contents().contains_key(k@) ==> r is Failed
        },
    }
    &&& match request {
        Request::GET(k) => after.calls().last() matches EngineCall::Read(
            k2,
            o,
        ) && k2 == k@ && match o {
            Ok(v) => r matches Response::Succeeded(a) && match a {
                Some(s) => v == Some(s@),
                None => v is None,
            },
            Err(e) => r matches Response::Failed(m) && is_message_of(e, m@),
        },
        Request::SET(k, v) => after.calls().last() matches EngineCall::Write(
            k2,
            v2,
            o,
        ) && k2 == k@ && v2 == v@ && match o {
            Ok(_) => r == Response::Succeeded(None),
            Err(e) => r matches Response::Failed(m) && is_message_of(e, m@),
        },
        Request::RM(k) => after.calls().last() matches EngineCall::Delete(
            k2,
            o,
        ) && k2 == k@ && match o {
            Ok(_) => r == Response::Succeeded(None),
            Err(e) => r matches Response::Failed(m) && is_message_of(e, m@),
        },
    }
}

/// A `SET` whose write succeeds is answered with success and stores the
/// value, whether or not the key held one before: a key already present is
/// overwritten.
pub proof fn law_set_stores<E: KvsEngine>(before: E, after: E, k: String, v: String, r: Response)
    requires
        serves(before, Request::SET(k, v), after, r),
        after.calls().last() matches EngineCall::Write(_, _, Ok(_)),
    ensures
        r == Response::Succeeded(None),
        after.contents() == before.contents().insert(k@, v@),
        after.contents()[k@] == v@,
{
}

/// A `GET` of a key answers the engine's read: where the read succeeds, a
/// key the engine holds is answered with its value and a key it does not hold
/// with nothing; an answer of failure carries the message of the error that
/// the read returned.
pub proof fn law_get_reads<E: KvsEngine>(before: E, after: E, k: String, r: Response)
    requires
        serves(before, Request::GET(k), after, r),
    ensures
        after.calls().last() matches EngineCall::Read(_, Ok(_)) ==> {
            &&& before.contents().contains_key(k@) ==> (r matches Response::Succeeded(Some(s))
                && s@ == before.contents()[k@])
            &&& !before.contents().contains_key(k@) ==> r == Response::Succeeded(None)
        },
        r matches Response::Failed(m) ==> (after.calls().last() matches EngineCall::Read(_, Err(e))
            && is_message_of(e, m@)),
        after.contents() == before.contents(),
{
}

/// An `RM` of a key the engine holds, whose removal succeeds, is answered
/// with success and drops the key; an answer of failure carries the message
/// of the error that the removal returned, and for `KeyNotFound` the key was
/// absent.
pub proof fn law_remove_drops<E: KvsEngine>(before: E, after: E, k: String, r: Response)
    requires
        serves(before, Request::RM(k), after, r),
    ensures
        after.calls().last() matches EngineCall::Delete(_, Ok(_)) ==> {
            &&& r == Response::Succeeded(None)
            &&& before.contents().contains_key(k@)
            &&& !after.contents().contains_key(k@)
        },
        r matches Response::Failed(m) ==> (after.calls().last() matches EngineCall::Delete(
            _,
            Err(e),
        ) && is_message_of(e, m@)),
{
}

/// Two requests in turn: after a `SET` of a key that succeeded, a `GET` of
/// the same key whose read succeeds answers the value that was set.  A second
/// `SET` of the key thus replaces the first.
pub proof fn law_get_after_set<E: KvsEngine>(
    e0: E,
    e1: E,
    e2: E,
    k: String,
    v: String,
    k2: String,
    r1: Response,
    r2: Response,
)
    requires
        serves(e0, Request::SET(k, v), e1, r1),
        serves(e1, Request::GET(k2), e2, r2),
        k2@ == k@,
        r1 is Succeeded,
        e2.calls().last() matches EngineCall::Read(_, Ok(_)),
    ensures
        r2 matches Response::Succeeded(Some(s)) && s@ == v@,
{
}

/// A single-threaded key/value server over a storage engine.
pub struct KvServer<E: KvsEngine> {
    engine: E,
}

impl<E: KvsEngine> KvServer<E> {
    /// The engine that the server runs.
    pub closed spec fn engine(&self) -> E {
        self.engine
    }

    /// A server over `engine`.
    pub fn new(engine: E) -> (r: Self)
        ensures
            r.engine() == engine,
    {
        KvServer { engine }
    }

    /// Answers one request with the engine: `GET` reads the key, `SET`
    /// stores the value, `RM` removes the key.
    pub fn handle_request(&mut self, request: Request) -> (r: Response)
        ensures
            match request {
                Request::GET(k) => {
                    &&& final(self).engine().contents() == old(self).engine().contents()
                    &&& r matches Response::Succeeded(v) ==> match v {
                        Some(s) => old(self).engine().contents().contains_key(k@)
                            && s@ == old(self).engine().contents()[k@],
                        None => !old(self).engine().contents().contains_key(k@),
                    }
                },
                Request::SET(k, v) => r matches Response::Succeeded(x) ==> {
                    &&& x is None
                    &&& final(self).engine().contents() == old(self).engine().contents().insert(k@, v@)
                },
                Request::RM(k) => {
                    &&& r matches Response::Succeeded(x) ==> {
                        &&& x is None
                        &&& old(self).engine().contents().contains_key(k@)
                        &&& final(self).engine().contents() == old(self).engine().contents().remove(k@)
                    }
                    &&& !old(self).engine().contents().contains_key(k@) ==> r is Failed
                },
            },
            serves(old(self).engine(), request, final(self).engine(), r),
    {
        match request {
            Request::GET(key) => respond(self.engine.get(key)),
            Request::SET(key, value) => match self.engine.set(key, value) {
                Ok(()) => respond(Ok(None)),
                Err(e) => respond(Err(e)),
            },
            Request::RM(key) => match self.engine.remove(key) {
                Ok(()) => respond(Ok(None)),
                Err(e) => respond(Err(e)),
            },
        }
    }
}

} // verus!
