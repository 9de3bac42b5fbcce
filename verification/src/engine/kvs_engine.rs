//! The storage interface that the server calls.
use vstd::prelude::*;

use crate::errors::KVStoreError;

verus! {

/// A call made on an engine, with the key and value handed to it and what it
/// returned.
pub enum EngineCall {
    /// A `get` of the key.
    Read(Seq<char>, Result<Option<Seq<char>>, KVStoreError>),
    /// A `set` of the key to the value.
    Write(Seq<char>, Seq<char>, Result<(), KVStoreError>),
    /// A `remove` of the key.
    Delete(Seq<char>, Result<(), KVStoreError>),
}

/// What a read returned, with the value taken by its view.
pub open spec fn read_outcome(r: Result<Option<String>, KVStoreError>) -> Result<
    Option<Seq<char>>,
    KVStoreError,
> {
    match r {
        Ok(Some(s)) => Ok(Some(s@)),
        Ok(None) => Ok(None),
        Err(e) => Err(e),
    }
}

/// A key/value storage engine: the server stores, reads and removes string
/// values under string keys through it.  Its contents are a map from keys to
/// values; each method says what it does to them when it succeeds.
pub trait KvsEngine {
    /// The contents of the engine.
    spec fn contents(&self) -> Map<Seq<char>, Seq<char>>;

    /// The calls made on the engine so far, in order, each with its result.
    spec fn calls(&self) -> Seq<EngineCall>;

    /// Stores `value` under `key`, replacing any value there.
    fn set(&mut self, key: String, value: String) -> (r: Result<(), KVStoreError>)
        ensures
            r is Ok ==> final(self).contents() == old(self).contents().insert(key@, value@),
            final(self).calls() == old(self).calls().push(EngineCall::Write(key@, value@, r)),
    ;

    /// The value under `key`, or `None` where the key is not in the engine.
    /// Reading changes nothing, whether it succeeds or not.
    fn get(&mut self, key: String) -> (r: Result<Option<String>, KVStoreError>)
        ensures
            final(self).contents() == old(self).contents(),
            final(self).calls() == old(self).calls().push(EngineCall::Read(key@, read_outcome(r))),
            r matches Ok(v) ==> match v {
                Some(s) => old(self).contents().contains_key(key@) && s@ == old(
                    self,
                ).contents()[key@],
                None => !old(self).contents().contains_key(key@),
            },
    ;

    /// Removes `key`; a key that is not in the engine is `KeyNotFound`.
    fn remove(&mut self, key: String) -> (r: Result<(), KVStoreError>)
        ensures
            r is Ok ==> old(self).contents().contains_key(key@) && final(self).contents() == old(
                self,
            ).contents().remove(key@),
            final(self).calls() == old(self).calls().push(EngineCall::Delete(key@, r)),
            r matches Err(KVStoreError::KeyNotFound) ==> !old(self).contents().contains_key(key@)
                && final(self).contents() == old(self).contents(),
    ;
}

} // verus!
