//! The engine backed by the `sled` embedded database.  Keys and values are
//! stored as their UTF-8 bytes.
use vstd::prelude::*;
use vstd::utf8::{decode_utf8, encode_utf8, encode_utf8_decode_utf8, valid_utf8};

use crate::engine::kvs_engine::{read_outcome, EngineCall, KvsEngine};
use crate::errors::KVStoreError;

verus! {

#[verifier::external_type_specification]
#[verifier::external_body]
pub struct ExSledDb(sled::Db);

#[verifier::external_type_specification]
#[verifier::external_body]
pub struct ExPathBuf(std::path::PathBuf);

/// The pairs of keys and values that a `sled` database holds.
pub uninterp spec fn sled_contents(db: sled::Db) -> Map<Seq<u8>, Seq<u8>>;

/// Opens the database in directory `path` with `sled::open`.
///
/// Trusted for nothing: what the database holds depends on the directory.
#[verifier::external_body]
fn sled_open(path: std::path::PathBuf) -> (r: Result<sled::Db, sled::Error>) {
    sled::open(path)
}

/// Stores `value` under `key` with `sled::Tree::insert`.
///
/// Trusted: on success the database holds `value` under `key` and is
/// otherwise unchanged.  Nothing is said of the database after a failure.
#[verifier::external_body]
fn sled_insert(db: &mut sled::Db, key: &[u8], value: Vec<u8>) -> (r: Result<(), sled::Error>)
    ensures
        r is Ok ==> sled_contents(*final(db)) == sled_contents(*old(db)).insert(key@, value@),
{
    match db.insert(key, value) {
        Ok(_) => Ok(()),
        Err(e) => Err(e),
    }
}

/// Reads the value under `key` with `sled::Tree::get`.
///
/// Trusted: on success it returns the value that the database holds under
/// `key`, or `None` where it holds none.
#[verifier::external_body]
fn sled_get(db: &sled::Db, key: &[u8]) -> (r: Result<Option<Vec<u8>>, sled::Error>)
    ensures
        r matches Ok(v) ==> match v {
            Some(b) => sled_contents(*db).contains_key(key@) && sled_contents(*db)[key@] == b@,
            None => !sled_contents(*db).contains_key(key@),
        },
{
    match db.get(key) {
        Ok(Some(v)) => Ok(Some(v.to_vec())),
        Ok(None) => Ok(None),
        Err(e) => Err(e),
    }
}

/// Removes `key` with `sled::Tree::remove`.
///
/// Trusted: on success the database no longer holds `key` and is otherwise
/// unchanged, and the result is the value that it held under `key`, if any.
/// Nothing is said of the database after a failure.
#[verifier::external_body]
fn sled_remove(db: &mut sled::Db, key: &[u8]) -> (r: Result<Option<Vec<u8>>, sled::Error>)
    ensures
        r matches Ok(v) ==> {
            &&& sled_contents(*final(db)) == sled_contents(*old(db)).remove(key@)
            &&& match v {
                Some(b) => sled_contents(*old(db)).contains_key(key@) && sled_contents(
                    *old(db),
                )[key@] == b@,
                None => !sled_contents(*old(db)).contains_key(key@),
            }
        },
{
    match db.remove(key) {
        Ok(Some(v)) => Ok(Some(v.to_vec())),
        Ok(None) => Ok(None),
        Err(e) => Err(e),
    }
}

/// Writes the database's buffers to disk with `sled::Tree::flush`.
///
/// Trusted: what the database holds does not change.
#[verifier::external_body]
fn sled_flush(db: &mut sled::Db) -> (r: Result<(), sled::Error>)
    ensures
        sled_contents(*final(db)) == sled_contents(*old(db)),
{
    match db.flush() {
        Ok(_) => Ok(()),
        Err(e) => Err(e),
    }
}

/// The UTF-8 bytes of a string, with `String::into_bytes`.
#[verifier::external_body]
fn string_into_bytes(s: String) -> (r: Vec<u8>)
    ensures
        r@ == encode_utf8(s@),
{
    s.into_bytes()
}

/// The string that UTF-8 bytes encode, with `String::from_utf8`.
///
/// Trusted: it succeeds exactly on valid UTF-8, and then decodes it.
#[verifier::external_body]
fn string_from_utf8(bytes: Vec<u8>) -> (r: Result<String, std::string::FromUtf8Error>)
    ensures
        r is Ok <==> valid_utf8(bytes@),
        r matches Ok(s) ==> s@ == decode_utf8(bytes@),
{
    String::from_utf8(bytes)
}

/// The key/value store backed by `sled`.
pub struct SledKvStore {
    inner: sled::Db,
    calls: Ghost<Seq<EngineCall>>,
}

/// The contents of a `sled` database read as strings: each key whose UTF-8
/// bytes the database holds, with the string that the bytes under it encode.
pub open spec fn string_contents(bytes: Map<Seq<u8>, Seq<u8>>) -> Map<Seq<char>, Seq<char>> {
    Map::new(
        |k: Seq<char>| bytes.contains_key(encode_utf8(k)),
        |k: Seq<char>| decode_utf8(bytes[encode_utf8(k)]),
    )
}

/// Different strings have different UTF-8 bytes.
proof fn lemma_encode_injective(a: Seq<char>, b: Seq<char>)
    ensures
        encode_utf8(a) == encode_utf8(b) ==> a == b,
{
    encode_utf8_decode_utf8(a);
    encode_utf8_decode_utf8(b);
}

/// Storing the bytes of a value under the bytes of a key stores the value
/// under the key, and leaves every other key as it was.
proof fn lemma_string_contents_insert(bytes: Map<Seq<u8>, Seq<u8>>, k: Seq<char>, v: Seq<char>)
    ensures
        string_contents(bytes.insert(encode_utf8(k), encode_utf8(v))) == string_contents(
            bytes,
        ).insert(k, v),
{
    let lhs = string_contents(bytes.insert(encode_utf8(k), encode_utf8(v)));
    let rhs = string_contents(bytes).insert(k, v);
    assert forall|k2: Seq<char>| #[trigger] lhs.dom().contains(k2) == rhs.dom().contains(k2) by {
        lemma_encode_injective(k, k2);
    }
    assert(lhs.dom() =~= rhs.dom());
    assert forall|k2: Seq<char>| #[trigger] lhs.dom().contains(k2) implies lhs[k2] == rhs[k2] by {
        lemma_encode_injective(k, k2);
        encode_utf8_decode_utf8(v);
    }
    assert(lhs =~= rhs);
}

/// Dropping the bytes of a key drops the key, and leaves every other key as
/// it was.
proof fn lemma_string_contents_remove(bytes: Map<Seq<u8>, Seq<u8>>, k: Seq<char>)
    ensures
        string_contents(bytes.remove(encode_utf8(k))) == string_contents(bytes).remove(k),
{
    let lhs = string_contents(bytes.remove(encode_utf8(k)));
    let rhs = string_contents(bytes).remove(k);
    assert forall|k2: Seq<char>| #[trigger] lhs.dom().contains(k2) == rhs.dom().contains(k2) by {
        lemma_encode_injective(k, k2);
    }
    assert(lhs.dom() =~= rhs.dom());
    assert forall|k2: Seq<char>| #[trigger] lhs.dom().contains(k2) implies lhs[k2] == rhs[k2] by {
        lemma_encode_injective(k, k2);
    }
    assert(lhs =~= rhs);
}

/// What a read of the bytes under a key gives: the string they encode, or a
/// `Utf8Error` where they are no UTF-8; a failure of `sled` is a
/// `SledError`.
pub fn value_from_lookup(found: Result<Option<Vec<u8>>, sled::Error>) -> (r: Result<
    Option<String>,
    KVStoreError,
>)
    ensures
        match found {
            Ok(Some(b)) => if valid_utf8(b@) {
                r matches Ok(Some(s)) && s@ == decode_utf8(b@)
            } else {
                r matches Err(KVStoreError::Utf8Error(_))
            },
            Ok(None) => r matches Ok(None),
            Err(_) => r matches Err(KVStoreError::SledError(_)),
        },
{
    match found {
        Ok(Some(b)) => match string_from_utf8(b) {
            Ok(s) => Ok(Some(s)),
            Err(e) => Err(KVStoreError::Utf8Error(e)),
        },
        Ok(None) => Ok(None),
        Err(e) => Err(KVStoreError::SledError(e)),
    }
}

/// What a removal of the bytes of a key comes to: done where the database
/// held the key, `KeyNotFound` where it held none; a failure of `sled` is a
/// `SledError`.
pub fn removal_outcome(removed: Result<Option<Vec<u8>>, sled::Error>) -> (r: Result<(), KVStoreError>)
    ensures
        match removed {
            Ok(Some(_)) => r is Ok,
            Ok(None) => r matches Err(KVStoreError::KeyNotFound),
            Err(_) => r matches Err(KVStoreError::SledError(_)),
        },
{
    match removed {
        Ok(Some(_)) => Ok(()),
        Ok(None) => Err(KVStoreError::KeyNotFound),
        Err(e) => Err(KVStoreError::SledError(e)),
    }
}

impl SledKvStore {
    /// The pairs of bytes that the database holds.
    pub closed spec fn stored(&self) -> Map<Seq<u8>, Seq<u8>> {
        sled_contents(self.inner)
    }

    /// The database handle.
    pub closed spec fn db(&self) -> sled::Db {
        self.inner
    }

    /// Opens the `sled` database in directory `open_path`.
    pub fn open(open_path: std::path::PathBuf) -> (r: Result<SledKvStore, KVStoreError>)
        ensures
            r matches Err(e) ==> e is SledError,
    {
        match sled_open(open_path) {
            Ok(inner) => Ok(SledKvStore { inner, calls: Ghost(Seq::empty()) }),
            Err(e) => Err(KVStoreError::SledError(e)),
        }
    }
}

impl SledKvStore {
    /// Stores the UTF-8 bytes of `value` under those of `key`, then flushes.
    fn store_pair(&mut self, key: String, value: String) -> (r: Result<(), KVStoreError>)
        ensures
            final(self).calls == old(self).calls,
            r is Ok ==> string_contents(final(self).stored()) == string_contents(
                old(self).stored(),
            ).insert(key@, value@),
            r is Ok ==> final(self).stored() == old(self).stored().insert(
                encode_utf8(key@),
                encode_utf8(value@),
            ),
            r matches Err(e) ==> e is SledError,
    {
        let ghost (k, v) = (key@, value@);
        let bytes = string_into_bytes(value);
        match sled_insert(&mut self.inner, key.as_str().as_bytes(), bytes) {
            Ok(()) => {},
            Err(e) => return Err(KVStoreError::SledError(e)),
        }
        match sled_flush(&mut self.inner) {
            Ok(()) => {
                proof {
                    lemma_string_contents_insert(old(self).stored(), k, v);
                }
                Ok(())
            },
            Err(e) => Err(KVStoreError::SledError(e)),
        }
    }

    /// Reads the bytes under the UTF-8 bytes of `key` and decodes them.
    fn read_key(&self, key: String) -> (r: Result<Option<String>, KVStoreError>)
        ensures
            match r {
                Ok(Some(s)) => self.stored().contains_key(encode_utf8(key@)) && s@
                    == decode_utf8(self.stored()[encode_utf8(key@)]),
                Ok(None) => !self.stored().contains_key(encode_utf8(key@)),
                Err(e) => e is SledError || (e is Utf8Error && self.stored().contains_key(
                    encode_utf8(key@),
                ) && !valid_utf8(self.stored()[encode_utf8(key@)])),
            },
    {
        let found = sled_get(&self.inner, key.as_str().as_bytes());
        value_from_lookup(found)
    }

    /// Removes the UTF-8 bytes of `key`, then flushes; a key that the
    /// database does not hold is `KeyNotFound`, and nothing is flushed.
    fn drop_key(&mut self, key: String) -> (r: Result<(), KVStoreError>)
        ensures
            final(self).calls == old(self).calls,
            r is Ok ==> string_contents(final(self).stored()) == string_contents(
                old(self).stored(),
            ).remove(key@),
            r is Ok ==> old(self).stored().contains_key(encode_utf8(key@)) && final(self).stored()
                == old(self).stored().remove(encode_utf8(key@)),
            r matches Err(e) ==> e is SledError || e is KeyNotFound,
            r matches Err(KVStoreError::KeyNotFound) ==> !old(self).stored().contains_key(
                encode_utf8(key@),
            ) && final(self).stored() == old(self).stored(),
    {
        let ghost k = key@;
        let removed = sled_remove(&mut self.inner, key.as_str().as_bytes());
        let ghost absent = removed matches Ok(None);
        match removal_outcome(removed) {
            Err(e) => {
                proof {
                    if absent {
                        assert(old(self).stored().remove(encode_utf8(k)) =~= old(self).stored());
                    }
                }
                Err(e)
            },
            Ok(()) => match sled_flush(&mut self.inner) {
                Ok(()) => {
                    proof {
                        lemma_string_contents_remove(old(self).stored(), k);
                    }
                    Ok(())
                },
                Err(e) => Err(KVStoreError::SledError(e)),
            },
        }
    }
}

impl KvsEngine for SledKvStore {
    open spec fn contents(&self) -> Map<Seq<char>, Seq<char>> {
        string_contents(self.stored())
    }

    closed spec fn calls(&self) -> Seq<EngineCall> {
        self.calls@
    }

    /// Stores the UTF-8 bytes of `value` under those of `key`, then flushes.
    fn set(&mut self, key: String, value: String) -> (r: Result<(), KVStoreError>)
        ensures
            r is Ok ==> final(self).stored() == old(self).stored().insert(
                encode_utf8(key@),
                encode_utf8(value@),
            ),
            r matches Err(e) ==> e is SledError,
    {
        let ghost (k, v) = (key@, value@);
        let r = self.store_pair(key, value);
        self.calls = Ghost(self.calls@.push(EngineCall::Write(k, v, r)));
        r
    }

    /// Reads the bytes under the UTF-8 bytes of `key` and decodes them.
    fn get(&mut self, key: String) -> (r: Result<Option<String>, KVStoreError>)
        ensures
            final(self).db() == old(self).db(),
            match r {
                Ok(Some(s)) => old(self).stored().contains_key(encode_utf8(key@)) && s@
                    == decode_utf8(old(self).stored()[encode_utf8(key@)]),
                Ok(None) => !old(self).stored().contains_key(encode_utf8(key@)),
                Err(e) => e is SledError || (e is Utf8Error && old(self).stored().contains_key(
                    encode_utf8(key@),
                ) && !valid_utf8(old(self).stored()[encode_utf8(key@)])),
            },
    {
        let ghost k = key@;
        let r = self.read_key(key);
        self.calls = Ghost(self.calls@.push(EngineCall::Read(k, read_outcome(r))));
        r
    }

    /// Removes the UTF-8 bytes of `key`, then flushes; a key that the
    /// database does not hold is `KeyNotFound`, and nothing is flushed.
    fn remove(&mut self, key: String) -> (r: Result<(), KVStoreError>)
        ensures
            r is Ok ==> old(self).stored().contains_key(encode_utf8(key@)) && final(self).stored()
                == old(self).stored().remove(encode_utf8(key@)),
            r matches Err(e) ==> e is SledError || e is KeyNotFound,
            r matches Err(KVStoreError::KeyNotFound) ==> !old(self).stored().contains_key(
                encode_utf8(key@),
            ) && final(self).stored() == old(self).stored(),
    {
        let ghost k = key@;
        let r = self.drop_key(key);
        self.calls = Ghost(self.calls@.push(EngineCall::Delete(k, r)));
        r
    }
}

} // verus!
