use vstd::prelude::*;

verus! {

#[verifier::external_type_specification]
#[verifier::external_body]
pub struct ExIoError(std::io::Error);

#[verifier::external_type_specification]
#[verifier::external_body]
pub struct ExJsonError(serde_json::Error);

#[verifier::external_type_specification]
#[verifier::external_body]
pub struct ExSledError(sled::Error);

#[verifier::external_type_specification]
#[verifier::external_body]
pub struct ExFromUtf8Error(std::string::FromUtf8Error);

/// Every error the store, its engines and its server can report.
#[derive(Debug)]
pub enum KVStoreError {
    /// An I/O error from the log files or the network.
    IoError(std::io::Error),
    /// A JSON (de)serialization error.
    SerdeError(serde_json::Error),
    /// A log entry that should hold a `SET` command holds another one.
    UnknownCommandType,
    /// The key is not in the store.
    KeyNotFound,
    /// An error message sent back by the server.
    ServerError(String),
    /// An error of the `sled` engine.
    SledError(sled::Error),
    /// The data directory was initialised with the other engine.
    ChangeEngineError,
    /// A value read back from `sled` is not valid UTF-8.
    Utf8Error(std::string::FromUtf8Error),
}

/// The result type of the store's operations.
pub type Result<T> = std::result::Result<T, KVStoreError>;

/// The text of an I/O error, printed with `Display`.
#[verifier::external_body]
fn io_error_text(e: &std::io::Error) -> String {
    format!("{}", e)
}

/// The text of a `serde_json` error, printed with `Display`.
#[verifier::external_body]
fn json_error_text(e: &serde_json::Error) -> String {
    format!("{}", e)
}

/// The text of a `sled` error, printed with `Display`.
#[verifier::external_body]
fn sled_error_text(e: &sled::Error) -> String {
    format!("{}", e)
}

/// The text of a UTF-8 decoding error, printed with `Display`.
#[verifier::external_body]
fn utf8_error_text(e: &std::string::FromUtf8Error) -> String {
    format!("{}", e)
}

/// `m` is the message of `e`: a fixed text for the store's own errors, the
/// server's text for a `ServerError`; the wrapped error's own text, which is
/// not described here, for the others.
pub open spec fn is_message_of(e: KVStoreError, m: Seq<char>) -> bool {
    match e {
        KVStoreError::UnknownCommandType => m == "Unknown command type"@,
        KVStoreError::KeyNotFound => m == "Key not found"@,
        KVStoreError::ServerError(s) => m == s@,
        KVStoreError::ChangeEngineError => m
            == "Changing engine is not allowed after initilization in current dir"@,
        _ => true,
    }
}

impl KVStoreError {
    /// The message that describes this error, as the server sends it back.
    pub fn message(&self) -> (r: String)
        ensures
            is_message_of(*self, r@),
    {
        match self {
            KVStoreError::IoError(e) => io_error_text(e),
            KVStoreError::SerdeError(e) => json_error_text(e),
            KVStoreError::UnknownCommandType => String::from_str("Unknown command type"),
            KVStoreError::KeyNotFound => String::from_str("Key not found"),
            KVStoreError::ServerError(s) => s.clone(),
            KVStoreError::SledError(e) => sled_error_text(e),
            KVStoreError::ChangeEngineError => String::from_str(
                "Changing engine is not allowed after initilization in current dir",
            ),
            KVStoreError::Utf8Error(e) => utf8_error_text(e),
        }
    }
}

impl From<std::io::Error> for KVStoreError {
    fn from(err: std::io::Error) -> (r: KVStoreError) {
        KVStoreError::IoError(err)
    }
}

impl vstd::std_specs::convert::FromSpecImpl<std::io::Error> for KVStoreError {
    open spec fn obeys_from_spec() -> bool {
        true
    }

    open spec fn from_spec(err: std::io::Error) -> KVStoreError {
        KVStoreError::IoError(err)
    }
}

impl From<serde_json::Error> for KVStoreError {
    fn from(err: serde_json::Error) -> (r: KVStoreError) {
        KVStoreError::SerdeError(err)
    }
}

impl vstd::std_specs::convert::FromSpecImpl<serde_json::Error> for KVStoreError {
    open spec fn obeys_from_spec() -> bool {
        true
    }

    open spec fn from_spec(err: serde_json::Error) -> KVStoreError {
        KVStoreError::SerdeError(err)
    }
}

impl From<sled::Error> for KVStoreError {
    fn from(err: sled::Error) -> (r: KVStoreError) {
        KVStoreError::SledError(err)
    }
}

impl vstd::std_specs::convert::FromSpecImpl<sled::Error> for KVStoreError {
    open spec fn obeys_from_spec() -> bool {
        true
    }

    open spec fn from_spec(err: sled::Error) -> KVStoreError {
        KVStoreError::SledError(err)
    }
}

impl From<std::string::FromUtf8Error> for KVStoreError {
    fn from(err: std::string::FromUtf8Error) -> (r: KVStoreError) {
        KVStoreError::Utf8Error(err)
    }
}

impl vstd::std_specs::convert::FromSpecImpl<std::string::FromUtf8Error> for KVStoreError {
    open spec fn obeys_from_spec() -> bool {
        true
    }

    open spec fn from_spec(err: std::string::FromUtf8Error) -> KVStoreError {
        KVStoreError::Utf8Error(err)
    }
}

} // verus!
