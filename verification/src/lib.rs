//! A persistent key/value store: a log-structured storage engine with an
//! in-memory index, a second engine backed by `sled`, and the request
//! dispatch of a single-threaded key/value server.

mod engine;
mod errors;
mod request;
mod response;
mod server;

pub use engine::command::Command;
pub use engine::files::{file_id_of, log_file_name, sorted_file_ids};
pub use engine::kv::{CommandPos, KvStore, MAX_COMPACTION_SIZE};
pub use engine::kvs_engine::KvsEngine;
pub use engine::sled::{removal_outcome, value_from_lookup, SledKvStore};
pub use errors::{KVStoreError, Result};
pub use request::Request;
pub use response::Response;
pub use server::{choose_engine, respond, EngineType, KvServer};
