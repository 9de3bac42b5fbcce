pub mod command;
pub mod files;
pub mod kv;
pub mod kvs_engine;
pub mod sled;
