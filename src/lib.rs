//! A persistent key-value store over an append-only log of records.

pub mod codec;
pub mod discovery;
pub mod error;
pub mod kv;
pub mod log_helpers;

pub use error::KvsError;
pub use kv::KvStore;
