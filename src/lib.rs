//! A small append-only key-value store: a log of length-prefixed records and an
//! in-memory index from each key to the offset of its latest record.
pub mod codec;
pub mod index;
pub mod log;
pub mod table;
pub mod database;
pub mod api;

pub use codec::{Error, KeyValuePair};
pub use database::Database;
pub use table::Table;
