//! An embedded vector database: the verified core.

pub mod bytes;
pub mod codec;
pub mod config;
pub mod engine;
pub mod error;
pub mod file_store;
pub mod float;
pub mod handle;
pub mod payload;
pub mod record;
pub mod search;
pub mod store;
pub mod types;
pub mod vector;
