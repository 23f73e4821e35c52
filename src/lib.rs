//! A single-writer transactional key-value store made durable by a
//! write-ahead log and full-image checkpoints.
pub mod frame;
pub mod log;
pub mod recovery;
pub mod error;
pub mod database;
