//! A sharded key/value store: wire protocol, routing, storage engine and
//! client-side bookkeeping, without any I/O.

pub mod bench;
pub mod buffer;
pub mod cli;
pub mod client;
pub mod common;
pub mod config;
pub mod hashing;
pub mod server;
pub mod shards;
pub mod text;
pub mod utils;
pub mod wire;
