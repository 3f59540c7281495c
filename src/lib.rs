//! An in-memory key-value database with an append-only log, snapshots and
//! crash recovery.

pub mod bootstrap;
pub mod commands;
pub mod config;
pub mod encoding;
pub mod protocol;
pub mod server;
pub mod storage;
pub mod text;
