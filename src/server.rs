//! The per-connection protocol logic and the server's counters.

pub mod connection;
pub mod tcp;
