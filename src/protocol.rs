//! The line-oriented wire protocol.

pub mod parser;
