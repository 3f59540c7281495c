//! One connection's request handling: each received line that holds a word
//! gets exactly one response line, in arrival order.

use vstd::prelude::*;
use vstd::string::StringExecFns;
use crate::bootstrap::{BlazeKVDB, answers, log_effect};
use crate::commands::{Command, CommandResponse};
use crate::protocol::parser::{ProtocolError, ProtocolParser, line_parses_as, tokenize, words};
use crate::text::push_str;

verus! {

/// Counters of one connection.
#[derive(Debug, Clone, PartialEq, Eq)]
pub struct ConnectionStats {
    pub commands_processed: u64,
    pub bytes_received: u64,
    pub bytes_sent: u64,
    /// Time since the connection opened, in milliseconds.
    pub connection_duration_ms: u64,
    /// Time of the last command, in milliseconds since the Unix epoch.
    pub last_command_time_ms: Option<u64>,
}

/// The state of one connection.
pub struct ConnectionHandler {
    commands_processed: u64,
    bytes_received: u64,
    bytes_sent: u64,
}

impl ConnectionHandler {
    pub closed spec fn processed(&self) -> u64 {
        self.commands_processed
    }

    pub fn new() -> (r: ConnectionHandler)
        ensures
            r.processed() == 0,
    {
        ConnectionHandler { commands_processed: 0, bytes_received: 0, bytes_sent: 0 }
    }

    /// Handles one received line of `received` bytes. A line without words
    /// gets no response and changes nothing else; any other line is parsed,
    /// a parse failure answered with an error and no side effect, and a
    /// command executed on the database.
    pub fn handle_line(&mut self, db: &mut BlazeKVDB, line: &str, received: u64) -> (r: Option<CommandResponse>)
        requires
            old(db).wf(),
        ensures
            final(db).wf(),
            r is None <==> words(line@).len() == 0,
            r is None ==> *final(db) == *old(db),
            r is Some ==> exists|c: Result<Command, ProtocolError>| #[trigger] line_parses_as(line@, c)
                && (c is Err ==> *final(db) == *old(db)) && (c matches Err(e) ==> (r->Some_0 matches CommandResponse::Error(m) && m@ == "Parse error: "@
                + e.message_spec())) && (c matches Ok(cmd) ==> answers(*old(db), cmd, r->Some_0) && log_effect(*old(db), *final(db), cmd, r->Some_0)) && (c matches Ok(
                cmd) ==> (final(db).engine()@ == old(db).engine()@ || final(db).engine()@
                == cmd.effect(old(db).engine()@, old(db).engine().max_memory())) && (old(
                db,
            ).log() is None ==> final(db).engine()@ == cmd.effect(
                old(db).engine()@,
                old(db).engine().max_memory(),
            ))),
            final(self).processed() == (if r is Some && old(self).processed() < u64::MAX {
                (old(self).processed() + 1) as u64
            } else {
                old(self).processed()
            }),
    {
        self.bytes_received = self.bytes_received.saturating_add(received);
        let toks = tokenize(line);
        if toks.len() == 0 {
            return None;
        }
        let parsed = ProtocolParser::parse_command(line);
        let ghost c = parsed;
        let response = match parsed {
            Ok(command) => db.execute(command),
            Err(e) => {
                let mut m = String::from_str("Parse error: ");
                push_str(&mut m, e.message().as_str());
                CommandResponse::Error(m)
            },
        };
        self.commands_processed = self.commands_processed.saturating_add(1);
        proof {
            assert(line_parses_as(line@, c));
        }
        Some(response)
    }

    /// Records that `bytes` bytes of response were sent.
    pub fn sent(&mut self, bytes: u64)
        ensures
            final(self).processed() == old(self).processed(),
    {
        self.bytes_sent = self.bytes_sent.saturating_add(bytes);
    }

    /// The connection's counters, with the times the caller measured.
    pub fn stats(&self, connection_duration_ms: u64, last_command_time_ms: Option<u64>) -> (r:
        ConnectionStats)
        ensures
            r.commands_processed == self.processed(),
    {
        ConnectionStats {
            commands_processed: self.commands_processed,
            bytes_received: self.bytes_received,
            bytes_sent: self.bytes_sent,
            connection_duration_ms,
            last_command_time_ms,
        }
    }
}

} // verus!
