//! The `PING` command.

use vstd::prelude::*;
use vstd::string::StringExecFns;
use crate::commands::{CommandError, CommandMetadata};

verus! {

/// Checks that the engine answers.
#[derive(Debug, Clone, Copy, PartialEq, Eq)]
pub struct PingCommand;

impl PingCommand {
    /// Takes no parameters, so it is always valid.
    pub fn validate(&self) -> (r: Result<(), CommandError>)
        ensures
            r is Ok,
    {
        Ok(())
    }

    pub fn metadata(&self) -> (r: CommandMetadata)
        ensures
            r.name@ == "PING"@,
            r.read_only,
            r.estimated_complexity == 1,
    {
        CommandMetadata { name: String::from_str("PING"), read_only: true, estimated_complexity: 1 }
    }
}

} // verus!
