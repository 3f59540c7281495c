//! The `STATS` command.

use vstd::prelude::*;
use vstd::string::StringExecFns;
use crate::commands::{CommandError, CommandMetadata};

verus! {

/// Reports the engine's counters.
#[derive(Debug, Clone, Copy, PartialEq, Eq)]
pub struct StatsCommand;

impl StatsCommand {
    /// Takes no parameters, so it is always valid.
    pub fn validate(&self) -> (r: Result<(), CommandError>)
        ensures
            r is Ok,
    {
        Ok(())
    }

    pub fn metadata(&self) -> (r: CommandMetadata)
        ensures
            r.name@ == "STATS"@,
            r.read_only,
            r.estimated_complexity == 1,
    {
        CommandMetadata { name: String::from_str("STATS"), read_only: true, estimated_complexity: 1 }
    }
}

} // verus!
