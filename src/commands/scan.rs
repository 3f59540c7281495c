//! The `SCAN` command.

use vstd::prelude::*;
use vstd::string::StringExecFns;
use crate::commands::{CommandError, CommandMetadata};

verus! {

/// Lists the keys that begin with a prefix; an empty prefix lists all.
#[derive(Debug, Clone, PartialEq, Eq)]
pub struct ScanCommand {
    pub prefix: String,
}

impl ScanCommand {
    pub fn new(prefix: String) -> (r: ScanCommand)
        ensures
            r.prefix == prefix,
    {
        ScanCommand { prefix }
    }

    /// Every prefix is valid.
    pub fn validate(&self) -> (r: Result<(), CommandError>)
        ensures
            r is Ok,
    {
        Ok(())
    }

    pub fn metadata(&self) -> (r: CommandMetadata)
        ensures
            r.name@ == "SCAN"@,
            r.read_only,
            r.estimated_complexity == 1,
    {
        CommandMetadata { name: String::from_str("SCAN"), read_only: true, estimated_complexity: 1 }
    }
}

} // verus!
