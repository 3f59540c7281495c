//! The `GET` command.

use vstd::prelude::*;
use vstd::string::StringExecFns;
use crate::commands::{CommandError, CommandMetadata, key_error, key_message, key_rules_hold};

verus! {

/// Reads the value of one key.
#[derive(Debug, Clone, PartialEq, Eq)]
pub struct GetCommand {
    pub key: String,
}

impl GetCommand {
    pub fn new(key: String) -> (r: GetCommand)
        ensures
            r.key == key,
    {
        GetCommand { key }
    }

    /// The key must be non-empty and at most 512 bytes long.
    pub fn validate(&self) -> (r: Result<(), CommandError>)
        ensures
            r is Ok <==> key_rules_hold(self.key@),
            r matches Err(e) ==> key_message(self.key@, false) == Some(e.message_spec()),
    {
        key_error(&self.key, false)
    }

    pub fn metadata(&self) -> (r: CommandMetadata)
        ensures
            r.name@ == "GET"@,
            r.read_only,
            r.estimated_complexity == 1,
    {
        CommandMetadata { name: String::from_str("GET"), read_only: true, estimated_complexity: 1 }
    }
}

} // verus!
