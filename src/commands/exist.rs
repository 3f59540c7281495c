//! The `EXIST` command.

use vstd::prelude::*;
use vstd::string::StringExecFns;
use crate::commands::{CommandError, CommandMetadata, key_error, key_message, key_rules_hold};

verus! {

/// Tells whether one key is stored.
#[derive(Debug, Clone, PartialEq, Eq)]
pub struct ExistCommand {
    pub key: String,
}

impl ExistCommand {
    pub fn new(key: String) -> (r: ExistCommand)
        ensures
            r.key == key,
    {
        ExistCommand { key }
    }

    /// The key must be non-empty and at most 512 bytes long.
    pub fn validate(&self) -> (r: Result<(), CommandError>)
        ensures
            r is Ok <==> key_rules_hold(self.key@),
            r matches Err(e) ==> key_message(self.key@, true) == Some(e.message_spec()),
    {
        key_error(&self.key, true)
    }

    pub fn metadata(&self) -> (r: CommandMetadata)
        ensures
            r.name@ == "EXIST"@,
            r.read_only,
            r.estimated_complexity == 1,
    {
        CommandMetadata { name: String::from_str("EXIST"), read_only: true, estimated_complexity: 1 }
    }
}

} // verus!
