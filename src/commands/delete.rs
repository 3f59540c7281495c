//! The `DELETE` command.

use vstd::prelude::*;
use vstd::string::StringExecFns;
use crate::commands::{CommandError, CommandMetadata, key_error, key_message, key_rules_hold};

verus! {

/// Removes one key.
#[derive(Debug, Clone, PartialEq, Eq)]
pub struct DeleteCommand {
    pub key: String,
}

impl DeleteCommand {
    pub fn new(key: String) -> (r: DeleteCommand)
        ensures
            r.key == key,
    {
        DeleteCommand { key }
    }

    /// The key must be non-empty and at most 512 bytes long.
    pub fn validate(&self) -> (r: Result<(), CommandError>)
        ensures
            r is Ok <==> key_rules_hold(self.key@),
            r matches Err(e) ==> key_message(self.key@, true) == Some(e.message_spec()),
    {
        key_error(&self.key, true)
    }

    pub fn metadata(&self) -> (r: CommandMetadata)
        ensures
            r.name@ == "DELETE"@,
            !r.read_only,
            r.estimated_complexity == 1,
    {
        CommandMetadata { name: String::from_str("DELETE"), read_only: false, estimated_complexity: 1 }
    }
}

} // verus!
