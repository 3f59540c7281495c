//! The `SET` command.

use vstd::prelude::*;
use vstd::string::StringExecFns;
use crate::commands::{CommandError, CommandMetadata, key_error, key_message, key_rules_hold};

verus! {

/// Stores a value under a key. The time-to-live option is reserved: a
/// command that carries one is refused when executed.
#[derive(Debug, Clone, PartialEq, Eq)]
pub struct SetCommand {
    pub key: String,
    pub value: Vec<u8>,
    pub ttl: Option<u64>,
}

/// Largest accepted value, in bytes.
pub const MAX_VALUE_BYTES: usize = 10 * 1024 * 1024;

impl SetCommand {
    pub fn new(key: String, value: Vec<u8>) -> (r: SetCommand)
        ensures
            r.key == key,
            r.value == value,
            r.ttl is None,
    {
        SetCommand { key, value, ttl: None }
    }

    pub fn with_ttl(self, ttl: u64) -> (r: SetCommand)
        ensures
            r.key == self.key,
            r.value == self.value,
            r.ttl == Some(ttl),
    {
        SetCommand { key: self.key, value: self.value, ttl: Some(ttl) }
    }

    /// The key rules hold and the value is at most 10 MiB.
    pub fn validate(&self) -> (r: Result<(), CommandError>)
        ensures
            r is Ok <==> key_rules_hold(self.key@) && self.value@.len() <= MAX_VALUE_BYTES,
            r matches Err(e) ==> Some(e.message_spec()) == (if key_message(self.key@, false) is Some {
                key_message(self.key@, false)
            } else {
                Some("Invalid parameter: "@ + "Value too large (max 10MB)"@)
            }),
    {
        key_error(&self.key, false)?;
        if self.value.len() > MAX_VALUE_BYTES {
            return Err(CommandError::InvalidParameter(String::from_str("Value too large (max 10MB)")));
        }
        Ok(())
    }

    /// One unit per started KiB of value.
    pub fn complexity(&self) -> (r: u32)
        ensures
            r == clamp_u32((self.value@.len() + 1023) / 1024),
    {
        let units = self.value.len() / 1024 + if self.value.len() % 1024 == 0 { 0 } else { 1 };
        if units > u32::MAX as usize { u32::MAX } else { units as u32 }
    }

    pub fn metadata(&self) -> (r: CommandMetadata)
        ensures
            r.name@ == "SET"@,
            !r.read_only,
            r.estimated_complexity == clamp_u32((self.value@.len() + 1023) / 1024),
    {
        CommandMetadata {
            name: String::from_str("SET"),
            read_only: false,
            estimated_complexity: self.complexity(),
        }
    }
}

/// `n` as a `u32`, or `u32::MAX` where it does not fit.
pub open spec fn clamp_u32(n: nat) -> u32 {
    if n > u32::MAX {
        u32::MAX
    } else {
        n as u32
    }
}

} // verus!
