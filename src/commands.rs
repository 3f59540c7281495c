//! Typed commands, their validation and metadata, and their execution.

pub mod delete;
pub mod exist;
pub mod get;
pub mod ping;
pub mod scan;
pub mod set;
pub mod stats;

use vstd::prelude::*;
use vstd::utf8::encode_utf8;
use vstd::string::StringExecFns;
use crate::text::{push_str, starts_with};
use crate::storage::{Contents, OpModel, apply_op, total_footprint, footprint};
use crate::storage::memory::{MemoryEngine, clamp_usize, copy_bytes, is_scan_of};
use crate::storage::StorageError;
use crate::storage::aof::Operation;
use crate::commands::delete::DeleteCommand;
use crate::commands::exist::ExistCommand;
use crate::commands::get::GetCommand;
use crate::commands::scan::ScanCommand;
use crate::commands::set::{MAX_VALUE_BYTES, SetCommand, clamp_u32};

verus! {

/// Longest accepted key, in bytes of UTF-8.
pub const MAX_KEY_BYTES: usize = 512;

/// Facts about a command used for logging, metrics and rate limiting.
#[derive(Debug, Clone, PartialEq, Eq)]
pub struct CommandMetadata {
    pub name: String,
    pub read_only: bool,
    pub estimated_complexity: u32,
}

/// Why a command was refused before it ran.
#[derive(Debug, Clone, PartialEq, Eq)]
pub enum CommandError {
    InvalidParameter(String),
    MissingParameter(String),
    Storage(String),
}

/// A key is non-empty and at most `MAX_KEY_BYTES` bytes long.
pub open spec fn key_rules_hold(k: Seq<char>) -> bool {
    k.len() > 0 && encode_utf8(k).len() <= MAX_KEY_BYTES
}

/// The message of the first key rule `k` breaks, if any. An empty key is a
/// missing parameter where `empty_is_missing`, else an invalid one.
pub open spec fn key_message(k: Seq<char>, empty_is_missing: bool) -> Option<Seq<char>> {
    if k.len() == 0 {
        Some(
            if empty_is_missing {
                "Missing required parameter: "@ + "Key cannot be empty"@
            } else {
                "Invalid parameter: "@ + "Key cannot be empty"@
            },
        )
    } else if encode_utf8(k).len() > MAX_KEY_BYTES {
        Some("Invalid parameter: "@ + "Key too long (max 512 bytes)"@)
    } else {
        None
    }
}

/// Checks the key rules. An empty key is reported as a missing parameter
/// where `empty_is_missing`, else as an invalid one.
pub fn key_error(key: &String, empty_is_missing: bool) -> (r: Result<(), CommandError>)
    ensures
        r is Ok <==> key_rules_hold(key@),
        r is Ok <==> key_message(key@, empty_is_missing) is None,
        r matches Err(e) ==> key_message(key@, empty_is_missing) == Some(e.message_spec()),
{
    if key.as_str().is_empty() {
        let msg = String::from_str("Key cannot be empty");
        return Err(
            if empty_is_missing {
                CommandError::MissingParameter(msg)
            } else {
                CommandError::InvalidParameter(msg)
            },
        );
    }
    if key.as_str().as_bytes().len() > MAX_KEY_BYTES {
        return Err(CommandError::InvalidParameter(String::from_str("Key too long (max 512 bytes)")));
    }
    Ok(())
}

impl CommandError {
    /// The human-readable text of the error.
    pub fn message(&self) -> (r: String)
        ensures
            r@ == self.message_spec(),
    {
        let mut s = String::new();
        match self {
            CommandError::InvalidParameter(m) => {
                push_str(&mut s, "Invalid parameter: ");
                push_str(&mut s, m.as_str());
            },
            CommandError::MissingParameter(m) => {
                push_str(&mut s, "Missing required parameter: ");
                push_str(&mut s, m.as_str());
            },
            CommandError::Storage(m) => {
                push_str(&mut s, "Storage error: ");
                push_str(&mut s, m.as_str());
            },
        }
        s
    }

    pub open spec fn message_spec(&self) -> Seq<char> {
        match self {
            CommandError::InvalidParameter(m) => "Invalid parameter: "@ + m@,
            CommandError::MissingParameter(m) => "Missing required parameter: "@ + m@,
            CommandError::Storage(m) => "Storage error: "@ + m@,
        }
    }
}

/// A parsed request.
#[derive(Debug, Clone, PartialEq, Eq)]
pub enum Command {
    Get(GetCommand),
    Put(SetCommand),
    Delete(DeleteCommand),
    Scan(ScanCommand),
    Exist(ExistCommand),
    Stats,
    Ping,
}

/// The answer to one command.
#[derive(Debug, Clone, PartialEq, Eq)]
pub enum CommandResponse {
    Value(Vec<u8>),
    Success,
    Bool(bool),
    Keys(Vec<String>),
    /// The engine's counters; the hit rate is `hits / (hits + misses)`.
    Stats { total_keys: usize, memory_usage: usize, hits: u64, misses: u64, total_operations: u64 },
    Pong,
    Error(String),
}

/// Whether `r` is an error response with text `m`.
pub open spec fn is_error_with(r: CommandResponse, m: Seq<char>) -> bool {
    r matches CommandResponse::Error(t) && t@ == m
}

impl Command {
    /// Whether the command's parameters pass its validation rules.
    pub open spec fn valid(&self) -> bool {
        match self {
            Command::Get(c) => key_rules_hold(c.key@),
            Command::Put(c) => key_rules_hold(c.key@) && c.value@.len() <= MAX_VALUE_BYTES,
            Command::Delete(c) => key_rules_hold(c.key@),
            Command::Exist(c) => key_rules_hold(c.key@),
            _ => true,
        }
    }

    /// The message of the first validation rule the command breaks, if any.
    pub open spec fn validation_message(&self) -> Option<Seq<char>> {
        match self {
            Command::Get(c) => key_message(c.key@, false),
            Command::Put(c) => if key_message(c.key@, false) is Some {
                key_message(c.key@, false)
            } else if c.value@.len() > MAX_VALUE_BYTES {
                Some("Invalid parameter: "@ + "Value too large (max 10MB)"@)
            } else {
                None
            },
            Command::Delete(c) => key_message(c.key@, true),
            Command::Exist(c) => key_message(c.key@, true),
            _ => None,
        }
    }

    /// The mutation a command asks for, if it is one.
    pub open spec fn mutation(&self) -> Option<OpModel> {
        match self {
            Command::Put(c) => if c.ttl is None {
                Some(OpModel::Put { key: c.key@, value: c.value@ })
            } else {
                None
            },
            Command::Delete(c) => Some(OpModel::Delete { key: c.key@ }),
            _ => None,
        }
    }

    /// Whether executing the command changes the contents `m` held under
    /// the memory limit `max`.
    pub open spec fn takes_effect(&self, m: Contents, max: nat) -> bool {
        &&& self.valid()
        &&& self.mutation() is Some
        &&& match self.mutation() {
            Some(OpModel::Put { key, value }) => total_footprint(m) + footprint(key, value) <= max,
            _ => true,
        }
    }

    /// The contents after executing the command on `m`.
    pub open spec fn effect(&self, m: Contents, max: nat) -> Contents {
        if self.takes_effect(m, max) {
            apply_op(m, self.mutation()->Some_0)
        } else {
            m
        }
    }

    /// The log record of the mutation the command asks for, if any.
    pub fn to_operation(&self) -> (r: Option<Operation>)
        ensures
            r is Some <==> self.mutation() is Some,
            r is Some ==> r->Some_0@ == self.mutation()->Some_0,
    {
        match self {
            Command::Put(c) => if c.ttl.is_none() {
                Some(Operation::Put { key: c.key.clone(), value: copy_bytes(&c.value) })
            } else {
                None
            },
            Command::Delete(c) => Some(Operation::Delete { key: c.key.clone() }),
            _ => None,
        }
    }

    /// Checks the parameters of the command.
    pub fn validate(&self) -> (r: Result<(), CommandError>)
        ensures
            r is Ok <==> self.valid(),
            r is Ok <==> self.validation_message() is None,
            r matches Err(e) ==> self.validation_message() == Some(e.message_spec()),
    {
        match self {
            Command::Get(c) => c.validate(),
            Command::Put(c) => c.validate(),
            Command::Delete(c) => c.validate(),
            Command::Exist(c) => c.validate(),
            Command::Scan(c) => c.validate(),
            Command::Stats => Ok(()),
            Command::Ping => Ok(()),
        }
    }

    /// Name, read/write class and cost estimate of the command.
    pub fn metadata(&self) -> (r: CommandMetadata)
        ensures
            r.read_only <==> !(self is Put || self is Delete),
            r.name@ == match self {
                Command::Get(_) => "GET"@,
                Command::Put(_) => "SET"@,
                Command::Delete(_) => "DELETE"@,
                Command::Exist(_) => "EXIST"@,
                Command::Scan(_) => "SCAN"@,
                Command::Stats => "STATS"@,
                Command::Ping => "PING"@,
            },
            r.estimated_complexity == match self {
                Command::Put(c) => clamp_u32((c.value@.len() + 1023) / 1024),
                _ => 1,
            },
    {
        match self {
            Command::Get(c) => c.metadata(),
            Command::Put(c) => c.metadata(),
            Command::Delete(c) => c.metadata(),
            Command::Exist(c) => c.metadata(),
            Command::Scan(c) => c.metadata(),
            Command::Stats => crate::commands::stats::StatsCommand.metadata(),
            Command::Ping => crate::commands::ping::PingCommand.metadata(),
        }
    }

    /// Runs a command that passed validation against the engine.
    pub fn execute(&self, engine: &mut MemoryEngine) -> (r: CommandResponse)
        requires
            old(engine).wf(),
            self.valid(),
        ensures
            final(engine).wf(),
            final(engine).same_settings(old(engine)),
            final(engine)@ == self.effect(old(engine)@, old(engine).max_memory()),
            final(engine).memory() == total_footprint(final(engine)@),
            self.mutation() is Some ==> (r is Error <==> !self.takes_effect(
                old(engine)@,
                old(engine).max_memory(),
            )),
            responds(*self, *old(engine), r),
    {
        proof {
            crate::storage::memory::lemma_memory_accounting(engine);
        }
        match self {
            Command::Get(c) => match engine.get(c.key.as_str()) {
                Ok(Some(v)) => CommandResponse::Value(v),
                _ => CommandResponse::Error(String::from_str("Key not found")),
            },
            Command::Put(c) => {
                if c.ttl.is_some() {
                    return CommandResponse::Error(String::from_str("TTL not yet supported"));
                }
                match engine.set(c.key.as_str(), crate::storage::memory::copy_bytes(&c.value)) {
                    Ok(()) => CommandResponse::Success,
                    Err(e) => CommandResponse::Error(e.message()),
                }
            },
            Command::Delete(c) => match engine.delete(c.key.as_str()) {
                Ok(b) => CommandResponse::Bool(b),
                Err(e) => CommandResponse::Error(e.message()),
            },
            Command::Exist(c) => match engine.key_exists(c.key.as_str()) {
                Ok(b) => CommandResponse::Bool(b),
                Err(e) => CommandResponse::Error(e.message()),
            },
            Command::Scan(c) => {
                let res = engine.scan(c.prefix.as_str());
                match res {
                    Ok(keys) => {
                        CommandResponse::Keys(keys)
                    },
                    Err(e) => CommandResponse::Error(e.message()),
                }
            },
            Command::Stats => match engine.stats() {
                Ok(s) => CommandResponse::Stats {
                    total_keys: s.total_keys,
                    memory_usage: s.memory_usage,
                    hits: s.hits,
                    misses: s.misses,
                    total_operations: s.total_operations,
                },
                Err(e) => CommandResponse::Error(e.message()),
            },
            Command::Ping => match engine.health_check() {
                Ok(()) => CommandResponse::Pong,
                Err(e) => CommandResponse::Error(e.message()),
            },
        }
    }
}

/// Whether `r` is the response of the valid command `cmd` run against the
/// engine `e`.
pub open spec fn responds(cmd: Command, e: MemoryEngine, r: CommandResponse) -> bool {
    &&& cmd matches Command::Get(c) ==> (if e@.contains_key(c.key@) {
        r matches CommandResponse::Value(v) && v@ == e@[c.key@]
    } else {
        is_error_with(r, "Key not found"@)
    })
    &&& cmd matches Command::Put(c) ==> (c.ttl is Some ==> is_error_with(r, "TTL not yet supported"@))
        && (c.ttl is None ==> (r is Success <==> cmd.takes_effect(e@, e.max_memory())))
        && (c.ttl is None && !cmd.takes_effect(e@, e.max_memory()) ==> is_error_with(
        r,
        StorageError::MemoryExceeded {
            in_use: e.memory() as usize,
            requested: clamp_usize(footprint(c.key@, c.value@)),
            limit: e.max_memory() as usize,
        }.message_spec(),
    ))
    &&& cmd matches Command::Delete(c) ==> r == CommandResponse::Bool(e@.contains_key(c.key@))
    &&& cmd matches Command::Exist(c) ==> r == CommandResponse::Bool(e@.contains_key(c.key@))
    &&& cmd matches Command::Scan(c) ==> (r matches CommandResponse::Keys(keys) && is_scan_of(
        keys@,
        e@,
        c.prefix@,
    ))
    &&& cmd is Stats ==> (r matches CommandResponse::Stats {
        total_keys,
        memory_usage,
        hits,
        misses,
        total_operations,
    } && total_keys == e@.len() && memory_usage == e.memory() && hits == e.hits() && misses
        == e.misses() && total_operations == e.operations())
    &&& cmd is Ping ==> r == CommandResponse::Pong
}

/// One command of a batch: the engine went from `before` to `after` and
/// answered `r` as the dispatcher does.
pub open spec fn batch_step(cmd: Command, before: MemoryEngine, after: MemoryEngine, r: CommandResponse) -> bool {
    &&& after@ == cmd.effect(before@, before.max_memory())
    &&& after.max_memory() == before.max_memory()
    &&& cmd.valid() ==> responds(cmd, before, r)
    &&& !cmd.valid() ==> (r matches CommandResponse::Error(m) && cmd.validation_message() == Some(
        m@,
    ))
}

/// The contents after executing `cmds` in order from `m`.
pub open spec fn batch_effect(m: Contents, max: nat, cmds: Seq<Command>) -> Contents
    decreases cmds.len(),
{
    if cmds.len() == 0 {
        m
    } else {
        let before = batch_effect(m, max, cmds.drop_last());
        cmds.last().effect(before, max)
    }
}

/// Cross-cutting hooks around command execution, such as rate limiting,
/// metrics or authorization.
pub trait CommandMiddleware {
    /// Runs before a validated command; an `Err` answers the command with
    /// that response instead of executing it.
    fn before_execute(&self, metadata: &CommandMetadata) -> Result<(), CommandResponse>;

    /// Runs after the command executed, with its response.
    fn after_execute(&self, metadata: &CommandMetadata, response: &CommandResponse);
}

/// Validates and executes commands against the engine it owns.
pub struct CommandDispatcher {
    storage: MemoryEngine,
}

impl CommandDispatcher {
    pub closed spec fn engine(&self) -> MemoryEngine {
        self.storage
    }

    pub open spec fn wf(&self) -> bool {
        self.engine().wf()
    }

    pub fn new(storage: MemoryEngine) -> (d: CommandDispatcher)
        requires
            storage.wf(),
        ensures
            d.engine() == storage,
            d.wf(),
    {
        CommandDispatcher { storage }
    }

    /// The engine behind the dispatcher.
    pub fn storage(&self) -> (r: &MemoryEngine)
        ensures
            *r == self.engine(),
    {
        &self.storage
    }

    /// Validates the command, answering an error without side effect when
    /// it fails, and otherwise executes it.
    pub fn execute(&mut self, command: Command) -> (r: CommandResponse)
        requires
            old(self).wf(),
        ensures
            final(self).wf(),
            final(self).engine().same_settings(&old(self).engine()),
            final(self).engine()@ == command.effect(
                old(self).engine()@,
                old(self).engine().max_memory(),
            ),
            !command.valid() ==> r is Error && final(self).engine() == old(self).engine(),
            !command.valid() ==> (r matches CommandResponse::Error(m) && command.validation_message()
                == Some(m@)),
            command.valid() ==> responds(command, old(self).engine(), r),
            command.valid() && command.mutation() is Some ==> (r is Error <==> !command.takes_effect(
                old(self).engine()@,
                old(self).engine().max_memory(),
            )),
    {
        match command.validate() {
            Err(e) => CommandResponse::Error(e.message()),
            Ok(()) => command.execute(&mut self.storage),
        }
    }

    /// Runs every middleware's `before_execute` in order and stops at the
    /// first refusal, which it returns.
    pub fn first_refusal<M: CommandMiddleware>(
        metadata: &CommandMetadata,
        middleware: &Vec<M>,
    ) -> (r: Option<CommandResponse>)
        ensures
            middleware@.len() == 0 ==> r is None,
    {
        let mut i: usize = 0;
        while i < middleware.len()
            invariant
                0 <= i <= middleware@.len(),
            decreases middleware@.len() - i,
        {
            match middleware[i].before_execute(metadata) {
                Ok(()) => {},
                Err(response) => {
                    return Some(response);
                },
            }
            i += 1;
        }
        None
    }

    /// Finishes a command once the middleware has decided: an invalid
    /// command gets its validation error; a refusal by the middleware is
    /// the response and nothing executes; otherwise the command executes.
    pub fn execute_with_verdict(&mut self, command: Command, verdict: Option<CommandResponse>) -> (r:
        CommandResponse)
        requires
            old(self).wf(),
        ensures
            final(self).wf(),
            final(self).engine().same_settings(&old(self).engine()),
            !command.valid() ==> (r matches CommandResponse::Error(m) && command.validation_message()
                == Some(m@)) && final(self).engine() == old(self).engine(),
            command.valid() && verdict is Some ==> r == verdict->Some_0 && final(self).engine()
                == old(self).engine(),
            command.valid() && verdict is None ==> responds(command, old(self).engine(), r)
                && final(self).engine()@ == command.effect(
                old(self).engine()@,
                old(self).engine().max_memory(),
            ),
    {
        if let Err(e) = command.validate() {
            return CommandResponse::Error(e.message());
        }
        match verdict {
            Some(response) => response,
            None => command.execute(&mut self.storage),
        }
    }

    /// Validates the command, then runs every middleware's
    /// `before_execute` in order (the first refusal answers the command and
    /// nothing executes), executes it, and runs every `after_execute` in
    /// order.
    pub fn execute_with_middleware<M: CommandMiddleware>(
        &mut self,
        command: Command,
        middleware: &Vec<M>,
    ) -> (r: CommandResponse)
        requires
            old(self).wf(),
        ensures
            final(self).wf(),
            final(self).engine().same_settings(&old(self).engine()),
            final(self).engine()@ == old(self).engine()@ || final(self).engine()@ == command.effect(
                old(self).engine()@,
                old(self).engine().max_memory(),
            ),
            !command.valid() ==> (r matches CommandResponse::Error(m) && command.validation_message()
                == Some(m@)) && final(self).engine() == old(self).engine(),
            middleware@.len() == 0 && command.valid() ==> responds(command, old(self).engine(), r)
                && final(self).engine()@ == command.effect(
                old(self).engine()@,
                old(self).engine().max_memory(),
            ),
    {
        if let Err(e) = command.validate() {
            return CommandResponse::Error(e.message());
        }
        let metadata = command.metadata();
        let verdict = Self::first_refusal(&metadata, middleware);
        let refused = verdict.is_some();
        let response = self.execute_with_verdict(command, verdict);
        if !refused {
            let mut j: usize = 0;
            while j < middleware.len()
                invariant
                    0 <= j <= middleware@.len(),
                decreases middleware@.len() - j,
            {
                middleware[j].after_execute(&metadata, &response);
                j += 1;
            }
        }
        response
    }

    /// Executes the commands one after another in submission order; the
    /// response to each stands at its index.
    pub fn execute_batch(&mut self, commands: Vec<Command>) -> (r: Vec<CommandResponse>)
        requires
            old(self).wf(),
        ensures
            final(self).wf(),
            r@.len() == commands@.len(),
            exists|states: Seq<MemoryEngine>|
                states.len() == commands@.len() + 1 && states[0] == old(self).engine()
                    && states.last() == final(self).engine() && forall|i: int|
                    #![trigger r@[i]]
                    0 <= i < commands@.len() ==> batch_step(
                        commands@[i],
                        states[i],
                        states[i + 1],
                        r@[i],
                    ),
            final(self).engine()@ == batch_effect(
                old(self).engine()@,
                old(self).engine().max_memory(),
                commands@,
            ),
    {
        let ghost all = commands@;
        let ghost mut states: Seq<MemoryEngine> = seq![self.engine()];
        let total = commands.len();
        let mut rest = commands;
        let mut responses: Vec<CommandResponse> = Vec::with_capacity(rest.len());
        let mut i: usize = 0;
        while rest.len() > 0
            invariant
                self.wf(),
                all == commands@,
                commands@.len() == total,
                0 <= i <= commands@.len(),
                rest@ == commands@.subrange(i as int, commands@.len() as int),
                states.len() == i + 1,
                states[0] == old(self).engine(),
                states.last() == self.engine(),
                forall|j: int|
                    #![trigger responses@[j]]
                    0 <= j < i ==> batch_step(commands@[j], states[j], states[j + 1], responses@[j]),
                responses@.len() == i,
                self.engine().max_memory() == old(self).engine().max_memory(),
                self.engine()@ == batch_effect(
                    old(self).engine()@,
                    old(self).engine().max_memory(),
                    commands@.subrange(0, i as int),
                ),
            decreases rest@.len(),
        {
            assert(commands@.subrange(0, i + 1).drop_last() =~= commands@.subrange(0, i as int));
            let command = rest.remove(0);
            assert(command == commands@[i as int]);
            let ghost before = self.engine();
            let response = self.execute(command);
            proof {
                states = states.push(self.engine());
            }
            responses.push(response);
            proof {
                assert(batch_step(commands@[i as int], states[i as int], states[i + 1], responses@[i as int]));
            }
            i += 1;
            assert(rest@ =~= commands@.subrange(i as int, commands@.len() as int));
        }
        assert(commands@.subrange(0, i as int) =~= commands@);
        responses
    }
}

} // verus!
