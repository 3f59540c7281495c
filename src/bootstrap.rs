//! The database: the command dispatcher over the engine, and the log that
//! every mutation is handed to before it is applied.

use vstd::prelude::*;
use crate::commands::{Command, CommandDispatcher, CommandResponse, is_error_with, responds};
use crate::encoding::MAX_ENCODE_INPUT;
use crate::storage::{OpModel, StorageResult, StorageStats, apply_op};
use crate::storage::aof::{
    AofStats, AppendOnlyFile, WriteBatch, compaction_text, good_record, is_log_key, log_ops, syncs_after, record_line, records_text,
};
use crate::storage::memory::{Entry, MemoryEngine, is_entries_of};

verus! {

/// Counters of the persistence subsystem.
#[derive(Debug, Clone, PartialEq, Eq)]
pub struct PersistenceStats {
    pub aof_enabled: bool,
    pub aof_stats: Option<AofStats>,
    pub snapshot_enabled: bool,
    pub snapshot_count: usize,
}

/// Whether `r` is what the database `db` answers to `cmd`: the
/// validation error for an invalid command, the log's refusal for a
/// mutation that a closed log refuses, and otherwise the dispatcher's
/// response against the engine as it was.
pub open spec fn answers(db: BlazeKVDB, cmd: Command, r: CommandResponse) -> bool {
    let refused = db.log() matches Some(l) && l.is_closed() && cmd.takes_effect(
        db.engine()@,
        db.engine().max_memory(),
    );
    &&& !cmd.valid() ==> (r matches CommandResponse::Error(m) && cmd.validation_message() == Some(
        m@,
    ))
    &&& refused ==> is_error_with(r, "Persistence error: "@ + "log writer is closed"@)
    &&& cmd.valid() && !refused ==> responds(cmd, db.engine(), r)
}

/// How executing `cmd` took the database from `before` to `after`: without
/// a log the engine changes as the command says; with one, a mutation that
/// takes effect on an open log is accepted and queued in order and then
/// applied, anything else leaves the log and the engine as they were, and no
/// mutation is acknowledged without its record.
pub open spec fn log_effect(before: BlazeKVDB, after: BlazeKVDB, cmd: Command, r: CommandResponse) -> bool {
    &&& after.log() is Some == before.log() is Some
    &&& before.log() is None ==> after.engine()@ == cmd.effect(
        before.engine()@,
        before.engine().max_memory(),
    )
    &&& before.log() matches Some(l) ==> ({
        let lf = after.log()->Some_0;
        let takes = cmd.takes_effect(before.engine()@, before.engine().max_memory())
            && !l.is_closed();
        &&& takes ==> lf.accepted() == l.accepted().push(cmd.mutation()->Some_0) && lf.pending()
            == l.pending().push(cmd.mutation()->Some_0) && after.engine()@ == apply_op(
            before.engine()@,
            cmd.mutation()->Some_0,
        )
        &&& !takes ==> lf.accepted() == l.accepted() && lf.pending() == l.pending()
            && after.engine()@ == before.engine()@
        &&& cmd.mutation() is Some && !(r is Error) ==> takes
        &&& lf.is_closed() == l.is_closed()
        &&& lf.policy() == l.policy()
        &&& lf.logged() == l.logged()
    })
}

/// The key-value database.
pub struct BlazeKVDB {
    dispatcher: CommandDispatcher,
    log: Option<AppendOnlyFile>,
}

impl BlazeKVDB {
    pub closed spec fn engine(&self) -> MemoryEngine {
        self.dispatcher.engine()
    }

    pub closed spec fn log(&self) -> Option<AppendOnlyFile> {
        self.log
    }

    pub open spec fn wf(&self) -> bool {
        &&& self.engine().wf()
        &&& (self.log() matches Some(l) ==> l.wf())
    }

    /// A database over `engine`, logging to `log` where one is given.
    pub fn new(engine: MemoryEngine, log: Option<AppendOnlyFile>) -> (db: BlazeKVDB)
        requires
            engine.wf(),
            log matches Some(l) ==> l.wf(),
        ensures
            db.wf(),
            db.engine() == engine,
            db.log() == log,
    {
        BlazeKVDB { dispatcher: CommandDispatcher::new(engine), log }
    }

    /// Executes one command. Where a log is attached, a mutation is handed
    /// to it before the engine changes: it is applied only when the log
    /// accepted its record, and every response that acknowledges a mutation
    /// follows the acceptance of exactly that record, appended after all
    /// earlier ones.
    pub fn execute(&mut self, command: Command) -> (r: CommandResponse)
        requires
            old(self).wf(),
        ensures
            final(self).wf(),
            final(self).log() is Some == old(self).log() is Some,
            final(self).engine().same_settings(&old(self).engine()),
            answers(*old(self), command, r),
            log_effect(*old(self), *final(self), command, r),
    {
        let ghost e0 = self.engine();
        if self.log.is_some() {
            match command.to_operation() {
                Some(op) => {
                    let valid = command.validate().is_ok();
                    let admitted = match &command {
                        Command::Put(c) => self.dispatcher.storage().would_admit(
                            c.key.as_str(),
                            &c.value,
                        ),
                        _ => true,
                    };
                    proof {
                        crate::storage::memory::lemma_memory_accounting(&e0);
                    }
                    if valid && admitted {
                        let logged = match &mut self.log {
                            Some(l) => l.log_operation(op),
                            None => Ok(()),
                        };
                        match logged {
                            Ok(()) => {},
                            Err(e) => {
                                return CommandResponse::Error(e.message());
                            },
                        }
                    }
                },
                None => {},
            }
        }
        self.dispatcher.execute(command)
    }

    /// Hands the writer every queued log record, with the fsync decision.
    pub fn take_log_batch(&mut self) -> (r: Option<WriteBatch>)
        requires
            old(self).wf(),
        ensures
            final(self).wf(),
            final(self).engine() == old(self).engine(),
            r is Some <==> old(self).log() is Some,
            final(self).log() is Some <==> old(self).log() is Some,
            old(self).log() matches Some(l) ==> ({
                let b = r->Some_0;
                let lf = final(self).log()->Some_0;
                &&& lf.pending() == Seq::<OpModel>::empty()
                &&& lf.accepted() == l.accepted()
                &&& lf.policy() == l.policy()
                &&& b.lines@.len() == l.pending().len()
                &&& forall|i: int|
                    0 <= i < b.lines@.len() ==> (#[trigger] b.lines@[i])@ == record_line(
                        l.pending()[i],
                    ).push('\n')
                &&& forall|i: int|
                    0 <= i < l.pending().len() && is_log_key(l.pending()[i].key()) ==> good_record(
                        #[trigger] l.pending()[i],
                    )
                &&& b.syncs@.len() == b.lines@.len()
                &&& forall|i: int|
                    0 <= i < b.syncs@.len() ==> #[trigger] b.syncs@[i] == syncs_after(
                        l.policy(),
                        (l.logged() + i + 1) as nat,
                    )
            }),
    {
        match &mut self.log {
            Some(l) => Some(l.take_pending()),
            None => None,
        }
    }

    /// Every stored entry once, for a snapshot.
    pub fn live_entries(&self) -> (r: Vec<Entry>)
        requires
            self.wf(),
        ensures
            is_entries_of(r@, self.engine()@),
    {
        self.dispatcher.storage().entries()
    }

    /// The text of a compacted log for `entries`, and a reset of the
    /// writer's file size to its length.
    pub fn compaction(&mut self, entries: &Vec<Entry>) -> (r: StorageResult<String>)
        requires
            old(self).wf(),
        ensures
            final(self).wf(),
            final(self).engine() == old(self).engine(),
            final(self).log() is Some <==> old(self).log() is Some,
            r is Ok <==> forall|i: int|
                0 <= i < entries@.len() ==> (#[trigger] entries@[i]).value@.len() <= MAX_ENCODE_INPUT,
            r is Ok ==> r->Ok_0@ == records_text(
                entries@.map_values(|e: Entry| OpModel::Put { key: e.key@, value: e.value@ }),
            ),
            r is Ok && (forall|i: int| 0 <= i < entries@.len() ==> is_log_key((#[trigger] entries@[i]).key@))
                ==> log_ops(r->Ok_0@) == entries@.map_values(
                |e: Entry| OpModel::Put { key: e.key@, value: e.value@ },
            ),
    {
        let text = compaction_text(entries)?;
        let size = text.as_str().as_bytes().len() as u64;
        match &mut self.log {
            Some(l) => l.reopened(size),
            None => {},
        }
        Ok(text)
    }

    /// The engine's counters.
    pub fn storage_stats(&self) -> (r: StorageResult<StorageStats>)
        requires
            self.wf(),
        ensures
            r is Ok,
            r->Ok_0.total_keys == self.engine()@.len(),
            r->Ok_0.memory_usage == self.engine().memory(),
    {
        self.dispatcher.storage().stats()
    }

    /// The dispatcher that executes commands.
    pub fn dispatcher(&self) -> (r: &CommandDispatcher)
        ensures
            r.engine() == self.engine(),
    {
        &self.dispatcher
    }

    /// Whether a log is attached.
    pub fn has_log(&self) -> (r: bool)
        ensures
            r == self.log() is Some,
    {
        self.log.is_some()
    }

    /// The dispatcher's engine.
    pub fn storage(&self) -> (r: &MemoryEngine)
        ensures
            *r == self.engine(),
    {
        self.dispatcher.storage()
    }

    /// Counters of the log writer and of snapshots.
    pub fn persistence_stats(&self, snapshot_enabled: bool, snapshot_count: usize) -> (r:
        PersistenceStats)
        ensures
            r.aof_enabled == self.log() is Some,
            r.snapshot_enabled == snapshot_enabled,
            r.snapshot_count == snapshot_count,
    {
        PersistenceStats {
            aof_enabled: self.log.is_some(),
            aof_stats: match &self.log {
                Some(l) => Some(l.stats()),
                None => None,
            },
            snapshot_enabled,
            snapshot_count,
        }
    }
}

} // verus!
