//! Recovery: restore the latest snapshot, then replay the log.

use vstd::prelude::*;
use crate::storage::{
    Contents, OpModel, StorageResult, all_admitted, apply_op, apply_ops, lemma_admitted_extend,
    step_admitted,
    lemma_apply_ops_idempotent, lemma_rejected_step,
};
use crate::storage::memory::{Entry, copy_bytes, lemma_memory_accounting};
use crate::storage::aof::{Operation, ops_view};
use crate::storage::memory::MemoryEngine;
use crate::storage::snapshot::{Snapshot, restore_ops};

verus! {

/// What a recovery did.
#[derive(Debug, Clone, Default, PartialEq, Eq)]
pub struct RecoveryStats {
    pub snapshot_loaded: bool,
    /// Creation time of the restored snapshot, in seconds since the epoch.
    pub snapshot_timestamp: Option<i64>,
    pub keys_from_snapshot: usize,
    pub aof_operations_total: usize,
    pub aof_operations_replayed: usize,
    pub final_key_count: usize,
}

/// The writes and deletions a recovery performs, in order: the snapshot's
/// entries, then the log's operations.
pub open spec fn recovery_ops(snapshot: Option<Snapshot>, log: Seq<Operation>) -> Seq<OpModel> {
    match snapshot {
        Some(s) => restore_ops(s.data@) + ops_view(log),
        None => ops_view(log),
    }
}

/// Composes snapshot restore with log replay.
pub struct RecoveryManager;

impl RecoveryManager {
    /// Applies every entry of `snapshot` with `set`, then every logged
    /// operation (`Put` with `set`, `Delete` with `delete`). It fails, at the
    /// first write the engine rejects, exactly when some write of that
    /// sequence does not pass admission.
    #[verifier::loop_isolation(false)]
    #[verifier::rlimit(100)]
    #[verifier::spinoff_prover]
    pub fn recover(
        engine: &mut MemoryEngine,
        snapshot: Option<Snapshot>,
        operations: Vec<Operation>,
    ) -> (r: StorageResult<RecoveryStats>)
        requires
            old(engine).wf(),
        ensures
            final(engine).wf(),
            final(engine).same_settings(old(engine)),
            r is Ok <==> all_admitted(
                old(engine)@,
                old(engine).max_memory(),
                recovery_ops(snapshot, operations@),
            ),
            r is Ok ==> final(engine)@ == apply_ops(
                old(engine)@,
                recovery_ops(snapshot, operations@),
            ),
            r is Ok ==> r->Ok_0.final_key_count == final(engine)@.len()
                && r->Ok_0.snapshot_loaded == snapshot is Some
                && r->Ok_0.snapshot_timestamp == (match snapshot {
                    Some(s) => Some(s.metadata.timestamp),
                    None => None,
                })
                && r->Ok_0.keys_from_snapshot == (match snapshot {
                    Some(s) => s.data@.len(),
                    None => 0,
                })
                && r->Ok_0.aof_operations_total == operations@.len()
                && r->Ok_0.aof_operations_replayed == operations@.len(),
    {
        let ghost m0 = engine@;
        let ghost max = engine.max_memory();
        let ghost all = recovery_ops(snapshot, operations@);
        let ghost first: Seq<OpModel> = if snapshot is Some {
            restore_ops(snapshot->Some_0.data@)
        } else {
            Seq::empty()
        };
        let ghost rest = ops_view(operations@);
        assert(all =~= first + rest);
        assert(all.subrange(0, 0) =~= Seq::<OpModel>::empty());
        let mut stats = RecoveryStats {
            snapshot_loaded: false,
            snapshot_timestamp: None,
            keys_from_snapshot: 0,
            aof_operations_total: 0,
            aof_operations_replayed: 0,
            final_key_count: 0,
        };
        match snapshot {
            Some(snap) => {
                let n = snap.data.len();
                let mut i: usize = 0;
                while i < n
                    invariant
                        engine.wf(),
                        engine.same_settings(old(engine)),
                        max == engine.max_memory(),
                        n == snap.data@.len(),
                        first == restore_ops(snap.data@),
                        all == first + rest,
                        0 <= i <= n,
                        engine@ == apply_ops(m0, all.subrange(0, i as int)),
                        all_admitted(m0, max, all.subrange(0, i as int)),
                    decreases n - i,
                {
                    let e = &snap.data[i];
                    proof {
                        assert(all[i as int] == OpModel::Put { key: e.key@, value: e.value@ });
                    }
                    match restore_entry(engine, e) {
                        Ok(()) => {
                            proof {
                                lemma_admitted_extend(m0, max, all, i as int);
                            }
                        },
                        Err(err) => {
                            proof {
                                lemma_rejected_step(m0, max, all, i as int);
                            }
                            return Err(err);
                        },
                    }
                    i += 1;
                }
                stats.snapshot_loaded = true;
                stats.keys_from_snapshot = n;
                stats.snapshot_timestamp = Some(snap.metadata.timestamp);
            },
            None => {},
        }
        let n = operations.len();
        let mut i: usize = 0;
        while i < n
            invariant
                engine.wf(),
                engine.same_settings(old(engine)),
                max == engine.max_memory(),
                n == operations@.len(),
                rest == ops_view(operations@),
                all == first + rest,
                0 <= i <= n,
                engine@ == apply_ops(m0, all.subrange(0, first.len() + i)),
                all_admitted(m0, max, all.subrange(0, first.len() + i)),
            decreases n - i,
        {
            let ghost k = first.len() + i;
            proof {
                assert(all[k] == operations@[i as int]@);
            }
            match replay_operation(engine, &operations[i]) {
                Ok(()) => {
                    proof {
                        lemma_admitted_extend(m0, max, all, k);
                    }
                },
                Err(err) => {
                    proof {
                        lemma_rejected_step(m0, max, all, k);
                    }
                    return Err(err);
                },
            }
            i += 1;
        }
        assert(all.subrange(0, first.len() + n) =~= all);
        stats.aof_operations_total = n;
        stats.aof_operations_replayed = n;
        match engine.stats() {
            Ok(s) => {
                stats.final_key_count = s.total_keys;
            },
            Err(_) => {},
        }
        Ok(stats)
    }
}

/// Restores one snapshot entry with `set`.
fn restore_entry(engine: &mut MemoryEngine, e: &Entry) -> (r: StorageResult<()>)
    requires
        old(engine).wf(),
    ensures
        final(engine).wf(),
        final(engine).same_settings(old(engine)),
        r is Ok <==> step_admitted(
            old(engine)@,
            old(engine).max_memory(),
            OpModel::Put { key: e.key@, value: e.value@ },
        ),
        r is Ok ==> final(engine)@ == apply_op(
            old(engine)@,
            OpModel::Put { key: e.key@, value: e.value@ },
        ),
{
    proof {
        lemma_memory_accounting(engine);
    }
    engine.set(e.key.as_str(), copy_bytes(&e.value))
}

/// Replays one logged operation: `Put` with `set`, `Delete` with `delete`.
fn replay_operation(engine: &mut MemoryEngine, op: &Operation) -> (r: StorageResult<()>)
    requires
        old(engine).wf(),
    ensures
        final(engine).wf(),
        final(engine).same_settings(old(engine)),
        r is Ok <==> step_admitted(old(engine)@, old(engine).max_memory(), op@),
        r is Ok ==> final(engine)@ == apply_op(old(engine)@, op@),
{
    proof {
        lemma_memory_accounting(engine);
    }
    match op {
        Operation::Put { key, value } => engine.set(key.as_str(), copy_bytes(value)),
        Operation::Delete { key } => {
            let _ = engine.delete(key.as_str());
            Ok(())
        },
    }
}

/// Recovery is idempotent: running it a second time, from the state the
/// first run left and on the same snapshot and log, gives the same
/// contents again.
pub proof fn lemma_recovery_idempotent(
    m: Contents,
    snapshot: Option<Snapshot>,
    log: Seq<Operation>,
)
    ensures
        apply_ops(apply_ops(m, recovery_ops(snapshot, log)), recovery_ops(snapshot, log))
            == apply_ops(m, recovery_ops(snapshot, log)),
{
    lemma_apply_ops_idempotent(m, recovery_ops(snapshot, log));
}

} // verus!
