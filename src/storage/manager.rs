//! The snapshot-and-compaction cycle: what to publish and what the log
//! becomes. The caller writes the files the plan names.

use vstd::prelude::*;
use vstd::string::StringExecFns;
use crate::bootstrap::BlazeKVDB;
use crate::config::PersistenceConfig;
use crate::encoding::MAX_ENCODE_INPUT;
use crate::storage::{OpModel, StorageError, StorageResult};
use crate::storage::aof::{is_log_key, log_ops, records_text};
use crate::storage::memory::{Entry, is_entries_of};
use crate::storage::snapshot::{
    KEEP_SNAPSHOTS, LAST_STAMP_SECOND, Snapshot, Snapshotter, rank, snapshot_bytes, stamp_of,
};

verus! {

/// The files one snapshot cycle writes.
pub struct SnapshotPlan {
    /// Where the new snapshot is published (through a temporary file and a
    /// rename).
    pub target_path: String,
    /// The alias that receives a copy of the new snapshot.
    pub latest_path: String,
    /// The snapshot's binary form.
    pub bytes: Vec<u8>,
    /// The compacted log that replaces the log file, where a log is kept.
    pub compacted_log: Option<String>,
}

/// Owns the persistence settings and the snapshot directory's rules.
pub struct PersistenceManager {
    config: PersistenceConfig,
    snapshotter: Option<Snapshotter>,
}

impl PersistenceManager {
    pub closed spec fn snapshots_enabled(&self) -> bool {
        self.snapshotter is Some
    }

    pub closed spec fn log_enabled(&self) -> bool {
        self.config.enabled
    }

    pub closed spec fn snapshot_dir(&self) -> Seq<char> {
        self.snapshotter->Some_0.dir()
    }

    pub fn new(config: PersistenceConfig) -> (r: PersistenceManager)
        ensures
            r.snapshots_enabled() == config.snapshot_enabled,
            r.log_enabled() == config.enabled,
            r.snapshots_enabled() ==> r.snapshot_dir() == config.snapshot_dir@,
    {
        let snapshotter = if config.snapshot_enabled {
            Some(Snapshotter::new(config.snapshot_dir.clone()))
        } else {
            None
        };
        PersistenceManager { config, snapshotter }
    }

    /// The snapshot directory's rules, where snapshots are enabled.
    pub fn snapshotter(&self) -> (r: Option<&Snapshotter>)
        ensures
            r is Some == self.snapshots_enabled(),
    {
        match &self.snapshotter {
            Some(s) => Some(s),
            None => None,
        }
    }

    /// Plans one cycle at time `now`: a snapshot of the whole live state,
    /// then, where a log is kept, the log rewritten as one write per entry
    /// of that same state. Fails where snapshots are disabled or chrono has
    /// no date for `now`.
    #[verifier::rlimit(100)]
    #[verifier::spinoff_prover]
    pub fn create_snapshot(&self, db: &mut BlazeKVDB, now: i64, version: String) -> (r:
        StorageResult<SnapshotPlan>)
        requires
            old(db).wf(),
        ensures
            final(db).wf(),
            final(db).engine() == old(db).engine(),
            !self.snapshots_enabled() ==> (r matches Err(StorageError::Persistence(m)) && m@
                == "Snapshots not enabled"@),
            self.snapshots_enabled() && 0 <= now <= LAST_STAMP_SECOND && (forall|k: Seq<char>|
                old(db).engine()@.contains_key(k) ==> old(db).engine()@[k].len()
                    <= MAX_ENCODE_INPUT) ==> r is Ok,
            r is Ok ==> self.snapshots_enabled(),
            r matches Ok(plan) ==> ({
                &&& plan.target_path@ == self.snapshot_dir() + "/"@ + "snapshot-"@ + stamp_of(now)
                    + ".rdb"@
                &&& plan.latest_path@ == self.snapshot_dir() + "/"@ + "snapshot-latest.rdb"@
                &&& exists|s: Snapshot|
                    is_entries_of(s.data@, old(db).engine()@) && s.metadata.timestamp == now
                        && plan.bytes@ == snapshot_bytes(s@)
                &&& (plan.compacted_log is Some <==> self.log_enabled() && old(db).log() is Some)
                &&& plan.compacted_log matches Some(text) ==> exists|es: Seq<Entry>|
                    is_entries_of(es, old(db).engine()@) && text@ == records_text(
                        es.map_values(|e: Entry| OpModel::Put { key: e.key@, value: e.value@ }),
                    ) && ((forall|k: Seq<char>| old(db).engine()@.contains_key(k) ==> is_log_key(k))
                        ==> log_ops(text@) == es.map_values(
                        |e: Entry| OpModel::Put { key: e.key@, value: e.value@ },
                    ))
            }),
    {
        let snapshotter = match &self.snapshotter {
            Some(s) => s,
            None => {
                return Err(StorageError::Persistence(String::from_str("Snapshots not enabled")));
            },
        };
        let name = match Snapshotter::file_name(now) {
            Some(n) => n,
            None => {
                return Err(StorageError::Persistence(String::from_str("time out of range")));
            },
        };
        let bytes = Self::snapshot_bytes_of(db, now, version);
        let compacted_log = self.compacted_log(db)?;
        Ok(
            SnapshotPlan {
                target_path: snapshotter.path_of(name.as_str()),
                latest_path: snapshotter.latest_path(),
                bytes,
                compacted_log,
            },
        )
    }

    fn snapshot_bytes_of(db: &BlazeKVDB, now: i64, version: String) -> (r: Vec<u8>)
        requires
            db.wf(),
        ensures
            exists|s: Snapshot|
                is_entries_of(s.data@, db.engine()@) && s.metadata.timestamp == now && r@
                    == snapshot_bytes(s@),
    {
        let snapshot = Snapshot::new(db.live_entries(), now, version);
        snapshot.to_bytes()
    }

    fn compacted_log(&self, db: &mut BlazeKVDB) -> (r: StorageResult<Option<String>>)
        requires
            old(db).wf(),
        ensures
            final(db).wf(),
            final(db).engine() == old(db).engine(),
            (forall|k: Seq<char>|
                old(db).engine()@.contains_key(k) ==> old(db).engine()@[k].len() <= MAX_ENCODE_INPUT)
                ==> r is Ok,
            r matches Ok(c) ==> (c is Some <==> self.log_enabled() && old(db).log() is Some),
            r matches Ok(Some(text)) ==> exists|es: Seq<Entry>|
                is_entries_of(es, old(db).engine()@) && text@ == records_text(
                    es.map_values(|e: Entry| OpModel::Put { key: e.key@, value: e.value@ }),
                ) && ((forall|k: Seq<char>| old(db).engine()@.contains_key(k) ==> is_log_key(k))
                    ==> log_ops(text@) == es.map_values(
                    |e: Entry| OpModel::Put { key: e.key@, value: e.value@ },
                )),
    {
        if !(self.config.enabled && db.has_log()) {
            return Ok(None);
        }
        let entries = db.live_entries();
        proof {
            if forall|k: Seq<char>| db.engine()@.contains_key(k) ==> is_log_key(k) {
                assert forall|i: int| 0 <= i < entries@.len() implies is_log_key(
                    (#[trigger] entries@[i]).key@,
                ) by {
                    assert(db.engine()@.contains_key(entries@[i].key@));
                }
            }
            assert forall|i: int| 0 <= i < entries@.len() implies (
            #[trigger] entries@[i]).value@.len() <= MAX_ENCODE_INPUT || !(forall|k: Seq<char>|
                db.engine()@.contains_key(k) ==> db.engine()@[k].len() <= MAX_ENCODE_INPUT) by {
                assert(db.engine()@.contains_key(entries@[i].key@));
            }
        }
        let text = db.compaction(&entries)?;
        Ok(Some(text))
    }

    /// The indices, among the timestamps of the snapshots found, of those
    /// that retention deletes.
    pub fn retention(&self, timestamps: &Vec<i64>) -> (r: Vec<usize>)
        ensures
            forall|a: int, b: int| 0 <= a < b < r@.len() ==> r@[a] < r@[b],
            forall|a: int| 0 <= a < r@.len() ==> (#[trigger] r@[a]) < timestamps@.len(),
            forall|i: int|
                0 <= i < timestamps@.len() ==> (rank(timestamps@, i) + KEEP_SNAPSHOTS
                    < timestamps@.len() <==> exists|a: int| 0 <= a < r@.len() && r@[a] == i),
    {
        Snapshotter::retention_victims(timestamps, KEEP_SNAPSHOTS)
    }
}

} // verus!
