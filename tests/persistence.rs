use blazekvdb::bootstrap::BlazeKVDB;
use blazekvdb::commands::delete::DeleteCommand;
use blazekvdb::commands::get::GetCommand;
use blazekvdb::commands::set::SetCommand;
use blazekvdb::commands::{Command, CommandResponse};
use blazekvdb::config::{FsyncPolicy, PersistenceConfig, default_fsync_policy};
use blazekvdb::storage::aof::{AppendOnlyFile, Operation, compaction_text, read_operations};
use blazekvdb::storage::manager::PersistenceManager;
use blazekvdb::storage::memory::{Entry, MemoryEngine};
use blazekvdb::storage::recovery::RecoveryManager;
use blazekvdb::storage::snapshot::{SNAPSHOT_FORMAT_VERSION, Snapshot, Snapshotter, KEEP_SNAPSHOTS};
use blazekvdb::storage::StorageConfig;

fn put(k: &str, v: &[u8]) -> Operation {
    Operation::Put { key: k.to_string(), value: v.to_vec() }
}

fn del(k: &str) -> Operation {
    Operation::Delete { key: k.to_string() }
}

fn aof_round_trip() {
    let mut aof = AppendOnlyFile::new("test.aof".to_string(), FsyncPolicy::Always, 0);
    let op1 = put("key1", b"value1");
    let op2 = del("key2");
    aof.log_operation(op1.clone()).unwrap();
    aof.log_operation(op2.clone()).unwrap();
    let batch = aof.take_pending();
    assert_eq!(batch.syncs, vec![true, true]);
    let text: String = batch.lines.concat();
    let ops = read_operations(&text);
    assert_eq!(ops.len(), 2);
    match &ops[0] {
        Operation::Put { key, value } => {
            assert_eq!(key, "key1");
            assert_eq!(value, b"value1");
        }
        _ => panic!("Expected Put operation"),
    }
    match &ops[1] {
        Operation::Delete { key } => {
            assert_eq!(key, "key2");
        }
        _ => panic!("Expected Delete operation"),
    }
}

#[test]
fn test_aof_test_aof_operations() {
    aof_round_trip();
}

#[test]
fn test_persistence_test_aof_operations() {
    aof_round_trip();
}

#[test]
fn log_records_round_trip() {
    for op in [put("a", b"hello"), put("k", b""), put("bin", &[0, 255, 10, 32]), del("gone")] {
        let line = op.to_aof_entry().unwrap();
        assert!(line.ends_with('\n'));
        assert_eq!(Operation::from_aof_entry(&line).unwrap(), op);
    }
    assert_eq!(put("a", b"1").to_aof_entry().unwrap(), "SET a MQ==\n");
    assert_eq!(del("a").to_aof_entry().unwrap(), "DEL a\n");
}

#[test]
fn malformed_log_lines_are_skipped() {
    let text = "SET a MQ==\ngarbage\nSET b not*base64\nDEL\nDEL x y\n\nSET c Mw==\r\nDEL a";
    let ops = read_operations(text);
    assert_eq!(ops, vec![put("a", b"1"), put("c", b"3"), del("a")]);
    assert!(Operation::from_aof_entry("SET k").is_err());
    assert!(Operation::from_aof_entry("PUT k MQ==").is_err());
    // Keys are never empty.
    assert!(Operation::from_aof_entry("DEL ").is_err());
    assert!(Operation::from_aof_entry("DEL \n").is_err());
    assert!(Operation::from_aof_entry("SET  MQ==").is_err());
    assert_eq!(read_operations("DEL \nSET  MQ==\nDEL a\n"), vec![del("a")]);
}

#[test]
fn fsync_policy_decides_when_to_sync() {
    let mut every = AppendOnlyFile::new("x".to_string(), FsyncPolicy::EveryN(2), 0);
    every.log_operation(put("a", b"1")).unwrap();
    assert_eq!(every.take_pending().syncs, vec![false]);
    every.log_operation(put("b", b"2")).unwrap();
    assert_eq!(every.take_pending().syncs, vec![true]);
    for k in ["c", "d", "e", "f", "g"] {
        every.log_operation(put(k, b"1")).unwrap();
    }
    // Records 3 to 7: an fsync after the 4th and the 6th.
    assert_eq!(every.take_pending().syncs, vec![false, true, false, true, false]);
    let mut never = AppendOnlyFile::new("x".to_string(), FsyncPolicy::Never, 0);
    never.log_operation(put("a", b"1")).unwrap();
    assert_eq!(never.take_pending().syncs, vec![false]);
    let mut always = AppendOnlyFile::new("x".to_string(), FsyncPolicy::Always, 0);
    assert!(always.take_pending().syncs.is_empty());
    let stats = always.stats();
    assert_eq!((stats.operations_logged, stats.file_size_bytes), (0, 0));
    always.log_operation(put("a", b"1")).unwrap();
    let b = always.take_pending();
    assert_eq!(b.syncs, vec![true]);
    assert_eq!(b.lines, vec!["SET a MQ==\n".to_string()]);
    let stats = always.stats();
    assert_eq!((stats.operations_logged, stats.file_size_bytes), (1, 11));
    always.close();
    assert!(always.log_operation(put("b", b"2")).is_err());
    assert!(always.take_pending().lines.is_empty());
}

#[test]
fn compaction_text_replays_to_the_state() {
    let entries = vec![
        Entry { key: "a".to_string(), value: b"1".to_vec() },
        Entry { key: "b".to_string(), value: b"2".to_vec() },
    ];
    let text = compaction_text(&entries).unwrap();
    assert_eq!(text, "SET a MQ==\nSET b Mg==\n");
    assert_eq!(read_operations(&text), vec![put("a", b"1"), put("b", b"2")]);
}

fn sample_snapshot() -> Snapshot {
    let data = vec![
        Entry { key: "key1".to_string(), value: b"value1".to_vec() },
        Entry { key: "key2".to_string(), value: b"value2".to_vec() },
    ];
    Snapshot::new(data, 1_700_000_000, "0.1.0".to_string())
}

#[test]
fn test_snapshot_creation_and_loading() {
    let snapshot = sample_snapshot();
    assert_eq!(snapshot.metadata.total_keys, 2);
    assert_eq!(snapshot.metadata.total_size, 20);
    let bytes = snapshot.to_bytes();
    let loaded = Snapshot::from_bytes(&bytes).unwrap();
    assert_eq!(loaded.data.len(), 2);
    let v1 = loaded.data.iter().find(|e| e.key == "key1").map(|e| e.value.clone());
    assert_eq!(v1.unwrap(), b"value1");
}

#[test]
fn snapshot_bytes_round_trip() {
    let mut s = sample_snapshot();
    s.metadata.checksum = Some("abc".to_string());
    s.metadata.timestamp = -5;
    s.data.push(Entry { key: "ünï".to_string(), value: vec![0, 1, 2] });
    let back = Snapshot::from_bytes(&s.to_bytes()).unwrap();
    assert_eq!(back.metadata.format_version, SNAPSHOT_FORMAT_VERSION);
    assert_eq!(back.metadata.version, "0.1.0");
    assert_eq!(back.metadata.timestamp, -5);
    assert_eq!(back.metadata.total_keys, 2);
    assert_eq!(back.metadata.checksum, Some("abc".to_string()));
    let pairs: Vec<(String, Vec<u8>)> = back.data.into_iter().map(|e| (e.key, e.value)).collect();
    assert_eq!(pairs.len(), 3);
    assert_eq!(pairs[2], ("ünï".to_string(), vec![0, 1, 2]));
}

#[test]
fn snapshot_decoding_rejects_bad_payloads() {
    let bytes = sample_snapshot().to_bytes();
    let mut newer = bytes.clone();
    newer[0] = (SNAPSHOT_FORMAT_VERSION + 1) as u8;
    assert!(Snapshot::from_bytes(&newer).is_err());
    let mut truncated = bytes.clone();
    truncated.pop();
    assert!(Snapshot::from_bytes(&truncated).is_err());
    let mut longer = bytes.clone();
    longer.push(0);
    assert!(Snapshot::from_bytes(&longer).is_err());
    assert!(Snapshot::from_bytes(&Vec::new()).is_err());
}

#[test]
fn test_recovery_with_snapshot_and_aof() {
    let mut storage = MemoryEngine::new(StorageConfig::default());
    storage.set("key1", b"value1".to_vec()).unwrap();
    let snapshot = Snapshot::new(
        vec![Entry { key: "key1".to_string(), value: b"value1".to_vec() }],
        0,
        "0.1.0".to_string(),
    );
    storage.delete("key1").unwrap();
    let stats = RecoveryManager::recover(&mut storage, Some(snapshot), Vec::new()).unwrap();
    println!("stats: {:?}", stats);
    assert!(stats.snapshot_loaded);
    assert_eq!(stats.keys_from_snapshot, 1);
    assert_eq!(storage.get("key1").unwrap(), Some(b"value1".to_vec()));
}

#[test]
fn recovery_from_log_only() {
    let mut aof = AppendOnlyFile::new("a.aof".to_string(), FsyncPolicy::Always, 0);
    aof.log_operation(put("a", b"1")).unwrap();
    aof.log_operation(put("b", b"2")).unwrap();
    aof.log_operation(del("a")).unwrap();
    let text: String = aof.take_pending().lines.concat();
    let mut engine = MemoryEngine::new(StorageConfig::default());
    let stats = RecoveryManager::recover(&mut engine, None, read_operations(&text)).unwrap();
    assert!(!stats.snapshot_loaded);
    assert_eq!((stats.aof_operations_total, stats.aof_operations_replayed, stats.final_key_count), (3, 3, 1));
    assert_eq!(engine.get("a").unwrap(), None);
    assert_eq!(engine.get("b").unwrap(), Some(b"2".to_vec()));
}

#[test]
fn recovery_from_snapshot_and_log_tail() {
    let mut engine = MemoryEngine::new(StorageConfig::default());
    for i in 0..100 {
        engine.set(&format!("key{}", i), format!("v{}", i).into_bytes()).unwrap();
    }
    let snapshot = Snapshot::new(engine.entries(), 0, "0.1.0".to_string());
    let bytes = snapshot.to_bytes();
    let tail: Vec<Operation> = (100..150).map(|i| put(&format!("key{}", i), format!("v{}", i).as_bytes())).collect();
    let mut restored = MemoryEngine::new(StorageConfig::default());
    let stats = RecoveryManager::recover(&mut restored, Some(Snapshot::from_bytes(&bytes).unwrap()), tail).unwrap();
    assert_eq!(stats.final_key_count, 150);
    assert_eq!(restored.stats().unwrap().total_keys, 150);
    for i in 0..150 {
        assert_eq!(restored.get(&format!("key{}", i)).unwrap(), Some(format!("v{}", i).into_bytes()));
    }
}

#[test]
fn recovery_twice_gives_the_same_state() {
    let snap = || {
        Snapshot::new(
            vec![
                Entry { key: "a".to_string(), value: b"1".to_vec() },
                Entry { key: "b".to_string(), value: b"2".to_vec() },
            ],
            0,
            "0.1.0".to_string(),
        )
    };
    let ops = || vec![del("a"), put("c", b"3"), put("b", b"4")];
    let mut engine = MemoryEngine::new(StorageConfig::default());
    RecoveryManager::recover(&mut engine, Some(snap()), ops()).unwrap();
    let mut first: Vec<(String, Vec<u8>)> = engine.entries().into_iter().map(|e| (e.key, e.value)).collect();
    first.sort();
    RecoveryManager::recover(&mut engine, Some(snap()), ops()).unwrap();
    let mut second: Vec<(String, Vec<u8>)> = engine.entries().into_iter().map(|e| (e.key, e.value)).collect();
    second.sort();
    assert_eq!(first, second);
    assert_eq!(first, vec![("b".to_string(), b"4".to_vec()), ("c".to_string(), b"3".to_vec())]);
}

#[test]
fn recovery_fails_when_a_write_is_refused() {
    let config = StorageConfig { max_memory: 100, ..Default::default() };
    let mut engine = MemoryEngine::new(config);
    let r = RecoveryManager::recover(&mut engine, None, vec![put("a", &[0u8; 20]), put("b", &[0u8; 20])]);
    assert!(r.is_err());
}

#[test]
fn test_persistence_manager_initialization() {
    let config = PersistenceConfig {
        enabled: true,
        aof_path: "test.aof".to_string(),
        fsync_policy: FsyncPolicy::EveryN(100),
        snapshot_enabled: true,
        snapshot_interval: 3600,
        snapshot_dir: "snapshots".to_string(),
    };
    let aof = AppendOnlyFile::new(config.aof_path.clone(), config.fsync_policy, 0);
    let db = BlazeKVDB::new(MemoryEngine::new(StorageConfig::default()), Some(aof));
    let stats = db.persistence_stats(config.snapshot_enabled, 0);
    assert!(stats.aof_enabled);
    assert!(stats.snapshot_enabled);
    assert_eq!(default_fsync_policy(), FsyncPolicy::EveryN(100));
    assert_eq!(PersistenceConfig::default_settings().aof_path, "data/blazekvdb.aof");
}

#[test]
fn test_full_persistence_cycle() {
    let aof = AppendOnlyFile::new("test.aof".to_string(), FsyncPolicy::Always, 0);
    let mut db = BlazeKVDB::new(MemoryEngine::new(StorageConfig::default()), Some(aof));
    let mut log = String::new();
    for (k, v) in [("key1", "value1"), ("key2", "value2")] {
        let r = db.execute(Command::Put(SetCommand::new(k.to_string(), v.as_bytes().to_vec())));
        assert_eq!(r, CommandResponse::Success);
        log.push_str(&db.take_log_batch().unwrap().lines.concat());
    }
    let snapshot = Snapshot::new(db.live_entries(), 0, "0.1.0".to_string()).to_bytes();
    let entries = db.live_entries();
    let compacted = db.compaction(&entries).unwrap();
    let mut fresh = MemoryEngine::new(StorageConfig::default());
    let stats = RecoveryManager::recover(
        &mut fresh,
        Some(Snapshot::from_bytes(&snapshot).unwrap()),
        read_operations(&compacted),
    )
    .unwrap();
    assert!(stats.snapshot_loaded || stats.aof_operations_replayed > 0);
    assert_eq!(fresh.get("key1").unwrap(), Some(b"value1".to_vec()));
    assert_eq!(read_operations(&log).len(), 2);
}

#[test]
fn mutations_are_logged_before_they_apply() {
    let aof = AppendOnlyFile::new("t.aof".to_string(), FsyncPolicy::Always, 0);
    let mut db = BlazeKVDB::new(MemoryEngine::new(StorageConfig { max_memory: 200, ..Default::default() }), Some(aof));
    assert_eq!(db.execute(Command::Put(SetCommand::new("k".to_string(), b"v".to_vec()))), CommandResponse::Success);
    assert_eq!(db.execute(Command::Get(GetCommand::new("k".to_string()))), CommandResponse::Value(b"v".to_vec()));
    // Refused writes are not logged.
    let big = db.execute(Command::Put(SetCommand::new("big".to_string(), vec![0; 500])));
    assert!(matches!(big, CommandResponse::Error(_)));
    let invalid = db.execute(Command::Put(SetCommand::new(String::new(), b"v".to_vec())));
    assert!(matches!(invalid, CommandResponse::Error(_)));
    assert_eq!(db.execute(Command::Delete(DeleteCommand::new("k".to_string()))), CommandResponse::Bool(true));
    let batch = db.take_log_batch().unwrap();
    assert_eq!(batch.syncs, vec![true, true]);
    assert_eq!(batch.lines, vec!["SET k dg==\n".to_string(), "DEL k\n".to_string()]);
}

#[test]
fn a_closed_log_refuses_mutations_without_applying_them() {
    let mut aof = AppendOnlyFile::new("t.aof".to_string(), FsyncPolicy::Always, 0);
    aof.close();
    let mut db = BlazeKVDB::new(MemoryEngine::new(StorageConfig::default()), Some(aof));
    let r = db.execute(Command::Put(SetCommand::new("k".to_string(), b"v".to_vec())));
    assert_eq!(r, CommandResponse::Error("Persistence error: log writer is closed".to_string()));
    assert_eq!(db.storage().stats().unwrap().total_keys, 0);
    assert_eq!(db.execute(Command::Ping), CommandResponse::Pong);
}

#[test]
fn snapshot_names_and_retention() {
    assert_eq!(Snapshotter::file_name(0).unwrap(), "snapshot-19700101-000000.rdb");
    assert_eq!(Snapshotter::file_name(1_700_000_000).unwrap(), "snapshot-20231114-221320.rdb");
    let s = Snapshotter::new("data/snapshots".to_string());
    assert_eq!(s.latest_path(), "data/snapshots/snapshot-latest.rdb");
    assert_eq!(s.snapshot_dir(), "data/snapshots");
    assert!(Snapshotter::is_snapshot_file("snapshot-20231114-221320.rdb"));
    assert!(!Snapshotter::is_snapshot_file("snapshot-latest.rdb"));
    assert!(!Snapshotter::is_snapshot_file(".rdb"));
    assert!(!Snapshotter::is_snapshot_file("x.rdb.tmp"));
    let stamps = vec![70, 10, 60, 20, 50, 30, 40];
    assert_eq!(Snapshotter::retention_victims(&stamps, KEEP_SNAPSHOTS), vec![1, 3]);
    assert!(Snapshotter::retention_victims(&vec![1, 2, 3], KEEP_SNAPSHOTS).is_empty());
    assert_eq!(Snapshotter::retention_victims(&vec![5, 5, 5], 1), vec![0, 1]);
}

#[test]
fn snapshot_cycle_plan() {
    let config = PersistenceConfig {
        enabled: true,
        aof_path: "t.aof".to_string(),
        fsync_policy: FsyncPolicy::Always,
        snapshot_enabled: true,
        snapshot_interval: 3600,
        snapshot_dir: "snaps".to_string(),
    };
    let aof = AppendOnlyFile::new("t.aof".to_string(), FsyncPolicy::Always, 0);
    let mut db = BlazeKVDB::new(MemoryEngine::new(StorageConfig::default()), Some(aof));
    db.execute(Command::Put(SetCommand::new("a".to_string(), b"1".to_vec())));
    let manager = PersistenceManager::new(config.clone());
    let plan = manager.create_snapshot(&mut db, 0, "0.1.0".to_string()).unwrap();
    assert_eq!(plan.target_path, "snaps/snapshot-19700101-000000.rdb");
    assert_eq!(plan.latest_path, "snaps/snapshot-latest.rdb");
    assert_eq!(plan.compacted_log, Some("SET a MQ==\n".to_string()));
    let restored = Snapshot::from_bytes(&plan.bytes).unwrap();
    assert_eq!(restored.data.len(), 1);
    assert_eq!(manager.retention(&vec![1, 2, 3, 4, 5, 6]), vec![0]);
    let off = PersistenceManager::new(PersistenceConfig { snapshot_enabled: false, ..config });
    match off.create_snapshot(&mut db, 0, "0.1.0".to_string()) {
        Err(e) => assert_eq!(e.message(), "Persistence error: Snapshots not enabled"),
        Ok(_) => panic!("snapshots are disabled"),
    }
    assert!(off.snapshotter().is_none());
}

#[test]
fn written_records_read_back() {
    let mut aof = AppendOnlyFile::new("r.aof".to_string(), FsyncPolicy::EveryN(3), 0);
    let ops = vec![put("k1", b"v1"), del("k2"), put("k3", &[0, 1, 255]), put("k4", b"")];
    for op in &ops {
        aof.log_operation(op.clone()).unwrap();
    }
    let batch = aof.take_pending();
    assert_eq!(batch.syncs, vec![false, false, true, false]);
    let text: String = batch.lines.concat();
    assert_eq!(read_operations(&text), ops);
    let stats = aof.stats();
    assert_eq!(stats.operations_logged, 4);
    assert_eq!(stats.file_size_bytes, text.len() as u64);
}
