use blazekvdb::storage::memory::MemoryEngine;
use blazekvdb::storage::{StorageConfig, StorageError};

#[test]
fn test_basic_operations() {
    let mut engine = MemoryEngine::new(StorageConfig::default());
    engine.set("key1", b"value1".to_vec()).unwrap();
    let result = engine.get("key1").unwrap();
    assert_eq!(result, Some(b"value1".to_vec()));
    let deleted = engine.delete("key1").unwrap();
    assert!(deleted);
    let result = engine.get("key1").unwrap();
    assert_eq!(result, None);
}

#[test]
fn test_sharding() {
    let config = StorageConfig { shard_count: 4, ..Default::default() };
    let mut engine = MemoryEngine::new(config);
    for i in 0..100 {
        let key = format!("key{}", i);
        let value = format!("value{}", i).into_bytes();
        engine.set(&key, value).unwrap();
    }
    let stats = engine.stats().unwrap();
    assert_eq!(stats.total_keys, 100);
    let used = engine.shard_memory().iter().filter(|s| **s > 0).count();
    assert!(used > 1);
}

#[test]
fn test_memory_limit() {
    let config = StorageConfig { max_memory: 1024, ..Default::default() };
    let mut engine = MemoryEngine::new(config);
    for i in 0..100 {
        let key = format!("key{}", i);
        let value = vec![b'a'; 50];
        let result = engine.set(&key, value);
        if result.is_err() {
            break;
        }
    }
    let stats = engine.stats().unwrap();
    assert!(stats.memory_usage <= 1024);
}

#[test]
fn test_memory_stats() {
    let mut engine = MemoryEngine::new(StorageConfig::default());
    for i in 0..10 {
        let key = format!("key{}", i);
        let value = format!("value{}", i).into_bytes();
        engine.set(&key, value).unwrap();
    }
    for i in 0..5 {
        engine.get(&format!("key{}", i)).unwrap();
    }
    for i in 10..15 {
        engine.get(&format!("key{}", i)).unwrap();
    }
    let stats = engine.stats().unwrap();
    assert_eq!(stats.total_keys, 10);
    let hit_rate = stats.hits as f64 / (stats.hits + stats.misses) as f64;
    assert_eq!(hit_rate, 0.5);
}

#[test]
fn test_memory_stats_debug() {
    let mut engine = MemoryEngine::new(StorageConfig::default());
    let initial = engine.stats().unwrap();
    println!(
        "Initial: ops={}, hits={}, misses={}",
        initial.total_operations,
        engine.hit_count(),
        engine.miss_count()
    );
    for i in 0..10 {
        engine.set(&format!("key{}", i), format!("value{}", i).into_bytes()).unwrap();
    }
    let after_puts = engine.stats().unwrap();
    println!(
        "After PUTs: ops={}, hits={}, misses={}",
        after_puts.total_operations,
        engine.hit_count(),
        engine.miss_count()
    );
    for i in 0..5 {
        engine.get(&format!("key{}", i)).unwrap();
    }
    for i in 10..15 {
        engine.get(&format!("key{}", i)).unwrap();
    }
    let final_stats = engine.stats().unwrap();
    println!(
        "Final: ops={}, hits={}, misses={}",
        final_stats.total_operations,
        engine.hit_count(),
        engine.miss_count()
    );
}

#[test]
fn last_operation_on_a_key_decides() {
    let mut engine = MemoryEngine::new(StorageConfig::default());
    engine.set("a", b"1".to_vec()).unwrap();
    engine.set("a", b"2".to_vec()).unwrap();
    assert_eq!(engine.get("a").unwrap(), Some(b"2".to_vec()));
    assert!(engine.key_exists("a").unwrap());
    engine.delete("a").unwrap();
    assert_eq!(engine.get("a").unwrap(), None);
    assert!(!engine.key_exists("a").unwrap());
    engine.set("a", b"3".to_vec()).unwrap();
    assert_eq!(engine.get("a").unwrap(), Some(b"3".to_vec()));
    assert!(!engine.delete("missing").unwrap());
}

#[test]
fn scan_returns_exactly_the_prefixed_keys() {
    let mut engine = MemoryEngine::new(StorageConfig::default());
    for k in ["user:1", "user:2", "other", "use", "user:", "ü:1"] {
        engine.set(k, b"v".to_vec()).unwrap();
    }
    let mut keys = engine.scan("user:").unwrap();
    keys.sort();
    assert_eq!(keys, vec!["user:", "user:1", "user:2"]);
    let mut all = engine.scan("").unwrap();
    all.sort();
    assert_eq!(all.len(), 6);
    assert!(engine.scan("zzz").unwrap().is_empty());
    assert_eq!(engine.scan("ü").unwrap(), vec!["ü:1".to_string()]);
}

#[test]
fn memory_counter_equals_shard_counters_and_footprints() {
    let mut engine = MemoryEngine::new(StorageConfig::default());
    engine.set("ab", vec![1, 2, 3]).unwrap();
    engine.set("cde", vec![4]).unwrap();
    assert_eq!(engine.total_memory(), (2 + 3 + 64) + (3 + 1 + 64));
    engine.set("ab", vec![9]).unwrap();
    assert_eq!(engine.total_memory(), (2 + 1 + 64) + (3 + 1 + 64));
    engine.delete("cde").unwrap();
    assert_eq!(engine.total_memory(), 2 + 1 + 64);
    let shard_sum: usize = engine.shard_memory().iter().sum();
    assert_eq!(shard_sum, engine.total_memory());
    assert_eq!(engine.stats().unwrap().memory_usage, engine.total_memory());
    // Multi-byte characters count by their UTF-8 length.
    engine.set("é", Vec::new()).unwrap();
    assert_eq!(engine.total_memory(), (2 + 1 + 64) + (2 + 64));
}

#[test]
fn writes_within_the_limit_all_succeed() {
    let config = StorageConfig { max_memory: 4 * 70, ..Default::default() };
    let mut engine = MemoryEngine::new(config);
    // Four writes of footprint 70 each: 2-byte key, 4-byte value, 64 overhead.
    for k in ["k1", "k2", "k1", "k3"] {
        engine.set(k, b"vvvv".to_vec()).unwrap();
    }
    assert_eq!(engine.total_memory(), 3 * 70);
}

#[test]
fn admission_rejects_and_leaves_state_unchanged() {
    let config = StorageConfig { max_memory: 1024, ..Default::default() };
    let mut engine = MemoryEngine::new(config);
    let mut accepted = 0;
    let mut first_error = None;
    for i in 0..100 {
        match engine.set(&format!("k_{}", i), vec![b'x'; 50]) {
            Ok(()) => accepted += 1,
            Err(e) => {
                first_error = Some(e);
                break;
            }
        }
    }
    // Each entry costs 3 or 4 + 50 + 64 bytes.
    assert_eq!(accepted, 8);
    let before = engine.stats().unwrap();
    assert!(before.memory_usage <= 1024);
    match first_error {
        Some(StorageError::MemoryExceeded { in_use, requested, limit }) => {
            assert_eq!(in_use, before.memory_usage);
            assert_eq!(requested, 3 + 50 + 64);
            assert_eq!(limit, 1024);
        }
        other => panic!("unexpected {:?}", other),
    }
    let err = engine.set("k_8", vec![b'x'; 50]).unwrap_err();
    assert_eq!(err.message(), format!("Memory limit exceeded: {} + 117 > 1024", before.memory_usage));
    let after = engine.stats().unwrap();
    assert_eq!(before, after);
    assert!(!engine.key_exists("k_8").unwrap());
}

#[test]
fn counters_follow_gets_and_accepted_mutations() {
    let mut engine = MemoryEngine::new(StorageConfig::default());
    assert_eq!(engine.stats().unwrap().total_operations, 0);
    engine.set("a", b"1".to_vec()).unwrap();
    engine.get("a").unwrap();
    engine.get("b").unwrap();
    engine.delete("b").unwrap();
    engine.delete("a").unwrap();
    let s = engine.stats().unwrap();
    assert_eq!((s.hits, s.misses, s.total_operations), (1, 1, 4));
    assert!(engine.health_check().is_ok());
    assert_eq!(engine.shard_count(), 16);
    assert_eq!(engine.memory_limit(), 100 * 1024 * 1024);
}

#[test]
fn entries_and_peek_do_not_count_reads() {
    let mut engine = MemoryEngine::new(StorageConfig::default());
    engine.set("a", b"1".to_vec()).unwrap();
    engine.set("b", b"2".to_vec()).unwrap();
    assert_eq!(engine.peek("a"), Some(b"1".to_vec()));
    let mut es: Vec<(String, Vec<u8>)> = engine.entries().into_iter().map(|e| (e.key, e.value)).collect();
    es.sort();
    assert_eq!(es, vec![("a".to_string(), b"1".to_vec()), ("b".to_string(), b"2".to_vec())]);
    let s = engine.stats().unwrap();
    assert_eq!((s.hits, s.misses), (0, 0));
}
