use blazekvdb::bootstrap::BlazeKVDB;
use blazekvdb::commands::CommandResponse;
use blazekvdb::protocol::parser::ProtocolParser;
use blazekvdb::server::connection::ConnectionHandler;
use blazekvdb::server::tcp::ServerStats;
use blazekvdb::storage::memory::MemoryEngine;
use blazekvdb::storage::StorageConfig;

fn respond(handler: &mut ConnectionHandler, db: &mut BlazeKVDB, line: &str) -> Option<String> {
    handler
        .handle_line(db, line, line.len() as u64)
        .map(|r| ProtocolParser::serialize_response(&r).unwrap())
}

#[test]
fn test_connection_stats() {
    let handler = ConnectionHandler::new();
    let stats = handler.stats(0, None);
    println!("stats: {:?}", &stats);
    assert_eq!(stats.commands_processed, 0);
    assert_eq!(stats.bytes_received, 0);
    assert_eq!(stats.bytes_sent, 0);
}

#[test]
fn basic_session() {
    let mut db = BlazeKVDB::new(MemoryEngine::new(StorageConfig::default()), None);
    let mut h = ConnectionHandler::new();
    let lines = ["SET foo bar", "GET foo", "EXIST foo", "DELETE foo", "GET foo"];
    let out: Vec<String> = lines.iter().map(|l| respond(&mut h, &mut db, l).unwrap()).collect();
    assert_eq!(out, vec!["OK\n", "VALUE YmFy\n", "TRUE\n", "TRUE\n", "ERROR Key not found\n"]);
    assert_eq!(h.stats(0, None).commands_processed, 5);
}

#[test]
fn prefix_scan_session() {
    let mut db = BlazeKVDB::new(MemoryEngine::new(StorageConfig::default()), None);
    let mut h = ConnectionHandler::new();
    for l in ["SET user:1 a", "SET user:2 b", "SET other c"] {
        respond(&mut h, &mut db, l);
    }
    match h.handle_line(&mut db, "SCAN user:", 10) {
        Some(CommandResponse::Keys(mut keys)) => {
            keys.sort();
            let text = ProtocolParser::serialize_response(&CommandResponse::Keys(keys)).unwrap();
            assert_eq!(text, "KEYS 2\nuser:1\nuser:2\n");
        }
        other => panic!("unexpected {:?}", other),
    }
}

#[test]
fn parse_error_keeps_the_connection() {
    let mut db = BlazeKVDB::new(MemoryEngine::new(StorageConfig::default()), None);
    let mut h = ConnectionHandler::new();
    let first = respond(&mut h, &mut db, "BOGUS").unwrap();
    assert_eq!(first, "ERROR Parse error: Unknown command: BOGUS\n");
    assert_eq!(respond(&mut h, &mut db, "PING").unwrap(), "PONG\n");
    assert_eq!(respond(&mut h, &mut db, "   "), None);
    h.sent(5);
    let stats = h.stats(7, Some(1));
    assert_eq!((stats.commands_processed, stats.bytes_sent), (2, 5));
}

#[test]
fn server_counters() {
    let mut s = ServerStats::default();
    s.accepted();
    s.accepted();
    s.closed();
    assert_eq!((s.total_connections, s.active_connections), (2, 1));
    s.closed();
    s.closed();
    assert_eq!(s.active_connections, 0);
}

#[test]
fn database_accessors() {
    let mut db = BlazeKVDB::new(MemoryEngine::new(StorageConfig::default()), None);
    let mut h = ConnectionHandler::new();
    respond(&mut h, &mut db, "SET a b");
    assert_eq!(db.storage_stats().unwrap().total_keys, 1);
    assert_eq!(db.dispatcher().storage().stats().unwrap().total_keys, 1);
    assert!(!db.has_log());
    assert!(db.persistence_stats(false, 0).aof_stats.is_none());
}
