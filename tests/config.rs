use std::cell::RefCell;

use blazekvdb::commands::get::GetCommand;
use blazekvdb::commands::set::SetCommand;
use blazekvdb::commands::{Command, CommandDispatcher, CommandMetadata, CommandMiddleware, CommandResponse};
use blazekvdb::config::{
    BlazeServerConfig, ConfigError, PersistenceConfig, SecurityConfig, ServerConfig, default_aof_path,
    default_connection_timeout, default_keepalive, default_log_format, default_log_level,
    default_max_connections, default_snapshot_dir, default_snapshot_interval, default_true,
};
use blazekvdb::storage::memory::MemoryEngine;
use blazekvdb::storage::StorageConfig;

fn config() -> BlazeServerConfig {
    BlazeServerConfig {
        server: ServerConfig {
            bind_addr: "127.0.0.1:6379".to_string(),
            connection_timeout: default_connection_timeout(),
            max_connections: default_max_connections(),
            keepalive_interval: default_keepalive(),
            worker_threads: 0,
        },
        storage: StorageConfig::default(),
        persistence: PersistenceConfig::default_settings(),
        security: SecurityConfig::default(),
    }
}

fn rule(c: &BlazeServerConfig) -> String {
    match c.validate() {
        Err(ConfigError::Validation(m)) => m,
        Ok(()) => String::new(),
    }
}

#[test]
fn defaults_are_valid() {
    assert!(config().validate().is_ok());
    assert_eq!(default_aof_path(), "data/blazekvdb.aof");
    assert_eq!(default_snapshot_dir(), "data/snapshots");
    assert_eq!(default_snapshot_interval(), 3600);
    assert_eq!(default_log_level(), "info");
    assert_eq!(default_log_format(), "compact");
    assert!(default_true());
    let s = StorageConfig::default();
    assert_eq!((s.max_memory, s.shard_count, s.snapshot_interval), (100 * 1024 * 1024, 16, 3600));
    assert_eq!(s.aof_path, "resplite.aof");
}

#[test]
fn each_rule_is_reported() {
    let mut c = config();
    c.server.max_connections = 0;
    assert_eq!(rule(&c), "max_connections must be > 0");
    let mut c = config();
    c.server.connection_timeout = 0;
    assert_eq!(rule(&c), "connection_timeout must be > 0");
    let mut c = config();
    c.persistence.aof_path = String::new();
    assert_eq!(rule(&c), "aof_path required when persistence enabled");
    c.persistence.enabled = false;
    assert!(c.validate().is_ok());
    let mut c = config();
    c.storage.max_memory = 0;
    assert_eq!(rule(&c), "max_memory must be > 0");
    let mut c = config();
    c.storage.shard_count = 0;
    assert_eq!(rule(&c), "shard_count must be > 0");
    let mut c = config();
    c.security.tls_enabled = true;
    assert_eq!(rule(&c), "tls_cert_path required when TLS enabled");
    c.security.tls_cert_path = Some("cert.pem".to_string());
    assert_eq!(rule(&c), "tls_key_path required when TLS enabled");
    c.security.tls_key_path = Some("key.pem".to_string());
    assert!(c.validate().is_ok());
}

struct Recorder {
    refuse_writes: bool,
    seen: RefCell<Vec<String>>,
}

impl CommandMiddleware for Recorder {
    fn before_execute(&self, metadata: &CommandMetadata) -> Result<(), CommandResponse> {
        self.seen.borrow_mut().push(format!("before {}", metadata.name));
        if self.refuse_writes && !metadata.read_only {
            return Err(CommandResponse::Error("read-only mode".to_string()));
        }
        Ok(())
    }

    fn after_execute(&self, metadata: &CommandMetadata, _response: &CommandResponse) {
        self.seen.borrow_mut().push(format!("after {}", metadata.name));
    }
}

#[test]
fn middleware_runs_in_order_and_can_refuse() {
    let mut dispatcher = CommandDispatcher::new(MemoryEngine::new(StorageConfig::default()));
    let chain = vec![
        Recorder { refuse_writes: false, seen: RefCell::new(Vec::new()) },
        Recorder { refuse_writes: true, seen: RefCell::new(Vec::new()) },
    ];
    let r = dispatcher.execute_with_middleware(
        Command::Put(SetCommand::new("k".to_string(), b"v".to_vec())),
        &chain,
    );
    assert_eq!(r, CommandResponse::Error("read-only mode".to_string()));
    assert_eq!(dispatcher.storage().stats().unwrap().total_keys, 0);
    let r = dispatcher.execute_with_middleware(Command::Get(GetCommand::new("k".to_string())), &chain);
    assert_eq!(r, CommandResponse::Error("Key not found".to_string()));
    assert_eq!(*chain[0].seen.borrow(), vec!["before SET", "before GET", "after GET"]);
    assert_eq!(*chain[1].seen.borrow(), vec!["before SET", "before GET", "after GET"]);
    let invalid = dispatcher.execute_with_middleware(Command::Get(GetCommand::new(String::new())), &chain);
    assert!(matches!(invalid, CommandResponse::Error(_)));
    assert_eq!(chain[0].seen.borrow().len(), 3);
}
