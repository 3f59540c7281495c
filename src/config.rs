//! Settings of the persistence subsystem and their defaults.

use vstd::prelude::*;
use vstd::string::StringExecFns;
use crate::storage::StorageConfig;

verus! {

/// How often the log writer forces written records to stable storage.
#[derive(Debug, Clone, Copy, PartialEq, Eq, Structural)]
pub enum FsyncPolicy {
    /// After every record.
    Always,
    /// After every `n` records.
    EveryN(u64),
    /// Never; the operating system decides.
    Never,
}

/// Settings of the append-only log and of snapshots.
#[derive(Debug, Clone)]
pub struct PersistenceConfig {
    pub enabled: bool,
    pub aof_path: String,
    pub fsync_policy: FsyncPolicy,
    pub snapshot_enabled: bool,
    /// Seconds between background snapshots.
    pub snapshot_interval: u64,
    pub snapshot_dir: String,
}

/// Settings of transport security and authentication.
#[derive(Debug, Clone, Default)]
pub struct SecurityConfig {
    pub tls_enabled: bool,
    pub tls_cert_path: Option<String>,
    pub tls_key_path: Option<String>,
    pub require_auth: bool,
    pub auth_password: Option<String>,
}

pub fn default_connection_timeout() -> (r: u64)
    ensures
        r == 300,
{
    300
}

pub fn default_max_connections() -> (r: usize)
    ensures
        r == 1000,
{
    1000
}

pub fn default_keepalive() -> (r: Option<u64>)
    ensures
        r == Some(60u64),
{
    Some(60)
}

pub fn default_true() -> (r: bool)
    ensures
        r,
{
    true
}

pub fn default_aof_path() -> (r: String)
    ensures
        r@ == "data/blazekvdb.aof"@,
{
    String::from_str("data/blazekvdb.aof")
}

pub fn default_fsync_policy() -> (r: FsyncPolicy)
    ensures
        r == FsyncPolicy::EveryN(100),
{
    FsyncPolicy::EveryN(100)
}

pub fn default_snapshot_interval() -> (r: u64)
    ensures
        r == 3600,
{
    3600
}

pub fn default_snapshot_dir() -> (r: String)
    ensures
        r@ == "data/snapshots"@,
{
    String::from_str("data/snapshots")
}

pub fn default_log_level() -> (r: String)
    ensures
        r@ == "info"@,
{
    String::from_str("info")
}

pub fn default_log_format() -> (r: String)
    ensures
        r@ == "compact"@,
{
    String::from_str("compact")
}

impl PersistenceConfig {
    /// The settings used when none are given.
    pub fn default_settings() -> (r: PersistenceConfig)
        ensures
            r.enabled,
            r.aof_path@ == "data/blazekvdb.aof"@,
            r.fsync_policy == FsyncPolicy::EveryN(100),
            r.snapshot_enabled,
            r.snapshot_interval == 3600,
            r.snapshot_dir@ == "data/snapshots"@,
    {
        PersistenceConfig {
            enabled: default_true(),
            aof_path: default_aof_path(),
            fsync_policy: default_fsync_policy(),
            snapshot_enabled: default_true(),
            snapshot_interval: default_snapshot_interval(),
            snapshot_dir: default_snapshot_dir(),
        }
    }
}

/// Why a configuration was refused.
#[derive(Debug, Clone, PartialEq, Eq)]
pub enum ConfigError {
    Validation(String),
}

/// Settings of the TCP server.
#[derive(Debug, Clone)]
pub struct ServerConfig {
    pub bind_addr: String,
    /// Seconds a connection may stay idle.
    pub connection_timeout: u64,
    pub max_connections: usize,
    /// Seconds between TCP keepalive probes.
    pub keepalive_interval: Option<u64>,
    /// Worker threads; 0 lets the runtime choose.
    pub worker_threads: usize,
}

/// All settings of a server.
#[derive(Debug, Clone)]
pub struct BlazeServerConfig {
    pub server: ServerConfig,
    pub storage: StorageConfig,
    pub persistence: PersistenceConfig,
    pub security: SecurityConfig,
}

/// The first rule a configuration breaks, in the order they are checked,
/// as the message that reports it.
pub open spec fn first_violation(c: BlazeServerConfig) -> Option<Seq<char>> {
    if c.server.max_connections == 0 {
        Some("max_connections must be > 0"@)
    } else if c.server.connection_timeout == 0 {
        Some("connection_timeout must be > 0"@)
    } else if c.persistence.enabled && c.persistence.aof_path@.len() == 0 {
        Some("aof_path required when persistence enabled"@)
    } else if c.storage.max_memory == 0 {
        Some("max_memory must be > 0"@)
    } else if c.storage.shard_count == 0 {
        Some("shard_count must be > 0"@)
    } else if c.security.tls_enabled && c.security.tls_cert_path is None {
        Some("tls_cert_path required when TLS enabled"@)
    } else if c.security.tls_enabled && c.security.tls_key_path is None {
        Some("tls_key_path required when TLS enabled"@)
    } else {
        None
    }
}

impl BlazeServerConfig {
    /// Checks the configuration's rules; the error names the first rule
    /// broken.
    pub fn validate(&self) -> (r: Result<(), ConfigError>)
        ensures
            r is Ok <==> first_violation(*self) is None,
            r matches Err(ConfigError::Validation(m)) ==> first_violation(*self) == Some(m@),
    {
        let fail = |m: &str| -> (e: Result<(), ConfigError>)
            ensures
                e matches Err(ConfigError::Validation(t)) && t@ == m@,
            { Err(ConfigError::Validation(String::from_str(m))) };
        if self.server.max_connections == 0 {
            return fail("max_connections must be > 0");
        }
        if self.server.connection_timeout == 0 {
            return fail("connection_timeout must be > 0");
        }
        if self.persistence.enabled && self.persistence.aof_path.as_str().is_empty() {
            return fail("aof_path required when persistence enabled");
        }
        if self.storage.max_memory == 0 {
            return fail("max_memory must be > 0");
        }
        if self.storage.shard_count == 0 {
            return fail("shard_count must be > 0");
        }
        if self.security.tls_enabled {
            if self.security.tls_cert_path.is_none() {
                return fail("tls_cert_path required when TLS enabled");
            }
            if self.security.tls_key_path.is_none() {
                return fail("tls_key_path required when TLS enabled");
            }
        }
        Ok(())
    }
}

} // verus!
