//! The server configuration and its defaults.
use vstd::prelude::*;
use crate::text::owned;
use crate::webhook::WebhookConfig;

verus! {

/// Where rules are stored.
#[derive(Debug, Clone, Copy, PartialEq, Eq, Structural)]
pub enum StorageBackend {
    Sqlite,
    Postgres,
}

/// Storage settings.
#[derive(Debug, Clone)]
pub struct StorageConfig {
    pub backend: StorageBackend,
    pub path: String,
    pub postgres_url: Option<String>,
}

/// An API key listed in the configuration file.
#[derive(Debug, Clone)]
pub struct ConfigKey {
    pub id: String,
    pub role: String,
    pub hash: String,
    pub description: Option<String>,
}

/// The server configuration.
#[derive(Debug, Clone)]
pub struct ServerConfig {
    pub host: String,
    pub port: u16,
    pub storage: StorageConfig,
    pub keys: Vec<ConfigKey>,
    pub rule_poll_secs: u64,
    pub dead_letter_path: Option<String>,
    pub rate_limit_per_sec: u32,
    pub log_level: Option<String>,
    /// Outbound webhook registrations for `trigger` actions.
    pub webhooks: Vec<WebhookConfig>,
    /// Directory watched for YAML rule files.
    pub rules_dir: Option<String>,
}

/// Host the server binds when none is configured.
pub fn default_host() -> (r: String)
    ensures
        r@ == "0.0.0.0"@,
{
    owned("0.0.0.0")
}

/// Port the server listens on when none is configured.
pub fn default_port() -> (r: u16)
    ensures
        r == 8080,
{
    8080
}

/// Seconds between rule polls when none is configured.
pub fn default_poll_secs() -> (r: u64)
    ensures
        r == 10,
{
    10
}

/// Evaluations per second allowed to each key when none is configured.
pub fn default_rate_limit() -> (r: u32)
    ensures
        r == 1000,
{
    1000
}

/// Storage backend when none is configured.
pub fn default_backend() -> (r: StorageBackend)
    ensures
        r == StorageBackend::Sqlite,
{
    StorageBackend::Sqlite
}

/// SQLite database path when none is configured.
pub fn default_sqlite_path() -> (r: String)
    ensures
        r@ == "/data/axiom.db"@,
{
    owned("/data/axiom.db")
}

impl ServerConfig {
    /// The configuration used when none can be loaded: SQLite at
    /// `/data/axiom.db`, and every other setting at its default.
    pub fn default_config() -> (r: ServerConfig)
        ensures
            r.host@ == "0.0.0.0"@,
            r.port == 8080,
            r.storage.backend == StorageBackend::Sqlite,
            r.storage.path@ == "/data/axiom.db"@,
            r.storage.postgres_url is None,
            r.keys@.len() == 0,
            r.rule_poll_secs == 10,
            r.dead_letter_path is None,
            r.rate_limit_per_sec == 1000,
            r.log_level is None,
            r.webhooks@.len() == 0,
            r.rules_dir is None,
    {
        ServerConfig {
            host: default_host(),
            port: default_port(),
            storage: StorageConfig {
                backend: default_backend(),
                path: default_sqlite_path(),
                postgres_url: None,
            },
            keys: Vec::new(),
            rule_poll_secs: default_poll_secs(),
            dead_letter_path: None,
            rate_limit_per_sec: default_rate_limit(),
            log_level: None,
            webhooks: Vec::new(),
            rules_dir: None,
        }
    }
}

} // verus!
