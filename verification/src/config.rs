//! Process configuration: connection endpoints, auth token, intervals, and
//! storage limits.  Loading and saving the file live with the runtime; this
//! module holds the values and their defaults.
use vstd::prelude::*;

verus! {

pub struct ServerConfig {
    pub host: String,
    pub port: u16,
    pub auth_token: Option<String>,
}

pub struct ClientConfig {
    pub server_host: String,
    pub server_port: u16,
    pub auth_token: Option<String>,
    pub auto_connect: bool,
}

pub struct StorageConfig {
    pub max_history: usize,
    pub max_content_size_mb: usize,
    pub database_path: Option<String>,
}

pub struct SyncConfig {
    pub interval_ms: u64,
    pub retry_delay_ms: u64,
    pub heartbeat_interval_ms: u64,
}

pub struct Config {
    pub server: ServerConfig,
    pub client: ClientConfig,
    pub storage: StorageConfig,
    pub sync: SyncConfig,
}

pub fn default_host() -> (r: String)
    ensures
        r@ == "0.0.0.0"@,
{
    String::from_str("0.0.0.0")
}

pub fn default_port() -> (r: u16)
    ensures
        r == 9876,
{
    9876
}

pub fn default_max_history() -> (r: usize)
    ensures
        r == 1000,
{
    1000
}

pub fn default_max_content_size_mb() -> (r: usize)
    ensures
        r == 10,
{
    10
}

pub fn default_interval_ms() -> (r: u64)
    ensures
        r == 500,
{
    500
}

pub fn default_retry_delay_ms() -> (r: u64)
    ensures
        r == 5000,
{
    5000
}

pub fn default_heartbeat_interval_ms() -> (r: u64)
    ensures
        r == 30000,
{
    30000
}

pub fn default_true() -> (r: bool)
    ensures
        r == true,
{
    true
}

impl Default for Config {
    /// A local server and a client pointed at it, with the stock intervals
    /// and limits.
    fn default() -> (r: Config)
        ensures
            r.server.host@ == "0.0.0.0"@,
            r.server.port == 9876,
            r.server.auth_token is None,
            r.client.server_host@ == "127.0.0.1"@,
            r.client.server_port == 9876,
            r.client.auth_token is None,
            r.client.auto_connect == true,
            r.storage.max_history == 1000,
            r.storage.max_content_size_mb == 10,
            r.storage.database_path is None,
            r.sync.interval_ms == 500,
            r.sync.retry_delay_ms == 5000,
            r.sync.heartbeat_interval_ms == 30000,
    {
        Config {
            server: ServerConfig { host: default_host(), port: default_port(), auth_token: None },
            client: ClientConfig {
                server_host: String::from_str("127.0.0.1"),
                server_port: default_port(),
                auth_token: None,
                auto_connect: default_true(),
            },
            storage: StorageConfig {
                max_history: default_max_history(),
                max_content_size_mb: default_max_content_size_mb(),
                database_path: None,
            },
            sync: SyncConfig {
                interval_ms: default_interval_ms(),
                retry_delay_ms: default_retry_delay_ms(),
                heartbeat_interval_ms: default_heartbeat_interval_ms(),
            },
        }
    }
}

impl Config {
    /// The configured database path, if one is set; the runtime supplies the
    /// platform default otherwise.
    pub fn get_database_path(&self) -> (r: Option<String>)
        ensures
            match (r, &self.storage.database_path) {
                (Some(a), Some(b)) => a@ == b@,
                (None, None) => true,
                _ => false,
            },
    {
        match &self.storage.database_path {
            Some(p) => Some(p.clone()),
            None => None,
        }
    }
}

} // verus!
