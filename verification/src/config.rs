//! Configuration as plain data.
//!
//! The binary reads the configuration file and fills these structures;
//! everything in the engine takes what it needs from them as values.

use vstd::prelude::*;

verus! {

/// Settings for the append-only command log.
#[derive(Debug)]
pub struct AofConfig {
    /// Whether mutations are recorded at all.
    pub enabled: bool,
    /// Seconds between drains of the log buffer to disk.
    pub appendfsync: u64,
    /// Where the log file lives.
    pub file_path: String,
}

/// Settings for the periodic binary snapshot.
#[derive(Debug)]
pub struct RdbConfig {
    /// Whether snapshots are taken at all.
    pub enabled: bool,
    /// Seconds between snapshots.
    pub save_interval: u64,
    /// Where the snapshot file lives.
    pub file_path: String,
}

/// Settings for the listening socket.
#[derive(Debug)]
pub struct ServerConfig {
    /// The address to bind.
    pub address: String,
}

/// The whole configuration.
#[derive(Debug)]
pub struct Config {
    pub aof: AofConfig,
    pub rdb: RdbConfig,
    pub server: ServerConfig,
}

/// The log settings, copied out of the configuration.
pub fn get_aof_config(config: &Config) -> (r: AofConfig)
    ensures
        r.enabled == config.aof.enabled,
        r.appendfsync == config.aof.appendfsync,
        r.file_path@ == config.aof.file_path@,
{
    AofConfig {
        enabled: config.aof.enabled,
        appendfsync: config.aof.appendfsync,
        file_path: config.aof.file_path.clone(),
    }
}

/// The snapshot settings, copied out of the configuration.
pub fn get_rdb_config(config: &Config) -> (r: RdbConfig)
    ensures
        r.enabled == config.rdb.enabled,
        r.save_interval == config.rdb.save_interval,
        r.file_path@ == config.rdb.file_path@,
{
    RdbConfig {
        enabled: config.rdb.enabled,
        save_interval: config.rdb.save_interval,
        file_path: config.rdb.file_path.clone(),
    }
}

/// The socket settings, copied out of the configuration.
pub fn get_server_config(config: &Config) -> (r: ServerConfig)
    ensures
        r.address@ == config.server.address@,
{
    ServerConfig { address: config.server.address.clone() }
}

} // verus!
