//! Where the collector reads its configuration and how it records.
use vstd::prelude::*;

verus! {

/// Milliseconds between two writes of what was recorded.
pub const DEFAULT_FLUSH_INTERVAL_MS: u64 = 500;

/// When recording goes on in a new file.
#[derive(Debug, Clone, Copy, PartialEq, Eq, Structural)]
pub enum Rotation {
    /// Every minute.
    EveryMinute,
}

/// How the collector records.
#[derive(Debug, PartialEq, Eq)]
pub struct StreamingSettings {
    /// The catalog that is recorded into.
    pub catalog_path: String,
    /// The protocol of the catalog's file system.
    pub fs_protocol: String,
    /// Milliseconds between two writes.
    pub flush_interval_ms: u64,
    /// Whether files that are there are replaced.
    pub replace_existing: bool,
    /// When recording goes on in a new file.
    pub rotation: Rotation,
}

/// The names of the collector in the trading system.
#[derive(Debug, PartialEq, Eq)]
pub struct NodeNames {
    pub trader_id: String,
    pub node_name: String,
}

/// The path of the configuration: `argument`, or else `collector.yaml`.
pub fn config_path(argument: Option<String>) -> (path: String)
    ensures
        path@ == match argument {
            Some(argument) => argument@,
            None => "collector.yaml"@,
        },
{
    match argument {
        Some(argument) => argument,
        None => "collector.yaml".to_owned(),
    }
}

/// The path of the catalog: `variable`, or else `./catalog/collector`.
pub fn catalog_path(variable: Option<String>) -> (path: String)
    ensures
        path@ == match variable {
            Some(variable) => variable@,
            None => "./catalog/collector"@,
        },
{
    match variable {
        Some(variable) => variable,
        None => "./catalog/collector".to_owned(),
    }
}

/// The names of the collector.
pub fn node_names() -> (names: NodeNames)
    ensures
        names.trader_id@ == "COLLECTOR-001"@,
        names.node_name@ == "DATA-COLLECTOR-001"@,
{
    NodeNames {
        trader_id: "COLLECTOR-001".to_owned(),
        node_name: "DATA-COLLECTOR-001".to_owned(),
    }
}

/// How the collector records into `catalog_path`: into local files, a new one
/// every minute, without replacing what is there.
pub fn streaming_settings(catalog_path: String) -> (settings: StreamingSettings)
    ensures
        settings.catalog_path@ == catalog_path@,
        settings.fs_protocol@ == "file"@,
        settings.flush_interval_ms == DEFAULT_FLUSH_INTERVAL_MS,
        !settings.replace_existing,
        settings.rotation == Rotation::EveryMinute,
{
    StreamingSettings {
        catalog_path,
        fs_protocol: "file".to_owned(),
        flush_interval_ms: DEFAULT_FLUSH_INTERVAL_MS,
        replace_existing: false,
        rotation: Rotation::EveryMinute,
    }
}

} // verus!
