//! Settings of the application, and what they are where nothing is said.

use vstd::prelude::*;

use crate::text;

verus! {

broadcast use {vstd::string::group_string_axioms, vstd::seq::group_seq_axioms};

/// The length of a duration in nanoseconds, as `std::time::Duration::as_nanos` counts it.
pub uninterp spec fn duration_nanos(d: std::time::Duration) -> nat;

/// `std::time::Duration::as_nanos`: the whole length of the duration in nanoseconds.
pub assume_specification[ std::time::Duration::as_nanos ](d: &std::time::Duration) -> (n: u128)
    ensures
        n == duration_nanos(*d),
;

/// `std::time::Duration::from_secs`: a duration of that many whole seconds.
pub assume_specification[ std::time::Duration::from_secs ](secs: u64) -> (d: std::time::Duration)
    ensures
        duration_nanos(d) == secs * 1_000_000_000,
;

/// `std::time::Duration::from_millis`: a duration of that many milliseconds.
pub assume_specification[ std::time::Duration::from_millis ](millis: u64) -> (d: std::time::Duration)
    ensures
        duration_nanos(d) == millis * 1_000_000,
;

/// Config file name looked up in the sync root.
pub const CONFIG_FILENAME: &'static str = ".p2sync.toml";

#[derive(Debug, Clone, Copy, PartialEq, Eq)]
pub struct StorageConfig {
    /// Chunk size in bytes (default: 256 KB).
    pub chunk_size: usize,
    /// Maximum chunk index per file (default: 16384).
    pub max_chunk_index: usize,
    /// Maximum file size in bytes that can be received (default: 1 GB).
    pub max_file_size: u64,
    /// How long tombstones are kept before garbage collection, in seconds (default: 3600).
    pub tombstone_ttl_secs: u64,
}

/// The storage settings where nothing is said.
pub open spec fn default_storage() -> StorageConfig {
    StorageConfig {
        chunk_size: 262_144,
        max_chunk_index: 16_384,
        max_file_size: 1_073_741_824,
        tombstone_ttl_secs: 3600,
    }
}

impl Default for StorageConfig {
    fn default() -> (r: Self)
        ensures
            r == default_storage(),
    {
        StorageConfig {
            chunk_size: 262_144,
            max_chunk_index: 16_384,
            max_file_size: 1_073_741_824,
            tombstone_ttl_secs: 3600,
        }
    }
}

/// How peers are found.
#[derive(Debug, Clone, Copy, PartialEq, Eq)]
pub enum DiscoveryMode {
    /// On the local network only.
    Lan,
    /// On the local network and through the DHT.
    Wan,
}

impl DiscoveryMode {
    /// Reads a discovery mode.
    pub fn from_text(s: &str) -> (r: Option<Self>)
        ensures
            r == if s@ == "lan"@ {
                Some(DiscoveryMode::Lan)
            } else if s@ == "wan"@ {
                Some(DiscoveryMode::Wan)
            } else {
                None
            },
    {
        if text::same_text(s, "lan") {
            Some(DiscoveryMode::Lan)
        } else if text::same_text(s, "wan") {
            Some(DiscoveryMode::Wan)
        } else {
            None
        }
    }

    /// The mode as it is written in a config file.
    pub fn to_text(&self) -> (s: &'static str)
        ensures
            s@ == match *self {
                DiscoveryMode::Lan => "lan"@,
                DiscoveryMode::Wan => "wan"@,
            },
    {
        match self {
            DiscoveryMode::Lan => "lan",
            DiscoveryMode::Wan => "wan",
        }
    }
}

/// Whether, and through whom, peers behind NAT are reached.
#[derive(Debug, PartialEq, Eq)]
pub enum RelayMode {
    /// Direct connections only.
    Off,
    /// Through the relay at a multiaddr.
    Explicit(String),
    /// Through relays of third parties.
    Auto,
}

/// A relay setting by its text.
pub ghost enum RelayModel {
    Off,
    At(Seq<char>),
    Any,
}

impl View for RelayMode {
    type V = RelayModel;

    open spec fn view(&self) -> RelayModel {
        match *self {
            RelayMode::Off => RelayModel::Off,
            RelayMode::Explicit(addr) => RelayModel::At(addr@),
            RelayMode::Auto => RelayModel::Any,
        }
    }
}

impl Clone for RelayMode {
    fn clone(&self) -> (r: Self)
        ensures
            r@ == self@,
    {
        match self {
            RelayMode::Off => RelayMode::Off,
            RelayMode::Explicit(addr) => RelayMode::Explicit(addr.clone()),
            RelayMode::Auto => RelayMode::Auto,
        }
    }
}

impl RelayMode {
    /// Reads a relay setting: `none`, `auto`, or the address of a relay.
    pub fn from_text(s: &str) -> (r: Self)
        ensures
            r@ == if s@ == "none"@ {
                RelayModel::Off
            } else if s@ == "auto"@ {
                RelayModel::Any
            } else {
                RelayModel::At(s@)
            },
    {
        if text::same_text(s, "none") {
            RelayMode::Off
        } else if text::same_text(s, "auto") {
            RelayMode::Auto
        } else {
            RelayMode::Explicit(s.to_owned())
        }
    }
}

#[derive(Debug, PartialEq, Eq)]
pub struct NetworkConfig {
    /// Maximum request size in bytes for the CBOR codec (default: 1 MiB).
    pub max_request_size: u64,
    /// Maximum response size in bytes for the CBOR codec (default: 100 MiB).
    pub max_response_size: u64,
    /// Request timeout in seconds (default: 120).
    pub request_timeout_secs: u64,
    /// Idle connection timeout in seconds (default: 300).
    pub idle_connection_timeout_secs: u64,
    /// GossipSub heartbeat interval in seconds (default: 5).
    pub gossipsub_heartbeat_secs: u64,
    /// Channel capacity for internal message passing (default: 256).
    pub channel_capacity: usize,
    /// How peers are found (default: on the local network only).
    pub discovery: DiscoveryMode,
    /// Relay for peers behind NAT (default: none).
    pub relay: RelayMode,
}

/// The network settings, with the relay by its text.
pub ghost struct NetworkModel {
    pub max_request_size: u64,
    pub max_response_size: u64,
    pub request_timeout_secs: u64,
    pub idle_connection_timeout_secs: u64,
    pub gossipsub_heartbeat_secs: u64,
    pub channel_capacity: usize,
    pub discovery: DiscoveryMode,
    pub relay: RelayModel,
}

impl View for NetworkConfig {
    type V = NetworkModel;

    open spec fn view(&self) -> NetworkModel {
        NetworkModel {
            max_request_size: self.max_request_size,
            max_response_size: self.max_response_size,
            request_timeout_secs: self.request_timeout_secs,
            idle_connection_timeout_secs: self.idle_connection_timeout_secs,
            gossipsub_heartbeat_secs: self.gossipsub_heartbeat_secs,
            channel_capacity: self.channel_capacity,
            discovery: self.discovery,
            relay: self.relay@,
        }
    }
}

/// The network settings where nothing is said.
pub open spec fn default_network() -> NetworkModel {
    NetworkModel {
        max_request_size: 1_048_576,
        max_response_size: 104_857_600,
        request_timeout_secs: 120,
        idle_connection_timeout_secs: 300,
        gossipsub_heartbeat_secs: 5,
        channel_capacity: 256,
        discovery: DiscoveryMode::Lan,
        relay: RelayModel::Off,
    }
}

impl Default for NetworkConfig {
    fn default() -> (r: Self)
        ensures
            r@ == default_network(),
    {
        NetworkConfig {
            max_request_size: 1_048_576,
            max_response_size: 104_857_600,
            request_timeout_secs: 120,
            idle_connection_timeout_secs: 300,
            gossipsub_heartbeat_secs: 5,
            channel_capacity: 256,
            discovery: DiscoveryMode::Lan,
            relay: RelayMode::Off,
        }
    }
}

impl Clone for NetworkConfig {
    fn clone(&self) -> (r: Self)
        ensures
            r@ == self@,
    {
        NetworkConfig {
            max_request_size: self.max_request_size,
            max_response_size: self.max_response_size,
            request_timeout_secs: self.request_timeout_secs,
            idle_connection_timeout_secs: self.idle_connection_timeout_secs,
            gossipsub_heartbeat_secs: self.gossipsub_heartbeat_secs,
            channel_capacity: self.channel_capacity,
            discovery: self.discovery,
            relay: self.relay.clone(),
        }
    }
}

impl NetworkConfig {
    pub fn request_timeout(&self) -> (d: std::time::Duration)
        ensures
            duration_nanos(d) == self.request_timeout_secs * 1_000_000_000,
    {
        std::time::Duration::from_secs(self.request_timeout_secs)
    }

    pub fn idle_connection_timeout(&self) -> (d: std::time::Duration)
        ensures
            duration_nanos(d) == self.idle_connection_timeout_secs * 1_000_000_000,
    {
        std::time::Duration::from_secs(self.idle_connection_timeout_secs)
    }

    pub fn gossipsub_heartbeat(&self) -> (d: std::time::Duration)
        ensures
            duration_nanos(d) == self.gossipsub_heartbeat_secs * 1_000_000_000,
    {
        std::time::Duration::from_secs(self.gossipsub_heartbeat_secs)
    }

    /// Whether peers are looked for beyond the local network.
    pub fn is_wan(&self) -> (r: bool)
        ensures
            r == (self.discovery == DiscoveryMode::Wan),
    {
        match self.discovery {
            DiscoveryMode::Wan => true,
            DiscoveryMode::Lan => false,
        }
    }
}

#[derive(Debug, Clone, Copy, PartialEq, Eq)]
pub struct WatcherConfig {
    /// Filesystem poll interval in milliseconds (default: 1000).
    pub poll_interval_ms: u64,
    /// Duration in seconds to suppress watcher events after a sync write (default: 3).
    pub write_guard_ttl_secs: u64,
    /// Debounce window in milliseconds: ignore duplicate events for the same file (default: 500).
    pub debounce_ms: u64,
}

/// The watcher settings where nothing is said.
pub open spec fn default_watcher() -> WatcherConfig {
    WatcherConfig { poll_interval_ms: 1000, write_guard_ttl_secs: 3, debounce_ms: 500 }
}

impl Default for WatcherConfig {
    fn default() -> (r: Self)
        ensures
            r == default_watcher(),
    {
        WatcherConfig { poll_interval_ms: 1000, write_guard_ttl_secs: 3, debounce_ms: 500 }
    }
}

impl WatcherConfig {
    pub fn poll_interval(&self) -> (d: std::time::Duration)
        ensures
            duration_nanos(d) == self.poll_interval_ms * 1_000_000,
    {
        std::time::Duration::from_millis(self.poll_interval_ms)
    }

    pub fn write_guard_ttl(&self) -> (d: std::time::Duration)
        ensures
            duration_nanos(d) == self.write_guard_ttl_secs * 1_000_000_000,
    {
        std::time::Duration::from_secs(self.write_guard_ttl_secs)
    }

    pub fn debounce(&self) -> (d: std::time::Duration)
        ensures
            duration_nanos(d) == self.debounce_ms * 1_000_000,
    {
        std::time::Duration::from_millis(self.debounce_ms)
    }
}

#[derive(Debug, Clone, Copy, PartialEq, Eq)]
pub struct TuiConfig {
    /// Maximum number of journal log lines to keep (default: 100).
    pub max_log_lines: usize,
    /// TUI refresh interval in milliseconds (default: 50).
    pub refresh_interval_ms: u64,
}

/// The display settings where nothing is said.
pub open spec fn default_tui() -> TuiConfig {
    TuiConfig { max_log_lines: 100, refresh_interval_ms: 50 }
}

impl Default for TuiConfig {
    fn default() -> (r: Self)
        ensures
            r == default_tui(),
    {
        TuiConfig { max_log_lines: 100, refresh_interval_ms: 50 }
    }
}

impl TuiConfig {
    pub fn refresh_interval(&self) -> (d: std::time::Duration)
        ensures
            duration_nanos(d) == self.refresh_interval_ms * 1_000_000,
    {
        std::time::Duration::from_millis(self.refresh_interval_ms)
    }
}

/// Application-wide configuration with sensible defaults.
#[derive(Debug, PartialEq, Eq)]
pub struct P2SyncConfig {
    /// Chunking and indexing settings.
    pub storage: StorageConfig,
    /// Network protocol settings.
    pub network: NetworkConfig,
    /// Filesystem watcher settings.
    pub watcher: WatcherConfig,
    /// TUI display settings.
    pub tui: TuiConfig,
    /// Patterns to always exclude from sync.
    pub default_excludes: Vec<String>,
}

/// The whole configuration, by its texts and numbers.
#[verifier::ext_equal]
pub ghost struct ConfigModel {
    pub storage: StorageConfig,
    pub network: NetworkModel,
    pub watcher: WatcherConfig,
    pub tui: TuiConfig,
    pub default_excludes: Seq<Seq<char>>,
}

impl View for P2SyncConfig {
    type V = ConfigModel;

    open spec fn view(&self) -> ConfigModel {
        ConfigModel {
            storage: self.storage,
            network: self.network@,
            watcher: self.watcher,
            tui: self.tui,
            default_excludes: text::texts(self.default_excludes@),
        }
    }
}

/// What is never synced where nothing is said.
pub open spec fn default_exclude_texts() -> Seq<Seq<char>> {
    seq![".git"@, ".DS_Store"@, ".p2sync.toml"@]
}

/// The configuration where nothing is said.
pub open spec fn default_config() -> ConfigModel {
    ConfigModel {
        storage: default_storage(),
        network: default_network(),
        watcher: default_watcher(),
        tui: default_tui(),
        default_excludes: default_exclude_texts(),
    }
}

fn default_exclude_list() -> (v: Vec<String>)
    ensures
        text::texts(v@) == default_exclude_texts(),
{
    let v: Vec<String> = vec![".git".to_owned(), ".DS_Store".to_owned(), ".p2sync.toml".to_owned()];
    assert(text::texts(v@) =~= default_exclude_texts());
    v
}

impl Default for P2SyncConfig {
    fn default() -> (r: Self)
        ensures
            r@ == default_config(),
    {
        P2SyncConfig {
            storage: StorageConfig::default(),
            network: NetworkConfig::default(),
            watcher: WatcherConfig::default(),
            tui: TuiConfig::default(),
            default_excludes: default_exclude_list(),
        }
    }
}

impl Clone for P2SyncConfig {
    fn clone(&self) -> (r: Self)
        ensures
            r@ == self@,
    {
        P2SyncConfig {
            storage: self.storage,
            network: self.network.clone(),
            watcher: self.watcher,
            tui: self.tui,
            default_excludes: text::clone_texts(&self.default_excludes),
        }
    }
}

/// What a config file says of storage.
#[derive(Debug, Clone, Copy, PartialEq, Eq)]
pub struct StorageSettings {
    pub chunk_size: Option<usize>,
    pub max_chunk_index: Option<usize>,
    pub max_file_size: Option<u64>,
    pub tombstone_ttl_secs: Option<u64>,
}

/// What a config file says of the network.
#[derive(Debug, PartialEq, Eq)]
pub struct NetworkSettings {
    pub max_request_size: Option<u64>,
    pub max_response_size: Option<u64>,
    pub request_timeout_secs: Option<u64>,
    pub idle_connection_timeout_secs: Option<u64>,
    pub gossipsub_heartbeat_secs: Option<u64>,
    pub channel_capacity: Option<usize>,
    pub discovery: Option<DiscoveryMode>,
    pub relay: Option<RelayMode>,
}

/// What a config file says of the watcher.
#[derive(Debug, Clone, Copy, PartialEq, Eq)]
pub struct WatcherSettings {
    pub poll_interval_ms: Option<u64>,
    pub write_guard_ttl_secs: Option<u64>,
    pub debounce_ms: Option<u64>,
}

/// What a config file says of the display.
#[derive(Debug, Clone, Copy, PartialEq, Eq)]
pub struct TuiSettings {
    pub max_log_lines: Option<usize>,
    pub refresh_interval_ms: Option<u64>,
}

/// What a config file says; every value is optional.
#[derive(Debug, PartialEq, Eq)]
pub struct Settings {
    pub storage: StorageSettings,
    pub network: NetworkSettings,
    pub watcher: WatcherSettings,
    pub tui: TuiSettings,
    pub default_excludes: Option<Vec<String>>,
}

/// The value that is said, else the default.
pub open spec fn said_or<T>(said: Option<T>, default: T) -> T {
    match said {
        Some(x) => x,
        None => default,
    }
}

fn given_or<T>(said: Option<T>, default: T) -> (r: T)
    ensures
        r == said_or(said, default),
{
    match said {
        Some(x) => x,
        None => default,
    }
}

/// The configuration that settings stand for: what they say, and the default for anything else.
pub open spec fn config_of(s: Settings) -> ConfigModel {
    ConfigModel {
        storage: StorageConfig {
            chunk_size: said_or(s.storage.chunk_size, default_storage().chunk_size),
            max_chunk_index: said_or(s.storage.max_chunk_index, default_storage().max_chunk_index),
            max_file_size: said_or(s.storage.max_file_size, default_storage().max_file_size),
            tombstone_ttl_secs: said_or(s.storage.tombstone_ttl_secs, default_storage().tombstone_ttl_secs),
        },
        network: NetworkModel {
            max_request_size: said_or(s.network.max_request_size, default_network().max_request_size),
            max_response_size: said_or(s.network.max_response_size, default_network().max_response_size),
            request_timeout_secs: said_or(s.network.request_timeout_secs, default_network().request_timeout_secs),
            idle_connection_timeout_secs: said_or(
                s.network.idle_connection_timeout_secs,
                default_network().idle_connection_timeout_secs,
            ),
            gossipsub_heartbeat_secs: said_or(
                s.network.gossipsub_heartbeat_secs,
                default_network().gossipsub_heartbeat_secs,
            ),
            channel_capacity: said_or(s.network.channel_capacity, default_network().channel_capacity),
            discovery: said_or(s.network.discovery, default_network().discovery),
            relay: match s.network.relay {
                Some(relay) => relay@,
                None => default_network().relay,
            },
        },
        watcher: WatcherConfig {
            poll_interval_ms: said_or(s.watcher.poll_interval_ms, default_watcher().poll_interval_ms),
            write_guard_ttl_secs: said_or(s.watcher.write_guard_ttl_secs, default_watcher().write_guard_ttl_secs),
            debounce_ms: said_or(s.watcher.debounce_ms, default_watcher().debounce_ms),
        },
        tui: TuiConfig {
            max_log_lines: said_or(s.tui.max_log_lines, default_tui().max_log_lines),
            refresh_interval_ms: said_or(s.tui.refresh_interval_ms, default_tui().refresh_interval_ms),
        },
        default_excludes: match s.default_excludes {
            Some(v) => text::texts(v@),
            None => default_exclude_texts(),
        },
    }
}

/// The settings of an empty config file.
pub open spec fn says_nothing(s: Settings) -> bool {
    s == (Settings {
        storage: StorageSettings {
            chunk_size: None,
            max_chunk_index: None,
            max_file_size: None,
            tombstone_ttl_secs: None,
        },
        network: NetworkSettings {
            max_request_size: None,
            max_response_size: None,
            request_timeout_secs: None,
            idle_connection_timeout_secs: None,
            gossipsub_heartbeat_secs: None,
            channel_capacity: None,
            discovery: None,
            relay: None,
        },
        watcher: WatcherSettings { poll_interval_ms: None, write_guard_ttl_secs: None, debounce_ms: None },
        tui: TuiSettings { max_log_lines: None, refresh_interval_ms: None },
        default_excludes: None,
    })
}

/// A config file that says nothing leaves every default as it is.
pub proof fn lemma_silence_is_default(s: Settings)
    requires
        says_nothing(s),
    ensures
        config_of(s) == default_config(),
{
    assert(config_of(s) =~= default_config());
}

impl Settings {
    /// The settings of an empty config file.
    pub fn new() -> (r: Self)
        ensures
            says_nothing(r),
    {
        Settings {
            storage: StorageSettings {
                chunk_size: None,
                max_chunk_index: None,
                max_file_size: None,
                tombstone_ttl_secs: None,
            },
            network: NetworkSettings {
                max_request_size: None,
                max_response_size: None,
                request_timeout_secs: None,
                idle_connection_timeout_secs: None,
                gossipsub_heartbeat_secs: None,
                channel_capacity: None,
                discovery: None,
                relay: None,
            },
            watcher: WatcherSettings { poll_interval_ms: None, write_guard_ttl_secs: None, debounce_ms: None },
            tui: TuiSettings { max_log_lines: None, refresh_interval_ms: None },
            default_excludes: None,
        }
    }
}

impl P2SyncConfig {
    /// The configuration that settings stand for.
    pub fn from_settings(s: Settings) -> (r: Self)
        ensures
            r@ == config_of(s),
    {
        let storage = StorageConfig::default();
        let network = NetworkConfig::default();
        let watcher = WatcherConfig::default();
        let tui = TuiConfig::default();
        P2SyncConfig {
            storage: StorageConfig {
                chunk_size: given_or(s.storage.chunk_size, storage.chunk_size),
                max_chunk_index: given_or(s.storage.max_chunk_index, storage.max_chunk_index),
                max_file_size: given_or(s.storage.max_file_size, storage.max_file_size),
                tombstone_ttl_secs: given_or(s.storage.tombstone_ttl_secs, storage.tombstone_ttl_secs),
            },
            network: NetworkConfig {
                max_request_size: given_or(s.network.max_request_size, network.max_request_size),
                max_response_size: given_or(s.network.max_response_size, network.max_response_size),
                request_timeout_secs: given_or(s.network.request_timeout_secs, network.request_timeout_secs),
                idle_connection_timeout_secs: given_or(
                    s.network.idle_connection_timeout_secs,
                    network.idle_connection_timeout_secs,
                ),
                gossipsub_heartbeat_secs: given_or(
                    s.network.gossipsub_heartbeat_secs,
                    network.gossipsub_heartbeat_secs,
                ),
                channel_capacity: given_or(s.network.channel_capacity, network.channel_capacity),
                discovery: given_or(s.network.discovery, network.discovery),
                relay: given_or(s.network.relay, network.relay),
            },
            watcher: WatcherConfig {
                poll_interval_ms: given_or(s.watcher.poll_interval_ms, watcher.poll_interval_ms),
                write_guard_ttl_secs: given_or(s.watcher.write_guard_ttl_secs, watcher.write_guard_ttl_secs),
                debounce_ms: given_or(s.watcher.debounce_ms, watcher.debounce_ms),
            },
            tui: TuiConfig {
                max_log_lines: given_or(s.tui.max_log_lines, tui.max_log_lines),
                refresh_interval_ms: given_or(s.tui.refresh_interval_ms, tui.refresh_interval_ms),
            },
            default_excludes: given_or(s.default_excludes, default_exclude_list()),
        }
    }
}

} // verus!
