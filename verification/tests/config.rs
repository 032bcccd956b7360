use std::time::Duration;

use p2sync::config::{
    CONFIG_FILENAME, DiscoveryMode, NetworkConfig, P2SyncConfig, RelayMode, Settings, StorageConfig, TuiConfig,
    WatcherConfig,
};

#[test]
fn default_config_is_valid() {
    let cfg = P2SyncConfig::default();
    assert_eq!(cfg.storage.chunk_size, 256 * 1024);
    assert_eq!(cfg.network.max_response_size, 100 * 1024 * 1024);
    assert!(cfg.default_excludes.contains(&".git".to_string()));
}

#[test]
fn partial_toml_fills_defaults() {
    let toml_str = r#"
[storage]
chunk_size = 131072
"#;
    let value: toml::Value = toml::from_str(toml_str).unwrap();
    let mut settings = Settings::new();
    settings.storage.chunk_size =
        value.get("storage").and_then(|s| s.get("chunk_size")).and_then(|n| n.as_integer()).map(|n| n as usize);
    let parsed = P2SyncConfig::from_settings(settings);
    assert_eq!(parsed.storage.chunk_size, 131072);
    // Other fields keep defaults
    assert_eq!(parsed.storage.max_chunk_index, 16_384);
    assert_eq!(parsed.network.max_response_size, 100 * 1024 * 1024);
}

#[test]
fn load_returns_default_when_no_file() {
    let cfg = P2SyncConfig::from_settings(Settings::new());
    assert_eq!(cfg.storage.chunk_size, 256 * 1024);
    assert_eq!(cfg, P2SyncConfig::default());
}

#[test]
fn every_default() {
    assert_eq!(CONFIG_FILENAME, ".p2sync.toml");
    assert_eq!(
        StorageConfig::default(),
        StorageConfig {
            chunk_size: 262_144,
            max_chunk_index: 16_384,
            max_file_size: 1_073_741_824,
            tombstone_ttl_secs: 3600,
        }
    );
    let n = NetworkConfig::default();
    assert_eq!(n.max_request_size, 1_048_576);
    assert_eq!(n.request_timeout_secs, 120);
    assert_eq!(n.idle_connection_timeout_secs, 300);
    assert_eq!(n.gossipsub_heartbeat_secs, 5);
    assert_eq!(n.channel_capacity, 256);
    assert_eq!(n.discovery, DiscoveryMode::Lan);
    assert_eq!(n.relay, RelayMode::Off);
    assert!(!n.is_wan());
    assert_eq!(n.clone(), n);
    assert_eq!(WatcherConfig::default(), WatcherConfig { poll_interval_ms: 1000, write_guard_ttl_secs: 3, debounce_ms: 500 });
    assert_eq!(TuiConfig::default(), TuiConfig { max_log_lines: 100, refresh_interval_ms: 50 });
    let cfg = P2SyncConfig::default();
    assert_eq!(cfg.default_excludes, vec![".git", ".DS_Store", ".p2sync.toml"]);
    assert_eq!(cfg.clone(), cfg);
}

#[test]
fn durations() {
    let n = NetworkConfig::default();
    assert_eq!(n.request_timeout(), Duration::from_secs(120));
    assert_eq!(n.idle_connection_timeout(), Duration::from_secs(300));
    assert_eq!(n.gossipsub_heartbeat(), Duration::from_secs(5));
    let w = WatcherConfig::default();
    assert_eq!(w.poll_interval(), Duration::from_millis(1000));
    assert_eq!(w.write_guard_ttl(), Duration::from_secs(3));
    assert_eq!(w.debounce(), Duration::from_millis(500));
    assert_eq!(TuiConfig::default().refresh_interval(), Duration::from_millis(50));
}

#[test]
fn what_is_said_wins() {
    let mut s = Settings::new();
    s.storage.max_file_size = Some(7);
    s.network.discovery = DiscoveryMode::from_text("wan");
    s.network.relay = Some(RelayMode::from_text("/ip4/1.2.3.4/tcp/4001"));
    s.watcher.debounce_ms = Some(0);
    s.tui.max_log_lines = Some(3);
    s.default_excludes = Some(vec!["target".to_string()]);
    let cfg = P2SyncConfig::from_settings(s);
    assert_eq!(cfg.storage.max_file_size, 7);
    assert_eq!(cfg.storage.tombstone_ttl_secs, 3600);
    assert!(cfg.network.is_wan());
    assert_eq!(cfg.network.relay, RelayMode::Explicit("/ip4/1.2.3.4/tcp/4001".to_string()));
    assert_eq!(cfg.watcher.debounce_ms, 0);
    assert_eq!(cfg.watcher.poll_interval_ms, 1000);
    assert_eq!(cfg.tui.max_log_lines, 3);
    assert_eq!(cfg.default_excludes, vec!["target"]);
}

#[test]
fn discovery_and_relay_texts() {
    assert_eq!(DiscoveryMode::from_text("lan"), Some(DiscoveryMode::Lan));
    assert_eq!(DiscoveryMode::from_text("wan"), Some(DiscoveryMode::Wan));
    assert_eq!(DiscoveryMode::from_text("WAN"), None);
    assert_eq!(DiscoveryMode::Wan.to_text(), "wan");
    assert_eq!(DiscoveryMode::Lan.to_text(), "lan");
    assert_eq!(RelayMode::from_text("none"), RelayMode::Off);
    assert_eq!(RelayMode::from_text("auto"), RelayMode::Auto);
    assert_eq!(RelayMode::from_text("x").clone(), RelayMode::Explicit("x".to_string()));
}
