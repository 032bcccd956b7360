[package]
name = "p2sync"
version = "0.2.0"
edition = "2021"
publish = false

[dependencies]
anyhow = "1"
blake3 = { version = "1", default-features = false, features = ["std"] }
clap = { version = "4", default-features = false, features = ["std", "derive", "env", "help", "usage", "error-context"] }
crossterm = { version = "0.28", default-features = false, features = ["events"] }
futures = { version = "0.3", default-features = false, features = ["std"] }
libp2p = { version = "0.55", default-features = false, features = ["tokio", "tcp", "noise", "yamux", "dns", "mdns", "kad", "gossipsub", "request-response", "cbor", "relay", "identify", "macros"] }
notify = { version = "8", default-features = false }
ratatui = { version = "0.29", default-features = false, features = ["crossterm"] }
serde = { version = "1", features = ["derive"] }
serde_json = "1"
tokio = { version = "1", features = ["rt-multi-thread", "macros", "sync", "time", "signal"] }
toml = "0.5"
tracing = { version = "0.1", default-features = false, features = ["std"] }
tracing-subscriber = { version = "0.3", default-features = false, features = ["std", "fmt", "env-filter"] }
