//! What settings and commands come to.

use vstd::prelude::*;

use crate::cli;
use crate::cli::{Cli, Commands, PeerSource, RunMode};
use crate::config;
use crate::config::{DiscoveryMode, NetworkConfig, P2SyncConfig, RelayMode, RelayModel, Settings, TuiConfig, WatcherConfig};
use crate::swarm;
use crate::text;
use crate::util;

verus! {

broadcast use {vstd::string::group_string_axioms, vstd::seq::group_seq_axioms};

/// A storage setting that a config file has is taken; one that it does not have is the documented default.
pub proof fn lemma_storage_settings(s: Settings, c: P2SyncConfig)
    requires
        call_ensures(P2SyncConfig::from_settings, (s,), c),
    ensures
        c.storage.chunk_size == s.storage.chunk_size.unwrap_or(262_144),
        c.storage.max_chunk_index == s.storage.max_chunk_index.unwrap_or(16_384),
        c.storage.max_file_size == s.storage.max_file_size.unwrap_or(1_073_741_824),
        c.storage.tombstone_ttl_secs == s.storage.tombstone_ttl_secs.unwrap_or(3_600),
{
    assert(c@.storage == config::config_of(s).storage);
}

/// A network setting that a config file has is taken; one that it does not have is the documented default.
pub proof fn lemma_network_settings(s: Settings, c: P2SyncConfig)
    requires
        call_ensures(P2SyncConfig::from_settings, (s,), c),
    ensures
        c.network.max_request_size == s.network.max_request_size.unwrap_or(1_048_576),
        c.network.max_response_size == s.network.max_response_size.unwrap_or(104_857_600),
        c.network.request_timeout_secs == s.network.request_timeout_secs.unwrap_or(120),
        c.network.idle_connection_timeout_secs == s.network.idle_connection_timeout_secs.unwrap_or(300),
        c.network.gossipsub_heartbeat_secs == s.network.gossipsub_heartbeat_secs.unwrap_or(5),
        c.network.channel_capacity == s.network.channel_capacity.unwrap_or(256),
        c.network.discovery == s.network.discovery.unwrap_or(DiscoveryMode::Lan),
        s.network.relay matches Some(r) ==> c.network.relay@ == r@,
        s.network.relay is None ==> c.network.relay@ == RelayModel::Off,
{
    assert(c@.network == config::config_of(s).network);
}

/// A setting of the watcher or the display that a config file has is taken; one that it does not have is the
/// documented default. So are the patterns that are always excluded.
pub proof fn lemma_other_settings(s: Settings, c: P2SyncConfig)
    requires
        call_ensures(P2SyncConfig::from_settings, (s,), c),
    ensures
        c.watcher.poll_interval_ms == s.watcher.poll_interval_ms.unwrap_or(1_000),
        c.watcher.write_guard_ttl_secs == s.watcher.write_guard_ttl_secs.unwrap_or(3),
        c.watcher.debounce_ms == s.watcher.debounce_ms.unwrap_or(500),
        c.tui.max_log_lines == s.tui.max_log_lines.unwrap_or(100),
        c.tui.refresh_interval_ms == s.tui.refresh_interval_ms.unwrap_or(50),
        s.default_excludes matches Some(v) ==> text::texts(c.default_excludes@) == text::texts(v@),
        s.default_excludes is None ==> text::texts(c.default_excludes@) == seq![".git"@, ".DS_Store"@, ".p2sync.toml"@],
{
    assert(c@ == config::config_of(s));
}

/// The defaults are those of an empty config file.
pub proof fn lemma_the_defaults_are_those_of_silence(s: Settings, c: P2SyncConfig, d: P2SyncConfig)
    requires
        call_ensures(Settings::new, (), s),
        call_ensures(P2SyncConfig::from_settings, (s,), c),
        call_ensures(<P2SyncConfig as Default>::default, (), d),
    ensures
        c@ == d@,
{
    config::lemma_silence_is_default(s);
}

/// The durations of the network settings are in seconds.
pub proof fn lemma_network_durations(
    n: &NetworkConfig,
    request: std::time::Duration,
    idle: std::time::Duration,
    heartbeat: std::time::Duration,
)
    requires
        call_ensures(NetworkConfig::request_timeout, (n,), request),
        call_ensures(NetworkConfig::idle_connection_timeout, (n,), idle),
        call_ensures(NetworkConfig::gossipsub_heartbeat, (n,), heartbeat),
    ensures
        config::duration_nanos(request) == n.request_timeout_secs * 1_000_000_000,
        config::duration_nanos(idle) == n.idle_connection_timeout_secs * 1_000_000_000,
        config::duration_nanos(heartbeat) == n.gossipsub_heartbeat_secs * 1_000_000_000,
{
}

/// The durations of the watcher and the display are in milliseconds, but for that of the write guard, which is
/// in seconds.
pub proof fn lemma_watcher_and_display_durations(
    w: &WatcherConfig,
    t: &TuiConfig,
    poll: std::time::Duration,
    guard: std::time::Duration,
    debounce: std::time::Duration,
    refresh: std::time::Duration,
)
    requires
        call_ensures(WatcherConfig::poll_interval, (w,), poll),
        call_ensures(WatcherConfig::write_guard_ttl, (w,), guard),
        call_ensures(WatcherConfig::debounce, (w,), debounce),
        call_ensures(TuiConfig::refresh_interval, (t,), refresh),
    ensures
        config::duration_nanos(poll) == w.poll_interval_ms * 1_000_000,
        config::duration_nanos(guard) == w.write_guard_ttl_secs * 1_000_000_000,
        config::duration_nanos(debounce) == w.debounce_ms * 1_000_000,
        config::duration_nanos(refresh) == t.refresh_interval_ms * 1_000_000,
{
}

/// A discovery mode that is written is read as it was; no other text is one.
pub proof fn lemma_discovery_modes_read_back(mode: DiscoveryMode, written: &'static str, s: &str, read: Option<DiscoveryMode>)
    requires
        call_ensures(DiscoveryMode::to_text, (&mode,), written),
        call_ensures(DiscoveryMode::from_text, (s,), read),
    ensures
        s@ == written@ ==> read == Some(mode),
        read is Some <==> s@ == "lan"@ || s@ == "wan"@,
{
    reveal_strlit("lan");
    reveal_strlit("wan");
    assert("lan"@[0] != "wan"@[0]);
}

/// A relay setting other than the two words is the address of a relay.
pub proof fn lemma_relay_settings(s: &str, r: RelayMode)
    requires
        call_ensures(RelayMode::from_text, (s,), r),
    ensures
        r@ == RelayModel::Off <==> s@ == "none"@,
        r@ == RelayModel::Any <==> s@ == "auto"@,
        s@ != "none"@ && s@ != "auto"@ ==> r@ == RelayModel::At(s@),
{
    reveal_strlit("none");
    reveal_strlit("auto");
    assert("none"@[0] != "auto"@[0]);
}

/// A shared folder always sends, and takes changes unless it is read-only; a synced one always takes them, and
/// sends unless it is read-only. Only the latter needs a peer to join.
pub proof fn lemma_read_only_folders(c: &Commands, mode: RunMode)
    requires
        call_ensures(Commands::mode, (c,), mode),
    ensures
        *c matches Commands::Share { readonly, .. } ==> mode == (RunMode::Sync {
            no_push: false,
            no_pull: readonly,
            joins: false,
        }),
        *c matches Commands::Sync { readonly, .. } ==> mode == (RunMode::Sync {
            no_push: readonly,
            no_pull: false,
            joins: true,
        }),
        mode is Fetch <==> c is Fetch,
        mode is Relay <==> c is Relay,
{
}

/// The dashboard is shown exactly on a terminal where it is not switched off, and beside it less is logged.
pub proof fn lemma_the_dashboard_is_shown_on_a_terminal(c: &Cli, terminal: bool, shown: bool, filter: &'static str)
    requires
        call_ensures(Cli::use_tui, (c, terminal), shown),
        call_ensures(cli::log_filter, (shown,), filter),
    ensures
        shown <==> terminal && !c.no_tui,
        shown ==> filter@ == "warn,libp2p_kad=error"@,
        !shown ==> filter@ == "info,libp2p_kad=error"@,
{
}

/// A peer that is given is taken; the user is asked for one exactly where none is given and there is a user to
/// ask.
pub proof fn lemma_where_the_peer_comes_from(explicit: Option<String>, terminal: bool, r: PeerSource)
    requires
        call_ensures(cli::peer_source, (explicit, terminal), r),
    ensures
        explicit matches Some(id) ==> r == PeerSource::Given(id),
        r is Prompt <==> explicit is None && terminal,
        r is Missing <==> explicit is None && !terminal,
{
}

/// A text stands for a peer exactly where it is one once white space at its ends is taken off; and the peer is
/// that text. Else the user is told so, and shown the beginning of it.
pub proof fn lemma_a_peer_is_read_without_white_space(raw: &str, r: Result<String, String>)
    requires
        call_ensures(cli::resolve_peer_id, (raw,), r),
    ensures
        r is Ok <==> swarm::peer_id_bytes(text::trimmed(raw@)) is Some,
        r matches Ok(id) ==> id@ == text::trimmed(raw@),
        r matches Err(message) ==> message@
            == "invalid peer ID format.\nA PeerId looks like: 12D3KooWRk... (base58-encoded, starts with '12D3Koo')\nGot: '"@
            + util::cut_end(text::trimmed(raw@), 23) + "'"@,
{
}

/// The patterns of a sync are those that were given, in their order, then each default that is not among them
/// yet.
pub proof fn lemma_defaults_are_added_one_by_one(given: Seq<Seq<char>>, defaults: Seq<Seq<char>>, d: Seq<char>)
    ensures
        cli::with_defaults(given, Seq::empty()) == given,
        cli::with_defaults(given, defaults.push(d)) == if cli::with_defaults(given, defaults).contains(d) {
            cli::with_defaults(given, defaults)
        } else {
            cli::with_defaults(given, defaults).push(d)
        },
{
    assert(defaults.push(d).drop_last() =~= defaults);
}

/// The configuration of a sync says what was asked for: the folder, the group, which way, and all patterns.
pub proof fn lemma_a_sync_is_configured_as_asked(
    path: &str,
    exclude: Vec<String>,
    no_push: bool,
    no_pull: bool,
    group_id: String,
    app_config: &P2SyncConfig,
    c: crate::sync_engine::SyncConfig,
    p: Seq<char>,
)
    requires
        call_ensures(cli::build_config, (path, exclude, no_push, no_pull, group_id, app_config), c),
    ensures
        c.root_path@ == path@,
        c.group_id@ == group_id@,
        c.no_push == no_push,
        c.no_pull == no_pull,
        text::texts(c.exclude_patterns@).contains(p) <==> text::texts(exclude@).contains(p) || text::texts(
            app_config.default_excludes@,
        ).contains(p),
{
    cli::lemma_patterns_are_complete(text::texts(exclude@), text::texts(app_config.default_excludes@), p);
}

/// A peer that joins another is in the group of that one; a peer that joins nobody is in its own.
pub proof fn lemma_the_group_of_a_peer(joined: &str, own: &str, a: String, b: String)
    requires
        call_ensures(cli::group_of, (Some(joined), own), a),
        call_ensures(cli::group_of, (None, own), b),
    ensures
        a@ == joined@,
        b@ == own@,
{
}

/// Every interface is listened on, at the port that was given.
pub proof fn lemma_where_a_peer_listens(port: u16, s: String)
    requires
        call_ensures(cli::listen_address, (port,), s),
    ensures
        s@ == "/ip4/0.0.0.0/tcp/"@ + text::decimal_text(port as nat),
{
}

} // verus!
