//! Command line: what was asked for, and whom to sync with.

use vstd::prelude::*;

use crate::config::P2SyncConfig;
use crate::swarm;
use crate::swarm::parse_peer_id;
use crate::sync_engine::SyncConfig;
use crate::text;
use crate::util;
use crate::util::truncate_end;

verus! {

broadcast use {vstd::string::group_string_axioms, vstd::seq::group_seq_axioms};

/// The environment variable that may hold the peer.
pub const PEER_ENV_VAR: &'static str = "P2SYNC_PEER_ID";

/// What was asked for on the command line.
#[derive(Debug, PartialEq, Eq)]
pub struct Cli {
    pub command: Commands,
    /// Disable TUI, log to stderr instead
    pub no_tui: bool,
}

#[derive(Debug, PartialEq, Eq)]
pub enum Commands {
    /// Create a sync group and display the Peer ID to share
    Share {
        /// Path to the folder to sync
        path: String,
        /// Files/directories that are excluded
        exclude: Vec<String>,
        /// Reject incoming changes from peers (outbound sharing only)
        readonly: bool,
        /// Port to listen on (0 = random)
        port: u16,
    },
    /// Join a sync group and sync continuously (bidirectional)
    Sync {
        /// Path to sync into
        path: String,
        /// Peer ID from 'p2sync share' output
        peer: Option<String>,
        /// Files/directories that are excluded
        exclude: Vec<String>,
        /// Receive only: don't push local changes to peers
        readonly: bool,
        /// Port to listen on (0 = random)
        port: u16,
    },
    /// Download from a sync group, then exit
    Fetch {
        /// Path to download into (created if it doesn't exist)
        path: String,
        /// Peer ID from 'p2sync share' output
        peer: Option<String>,
        /// Files/directories that are excluded
        exclude: Vec<String>,
        /// Port to listen on (0 = random)
        port: u16,
    },
    /// Run a relay node for peers behind NAT (no sync, just routing)
    Relay {
        /// Port to listen on
        port: u16,
    },
}

/// What a command runs.
#[derive(Debug, Clone, Copy, PartialEq, Eq)]
pub enum RunMode {
    /// Continuous sync.
    Sync {
        /// Local changes are not pushed.
        no_push: bool,
        /// Changes of peers are not pulled.
        no_pull: bool,
        /// A peer has to be given.
        joins: bool,
    },
    /// One download.
    Fetch,
    /// A relay node.
    Relay,
}

impl Cli {
    /// Whether the dashboard is shown: unless it is switched off, on a terminal.
    pub fn use_tui(&self, stdout_is_terminal: bool) -> (r: bool)
        ensures
            r == (!self.no_tui && stdout_is_terminal),
    {
        !self.no_tui && stdout_is_terminal
    }
}

impl Commands {
    /// What the command runs. A folder that is shared read-only takes no changes of peers; one that is
    /// synced read-only sends none.
    pub fn mode(&self) -> (r: RunMode)
        ensures
            match *self {
                Commands::Share { readonly, .. } => r == (RunMode::Sync {
                    no_push: false,
                    no_pull: readonly,
                    joins: false,
                }),
                Commands::Sync { readonly, .. } => r == (RunMode::Sync {
                    no_push: readonly,
                    no_pull: false,
                    joins: true,
                }),
                Commands::Fetch { .. } => r == RunMode::Fetch,
                Commands::Relay { .. } => r == RunMode::Relay,
            },
    {
        match self {
            Commands::Share { readonly, .. } => RunMode::Sync { no_push: false, no_pull: *readonly, joins: false },
            Commands::Sync { readonly, .. } => RunMode::Sync { no_push: *readonly, no_pull: false, joins: true },
            Commands::Fetch { .. } => RunMode::Fetch,
            Commands::Relay { .. } => RunMode::Relay,
        }
    }
}

/// What is logged where nothing else is set: warnings beside the dashboard, else information too.
pub fn log_filter(use_tui: bool) -> (s: &'static str)
    ensures
        s@ == if use_tui {
            "warn,libp2p_kad=error"@
        } else {
            "info,libp2p_kad=error"@
        },
{
    if use_tui {
        "warn,libp2p_kad=error"
    } else {
        "info,libp2p_kad=error"
    }
}

/// Where the peer comes from.
#[derive(Debug, PartialEq, Eq)]
pub enum PeerSource {
    /// It was given on the command line or in the environment.
    Given(String),
    /// The user is asked.
    Prompt,
    /// It is missing, and nobody can be asked.
    Missing,
}

/// Decides where the peer comes from: what was given, else the user if there is one.
pub fn peer_source(explicit: Option<String>, stdin_is_terminal: bool) -> (r: PeerSource)
    ensures
        match explicit {
            Some(id) => r == PeerSource::Given(id),
            None => if stdin_is_terminal {
                r == PeerSource::Prompt
            } else {
                r == PeerSource::Missing
            },
        },
{
    match explicit {
        Some(id) => PeerSource::Given(id),
        None => {
            if stdin_is_terminal {
                PeerSource::Prompt
            } else {
                PeerSource::Missing
            }
        },
    }
}

/// What the user is told where the peer is missing.
pub const MISSING_PEER: &'static str =
    "no peer ID provided.\nRun 'p2sync share <path>' on the source machine to get a PeerId, then:\n  - pass it with --peer <PEER_ID>\n  - or set P2SYNC_PEER_ID environment variable\n  - or run interactively (TTY required)";

/// What the user is told of a text that is no peer.
pub open spec fn invalid_peer_text(raw: Seq<char>) -> Seq<char> {
    "invalid peer ID format.\nA PeerId looks like: 12D3KooWRk... (base58-encoded, starts with '12D3Koo')\nGot: '"@
        + util::cut_end(text::trimmed(raw), 23) + "'"@
}

/// The peer that a text stands for, where `bytes` are those of the text without surrounding white space,
/// if it is a peer identifier.
pub fn checked_peer(raw: &str, bytes: Option<Vec<u8>>) -> (r: Result<String, String>)
    ensures
        match r {
            Ok(id) => bytes is Some && id@ == text::trimmed(raw@),
            Err(message) => bytes is None && message@ == invalid_peer_text(raw@),
        },
{
    let trimmed = text::trim(raw);
    match bytes {
        Some(_) => Ok(trimmed),
        None => {
            let mut message = text::joined(
                "invalid peer ID format.\nA PeerId looks like: 12D3KooWRk... (base58-encoded, starts with '12D3Koo')\nGot: '",
                truncate_end(trimmed.as_str(), 23).as_str(),
            );
            message.append("'");
            Err(message)
        },
    }
}

/// Resolve peer ID from the text that was given or entered; else what the user is told.
pub fn resolve_peer_id(raw: &str) -> (r: Result<String, String>)
    ensures
        match r {
            Ok(id) => id@ == text::trimmed(raw@) && swarm::peer_id_bytes(id@) is Some,
            Err(message) => swarm::peer_id_bytes(text::trimmed(raw@)) is None && message@ == invalid_peer_text(raw@),
        },
{
    let trimmed = text::trim(raw);
    let bytes = parse_peer_id(trimmed.as_str());
    checked_peer(raw, bytes)
}

/// The patterns that were given, then those of the defaults that are not among them yet.
pub open spec fn with_defaults(given: Seq<Seq<char>>, defaults: Seq<Seq<char>>) -> Seq<Seq<char>>
    decreases defaults.len(),
{
    if defaults.len() == 0 {
        given
    } else {
        let before = with_defaults(given, defaults.drop_last());
        if before.contains(defaults.last()) {
            before
        } else {
            before.push(defaults.last())
        }
    }
}

/// Puts the configuration of a sync together.
pub fn build_config(
    path: &str,
    exclude: Vec<String>,
    no_push: bool,
    no_pull: bool,
    group_id: String,
    app_config: &P2SyncConfig,
) -> (c: SyncConfig)
    ensures
        c.root_path@ == path@,
        c.group_id == group_id,
        c.no_push == no_push,
        c.no_pull == no_pull,
        text::texts(c.exclude_patterns@) == with_defaults(text::texts(exclude@), app_config@.default_excludes),
{
    let ghost given = text::texts(exclude@);
    let ghost defaults = app_config@.default_excludes;
    let mut exclude_patterns = exclude;
    let mut i: usize = 0;
    assert(defaults.take(0) =~= Seq::<Seq<char>>::empty());
    while i < app_config.default_excludes.len()
        invariant
            0 <= i <= app_config.default_excludes@.len(),
            defaults == text::texts(app_config.default_excludes@),
            text::texts(exclude_patterns@) == with_defaults(given, defaults.take(i as int)),
        decreases app_config.default_excludes@.len() - i,
    {
        let ghost upto = defaults.take(i + 1);
        assert(upto.drop_last() =~= defaults.take(i as int));
        let default = &app_config.default_excludes[i];
        assert(upto.last() == default@);
        if !text::has_text(&exclude_patterns, default.as_str()) {
            let ghost before = text::texts(exclude_patterns@);
            exclude_patterns.push(default.clone());
            assert(text::texts(exclude_patterns@) =~= before.push(default@));
        }
        i = i + 1;
    }
    assert(defaults.take(defaults.len() as int) =~= defaults);
    SyncConfig { root_path: path.to_owned(), group_id, exclude_patterns, no_push, no_pull }
}

/// Every pattern that was given and every default is among the patterns, and no other; a default is
/// never there twice on account of being added.
pub proof fn lemma_patterns_are_complete(given: Seq<Seq<char>>, defaults: Seq<Seq<char>>, p: Seq<char>)
    ensures
        with_defaults(given, defaults).contains(p) <==> given.contains(p) || defaults.contains(p),
        given.no_duplicates() ==> with_defaults(given, defaults).no_duplicates(),
    decreases defaults.len(),
{
    if defaults.len() > 0 {
        let rest = defaults.drop_last();
        let d = defaults.last();
        let before = with_defaults(given, rest);
        let after = with_defaults(given, defaults);
        lemma_patterns_are_complete(given, rest, p);
        assert(defaults =~= rest.push(d));
        assert(defaults.contains(p) <==> rest.contains(p) || p == d) by {
            if rest.contains(p) {
                let j = choose|j: int| 0 <= j < rest.len() && rest[j] == p;
                assert(defaults[j] == p);
            }
            if p == d {
                assert(defaults[defaults.len() - 1] == p);
            }
            if defaults.contains(p) {
                let j = choose|j: int| 0 <= j < defaults.len() && defaults[j] == p;
                if j < rest.len() {
                    assert(rest[j] == p);
                }
            }
        }
        if !before.contains(d) {
            assert(after.contains(p) <==> before.contains(p) || p == d) by {
                if before.contains(p) {
                    let j = choose|j: int| 0 <= j < before.len() && before[j] == p;
                    assert(after[j] == p);
                }
                if p == d {
                    assert(after[after.len() - 1] == p);
                }
                if after.contains(p) {
                    let j = choose|j: int| 0 <= j < after.len() && after[j] == p;
                    if j < before.len() {
                        assert(before[j] == p);
                    }
                }
            }
            if given.no_duplicates() {
                assert forall|i: int, j: int| 0 <= i < after.len() && 0 <= j < after.len() && i != j implies after[i]
                    != after[j] by {
                    if i < before.len() {
                        assert(before.contains(before[i]));
                    }
                    if j < before.len() {
                        assert(before.contains(before[j]));
                    }
                }
            }
        }
    }
}

/// The address to listen on: every interface, at a port.
pub fn listen_address(port: u16) -> (s: String)
    ensures
        s@ == "/ip4/0.0.0.0/tcp/"@ + text::decimal_text(port as nat),
{
    text::joined("/ip4/0.0.0.0/tcp/", text::decimal(port as u64).as_str())
}

/// The group that a peer syncs with: that of the peer it joins, else its own.
pub fn group_of(joined_peer: Option<&str>, local_peer: &str) -> (s: String)
    ensures
        s@ == match joined_peer {
            Some(p) => p@,
            None => local_peer@,
        },
{
    match joined_peer {
        Some(p) => p.to_owned(),
        None => local_peer.to_owned(),
    }
}

} // verus!
