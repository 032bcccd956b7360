//! How the engine starts, and what it does about events of the network.

use vstd::prelude::*;

use crate::config::{DiscoveryMode, NetworkConfig, RelayMode, RelayModel};
use crate::index;
use crate::index::SyncIndex;
use crate::reconcile;
use crate::swarm;
use crate::swarm::{parse_multiaddr, parse_peer_id};
use crate::sync_engine;
use crate::sync_engine::{EventModel, SyncEvent};
use crate::text;

verus! {

broadcast use {vstd::string::group_string_axioms, vstd::seq::group_seq_axioms};

/// What the user is told before the folder is indexed.
pub fn indexing(root: &str) -> (event: SyncEvent)
    ensures
        event@ == EventModel::Log("indexing "@ + root@),
{
    SyncEvent::Log(text::joined("indexing ", root))
}

/// What the user is told once the folder is indexed.
pub fn index_ready(index: &SyncIndex) -> (event: SyncEvent)
    requires
        index::total_bytes(index@.tree) <= u64::MAX,
    ensures
        event@ == (EventModel::IndexReady {
            file_count: index::counted(reconcile::file_total(index@.tree)),
            total_size: index::total_bytes(index@.tree) as u64,
        }),
{
    SyncEvent::IndexReady { file_count: index.file_count(), total_size: index.total_size() }
}

/// A step by which the network is started.
#[derive(Debug, PartialEq, Eq)]
pub enum StartStep {
    /// The user is told something.
    Tell(SyncEvent),
    /// The known entry nodes of the DHT are remembered, and the DHT is entered.
    Bootstrap,
    /// A peer is searched for on the DHT.
    Search(String),
    /// This peer listens through the relay at an address.
    ListenViaRelay(String),
    /// The relay address is none.
    InvalidRelay(String),
    /// Relays of third parties are not used yet.
    RelayAutoWarning,
}

/// A step, as a value of specifications.
pub ghost enum StartModel {
    Tell(EventModel),
    Bootstrap,
    Search(Seq<char>),
    ListenViaRelay(Seq<char>),
    InvalidRelay(Seq<char>),
    RelayAutoWarning,
}

impl View for StartStep {
    type V = StartModel;

    open spec fn view(&self) -> StartModel {
        match *self {
            StartStep::Tell(e) => StartModel::Tell(e@),
            StartStep::Bootstrap => StartModel::Bootstrap,
            StartStep::Search(p) => StartModel::Search(p@),
            StartStep::ListenViaRelay(a) => StartModel::ListenViaRelay(a@),
            StartStep::InvalidRelay(a) => StartModel::InvalidRelay(a@),
            StartStep::RelayAutoWarning => StartModel::RelayAutoWarning,
        }
    }
}

/// What a list of steps says.
pub open spec fn steps_model(v: Seq<StartStep>) -> Seq<StartModel> {
    v.map_values(|s: StartStep| s@)
}

/// A message to the user.
pub open spec fn says(s: Seq<char>) -> StartModel {
    StartModel::Tell(EventModel::Log(s))
}

/// How discovery is started. Beyond the local network the DHT is entered, and a group that is named
/// after a peer has that peer searched for.
pub open spec fn discovery_steps(discovery: DiscoveryMode, group_id: Seq<char>, group_is_peer: bool) -> Seq<StartModel> {
    match discovery {
        DiscoveryMode::Lan => seq![says("discovery: LAN only"@)],
        DiscoveryMode::Wan => {
            let entered = seq![
                says("discovery: LAN + WAN (DHT)"@),
                says("connecting to DHT bootstrap nodes..."@),
                StartModel::Bootstrap,
            ];
            if group_is_peer {
                entered + seq![says("searching for peer on DHT..."@), StartModel::Search(group_id)]
            } else {
                entered
            }
        },
    }
}

/// How a relay is used.
pub open spec fn relay_steps(relay: RelayModel, addr_is_valid: bool) -> Seq<StartModel> {
    match relay {
        RelayModel::Off => Seq::empty(),
        RelayModel::At(addr) => seq![
            says("connecting to relay "@ + addr),
            if addr_is_valid {
                StartModel::ListenViaRelay(addr)
            } else {
                StartModel::InvalidRelay(addr)
            },
        ],
        RelayModel::Any => seq![
            StartModel::RelayAutoWarning,
            says(
                "WARNING: relay auto uses third-party nodes — not yet implemented, direct connections only"@,
            ),
        ],
    }
}

fn tell(s: &str) -> (step: StartStep)
    ensures
        step@ == says(s@),
{
    StartStep::Tell(SyncEvent::Log(s.to_owned()))
}

/// The steps by which the network is started, where it is known whether the group is named after a peer
/// and whether the relay address is one.
pub fn startup_steps(
    network: &NetworkConfig,
    group_id: &str,
    group_is_peer: bool,
    relay_is_valid: bool,
) -> (v: Vec<StartStep>)
    ensures
        steps_model(v@) == discovery_steps(network@.discovery, group_id@, group_is_peer) + relay_steps(
            network@.relay,
            relay_is_valid,
        ),
{
    let mut v: Vec<StartStep> = Vec::new();
    if network.is_wan() {
        v.push(tell("discovery: LAN + WAN (DHT)"));
        v.push(tell("connecting to DHT bootstrap nodes..."));
        v.push(StartStep::Bootstrap);
        if group_is_peer {
            v.push(tell("searching for peer on DHT..."));
            v.push(StartStep::Search(group_id.to_owned()));
        }
    } else {
        v.push(tell("discovery: LAN only"));
    }
    let ghost found = discovery_steps(network@.discovery, group_id@, group_is_peer);
    assert(steps_model(v@) =~= found);
    match &network.relay {
        RelayMode::Off => {},
        RelayMode::Explicit(addr) => {
            v.push(StartStep::Tell(SyncEvent::Log(text::joined("connecting to relay ", addr.as_str()))));
            if relay_is_valid {
                v.push(StartStep::ListenViaRelay(addr.clone()));
            } else {
                v.push(StartStep::InvalidRelay(addr.clone()));
            }
        },
        RelayMode::Auto => {
            v.push(StartStep::RelayAutoWarning);
            v.push(
                tell("WARNING: relay auto uses third-party nodes — not yet implemented, direct connections only"),
            );
        },
    }
    assert(steps_model(v@) =~= found + relay_steps(network@.relay, relay_is_valid));
    v
}

/// Whether a relay setting holds a network address.
pub open spec fn relay_is_address(relay: RelayModel) -> bool {
    relay matches RelayModel::At(addr) && swarm::is_multiaddr(addr)
}

/// The steps by which the network is started.
pub fn startup(network: &NetworkConfig, group_id: &str) -> (v: Vec<StartStep>)
    ensures
        steps_model(v@) == discovery_steps(
            network@.discovery,
            group_id@,
            swarm::peer_id_bytes(group_id@) is Some,
        ) + relay_steps(network@.relay, relay_is_address(network@.relay)),
{
    let group_is_peer = parse_peer_id(group_id).is_some();
    let relay_is_valid = match &network.relay {
        RelayMode::Explicit(addr) => parse_multiaddr(addr.as_str()),
        _ => false,
    };
    startup_steps(network, group_id, group_is_peer, relay_is_valid)
}

/// Something that the network tells the engine. Peers and addresses go by their texts.
pub enum NetworkEvent {
    /// A peer of the group is there.
    PeerDiscovered(String),
    /// A peer is gone.
    PeerDisconnected(String),
    /// This peer can be reached at an address.
    Listening(String),
    /// A peer asks something.
    InboundRequest,
    /// A peer notifies of a change.
    Notification,
}

/// What is done about it, once the user is told.
#[derive(Debug, Clone, Copy, PartialEq, Eq)]
pub enum NetworkStep {
    /// Nothing more.
    Done,
    /// The folders are reconciled.
    Reconcile,
    /// The request is answered.
    Answer,
    /// The notification is handled.
    Handle,
}

/// What the user is told of an event.
pub open spec fn told_of(event: NetworkEvent) -> Seq<EventModel> {
    match event {
        NetworkEvent::PeerDiscovered(p) => seq![
            EventModel::PeerConnected(p@),
            EventModel::Log("peer discovered: "@ + p@),
        ],
        NetworkEvent::PeerDisconnected(p) => seq![
            EventModel::PeerDisconnected(p@),
            EventModel::Log("peer disconnected: "@ + p@),
        ],
        NetworkEvent::Listening(a) => seq![EventModel::Listening(a@)],
        NetworkEvent::InboundRequest => Seq::empty(),
        NetworkEvent::Notification => Seq::empty(),
    }
}

/// What is done about an event. A peer that does not pull ignores notifications.
pub open spec fn step_for(event: NetworkEvent, no_pull: bool) -> NetworkStep {
    match event {
        NetworkEvent::PeerDiscovered(_) => NetworkStep::Reconcile,
        NetworkEvent::PeerDisconnected(_) => NetworkStep::Done,
        NetworkEvent::Listening(_) => NetworkStep::Done,
        NetworkEvent::InboundRequest => NetworkStep::Answer,
        NetworkEvent::Notification => if no_pull {
            NetworkStep::Done
        } else {
            NetworkStep::Handle
        },
    }
}

/// Decides what is done about an event of the network.
pub fn on_network_event(event: &NetworkEvent, no_pull: bool) -> (r: (Vec<SyncEvent>, NetworkStep))
    ensures
        sync_engine::events_model(r.0@) == told_of(*event),
        r.1 == step_for(*event, no_pull),
{
    let mut events: Vec<SyncEvent> = Vec::new();
    let step = match event {
        NetworkEvent::PeerDiscovered(p) => {
            events.push(SyncEvent::PeerConnected(p.clone()));
            events.push(SyncEvent::Log(text::joined("peer discovered: ", p.as_str())));
            NetworkStep::Reconcile
        },
        NetworkEvent::PeerDisconnected(p) => {
            events.push(SyncEvent::PeerDisconnected(p.clone()));
            events.push(SyncEvent::Log(text::joined("peer disconnected: ", p.as_str())));
            NetworkStep::Done
        },
        NetworkEvent::Listening(a) => {
            events.push(SyncEvent::Listening(a.clone()));
            NetworkStep::Done
        },
        NetworkEvent::InboundRequest => NetworkStep::Answer,
        NetworkEvent::Notification => {
            if no_pull {
                NetworkStep::Done
            } else {
                NetworkStep::Handle
            }
        },
    };
    assert(sync_engine::events_model(events@) =~= told_of(*event));
    (events, step)
}

} // verus!
