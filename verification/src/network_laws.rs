//! What is done about the network: whom the peer looks for, whom it meets, and what it makes of them.

use vstd::prelude::*;

use crate::config::{DiscoveryMode, NetworkConfig, RelayModel};
use crate::conflict::PeerId;
use crate::network;
use crate::network::{NetworkEvent, NetworkStep, StartModel, StartStep};
use crate::protocol;
use crate::swarm;
use crate::swarm::{ActionModel, GroupTopic, SwarmNotice};
use crate::sync_engine;
use crate::sync_engine::{EventModel, SyncEvent};

verus! {

broadcast use vstd::seq::group_seq_axioms;

/// Every peer that is met is reconciled with, and the user is told of it, whether this peer pulls or not.
pub proof fn lemma_every_peer_is_reconciled_with(
    peer: String,
    no_pull: bool,
    events: Vec<SyncEvent>,
    step: NetworkStep,
)
    requires
        call_ensures(network::on_network_event, (&NetworkEvent::PeerDiscovered(peer), no_pull), (events, step)),
    ensures
        step == NetworkStep::Reconcile,
        sync_engine::events_model(events@).len() == 2,
        sync_engine::events_model(events@)[0] == EventModel::PeerConnected(peer@),
        sync_engine::events_model(events@)[1] == EventModel::Log("peer discovered: "@ + peer@),
{
}

/// The user is told of every peer that leaves, and of every address; nothing else is done about either.
pub proof fn lemma_leaving_and_listening_are_told(
    text: String,
    no_pull: bool,
    gone: (Vec<SyncEvent>, NetworkStep),
    listening: (Vec<SyncEvent>, NetworkStep),
)
    requires
        call_ensures(network::on_network_event, (&NetworkEvent::PeerDisconnected(text), no_pull), gone),
        call_ensures(network::on_network_event, (&NetworkEvent::Listening(text), no_pull), listening),
    ensures
        gone.1 == NetworkStep::Done,
        sync_engine::events_model(gone.0@).len() == 2,
        sync_engine::events_model(gone.0@)[0] == EventModel::PeerDisconnected(text@),
        sync_engine::events_model(gone.0@)[1] == EventModel::Log("peer disconnected: "@ + text@),
        listening.1 == NetworkStep::Done,
        sync_engine::events_model(listening.0@).len() == 1,
        sync_engine::events_model(listening.0@)[0] == EventModel::Listening(text@),
{
}

/// Every request is answered. A notification is handled exactly by a peer that pulls. Neither is shown.
pub proof fn lemma_requests_are_answered_and_notifications_handled(
    no_pull: bool,
    asked: (Vec<SyncEvent>, NetworkStep),
    notified: (Vec<SyncEvent>, NetworkStep),
)
    requires
        call_ensures(network::on_network_event, (&NetworkEvent::InboundRequest, no_pull), asked),
        call_ensures(network::on_network_event, (&NetworkEvent::Notification, no_pull), notified),
    ensures
        asked.1 == NetworkStep::Answer,
        notified.1 == NetworkStep::Handle <==> !no_pull,
        notified.1 == NetworkStep::Done <==> no_pull,
        asked.0@.len() == 0,
        notified.0@.len() == 0,
{
    assert(sync_engine::events_model(asked.0@).len() == asked.0@.len());
    assert(sync_engine::events_model(notified.0@).len() == notified.0@.len());
}

/// A peer that stays on the local network never enters the DHT and searches for nobody there.
pub proof fn lemma_the_local_network_is_not_left(group_id: Seq<char>, group_is_peer: bool, i: int)
    requires
        0 <= i < network::discovery_steps(DiscoveryMode::Lan, group_id, group_is_peer).len(),
    ensures
        !(network::discovery_steps(DiscoveryMode::Lan, group_id, group_is_peer)[i] is Bootstrap),
        !(network::discovery_steps(DiscoveryMode::Lan, group_id, group_is_peer)[i] is Search),
{
}

/// A peer that goes beyond the local network enters the DHT, and after that searches for the peer that its
/// group is named after, exactly where it is named after one.
pub proof fn lemma_the_dht_is_entered_before_the_search(group_id: Seq<char>, group_is_peer: bool)
    ensures
        ({
            let steps = network::discovery_steps(DiscoveryMode::Wan, group_id, group_is_peer);
            &&& steps.contains(StartModel::Bootstrap)
            &&& steps.contains(StartModel::Search(group_id)) <==> group_is_peer
            &&& group_is_peer ==> steps.last() == StartModel::Search(group_id)
        }),
{
    let steps = network::discovery_steps(DiscoveryMode::Wan, group_id, group_is_peer);
    assert(steps[2] == StartModel::Bootstrap);
    if group_is_peer {
        assert(steps[4] == StartModel::Search(group_id));
    }
}

/// A relay is used exactly where one is set and its address is one; an address that is none is told.
pub proof fn lemma_a_relay_is_used_where_it_is_set(addr: Seq<char>, valid: bool)
    ensures
        network::relay_steps(RelayModel::Off, valid) == Seq::<StartModel>::empty(),
        network::relay_steps(RelayModel::At(addr), valid).len() == 2,
        network::relay_steps(RelayModel::At(addr), valid)[0] == StartModel::Tell(
            EventModel::Log("connecting to relay "@ + addr),
        ),
        valid ==> network::relay_steps(RelayModel::At(addr), valid)[1] == StartModel::ListenViaRelay(addr),
        !valid ==> network::relay_steps(RelayModel::At(addr), valid)[1] == StartModel::InvalidRelay(addr),
        network::relay_steps(RelayModel::Any, valid).contains(StartModel::RelayAutoWarning),
        forall|i: int|
            0 <= i < network::relay_steps(RelayModel::Any, valid).len() ==> !(#[trigger] network::relay_steps(
                RelayModel::Any,
                valid,
            )[i] is ListenViaRelay),
{
    assert(network::relay_steps(RelayModel::Any, valid)[0] == StartModel::RelayAutoWarning);
}

/// Every peer that is found on the local network gets the messages of the group, has its address remembered,
/// and is dialed there, after those that were found before it.
pub proof fn lemma_every_peer_found_is_dialed(found: Seq<(String, String)>, peer: String, address: String)
    ensures
        swarm::discovered_actions(Seq::empty()) == Seq::<ActionModel>::empty(),
        swarm::discovered_actions(found.push((peer, address))) == swarm::discovered_actions(found) + seq![
            ActionModel::AddExplicitPeer(peer@),
            ActionModel::AddAddress { peer: peer@, address: address@ },
            ActionModel::DialAddress(address@),
        ],
{
    assert(found.push((peer, address)).drop_last() =~= found);
    assert(swarm::discovered_actions(found.push((peer, address))) =~= swarm::discovered_actions(found) + seq![
        ActionModel::AddExplicitPeer(peer@),
        ActionModel::AddAddress { peer: peer@, address: address@ },
        ActionModel::DialAddress(address@),
    ]);
}

/// The peers that a notice names are the ones that are dialed.
pub proof fn lemma_a_notice_of_peers_is_acted_on(found: Vec<(String, String)>, topic: Option<Seq<char>>)
    ensures
        swarm::actions_for(SwarmNotice::MdnsDiscovered(found), topic) == swarm::discovered_actions(found@),
{
}

/// Every peer that is no longer seen loses the messages of the group, and every peer that a search finds is
/// dialed: each in its turn, and no other.
pub proof fn lemma_lost_and_found_peers(peers: Vec<String>, topic: Option<Seq<char>>, i: int)
    ensures
        swarm::actions_for(SwarmNotice::MdnsExpired(peers), topic).len() == peers@.len(),
        swarm::actions_for(SwarmNotice::ClosestPeers(peers), topic).len() == peers@.len(),
        0 <= i < peers@.len() ==> swarm::actions_for(SwarmNotice::MdnsExpired(peers), topic)[i]
            == ActionModel::RemoveExplicitPeer(peers@[i]@),
        0 <= i < peers@.len() ==> swarm::actions_for(SwarmNotice::ClosestPeers(peers), topic)[i]
            == ActionModel::DialPeer(peers@[i]@),
{
}

/// A peer that joins the topic of the group is told to the application; one that joins any other topic, or
/// joins before the group is known, is not.
pub proof fn lemma_peers_of_the_group_are_told(group: Seq<char>, peer: String, topic: String)
    ensures
        topic@ == "p2sync/"@ + group ==> swarm::actions_for(
            SwarmNotice::Subscribed { peer, topic },
            Some("p2sync/"@ + group),
        ) == seq![ActionModel::TellDiscovered(peer@)],
        topic@ != "p2sync/"@ + group ==> swarm::actions_for(
            SwarmNotice::Subscribed { peer, topic },
            Some("p2sync/"@ + group),
        ) == Seq::<ActionModel>::empty(),
        swarm::actions_for(SwarmNotice::Subscribed { peer, topic }, None) == Seq::<ActionModel>::empty(),
{
}

/// A peer is gone exactly when its last connection is.
pub proof fn lemma_a_peer_is_gone_with_its_last_connection(
    peer: String,
    num_established: u32,
    topic: Option<Seq<char>>,
)
    ensures
        num_established == 0 ==> swarm::actions_for(SwarmNotice::ConnectionClosed { peer, num_established }, topic)
            == seq![ActionModel::TellDisconnected(peer@)],
        num_established > 0 ==> swarm::actions_for(SwarmNotice::ConnectionClosed { peer, num_established }, topic)
            == Seq::<ActionModel>::empty(),
{
}

/// Requests and notifications are handed on, answers and failures go to whoever waits for them, and addresses
/// are told. A message that is no notification, a new connection, and anything else have no effect.
pub proof fn lemma_messages_are_handed_on(error: String, address: String, topic: Option<Seq<char>>)
    ensures
        swarm::actions_for(SwarmNotice::InboundRequest, topic) == seq![ActionModel::HandOnRequest],
        swarm::actions_for(SwarmNotice::InboundResponse, topic) == seq![ActionModel::CompleteRequest],
        swarm::actions_for(SwarmNotice::OutboundFailure { error }, topic) == seq![
            ActionModel::FailRequest("request failed: "@ + error@),
        ],
        swarm::actions_for(SwarmNotice::GossipMessage { is_notification: true }, topic) == seq![
            ActionModel::HandOnNotification,
        ],
        swarm::actions_for(SwarmNotice::GossipMessage { is_notification: false }, topic) == Seq::<
            ActionModel,
        >::empty(),
        swarm::actions_for(SwarmNotice::NewListenAddr { address }, topic) == seq![ActionModel::TellListening(address@)],
        swarm::actions_for(SwarmNotice::ConnectionEstablished, topic) == Seq::<ActionModel>::empty(),
        swarm::actions_for(SwarmNotice::Other, topic) == Seq::<ActionModel>::empty(),
{
}

/// The topic of a group names the group, so that two groups never share one.
pub proof fn lemma_a_topic_names_its_group(a: &str, b: &str, ta: String, tb: String)
    requires
        call_ensures(protocol::sync_topic, (a,), ta),
        call_ensures(protocol::sync_topic, (b,), tb),
    ensures
        ta@ == tb@ <==> a@ == b@,
        ta@ == "p2sync/"@ + a@,
{
    protocol::lemma_topics_differ(a@, b@);
}

/// The short form of a peer is its first eight bytes, with zeros where it has fewer.
pub proof fn lemma_the_short_form_of_a_peer(bytes: Seq<u8>, i: int)
    requires
        0 <= i < 8,
    ensures
        swarm::short_bytes(bytes).len() == 8,
        i < bytes.len() ==> swarm::short_bytes(bytes)[i] == bytes[i],
        i >= bytes.len() ==> swarm::short_bytes(bytes)[i] == 0,
{
}

/// A peer beyond the local network searches the DHT for the peer that its group is named after, and every
/// other peer searches for nobody. A relay is used where its address is one.
pub proof fn lemma_how_the_network_is_started(network: &NetworkConfig, group_id: &str, v: Vec<StartStep>, addr: Seq<char>)
    requires
        call_ensures(network::startup, (network, group_id), v),
    ensures
        network::steps_model(v@).contains(StartModel::Search(group_id@)) <==> network.discovery == DiscoveryMode::Wan
            && swarm::peer_id_bytes(group_id@) is Some,
        network::steps_model(v@).contains(StartModel::Bootstrap) <==> network.discovery == DiscoveryMode::Wan,
        network::steps_model(v@).contains(StartModel::ListenViaRelay(addr)) <==> network.relay@ == RelayModel::At(addr)
            && swarm::is_multiaddr(addr),
{
    let is_peer = swarm::peer_id_bytes(group_id@) is Some;
    let a = network::discovery_steps(network@.discovery, group_id@, is_peer);
    let b = network::relay_steps(network@.relay, network::relay_is_address(network@.relay));
    let all = network::steps_model(v@);
    assert(all == a + b);
    if network.discovery == DiscoveryMode::Wan {
        lemma_the_dht_is_entered_before_the_search(group_id@, is_peer);
        assert(all[2] == StartModel::Bootstrap);
        if is_peer {
            assert(all[4] == StartModel::Search(group_id@));
        }
    }
    if network.relay@ == RelayModel::At(addr) && swarm::is_multiaddr(addr) {
        assert(all[a.len() as int + 1] == StartModel::ListenViaRelay(addr));
    }
}

/// A message is one of the group exactly where its topic is that of the group; before a group is joined, none
/// is. The short form of a peer is that of its bytes.
pub proof fn lemma_messages_of_the_group(
    t: &GroupTopic,
    topic: &str,
    ours: bool,
    peer_id: &str,
    short: Option<PeerId>,
    i: int,
)
    requires
        call_ensures(GroupTopic::is_ours, (t, topic), ours),
        call_ensures(swarm::short_peer_id, (peer_id,), short),
        0 <= i < 8,
    ensures
        ours <==> swarm::topic_name(*t) == Some(topic@),
        short is Some <==> swarm::peer_id_bytes(peer_id@) is Some,
        short matches Some(s) ==> (swarm::peer_id_bytes(peer_id@) matches Some(bytes) ==> (i < bytes.len() ==> s@[i]
            == bytes[i])),
{
}

/// What the user is told while the network starts.
pub proof fn lemma_what_is_told_at_the_start(group_id: Seq<char>)
    ensures
        network::discovery_steps(DiscoveryMode::Lan, group_id, true) == seq![
            StartModel::Tell(EventModel::Log("discovery: LAN only"@)),
        ],
        network::discovery_steps(DiscoveryMode::Lan, group_id, false) == network::discovery_steps(
            DiscoveryMode::Lan,
            group_id,
            true,
        ),
        network::discovery_steps(DiscoveryMode::Wan, group_id, false) == seq![
            StartModel::Tell(EventModel::Log("discovery: LAN + WAN (DHT)"@)),
            StartModel::Tell(EventModel::Log("connecting to DHT bootstrap nodes..."@)),
            StartModel::Bootstrap,
        ],
        network::discovery_steps(DiscoveryMode::Wan, group_id, true) == network::discovery_steps(
            DiscoveryMode::Wan,
            group_id,
            false,
        ) + seq![
            StartModel::Tell(EventModel::Log("searching for peer on DHT..."@)),
            StartModel::Search(group_id),
        ],
{
}

} // verus!
