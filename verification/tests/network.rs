use p2sync::config::{DiscoveryMode, NetworkConfig, RelayMode, StorageConfig};
use p2sync::index::SyncIndex;
use p2sync::network::{
    NetworkEvent, NetworkStep, StartStep, index_ready, indexing, on_network_event, startup, startup_steps,
};
use p2sync::scan::DiskEntry;
use p2sync::swarm::{GroupTopic, SwarmAction, SwarmNotice, on_swarm_notice, short_of, short_peer_id};
use p2sync::sync_engine::SyncEvent;

const PEER: &str = "12D3KooWD3eckifWpRn9wQpMG9R9hX3sD158z7EqHWmweQAJU5SA";

fn log(s: &str) -> StartStep {
    StartStep::Tell(SyncEvent::Log(s.to_string()))
}

#[test]
fn identifiers_are_shortened() {
    assert_eq!(short_of(&[1, 2, 3]), [1, 2, 3, 0, 0, 0, 0, 0]);
    assert_eq!(short_of(&[9; 40]), [9; 8]);
    let bytes = PEER.parse::<libp2p::PeerId>().unwrap().to_bytes();
    assert_eq!(short_peer_id(PEER).unwrap().to_vec(), bytes[..8].to_vec());
    assert_eq!(short_peer_id("no peer"), None);
}

#[test]
fn the_network_is_started_on_the_local_network() {
    let network = NetworkConfig::default();
    assert_eq!(startup(&network, PEER), vec![log("discovery: LAN only")]);
}

#[test]
fn the_network_is_started_beyond_the_local_network() {
    let mut network = NetworkConfig::default();
    network.discovery = DiscoveryMode::Wan;
    let entered = || {
        vec![
            log("discovery: LAN + WAN (DHT)"),
            log("connecting to DHT bootstrap nodes..."),
            StartStep::Bootstrap,
        ]
    };
    assert_eq!(startup(&network, "friends"), entered());
    let mut search = entered();
    search.push(log("searching for peer on DHT..."));
    search.push(StartStep::Search(PEER.to_string()));
    assert_eq!(startup(&network, PEER), search);
    assert_eq!(startup_steps(&network, "friends", false, true), entered());
}

#[test]
fn relays() {
    let mut network = NetworkConfig::default();
    let addr = "/ip4/1.2.3.4/tcp/4001";
    network.relay = RelayMode::Explicit(addr.to_string());
    assert_eq!(
        startup(&network, "g"),
        vec![
            log("discovery: LAN only"),
            log("connecting to relay /ip4/1.2.3.4/tcp/4001"),
            StartStep::ListenViaRelay(addr.to_string()),
        ]
    );
    network.relay = RelayMode::Explicit("relay.example".to_string());
    assert_eq!(
        startup(&network, "g"),
        vec![
            log("discovery: LAN only"),
            log("connecting to relay relay.example"),
            StartStep::InvalidRelay("relay.example".to_string()),
        ]
    );
    network.relay = RelayMode::Auto;
    assert_eq!(
        startup(&network, "g"),
        vec![
            log("discovery: LAN only"),
            StartStep::RelayAutoWarning,
            log("WARNING: relay auto uses third-party nodes — not yet implemented, direct connections only"),
        ]
    );
}

#[test]
fn the_user_is_told_of_the_index() {
    let found = DiskEntry::Directory(vec![]);
    let ix = SyncIndex::build(&found, "/r", [0; 8], vec![], &StorageConfig::default()).unwrap();
    assert_eq!(indexing("/r"), SyncEvent::Log("indexing /r".to_string()));
    assert_eq!(index_ready(&ix), SyncEvent::IndexReady { file_count: 0, total_size: 0 });
}

#[test]
fn events_of_the_network() {
    let p = || "P".to_string();
    assert_eq!(
        on_network_event(&NetworkEvent::PeerDiscovered(p()), false),
        (
            vec![SyncEvent::PeerConnected(p()), SyncEvent::Log("peer discovered: P".to_string())],
            NetworkStep::Reconcile
        )
    );
    assert_eq!(
        on_network_event(&NetworkEvent::PeerDisconnected(p()), false),
        (
            vec![SyncEvent::PeerDisconnected(p()), SyncEvent::Log("peer disconnected: P".to_string())],
            NetworkStep::Done
        )
    );
    assert_eq!(
        on_network_event(&NetworkEvent::Listening("/a".to_string()), true),
        (vec![SyncEvent::Listening("/a".to_string())], NetworkStep::Done)
    );
    assert_eq!(on_network_event(&NetworkEvent::InboundRequest, true), (vec![], NetworkStep::Answer));
    assert_eq!(on_network_event(&NetworkEvent::Notification, false), (vec![], NetworkStep::Handle));
    assert_eq!(on_network_event(&NetworkEvent::Notification, true), (vec![], NetworkStep::Done));
}

#[test]
fn notices_of_the_swarm() {
    let s = |x: &str| x.to_string();
    let mut topic = GroupTopic::new();
    assert_eq!(topic.publish_to(), None);
    assert!(!topic.is_ours("p2sync/g"));
    topic.subscribed("g");
    assert_eq!(topic.publish_to(), Some("p2sync/g"));
    assert_eq!(
        on_swarm_notice(&SwarmNotice::MdnsDiscovered(vec![(s("A"), s("/a")), (s("B"), s("/b"))]), &topic),
        vec![
            SwarmAction::AddExplicitPeer(s("A")),
            SwarmAction::AddAddress { peer: s("A"), address: s("/a") },
            SwarmAction::DialAddress(s("/a")),
            SwarmAction::AddExplicitPeer(s("B")),
            SwarmAction::AddAddress { peer: s("B"), address: s("/b") },
            SwarmAction::DialAddress(s("/b")),
        ]
    );
    assert_eq!(
        on_swarm_notice(&SwarmNotice::MdnsExpired(vec![s("A")]), &topic),
        vec![SwarmAction::RemoveExplicitPeer(s("A"))]
    );
    assert_eq!(
        on_swarm_notice(&SwarmNotice::ClosestPeers(vec![s("A"), s("B")]), &topic),
        vec![SwarmAction::DialPeer(s("A")), SwarmAction::DialPeer(s("B"))]
    );
    assert_eq!(on_swarm_notice(&SwarmNotice::InboundRequest, &topic), vec![SwarmAction::HandOnRequest]);
    assert_eq!(on_swarm_notice(&SwarmNotice::InboundResponse, &topic), vec![SwarmAction::CompleteRequest]);
    assert_eq!(
        on_swarm_notice(&SwarmNotice::OutboundFailure { error: s("x") }, &topic),
        vec![SwarmAction::FailRequest(s("request failed: x"))]
    );
    assert_eq!(
        on_swarm_notice(&SwarmNotice::GossipMessage { is_notification: true }, &topic),
        vec![SwarmAction::HandOnNotification]
    );
    assert_eq!(on_swarm_notice(&SwarmNotice::GossipMessage { is_notification: false }, &topic), vec![]);
    assert_eq!(
        on_swarm_notice(&SwarmNotice::Subscribed { peer: s("A"), topic: s("p2sync/g") }, &topic),
        vec![SwarmAction::TellDiscovered(s("A"))]
    );
    assert_eq!(on_swarm_notice(&SwarmNotice::Subscribed { peer: s("A"), topic: s("p2sync/h") }, &topic), vec![]);
    assert_eq!(on_swarm_notice(&SwarmNotice::ConnectionEstablished, &topic), vec![]);
    assert_eq!(
        on_swarm_notice(&SwarmNotice::NewListenAddr { address: s("/a") }, &topic),
        vec![SwarmAction::TellListening(s("/a"))]
    );
    assert_eq!(on_swarm_notice(&SwarmNotice::ConnectionClosed { peer: s("A"), num_established: 1 }, &topic), vec![]);
    assert_eq!(
        on_swarm_notice(&SwarmNotice::ConnectionClosed { peer: s("A"), num_established: 0 }, &topic),
        vec![SwarmAction::TellDisconnected(s("A"))]
    );
    assert_eq!(on_swarm_notice(&SwarmNotice::Other, &topic), vec![]);
}
