//! What the network tells the application, and what the application makes of it.

use vstd::prelude::*;

use crate::conflict::PeerId;
use crate::protocol::sync_topic;
use crate::text;

verus! {

broadcast use {vstd::string::group_string_axioms, vstd::seq::group_seq_axioms};

/// The bytes of the peer identifier that a text stands for, if it stands for one.
pub uninterp spec fn peer_id_bytes(s: Seq<char>) -> Option<Seq<u8>>;

/// Calls `libp2p::PeerId::from_str` and takes the bytes of its result with `libp2p::PeerId::to_bytes`.
/// Whether a text is a peer identifier, and which bytes it has, depends on the text alone.
#[verifier::external_body]
pub(crate) fn parse_peer_id(s: &str) -> (r: Option<Vec<u8>>)
    ensures
        match r {
            Some(bytes) => peer_id_bytes(s@) == Some(bytes@),
            None => peer_id_bytes(s@) is None,
        },
{
    s.parse::<libp2p::PeerId>().ok().map(|p| p.to_bytes())
}

/// Whether a text is a network address.
pub uninterp spec fn is_multiaddr(s: Seq<char>) -> bool;

/// Calls `libp2p::Multiaddr::from_str`. Whether it accepts a text depends on the text alone.
#[verifier::external_body]
pub(crate) fn parse_multiaddr(s: &str) -> (r: bool)
    ensures
        r == is_multiaddr(s@),
{
    s.parse::<libp2p::Multiaddr>().is_ok()
}

/// The first eight bytes, with zeros behind where there are fewer.
pub open spec fn short_bytes(bytes: Seq<u8>) -> Seq<u8> {
    Seq::new(
        8,
        |i: int|
            if i < bytes.len() {
                bytes[i]
            } else {
                0
            },
    )
}

/// Shortens the bytes of a peer identifier.
pub fn short_of(bytes: &[u8]) -> (short: PeerId)
    ensures
        short@ == short_bytes(bytes@),
{
    let mut short: PeerId = [0u8; 8];
    let mut i: usize = 0;
    while i < 8 && i < bytes.len()
        invariant
            0 <= i <= 8,
            i <= bytes@.len(),
            forall|j: int| 0 <= j < i ==> short@[j] == bytes@[j],
            forall|j: int| i <= j < 8 ==> short@[j] == 0,
        decreases 8 - i,
    {
        short[i] = bytes[i];
        i = i + 1;
    }
    assert(short@ =~= short_bytes(bytes@));
    short
}

/// Extract a short PeerId (8 bytes) for use in conflict resolution. None for a text that is no peer
/// identifier.
pub fn short_peer_id(peer_id: &str) -> (r: Option<PeerId>)
    ensures
        match r {
            Some(short) => peer_id_bytes(peer_id@) matches Some(bytes) && short@ == short_bytes(bytes),
            None => peer_id_bytes(peer_id@) is None,
        },
{
    match parse_peer_id(peer_id) {
        Some(bytes) => Some(short_of(bytes.as_slice())),
        None => None,
    }
}

/// The topic of the sync group, once it is subscribed to.
pub struct GroupTopic {
    pub name: Option<String>,
}

/// The name of the topic, if there is one.
pub open spec fn topic_name(t: GroupTopic) -> Option<Seq<char>> {
    match t.name {
        Some(n) => Some(n@),
        None => None,
    }
}

impl GroupTopic {
    /// No topic yet.
    pub fn new() -> (t: Self)
        ensures
            topic_name(t) is None,
    {
        GroupTopic { name: None }
    }

    /// The topic of a group is subscribed to.
    pub fn subscribed(&mut self, group_id: &str)
        ensures
            topic_name(*final(self)) == Some("p2sync/"@ + group_id@),
    {
        self.name = Some(sync_topic(group_id));
    }

    /// Where notifications are published: nowhere before a topic is subscribed to.
    pub fn publish_to(&self) -> (r: Option<&str>)
        ensures
            match r {
                Some(s) => topic_name(*self) == Some(s@),
                None => topic_name(*self) is None,
            },
    {
        match &self.name {
            Some(n) => Some(n.as_str()),
            None => None,
        }
    }

    /// Whether a topic is that of the group.
    pub fn is_ours(&self, topic: &str) -> (r: bool)
        ensures
            r == (topic_name(*self) == Some(topic@)),
    {
        match &self.name {
            Some(n) => text::same_text(n.as_str(), topic),
            None => false,
        }
    }
}

/// What the network tells. Peers and addresses go by their texts.
pub enum SwarmNotice {
    /// Peers were found on the local network, each at an address.
    MdnsDiscovered(Vec<(String, String)>),
    /// Peers are no longer seen on the local network.
    MdnsExpired(Vec<String>),
    /// A peer asks something.
    InboundRequest,
    /// A peer has answered.
    InboundResponse,
    /// A request has failed.
    OutboundFailure { error: String },
    /// A message of the group came; whether it is a notification.
    GossipMessage { is_notification: bool },
    /// A search has found peers.
    ClosestPeers(Vec<String>),
    /// A peer has joined a topic.
    Subscribed { peer: String, topic: String },
    /// A connection to a peer is there.
    ConnectionEstablished,
    /// This peer can be reached at an address.
    NewListenAddr { address: String },
    /// A connection is gone; how many to the same peer are left.
    ConnectionClosed { peer: String, num_established: u32 },
    /// Anything else.
    Other,
}

/// What is done about it.
#[derive(Debug, PartialEq, Eq)]
pub enum SwarmAction {
    /// The peer always gets the messages of the group.
    AddExplicitPeer(String),
    /// It no longer does.
    RemoveExplicitPeer(String),
    /// The address of a peer is remembered.
    AddAddress { peer: String, address: String },
    /// An address is dialed.
    DialAddress(String),
    /// A peer is dialed.
    DialPeer(String),
    /// The request is handed on.
    HandOnRequest,
    /// The answer goes to whoever waits for it, if anyone does.
    CompleteRequest,
    /// The failure goes to whoever waits for the answer, if anyone does.
    FailRequest(String),
    /// The notification is handed on.
    HandOnNotification,
    /// The application is told that a peer of the group is there.
    TellDiscovered(String),
    /// The application is told that a peer is gone.
    TellDisconnected(String),
    /// The application is told where this peer can be reached.
    TellListening(String),
}

/// What is done about a notice, as a value of specifications.
pub ghost enum ActionModel {
    AddExplicitPeer(Seq<char>),
    RemoveExplicitPeer(Seq<char>),
    AddAddress { peer: Seq<char>, address: Seq<char> },
    DialAddress(Seq<char>),
    DialPeer(Seq<char>),
    HandOnRequest,
    CompleteRequest,
    FailRequest(Seq<char>),
    HandOnNotification,
    TellDiscovered(Seq<char>),
    TellDisconnected(Seq<char>),
    TellListening(Seq<char>),
}

impl View for SwarmAction {
    type V = ActionModel;

    open spec fn view(&self) -> ActionModel {
        match *self {
            SwarmAction::AddExplicitPeer(p) => ActionModel::AddExplicitPeer(p@),
            SwarmAction::RemoveExplicitPeer(p) => ActionModel::RemoveExplicitPeer(p@),
            SwarmAction::AddAddress { peer, address } => ActionModel::AddAddress { peer: peer@, address: address@ },
            SwarmAction::DialAddress(a) => ActionModel::DialAddress(a@),
            SwarmAction::DialPeer(p) => ActionModel::DialPeer(p@),
            SwarmAction::HandOnRequest => ActionModel::HandOnRequest,
            SwarmAction::CompleteRequest => ActionModel::CompleteRequest,
            SwarmAction::FailRequest(e) => ActionModel::FailRequest(e@),
            SwarmAction::HandOnNotification => ActionModel::HandOnNotification,
            SwarmAction::TellDiscovered(p) => ActionModel::TellDiscovered(p@),
            SwarmAction::TellDisconnected(p) => ActionModel::TellDisconnected(p@),
            SwarmAction::TellListening(a) => ActionModel::TellListening(a@),
        }
    }
}

/// What a list of actions says.
pub open spec fn actions_model(v: Seq<SwarmAction>) -> Seq<ActionModel> {
    v.map_values(|a: SwarmAction| a@)
}

/// What is done about peers found on the local network: each is told of the group's messages, its
/// address is remembered, and it is dialed.
pub open spec fn discovered_actions(found: Seq<(String, String)>) -> Seq<ActionModel>
    decreases found.len(),
{
    if found.len() == 0 {
        Seq::empty()
    } else {
        let (peer, address) = found.last();
        discovered_actions(found.drop_last()).push(ActionModel::AddExplicitPeer(peer@)).push(
            ActionModel::AddAddress { peer: peer@, address: address@ },
        ).push(ActionModel::DialAddress(address@))
    }
}

/// What is done about a notice.
pub open spec fn actions_for(notice: SwarmNotice, topic: Option<Seq<char>>) -> Seq<ActionModel> {
    match notice {
        SwarmNotice::MdnsDiscovered(found) => discovered_actions(found@),
        SwarmNotice::MdnsExpired(gone) => gone@.map_values(|p: String| ActionModel::RemoveExplicitPeer(p@)),
        SwarmNotice::InboundRequest => seq![ActionModel::HandOnRequest],
        SwarmNotice::InboundResponse => seq![ActionModel::CompleteRequest],
        SwarmNotice::OutboundFailure { error } => seq![ActionModel::FailRequest("request failed: "@ + error@)],
        SwarmNotice::GossipMessage { is_notification } => if is_notification {
            seq![ActionModel::HandOnNotification]
        } else {
            Seq::empty()
        },
        SwarmNotice::ClosestPeers(found) => found@.map_values(|p: String| ActionModel::DialPeer(p@)),
        SwarmNotice::Subscribed { peer, topic: joined } => if topic == Some(joined@) {
            seq![ActionModel::TellDiscovered(peer@)]
        } else {
            Seq::empty()
        },
        SwarmNotice::ConnectionEstablished => Seq::empty(),
        SwarmNotice::NewListenAddr { address } => seq![ActionModel::TellListening(address@)],
        SwarmNotice::ConnectionClosed { peer, num_established } => if num_established == 0 {
            seq![ActionModel::TellDisconnected(peer@)]
        } else {
            Seq::empty()
        },
        SwarmNotice::Other => Seq::empty(),
    }
}

fn on_discovered(found: &Vec<(String, String)>) -> (v: Vec<SwarmAction>)
    ensures
        actions_model(v@) == discovered_actions(found@),
{
    let mut v: Vec<SwarmAction> = Vec::new();
    let mut i: usize = 0;
    assert(actions_model(v@) =~= discovered_actions(found@.take(0)));
    while i < found.len()
        invariant
            0 <= i <= found@.len(),
            actions_model(v@) == discovered_actions(found@.take(i as int)),
        decreases found@.len() - i,
    {
        let ghost upto = found@.take(i + 1);
        assert(upto.drop_last() =~= found@.take(i as int));
        assert(upto.last() == found@[i as int]);
        let ghost before = actions_model(v@);
        let peer = &found[i].0;
        let address = &found[i].1;
        v.push(SwarmAction::AddExplicitPeer(peer.clone()));
        v.push(SwarmAction::AddAddress { peer: peer.clone(), address: address.clone() });
        v.push(SwarmAction::DialAddress(address.clone()));
        assert(actions_model(v@) =~= before.push(ActionModel::AddExplicitPeer(peer@)).push(
            ActionModel::AddAddress { peer: peer@, address: address@ },
        ).push(ActionModel::DialAddress(address@)));
        i = i + 1;
    }
    assert(found@.take(found@.len() as int) =~= found@);
    v
}

fn on_expired(gone: &Vec<String>) -> (v: Vec<SwarmAction>)
    ensures
        actions_model(v@) == gone@.map_values(|p: String| ActionModel::RemoveExplicitPeer(p@)),
{
    let mut v: Vec<SwarmAction> = Vec::new();
    let mut i: usize = 0;
    while i < gone.len()
        invariant
            0 <= i <= gone@.len(),
            v@.len() == i,
            forall|j: int| 0 <= j < i ==> (#[trigger] v@[j])@ == ActionModel::RemoveExplicitPeer(gone@[j]@),
        decreases gone@.len() - i,
    {
        v.push(SwarmAction::RemoveExplicitPeer(gone[i].clone()));
        i = i + 1;
    }
    assert(actions_model(v@) =~= gone@.map_values(|p: String| ActionModel::RemoveExplicitPeer(p@)));
    v
}

fn on_closest(found: &Vec<String>) -> (v: Vec<SwarmAction>)
    ensures
        actions_model(v@) == found@.map_values(|p: String| ActionModel::DialPeer(p@)),
{
    let mut v: Vec<SwarmAction> = Vec::new();
    let mut i: usize = 0;
    while i < found.len()
        invariant
            0 <= i <= found@.len(),
            v@.len() == i,
            forall|j: int| 0 <= j < i ==> (#[trigger] v@[j])@ == ActionModel::DialPeer(found@[j]@),
        decreases found@.len() - i,
    {
        v.push(SwarmAction::DialPeer(found[i].clone()));
        i = i + 1;
    }
    assert(actions_model(v@) =~= found@.map_values(|p: String| ActionModel::DialPeer(p@)));
    v
}

fn one(action: SwarmAction) -> (v: Vec<SwarmAction>)
    ensures
        actions_model(v@) == seq![action@],
{
    let v: Vec<SwarmAction> = vec![action];
    assert(actions_model(v@) =~= seq![action@]);
    v
}

fn nothing() -> (v: Vec<SwarmAction>)
    ensures
        actions_model(v@) == Seq::<ActionModel>::empty(),
{
    let v: Vec<SwarmAction> = Vec::new();
    assert(actions_model(v@) =~= Seq::<ActionModel>::empty());
    v
}

/// Decides what is done about what the network tells.
pub fn on_swarm_notice(notice: &SwarmNotice, topic: &GroupTopic) -> (v: Vec<SwarmAction>)
    ensures
        actions_model(v@) == actions_for(*notice, topic_name(*topic)),
{
    match notice {
        SwarmNotice::MdnsDiscovered(found) => on_discovered(found),
        SwarmNotice::MdnsExpired(gone) => on_expired(gone),
        SwarmNotice::InboundRequest => one(SwarmAction::HandOnRequest),
        SwarmNotice::InboundResponse => one(SwarmAction::CompleteRequest),
        SwarmNotice::OutboundFailure { error } => one(
            SwarmAction::FailRequest(text::joined("request failed: ", error.as_str())),
        ),
        SwarmNotice::GossipMessage { is_notification } => {
            if *is_notification {
                one(SwarmAction::HandOnNotification)
            } else {
                nothing()
            }
        },
        SwarmNotice::ClosestPeers(found) => on_closest(found),
        // A peer that joins our topic is in the same sync group
        SwarmNotice::Subscribed { peer, topic: joined } => {
            if topic.is_ours(joined.as_str()) {
                one(SwarmAction::TellDiscovered(peer.clone()))
            } else {
                nothing()
            }
        },
        SwarmNotice::ConnectionEstablished => nothing(),
        SwarmNotice::NewListenAddr { address } => one(SwarmAction::TellListening(address.clone())),
        SwarmNotice::ConnectionClosed { peer, num_established } => {
            if *num_established == 0 {
                one(SwarmAction::TellDisconnected(peer.clone()))
            } else {
                nothing()
            }
        },
        SwarmNotice::Other => nothing(),
    }
}

/// Only peers of the same group are told to the application: one that joins the topic of another group
/// is not.
pub proof fn lemma_other_groups_are_not_told(group: Seq<char>, other: Seq<char>, peer: String, topic: String)
    requires
        topic@ == "p2sync/"@ + other,
        group != other,
    ensures
        actions_for(SwarmNotice::Subscribed { peer, topic }, Some("p2sync/"@ + group)) == Seq::<ActionModel>::empty(),
{
    crate::protocol::lemma_topics_differ(group, other);
}

} // verus!
