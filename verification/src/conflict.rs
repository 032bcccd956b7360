//! Vector clocks, tombstones, and what to do with changes that were made apart.

use vstd::prelude::*;

use crate::peers;
use crate::peers::{PeerCounters, peer_lt};
use crate::text;
use crate::util;
use crate::util::{now_secs, peer_id_hex};

pub use crate::peers::PeerId;

verus! {

broadcast use {vstd::string::group_string_axioms, vstd::seq::group_seq_axioms, vstd::map::group_map_axioms};

/// How far a clock has counted for a peer; a peer without a counter counts as zero.
pub open spec fn count(clock: Map<PeerId, u64>, peer: PeerId) -> u64 {
    if clock.contains_key(peer) {
        clock[peer]
    } else {
        0
    }
}

/// Whether the clock `a` has counted no further than `b`, for every peer.
pub open spec fn no_later(a: Map<PeerId, u64>, b: Map<PeerId, u64>) -> bool {
    forall|p: PeerId| #[trigger] count(a, p) <= count(b, p)
}

/// The clock once the counter of a peer has gone up by one.
pub open spec fn ticked(clock: Map<PeerId, u64>, peer: PeerId) -> Map<PeerId, u64> {
    clock.insert(peer, (count(clock, peer) + 1) as u64)
}

/// The greater of two counts.
pub open spec fn greater(a: u64, b: u64) -> u64 {
    if a < b {
        b
    } else {
        a
    }
}

/// The clock that has, for every peer of either clock, the greater of the two counters.
pub open spec fn merged(a: Map<PeerId, u64>, b: Map<PeerId, u64>) -> Map<PeerId, u64> {
    Map::new(
        |p: PeerId| a.contains_key(p) || b.contains_key(p),
        |p: PeerId| greater(count(a, p), count(b, p)),
    )
}

/// Causal ordering between two vector clocks.
#[derive(Debug, Clone, Copy, PartialEq, Eq)]
pub enum Causality {
    /// First happened before second.
    Before,
    /// First happened after second.
    After,
    /// Concurrent modifications (conflict).
    Concurrent,
    /// Identical clocks.
    Equal,
}

/// How the clock `a` stands to the clock `b`.
pub open spec fn relation(a: Map<PeerId, u64>, b: Map<PeerId, u64>) -> Causality {
    if no_later(a, b) && no_later(b, a) {
        Causality::Equal
    } else if no_later(a, b) {
        Causality::Before
    } else if no_later(b, a) {
        Causality::After
    } else {
        Causality::Concurrent
    }
}

/// Vector clock for tracking causal ordering of file modifications.
#[derive(Debug, PartialEq, Eq)]
pub struct VectorClock {
    pub counters: PeerCounters,
}

impl View for VectorClock {
    type V = Map<PeerId, u64>;

    open spec fn view(&self) -> Map<PeerId, u64> {
        self.counters@
    }
}

impl Clone for VectorClock {
    fn clone(&self) -> (r: Self)
        ensures
            r@ == self@,
    {
        VectorClock { counters: self.counters.clone() }
    }
}

impl Default for VectorClock {
    fn default() -> (r: Self)
        ensures
            r@ == Map::<PeerId, u64>::empty(),
    {
        VectorClock { counters: PeerCounters::new() }
    }
}

impl VectorClock {
    /// A clock that has counted nothing.
    pub fn new() -> (r: Self)
        ensures
            r@ == Map::<PeerId, u64>::empty(),
    {
        VectorClock { counters: PeerCounters::new() }
    }

    /// The counter of a peer, zero where it has none.
    pub fn count(&self, peer: &PeerId) -> (n: u64)
        ensures
            n == count(self@, *peer),
    {
        match self.counters.get(peer) {
            Some(n) => n,
            None => 0,
        }
    }

    /// Increment the counter for a peer, marking a local modification.
    pub fn tick(&mut self, peer: PeerId)
        requires
            count(old(self)@, peer) < u64::MAX,
        ensures
            final(self)@ == ticked(old(self)@, peer),
    {
        let n: u64 = self.count(&peer);
        self.counters.insert(peer, n + 1);
    }

    /// Merge another clock into this one (take component-wise max).
    pub fn merge(&mut self, other: &VectorClock)
        ensures
            final(self)@ == merged(old(self)@, other@),
    {
        let ghost before = self@;
        let ghost pairs = other.counters.pairs();
        let n: usize = other.counters.len();
        let mut i: usize = 0;
        while i < n
            invariant
                0 <= i <= n,
                n == pairs.len(),
                pairs == other.counters.pairs(),
                forall|j: int| 0 <= j < n ==> other@.contains_pair((#[trigger] pairs[j]).0, pairs[j].1),
                forall|p: PeerId| #[trigger] self@.contains_key(p) <==> before.contains_key(p) || exists|j: int|
                    0 <= j < i && (#[trigger] pairs[j]).0 == p,
                forall|p: PeerId| before.contains_key(p) ==> #[trigger] self@[p] >= before[p],
                forall|p: PeerId|
                    #![trigger self@[p]]
                    self@.contains_key(p) ==> self@[p] == count(before, p) || self@[p] == greater(
                        count(before, p),
                        count(other@, p),
                    ),
                forall|j: int|
                    0 <= j < i ==> self@[(#[trigger] pairs[j]).0] == greater(
                        count(before, pairs[j].0),
                        count(other@, pairs[j].0),
                    ),
            decreases n - i,
        {
            let (peer, theirs) = other.counters.entry_at(i);
            assert(other@.contains_pair(pairs[i as int].0, pairs[i as int].1));
            let ours: u64 = self.count(&peer);
            let most: u64 = if ours < theirs {
                theirs
            } else {
                ours
            };
            let ghost earlier = self@;
            self.counters.insert(peer, most);
            proof {
                assert(earlier.contains_key(peer) ==> earlier[peer] == earlier[peer]);
                assert(before.contains_key(peer) ==> earlier.contains_key(peer));
                assert forall|p: PeerId| #[trigger] self@.contains_key(p) implies before.contains_key(p)
                    || exists|j: int| 0 <= j < i + 1 && (#[trigger] pairs[j]).0 == p by {
                    if p == peer {
                        assert(pairs[i as int].0 == p);
                    } else {
                        assert(earlier.contains_key(p));
                        if !before.contains_key(p) {
                            let j = choose|j: int| 0 <= j < i && (#[trigger] pairs[j]).0 == p;
                            assert(pairs[j].0 == p);
                        }
                    }
                }
                assert forall|p: PeerId|
                    before.contains_key(p) || exists|j: int|
                        0 <= j < i + 1 && (#[trigger] pairs[j]).0 == p implies #[trigger] self@.contains_key(p) by {
                    if p != peer {
                        if !before.contains_key(p) {
                            let j = choose|j: int| 0 <= j < i + 1 && (#[trigger] pairs[j]).0 == p;
                            assert(j < i);
                            assert(pairs[j].0 == p);
                        }
                        assert(earlier.contains_key(p));
                    }
                }
                assert forall|p: PeerId| before.contains_key(p) implies #[trigger] self@[p] >= before[p] by {
                    assert(earlier[p] >= before[p]);
                }
                assert forall|p: PeerId| #![trigger self@[p]] self@.contains_key(p) implies self@[p] == count(before, p)
                    || self@[p] == greater(count(before, p), count(other@, p)) by {
                    if p != peer {
                        assert(earlier.contains_key(p));
                        assert(earlier[p] == self@[p]);
                    }
                }
                assert forall|j: int| 0 <= j < i + 1 implies self@[(#[trigger] pairs[j]).0] == greater(
                    count(before, pairs[j].0),
                    count(other@, pairs[j].0),
                ) by {
                    if pairs[j].0 != peer {
                        assert(j < i);
                        assert(earlier[pairs[j].0] == self@[pairs[j].0]);
                    }
                }
            }
            i = i + 1;
        }
        proof {
            let goal = merged(before, other@);
            assert forall|p: PeerId| #[trigger] self@.contains_key(p) == goal.contains_key(p) by {
                if other@.contains_key(p) {
                    let j = choose|j: int| 0 <= j < n && (#[trigger] pairs[j]).0 == p;
                    assert(pairs[j].0 == p);
                }
                if self@.contains_key(p) && !before.contains_key(p) {
                    let j = choose|j: int| 0 <= j < n && (#[trigger] pairs[j]).0 == p;
                    assert(other@.contains_pair(pairs[j].0, pairs[j].1));
                }
            }
            assert forall|p: PeerId| self@.contains_key(p) implies #[trigger] self@[p] == goal[p] by {
                assert(goal.contains_key(p));
                if other@.contains_key(p) {
                    let j = choose|j: int| 0 <= j < n && (#[trigger] pairs[j]).0 == p;
                    assert(self@[pairs[j].0] == greater(count(before, pairs[j].0), count(other@, pairs[j].0)));
                }
            }
            assert(self@ =~= goal);
        }
    }

    /// Compare two vector clocks for causal ordering.
    pub fn compare(&self, other: &VectorClock) -> (r: Causality)
        ensures
            r == relation(self@, other@),
    {
        let behind = !none_ahead(self, other);
        let ahead = !none_ahead(other, self);
        if behind && ahead {
            Causality::Concurrent
        } else if ahead {
            Causality::Before
        } else if behind {
            Causality::After
        } else {
            Causality::Equal
        }
    }
}

/// Whether no counter of `a` is ahead of `b`.
fn none_ahead(a: &VectorClock, b: &VectorClock) -> (r: bool)
    ensures
        r == no_later(a@, b@),
{
    let ghost pairs = a.counters.pairs();
    let n: usize = a.counters.len();
    let mut i: usize = 0;
    while i < n
        invariant
            0 <= i <= n,
            n == pairs.len(),
            pairs == a.counters.pairs(),
            forall|j: int| 0 <= j < n ==> a@.contains_pair((#[trigger] pairs[j]).0, pairs[j].1),
            forall|j: int| 0 <= j < i ==> (#[trigger] pairs[j]).1 <= count(b@, pairs[j].0),
        decreases n - i,
    {
        let (peer, ours) = a.counters.entry_at(i);
        assert(a@.contains_pair(pairs[i as int].0, pairs[i as int].1));
        if ours > b.count(&peer) {
            assert(count(a@, peer) > count(b@, peer));
            return false;
        }
        i = i + 1;
    }
    proof {
        assert forall|p: PeerId| #[trigger] count(a@, p) <= count(b@, p) by {
            if a@.contains_key(p) {
                let j = choose|j: int| 0 <= j < n && (#[trigger] pairs[j]).0 == p;
                assert(pairs[j].1 <= count(b@, pairs[j].0));
                assert(a@.contains_pair(pairs[j].0, pairs[j].1));
            }
        }
    }
    true
}

/// The order seen from the other side.
pub open spec fn flipped(c: Causality) -> Causality {
    match c {
        Causality::Before => Causality::After,
        Causality::After => Causality::Before,
        other => other,
    }
}

/// The two sides of a comparison agree: what is before on one is after on the other.
pub proof fn lemma_relation_flips(a: Map<PeerId, u64>, b: Map<PeerId, u64>)
    ensures
        relation(b, a) == flipped(relation(a, b)),
{
}

/// Happening no later is an order: reflexive, transitive, and two clocks that are no later than each
/// other have the same counts.
pub proof fn lemma_no_later_is_an_order(a: Map<PeerId, u64>, b: Map<PeerId, u64>, c: Map<PeerId, u64>)
    ensures
        no_later(a, a),
        no_later(a, b) && no_later(b, c) ==> no_later(a, c),
        relation(a, b) == Causality::Equal <==> (forall|p: PeerId| #[trigger] count(a, p) == count(b, p)),
        relation(a, b) == Causality::Before && relation(b, c) == Causality::Before ==> relation(a, c)
            == Causality::Before,
{
    if no_later(a, b) && no_later(b, c) {
        assert forall|p: PeerId| #[trigger] count(a, p) <= count(c, p) by {
            assert(count(b, p) <= count(c, p));
        }
        if no_later(c, a) {
            assert forall|p: PeerId| #[trigger] count(b, p) <= count(a, p) by {
                assert(count(c, p) <= count(a, p));
            }
        }
    }
    if relation(a, b) == Causality::Equal {
        assert forall|p: PeerId| #[trigger] count(a, p) == count(b, p) by {
            assert(count(b, p) <= count(a, p));
        }
    }
    if forall|p: PeerId| #[trigger] count(a, p) == count(b, p) {
        assert forall|p: PeerId| #[trigger] count(b, p) <= count(a, p) by {
            assert(count(a, p) == count(b, p));
        }
    }
}

/// A tick makes a clock later than it was, and later than everything that was no later than it.
pub proof fn lemma_tick_is_later(clock: Map<PeerId, u64>, peer: PeerId, earlier: Map<PeerId, u64>)
    requires
        count(clock, peer) < u64::MAX,
        no_later(earlier, clock),
    ensures
        relation(ticked(clock, peer), earlier) == Causality::After,
{
    let next = ticked(clock, peer);
    assert forall|p: PeerId| #[trigger] count(earlier, p) <= count(next, p) by {
        assert(count(earlier, p) <= count(clock, p));
    }
    assert(count(earlier, peer) <= count(clock, peer));
    assert(count(next, peer) > count(earlier, peer));
}

/// The merge of two clocks is the earliest clock that is no earlier than either.
pub proof fn lemma_merge_is_least(a: Map<PeerId, u64>, b: Map<PeerId, u64>, c: Map<PeerId, u64>)
    ensures
        no_later(a, merged(a, b)),
        no_later(b, merged(a, b)),
        no_later(a, c) && no_later(b, c) ==> no_later(merged(a, b), c),
{
    if no_later(a, c) && no_later(b, c) {
        assert forall|p: PeerId| #[trigger] count(merged(a, b), p) <= count(c, p) by {
            assert(count(a, p) <= count(c, p));
            assert(count(b, p) <= count(c, p));
        }
    }
}

/// The order in which clocks are merged, and how often, makes no difference.
pub proof fn lemma_merge_order(a: Map<PeerId, u64>, b: Map<PeerId, u64>, c: Map<PeerId, u64>)
    ensures
        merged(a, b) == merged(b, a),
        merged(merged(a, b), c) == merged(a, merged(b, c)),
        merged(a, a) == a,
        merged(merged(a, b), b) == merged(a, b),
{
    assert(merged(a, b) =~= merged(b, a));
    assert(merged(merged(a, b), c) =~= merged(a, merged(b, c)));
    assert(merged(a, a) =~= a);
    assert(merged(merged(a, b), b) =~= merged(a, b));
}

/// What stands in a tombstone.
#[verifier::ext_equal]
pub ghost struct TombstoneModel {
    pub path: Seq<char>,
    pub deleted_by: PeerId,
    pub clock: Map<PeerId, u64>,
    pub timestamp: u64,
}

/// Tombstone marking a deleted file.
#[derive(Debug, PartialEq, Eq)]
pub struct Tombstone {
    pub path: String,
    pub deleted_by: PeerId,
    pub clock: VectorClock,
    pub timestamp: u64,
}

impl View for Tombstone {
    type V = TombstoneModel;

    open spec fn view(&self) -> TombstoneModel {
        TombstoneModel {
            path: self.path@,
            deleted_by: self.deleted_by,
            clock: self.clock@,
            timestamp: self.timestamp,
        }
    }
}

impl Clone for Tombstone {
    fn clone(&self) -> (r: Self)
        ensures
            r@ == self@,
    {
        Tombstone {
            path: self.path.clone(),
            deleted_by: self.deleted_by,
            clock: self.clock.clone(),
            timestamp: self.timestamp,
        }
    }
}

/// Whether what was made at `timestamp` is more than `ttl_secs` old at `now`. What carries a time to
/// come is not old at all.
pub open spec fn outlived(now: u64, timestamp: u64, ttl_secs: u64) -> bool {
    now - timestamp > ttl_secs
}

impl Tombstone {
    /// A tombstone of this moment.
    pub fn new(path: String, deleted_by: PeerId, clock: VectorClock) -> (r: Self)
        ensures
            r@ == (TombstoneModel { path: path@, deleted_by, clock: clock@, timestamp: r.timestamp }),
    {
        let timestamp: u64 = now_secs();
        Tombstone { path, deleted_by, clock, timestamp }
    }

    /// Check if this tombstone has expired given a TTL in seconds.
    pub fn is_expired(&self, ttl_secs: u64) -> (r: bool)
        ensures
            exists|now: u64| r == #[trigger] outlived(now, self.timestamp, ttl_secs),
    {
        let now: u64 = now_secs();
        self.is_expired_at(now, ttl_secs)
    }

    /// Check if this tombstone has expired at the time `now`.
    pub fn is_expired_at(&self, now: u64, ttl_secs: u64) -> (r: bool)
        ensures
            r == outlived(now, self.timestamp, ttl_secs),
    {
        now.saturating_sub(self.timestamp) > ttl_secs
    }
}

/// A tombstone that has expired stays expired, and a longer TTL never expires it earlier.
pub proof fn lemma_expiry_is_final(now: u64, later: u64, timestamp: u64, ttl: u64, shorter: u64)
    requires
        now <= later,
        shorter <= ttl,
        outlived(now, timestamp, ttl),
    ensures
        outlived(later, timestamp, ttl),
        outlived(now, timestamp, shorter),
{
}

/// Conflict resolution outcome.
#[derive(Debug, Clone, Copy, PartialEq, Eq)]
pub enum Resolution {
    /// No conflict: apply the incoming change.
    Accept,
    /// No conflict: keep local, reject incoming.
    Reject,
    /// Conflict: keep both, rename the loser.
    Conflict {
        /// The peer ID to use in the conflict filename suffix.
        loser_peer: PeerId,
    },
}

/// Whether the remote side of a conflict wins: the later writer, and of two at the same second the
/// greater peer.
pub open spec fn remote_wins(local_timestamp: u64, remote_timestamp: u64, remote_peer: PeerId, local_peer: PeerId) -> bool {
    remote_timestamp > local_timestamp || (remote_timestamp == local_timestamp && peers::peer_before(
        local_peer,
        remote_peer,
    ))
}

/// What becomes of a change made by a remote peer.
pub open spec fn resolution(
    local_clock: Map<PeerId, u64>,
    remote_clock: Map<PeerId, u64>,
    local_timestamp: u64,
    remote_timestamp: u64,
    remote_peer: PeerId,
    local_peer: PeerId,
) -> Resolution {
    match relation(local_clock, remote_clock) {
        Causality::Before => Resolution::Accept,
        Causality::After => Resolution::Reject,
        Causality::Equal => Resolution::Reject,
        Causality::Concurrent => Resolution::Conflict {
            loser_peer: if remote_wins(local_timestamp, remote_timestamp, remote_peer, local_peer) {
                local_peer
            } else {
                remote_peer
            },
        },
    }
}

/// Decide how to resolve a file modification from a remote peer.
pub fn resolve(
    local_clock: &VectorClock,
    remote_clock: &VectorClock,
    local_timestamp: u64,
    remote_timestamp: u64,
    remote_peer: PeerId,
    local_peer: PeerId,
) -> (r: Resolution)
    ensures
        r == resolution(
            local_clock@,
            remote_clock@,
            local_timestamp,
            remote_timestamp,
            remote_peer,
            local_peer,
        ),
{
    match local_clock.compare(remote_clock) {
        Causality::Before => Resolution::Accept,
        Causality::After => Resolution::Reject,
        Causality::Equal => Resolution::Reject,
        Causality::Concurrent => {
            // Last-writer-wins by timestamp, tie-break by peer ID.
            if remote_timestamp > local_timestamp || (remote_timestamp == local_timestamp && peer_lt(
                &local_peer,
                &remote_peer,
            )) {
                Resolution::Conflict { loser_peer: local_peer }
            } else {
                Resolution::Conflict { loser_peer: remote_peer }
            }
        },
    }
}

/// The two sides of a change agree. Where one accepts, the other rejects, so the later version stands
/// on both; and where both see a conflict they name the same loser.
pub proof fn lemma_both_sides_agree(
    a_clock: Map<PeerId, u64>,
    b_clock: Map<PeerId, u64>,
    a_time: u64,
    b_time: u64,
    a: PeerId,
    b: PeerId,
)
    ensures
        resolution(a_clock, b_clock, a_time, b_time, b, a) == Resolution::Accept ==> resolution(
            b_clock,
            a_clock,
            b_time,
            a_time,
            a,
            b,
        ) == Resolution::Reject,
        resolution(a_clock, b_clock, a_time, b_time, b, a) is Conflict <==> resolution(
            b_clock,
            a_clock,
            b_time,
            a_time,
            a,
            b,
        ) is Conflict,
        resolution(a_clock, b_clock, a_time, b_time, b, a) is Conflict ==> resolution(
            a_clock,
            b_clock,
            a_time,
            b_time,
            b,
            a,
        ) == resolution(b_clock, a_clock, b_time, a_time, a, b),
{
    lemma_relation_flips(a_clock, b_clock);
    peers::lemma_peer_key(a, b);
    text::lemma_lex_total(peers::peer_key(a@), peers::peer_key(b@));
    text::lemma_lex_irreflexive(peers::peer_key(a@));
}

/// A change that a peer made on top of everything it had seen is accepted by a peer that has seen no
/// more than that.
pub proof fn lemma_successor_is_accepted(
    seen: Map<PeerId, u64>,
    author: PeerId,
    local: Map<PeerId, u64>,
    local_time: u64,
    time: u64,
    local_peer: PeerId,
)
    requires
        count(seen, author) < u64::MAX,
        no_later(local, seen),
    ensures
        resolution(local, ticked(seen, author), local_time, time, author, local_peer) == Resolution::Accept,
{
    lemma_tick_is_later(seen, author, local);
    lemma_relation_flips(ticked(seen, author), local);
}

/// The place of the last dot in the last component of a path, if there is one.
pub open spec fn last_dot(s: Seq<char>) -> Option<int>
    decreases s.len(),
{
    if s.len() == 0 {
        None
    } else if s.last() == '.' {
        Some(s.len() - 1)
    } else if s.last() == '/' {
        None
    } else {
        last_dot(s.drop_last())
    }
}

/// The name of the copy that the loser of a conflict leaves: the mark and the beginning of the loser's
/// identifier stand before the extension of the last component, or at the end where there is none.
pub open spec fn conflict_name(original: Seq<char>, peer: PeerId) -> Seq<char> {
    let mark = ".conflict."@ + util::hex_text(peer@).take(8);
    match last_dot(original) {
        Some(i) => original.take(i) + mark + original.skip(i),
        None => original + mark,
    }
}

/// The last dot is a dot, and neither a dot nor a slash follows it. Where there is none, every dot has a
/// slash behind it.
pub proof fn lemma_last_dot(s: Seq<char>)
    ensures
        match last_dot(s) {
            Some(i) => 0 <= i < s.len() && s[i] == '.' && forall|j: int| i < j < s.len() ==> s[j] != '.' && s[j] != '/',
            None => forall|j: int|
                0 <= j < s.len() && s[j] == '.' ==> exists|k: int| j < k < s.len() && #[trigger] s[k] == '/',
        },
    decreases s.len(),
{
    if s.len() > 0 && s.last() != '.' {
        let t = s.drop_last();
        if s.last() == '/' {
            assert(s[s.len() - 1] == '/');
        } else {
            lemma_last_dot(t);
            match last_dot(t) {
                Some(i) => {
                    assert forall|j: int| i < j < s.len() implies s[j] != '.' && s[j] != '/' by {
                        if j < t.len() {
                            assert(t[j] == s[j]);
                        }
                    }
                },
                None => {
                    assert forall|j: int| 0 <= j < s.len() && s[j] == '.' implies exists|k: int|
                        j < k < s.len() && #[trigger] s[k] == '/' by {
                        assert(t[j] == '.');
                        let k = choose|k: int| j < k < t.len() && #[trigger] t[k] == '/';
                        assert(s[k] == '/');
                    }
                },
            }
        }
    }
}

/// A place that is a dot with neither a dot nor a slash behind it is the last dot.
proof fn lemma_is_last_dot(s: Seq<char>, i: int)
    requires
        0 <= i < s.len(),
        s[i] == '.',
        forall|j: int| i < j < s.len() ==> s[j] != '.' && s[j] != '/',
    ensures
        last_dot(s) == Some(i),
    decreases s.len(),
{
    if i < s.len() - 1 {
        lemma_is_last_dot(s.drop_last(), i);
    }
}

/// Finds the last dot in the last component of a path.
fn find_last_dot(cs: &Vec<char>) -> (r: Option<usize>)
    ensures
        match r {
            Some(i) => last_dot(cs@) == Some(i as int) && i < cs@.len(),
            None => last_dot(cs@) is None,
        },
{
    let mut i: usize = cs.len();
    assert(cs@.take(i as int) =~= cs@);
    while i > 0
        invariant
            0 <= i <= cs@.len(),
            last_dot(cs@) == last_dot(cs@.take(i as int)),
        decreases i,
    {
        assert(cs@.take(i as int).drop_last() =~= cs@.take(i - 1));
        assert(cs@.take(i as int).last() == cs@[i - 1]);
        if cs[i - 1] == '.' {
            return Some(i - 1);
        }
        if cs[i - 1] == '/' {
            return None;
        }
        i = i - 1;
    }
    None
}

/// Format a conflict backup filename.
pub fn conflict_filename(original: &str, peer: &PeerId) -> (r: String)
    ensures
        r@ == conflict_name(original@, *peer),
{
    let hex = peer_id_hex(peer);
    proof {
        util::lemma_hex_text_len(peer@);
    }
    let short = hex.as_str().substring_char(0, 8);
    assert(short@ =~= util::hex_text(peer@).take(8));
    let cs = text::chars_of(original);
    match find_last_dot(&cs) {
        Some(i) => {
            let mut r = text::text_of(&cs, 0, i);
            r.append(".conflict.");
            r.append(short);
            let ext = text::text_of(&cs, i, cs.len());
            r.append(&ext);
            assert(r@ =~= conflict_name(original@, *peer));
            r
        },
        None => {
            let mut r = original.to_owned();
            r.append(".conflict.");
            r.append(short);
            assert(r@ =~= conflict_name(original@, *peer));
            r
        },
    }
}

/// A conflict backup always carries the mark by which it is known.
pub proof fn lemma_conflict_name_is_marked(original: Seq<char>, peer: PeerId)
    ensures
        text::occurs(".conflict."@, conflict_name(original, peer)),
{
    let mark = ".conflict."@;
    let tail = util::hex_text(peer@).take(8);
    let name = conflict_name(original, peer);
    util::lemma_hex_text_len(peer@);
    lemma_last_dot(original);
    match last_dot(original) {
        Some(i) => {
            assert(name.subrange(i, i + mark.len()) =~= mark);
        },
        None => {
            let n = original.len() as int;
            assert(name.subrange(n, n + mark.len()) =~= mark);
        },
    }
}

/// A conflict backup keeps the extension, and never has the name of the file that it backs up.
pub proof fn lemma_conflict_name_keeps_extension(original: Seq<char>, peer: PeerId)
    ensures
        conflict_name(original, peer).len() == original.len() + 18,
        conflict_name(original, peer) != original,
        last_dot(original) matches Some(i) ==> {
            &&& last_dot(conflict_name(original, peer)) == Some(i + 18)
            &&& conflict_name(original, peer).skip(i + 18) == original.skip(i)
        },
{
    let name = conflict_name(original, peer);
    util::lemma_hex_text_len(peer@);
    reveal_strlit(".conflict.");
    lemma_last_dot(original);
    match last_dot(original) {
        Some(i) => {
            assert(name.skip(i + 18) =~= original.skip(i));
            assert forall|j: int| i + 18 < j < name.len() implies name[j] != '.' && name[j] != '/' by {
                assert(name[j] == original[j - 18]);
            }
            lemma_is_last_dot(name, i + 18);
        },
        None => {},
    }
}

} // verus!
