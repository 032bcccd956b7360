//! Short peer identifiers, and a map of counters keyed by them.

use vstd::prelude::*;

use crate::names;
use crate::text;

verus! {

broadcast use vstd::seq::group_seq_axioms;

/// A short peer identifier (first 8 bytes of the PeerId hash).
pub type PeerId = [u8; 8];

/// A peer identifier as a key: one character per byte, so that keys are ordered as the bytes are.
pub open spec fn peer_key(p: Seq<u8>) -> Seq<char> {
    p.map_values(|b: u8| b as char)
}

/// Different peers have different keys.
pub proof fn lemma_peer_key(p: PeerId, q: PeerId)
    ensures
        peer_key(p@) == peer_key(q@) <==> p == q,
{
    if peer_key(p@) == peer_key(q@) {
        assert forall|i: int| 0 <= i < 8 implies p@[i] == q@[i] by {
            assert(peer_key(p@)[i] == p@[i] as char);
            assert(peer_key(q@)[i] == q@[i] as char);
        }
        assert(p@ =~= q@);
        assert(p =~= q);
    }
}

/// Whether the peer `a` comes before the peer `b`, byte by byte.
pub open spec fn peer_before(a: PeerId, b: PeerId) -> bool {
    text::lex_lt(peer_key(a@), peer_key(b@))
}

/// Whether two peers are the same.
pub fn same_peer(a: &PeerId, b: &PeerId) -> (r: bool)
    ensures
        r == (*a == *b),
{
    let mut i: usize = 0;
    while i < 8
        invariant
            0 <= i <= 8,
            forall|j: int| 0 <= j < i ==> a@[j] == b@[j],
        decreases 8 - i,
    {
        if a[i] != b[i] {
            assert(a@[i as int] != b@[i as int]);
            return false;
        }
        i = i + 1;
    }
    assert(a@ =~= b@);
    assert(*a =~= *b);
    true
}

/// Whether the peer `a` comes before the peer `b`.
pub fn peer_lt(a: &PeerId, b: &PeerId) -> (r: bool)
    ensures
        r == peer_before(*a, *b),
{
    let ghost x = peer_key(a@);
    let ghost y = peer_key(b@);
    let mut i: usize = 0;
    assert(x.skip(0) =~= x);
    assert(y.skip(0) =~= y);
    while i < 8
        invariant
            0 <= i <= 8,
            x == peer_key(a@),
            y == peer_key(b@),
            text::lex_lt(x, y) == text::lex_lt(x.skip(i as int), y.skip(i as int)),
        decreases 8 - i,
    {
        assert(x.skip(i as int)[0] == a@[i as int] as char);
        assert(y.skip(i as int)[0] == b@[i as int] as char);
        if a[i] != b[i] {
            return a[i] < b[i];
        }
        assert(x.skip(i as int).drop_first() =~= x.skip(i + 1));
        assert(y.skip(i as int).drop_first() =~= y.skip(i + 1));
        i = i + 1;
    }
    false
}

/// Counters keyed by peers, held in the order of the peers.
#[derive(Debug, PartialEq, Eq)]
pub struct PeerCounters {
    entries: Vec<(PeerId, u64)>,
}

/// Entries of peers as entries of their keys.
spec fn keyed(s: Seq<(PeerId, u64)>) -> Seq<(Seq<char>, u64)> {
    s.map_values(|e: (PeerId, u64)| (peer_key(e.0@), e.1))
}

/// What entries in order hold, as a map.
spec fn counts_in(s: Seq<(PeerId, u64)>) -> Map<PeerId, u64> {
    Map::new(
        |p: PeerId| names::has_name(keyed(s), peer_key(p@)),
        |p: PeerId| names::lookup(keyed(s), peer_key(p@))->0,
    )
}

/// A map of entries in order holds each of them, and nothing else.
proof fn lemma_counts_in(s: Seq<(PeerId, u64)>)
    requires
        names::in_order(keyed(s)),
    ensures
        forall|i: int| 0 <= i < s.len() ==> counts_in(s).contains_pair((#[trigger] s[i]).0, s[i].1),
        forall|p: PeerId| #[trigger] counts_in(s).contains_key(p) ==> exists|i: int|
            0 <= i < s.len() && (#[trigger] s[i]).0 == p,
        forall|i: int, j: int| 0 <= i < j < s.len() ==> (#[trigger] s[i]).0 != (#[trigger] s[j]).0,
{
    assert forall|i: int| 0 <= i < s.len() implies counts_in(s).contains_pair((#[trigger] s[i]).0, s[i].1) by {
        assert(keyed(s)[i] == (peer_key(s[i].0@), s[i].1));
        names::lemma_lookup_at(keyed(s), i);
    }
    assert forall|p: PeerId| #[trigger] counts_in(s).contains_key(p) implies exists|i: int|
        0 <= i < s.len() && (#[trigger] s[i]).0 == p by {
        let i = choose|i: int| 0 <= i < keyed(s).len() && (#[trigger] keyed(s)[i]).0 == peer_key(p@);
        lemma_peer_key(s[i].0, p);
        assert(s[i].0 == p);
    }
    assert forall|i: int, j: int| 0 <= i < j < s.len() implies (#[trigger] s[i]).0 != (#[trigger] s[j]).0 by {
        assert(text::lex_lt(keyed(s)[i].0, keyed(s)[j].0));
        text::lemma_lex_irreflexive(keyed(s)[i].0);
    }
}

impl View for PeerCounters {
    type V = Map<PeerId, u64>;

    closed spec fn view(&self) -> Map<PeerId, u64> {
        counts_in(self.entries@)
    }
}

impl PeerCounters {
    /// The counters are in the order of the peers, and no peer has two.
    #[verifier::type_invariant]
    spec fn peers_in_order(self) -> bool {
        names::in_order(keyed(self.entries@))
    }

    /// The counters with their peers, in the order of the peers.
    pub closed spec fn pairs(self) -> Seq<(PeerId, u64)> {
        self.entries@
    }

    /// No counters.
    pub fn new() -> (m: Self)
        ensures
            m@ == Map::<PeerId, u64>::empty(),
    {
        let m = PeerCounters { entries: Vec::new() };
        assert(m@ =~= Map::<PeerId, u64>::empty());
        m
    }

    /// How many counters there are.
    pub fn len(&self) -> (n: usize)
        ensures
            n == self.pairs().len(),
            forall|i: int| 0 <= i < n ==> self@.contains_pair((#[trigger] self.pairs()[i]).0, self.pairs()[i].1),
            forall|p: PeerId| #[trigger] self@.contains_key(p) ==> exists|i: int|
                0 <= i < n && (#[trigger] self.pairs()[i]).0 == p,
            forall|i: int, j: int|
                0 <= i < j < n ==> peer_before((#[trigger] self.pairs()[i]).0, (#[trigger] self.pairs()[j]).0),
    {
        proof {
            use_type_invariant(self);
            lemma_counts_in(self.entries@);
            let s = self.entries@;
            assert forall|i: int, j: int| 0 <= i < j < s.len() implies peer_before(
                (#[trigger] s[i]).0,
                (#[trigger] s[j]).0,
            ) by {
                assert(text::lex_lt(keyed(s)[i].0, keyed(s)[j].0));
            }
        }
        self.entries.len()
    }

    /// The counter at place `i` of the order, and its peer.
    pub fn entry_at(&self, i: usize) -> (e: (PeerId, u64))
        requires
            i < self.pairs().len(),
        ensures
            e == self.pairs()[i as int],
    {
        (self.entries[i].0, self.entries[i].1)
    }

    /// The place of a peer in the order, and whether it has a counter.
    fn find(&self, peer: &PeerId) -> (r: (bool, usize))
        ensures
            r.0 == names::has_name(keyed(self.entries@), peer_key(peer@)),
            r.1 == names::rank(keyed(self.entries@), peer_key(peer@)),
            r.1 <= self.entries@.len(),
            r.0 ==> r.1 < self.entries@.len() && keyed(self.entries@)[r.1 as int].0 == peer_key(peer@),
    {
        let ghost k = peer_key(peer@);
        let ghost s = keyed(self.entries@);
        proof {
            use_type_invariant(self);
        }
        let mut i: usize = 0;
        while i < self.entries.len() && peer_lt(&self.entries[i].0, peer)
            invariant
                0 <= i <= self.entries@.len(),
                k == peer_key(peer@),
                s == keyed(self.entries@),
                forall|j: int| 0 <= j < i ==> text::lex_lt(#[trigger] s[j].0, k),
            decreases self.entries@.len() - i,
        {
            assert(s[i as int].0 == peer_key(self.entries@[i as int].0@));
            i = i + 1;
        }
        proof {
            if i < self.entries@.len() {
                assert(s[i as int].0 == peer_key(self.entries@[i as int].0@));
                lemma_peer_key(self.entries@[i as int].0, *peer);
            }
            names::lemma_rank(s, k, i as int);
            names::lemma_has_at_rank(s, k);
        }
        if i < self.entries.len() && same_peer(&self.entries[i].0, peer) {
            (true, i)
        } else {
            (false, i)
        }
    }

    /// The counter of a peer.
    pub fn get(&self, peer: &PeerId) -> (r: Option<u64>)
        ensures
            r == if self@.contains_key(*peer) {
                Some(self@[*peer])
            } else {
                None
            },
    {
        let (found, i) = self.find(peer);
        if found {
            Some(self.entries[i].1)
        } else {
            None
        }
    }

    /// Sets the counter of a peer.
    pub fn insert(&mut self, peer: PeerId, count: u64)
        ensures
            final(self)@ == old(self)@.insert(peer, count),
    {
        let ghost s = self.entries@;
        let ghost k = peer_key(peer@);
        let (found, i) = self.find(&peer);
        proof {
            use_type_invariant(&*self);
            names::lemma_put_in_order(keyed(s), k, count);
            assert(names::in_order(keyed(Seq::<(PeerId, u64)>::empty())));
        }
        let mut entries: Vec<(PeerId, u64)> = Vec::new();
        std::mem::swap(&mut entries, &mut self.entries);
        if found {
            entries.set(i, (peer, count));
        } else {
            entries.insert(i, (peer, count));
        }
        proof {
            assert(keyed(entries@) =~= names::put(keyed(s), k, count));
            assert forall|p: PeerId|
                names::lookup(keyed(entries@), #[trigger] peer_key(p@)) == if p == peer {
                    Some(count)
                } else {
                    names::lookup(keyed(s), peer_key(p@))
                } by {
                names::lemma_lookup_put(keyed(s), k, count, peer_key(p@));
                lemma_peer_key(p, peer);
            }
            assert(counts_in(entries@) =~= counts_in(s).insert(peer, count));
        }
        self.entries = entries;
    }
}

impl Clone for PeerCounters {
    fn clone(&self) -> (r: Self)
        ensures
            r@ == self@,
            r.pairs() == self.pairs(),
    {
        let mut entries: Vec<(PeerId, u64)> = Vec::new();
        let mut i: usize = 0;
        while i < self.entries.len()
            invariant
                0 <= i <= self.entries@.len(),
                entries@ == self.entries@.take(i as int),
            decreases self.entries@.len() - i,
        {
            entries.push((self.entries[i].0, self.entries[i].1));
            i = i + 1;
        }
        proof {
            use_type_invariant(self);
        }
        assert(entries@ =~= self.entries@);
        PeerCounters { entries }
    }
}

} // verus!
