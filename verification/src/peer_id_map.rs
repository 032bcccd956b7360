//! Counters on the wire: a map whose keys are peer identifiers written in hexadecimal.

use vstd::prelude::*;

use crate::peers;
use crate::peers::{PeerCounters, PeerId};
use crate::text;
use crate::util;
use crate::util::peer_id_hex;

verus! {

broadcast use {vstd::string::group_string_axioms, vstd::seq::group_seq_axioms, vstd::map::group_map_axioms};

/// Why a key is no peer identifier.
#[derive(Debug, Clone, Copy, PartialEq, Eq)]
pub enum KeyError {
    /// The key has an odd length, or a character outside ASCII.
    InvalidKey,
    /// A character of the key is no hexadecimal digit.
    InvalidDigit,
    /// The key does not have eight bytes.
    WrongLength,
}

impl KeyError {
    /// The error in words.
    pub fn message(&self) -> (s: &'static str)
        ensures
            s@ == match *self {
                KeyError::InvalidKey => "invalid hex peer ID key"@,
                KeyError::InvalidDigit => "invalid digit found in string"@,
                KeyError::WrongLength => "peer ID must be 8 bytes"@,
            },
    {
        match self {
            KeyError::InvalidKey => "invalid hex peer ID key",
            KeyError::InvalidDigit => "invalid digit found in string",
            KeyError::WrongLength => "peer ID must be 8 bytes",
        }
    }
}

/// The value of a hexadecimal digit of either case.
pub open spec fn digit_value(c: char) -> Option<u8> {
    if '0' <= c <= '9' {
        Some((c as int - '0' as int) as u8)
    } else if 'a' <= c <= 'f' {
        Some((c as int - 'a' as int + 10) as u8)
    } else if 'A' <= c <= 'F' {
        Some((c as int - 'A' as int + 10) as u8)
    } else {
        None
    }
}

/// The value of two digits that stand for a byte.
pub open spec fn byte_value(high: char, low: char) -> Option<u8> {
    match (digit_value(high), digit_value(low)) {
        (Some(h), Some(l)) => Some((h * 16 + l) as u8),
        _ => None,
    }
}

/// The byte that the characters at `2 * i` and `2 * i + 1` stand for.
pub open spec fn byte_at(key: Seq<char>, i: int) -> Option<u8> {
    byte_value(key[2 * i], key[2 * i + 1])
}

/// The peer whose identifier has the given bytes.
pub open spec fn peer_with(bytes: Seq<u8>) -> PeerId {
    choose|p: PeerId| p@ == bytes
}

/// The peer that a key names.
pub open spec fn key_peer(key: Seq<char>) -> Result<PeerId, KeyError> {
    if key.len() % 2 != 0 || exists|i: int| 0 <= i < key.len() && #[trigger] key[i] as int >= 128 {
        Err(KeyError::InvalidKey)
    } else if exists|i: int| 0 <= i < key.len() / 2 && #[trigger] byte_at(key, i) is None {
        Err(KeyError::InvalidDigit)
    } else if key.len() != 16 {
        Err(KeyError::WrongLength)
    } else {
        Ok(peer_with(Seq::new(8, |i: int| byte_at(key, i)->0)))
    }
}

/// What a list of keys and counters holds: a later counter replaces an earlier one of the same peer,
/// and the first key that is none decides on the error.
pub open spec fn counters_of(entries: Seq<(Seq<char>, u64)>) -> Result<Map<PeerId, u64>, KeyError>
    decreases entries.len(),
{
    if entries.len() == 0 {
        Ok(Map::empty())
    } else {
        match counters_of(entries.drop_last()) {
            Err(e) => Err(e),
            Ok(m) => match key_peer(entries.last().0) {
                Err(e) => Err(e),
                Ok(p) => Ok(m.insert(p, entries.last().1)),
            },
        }
    }
}

/// Entries with their keys as texts.
pub open spec fn entry_views(v: Seq<(String, u64)>) -> Seq<(Seq<char>, u64)> {
    v.map_values(|e: (String, u64)| (e.0@, e.1))
}

/// Counters with their peers as keys.
pub open spec fn keys_of(pairs: Seq<(PeerId, u64)>) -> Seq<(Seq<char>, u64)> {
    pairs.map_values(|e: (PeerId, u64)| (util::hex_text(e.0@), e.1))
}

fn digit_of(c: char) -> (r: Option<u8>)
    ensures
        r == digit_value(c),
{
    let code: u32 = c as u32;
    if c >= '0' && c <= '9' {
        Some((code - 48) as u8)
    } else if c >= 'a' && c <= 'f' {
        Some((code - 87) as u8)
    } else if c >= 'A' && c <= 'F' {
        Some((code - 55) as u8)
    } else {
        None
    }
}

fn byte_of(high: char, low: char) -> (r: Option<u8>)
    ensures
        r == byte_value(high, low),
{
    match (digit_of(high), digit_of(low)) {
        (Some(h), Some(l)) => Some(h * 16 + l),
        _ => None,
    }
}

/// Reads the peer that a key names.
pub fn parse_key(key: &str) -> (r: Result<PeerId, KeyError>)
    ensures
        r == key_peer(key@),
{
    let cs = text::chars_of(key);
    let n: usize = cs.len();
    let mut i: usize = 0;
    while i < n
        invariant
            0 <= i <= n,
            n == cs@.len(),
            cs@ == key@,
            forall|j: int| 0 <= j < i ==> (#[trigger] cs@[j] as int) < 128,
        decreases n - i,
    {
        let c: char = cs[i];
        if c > '\u{7f}' {
            assert(key@[i as int] as int >= 128);
            return Err(KeyError::InvalidKey);
        }
        i = i + 1;
    }
    if n % 2 != 0 {
        return Err(KeyError::InvalidKey);
    }
    let mut bytes: Vec<u8> = Vec::new();
    let mut k: usize = 0;
    while k < n / 2
        invariant
            0 <= k <= n / 2,
            n == cs@.len(),
            cs@ == key@,
            n % 2 == 0,
            forall|j: int| 0 <= j < n ==> (#[trigger] cs@[j] as int) < 128,
            bytes@.len() == k,
            forall|j: int| 0 <= j < k ==> #[trigger] byte_at(key@, j) == Some(bytes@[j]),
        decreases n / 2 - k,
    {
        match byte_of(cs[2 * k], cs[2 * k + 1]) {
            Some(b) => {
                assert(byte_at(key@, k as int) == Some(b));
                bytes.push(b);
            },
            None => {
                assert(byte_at(key@, k as int) is None);
                return Err(KeyError::InvalidDigit);
            },
        }
        k = k + 1;
    }
    if bytes.len() != 8 {
        return Err(KeyError::WrongLength);
    }
    let peer: PeerId = [bytes[0], bytes[1], bytes[2], bytes[3], bytes[4], bytes[5], bytes[6], bytes[7]];
    proof {
        let given = Seq::new(8, |i: int| byte_at(key@, i)->0);
        assert(bytes@ =~= given) by {
            assert forall|j: int| 0 <= j < 8 implies bytes@[j] == given[j] by {
                assert(byte_at(key@, j) == Some(bytes@[j]));
            }
        }
        assert(peer@ =~= given);
        peers::lemma_peer_key(peer, peer_with(given));
    }
    Ok(peer)
}

/// The hexadecimal form of a peer names that peer.
pub proof fn lemma_hex_names_peer(p: PeerId)
    ensures
        key_peer(util::hex_text(p@)) == Ok::<PeerId, KeyError>(p),
{
    let key = util::hex_text(p@);
    util::lemma_hex_text_len(p@);
    assert forall|i: int| 0 <= i < 8 implies #[trigger] byte_at(key, i) == Some(p@[i]) by {
        let b = p@[i];
        assert(key[2 * i] == text::digit_char(b as int / 16));
        assert(key[2 * i + 1] == text::digit_char(b as int % 16));
    }
    assert forall|i: int| 0 <= i < key.len() implies (#[trigger] key[i] as int) < 128 by {
        let b = p@[i / 2];
        assert(i == 2 * (i / 2) || i == 2 * (i / 2) + 1);
        assert((text::digit_char(b as int / 16) as int) < 128);
        assert((text::digit_char(b as int % 16) as int) < 128);
    }
    let given = Seq::new(8, |i: int| byte_at(key, i)->0);
    assert(given =~= p@);
    peers::lemma_peer_key(p, peer_with(given));
}

/// Counters of different peers, written as keys and read again, are the counters that were written.
proof fn lemma_pairs_read_back(pairs: Seq<(PeerId, u64)>, m: Map<PeerId, u64>)
    requires
        forall|i: int, j: int| 0 <= i < j < pairs.len() ==> (#[trigger] pairs[i]).0 != (#[trigger] pairs[j]).0,
        forall|i: int| 0 <= i < pairs.len() ==> m.contains_pair((#[trigger] pairs[i]).0, pairs[i].1),
        forall|p: PeerId| #[trigger] m.contains_key(p) ==> exists|i: int|
            0 <= i < pairs.len() && (#[trigger] pairs[i]).0 == p,
    ensures
        counters_of(keys_of(pairs)) == Ok::<Map<PeerId, u64>, KeyError>(m),
    decreases pairs.len(),
{
    if pairs.len() == 0 {
        assert(m =~= Map::<PeerId, u64>::empty());
    } else {
        let t = pairs.drop_last();
        let (p, c) = pairs.last();
        let rest = m.remove(p);
        assert(pairs[pairs.len() - 1].0 == p);
        assert forall|i: int| 0 <= i < t.len() implies rest.contains_pair((#[trigger] t[i]).0, t[i].1) by {
            assert(pairs[i] == t[i]);
            assert(pairs[i].0 != pairs[pairs.len() - 1].0);
        }
        assert forall|q: PeerId| #[trigger] rest.contains_key(q) implies exists|i: int|
            0 <= i < t.len() && (#[trigger] t[i]).0 == q by {
            assert(m.contains_key(q));
            let i = choose|i: int| 0 <= i < pairs.len() && (#[trigger] pairs[i]).0 == q;
            assert(t[i].0 == q);
        }
        assert forall|i: int, j: int| 0 <= i < j < t.len() implies (#[trigger] t[i]).0 != (#[trigger] t[j]).0 by {
            assert(pairs[i] == t[i] && pairs[j] == t[j]);
        }
        lemma_pairs_read_back(t, rest);
        assert(keys_of(pairs).drop_last() =~= keys_of(t));
        lemma_hex_names_peer(p);
        assert(m.contains_pair(p, c));
        assert(rest.insert(p, c) =~= m);
    }
}

/// The counters as keys and values, in the order of the peers. They read back as they were.
pub fn serialize(map: &PeerCounters) -> (v: Vec<(String, u64)>)
    ensures
        entry_views(v@) == keys_of(map.pairs()),
        counters_of(entry_views(v@)) == Ok::<Map<PeerId, u64>, KeyError>(map@),
{
    let ghost pairs = map.pairs();
    let n: usize = map.len();
    proof {
        assert forall|i: int, j: int| 0 <= i < j < n implies (#[trigger] pairs[i]).0 != (#[trigger] pairs[j]).0 by {
            assert(peers::peer_before(pairs[i].0, pairs[j].0));
            text::lemma_lex_irreflexive(peers::peer_key(pairs[i].0@));
        }
        lemma_pairs_read_back(pairs, map@);
    }
    let mut v: Vec<(String, u64)> = Vec::new();
    let mut i: usize = 0;
    while i < n
        invariant
            0 <= i <= n,
            n == pairs.len(),
            pairs == map.pairs(),
            v@.len() == i,
            forall|j: int| 0 <= j < i ==> (#[trigger] v@[j]).0@ == util::hex_text(pairs[j].0@) && v@[j].1 == pairs[j].1,
        decreases n - i,
    {
        let (peer, c) = map.entry_at(i);
        v.push((peer_id_hex(&peer), c));
        i = i + 1;
    }
    assert(entry_views(v@) =~= keys_of(pairs));
    v
}

/// Reads counters from keys and values.
pub fn deserialize(entries: &Vec<(String, u64)>) -> (r: Result<PeerCounters, KeyError>)
    ensures
        match r {
            Ok(m) => counters_of(entry_views(entries@)) == Ok::<Map<PeerId, u64>, KeyError>(m@),
            Err(e) => counters_of(entry_views(entries@)) == Err::<Map<PeerId, u64>, KeyError>(e),
        },
{
    let ghost all = entry_views(entries@);
    let mut m = PeerCounters::new();
    let mut i: usize = 0;
    assert(all.take(0) =~= Seq::<(Seq<char>, u64)>::empty());
    while i < entries.len()
        invariant
            0 <= i <= entries@.len(),
            all == entry_views(entries@),
            counters_of(all.take(i as int)) == Ok::<Map<PeerId, u64>, KeyError>(m@),
        decreases entries@.len() - i,
    {
        let ghost upto = all.take(i + 1);
        assert(upto.drop_last() =~= all.take(i as int));
        assert(upto.last() == (entries@[i as int].0@, entries@[i as int].1));
        match parse_key(&entries[i].0) {
            Ok(p) => {
                m.insert(p, entries[i].1);
            },
            Err(e) => {
                proof {
                    lemma_first_error(all, i + 1);
                }
                return Err(e);
            },
        }
        i = i + 1;
    }
    assert(all.take(all.len() as int) =~= all);
    Ok(m)
}

/// An error among the first entries is the error of all of them.
proof fn lemma_first_error(entries: Seq<(Seq<char>, u64)>, n: int)
    requires
        0 <= n <= entries.len(),
        counters_of(entries.take(n)) is Err,
    ensures
        counters_of(entries) == counters_of(entries.take(n)),
    decreases entries.len(),
{
    if n == entries.len() {
        assert(entries.take(n) =~= entries);
    } else {
        assert(entries.drop_last().take(n) =~= entries.take(n));
        lemma_first_error(entries.drop_last(), n);
    }
}

} // verus!
