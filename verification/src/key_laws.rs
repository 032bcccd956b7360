//! Peers as keys on the wire.

use vstd::prelude::*;

use crate::peer_id_map;
use crate::peer_id_map::KeyError;
use crate::peers::PeerId;

verus! {

broadcast use {vstd::seq::group_seq_axioms, vstd::map::group_map_axioms};

/// Whether a character is a hexadecimal digit.
pub open spec fn is_hex(c: char) -> bool {
    '0' <= c <= '9' || 'a' <= c <= 'f' || 'A' <= c <= 'F'
}

/// The value of a digit is its place among the digits, in either case.
pub proof fn lemma_the_value_of_a_digit(d: int)
    requires
        0 <= d < 16,
    ensures
        peer_id_map::digit_value("0123456789abcdef"@[d]) == Some(d as u8),
        peer_id_map::digit_value("0123456789ABCDEF"@[d]) == Some(d as u8),
{
    reveal_strlit("0123456789abcdef");
    reveal_strlit("0123456789ABCDEF");
}

/// Nothing but a hexadecimal digit has a value.
pub proof fn lemma_only_digits_have_values(c: char)
    ensures
        peer_id_map::digit_value(c) is Some <==> is_hex(c),
        peer_id_map::digit_value(c) matches Some(v) ==> v < 16,
{
}

/// A key names a peer exactly where it is sixteen hexadecimal digits; each two of them are one byte of the
/// peer, the greater half first.
pub proof fn lemma_a_key_is_sixteen_digits(key: Seq<char>)
    ensures
        peer_id_map::key_peer(key) is Ok <==> key.len() == 16 && forall|i: int|
            0 <= i < key.len() ==> is_hex(#[trigger] key[i]),
        peer_id_map::key_peer(key) matches Ok(p) ==> forall|i: int| #![trigger p@[i]]
            0 <= i < 8 ==> p@[i] == peer_id_map::digit_value(key[2 * i])->0 * 16 + peer_id_map::digit_value(
                key[2 * i + 1],
            )->0,
{
    let ok = key.len() == 16 && forall|i: int| 0 <= i < key.len() ==> is_hex(#[trigger] key[i]);
    if ok {
        assert forall|i: int| 0 <= i < key.len() implies (#[trigger] key[i] as int) < 128 by {
            assert(is_hex(key[i]));
        }
        assert forall|i: int| 0 <= i < key.len() / 2 implies #[trigger] peer_id_map::byte_at(key, i) is Some by {
            assert(is_hex(key[2 * i]));
            assert(is_hex(key[2 * i + 1]));
        }
    }
    if peer_id_map::key_peer(key) is Ok {
        assert forall|i: int| 0 <= i < key.len() implies is_hex(#[trigger] key[i]) by {
            let k = i / 2;
            assert(i == 2 * k || i == 2 * k + 1);
            assert(peer_id_map::byte_at(key, k) is Some);
        }
        let given = Seq::new(8, |i: int| peer_id_map::byte_at(key, i)->0);
        let made: PeerId = [given[0], given[1], given[2], given[3], given[4], given[5], given[6], given[7]];
        assert(made@ =~= given);
        let p = peer_id_map::key_peer(key)->Ok_0;
        assert(p@ == given);
        assert forall|i: int| #![trigger p@[i]] 0 <= i < 8 implies p@[i] == peer_id_map::digit_value(key[2 * i])->0 * 16
            + peer_id_map::digit_value(key[2 * i + 1])->0 by {
            assert(peer_id_map::byte_at(key, i) is Some);
            let h = peer_id_map::digit_value(key[2 * i])->0;
            let l = peer_id_map::digit_value(key[2 * i + 1])->0;
            assert(h < 16 && l < 16);
            assert(given[i] == (h * 16 + l) as u8);
        }
    }
}

/// A key of ASCII characters and even length that is no peer is refused for a character that is no digit
/// first, and else for its length; any other key is refused as a whole.
pub proof fn lemma_why_a_key_is_refused(key: Seq<char>)
    ensures
        ({
            let whole = key.len() % 2 == 0 && forall|i: int| 0 <= i < key.len() ==> (#[trigger] key[i] as int) < 128;
            let digits = forall|i: int| 0 <= i < key.len() ==> is_hex(#[trigger] key[i]);
            &&& !whole <==> peer_id_map::key_peer(key) == Err::<PeerId, KeyError>(KeyError::InvalidKey)
            &&& whole && !digits <==> peer_id_map::key_peer(key) == Err::<PeerId, KeyError>(KeyError::InvalidDigit)
            &&& whole && digits && key.len() != 16 <==> peer_id_map::key_peer(key) == Err::<PeerId, KeyError>(
                KeyError::WrongLength,
            )
        }),
{
    let whole = key.len() % 2 == 0 && forall|i: int| 0 <= i < key.len() ==> (#[trigger] key[i] as int) < 128;
    let digits = forall|i: int| 0 <= i < key.len() ==> is_hex(#[trigger] key[i]);
    if whole && digits {
        assert forall|i: int| 0 <= i < key.len() / 2 implies #[trigger] peer_id_map::byte_at(key, i) is Some by {
            assert(is_hex(key[2 * i]));
            assert(is_hex(key[2 * i + 1]));
        }
    }
    if whole && !digits {
        let i = choose|i: int| 0 <= i < key.len() && !is_hex(#[trigger] key[i]);
        let k = i / 2;
        assert(i == 2 * k || i == 2 * k + 1);
        assert(peer_id_map::byte_at(key, k) is None);
    }
}

/// Counters are read one by one: a later one of the same peer takes the place of an earlier one, and a key
/// that is refused, once it is met, is the error.
pub proof fn lemma_counters_are_read_one_by_one(entries: Seq<(Seq<char>, u64)>, key: Seq<char>, n: u64)
    ensures
        peer_id_map::counters_of(Seq::empty()) == Ok::<Map<PeerId, u64>, KeyError>(Map::empty()),
        ({
            let before = peer_id_map::counters_of(entries);
            let after = peer_id_map::counters_of(entries.push((key, n)));
            &&& before is Err ==> after == before
            &&& before matches Ok(m) ==> match peer_id_map::key_peer(key) {
                Ok(p) => after == Ok::<Map<PeerId, u64>, KeyError>(m.insert(p, n)),
                Err(e) => after == Err::<Map<PeerId, u64>, KeyError>(e),
            }
        }),
{
    assert(entries.push((key, n)).drop_last() =~= entries);
}

/// Why a key is refused, in words.
pub proof fn lemma_refusals_in_words(e: KeyError, s: &'static str)
    requires
        call_ensures(KeyError::message, (&e,), s),
    ensures
        e == KeyError::InvalidKey ==> s@ == "invalid hex peer ID key"@,
        e == KeyError::InvalidDigit ==> s@ == "invalid digit found in string"@,
        e == KeyError::WrongLength ==> s@ == "peer ID must be 8 bytes"@,
{
}

} // verus!
