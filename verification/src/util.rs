//! Clock readings, and short texts for display.

use vstd::prelude::*;

use crate::peers::PeerId;
use crate::text;

verus! {

broadcast use {vstd::string::group_string_axioms, vstd::seq::group_seq_axioms};

/// Current time as seconds since UNIX epoch, or 0 for a clock set before it. Reads the system clock
/// with `std::time::SystemTime::now` and `duration_since`; nothing is known of the reading.
#[verifier::external_body]
pub fn now_secs() -> (secs: u64) {
    std::time::SystemTime::now()
        .duration_since(std::time::UNIX_EPOCH)
        .unwrap_or_default()
        .as_secs()
}

/// Two hexadecimal digits per byte, in lower case.
pub open spec fn hex_text(bytes: Seq<u8>) -> Seq<char>
    decreases bytes.len(),
{
    if bytes.len() == 0 {
        Seq::empty()
    } else {
        hex_text(bytes.drop_last()).push(text::digit_char(bytes.last() as int / 16)).push(
            text::digit_char(bytes.last() as int % 16),
        )
    }
}

/// Where the two digits of each byte stand.
pub proof fn lemma_hex_text_len(bytes: Seq<u8>)
    ensures
        hex_text(bytes).len() == 2 * bytes.len(),
        forall|i: int|
            #![trigger bytes[i]]
            0 <= i < bytes.len() ==> hex_text(bytes)[2 * i] == text::digit_char(bytes[i] as int / 16)
                && hex_text(bytes)[2 * i + 1] == text::digit_char(bytes[i] as int % 16),
    decreases bytes.len(),
{
    if bytes.len() > 0 {
        let t = bytes.drop_last();
        lemma_hex_text_len(t);
        assert forall|i: int| #![trigger bytes[i]] 0 <= i < bytes.len() implies hex_text(bytes)[2 * i]
            == text::digit_char(bytes[i] as int / 16) && hex_text(bytes)[2 * i + 1] == text::digit_char(
            bytes[i] as int % 16,
        ) by {
            if i < t.len() {
                assert(t[i] == bytes[i]);
            }
        }
    }
}

/// Convert a short PeerId to a hex string.
pub fn peer_id_hex(peer: &PeerId) -> (s: String)
    ensures
        s@ == hex_text(peer@),
{
    let mut s = String::new();
    let mut i: usize = 0;
    assert(s@ =~= hex_text(peer@.take(0)));
    while i < 8
        invariant
            0 <= i <= 8,
            s@ == hex_text(peer@.take(i as int)),
        decreases 8 - i,
    {
        let ghost upto = peer@.take(i + 1);
        assert(upto.drop_last() =~= peer@.take(i as int));
        assert(upto.last() == peer@[i as int]);
        let b: u8 = peer[i];
        s.push(text::digit(b / 16));
        s.push(text::digit(b % 16));
        i = i + 1;
    }
    assert(peer@.take(8) =~= peer@);
    s
}

/// The last characters of a text that is too long, after three dots; without the dots where there is no
/// room for them.
pub open spec fn cut_start(s: Seq<char>, max: int) -> Seq<char> {
    if s.len() <= max {
        s
    } else if max < 3 {
        s.skip(s.len() - max)
    } else {
        "..."@ + s.skip(s.len() - (max - 3))
    }
}

/// The first characters of a text that is too long, before three dots; without the dots where there is no
/// room for them.
pub open spec fn cut_end(s: Seq<char>, max: int) -> Seq<char> {
    if s.len() <= max {
        s
    } else if max < 3 {
        s.take(max)
    } else {
        s.take(max - 3) + "..."@
    }
}

/// Truncate a string to `max` characters, adding "..." prefix if truncated.
pub fn truncate_start(s: &str, max: usize) -> (r: String)
    ensures
        r@ == cut_start(s@, max as int),
        r@.len() <= max,
{
    let n: usize = s.unicode_len();
    if n <= max {
        s.to_owned()
    } else if max < 3 {
        let suffix = s.substring_char(n - max, n);
        assert(suffix@ =~= s@.skip(s@.len() - max));
        suffix.to_owned()
    } else {
        let mut r = "...".to_owned();
        proof {
            reveal_strlit("...");
        }
        let suffix = s.substring_char(n - (max - 3), n);
        assert(suffix@ =~= s@.skip(s@.len() - (max - 3)));
        r.append(suffix);
        r
    }
}

/// Truncate a string to `max` characters, adding "..." suffix if truncated.
pub fn truncate_end(s: &str, max: usize) -> (r: String)
    ensures
        r@ == cut_end(s@, max as int),
        r@.len() <= max,
{
    let n: usize = s.unicode_len();
    if n <= max {
        s.to_owned()
    } else if max < 3 {
        let prefix = s.substring_char(0, max);
        assert(prefix@ =~= s@.take(max as int));
        prefix.to_owned()
    } else {
        let prefix = s.substring_char(0, max - 3);
        assert(prefix@ =~= s@.take(max - 3));
        let mut r = prefix.to_owned();
        proof {
            reveal_strlit("...");
        }
        r.append("...");
        r
    }
}

} // verus!
