//! Who is later, and who wins: what clocks, times and names of copies promise.

use vstd::prelude::*;

use crate::conflict;
use crate::conflict::{Causality, PeerId, Resolution, Tombstone, VectorClock};
use crate::peers;
use crate::text;
use crate::util;

verus! {

broadcast use {vstd::seq::group_seq_axioms, vstd::map::group_map_axioms};

/// What a clock counts for a peer is its counter, and zero where it has none.
pub proof fn lemma_a_missing_counter_is_zero(clock: Map<PeerId, u64>, p: PeerId)
    ensures
        clock.contains_key(p) ==> conflict::count(clock, p) == clock[p],
        !clock.contains_key(p) ==> conflict::count(clock, p) == 0,
{
}

/// Two clocks are compared counter by counter. They are equal where all counters are; one is before the other
/// where none of its counters is ahead and some is behind; and they are concurrent exactly where each is
/// ahead of the other in some counter.
pub proof fn lemma_clocks_are_compared_by_every_counter(a: Map<PeerId, u64>, b: Map<PeerId, u64>)
    ensures
        conflict::relation(a, b) == Causality::Equal <==> (forall|p: PeerId| #[trigger]
            conflict::count(a, p) == conflict::count(b, p)),
        conflict::relation(a, b) == Causality::Before <==> {
            &&& forall|p: PeerId| #[trigger] conflict::count(a, p) <= conflict::count(b, p)
            &&& exists|p: PeerId| #[trigger] conflict::count(a, p) < conflict::count(b, p)
        },
        conflict::relation(a, b) == Causality::After <==> {
            &&& forall|p: PeerId| #[trigger] conflict::count(a, p) >= conflict::count(b, p)
            &&& exists|p: PeerId| #[trigger] conflict::count(a, p) > conflict::count(b, p)
        },
        conflict::relation(a, b) == Causality::Concurrent <==> {
            &&& exists|p: PeerId| #[trigger] conflict::count(a, p) > conflict::count(b, p)
            &&& exists|p: PeerId| #[trigger] conflict::count(a, p) < conflict::count(b, p)
        },
{
    conflict::lemma_no_later_is_an_order(a, b, b);
    conflict::lemma_no_later_is_an_order(b, a, a);
    if !conflict::no_later(a, b) {
        let p = choose|p: PeerId| !(#[trigger] conflict::count(a, p) <= conflict::count(b, p));
        assert(conflict::count(a, p) > conflict::count(b, p));
    }
    if !conflict::no_later(b, a) {
        let p = choose|p: PeerId| !(#[trigger] conflict::count(b, p) <= conflict::count(a, p));
        assert(conflict::count(a, p) < conflict::count(b, p));
    }
    if conflict::no_later(a, b) {
        assert forall|p: PeerId| #[trigger] conflict::count(a, p) <= conflict::count(b, p) by {}
    }
    if conflict::no_later(b, a) {
        assert forall|p: PeerId| #[trigger] conflict::count(a, p) >= conflict::count(b, p) by {
            assert(conflict::count(b, p) <= conflict::count(a, p));
        }
    }
    if forall|p: PeerId| #[trigger] conflict::count(a, p) >= conflict::count(b, p) {
        assert forall|p: PeerId| #[trigger] conflict::count(b, p) <= conflict::count(a, p) by {
            assert(conflict::count(a, p) >= conflict::count(b, p));
        }
    }
    if exists|p: PeerId| #[trigger] conflict::count(a, p) < conflict::count(b, p) {
        let p = choose|p: PeerId| #[trigger] conflict::count(a, p) < conflict::count(b, p);
        assert(!(conflict::count(b, p) <= conflict::count(a, p)));
    }
}

/// A tick counts one more for its peer, and leaves every other counter as it is.
pub proof fn lemma_a_tick_counts_one(clock: Map<PeerId, u64>, peer: PeerId, other: PeerId)
    requires
        conflict::count(clock, peer) < u64::MAX,
        other != peer,
    ensures
        conflict::count(conflict::ticked(clock, peer), peer) == conflict::count(clock, peer) + 1,
        conflict::count(conflict::ticked(clock, peer), other) == conflict::count(clock, other),
{
}

/// A merged clock has, for every peer, the greater of the two counts.
pub proof fn lemma_a_merge_takes_the_greater_count(a: Map<PeerId, u64>, b: Map<PeerId, u64>, p: PeerId)
    ensures
        conflict::count(conflict::merged(a, b), p) >= conflict::count(a, p),
        conflict::count(conflict::merged(a, b), p) >= conflict::count(b, p),
        conflict::count(conflict::merged(a, b), p) == conflict::count(a, p) || conflict::count(
            conflict::merged(a, b),
            p,
        ) == conflict::count(b, p),
{
}

/// The later writer wins: of two changes that were made apart, the one with the smaller timestamp is the
/// loser, whoever made it and whatever the times are.
pub proof fn lemma_the_later_writer_wins(
    local_clock: Map<PeerId, u64>,
    remote_clock: Map<PeerId, u64>,
    local_time: u64,
    remote_time: u64,
    remote_peer: PeerId,
    local_peer: PeerId,
)
    requires
        exists|p: PeerId| #[trigger] conflict::count(local_clock, p) > conflict::count(remote_clock, p),
        exists|p: PeerId| #[trigger] conflict::count(local_clock, p) < conflict::count(remote_clock, p),
    ensures
        local_time < remote_time ==> conflict::resolution(
            local_clock,
            remote_clock,
            local_time,
            remote_time,
            remote_peer,
            local_peer,
        ) == (Resolution::Conflict { loser_peer: local_peer }),
        local_time > remote_time ==> conflict::resolution(
            local_clock,
            remote_clock,
            local_time,
            remote_time,
            remote_peer,
            local_peer,
        ) == (Resolution::Conflict { loser_peer: remote_peer }),
{
    lemma_clocks_are_compared_by_every_counter(local_clock, remote_clock);
}

/// The first byte in which two peers differ decides which comes first.
pub proof fn lemma_the_first_different_byte_decides(a: PeerId, b: PeerId, k: int)
    requires
        0 <= k < 8,
        forall|i: int| 0 <= i < k ==> a@[i] == b@[i],
        a@[k] < b@[k],
    ensures
        peers::peer_before(a, b),
        !peers::peer_before(b, a),
{
    lemma_first_different_char(peers::peer_key(a@), peers::peer_key(b@), k);
}

proof fn lemma_first_different_char(x: Seq<char>, y: Seq<char>, k: int)
    requires
        0 <= k < x.len(),
        k < y.len(),
        forall|i: int| 0 <= i < k ==> x[i] == y[i],
        x[k] < y[k],
    ensures
        text::lex_lt(x, y),
        !text::lex_lt(y, x),
    decreases k,
{
    if k > 0 {
        assert(x[0] == y[0]);
        lemma_first_different_char(x.drop_first(), y.drop_first(), k - 1);
    }
}

/// Of two changes that were made apart at the same second, the one of the peer that comes first is the loser.
pub proof fn lemma_ties_go_to_the_greater_peer(
    local_clock: Map<PeerId, u64>,
    remote_clock: Map<PeerId, u64>,
    time: u64,
    remote_peer: PeerId,
    local_peer: PeerId,
    k: int,
)
    requires
        exists|p: PeerId| #[trigger] conflict::count(local_clock, p) > conflict::count(remote_clock, p),
        exists|p: PeerId| #[trigger] conflict::count(local_clock, p) < conflict::count(remote_clock, p),
        0 <= k < 8,
        forall|i: int| 0 <= i < k ==> local_peer@[i] == remote_peer@[i],
        local_peer@[k] != remote_peer@[k],
    ensures
        conflict::resolution(local_clock, remote_clock, time, time, remote_peer, local_peer) == (Resolution::Conflict {
            loser_peer: if local_peer@[k] < remote_peer@[k] {
                local_peer
            } else {
                remote_peer
            },
        }),
{
    lemma_clocks_are_compared_by_every_counter(local_clock, remote_clock);
    if local_peer@[k] < remote_peer@[k] {
        lemma_the_first_different_byte_decides(local_peer, remote_peer, k);
    } else {
        lemma_the_first_different_byte_decides(remote_peer, local_peer, k);
    }
}

/// Where the clocks decide, neither the times nor the peers matter: a version that has seen all of the local
/// one and more is taken, and one that has seen no more than the local one is not.
pub proof fn lemma_history_decides_before_time(
    local_clock: Map<PeerId, u64>,
    remote_clock: Map<PeerId, u64>,
    local_time: u64,
    remote_time: u64,
    remote_peer: PeerId,
    local_peer: PeerId,
)
    ensures
        conflict::resolution(local_clock, remote_clock, local_time, remote_time, remote_peer, local_peer)
            == Resolution::Accept <==> {
            &&& forall|p: PeerId| #[trigger] conflict::count(local_clock, p) <= conflict::count(remote_clock, p)
            &&& exists|p: PeerId| #[trigger] conflict::count(local_clock, p) < conflict::count(remote_clock, p)
        },
        conflict::resolution(local_clock, remote_clock, local_time, remote_time, remote_peer, local_peer)
            == Resolution::Reject <==> (forall|p: PeerId| #[trigger]
            conflict::count(local_clock, p) >= conflict::count(remote_clock, p)),
{
    lemma_clocks_are_compared_by_every_counter(local_clock, remote_clock);
    if forall|p: PeerId| #[trigger] conflict::count(local_clock, p) >= conflict::count(remote_clock, p) {
        if !(exists|p: PeerId| #[trigger] conflict::count(local_clock, p) > conflict::count(remote_clock, p)) {
            assert forall|p: PeerId| #[trigger] conflict::count(local_clock, p) == conflict::count(
                remote_clock,
                p,
            ) by {
                assert(!(conflict::count(local_clock, p) > conflict::count(remote_clock, p)));
            }
        }
    }
}

/// A tombstone expires as soon as more than its time to live has passed since it was made, and not before.
pub proof fn lemma_a_tombstone_lives_its_time(now: u64, timestamp: u64, ttl_secs: u64)
    ensures
        conflict::outlived(now, timestamp, ttl_secs) <==> now as int > timestamp as int + ttl_secs as int,
{
}

/// The hexadecimal digits, by their values.
pub proof fn lemma_hexadecimal_digits(d: int)
    requires
        0 <= d < 16,
    ensures
        text::digit_char(d) == "0123456789abcdef"@[d],
{
    reveal_strlit("0123456789abcdef");
}

/// The copy of a file with an extension has the mark and eight digits of the loser before the extension.
pub proof fn lemma_a_copy_keeps_stem_and_extension(stem: Seq<char>, ext: Seq<char>, peer: PeerId)
    requires
        !ext.contains('.'),
        !ext.contains('/'),
    ensures
        conflict::conflict_name(stem + seq!['.'] + ext, peer) == stem + ".conflict."@ + util::hex_text(peer@).take(8)
            + seq!['.'] + ext,
{
    let s = stem + seq!['.'] + ext;
    let n = stem.len() as int;
    assert(s[n] == '.');
    conflict::lemma_last_dot(s);
    assert forall|j: int| n < j < s.len() implies s[j] != '.' && s[j] != '/' by {
        assert(s[j] == ext[j - n - 1]);
        assert(ext.contains(ext[j - n - 1]));
    }
    match conflict::last_dot(s) {
        Some(i) => {
            assert(i == n);
            assert(s.take(i) =~= stem);
            assert(s.skip(i) =~= seq!['.'] + ext);
            assert(conflict::conflict_name(s, peer) =~= stem + ".conflict."@ + util::hex_text(peer@).take(8) + seq!['.']
                + ext);
        },
        None => {
            let k = choose|k: int| n < k < s.len() && #[trigger] s[k] == '/';
            assert(s[k] == '/');
        },
    }
}

/// The copy of a file without an extension has the mark and eight digits of the loser at its end. A dot in the
/// name of a directory is no extension of the file.
pub proof fn lemma_a_copy_without_extension(dir: Seq<char>, name: Seq<char>, peer: PeerId)
    requires
        !name.contains('.'),
        dir.len() == 0 || dir.last() == '/',
    ensures
        conflict::conflict_name(dir + name, peer) == dir + name + ".conflict."@ + util::hex_text(peer@).take(8),
{
    let s = dir + name;
    conflict::lemma_last_dot(s);
    if let Some(i) = conflict::last_dot(s) {
        if i >= dir.len() {
            assert(s[i] == name[i - dir.len()]);
            assert(name.contains(name[i - dir.len()]));
        } else {
            assert(s[dir.len() - 1] == '/');
        }
    }
    assert(conflict::conflict_name(s, peer) =~= dir + name + ".conflict."@ + util::hex_text(peer@).take(8));
}

/// The eight digits are those of the first four bytes of the peer, two for each, the greater half first.
pub proof fn lemma_a_copy_names_the_loser(peer: PeerId, i: int)
    requires
        0 <= i < 4,
    ensures
        util::hex_text(peer@).take(8).len() == 8,
        util::hex_text(peer@).take(8)[2 * i] == "0123456789abcdef"@[peer@[i] as int / 16],
        util::hex_text(peer@).take(8)[2 * i + 1] == "0123456789abcdef"@[peer@[i] as int % 16],
{
    util::lemma_hex_text_len(peer@);
    lemma_hexadecimal_digits(peer@[i] as int / 16);
    lemma_hexadecimal_digits(peer@[i] as int % 16);
}

/// What is resolved about a change that was made apart: the peer with the smaller timestamp is the loser, and
/// of two with the same timestamp the peer that comes first.
pub proof fn lemma_resolving_a_conflict(
    local_clock: &VectorClock,
    remote_clock: &VectorClock,
    local_time: u64,
    remote_time: u64,
    remote_peer: PeerId,
    local_peer: PeerId,
    r: Resolution,
)
    requires
        call_ensures(
            conflict::resolve,
            (local_clock, remote_clock, local_time, remote_time, remote_peer, local_peer),
            r,
        ),
        exists|p: PeerId| #[trigger] conflict::count(local_clock@, p) > conflict::count(remote_clock@, p),
        exists|p: PeerId| #[trigger] conflict::count(local_clock@, p) < conflict::count(remote_clock@, p),
    ensures
        local_time < remote_time ==> r == (Resolution::Conflict { loser_peer: local_peer }),
        local_time > remote_time ==> r == (Resolution::Conflict { loser_peer: remote_peer }),
        local_time == remote_time ==> r == (Resolution::Conflict {
            loser_peer: if peers::peer_before(local_peer, remote_peer) {
                local_peer
            } else {
                remote_peer
            },
        }),
{
    lemma_clocks_are_compared_by_every_counter(local_clock@, remote_clock@);
}

/// A tombstone says what was deleted, by whom, and what the clock of the file was; and it has expired exactly
/// once its time to live has passed.
pub proof fn lemma_a_tombstone_says_what_was_deleted(
    path: String,
    deleted_by: PeerId,
    clock: VectorClock,
    t: Tombstone,
    now: u64,
    ttl_secs: u64,
    expired: bool,
)
    requires
        call_ensures(Tombstone::new, (path, deleted_by, clock), t),
        call_ensures(Tombstone::is_expired_at, (&t, now, ttl_secs), expired),
    ensures
        t@.path == path@,
        t@.deleted_by == deleted_by,
        t@.clock == clock@,
        expired <==> now as int > t@.timestamp as int + ttl_secs as int,
{
}

} // verus!
