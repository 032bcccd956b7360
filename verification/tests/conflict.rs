use p2sync::conflict::{Causality, PeerId, Resolution, Tombstone, VectorClock, conflict_filename, resolve};
use p2sync::peer_id_map::{KeyError, deserialize, parse_key, serialize};

fn peer(id: u8) -> PeerId {
    let mut p = [0u8; 8];
    p[0] = id;
    p
}

#[test]
fn new_clocks_are_equal() {
    let a = VectorClock::new();
    let b = VectorClock::new();
    assert_eq!(a.compare(&b), Causality::Equal);
}

#[test]
fn tick_makes_clock_advance() {
    let mut a = VectorClock::new();
    let b = VectorClock::new();
    a.tick(peer(1));
    assert_eq!(a.compare(&b), Causality::After);
    assert_eq!(b.compare(&a), Causality::Before);
}

#[test]
fn concurrent_modifications() {
    let mut a = VectorClock::new();
    let mut b = VectorClock::new();
    a.tick(peer(1));
    b.tick(peer(2));
    assert_eq!(a.compare(&b), Causality::Concurrent);
}

#[test]
fn merge_takes_max() {
    let mut a = VectorClock::new();
    let mut b = VectorClock::new();
    a.tick(peer(1));
    a.tick(peer(1));
    b.tick(peer(1));
    b.tick(peer(2));

    a.merge(&b);
    assert_eq!(a.counters.get(&peer(1)), Some(2));
    assert_eq!(a.counters.get(&peer(2)), Some(1));
}

#[test]
fn merge_then_compare() {
    let mut a = VectorClock::new();
    let mut b = VectorClock::new();
    a.tick(peer(1));
    b.tick(peer(2));

    let mut merged = a.clone();
    merged.merge(&b);
    merged.tick(peer(1));

    assert_eq!(merged.compare(&a), Causality::After);
    assert_eq!(merged.compare(&b), Causality::After);
}

#[test]
fn resolve_accepts_when_local_is_behind() {
    let mut local = VectorClock::new();
    let mut remote = VectorClock::new();
    local.tick(peer(1));
    remote.tick(peer(1));
    remote.tick(peer(2));

    assert_eq!(resolve(&local, &remote, 100, 200, peer(2), peer(1)), Resolution::Accept);
}

#[test]
fn resolve_rejects_when_local_is_ahead() {
    let mut local = VectorClock::new();
    let mut remote = VectorClock::new();
    local.tick(peer(1));
    local.tick(peer(1));
    remote.tick(peer(1));

    assert_eq!(resolve(&local, &remote, 100, 200, peer(2), peer(1)), Resolution::Reject);
}

#[test]
fn resolve_conflict_on_concurrent() {
    let mut local = VectorClock::new();
    let mut remote = VectorClock::new();
    local.tick(peer(1));
    remote.tick(peer(2));

    let result = resolve(&local, &remote, 100, 200, peer(2), peer(1));
    assert!(matches!(result, Resolution::Conflict { .. }));
}

#[test]
fn conflict_filename_with_extension() {
    let name = conflict_filename("config.toml", &peer(0xAB));
    assert_eq!(name, "config.conflict.ab000000.toml");
}

#[test]
fn conflict_filename_without_extension() {
    let name = conflict_filename("Makefile", &peer(0xCD));
    assert_eq!(name, "Makefile.conflict.cd000000");
}

#[test]
fn tombstone_not_expired() {
    let t = Tombstone::new("f.txt".into(), peer(1), VectorClock::new());
    assert!(!t.is_expired(3600));
}

#[test]
fn tombstone_expired() {
    let mut t = Tombstone::new("f.txt".into(), peer(1), VectorClock::new());
    t.timestamp = 0; // epoch = long ago
    assert!(t.is_expired(3600));
}

#[test]
fn expiry_counts_from_the_timestamp() {
    let mut t = Tombstone::new("f.txt".into(), peer(1), VectorClock::new());
    t.timestamp = 100;
    assert!(!t.is_expired_at(110, 10));
    assert!(t.is_expired_at(111, 10));
    assert!(!t.is_expired_at(50, 0));
    assert_eq!(t.clone(), t);
}

#[test]
fn equal_clocks_are_rejected() {
    let mut a = VectorClock::new();
    a.tick(peer(1));
    assert_eq!(resolve(&a, &a.clone(), 1, 2, peer(2), peer(1)), Resolution::Reject);
}

#[test]
fn the_later_writer_wins_and_peers_break_ties() {
    let mut local = VectorClock::new();
    let mut remote = VectorClock::new();
    local.tick(peer(1));
    remote.tick(peer(2));
    assert_eq!(
        resolve(&local, &remote, 100, 200, peer(2), peer(1)),
        Resolution::Conflict { loser_peer: peer(1) }
    );
    assert_eq!(
        resolve(&local, &remote, 200, 100, peer(2), peer(1)),
        Resolution::Conflict { loser_peer: peer(2) }
    );
    assert_eq!(
        resolve(&local, &remote, 100, 100, peer(2), peer(1)),
        Resolution::Conflict { loser_peer: peer(1) }
    );
    // The other side names the same loser
    assert_eq!(
        resolve(&remote, &local, 100, 100, peer(1), peer(2)),
        Resolution::Conflict { loser_peer: peer(1) }
    );
}

#[test]
fn merging_is_an_upper_bound_in_any_order() {
    let mut a = VectorClock::new();
    let mut b = VectorClock::new();
    a.tick(peer(9));
    a.tick(peer(3));
    b.tick(peer(3));
    b.tick(peer(3));
    b.tick(peer(7));
    let mut ab = a.clone();
    ab.merge(&b);
    let mut ba = b.clone();
    ba.merge(&a);
    assert_eq!(ab, ba);
    assert_eq!(ab.compare(&a), Causality::After);
    let mut again = ab.clone();
    again.merge(&b);
    assert_eq!(again, ab);
    assert_eq!(ab.count(&peer(3)), 2);
    assert_eq!(ab.count(&peer(5)), 0);
}

#[test]
fn a_counter_of_zero_counts_as_none() {
    let zero = deserialize(&vec![("0100000000000000".to_string(), 0)]).unwrap();
    let a = VectorClock { counters: zero };
    assert_eq!(a.compare(&VectorClock::default()), Causality::Equal);
    let mut b = VectorClock::new();
    b.merge(&a);
    assert_eq!(b.counters.get(&peer(1)), Some(0));
}

#[test]
fn conflict_filename_uses_the_last_dot() {
    assert_eq!(conflict_filename("a.tar.gz", &[0xde, 0xad, 0xbe, 0xef, 1, 2, 3, 4]), "a.tar.conflict.deadbeef.gz");
    assert_eq!(conflict_filename(".env", &peer(1)), ".conflict.01000000.env");
    assert_eq!(conflict_filename("dir.d/file", &peer(1)), "dir.d/file.conflict.01000000");
    assert_eq!(
        conflict_filename("my.dir/Makefile", &[0xAB, 0, 0, 0, 0, 0, 0, 0]),
        "my.dir/Makefile.conflict.ab000000"
    );
    assert_eq!(conflict_filename("my.dir/a.b.c", &peer(1)), "my.dir/a.b.conflict.01000000.c");
    assert_eq!(conflict_filename("", &peer(1)), ".conflict.01000000");
}

#[test]
fn counters_on_the_wire() {
    let mut c = VectorClock::new();
    c.tick([0xff, 0, 0, 0, 0, 0, 0, 1]);
    c.tick(peer(0x0a));
    c.tick(peer(0x0a));
    let wire = serialize(&c.counters);
    assert_eq!(wire, vec![("0a00000000000000".to_string(), 2), ("ff00000000000001".to_string(), 1)]);
    assert_eq!(deserialize(&wire).unwrap(), c.counters);
    // A later entry for the same peer wins, and upper case is read too
    let twice = vec![("0A00000000000000".to_string(), 1), ("0a00000000000000".to_string(), 5)];
    assert_eq!(deserialize(&twice).unwrap().get(&peer(0x0a)), Some(5));
}

#[test]
fn keys_that_are_none() {
    assert_eq!(parse_key("abc"), Err(KeyError::InvalidKey));
    assert_eq!(parse_key("éé"), Err(KeyError::InvalidKey));
    assert_eq!(parse_key("zz00000000000000"), Err(KeyError::InvalidDigit));
    assert_eq!(parse_key("zz"), Err(KeyError::InvalidDigit));
    assert_eq!(parse_key("0102"), Err(KeyError::WrongLength));
    assert_eq!(parse_key(""), Err(KeyError::WrongLength));
    assert_eq!(parse_key("+f-0000000000000"), Err(KeyError::InvalidDigit));
    assert_eq!(parse_key("+f00000000000000"), Err(KeyError::InvalidDigit));
    assert_eq!(parse_key("+1+1+1+1+1+1+1+1"), Err(KeyError::InvalidDigit));
    assert_eq!(KeyError::InvalidKey.message(), "invalid hex peer ID key");
    assert_eq!(KeyError::InvalidDigit.message(), "invalid digit found in string");
    assert_eq!(KeyError::WrongLength.message(), "peer ID must be 8 bytes");
    assert_eq!(
        deserialize(&vec![("01".to_string(), 1), ("x".to_string(), 1)]).unwrap_err(),
        KeyError::WrongLength
    );
}
