use shardlink::backhaul::ShardState;
use shardlink::keys::Identity;

#[test]
fn first_outgoing_always_announces() {
    let mut s = ShardState::new(None, 0);
    let p = s.on_outgoing(10);
    assert!(p.send_resume);
    assert!(!p.rotate_socket);
}

#[test]
fn announcement_follows_reminder_cadence() {
    let mut s = ShardState::new(None, 0);
    assert!(s.on_outgoing(10).send_resume);
    // quiet period shorter than the reminder interval: no announcement
    assert!(!s.on_outgoing(500).send_resume);
    assert!(!s.on_outgoing(1400).send_resume);
    // more than one second since the last announcement at t=1400
    assert!(s.on_outgoing(2500).send_resume);
}

#[test]
fn rotation_waits_for_randomized_deadline() {
    let mut s = ShardState::new(Some(10_000), 0);
    // the deadline is drawn from [5000, 10000), so nothing rotates yet
    let p = s.on_outgoing(10);
    assert!(p.send_resume);
    assert!(!p.rotate_socket);
    // past the full interval the deadline has certainly passed
    let p2 = s.on_outgoing(20_000);
    assert!(p2.send_resume);
    assert!(p2.rotate_socket);
    // right after a rotation the clock restarts
    let p3 = s.on_outgoing(21_500);
    assert!(p3.send_resume);
    assert!(!p3.rotate_socket);
}

#[test]
fn no_rotation_without_configured_interval() {
    let mut s = ShardState::new(None, 0);
    for t in [1u64, 100_000, 10_000_000] {
        let p = s.on_outgoing(t);
        assert!(!p.rotate_socket);
    }
}

#[test]
fn public_keys_match_the_x25519_function() {
    let id = Identity::fresh();
    assert_eq!(
        id.long_pk,
        x25519_dalek::x25519(id.long_sk, x25519_dalek::X25519_BASEPOINT_BYTES)
    );
    assert_eq!(
        id.eph_pk,
        x25519_dalek::x25519(id.eph_sk, x25519_dalek::X25519_BASEPOINT_BYTES)
    );
    // the derivation is no identity function, and the two keys differ
    assert_ne!(id.long_pk, id.long_sk);
    assert_ne!(id.long_pk, id.eph_pk);
}
