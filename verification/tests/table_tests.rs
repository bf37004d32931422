use shardlink::table::{SessionTable, ShardedAddrs};
use shardlink::types::Addr;

fn addr(host: u128, port: u16) -> Addr {
    Addr { host, port }
}

#[test]
fn round_robin_rapid_calls_visit_in_insertion_order() {
    // shards {0: A, 1: B, 2: C}
    let mut sa = ShardedAddrs::new(0, addr(0xA, 1), 0);
    sa.bind(1, addr(0xB, 1));
    sa.bind(2, addr(0xC, 1));
    // calls within the quiescence window advance one slot each, wrapping:
    // starting after the cursor was left on C's slot
    assert_eq!(sa.get_addr(10), addr(0xA, 1));
    assert_eq!(sa.get_addr(20), addr(0xB, 1));
    assert_eq!(sa.get_addr(30), addr(0xC, 1));
    assert_eq!(sa.get_addr(40), addr(0xA, 1));
    assert_eq!(sa.get_addr(50), addr(0xB, 1));
    assert_eq!(sa.get_addr(60), addr(0xC, 1));
}

#[test]
fn round_robin_idle_call_repeats_previous_choice() {
    let mut sa = ShardedAddrs::new(0, addr(0xA, 1), 0);
    sa.bind(1, addr(0xB, 1));
    sa.bind(2, addr(0xC, 1));
    let first = sa.get_addr(50);
    // waiting past the quiescence window keeps the selection stable
    let second = sa.get_addr(500);
    assert_eq!(first, second);
    let third = sa.get_addr(5000);
    assert_eq!(second, third);
}

#[test]
fn bind_replaces_in_place_and_remove_shifts() {
    let mut sa = ShardedAddrs::new(0, addr(1, 1), 0);
    sa.bind(1, addr(2, 2));
    let prev = sa.bind(0, addr(5, 5));
    assert_eq!(prev, Some(addr(1, 1)));
    assert_eq!(sa.pairs(), vec![(0, addr(5, 5)), (1, addr(2, 2))]);
    assert_eq!(sa.get_shard(0), Some(addr(5, 5)));
    let removed = sa.remove_shard(0);
    assert_eq!(removed, Some(addr(5, 5)));
    assert_eq!(sa.pairs(), vec![(1, addr(2, 2))]);
    assert_eq!(sa.get_shard(0), None);
}

#[test]
fn rebind_unknown_token_fails_without_side_effects() {
    let mut t: SessionTable<u32> = SessionTable::new();
    assert!(!t.rebind(addr(1, 1), 0, &vec![1u8]));
    assert!(t.lookup(addr(1, 1)).is_none());
}

#[test]
fn rebind_moves_address_between_tokens() {
    // rebind(A, 0, T1) then rebind(A, 0, T2): A must end mapped to T2
    // only, and T1's shard-0 binding must show no address
    let mut t: SessionTable<u32> = SessionTable::new();
    let t1 = vec![1u8];
    let t2 = vec![2u8];
    t.new_sess(t1.clone(), 101, ShardedAddrs::new(0, addr(0xF1, 1), 0));
    t.new_sess(t2.clone(), 102, ShardedAddrs::new(0, addr(0xF2, 1), 0));
    let a = addr(0xAA, 9);
    assert!(t.rebind(a, 0, &t1));
    assert_eq!(t.lookup(a).copied(), Some(101));
    // T1's shard 0 moved from its handshake address to A
    assert_eq!(t.shard_addr_of(&t1, 0), Some(a));
    assert!(t.lookup(addr(0xF1, 1)).is_none());
    assert!(t.rebind(a, 0, &t2));
    assert_eq!(t.lookup(a).copied(), Some(102));
    assert_eq!(t.shard_addr_of(&t2, 0), Some(a));
    assert_eq!(t.shard_addr_of(&t1, 0), None);
}

#[test]
fn rebind_displaces_only_that_shard() {
    let mut t: SessionTable<u32> = SessionTable::new();
    let t1 = vec![7u8, 7u8];
    t.new_sess(t1.clone(), 7, ShardedAddrs::new(0, addr(1, 1), 0));
    assert!(t.rebind(addr(2, 2), 1, &t1));
    assert!(t.rebind(addr(3, 3), 1, &t1));
    // shard 0 untouched; shard 1's old address left the reverse index
    assert_eq!(t.shard_addr_of(&t1, 0), Some(addr(1, 1)));
    assert_eq!(t.shard_addr_of(&t1, 1), Some(addr(3, 3)));
    assert_eq!(t.lookup(addr(1, 1)).copied(), Some(7));
    assert!(t.lookup(addr(2, 2)).is_none());
    assert_eq!(t.lookup(addr(3, 3)).copied(), Some(7));
}

#[test]
fn delete_unregisters_every_address() {
    let mut t: SessionTable<u32> = SessionTable::new();
    let t1 = vec![1u8];
    let t2 = vec![2u8];
    t.new_sess(t1.clone(), 1, ShardedAddrs::new(0, addr(1, 1), 0));
    t.new_sess(t2.clone(), 2, ShardedAddrs::new(0, addr(9, 9), 0));
    assert!(t.rebind(addr(2, 2), 1, &t1));
    assert!(t.rebind(addr(3, 3), 2, &t1));
    t.delete(&t1);
    assert!(t.lookup(addr(1, 1)).is_none());
    assert!(t.lookup(addr(2, 2)).is_none());
    assert!(t.lookup(addr(3, 3)).is_none());
    // the other session is untouched
    assert_eq!(t.lookup(addr(9, 9)).copied(), Some(2));
    // deleting again, or rebinding the dead token, is a no-op / failure
    t.delete(&t1);
    assert!(!t.rebind(addr(4, 4), 0, &t1));
}
