use shardlink::backhaul::ShardState;
use shardlink::handshake::{process_reply, HandshakeFrame, ReplyAction};
use shardlink::keys::Identity;
use shardlink::table::{SessionTable, ShardedAddrs};
use shardlink::types::Addr;

fn addr(host: u128, port: u16) -> Addr {
    Addr { host, port }
}

#[test]
fn two_shard_session_end_to_end() {
    // a client with two shards handshakes against a server whose long-term
    // key matches the expected one
    let server = Identity::fresh();
    let expected = server.long_pk.to_vec();
    let issued_token = vec![0xAB; 8];
    let reply = HandshakeFrame::ServerHello {
        long_pk: expected.clone(),
        eph_pk: server.eph_pk.to_vec(),
        resume_token: issued_token.clone(),
    };
    let token = match process_reply(&expected, &vec![Some(vec![reply])]) {
        ReplyAction::Accept { resume_token, .. } => resume_token,
        _ => panic!("the matching hello must be accepted"),
    };
    assert_eq!(token, issued_token);

    // two shard loops attach to the session; each announces at once
    let mut shard0 = ShardState::new(None, 0);
    let mut shard1 = ShardState::new(None, 0);
    assert!(shard0.on_outgoing(1).send_resume);
    assert!(shard1.on_outgoing(1).send_resume);

    // the server registers shard 0 at the handshake address, then shard 1
    // as its announcement arrives
    let mut table: SessionTable<&'static str> = SessionTable::new();
    table.new_sess(token.clone(), "sess", ShardedAddrs::new(0, addr(1, 1), 0));
    assert!(table.rebind(addr(2, 2), 1, &token));
    assert_eq!(table.lookup(addr(1, 1)).copied(), Some("sess"));
    assert_eq!(table.lookup(addr(2, 2)).copied(), Some("sess"));

    // dropping one shard's loop state leaves the other shard and the
    // session untouched
    drop(shard0);
    assert!(shard1.on_outgoing(2000).send_resume);
    assert_eq!(table.lookup(addr(2, 2)).copied(), Some("sess"));
    assert_eq!(table.shard_addr_of(&token, 0), Some(addr(1, 1)));

    // a resumption frame for shard 1 from a new address updates only
    // shard 1's binding
    assert!(table.rebind(addr(9, 9), 1, &token));
    assert_eq!(table.shard_addr_of(&token, 0), Some(addr(1, 1)));
    assert_eq!(table.shard_addr_of(&token, 1), Some(addr(9, 9)));
    assert!(table.lookup(addr(2, 2)).is_none());
    assert_eq!(table.lookup(addr(9, 9)).copied(), Some("sess"));

    // an unknown token cannot touch the table
    assert!(!table.rebind(addr(7, 7), 0, &vec![0u8; 8]));
}
