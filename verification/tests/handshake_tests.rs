use shardlink::handshake::{backoff_secs, process_reply, HandshakeFrame, ReplyAction};

#[test]
fn backoff_is_powers_of_two() {
    assert_eq!(backoff_secs(0), 1);
    assert_eq!(backoff_secs(1), 2);
    assert_eq!(backoff_secs(2), 4);
    assert_eq!(backoff_secs(5), 32);
    assert_eq!(backoff_secs(10), 1024);
    assert_eq!(backoff_secs(63), 1u64 << 63);
}

#[test]
fn backoff_doubles_each_attempt() {
    for i in 0..62u32 {
        assert_eq!(backoff_secs(i + 1), 2 * backoff_secs(i));
    }
}

fn hello(long_pk: &[u8], token: &[u8]) -> HandshakeFrame {
    HandshakeFrame::ServerHello {
        long_pk: long_pk.to_vec(),
        eph_pk: vec![9u8; 32],
        resume_token: token.to_vec(),
    }
}

#[test]
fn reply_accepts_matching_hello() {
    let expected = vec![7u8; 32];
    let noise = HandshakeFrame::ClientResume { resume_token: vec![], shard_id: 0 };
    let attempts = vec![None, Some(vec![noise, hello(&expected, &[1, 2, 3])])];
    match process_reply(&expected, &attempts) {
        ReplyAction::Accept { server_long_pk, server_eph_pk, resume_token } => {
            assert_eq!(server_long_pk, expected);
            assert_eq!(server_eph_pk, vec![9u8; 32]);
            assert_eq!(resume_token, vec![1, 2, 3]);
        },
        _ => panic!("a matching hello must be accepted"),
    }
}

#[test]
fn reply_refuses_wrong_long_term_key() {
    let expected = vec![7u8; 32];
    let wrong = vec![8u8; 32];
    let attempts = vec![Some(vec![hello(&wrong, &[1])])];
    assert!(matches!(process_reply(&expected, &attempts), ReplyAction::Refuse));
}

#[test]
fn reply_ignores_noise() {
    let expected = vec![7u8; 32];
    // nothing decrypted under any key
    let attempts: Vec<Option<Vec<HandshakeFrame>>> = vec![None, None, None];
    assert!(matches!(process_reply(&expected, &attempts), ReplyAction::Ignore));
    // decrypted frames that are no server hello are ignored, not errors
    let other = HandshakeFrame::ClientHello { long_pk: vec![1], eph_pk: vec![2], version: 3 };
    let attempts = vec![Some(vec![other]), None];
    assert!(matches!(process_reply(&expected, &attempts), ReplyAction::Ignore));
}

#[test]
fn reply_decision_independent_of_decrypting_key() {
    // the same hello accepted under the first key and under a later key of
    // the rotating set yields the same action and the same session inputs
    let expected = vec![3u8; 32];
    let h = hello(&expected, &[5, 5]);
    let under_first = vec![Some(vec![h.clone()]), None, None];
    let under_last = vec![None, None, Some(vec![h])];
    let a1 = process_reply(&expected, &under_first);
    let a2 = process_reply(&expected, &under_last);
    match (a1, a2) {
        (
            ReplyAction::Accept { server_long_pk: l1, server_eph_pk: e1, resume_token: r1 },
            ReplyAction::Accept { server_long_pk: l2, server_eph_pk: e2, resume_token: r2 },
        ) => {
            assert_eq!(l1, l2);
            assert_eq!(e1, e2);
            assert_eq!(r1, r2);
        },
        _ => panic!("both must accept identically"),
    }
}

