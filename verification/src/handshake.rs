use vstd::prelude::*;
use crate::types::token_eq;

verus! {

/// Protocol version announced in the opening frame.
pub const VERSION: u64 = 3;

/// Minimum ciphertext length handshake frames are padded to, against
/// size-based fingerprinting.
pub const PADDING_TARGET: usize = 1000;

/// A handshake frame, as it stands after decryption and before encryption.
/// Encryption, padding and the byte-level encoding happen outside this core.
#[derive(Clone)]
pub enum HandshakeFrame {
    ClientHello { long_pk: Vec<u8>, eph_pk: Vec<u8>, version: u64 },
    ServerHello { long_pk: Vec<u8>, eph_pk: Vec<u8>, resume_token: Vec<u8> },
    ClientResume { resume_token: Vec<u8>, shard_id: u8 },
}

/// What the client does with one received datagram during the handshake.
pub enum ReplyAction {
    /// No usable `ServerHello` was found: keep waiting.
    Ignore,
    /// A `ServerHello` arrived whose long-term key is not the expected one:
    /// refuse the connection, never retry.
    Refuse,
    /// Handshake complete: the fields the session is derived from. The
    /// shared secret is a function of these fields and the client's own
    /// secrets alone.
    Accept { server_long_pk: Vec<u8>, server_eph_pk: Vec<u8>, resume_token: Vec<u8> },
}

/// The first `ServerHello` in a frame sequence, if any.
pub open spec fn first_hello(s: Seq<HandshakeFrame>) -> Option<HandshakeFrame>
    decreases s.len(),
{
    if s.len() == 0 {
        None
    } else if s[0] is ServerHello {
        Some(s[0])
    } else {
        first_hello(s.skip(1))
    }
}

/// The first `ServerHello` over the decryption attempts of every receive
/// key, in key order: `None` stands for a key that failed to decrypt.
pub open spec fn first_hello_of_attempts(attempts: Seq<Option<Vec<HandshakeFrame>>>) -> Option<
    HandshakeFrame,
>
    decreases attempts.len(),
{
    if attempts.len() == 0 {
        None
    } else {
        let head = match attempts[0] {
            Some(v) => first_hello(v@),
            None => None,
        };
        match head {
            Some(f) => Some(f),
            None => first_hello_of_attempts(attempts.skip(1)),
        }
    }
}

/// What one `ServerHello` frame decides, given the expected server key.
pub open spec fn hello_action(expected: Seq<u8>, f: HandshakeFrame) -> ReplyAction {
    match f {
        HandshakeFrame::ServerHello { long_pk, eph_pk, resume_token } => {
            if long_pk@ == expected {
                ReplyAction::Accept {
                    server_long_pk: long_pk,
                    server_eph_pk: eph_pk,
                    resume_token: resume_token,
                }
            } else {
                ReplyAction::Refuse
            }
        },
        _ => ReplyAction::Ignore,
    }
}

/// What a whole reply decides: the first `ServerHello` found across the
/// receive keys' decryption attempts, judged against the expected key;
/// `Ignore` when none decrypts to a `ServerHello`.
pub open spec fn reply_action_spec(
    expected: Seq<u8>,
    attempts: Seq<Option<Vec<HandshakeFrame>>>,
) -> ReplyAction {
    match first_hello_of_attempts(attempts) {
        None => ReplyAction::Ignore,
        Some(f) => hello_action(expected, f),
    }
}

/// Replay determinism: the action taken — and with it every input to the
/// shared-secret derivation — depends only on the first `ServerHello` frame
/// and the expected key. Two replies whose decryption attempts yield the
/// same first `ServerHello` decide identically, no matter which receive key
/// of the rotating set produced it or in which position.
pub proof fn lemma_replay_determinism(
    expected: Seq<u8>,
    attempts1: Seq<Option<Vec<HandshakeFrame>>>,
    attempts2: Seq<Option<Vec<HandshakeFrame>>>,
)
    requires
        first_hello_of_attempts(attempts1) == first_hello_of_attempts(attempts2),
    ensures
        reply_action_spec(expected, attempts1) == reply_action_spec(expected, attempts2),
{
}

/// Finds the first `ServerHello` in one decrypted frame list.
fn find_hello(frames: &Vec<HandshakeFrame>) -> (r: Option<usize>)
    ensures
        match r {
            Some(i) => 0 <= i < frames@.len() && frames@[i as int] is ServerHello && first_hello(
                frames@,
            ) == Some(frames@[i as int]),
            None => first_hello(frames@) is None,
        },
{
    let n = frames.len();
    let mut i: usize = 0;
    proof {
        assert(frames@.skip(0) =~= frames@);
    }
    while i < n
        invariant
            n == frames@.len(),
            0 <= i <= n,
            first_hello(frames@) == first_hello(frames@.skip(i as int)),
        decreases n - i,
    {
        let is_hello = match &frames[i] {
            HandshakeFrame::ServerHello { .. } => true,
            _ => false,
        };
        proof {
            assert(frames@.skip(i as int)[0] == frames@[i as int]);
            assert(frames@.skip(i as int).skip(1) =~= frames@.skip(i as int + 1));
        }
        if is_hello {
            return Some(i);
        }
        i += 1;
    }
    None
}

/// Whether two actions agree, comparing their byte strings by content.
pub open spec fn action_matches(a: ReplyAction, b: ReplyAction) -> bool {
    match (a, b) {
        (ReplyAction::Ignore, ReplyAction::Ignore) => true,
        (ReplyAction::Refuse, ReplyAction::Refuse) => true,
        (
            ReplyAction::Accept { server_long_pk: a1, server_eph_pk: a2, resume_token: a3 },
            ReplyAction::Accept { server_long_pk: b1, server_eph_pk: b2, resume_token: b3 },
        ) => a1@ == b1@ && a2@ == b2@ && a3@ == b3@,
        _ => false,
    }
}

/// Decides what to do with one received datagram: `attempts` holds, for
/// each receive key in rotation order, the frames it decrypted the
/// datagram to (`None` for a key that failed). The first `ServerHello`
/// found decides; a reply without one is ignored, a hello under the wrong
/// long-term key refuses the connection, and a matching hello is accepted
/// with its key material and resumption token.
pub fn process_reply(expected_pk: &Vec<u8>, attempts: &Vec<Option<Vec<HandshakeFrame>>>) -> (act:
    ReplyAction)
    ensures
        action_matches(act, reply_action_spec(expected_pk@, attempts@)),
{
    let n = attempts.len();
    let mut ki: usize = 0;
    proof {
        assert(attempts@.skip(0) =~= attempts@);
    }
    while ki < n
        invariant
            n == attempts@.len(),
            0 <= ki <= n,
            first_hello_of_attempts(attempts@) == first_hello_of_attempts(
                attempts@.skip(ki as int),
            ),
        decreases n - ki,
    {
        proof {
            assert(attempts@.skip(ki as int)[0] == attempts@[ki as int]);
            assert(attempts@.skip(ki as int).skip(1) =~= attempts@.skip(ki as int + 1));
        }
        match &attempts[ki] {
            None => {},
            Some(frames) => {
                match find_hello(frames) {
                    None => {},
                    Some(fi) => {
                        proof {
                            assert(first_hello_of_attempts(attempts@) == Some(
                                frames@[fi as int],
                            ));
                        }
                        match &frames[fi] {
                            HandshakeFrame::ServerHello { long_pk, eph_pk, resume_token } => {
                                if token_eq(long_pk, expected_pk) {
                                    return ReplyAction::Accept {
                                        server_long_pk: crate::types::token_clone(long_pk),
                                        server_eph_pk: crate::types::token_clone(eph_pk),
                                        resume_token: crate::types::token_clone(resume_token),
                                    };
                                } else {
                                    return ReplyAction::Refuse;
                                }
                            },
                            _ => {
                                proof {
                                    assert(false);
                                }
                            },
                        }
                    },
                }
            },
        }
        ki += 1;
    }
    ReplyAction::Ignore
}

/// How many whole seconds attempt `attempt` (0-indexed) waits for a reply
/// before resending: `2^attempt`, doubling without upper bound. The machine
/// bound on the wait caps the attempts that can be computed here.
pub open spec fn pow2(n: nat) -> nat
    decreases n,
{
    if n == 0 {
        1
    } else {
        2 * pow2((n - 1) as nat)
    }
}

/// Each backoff doubles the one before it, starting from one second; in
/// particular the waits grow strictly and without bound.
pub proof fn lemma_backoff_doubles(i: nat)
    ensures
        pow2(0) == 1,
        pow2(i + 1) == 2 * pow2(i),
        pow2(i) >= 1,
        pow2(i + 1) > pow2(i),
    decreases i,
{
    if i > 0 {
        lemma_backoff_doubles((i - 1) as nat);
    }
}

/// Backoff never shrinks across attempts.
pub proof fn lemma_backoff_monotone(i: nat, j: nat)
    requires
        i <= j,
    ensures
        pow2(i) <= pow2(j),
    decreases j,
{
    if i < j {
        lemma_backoff_monotone(i, (j - 1) as nat);
        lemma_backoff_doubles((j - 1) as nat);
    }
}

/// The timeout of handshake attempt `attempt`, in seconds: `2^attempt`.
pub fn backoff_secs(attempt: u32) -> (r: u64)
    requires
        attempt < 64,
    ensures
        r == pow2(attempt as nat),
{
    proof {
        reveal_with_fuel(pow2, 65);
        assert(pow2(63) == 0x8000000000000000);
    }
    let mut r: u64 = 1;
    let mut i: u32 = 0;
    while i < attempt
        invariant
            0 <= i <= attempt < 64,
            r == pow2(i as nat),
            pow2(63) == 0x8000000000000000,
        decreases attempt - i,
    {
        proof {
            lemma_backoff_monotone(i as nat + 1, 63);
            lemma_backoff_doubles(i as nat);
        }
        r = r * 2;
        i += 1;
    }
    r
}

} // verus!
