use vstd::prelude::*;

verus! {

/// The result of the X25519 function on a 32-byte scalar and a 32-byte
/// point: a function of its two arguments alone.
pub uninterp spec fn x25519_of(k: Seq<u8>, u: Seq<u8>) -> Seq<u8>;

/// Relies on x25519_dalek::x25519: the Diffie–Hellman function of RFC 7748
/// on two 32-byte strings; deterministic in its inputs, returns 32 bytes.
#[verifier::external_body]
pub(crate) fn x25519_shared(k: &[u8; 32], u: &[u8; 32]) -> (r: [u8; 32])
    ensures
        r@ == x25519_of(k@, u@),
{
    x25519_dalek::x25519(*k, *u)
}

/// The standard X25519 basepoint (u = 9).
pub const X25519_BASEPOINT: [u8; 32] = [
    9,
    0,
    0,
    0,
    0,
    0,
    0,
    0,
    0,
    0,
    0,
    0,
    0,
    0,
    0,
    0,
    0,
    0,
    0,
    0,
    0,
    0,
    0,
    0,
    0,
    0,
    0,
    0,
    0,
    0,
    0,
    0,
];

/// Relies on rand::rngs::ThreadRng through rand_core::RngCore::fill_bytes:
/// fills the buffer with random bytes. Nothing can be promised of random
/// values.
#[verifier::external_body]
fn random_bytes_32() -> (r: [u8; 32])
{
    let mut b = [0u8; 32];
    rand::RngCore::fill_bytes(&mut rand::thread_rng(), &mut b);
    b
}

/// One endpoint's handshake key material: a long-term and an ephemeral
/// secret scalar, generated fresh for one connection attempt, with their
/// X25519 public keys.
pub struct Identity {
    pub long_sk: [u8; 32],
    pub long_pk: [u8; 32],
    pub eph_sk: [u8; 32],
    pub eph_pk: [u8; 32],
}

impl Identity {
    /// Each public key is the X25519 image of its secret over the
    /// basepoint.
    pub open spec fn wf(self) -> bool {
        &&& self.long_pk@ == x25519_of(self.long_sk@, X25519_BASEPOINT@)
        &&& self.eph_pk@ == x25519_of(self.eph_sk@, X25519_BASEPOINT@)
    }

    /// Draws fresh key material for one connection attempt.
    pub fn fresh() -> (id: Identity)
        ensures
            id.wf(),
    {
        let long_sk = random_bytes_32();
        let eph_sk = random_bytes_32();
        let long_pk = x25519_shared(&long_sk, &X25519_BASEPOINT);
        let eph_pk = x25519_shared(&eph_sk, &X25519_BASEPOINT);
        Identity { long_sk, long_pk, eph_sk, eph_pk }
    }
}

} // verus!
