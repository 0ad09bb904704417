//! Identity primitives: keys, detached signatures, instance ids and clocks.
//!
//! Everything here is a thin door to an outside library; the engine treats
//! the signature scheme as a black box that answers yes or no.
use sodiumoxide::crypto::sign;
use vstd::prelude::*;

verus! {

/// An author's public key, as the bytes of an Ed25519 key.
pub type UserPubKey = Vec<u8>;

/// A detached Ed25519 signature, as its bytes.
pub type Signature = Vec<u8>;

/// The 128-bit identifier of one replicated instance.
pub type Id = u128;

/// An author's Ed25519 secret key, as its 64 bytes: the seed, then the
/// public key of that seed.
pub type UserSecKey = Vec<u8>;

/// A wall-clock reading, as a duration since the Unix epoch.
#[derive(Clone, Copy, Debug, PartialEq, Eq, Structural, Hash)]
pub struct Time {
    pub secs: u64,
    pub nanos: u32,
}

impl View for Time {
    type V = Time;

    open spec fn view(&self) -> Time {
        *self
    }
}

/// Whether `sig` is a signature of `msg` under the key `pk`.
pub uninterp spec fn signature_valid(sig: Seq<u8>, msg: Seq<u8>, pk: Seq<u8>) -> bool;

/// The Ed25519 signature of `msg` made with the 64 secret-key bytes `sk`.
pub uninterp spec fn ed25519_signature(msg: Seq<u8>, sk: Seq<u8>) -> Seq<u8>;

/// The Ed25519 public key that the 32-byte seed `seed` stands for.
pub uninterp spec fn seed_public_key(seed: Seq<u8>) -> Seq<u8>;

/// Whether 64 secret-key bytes are a real keypair in the layout that
/// libsodium uses: a seed followed by the public key of that seed.
pub open spec fn is_keypair(sk: Seq<u8>) -> bool {
    &&& sk.len() == 64
    &&& sk.subrange(32, 64) == seed_public_key(sk.subrange(0, 32))
}

/// Relies on sodiumoxide's `sign::keypair_from_seed`: the 32-byte public
/// key of the keypair that a 32-byte seed stands for.
#[verifier::external_body]
pub(crate) fn public_key_of_seed(seed: &Vec<u8>) -> (r: UserPubKey)
    requires
        seed@.len() == 32,
    ensures
        r@ == seed_public_key(seed@),
        r@.len() == 32,
{
    match sign::Seed::from_slice(seed) {
        Some(seed) => (sign::keypair_from_seed(&seed).0).0.to_vec(),
        None => Vec::new(),
    }
}

/// Relies on sodiumoxide's `sign::sign_detached`: the Ed25519 signature of
/// `msg`, 64 bytes long, which depends on the message and the key alone.
/// Made with a real keypair (a seed followed by its public key), it
/// verifies under that public key, the last 32 bytes of `sk`.
#[verifier::external_body]
pub(crate) fn sign_detached(msg: &Vec<u8>, sk: &Vec<u8>) -> (r: Signature)
    requires
        sk@.len() == 64,
    ensures
        r@ == ed25519_signature(msg@, sk@),
        r@.len() == 64,
        sk@.subrange(32, 64) == seed_public_key(sk@.subrange(0, 32)) ==> signature_valid(
            r@,
            msg@,
            sk@.subrange(32, 64),
        ),
{
    match sign::SecretKey::from_slice(sk) {
        Some(key) => sign::sign_detached(msg, &key).to_bytes().to_vec(),
        None => Vec::new(),
    }
}

/// Relies on sodiumoxide's `sign::verify_detached`: its answer depends on the
/// signature, the message and the key alone. Bytes that do not form a key or
/// a signature verify nothing.
#[verifier::external_body]
pub(crate) fn verify_detached(sig: &Vec<u8>, msg: &Vec<u8>, pk: &Vec<u8>) -> (r: bool)
    ensures
        r == signature_valid(sig@, msg@, pk@),
{
    match (sign::PublicKey::from_slice(pk), sign::Signature::from_bytes(sig)) {
        (Some(pk), Ok(sig)) => sign::verify_detached(&sig, msg, &pk),
        _ => false,
    }
}

/// Relies on uuid's `Uuid::new_v4`: a fresh random identifier.
#[verifier::external_body]
pub fn get_random_id() -> Id {
    uuid::Uuid::new_v4().as_u128()
}

/// Relies on std's `SystemTime::elapsed`, asked of the Unix epoch: the time
/// since the epoch, whose sub-second part is below one billion nanoseconds,
/// or nothing when the clock reads earlier than the epoch.
#[verifier::external_body]
fn system_time() -> (r: Option<Time>)
    ensures
        r matches Some(t) ==> t.nanos < 1_000_000_000,
{
    match std::time::UNIX_EPOCH.elapsed() {
        Ok(d) => Some(Time { secs: d.as_secs(), nanos: d.subsec_nanos() }),
        Err(_) => None,
    }
}

/// The current wall-clock time; a clock set before the epoch reads as the
/// epoch itself. The time only informs: nothing orders by it.
pub fn now() -> (r: Time)
    ensures
        r.nanos < 1_000_000_000,
{
    match system_time() {
        Some(t) => t,
        None => Time { secs: 0, nanos: 0 },
    }
}

} // verus!
