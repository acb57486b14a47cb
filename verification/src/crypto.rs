//! Settler identity: one secp256k1 key pair per player.
//!
//! The same key signs lockstep frames (BIP-340 Schnorr over a tagged hash) and the Nostr
//! events that peers find each other with. The curve, the hash and the cipher come from
//! outside crates; what is proved here is everything that is done around them.

use crate::ser::{concat_assoc, key_of, le, put_all, W};
use crate::text::{chars_of, digit_of, digit_value, hex, hex_digit, push_hex, trim, trim_bounds};
use chacha20poly1305::aead::{Aead, KeyInit};
use k256::schnorr::signature::hazmat::PrehashVerifier;
use sha2::Digest;
use std::hash::BuildHasher;
use vstd::prelude::*;

verus! {

/// 32-byte x-only public key: a settler's identity, a Nostr pubkey.
pub type PubKey = [u8; 32];

pub const ZERO_KEY: PubKey = [0, 0, 0, 0, 0, 0, 0, 0, 0, 0, 0, 0, 0, 0, 0, 0, 0, 0, 0, 0, 0, 0, 0, 0, 0, 0, 0, 0, 0, 0, 0, 0];

/// The longest text one nonce can encrypt, in bytes: the cipher counts 64-byte blocks in 32
/// bits, the first block is the authenticator's, and the last is never used.
pub const AEAD_MAX: u64 = 0x3F_FFFF_FF80;

// ----------------------------------------------------------------------
// The outside crates
// ----------------------------------------------------------------------

/// The SHA-256 digest of `data`.
pub uninterp spec fn sha256_of(data: Seq<u8>) -> Seq<u8>;

/// The key pair of a secret: the secret whose public point has an even y, and that point's x.
/// Nothing for a secret outside the curve's range.
pub uninterp spec fn keypair_of(secret: Seq<u8>) -> Option<(Seq<u8>, Seq<u8>)>;

/// The BIP-340 signature of `digest` by `secret` with auxiliary randomness `aux`.
pub uninterp spec fn signature_of(secret: Seq<u8>, digest: Seq<u8>, aux: Seq<u8>) -> Option<Seq<u8>>;

/// Does BIP-340 verification accept `sig` over `digest` under `pk`?
pub uninterp spec fn signature_valid(pk: Seq<u8>, digest: Seq<u8>, sig: Seq<u8>) -> bool;

/// The x-coordinate of the Diffie-Hellman point of `secret` and the encoded point `sec1`.
pub uninterp spec fn ecdh_of(secret: Seq<u8>, sec1: Seq<u8>) -> Option<Seq<u8>>;

/// The ChaCha20-Poly1305 ciphertext, tag included.
pub uninterp spec fn aead_sealed(key: Seq<u8>, nonce: Seq<u8>, plain: Seq<u8>) -> Seq<u8>;

/// The plaintext of an authentic ChaCha20-Poly1305 ciphertext.
pub uninterp spec fn aead_opened(key: Seq<u8>, nonce: Seq<u8>, ct: Seq<u8>) -> Option<Seq<u8>>;

/// `sha2::Sha256::digest`: the result is the digest of the bytes.
#[verifier::external_body]
fn sha256_digest(data: &[u8]) -> (r: [u8; 32])
    ensures
        r@ == sha256_of(data@),
{
    sha2::Sha256::digest(data).into()
}

/// `k256::schnorr::SigningKey::from_bytes`: the secret and public halves of the key that the
/// secret makes, if it makes one. The constructor negates a secret whose point has an odd y,
/// so the secret half, given again, makes the same key.
#[verifier::external_body]
fn schnorr_keypair(secret: &[u8; 32]) -> (r: Option<([u8; 32], [u8; 32])>)
    ensures
        r is Some <==> keypair_of(secret@) is Some,
        r matches Some(kp) ==> keypair_of(secret@) == Some((kp.0@, kp.1@)),
        r matches Some(kp) ==> keypair_of(kp.0@) == Some((kp.0@, kp.1@)),
{
    let sk = k256::schnorr::SigningKey::from_bytes(secret).ok()?;
    Some((sk.to_bytes().into(), sk.verifying_key().to_bytes().into()))
}

/// `k256::schnorr::SigningKey::sign_raw`: the signature, unless the derived nonce or the
/// result is zero or out of range. Verification under the secret's public key accepts it.
#[verifier::external_body]
fn schnorr_sign(secret: &[u8; 32], digest: &[u8; 32], aux: &[u8; 32]) -> (r: Option<[u8; 64]>)
    ensures
        r is Some <==> signature_of(secret@, digest@, aux@) is Some,
        r matches Some(sig) ==> signature_of(secret@, digest@, aux@) == Some(sig@),
        r matches Some(sig) ==> keypair_of(secret@) is Some && signature_valid(
            (keypair_of(secret@)->0).1,
            digest@,
            sig@,
        ),
{
    let sk = k256::schnorr::SigningKey::from_bytes(secret).ok()?;
    Some(sk.sign_raw(digest, aux).ok()?.to_bytes())
}

/// `k256::schnorr::VerifyingKey::verify_prehash`, with the key and the signature parsed from
/// their bytes; bytes that do not parse do not verify.
#[verifier::external_body]
fn schnorr_verify(pk: &[u8; 32], digest: &[u8; 32], sig: &[u8; 64]) -> (r: bool)
    ensures
        r == signature_valid(pk@, digest@, sig@),
{
    match (k256::schnorr::VerifyingKey::from_bytes(pk), k256::schnorr::Signature::try_from(sig.as_slice())) {
        (Ok(vk), Ok(s)) => vk.verify_prehash(digest, &s).is_ok(),
        _ => false,
    }
}

/// `k256::ecdh::diffie_hellman` on a secret scalar and a SEC1-encoded point, if both parse.
/// Two parties with key pairs reach the same x-coordinate from either side, and a party
/// always reaches one with the compressed point of a key pair's public half.
#[verifier::external_body]
fn ecdh(secret: &[u8; 32], sec1: &[u8; 33]) -> (r: Option<[u8; 32]>)
    ensures
        r is Some <==> ecdh_of(secret@, sec1@) is Some,
        r matches Some(x) ==> ecdh_of(secret@, sec1@) == Some(x@),
        forall|pa: Seq<u8>, b: Seq<u8>, pb: Seq<u8>|
            #[trigger] is_pair(secret@, pa) && #[trigger] is_pair(b, pb) && sec1@ == compressed(pb) ==> r is Some && ecdh_of(b, compressed(pa)) == Some(r->0@),
{
    let sk = k256::SecretKey::from_slice(secret).ok()?;
    let pk = k256::PublicKey::from_sec1_bytes(sec1).ok()?;
    let shared = k256::ecdh::diffie_hellman(sk.to_nonzero_scalar(), pk.as_affine());
    Some((*shared.raw_secret_bytes()).into())
}

/// `ChaCha20Poly1305::encrypt`: the ciphertext, sixteen bytes longer than the plaintext. It
/// decrypts to the plaintext under the same key and nonce.
#[verifier::external_body]
fn aead_encrypt(key: &[u8; 32], nonce: &[u8; 12], plain: &[u8]) -> (r: Vec<u8>)
    requires
        plain@.len() <= AEAD_MAX,
    ensures
        r@ == aead_sealed(key@, nonce@, plain@),
        r@.len() == plain@.len() + 16,
        aead_opened(key@, nonce@, r@) == Some(plain@),
{
    let cipher = chacha20poly1305::ChaCha20Poly1305::new(chacha20poly1305::Key::from_slice(key));
    cipher.encrypt(chacha20poly1305::Nonce::from_slice(nonce), plain).expect("aead encrypt")
}

/// `ChaCha20Poly1305::decrypt`: the plaintext, sixteen bytes shorter than the ciphertext, if
/// the authentication tag matches.
#[verifier::external_body]
fn aead_decrypt(key: &[u8; 32], nonce: &[u8; 12], ct: &[u8]) -> (r: Option<Vec<u8>>)
    requires
        ct@.len() <= AEAD_MAX + 16,
    ensures
        r is Some <==> aead_opened(key@, nonce@, ct@) is Some,
        r matches Some(plain) ==> aead_opened(key@, nonce@, ct@) == Some(plain@),
        r matches Some(plain) ==> plain@.len() + 16 == ct@.len(),
{
    let cipher = chacha20poly1305::ChaCha20Poly1305::new(chacha20poly1305::Key::from_slice(key));
    cipher.decrypt(chacha20poly1305::Nonce::from_slice(nonce), ct).ok()
}

/// `getrandom::getrandom`: `n` bytes of the system's randomness, if it has any to give.
#[verifier::external_body]
fn os_random(n: usize) -> (r: Option<Vec<u8>>)
    ensures
        r matches Some(v) ==> v@.len() == n,
{
    let mut v = vec![0u8; n];
    getrandom::getrandom(&mut v).ok()?;
    Some(v)
}

/// `RandomState::new`: a hasher that the process seeds.
#[verifier::external_body]
fn random_state() -> (r: std::collections::hash_map::RandomState) {
    std::collections::hash_map::RandomState::new()
}

/// `BuildHasher::hash_one`: some number that the hasher's seed decides.
#[verifier::external_body]
fn hash_one(s: &std::collections::hash_map::RandomState, i: u64) -> (r: u64) {
    s.hash_one(i)
}

/// A number that a hasher of the process was seeded with.
fn hasher_seed(i: u64) -> (r: u64) {
    hash_one(&random_state(), i)
}

/// `std::time::SystemTime`, a reading of the wall clock.
#[verifier::external_type_specification]
#[verifier::external_body]
pub struct ExSystemTime(std::time::SystemTime);

/// `SystemTime::now`: the wall clock's reading.
#[verifier::external_body]
fn clock() -> (r: std::time::SystemTime) {
    std::time::SystemTime::now()
}

/// `SystemTime::duration_since`: the time since the Unix epoch; nothing if the reading is before
/// it.
#[verifier::external_body]
fn since_epoch(t: &std::time::SystemTime) -> (r: Option<std::time::Duration>) {
    t.duration_since(std::time::UNIX_EPOCH).ok()
}

/// `Duration::as_nanos`: the nanoseconds of a span.
#[verifier::external_body]
fn nanos_in(d: &std::time::Duration) -> (r: u128) {
    d.as_nanos()
}

/// The wall clock as nanoseconds since the Unix epoch; nothing if it is before it.
pub(crate) fn unix_nanos() -> (r: Option<u128>) {
    match since_epoch(&clock()) {
        Some(d) => Some(nanos_in(&d)),
        None => None,
    }
}

// ----------------------------------------------------------------------
// Entropy & wall time
// ----------------------------------------------------------------------

/// The hash input of the fallback entropy pool: the seeds, then the clock.
pub open spec fn pool_of(seeds: Seq<u64>, nanos: Option<u128>) -> Seq<u8> {
    put_all(seeds, |x: u64| le(x as nat, 8)) + match nanos {
        Some(n) => le((n as nat) % 0x1_0000_0000_0000_0000, 8) + le((n as nat) / 0x1_0000_0000_0000_0000, 8),
        None => Seq::empty(),
    }
}

/// A block of entropy and the digests that follow from it, one after the other, cut to `n` bytes.
pub open spec fn stretched(block: Seq<u8>, n: nat) -> Seq<u8>
    decreases n,
{
    if n <= 32 {
        block.take(n as int)
    } else {
        block + stretched(sha256_of(block), (n - 32) as nat)
    }
}

/// Lay out the fallback entropy pool.
pub fn entropy_pool(seeds: &Vec<u64>, nanos: Option<u128>) -> (r: Vec<u8>)
    ensures
        r@ == pool_of(seeds@, nanos),
{
    let ghost put = |x: u64| le(x as nat, 8);
    let mut w = W::new();
    let mut i: usize = 0;
    proof {
        assert(seeds@.skip(0) =~= seeds@);
        assert(w@ + put_all(seeds@, put) =~= put_all(seeds@, put));
    }
    while i < seeds.len()
        invariant
            i <= seeds@.len(),
            put == (|x: u64| le(x as nat, 8)),
            w@ + put_all(seeds@.skip(i as int), put) == put_all(seeds@, put),
        decreases seeds@.len() - i,
    {
        let ghost before = w@;
        w.u64(seeds[i]);
        proof {
            let rest = seeds@.skip(i as int);
            assert(rest.drop_first() =~= seeds@.skip(i + 1));
            concat_assoc(before, le(seeds@[i as int] as nat, 8), put_all(seeds@.skip(i + 1), put));
        }
        i = i + 1;
    }
    proof {
        assert(w@ + put_all(seeds@.skip(i as int), put) =~= w@);
    }
    match nanos {
        Some(n) => {
            let ghost before = w@;
            w.u64((n % 0x1_0000_0000_0000_0000) as u64);
            w.u64((n / 0x1_0000_0000_0000_0000) as u64);
            proof {
                assert(w@ =~= pool_of(seeds@, nanos));
            }
        },
        None => {
            proof {
                assert(w@ =~= pool_of(seeds@, nanos));
            }
        },
    }
    w.buf
}

/// Stretch an entropy pool to `n` bytes through SHA-256.
pub fn stretch_entropy(pool: &[u8], n: usize) -> (r: Vec<u8>)
    ensures
        r@ == stretched(sha256_of(pool@), n as nat),
        r@.len() == n,
{
    let mut block: [u8; 32] = sha256_digest(pool);
    let mut w = W::new();
    let mut left: usize = n;
    proof {
        assert(w@ + stretched(block@, n as nat) =~= stretched(block@, n as nat));
    }
    while left > 32
        invariant
            w@ + stretched(block@, left as nat) == stretched(sha256_of(pool@), n as nat),
            w@.len() + left == n,
        decreases left,
    {
        let ghost before = w@;
        let next: [u8; 32] = sha256_digest(block.as_slice());
        w.arr32(&block);
        proof {
            concat_assoc(before, block@, stretched(next@, (left - 32) as nat));
        }
        block = next;
        left = left - 32;
    }
    w.raw(vstd::slice::slice_subrange(block.as_slice(), 0, left));
    w.buf
}

/// The random bytes that come of what the machine gave: the system's own where it has any to
/// give, else the hasher seeds and the clock, stretched through SHA-256.
pub open spec fn random_of(system: Option<Seq<u8>>, seeds: Seq<u64>, nanos: Option<u128>, n: nat) -> Seq<u8> {
    match system {
        Some(bytes) => bytes,
        None => stretched(sha256_of(pool_of(seeds, nanos)), n),
    }
}

/// The random bytes that come of what the machine gave.
pub fn random_bytes(system: Option<Vec<u8>>, seeds: &Vec<u64>, nanos: Option<u128>, n: usize) -> (r: Vec<u8>)
    requires
        system matches Some(v) ==> v@.len() == n,
    ensures
        r@ == random_of(
            match system {
                Some(v) => Some(v@),
                None => None,
            },
            seeds@,
            nanos,
            n as nat,
        ),
        r@.len() == n,
{
    match system {
        Some(v) => v,
        None => {
            let pool: Vec<u8> = entropy_pool(seeds, nanos);
            stretch_entropy(pool.as_slice(), n)
        },
    }
}

/// Eight numbers that the process' hashers were seeded with.
fn hasher_seeds() -> (r: Vec<u64>)
    ensures
        r@.len() == 8,
{
    let mut seeds: Vec<u64> = Vec::new();
    let mut i: u64 = 0;
    while i < 8
        invariant
            i <= 8,
            seeds@.len() == i,
        decreases 8 - i,
    {
        seeds.push(hasher_seed(i));
        i = i + 1;
    }
    seeds
}

/// Random bytes for `buf`: the system's, or else the hasher seeds and the clock stretched
/// through SHA-256, which is weaker and only reached where the system has none to give. Which
/// bytes come is chance; `random_bytes` says what becomes of each outcome.
pub fn fill_random(buf: &mut Vec<u8>)
    ensures
        final(buf)@.len() == old(buf)@.len(),
        exists|system: Option<Seq<u8>>, seeds: Seq<u64>, nanos: Option<u128>|
            (system is None ==> seeds.len() == 8) && final(buf)@ == #[trigger] random_of(
                system,
                seeds,
                nanos,
                old(buf)@.len(),
            ),
{
    let n: usize = buf.len();
    let system: Option<Vec<u8>> = os_random(n);
    if system.is_some() {
        *buf = random_bytes(system, &Vec::new(), None, n);
    } else {
        let seeds: Vec<u64> = hasher_seeds();
        let nanos: Option<u128> = unix_nanos();
        *buf = random_bytes(None, &seeds, nanos, n);
        proof {
            assert(buf@ == random_of(None, seeds@, nanos, n as nat));
        }
    }
}

fn random32() -> (r: [u8; 32]) {
    let mut v: Vec<u8> = vec![0u8; 32];
    fill_random(&mut v);
    key_of(v.as_slice())
}

/// Milliseconds of a count of nanoseconds, in 64 bits; zero for a clock before the epoch.
pub open spec fn millis(nanos: Option<u128>) -> nat {
    match nanos {
        Some(n) => ((n as nat) / 1_000_000) % 0x1_0000_0000_0000_0000,
        None => 0,
    }
}

/// Milliseconds of a count of nanoseconds, in 64 bits; zero for a clock before the epoch.
pub fn millis_of(nanos: Option<u128>) -> (r: u64)
    ensures
        r as nat == millis(nanos),
{
    match nanos {
        Some(n) => ((n / 1_000_000) % 0x1_0000_0000_0000_0000) as u64,
        None => 0,
    }
}

/// Milliseconds since the Unix epoch: the baseline of sequence numbers and of Nostr's
/// `created_at`. Wall time never feeds the simulation.
pub fn unix_millis() -> (r: u64)
    ensures
        exists|nanos: Option<u128>| r as nat == #[trigger] millis(nanos),
{
    millis_of(unix_nanos())
}

// ----------------------------------------------------------------------
// Hashing
// ----------------------------------------------------------------------

/// The parts, one after the other.
pub open spec fn joined(parts: Seq<Seq<u8>>) -> Seq<u8>
    decreases parts.len(),
{
    if parts.len() == 0 {
        Seq::empty()
    } else {
        joined(parts.drop_last()) + parts.last()
    }
}

/// The parts of a list of slices, by their bytes.
pub open spec fn parts_of(parts: Seq<&[u8]>) -> Seq<Seq<u8>> {
    Seq::new(parts.len(), |i: int| parts[i]@)
}

/// Domain-separated hash: the tag's digest twice, then the data.
pub open spec fn tagged_of(tag: Seq<char>, data: Seq<u8>) -> Seq<u8> {
    let t = sha256_of(vstd::utf8::encode_utf8(tag));
    sha256_of(t + t + data)
}

fn join_parts(w: &mut W, parts: &[&[u8]])
    ensures
        final(w)@ == old(w)@ + joined(parts_of(parts@)),
{
    let ghost all = parts_of(parts@);
    let mut i: usize = 0;
    proof {
        assert(old(w)@ + joined(all.take(0)) =~= old(w)@);
    }
    while i < parts.len()
        invariant
            i <= parts@.len(),
            all == parts_of(parts@),
            w@ == old(w)@ + joined(all.take(i as int)),
        decreases parts@.len() - i,
    {
        let ghost before = w@;
        w.raw(parts[i]);
        proof {
            assert(all.take(i + 1).drop_last() =~= all.take(i as int));
            assert(all.take(i + 1).last() == parts@[i as int]@);
            concat_assoc(old(w)@, joined(all.take(i as int)), parts@[i as int]@);
        }
        i = i + 1;
    }
    proof {
        assert(all.take(i as int) =~= all);
    }
}

/// SHA-256 of the parts in a row.
pub fn sha256(parts: &[&[u8]]) -> (r: [u8; 32])
    ensures
        r@ == sha256_of(joined(parts_of(parts@))),
{
    let mut w = W::new();
    join_parts(&mut w, parts);
    proof {
        assert(w@ =~= joined(parts_of(parts@)));
    }
    sha256_digest(w.buf.as_slice())
}

/// BIP-340 style domain-separated hash: sha256(sha256(tag) ‖ sha256(tag) ‖ data).
pub fn tagged_hash(tag: &str, parts: &[&[u8]]) -> (r: [u8; 32])
    ensures
        r@ == tagged_of(tag@, joined(parts_of(parts@))),
{
    let t: [u8; 32] = sha256_digest(tag.as_bytes());
    let mut w = W::new();
    w.arr32(&t);
    w.arr32(&t);
    let ghost head = w@;
    join_parts(&mut w, parts);
    proof {
        assert(head =~= t@ + t@);
    }
    sha256_digest(w.buf.as_slice())
}

// ----------------------------------------------------------------------
// Identity
// ----------------------------------------------------------------------

/// How often a secret is rolled: more often than any machine lives to see.
pub const ROLLS: u64 = 0xFFFF_FFFF_FFFF_FFFF;

/// Do secrets that were rolled one after the other lead to `r`? The first one that makes a key
/// is taken, and nothing is rolled after it; nothing comes of `ROLLS` rolls of which none does.
pub open spec fn minted(rolls: Seq<Seq<u8>>, r: Option<Identity>) -> bool {
    &&& 0 < rolls.len() <= ROLLS
    &&& forall|i: int| 0 <= i < rolls.len() ==> (#[trigger] rolls[i]).len() == 32
    &&& forall|i: int| 0 <= i < rolls.len() - 1 ==> keypair_of(#[trigger] rolls[i]) is None
    &&& match r {
        Some(id) => keypair_of(rolls.last()) == Some((id.secret(), id.public())),
        None => rolls.len() == ROLLS && keypair_of(rolls.last()) is None,
    }
}

/// A secret key, whose bytes only `Identity::secret_bytes` hands out.
#[derive(Clone, Copy)]
pub struct Secret {
    bytes: [u8; 32],
}

#[derive(Clone)]
pub struct Identity {
    pub sk: Secret,
    pub pk: PubKey,
}

impl Identity {
    /// The secret half, which signs.
    pub closed spec fn secret(&self) -> Seq<u8> {
        self.sk.bytes@
    }

    /// The public half, which the world knows the settler by.
    pub open spec fn public(&self) -> Seq<u8> {
        self.pk@
    }

    /// Does the public half belong to the secret half?
    pub open spec fn wf(&self) -> bool {
        is_pair(self.secret(), self.public())
    }

    /// A copy of the identity.
    pub fn dup(&self) -> (r: Identity)
        ensures
            r == *self,
    {
        Identity { sk: self.sk, pk: self.pk }
    }

    pub fn public_key(&self) -> (r: PubKey)
        ensures
            r@ == self.public(),
    {
        self.pk
    }

    /// Mint an identity from fresh randomness. A secret out of the curve's range (one in
    /// 2^128) is rolled again, until one is usable (or `ROLLS` rolls were made).
    pub fn generate() -> (r: Option<Identity>)
        ensures
            r matches Some(id) ==> id.wf(),
            exists|rolls: Seq<Seq<u8>>| #[trigger] minted(rolls, r),
    {
        let mut count: u64 = 0;
        let ghost mut rolls: Seq<Seq<u8>> = Seq::empty();
        while count < ROLLS
            invariant
                count <= ROLLS,
                rolls.len() == count,
                forall|i: int| 0 <= i < rolls.len() ==> (#[trigger] rolls[i]).len() == 32,
                forall|i: int| 0 <= i < rolls.len() ==> keypair_of(#[trigger] rolls[i]) is None,
            decreases ROLLS - count,
        {
            let secret: [u8; 32] = random32();
            let id: Option<Identity> = Identity::from_secret(&secret);
            proof {
                rolls = rolls.push(secret@);
                assert(rolls.last() == secret@);
            }
            if id.is_some() {
                proof {
                    assert(minted(rolls, id));
                }
                return id;
            }
            count = count + 1;
        }
        let none: Option<Identity> = None;
        proof {
            assert(minted(rolls, none));
        }
        none
    }

    pub fn from_secret(secret: &[u8; 32]) -> (r: Option<Identity>)
        ensures
            r is Some <==> keypair_of(secret@) is Some,
            r matches Some(id) ==> keypair_of(secret@) == Some((id.secret(), id.public())) && id.wf(),
    {
        match schnorr_keypair(secret) {
            Some(kp) => Some(Identity { sk: Secret { bytes: kp.0 }, pk: kp.1 }),
            None => None,
        }
    }

    /// The identity in a key file: exactly the thirty-two bytes of a usable secret.
    pub fn from_saved(bytes: &[u8]) -> (r: Option<Identity>)
        ensures
            r is Some <==> bytes@.len() == 32 && keypair_of(bytes@) is Some,
            r matches Some(id) ==> keypair_of(bytes@) == Some((id.secret(), id.public())) && id.wf(),
    {
        if bytes.len() != 32 {
            return None;
        }
        proof {
            assert(bytes@.take(32) =~= bytes@);
        }
        Identity::from_secret(&key_of(bytes))
    }

    pub fn secret_bytes(&self) -> (r: [u8; 32])
        ensures
            r@ == self.secret(),
    {
        self.sk.bytes
    }

    /// BIP-340 Schnorr over a 32-byte digest, with given auxiliary randomness.
    pub fn sign_with(&self, digest: &[u8; 32], aux: &[u8; 32]) -> (r: Option<[u8; 64]>)
        ensures
            r is Some <==> signature_of(self.secret(), digest@, aux@) is Some,
            r matches Some(sig) ==> signature_of(self.secret(), digest@, aux@) == Some(sig@),
            r matches Some(sig) ==> self.wf() ==> signature_valid(self.public(), digest@, sig@),
    {
        schnorr_sign(&self.sk.bytes, digest, aux)
    }

    /// BIP-340 Schnorr over a 32-byte digest, with fresh auxiliary randomness. Nothing where
    /// the curve library refuses the derived nonce, which no usable key has been seen to do.
    pub fn sign(&self, digest: &[u8; 32]) -> (r: Option<[u8; 64]>)
        ensures
            exists|aux: Seq<u8>| #[trigger] signature_by(self.secret(), digest@, aux, r),
            r matches Some(sig) ==> self.wf() ==> signature_valid(self.public(), digest@, sig@),
    {
        let aux: [u8; 32] = random32();
        let r: Option<[u8; 64]> = self.sign_with(digest, &aux);
        proof {
            assert(signature_by(self.secret(), digest@, aux@, r));
        }
        r
    }

    /// Shared secret with another x-only key: the SHA-256 of the x-coordinate of the ECDH
    /// point. An x-only key implies an even y, so its compressed point has the prefix 0x02.
    /// Both ends of a pair of identities derive the same secret.
    pub fn shared_key(&self, their_xonly: &PubKey) -> (r: Option<[u8; 32]>)
        ensures
            r is Some <==> shared_of(self.secret(), their_xonly@) is Some,
            r matches Some(k) ==> shared_of(self.secret(), their_xonly@) == Some(k@),
            forall|them: Identity| #[trigger]
                them.wf() && self.wf() && them.public() == their_xonly@ ==> r is Some && shared_of(
                    them.secret(),
                    self.public(),
                ) == Some(r->0@),
    {
        let sec1: [u8; 33] = compressed_point(their_xonly);
        match ecdh(&self.sk.bytes, &sec1) {
            Some(x) => {
                let k: [u8; 32] = sha256_digest(x.as_slice());
                Some(k)
            },
            None => None,
        }
    }

    /// Encrypt `plaintext` to `their_xonly` under a given nonce. Output is `nonce(12) ‖ ct`.
    /// The holder of the other key gets the plaintext back.
    pub fn encrypt_with(&self, their_xonly: &PubKey, nonce: &[u8; 12], plaintext: &[u8]) -> (r: Option<Vec<u8>>)
        requires
            plaintext@.len() <= AEAD_MAX,
        ensures
            r is Some <==> shared_of(self.secret(), their_xonly@) is Some,
            r matches Some(blob) ==> blob@ == nonce@ + aead_sealed(
                shared_of(self.secret(), their_xonly@)->0,
                nonce@,
                plaintext@,
            ),
            r matches Some(blob) ==> blob@.len() == plaintext@.len() + 28,
            forall|them: Identity| #[trigger]
                them.wf() && self.wf() && them.public() == their_xonly@ ==> r is Some && opened_of(
                    them.secret(),
                    self.public(),
                    r->0@,
                ) == Some(plaintext@),
    {
        match self.shared_key(their_xonly) {
            Some(key) => {
                let ct: Vec<u8> = aead_encrypt(&key, nonce, plaintext);
                let mut w = W::new();
                w.raw(nonce.as_slice());
                w.raw(ct.as_slice());
                proof {
                    let blob = w.buf@;
                    assert(blob =~= nonce@ + ct@);
                    assert(blob.take(12) =~= nonce@);
                    assert(blob.skip(12) =~= ct@);
                }
                Some(w.buf)
            },
            None => None,
        }
    }

    /// Encrypt `plaintext` to `their_xonly` under a fresh random nonce.
    pub fn encrypt_to(&self, their_xonly: &PubKey, plaintext: &[u8]) -> (r: Option<Vec<u8>>)
        requires
            plaintext@.len() <= AEAD_MAX,
        ensures
            r is Some <==> shared_of(self.secret(), their_xonly@) is Some,
            r matches Some(blob) ==> blob@.len() == plaintext@.len() + 28,
            r matches Some(blob) ==> blob@.skip(12) == aead_sealed(
                shared_of(self.secret(), their_xonly@)->0,
                blob@.take(12),
                plaintext@,
            ),
            forall|them: Identity| #[trigger]
                them.wf() && self.wf() && them.public() == their_xonly@ ==> r is Some && opened_of(
                    them.secret(),
                    self.public(),
                    r->0@,
                ) == Some(plaintext@),
    {
        let mut v: Vec<u8> = vec![0u8; 12];
        fill_random(&mut v);
        let nonce: [u8; 12] = nonce_of(v.as_slice());
        let r: Option<Vec<u8>> = self.encrypt_with(their_xonly, &nonce, plaintext);
        proof {
            if r is Some {
                let blob = r->0@;
                let ct = aead_sealed(shared_of(self.secret(), their_xonly@)->0, nonce@, plaintext@);
                assert(blob.take(12) =~= nonce@);
                assert(blob.skip(12) =~= ct);
            }
        }
        r
    }

    /// Decrypt a `nonce(12) ‖ ct` blob from `their_xonly`.
    pub fn decrypt_from(&self, their_xonly: &PubKey, blob: &[u8]) -> (r: Option<Vec<u8>>)
        requires
            blob@.len() <= AEAD_MAX + 28,
        ensures
            r is Some <==> opened_of(self.secret(), their_xonly@, blob@) is Some,
            r matches Some(plain) ==> opened_of(self.secret(), their_xonly@, blob@) == Some(plain@),
    {
        match self.shared_key(their_xonly) {
            Some(key) => {
                if blob.len() < 12 {
                    return None;
                }
                let nonce: [u8; 12] = nonce_of(blob);
                let ct: &[u8] = vstd::slice::slice_subrange(blob, 12, blob.len());
                proof {
                    assert(ct@ =~= blob@.skip(12));
                }
                aead_decrypt(&key, &nonce, ct)
            },
            None => None,
        }
    }
}

/// Are these the two halves of one key?
pub open spec fn is_pair(secret: Seq<u8>, public: Seq<u8>) -> bool {
    keypair_of(secret) == Some((secret, public))
}

/// `r` is what signing `digest` with the auxiliary randomness `aux` gives.
pub open spec fn signature_by(secret: Seq<u8>, digest: Seq<u8>, aux: Seq<u8>, r: Option<[u8; 64]>) -> bool {
    match r {
        Some(sig) => signature_of(secret, digest, aux) == Some(sig@),
        None => signature_of(secret, digest, aux) is None,
    }
}

/// The compressed encoding of the point with an even y over `x`.
pub open spec fn compressed(x: Seq<u8>) -> Seq<u8> {
    seq![2u8] + x
}

/// The key that `secret` and the holder of `their_pk` share.
pub open spec fn shared_of(secret: Seq<u8>, their_pk: Seq<u8>) -> Option<Seq<u8>> {
    match ecdh_of(secret, compressed(their_pk)) {
        Some(x) => Some(sha256_of(x)),
        None => None,
    }
}

/// What `secret` reads in a blob from the holder of `their_pk`.
pub open spec fn opened_of(secret: Seq<u8>, their_pk: Seq<u8>, blob: Seq<u8>) -> Option<Seq<u8>> {
    match shared_of(secret, their_pk) {
        Some(key) => if blob.len() < 12 {
            None
        } else {
            aead_opened(key, blob.take(12), blob.skip(12))
        },
        None => None,
    }
}

fn compressed_point(x: &PubKey) -> (r: [u8; 33])
    ensures
        r@ == compressed(x@),
{
    let mut out = [2u8; 33];
    let mut i: usize = 0;
    while i < 32
        invariant
            i <= 32,
            out@[0] == 2,
            forall|j: int| 0 <= j < i ==> out@[j + 1] == x@[j],
        decreases 32 - i,
    {
        out[i + 1] = x[i];
        i = i + 1;
    }
    proof {
        assert forall|j: int| 0 <= j < 33 implies out@[j] == compressed(x@)[j] by {
            if j > 0 {
                assert(out@[(j - 1) + 1] == x@[j - 1]);
            }
        }
        assert(out@ =~= compressed(x@));
    }
    out
}

fn nonce_of(b: &[u8]) -> (r: [u8; 12])
    requires
        b@.len() >= 12,
    ensures
        r@ == b@.take(12),
{
    let mut out = [0u8; 12];
    let mut i: usize = 0;
    while i < 12
        invariant
            i <= 12,
            b@.len() >= 12,
            forall|j: int| 0 <= j < i ==> out@[j] == b@[j],
        decreases 12 - i,
    {
        out[i] = b[i];
        i = i + 1;
    }
    proof {
        assert(out@ =~= b@.take(12));
    }
    out
}

/// Verify a BIP-340 signature over a 32-byte digest against an x-only key.
pub fn verify(pk: &PubKey, digest: &[u8; 32], sig: &[u8; 64]) -> (r: bool)
    ensures
        r == signature_valid(pk@, digest@, sig@),
{
    schnorr_verify(pk, digest, sig)
}

// ----------------------------------------------------------------------
// Hex (pubkeys travel as text in addresses and Nostr events)
// ----------------------------------------------------------------------

/// The bytes that pairs of hexadecimal digits stand for; nothing for another character or an
/// odd count.
pub open spec fn unhex(s: Seq<char>) -> Option<Seq<u8>> {
    if s.len() % 2 == 0 && forall|i: int| 0 <= i < s.len() ==> digit_value(#[trigger] s[i]) is Some {
        Some(Seq::new(s.len() / 2, |i: int| (digit_value(s[2 * i])->0 * 16 + digit_value(s[2 * i + 1])->0) as u8))
    } else {
        None
    }
}

/// Thirty-two bytes in hexadecimal, with white space around them.
pub open spec fn unhex32(s: Seq<char>) -> Option<Seq<u8>> {
    if trim(s).len() == 64 {
        unhex(trim(s))
    } else {
        None
    }
}

pub fn hex_encode(bytes: &[u8]) -> (r: String)
    ensures
        r@ == hex(bytes@),
{
    let mut s = String::new();
    push_hex(&mut s, bytes);
    proof {
        assert(s@ =~= hex(bytes@));
    }
    s
}

/// The bytes of the hexadecimal text `v[from..to]`.
pub fn hex_bytes(v: &Vec<char>, from: usize, to: usize) -> (r: Option<Vec<u8>>)
    requires
        from <= to <= v@.len(),
    ensures
        r is Some <==> unhex(v@.subrange(from as int, to as int)) is Some,
        r matches Some(b) ==> unhex(v@.subrange(from as int, to as int)) == Some(b@),
{
    let ghost s = v@.subrange(from as int, to as int);
    if (to - from) % 2 != 0 {
        return None;
    }
    let mut out: Vec<u8> = Vec::new();
    let mut i: usize = from;
    while i < to
        invariant
            from <= i <= to <= v@.len(),
            (to - from) % 2 == 0,
            (i - from) % 2 == 0,
            s == v@.subrange(from as int, to as int),
            out@.len() == (i - from) / 2,
            forall|j: int| 0 <= j < i - from ==> digit_value(#[trigger] s[j]) is Some,
            forall|j: int|
                0 <= j < out@.len() ==> #[trigger] out@[j] == (digit_value(s[2 * j])->0 * 16 + digit_value(
                    s[2 * j + 1],
                )->0) as u8,
        decreases to - i,
    {
        let hi: u8 = match digit_of(v[i]) {
            Some(d) => d,
            None => {
                proof {
                    assert(s[i - from] == v@[i as int]);
                }
                return None;
            },
        };
        let lo: u8 = match digit_of(v[i + 1]) {
            Some(d) => d,
            None => {
                proof {
                    assert(s[i + 1 - from] == v@[i + 1]);
                }
                return None;
            },
        };
        proof {
            assert(s[i - from] == v@[i as int]);
            assert(s[i + 1 - from] == v@[i + 1]);
        }
        out.push(hi * 16 + lo);
        i = i + 2;
    }
    proof {
        assert(out@ =~= unhex(s)->0);
    }
    Some(out)
}

pub fn hex_decode32(s: &str) -> (r: Option<PubKey>)
    ensures
        r is Some <==> unhex32(s@) is Some,
        r matches Some(k) ==> unhex32(s@) == Some(k@),
{
    let v: Vec<char> = chars_of(s);
    let b: (usize, usize) = trim_bounds(&v);
    if b.1 - b.0 != 64 {
        return None;
    }
    match hex_bytes(&v, b.0, b.1) {
        Some(bytes) => {
            proof {
                assert(bytes@.take(32) =~= bytes@);
            }
            Some(key_of(bytes.as_slice()))
        },
        None => None,
    }
}

/// Do two keys agree?
pub fn key_eq(a: &PubKey, b: &PubKey) -> (r: bool)
    ensures
        r == (a@ == b@),
{
    crate::text::bytes_eq(a.as_slice(), b.as_slice())
}

// ----------------------------------------------------------------------
// Laws
// ----------------------------------------------------------------------

/// Decoding the hexadecimal text of some bytes gives the bytes back.
pub proof fn hex_reads_back(b: Seq<u8>)
    ensures
        unhex(hex(b)) == Some(b),
        hex(b).len() == 2 * b.len(),
{
    let s = hex(b);
    assert forall|i: int| 0 <= i < s.len() implies digit_value(#[trigger] s[i]) is Some by {
        let d = if i % 2 == 0 {
            b[i / 2] as int / 16
        } else {
            b[i / 2] as int % 16
        };
        assert(digit_value(hex_digit(d)) == Some(d as nat));
    }
    assert forall|i: int| 0 <= i < b.len() implies #[trigger] (unhex(s)->0)[i] == b[i] by {
        let x = b[i] as int;
        assert((2 * i) / 2 == i && (2 * i + 1) / 2 == i);
        assert(s[2 * i] == hex_digit(x / 16));
        assert(s[2 * i + 1] == hex_digit(x % 16));
        assert(digit_value(hex_digit(x / 16)) == Some((x / 16) as nat));
        assert(digit_value(hex_digit(x % 16)) == Some((x % 16) as nat));
    }
    assert(unhex(s)->0 =~= b);
}

proof fn trim_keeps(s: Seq<char>)
    requires
        s.len() > 0 ==> !crate::text::is_space(s[0]) && !crate::text::is_space(s.last()),
    ensures
        trim(s) == s,
{
}

/// A key survives the trip through its hexadecimal text.
pub proof fn key_hex_reads_back(k: Seq<u8>)
    requires
        k.len() == 32,
    ensures
        unhex32(hex(k)) == Some(k),
{
    hex_reads_back(k);
    let s = hex(k);
    assert forall|i: int| 0 <= i < s.len() implies !crate::text::is_space(#[trigger] s[i]) by {
        assert(digit_value(s[i]) is Some);
    }
    trim_keeps(s);
}

} // verus!
