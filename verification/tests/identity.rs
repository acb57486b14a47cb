//! Keys, signatures and encryption, with the real curve library underneath.

use ironvein::crypto::{
    entropy_pool, fill_random, hex_decode32, hex_encode, key_eq, millis_of, random_bytes, sha256, stretch_entropy, tagged_hash,
    unix_millis, verify, Identity,
};

fn someone() -> Identity {
    Identity::generate().expect("a fresh identity")
}

#[test]
fn sign_verify_roundtrip() {
    let id = someone();
    let digest = sha256(&[b"the world is a save file"]);
    let sig = id.sign(&digest).unwrap();
    assert!(verify(&id.pk, &digest, &sig));
    // tampered digest fails
    let bad = sha256(&[b"the world is a lie"]);
    assert!(!verify(&id.pk, &bad, &sig));
    // tampered sig fails
    let mut sig2 = sig;
    sig2[10] ^= 1;
    assert!(!verify(&id.pk, &digest, &sig2));
    // wrong key fails
    let other = someone();
    assert!(!verify(&other.pk, &digest, &sig));
}

#[test]
fn identity_is_stable_from_secret() {
    let id = someone();
    let again = Identity::from_secret(&id.secret_bytes()).unwrap();
    assert_eq!(id.pk, again.pk);
}

#[test]
fn hex_roundtrip() {
    let id = someone();
    assert_eq!(hex_decode32(&hex_encode(&id.pk)), Some(id.pk));
}

#[test]
fn ecdh_is_symmetric() {
    let a = someone();
    let b = someone();
    // both sides derive the same shared key
    assert_eq!(a.shared_key(&b.pk), b.shared_key(&a.pk));
    assert!(a.shared_key(&b.pk).is_some());
}

#[test]
fn encrypt_decrypt_roundtrip() {
    let a = someone();
    let b = someone();
    let msg = b"v=0\r\no=- 42 2 IN IP4 127.0.0.1\r\n(an SDP offer)";
    let blob = a.encrypt_to(&b.pk, msg).unwrap();
    // b opens what a sealed
    assert_eq!(b.decrypt_from(&a.pk, &blob).unwrap(), msg);
    // a third party cannot
    let eve = someone();
    assert!(eve.decrypt_from(&a.pk, &blob).is_none());
    // tampered ciphertext fails the AEAD tag
    let mut bad = blob.clone();
    *bad.last_mut().unwrap() ^= 1;
    assert!(b.decrypt_from(&a.pk, &bad).is_none());
}

#[test]
fn ciphertexts_have_their_layout() {
    let a = someone();
    let b = someone();
    let nonce = [9u8; 12];
    let blob = a.encrypt_with(&b.pk, &nonce, b"hello").unwrap();
    assert_eq!(blob.len(), 12 + 5 + 16);
    assert_eq!(&blob[..12], &nonce);
    assert_eq!(blob, a.encrypt_with(&b.pk, &nonce, b"hello").unwrap());
    assert_ne!(&blob[12..17], b"hello");
    // a blob too short for a nonce opens to nothing
    assert!(b.decrypt_from(&a.pk, &blob[..11]).is_none());
    assert!(b.decrypt_from(&a.pk, &[]).is_none());
}

#[test]
fn a_key_that_is_no_point_shares_nothing() {
    let a = someone();
    // no point of the curve has this x
    let none = [0xFFu8; 32];
    assert!(a.shared_key(&none).is_none());
    assert!(a.encrypt_to(&none, b"x").is_none());
    assert!(a.decrypt_from(&none, &[0u8; 40]).is_none());
    assert!(!verify(&none, &[1u8; 32], &[2u8; 64]));
}

#[test]
fn secrets_outside_the_curve_are_refused() {
    assert!(Identity::from_secret(&[0u8; 32]).is_none());
    assert!(Identity::from_secret(&[0xFFu8; 32]).is_none());
    // the first test vector of BIP-340
    let mut three = [0u8; 32];
    three[31] = 3;
    let id = Identity::from_secret(&three).unwrap();
    assert_eq!(hex_encode(&id.pk), "f9308a019258c31049344f85f89d5229b531c845836f99b08601f113bce036f9");
    let zero = [0u8; 32];
    let sig = id.sign_with(&zero, &zero).unwrap();
    assert_eq!(
        hex_encode(&sig),
        "e907831f80848d1069a5371b402410364bdf1c5f8307b0084c55f1ce2dca821525f66a4a85ea8b71e482a74f382d2ce5ebeee8fdb2172f477df4900d310536c0"
    );
    assert!(verify(&id.pk, &zero, &sig));
}

#[test]
fn a_saved_identity_is_restored() {
    let id = someone();
    let saved = id.secret_bytes();
    assert_eq!(Identity::from_saved(&saved).unwrap().pk, id.pk);
    assert!(Identity::from_saved(&saved[..31]).is_none());
    assert!(Identity::from_saved(&[0u8; 32]).is_none());
    assert!(key_eq(&id.dup().public_key(), &id.pk));
}

#[test]
fn digests_are_sha256() {
    assert_eq!(
        hex_encode(&sha256(&[b"abc"])),
        "ba7816bf8f01cfea414140de5dae2223b00361a396177a9cb410ff61f20015ad"
    );
    // the parts of a digest are read as one text
    assert_eq!(sha256(&[b"a", b"b", b"c"]), sha256(&[b"abc"]));
    let t = sha256(&[b"tag"]);
    assert_eq!(tagged_hash("tag", &[b"x"]), sha256(&[&t, &t, b"x"]));
}

#[test]
fn hexadecimal_is_strict() {
    assert_eq!(hex_encode(&[0x00, 0xAB, 0x7f]), "00ab7f");
    let good = "00".repeat(31) + "fF";
    assert_eq!(hex_decode32(&good).unwrap()[31], 0xFF);
    assert!(hex_decode32("00").is_none());
    assert!(hex_decode32(&("0".repeat(63) + "g")).is_none());
    assert!(hex_decode32(&"é".repeat(32)).is_none());
}

#[test]
fn randomness_fills_the_buffer() {
    let mut a = vec![0u8; 32];
    let mut b = vec![0u8; 32];
    fill_random(&mut a);
    fill_random(&mut b);
    assert_eq!(a.len(), 32);
    assert_ne!(a, b);
    assert_ne!(a, vec![0u8; 32]);
    // the fallback stretches a pool block by block
    let pool = entropy_pool(&vec![1, 2], Some(0x0102_0304));
    assert_eq!(pool.len(), 8 * 2 + 16);
    assert_eq!(&pool[..8], &[1, 0, 0, 0, 0, 0, 0, 0]);
    let long = stretch_entropy(&pool, 70);
    assert_eq!(long.len(), 70);
    assert_eq!(&stretch_entropy(&pool, 40)[..], &long[..40]);
    assert_eq!(&long[..32], &sha256(&[&pool]));
    // and is only reached where the system has none to give
    assert_eq!(random_bytes(Some(vec![7, 8, 9]), &vec![1, 2], Some(0x0102_0304), 3), vec![7, 8, 9]);
    assert_eq!(random_bytes(None, &vec![1, 2], Some(0x0102_0304), 70), long);
}

#[test]
fn wall_time_is_in_milliseconds() {
    assert_eq!(millis_of(Some(1_700_000_000_123_456_789)), 1_700_000_000_123);
    assert_eq!(millis_of(None), 0);
    assert!(unix_millis() > 1_600_000_000_000);
}
