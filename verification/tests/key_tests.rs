use isocore::key::{
    bytes_equal, generate_nonce, hash, hex, seal_with, unhex, DecryptError, KeyPair, KeyPub,
    KeyShared, Signature,
};

#[test]
fn the_hash_is_blake3() {
    // the digest of the empty input, from the BLAKE3 test vectors
    assert_eq!(
        String::from_utf8(hash(b"").to_hex()).unwrap(),
        "af1349b9f5f9a1a6a0404dea36dcc9499bcb25c9adc112b7cc9a93cae41f3262"
    );
    assert_ne!(hash(b"a"), hash(b"b"));
    assert_eq!(hash(b"abc"), hash(b"abc"));
}

#[test]
fn hex_goes_there_and_back() {
    assert_eq!(hex(&[0x00, 0x0f, 0xa5, 0xff]), b"000fa5ff".to_vec());
    assert_eq!(hex(&[]), Vec::<u8>::new());
    let h = hash(b"x");
    assert_eq!(isocore::key::Hash::from_hex(&h.to_hex()), Some(h));
    let upper: Vec<u8> = h.to_hex().iter().map(|c| c.to_ascii_uppercase()).collect();
    assert_eq!(isocore::key::Hash::from_hex(&upper), Some(h));
    assert_eq!(unhex(b"00"), None);
    assert_eq!(unhex(&[b'g'; 64]), None);
    assert_eq!(unhex(&[b'0'; 64]), Some([0u8; 32]));
    assert!(h.same(&hash(b"x")));
    assert!(!h.same(&hash(b"y")));
    assert!(bytes_equal(b"ab", b"ab"));
    assert!(!bytes_equal(b"ab", b"abc"));
    assert!(!bytes_equal(b"ab", b"ac"));
}

#[test]
fn what_a_pair_signs_its_public_key_accepts() {
    let pair = KeyPair::ephemeral();
    let sig = pair.sign(b"message");
    assert!(pair.verify(b"message", &sig));
    assert!(pair.key_pub.verify(b"message", &sig));
    assert!(!pair.verify(b"another", &sig));
    assert!(!KeyPair::ephemeral().verify(b"message", &sig));
    assert!(!pair.verify(b"message", &Signature([0u8; 64])));
    // bytes that are no point on the curve are no public key
    assert!(!not_a_key().verify(b"message", &sig));
    // signing is a function of key and message
    assert_eq!(pair.sign(b"message"), sig);
    assert!(pair.key_pub.same(&pair.key_pub));
    assert!(!pair.key_pub.same(&KeyPair::ephemeral().key_pub));
}

#[test]
fn a_password_gives_the_same_pair_again() {
    let a = KeyPair::from_password(b"some salt", b"password").unwrap();
    let b = KeyPair::from_password(b"some salt", b"password").unwrap();
    let c = KeyPair::from_password(b"other salt", b"password").unwrap();
    assert_eq!(a.key_sec, b.key_sec);
    assert_eq!(a.key_pub, b.key_pub);
    assert_ne!(a.key_sec, c.key_sec);
    assert!(a.verify(b"m", &b.sign(b"m")));
    // a salt that is too short is refused
    assert!(KeyPair::from_password(b"", b"password").is_none());
    assert!(KeyPair::from_password(b"ab", b"password").is_none());
    assert!(KeyPair::from_password(b"abc", b"password").is_none());
    assert!(KeyPair::from_password(b"seven..", b"password").is_none());
    assert!(KeyPair::from_password(b"eight...", b"password").is_some());
    assert!(KeyPair::from_password(&[1u8; 49], b"password").is_none());
}

#[test]
fn two_parties_share_one_secret() {
    let alice = KeyPair::ephemeral();
    let bob = KeyPair::ephemeral();
    let ab = alice.conspire(&bob.key_pub).unwrap();
    let ba = bob.conspire(&alice.key_pub).unwrap();
    assert_eq!(ab, ba);
    let no_key = not_a_key();
    assert!(alice.conspire(&no_key).is_none());

    let sealed = alice.encrypt(&bob.key_pub, b"for bob").unwrap();
    assert_ne!(sealed.ciphertext, b"for bob".to_vec());
    assert_eq!(bob.decrypt(&alice.key_pub, sealed.clone()).unwrap(), b"for bob".to_vec());
    let eve = KeyPair::ephemeral();
    assert!(matches!(
        eve.decrypt(&alice.key_pub, sealed.clone()),
        Err(DecryptError::AuthenticationFailed)
    ));
    assert!(matches!(bob.decrypt(&no_key, sealed), Err(DecryptError::InvalidPayload)));
    assert!(alice.encrypt(&no_key, b"for nobody").is_none());
}

/// Bytes that are no point on the curve: about every second string is none.
fn not_a_key() -> KeyPub {
    let probe = KeyPair::ephemeral();
    for i in 0..=255u8 {
        let candidate = KeyPub([i; 32]);
        if probe.conspire(&candidate).is_none() {
            return candidate;
        }
    }
    panic!("every candidate is a key");
}

#[test]
fn what_is_sealed_at_rest_opens_again() {
    let pair = KeyPair::ephemeral();
    let sealed = pair.encrypt_rest(b"secret").unwrap();
    assert_eq!(sealed.ciphertext.len(), 6 + 16);
    assert_eq!(pair.decrypt_rest(sealed.clone()).unwrap(), b"secret".to_vec());
    let mut changed = sealed.clone();
    changed.ciphertext[0] ^= 1;
    assert!(matches!(pair.decrypt_rest(changed), Err(DecryptError::AuthenticationFailed)));
    assert_eq!(pair.at_rest(), pair.at_rest());

    let key = KeyShared([3u8; 32]);
    let one = seal_with(&key, [1u8; 24], b"same").unwrap();
    let two = seal_with(&key, [1u8; 24], b"same").unwrap();
    let three = seal_with(&key, [2u8; 24], b"same").unwrap();
    assert_eq!(one.ciphertext, two.ciphertext);
    assert_ne!(one.ciphertext, three.ciphertext);
    assert_eq!(key.decrypt(three).unwrap(), b"same".to_vec());
    assert_ne!(generate_nonce(), generate_nonce());
}

#[test]
fn keys_are_derived_and_not_handed_on() {
    let pair = KeyPair::from_password(b"some salt", b"password").unwrap();
    // the secret key is the hash of the password, not the password
    let mut padded = [0u8; 32];
    padded[..8].copy_from_slice(b"password");
    assert_ne!(pair.key_sec.0, padded);
    // the public key belongs to the secret key and is not the secret key
    assert_ne!(pair.key_pub.0, pair.key_sec.0);
    // the key at rest is derived from the secret key in its own context
    let at_rest = pair.at_rest();
    assert_eq!(
        at_rest.0,
        blake3::derive_key("home encryption-at-rest v1", &pair.key_sec.0)
    );
    assert_ne!(at_rest.0, pair.key_sec.0);
    // a shared secret is neither party's key
    let other = KeyPair::from_password(b"other salt", b"password").unwrap();
    let shared = pair.conspire(&other.key_pub).unwrap();
    assert_ne!(shared.0, pair.key_sec.0);
    assert_ne!(shared.0, other.key_pub.0);
}
