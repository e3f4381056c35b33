//! Keys, hashes, signatures and sealed payloads.
//!
//! Hashing is BLAKE3, signing is Ed25519, key agreement is X25519 and
//! sealing is XChaCha20-Poly1305. All four are done by outside libraries.
//! What each of them computes is given a name here, and what this module
//! proves is proved of those names.

use vstd::prelude::*;
use argon2::PasswordHasher;
use chacha20poly1305::aead::{Aead, KeyInit};
use ed25519_dalek::{Signer, Verifier};
use rand_core::RngCore;

verus! {

/// What `blake3::hash` returns for a message: its 32-byte BLAKE3 digest.
pub uninterp spec fn blake3_digest(message: Seq<u8>) -> Seq<u8>;

/// What `blake3::derive_key` returns for a context string and key material.
pub uninterp spec fn blake3_derived(context: Seq<char>, material: Seq<u8>) -> Seq<u8>;

/// The Ed25519 public key that belongs to a 32-byte secret key.
pub uninterp spec fn ed25519_public(secret: Seq<u8>) -> Seq<u8>;

/// The Ed25519 signature that a secret key makes of a message.
pub uninterp spec fn ed25519_signature(secret: Seq<u8>, message: Seq<u8>) -> Seq<u8>;

/// Whether Ed25519 verification accepts a signature of a message under a
/// public key. Bytes that are no public key accept nothing.
pub uninterp spec fn ed25519_accepts(public: Seq<u8>, message: Seq<u8>, signature: Seq<u8>) -> bool;

/// The X25519 secret that an Ed25519 secret key shares with an Ed25519
/// public key, or nothing where the bytes are no public key.
pub uninterp spec fn x25519_shared(secret: Seq<u8>, public: Seq<u8>) -> Option<Seq<u8>>;

/// The XChaCha20-Poly1305 ciphertext of a message under a key and a nonce,
/// or nothing where the message is too long to seal.
pub uninterp spec fn xchacha_sealed(key: Seq<u8>, nonce: Seq<u8>, message: Seq<u8>) -> Option<
    Seq<u8>,
>;

/// The message that an XChaCha20-Poly1305 ciphertext opens to under a key
/// and a nonce, or nothing where it does not authenticate.
pub uninterp spec fn xchacha_opened(key: Seq<u8>, nonce: Seq<u8>, ciphertext: Seq<u8>) -> Option<
    Seq<u8>,
>;

/// The Argon2id hash of a password under a salt with the library's default
/// parameters, or nothing where the library refuses the salt or the password.
pub uninterp spec fn argon2_digest(salt: Seq<u8>, password: Seq<u8>) -> Option<Seq<u8>>;

/// The shortest salt that a key can be derived under.
pub const MIN_SALT: usize = 3;

/// An Ed25519 public key.
#[derive(Clone, Copy, Debug, PartialEq, Eq)]
pub struct KeyPub(pub [u8; 32]);

/// An Ed25519 secret key.
#[derive(Clone, Copy, Debug, PartialEq, Eq)]
pub struct KeySec(pub [u8; 32]);

/// A secret key and the public key that belongs to it.
#[derive(Clone, Copy, Debug)]
pub struct KeyPair {
    pub key_pub: KeyPub,
    pub key_sec: KeySec,
}

/// A BLAKE3 digest.
#[derive(Clone, Copy, Debug, PartialEq, Eq)]
pub struct Hash(pub [u8; 32]);

/// An Ed25519 signature.
#[derive(Clone, Copy, Debug, PartialEq, Eq)]
pub struct Signature(pub [u8; 64]);

/// A secret that two parties share, or that one party keeps for itself.
#[derive(Clone, Copy, Debug, PartialEq, Eq)]
pub struct KeyShared(pub [u8; 32]);

/// A sealed message and the nonce it was sealed under.
#[derive(Clone, Debug)]
pub struct Payload {
    pub nonce: [u8; 24],
    pub ciphertext: Vec<u8>,
}

/// Why a payload could not be opened.
#[derive(Clone, Copy, Debug, PartialEq, Eq, Structural)]
pub enum DecryptError {
    AuthenticationFailed,
    InvalidPayload,
}

/// The context under which the key for encryption at rest is derived.
pub open spec fn at_rest_context() -> Seq<char> {
    "home encryption-at-rest v1"@
}

/// `blake3::hash`: the BLAKE3 digest of the message.
#[verifier::external_body]
fn blake3_hash(message: &[u8]) -> (digest: [u8; 32])
    ensures
        digest@ == blake3_digest(message@),
{
    *blake3::hash(message).as_bytes()
}

/// `blake3::derive_key`: the key that BLAKE3 derives from the key material
/// in the given context.
#[verifier::external_body]
fn blake3_derive_key(context: &str, material: &[u8]) -> (key: [u8; 32])
    ensures
        key@ == blake3_derived(context@, material@),
{
    blake3::derive_key(context, material)
}

/// `ed25519_dalek::SigningKey::from_bytes` and `verifying_key`: the public
/// key that belongs to the secret key.
#[verifier::external_body]
fn ed25519_public_key(secret: &[u8; 32]) -> (public: [u8; 32])
    ensures
        public@ == ed25519_public(secret@),
{
    ed25519_dalek::SigningKey::from_bytes(secret).verifying_key().to_bytes()
}

/// `ed25519_dalek::SigningKey::generate` with the operating system's random
/// number generator: the bytes of a fresh secret key, of which nothing is
/// known.
#[verifier::external_body]
fn ed25519_generate() -> (secret: [u8; 32]) {
    ed25519_dalek::SigningKey::generate(&mut rand_core::OsRng).to_bytes()
}

/// `ed25519_dalek::Signer::sign` on the signing key of the secret: the
/// signature of the message, which verification accepts under the public
/// key that belongs to the secret.
#[verifier::external_body]
fn ed25519_sign(secret: &[u8; 32], message: &[u8]) -> (signature: [u8; 64])
    ensures
        signature@ == ed25519_signature(secret@, message@),
        ed25519_accepts(ed25519_public(secret@), message@, signature@),
{
    ed25519_dalek::SigningKey::from_bytes(secret).sign(message).to_bytes()
}

/// `ed25519_dalek::VerifyingKey::from_bytes` and `Verifier::verify`: whether
/// the bytes are a public key under which the signature of the message is
/// valid.
#[verifier::external_body]
fn ed25519_verify(public: &[u8; 32], message: &[u8], signature: &[u8; 64]) -> (ok: bool)
    ensures
        ok == ed25519_accepts(public@, message@, signature@),
{
    match ed25519_dalek::VerifyingKey::from_bytes(public) {
        Ok(key) => key.verify(message, &ed25519_dalek::Signature::from_bytes(signature)).is_ok(),
        Err(_) => false,
    }
}

/// `x25519_dalek::StaticSecret::diffie_hellman` between the X25519 forms of
/// an Ed25519 secret key and an Ed25519 public key.
#[verifier::external_body]
fn x25519_agree(secret: &[u8; 32], public: &[u8; 32]) -> (shared: Option<[u8; 32]>)
    ensures
        match x25519_shared(secret@, public@) {
            Some(s) => shared matches Some(x) && x@ == s,
            None => shared is None,
        },
{
    let scalar = ed25519_dalek::SigningKey::from_bytes(secret).to_scalar_bytes();
    let theirs = ed25519_dalek::VerifyingKey::from_bytes(public).ok()?.to_montgomery();
    let secret = x25519_dalek::StaticSecret::from(scalar);
    let public = x25519_dalek::PublicKey::from(*theirs.as_bytes());
    Some(*secret.diffie_hellman(&public).as_bytes())
}

/// `rand_core::RngCore::fill_bytes` of the operating system's random number
/// generator: 24 bytes of which nothing is known.
#[verifier::external_body]
pub fn generate_nonce() -> (nonce: [u8; 24]) {
    let mut nonce = [0u8; 24];
    rand_core::OsRng.fill_bytes(&mut nonce);
    nonce
}

/// `chacha20poly1305::aead::Aead::encrypt` of XChaCha20-Poly1305: the
/// ciphertext of the message under the key and the nonce.
#[verifier::external_body]
fn xchacha_seal(key: &[u8; 32], nonce: &[u8; 24], message: &[u8]) -> (sealed: Option<Vec<u8>>)
    ensures
        match xchacha_sealed(key@, nonce@, message@) {
            Some(c) => sealed matches Some(x) && x@ == c,
            None => sealed is None,
        },
{
    let cipher = chacha20poly1305::XChaCha20Poly1305::new(key.into());
    cipher.encrypt(chacha20poly1305::XNonce::from_slice(nonce), message).ok()
}

/// `chacha20poly1305::aead::Aead::decrypt` of XChaCha20-Poly1305: the
/// message that the ciphertext opens to under the key and the nonce.
#[verifier::external_body]
fn xchacha_open(key: &[u8; 32], nonce: &[u8; 24], ciphertext: &[u8]) -> (opened: Option<Vec<u8>>)
    ensures
        match xchacha_opened(key@, nonce@, ciphertext@) {
            Some(m) => opened matches Some(x) && x@ == m,
            None => opened is None,
        },
{
    let cipher = chacha20poly1305::XChaCha20Poly1305::new(key.into());
    cipher.decrypt(chacha20poly1305::XNonce::from_slice(nonce), ciphertext).ok()
}

/// `argon2::PasswordHasher::hash_password` of `Argon2::default()` with the
/// salt in the form that `SaltString::encode_b64` gives it: the bytes of the
/// hash. A salt of fewer than three bytes has no such form that the library
/// takes, and is left out.
#[verifier::external_body]
fn argon2_hash(salt: &[u8], password: &[u8]) -> (digest: Option<Vec<u8>>)
    requires
        salt@.len() >= MIN_SALT,
    ensures
        match argon2_digest(salt@, password@) {
            Some(d) => digest matches Some(x) && x@ == d,
            None => digest is None,
        },
{
    let salt_string = argon2::password_hash::SaltString::encode_b64(salt).ok()?;
    let hashed = argon2::Argon2::default().hash_password(password, &salt_string).ok()?;
    Some(hashed.hash?.as_bytes().to_vec())
}

/// Whether two byte strings are the same.
pub fn bytes_equal(a: &[u8], b: &[u8]) -> (same: bool)
    ensures
        same == (a@ == b@),
{
    if a.len() != b.len() {
        return false;
    }
    let mut i: usize = 0;
    while i < a.len()
        invariant
            i <= a.len(),
            a.len() == b.len(),
            forall|j: int| 0 <= j < i ==> a@[j] == b@[j],
        decreases a.len() - i,
    {
        if a[i] != b[i] {
            return false;
        }
        i = i + 1;
    }
    assert(a@ =~= b@);
    true
}

/// The BLAKE3 digest of a message.
pub fn hash(message: &[u8]) -> (h: Hash)
    ensures
        h.0@ == blake3_digest(message@),
{
    Hash(blake3_hash(message))
}

/// The digit that stands for a number below sixteen, in lower case.
pub open spec fn hex_digit(n: int) -> u8 {
    if n < 10 {
        (48 + n) as u8
    } else {
        (87 + n) as u8
    }
}

/// The number that a hexadecimal digit of either case stands for.
pub open spec fn hex_value(c: u8) -> Option<u8> {
    if 48 <= c <= 57 {
        Some((c - 48) as u8)
    } else if 97 <= c <= 102 {
        Some((c - 87) as u8)
    } else if 65 <= c <= 70 {
        Some((c - 55) as u8)
    } else {
        None
    }
}

/// Two lower-case hexadecimal digits for each byte, the high one first.
pub open spec fn hex_encoding(bytes: Seq<u8>) -> Seq<u8> {
    Seq::new(
        2 * bytes.len(),
        |i: int|
            hex_digit(
                if i % 2 == 0 {
                    bytes[i / 2] as int / 16
                } else {
                    bytes[i / 2] as int % 16
                },
            ),
    )
}

/// Whether the text is pairs of hexadecimal digits.
pub open spec fn is_hex(text: Seq<u8>) -> bool {
    text.len() % 2 == 0 && forall|i: int| 0 <= i < text.len() ==> hex_value(#[trigger] text[i]) is Some
}

/// The bytes that pairs of hexadecimal digits stand for.
pub open spec fn hex_decoding(text: Seq<u8>) -> Seq<u8> {
    Seq::new(
        text.len() / 2,
        |i: int| (16 * hex_value(text[2 * i])->Some_0 + hex_value(text[2 * i + 1])->Some_0) as u8,
    )
}

/// The lower-case digit of a number below sixteen.
fn digit_of(n: u8) -> (c: u8)
    requires
        n < 16,
    ensures
        c == hex_digit(n as int),
{
    if n < 10 {
        48 + n
    } else {
        87 + n
    }
}

/// The number that a hexadecimal digit stands for, in either case.
pub(crate) fn value_of(c: u8) -> (v: Option<u8>)
    ensures
        v == hex_value(c),
        v matches Some(n) ==> n < 16,
{
    if 48 <= c && c <= 57 {
        Some(c - 48)
    } else if 97 <= c && c <= 102 {
        Some(c - 87)
    } else if 65 <= c && c <= 70 {
        Some(c - 55)
    } else {
        None
    }
}

/// The bytes in lower-case hexadecimal.
pub fn hex(bytes: &[u8]) -> (text: Vec<u8>)
    ensures
        text@ == hex_encoding(bytes@),
{
    let mut text: Vec<u8> = Vec::new();
    let mut i: usize = 0;
    while i < bytes.len()
        invariant
            i <= bytes.len(),
            text@.len() == 2 * i,
            forall|j: int| 0 <= j < 2 * i ==> text@[j] == hex_encoding(bytes@)[j],
        decreases bytes.len() - i,
    {
        let b: u8 = bytes[i];
        text.push(digit_of(b / 16));
        text.push(digit_of(b % 16));
        i = i + 1;
    }
    assert(text@ =~= hex_encoding(bytes@));
    text
}

/// The 32 bytes that 64 hexadecimal digits stand for.
pub fn unhex(text: &[u8]) -> (bytes: Option<[u8; 32]>)
    ensures
        bytes is Some <==> text@.len() == 64 && is_hex(text@),
        bytes matches Some(b) ==> b@ == hex_decoding(text@),
{
    if text.len() != 64 {
        return None;
    }
    let mut result: [u8; 32] = [0u8; 32];
    let mut i: usize = 0;
    while i < 32
        invariant
            i <= 32,
            text@.len() == 64,
            forall|j: int| 0 <= j < 2 * i ==> hex_value(#[trigger] text@[j]) is Some,
            forall|j: int| 0 <= j < i ==> result@[j] == hex_decoding(text@)[j],
        decreases 32 - i,
    {
        let hi = match value_of(text[2 * i]) {
            Some(v) => v,
            None => {
                return None;
            },
        };
        let lo = match value_of(text[2 * i + 1]) {
            Some(v) => v,
            None => {
                return None;
            },
        };
        result[i] = 16 * hi + lo;
        proof {
            assert forall|j: int| 0 <= j < 2 * (i + 1) implies hex_value(#[trigger] text@[j]) is Some by {
                if j >= 2 * i {
                    assert(j == 2 * i || j == 2 * i + 1);
                }
            }
        }
        i = i + 1;
    }
    assert(result@ =~= hex_decoding(text@));
    Some(result)
}

/// What was written in hexadecimal reads back as the same bytes.
pub proof fn lemma_hex_round_trip(bytes: Seq<u8>)
    ensures
        is_hex(hex_encoding(bytes)),
        hex_decoding(hex_encoding(bytes)) == bytes,
        hex_encoding(bytes).len() == 2 * bytes.len(),
{
    let text = hex_encoding(bytes);
    assert forall|i: int| 0 <= i < text.len() implies hex_value(#[trigger] text[i]) is Some by {
        let b = bytes[i / 2];
        assert(0 <= b as int / 16 < 16);
        assert(0 <= b as int % 16 < 16);
    }
    assert forall|i: int| 0 <= i < bytes.len() implies hex_decoding(text)[i] == bytes[i] by {
        let b = bytes[i];
        assert((2 * i) / 2 == i && (2 * i) % 2 == 0);
        assert((2 * i + 1) / 2 == i && (2 * i + 1) % 2 == 1);
        assert(text[2 * i] == hex_digit(b as int / 16));
        assert(text[2 * i + 1] == hex_digit(b as int % 16));
        assert(0 <= b as int / 16 < 16);
        assert(0 <= b as int % 16 < 16);
        assert(b as int == 16 * (b as int / 16) + b as int % 16);
    }
    assert(hex_decoding(text) =~= bytes);
}

impl Hash {
    /// The digest as 64 lower-case hexadecimal digits.
    pub fn to_hex(&self) -> (text: Vec<u8>)
        ensures
            text@ == hex_encoding(self.0@),
            text@.len() == 64,
    {
        hex(self.0.as_slice())
    }

    /// The digest that 64 hexadecimal digits stand for.
    pub fn from_hex(text: &[u8]) -> (r: Option<Hash>)
        ensures
            r is Some <==> text@.len() == 64 && is_hex(text@),
            r matches Some(h) ==> h.0@ == hex_decoding(text@),
    {
        match unhex(text) {
            Some(b) => Some(Hash(b)),
            None => None,
        }
    }

    /// Whether two digests are the same.
    pub fn same(&self, other: &Hash) -> (r: bool)
        ensures
            r == (self.0@ == other.0@),
    {
        bytes_equal(self.0.as_slice(), other.0.as_slice())
    }
}

impl KeyPub {
    /// Whether two public keys are the same.
    pub fn same(&self, other: &KeyPub) -> (r: bool)
        ensures
            r == (self.0@ == other.0@),
    {
        bytes_equal(self.0.as_slice(), other.0.as_slice())
    }

    /// Whether the signature of the message is valid under this key.
    pub fn verify(&self, message: &[u8], signature: &Signature) -> (ok: bool)
        ensures
            ok == ed25519_accepts(self.0@, message@, signature.0@),
    {
        ed25519_verify(&self.0, message, &signature.0)
    }
}

impl KeyPair {
    /// The public key is the one that belongs to the secret key.
    pub open spec fn wf(&self) -> bool {
        self.key_pub.0@ == ed25519_public(self.key_sec.0@)
    }

    /// A fresh random key pair.
    pub fn ephemeral() -> (pair: Self)
        ensures
            pair.wf(),
    {
        let secret = ed25519_generate();
        let public = ed25519_public_key(&secret);
        KeyPair { key_pub: KeyPub(public), key_sec: KeySec(secret) }
    }

    /// The key pair whose secret key is the Argon2 hash of the password
    /// under the salt, cut or padded with zeros to 32 bytes. Nothing where
    /// the salt is shorter than three bytes or Argon2 refuses the salt or
    /// the password.
    pub fn from_password(salt: &[u8], password: &[u8]) -> (r: Option<Self>)
        ensures
            r is Some <==> salt@.len() >= MIN_SALT && argon2_digest(salt@, password@) is Some,
            r matches Some(pair) ==> pair.wf() && pair.key_sec.0@ == padded_secret(
                argon2_digest(salt@, password@)->Some_0,
            ),
    {
        if salt.len() < MIN_SALT {
            return None;
        }
        let digest = match argon2_hash(salt, password) {
            Some(d) => d,
            None => {
                return None;
            },
        };
        let mut sec_bytes: [u8; 32] = [0u8; 32];
        let len: usize = if digest.len() < 32 {
            digest.len()
        } else {
            32
        };
        let mut i: usize = 0;
        while i < len
            invariant
                i <= len <= 32,
                len <= digest@.len(),
                len == if digest@.len() < 32 {
                    digest@.len()
                } else {
                    32
                },
                forall|j: int| 0 <= j < i ==> sec_bytes@[j] == digest@[j],
                forall|j: int| i <= j < 32 ==> sec_bytes@[j] == 0,
            decreases len - i,
        {
            sec_bytes[i] = digest[i];
            i = i + 1;
        }
        assert(sec_bytes@ =~= padded_secret(digest@));
        let public = ed25519_public_key(&sec_bytes);
        Some(KeyPair { key_sec: KeySec(sec_bytes), key_pub: KeyPub(public) })
    }

    /// The secret that this pair shares with the holder of another public
    /// key. Nothing where the bytes are no public key.
    pub fn conspire(&self, other: &KeyPub) -> (r: Option<KeyShared>)
        ensures
            match x25519_shared(self.key_sec.0@, other.0@) {
                Some(s) => r matches Some(k) && k.0@ == s,
                None => r is None,
            },
    {
        match x25519_agree(&self.key_sec.0, &other.0) {
            Some(s) => Some(KeyShared(s)),
            None => None,
        }
    }

    /// Seals a message for the holder of another public key, under the
    /// secret that the two share and a fresh random nonce. What is returned
    /// is what sealing under that nonce gives; nothing where the bytes are
    /// no public key.
    pub fn encrypt(&self, other: &KeyPub, message: &[u8]) -> (r: Option<Payload>)
        ensures
            match x25519_shared(self.key_sec.0@, other.0@) {
                Some(k) => exists|nonce: Seq<u8>| #[trigger] sealed_under(k, nonce, message@, r),
                None => r is None,
            },
    {
        match self.conspire(other) {
            Some(shared) => shared.encrypt(message),
            None => None,
        }
    }

    /// Opens a payload that the holder of another public key sealed for
    /// this pair.
    pub fn decrypt(&self, other: &KeyPub, payload: Payload) -> (r: Result<Vec<u8>, DecryptError>)
        ensures
            match x25519_shared(self.key_sec.0@, other.0@) {
                Some(k) => match xchacha_opened(k, payload.nonce@, payload.ciphertext@) {
                    Some(m) => r matches Ok(x) && x@ == m,
                    None => r == Err::<Vec<u8>, DecryptError>(DecryptError::AuthenticationFailed),
                },
                None => r == Err::<Vec<u8>, DecryptError>(DecryptError::InvalidPayload),
            },
    {
        match self.conspire(other) {
            Some(shared) => shared.decrypt(payload),
            None => Err(DecryptError::InvalidPayload),
        }
    }

    /// The key under which this pair seals what it keeps for itself.
    pub fn at_rest(&self) -> (k: KeyShared)
        ensures
            k.0@ == blake3_derived(at_rest_context(), self.key_sec.0@),
    {
        KeyShared(blake3_derive_key("home encryption-at-rest v1", self.key_sec.0.as_slice()))
    }

    /// Seals a message that this pair keeps for itself, under its key at
    /// rest and a fresh random nonce. What is returned is what sealing
    /// under that nonce gives.
    pub fn encrypt_rest(&self, message: &[u8]) -> (r: Option<Payload>)
        ensures
            exists|nonce: Seq<u8>| #[trigger]
                sealed_under(
                    blake3_derived(at_rest_context(), self.key_sec.0@),
                    nonce,
                    message@,
                    r,
                ),
    {
        self.at_rest().encrypt(message)
    }

    /// Opens a payload that this pair sealed for itself.
    pub fn decrypt_rest(&self, payload: Payload) -> (r: Result<Vec<u8>, DecryptError>)
        ensures
            match xchacha_opened(
                blake3_derived(at_rest_context(), self.key_sec.0@),
                payload.nonce@,
                payload.ciphertext@,
            ) {
                Some(m) => r matches Ok(x) && x@ == m,
                None => r == Err::<Vec<u8>, DecryptError>(DecryptError::AuthenticationFailed),
            },
    {
        self.at_rest().decrypt(payload)
    }

    /// Signs a message. Where the pair is well formed, its public key
    /// accepts the signature.
    pub fn sign(&self, message: &[u8]) -> (signature: Signature)
        ensures
            signature.0@ == ed25519_signature(self.key_sec.0@, message@),
            self.wf() ==> ed25519_accepts(self.key_pub.0@, message@, signature.0@),
    {
        Signature(ed25519_sign(&self.key_sec.0, message))
    }

    /// Whether the signature of the message is valid under the public key.
    pub fn verify(&self, message: &[u8], signature: &Signature) -> (ok: bool)
        ensures
            ok == ed25519_accepts(self.key_pub.0@, message@, signature.0@),
    {
        self.key_pub.verify(message, signature)
    }
}

/// The first 32 bytes of a digest, with zeros behind a shorter one.
pub open spec fn padded_secret(digest: Seq<u8>) -> Seq<u8> {
    Seq::new(
        32,
        |i: int|
            if i < digest.len() {
                digest[i]
            } else {
                0u8
            },
    )
}

impl KeyShared {
    /// Seals a message under a fresh random nonce. What is returned is
    /// what sealing under that nonce gives: the nonce and the ciphertext,
    /// or nothing where the message cannot be sealed under it.
    pub fn encrypt(&self, message: &[u8]) -> (r: Option<Payload>)
        ensures
            exists|nonce: Seq<u8>| #[trigger] sealed_under(self.0@, nonce, message@, r),
    {
        let nonce = generate_nonce();
        let r = seal_with(self, nonce, message);
        assert(sealed_under(self.0@, nonce@, message@, r));
        r
    }

    /// Opens a payload. A payload that was not sealed under this key and
    /// its nonce, or that was changed since, is refused.
    pub fn decrypt(&self, payload: Payload) -> (r: Result<Vec<u8>, DecryptError>)
        ensures
            match xchacha_opened(self.0@, payload.nonce@, payload.ciphertext@) {
                Some(m) => r matches Ok(x) && x@ == m,
                None => r == Err::<Vec<u8>, DecryptError>(DecryptError::AuthenticationFailed),
            },
    {
        match xchacha_open(&self.0, &payload.nonce, payload.ciphertext.as_slice()) {
            Some(m) => Ok(m),
            None => Err(DecryptError::AuthenticationFailed),
        }
    }
}

/// Whether `r` is what sealing a message under a key and a nonce of 24
/// bytes gives: the nonce and the ciphertext, or nothing where the message
/// cannot be sealed.
pub open spec fn sealed_under(
    key: Seq<u8>,
    nonce: Seq<u8>,
    message: Seq<u8>,
    r: Option<Payload>,
) -> bool {
    &&& nonce.len() == 24
    &&& match xchacha_sealed(key, nonce, message) {
        Some(c) => r matches Some(p) && p.nonce@ == nonce && p.ciphertext@ == c,
        None => r is None,
    }
}

/// Seals a message under a key and the given nonce.
pub fn seal_with(key: &KeyShared, nonce: [u8; 24], message: &[u8]) -> (r: Option<Payload>)
    ensures
        sealed_under(key.0@, nonce@, message@, r),
{
    match xchacha_seal(&key.0, &nonce, message) {
        Some(ciphertext) => Some(Payload { nonce, ciphertext }),
        None => None,
    }
}

} // verus!
