//! Key generation and authenticated encryption: X25519 key pairs for
//! WireGuard, ChaCha20-Poly1305 for messages.

use vstd::prelude::*;
use chacha20poly1305::aead::{Aead, KeyInit};

verus! {

/// Why an encryption or decryption failed.
#[derive(Debug, Clone, Copy, PartialEq, Eq)]
pub enum CryptoError {
    /// The cipher refused to encrypt.
    EncryptionFailed,
    /// The ciphertext is too short or does not authenticate.
    DecryptionFailed,
}

/// The X25519 public key of a secret key (`PublicKey::from(&StaticSecret)`).
pub uninterp spec fn x25519_public_key(secret: Seq<u8>) -> Seq<u8>;

/// The ChaCha20-Poly1305 ciphertext (with its tag appended) of a plaintext
/// under a key and nonce, without associated data (`Aead::encrypt`).
pub uninterp spec fn chacha20poly1305_seal(key: Seq<u8>, nonce: Seq<u8>, plaintext: Seq<u8>) -> Seq<u8>;

/// The plaintext of a ChaCha20-Poly1305 ciphertext under a key and nonce,
/// `None` where it does not authenticate (`Aead::decrypt`).
pub uninterp spec fn chacha20poly1305_open(key: Seq<u8>, nonce: Seq<u8>, ciphertext: Seq<u8>) -> Option<Seq<u8>>;

/// The longest message, in bytes, that one nonce's key stream covers: the
/// first 64-byte block keys the authenticator, the remaining
/// `0xffff_fffe` blocks encrypt the message.
pub open spec fn max_message_len() -> int {
    0xffff_fffe * 64int
}

/// 32 random bytes from the operating system, as a secret key
/// (`StaticSecret::random_from_rng(OsRng)`).
#[verifier::external_body]
fn random_secret() -> [u8; 32] {
    x25519_dalek::StaticSecret::random_from_rng(rand::rngs::OsRng).to_bytes()
}

/// The X25519 public key of `secret` (`PublicKey::from(&StaticSecret)`).
#[verifier::external_body]
fn public_key_of(secret: &[u8; 32]) -> (public: [u8; 32])
    ensures
        public@ == x25519_public_key(secret@),
{
    x25519_dalek::PublicKey::from(&x25519_dalek::StaticSecret::from(*secret)).to_bytes()
}

/// 12 random bytes from the operating system (`RngCore::fill_bytes` on `OsRng`).
#[verifier::external_body]
fn random_bytes_12() -> [u8; 12] {
    let mut nonce = [0u8; 12];
    rand::RngCore::fill_bytes(&mut rand::rngs::OsRng, &mut nonce);
    nonce
}

/// Encrypts with ChaCha20-Poly1305 (`Aead::encrypt`), on a plaintext the key
/// stream covers (a longer one makes the cipher panic): it succeeds; the
/// ciphertext is the plaintext's length plus the 16-byte tag, and decrypts
/// to the plaintext.
#[verifier::external_body]
fn seal(key: &[u8; 32], nonce: &[u8; 12], plaintext: &[u8]) -> (r: Option<Vec<u8>>)
    requires
        plaintext@.len() <= max_message_len(),
    ensures
        r is Some,
        r matches Some(c) ==> {
            &&& c@ == chacha20poly1305_seal(key@, nonce@, plaintext@)
            &&& c@.len() == plaintext@.len() + 16
            &&& chacha20poly1305_open(key@, nonce@, c@) == Some(plaintext@)
        },
{
    let cipher = chacha20poly1305::ChaCha20Poly1305::new(key.into());
    cipher.encrypt(chacha20poly1305::Nonce::from_slice(nonce), plaintext).ok()
}

/// Decrypts with ChaCha20-Poly1305 (`Aead::decrypt`), on a ciphertext whose
/// message the key stream covers (a longer authentic one makes the cipher
/// panic); a ciphertext shorter than the 16-byte tag never decrypts.
#[verifier::external_body]
fn open(key: &[u8; 32], nonce: &[u8; 12], ciphertext: &[u8]) -> (r: Option<Vec<u8>>)
    requires
        ciphertext@.len() <= max_message_len() + 16,
    ensures
        r is Some <==> chacha20poly1305_open(key@, nonce@, ciphertext@) is Some,
        r matches Some(p) ==> chacha20poly1305_open(key@, nonce@, ciphertext@) == Some(p@),
        ciphertext@.len() < 16 ==> r is None,
{
    let cipher = chacha20poly1305::ChaCha20Poly1305::new(key.into());
    cipher.decrypt(chacha20poly1305::Nonce::from_slice(nonce), ciphertext).ok()
}

/// A fresh X25519 key pair for WireGuard: a random secret key and its
/// public key, as bytes.
pub fn generate_keypair() -> (pair: ([u8; 32], [u8; 32]))
    ensures
        pair.1@ == x25519_public_key(pair.0@),
{
    let secret = random_secret();
    let public = public_key_of(&secret);
    (secret, public)
}

/// Encrypts a message with ChaCha20-Poly1305; decrypting the result with the
/// same key and nonce gives the message back. Messages up to
/// `max_message_len()` bytes are accepted.
pub fn encrypt(key: &[u8; 32], nonce_bytes: &[u8; 12], plaintext: &[u8]) -> (r: Result<Vec<u8>, CryptoError>)
    requires
        plaintext@.len() <= max_message_len(),
    ensures
        r is Ok,
        r matches Ok(c) ==> {
            &&& c@ == chacha20poly1305_seal(key@, nonce_bytes@, plaintext@)
            &&& c@.len() == plaintext@.len() + 16
            &&& chacha20poly1305_open(key@, nonce_bytes@, c@) == Some(plaintext@)
        },
{
    match seal(key, nonce_bytes, plaintext) {
        Some(c) => Ok(c),
        None => Err(CryptoError::EncryptionFailed),
    }
}

/// Decrypts a message with ChaCha20-Poly1305, for ciphertexts up to
/// `max_message_len()` bytes plus the tag.
pub fn decrypt(key: &[u8; 32], nonce_bytes: &[u8; 12], ciphertext: &[u8]) -> (r: Result<Vec<u8>, CryptoError>)
    requires
        ciphertext@.len() <= max_message_len() + 16,
    ensures
        r is Ok <==> chacha20poly1305_open(key@, nonce_bytes@, ciphertext@) is Some,
        r is Err ==> r == Err::<Vec<u8>, CryptoError>(CryptoError::DecryptionFailed),
        r matches Ok(p) ==> chacha20poly1305_open(key@, nonce_bytes@, ciphertext@) == Some(p@),
        ciphertext@.len() < 16 ==> r is Err,
{
    match open(key, nonce_bytes, ciphertext) {
        Some(p) => Ok(p),
        None => Err(CryptoError::DecryptionFailed),
    }
}

/// A random 12-byte nonce.
pub fn random_nonce() -> [u8; 12] {
    random_bytes_12()
}

} // verus!
