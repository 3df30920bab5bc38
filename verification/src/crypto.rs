//! Cryptographic primitives: SHA-256 hashing of canonical encodings and
//! Ed25519 signing and verification over 32-byte digests.
//!
//! The hash and signature operations themselves are performed by the
//! `sha2` and `ed25519_dalek` crates; this module gives each of them a
//! contract over named, deterministic results.

use vstd::prelude::*;
use sha2::Digest;
use ed25519_dalek::Signer;

verus! {

/// Errors that can occur during cryptographic operations.
#[derive(Debug, Clone, Copy, PartialEq, Eq)]
pub enum CryptoError {
    HashConversionError,
    SignatureVerificationFailed,
    InvalidPublicKey,
    InvalidSignature,
}

/// The SHA-256 digest of a byte sequence. The digest depends on the
/// input bytes alone.
pub uninterp spec fn sha256_of(data: Seq<u8>) -> Seq<u8>;

/// Whether 32 bytes are a valid Ed25519 verifying key (a decompressible
/// curve point).
pub uninterp spec fn ed25519_valid_pubkey(pk: Seq<u8>) -> bool;

/// Whether an Ed25519 signature is valid for a message under a verifying
/// key. Verification depends on the three byte sequences alone.
pub uninterp spec fn ed25519_verifies(pk: Seq<u8>, msg: Seq<u8>, sig: Seq<u8>) -> bool;

/// The bytes of the verifying key derived from a 32-byte Ed25519 secret
/// key. Key derivation depends on the secret bytes alone.
pub uninterp spec fn ed25519_public_of(sk: Seq<u8>) -> Seq<u8>;

/// The Ed25519 signature produced from a secret key and a message.
/// Signing is deterministic: it depends on the two byte sequences alone.
pub uninterp spec fn ed25519_signature_of(sk: Seq<u8>, msg: Seq<u8>) -> Seq<u8>;

/// Relies on sha2::Sha256::digest: a 32-byte digest that is a function
/// of the input bytes alone.
#[verifier::external_body]
pub fn sha256(data: &Vec<u8>) -> (r: [u8; 32])
    ensures
        r@ == sha256_of(data@),
{
    let digest = sha2::Sha256::digest(data.as_slice());
    digest.into()
}

/// Relies on ed25519_dalek::VerifyingKey::from_bytes, which succeeds
/// exactly when the bytes decompress to a curve point.
#[verifier::external_body]
pub fn pubkey_bytes_valid(pk: &[u8; 32]) -> (r: bool)
    ensures
        r == ed25519_valid_pubkey(pk@),
{
    ed25519_dalek::VerifyingKey::from_bytes(pk).is_ok()
}

/// Relies on ed25519_dalek::VerifyingKey::from_bytes and
/// ed25519_dalek::VerifyingKey::verify_strict: verification fails on an
/// invalid key and is otherwise a function of key, message and
/// signature bytes.
#[verifier::external_body]
pub fn verify_signature_bytes(pk: &[u8; 32], msg: &Vec<u8>, sig: &[u8; 64]) -> (r: bool)
    ensures
        r == (ed25519_valid_pubkey(pk@) && ed25519_verifies(pk@, msg@, sig@)),
{
    match ed25519_dalek::VerifyingKey::from_bytes(pk) {
        Ok(vk) => {
            let signature = ed25519_dalek::Signature::from_bytes(sig);
            vk.verify_strict(msg.as_slice(), &signature).is_ok()
        },
        Err(_) => false,
    }
}

/// Relies on ed25519_dalek::SigningKey::from_bytes and
/// ed25519_dalek::SigningKey::verifying_key: the verifying key is derived
/// from the secret bytes alone, and its bytes are the compression of a
/// curve point, so they are a valid verifying key.
#[verifier::external_body]
pub fn derive_public_bytes(sk: &[u8; 32]) -> (r: [u8; 32])
    ensures
        r@ == ed25519_public_of(sk@),
        ed25519_valid_pubkey(r@),
{
    let signing_key = ed25519_dalek::SigningKey::from_bytes(sk);
    signing_key.verifying_key().to_bytes()
}

/// Relies on ed25519_dalek::SigningKey::sign: Ed25519 signing is
/// deterministic, and the produced signature verifies under the signer's
/// own verifying key.
#[verifier::external_body]
pub fn sign_bytes(sk: &[u8; 32], msg: &Vec<u8>) -> (r: [u8; 64])
    ensures
        r@ == ed25519_signature_of(sk@, msg@),
        ed25519_verifies(ed25519_public_of(sk@), msg@, r@),
{
    let signing_key = ed25519_dalek::SigningKey::from_bytes(sk);
    signing_key.sign(msg.as_slice()).to_bytes()
}

/// Relies on rand::rngs::OsRng::fill_bytes: fresh entropy from the
/// operating system. Nothing can be promised of the value.
#[verifier::external_body]
pub fn random_seed() -> [u8; 32] {
    let mut bytes = [0u8; 32];
    rand::RngCore::fill_bytes(&mut rand::rngs::OsRng, &mut bytes);
    bytes
}

/// The character for a single hexadecimal digit, lowercase.
pub open spec fn hex_digit_char(v: u8) -> char
    recommends
        v < 16,
{
    if v < 10 {
        ((48 + v) as u8) as char
    } else {
        ((87 + v) as u8) as char
    }
}

/// The lowercase hexadecimal spelling of a byte sequence, two digits per
/// byte, high nibble first.
pub open spec fn hex_chars_of(b: Seq<u8>) -> Seq<char> {
    Seq::new(
        b.len() * 2,
        |i: int| if i % 2 == 0 {
            hex_digit_char(b[i / 2] / 16)
        } else {
            hex_digit_char(b[i / 2] % 16)
        },
    )
}

/// Format a 32-byte hash as a lowercase hexadecimal string.
///
/// Relies on hex::encode: two lowercase hexadecimal digits per byte,
/// high nibble first.
#[verifier::external_body]
pub fn format_hex(bytes: &[u8; 32]) -> (r: String)
    ensures
        r@ == hex_chars_of(bytes@),
{
    hex::encode(bytes)
}

} // verus!
