//! The trusted boundary around the outside cryptography and encoding crates.
//!
//! Every function here is believed, not proved: its contract states only what
//! the named outside function's source and documentation show.  All logic that
//! builds on these contracts is verified.

use vstd::prelude::*;
use aes_gcm::aead::{Aead, KeyInit};
use aes_gcm::{Aes256Gcm, Key, Nonce};
use base64::Engine;
use rand_core::TryRngCore;

verus! {

/// The 32-byte symmetric key that key derivation assigns to a password.
pub uninterp spec fn key_of(password: Seq<char>) -> Seq<u8>;

/// AEAD sealing: the ciphertext-plus-tag for a key, nonce and plaintext.
pub uninterp spec fn aead_seal(key: Seq<u8>, nonce: Seq<u8>, plain: Seq<char>) -> Seq<u8>;

/// AEAD opening: the text a ciphertext authenticates to under a key and
/// nonce, or nothing when authentication fails.
pub uninterp spec fn aead_open(key: Seq<u8>, nonce: Seq<u8>, ct: Seq<u8>) -> Option<Seq<char>>;

/// The characters the standard base64 encoding can emit: the RFC 4648
/// alphabet plus the padding character.  No control character — in
/// particular no newline — is among them.
pub open spec fn is_base64_char(c: char) -> bool {
    ||| 'A' <= c && c <= 'Z'
    ||| 'a' <= c && c <= 'z'
    ||| '0' <= c && c <= '9'
    ||| c == '+'
    ||| c == '/'
    ||| c == '='
}

/// The standard base64 text of a byte string.
pub uninterp spec fn b64_of(bytes: Seq<u8>) -> Seq<char>;

/// What standard base64 decoding yields for a text, when it is well-formed.
pub uninterp spec fn b64_parse(s: Seq<char>) -> Option<Seq<u8>>;

/// Derive the symmetric key for a password.
///
/// Relies on blake3::hash: a 32-byte digest of the password's bytes,
/// determined by the password alone.
#[verifier::external_body]
pub(crate) fn derive_key(password: &str) -> (r: Vec<u8>)
    ensures
        r@ == key_of(password@),
        r@.len() == 32,
{
    blake3::hash(password.as_bytes()).as_bytes().to_vec()
}

/// Encrypt one serialized record under a key and nonce.
///
/// Relies on aes_gcm::Aes256Gcm through aead::Aead::encrypt: the ciphertext
/// is a function of key, nonce and plaintext alone; encryption succeeds
/// whenever the plaintext stays within the cipher's plaintext bound of 2^36
/// bytes (at most four bytes per character); and decrypting its result under
/// the same key and nonce returns exactly the sealed text.
#[verifier::external_body]
pub(crate) fn seal_record(key: &Vec<u8>, nonce: &Vec<u8>, plain: &str) -> (r: Option<Vec<u8>>)
    requires
        key@.len() == 32,
        nonce@.len() == 12,
    ensures
        r matches Some(ct) ==> ct@ == aead_seal(key@, nonce@, plain@) && aead_open(
            key@,
            nonce@,
            ct@,
        ) == Some(plain@),
        plain@.len() <= 0x4_0000_0000 ==> r is Some,
{
    let cipher = Aes256Gcm::new(Key::<Aes256Gcm>::from_slice(key));
    cipher.encrypt(Nonce::from_slice(nonce), plain.as_bytes()).ok()
}

/// Decrypt and authenticate one record's ciphertext.
///
/// Relies on aes_gcm::Aes256Gcm through aead::Aead::decrypt: authenticated
/// decryption is a function of key, nonce and ciphertext alone, and returns
/// the sealed plaintext only when the tag verifies; and on
/// alloc::string::String::from_utf8_lossy to read the plaintext bytes back
/// as text.
#[verifier::external_body]
pub(crate) fn open_record(key: &Vec<u8>, nonce: &Vec<u8>, ct: &Vec<u8>) -> (r: Option<String>)
    requires
        key@.len() == 32,
        nonce@.len() == 12,
    ensures
        match r {
            Some(p) => aead_open(key@, nonce@, ct@) == Some(p@),
            None => aead_open(key@, nonce@, ct@) is None,
        },
{
    let cipher = Aes256Gcm::new(Key::<Aes256Gcm>::from_slice(key));
    match cipher.decrypt(Nonce::from_slice(nonce), ct.as_slice()) {
        Ok(bytes) => Some(String::from_utf8_lossy(&bytes).into_owned()),
        Err(_) => None,
    }
}

/// Draw a fresh random 96-bit nonce.
///
/// Relies on rand_core::OsRng::try_fill_bytes: on success the buffer is
/// filled from the operating system's entropy source.  Nothing is assumed of
/// the bytes themselves: every caller's contract holds for any outcome.
#[verifier::external_body]
pub(crate) fn fresh_nonce() -> (r: Option<Vec<u8>>)
    ensures
        r matches Some(n) ==> n@.len() == 12,
{
    let mut bytes = [0u8; 12];
    match rand_core::OsRng.try_fill_bytes(&mut bytes) {
        Ok(()) => Some(bytes.to_vec()),
        Err(_) => None,
    }
}

/// Encode bytes as one base64 line.
///
/// Relies on base64::engine::general_purpose::STANDARD: encoding is a
/// function of the bytes alone; decoding an encoded text yields the bytes
/// back; and the output draws only on the standard alphabet and padding.
#[verifier::external_body]
pub(crate) fn b64_encode(bytes: &Vec<u8>) -> (r: String)
    ensures
        r@ == b64_of(bytes@),
        b64_parse(r@) == Some(bytes@),
        forall|i: int| 0 <= i < r@.len() ==> is_base64_char(#[trigger] r@[i]),
{
    base64::engine::general_purpose::STANDARD.encode(bytes)
}

/// Decode one base64 line.
///
/// Relies on base64::engine::general_purpose::STANDARD: decoding is a
/// function of the text alone, failing exactly on malformed base64.
#[verifier::external_body]
pub(crate) fn b64_decode(line: &str) -> (r: Option<Vec<u8>>)
    ensures
        match r {
            Some(b) => b64_parse(line@) == Some(b@),
            None => b64_parse(line@) is None,
        },
{
    base64::engine::general_purpose::STANDARD.decode(line).ok()
}

/// Draw a fresh record identifier.
///
/// Relies on uuid::Uuid::new_v4 and its hyphenated rendering: 36 characters,
/// each a lowercase hex digit or a hyphen.  Which identifier comes back is
/// random; nothing else is assumed of it.
#[verifier::external_body]
pub(crate) fn new_record_id() -> (r: String)
    ensures
        r@.len() == 36,
        forall|i: int|
            0 <= i < r@.len() ==> r@[i] == '-' || ('0' <= r@[i] && r@[i] <= '9') || ('a' <= r@[i]
                && r@[i] <= 'f'),
{
    uuid::Uuid::new_v4().to_string()
}

} // verus!
