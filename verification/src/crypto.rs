//! The crypto envelope: authenticated symmetric encryption of single text
//! payloads with AES-256-GCM. An envelope is one transportable base64
//! string holding `nonce || ciphertext`, sufficient to decrypt without
//! external context. A fresh random nonce is drawn for every encryption.

use vstd::prelude::*;
use vstd::slice::slice_subrange;
use aes_gcm::aead::{Aead, Generate, KeyInit};
use aes_gcm::{Aes256Gcm, Key, Nonce};
use base64::Engine;

verus! {

/// The key length of AES-256-GCM, in bytes.
pub const KEY_LEN: usize = 32;

/// The nonce length of AES-GCM with the usual 96-bit nonce, in bytes.
pub const NONCE_LEN: usize = 12;

/// Plaintexts of at most this many bytes always fit the cipher
/// (AES-GCM accepts close to 2^36 bytes; this stays far below).
pub const MAX_PLAINTEXT_BYTES: u64 = 0x1_0000_0000;

/// Errors from envelope encryption and decryption.
#[derive(Clone, Copy, PartialEq, Eq, Structural, Debug)]
pub enum CryptoError {
    /// The key handed to [`Crypto::new`] does not have `KEY_LEN` bytes.
    WrongKeyLength,
    /// The envelope is not valid base64, or is too short to hold a nonce.
    Malformed,
    /// Authentication failed: the data was tampered with or the key is wrong.
    AuthFailed,
    /// The decrypted bytes are not valid text.
    NotText,
    /// The cipher refused the plaintext: it exceeds the length bound.
    TooLong,
    /// The system's random number generator failed; no nonce could be drawn.
    RngFailed,
}

/// What AES-256-GCM decryption returns for a key, nonce and ciphertext:
/// the plaintext bytes, or `None` when authentication fails. The result
/// depends on the three arguments alone.
pub uninterp spec fn aes_decrypt_of(key: Seq<u8>, nonce: Seq<u8>, ct: Seq<u8>) -> Option<Seq<u8>>;

/// What standard (padded) base64 decoding returns for a string: the bytes,
/// or `None` on invalid input. The result depends on the string alone.
pub uninterp spec fn b64_decode_of(s: Seq<char>) -> Option<Seq<u8>>;

/// What UTF-8 decoding returns for a byte sequence: the text, or `None`
/// when the bytes are not valid UTF-8. The result depends on the bytes alone.
pub uninterp spec fn utf8_decode_of(b: Seq<u8>) -> Option<Seq<char>>;

/// Relies on `aes_gcm::aead::Aead::decrypt` for `Aes256Gcm`: decryption is
/// a deterministic function of key, nonce and ciphertext, returning the
/// plaintext when the authentication tag checks out and an error otherwise.
#[verifier::external_body]
fn aes_decrypt(key: &[u8], nonce: &[u8], ct: &[u8]) -> (r: Option<Vec<u8>>)
    requires
        key@.len() == KEY_LEN,
        nonce@.len() == NONCE_LEN,
    ensures
        match r {
            Some(p) => aes_decrypt_of(key@, nonce@, ct@) == Some(p@),
            None => aes_decrypt_of(key@, nonce@, ct@) is None,
        },
{
    let cipher = Aes256Gcm::new(&Key::<Aes256Gcm>::try_from(key).unwrap());
    let n = Nonce::try_from(nonce).unwrap();
    cipher.decrypt(&n, ct).ok()
}

/// Relies on `aes_gcm::aead::Aead::encrypt` for `Aes256Gcm`: it fails only
/// for plaintexts longer than the AES-GCM bound (near 2^36 bytes, far above
/// `MAX_PLAINTEXT_BYTES`), and decrypting its output with the same key and
/// nonce returns the plaintext (the AEAD round-trip guarantee).
#[verifier::external_body]
fn aes_encrypt(key: &[u8], nonce: &[u8], pt: &[u8]) -> (r: Option<Vec<u8>>)
    requires
        key@.len() == KEY_LEN,
        nonce@.len() == NONCE_LEN,
    ensures
        r matches Some(ct) ==> aes_decrypt_of(key@, nonce@, ct@) == Some(pt@),
        pt@.len() <= MAX_PLAINTEXT_BYTES ==> r is Some,
{
    let cipher = Aes256Gcm::new(&Key::<Aes256Gcm>::try_from(key).unwrap());
    let n = Nonce::try_from(nonce).unwrap();
    cipher.encrypt(&n, pt).ok()
}

/// Relies on `aes_gcm::aead::Generate` (for byte arrays) drawing from the
/// system's secure random number generator: a fresh nonce of `NONCE_LEN`
/// bytes, or `None` when the system generator fails. Nothing is promised of
/// the drawn value itself.
#[verifier::external_body]
fn generate_nonce() -> (r: Option<Vec<u8>>)
    ensures
        r matches Some(n) ==> n@.len() == NONCE_LEN,
{
    let drawn: Result<[u8; 12], _> = Generate::try_generate();
    drawn.ok().map(|a| a.to_vec())
}

/// Relies on `base64::Engine::decode` with the standard engine: decoding is
/// a deterministic function of the input string.
#[verifier::external_body]
fn b64_decode(s: &str) -> (r: Option<Vec<u8>>)
    ensures
        match r {
            Some(b) => b64_decode_of(s@) == Some(b@),
            None => b64_decode_of(s@) is None,
        },
{
    base64::engine::general_purpose::STANDARD.decode(s).ok()
}

/// Relies on `base64::Engine::encode` with the standard engine, and on
/// decoding with the same engine inverting it (the documented round trip).
#[verifier::external_body]
fn b64_encode(b: &[u8]) -> (r: String)
    ensures
        b64_decode_of(r@) == Some(b@),
{
    base64::engine::general_purpose::STANDARD.encode(b)
}

/// Relies on `String::from_utf8`: decoding is a deterministic function of
/// the bytes, succeeding exactly on valid UTF-8.
#[verifier::external_body]
fn utf8_to_string(b: Vec<u8>) -> (r: Option<String>)
    ensures
        match r {
            Some(s) => utf8_decode_of(b@) == Some(s@),
            None => utf8_decode_of(b@) is None,
        },
{
    String::from_utf8(b).ok()
}

/// Relies on `str::as_bytes` returning the UTF-8 encoding of the text,
/// which `String::from_utf8` decodes back to the same text; UTF-8 spends
/// between one and four bytes per character.
#[verifier::external_body]
fn string_to_bytes(s: &str) -> (r: Vec<u8>)
    ensures
        utf8_decode_of(r@) == Some(s@),
        s@.len() <= r@.len() <= 4 * s@.len(),
{
    s.as_bytes().to_vec()
}

/// What decrypting an envelope with `key` yields: base64-decode, split off
/// the nonce, authenticate and decrypt the remainder, then decode the
/// resulting bytes as UTF-8 text. `None` wherever a step fails.
pub open spec fn decrypt_spec(key: Seq<u8>, env: Seq<char>) -> Option<Seq<char>> {
    match b64_decode_of(env) {
        None => None,
        Some(raw) => {
            if raw.len() < NONCE_LEN {
                None
            } else {
                match aes_decrypt_of(
                    key,
                    raw.subrange(0, NONCE_LEN as int),
                    raw.subrange(NONCE_LEN as int, raw.len() as int),
                ) {
                    None => None,
                    Some(pt) => utf8_decode_of(pt),
                }
            }
        },
    }
}

/// The crypto envelope: holds the symmetric key as its raw bytes.
pub struct Crypto {
    key: Vec<u8>,
}

impl Crypto {
    /// The key has the length the cipher demands.
    pub closed spec fn wf(&self) -> bool {
        self.key@.len() == KEY_LEN
    }

    /// The key this envelope encrypts and decrypts with.
    pub closed spec fn key_bytes(&self) -> Seq<u8> {
        self.key@
    }

    /// Accept a key of exactly `KEY_LEN` bytes. A key of any other length
    /// is an unrecoverable startup error, never a silent fallback.
    pub fn new(key: Vec<u8>) -> (r: Result<Crypto, CryptoError>)
        ensures
            key@.len() == KEY_LEN ==> (r matches Ok(c) && c.wf() && c.key_bytes() == key@),
            key@.len() != KEY_LEN ==> (r matches Err(e) && e == CryptoError::WrongKeyLength),
    {
        if key.len() == KEY_LEN {
            Ok(Crypto { key })
        } else {
            Err(CryptoError::WrongKeyLength)
        }
    }

    /// Encrypt a text payload into an envelope. A fresh random nonce is
    /// drawn per call — nonces are never reused — so two calls on equal
    /// plaintexts yield independent envelopes; whatever nonce was drawn,
    /// decrypting the envelope with the same key returns the plaintext.
    ///
    /// Fails only when the plaintext exceeds the cipher's length bound or
    /// the system's random number generator fails.
    pub fn encrypt(&self, plaintext: &str) -> (r: Result<String, CryptoError>)
        requires
            self.wf(),
        ensures
            r matches Ok(env) ==> decrypt_spec(self.key_bytes(), env@) == Some(plaintext@),
            r matches Err(e) ==> (e == CryptoError::TooLong || e == CryptoError::RngFailed),
            4 * plaintext@.len() <= MAX_PLAINTEXT_BYTES ==> !(r matches Err(CryptoError::TooLong)),
    {
        let pt = string_to_bytes(plaintext);
        if pt.len() as u64 > MAX_PLAINTEXT_BYTES {
            return Err(CryptoError::TooLong);
        }
        let nonce = match generate_nonce() {
            Some(n) => n,
            None => {
                return Err(CryptoError::RngFailed);
            },
        };
        let ct = match aes_encrypt(self.key.as_slice(), nonce.as_slice(), pt.as_slice()) {
            Some(c) => c,
            None => {
                // unreachable: the length was checked against the bound
                return Err(CryptoError::TooLong);
            },
        };
        let ghost nonce_bytes = nonce@;
        let ghost ct_bytes = ct@;
        let mut combined = nonce;
        let mut ct = ct;
        combined.append(&mut ct);
        let env = b64_encode(combined.as_slice());
        proof {
            let raw = combined@;
            assert(raw.subrange(0, NONCE_LEN as int) =~= nonce_bytes);
            assert(raw.subrange(NONCE_LEN as int, raw.len() as int) =~= ct_bytes);
        }
        Ok(env)
    }

    /// Decrypt an envelope produced with the same key: split the nonce from
    /// the remainder, authenticate and decrypt. One error per failure mode:
    /// a malformed envelope, failed authentication, bytes that are not text.
    pub fn decrypt(&self, envelope: &str) -> (r: Result<String, CryptoError>)
        requires
            self.wf(),
        ensures
            match r {
                Ok(s) => decrypt_spec(self.key_bytes(), envelope@) == Some(s@),
                Err(_) => decrypt_spec(self.key_bytes(), envelope@) is None,
            },
            r matches Err(e) ==> (e == CryptoError::Malformed || e == CryptoError::AuthFailed
                || e == CryptoError::NotText),
            (r matches Err(e) && e == CryptoError::Malformed) <==> (b64_decode_of(envelope@) is None
                || (b64_decode_of(envelope@) matches Some(raw) && raw.len() < NONCE_LEN)),
    {
        let raw = match b64_decode(envelope) {
            Some(b) => b,
            None => {
                return Err(CryptoError::Malformed);
            },
        };
        if raw.len() < NONCE_LEN {
            return Err(CryptoError::Malformed);
        }
        let nonce = slice_subrange(raw.as_slice(), 0, NONCE_LEN);
        let ct = slice_subrange(raw.as_slice(), NONCE_LEN, raw.len());
        let pt = match aes_decrypt(self.key.as_slice(), nonce, ct) {
            Some(p) => p,
            None => {
                return Err(CryptoError::AuthFailed);
            },
        };
        match utf8_to_string(pt) {
            Some(s) => Ok(s),
            None => Err(CryptoError::NotText),
        }
    }
}

} // verus!
