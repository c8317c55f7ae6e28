use clipboard_manager::crypto::{Crypto, CryptoError};

fn make_crypto() -> Crypto {
    Crypto::new(vec![42u8; 32]).unwrap()
}

#[test]
fn round_trip_simple() {
    let c = make_crypto();
    let env = c.encrypt("hello world").unwrap();
    assert_ne!(env, "hello world");
    assert_eq!(c.decrypt(&env).unwrap(), "hello world");
}

#[test]
fn round_trip_empty() {
    let c = make_crypto();
    let env = c.encrypt("").unwrap();
    assert_eq!(c.decrypt(&env).unwrap(), "");
}

#[test]
fn round_trip_long_text() {
    let c = make_crypto();
    let plain: String = "abcdefghij".chars().cycle().take(10_000).collect();
    let env = c.encrypt(&plain).unwrap();
    assert_eq!(c.decrypt(&env).unwrap(), plain);
}

#[test]
fn round_trip_non_ascii() {
    let c = make_crypto();
    let plain = "héllo wörld — 剪贴板 📋 ответ";
    let env = c.encrypt(plain).unwrap();
    assert_eq!(c.decrypt(&env).unwrap(), plain);
}

#[test]
fn fresh_nonce_per_call() {
    let c = make_crypto();
    let a = c.encrypt("same text").unwrap();
    let b = c.encrypt("same text").unwrap();
    assert_ne!(a, b);
    assert_eq!(c.decrypt(&a).unwrap(), "same text");
    assert_eq!(c.decrypt(&b).unwrap(), "same text");
}

#[test]
fn malformed_envelopes() {
    let c = make_crypto();
    // not base64 at all
    assert_eq!(c.decrypt("@@@not base64@@@"), Err(CryptoError::Malformed));
    // valid base64 but too short to hold a nonce
    assert_eq!(c.decrypt("YWJj"), Err(CryptoError::Malformed));
}

#[test]
fn wrong_key_fails_authentication() {
    let c1 = Crypto::new(vec![1u8; 32]).unwrap();
    let c2 = Crypto::new(vec![2u8; 32]).unwrap();
    let env = c1.encrypt("guarded").unwrap();
    assert_eq!(c2.decrypt(&env), Err(CryptoError::AuthFailed));
}

#[test]
fn tampered_envelope_fails_authentication() {
    let c = make_crypto();
    let env = c.encrypt("integrity").unwrap();
    let mut bytes = env.into_bytes();
    let last = bytes.len() - 1;
    bytes[last] = if bytes[last] == b'A' { b'B' } else { b'A' };
    let tampered = String::from_utf8(bytes).unwrap();
    assert!(c.decrypt(&tampered).is_err());
}

#[test]
fn wrong_key_length_is_fatal() {
    assert!(matches!(Crypto::new(vec![0u8; 31]), Err(CryptoError::WrongKeyLength)));
    assert!(matches!(Crypto::new(vec![0u8; 0]), Err(CryptoError::WrongKeyLength)));
    assert!(Crypto::new(vec![0u8; 32]).is_ok());
}
