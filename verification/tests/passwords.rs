use argon2::password_hash::{PasswordHasher, SaltString};
use argon2::Argon2;
use fairplay_auth::error::AuthError;
use fairplay_auth::password::{hash, hash_with_salt, verify, EncodedHash};

const REFERENCE: &str =
    "$argon2id$v=19$m=256,t=2,p=1$c29tZXNhbHQ$nf65EOgLrQMR/uIPnA4rEsF5h7TKyQwu9U1bMCHGi/4";

#[test]
fn an_encoded_hash_holds_its_text() {
    let encoded = EncodedHash::new(REFERENCE.to_string());
    assert_eq!(encoded.as_str(), REFERENCE);
}

#[test]
fn a_hash_verifies_against_its_secret() {
    let encoded = hash(b"pw123").unwrap();
    assert!(verify(b"pw123", &encoded));
}

#[test]
fn a_hash_does_not_verify_against_another_secret() {
    let encoded = hash(b"pw123").unwrap();
    assert!(!verify(b"pw124", &encoded));
    assert!(!verify(b"", &encoded));
    assert!(!verify(b"pw123 ", &encoded));
}

#[test]
fn two_hashes_of_one_secret_differ_and_both_verify() {
    let first = hash(b"pw123").unwrap();
    let second = hash(b"pw123").unwrap();
    assert_ne!(first, second);
    assert_ne!(first.as_str(), second.as_str());
    assert!(verify(b"pw123", &first));
    assert!(verify(b"pw123", &second));
}

#[test]
fn the_empty_secret_can_be_hashed() {
    let encoded = hash(b"").unwrap();
    assert!(verify(b"", &encoded));
    assert!(!verify(b"x", &encoded));
}

#[test]
fn a_secret_need_not_be_text() {
    let secret = [0u8, 255, 128, 10, 13, 0];
    let encoded = hash(&secret).unwrap();
    assert!(verify(&secret, &encoded));
    assert!(!verify(&secret[..5], &encoded));
}

#[test]
fn the_encoding_describes_itself() {
    let encoded = hash_with_salt(b"pw123", "c29tZXNhbHQ").unwrap();
    assert!(encoded.as_str().starts_with("$argon2id$v=19$m=19456,t=2,p=1$c29tZXNhbHQ$"));
}

#[test]
fn an_encoding_is_preamble_salt_and_digest() {
    let preamble = "$argon2id$v=19$m=19456,t=2,p=1$";
    for salt in ["c29tZXNhbHQ", "ZGlmZnNhbHQ", "bm9ib2R5aG9tZQ", "AAAAAAAAAAAAAAAAAAAAAA"] {
        let encoded = hash_with_salt(b"pw123", salt).unwrap();
        let text = encoded.as_str();
        assert_eq!(text.len(), preamble.len() + salt.len() + 1 + 43);
        assert_eq!(&text[..preamble.len()], preamble);
        assert_eq!(&text[preamble.len()..preamble.len() + salt.len()], salt);
        assert_eq!(&text[preamble.len() + salt.len()..preamble.len() + salt.len() + 1], "$");
        assert!(!text[preamble.len() + salt.len() + 1..].contains('$'));
    }
}

#[test]
fn a_hash_under_a_fresh_salt_has_the_same_layout() {
    let preamble = "$argon2id$v=19$m=19456,t=2,p=1$";
    let encoded = hash(b"pw123").unwrap();
    let text = encoded.as_str();
    // sixteen random bytes make a salt of 22 characters
    assert_eq!(text.len(), preamble.len() + 22 + 1 + 43);
    assert_eq!(&text[..preamble.len()], preamble);
    assert_eq!(&text[preamble.len() + 22..preamble.len() + 23], "$");
    let salt = &text[preamble.len()..preamble.len() + 22];
    assert_eq!(hash_with_salt(b"pw123", salt).unwrap(), encoded);
}

#[test]
fn secrets_of_many_lengths_are_hashed() {
    for length in [0usize, 1, 7, 8, 64, 1000, 100_000] {
        let secret = vec![0x5au8; length];
        let encoded = hash(&secret).unwrap();
        assert!(verify(&secret, &encoded));
    }
}

#[test]
fn hashing_under_a_given_salt_is_fixed_by_secret_and_salt() {
    let first = hash_with_salt(b"pw123", "c29tZXNhbHQ").unwrap();
    let second = hash_with_salt(b"pw123", "c29tZXNhbHQ").unwrap();
    assert_eq!(first, second);
    let other_salt = hash_with_salt(b"pw123", "ZGlmZnNhbHQ").unwrap();
    assert_ne!(first, other_salt);
    let other_secret = hash_with_salt(b"pw124", "c29tZXNhbHQ").unwrap();
    assert_ne!(first, other_secret);
}

#[test]
fn hashing_agrees_with_the_argon2_crate() {
    let salt = SaltString::from_b64("c29tZXNhbHQ").unwrap();
    let expected = Argon2::default().hash_password(b"pw123", &salt).unwrap().to_string();
    assert_eq!(hash_with_salt(b"pw123", "c29tZXNhbHQ").unwrap().as_str(), expected);
}

#[test]
fn a_salt_that_the_library_refuses_is_a_hashing_fault() {
    assert_eq!(hash_with_salt(b"pw123", ""), Err(AuthError::HashingFault));
    assert_eq!(hash_with_salt(b"pw123", "abc"), Err(AuthError::HashingFault));
    assert_eq!(hash_with_salt(b"pw123", "not base64!"), Err(AuthError::HashingFault));
}

#[test]
fn verifies_a_reference_hash() {
    let encoded = EncodedHash::new(REFERENCE.to_string());
    assert!(verify(b"password", &encoded));
    assert!(!verify(b"differentpassword", &encoded));
}

#[test]
fn a_malformed_encoding_verifies_against_nothing() {
    for text in [
        "",
        "password",
        "$argon2id$",
        "$argon2id$v=19$m=256,t=2,p=1$c29tZXNhbHQ",
        "$argon2id$v=19$m=256,t=2,p=1$c29tZXNhbHQ$nf65EOgLrQMR/uIPnA4rEsF5h7TKyQwu9U1bMCHGi/4$more",
        "$md5$v=19$m=256,t=2,p=1$c29tZXNhbHQ$nf65EOgLrQMR/uIPnA4rEsF5h7TKyQwu9U1bMCHGi/4",
        "$argon2id$v=19$m=256,t=2,p=1$c29tZXNhbHQ$nf65EOgLrQMR/uIPnA4rEsF5h7TKyQwu9U1bMCHGi/5",
    ] {
        let encoded = EncodedHash::new(text.to_string());
        assert!(!verify(b"password", &encoded));
        assert!(!verify(b"", &encoded));
    }
}
