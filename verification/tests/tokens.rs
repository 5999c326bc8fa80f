use base64::engine::general_purpose::URL_SAFE_NO_PAD;
use base64::Engine;
use fairplay_auth::claims::Claims;
use fairplay_auth::error::AuthError;
use fairplay_auth::identity::Identity;
use fairplay_auth::issuer::{SessionIssuer, TOKEN_LIFETIME};
use fairplay_auth::token::{compose, parse, signing_text, TokenParts, DOT};
use hmac::{Hmac, Mac};
use sha2::Sha256;

const KEY: &[u8] = b"an entirely secret signing key";
const HEADER: &str = "eyJhbGciOiJIUzI1NiIsInR5cCI6IkpXVCJ9";
const ALICE: Identity = Identity(0x67e5504410b1426f9247bb680e5fe0c8);
const NOON: u64 = 1700000000;

fn tag(key: &[u8], message: &[u8]) -> Vec<u8> {
    let mut mac = Hmac::<Sha256>::new_from_slice(key).unwrap();
    mac.update(message);
    mac.finalize().into_bytes().to_vec()
}

fn sign(key: &[u8], claims: &Claims) -> Vec<u8> {
    compose(claims, &tag(key, &signing_text(claims)))
}

fn sample() -> Claims {
    Claims { subject: ALICE, issued_at: NOON, expiry: NOON + TOKEN_LIFETIME }
}

#[test]
fn the_lifetime_of_a_token_is_a_day() {
    assert_eq!(TOKEN_LIFETIME, 24 * 60 * 60);
}

#[test]
fn the_segments_are_separated_by_dots() {
    assert_eq!(DOT, b'.');
}

#[test]
fn the_signing_text_is_header_dot_claims() {
    let claims = "{\"sub\":\"67e5504410b1426f9247bb680e5fe0c8\",\"iat\":1700000000,\"exp\":1700086400}";
    let expected = format!("{}.{}", HEADER, URL_SAFE_NO_PAD.encode(claims));
    assert_eq!(signing_text(&sample()), expected.into_bytes());
}

#[test]
fn the_header_names_hmac_with_sha_256() {
    let text = signing_text(&sample());
    let header = URL_SAFE_NO_PAD.decode(&text[..HEADER.len()]).unwrap();
    assert_eq!(header, b"{\"alg\":\"HS256\",\"typ\":\"JWT\"}".to_vec());
}

#[test]
fn compose_appends_the_encoded_signature() {
    let signature = [0xfbu8, 0xff, 0x00];
    let mut expected = signing_text(&sample());
    expected.extend_from_slice(b".-_8A");
    assert_eq!(compose(&sample(), &signature), expected);
}

#[test]
fn parse_undoes_compose() {
    let signature = vec![1u8, 2, 3, 4, 5];
    let token = compose(&sample(), &signature);
    let signed_len = signing_text(&sample()).len();
    assert_eq!(parse(&token), Some(TokenParts { claims: sample(), signed_len, signature }));
}

#[test]
fn parse_takes_an_empty_signature() {
    let token = compose(&sample(), b"");
    assert_eq!(token.last(), Some(&b'.'));
    let parts = parse(&token).unwrap();
    assert_eq!(parts.claims, sample());
    assert_eq!(parts.signature, Vec::<u8>::new());
}

#[test]
fn parse_refuses_what_is_no_token() {
    let good = compose(&sample(), &[9u8; 32]);
    assert!(parse(&good).is_some());
    assert_eq!(parse(b""), None);
    assert_eq!(parse(b"."), None);
    assert_eq!(parse(b".."), None);
    assert_eq!(parse(b"a.b.c"), None);
    assert_eq!(parse(HEADER.as_bytes()), None);
    // one dot too few
    let first_two = signing_text(&sample());
    assert_eq!(parse(&first_two), None);
    // one segment too many
    let mut longer = good.clone();
    longer.extend_from_slice(b".AAAA");
    assert_eq!(parse(&longer), None);
    // white space at the end
    let mut spaced = good.clone();
    spaced.push(b' ');
    assert_eq!(parse(&spaced), None);
}

#[test]
fn parse_refuses_another_header() {
    let claims = URL_SAFE_NO_PAD.encode(
        "{\"sub\":\"67e5504410b1426f9247bb680e5fe0c8\",\"iat\":1700000000,\"exp\":1700086400}",
    );
    let unsigned = URL_SAFE_NO_PAD.encode("{\"alg\":\"none\",\"typ\":\"JWT\"}");
    let token = format!("{}.{}.", unsigned, claims);
    assert_eq!(parse(token.as_bytes()), None);
    let accepted = format!("{}.{}.", HEADER, claims);
    assert!(parse(accepted.as_bytes()).is_some());
}

#[test]
fn issue_at_signs_the_claims_with_hmac_sha_256() {
    let issuer = SessionIssuer::new(KEY.to_vec());
    let token = issuer.issue_at(ALICE, NOON).unwrap();
    assert_eq!(token, sign(KEY, &sample()));
    let parts = parse(&token).unwrap();
    assert_eq!(parts.claims, sample());
    assert_eq!(parts.signature, tag(KEY, &token[..parts.signed_len]));
    assert_eq!(parts.signature.len(), 32);
}

#[test]
fn issue_at_yields_a_known_token() {
    let issuer = SessionIssuer::new(KEY.to_vec());
    let token = issuer.issue_at(ALICE, NOON).unwrap();
    let expected = "eyJhbGciOiJIUzI1NiIsInR5cCI6IkpXVCJ9.\
eyJzdWIiOiI2N2U1NTA0NDEwYjE0MjZmOTI0N2JiNjgwZTVmZTBjOCIsImlhdCI6MTcwMDAwMDAwMCwiZXhwIjoxNzAwMDg2NDAwfQ.\
F56Kg05rQhe9NEVLwTIM49Gw-JJtSQONBy03KriAWY0";
    assert_eq!(String::from_utf8(token).unwrap(), expected);
}

#[test]
fn issue_at_sets_the_expiry_a_day_after_the_issue() {
    let issuer = SessionIssuer::new(KEY.to_vec());
    let parts = parse(&issuer.issue_at(ALICE, 5).unwrap()).unwrap();
    assert_eq!(parts.claims, Claims { subject: ALICE, issued_at: 5, expiry: 86405 });
}

#[test]
fn issue_at_fails_where_the_expiry_does_not_fit() {
    let issuer = SessionIssuer::new(KEY.to_vec());
    assert_eq!(issuer.issue_at(ALICE, u64::MAX), Err(AuthError::TokenCreation));
    assert_eq!(issuer.issue_at(ALICE, u64::MAX - TOKEN_LIFETIME + 1), Err(AuthError::TokenCreation));
    assert!(issuer.issue_at(ALICE, u64::MAX - TOKEN_LIFETIME).is_ok());
}

#[test]
fn an_issued_token_validates_and_returns_the_identity() {
    let issuer = SessionIssuer::new(KEY.to_vec());
    let token = issuer.issue_at(ALICE, NOON).unwrap();
    assert_eq!(issuer.validate_at(&token, NOON), Ok(ALICE));
    assert_eq!(issuer.validate_at(&token, NOON + 1), Ok(ALICE));
    assert_eq!(issuer.validate_at(&token, NOON + TOKEN_LIFETIME), Ok(ALICE));
}

#[test]
fn a_token_is_accepted_before_its_time_of_issue() {
    // Only the expiry is checked against the clock.
    let issuer = SessionIssuer::new(KEY.to_vec());
    let token = issuer.issue_at(ALICE, NOON).unwrap();
    assert_eq!(issuer.validate_at(&token, 0), Ok(ALICE));
}

#[test]
fn an_expired_token_is_invalid() {
    let issuer = SessionIssuer::new(KEY.to_vec());
    let token = issuer.issue_at(ALICE, NOON).unwrap();
    assert_eq!(issuer.validate_at(&token, NOON + TOKEN_LIFETIME + 1), Err(AuthError::InvalidToken));
    assert_eq!(issuer.validate_at(&token, u64::MAX), Err(AuthError::InvalidToken));
}

#[test]
fn a_token_with_its_expiry_set_to_the_past_is_invalid() {
    let issuer = SessionIssuer::new(KEY.to_vec());
    let now = 1700000000;
    let stale = Claims { subject: ALICE, issued_at: now - 10, expiry: now - 1 };
    let token = sign(KEY, &stale);
    assert_eq!(issuer.validate_at(&token, now), Err(AuthError::InvalidToken));
    assert_eq!(issuer.validate(&token), Err(AuthError::InvalidToken));
    // the same token is accepted up to its expiry, so the signature is not the reason
    assert_eq!(issuer.validate_at(&token, now - 1), Ok(ALICE));
}

#[test]
fn a_token_with_a_tampered_signature_is_invalid() {
    let issuer = SessionIssuer::new(KEY.to_vec());
    let token = issuer.issue_at(ALICE, NOON).unwrap();
    let parts = parse(&token).unwrap();
    for i in 0..parts.signature.len() {
        let mut signature = parts.signature.clone();
        signature[i] ^= 1;
        let forged = compose(&parts.claims, &signature);
        assert_eq!(issuer.validate_at(&forged, NOON), Err(AuthError::InvalidToken));
    }
    let shorter = compose(&parts.claims, &parts.signature[..31]);
    assert_eq!(issuer.validate_at(&shorter, NOON), Err(AuthError::InvalidToken));
    let empty = compose(&parts.claims, b"");
    assert_eq!(issuer.validate_at(&empty, NOON), Err(AuthError::InvalidToken));
}

#[test]
fn a_token_with_altered_characters_is_invalid() {
    let issuer = SessionIssuer::new(KEY.to_vec());
    let token = issuer.issue_at(ALICE, NOON).unwrap();
    for i in 0..token.len() {
        let mut altered = token.clone();
        altered[i] = if altered[i] == b'A' { b'B' } else { b'A' };
        assert_eq!(issuer.validate_at(&altered, NOON), Err(AuthError::InvalidToken));
    }
}

#[test]
fn a_token_with_altered_claims_is_invalid() {
    let issuer = SessionIssuer::new(KEY.to_vec());
    let parts = parse(&issuer.issue_at(ALICE, NOON).unwrap()).unwrap();
    let mallory = Claims { subject: Identity(1), ..parts.claims };
    let forged = compose(&mallory, &parts.signature);
    assert_eq!(issuer.validate_at(&forged, NOON), Err(AuthError::InvalidToken));
    let longer = Claims { expiry: parts.claims.expiry + 1, ..parts.claims };
    let forged = compose(&longer, &parts.signature);
    assert_eq!(issuer.validate_at(&forged, NOON), Err(AuthError::InvalidToken));
}

#[test]
fn a_token_signed_under_another_key_is_invalid() {
    let issuer = SessionIssuer::new(KEY.to_vec());
    let other = SessionIssuer::new(b"another key".to_vec());
    let token = other.issue_at(ALICE, NOON).unwrap();
    assert_eq!(other.validate_at(&token, NOON), Ok(ALICE));
    assert_eq!(issuer.validate_at(&token, NOON), Err(AuthError::InvalidToken));
}

#[test]
fn what_is_no_token_is_invalid() {
    let issuer = SessionIssuer::new(KEY.to_vec());
    assert_eq!(issuer.validate_at(b"", NOON), Err(AuthError::InvalidToken));
    assert_eq!(issuer.validate_at(b"..", NOON), Err(AuthError::InvalidToken));
    assert_eq!(issuer.validate_at(b"not a token", NOON), Err(AuthError::InvalidToken));
}

#[test]
fn an_empty_key_signs_too() {
    let issuer = SessionIssuer::new(Vec::new());
    let token = issuer.issue_at(ALICE, NOON).unwrap();
    assert_eq!(token, sign(b"", &sample()));
    assert_eq!(issuer.validate_at(&token, NOON), Ok(ALICE));
}

#[test]
fn issue_reads_the_wall_clock() {
    let issuer = SessionIssuer::new(KEY.to_vec());
    let before = std::time::SystemTime::now()
        .duration_since(std::time::UNIX_EPOCH)
        .unwrap()
        .as_secs();
    let token = issuer.issue(ALICE).unwrap();
    let after = std::time::SystemTime::now()
        .duration_since(std::time::UNIX_EPOCH)
        .unwrap()
        .as_secs();
    let claims = parse(&token).unwrap().claims;
    assert_eq!(claims.subject, ALICE);
    assert!(before <= claims.issued_at && claims.issued_at <= after);
    assert_eq!(claims.expiry, claims.issued_at + TOKEN_LIFETIME);
}

#[test]
fn a_token_validates_immediately_after_issuance() {
    let issuer = SessionIssuer::new(KEY.to_vec());
    let token = issuer.issue(ALICE).unwrap();
    assert_eq!(issuer.validate(&token), Ok(ALICE));
}

#[test]
fn validate_reads_the_wall_clock() {
    let issuer = SessionIssuer::new(KEY.to_vec());
    let now = std::time::SystemTime::now()
        .duration_since(std::time::UNIX_EPOCH)
        .unwrap()
        .as_secs();
    let ends_in_an_hour = Claims { subject: ALICE, issued_at: 0, expiry: now + 3600 };
    assert_eq!(issuer.validate(&sign(KEY, &ends_in_an_hour)), Ok(ALICE));
    let ended_an_hour_ago = Claims { subject: ALICE, issued_at: 0, expiry: now - 3600 };
    assert_eq!(issuer.validate(&sign(KEY, &ended_an_hour_ago)), Err(AuthError::InvalidToken));
}
