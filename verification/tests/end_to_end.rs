use fairplay_auth::error::AuthError;
use fairplay_auth::guard::Header;
use fairplay_auth::issuer::{SessionIssuer, TOKEN_LIFETIME};
use fairplay_auth::service::AuthService;

fn bearer(token: &[u8]) -> Vec<Header> {
    let mut value = b"Bearer ".to_vec();
    value.extend_from_slice(token);
    vec![Header::new(b"Authorization".to_vec(), value)]
}

#[test]
fn register_login_and_protected_call() {
    let mut service = AuthService::new(b"an entirely secret signing key".to_vec());
    let alice = service.register("alice", "a@x.com", b"pw123").unwrap();
    let token = service.login("a@x.com", b"pw123").unwrap();
    assert_eq!(service.authorize(&bearer(&token)), Ok(alice));
    assert_eq!(service.store().lookup_by_email("a@x.com").unwrap().identity, alice);
}

#[test]
fn protected_call_without_a_header_is_missing_credentials() {
    let mut service = AuthService::new(b"an entirely secret signing key".to_vec());
    service.register("alice", "a@x.com", b"pw123").unwrap();
    service.login("a@x.com", b"pw123").unwrap();
    assert_eq!(service.authorize(&[]), Err(AuthError::MissingCredentials));
    let other = [Header::new(b"Accept".to_vec(), b"*/*".to_vec())];
    assert_eq!(service.authorize(&other), Err(AuthError::MissingCredentials));
}

#[test]
fn protected_call_with_a_token_of_another_session_is_invalid() {
    let mut service = AuthService::new(b"an entirely secret signing key".to_vec());
    let alice = service.register("alice", "a@x.com", b"pw123").unwrap();
    // a token of another server, for the same identity
    let other = SessionIssuer::new(b"the key of another server".to_vec());
    let foreign = other.issue(alice).unwrap();
    assert_eq!(service.authorize(&bearer(&foreign)), Err(AuthError::InvalidToken));
    // a token of this server whose lifetime has run
    let now = std::time::SystemTime::now()
        .duration_since(std::time::UNIX_EPOCH)
        .unwrap()
        .as_secs();
    let expired = service.login_at("a@x.com", b"pw123", now - TOKEN_LIFETIME - 1).unwrap();
    assert_eq!(service.authorize(&bearer(&expired)), Err(AuthError::InvalidToken));
    let current = service.login_at("a@x.com", b"pw123", now - TOKEN_LIFETIME + 60).unwrap();
    assert_eq!(service.authorize(&bearer(&current)), Ok(alice));
}

#[test]
fn two_users_each_get_their_own_identity_back() {
    let mut service = AuthService::new(b"an entirely secret signing key".to_vec());
    let alice = service.register("alice", "a@x.com", b"pw123").unwrap();
    let bob = service.register("bob", "b@x.com", b"pw456").unwrap();
    let token_a = service.login("a@x.com", b"pw123").unwrap();
    let token_b = service.login("b@x.com", b"pw456").unwrap();
    assert_eq!(service.authorize(&bearer(&token_a)), Ok(alice));
    assert_eq!(service.authorize(&bearer(&token_b)), Ok(bob));
    assert_eq!(service.login("a@x.com", b"pw456"), Err(AuthError::WrongCredentials));
    assert_eq!(service.login("b@x.com", b"pw123"), Err(AuthError::WrongCredentials));
}
