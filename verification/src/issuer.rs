//! Issuing and validating session tokens.
//!
//! A token is self-contained: it names the identity it speaks for and the time
//! until which it does, and is signed under a key that only the server holds.
//! Nothing is stored, so validation is the signature and the clock.

use vstd::prelude::*;
use vstd::slice::slice_subrange;

use crate::claims::Claims;
use crate::clock::unix_time;
use crate::error::AuthError;
use crate::identity::Identity;
use crate::mac::{compute_tag, hmac_sha256, tag_matches};
use crate::token::{compose, lemma_token_of_injective, parse, signing_input, signing_text, token_of};

verus! {

/// For how many seconds a token is accepted after it was issued: 24 hours.
pub const TOKEN_LIFETIME: u64 = 86400;

/// The claims of a token issued to `identity` at the time `now`, or `None`
/// where the expiry would not fit in 64 bits.
pub open spec fn fresh_claims(identity: Identity, now: u64) -> Option<Claims> {
    if now + TOKEN_LIFETIME <= u64::MAX {
        Some(Claims { subject: identity, issued_at: now, expiry: (now + TOKEN_LIFETIME) as u64 })
    } else {
        None
    }
}

/// The token that carries the claims `c` signed under `key`, or `None` where
/// the MAC refuses the key.
pub open spec fn signed_token(c: Claims, key: Seq<u8>) -> Option<Seq<u8>> {
    match hmac_sha256(key, signing_input(c)) {
        Some(tag) => Some(token_of(c, tag)),
        None => None,
    }
}

/// What issuing a token to `identity` at the time `now` under `key` yields.
pub open spec fn issued(key: Seq<u8>, identity: Identity, now: u64) -> Result<Seq<u8>, AuthError> {
    match fresh_claims(identity, now) {
        Some(c) => match signed_token(c, key) {
            Some(token) => Ok(token),
            None => Err(AuthError::TokenCreation),
        },
        None => Err(AuthError::TokenCreation),
    }
}

/// Whether `token` is signed under `key` and carries the claims `c`.
pub open spec fn carries(token: Seq<u8>, key: Seq<u8>, c: Claims) -> bool {
    signed_token(c, key) == Some(token)
}

/// Whether `token`, presented at the time `now`, speaks for `identity`: it is
/// signed under `key`, names `identity` as its subject, and has not expired.
pub open spec fn speaks_for(token: Seq<u8>, key: Seq<u8>, now: u64, identity: Identity) -> bool {
    exists|c: Claims| #[trigger] carries(token, key, c) && c.subject == identity && now <= c.expiry
}

/// Whether `token` speaks for `identity` at some time.
pub open spec fn speaks_for_at_some_time(token: Seq<u8>, key: Seq<u8>, identity: Identity) -> bool {
    exists|now: u64| #[trigger] speaks_for(token, key, now, identity)
}

/// Whether `token` is what issuing to `identity` under `key` yields at some
/// time.
pub open spec fn issued_at_some_time(key: Seq<u8>, identity: Identity, token: Seq<u8>) -> bool {
    exists|now: u64| #[trigger] issued(key, identity, now) == Ok::<Seq<u8>, AuthError>(token)
}

/// Signs and checks the tokens of one server.
pub struct SessionIssuer {
    secret: Vec<u8>,
}

impl SessionIssuer {
    /// The signing key.
    pub closed spec fn key(&self) -> Seq<u8> {
        self.secret@
    }

    /// Makes an issuer that signs under `secret`.
    pub fn new(secret: Vec<u8>) -> (issuer: SessionIssuer)
        ensures
            issuer.key() == secret@,
    {
        SessionIssuer { secret }
    }

    /// Issues a token to `identity` as if the time were `now`.
    ///
    /// The token expires `TOKEN_LIFETIME` seconds after `now`. A token is
    /// issued whenever that expiry fits in 64 bits; where it does not, the
    /// failure is `TokenCreation`.
    pub fn issue_at(&self, identity: Identity, now: u64) -> (r: Result<Vec<u8>, AuthError>)
        ensures
            match r {
                Ok(token) => issued(self.key(), identity, now) == Ok::<Seq<u8>, AuthError>(token@),
                Err(e) => issued(self.key(), identity, now) == Err::<Seq<u8>, AuthError>(e),
            },
            r is Ok <==> now + TOKEN_LIFETIME <= u64::MAX,
    {
        let expiry = match now.checked_add(TOKEN_LIFETIME) {
            Some(e) => e,
            None => {
                return Err(AuthError::TokenCreation);
            },
        };
        let claims = Claims { subject: identity, issued_at: now, expiry };
        let message = signing_text(&claims);
        match compute_tag(self.secret.as_slice(), message.as_slice()) {
            Ok(tag) => Ok(compose(&claims, tag.as_slice())),
            Err(_) => Err(AuthError::TokenCreation),
        }
    }

    /// Issues a token to `identity` at the time that the wall clock shows.
    ///
    /// Fails with `TimeUnavailable` where the clock cannot be read, and else as
    /// `issue_at` does.
    pub fn issue(&self, identity: Identity) -> (r: Result<Vec<u8>, AuthError>)
        ensures
            match r {
                Ok(token) => issued_at_some_time(self.key(), identity, token@),
                Err(e) => e == AuthError::TimeUnavailable || e == AuthError::TokenCreation,
            },
    {
        match unix_time() {
            Some(now) => self.issue_at(identity, now),
            None => Err(AuthError::TimeUnavailable),
        }
    }

    /// Validates `token` as if the time were `now`.
    ///
    /// Returns the identity that the token speaks for. Every failure is
    /// `InvalidToken`, whether the token is malformed, signed under another
    /// key, altered, or expired: which check failed is not told. The signature
    /// is checked before the expiry.
    pub fn validate_at(&self, token: &[u8], now: u64) -> (r: Result<Identity, AuthError>)
        ensures
            match r {
                Ok(identity) => speaks_for(token@, self.key(), now, identity),
                Err(e) => e == AuthError::InvalidToken && forall|identity: Identity|
                    !speaks_for(token@, self.key(), now, identity),
            },
    {
        let parts = match parse(token) {
            Some(p) => p,
            None => {
                return Err(AuthError::InvalidToken);
            },
        };
        proof {
            assert forall|c: Claims| #[trigger] carries(token@, self.key(), c) implies c == parts.claims
                && hmac_sha256(self.key(), signing_input(c)) == Some(parts.signature@) by {
                let tag = hmac_sha256(self.key(), signing_input(c)).unwrap();
                lemma_token_of_injective(c, tag, parts.claims, parts.signature@);
            }
            assert(token@.subrange(0, parts.signed_len as int) =~= signing_input(parts.claims));
        }
        let message = slice_subrange(token, 0, parts.signed_len);
        if !tag_matches(self.secret.as_slice(), message, parts.signature.as_slice()) {
            return Err(AuthError::InvalidToken);
        }
        assert(carries(token@, self.key(), parts.claims));
        if now > parts.claims.expiry {
            return Err(AuthError::InvalidToken);
        }
        Ok(parts.claims.subject)
    }

    /// Validates `token` at the time that the wall clock shows.
    ///
    /// A token that is accepted speaks for the identity returned at some time.
    /// Where the clock cannot be read, no token is accepted.
    pub fn validate(&self, token: &[u8]) -> (r: Result<Identity, AuthError>)
        ensures
            match r {
                Ok(identity) => speaks_for_at_some_time(token@, self.key(), identity),
                Err(e) => e == AuthError::InvalidToken,
            },
    {
        match unix_time() {
            Some(now) => self.validate_at(token, now),
            None => Err(AuthError::InvalidToken),
        }
    }
}

/// A token speaks for an identity exactly when its signature is the tag of what
/// it signs, its subject is that identity, and its expiry has not passed.
pub proof fn lemma_acceptance(c: Claims, signature: Seq<u8>, key: Seq<u8>, now: u64, identity: Identity)
    ensures
        speaks_for(token_of(c, signature), key, now, identity) <==> (hmac_sha256(
            key,
            signing_input(c),
        ) == Some(signature) && c.subject == identity && now <= c.expiry),
{
    let token = token_of(c, signature);
    if speaks_for(token, key, now, identity) {
        let d = choose|d: Claims| #[trigger] carries(token, key, d) && d.subject == identity && now <= d.expiry;
        let tag = hmac_sha256(key, signing_input(d)).unwrap();
        lemma_token_of_injective(d, tag, c, signature);
    }
    if hmac_sha256(key, signing_input(c)) == Some(signature) && c.subject == identity && now
        <= c.expiry {
        assert(carries(token, key, c));
    }
}

/// A token that was issued is accepted from the moment of issue until its
/// lifetime has run, and speaks for the identity it was issued to and for no
/// other.
pub proof fn lemma_issued_token_is_accepted(
    key: Seq<u8>,
    identity: Identity,
    issued_at: u64,
    token: Seq<u8>,
    now: u64,
)
    requires
        issued(key, identity, issued_at) == Ok::<Seq<u8>, AuthError>(token),
        issued_at <= now <= issued_at + TOKEN_LIFETIME,
    ensures
        speaks_for(token, key, now, identity),
        forall|other: Identity| speaks_for(token, key, now, other) ==> other == identity,
{
    let c = fresh_claims(identity, issued_at).unwrap();
    let tag = hmac_sha256(key, signing_input(c)).unwrap();
    lemma_acceptance(c, tag, key, now, identity);
    assert forall|other: Identity| speaks_for(token, key, now, other) implies other == identity by {
        lemma_acceptance(c, tag, key, now, other);
    }
}

/// A token whose expiry lies in the past speaks for nobody, though its
/// signature is right.
pub proof fn lemma_expired_token_is_rejected(c: Claims, key: Seq<u8>, token: Seq<u8>, now: u64)
    requires
        signed_token(c, key) == Some(token),
        now > c.expiry,
    ensures
        forall|identity: Identity| !speaks_for(token, key, now, identity),
{
    let tag = hmac_sha256(key, signing_input(c)).unwrap();
    assert forall|identity: Identity| !speaks_for(token, key, now, identity) by {
        lemma_acceptance(c, tag, key, now, identity);
    }
}

/// A token whose signature is anything but the tag of what it signs speaks
/// for nobody, at any time.
pub proof fn lemma_tampered_signature_is_rejected(c: Claims, key: Seq<u8>, signature: Seq<u8>, now: u64)
    requires
        hmac_sha256(key, signing_input(c)) != Some(signature),
    ensures
        forall|identity: Identity| !speaks_for(token_of(c, signature), key, now, identity),
{
    assert forall|identity: Identity| !speaks_for(token_of(c, signature), key, now, identity) by {
        lemma_acceptance(c, signature, key, now, identity);
    }
}

} // verus!
