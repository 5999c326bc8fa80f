//! The two flows of the subsystem, registration and login, and the service
//! that runs them on a store and an issuer of its own.
//!
//! Each flow is a short pipeline that stops at the first failure. The steps are
//! functions of their own, so that a caller whose records live elsewhere can
//! run the same decisions on what its own store answers.

use vstd::prelude::*;

use crate::error::AuthError;
use crate::guard::{extract_and_validate, extract_and_validate_at, presented, Header};
use crate::identity::Identity;
use crate::issuer::{
    issued, issued_at_some_time, speaks_for, speaks_for_at_some_time, SessionIssuer, TOKEN_LIFETIME,
};
use crate::password::{argon2_accepts, hash, is_hash_of, verify, EncodedHash, MAX_SECRET_LENGTH};
use crate::session::{SessionTable, Token};
use crate::store::{
    created, has_email, lemma_created_keeps_well_formed, lemma_second_registration_is_refused,
    record_of, well_formed, CredentialRecord, CredentialStore, Record, StoreError,
};

verus! {

/// Whom `secret` authenticates, given what the store found for an email.
///
/// No record and a record with another secret are one outcome.
pub open spec fn authenticated(found: Option<Record>, secret: Seq<u8>) -> Result<Identity, AuthError> {
    match found {
        Some(record) => if argon2_accepts(secret, record.password_hash) {
            Ok(record.identity)
        } else {
            Err(AuthError::WrongCredentials)
        },
        None => Err(AuthError::WrongCredentials),
    }
}

/// What a login with `email` and `secret` at the time `now` yields, against
/// the records `records` and under the signing key `key`.
pub open spec fn login_outcome(
    records: Seq<Record>,
    key: Seq<u8>,
    email: Seq<char>,
    secret: Seq<u8>,
    now: u64,
) -> Result<Seq<u8>, AuthError> {
    match authenticated(record_of(records, email), secret) {
        Ok(identity) => issued(key, identity, now),
        Err(e) => Err(e),
    }
}

/// Whether `token` is what a login with `email` and `secret` yields at some
/// time.
pub open spec fn logged_in_at_some_time(
    records: Seq<Record>,
    key: Seq<u8>,
    email: Seq<char>,
    secret: Seq<u8>,
    token: Seq<u8>,
) -> bool {
    exists|now: u64| #[trigger]
        login_outcome(records, key, email, secret, now) == Ok::<Seq<u8>, AuthError>(token)
}

/// Whether `after` is `before` with one record more, for a new user with the
/// identity `identity` and some hash of `secret`.
pub open spec fn registered(
    before: Seq<Record>,
    after: Seq<Record>,
    identity: Identity,
    username: Seq<char>,
    email: Seq<char>,
    secret: Seq<u8>,
) -> bool {
    exists|encoded: Seq<char>| #[trigger]
        is_hash_of(encoded, secret) && argon2_accepts(secret, encoded) && created(
            before,
            username,
            email,
            encoded,
        ) == (after, Ok::<Identity, StoreError>(identity))
}

/// An encoded hash with the cost parameters of every stored hash. A login
/// with an unknown email is verified against it, for the time that takes.
const DECOY: &'static str =
    "$argon2id$v=19$m=19456,t=2,p=1$bm9ib2R5aG9tZQ$I9OazXaZc7GnM9Vji5r2jq9Y69isYHBGsJkz25wql0I";

/// Decides a login from what the store found for the email.
///
/// Returns the identity of the record where `secret` verifies against its
/// hash. A lookup that failed and a secret that does not verify both give
/// `WrongCredentials`, and both after one verification.
pub fn authenticate(found: Result<&CredentialRecord, StoreError>, secret: &[u8]) -> (r: Result<
    Identity,
    AuthError,
>)
    ensures
        r == authenticated(
            match found {
                Ok(record) => Some(record@),
                Err(_) => None,
            },
            secret@,
        ),
{
    match found {
        Ok(record) => {
            if verify(secret, &record.password_hash) {
                Ok(record.identity)
            } else {
                Err(AuthError::WrongCredentials)
            }
        },
        Err(_) => {
            // An unknown email costs the time of a verification too, so that it
            // answers no faster than a wrong secret. What comes of it is not used.
            let decoy = EncodedHash::new(DECOY.to_owned());
            let _ = verify(secret, &decoy);
            Err(AuthError::WrongCredentials)
        },
    }
}

/// Decides a registration from what the store answered to the request to
/// create the record: a refusal by the store is reported as `AlreadyExists`.
pub fn registration_outcome(stored: Result<Identity, StoreError>) -> (r: Result<Identity, AuthError>)
    ensures
        r == match stored {
            Ok(identity) => Ok::<Identity, AuthError>(identity),
            Err(_) => Err(AuthError::AlreadyExists),
        },
{
    match stored {
        Ok(identity) => Ok(identity),
        Err(_) => Err(AuthError::AlreadyExists),
    }
}

/// Decides a login that is answered with an opaque token, from what the store
/// found for the email.
///
/// Credentials that do not authenticate give `WrongCredentials` and leave the
/// table as it is. Otherwise a session is opened for the identity of the
/// record under a token drawn at random, and the token is returned. The one
/// failure then is `TokenCreation`, where the token drawn is already taken: no
/// session is overwritten, and a caller treats this as fatal, because it shows a
/// broken source of randomness. In a table without sessions no token is taken,
/// so there credentials that authenticate always get a token.
pub fn login_with_opaque_token(
    found: Result<&CredentialRecord, StoreError>,
    secret: &[u8],
    sessions: &mut SessionTable,
) -> (r: Result<Token, AuthError>)
    requires
        old(sessions).wf(),
    ensures
        final(sessions).wf(),
        match authenticated(
            match found {
                Ok(record) => Some(record@),
                Err(_) => None,
            },
            secret@,
        ) {
            Ok(identity) => match r {
                Ok(token) => !old(sessions)@.dom().contains(token@) && final(sessions)@ == old(
                    sessions,
                )@.insert(token@, identity),
                Err(e) => e == AuthError::TokenCreation && final(sessions)@ == old(sessions)@,
            },
            Err(e) => r == Err::<Token, AuthError>(e) && final(sessions)@ == old(sessions)@,
        },
        old(sessions)@ == Map::<Seq<u8>, Identity>::empty() ==> (r is Ok <==> authenticated(
            match found {
                Ok(record) => Some(record@),
                Err(_) => None,
            },
            secret@,
        ) is Ok),
{
    let identity = match authenticate(found, secret) {
        Ok(identity) => identity,
        Err(e) => {
            return Err(e);
        },
    };
    match sessions.open(identity) {
        Some(token) => Ok(token),
        None => Err(AuthError::TokenCreation),
    }
}

/// Registration, login and the guard, on one store and under one signing key.
pub struct AuthService {
    store: CredentialStore,
    issuer: SessionIssuer,
}

impl AuthService {
    /// The records of the store.
    pub closed spec fn records(&self) -> Seq<Record> {
        self.store@
    }

    /// The signing key.
    pub closed spec fn key(&self) -> Seq<u8> {
        self.issuer.key()
    }

    /// Whether the service satisfies its invariant: its store is well formed.
    pub closed spec fn wf(&self) -> bool {
        self.store.wf()
    }

    /// Makes a service without users that signs tokens under `secret`.
    pub fn new(secret: Vec<u8>) -> (service: AuthService)
        ensures
            service.wf(),
            service.records() == Seq::<Record>::empty(),
            service.key() == secret@,
    {
        AuthService { store: CredentialStore::new(), issuer: SessionIssuer::new(secret) }
    }

    /// The store of this service.
    pub fn store(&self) -> (store: &CredentialStore)
        ensures
            store@ == self.records(),
            self.wf() ==> store.wf(),
    {
        &self.store
    }

    /// The issuer of this service.
    pub fn issuer(&self) -> (issuer: &SessionIssuer)
        ensures
            issuer.key() == self.key(),
    {
        &self.issuer
    }

    /// Registers a user.
    ///
    /// Fails with `AlreadyExists` exactly when the email is registered
    /// already. Otherwise the secret is hashed under a fresh salt and the
    /// record is created; the only failure then is `HashingFault`, for a
    /// secret of more than `MAX_SECRET_LENGTH` bytes, which the hashing
    /// library refuses. A failure changes no record. After a success the
    /// email and the secret authenticate the new identity. No token is
    /// issued: the user logs in separately.
    pub fn register(&mut self, username: &str, email: &str, secret: &[u8]) -> (r: Result<
        Identity,
        AuthError,
    >)
        requires
            old(self).wf(),
        ensures
            final(self).wf(),
            final(self).key() == old(self).key(),
            match r {
                Ok(identity) => !has_email(old(self).records(), email@) && registered(
                    old(self).records(),
                    final(self).records(),
                    identity,
                    username@,
                    email@,
                    secret@,
                ) && authenticated(record_of(final(self).records(), email@), secret@) == Ok::<
                    Identity,
                    AuthError,
                >(identity),
                Err(e) => final(self).records() == old(self).records() && if has_email(
                    old(self).records(),
                    email@,
                ) {
                    e == AuthError::AlreadyExists
                } else {
                    e == AuthError::HashingFault && secret@.len() > MAX_SECRET_LENGTH
                },
            },
    {
        if self.store.lookup_by_email(email).is_ok() {
            return Err(AuthError::AlreadyExists);
        }
        let encoded = match hash(secret) {
            Ok(h) => h,
            Err(e) => {
                return Err(e);
            },
        };
        let ghost text = encoded@;
        let stored = self.store.create(username, email, encoded);
        proof {
            assert(is_hash_of(text, secret@));
        }
        registration_outcome(stored)
    }

    /// Logs a user in as if the time were `now`.
    ///
    /// Returns a token for the identity registered under `email` where
    /// `secret` verifies against the stored hash. An unknown email and a
    /// wrong secret both fail with `WrongCredentials`. Credentials that
    /// authenticate get a token unless its expiry would not fit in 64 bits,
    /// which fails with `TokenCreation`.
    pub fn login_at(&self, email: &str, secret: &[u8], now: u64) -> (r: Result<Vec<u8>, AuthError>)
        requires
            self.wf(),
        ensures
            match r {
                Ok(token) => login_outcome(self.records(), self.key(), email@, secret@, now) == Ok::<
                    Seq<u8>,
                    AuthError,
                >(token@),
                Err(e) => login_outcome(self.records(), self.key(), email@, secret@, now) == Err::<
                    Seq<u8>,
                    AuthError,
                >(e),
            },
            r is Ok <==> authenticated(record_of(self.records(), email@), secret@) is Ok && now
                + TOKEN_LIFETIME <= u64::MAX,
    {
        let identity = match authenticate(self.store.lookup_by_email(email), secret) {
            Ok(identity) => identity,
            Err(e) => {
                return Err(e);
            },
        };
        self.issuer.issue_at(identity, now)
    }

    /// Logs a user in at the time that the wall clock shows.
    ///
    /// Credentials are checked first: the result is `WrongCredentials`
    /// exactly where they do not authenticate, whatever the clock does. A
    /// token that comes back is the outcome of a login at some time.
    pub fn login(&self, email: &str, secret: &[u8]) -> (r: Result<Vec<u8>, AuthError>)
        requires
            self.wf(),
        ensures
            authenticated(record_of(self.records(), email@), secret@) is Err <==> r == Err::<
                Vec<u8>,
                AuthError,
            >(AuthError::WrongCredentials),
            match r {
                Ok(token) => logged_in_at_some_time(
                    self.records(),
                    self.key(),
                    email@,
                    secret@,
                    token@,
                ),
                Err(e) => e == AuthError::WrongCredentials || e == AuthError::TimeUnavailable || e
                    == AuthError::TokenCreation,
            },
    {
        let identity = match authenticate(self.store.lookup_by_email(email), secret) {
            Ok(identity) => identity,
            Err(e) => {
                return Err(e);
            },
        };
        let r = self.issuer.issue(identity);
        proof {
            if let Ok(token) = &r {
                assert(issued_at_some_time(self.key(), identity, token@));
                let now = choose|now: u64| #[trigger]
                    issued(self.key(), identity, now) == Ok::<Seq<u8>, AuthError>(token@);
                assert(login_outcome(self.records(), self.key(), email@, secret@, now) == Ok::<
                    Seq<u8>,
                    AuthError,
                >(token@));
            }
        }
        r
    }

    /// Admits a request to a protected operation as if the time were `now`.
    pub fn authorize_at(&self, headers: &[Header], now: u64) -> (r: Result<Identity, AuthError>)
        ensures
            match presented(headers@) {
                None => r == Err::<Identity, AuthError>(AuthError::MissingCredentials),
                Some(token) => match r {
                    Ok(identity) => speaks_for(token, self.key(), now, identity),
                    Err(e) => e == AuthError::InvalidToken && forall|identity: Identity|
                        !speaks_for(token, self.key(), now, identity),
                },
            },
    {
        extract_and_validate_at(&self.issuer, headers, now)
    }

    /// Admits a request to a protected operation at the time that the wall
    /// clock shows.
    pub fn authorize(&self, headers: &[Header]) -> (r: Result<Identity, AuthError>)
        ensures
            match presented(headers@) {
                None => r == Err::<Identity, AuthError>(AuthError::MissingCredentials),
                Some(token) => match r {
                    Ok(identity) => speaks_for_at_some_time(token, self.key(), identity),
                    Err(e) => e == AuthError::InvalidToken,
                },
            },
    {
        extract_and_validate(&self.issuer, headers)
    }
}

/// A login with an email that is not registered and a login with a registered
/// email but a secret that does not verify have the same outcome,
/// `WrongCredentials`: nothing tells the two apart.
pub proof fn lemma_wrong_credentials_are_one_outcome(
    records: Seq<Record>,
    key: Seq<u8>,
    unknown_email: Seq<char>,
    any_secret: Seq<u8>,
    known_email: Seq<char>,
    wrong_secret: Seq<u8>,
    now: u64,
)
    requires
        !has_email(records, unknown_email),
        record_of(records, known_email) matches Some(record) && !argon2_accepts(
            wrong_secret,
            record.password_hash,
        ),
    ensures
        login_outcome(records, key, unknown_email, any_secret, now) == Err::<Seq<u8>, AuthError>(
            AuthError::WrongCredentials,
        ),
        login_outcome(records, key, known_email, wrong_secret, now) == login_outcome(
            records,
            key,
            unknown_email,
            any_secret,
            now,
        ),
{
}

/// After a registration, a login with the same email and a secret that the
/// verifier refuses for the stored hash gives `WrongCredentials`, and no token.
pub proof fn lemma_refused_secret_cannot_log_in(
    before: Seq<Record>,
    username: Seq<char>,
    email: Seq<char>,
    encoded: Seq<char>,
    other_secret: Seq<u8>,
    key: Seq<u8>,
    now: u64,
)
    requires
        well_formed(before),
        before.len() < u128::MAX,
        created(before, username, email, encoded).1 is Ok,
        !argon2_accepts(other_secret, encoded),
    ensures
        login_outcome(created(before, username, email, encoded).0, key, email, other_secret, now)
            == Err::<Seq<u8>, AuthError>(AuthError::WrongCredentials),
{
    lemma_second_registration_is_refused(before, email, username, encoded, username, encoded);
}

/// After a registration, a login with the same email and the same secret gets
/// what issuing a token to the new identity yields.
pub proof fn lemma_registered_user_can_log_in(
    before: Seq<Record>,
    after: Seq<Record>,
    identity: Identity,
    username: Seq<char>,
    email: Seq<char>,
    secret: Seq<u8>,
    key: Seq<u8>,
    now: u64,
)
    requires
        well_formed(before),
        before.len() < u128::MAX,
        registered(before, after, identity, username, email, secret),
    ensures
        login_outcome(after, key, email, secret, now) == issued(key, identity, now),
{
    let encoded = choose|encoded: Seq<char>| #[trigger]
        is_hash_of(encoded, secret) && argon2_accepts(secret, encoded) && created(
            before,
            username,
            email,
            encoded,
        ) == (after, Ok::<Identity, StoreError>(identity));
    lemma_created_keeps_well_formed(before, username, email, encoded);
    let last = before.len() as int;
    assert(after[last].email == email);
    let j = choose|j: int| 0 <= j < after.len() && #[trigger] after[j].email == email;
    assert(j == last) by {
        if j < last {
            assert(after[j] == before[j]);
        }
    }
}

} // verus!
