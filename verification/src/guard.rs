//! The guard in front of every protected operation: it finds the bearer token
//! among the headers of a request and has it validated.

use vstd::prelude::*;
use vstd::slice::slice_subrange;

use crate::bytes::{ascii, ascii_bytes, matches_at, stands_at};
use crate::error::AuthError;
use crate::identity::Identity;
use crate::issuer::{speaks_for, speaks_for_at_some_time, SessionIssuer};

verus! {

/// One header of a request: a name and a value, as bytes.
#[derive(Debug, Clone, PartialEq, Eq)]
pub struct Header {
    /// The name of the header, in any mix of upper and lower case.
    pub name: Vec<u8>,
    /// The value of the header.
    pub value: Vec<u8>,
}

impl Header {
    /// Makes a header from a name and a value.
    pub fn new(name: Vec<u8>, value: Vec<u8>) -> (header: Header)
        ensures
            header.name@ == name@,
            header.value@ == value@,
    {
        Header { name, value }
    }
}

/// The lower-case form of an ASCII letter; any other byte is itself.
pub open spec fn folded(c: u8) -> u8 {
    if 65 <= c <= 90 {
        (c + 32) as u8
    } else {
        c
    }
}

/// The name of the header that carries the credential, in lower case.
pub open spec fn authorization() -> Seq<u8> {
    ascii("authorization"@)
}

/// What stands before the token in the value of the header.
pub open spec fn scheme() -> Seq<u8> {
    ascii("Bearer "@)
}

/// Whether `name` is the name of the authorization header. Header names do
/// not distinguish upper and lower case.
pub open spec fn is_authorization(name: Seq<u8>) -> bool {
    &&& name.len() == authorization().len()
    &&& forall|i: int| 0 <= i < name.len() ==> folded(#[trigger] name[i]) == authorization()[i]
}

/// The token that the value of an authorization header presents: what follows
/// the scheme, if the value starts with the scheme and something follows.
pub open spec fn bearer_of(value: Seq<u8>) -> Option<Seq<u8>> {
    if stands_at(value, 0, scheme()) && value.len() > scheme().len() {
        Some(value.skip(scheme().len() as int))
    } else {
        None
    }
}

/// The token that a request presents: the one of its first authorization
/// header. A request without such a header, or with a first one that is
/// malformed, presents none.
pub open spec fn presented(headers: Seq<Header>) -> Option<Seq<u8>>
    decreases headers.len(),
{
    if headers.len() == 0 {
        None
    } else if is_authorization(headers[0].name@) {
        bearer_of(headers[0].value@)
    } else {
        presented(headers.skip(1))
    }
}

fn fold(c: u8) -> (r: u8)
    ensures
        r == folded(c),
{
    if 65 <= c && c <= 90 {
        c + 32
    } else {
        c
    }
}

/// Tells whether `name` is the name of the authorization header.
fn names_authorization(name: &[u8]) -> (r: bool)
    ensures
        r == is_authorization(name@),
{
    proof {
        reveal_strlit("authorization");
    }
    let wanted = ascii_bytes("authorization");
    if name.len() != wanted.len() {
        return false;
    }
    let mut i: usize = 0;
    while i < name.len()
        invariant
            wanted@ == authorization(),
            name@.len() == wanted@.len(),
            i <= name@.len(),
            forall|k: int| 0 <= k < i ==> folded(#[trigger] name@[k]) == wanted@[k],
        decreases name@.len() - i,
    {
        if fold(name[i]) != wanted[i] {
            return false;
        }
        i = i + 1;
    }
    true
}

/// Finds the bearer token among the headers of a request.
///
/// Fails with `MissingCredentials` exactly when the request presents no
/// token: it has no authorization header, or its first one does not consist
/// of the scheme `Bearer`, one space and a token that is not empty.
pub fn bearer_token(headers: &[Header]) -> (r: Result<&[u8], AuthError>)
    ensures
        match r {
            Ok(token) => presented(headers@) == Some(token@),
            Err(e) => e == AuthError::MissingCredentials && presented(headers@) is None,
        },
{
    let mut i: usize = 0;
    assert(headers@.skip(0) =~= headers@);
    while i < headers.len()
        invariant
            i <= headers@.len(),
            presented(headers@) == presented(headers@.skip(i as int)),
        decreases headers@.len() - i,
    {
        let header = &headers[i];
        proof {
            assert(headers@.skip(i as int)[0] == headers@[i as int]);
            assert(headers@.skip(i as int).skip(1) =~= headers@.skip(i + 1));
        }
        if names_authorization(header.name.as_slice()) {
            proof {
                reveal_strlit("Bearer ");
            }
            let prefix = ascii_bytes("Bearer ");
            let value = header.value.as_slice();
            if matches_at(value, 0, prefix) && value.len() > prefix.len() {
                return Ok(slice_subrange(value, prefix.len(), value.len()));
            } else {
                return Err(AuthError::MissingCredentials);
            }
        }
        i = i + 1;
    }
    Err(AuthError::MissingCredentials)
}

/// Admits a request as if the time were `now`.
///
/// Returns the identity that the presented token speaks for. Fails with
/// `MissingCredentials` where the request presents no token, and with
/// `InvalidToken` where the token it presents speaks for nobody.
pub fn extract_and_validate_at(issuer: &SessionIssuer, headers: &[Header], now: u64) -> (r: Result<
    Identity,
    AuthError,
>)
    ensures
        match presented(headers@) {
            None => r == Err::<Identity, AuthError>(AuthError::MissingCredentials),
            Some(token) => match r {
                Ok(identity) => speaks_for(token, issuer.key(), now, identity),
                Err(e) => e == AuthError::InvalidToken && forall|identity: Identity|
                    !speaks_for(token, issuer.key(), now, identity),
            },
        },
{
    match bearer_token(headers) {
        Ok(token) => issuer.validate_at(token, now),
        Err(e) => Err(e),
    }
}

/// Admits a request at the time that the wall clock shows.
///
/// Fails with `MissingCredentials` exactly when the request presents no
/// token. A request that is admitted presents a token that speaks for the
/// identity returned at some time; every other request fails with
/// `InvalidToken`.
pub fn extract_and_validate(issuer: &SessionIssuer, headers: &[Header]) -> (r: Result<
    Identity,
    AuthError,
>)
    ensures
        match presented(headers@) {
            None => r == Err::<Identity, AuthError>(AuthError::MissingCredentials),
            Some(token) => match r {
                Ok(identity) => speaks_for_at_some_time(token, issuer.key(), identity),
                Err(e) => e == AuthError::InvalidToken,
            },
        },
{
    match bearer_token(headers) {
        Ok(token) => issuer.validate(token),
        Err(e) => Err(e),
    }
}

} // verus!
