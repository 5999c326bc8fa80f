//! Salted password hashing with Argon2id.
//!
//! Hashing draws a fresh salt each time, so two hashes of one secret differ;
//! verification needs nothing but the secret and the encoded hash, because the
//! encoding carries the algorithm, its version, its cost parameters and the salt.

use argon2::password_hash::rand_core::OsRng;
use argon2::password_hash::{PasswordHash, PasswordHasher, PasswordVerifier, SaltString};
use argon2::{Algorithm, Argon2, Params, Version};
use vstd::prelude::*;

use crate::error::AuthError;

verus! {

/// Declares `argon2::password_hash::Error`, the error of the password hashing
/// library, as a type that is carried through and never looked into.
#[verifier::external_type_specification]
#[verifier::external_body]
pub struct ExPasswordHashError(argon2::password_hash::Error);

/// The encoded hash that Argon2id (version 0x13, default cost parameters)
/// derives from `secret` under the salt `salt`, or `None` where the library
/// refuses the pair.
pub uninterp spec fn argon2id_encoding(secret: Seq<u8>, salt: Seq<char>) -> Option<Seq<char>>;

/// Whether the library's verifier accepts `secret` for the encoded hash
/// `encoded`. An encoding that does not parse is accepted for no secret.
pub uninterp spec fn argon2_accepts(secret: Seq<u8>, encoded: Seq<char>) -> bool;

/// The longest secret, in bytes, that the hashing library takes.
pub const MAX_SECRET_LENGTH: u64 = 0xFFFF_FFFF;

/// How an encoding starts: the algorithm, its version and the cost parameters
/// with which every secret is hashed.
pub open spec fn preamble() -> Seq<char> {
    "$argon2id$v=19$m=19456,t=2,p=1$"@
}

/// The number of characters in which an encoding writes the digest.
pub const DIGEST_CHARS: usize = 43;

/// Whether `encoded` has the layout of an encoding made under `salt`: the
/// preamble, the salt, a dollar sign, and the characters of the digest.
pub open spec fn carries_salt(encoded: Seq<char>, salt: Seq<char>) -> bool {
    let start: int = preamble().len() as int;
    let end: int = start + salt.len();
    &&& encoded.len() == end + 1 + DIGEST_CHARS
    &&& encoded.subrange(0, start) == preamble()
    &&& encoded.subrange(start, end) == salt
    &&& encoded[end] == '$'
}

/// Whether `encoded` is what hashing `secret` yields under some salt.
pub open spec fn is_hash_of(encoded: Seq<char>, secret: Seq<u8>) -> bool {
    exists|salt: Seq<char>| argon2id_encoding(secret, salt) == Some(encoded)
}

/// A self-describing password hash: algorithm, version, cost parameters, salt
/// and digest in one string. Any string can be held; one that is not a valid
/// encoding verifies against no secret.
#[derive(Debug, Clone, PartialEq, Eq)]
pub struct EncodedHash {
    text: String,
}

impl View for EncodedHash {
    type V = Seq<char>;

    closed spec fn view(&self) -> Seq<char> {
        self.text@
    }
}

impl EncodedHash {
    /// Holds `text` as an encoded hash, as read back from storage.
    pub fn new(text: String) -> (encoded: EncodedHash)
        ensures
            encoded@ == text@,
    {
        EncodedHash { text }
    }

    /// The encoded string, as it is stored.
    pub fn as_str(&self) -> (text: &str)
        ensures
            text@ == self@,
    {
        self.text.as_str()
    }
}

/// Calls `SaltString::generate` with the operating system's random source,
/// `OsRng`, and hands the salt back as text. Which salt comes is not claimed:
/// it is random. The contract claims that it is one under which the library
/// hashes every secret of at most `MAX_SECRET_LENGTH` bytes: it is the text of
/// 16 bytes, and the library asks for 8.
#[verifier::external_body]
fn fresh_salt() -> (salt: String)
    ensures
        forall|secret: Seq<u8>|
            secret.len() <= MAX_SECRET_LENGTH ==> #[trigger] argon2id_encoding(secret, salt@) is Some,
{
    SaltString::generate(&mut OsRng).as_str().to_owned()
}

/// Calls `Argon2::hash_password` on an Argon2id hasher with version 0x13 and the
/// default parameters, after `SaltString::from_b64` has read the salt.
///
/// The contract claims that the outcome is a function of secret and salt alone;
/// that an encoding is written as the preamble, the salt as given, a dollar
/// sign and the 43 characters of a digest of 32 bytes; and that the library's
/// verifier accepts the secret for an encoding that this call produced:
/// verification re-derives the digest from the parameters and the salt that
/// the encoding carries, and compares.
#[verifier::external_body]
fn derive_encoding(secret: &[u8], salt: &str) -> (outcome: Result<String, argon2::password_hash::Error>)
    ensures
        outcome matches Ok(text) ==> argon2id_encoding(secret@, salt@) == Some(text@)
            && argon2_accepts(secret@, text@) && carries_salt(text@, salt@),
        outcome is Err ==> argon2id_encoding(secret@, salt@) is None,
{
    let salt = SaltString::from_b64(salt)?;
    let hasher = Argon2::new(Algorithm::Argon2id, Version::V0x13, Params::DEFAULT);
    let hash = hasher.hash_password(secret, &salt)?;
    Ok(hash.serialize().as_str().to_owned())
}

/// Calls `PasswordHash::new` to parse the encoding and `Argon2::verify_password`
/// to compare in constant time. The contract claims that the answer is a
/// function of secret and encoding alone; a parse failure answers `false`.
#[verifier::external_body]
fn check_encoding(secret: &[u8], encoded: &str) -> (accepted: bool)
    ensures
        accepted == argon2_accepts(secret@, encoded@),
{
    match PasswordHash::new(encoded) {
        Ok(parsed) => Argon2::new(Algorithm::Argon2id, Version::V0x13, Params::DEFAULT)
            .verify_password(secret, &parsed)
            .is_ok(),
        Err(_) => false,
    }
}

/// Hashes `secret` under the given salt.
///
/// The result is fixed by secret and salt. It is `Ok` exactly where the hashing
/// library accepts the pair; the hash then carries the salt and verifies
/// against `secret`.
pub fn hash_with_salt(secret: &[u8], salt: &str) -> (r: Result<EncodedHash, AuthError>)
    ensures
        match r {
            Ok(encoded) => argon2id_encoding(secret@, salt@) == Some(encoded@)
                && argon2_accepts(secret@, encoded@) && carries_salt(encoded@, salt@),
            Err(e) => e == AuthError::HashingFault && argon2id_encoding(secret@, salt@) is None,
        },
{
    match derive_encoding(secret, salt) {
        Ok(text) => Ok(EncodedHash::new(text)),
        Err(_) => Err(AuthError::HashingFault),
    }
}

/// Hashes `secret` under a salt drawn fresh from the operating system.
///
/// A hash that comes back is the Argon2id encoding of `secret` under some salt
/// and verifies against `secret`. Every secret of at most `MAX_SECRET_LENGTH`
/// bytes is hashed; a longer one is refused by the hashing library, which is
/// reported as `HashingFault`.
pub fn hash(secret: &[u8]) -> (r: Result<EncodedHash, AuthError>)
    ensures
        match r {
            Ok(encoded) => is_hash_of(encoded@, secret@) && argon2_accepts(secret@, encoded@),
            Err(e) => e == AuthError::HashingFault && secret@.len() > MAX_SECRET_LENGTH,
        },
{
    let salt = fresh_salt();
    hash_with_salt(secret, salt.as_str())
}

/// Tells whether `secret` is the secret that `encoded` was derived from.
///
/// Returns `false`, and nothing more telling, for a wrong secret and for an
/// encoding that is malformed.
pub fn verify(secret: &[u8], encoded: &EncodedHash) -> (accepted: bool)
    ensures
        accepted == argon2_accepts(secret@, encoded@),
{
    check_encoding(secret, encoded.as_str())
}

/// Two encodings made under two salts differ, whatever the secrets: an
/// encoding carries its salt.
pub proof fn lemma_two_salts_two_encodings(
    encoded1: Seq<char>,
    salt1: Seq<char>,
    encoded2: Seq<char>,
    salt2: Seq<char>,
)
    requires
        carries_salt(encoded1, salt1),
        carries_salt(encoded2, salt2),
        salt1 != salt2,
    ensures
        encoded1 != encoded2,
{
    if encoded1 == encoded2 {
        assert(salt1.len() == salt2.len());
        assert(salt1 =~= salt2);
    }
}

} // verus!
