//! The message authentication code that signs a token: HMAC with SHA-256.

use hmac::{Hmac, Mac};
use sha2::Sha256;
use vstd::prelude::*;

verus! {

/// Declares `hmac::digest::InvalidLength`, the error with which the MAC library
/// refuses a key, as a type that is carried through and never looked into.
#[verifier::external_type_specification]
#[verifier::external_body]
pub struct ExInvalidLength(hmac::digest::InvalidLength);

/// The number of bytes of a tag.
pub const TAG_LENGTH: usize = 32;

/// The HMAC-SHA-256 tag of `message` under `key`, or `None` where the library
/// refuses the key.
pub uninterp spec fn hmac_sha256(key: Seq<u8>, message: Seq<u8>) -> Option<Seq<u8>>;

/// Calls `Hmac::<Sha256>::new_from_slice`, `update` and `finalize`, and hands the
/// tag back as bytes. The contract claims that the outcome is a function of
/// key and message, that no key is refused (HMAC takes a key of any length),
/// and that the tag has the 32 bytes of a SHA-256 digest.
#[verifier::external_body]
pub(crate) fn compute_tag(key: &[u8], message: &[u8]) -> (outcome: Result<
    Vec<u8>,
    hmac::digest::InvalidLength,
>)
    ensures
        match outcome {
            Ok(tag) => hmac_sha256(key@, message@) == Some(tag@) && tag@.len() == TAG_LENGTH,
            Err(_) => hmac_sha256(key@, message@) is None,
        },
        outcome is Ok,
{
    let mut mac = Hmac::<Sha256>::new_from_slice(key)?;
    mac.update(message);
    Ok(mac.finalize().into_bytes().to_vec())
}

/// Calls `Hmac::<Sha256>::new_from_slice`, `update` and `verify_slice`, which
/// compares the whole tag in constant time. The contract claims that the answer
/// is `true` exactly when `tag` is the tag of `message` under `key`.
#[verifier::external_body]
pub(crate) fn tag_matches(key: &[u8], message: &[u8], tag: &[u8]) -> (same: bool)
    ensures
        same == (hmac_sha256(key@, message@) == Some(tag@)),
{
    match Hmac::<Sha256>::new_from_slice(key) {
        Ok(mut mac) => {
            mac.update(message);
            mac.verify_slice(tag).is_ok()
        },
        Err(_) => false,
    }
}

} // verus!
