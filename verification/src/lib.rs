//! Authentication and sessions for a small networked service.
//!
//! A user registers with a name, an email and a secret; the secret is kept
//! only as a salted Argon2id hash. A login that verifies is answered with a
//! session token, and the guard in front of every protected operation admits a
//! request only on such a token.
//!
//! The parts, leaves first:
//!
//! - [`error`]: the closed set of failures that leave the subsystem.
//! - [`identity`]: the identifier of a user.
//! - [`password`]: hashing and verifying secrets.
//! - [`store`]: the credential records, unique by email.
//! - [`bytes`], [`base64url`], [`decimal`], [`hex`]: the notations that a token
//!   is written in.
//! - [`claims`], [`token`]: what a token says, and its wire format.
//! - [`mac`], [`clock`]: the signature and the time.
//! - [`issuer`]: issuing and validating signed, expiring tokens.
//! - [`session`]: opaque tokens and their table, for a server that wants
//!   sessions it can look up.
//! - [`guard`]: from the headers of a request to the identity behind it.
//! - [`service`]: registration and login.

pub mod base64url;
pub mod bytes;
pub mod claims;
pub mod clock;
pub mod decimal;
pub mod error;
pub mod guard;
pub mod hex;
pub mod identity;
pub mod issuer;
pub mod mac;
pub mod password;
pub mod service;
pub mod session;
pub mod store;
pub mod token;
