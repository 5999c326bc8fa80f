//! The closed set of failures that cross the boundary of the authentication
//! subsystem.

use vstd::prelude::*;

verus! {

/// Every way in which an authentication operation can fail, as seen from outside.
///
/// The set is closed on purpose: store and hashing failures are folded into these
/// kinds before they leave the subsystem, so that no internal detail reaches a
/// caller who is guessing credentials.
#[derive(Debug, Clone, Copy, PartialEq, Eq, Structural)]
pub enum AuthError {
    /// Registration met an email that is already registered.
    AlreadyExists,
    /// Login failed: unknown email and wrong secret are deliberately one outcome.
    WrongCredentials,
    /// A protected request carried no usable bearer credential.
    MissingCredentials,
    /// The bearer credential is malformed, forged or expired: one outcome.
    InvalidToken,
    /// A token could not be minted.
    TokenCreation,
    /// The wall clock could not be read while minting a token.
    TimeUnavailable,
    /// The password hashing library refused to derive a digest. This is a fault
    /// of configuration, not of the request: a caller treats it as fatal.
    HashingFault,
}

impl AuthError {
    /// The name of this kind on the wire.
    pub open spec fn kind_name(self) -> Seq<char> {
        match self {
            AuthError::AlreadyExists => "AlreadyExists"@,
            AuthError::WrongCredentials => "WrongCredentials"@,
            AuthError::MissingCredentials => "MissingCredentials"@,
            AuthError::InvalidToken => "InvalidToken"@,
            AuthError::TokenCreation => "TokenCreation"@,
            AuthError::TimeUnavailable => "TimeUnavailable"@,
            AuthError::HashingFault => "HashingFault"@,
        }
    }

    /// The transport status for this kind: 409 for a conflict, 401 for every
    /// failure to authenticate, 500 for a fault of the server.
    pub open spec fn status_code(self) -> u16 {
        match self {
            AuthError::AlreadyExists => 409,
            AuthError::WrongCredentials => 401,
            AuthError::MissingCredentials => 401,
            AuthError::InvalidToken => 401,
            AuthError::TokenCreation => 500,
            AuthError::TimeUnavailable => 500,
            AuthError::HashingFault => 500,
        }
    }

    /// Returns the transport status with which this kind is answered. The
    /// mapping is made here, once, and covers every kind.
    pub fn status(&self) -> (code: u16)
        ensures
            code == self.status_code(),
    {
        match self {
            AuthError::AlreadyExists => 409,
            AuthError::WrongCredentials => 401,
            AuthError::MissingCredentials => 401,
            AuthError::InvalidToken => 401,
            AuthError::TokenCreation => 500,
            AuthError::TimeUnavailable => 500,
            AuthError::HashingFault => 500,
        }
    }

    /// Returns the name under which this kind is reported to a client.
    pub fn kind(&self) -> (name: &'static str)
        ensures
            name@ == self.kind_name(),
    {
        match self {
            AuthError::AlreadyExists => "AlreadyExists",
            AuthError::WrongCredentials => "WrongCredentials",
            AuthError::MissingCredentials => "MissingCredentials",
            AuthError::InvalidToken => "InvalidToken",
            AuthError::TokenCreation => "TokenCreation",
            AuthError::TimeUnavailable => "TimeUnavailable",
            AuthError::HashingFault => "HashingFault",
        }
    }
}

} // verus!
