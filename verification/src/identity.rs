//! The identifier that a registered user keeps for life.

use vstd::prelude::*;

verus! {

/// A stable, unique, 128-bit identifier assigned to a user at registration.
///
/// The value is never reassigned and never changes: every other part of the
/// subsystem refers to a user by it.
#[derive(Debug, Clone, Copy, PartialEq, Eq, Hash, Structural)]
pub struct Identity(pub u128);

impl Identity {
    /// Wraps a 128-bit value as an identity.
    pub fn from_u128(value: u128) -> (id: Identity)
        ensures
            id == Identity(value),
    {
        Identity(value)
    }

    /// Returns the 128-bit value of this identity.
    pub fn as_u128(&self) -> (value: u128)
        ensures
            value == self.0,
    {
        self.0
    }
}

} // verus!
