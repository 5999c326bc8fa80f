//! The wall clock.

use std::time::{SystemTime, UNIX_EPOCH};
use vstd::prelude::*;

verus! {

/// Calls `SystemTime::now` and hands the time back as whole seconds since the
/// Unix epoch; `None` where the clock stands before the epoch. Nothing is
/// claimed of the number: it is the time of the call.
#[verifier::external_body]
pub(crate) fn unix_time() -> (now: Option<u64>) {
    match SystemTime::now().duration_since(UNIX_EPOCH) {
        Ok(elapsed) => Some(elapsed.as_secs()),
        Err(_) => None,
    }
}

} // verus!
