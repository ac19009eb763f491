//! The wall clock.

use vstd::prelude::*;

verus! {

/// Reads the wall clock: `chrono::UTC::now()`, then `DateTime::timestamp()`
/// on what it returns, which counts the non-leap seconds since the UNIX
/// epoch. The body is not verified. The value depends on when the call is
/// made, so the contract claims nothing of it.
#[verifier::external_body]
pub(crate) fn now_timestamp() -> i64 {
    chrono::UTC::now().timestamp()
}

} // verus!
