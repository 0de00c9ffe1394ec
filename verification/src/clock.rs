//! The one place the library reads a clock. Everything else takes the
//! current time as an argument, so that behaviour is testable; this
//! wrapper exists for callers that want the wall-clock timestamp the
//! decoder stamps frames with.

use vstd::prelude::*;

verus! {

/// Relies on chrono's `Utc::now` and `DateTime::to_rfc3339`: the
/// current instant, rendered as an RFC 3339 / ISO 8601 timestamp such
/// as `1996-12-19T16:39:57+00:00`. The result depends on the wall
/// clock, so nothing more than non-emptiness is claimed of it. Assumes
/// the system clock is at or after the Unix epoch, as `Utc::now` does.
#[verifier::external_body]
pub fn now_rfc3339() -> (r: String)
    ensures
        r@.len() > 0,
{
    chrono::Utc::now().to_rfc3339()
}

} // verus!
