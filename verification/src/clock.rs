//! The one place the library asks for the current time.

use vstd::prelude::*;

verus! {

/// Relies on `chrono::Utc::now` and `DateTime::to_rfc3339`: the current time
/// formatted as an RFC 3339 string. The value depends on the clock, so nothing
/// is promised beyond the string being non-empty, which the fixed
/// date-and-time layout of RFC 3339 guarantees.
#[verifier::external_body]
pub(crate) fn now_rfc3339() -> (r: String)
    ensures
        r@.len() > 0,
{
    chrono::Utc::now().to_rfc3339()
}

} // verus!
