//! The time of day.

use vstd::prelude::*;

verus! {

/// The text has the length of a time in the notation of RFC 3339 at least, and
/// ends in the offset of UTC.
pub open spec fn is_utc_time(t: Seq<char>) -> bool {
    t.len() >= 25 && t.subrange(t.len() - 6, t.len() as int) == "+00:00"@
}

/// `chrono::Utc::now` and `chrono::DateTime::to_rfc3339`: the current time in
/// the notation of RFC 3339. Whatever the time is, the text holds at least the
/// date, the time and the offset, and the offset is that of UTC. A clock that
/// stands before 1970 makes `now` panic.
#[verifier::external_body]
pub(crate) fn now_iso() -> (r: String)
    ensures
        is_utc_time(r@),
{
    chrono::Utc::now().to_rfc3339()
}

} // verus!
