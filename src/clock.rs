//! The current time, provided by chrono.
use chrono::{Datelike, Timelike};
use vstd::prelude::*;

verus! {

/// Relies on chrono's `From<std::time::SystemTime>` for `DateTime<Utc>` (a
/// clock before 1970 gives a negative timestamp rather than a panic) and the
/// Datelike / Timelike accessors: the current UTC year, month (1 to 12), day
/// (1 to 31), hour (0 to 23), minute (0 to 59) and second (0 to 59).
#[verifier::external_body]
pub(crate) fn utc_now() -> (r: (i32, u32, u32, u32, u32, u32))
    ensures
        1 <= r.1 <= 12,
        1 <= r.2 <= 31,
        r.3 <= 23,
        r.4 <= 59,
        r.5 <= 59,
{
    let t = chrono::DateTime::<chrono::Utc>::from(std::time::SystemTime::now());
    (t.year(), t.month(), t.day(), t.hour(), t.minute(), t.second())
}

} // verus!
