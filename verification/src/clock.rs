//! The current time, read from the system clock, and the timestamps made
//! from it.
use vstd::prelude::*;
use std::time::{SystemTime, UNIX_EPOCH};
use crate::dates::{months_before_rfc3339, months_before_text, rfc3339_text, unix_to_rfc3339};

verus! {

/// The current Unix time in seconds: `SystemTime::now()` measured from the
/// Unix epoch, or 0 for a clock set before it. The clock decides the value,
/// so nothing is claimed of it.
#[verifier::external_body]
pub fn now_secs() -> (r: i64) {
    SystemTime::now().duration_since(UNIX_EPOCH).unwrap_or_default().as_secs() as i64
}

/// The current time as an RFC 3339 timestamp.
pub fn now_rfc3339() -> (r: String)
    ensures
        exists|now: i64| r@ == rfc3339_text(now as int),
{
    let now = now_secs();
    unix_to_rfc3339(now)
}

/// Whether the time `months` months of 31 days before `now` is a Unix time
/// that an `i64` holds.
pub open spec fn months_before_fits(now: int, months: int) -> bool {
    &&& i64::MIN <= months * 31 * 24 * 60 * 60 <= i64::MAX
    &&& i64::MIN <= now - months * 31 * 24 * 60 * 60 <= i64::MAX
}

/// The timestamp `months` months of 31 days before `now`, when that time
/// fits in an `i64`.
pub open spec fn months_before_result(now: int, months: int) -> Option<Seq<char>> {
    if months_before_fits(now, months) {
        Some(months_before_text(now, months))
    } else {
        None
    }
}

/// The timestamp `months` months of 31 days before the Unix time `now`;
/// `None` exactly when that time, or the length of the months in seconds,
/// is out of the range of an `i64`.
pub fn months_before_checked(now: i64, months: i64) -> (r: Option<String>)
    ensures
        r is Some <==> months_before_fits(now as int, months as int),
        r matches Some(t) ==> t@ == months_before_text(now as int, months as int),
{
    let span = match months.checked_mul(2678400) {
        Some(s) => s,
        None => {
            return None;
        },
    };
    assert(span == months * 31 * 24 * 60 * 60);
    match now.checked_sub(span) {
        Some(_) => Some(months_before_rfc3339(now, months)),
        None => None,
    }
}

/// The timestamp `months` months of 31 days before now, by the system
/// clock; `None` when it is out of the range of an `i64`.
pub fn months_ago_rfc3339(months: i64) -> (r: Option<String>)
    ensures
        exists|now: i64| #[trigger] months_before_result(now as int, months as int) == match r {
            Some(t) => Some(t@),
            None => None::<Seq<char>>,
        },
{
    let now = now_secs();
    let r = months_before_checked(now, months);
    assert(months_before_result(now as int, months as int) == match r {
        Some(t) => Some(t@),
        None => None::<Seq<char>>,
    });
    r
}

} // verus!
