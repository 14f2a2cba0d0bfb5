//! Calendar arithmetic, behind trusted wrappers over chrono.
//!
//! Both chrono calls are pure functions of their arguments, so their
//! results carry names that the generator's contracts speak through.

use vstd::prelude::*;

verus! {

/// The midnight-UTC timestamp of a calendar date written `YYYY-MM-DD`,
/// as chrono reads it; `None` where chrono rejects the text.
pub uninterp spec fn day_ts(s: Seq<char>) -> Option<i64>;

/// The RFC 3339 text of the UTC instant `ts` seconds after the epoch.
pub uninterp spec fn rfc3339_of(ts: i64) -> Seq<char>;

/// Relies on `chrono::NaiveDateTime::parse_from_str` with format
/// `%Y-%m-%d %H:%M:%S` (the date suffixed with midnight) followed by
/// `and_utc().timestamp()`: a pure function of the text.
#[verifier::external_body]
pub(crate) fn parse_day_start(s: &str) -> (r: Option<i64>)
    ensures
        r == day_ts(s@),
{
    let padded = format!("{} 00:00:00", s);
    match chrono::NaiveDateTime::parse_from_str(&padded, "%Y-%m-%d %H:%M:%S") {
        Ok(ndt) => Some(ndt.and_utc().timestamp()),
        Err(_) => None,
    }
}

/// Relies on `chrono::DateTime::from_timestamp` and
/// `DateTime::to_rfc3339`: within chrono's documented range (about
/// ±262,000 years, i.e. well beyond ±8e12 seconds) the timestamp
/// converts, and the text is a pure function of the timestamp.
#[verifier::external_body]
pub(crate) fn format_rfc3339(ts: i64) -> (r: String)
    requires
        -8_000_000_000_000 <= ts <= 8_000_000_000_000,
    ensures
        r@ == rfc3339_of(ts),
{
    chrono::DateTime::from_timestamp(ts, 0).unwrap().to_rfc3339()
}

} // verus!
