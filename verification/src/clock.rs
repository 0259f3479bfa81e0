use vstd::prelude::*;

verus! {

/// Relies on chrono's Utc::now and DateTime::to_rfc3339_opts with millisecond
/// precision and a Z suffix: an RFC 3339 UTC instant such as
/// 2024-01-02T03:04:05.678Z. Whatever the clock returns, the string holds at
/// least 24 characters (a four-or-more-digit year, then the fixed-width rest)
/// and ends in 'Z'; chrono widens the year beyond four digits only outside
/// the years 0 through 9999, so within that era the format is fixed-width and
/// comparing two of these timestamps lexicographically orders them
/// chronologically. The instant itself depends on the clock, so nothing is
/// promised of it; every function that works with a timestamp takes it as an
/// argument.
#[verifier::external_body]
pub fn now_timestamp() -> (r: String)
    ensures
        r@.len() >= 24,
        r@[r@.len() - 1] == 'Z',
{
    chrono::Utc::now().to_rfc3339_opts(chrono::SecondsFormat::Millis, true)
}

} // verus!
