//! The wall clock, as RFC 3339 timestamps.
use vstd::prelude::*;

verus! {

/// What every text of `DateTime<Utc>::to_rfc3339` has, whatever time it
/// writes: at least 25 characters, all ASCII, ending in the offset
/// `+00:00`; and when it starts with a digit (a year from 0 to 9999), the
/// date and time separators at their places in `YYYY-MM-DDTHH:MM:SS`.
pub open spec fn rfc3339_shape(t: Seq<char>) -> bool {
    &&& t.len() >= 25
    &&& t.subrange(t.len() - 6, t.len() as int) == "+00:00"@
    &&& forall|i: int| 0 <= i < t.len() ==> (#[trigger] t[i] as int) < 128
    &&& ('0' <= t[0] && t[0] <= '9') ==> t[4] == '-' && t[7] == '-' && t[10] == 'T' && t[13] == ':' && t[16] == ':'
}

/// The current time in RFC 3339 form, from `chrono::Utc::now` and
/// `DateTime::to_rfc3339`. `Utc::now` panics on a system clock set before
/// 1970, which is the machine's state, not an input. Which time it is
/// depends on the clock; the
/// contract claims only the shape that `write_rfc3339` gives every time in
/// UTC (a four-digit year, or a signed one outside 0 to 9999, then
/// two-digit fields, an optional fraction, and the offset `+00:00`).
#[verifier::external_body]
pub fn now_rfc3339() -> (ts: String)
    ensures
        rfc3339_shape(ts@),
{
    chrono::Utc::now().to_rfc3339()
}

/// The time `seconds` before now in RFC 3339 form, from `chrono::Utc::now`,
/// `TimeDelta::seconds`, the subtraction of a `TimeDelta` from a
/// `DateTime` and `DateTime::to_rfc3339`. `TimeDelta::seconds` panics past
/// `i64::MAX / 1000` seconds and the subtraction panics past the range of
/// `DateTime` (from about 8.33e12 seconds before 1970 to about 8.21e12
/// seconds after it); the bound in `requires` keeps both out of reach for
/// any clock from 1970 (before which `Utc::now` itself panics) to about
/// AD 2290. Which time it is depends on the clock; the contract claims
/// only the shape of the text, as for `now_rfc3339`.
#[verifier::external_body]
pub fn rfc3339_seconds_ago(seconds: i64) -> (ts: String)
    requires
        -8_200_000_000_000 <= seconds <= 8_200_000_000_000,
    ensures
        rfc3339_shape(ts@),
{
    (chrono::Utc::now() - chrono::TimeDelta::seconds(seconds)).to_rfc3339()
}

} // verus!
