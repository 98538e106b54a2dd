//! Trusted bridge to the `chrono` crate: turning matched timestamp text
//! into UTC instants, measured in milliseconds since the Unix epoch.

use vstd::prelude::*;

verus! {

/// The instant that `chrono::DateTime::parse_from_rfc3339` reads from a
/// string, in milliseconds since the Unix epoch, or nothing when the
/// string is rejected. The result depends on the characters alone.
pub uninterp spec fn rfc3339_millis(s: Seq<char>) -> Option<i64>;

/// Relies on `chrono::DateTime::parse_from_rfc3339`: parses an RFC 3339
/// date-and-time string, a pure function of the string; the instant is
/// converted with `timestamp_millis`.
#[verifier::external_body]
pub fn parse_rfc3339_millis(s: &str) -> (r: Option<i64>)
    ensures
        r == rfc3339_millis(s@),
{
    match chrono::DateTime::parse_from_rfc3339(s) {
        Ok(dt) => Some(dt.timestamp_millis()),
        Err(_) => None,
    }
}

/// The instant that `chrono::DateTime::parse_from_str` reads from a
/// string under the given format, in milliseconds since the Unix epoch,
/// or nothing when the string is rejected. The result depends on the two
/// strings alone.
pub uninterp spec fn format_millis(s: Seq<char>, fmt: Seq<char>) -> Option<i64>;

/// Relies on `chrono::DateTime::parse_from_str`: parses a date-and-time
/// string against a format with an explicit zone, a pure function of its
/// two arguments; the instant is converted with `timestamp_millis`.
#[verifier::external_body]
pub fn parse_format_millis(s: &str, fmt: &str) -> (r: Option<i64>)
    ensures
        r == format_millis(s@, fmt@),
{
    match chrono::DateTime::parse_from_str(s, fmt) {
        Ok(dt) => Some(dt.timestamp_millis()),
        Err(_) => None,
    }
}

} // verus!
