//! Texts in the formats of others: times in RFC 3339, and JSON.

use vstd::prelude::*;
use crate::types::Timestamp;

verus! {

/// The RFC 3339 text of a moment, given in seconds and nanoseconds since the
/// start of 1970; none where the moment is outside of the calendar.
pub uninterp spec fn rfc3339_text(secs: i64, nanos: u32) -> Option<Seq<char>>;

/// The moment that an RFC 3339 text stands for, in seconds and nanoseconds
/// since the start of 1970; none where the text is not in that format.
pub uninterp spec fn rfc3339_moment(s: Seq<char>) -> Option<(i64, u32)>;

/// A JSON text as it is printed again after it was read; none where the text is
/// no JSON.
pub uninterp spec fn json_text(s: Seq<char>) -> Option<Seq<char>>;

/// Whether a moment lies in the years 0 to 9999. The nanoseconds of a leap
/// second, which only the last second of a minute can have, go on past those
/// of the second before.
pub open spec fn in_calendar(t: Timestamp) -> bool {
    &&& -62_167_219_200 <= t.secs <= 253_402_300_799
    &&& t.nanos < 1_000_000_000 || (t.nanos < 2_000_000_000 && t.secs as int % 60 == 59)
}

/// The moment that a text stands for.
pub open spec fn moment_of(s: Seq<char>) -> Option<Timestamp> {
    match rfc3339_moment(s) {
        Some((secs, nanos)) => Some(Timestamp { secs, nanos }),
        None => None,
    }
}

/// `chrono::DateTime::<Utc>::to_rfc3339`, on the date and time that
/// `DateTime::from_timestamp` makes of a moment. The text depends on the moment
/// alone. In the years 0 to 9999 there is one, and it is read back as the same
/// moment: years have four digits there, nanoseconds are printed as far as they
/// are not zero, and a leap second is printed and read as second 60.
#[verifier::external_body]
pub(crate) fn print_rfc3339(t: Timestamp) -> (r: Option<String>)
    ensures
        crate::types::opt_text(r) == rfc3339_text(t.secs, t.nanos),
        match r {
            Some(s) => in_calendar(t) ==> rfc3339_moment(s@) == Some((t.secs, t.nanos)),
            None => !in_calendar(t),
        },
{
    chrono::DateTime::from_timestamp(t.secs, t.nanos).map(|d| d.to_rfc3339())
}

/// `chrono::DateTime::parse_from_rfc3339`, its result taken to UTC. It depends
/// on the text alone.
#[verifier::external_body]
pub(crate) fn parse_rfc3339(s: &str) -> (r: Option<Timestamp>)
    ensures
        r == moment_of(s@),
{
    match chrono::DateTime::parse_from_rfc3339(s) {
        Ok(d) => Some(Timestamp { secs: d.timestamp(), nanos: d.timestamp_subsec_nanos() }),
        Err(_) => None,
    }
}

/// `serde_json::from_str` into a `serde_json::Value`, printed by its
/// `to_string`. The text depends on the text that was read alone.
#[verifier::external_body]
pub(crate) fn parse_json(s: &str) -> (r: Option<String>)
    ensures
        crate::types::opt_text(r) == json_text(s@),
{
    match serde_json::from_str::<serde_json::Value>(s) {
        Ok(v) => Some(v.to_string()),
        Err(_) => None,
    }
}

} // verus!
