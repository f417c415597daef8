//! What the library asks of the machine it runs on: random identifiers and
//! the time.

use vstd::prelude::*;
use crate::types::Timestamp;

verus! {

pub open spec fn is_hex(c: char) -> bool {
    ('0' <= c <= '9') || ('a' <= c <= 'f')
}

pub open spec fn all_hex(s: Seq<char>) -> bool {
    forall|i: int| 0 <= i < s.len() ==> is_hex(#[trigger] s[i])
}

/// The form of a random UUID: hexadecimal digits in groups of 8, 4, 4, 4 and
/// 12, with hyphens between them.
pub open spec fn is_random_uuid(s: Seq<char>) -> bool {
    &&& s.len() == 36
    &&& s[8] == '-' && s[13] == '-' && s[18] == '-' && s[23] == '-'
    &&& all_hex(s.subrange(0, 8))
    &&& all_hex(s.subrange(9, 13))
    &&& all_hex(s.subrange(14, 18))
    &&& all_hex(s.subrange(19, 23))
    &&& all_hex(s.subrange(24, 36))
    &&& s[14] == '4'
}

/// `uuid::Uuid::new_v4`, printed by `Uuid::to_string`. The digits are random;
/// only the form of the text is stated.
#[verifier::external_body]
fn new_uuid() -> (r: String)
    ensures
        is_random_uuid(r@),
{
    uuid::Uuid::new_v4().to_string()
}

/// `chrono::Utc::now`, as seconds and nanoseconds. The clock is the
/// machine's; stated is only that it stands after the start of 1970 and
/// outside leap seconds.
#[verifier::external_body]
pub(crate) fn now() -> (r: Timestamp)
    ensures
        0 <= r.secs,
        r.nanos < 1_000_000_000,
{
    let t = chrono::Utc::now();
    Timestamp { secs: t.timestamp(), nanos: t.timestamp_subsec_nanos() }
}

/// A moment that the clock may show: after the start of 1970, and outside of
/// leap seconds.
pub open spec fn is_clock_time(t: Timestamp) -> bool {
    0 <= t.secs && t.nanos < 1_000_000_000
}

/// Moments that the clock may show.
pub open spec fn are_clock_times(times: Seq<Timestamp>) -> bool {
    forall|i: int| 0 <= i < times.len() ==> is_clock_time(#[trigger] times[i])
}

/// An identifier of a memory: eight hexadecimal digits.
pub open spec fn is_short_id(s: Seq<char>) -> bool {
    s.len() == 8 && all_hex(s)
}

/// The first characters of a text.
fn prefix(s: &str, n: usize) -> (r: String)
    requires
        n <= s@.len(),
    ensures
        r@ == s@.take(n as int),
{
    vstd::string::StrSliceExecFns::substring_char(s, 0, n).to_owned()
}

/// A random identifier for a memory.
pub fn fresh_id() -> (r: String)
    ensures
        is_short_id(r@),
{
    let u = new_uuid();
    let r = prefix(u.as_str(), 8);
    assert(r@ == u@.subrange(0, 8));
    r
}

/// A node identifier: the first twelve characters of a random UUID.
pub open spec fn is_node_id(s: Seq<char>) -> bool {
    &&& s.len() == 12
    &&& all_hex(s.subrange(0, 8))
    &&& s[8] == '-'
    &&& all_hex(s.subrange(9, 12))
}

/// A random identifier for this device.
pub fn generate_node_id() -> (r: String)
    ensures
        is_node_id(r@),
{
    let u = new_uuid();
    let r = prefix(u.as_str(), 12);
    assert(r@.subrange(0, 8) == u@.subrange(0, 8));
    assert(r@.subrange(9, 12) == u@.subrange(9, 13).take(3));
    r
}

} // verus!
