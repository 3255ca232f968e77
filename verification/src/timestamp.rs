use vstd::prelude::*;

verus! {

/// Competition start and stop instants are organizer-authored RFC 3339
/// strings; inside the engine an instant is a plain Unix-seconds value.
///
/// The instant, in Unix seconds, that an RFC 3339 timestamp string
/// denotes, or nothing where the string is not a valid timestamp; it
/// depends on the string alone.
pub uninterp spec fn rfc3339_secs(s: Seq<char>) -> Option<i64>;

/// Relies on chrono's `DateTime::parse_from_rfc3339` to read the string
/// and on `DateTime::timestamp` to turn the parsed instant into Unix
/// seconds.
#[verifier::external_body]
pub fn parse_rfc3339(s: &String) -> (r: Option<i64>)
    ensures
        r == rfc3339_secs(s@),
{
    match chrono::DateTime::parse_from_rfc3339(s) {
        Ok(dt) => Some(dt.timestamp()),
        Err(_) => None,
    }
}

/// Whether `now` falls inside the competition's bounds: a missing bound is
/// unbounded on that side.
pub open spec fn within_bounds(start: Option<i64>, stop: Option<i64>, now: i64) -> bool {
    &&& (start matches Some(s) ==> s <= now)
    &&& (stop matches Some(t) ==> now <= t)
}

pub fn check_within_bounds(start: &Option<i64>, stop: &Option<i64>, now: i64) -> (r: bool)
    ensures
        r == within_bounds(*start, *stop, now),
{
    let start_ok = match start {
        Some(s) => *s <= now,
        None => true,
    };
    let stop_ok = match stop {
        Some(t) => now <= *t,
        None => true,
    };
    start_ok && stop_ok
}

} // verus!
