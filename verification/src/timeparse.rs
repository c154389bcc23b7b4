use vstd::prelude::*;

verus! {

/// Why a report render was abandoned: a stored timestamp string did not
/// parse. A parse failure means the store and the report disagree about
/// the timestamp format, so the whole render aborts rather than
/// silently skipping the row.
#[derive(Debug, PartialEq, Eq, Structural)]
pub enum ParseError {
    /// A session row's `start_time` did not parse.
    BadStartTime,
    /// A session row's `end_time` did not parse.
    BadEndTime,
}

/// The format of stored timestamps: date, time of day with fractional
/// seconds, and a UTC-offset suffix.
pub open spec fn stored_ts_fmt() -> Seq<char> {
    ("%Y-%m-%d %H:%M:%S%.f %z")@
}

/// What `chrono::NaiveTime::parse_from_str`, followed by
/// `num_seconds_from_midnight`, returns: a function of the input string
/// and the format string alone.
pub uninterp spec fn time_seconds_of(s: Seq<char>, fmt: Seq<char>) -> Option<u32>;

/// Relies on `chrono::NaiveTime::parse_from_str` and
/// `chrono::Timelike::num_seconds_from_midnight`: parsing is a function
/// of the two strings alone, and a time of day always maps to fewer
/// than 86400 seconds from midnight.
#[verifier::external_body]
fn parse_time_seconds(s: &str, fmt: &str) -> (r: Option<u32>)
    ensures
        r == time_seconds_of(s@, fmt@),
        r matches Some(v) ==> v < 86400,
{
    match chrono::NaiveTime::parse_from_str(s, fmt) {
        Ok(t) => Some(chrono::Timelike::num_seconds_from_midnight(&t)),
        Err(_) => None,
    }
}

/// The time of day, in seconds from midnight, encoded in a stored
/// timestamp string; `None` when the string does not parse in the
/// stored format.
pub fn parse_stored_timestamp(s: &str) -> (r: Option<u32>)
    ensures
        r == time_seconds_of(s@, stored_ts_fmt()),
        r matches Some(v) ==> v < 86400,
{
    parse_time_seconds(s, "%Y-%m-%d %H:%M:%S%.f %z")
}

} // verus!
