//! Times between text and microseconds since the Unix epoch, as chrono reads
//! and writes them.
use vstd::prelude::*;

verus! {

/// What chrono reads an RFC 3339 timestamp as, in epoch microseconds.
pub uninterp spec fn rfc3339_micros(text: Seq<char>) -> Option<i64>;

/// What chrono reads a timestamp without a zone as, in the given format and
/// taken as UTC, in epoch microseconds.
pub uninterp spec fn naive_micros(text: Seq<char>, format: Seq<char>) -> Option<i64>;

/// What chrono reads a date as, in the given format: the epoch microseconds of
/// its midnight in UTC.
pub uninterp spec fn date_micros(text: Seq<char>, format: Seq<char>) -> Option<i64>;

/// How chrono writes epoch microseconds in the given format, in UTC; `None` for
/// a time outside its calendar.
pub uninterp spec fn written_micros(micros: i64, format: Seq<char>) -> Option<Seq<char>>;

/// `chrono::DateTime::parse_from_rfc3339`, with the instant it gives as epoch
/// microseconds (`timestamp_micros`) and any error as `None`. The instant is a
/// function of the text alone.
#[verifier::external_body]
pub(crate) fn read_rfc3339(text: &str) -> (r: Option<i64>)
    ensures
        r == rfc3339_micros(text@),
{
    match chrono::DateTime::parse_from_rfc3339(text) {
        Ok(t) => Some(t.timestamp_micros()),
        Err(_) => None,
    }
}

/// `chrono::NaiveDateTime::parse_from_str`, with the time it gives taken as UTC
/// (`and_utc`), as epoch microseconds (`timestamp_micros`), and any error as
/// `None`. The time is a function of text and format alone.
#[verifier::external_body]
pub(crate) fn read_naive(text: &str, format: &str) -> (r: Option<i64>)
    ensures
        r == naive_micros(text@, format@),
{
    match chrono::NaiveDateTime::parse_from_str(text, format) {
        Ok(t) => Some(t.and_utc().timestamp_micros()),
        Err(_) => None,
    }
}

/// `chrono::NaiveDate::parse_from_str`, with the date it gives as the epoch
/// microseconds of its midnight (`and_time` of `NaiveTime::MIN`, `and_utc`,
/// `timestamp_micros`), and any error as `None`. The date is a function of text
/// and format alone, and its midnight is far enough from the ends of the
/// integer range that a day can be added to it.
#[verifier::external_body]
pub(crate) fn read_date(text: &str, format: &str) -> (r: Option<i64>)
    ensures
        r == date_micros(text@, format@),
        r matches Some(m) ==> m <= i64::MAX - 86_400_000_000,
{
    match chrono::NaiveDate::parse_from_str(text, format) {
        Ok(d) => Some(d.and_time(chrono::NaiveTime::MIN).and_utc().timestamp_micros()),
        Err(_) => None,
    }
}

/// The format of an instant in a response.
pub open spec fn instant_format() -> Seq<char> {
    "%Y-%m-%dT%H:%M:%SZ"@
}

/// The format of a timestamp in SQL.
pub open spec fn sql_format() -> Seq<char> {
    "%Y-%m-%dT%H:%M:%S%.f"@
}

/// The format of a date-and-time form field.
pub open spec fn picker_format() -> Seq<char> {
    "%Y-%m-%dT%H:%M"@
}

/// `chrono::DateTime::from_timestamp_micros`, and the time it gives written with
/// `format`. The text is a function of the time and the format alone. A format
/// that chrono does not know panics, so only the three in use are admitted.
#[verifier::external_body]
pub(crate) fn write_micros(micros: i64, format: &str) -> (r: Option<String>)
    requires
        format@ == instant_format() || format@ == sql_format() || format@ == picker_format(),
    ensures
        match r {
            Some(s) => written_micros(micros, format@) == Some(s@),
            None => written_micros(micros, format@) is None,
        },
{
    match chrono::DateTime::from_timestamp_micros(micros) {
        Some(t) => Some(t.format(format).to_string()),
        None => None,
    }
}

} // verus!
