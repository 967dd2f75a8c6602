//! Dates in page templates: reading them in several notations and writing them
//! in a given pattern.
use std::fmt::Write;

use chrono::TimeZone;
use vstd::prelude::*;

verus! {

/// A moment together with an offset from UTC.
#[derive(Clone, Copy, Debug, PartialEq, Eq, Structural)]
pub struct Date {
    /// Seconds since the Unix epoch.
    pub secs: i64,
    /// Nanoseconds past them; in a leap second a billion or more.
    pub nanos: u32,
    /// Seconds by which local time is ahead of UTC.
    pub offset_secs: i32,
}

/// The date that a text tells in the notation of RFC 3339: its fields in order.
pub uninterp spec fn rfc3339_date(text: Seq<char>) -> Option<(i64, u32, i32)>;

/// The date that a text tells in a notation described by a pattern: its fields
/// in order, or what is wrong with the text.
pub uninterp spec fn patterned_date(
    text: Seq<char>,
    pattern: Seq<char>,
) -> Result<(i64, u32, i32), Seq<char>>;

/// The text of a date, given by its fields, in a pattern.
pub uninterp spec fn date_text(
    secs: i64,
    nanos: u32,
    offset_secs: i32,
    pattern: Seq<char>,
) -> Option<Seq<char>>;

/// `chrono::DateTime::parse_from_rfc3339`: the date told by a text, or nothing
/// where it does not tell one. Which it is is only named.
#[verifier::external_body]
fn parse_rfc3339(text: &str) -> (date: Option<Date>)
    ensures
        match date {
            Some(d) => rfc3339_date(text@) == Some((d.secs, d.nanos, d.offset_secs)),
            None => rfc3339_date(text@) is None,
        },
{
    let date = chrono::DateTime::parse_from_rfc3339(text).ok()?;
    Some(Date {
        secs: date.timestamp(),
        nanos: date.timestamp_subsec_nanos(),
        offset_secs: date.offset().local_minus_utc(),
    })
}

/// `chrono::DateTime::parse_from_str`: the date told by a text in the notation
/// of a pattern, or the error as text. Which it is is only named.
#[verifier::external_body]
fn parse_patterned(text: &str, pattern: &str) -> (date: Result<Date, String>)
    ensures
        match date {
            Ok(d) => patterned_date(text@, pattern@) == Ok::<_, Seq<char>>(
                (d.secs, d.nanos, d.offset_secs),
            ),
            Err(e) => patterned_date(text@, pattern@) == Err::<(i64, u32, i32), _>(e@),
        },
{
    let date = chrono::DateTime::parse_from_str(text, pattern).map_err(|e| e.to_string())?;
    Ok(Date {
        secs: date.timestamp(),
        nanos: date.timestamp_subsec_nanos(),
        offset_secs: date.offset().local_minus_utc(),
    })
}

/// `chrono::DateTime::format`: the text of a date in a pattern, or nothing where
/// the pattern is not one or chrono has no such date. Which it is is only named.
#[verifier::external_body]
fn write_date(date: Date, pattern: &str) -> (text: Option<String>)
    ensures
        match text {
            Some(t) => date_text(date.secs, date.nanos, date.offset_secs, pattern@) == Some(t@),
            None => date_text(date.secs, date.nanos, date.offset_secs, pattern@) is None,
        },
{
    let zone = chrono::FixedOffset::east_opt(date.offset_secs)?;
    let moment = zone.timestamp_opt(date.secs, date.nanos).single()?;
    let mut text = String::new();
    write!(text, "{}", moment.format(pattern)).ok()?;
    Some(text)
}

/// The fields of a date in order.
pub open spec fn fields(date: Date) -> (i64, u32, i32) {
    (date.secs, date.nanos, date.offset_secs)
}

/// The date that a text tells, given how it reads in each notation: the first
/// reading that succeeds counts, and the last error is told.
pub open spec fn first_reading(
    text: Seq<char>,
    rfc3339: Option<(i64, u32, i32)>,
    zoned: Result<(i64, u32, i32), Seq<char>>,
    plain: Result<(i64, u32, i32), Seq<char>>,
) -> Result<(i64, u32, i32), Seq<char>> {
    match (rfc3339, zoned, plain) {
        (Some(d), _, _) => Ok(d),
        (None, Ok(d), _) => Ok(d),
        (None, Err(_), Ok(d)) => Ok(d),
        (None, Err(_), Err(e)) => Err("Failed to parse date '"@ + text + "': "@ + e),
    }
}

/// The fields of a date that was read in some notation, or the error as text.
pub open spec fn reading(date: Result<Date, String>) -> Result<(i64, u32, i32), Seq<char>> {
    match date {
        Ok(d) => Ok(fields(d)),
        Err(e) => Err(e@),
    }
}

/// Picks the date that a text tells, given how it reads in each notation.
pub fn pick_reading(
    text: &str,
    rfc3339: Option<Date>,
    zoned: Result<Date, String>,
    plain: Result<Date, String>,
) -> (date: Result<Date, String>)
    ensures
        reading(date) == first_reading(
            text@,
            match rfc3339 {
                Some(d) => Some(fields(d)),
                None => None,
            },
            reading(zoned),
            reading(plain),
        ),
{
    if let Some(d) = rfc3339 {
        return Ok(d);
    }
    if let Ok(d) = zoned {
        return Ok(d);
    }
    match plain {
        Ok(d) => Ok(d),
        Err(e) => {
            let mut message = "Failed to parse date '".to_owned();
            message.append(text);
            message.append("': ");
            message.append(&e);
            Err(message)
        },
    }
}

/// Reads the value that a template hands to its date filter, which is nothing
/// where it is no text. Dates are taken in RFC 3339 and in two plain notations.
pub fn read_date(value: Option<&str>) -> (date: Result<Date, String>)
    ensures
        reading(date) == match value {
            None => Err("Filter `date_format` expected a string value"@),
            Some(text) => first_reading(
                text@,
                rfc3339_date(text@),
                patterned_date(text@, "%Y-%m-%d %H:%M:%S %z"@),
                patterned_date(text@, "%Y-%m-%d %H:%M:%S"@),
            ),
        },
{
    match value {
        None => Err("Filter `date_format` expected a string value".to_owned()),
        Some(text) => pick_reading(
            text,
            parse_rfc3339(text),
            parse_patterned(text, "%Y-%m-%d %H:%M:%S %z"),
            parse_patterned(text, "%Y-%m-%d %H:%M:%S"),
        ),
    }
}

/// Writes a date in a pattern; there is no text where the pattern is not one.
pub fn format_date(date: Date, pattern: &str) -> (text: Option<String>)
    ensures
        match text {
            Some(t) => date_text(date.secs, date.nanos, date.offset_secs, pattern@) == Some(t@),
            None => date_text(date.secs, date.nanos, date.offset_secs, pattern@) is None,
        },
{
    write_date(date, pattern)
}

/// A text is read as the first notation that fits it says: RFC 3339 before the
/// notation with an offset, and that before the one without. Only where none fits
/// it is refused, with the text and the last error in full.
pub proof fn first_notation_that_fits_counts(
    text: Seq<char>,
    date: (i64, u32, i32),
    zoned: Result<(i64, u32, i32), Seq<char>>,
    plain: Result<(i64, u32, i32), Seq<char>>,
    e: Seq<char>,
    f: Seq<char>,
)
    ensures
        first_reading(text, Some(date), zoned, plain) == Ok::<_, Seq<char>>(date),
        first_reading(text, None, Ok(date), plain) == Ok::<_, Seq<char>>(date),
        first_reading(text, None, Err(e), Ok(date)) == Ok::<_, Seq<char>>(date),
        first_reading(text, None, Err(e), Err(f)) matches Err(m) && crate::text::has_part(m, text)
            && crate::text::has_part(m, f),
{
    let front = "Failed to parse date '"@;
    let mid = "': "@;
    let m = front + text + mid + f;
    crate::text::part_between_is_found(front, text, mid + f);
    assert(front + text + (mid + f) == m);
    crate::text::part_between_is_found(front + text + mid, f, Seq::<char>::empty());
    assert(front + text + mid + f + Seq::<char>::empty() == m);
}

/// A date is seen with all of its fields, and an error with its whole text.
pub proof fn dates_are_seen_in_full(date: Date, e: String)
    ensures
        fields(date).0 == date.secs,
        fields(date).1 == date.nanos,
        fields(date).2 == date.offset_secs,
        reading(Ok(date)) == Ok::<_, Seq<char>>((date.secs, date.nanos, date.offset_secs)),
        reading(Err(e)) == Err::<(i64, u32, i32), _>(e@),
{
}

} // verus!
