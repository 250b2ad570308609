//! Instants in text, and the calendar date of an instant in a time zone.

use vstd::prelude::*;

use crate::text::opt_text;

verus! {

/// The instant that a text spells, in milliseconds since the Unix epoch, as
/// `jiff::Timestamp` reads it.
pub uninterp spec fn instant_text(text: Seq<char>) -> Option<i64>;

/// `str::parse` into a `jiff::Timestamp`, and its `as_millisecond`: a function
/// of the text alone.
#[verifier::external_body]
pub(crate) fn parse_ts_timestamp(text: &str) -> (instant: Option<i64>)
    ensures
        instant == instant_text(text@),
{
    text.parse::<jiff::Timestamp>().ok().map(|instant| instant.as_millisecond())
}

/// The time zone type of jiff.
#[verifier::external_type_specification]
#[verifier::external_body]
pub struct ExTimeZone(jiff::tz::TimeZone);

/// Whether an instant lies in the calendar: from the year -9999 to the year
/// 9999, with room for every time zone.
pub open spec fn in_calendar(millis: i64) -> bool {
    -377_705_023_201_000 <= millis <= 253_402_207_200_000
}

/// The calendar date of an instant in a time zone, as jiff writes it. There is
/// none for an instant that does not lie in the calendar.
pub uninterp spec fn zoned_date(millis: i64, zone: jiff::tz::TimeZone) -> Option<Seq<char>>;

/// `jiff::Timestamp::from_millisecond`, then `to_zoned`, `date` and the text of
/// that date: a function of the instant and of the rules of the zone. Only
/// `from_millisecond` can fail, and it does for an instant that does not lie
/// between the whole seconds of `jiff::Timestamp::MIN` and
/// `jiff::Timestamp::MAX`.
#[verifier::external_body]
pub(crate) fn format_date_tz(millis: i64, zone: &jiff::tz::TimeZone) -> (date: Option<String>)
    ensures
        opt_text(date) == zoned_date(millis, *zone),
        date is Some <==> in_calendar(millis),
{
    let instant = jiff::Timestamp::from_millisecond(millis).ok()?;
    Some(instant.to_zoned(zone.clone()).date().to_string())
}

/// An instant in RFC 3339 with milliseconds, as jiff writes it. There is none
/// for an instant that does not lie in the calendar.
pub uninterp spec fn rfc3339_millis(millis: i64) -> Option<Seq<char>>;

/// `jiff::Timestamp::from_millisecond`, and its text with three fractional
/// digits: a function of the instant alone. Only `from_millisecond` can fail,
/// and it does for an instant that does not lie between the whole seconds of
/// `jiff::Timestamp::MIN` and `jiff::Timestamp::MAX`.
#[verifier::external_body]
pub(crate) fn format_rfc3339_millis(millis: i64) -> (text: Option<String>)
    ensures
        opt_text(text) == rfc3339_millis(millis),
        text is Some <==> in_calendar(millis),
{
    let instant = jiff::Timestamp::from_millisecond(millis).ok()?;
    Some(format!("{instant:.3}"))
}

} // verus!
