//! The calendar arithmetic the task CLI borrows from `jiff`: reading a
//! `YYYY-MM-DD` day and an `HH:MM` hour, and placing the two in a zone.

use vstd::prelude::*;
use crate::text::string_of;

verus! {

#[verifier::external_type_specification]
#[verifier::external_body]
pub struct ExDate(jiff::civil::Date);

#[verifier::external_type_specification]
#[verifier::external_body]
pub struct ExTime(jiff::civil::Time);

#[verifier::external_type_specification]
#[verifier::external_body]
pub struct ExDateTime(jiff::civil::DateTime);

#[verifier::external_type_specification]
#[verifier::external_body]
pub struct ExTimeZone(jiff::tz::TimeZone);

#[verifier::external_type_specification]
#[verifier::external_body]
pub struct ExTimestamp(jiff::Timestamp);

#[verifier::external_type_specification]
#[verifier::external_body]
pub struct ExZoned(jiff::Zoned);

/// The earliest and latest counts of milliseconds since the Unix epoch that
/// name a jiff instant: its range of seconds (years -9999 to 9999, narrowed
/// by the widest offset, 25:59:59) in milliseconds.
pub const MIN_INSTANT_MS: i64 = -377705023201000;

pub const MAX_INSTANT_MS: i64 = 253402207200000;

/// Whether a count of milliseconds since the Unix epoch falls in jiff's
/// range of instants.
pub open spec fn millis_in_range(ms: int) -> bool {
    MIN_INSTANT_MS <= ms <= MAX_INSTANT_MS
}

/// The instant a count of milliseconds since the Unix epoch names, as
/// `jiff::Timestamp::from_millisecond` builds it.
pub uninterp spec fn instant_at(ms: int) -> jiff::Timestamp;

/// The date `jiff` reads a text as.
pub uninterp spec fn date_of(s: Seq<char>) -> jiff::civil::Date;

/// The time of day `jiff` reads a text as.
pub uninterp spec fn time_of(s: Seq<char>) -> jiff::civil::Time;

/// The time of day `jiff::civil::time` builds from its four parts.
pub uninterp spec fn civil_time(hour: int, minute: int, second: int, nanosecond: int) -> jiff::civil::Time;

/// The milliseconds since the Unix epoch of the moment a day and a time of
/// day name in a zone, or jiff's error, as text, when the zone has no such
/// moment in jiff's range.
pub uninterp spec fn placed_millis(date: jiff::civil::Date, time: jiff::civil::Time, tz: jiff::tz::TimeZone) -> Result<i64, Seq<char>>;

/// An instant as seen in a zone.
pub uninterp spec fn zoned_at(ts: jiff::Timestamp, tz: jiff::tz::TimeZone) -> jiff::Zoned;

/// The civil date of a zoned instant.
pub uninterp spec fn day_of(z: jiff::Zoned) -> jiff::civil::Date;

/// The text `Date`'s `Display` writes.
pub uninterp spec fn day_text_of(d: jiff::civil::Date) -> Seq<char>;

/// The civil date and time of a zoned instant.
pub uninterp spec fn datetime_of(z: jiff::Zoned) -> jiff::civil::DateTime;

/// The hour of a zoned instant.
pub uninterp spec fn hour_of(z: jiff::Zoned) -> int;

/// The minute of a zoned instant.
pub uninterp spec fn minute_of(z: jiff::Zoned) -> int;

/// The instant a stored count of milliseconds is read as: its own when it
/// is in range, the epoch when it is not.
pub open spec fn instant_or_epoch(ms: int) -> jiff::Timestamp {
    if millis_in_range(ms) {
        instant_at(ms)
    } else {
        instant_at(0)
    }
}

/// The character of a decimal digit.
pub open spec fn digit_char(d: int) -> char {
    ((48 + d) as u32) as char
}

/// A number below 100 in two digits, with a leading zero.
pub open spec fn two_digits(n: int) -> Seq<char> {
    seq![digit_char(n / 10), digit_char(n % 10)]
}

/// An hour and a minute as `HH:MM`.
pub open spec fn clock_text(hour: int, minute: int) -> Seq<char> {
    two_digits(hour) + seq![':'] + two_digits(minute)
}

pub open spec fn is_digit(c: char) -> bool {
    '0' <= c && c <= '9'
}

/// The number two decimal digits spell.
pub open spec fn two_digit_value(a: char, b: char) -> int {
    (a as int - '0' as int) * 10 + (b as int - '0' as int)
}

/// A day as `Date`'s `Display` writes it: `YYYY-MM-DD`, or `-00YYYY-MM-DD`
/// for a year before year zero, with a month from 01 to 12 and a day from
/// 01 to 31.
pub open spec fn iso_day_text(s: Seq<char>) -> bool {
    let d = if s.len() == 13 { s.subrange(3, 13) } else { s };
    &&& (s.len() == 10 || (s.len() == 13 && s[0] == '-' && s[1] == '0' && s[2] == '0'))
    &&& is_digit(d[0]) && is_digit(d[1]) && is_digit(d[2]) && is_digit(d[3])
    &&& d[4] == '-' && d[7] == '-'
    &&& is_digit(d[5]) && is_digit(d[6]) && is_digit(d[8]) && is_digit(d[9])
    &&& 1 <= two_digit_value(d[5], d[6]) <= 12
    &&& 1 <= two_digit_value(d[8], d[9]) <= 31
}

/// Whether `jiff` reads a text as a civil date.
pub uninterp spec fn date_parses(s: Seq<char>) -> bool;

/// Whether `jiff` reads a text as a civil time of day.
pub uninterp spec fn time_parses(s: Seq<char>) -> bool;

/// `<jiff::civil::Date as FromStr>::from_str`: jiff's own ISO 8601 date
/// grammar. Claimed: it answers with a date exactly when the text parses,
/// which `date_parses` names; the date itself is left opaque.
#[verifier::external_body]
pub(crate) fn parse_date(s: &str) -> (r: Option<jiff::civil::Date>)
    ensures
        r is Some <==> date_parses(s@),
        r matches Some(d) ==> d == date_of(s@),
{
    s.parse::<jiff::civil::Date>().ok()
}

/// `<jiff::civil::Time as FromStr>::from_str`: jiff's ISO 8601 time grammar.
/// Claimed: it answers with a time exactly when the text parses, which
/// `time_parses` names; the time itself is left opaque.
#[verifier::external_body]
pub(crate) fn parse_time(s: &str) -> (r: Option<jiff::civil::Time>)
    ensures
        r is Some <==> time_parses(s@),
        r matches Some(t) ==> t == time_of(s@),
{
    s.parse::<jiff::civil::Time>().ok()
}

/// `jiff::civil::time(0, 0, 0, 0)`: the start of a day, which
/// `civil_time(0, 0, 0, 0)` names.
#[verifier::external_body]
pub(crate) fn midnight() -> (r: jiff::civil::Time)
    ensures
        r == civil_time(0, 0, 0, 0),
{
    jiff::civil::time(0, 0, 0, 0)
}

/// `Date::to_datetime`, then `DateTime::to_zoned` and the instant's
/// milliseconds: the moment a day and an hour name in a zone, or jiff's
/// error as text when the zone has no such moment. Claimed: the answer is
/// the one `placed_millis` names; it depends on nothing but the day, the
/// time and the zone value, whose rules it carries.
#[verifier::external_body]
pub(crate) fn zoned_millis(date: &jiff::civil::Date, time: &jiff::civil::Time, tz: &jiff::tz::TimeZone) -> (r: Result<i64, String>)
    ensures
        match r {
            Ok(ms) => placed_millis(*date, *time, *tz) == Ok::<i64, Seq<char>>(ms),
            Err(e) => placed_millis(*date, *time, *tz) == Err::<i64, Seq<char>>(e@),
        },
{
    date.to_datetime(*time).to_zoned(tz.clone()).map(|z| z.timestamp().as_millisecond()).map_err(|e| e.to_string())
}

/// `jiff::tz::TimeZone::get`: the zone of that name in the machine's time
/// zone database, when it has one. Nothing is claimed: the answer depends
/// on what the machine holds.
#[verifier::external_body]
pub(crate) fn zone_named(name: &str) -> (r: Option<jiff::tz::TimeZone>) {
    jiff::tz::TimeZone::get(name).ok()
}

/// `jiff::tz::TimeZone::UTC`. Nothing is claimed.
#[verifier::external_body]
pub(crate) fn utc() -> (r: jiff::tz::TimeZone) {
    jiff::tz::TimeZone::UTC
}

/// `jiff::Timestamp::from_millisecond`: the instant, or jiff's error as text
/// when the count falls outside jiff's range, which `millis_in_range` names.
/// Claimed: the instant is the one `instant_at` names for the count, since
/// the call depends on nothing but it.
#[verifier::external_body]
pub(crate) fn timestamp_of(ms: i64) -> (r: Result<jiff::Timestamp, String>)
    ensures
        r is Ok <==> millis_in_range(ms as int),
        r matches Ok(ts) ==> ts == instant_at(ms as int),
{
    jiff::Timestamp::from_millisecond(ms).map_err(|e| e.to_string())
}

/// `jiff::Timestamp::UNIX_EPOCH`. Claimed: it is the instant
/// `from_millisecond(0)` builds (zero seconds, zero nanoseconds), which
/// `instant_at(0)` names.
#[verifier::external_body]
pub(crate) fn epoch() -> (r: jiff::Timestamp)
    ensures
        r == instant_at(0),
{
    jiff::Timestamp::UNIX_EPOCH
}

/// `Timestamp::to_zoned`: an instant seen in a zone, which `zoned_at` names.
#[verifier::external_body]
pub(crate) fn zoned(ts: &jiff::Timestamp, tz: &jiff::tz::TimeZone) -> (r: jiff::Zoned)
    ensures
        r == zoned_at(*ts, *tz),
{
    ts.to_zoned(tz.clone())
}

/// `Zoned::date`: the civil date of a zoned instant, which `day_of` names.
#[verifier::external_body]
pub(crate) fn zoned_day(z: &jiff::Zoned) -> (r: jiff::civil::Date)
    ensures
        r == day_of(*z),
{
    z.date()
}

/// `Date`'s `Display`: the day as `YYYY-MM-DD`, a year before zero as
/// `-00YYYY`. Claimed: the text is the one `day_text_of` names, and it has
/// that shape, with a month from 01 to 12 and a day from 01 to 31, as
/// jiff's date printer and `Date`'s ranges show.
#[verifier::external_body]
pub(crate) fn day_text(d: &jiff::civil::Date) -> (r: String)
    ensures
        r@ == day_text_of(*d),
        iso_day_text(r@),
{
    d.to_string()
}

/// `Zoned::datetime`: the civil date and time of a zoned instant, which
/// `datetime_of` names.
#[verifier::external_body]
pub(crate) fn zoned_datetime(z: &jiff::Zoned) -> (r: jiff::civil::DateTime)
    ensures
        r == datetime_of(*z),
{
    z.datetime()
}

/// `Zoned::hour`: the hour of a zoned instant, which `hour_of` names, from
/// 0 to 23.
#[verifier::external_body]
pub(crate) fn zoned_hour(z: &jiff::Zoned) -> (r: i8)
    ensures
        r == hour_of(*z),
        0 <= r < 24,
{
    z.hour()
}

/// `Zoned::minute`: the minute of a zoned instant, which `minute_of` names,
/// from 0 to 59.
#[verifier::external_body]
pub(crate) fn zoned_minute(z: &jiff::Zoned) -> (r: i8)
    ensures
        r == minute_of(*z),
        0 <= r < 60,
{
    z.minute()
}

fn push_two_digits(out: &mut Vec<char>, n: i8)
    requires
        0 <= n < 100,
    ensures
        final(out)@ == old(out)@ + two_digits(n as int),
{
    let tens: u8 = (n / 10) as u8;
    let ones: u8 = (n % 10) as u8;
    out.push((48u8 + tens) as char);
    out.push((48u8 + ones) as char);
    assert(final(out)@ =~= old(out)@ + two_digits(n as int));
}

/// A zoned instant's hour and minute as `HH:MM`.
pub(crate) fn hour_text(z: &jiff::Zoned) -> (r: String)
    ensures
        r@ == clock_text(hour_of(*z), minute_of(*z)),
{
    let h = zoned_hour(z);
    let m = zoned_minute(z);
    let mut out: Vec<char> = Vec::new();
    push_two_digits(&mut out, h);
    out.push(':');
    push_two_digits(&mut out, m);
    assert(out@ =~= clock_text(h as int, m as int));
    string_of(&out)
}

} // verus!
