//! Relative date text for due-dates and sessions.
//!
//! A timestamp is shown with just enough context: the year only when it is
//! not the current year, the month and day only when the date falls outside
//! the current ISO week, the weekday only when it is not today. The calendar
//! arithmetic and the text rendering come from chrono; choosing the style is
//! this module's own, verified logic.

use vstd::prelude::*;
use vstd::string::StringExecFns;
use crate::node::Session;

verus! {

/// Timestamps are kept within chrono's comfortable range: from the epoch
/// through the last second of year 9999.
pub const MAX_DATE_SECS: i64 = 253402300799;

/// The calendar year of a timestamp.
pub uninterp spec fn year_of(secs: i64) -> i32;

/// The day-of-month of a timestamp.
pub uninterp spec fn day_of(secs: i64) -> u32;

/// The ISO week of a timestamp: its week-year and week number.
pub uninterp spec fn week_of(secs: i64) -> (i32, u32);

/// The text chrono renders for a timestamp in one of the four styles:
/// 0 with year, 1 with month and day, 2 with weekday, 3 time only.
pub uninterp spec fn date_text(secs: i64, style: u8) -> Seq<char>;

/// Relies on chrono's `Datelike::year` of the date-time for a timestamp:
/// a function of the timestamp alone.
#[verifier::external_body]
fn ts_year(secs: i64) -> (r: i32)
    requires
        0 <= secs <= MAX_DATE_SECS,
    ensures
        r == year_of(secs),
{
    chrono::Datelike::year(&chrono::DateTime::from_timestamp(secs, 0).unwrap().naive_utc())
}

/// Relies on chrono's `Datelike::day`: a function of the timestamp alone.
#[verifier::external_body]
fn ts_day(secs: i64) -> (r: u32)
    requires
        0 <= secs <= MAX_DATE_SECS,
    ensures
        r == day_of(secs),
{
    chrono::Datelike::day(&chrono::DateTime::from_timestamp(secs, 0).unwrap().naive_utc())
}

/// Relies on chrono's `Datelike::iso_week`: the week-year and week number
/// are functions of the timestamp alone.
#[verifier::external_body]
fn ts_week(secs: i64) -> (r: (i32, u32))
    requires
        0 <= secs <= MAX_DATE_SECS,
    ensures
        r == week_of(secs),
{
    let week = chrono::Datelike::iso_week(
        &chrono::DateTime::from_timestamp(secs, 0).unwrap().naive_utc(),
    );
    (week.year(), week.week())
}

/// Relies on chrono's strftime rendering with `%e %b %Y %-I:%M %p`: the text
/// is a function of the timestamp alone.
#[verifier::external_body]
fn fmt_with_year(secs: i64) -> (r: String)
    requires
        0 <= secs <= MAX_DATE_SECS,
    ensures
        r@ == date_text(secs, 0),
{
    let dt = chrono::DateTime::from_timestamp(secs, 0).unwrap().naive_utc();
    format!("{}", dt.format("%e %b %Y %-I:%M %p"))
}

/// Relies on chrono's strftime rendering with `%e %b %-I:%M %p`: the text is
/// a function of the timestamp alone.
#[verifier::external_body]
fn fmt_with_month(secs: i64) -> (r: String)
    requires
        0 <= secs <= MAX_DATE_SECS,
    ensures
        r@ == date_text(secs, 1),
{
    let dt = chrono::DateTime::from_timestamp(secs, 0).unwrap().naive_utc();
    format!("{}", dt.format("%e %b %-I:%M %p"))
}

/// Relies on chrono's strftime rendering with `%A %-I:%M %p`: the text is a
/// function of the timestamp alone.
#[verifier::external_body]
fn fmt_with_weekday(secs: i64) -> (r: String)
    requires
        0 <= secs <= MAX_DATE_SECS,
    ensures
        r@ == date_text(secs, 2),
{
    let dt = chrono::DateTime::from_timestamp(secs, 0).unwrap().naive_utc();
    format!("{}", dt.format("%A %-I:%M %p"))
}

/// Relies on chrono's strftime rendering with `%-I:%M %p`: the text is a
/// function of the timestamp alone.
#[verifier::external_body]
fn fmt_time_only(secs: i64) -> (r: String)
    requires
        0 <= secs <= MAX_DATE_SECS,
    ensures
        r@ == date_text(secs, 3),
{
    let dt = chrono::DateTime::from_timestamp(secs, 0).unwrap().naive_utc();
    format!("{}", dt.format("%-I:%M %p"))
}

/// Relies on chrono's `Local::now`: the wall clock, of which nothing can be
/// promised.
#[verifier::external_body]
pub fn now_secs() -> (r: i64) {
    chrono::Local::now().naive_local().and_utc().timestamp()
}

/// Which of the four styles a timestamp is rendered in, next to "now": drop
/// the year inside the current year, the date inside the current ISO week,
/// the weekday on the current day.
pub open spec fn style_for(dt: i64, now: i64) -> u8 {
    if year_of(dt) != year_of(now) {
        0
    } else if week_of(dt) != week_of(now) {
        1
    } else if day_of(dt) != day_of(now) {
        2
    } else {
        3
    }
}

/// The text shown for an optional timestamp: empty when absent, else the
/// chrono rendering in the style its distance from "now" calls for.
pub open spec fn spec_date_label(o: Option<i64>, now: i64) -> Seq<char> {
    match o {
        Option::None => Seq::empty(),
        Option::Some(dt) => date_text(dt, style_for(dt, now)),
    }
}

/// The text shown for an optional session: empty when absent, else the two
/// endpoint labels joined by " to ".
pub open spec fn spec_session_label(o: Option<Session>, now: i64) -> Seq<char> {
    match o {
        Option::None => Seq::empty(),
        Option::Some(s) => spec_date_label(Some(s.start), now) + " to "@ + spec_date_label(
            Some(s.end),
            now,
        ),
    }
}

/// An optional value rendered as display text.
pub struct Displayable<T>(pub Option<T>);

impl Displayable<i64> {
    /// The label for an optional due-date, relative to "now".
    pub fn text(&self, now: i64) -> (r: String)
        requires
            0 <= now <= MAX_DATE_SECS,
            self.0 matches Some(dt) ==> 0 <= dt <= MAX_DATE_SECS,
        ensures
            r@ == spec_date_label(self.0, now),
    {
        match self.0 {
            None => String::new(),
            Some(dt) => {
                if ts_year(dt) != ts_year(now) {
                    fmt_with_year(dt)
                } else {
                    let wd = ts_week(dt);
                    let wn = ts_week(now);
                    if wd.0 != wn.0 || wd.1 != wn.1 {
                        fmt_with_month(dt)
                    } else if ts_day(dt) != ts_day(now) {
                        fmt_with_weekday(dt)
                    } else {
                        fmt_time_only(dt)
                    }
                }
            },
        }
    }
}

impl Displayable<Session> {
    /// The label for an optional session: both endpoints, joined by " to ".
    pub fn text(&self, now: i64) -> (r: String)
        requires
            0 <= now <= MAX_DATE_SECS,
            self.0 matches Some(s) ==> 0 <= s.start <= MAX_DATE_SECS && 0 <= s.end
                <= MAX_DATE_SECS,
        ensures
            r@ == spec_session_label(self.0, now),
    {
        match self.0 {
            None => String::new(),
            Some(s) => {
                let start_text = Displayable(Some(s.start)).text(now);
                let end_text = Displayable(Some(s.end)).text(now);
                let mut out = start_text;
                out.append(" to ");
                out.append(end_text.as_str());
                out
            },
        }
    }
}

} // verus!
