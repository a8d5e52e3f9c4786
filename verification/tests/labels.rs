use grus_gui::datefmt::Displayable;
use grus_gui::node::Session;
use grus_gui::paint::divider_color;

// 2021-06-15 14:05, a Tuesday in ISO week 24
const DT: i64 = 1623765900;
// 2024-01-05 09:30: another year
const NOW_OTHER_YEAR: i64 = 1704447000;
// 2021-08-01 12:00: same year, ISO week 30
const NOW_OTHER_WEEK: i64 = 1627819200;
// 2021-06-17 10:00: same ISO week, another day
const NOW_OTHER_DAY: i64 = 1623924000;
// 2021-06-15 08:00: the same day
const NOW_SAME_DAY: i64 = 1623744000;

#[test]
fn absent_date_renders_empty() {
    let d: Displayable<i64> = Displayable(None);
    assert_eq!(d.text(NOW_SAME_DAY), "");
}

#[test]
fn another_year_shows_the_year() {
    assert_eq!(Displayable(Some(DT)).text(NOW_OTHER_YEAR), "15 Jun 2021 2:05 PM");
}

#[test]
fn another_week_shows_month_and_day() {
    assert_eq!(Displayable(Some(DT)).text(NOW_OTHER_WEEK), "15 Jun 2:05 PM");
}

#[test]
fn another_day_shows_the_weekday() {
    assert_eq!(Displayable(Some(DT)).text(NOW_OTHER_DAY), "Tuesday 2:05 PM");
}

#[test]
fn the_same_day_shows_only_the_time() {
    assert_eq!(Displayable(Some(DT)).text(NOW_SAME_DAY), "2:05 PM");
}

#[test]
fn session_joins_both_endpoints() {
    let s = Session { start: 0, end: 5400 };
    let d: Displayable<Session> = Displayable(Some(s));
    // both endpoints fall on the day "now" is on
    assert_eq!(d.text(3600), "12:00 AM to 1:30 AM");
}

#[test]
fn absent_session_renders_empty() {
    let d: Displayable<Session> = Displayable(None);
    assert_eq!(d.text(NOW_SAME_DAY), "");
}

#[test]
fn derived_colors_are_deterministic_and_not_white() {
    let a = divider_color(9);
    let b = divider_color(9);
    assert_eq!(a, b);
    assert!(!(a.r == 255 && a.g == 255 && a.b == 255));
    let c = divider_color(10);
    assert!(!(c.r == 255 && c.g == 255 && c.b == 255));
}
