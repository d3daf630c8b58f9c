use watchprice::dates::{date_to_timestamp, month_index_to_timestamp, rates_with_timestamps, CivilDate};
use watchprice::WatchError;

fn fixed_today() -> CivilDate {
    CivilDate {
        year: 2026,
        month: 10,
        day: 11,
    }
}

#[test]
fn absolute_date_parses() {
    let ts = date_to_timestamp("21 July 2023 04:52 PM", fixed_today()).unwrap();
    assert_eq!(ts, 1689958320);
}

#[test]
fn today_resolves_against_current_date() {
    let ts = date_to_timestamp("Today 9:05 AM", fixed_today()).unwrap();
    assert_eq!(ts, 1791709500);
}

#[test]
fn yesterday_resolves_against_previous_day() {
    let ts = date_to_timestamp("Yesterday 11:59 PM", fixed_today()).unwrap();
    assert_eq!(ts, 1791676740);
}

#[test]
fn bare_relative_markers_fail_to_parse() {
    assert_eq!(
        date_to_timestamp("Today", fixed_today()),
        Err(WatchError::ParseTime)
    );
    assert_eq!(
        date_to_timestamp("Yesterday", fixed_today()),
        Err(WatchError::ParseTime)
    );
}

#[test]
fn nonsense_dates_fail_to_parse() {
    assert_eq!(
        date_to_timestamp("sometime soon", fixed_today()),
        Err(WatchError::ParseTime)
    );
    // a thirtieth of February is not a calendar date
    assert_eq!(
        date_to_timestamp("30 February 2023 01:00 PM", fixed_today()),
        Err(WatchError::ParseTime)
    );
    // hour thirteen does not fit the twelve-hour clock
    assert_eq!(
        date_to_timestamp("Today 13:00 PM", fixed_today()),
        Err(WatchError::ParseTime)
    );
}

#[test]
fn month_indexes_start_at_the_rate_epoch() {
    assert_eq!(month_index_to_timestamp(0), 946684800);
    assert_eq!(month_index_to_timestamp(14), 983404800);
}

#[test]
fn rate_lists_get_month_timestamps() {
    let rates = rates_with_timestamps(&vec![1_000_000, 2_000_000]);
    assert_eq!(rates.len(), 2);
    assert_eq!(rates[0].timestamp, 946684800);
    assert_eq!(rates[0].rate_micro, 1_000_000);
    assert_eq!(rates[1].rate_micro, 2_000_000);
}

#[test]
fn local_today_is_a_calendar_date() {
    let t = watchprice::dates::local_today();
    assert!((1..=12).contains(&t.month));
    assert!((1..=31).contains(&t.day));
}
