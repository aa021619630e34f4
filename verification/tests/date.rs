use usec::calendar::{accounting_period_end, do_halfday_check, Calendar, HalfCheck};
use usec::date::{is_leap_year, last_day_of_month, Date, Weekday};

#[test]
fn leap_years() {
    assert!(is_leap_year(2000));
    assert!(is_leap_year(2020));
    assert!(!is_leap_year(1900));
    assert!(!is_leap_year(2021));
}

#[test]
fn month_lengths() {
    assert_eq!(last_day_of_month(2021, 2), 28);
    assert_eq!(last_day_of_month(2020, 2), 29);
    assert_eq!(last_day_of_month(2021, 4), 30);
    assert_eq!(last_day_of_month(2021, 12), 31);
}

#[test]
fn weekdays_of_known_dates() {
    assert_eq!(Calendar::from_ymd(2000, 1, 1).weekday(), Weekday::Sat);
    assert_eq!(Calendar::from_ymd(2021, 1, 1).weekday(), Weekday::Fri);
    assert_eq!(Calendar::from_ymd(2021, 11, 25).weekday(), Weekday::Thu);
    assert_eq!(Calendar::from_ymd(1, 1, 1).weekday(), Weekday::Mon);
}

#[test]
fn stepping_across_boundaries() {
    let d = Calendar::from_ymd(2020, 2, 28);
    assert_eq!(d.succ(), Calendar::from_ymd(2020, 2, 29));
    assert_eq!(d.succ().succ(), Calendar::from_ymd(2020, 3, 1));
    let e = Calendar::from_ymd(2021, 1, 1);
    assert_eq!(e.pred(), Calendar::from_ymd(2020, 12, 31));
}

#[test]
fn day_numbers_round_trip() {
    let d = Calendar::from_ymd(2021, 4, 19);
    assert_eq!(Date::from_day_number(d.day_number()), d);
    assert_eq!(Date::from_day_number(0), Calendar::from_ymd(1, 1, 1));
}

#[test]
fn accounting_period_ends() {
    let ends = accounting_period_end(Calendar::from_ymd(2021, 2, 10));
    assert_eq!(ends.0, Calendar::from_ymd(2021, 2, 28));
    assert_eq!(ends.1, Calendar::from_ymd(2021, 12, 31));
}

#[test]
fn halfday_check_inserts_prior_day() {
    let mut halfdays: Vec<Date> = Vec::new();
    // 2023-07-04 is a Tuesday: Before records the 3rd.
    let d = Calendar::from_ymd(2023, 7, 4);
    do_halfday_check(&d, &mut halfdays, &Some(HalfCheck::Before));
    assert_eq!(halfdays, vec![Calendar::from_ymd(2023, 7, 3)]);
    // A Monday anchor records nothing.
    let m = Calendar::from_ymd(2023, 7, 3);
    let mut none_recorded: Vec<Date> = Vec::new();
    do_halfday_check(&m, &mut none_recorded, &Some(HalfCheck::Before));
    assert!(none_recorded.is_empty());
}
