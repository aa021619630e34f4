use usec::calendar::{Calendar, HalfCheck, Holiday, NthWeek, UsExchangeCalendar};
use usec::date::Weekday;

fn make_cal() -> Calendar {
    let usec = UsExchangeCalendar::with_default_range(true);
    usec.get_cal()
}

#[test]
fn fixed_dates_calendar() {
    let holidays = vec![
        Holiday::SingularDay(Calendar::from_ymd(2019, 11, 20)),
        Holiday::SingularDay(Calendar::from_ymd(2019, 11, 24)),
        Holiday::SingularDay(Calendar::from_ymd(2019, 11, 25)),
        Holiday::WeekDay(Weekday::Sat),
        Holiday::WeekDay(Weekday::Sun),
    ];
    let cal = Calendar::calc_calendar(&holidays, 2019, 2019).unwrap();

    assert_eq!(false, cal.is_business_day(Calendar::from_ymd(2019, 11, 20)));
    assert_eq!(true, cal.is_business_day(Calendar::from_ymd(2019, 11, 21)));
    assert_eq!(true, cal.is_business_day(Calendar::from_ymd(2019, 11, 22)));
    // weekend
    assert_eq!(false, cal.is_business_day(Calendar::from_ymd(2019, 11, 23)));
    assert_eq!(true, cal.is_weekend(Calendar::from_ymd(2019, 11, 23)));
    assert_eq!(false, cal.is_holiday(Calendar::from_ymd(2019, 11, 23)));
    // weekend and holiday
    assert_eq!(false, cal.is_business_day(Calendar::from_ymd(2019, 11, 24)));
    assert_eq!(true, cal.is_weekend(Calendar::from_ymd(2019, 11, 24)));
    assert_eq!(true, cal.is_holiday(Calendar::from_ymd(2019, 11, 24)));
    assert_eq!(false, cal.is_business_day(Calendar::from_ymd(2019, 11, 25)));
    assert_eq!(true, cal.is_business_day(Calendar::from_ymd(2019, 11, 26)));
}

#[test]
fn test_movable_yearly_day() {
    let holidays = vec![Holiday::MovableYearlyDay {
        month: 1,
        day: 1,
        first: None,
        last: None,
        half_check: None,
    }];
    let cal = Calendar::calc_calendar(&holidays, 2021, 2022).unwrap();
    assert_eq!(false, cal.is_holiday(Calendar::from_ymd(2021, 12, 31)));
}

#[test]
/// Good Friday example
fn test_easter_offset() {
    let holidays = vec![Holiday::EasterOffset {
        offset: -2,
        first: None,
        last: None,
    }];
    let cal = Calendar::calc_calendar(&holidays, 2021, 2022).unwrap();
    assert_eq!(false, cal.is_business_day(Calendar::from_ymd(2021, 4, 2)));
    assert_eq!(false, cal.is_business_day(Calendar::from_ymd(2022, 4, 15)));
}

#[test]
fn test_month_weekday() {
    let holidays = vec![
        // MLK
        Holiday::MonthWeekday {
            month: 1,
            weekday: Weekday::Mon,
            nth: NthWeek::Third,
            first: None,
            last: None,
            half_check: None,
        },
        // President's Day
        Holiday::MonthWeekday {
            month: 2,
            weekday: Weekday::Mon,
            nth: NthWeek::Third,
            first: None,
            last: None,
            half_check: None,
        },
    ];
    let cal = Calendar::calc_calendar(&holidays, 2022, 2022).unwrap();
    assert_eq!(true, cal.is_holiday(Calendar::from_ymd(2022, 1, 17)));
    assert_eq!(true, cal.is_holiday(Calendar::from_ymd(2022, 2, 21)));
}

#[test]
fn test_usexchange_calendar_empty() {
    let sc = UsExchangeCalendar::with_default_range(false);
    let c = sc.get_cal();
    assert!(c.holiday_count() == 0);
    assert!(c.halfday_count() == 0);
    assert!(c.weekday_count() == 0);
}

#[test]
fn test_usexchange_calendar_populated() {
    let sc = UsExchangeCalendar::with_default_range(true);
    let c = sc.get_cal();
    assert!(c.holiday_count() > 0);
    assert!(c.halfday_count() > 0);
    assert!(c.weekday_count() > 0);
    assert!(c.is_holiday(Calendar::from_ymd(2021, 1, 1)));
    assert_eq!(false, c.is_holiday(Calendar::from_ymd(2021, 12, 31)))
}

#[test]
fn test_usexchange_calendar_with_new_rule() {
    // imaginary holiday, let's call it March Madness Day
    let mut sc = UsExchangeCalendar::with_default_range(false);
    let holiday = Holiday::MonthWeekday {
        month: 3,
        weekday: Weekday::Wed,
        nth: NthWeek::Third,
        first: None,
        last: None,
        half_check: None,
    };
    sc.add_holiday_rule(holiday);
    sc.populate_cal(None, None).unwrap();
    let c = sc.get_cal();
    assert_eq!(true, c.is_holiday(Calendar::from_ymd(2022, 3, 16)));
}

#[test]
fn test_is_trading_date() {
    let cal = make_cal();
    assert_eq!(cal.is_business_day(Calendar::from_ymd(2021, 4, 18)), false);
    assert_eq!(cal.is_business_day(Calendar::from_ymd(2021, 4, 19)), true);
    assert_eq!(cal.is_business_day(Calendar::from_ymd(2021, 1, 1)), false);
}

#[test]
fn test_is_partial_trading_date() {
    let cal = make_cal();
    assert_eq!(cal.is_half_holiday(Calendar::from_ymd(2027, 12, 23)), false);
    assert_eq!(cal.is_half_holiday(Calendar::from_ymd(2026, 7, 2)), false);
    assert_eq!(cal.is_half_holiday(Calendar::from_ymd(2021, 11, 26)), true);
    assert_eq!(cal.is_half_holiday(Calendar::from_ymd(2022, 5, 12)), false);
}

#[test]
fn test_prev_biz_day() {
    let cal = make_cal();
    assert_eq!(
        cal.prev_biz_day(Calendar::from_ymd(2021, 1, 18)),
        Calendar::from_ymd(2021, 1, 15)
    );
    assert_eq!(
        cal.prev_biz_day(Calendar::from_ymd(2021, 4, 19)),
        Calendar::from_ymd(2021, 4, 16)
    );
    assert_eq!(
        cal.prev_biz_day(Calendar::from_ymd(2021, 8, 9)),
        Calendar::from_ymd(2021, 8, 6)
    );
}

#[test]
fn test_next_biz_day() {
    let cal = make_cal();
    assert_eq!(
        cal.next_biz_day(Calendar::from_ymd(2021, 4, 16)),
        Calendar::from_ymd(2021, 4, 19)
    );
    assert_eq!(
        cal.next_biz_day(Calendar::from_ymd(2021, 4, 19)),
        Calendar::from_ymd(2021, 4, 20)
    );
    assert_eq!(
        cal.next_biz_day(Calendar::from_ymd(2021, 4, 2)),
        Calendar::from_ymd(2021, 4, 5)
    );
}

#[test]
fn weekend_closure_matches_weekday_set() {
    // A calendar recognizing only Sunday as weekend: Saturdays stay
    // business days and business-day status is weekend/holiday negation.
    let holidays = vec![
        Holiday::WeekDay(Weekday::Sun),
        Holiday::SingularDay(Calendar::from_ymd(2021, 6, 7)),
    ];
    let cal = Calendar::calc_calendar(&holidays, 2021, 2021).unwrap();
    // 2021-06-05 is a Saturday, 2021-06-06 a Sunday, 2021-06-07 a Monday.
    assert!(!cal.is_weekend(Calendar::from_ymd(2021, 6, 5)));
    assert!(cal.is_weekend(Calendar::from_ymd(2021, 6, 6)));
    assert!(cal.is_business_day(Calendar::from_ymd(2021, 6, 5)));
    assert!(!cal.is_business_day(Calendar::from_ymd(2021, 6, 6)));
    assert!(!cal.is_business_day(Calendar::from_ymd(2021, 6, 7)));
    assert!(cal.is_business_day(Calendar::from_ymd(2021, 6, 8)));
}

#[test]
fn weekend_shift_moves_saturday_back() {
    // July 4, 2020 falls on a Saturday: the holiday is observed Friday
    // July 3, which is a weekday (shift idempotence).
    let holidays = vec![Holiday::MovableYearlyDay {
        month: 7,
        day: 4,
        first: None,
        last: None,
        half_check: None,
    }];
    let cal = Calendar::calc_calendar(&holidays, 2020, 2020).unwrap();
    assert!(cal.is_holiday(Calendar::from_ymd(2020, 7, 3)));
    assert!(!cal.is_holiday(Calendar::from_ymd(2020, 7, 4)));
}

#[test]
fn weekend_shift_moves_sunday_forward() {
    // June 19, 2022 falls on a Sunday: observed Monday June 20.
    let holidays = vec![Holiday::MovableYearlyDay {
        month: 6,
        day: 19,
        first: Some(2022),
        last: None,
        half_check: None,
    }];
    let cal = Calendar::calc_calendar(&holidays, 2020, 2023).unwrap();
    assert!(cal.is_holiday(Calendar::from_ymd(2022, 6, 20)));
    // Range clamping: nothing before the rule's first year, although
    // the build range starts earlier (2021-06-19 was also a Saturday).
    assert!(!cal.is_holiday(Calendar::from_ymd(2021, 6, 18)));
    assert!(!cal.is_holiday(Calendar::from_ymd(2021, 6, 19)));
    assert!(!cal.is_holiday(Calendar::from_ymd(2021, 6, 21)));
}

#[test]
fn half_day_suppressed_for_monday_anchor() {
    // July 4, 2022 falls on a Monday: the Before half-day is suppressed.
    let holidays = vec![Holiday::MovableYearlyDay {
        month: 7,
        day: 4,
        first: None,
        last: None,
        half_check: Some(HalfCheck::Before),
    }];
    let cal = Calendar::calc_calendar(&holidays, 2022, 2022).unwrap();
    assert!(cal.is_holiday(Calendar::from_ymd(2022, 7, 4)));
    assert!(!cal.is_half_holiday(Calendar::from_ymd(2022, 7, 1)));
    assert!(!cal.is_half_holiday(Calendar::from_ymd(2022, 7, 3)));
    assert_eq!(cal.halfday_count(), 0);
}

#[test]
fn half_day_suppressed_for_friday_anchor() {
    // The first Friday of August 2021 (Aug 6): the After half-day is
    // suppressed because the next day is a weekend day.
    let holidays = vec![Holiday::MonthWeekday {
        month: 8,
        weekday: Weekday::Fri,
        nth: NthWeek::First,
        first: None,
        last: None,
        half_check: Some(HalfCheck::After),
    }];
    let cal = Calendar::calc_calendar(&holidays, 2021, 2021).unwrap();
    assert!(cal.is_holiday(Calendar::from_ymd(2021, 8, 6)));
    assert_eq!(cal.halfday_count(), 0);
}

#[test]
fn half_day_recorded_before_holiday() {
    // July 4, 2023 falls on a Tuesday: July 3 is a half-day.
    let holidays = vec![Holiday::MovableYearlyDay {
        month: 7,
        day: 4,
        first: None,
        last: None,
        half_check: Some(HalfCheck::Before),
    }];
    let cal = Calendar::calc_calendar(&holidays, 2023, 2023).unwrap();
    assert!(cal.is_holiday(Calendar::from_ymd(2023, 7, 4)));
    assert!(cal.is_half_holiday(Calendar::from_ymd(2023, 7, 3)));
    // A half-day is still a business day.
    assert!(cal.is_business_day(Calendar::from_ymd(2023, 7, 3)));
}

#[test]
fn thanksgiving_half_day_scenario() {
    // 4th Thursday of November 2021 is Nov 25; the day after is a half-day.
    let holidays = vec![Holiday::MonthWeekday {
        month: 11,
        weekday: Weekday::Thu,
        nth: NthWeek::Fourth,
        first: None,
        last: None,
        half_check: Some(HalfCheck::After),
    }];
    let cal = Calendar::calc_calendar(&holidays, 2021, 2021).unwrap();
    assert!(cal.is_holiday(Calendar::from_ymd(2021, 11, 25)));
    assert!(cal.is_half_holiday(Calendar::from_ymd(2021, 11, 26)));
}

#[test]
fn invalid_rule_date_is_reported() {
    let holidays = vec![
        Holiday::WeekDay(Weekday::Sat),
        Holiday::MovableYearlyDay {
            month: 2,
            day: 30,
            first: None,
            last: None,
            half_check: None,
        },
    ];
    let err = Calendar::calc_calendar(&holidays, 2020, 2021).unwrap_err();
    assert_eq!(err.rule_index, 1);
    assert_eq!(err.year, 2020);
}

#[test]
fn invalid_month_is_reported() {
    let holidays = vec![Holiday::MonthWeekday {
        month: 13,
        weekday: Weekday::Mon,
        nth: NthWeek::First,
        first: Some(2024),
        last: None,
        half_check: None,
    }];
    let err = Calendar::calc_calendar(&holidays, 2020, 2030).unwrap_err();
    assert_eq!(err.rule_index, 0);
    assert_eq!(err.year, 2024);
}

#[test]
fn easter_year_out_of_computus_range_is_reported() {
    let holidays = vec![Holiday::EasterOffset {
        offset: -2,
        first: None,
        last: None,
    }];
    let err = Calendar::calc_calendar(&holidays, 1500, 1600).unwrap_err();
    assert_eq!(err.rule_index, 0);
    assert_eq!(err.year, 1500);
}

#[test]
fn empty_rule_list_builds_empty_calendar() {
    let holidays: Vec<Holiday> = Vec::new();
    let cal = Calendar::calc_calendar(&holidays, 2020, 2020).unwrap();
    assert_eq!(cal.holiday_count(), 0);
    assert_eq!(cal.halfday_count(), 0);
    assert_eq!(cal.weekday_count(), 0);
    assert!(cal.is_business_day(Calendar::from_ymd(2020, 2, 29)));
}

#[test]
fn last_monday_of_may() {
    let holidays = vec![Holiday::MonthWeekday {
        month: 5,
        weekday: Weekday::Mon,
        nth: NthWeek::Last,
        first: None,
        last: None,
        half_check: None,
    }];
    let cal = Calendar::calc_calendar(&holidays, 2021, 2021).unwrap();
    assert!(cal.is_holiday(Calendar::from_ymd(2021, 5, 31)));
    assert!(!cal.is_holiday(Calendar::from_ymd(2021, 5, 24)));
}
