use usec::calendar::Calendar;
use usec::market::{generate_calendars, Market};

#[test]
fn registry_holds_us_exchanges() {
    let market = Market::new();
    let name = "US_EXCHANGES".to_string();
    let cal = market.get_calendar(&name).unwrap();
    assert!(cal.is_holiday(Calendar::from_ymd(2021, 1, 1)));
    assert!(!cal.is_business_day(Calendar::from_ymd(2021, 4, 2)));
}

#[test]
fn registry_reports_unknown_name() {
    let market = Market::new();
    let name = "NO_SUCH_CALENDAR".to_string();
    assert!(market.get_calendar(&name).is_none());
}

#[test]
fn generated_calendar_uses_default_table() {
    let cals = generate_calendars();
    assert_eq!(cals.len(), 1);
    assert_eq!(cals[0].0, "US_EXCHANGES");
    let cal = &cals[0].1;
    assert!(cal.holiday_count() > 0);
    assert!(cal.halfday_count() > 0);
    assert_eq!(cal.weekday_count(), 2);
    assert!(cal.is_half_holiday(Calendar::from_ymd(2021, 11, 26)));
}
