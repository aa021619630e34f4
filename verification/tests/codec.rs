use usec::calendar::{Calendar, HalfCheck, Holiday, NthWeek};
use usec::codec::{decode_rules, encode_rules};
use usec::date::Weekday;

#[test]
/// Testing serialization and deserialization of holidays definitions
fn serialize_cal_definition() {
    let holidays = vec![
        Holiday::MonthWeekday {
            month: 11,
            weekday: Weekday::Mon,
            nth: NthWeek::First,
            first: None,
            last: None,
            half_check: None,
        },
        Holiday::MovableYearlyDay {
            month: 11,
            day: 1,
            first: Some(2016),
            last: None,
            half_check: None,
        },
        Holiday::SingularDay(Calendar::from_ymd(2019, 11, 25)),
        Holiday::WeekDay(Weekday::Sat),
        Holiday::EasterOffset {
            offset: -2,
            first: None,
            last: None,
        },
    ];
    let json = encode_rules(&holidays);
    assert_eq!(
        json,
        r#"[
  {
    "MonthWeekday": {
      "month": 11,
      "weekday": "Mon",
      "nth": "First",
      "first": null,
      "last": null,
      "half_check": null
    }
  },
  {
    "MovableYearlyDay": {
      "month": 11,
      "day": 1,
      "first": 2016,
      "last": null,
      "half_check": null
    }
  },
  {
    "SingularDay": "2019-11-25"
  },
  {
    "WeekDay": "Sat"
  },
  {
    "EasterOffset": {
      "offset": -2,
      "first": null,
      "last": null
    }
  }
]"#
    );
    let holidays2: Vec<Holiday> = decode_rules(&json).unwrap();
    assert_eq!(holidays.len(), holidays2.len());
    for i in 0..holidays.len() {
        assert_eq!(holidays[i], holidays2[i]);
    }
}

#[test]
fn round_trip_every_variant() {
    let rules = vec![
        Holiday::WeekDay(Weekday::Sun),
        Holiday::WeekDay(Weekday::Wed),
        Holiday::SingularDay(Calendar::from_ymd(2001, 9, 11)),
        Holiday::SingularDay(Calendar::from_ymd(500, 3, 2)),
        Holiday::MovableYearlyDay {
            month: 7,
            day: 4,
            first: Some(1990),
            last: Some(2040),
            half_check: Some(HalfCheck::Before),
        },
        Holiday::MovableYearlyDay {
            month: 12,
            day: 25,
            first: None,
            last: None,
            half_check: Some(HalfCheck::After),
        },
        Holiday::EasterOffset {
            offset: 39,
            first: Some(2000),
            last: Some(2020),
        },
        Holiday::MonthWeekday {
            month: 5,
            weekday: Weekday::Fri,
            nth: NthWeek::Last,
            first: None,
            last: Some(2050),
            half_check: None,
        },
    ];
    let json = encode_rules(&rules);
    let back = decode_rules(&json).unwrap();
    assert_eq!(rules, back);
}

#[test]
fn round_trip_empty_list() {
    let rules: Vec<Holiday> = Vec::new();
    let json = encode_rules(&rules);
    assert_eq!(json, "[]");
    let back = decode_rules(&json).unwrap();
    assert!(back.is_empty());
}

#[test]
fn decode_accepts_extra_whitespace() {
    let text = "[ { \"WeekDay\": \"Sat\" } ,\n { \"EasterOffset\": { \"offset\": -2 , \"first\": null , \"last\": 2030 } } ]";
    let rules = decode_rules(text).unwrap();
    assert_eq!(rules.len(), 2);
    assert_eq!(rules[0], Holiday::WeekDay(Weekday::Sat));
    assert_eq!(
        rules[1],
        Holiday::EasterOffset {
            offset: -2,
            first: None,
            last: Some(2030)
        }
    );
}

#[test]
fn decode_rejects_unknown_variant() {
    assert!(decode_rules("[{\"Carnival\": \"Sat\"}]").is_err());
}

#[test]
fn decode_rejects_wrong_field_type() {
    assert!(decode_rules("[{\"WeekDay\": 3}]").is_err());
}

#[test]
fn decode_accepts_absent_optional_fields() {
    // Optional fields left out of the encoding deserialize to "not set".
    let text = "[{\"EasterOffset\": {\"offset\": -2, \"first\": null}}]";
    let rules = decode_rules(text).unwrap();
    assert_eq!(
        rules,
        vec![Holiday::EasterOffset { offset: -2, first: None, last: None }]
    );
    let text2 = "[{\"MovableYearlyDay\": {\"month\": 7, \"day\": 4}}]";
    let rules2 = decode_rules(text2).unwrap();
    assert_eq!(
        rules2,
        vec![Holiday::MovableYearlyDay {
            month: 7,
            day: 4,
            first: None,
            last: None,
            half_check: None
        }]
    );
    let text3 = "[{\"MonthWeekday\": {\"month\": 11, \"weekday\": \"Thu\", \"nth\": \"Fourth\", \"half_check\": \"After\"}}]";
    let rules3 = decode_rules(text3).unwrap();
    assert_eq!(
        rules3,
        vec![Holiday::MonthWeekday {
            month: 11,
            weekday: Weekday::Thu,
            nth: NthWeek::Fourth,
            first: None,
            last: None,
            half_check: Some(HalfCheck::After)
        }]
    );
    let text4 = "[{\"MovableYearlyDay\": {\"month\": 6, \"day\": 19, \"first\": 2022}}]";
    let rules4 = decode_rules(text4).unwrap();
    assert_eq!(
        rules4,
        vec![Holiday::MovableYearlyDay {
            month: 6,
            day: 19,
            first: Some(2022),
            last: None,
            half_check: None
        }]
    );
}

#[test]
fn decode_rejects_missing_required_field() {
    // A required field cannot be omitted.
    assert!(decode_rules("[{\"EasterOffset\": {\"first\": null, \"last\": null}}]").is_err());
    assert!(decode_rules("[{\"MovableYearlyDay\": {\"month\": 7}}]").is_err());
    assert!(decode_rules("[{\"MonthWeekday\": {\"month\": 11, \"weekday\": \"Thu\"}}]").is_err());
}

#[test]
fn decode_rejects_bad_date() {
    assert!(decode_rules("[{\"SingularDay\": \"2019-02-30\"}]").is_err());
    assert!(decode_rules("[{\"SingularDay\": \"2019-13-01\"}]").is_err());
}

#[test]
fn decode_rejects_trailing_data() {
    assert!(decode_rules("[{\"WeekDay\": \"Sat\"}] x").is_err());
    assert!(decode_rules("").is_err());
    assert!(decode_rules("nonsense").is_err());
}

#[test]
fn decode_rejects_number_overflow() {
    let text = "[{\"EasterOffset\": {\"offset\": 99999999999, \"first\": null, \"last\": null}}]";
    assert!(decode_rules(text).is_err());
}
