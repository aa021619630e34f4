//! A small registry of named, pre-built calendars.

use vstd::prelude::*;
use crate::calendar::{calendar_matches, empty_calendar, rule_errs, Calendar, UsExchangeCalendar};

verus! {

/// The registry's one entry, named `US_EXCHANGES`: the default exchange
/// table built over 2000..=2050, or an empty calendar should a rule of
/// that table fail to expand.
pub open spec fn market_calendar(cal: Calendar) -> bool {
    if exists|j: int|
        0 <= j < UsExchangeCalendar::spec_default_rules().len() && rule_errs(
            #[trigger] UsExchangeCalendar::spec_default_rules()[j],
            2000,
            2050,
        ) {
        empty_calendar(cal)
    } else {
        calendar_matches(cal, UsExchangeCalendar::spec_default_rules(), 2000, 2050)
    }
}

/// Generate fixed set of some calendars for testing purposes only
pub fn generate_calendars() -> (r: Vec<(String, Calendar)>)
    ensures
        r@.len() == 1,
        r@[0].0@ == "US_EXCHANGES"@,
        market_calendar(r@[0].1),
{
    let usec = UsExchangeCalendar::with_default_range(true);
    let target_cal = usec.get_cal();
    let name: String = "US_EXCHANGES".to_owned();
    let mut calendars: Vec<(String, Calendar)> = Vec::new();
    calendars.push((name, target_cal));
    calendars
}

/// A lookup from calendar names to built calendars; an unknown name is
/// reported as absent, never as a failure.
#[derive(Debug)]
pub struct Market {
    calendars: Vec<(String, Calendar)>,
}

impl Market {
    pub closed spec fn entries(self) -> Seq<(String, Calendar)> {
        self.calendars@
    }

    pub fn new() -> (r: Market)
        ensures
            r.entries().len() == 1,
            r.entries()[0].0@ == "US_EXCHANGES"@,
            market_calendar(r.entries()[0].1),
    {
        Market { calendars: generate_calendars() }
    }

    /// Look a calendar up by name; `None` reports an unknown name.
    pub fn get_calendar(&self, name: &String) -> (r: Option<&Calendar>)
        ensures
            match r {
                Some(cal) => exists|k: int|
                    0 <= k < self.entries().len() && (#[trigger] self.entries()[k]).0@ == name@
                        && self.entries()[k].1 == *cal,
                None => forall|k: int|
                    0 <= k < self.entries().len() ==> (#[trigger] self.entries()[k]).0@ != name@,
            },
    {
        let mut i: usize = 0;
        while i < self.calendars.len()
            invariant
                0 <= i <= self.calendars@.len(),
                forall|k: int| 0 <= k < i ==> (#[trigger] self.calendars@[k]).0@ != name@,
            decreases self.calendars@.len() - i,
        {
            if self.calendars[i].0 == *name {
                proof {
                    assert((#[trigger] self.entries()[i as int]).0@ == name@);
                }
                return Some(&self.calendars[i].1);
            }
            i = i + 1;
        }
        None
    }
}

} // verus!
