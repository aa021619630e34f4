//! Easter Sunday, computed by the `computus` crate.

use vstd::prelude::*;
use crate::date::{dn_of, Date};

verus! {

/// Day number of Easter Sunday (Gregorian computus) of the given year.
pub uninterp spec fn easter_sunday_dn(y: int) -> int;

/// Easter Sunday lies between March 1 and April 30 of its year.
pub open spec fn easter_in_spring(y: int) -> bool {
    dn_of(y, 3, 1) <= easter_sunday_dn(y) <= dn_of(y, 4, 30)
}

/// Relies on computus::gregorian: for a year in 1583..=9999 it returns
/// Ok with a date whose year field is that year and whose month (March
/// or April) and day form a valid calendar day; the result depends on
/// the year alone.
#[verifier::external_body]
pub(crate) fn easter_sunday(year: i32) -> (r: Date)
    requires
        1583 <= year <= 9999,
    ensures
        r.valid(),
        r.year == year,
        3 <= r.month <= 4,
        r.dn() == easter_sunday_dn(year as int),
{
    let d = computus::gregorian(year).unwrap();
    Date { year: d.year, month: d.month, day: d.day }
}

} // verus!
