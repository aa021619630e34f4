//! Holiday rules, calendar construction and business-day queries.
//!
//! A list of [`Holiday`] rules is expanded over an inclusive year range
//! into a [`Calendar`]: a sorted set of full-holiday dates, a sorted set
//! of half-day dates and a set of weekend weekdays. The contracts state,
//! for every rule variant, exactly which day numbers the expansion
//! produces.

use vstd::prelude::*;
use crate::date::{
    dn_of, is_leap_year, last_day_of_month, lemma_days_before_year_monotonic,
    lemma_days_before_year_step, lemma_dn_bounds, lemma_dn_injective, lemma_dn_within_year,
    lemma_mod7_pred, lemma_mod7_sub, lemma_mod7_succ, lemma_months_total, spec_days_in_month,
    valid_year, valid_ymd, weekday_from_index, Date, Weekday, MAX_DAY_NUMBER,
};
use vstd::arithmetic::div_mod::lemma_mod_bound;

verus! {

/// Specifies the nth week of a month
#[derive(Clone, Copy, Debug, PartialEq, Eq, Structural)]
pub enum NthWeek {
    First,
    Second,
    Third,
    Fourth,
    Last,
}

/// Do the half-day holiday check before or after the target date
#[derive(Clone, Copy, Debug, PartialEq, Eq, Structural)]
pub enum HalfCheck {
    Before,
    After,
}

/// Types of days when US stocks exchanges are closed
#[derive(Clone, Copy, Debug, PartialEq)]
pub enum Holiday {
    /// for US exchanges, `Sat` and `Sun`
    WeekDay(Weekday),
    /// `first` and `last` are the first and last year this day is a holiday (inclusively).
    MovableYearlyDay {
        month: u32,
        day: u32,
        first: Option<i32>,
        last: Option<i32>,
        half_check: Option<HalfCheck>,
    },
    /// A single holiday which is valid only once in time.
    SingularDay(Date),
    /// A holiday that is defined in relative days (e.g. -2 for Good Friday) to Easter (Sunday).
    EasterOffset {
        offset: i32,
        first: Option<i32>,
        last: Option<i32>,
    },
    /// A holiday that falls on the nth (or last) weekday of a specific month, e.g. the first Monday in May.
    /// `first` and `last` are the first and last year this day is a holiday (inclusively).
    MonthWeekday {
        month: u32,
        weekday: Weekday,
        nth: NthWeek,
        first: Option<i32>,
        last: Option<i32>,
        half_check: Option<HalfCheck>,
    },
}

/// A rule whose expansion would need an unrepresentable calendar day;
/// it names the offending rule (by position) and year.
#[derive(Clone, Copy, Debug, PartialEq, Eq, Structural)]
pub struct CalendarError {
    pub rule_index: usize,
    pub year: i32,
}

// ---------------------------------------------------------------------
// The mathematical model of rule expansion.
// ---------------------------------------------------------------------

/// First active year of a rule: the build start clamped by the rule's
/// optional `first` bound.
pub open spec fn clamped_first(start: int, first: Option<i32>) -> int {
    match first {
        Some(f) => if f > start {
            f as int
        } else {
            start
        },
        None => start,
    }
}

/// Last active year of a rule: the build end clamped by the rule's
/// optional `last` bound.
pub open spec fn clamped_last(end: int, last: Option<i32>) -> int {
    match last {
        Some(l) => if (l as int) < end {
            l as int
        } else {
            end
        },
        None => end,
    }
}

/// The optional first-year bound carried by a rule.
pub open spec fn rule_first(rule: Holiday) -> Option<i32> {
    match rule {
        Holiday::MovableYearlyDay { first, .. } => first,
        Holiday::EasterOffset { first, .. } => first,
        Holiday::MonthWeekday { first, .. } => first,
        _ => None,
    }
}

/// The optional last-year bound carried by a rule.
pub open spec fn rule_last(rule: Holiday) -> Option<i32> {
    match rule {
        Holiday::MovableYearlyDay { last, .. } => last,
        Holiday::EasterOffset { last, .. } => last,
        Holiday::MonthWeekday { last, .. } => last,
        _ => None,
    }
}

/// The years a yearly rule is expanded for: the build range intersected
/// with the rule's own bounds.
pub open spec fn in_rule_years(rule: Holiday, start: int, end: int, y: int) -> bool {
    clamped_first(start, rule_first(rule)) <= y <= clamped_last(end, rule_last(rule))
}

/// Weekend shift: a Saturday moves back to Friday, a Sunday forward to
/// Monday, any other day stays.
pub open spec fn weekend_shifted_dn(c: int) -> int {
    if c % 7 == 5 {
        c - 1
    } else if c % 7 == 6 {
        c + 1
    } else {
        c
    }
}

pub open spec fn shift_occurred(c: int) -> bool {
    c % 7 == 5 || c % 7 == 6
}

/// The day number is the last day of some month.
pub open spec fn is_month_end_dn(c: int) -> bool {
    exists|y: int, m: int|
        valid_year(y) && 1 <= m <= 12 && c == dn_of(y, m, spec_days_in_month(y, m))
}

/// The day number is a December 31.
pub open spec fn is_year_end_dn(c: int) -> bool {
    exists|y: int| valid_year(y) && c == dn_of(y, 12, 31)
}

/// A shifted yearly date is kept only if it collides with neither the
/// end of its month nor the end of its year.
pub open spec fn kept_after_boundary_check(c: int) -> bool {
    !is_month_end_dn(c) && !is_year_end_dn(c)
}

/// The half-day recorded next to an anchor holiday: the day before,
/// unless the anchor is a Monday; or the day after, unless the anchor
/// is a Friday.
pub open spec fn spec_half_day(anchor: int, hc: HalfCheck, h: int) -> bool {
    match hc {
        HalfCheck::Before => anchor % 7 != 0 && h == anchor - 1,
        HalfCheck::After => anchor % 7 != 4 && h == anchor + 1,
    }
}

pub open spec fn halfday_of(anchor: int, hc: Option<HalfCheck>, h: int) -> bool {
    match hc {
        Some(k) => spec_half_day(anchor, k, h),
        None => false,
    }
}

/// The day of the month the walk for an nth-weekday rule starts from.
pub open spec fn nth_start_day(y: int, m: int, nth: NthWeek) -> int {
    match nth {
        NthWeek::First => 1,
        NthWeek::Second => 8,
        NthWeek::Third => 15,
        NthWeek::Fourth => 22,
        NthWeek::Last => spec_days_in_month(y, m),
    }
}

/// Day number of the nth (or last) occurrence of a weekday in a month.
pub open spec fn nth_weekday_dn(y: int, m: int, w: Weekday, nth: NthWeek) -> int {
    let s = dn_of(y, m, nth_start_day(y, m, nth));
    match nth {
        NthWeek::Last => s - (s - w.index()) % 7,
        _ => s + (w.index() - s) % 7,
    }
}

/// The full holiday a yearly rule contributes for one active year.
pub open spec fn rule_year_holiday(rule: Holiday, y: int, c: int) -> bool {
    match rule {
        Holiday::MovableYearlyDay { month, day, .. } => valid_ymd(y, month as int, day as int)
            && c == weekend_shifted_dn(dn_of(y, month as int, day as int))
            && kept_after_boundary_check(c),
        Holiday::EasterOffset { offset, .. } => c == crate::easter::easter_sunday_dn(y)
            + offset,
        Holiday::MonthWeekday { month, weekday, nth, .. } => 1 <= month <= 12 && c
            == nth_weekday_dn(y, month as int, weekday, nth),
        _ => false,
    }
}

/// The half-day a yearly rule contributes for one active year. A moved
/// yearly date suppresses its half-day; an nth-weekday holiday never
/// moves, so its half-day check is unconditional.
pub open spec fn rule_year_halfday(rule: Holiday, y: int, h: int) -> bool {
    match rule {
        Holiday::MovableYearlyDay { month, day, half_check, .. } => valid_ymd(
            y,
            month as int,
            day as int,
        ) && !shift_occurred(dn_of(y, month as int, day as int)) && kept_after_boundary_check(
            dn_of(y, month as int, day as int),
        ) && halfday_of(dn_of(y, month as int, day as int), half_check, h),
        Holiday::MonthWeekday { month, weekday, nth, half_check, .. } => 1 <= month <= 12
            && halfday_of(nth_weekday_dn(y, month as int, weekday, nth), half_check, h),
        _ => false,
    }
}

/// A rule's expansion fails for a year when it would need a day outside
/// the representable calendar.
pub open spec fn rule_year_errs(rule: Holiday, y: int) -> bool {
    match rule {
        Holiday::MovableYearlyDay { month, day, .. } => !valid_ymd(y, month as int, day as int),
        Holiday::EasterOffset { offset, .. } => !(1583 <= y <= 9999)
            || crate::easter::easter_sunday_dn(y) + offset < 0
            || crate::easter::easter_sunday_dn(y) + offset > MAX_DAY_NUMBER,
        Holiday::MonthWeekday { month, .. } => !(1 <= month <= 12),
        _ => false,
    }
}

/// The rule fails at exactly this year.
pub open spec fn rule_err_year(rule: Holiday, start: int, end: int, y: int) -> bool {
    match rule {
        Holiday::WeekDay(_) => false,
        Holiday::SingularDay(d) => start <= d.year as int <= end && y == d.year as int
            && !d.valid(),
        _ => in_rule_years(rule, start, end, y) && rule_year_errs(rule, y),
    }
}

pub open spec fn rule_errs(rule: Holiday, start: int, end: int) -> bool {
    exists|y: int| rule_err_year(rule, start, end, y)
}

/// All full holidays a rule contributes over the build range.
pub open spec fn rule_holiday_contrib(rule: Holiday, start: int, end: int, c: int) -> bool {
    match rule {
        Holiday::WeekDay(_) => false,
        Holiday::SingularDay(d) => start <= d.year as int <= end && d.valid() && c == d.dn(),
        _ => exists|y: int|
            in_rule_years(rule, start, end, y) && rule_year_holiday(rule, y, c),
    }
}

/// All half-days a rule contributes over the build range.
pub open spec fn rule_halfday_contrib(rule: Holiday, start: int, end: int, h: int) -> bool {
    match rule {
        Holiday::WeekDay(_) => false,
        Holiday::SingularDay(_) => false,
        _ => exists|y: int|
            in_rule_years(rule, start, end, y) && rule_year_halfday(rule, y, h),
    }
}

/// Every Easter-relative rule among the first `n` rules has Easter
/// Sunday between March 1 and April 30 of each of its active years.
pub open spec fn easter_rules_in_spring(rules: Seq<Holiday>, n: int, start: int, end: int) -> bool {
    forall|j: int, y: int|
        0 <= j < n && rules[j] is EasterOffset && #[trigger] in_rule_years(
            rules[j],
            start,
            end,
            y,
        ) ==> crate::easter::easter_in_spring(y)
}

/// The full holidays a yearly rule contributes for active years below
/// `bound`: the prefix of its expansion a loop has already produced.
pub open spec fn rule_holiday_upto(rule: Holiday, start: int, end: int, bound: int, c: int) -> bool {
    exists|y: int|
        y < bound && in_rule_years(rule, start, end, y) && #[trigger] rule_year_holiday(rule, y, c)
}

/// The half-days a yearly rule contributes for active years below `bound`.
pub open spec fn rule_halfday_upto(rule: Holiday, start: int, end: int, bound: int, h: int) -> bool {
    exists|y: int|
        y < bound && in_rule_years(rule, start, end, y) && #[trigger] rule_year_halfday(rule, y, h)
}

proof fn lemma_upto_step(rule: Holiday, start: int, end: int, y: int)
    requires
        in_rule_years(rule, start, end, y),
    ensures
        forall|c: int|
            #[trigger] rule_holiday_upto(rule, start, end, y + 1, c) <==> rule_holiday_upto(
                rule,
                start,
                end,
                y,
                c,
            ) || rule_year_holiday(rule, y, c),
        forall|h: int|
            #[trigger] rule_halfday_upto(rule, start, end, y + 1, h) <==> rule_halfday_upto(
                rule,
                start,
                end,
                y,
                h,
            ) || rule_year_halfday(rule, y, h),
{
    assert forall|c: int|
        #[trigger] rule_holiday_upto(rule, start, end, y + 1, c) implies rule_holiday_upto(
        rule,
        start,
        end,
        y,
        c,
    ) || rule_year_holiday(rule, y, c) by {
        let y2 = choose|y2: int|
            y2 < y + 1 && in_rule_years(rule, start, end, y2) && #[trigger] rule_year_holiday(
                rule,
                y2,
                c,
            );
        if y2 < y {
            assert(rule_holiday_upto(rule, start, end, y, c));
        }
    }
    assert forall|h: int|
        #[trigger] rule_halfday_upto(rule, start, end, y + 1, h) implies rule_halfday_upto(
        rule,
        start,
        end,
        y,
        h,
    ) || rule_year_halfday(rule, y, h) by {
        let y2 = choose|y2: int|
            y2 < y + 1 && in_rule_years(rule, start, end, y2) && #[trigger] rule_year_halfday(
                rule,
                y2,
                h,
            );
        if y2 < y {
            assert(rule_halfday_upto(rule, start, end, y, h));
        }
    }
}

proof fn lemma_upto_complete(rule: Holiday, start: int, end: int, bound: int)
    requires
        bound > clamped_last(end, rule_last(rule)),
        !(rule is WeekDay),
        !(rule is SingularDay),
    ensures
        forall|c: int|
            #[trigger] rule_holiday_contrib(rule, start, end, c) <==> rule_holiday_upto(
                rule,
                start,
                end,
                bound,
                c,
            ),
        forall|h: int|
            #[trigger] rule_halfday_contrib(rule, start, end, h) <==> rule_halfday_upto(
                rule,
                start,
                end,
                bound,
                h,
            ),
{
}

// ---------------------------------------------------------------------
// Sorted date sets.
// ---------------------------------------------------------------------

/// A well-formed date set: all entries valid, strictly sorted by day
/// number (hence duplicate-free).
pub open spec fn dates_wf(s: Seq<Date>) -> bool {
    &&& forall|i: int| 0 <= i < s.len() ==> (#[trigger] s[i]).valid()
    &&& forall|i: int, j: int|
        #![trigger s[i].dn(), s[j].dn()]
        0 <= i < j < s.len() ==> s[i].dn() < s[j].dn()
}

/// The set of day numbers held by a date sequence.
pub open spec fn date_seq_contains(s: Seq<Date>, c: int) -> bool {
    exists|k: int| 0 <= k < s.len() && (#[trigger] s[k]).dn() == c
}

proof fn lemma_insert_date(s: Seq<Date>, idx: int, d: Date)
    requires
        dates_wf(s),
        d.valid(),
        0 <= idx <= s.len(),
        forall|k: int| 0 <= k < idx ==> (#[trigger] s[k]).dn() < d.dn(),
        idx == s.len() || s[idx].dn() > d.dn(),
    ensures
        dates_wf(s.insert(idx, d)),
        forall|c: int|
            #[trigger] date_seq_contains(s.insert(idx, d), c) <==> date_seq_contains(s, c) || c
                == d.dn(),
{
    let t = s.insert(idx, d);
    assert(t.len() == s.len() + 1);
    assert forall|k: int| 0 <= k < t.len() implies (#[trigger] t[k]).valid() by {
        if k < idx {
            assert(t[k] == s[k]);
        } else if k == idx {
            assert(t[k] == d);
        } else {
            assert(t[k] == s[k - 1]);
        }
    }
    assert forall|i: int, j: int|
        #![trigger t[i].dn(), t[j].dn()]
        0 <= i < j < t.len() implies t[i].dn() < t[j].dn() by {
        if i < idx {
            assert(t[i] == s[i]);
        } else if i == idx {
            assert(t[i] == d);
        } else {
            assert(t[i] == s[i - 1]);
        }
        if j < idx {
            assert(t[j] == s[j]);
        } else if j == idx {
            assert(t[j] == d);
        } else {
            assert(t[j] == s[j - 1]);
        }
    }
    assert forall|c: int|
        #[trigger] date_seq_contains(t, c) implies date_seq_contains(s, c) || c == d.dn() by {
        let k = choose|k: int| 0 <= k < t.len() && (#[trigger] t[k]).dn() == c;
        if k < idx {
            assert(t[k] == s[k]);
            assert(date_seq_contains(s, c));
        } else if k == idx {
            assert(t[k] == d);
        } else {
            assert(t[k] == s[k - 1]);
            assert(date_seq_contains(s, c));
        }
    }
    assert forall|c: int|
        date_seq_contains(s, c) || c == d.dn() implies #[trigger] date_seq_contains(t, c) by {
        if c == d.dn() {
            assert(t[idx] == d);
            assert(date_seq_contains(t, c));
        } else {
            let k = choose|k: int| 0 <= k < s.len() && (#[trigger] s[k]).dn() == c;
            if k < idx {
                assert(t[k] == s[k]);
                assert(date_seq_contains(t, c));
            } else {
                assert(t[k + 1] == s[k]);
                assert(date_seq_contains(t, c));
            }
        }
    }
}

/// Insert a date into a sorted date set, keeping it sorted and
/// duplicate-free.
pub(crate) fn insert_date(v: &mut Vec<Date>, d: Date)
    requires
        dates_wf(old(v)@),
        d.valid(),
    ensures
        dates_wf(final(v)@),
        forall|c: int|
            #[trigger] date_seq_contains(final(v)@, c) <==> date_seq_contains(old(v)@, c) || c
                == d.dn(),
{
    let dnv = d.day_number();
    let mut idx: usize = 0;
    loop
        invariant
            dates_wf(v@),
            v@ == old(v)@,
            d.valid(),
            dnv == d.dn(),
            0 <= idx <= v@.len(),
            forall|k: int| 0 <= k < idx ==> (#[trigger] v@[k]).dn() < d.dn(),
        ensures
            v@ == old(v)@,
            0 <= idx <= v@.len(),
            forall|k: int| 0 <= k < idx ==> (#[trigger] v@[k]).dn() < d.dn(),
            idx == v@.len() || v@[idx as int].dn() > d.dn(),
        decreases v@.len() - idx,
    {
        if idx == v.len() {
            break;
        }
        let cur = v[idx].day_number();
        if cur == dnv {
            proof {
                assert(date_seq_contains(v@, d.dn()));
            }
            return;
        }
        if cur > dnv {
            break;
        }
        idx = idx + 1;
    }
    proof {
        lemma_insert_date(v@, idx as int, d);
    }
    v.insert(idx, d);
}

/// Membership test by day number.
pub(crate) fn contains_date(v: &Vec<Date>, dnq: u64) -> (r: bool)
    requires
        dates_wf(v@),
    ensures
        r == date_seq_contains(v@, dnq as int),
{
    let mut k: usize = 0;
    while k < v.len()
        invariant
            dates_wf(v@),
            0 <= k <= v@.len(),
            forall|j: int| 0 <= j < k ==> (#[trigger] v@[j]).dn() != dnq,
        decreases v@.len() - k,
    {
        if v[k].day_number() == dnq {
            return true;
        }
        k = k + 1;
    }
    false
}

impl Calendar {
    fn calc_first_and_last(start: i32, end: i32, first: &Option<i32>, last: &Option<i32>) -> (r: (
        i32,
        i32,
    ))
        ensures
            r.0 as int == clamped_first(start as int, *first),
            r.1 as int == clamped_last(end as int, *last),
    {
        let first_year: i32 = match first {
            Some(year) => if *year > start {
                *year
            } else {
                start
            },
            None => start,
        };
        let last_year: i32 = match last {
            Some(year) => if *year < end {
                *year
            } else {
                end
            },
            None => end,
        };
        (first_year, last_year)
    }
}

/// Expand a one-off holiday: it is kept only when its year lies inside
/// the build range; an unrepresentable date inside the range is an error.
fn apply_singular(holidays: &mut Vec<Date>, d: Date, start: i32, end: i32) -> (r: Option<i32>)
    requires
        1 <= start <= end <= 9999,
        dates_wf(old(holidays)@),
    ensures
        ({
            let rule = Holiday::SingularDay(d);
            match r {
                None => {
                    &&& dates_wf(final(holidays)@)
                    &&& !rule_errs(rule, start as int, end as int)
                    &&& forall|c: int|
                        #[trigger] date_seq_contains(final(holidays)@, c) <==> date_seq_contains(
                            old(holidays)@,
                            c,
                        ) || rule_holiday_contrib(rule, start as int, end as int, c)
                },
                Some(ye) => {
                    &&& rule_err_year(rule, start as int, end as int, ye as int)
                    &&& forall|y: int|
                        y < ye ==> !rule_err_year(rule, start as int, end as int, y)
                },
            }
        }),
{
    let ghost rule = Holiday::SingularDay(d);
    if d.year < start || d.year > end {
        proof {
            assert(forall|y: int| !rule_err_year(rule, start as int, end as int, y));
        }
        return None;
    }
    let mut ok = d.year >= 1 && d.year <= 9999 && d.month >= 1 && d.month <= 12 && d.day >= 1;
    if ok {
        ok = d.day <= last_day_of_month(d.year, d.month);
    }
    if !ok {
        return Some(d.year);
    }
    insert_date(holidays, d);
    None
}

/// Expand an Easter-relative rule: for each active year, Easter Sunday
/// plus the signed offset becomes a full holiday. Years outside the
/// computus range, or offsets leaving the representable calendar, are
/// errors.
fn apply_easter(
    holidays: &mut Vec<Date>,
    offset: i32,
    first: Option<i32>,
    last: Option<i32>,
    start: i32,
    end: i32,
) -> (r: Option<i32>)
    requires
        1 <= start <= end <= 9999,
        dates_wf(old(holidays)@),
    ensures
        ({
            let rule = Holiday::EasterOffset { offset, first, last };
            match r {
                None => {
                    &&& dates_wf(final(holidays)@)
                    &&& !rule_errs(rule, start as int, end as int)
                    &&& forall|c: int|
                        #[trigger] date_seq_contains(final(holidays)@, c) <==> date_seq_contains(
                            old(holidays)@,
                            c,
                        ) || rule_holiday_contrib(rule, start as int, end as int, c)
                    &&& forall|y: int|
                        #[trigger] in_rule_years(rule, start as int, end as int, y)
                            ==> crate::easter::easter_in_spring(y)
                },
                Some(ye) => {
                    &&& rule_err_year(rule, start as int, end as int, ye as int)
                    &&& forall|y: int|
                        y < ye ==> !rule_err_year(rule, start as int, end as int, y)
                },
            }
        }),
{
    let ghost rule = Holiday::EasterOffset { offset, first, last };
    let ends = Calendar::calc_first_and_last(start, end, &first, &last);
    let cf: i32 = ends.0;
    let cl: i32 = ends.1;
    let mut y: i32 = cf;
    while y <= cl
        invariant
            1 <= start <= end <= 9999,
            cf as int == clamped_first(start as int, first),
            cl as int == clamped_last(end as int, last),
            cf <= y,
            cl <= 9999,
            rule == (Holiday::EasterOffset { offset, first, last }),
            dates_wf(holidays@),
            forall|y2: int|
                cf <= y2 < y ==> !rule_year_errs(rule, y2),
            forall|y2: int| cf <= y2 < y ==> #[trigger] crate::easter::easter_in_spring(y2),
            forall|c: int|
                #[trigger] date_seq_contains(holidays@, c) <==> date_seq_contains(
                    old(holidays)@,
                    c,
                ) || rule_holiday_upto(rule, start as int, end as int, y as int, c),
        decreases cl + 1 - y,
    {
        if y < 1583 {
            return Some(y);
        }
        let e = crate::easter::easter_sunday(y);
        let edn = e.day_number();
        proof {
            lemma_dn_bounds(e.year as int, e.month as int, e.day as int);
            crate::date::lemma_dn_month_window(e.year as int, e.month as int, e.day as int);
            assert(crate::easter::easter_in_spring(y as int));
        }
        if offset < 0 && (offset as i64) + (edn as i64) < 0 {
            return Some(y);
        }
        if offset > 0 && (edn as i64) + (offset as i64) > MAX_DAY_NUMBER as i64 {
            return Some(y);
        }
        let target: i64 = edn as i64 + offset as i64;
        let date = Date::from_day_number(target as u64);
        proof {
            lemma_upto_step(rule, start as int, end as int, y as int);
            assert(forall|c: int|
                rule_year_holiday(rule, y as int, c) <==> c == date.dn());
        }
        insert_date(holidays, date);
        y = y + 1;
    }
    proof {
        lemma_upto_complete(rule, start as int, end as int, y as int);
        assert forall|y2: int| !rule_err_year(rule, start as int, end as int, y2) by {
            if in_rule_years(rule, start as int, end as int, y2) {
                assert(cf <= y2 <= cl);
            }
        }
        assert forall|y2: int|
            #[trigger] in_rule_years(rule, start as int, end as int, y2) implies crate::easter::easter_in_spring(
            y2,
        ) by {
            assert(cf <= y2 <= cl);
        }
    }
    None
}

/// Expand a movable yearly date: for each active year the (month, day)
/// candidate is weekend-shifted, discarded if it collides with a month
/// or year end, otherwise recorded; its half-day is recorded only when
/// the candidate did not move.
fn apply_movable(
    holidays: &mut Vec<Date>,
    halfdays: &mut Vec<Date>,
    month: u32,
    day: u32,
    first: Option<i32>,
    last: Option<i32>,
    half_check: Option<HalfCheck>,
    start: i32,
    end: i32,
) -> (r: Option<i32>)
    requires
        1 <= start <= end <= 9999,
        dates_wf(old(holidays)@),
        dates_wf(old(halfdays)@),
    ensures
        ({
            let rule = Holiday::MovableYearlyDay { month, day, first, last, half_check };
            match r {
                None => {
                    &&& dates_wf(final(holidays)@)
                    &&& dates_wf(final(halfdays)@)
                    &&& !rule_errs(rule, start as int, end as int)
                    &&& forall|c: int|
                        #[trigger] date_seq_contains(final(holidays)@, c) <==> date_seq_contains(
                            old(holidays)@,
                            c,
                        ) || rule_holiday_contrib(rule, start as int, end as int, c)
                    &&& forall|h: int|
                        #[trigger] date_seq_contains(final(halfdays)@, h) <==> date_seq_contains(
                            old(halfdays)@,
                            h,
                        ) || rule_halfday_contrib(rule, start as int, end as int, h)
                },
                Some(ye) => {
                    &&& rule_err_year(rule, start as int, end as int, ye as int)
                    &&& forall|y: int|
                        y < ye ==> !rule_err_year(rule, start as int, end as int, y)
                },
            }
        }),
{
    let ghost rule = Holiday::MovableYearlyDay { month, day, first, last, half_check };
    let ends = Calendar::calc_first_and_last(start, end, &first, &last);
    let cf: i32 = ends.0;
    let cl: i32 = ends.1;
    let mut y: i32 = cf;
    while y <= cl
        invariant
            1 <= start <= end <= 9999,
            cf as int == clamped_first(start as int, first),
            cl as int == clamped_last(end as int, last),
            cf <= y,
            1 <= cf,
            cl <= 9999,
            rule == (Holiday::MovableYearlyDay { month, day, first, last, half_check }),
            dates_wf(holidays@),
            dates_wf(halfdays@),
            forall|y2: int| cf <= y2 < y ==> valid_ymd(y2, month as int, day as int),
            forall|c: int|
                #[trigger] date_seq_contains(holidays@, c) <==> date_seq_contains(
                    old(holidays)@,
                    c,
                ) || rule_holiday_upto(rule, start as int, end as int, y as int, c),
            forall|h: int|
                #[trigger] date_seq_contains(halfdays@, h) <==> date_seq_contains(
                    old(halfdays)@,
                    h,
                ) || rule_halfday_upto(rule, start as int, end as int, y as int, h),
        decreases cl + 1 - y,
    {
        let mut ok = month >= 1 && month <= 12 && day >= 1;
        if ok {
            ok = day <= last_day_of_month(y, month);
        }
        if !ok {
            return Some(y);
        }
        let cand = Date { year: y, month, day };
        proof {
            lemma_dn_bounds(cand.year as int, cand.month as int, cand.day as int);
            lemma_mod_bound(cand.dn(), 7);
            assert((MAX_DAY_NUMBER as int) % 7 == 4) by (nonlinear_arith);
        }
        let wd = cand.weekday();
        let moved: bool;
        let date: Date;
        if wd == Weekday::Sat {
            moved = true;
            date = cand.pred();
        } else if wd == Weekday::Sun {
            moved = true;
            date = cand.succ();
        } else {
            moved = false;
            date = cand;
        }
        proof {
            assert(date.dn() == weekend_shifted_dn(cand.dn()));
            assert(moved == shift_occurred(cand.dn()));
            lemma_month_end_char(date);
            lemma_upto_step(rule, start as int, end as int, y as int);
        }
        let ends = accounting_period_end(date);
        let last_date_of_month = ends.0;
        let last_date_of_year = ends.1;
        if date != last_date_of_month && date != last_date_of_year {
            proof {
                assert(kept_after_boundary_check(date.dn()));
                assert(forall|c: int|
                    rule_year_holiday(rule, y as int, c) <==> c == date.dn());
            }
            insert_date(holidays, date);
            if !moved {
                proof {
                    assert(forall|h: int|
                        rule_year_halfday(rule, y as int, h) == halfday_of(
                            date.dn(),
                            half_check,
                            h,
                        ));
                }
                do_halfday_check(&date, halfdays, &half_check);
            } else {
                proof {
                    assert(forall|h: int| !rule_year_halfday(rule, y as int, h));
                }
            }
        } else {
            proof {
                assert(!kept_after_boundary_check(date.dn()));
                assert(forall|c: int| !rule_year_holiday(rule, y as int, c));
                assert(forall|h: int| !rule_year_halfday(rule, y as int, h));
            }
        }
        y = y + 1;
    }
    proof {
        lemma_upto_complete(rule, start as int, end as int, y as int);
        assert forall|y2: int| !rule_err_year(rule, start as int, end as int, y2) by {
            if in_rule_years(rule, start as int, end as int, y2) {
                assert(cf <= y2 <= cl);
            }
        }
    }
    None
}

/// The nth (or last) occurrence of a weekday within a month: start at
/// day 1/8/15/22 (or the month's last day) and walk forward (backward)
/// until the weekday matches.
fn nth_weekday_date(y: i32, month: u32, weekday: Weekday, nth: NthWeek) -> (r: Date)
    requires
        valid_year(y as int),
        1 <= month <= 12,
    ensures
        r.valid(),
        r.dn() == nth_weekday_dn(y as int, month as int, weekday, nth),
{
    let ghost t: int = nth_weekday_dn(y as int, month as int, weekday, nth);
    match nth {
        NthWeek::Last => {
            let dim = last_day_of_month(y, month);
            let mut date = Date { year: y, month, day: dim };
            let ghost s: int = date.dn();
            proof {
                assert(dn_of(y as int, month as int, dim - 6) == s - 6);
                lemma_dn_bounds(y as int, month as int, dim as int - 6);
                lemma_mod_bound(s - weekday.index(), 7);
            }
            loop
                invariant
                    date.valid(),
                    t == nth_weekday_dn(y as int, month as int, weekday, nth),
                    (date.dn() - weekday.index()) % 7 == date.dn() - t,
                    t <= date.dn(),
                    0 <= t,
                ensures
                    date.valid(),
                    date.dn() == t,
                decreases date.dn() - t,
            {
                let wd = date.weekday();
                proof {
                    lemma_mod_bound(date.dn(), 7);
                    lemma_mod7_sub(date.dn(), weekday.index());
                    assert(weekday.index() % 7 == weekday.index());
                }
                if wd == weekday {
                    break;
                }
                proof {
                    lemma_mod7_pred(date.dn() - weekday.index());
                }
                date = date.pred();
            }
            date
        },
        _ => {
            let start_day: u32 = match nth {
                NthWeek::First => 1,
                NthWeek::Second => 8,
                NthWeek::Third => 15,
                NthWeek::Fourth => 22,
                NthWeek::Last => 1,
            };
            let mut date = Date { year: y, month, day: start_day };
            let ghost s: int = date.dn();
            proof {
                assert(dn_of(y as int, month as int, start_day + 6) == s + 6);
                lemma_dn_bounds(y as int, month as int, start_day as int + 6);
                lemma_mod_bound(weekday.index() - s, 7);
            }
            loop
                invariant
                    date.valid(),
                    t == nth_weekday_dn(y as int, month as int, weekday, nth),
                    (weekday.index() - date.dn()) % 7 == t - date.dn(),
                    date.dn() <= t,
                    t <= MAX_DAY_NUMBER,
                ensures
                    date.valid(),
                    date.dn() == t,
                decreases t - date.dn(),
            {
                let wd = date.weekday();
                proof {
                    lemma_mod_bound(date.dn(), 7);
                    lemma_mod7_sub(weekday.index(), date.dn());
                    assert(weekday.index() % 7 == weekday.index());
                }
                if wd == weekday {
                    break;
                }
                proof {
                    lemma_mod7_pred(weekday.index() - date.dn());
                }
                date = date.succ();
            }
            date
        },
    }
}

/// Expand an nth-weekday-of-month rule: for each active year the
/// matching date is a full holiday; its half-day check is applied
/// unconditionally.
fn apply_month_weekday(
    holidays: &mut Vec<Date>,
    halfdays: &mut Vec<Date>,
    month: u32,
    weekday: Weekday,
    nth: NthWeek,
    first: Option<i32>,
    last: Option<i32>,
    half_check: Option<HalfCheck>,
    start: i32,
    end: i32,
) -> (r: Option<i32>)
    requires
        1 <= start <= end <= 9999,
        dates_wf(old(holidays)@),
        dates_wf(old(halfdays)@),
    ensures
        ({
            let rule = Holiday::MonthWeekday { month, weekday, nth, first, last, half_check };
            match r {
                None => {
                    &&& dates_wf(final(holidays)@)
                    &&& dates_wf(final(halfdays)@)
                    &&& !rule_errs(rule, start as int, end as int)
                    &&& forall|c: int|
                        #[trigger] date_seq_contains(final(holidays)@, c) <==> date_seq_contains(
                            old(holidays)@,
                            c,
                        ) || rule_holiday_contrib(rule, start as int, end as int, c)
                    &&& forall|h: int|
                        #[trigger] date_seq_contains(final(halfdays)@, h) <==> date_seq_contains(
                            old(halfdays)@,
                            h,
                        ) || rule_halfday_contrib(rule, start as int, end as int, h)
                },
                Some(ye) => {
                    &&& rule_err_year(rule, start as int, end as int, ye as int)
                    &&& forall|y: int|
                        y < ye ==> !rule_err_year(rule, start as int, end as int, y)
                },
            }
        }),
{
    let ghost rule = Holiday::MonthWeekday { month, weekday, nth, first, last, half_check };
    let ends = Calendar::calc_first_and_last(start, end, &first, &last);
    let cf: i32 = ends.0;
    let cl: i32 = ends.1;
    if month < 1 || month > 12 {
        if cf <= cl {
            return Some(cf);
        }
        proof {
            assert forall|c: int| !rule_holiday_contrib(rule, start as int, end as int, c) by {
                if rule_holiday_contrib(rule, start as int, end as int, c) {
                    let y2 = choose|y2: int|
                        in_rule_years(rule, start as int, end as int, y2)
                            && #[trigger] rule_year_holiday(rule, y2, c);
                    assert(cf <= y2 <= cl);
                }
            }
            assert forall|h: int| !rule_halfday_contrib(rule, start as int, end as int, h) by {
                if rule_halfday_contrib(rule, start as int, end as int, h) {
                    let y2 = choose|y2: int|
                        in_rule_years(rule, start as int, end as int, y2)
                            && #[trigger] rule_year_halfday(rule, y2, h);
                    assert(cf <= y2 <= cl);
                }
            }
            assert forall|y2: int| !rule_err_year(rule, start as int, end as int, y2) by {
                if in_rule_years(rule, start as int, end as int, y2) {
                    assert(cf <= y2 <= cl);
                }
            }
        }
        return None;
    }
    let mut y: i32 = cf;
    while y <= cl
        invariant
            1 <= start <= end <= 9999,
            1 <= month <= 12,
            cf as int == clamped_first(start as int, first),
            cl as int == clamped_last(end as int, last),
            cf <= y,
            1 <= cf,
            cl <= 9999,
            rule == (Holiday::MonthWeekday { month, weekday, nth, first, last, half_check }),
            dates_wf(holidays@),
            dates_wf(halfdays@),
            forall|c: int|
                #[trigger] date_seq_contains(holidays@, c) <==> date_seq_contains(
                    old(holidays)@,
                    c,
                ) || rule_holiday_upto(rule, start as int, end as int, y as int, c),
            forall|h: int|
                #[trigger] date_seq_contains(halfdays@, h) <==> date_seq_contains(
                    old(halfdays)@,
                    h,
                ) || rule_halfday_upto(rule, start as int, end as int, y as int, h),
        decreases cl + 1 - y,
    {
        let date = nth_weekday_date(y, month, weekday, nth);
        proof {
            lemma_upto_step(rule, start as int, end as int, y as int);
            assert(forall|c: int| rule_year_holiday(rule, y as int, c) <==> c == date.dn());
            assert(forall|h: int|
                rule_year_halfday(rule, y as int, h) == halfday_of(date.dn(), half_check, h));
        }
        insert_date(holidays, date);
        do_halfday_check(&date, halfdays, &half_check);
        y = y + 1;
    }
    proof {
        lemma_upto_complete(rule, start as int, end as int, y as int);
    }
    None
}

// ---------------------------------------------------------------------
// The calendar.
// ---------------------------------------------------------------------

/// Calendar for arbitrary complex holiday rules
#[derive(Debug)]
pub struct Calendar {
    holidays: Vec<Date>,
    halfdays: Vec<Date>,
    weekdays: Vec<Weekday>,
}

impl Calendar {
    /// The set of day numbers that are full holidays.
    pub closed spec fn holiday_set(self) -> Set<int> {
        Set::new(|c: int| date_seq_contains(self.holidays@, c))
    }

    /// The set of day numbers that are half-days.
    pub closed spec fn halfday_set(self) -> Set<int> {
        Set::new(|c: int| date_seq_contains(self.halfdays@, c))
    }

    /// The set of weekdays recognized as weekend days.
    pub closed spec fn weekend_set(self) -> Set<Weekday> {
        Set::new(|w: Weekday| self.weekdays@.contains(w))
    }

    pub closed spec fn wf(self) -> bool {
        dates_wf(self.holidays@) && dates_wf(self.halfdays@)
    }

    pub closed spec fn spec_holiday_count(self) -> nat {
        self.holidays@.len()
    }

    pub closed spec fn spec_halfday_count(self) -> nat {
        self.halfdays@.len()
    }

    pub closed spec fn spec_weekday_count(self) -> nat {
        self.weekdays@.len()
    }
}

/// The full holidays contributed by the first `n` rules of a rule list.
pub open spec fn prefix_holiday(rules: Seq<Holiday>, n: int, start: int, end: int, c: int) -> bool {
    exists|j: int| 0 <= j < n && #[trigger] rule_holiday_contrib(rules[j], start, end, c)
}

/// The half-days contributed by the first `n` rules of a rule list.
pub open spec fn prefix_halfday(rules: Seq<Holiday>, n: int, start: int, end: int, h: int) -> bool {
    exists|j: int| 0 <= j < n && #[trigger] rule_halfday_contrib(rules[j], start, end, h)
}

/// The weekend weekdays declared by the first `n` rules of a rule list.
pub open spec fn prefix_weekend(rules: Seq<Holiday>, n: int, w: Weekday) -> bool {
    exists|j: int| 0 <= j < n && (#[trigger] rules[j]) == Holiday::WeekDay(w)
}

proof fn lemma_prefix_step(rules: Seq<Holiday>, i: int, start: int, end: int)
    requires
        0 <= i < rules.len(),
    ensures
        forall|c: int|
            #[trigger] prefix_holiday(rules, i + 1, start, end, c) <==> prefix_holiday(
                rules,
                i,
                start,
                end,
                c,
            ) || rule_holiday_contrib(rules[i], start, end, c),
        forall|h: int|
            #[trigger] prefix_halfday(rules, i + 1, start, end, h) <==> prefix_halfday(
                rules,
                i,
                start,
                end,
                h,
            ) || rule_halfday_contrib(rules[i], start, end, h),
        forall|w: Weekday|
            #[trigger] prefix_weekend(rules, i + 1, w) <==> prefix_weekend(rules, i, w) || rules[i]
                == Holiday::WeekDay(w),
{
    assert forall|c: int|
        #[trigger] prefix_holiday(rules, i + 1, start, end, c) implies prefix_holiday(
        rules,
        i,
        start,
        end,
        c,
    ) || rule_holiday_contrib(rules[i], start, end, c) by {
        let j = choose|j: int|
            0 <= j < i + 1 && #[trigger] rule_holiday_contrib(rules[j], start, end, c);
        if j < i {
            assert(prefix_holiday(rules, i, start, end, c));
        }
    }
    assert forall|h: int|
        #[trigger] prefix_halfday(rules, i + 1, start, end, h) implies prefix_halfday(
        rules,
        i,
        start,
        end,
        h,
    ) || rule_halfday_contrib(rules[i], start, end, h) by {
        let j = choose|j: int|
            0 <= j < i + 1 && #[trigger] rule_halfday_contrib(rules[j], start, end, h);
        if j < i {
            assert(prefix_halfday(rules, i, start, end, h));
        }
    }
    assert forall|w: Weekday|
        #[trigger] prefix_weekend(rules, i + 1, w) implies prefix_weekend(rules, i, w) || rules[i]
        == Holiday::WeekDay(w) by {
        let j = choose|j: int| 0 <= j < i + 1 && (#[trigger] rules[j]) == Holiday::WeekDay(w);
        if j < i {
            assert(prefix_weekend(rules, i, w));
        }
    }
}

impl Calendar {
    /// Calculate all holidays and recognize weekend days for a given range of years
    /// from `start` to `end` (inclusively). The calculation is performed on the basis
    /// of a vector of holiday rules. A rule whose expansion would need an
    /// unrepresentable calendar day yields an error naming that rule and year.
    pub fn calc_calendar(holiday_rules: &[Holiday], start: i32, end: i32) -> (r: Result<
        Calendar,
        CalendarError,
    >)
        requires
            1 <= start <= end <= 9999,
        ensures
            ({
                let rules = holiday_rules@;
                let n = rules.len() as int;
                match r {
                    Ok(cal) => {
                        &&& cal.wf()
                        &&& easter_rules_in_spring(rules, n, start as int, end as int)
                        &&& forall|j: int| 0 <= j < n ==> !rule_errs(#[trigger] rules[j], start as int, end as int)
                        &&& forall|c: int|
                            #[trigger] cal.holiday_set().contains(c) <==> prefix_holiday(
                                rules,
                                n,
                                start as int,
                                end as int,
                                c,
                            )
                        &&& forall|h: int|
                            #[trigger] cal.halfday_set().contains(h) <==> prefix_halfday(
                                rules,
                                n,
                                start as int,
                                end as int,
                                h,
                            )
                        &&& forall|w: Weekday|
                            #[trigger] cal.weekend_set().contains(w) <==> prefix_weekend(
                                rules,
                                n,
                                w,
                            )
                    },
                    Err(e) => {
                        &&& e.rule_index < n
                        &&& rule_err_year(
                            rules[e.rule_index as int],
                            start as int,
                            end as int,
                            e.year as int,
                        )
                        &&& forall|y: int|
                            y < e.year as int ==> !rule_err_year(
                                rules[e.rule_index as int],
                                start as int,
                                end as int,
                                y,
                            )
                        &&& forall|j: int|
                            0 <= j < e.rule_index as int ==> !rule_errs(
                                #[trigger] rules[j],
                                start as int,
                                end as int,
                            )
                    },
                }
            }),
    {
        let mut holidays: Vec<Date> = Vec::new();
        let mut halfdays: Vec<Date> = Vec::new();
        let mut weekdays: Vec<Weekday> = Vec::new();
        let mut i: usize = 0;
        while i < holiday_rules.len()
            invariant
                1 <= start <= end <= 9999,
                0 <= i <= holiday_rules@.len(),
                dates_wf(holidays@),
                dates_wf(halfdays@),
                forall|j: int|
                    0 <= j < i ==> !rule_errs(#[trigger] holiday_rules@[j], start as int, end as int),
                easter_rules_in_spring(holiday_rules@, i as int, start as int, end as int),
                forall|c: int|
                    #[trigger] date_seq_contains(holidays@, c) <==> prefix_holiday(
                        holiday_rules@,
                        i as int,
                        start as int,
                        end as int,
                        c,
                    ),
                forall|h: int|
                    #[trigger] date_seq_contains(halfdays@, h) <==> prefix_halfday(
                        holiday_rules@,
                        i as int,
                        start as int,
                        end as int,
                        h,
                    ),
                forall|w: Weekday|
                    #[trigger] weekdays@.contains(w) <==> prefix_weekend(
                        holiday_rules@,
                        i as int,
                        w,
                    ),
            decreases holiday_rules@.len() - i,
        {
            let rule = holiday_rules[i];
            proof {
                lemma_prefix_step(holiday_rules@, i as int, start as int, end as int);
            }
            match rule {
                Holiday::SingularDay(d) => {
                    let e = apply_singular(&mut holidays, d, start, end);
                    if let Some(ye) = e {
                        return Err(CalendarError { rule_index: i, year: ye });
                    }
                },
                Holiday::WeekDay(w) => {
                    let ghost old_weekdays = weekdays@;
                    weekdays.push(w);
                    proof {
                        assert forall|w2: Weekday|
                            #[trigger] weekdays@.contains(w2) <==> old_weekdays.contains(w2) || w2
                                == w by {
                            if weekdays@.contains(w2) {
                                let k = choose|k: int|
                                    0 <= k < weekdays@.len() && weekdays@[k] == w2;
                                if k < old_weekdays.len() {
                                    assert(old_weekdays[k] == w2);
                                }
                            }
                            if old_weekdays.contains(w2) {
                                let k = choose|k: int|
                                    0 <= k < old_weekdays.len() && old_weekdays[k] == w2;
                                assert(weekdays@[k] == w2);
                            }
                            if w2 == w {
                                assert(weekdays@[weekdays@.len() - 1] == w2);
                            }
                        }
                    }
                },
                Holiday::MovableYearlyDay { month, day, first, last, half_check } => {
                    let e = apply_movable(
                        &mut holidays,
                        &mut halfdays,
                        month,
                        day,
                        first,
                        last,
                        half_check,
                        start,
                        end,
                    );
                    if let Some(ye) = e {
                        return Err(CalendarError { rule_index: i, year: ye });
                    }
                },
                Holiday::EasterOffset { offset, first, last } => {
                    let e = apply_easter(&mut holidays, offset, first, last, start, end);
                    if let Some(ye) = e {
                        return Err(CalendarError { rule_index: i, year: ye });
                    }
                    proof {
                        assert forall|j: int, y: int|
                            0 <= j < i + 1 && holiday_rules@[j] is EasterOffset
                                && #[trigger] in_rule_years(
                                holiday_rules@[j],
                                start as int,
                                end as int,
                                y,
                            ) implies crate::easter::easter_in_spring(y) by {
                            if j == i {
                                assert(holiday_rules@[j] == rule);
                            }
                        }
                    }
                },
                Holiday::MonthWeekday { month, weekday, nth, first, last, half_check } => {
                    let e = apply_month_weekday(
                        &mut holidays,
                        &mut halfdays,
                        month,
                        weekday,
                        nth,
                        first,
                        last,
                        half_check,
                        start,
                        end,
                    );
                    if let Some(ye) = e {
                        return Err(CalendarError { rule_index: i, year: ye });
                    }
                },
            }
            i = i + 1;
        }
        Ok(Calendar { holidays, halfdays, weekdays })
    }
}

/// A day number is a business day when its weekday is not a weekend
/// weekday and it is not a full holiday. Half-days stay business days.
pub open spec fn spec_is_business_dn(cal: Calendar, c: int) -> bool {
    !cal.weekend_set().contains(weekday_from_index(c % 7)) && !cal.holiday_set().contains(c)
}

impl Calendar {
    /// Returns true if the date falls on a weekend
    pub fn is_weekend(&self, day: Date) -> (r: bool)
        requires
            day.valid(),
        ensures
            r == self.weekend_set().contains(day.spec_weekday()),
    {
        let weekday = day.weekday();
        let mut i: usize = 0;
        while i < self.weekdays.len()
            invariant
                0 <= i <= self.weekdays@.len(),
                weekday == day.spec_weekday(),
                forall|j: int| 0 <= j < i ==> self.weekdays@[j] != day.spec_weekday(),
            decreases self.weekdays@.len() - i,
        {
            if weekday == self.weekdays[i] {
                return true;
            }
            i = i + 1;
        }
        false
    }

    /// Returns true if the specified day is a full-day holiday
    pub fn is_holiday(&self, date: Date) -> (r: bool)
        requires
            self.wf(),
            date.valid(),
        ensures
            r == self.holiday_set().contains(date.dn()),
    {
        contains_date(&self.holidays, date.day_number())
    }

    /// Returns true if the specified day is a half-day holiday
    pub fn is_half_holiday(&self, date: Date) -> (r: bool)
        requires
            self.wf(),
            date.valid(),
        ensures
            r == self.halfday_set().contains(date.dn()),
    {
        contains_date(&self.halfdays, date.day_number())
    }

    /// Returns true if the specified day is a business day
    pub fn is_business_day(&self, date: Date) -> (r: bool)
        requires
            self.wf(),
            date.valid(),
        ensures
            r == spec_is_business_dn(*self, date.dn()),
    {
        !self.is_weekend(date) && !self.is_holiday(date)
    }

    /// Calculate the next business day. The calendar must leave some
    /// later representable day open for business.
    pub fn next_biz_day(&self, date: Date) -> (r: Date)
        requires
            self.wf(),
            date.valid(),
            exists|c: int|
                date.dn() < c <= MAX_DAY_NUMBER && #[trigger] spec_is_business_dn(*self, c),
        ensures
            r.valid(),
            date.dn() < r.dn(),
            spec_is_business_dn(*self, r.dn()),
            forall|c: int| date.dn() < c < r.dn() ==> !spec_is_business_dn(*self, c),
    {
        proof {
            let c0 = choose|c: int|
                date.dn() < c <= MAX_DAY_NUMBER && #[trigger] spec_is_business_dn(*self, c);
            assert(date.dn() < MAX_DAY_NUMBER);
        }
        let mut cur = date.succ();
        loop
            invariant
                self.wf(),
                cur.valid(),
                date.dn() < cur.dn() <= MAX_DAY_NUMBER,
                exists|c: int|
                    cur.dn() <= c <= MAX_DAY_NUMBER && #[trigger] spec_is_business_dn(*self, c),
                forall|c: int| date.dn() < c < cur.dn() ==> !spec_is_business_dn(*self, c),
            ensures
                cur.valid(),
                date.dn() < cur.dn(),
                spec_is_business_dn(*self, cur.dn()),
                forall|c: int| date.dn() < c < cur.dn() ==> !spec_is_business_dn(*self, c),
            decreases MAX_DAY_NUMBER - cur.dn(),
        {
            if self.is_business_day(cur) {
                break;
            }
            proof {
                let c0 = choose|c: int|
                    cur.dn() <= c <= MAX_DAY_NUMBER && #[trigger] spec_is_business_dn(*self, c);
                assert(c0 >= cur.dn() + 1);
            }
            cur = cur.succ();
        }
        cur
    }

    /// Calculate the previous business day. The calendar must leave some
    /// earlier representable day open for business.
    pub fn prev_biz_day(&self, date: Date) -> (r: Date)
        requires
            self.wf(),
            date.valid(),
            exists|c: int| 0 <= c < date.dn() && #[trigger] spec_is_business_dn(*self, c),
        ensures
            r.valid(),
            r.dn() < date.dn(),
            spec_is_business_dn(*self, r.dn()),
            forall|c: int| r.dn() < c < date.dn() ==> !spec_is_business_dn(*self, c),
    {
        proof {
            let c0 = choose|c: int|
                0 <= c < date.dn() && #[trigger] spec_is_business_dn(*self, c);
            assert(date.dn() > 0);
            lemma_dn_bounds(date.year as int, date.month as int, date.day as int);
        }
        let mut cur = date.pred();
        loop
            invariant
                self.wf(),
                cur.valid(),
                0 <= cur.dn() < date.dn(),
                exists|c: int| 0 <= c <= cur.dn() && #[trigger] spec_is_business_dn(*self, c),
                forall|c: int| cur.dn() < c < date.dn() ==> !spec_is_business_dn(*self, c),
            ensures
                cur.valid(),
                cur.dn() < date.dn(),
                spec_is_business_dn(*self, cur.dn()),
                forall|c: int| cur.dn() < c < date.dn() ==> !spec_is_business_dn(*self, c),
            decreases cur.dn(),
        {
            if self.is_business_day(cur) {
                break;
            }
            proof {
                let c0 = choose|c: int|
                    0 <= c <= cur.dn() && #[trigger] spec_is_business_dn(*self, c);
                assert(c0 <= cur.dn() - 1);
            }
            cur = cur.pred();
        }
        cur
    }

    pub fn from_ymd(year: i32, month: u32, day: u32) -> (r: Date)
        requires
            valid_ymd(year as int, month as int, day as int),
        ensures
            r == (Date { year, month, day }),
    {
        Date { year, month, day }
    }

    /// Number of distinct full-holiday dates.
    pub fn holiday_count(&self) -> (r: usize)
        ensures
            r == self.spec_holiday_count(),
    {
        self.holidays.len()
    }

    /// Number of distinct half-day dates.
    pub fn halfday_count(&self) -> (r: usize)
        ensures
            r == self.spec_halfday_count(),
    {
        self.halfdays.len()
    }

    /// Number of recognized weekend weekdays.
    pub fn weekday_count(&self) -> (r: usize)
        ensures
            r == self.spec_weekday_count(),
    {
        self.weekdays.len()
    }

    /// The calendar with no holidays, no half-days and no weekend days.
    pub(crate) fn empty() -> (r: Calendar)
        ensures
            r.wf(),
            r.holiday_set() == Set::<int>::empty(),
            r.halfday_set() == Set::<int>::empty(),
            r.weekend_set() == Set::<Weekday>::empty(),
            r.spec_holiday_count() == 0,
            r.spec_halfday_count() == 0,
            r.spec_weekday_count() == 0,
    {
        let r = Calendar { holidays: Vec::new(), halfdays: Vec::new(), weekdays: Vec::new() };
        proof {
            assert(r.holiday_set() =~= Set::<int>::empty());
            assert(r.halfday_set() =~= Set::<int>::empty());
            assert(r.weekend_set() =~= Set::<Weekday>::empty());
        }
        r
    }
}

// ---------------------------------------------------------------------
// Laws of the rule expansion.
// ---------------------------------------------------------------------

/// Shift idempotence: a holiday produced by a movable yearly rule never
/// falls on a Saturday or a Sunday — the weekend shift has already
/// moved it off the weekend.
pub proof fn lemma_shifted_never_weekend(rule: Holiday, start: int, end: int, c: int)
    requires
        rule is MovableYearlyDay,
        rule_holiday_contrib(rule, start, end, c),
    ensures
        weekday_from_index(c % 7) != Weekday::Sat,
        weekday_from_index(c % 7) != Weekday::Sun,
{
    let y = choose|y: int|
        in_rule_years(rule, start, end, y) && #[trigger] rule_year_holiday(rule, y, c);
    match rule {
        Holiday::MovableYearlyDay { month, day, .. } => {
            let c0 = dn_of(y, month as int, day as int);
            lemma_mod_bound(c0, 7);
            lemma_mod_bound(c, 7);
            if c0 % 7 == 5 {
                lemma_mod7_pred(c0);
            } else if c0 % 7 == 6 {
                lemma_mod7_succ(c0);
            }
        },
        _ => {},
    }
}

/// Boundary exclusion: a holiday produced by a movable yearly rule is
/// never the last day of a month nor a December 31; a candidate that
/// shifts onto such a day is discarded entirely.
pub proof fn lemma_boundary_exclusion(rule: Holiday, start: int, end: int, c: int)
    requires
        rule is MovableYearlyDay,
        rule_holiday_contrib(rule, start, end, c),
    ensures
        !is_month_end_dn(c),
        !is_year_end_dn(c),
{
    let y = choose|y: int|
        in_rule_years(rule, start, end, y) && #[trigger] rule_year_holiday(rule, y, c);
}

/// Half-day suppression: a `Before` half-day is recorded only when its
/// anchor holiday is not a Monday (the half-day is the day before the
/// anchor), and an `After` half-day only when its anchor is not a
/// Friday (the half-day is the day after the anchor).
pub proof fn lemma_halfday_suppression(anchor: int, hc: HalfCheck, h: int)
    requires
        spec_half_day(anchor, hc, h),
    ensures
        hc == HalfCheck::Before ==> weekday_from_index(anchor % 7) != Weekday::Mon && h == anchor
            - 1,
        hc == HalfCheck::After ==> weekday_from_index(anchor % 7) != Weekday::Fri && h == anchor
            + 1,
{
    lemma_mod_bound(anchor, 7);
}

/// Range clamping: a yearly rule is expanded only for years inside the
/// build range intersected with the rule's own `first`/`last` bounds;
/// a rule with `first` set produces nothing for any earlier year.
pub proof fn lemma_range_clamping(rule: Holiday, start: int, end: int, y: int)
    requires
        in_rule_years(rule, start, end, y),
    ensures
        start <= y <= end,
        match rule_first(rule) {
            Some(f) => f as int <= y,
            None => true,
        },
        match rule_last(rule) {
            Some(l) => y <= l as int,
            None => true,
        },
{
}

/// Returns ending accounting period (end of month, end of year)
pub fn accounting_period_end(date: Date) -> (r: (Date, Date))
    requires
        date.valid(),
    ensures
        r.0 == (Date {
            year: date.year,
            month: date.month,
            day: spec_days_in_month(date.year as int, date.month as int) as u32,
        }),
        r.1 == (Date { year: date.year, month: 12u32, day: 31u32 }),
        r.0.valid(),
        r.1.valid(),
{
    let last_date_of_month = Date {
        year: date.year,
        month: date.month,
        day: last_day_of_month(date.year, date.month),
    };
    let last_date_of_year = Date { year: date.year, month: 12, day: 31 };
    (last_date_of_month, last_date_of_year)
}

/// A valid date is the last day of some month (or year) exactly when
/// its own fields say so.
pub proof fn lemma_month_end_char(d: Date)
    requires
        d.valid(),
    ensures
        is_month_end_dn(d.dn()) <==> d.day == spec_days_in_month(d.year as int, d.month as int),
        is_year_end_dn(d.dn()) <==> (d.month == 12 && d.day == 31),
{
    if d.day == spec_days_in_month(d.year as int, d.month as int) {
        assert(is_month_end_dn(d.dn()));
    }
    if is_month_end_dn(d.dn()) {
        let (y, m): (int, int) = choose|y: int, m: int|
            valid_year(y) && 1 <= m <= 12 && d.dn() == dn_of(y, m, spec_days_in_month(y, m));
        lemma_dn_injective(
            y,
            m,
            spec_days_in_month(y, m),
            d.year as int,
            d.month as int,
            d.day as int,
        );
    }
    if d.month == 12 && d.day == 31 {
        assert(dn_of(d.year as int, 12, 31) == d.dn());
        assert(is_year_end_dn(d.dn()));
    }
    if is_year_end_dn(d.dn()) {
        let y: int = choose|y: int| valid_year(y) && d.dn() == dn_of(y, 12, 31);
        lemma_dn_injective(y, 12, 31, d.year as int, d.month as int, d.day as int);
    }
}

/// Record the half-day adjacent to a holiday: the previous day for
/// `Before` (skipped when the holiday is a Monday), the next day for
/// `After` (skipped when the holiday is a Friday).
pub fn do_halfday_check(date: &Date, halfdays: &mut Vec<Date>, half_check: &Option<HalfCheck>)
    requires
        date.valid(),
        dates_wf(old(halfdays)@),
    ensures
        dates_wf(final(halfdays)@),
        forall|h: int|
            #[trigger] date_seq_contains(final(halfdays)@, h) <==> date_seq_contains(
                old(halfdays)@,
                h,
            ) || halfday_of(date.dn(), *half_check, h),
{
    proof {
        lemma_mod_bound(date.dn(), 7);
    }
    match half_check {
        None => {},
        Some(HalfCheck::Before) => {
            let weekday = date.weekday();
            if weekday == Weekday::Mon {
                return ;
            }
            proof {
                lemma_dn_bounds(date.year as int, date.month as int, date.day as int);
                assert(date.dn() % 7 != 0);
                assert(date.dn() != 0) by {
                    if date.dn() == 0 {
                        assert(date.dn() % 7 == 0);
                    }
                }
            }
            let prior = date.pred();
            insert_date(halfdays, prior);
        },
        Some(HalfCheck::After) => {
            let weekday = date.weekday();
            if weekday == Weekday::Fri {
                return ;
            }
            proof {
                lemma_dn_bounds(date.year as int, date.month as int, date.day as int);
                assert(date.dn() % 7 != 4);
                assert(date.dn() != MAX_DAY_NUMBER) by {
                    if date.dn() == MAX_DAY_NUMBER {
                        assert(MAX_DAY_NUMBER as int % 7 == 4) by (nonlinear_arith);
                    }
                }
            }
            let next = date.succ();
            insert_date(halfdays, next);
        },
    }
}

// ---------------------------------------------------------------------
// Rule-set holder.
// ---------------------------------------------------------------------

fn copy_dates(v: &Vec<Date>) -> (r: Vec<Date>)
    ensures
        r@ == v@,
{
    let mut out: Vec<Date> = Vec::new();
    let mut i: usize = 0;
    while i < v.len()
        invariant
            0 <= i <= v@.len(),
            out@ == v@.subrange(0, i as int),
        decreases v@.len() - i,
    {
        out.push(v[i]);
        proof {
            assert(out@ =~= v@.subrange(0, i as int + 1));
        }
        i = i + 1;
    }
    proof {
        assert(out@ =~= v@);
    }
    out
}

fn copy_weekdays(v: &Vec<Weekday>) -> (r: Vec<Weekday>)
    ensures
        r@ == v@,
{
    let mut out: Vec<Weekday> = Vec::new();
    let mut i: usize = 0;
    while i < v.len()
        invariant
            0 <= i <= v@.len(),
            out@ == v@.subrange(0, i as int),
        decreases v@.len() - i,
    {
        out.push(v[i]);
        proof {
            assert(out@ =~= v@.subrange(0, i as int + 1));
        }
        i = i + 1;
    }
    proof {
        assert(out@ =~= v@);
    }
    out
}

impl Calendar {
    /// A structurally identical copy of this calendar.
    pub(crate) fn duplicate(&self) -> (r: Calendar)
        ensures
            r.holiday_set() == self.holiday_set(),
            r.halfday_set() == self.halfday_set(),
            r.weekend_set() == self.weekend_set(),
            r.wf() == self.wf(),
            r.spec_holiday_count() == self.spec_holiday_count(),
            r.spec_halfday_count() == self.spec_halfday_count(),
            r.spec_weekday_count() == self.spec_weekday_count(),
    {
        let r = Calendar {
            holidays: copy_dates(&self.holidays),
            halfdays: copy_dates(&self.halfdays),
            weekdays: copy_weekdays(&self.weekdays),
        };
        proof {
            assert(r.holiday_set() =~= self.holiday_set());
            assert(r.halfday_set() =~= self.halfday_set());
            assert(r.weekend_set() =~= self.weekend_set());
        }
        r
    }
}

/// A calendar is exactly the expansion of a rule list over a year range.
pub open spec fn calendar_matches(cal: Calendar, rules: Seq<Holiday>, start: int, end: int) -> bool {
    &&& cal.wf()
    &&& easter_rules_in_spring(rules, rules.len() as int, start, end)
    &&& forall|j: int| 0 <= j < rules.len() ==> !rule_errs(#[trigger] rules[j], start, end)
    &&& forall|c: int|
        #[trigger] cal.holiday_set().contains(c) <==> prefix_holiday(
            rules,
            rules.len() as int,
            start,
            end,
            c,
        )
    &&& forall|h: int|
        #[trigger] cal.halfday_set().contains(h) <==> prefix_halfday(
            rules,
            rules.len() as int,
            start,
            end,
            h,
        )
    &&& forall|w: Weekday|
        #[trigger] cal.weekend_set().contains(w) <==> prefix_weekend(rules, rules.len() as int, w)
}

pub open spec fn empty_calendar(cal: Calendar) -> bool {
    &&& cal.wf()
    &&& cal.holiday_set() == Set::<int>::empty()
    &&& cal.halfday_set() == Set::<int>::empty()
    &&& cal.weekend_set() == Set::<Weekday>::empty()
}

/// The year the builder uses when no start year is given.
pub open spec fn resolved_start(start: Option<i32>) -> int {
    match start {
        Some(s) => s as int,
        None => 2000,
    }
}

/// The year the builder uses when no end year is given.
pub open spec fn resolved_end(end: Option<i32>) -> int {
    match end {
        Some(e) => e as int,
        None => 2050,
    }
}

/// Calendar specific to US stock exchanges
#[derive(Debug)]
pub struct UsExchangeCalendar {
    cal: Calendar,
    holiday_rules: Vec<Holiday>,
}

impl UsExchangeCalendar {
    pub closed spec fn rules_seq(self) -> Seq<Holiday> {
        self.holiday_rules@
    }

    pub closed spec fn cal_spec(self) -> Calendar {
        self.cal
    }

    /// NYSE holiday rule table as of 2022.
    pub open spec fn spec_default_rules() -> Seq<Holiday> {
        seq![
            Holiday::WeekDay(Weekday::Sat),
            Holiday::WeekDay(Weekday::Sun),
            Holiday::MovableYearlyDay {
                month: 1u32,
                day: 1u32,
                first: None,
                last: None,
                half_check: None,
            },
            Holiday::MonthWeekday {
                month: 1u32,
                weekday: Weekday::Mon,
                nth: NthWeek::Third,
                first: None,
                last: None,
                half_check: None,
            },
            Holiday::MonthWeekday {
                month: 2u32,
                weekday: Weekday::Mon,
                nth: NthWeek::Third,
                first: None,
                last: None,
                half_check: None,
            },
            Holiday::EasterOffset { offset: -2i32, first: Some(2000i32), last: None },
            Holiday::MonthWeekday {
                month: 5u32,
                weekday: Weekday::Mon,
                nth: NthWeek::Last,
                first: None,
                last: None,
                half_check: None,
            },
            Holiday::MovableYearlyDay {
                month: 6u32,
                day: 19u32,
                first: Some(2022i32),
                last: None,
                half_check: None,
            },
            Holiday::MovableYearlyDay {
                month: 7u32,
                day: 4u32,
                first: None,
                last: None,
                half_check: Some(HalfCheck::Before),
            },
            Holiday::MonthWeekday {
                month: 9u32,
                weekday: Weekday::Mon,
                nth: NthWeek::First,
                first: None,
                last: None,
                half_check: None,
            },
            Holiday::MonthWeekday {
                month: 11u32,
                weekday: Weekday::Thu,
                nth: NthWeek::Fourth,
                first: None,
                last: None,
                half_check: Some(HalfCheck::After),
            },
            Holiday::MovableYearlyDay {
                month: 12u32,
                day: 25u32,
                first: None,
                last: None,
                half_check: Some(HalfCheck::Before),
            },
            Holiday::SingularDay(Date { year: 2001i32, month: 9u32, day: 11u32 }),
        ]
    }

    /// Create a new US exchange calendar with the default rules; populate
    /// the calendar for the default range (2000-2050) if `populate` is set.
    pub fn with_default_range(populate: bool) -> (r: UsExchangeCalendar)
        ensures
            r.rules_seq() == Self::spec_default_rules(),
            !populate ==> empty_calendar(r.cal_spec()),
            populate ==> if exists|j: int|
                0 <= j < Self::spec_default_rules().len() && rule_errs(
                    #[trigger] Self::spec_default_rules()[j],
                    2000,
                    2050,
                ) {
                empty_calendar(r.cal_spec())
            } else {
                calendar_matches(r.cal_spec(), Self::spec_default_rules(), 2000, 2050)
            },
    {
        let holiday_rules: Vec<Holiday> = vec![
            Holiday::WeekDay(Weekday::Sat),
            Holiday::WeekDay(Weekday::Sun),
            Holiday::MovableYearlyDay {
                month: 1,
                day: 1,
                first: None,
                last: None,
                half_check: None,
            },
            Holiday::MonthWeekday {
                month: 1,
                weekday: Weekday::Mon,
                nth: NthWeek::Third,
                first: None,
                last: None,
                half_check: None,
            },
            Holiday::MonthWeekday {
                month: 2,
                weekday: Weekday::Mon,
                nth: NthWeek::Third,
                first: None,
                last: None,
                half_check: None,
            },
            Holiday::EasterOffset { offset: -2, first: Some(2000), last: None },
            Holiday::MonthWeekday {
                month: 5,
                weekday: Weekday::Mon,
                nth: NthWeek::Last,
                first: None,
                last: None,
                half_check: None,
            },
            Holiday::MovableYearlyDay {
                month: 6,
                day: 19,
                first: Some(2022),
                last: None,
                half_check: None,
            },
            Holiday::MovableYearlyDay {
                month: 7,
                day: 4,
                first: None,
                last: None,
                half_check: Some(HalfCheck::Before),
            },
            Holiday::MonthWeekday {
                month: 9,
                weekday: Weekday::Mon,
                nth: NthWeek::First,
                first: None,
                last: None,
                half_check: None,
            },
            Holiday::MonthWeekday {
                month: 11,
                weekday: Weekday::Thu,
                nth: NthWeek::Fourth,
                first: None,
                last: None,
                half_check: Some(HalfCheck::After),
            },
            Holiday::MovableYearlyDay {
                month: 12,
                day: 25,
                first: None,
                last: None,
                half_check: Some(HalfCheck::Before),
            },
            Holiday::SingularDay(Date { year: 2001, month: 9, day: 11 }),
        ];
        proof {
            assert(holiday_rules@ =~= Self::spec_default_rules());
        }
        let mut sc = UsExchangeCalendar { cal: Calendar::empty(), holiday_rules };
        if populate {
            let _ = sc.populate_cal(None, None);
        }
        sc
    }

    /// add an ad-hoc holiday rule to the rule list
    pub fn add_holiday_rule(&mut self, holiday: Holiday)
        ensures
            final(self).rules_seq() == old(self).rules_seq().push(holiday),
            final(self).cal_spec() == old(self).cal_spec(),
    {
        self.holiday_rules.push(holiday);
    }

    /// populate calendar for given `start` and `end` years (inclusively,
    /// defaults to 2000 and 2050 if None, None are given)
    pub fn populate_cal(&mut self, start: Option<i32>, end: Option<i32>) -> (r: Result<
        (),
        CalendarError,
    >)
        requires
            1 <= resolved_start(start) <= resolved_end(end) <= 9999,
        ensures
            final(self).rules_seq() == old(self).rules_seq(),
            match r {
                Ok(_) => calendar_matches(
                    final(self).cal_spec(),
                    old(self).rules_seq(),
                    resolved_start(start),
                    resolved_end(end),
                ),
                Err(e) => {
                    &&& final(self).cal_spec() == old(self).cal_spec()
                    &&& e.rule_index < old(self).rules_seq().len()
                    &&& rule_err_year(
                        old(self).rules_seq()[e.rule_index as int],
                        resolved_start(start),
                        resolved_end(end),
                        e.year as int,
                    )
                },
            },
    {
        let s: i32 = match start {
            Some(v) => v,
            None => 2000,
        };
        let e: i32 = match end {
            Some(v) => v,
            None => 2050,
        };
        let res = Calendar::calc_calendar(self.holiday_rules.as_slice(), s, e);
        match res {
            Ok(cal) => {
                self.cal = cal;
                Ok(())
            },
            Err(er) => Err(er),
        }
    }

    pub fn get_cal(&self) -> (r: Calendar)
        ensures
            r.holiday_set() == self.cal_spec().holiday_set(),
            r.halfday_set() == self.cal_spec().halfday_set(),
            r.weekend_set() == self.cal_spec().weekend_set(),
            r.wf() == self.cal_spec().wf(),
            r.spec_holiday_count() == self.cal_spec().spec_holiday_count(),
            r.spec_halfday_count() == self.cal_spec().spec_halfday_count(),
            r.spec_weekday_count() == self.cal_spec().spec_weekday_count(),
    {
        self.cal.duplicate()
    }
}

} // verus!
