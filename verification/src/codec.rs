//! The wire encoding of holiday rule lists.
//!
//! A rule list is written as a JSON array of single-key objects, the
//! key naming the rule variant, its fields in declared order, with
//! unset optional fields written as `null`, pretty-printed with
//! two-space indentation. The decoder accepts that grammar with
//! arbitrary whitespace between tokens, and optional fields may also
//! be left out entirely (an absent optional decodes to "not set");
//! fields must keep their declared order. Decoding an encoded list
//! restores it exactly; [`lemma_decode_encode_round_trip`] proves it.

use vstd::prelude::*;
use vstd::arithmetic::div_mod::{lemma_fundamental_div_mod, lemma_mod_bound};
use crate::calendar::{HalfCheck, Holiday, NthWeek};
use crate::date::{valid_ymd, Date, Weekday};

verus! {

/// A rule the encoder can write: a one-off date must be a real
/// calendar day.
pub open spec fn rule_encodable(rule: Holiday) -> bool {
    match rule {
        Holiday::SingularDay(d) => d.valid(),
        _ => true,
    }
}

pub open spec fn digit_char(d: int) -> char {
    if d == 0 {
        '0'
    } else if d == 1 {
        '1'
    } else if d == 2 {
        '2'
    } else if d == 3 {
        '3'
    } else if d == 4 {
        '4'
    } else if d == 5 {
        '5'
    } else if d == 6 {
        '6'
    } else if d == 7 {
        '7'
    } else if d == 8 {
        '8'
    } else {
        '9'
    }
}

/// The decimal digits of a non-negative number, most significant first.
pub open spec fn spec_dec_digits(n: int) -> Seq<char>
    decreases n,
{
    if n < 10 {
        seq![digit_char(n)]
    } else {
        spec_dec_digits(n / 10).push(digit_char(n % 10))
    }
}

/// A (possibly signed) decimal integer token.
pub open spec fn spec_int_token(v: int) -> Seq<char> {
    if v < 0 {
        "-"@ + spec_dec_digits(-v)
    } else {
        spec_dec_digits(v)
    }
}

pub open spec fn spec_pad2(n: int) -> Seq<char> {
    if n < 10 {
        "0"@ + spec_dec_digits(n)
    } else {
        spec_dec_digits(n)
    }
}

pub open spec fn spec_pad4(n: int) -> Seq<char> {
    if n < 10 {
        "000"@ + spec_dec_digits(n)
    } else if n < 100 {
        "00"@ + spec_dec_digits(n)
    } else if n < 1000 {
        "0"@ + spec_dec_digits(n)
    } else {
        spec_dec_digits(n)
    }
}

/// A date as a quoted `YYYY-MM-DD` string token.
pub open spec fn spec_date_token(d: Date) -> Seq<char> {
    "\""@ + spec_pad4(d.year as int) + "-"@ + spec_pad2(d.month as int) + "-"@ + spec_pad2(
        d.day as int,
    ) + "\""@
}

pub open spec fn spec_weekday_token(w: Weekday) -> Seq<char> {
    match w {
        Weekday::Mon => "\"Mon\""@,
        Weekday::Tue => "\"Tue\""@,
        Weekday::Wed => "\"Wed\""@,
        Weekday::Thu => "\"Thu\""@,
        Weekday::Fri => "\"Fri\""@,
        Weekday::Sat => "\"Sat\""@,
        Weekday::Sun => "\"Sun\""@,
    }
}

pub open spec fn spec_nth_token(nth: NthWeek) -> Seq<char> {
    match nth {
        NthWeek::First => "\"First\""@,
        NthWeek::Second => "\"Second\""@,
        NthWeek::Third => "\"Third\""@,
        NthWeek::Fourth => "\"Fourth\""@,
        NthWeek::Last => "\"Last\""@,
    }
}

pub open spec fn spec_opt_int_token(o: Option<i32>) -> Seq<char> {
    match o {
        None => "null"@,
        Some(v) => spec_int_token(v as int),
    }
}

pub open spec fn spec_half_token(o: Option<HalfCheck>) -> Seq<char> {
    match o {
        None => "null"@,
        Some(HalfCheck::Before) => "\"Before\""@,
        Some(HalfCheck::After) => "\"After\""@,
    }
}

/// The inner field object of a movable yearly rule.
pub open spec fn mov_b1a(month: u32) -> Seq<char> {
    "{"@ + "\n      "@ + "\"month\":"@ + " "@ + spec_dec_digits(month as int)
}

pub open spec fn mov_b1b(day: u32) -> Seq<char> {
    ","@ + "\n      "@ + "\"day\":"@ + " "@ + spec_dec_digits(day as int)
}

pub open spec fn mov_b1(month: u32, day: u32) -> Seq<char> {
    mov_b1a(month) + mov_b1b(day)
}

/// The encoded `first` field, with its separating comma.
pub open spec fn opt_first_field(first: Option<i32>) -> Seq<char> {
    ","@ + "\n      "@ + "\"first\":"@ + " "@ + spec_opt_int_token(first)
}

/// The encoded `last` field, with its separating comma.
pub open spec fn opt_last_field(last: Option<i32>) -> Seq<char> {
    ","@ + "\n      "@ + "\"last\":"@ + " "@ + spec_opt_int_token(last)
}

/// The encoded optional year bounds of a rule.
pub open spec fn opt_bounds(first: Option<i32>, last: Option<i32>) -> Seq<char> {
    opt_first_field(first) + opt_last_field(last)
}

/// The encoded `half_check` field and the object's closing brace.
pub open spec fn opt_tail(half_check: Option<HalfCheck>) -> Seq<char> {
    ","@ + "\n      "@ + "\"half_check\":"@ + " "@ + spec_half_token(half_check) + "\n    "@
        + "}"@
}

pub open spec fn movable_body(
    month: u32,
    day: u32,
    first: Option<i32>,
    last: Option<i32>,
    half_check: Option<HalfCheck>,
) -> Seq<char> {
    mov_b1(month, day) + opt_bounds(first, last) + opt_tail(half_check)
}

/// The inner field object of an Easter-relative rule.
pub open spec fn eas_b1(offset: i32) -> Seq<char> {
    "{"@ + "\n      "@ + "\"offset\":"@ + " "@ + spec_int_token(offset as int)
}

pub open spec fn eas_b2(first: Option<i32>, last: Option<i32>) -> Seq<char> {
    opt_first_field(first) + opt_last_field(last) + "\n    "@ + "}"@
}

pub open spec fn easter_body(offset: i32, first: Option<i32>, last: Option<i32>) -> Seq<char> {
    eas_b1(offset) + eas_b2(first, last)
}

/// The inner field object of an nth-weekday rule.
pub open spec fn mw_b1(month: u32) -> Seq<char> {
    "{"@ + "\n      "@ + "\"month\":"@ + " "@ + spec_dec_digits(month as int)
}

pub open spec fn mw_kinds(weekday: Weekday, nth: NthWeek) -> Seq<char> {
    ","@ + "\n      "@ + "\"weekday\":"@ + " "@ + spec_weekday_token(weekday) + ","@ + "\n      "@
        + "\"nth\":"@ + " "@ + spec_nth_token(nth)
}

pub open spec fn mw_body(
    month: u32,
    weekday: Weekday,
    nth: NthWeek,
    first: Option<i32>,
    last: Option<i32>,
    half_check: Option<HalfCheck>,
) -> Seq<char> {
    mw_b1(month) + mw_kinds(weekday, nth) + opt_bounds(first, last) + opt_tail(half_check)
}

/// One encoded rule, as it stands inside the pretty-printed array.
pub open spec fn spec_encode_rule(rule: Holiday) -> Seq<char> {
    match rule {
        Holiday::WeekDay(w) => "{"@ + "\n    "@ + "\"WeekDay\":"@ + " "@ + spec_weekday_token(w)
            + "\n  "@ + "}"@,
        Holiday::SingularDay(d) => "{"@ + "\n    "@ + "\"SingularDay\":"@ + " "@
            + spec_date_token(d) + "\n  "@ + "}"@,
        Holiday::MovableYearlyDay { month, day, first, last, half_check } => "{"@ + "\n    "@
            + "\"MovableYearlyDay\":"@ + " "@ + movable_body(month, day, first, last, half_check)
            + "\n  "@ + "}"@,
        Holiday::EasterOffset { offset, first, last } => "{"@ + "\n    "@ + "\"EasterOffset\":"@
            + " "@ + easter_body(offset, first, last) + "\n  "@ + "}"@,
        Holiday::MonthWeekday { month, weekday, nth, first, last, half_check } => "{"@ + "\n    "@
            + "\"MonthWeekday\":"@ + " "@ + mw_body(month, weekday, nth, first, last, half_check)
            + "\n  "@ + "}"@,
    }
}

/// The encoded items of a non-empty rule list, each on its own
/// indented line, separated by commas.
pub open spec fn spec_encode_items(rules: Seq<Holiday>) -> Seq<char>
    decreases rules.len(),
{
    if rules.len() == 0 {
        Seq::<char>::empty()
    } else {
        "\n  "@ + spec_encode_rule(rules[0]) + if rules.len() > 1 {
            ","@ + spec_encode_items(rules.subrange(1, rules.len() as int))
        } else {
            Seq::<char>::empty()
        }
    }
}

/// The full wire encoding of a rule list.
pub open spec fn spec_encode_rules(rules: Seq<Holiday>) -> Seq<char> {
    if rules.len() == 0 {
        "[]"@
    } else {
        "["@ + spec_encode_items(rules) + "\n"@ + "]"@
    }
}

// ---------------------------------------------------------------------
// The grammar: a recursive-descent parser over character sequences.
// ---------------------------------------------------------------------

pub open spec fn is_ws_char(c: char) -> bool {
    c == ' ' || c == '\n' || c == '\t' || c == '\r'
}

pub open spec fn is_digit_char(c: char) -> bool {
    '0' <= c && c <= '9'
}

pub open spec fn digit_val(c: char) -> int {
    c as int - '0' as int
}

/// The first position at or after `i` holding a non-whitespace character.
pub open spec fn spec_skip_ws(s: Seq<char>, i: int) -> int
    decreases s.len() - i,
{
    if 0 <= i < s.len() && is_ws_char(s[i]) {
        spec_skip_ws(s, i + 1)
    } else {
        i
    }
}

/// A fixed token, after optional whitespace.
pub open spec fn spec_parse_lit(s: Seq<char>, i: int, lit: Seq<char>) -> Option<int> {
    let j = spec_skip_ws(s, i);
    if j + lit.len() <= s.len() && s.subrange(j, j + lit.len() as int) == lit {
        Some(j + lit.len() as int)
    } else {
        None
    }
}

/// The first position at or after `i` holding a non-digit character.
pub open spec fn spec_digits_end(s: Seq<char>, i: int) -> int
    decreases s.len() - i,
{
    if 0 <= i < s.len() && is_digit_char(s[i]) {
        spec_digits_end(s, i + 1)
    } else {
        i
    }
}

/// The value of the digit run in `[i, j)`, most significant first.
pub open spec fn spec_digits_val(s: Seq<char>, i: int, j: int) -> int
    decreases j - i,
{
    if i >= j {
        0
    } else {
        spec_digits_val(s, i, j - 1) * 10 + digit_val(s[j - 1])
    }
}

/// A JSON integer: optional minus sign, then digits without a leading
/// zero, at most ten of them (enough for every 32-bit value).
pub open spec fn spec_parse_number(s: Seq<char>, i: int) -> Option<(int, int)> {
    let j = spec_skip_ws(s, i);
    let neg = j < s.len() && s[j] == '-';
    let d0 = if neg {
        j + 1
    } else {
        j
    };
    let k = spec_digits_end(s, d0);
    if k == d0 {
        None
    } else if s[d0] == '0' && k > d0 + 1 {
        None
    } else if k - d0 > 10 {
        None
    } else if neg {
        Some((-spec_digits_val(s, d0, k), k))
    } else {
        Some((spec_digits_val(s, d0, k), k))
    }
}

pub open spec fn spec_parse_u32(s: Seq<char>, i: int) -> Option<(u32, int)> {
    match spec_parse_number(s, i) {
        Some((v, j)) => if 0 <= v <= 0xffff_ffff {
            Some((v as u32, j))
        } else {
            None
        },
        None => None,
    }
}

pub open spec fn spec_parse_opt_i32(s: Seq<char>, i: int) -> Option<(Option<i32>, int)> {
    match spec_parse_lit(s, i, "null"@) {
        Some(j) => Some((None, j)),
        None => match spec_parse_number(s, i) {
            Some((v, j)) => if -0x8000_0000 <= v <= 0x7fff_ffff {
                Some((Some(v as i32), j))
            } else {
                None
            },
            None => None,
        },
    }
}

pub open spec fn spec_parse_weekday(s: Seq<char>, i: int) -> Option<(Weekday, int)> {
    match spec_parse_lit(s, i, "\"Mon\""@) {
        Some(j) => Some((Weekday::Mon, j)),
        None => match spec_parse_lit(s, i, "\"Tue\""@) {
            Some(j) => Some((Weekday::Tue, j)),
            None => match spec_parse_lit(s, i, "\"Wed\""@) {
                Some(j) => Some((Weekday::Wed, j)),
                None => match spec_parse_lit(s, i, "\"Thu\""@) {
                    Some(j) => Some((Weekday::Thu, j)),
                    None => match spec_parse_lit(s, i, "\"Fri\""@) {
                        Some(j) => Some((Weekday::Fri, j)),
                        None => match spec_parse_lit(s, i, "\"Sat\""@) {
                            Some(j) => Some((Weekday::Sat, j)),
                            None => match spec_parse_lit(s, i, "\"Sun\""@) {
                                Some(j) => Some((Weekday::Sun, j)),
                                None => None,
                            },
                        },
                    },
                },
            },
        },
    }
}

pub open spec fn spec_parse_nth(s: Seq<char>, i: int) -> Option<(NthWeek, int)> {
    match spec_parse_lit(s, i, "\"First\""@) {
        Some(j) => Some((NthWeek::First, j)),
        None => match spec_parse_lit(s, i, "\"Second\""@) {
            Some(j) => Some((NthWeek::Second, j)),
            None => match spec_parse_lit(s, i, "\"Third\""@) {
                Some(j) => Some((NthWeek::Third, j)),
                None => match spec_parse_lit(s, i, "\"Fourth\""@) {
                    Some(j) => Some((NthWeek::Fourth, j)),
                    None => match spec_parse_lit(s, i, "\"Last\""@) {
                        Some(j) => Some((NthWeek::Last, j)),
                        None => None,
                    },
                },
            },
        },
    }
}

pub open spec fn spec_parse_half(s: Seq<char>, i: int) -> Option<(Option<HalfCheck>, int)> {
    match spec_parse_lit(s, i, "null"@) {
        Some(j) => Some((None, j)),
        None => match spec_parse_lit(s, i, "\"Before\""@) {
            Some(j) => Some((Some(HalfCheck::Before), j)),
            None => match spec_parse_lit(s, i, "\"After\""@) {
                Some(j) => Some((Some(HalfCheck::After), j)),
                None => None,
            },
        },
    }
}

/// A quoted `YYYY-MM-DD` date naming a real calendar day.
pub open spec fn spec_parse_date(s: Seq<char>, i: int) -> Option<(Date, int)> {
    let j = spec_skip_ws(s, i);
    if j + 12 <= s.len() && s[j] == '"' && is_digit_char(s[j + 1]) && is_digit_char(s[j + 2])
        && is_digit_char(s[j + 3]) && is_digit_char(s[j + 4]) && s[j + 5] == '-' && is_digit_char(
        s[j + 6],
    ) && is_digit_char(s[j + 7]) && s[j + 8] == '-' && is_digit_char(s[j + 9]) && is_digit_char(
        s[j + 10],
    ) && s[j + 11] == '"' {
        let y = spec_digits_val(s, j + 1, j + 5);
        let m = spec_digits_val(s, j + 6, j + 8);
        let d = spec_digits_val(s, j + 9, j + 11);
        if valid_ymd(y, m, d) {
            Some((Date { year: y as i32, month: m as u32, day: d as u32 }, j + 12))
        } else {
            None
        }
    } else {
        None
    }
}










/// The omissible tail fields shared by the movable-yearly and
/// nth-weekday objects: `first`, `last` and `half_check`, each either
/// present or absent, in declared order, followed by the closing brace.
#[verifier::opaque]
pub open spec fn spec_parse_opts3(s: Seq<char>, i: int) -> Option<
    ((Option<i32>, Option<i32>, Option<HalfCheck>), int),
> {
    match spec_parse_lit(s, i, "}"@) {
        Some(j) => Some(((None, None, None), j)),
        None => match spec_parse_lit(s, i, ","@) {
            None => None,
            Some(j1) => match spec_parse_lit(s, j1, "\"first\":"@) {
                Some(j2) => match spec_parse_opt_i32(s, j2) {
                    None => None,
                    Some((first, j3)) => spec_parse_opts3_first(s, j3, first),
                },
                None => match spec_parse_lit(s, j1, "\"last\":"@) {
                    Some(j2) => match spec_parse_opt_i32(s, j2) {
                        None => None,
                        Some((last, j3)) => spec_parse_opts3_last(s, j3, None, last),
                    },
                    None => match spec_parse_lit(s, j1, "\"half_check\":"@) {
                        None => None,
                        Some(j2) => match spec_parse_half(s, j2) {
                            None => None,
                            Some((half_check, j3)) => match spec_parse_lit(s, j3, "}"@) {
                                None => None,
                                Some(j4) => Some(((None, None, half_check), j4)),
                            },
                        },
                    },
                },
            },
        },
    }
}

/// The tail after a parsed `first` field.
#[verifier::opaque]
pub open spec fn spec_parse_opts3_first(s: Seq<char>, i: int, first: Option<i32>) -> Option<
    ((Option<i32>, Option<i32>, Option<HalfCheck>), int),
> {
    match spec_parse_lit(s, i, "}"@) {
        Some(j) => Some(((first, None, None), j)),
        None => match spec_parse_lit(s, i, ","@) {
            None => None,
            Some(j1) => match spec_parse_lit(s, j1, "\"last\":"@) {
                Some(j2) => match spec_parse_opt_i32(s, j2) {
                    None => None,
                    Some((last, j3)) => spec_parse_opts3_last(s, j3, first, last),
                },
                None => match spec_parse_lit(s, j1, "\"half_check\":"@) {
                    None => None,
                    Some(j2) => match spec_parse_half(s, j2) {
                        None => None,
                        Some((half_check, j3)) => match spec_parse_lit(s, j3, "}"@) {
                            None => None,
                            Some(j4) => Some(((first, None, half_check), j4)),
                        },
                    },
                },
            },
        },
    }
}

/// The tail after parsed `first` and `last` fields.
#[verifier::opaque]
pub open spec fn spec_parse_opts3_last(
    s: Seq<char>,
    i: int,
    first: Option<i32>,
    last: Option<i32>,
) -> Option<((Option<i32>, Option<i32>, Option<HalfCheck>), int)> {
    match spec_parse_lit(s, i, "}"@) {
        Some(j) => Some(((first, last, None), j)),
        None => match spec_parse_lit(s, i, ","@) {
            None => None,
            Some(j1) => match spec_parse_lit(s, j1, "\"half_check\":"@) {
                None => None,
                Some(j2) => match spec_parse_half(s, j2) {
                    None => None,
                    Some((half_check, j3)) => match spec_parse_lit(s, j3, "}"@) {
                        None => None,
                        Some(j4) => Some(((first, last, half_check), j4)),
                    },
                },
            },
        },
    }
}

/// The omissible tail fields of an Easter-relative object: `first` and
/// `last`, each either present or absent, in declared order, followed
/// by the closing brace.
#[verifier::opaque]
pub open spec fn spec_parse_opts2(s: Seq<char>, i: int) -> Option<
    ((Option<i32>, Option<i32>), int),
> {
    match spec_parse_lit(s, i, "}"@) {
        Some(j) => Some(((None, None), j)),
        None => match spec_parse_lit(s, i, ","@) {
            None => None,
            Some(j1) => match spec_parse_lit(s, j1, "\"first\":"@) {
                Some(j2) => match spec_parse_opt_i32(s, j2) {
                    None => None,
                    Some((first, j3)) => spec_parse_opts2_first(s, j3, first),
                },
                None => match spec_parse_lit(s, j1, "\"last\":"@) {
                    None => None,
                    Some(j2) => match spec_parse_opt_i32(s, j2) {
                        None => None,
                        Some((last, j3)) => match spec_parse_lit(s, j3, "}"@) {
                            None => None,
                            Some(j4) => Some(((None, last), j4)),
                        },
                    },
                },
            },
        },
    }
}

/// The tail after a parsed `first` field of an Easter-relative object.
#[verifier::opaque]
pub open spec fn spec_parse_opts2_first(s: Seq<char>, i: int, first: Option<i32>) -> Option<
    ((Option<i32>, Option<i32>), int),
> {
    match spec_parse_lit(s, i, "}"@) {
        Some(j) => Some(((first, None), j)),
        None => match spec_parse_lit(s, i, ","@) {
            None => None,
            Some(j1) => match spec_parse_lit(s, j1, "\"last\":"@) {
                None => None,
                Some(j2) => match spec_parse_opt_i32(s, j2) {
                    None => None,
                    Some((last, j3)) => match spec_parse_lit(s, j3, "}"@) {
                        None => None,
                        Some(j4) => Some(((first, last), j4)),
                    },
                },
            },
        },
    }
}

pub open spec fn spec_parse_mov_opts(s: Seq<char>, i: int, month: u32, day: u32) -> Option<
    (Holiday, int),
> {
    match spec_parse_opts3(s, i) {
        Some((o, j)) => Some(
            (
                Holiday::MovableYearlyDay {
                    month,
                    day,
                    first: o.0,
                    last: o.1,
                    half_check: o.2,
                },
                j,
            ),
        ),
        None => None,
    }
}

pub open spec fn spec_parse_mw_opts(
    s: Seq<char>,
    i: int,
    month: u32,
    weekday: Weekday,
    nth: NthWeek,
) -> Option<(Holiday, int)> {
    match spec_parse_opts3(s, i) {
        Some((o, j)) => Some(
            (
                Holiday::MonthWeekday {
                    month,
                    weekday,
                    nth,
                    first: o.0,
                    last: o.1,
                    half_check: o.2,
                },
                j,
            ),
        ),
        None => None,
    }
}

pub open spec fn spec_parse_eas_opts(s: Seq<char>, i: int, offset: i32) -> Option<(Holiday, int)> {
    match spec_parse_opts2(s, i) {
        Some((o, j)) => Some((Holiday::EasterOffset { offset, first: o.0, last: o.1 }, j)),
        None => None,
    }
}

#[verifier::opaque]
pub open spec fn spec_parse_mov_day(s: Seq<char>, i: int, month: u32) -> Option<(Holiday, int)> {
    match spec_parse_lit(s, i, ","@) {
        None => None,
        Some(j1) => match spec_parse_lit(s, j1, "\"day\":"@) {
            None => None,
            Some(j2) => match spec_parse_u32(s, j2) {
                None => None,
                Some((day, j3)) => spec_parse_mov_opts(s, j3, month, day),
            },
        },
    }
}

#[verifier::opaque]
pub open spec fn spec_parse_movable_fields(s: Seq<char>, i: int) -> Option<(Holiday, int)> {
    match spec_parse_lit(s, i, "{"@) {
        None => None,
        Some(j1) => match spec_parse_lit(s, j1, "\"month\":"@) {
            None => None,
            Some(j2) => match spec_parse_u32(s, j2) {
                None => None,
                Some((month, j3)) => spec_parse_mov_day(s, j3, month),
            },
        },
    }
}


#[verifier::opaque]
pub open spec fn spec_parse_easter_fields(s: Seq<char>, i: int) -> Option<(Holiday, int)> {
    match spec_parse_lit(s, i, "{"@) {
        None => None,
        Some(j1) => match spec_parse_lit(s, j1, "\"offset\":"@) {
            None => None,
            Some(j2) => match spec_parse_number(s, j2) {
                None => None,
                Some((off, j3)) => if !(-0x8000_0000 <= off <= 0x7fff_ffff) {
                    None
                } else {
                    spec_parse_eas_opts(s, j3, off as i32)
                },
            },
        },
    }
}



#[verifier::opaque]
pub open spec fn spec_parse_mw_kinds(s: Seq<char>, i: int, month: u32) -> Option<(Holiday, int)> {
    match spec_parse_lit(s, i, ","@) {
        None => None,
        Some(j1) => match spec_parse_lit(s, j1, "\"weekday\":"@) {
            None => None,
            Some(j2) => match spec_parse_weekday(s, j2) {
                None => None,
                Some((weekday, j3)) => match spec_parse_lit(s, j3, ","@) {
                    None => None,
                    Some(j4) => match spec_parse_lit(s, j4, "\"nth\":"@) {
                        None => None,
                        Some(j5) => match spec_parse_nth(s, j5) {
                            None => None,
                            Some((nth, j6)) => spec_parse_mw_opts(s, j6, month, weekday, nth),
                        },
                    },
                },
            },
        },
    }
}

#[verifier::opaque]
pub open spec fn spec_parse_mw_fields(s: Seq<char>, i: int) -> Option<(Holiday, int)> {
    match spec_parse_lit(s, i, "{"@) {
        None => None,
        Some(j1) => match spec_parse_lit(s, j1, "\"month\":"@) {
            None => None,
            Some(j2) => match spec_parse_u32(s, j2) {
                None => None,
                Some((month, j3)) => spec_parse_mw_kinds(s, j3, month),
            },
        },
    }
}

/// One rule: a single-key object whose key names the variant.
#[verifier::opaque]
pub open spec fn spec_parse_rule(s: Seq<char>, i: int) -> Option<(Holiday, int)> {
    match spec_parse_lit(s, i, "{"@) {
        None => None,
        Some(j) => match spec_parse_lit(s, j, "\"WeekDay\":"@) {
            Some(j2) => match spec_parse_weekday(s, j2) {
                None => None,
                Some((w, j3)) => match spec_parse_lit(s, j3, "}"@) {
                    None => None,
                    Some(j4) => Some((Holiday::WeekDay(w), j4)),
                },
            },
            None => match spec_parse_lit(s, j, "\"SingularDay\":"@) {
                Some(j2) => match spec_parse_date(s, j2) {
                    None => None,
                    Some((d, j3)) => match spec_parse_lit(s, j3, "}"@) {
                        None => None,
                        Some(j4) => Some((Holiday::SingularDay(d), j4)),
                    },
                },
                None => match spec_parse_lit(s, j, "\"MovableYearlyDay\":"@) {
                    Some(j2) => match spec_parse_movable_fields(s, j2) {
                        None => None,
                        Some((r, j3)) => match spec_parse_lit(s, j3, "}"@) {
                            None => None,
                            Some(j4) => Some((r, j4)),
                        },
                    },
                    None => match spec_parse_lit(s, j, "\"EasterOffset\":"@) {
                        Some(j2) => match spec_parse_easter_fields(s, j2) {
                            None => None,
                            Some((r, j3)) => match spec_parse_lit(s, j3, "}"@) {
                                None => None,
                                Some(j4) => Some((r, j4)),
                            },
                        },
                        None => match spec_parse_lit(s, j, "\"MonthWeekday\":"@) {
                            Some(j2) => match spec_parse_mw_fields(s, j2) {
                                None => None,
                                Some((r, j3)) => match spec_parse_lit(s, j3, "}"@) {
                                    None => None,
                                    Some(j4) => Some((r, j4)),
                                },
                            },
                            None => None,
                        },
                    },
                },
            },
        },
    }
}

proof fn lemma_skip_ws_ge(s: Seq<char>, i: int)
    ensures
        spec_skip_ws(s, i) >= i,
    decreases s.len() - i,
{
    if 0 <= i < s.len() && is_ws_char(s[i]) {
        lemma_skip_ws_ge(s, i + 1);
    }
}

proof fn lemma_digits_end_ge(s: Seq<char>, i: int)
    ensures
        spec_digits_end(s, i) >= i,
    decreases s.len() - i,
{
    if 0 <= i < s.len() && is_digit_char(s[i]) {
        lemma_digits_end_ge(s, i + 1);
    }
}

proof fn lemma_parse_lit_ge(s: Seq<char>, i: int, lit: Seq<char>)
    ensures
        spec_parse_lit(s, i, lit) matches Some(j) ==> j >= i + lit.len(),
{
    lemma_skip_ws_ge(s, i);
}

proof fn lemma_parse_number_ge(s: Seq<char>, i: int)
    ensures
        spec_parse_number(s, i) matches Some(p) ==> p.1 > i,
{
    lemma_skip_ws_ge(s, i);
    let j = spec_skip_ws(s, i);
    let neg = j < s.len() && s[j] == '-';
    let d0 = if neg {
        j + 1
    } else {
        j
    };
    lemma_digits_end_ge(s, d0);
}

proof fn lemma_parse_u32_ge(s: Seq<char>, i: int)
    ensures
        spec_parse_u32(s, i) matches Some(p) ==> p.1 > i,
{
    lemma_parse_number_ge(s, i);
}

proof fn lemma_parse_opt_i32_ge(s: Seq<char>, i: int)
    ensures
        spec_parse_opt_i32(s, i) matches Some(p) ==> p.1 >= i,
{
    lemma_parse_lit_ge(s, i, "null"@);
    lemma_parse_number_ge(s, i);
}

proof fn lemma_parse_weekday_ge(s: Seq<char>, i: int)
    ensures
        spec_parse_weekday(s, i) matches Some(p) ==> p.1 >= i,
{
    lemma_parse_lit_ge(s, i, "\"Mon\""@);
    lemma_parse_lit_ge(s, i, "\"Tue\""@);
    lemma_parse_lit_ge(s, i, "\"Wed\""@);
    lemma_parse_lit_ge(s, i, "\"Thu\""@);
    lemma_parse_lit_ge(s, i, "\"Fri\""@);
    lemma_parse_lit_ge(s, i, "\"Sat\""@);
    lemma_parse_lit_ge(s, i, "\"Sun\""@);
}

proof fn lemma_parse_nth_ge(s: Seq<char>, i: int)
    ensures
        spec_parse_nth(s, i) matches Some(p) ==> p.1 >= i,
{
    lemma_parse_lit_ge(s, i, "\"First\""@);
    lemma_parse_lit_ge(s, i, "\"Second\""@);
    lemma_parse_lit_ge(s, i, "\"Third\""@);
    lemma_parse_lit_ge(s, i, "\"Fourth\""@);
    lemma_parse_lit_ge(s, i, "\"Last\""@);
}

proof fn lemma_parse_half_ge(s: Seq<char>, i: int)
    ensures
        spec_parse_half(s, i) matches Some(p) ==> p.1 >= i,
{
    lemma_parse_lit_ge(s, i, "null"@);
    lemma_parse_lit_ge(s, i, "\"Before\""@);
    lemma_parse_lit_ge(s, i, "\"After\""@);
}

proof fn lemma_parse_date_ge(s: Seq<char>, i: int)
    ensures
        spec_parse_date(s, i) matches Some(p) ==> p.1 >= i,
{
    lemma_skip_ws_ge(s, i);
}

proof fn lemma_parse_opts3_last_ge(s: Seq<char>, i: int, first: Option<i32>, last: Option<i32>)
    ensures
        spec_parse_opts3_last(s, i, first, last) matches Some(p) ==> p.1 >= i,
{
    reveal(spec_parse_opts3_last);
    lemma_parse_lit_ge(s, i, "}"@);
    if let Some(j1) = spec_parse_lit(s, i, ","@) {
        lemma_parse_lit_ge(s, i, ","@);
        if let Some(j2) = spec_parse_lit(s, j1, "\"half_check\":"@) {
            lemma_parse_lit_ge(s, j1, "\"half_check\":"@);
            if let Some((_, j3)) = spec_parse_half(s, j2) {
                lemma_parse_half_ge(s, j2);
                lemma_parse_lit_ge(s, j3, "}"@);
            }
        }
    }
}

proof fn lemma_parse_opts3_first_ge(s: Seq<char>, i: int, first: Option<i32>)
    ensures
        spec_parse_opts3_first(s, i, first) matches Some(p) ==> p.1 >= i,
{
    reveal(spec_parse_opts3_first);
    lemma_parse_lit_ge(s, i, "}"@);
    if let Some(j1) = spec_parse_lit(s, i, ","@) {
        lemma_parse_lit_ge(s, i, ","@);
        if let Some(j2) = spec_parse_lit(s, j1, "\"last\":"@) {
            lemma_parse_lit_ge(s, j1, "\"last\":"@);
            if let Some((last, j3)) = spec_parse_opt_i32(s, j2) {
                lemma_parse_opt_i32_ge(s, j2);
                lemma_parse_opts3_last_ge(s, j3, first, last);
            }
        } else {
            if let Some(j2) = spec_parse_lit(s, j1, "\"half_check\":"@) {
                lemma_parse_lit_ge(s, j1, "\"half_check\":"@);
                if let Some((_, j3)) = spec_parse_half(s, j2) {
                    lemma_parse_half_ge(s, j2);
                    lemma_parse_lit_ge(s, j3, "}"@);
                }
            }
        }
    }
}

proof fn lemma_parse_opts3_ge(s: Seq<char>, i: int)
    ensures
        spec_parse_opts3(s, i) matches Some(p) ==> p.1 >= i,
{
    reveal(spec_parse_opts3);
    lemma_parse_lit_ge(s, i, "}"@);
    if let Some(j1) = spec_parse_lit(s, i, ","@) {
        lemma_parse_lit_ge(s, i, ","@);
        if let Some(j2) = spec_parse_lit(s, j1, "\"first\":"@) {
            lemma_parse_lit_ge(s, j1, "\"first\":"@);
            if let Some((first, j3)) = spec_parse_opt_i32(s, j2) {
                lemma_parse_opt_i32_ge(s, j2);
                lemma_parse_opts3_first_ge(s, j3, first);
            }
        } else {
            if let Some(j2) = spec_parse_lit(s, j1, "\"last\":"@) {
                lemma_parse_lit_ge(s, j1, "\"last\":"@);
                if let Some((last, j3)) = spec_parse_opt_i32(s, j2) {
                    lemma_parse_opt_i32_ge(s, j2);
                    lemma_parse_opts3_last_ge(s, j3, None, last);
                }
            } else {
                if let Some(j2) = spec_parse_lit(s, j1, "\"half_check\":"@) {
                    lemma_parse_lit_ge(s, j1, "\"half_check\":"@);
                    if let Some((_, j3)) = spec_parse_half(s, j2) {
                        lemma_parse_half_ge(s, j2);
                        lemma_parse_lit_ge(s, j3, "}"@);
                    }
                }
            }
        }
    }
}

proof fn lemma_parse_opts2_first_ge(s: Seq<char>, i: int, first: Option<i32>)
    ensures
        spec_parse_opts2_first(s, i, first) matches Some(p) ==> p.1 >= i,
{
    reveal(spec_parse_opts2_first);
    lemma_parse_lit_ge(s, i, "}"@);
    if let Some(j1) = spec_parse_lit(s, i, ","@) {
        lemma_parse_lit_ge(s, i, ","@);
        if let Some(j2) = spec_parse_lit(s, j1, "\"last\":"@) {
            lemma_parse_lit_ge(s, j1, "\"last\":"@);
            if let Some((_, j3)) = spec_parse_opt_i32(s, j2) {
                lemma_parse_opt_i32_ge(s, j2);
                lemma_parse_lit_ge(s, j3, "}"@);
            }
        }
    }
}

proof fn lemma_parse_opts2_ge(s: Seq<char>, i: int)
    ensures
        spec_parse_opts2(s, i) matches Some(p) ==> p.1 >= i,
{
    reveal(spec_parse_opts2);
    lemma_parse_lit_ge(s, i, "}"@);
    if let Some(j1) = spec_parse_lit(s, i, ","@) {
        lemma_parse_lit_ge(s, i, ","@);
        if let Some(j2) = spec_parse_lit(s, j1, "\"first\":"@) {
            lemma_parse_lit_ge(s, j1, "\"first\":"@);
            if let Some((first, j3)) = spec_parse_opt_i32(s, j2) {
                lemma_parse_opt_i32_ge(s, j2);
                lemma_parse_opts2_first_ge(s, j3, first);
            }
        } else {
            if let Some(j2) = spec_parse_lit(s, j1, "\"last\":"@) {
                lemma_parse_lit_ge(s, j1, "\"last\":"@);
                if let Some((_, j3)) = spec_parse_opt_i32(s, j2) {
                    lemma_parse_opt_i32_ge(s, j2);
                    lemma_parse_lit_ge(s, j3, "}"@);
                }
            }
        }
    }
}

proof fn lemma_parse_movable_ge(s: Seq<char>, i: int)
    ensures
        spec_parse_movable_fields(s, i) matches Some(p) ==> p.1 >= i,
{
    reveal(spec_parse_movable_fields);
    reveal(spec_parse_mov_day);
    if let Some(j1) = spec_parse_lit(s, i, "{"@) {
        lemma_parse_lit_ge(s, i, "{"@);
        if let Some(j2) = spec_parse_lit(s, j1, "\"month\":"@) {
            lemma_parse_lit_ge(s, j1, "\"month\":"@);
            if let Some((_, j3)) = spec_parse_u32(s, j2) {
                lemma_parse_u32_ge(s, j2);
                if let Some(j4) = spec_parse_lit(s, j3, ","@) {
                    lemma_parse_lit_ge(s, j3, ","@);
                    if let Some(j5) = spec_parse_lit(s, j4, "\"day\":"@) {
                        lemma_parse_lit_ge(s, j4, "\"day\":"@);
                        if let Some((_, j6)) = spec_parse_u32(s, j5) {
                            lemma_parse_u32_ge(s, j5);
                            lemma_parse_opts3_ge(s, j6);
                        }
                    }
                }
            }
        }
    }
}

proof fn lemma_parse_easter_ge(s: Seq<char>, i: int)
    ensures
        spec_parse_easter_fields(s, i) matches Some(p) ==> p.1 >= i,
{
    reveal(spec_parse_easter_fields);
    if let Some(j1) = spec_parse_lit(s, i, "{"@) {
        lemma_parse_lit_ge(s, i, "{"@);
        if let Some(j2) = spec_parse_lit(s, j1, "\"offset\":"@) {
            lemma_parse_lit_ge(s, j1, "\"offset\":"@);
            if let Some((_, j3)) = spec_parse_number(s, j2) {
                lemma_parse_number_ge(s, j2);
                lemma_parse_opts2_ge(s, j3);
            }
        }
    }
}

proof fn lemma_parse_mw_ge(s: Seq<char>, i: int)
    ensures
        spec_parse_mw_fields(s, i) matches Some(p) ==> p.1 >= i,
{
    reveal(spec_parse_mw_fields);
    reveal(spec_parse_mw_kinds);
    if let Some(j1) = spec_parse_lit(s, i, "{"@) {
        lemma_parse_lit_ge(s, i, "{"@);
        if let Some(j2) = spec_parse_lit(s, j1, "\"month\":"@) {
            lemma_parse_lit_ge(s, j1, "\"month\":"@);
            if let Some((_, j3)) = spec_parse_u32(s, j2) {
                lemma_parse_u32_ge(s, j2);
                if let Some(j4) = spec_parse_lit(s, j3, ","@) {
                    lemma_parse_lit_ge(s, j3, ","@);
                    if let Some(j5) = spec_parse_lit(s, j4, "\"weekday\":"@) {
                        lemma_parse_lit_ge(s, j4, "\"weekday\":"@);
                        if let Some((_, j6)) = spec_parse_weekday(s, j5) {
                            lemma_parse_weekday_ge(s, j5);
                            if let Some(j7) = spec_parse_lit(s, j6, ","@) {
                                lemma_parse_lit_ge(s, j6, ","@);
                                if let Some(j8) = spec_parse_lit(s, j7, "\"nth\":"@) {
                                    lemma_parse_lit_ge(s, j7, "\"nth\":"@);
                                    if let Some((_, j9)) = spec_parse_nth(s, j8) {
                                        lemma_parse_nth_ge(s, j8);
                                        lemma_parse_opts3_ge(s, j9);
                                    }
                                }
                            }
                        }
                    }
                }
            }
        }
    }
}

proof fn lemma_parse_rule_advances(s: Seq<char>, i: int)
    ensures
        spec_parse_rule(s, i) matches Some(p) ==> p.1 > i,
{
    reveal(spec_parse_rule);
    reveal_strlit("{");
    if let Some(j) = spec_parse_lit(s, i, "{"@) {
        lemma_parse_lit_ge(s, i, "{"@);
        if let Some(j2) = spec_parse_lit(s, j, "\"WeekDay\":"@) {
            lemma_parse_lit_ge(s, j, "\"WeekDay\":"@);
            if let Some((_, j3)) = spec_parse_weekday(s, j2) {
                lemma_parse_weekday_ge(s, j2);
                lemma_parse_lit_ge(s, j3, "}"@);
            }
        } else {
            if let Some(j2) = spec_parse_lit(s, j, "\"SingularDay\":"@) {
                lemma_parse_lit_ge(s, j, "\"SingularDay\":"@);
                if let Some((_, j3)) = spec_parse_date(s, j2) {
                    lemma_parse_date_ge(s, j2);
                    lemma_parse_lit_ge(s, j3, "}"@);
                }
            } else {
                if let Some(j2) = spec_parse_lit(s, j, "\"MovableYearlyDay\":"@) {
                    lemma_parse_lit_ge(s, j, "\"MovableYearlyDay\":"@);
                    if let Some((_, j3)) = spec_parse_movable_fields(s, j2) {
                        lemma_parse_movable_ge(s, j2);
                        lemma_parse_lit_ge(s, j3, "}"@);
                    }
                } else {
                    if let Some(j2) = spec_parse_lit(s, j, "\"EasterOffset\":"@) {
                        lemma_parse_lit_ge(s, j, "\"EasterOffset\":"@);
                        if let Some((_, j3)) = spec_parse_easter_fields(s, j2) {
                            lemma_parse_easter_ge(s, j2);
                            lemma_parse_lit_ge(s, j3, "}"@);
                        }
                    } else {
                        if let Some(j2) = spec_parse_lit(s, j, "\"MonthWeekday\":"@) {
                            lemma_parse_lit_ge(s, j, "\"MonthWeekday\":"@);
                            if let Some((_, j3)) = spec_parse_mw_fields(s, j2) {
                                lemma_parse_mw_ge(s, j2);
                                lemma_parse_lit_ge(s, j3, "}"@);
                            }
                        }
                    }
                }
            }
        }
    }
}

/// The rules after the opening bracket of a non-empty array: one rule,
/// then either a comma and more rules, or the closing bracket.
#[verifier::opaque]
pub open spec fn spec_parse_rules_tail(s: Seq<char>, i: int) -> Option<(Seq<Holiday>, int)>
    decreases s.len() - i,
    via spec_parse_rules_tail_dec
{
    match spec_parse_rule(s, i) {
        None => None,
        Some((r, j)) => match spec_parse_lit(s, j, ","@) {
            Some(j2) => match spec_parse_rules_tail(s, j2) {
                None => None,
                Some((rest, j3)) => Some((seq![r] + rest, j3)),
            },
            None => match spec_parse_lit(s, j, "]"@) {
                Some(j2) => Some((seq![r], j2)),
                None => None,
            },
        },
    }
}

#[via_fn]
proof fn spec_parse_rules_tail_dec(s: Seq<char>, i: int) {
    lemma_parse_rule_advances(s, i);
    if let Some((_, j)) = spec_parse_rule(s, i) {
        lemma_parse_lit_ge(s, j, ","@);
    }
}

/// A full rule list: a JSON array of rules.
pub open spec fn spec_parse_rules(s: Seq<char>, i: int) -> Option<(Seq<Holiday>, int)> {
    match spec_parse_lit(s, i, "["@) {
        None => None,
        Some(j) => match spec_parse_lit(s, j, "]"@) {
            Some(j2) => Some((Seq::<Holiday>::empty(), j2)),
            None => spec_parse_rules_tail(s, j),
        },
    }
}

/// The rule list encoded by the whole input, if it is well-formed with
/// nothing but whitespace after the closing bracket.
pub open spec fn spec_decode_rules(s: Seq<char>) -> Option<Seq<Holiday>> {
    match spec_parse_rules(s, 0) {
        None => None,
        Some((rules, j)) => if spec_skip_ws(s, j) == s.len() {
            Some(rules)
        } else {
            None
        },
    }
}

/// Decoding failed: the input is not a well-formed rule list.
#[derive(Clone, Copy, Debug, PartialEq, Eq, Structural)]
pub struct DecodeError {
    pub pos: usize,
}

proof fn lemma_digits_end_region(s: Seq<char>, i: int)
    requires
        0 <= i <= s.len(),
    ensures
        i <= spec_digits_end(s, i) <= s.len(),
        forall|t: int| i <= t < spec_digits_end(s, i) ==> is_digit_char(#[trigger] s[t]),
        spec_digits_end(s, i) == s.len() || !is_digit_char(s[spec_digits_end(s, i)]),
    decreases s.len() - i,
{
    if i < s.len() && is_digit_char(s[i]) {
        lemma_digits_end_region(s, i + 1);
    }
}

spec fn pow10(e: int) -> int
    decreases e,
{
    if e <= 0 {
        1
    } else {
        10 * pow10(e - 1)
    }
}

proof fn lemma_digits_val_bound(s: Seq<char>, i: int, j: int)
    requires
        i <= j,
        forall|t: int| i <= t < j ==> is_digit_char(#[trigger] s[t]),
    ensures
        0 <= spec_digits_val(s, i, j) < pow10(j - i),
    decreases j - i,
{
    if i < j {
        lemma_digits_val_bound(s, i, j - 1);
    }
}

fn skip_ws(s: &str, n: usize, i: usize) -> (r: usize)
    requires
        n == s@.len(),
        i <= n,
    ensures
        r == spec_skip_ws(s@, i as int),
        i <= r <= n,
{
    let mut j = i;
    loop
        invariant
            n == s@.len(),
            i <= j <= n,
            spec_skip_ws(s@, i as int) == spec_skip_ws(s@, j as int),
        ensures
            i <= j <= n,
            j == spec_skip_ws(s@, i as int),
        decreases n - j,
    {
        if j == n {
            break;
        }
        let c = s.get_char(j);
        if !(c == ' ' || c == '\n' || c == '\t' || c == '\r') {
            break;
        }
        j = j + 1;
    }
    j
}

fn parse_lit(s: &str, n: usize, i: usize, lit: &str) -> (r: Option<usize>)
    requires
        n == s@.len(),
        i <= n,
    ensures
        match r {
            Some(j) => spec_parse_lit(s@, i as int, lit@) == Some(j as int) && i <= j <= n,
            None => spec_parse_lit(s@, i as int, lit@) is None,
        },
{
    let j = skip_ws(s, n, i);
    let m = lit.unicode_len();
    if n - j < m {
        return None;
    }
    let mut k: usize = 0;
    loop
        invariant
            n == s@.len(),
            m == lit@.len(),
            j + m <= n,
            0 <= k <= m,
            forall|t: int| 0 <= t < k ==> s@[j + t] == lit@[t],
        ensures
            0 <= k <= m,
            forall|t: int| 0 <= t < k ==> s@[j + t] == lit@[t],
            k == m || s@[j + k] != lit@[k as int],
        decreases m - k,
    {
        if k == m {
            break;
        }
        if s.get_char(j + k) != lit.get_char(k) {
            break;
        }
        k = k + 1;
    }
    if k == m {
        proof {
            assert(s@.subrange(j as int, j as int + m as int) =~= lit@);
        }
        Some(j + m)
    } else {
        proof {
            assert(s@.subrange(j as int, j as int + m as int)[k as int] != lit@[k as int]);
        }
        None
    }
}

#[verifier::rlimit(60)]
fn parse_number(s: &str, n: usize, i: usize) -> (r: Option<(i64, usize)>)
    requires
        n == s@.len(),
        i <= n,
    ensures
        match r {
            Some(p) => spec_parse_number(s@, i as int) == Some((p.0 as int, p.1 as int)) && p.1
                <= n,
            None => spec_parse_number(s@, i as int) is None,
        },
{
    let j = skip_ws(s, n, i);
    let neg = j < n && s.get_char(j) == '-';
    let d0 = if neg {
        j + 1
    } else {
        j
    };
    proof {
        lemma_digits_end_region(s@, d0 as int);
    }
    let mut k = d0;
    loop
        invariant
            n == s@.len(),
            d0 <= k <= n,
            spec_digits_end(s@, d0 as int) == spec_digits_end(s@, k as int),
        ensures
            d0 <= k <= n,
            k == spec_digits_end(s@, d0 as int),
        decreases n - k,
    {
        if k == n {
            break;
        }
        let c = s.get_char(k);
        if !('0' <= c && c <= '9') {
            break;
        }
        k = k + 1;
    }
    if k == d0 {
        return None;
    }
    if s.get_char(d0) == '0' && k > d0 + 1 {
        return None;
    }
    if k - d0 > 10 {
        return None;
    }
    proof {
        lemma_digits_end_region(s@, d0 as int);
        reveal_with_fuel(pow10, 12);
    }
    let mut acc: u64 = 0;
    let mut t = d0;
    while t < k
        invariant
            n == s@.len(),
            d0 <= t <= k <= n,
            k - d0 <= 10,
            forall|u: int| d0 <= u < k ==> is_digit_char(#[trigger] s@[u]),
            acc == spec_digits_val(s@, d0 as int, t as int),
            acc < pow10(t as int - d0 as int),
            pow10(10) == 10_000_000_000,
            forall|e: int| 0 <= e < 10 ==> #[trigger] pow10(e) <= pow10(9),
            pow10(9) == 1_000_000_000,
        decreases k - t,
    {
        let c = s.get_char(t);
        let d = (c as u32 - 48) as u64;
        proof {
            assert(is_digit_char(s@[t as int]));
            assert(d == digit_val(s@[t as int]));
            assert(acc < pow10(9));
        }
        acc = acc * 10 + d;
        t = t + 1;
    }
    if neg {
        Some((-(acc as i64), k))
    } else {
        Some((acc as i64, k))
    }
}

fn parse_u32_tok(s: &str, n: usize, i: usize) -> (r: Option<(u32, usize)>)
    requires
        n == s@.len(),
        i <= n,
    ensures
        match r {
            Some(p) => spec_parse_u32(s@, i as int) == Some((p.0, p.1 as int)) && p.1 <= n,
            None => spec_parse_u32(s@, i as int) is None,
        },
{
    match parse_number(s, n, i) {
        None => None,
        Some((v, j)) => if 0 <= v && v <= 0xffff_ffff {
            Some((v as u32, j))
        } else {
            None
        },
    }
}

fn parse_opt_i32_tok(s: &str, n: usize, i: usize) -> (r: Option<(Option<i32>, usize)>)
    requires
        n == s@.len(),
        i <= n,
    ensures
        match r {
            Some(p) => spec_parse_opt_i32(s@, i as int) == Some((p.0, p.1 as int)) && p.1 <= n,
            None => spec_parse_opt_i32(s@, i as int) is None,
        },
{
    match parse_lit(s, n, i, "null") {
        Some(j) => Some((None, j)),
        None => match parse_number(s, n, i) {
            Some((v, j)) => if -0x8000_0000 <= v && v <= 0x7fff_ffff {
                Some((Some(v as i32), j))
            } else {
                None
            },
            None => None,
        },
    }
}

fn parse_weekday_tok(s: &str, n: usize, i: usize) -> (r: Option<(Weekday, usize)>)
    requires
        n == s@.len(),
        i <= n,
    ensures
        match r {
            Some(p) => spec_parse_weekday(s@, i as int) == Some((p.0, p.1 as int)) && p.1 <= n,
            None => spec_parse_weekday(s@, i as int) is None,
        },
{
    if let Some(j) = parse_lit(s, n, i, "\"Mon\"") {
        return Some((Weekday::Mon, j));
    }
    if let Some(j) = parse_lit(s, n, i, "\"Tue\"") {
        return Some((Weekday::Tue, j));
    }
    if let Some(j) = parse_lit(s, n, i, "\"Wed\"") {
        return Some((Weekday::Wed, j));
    }
    if let Some(j) = parse_lit(s, n, i, "\"Thu\"") {
        return Some((Weekday::Thu, j));
    }
    if let Some(j) = parse_lit(s, n, i, "\"Fri\"") {
        return Some((Weekday::Fri, j));
    }
    if let Some(j) = parse_lit(s, n, i, "\"Sat\"") {
        return Some((Weekday::Sat, j));
    }
    if let Some(j) = parse_lit(s, n, i, "\"Sun\"") {
        return Some((Weekday::Sun, j));
    }
    None
}

fn parse_nth_tok(s: &str, n: usize, i: usize) -> (r: Option<(NthWeek, usize)>)
    requires
        n == s@.len(),
        i <= n,
    ensures
        match r {
            Some(p) => spec_parse_nth(s@, i as int) == Some((p.0, p.1 as int)) && p.1 <= n,
            None => spec_parse_nth(s@, i as int) is None,
        },
{
    if let Some(j) = parse_lit(s, n, i, "\"First\"") {
        return Some((NthWeek::First, j));
    }
    if let Some(j) = parse_lit(s, n, i, "\"Second\"") {
        return Some((NthWeek::Second, j));
    }
    if let Some(j) = parse_lit(s, n, i, "\"Third\"") {
        return Some((NthWeek::Third, j));
    }
    if let Some(j) = parse_lit(s, n, i, "\"Fourth\"") {
        return Some((NthWeek::Fourth, j));
    }
    if let Some(j) = parse_lit(s, n, i, "\"Last\"") {
        return Some((NthWeek::Last, j));
    }
    None
}

fn parse_half_tok(s: &str, n: usize, i: usize) -> (r: Option<(Option<HalfCheck>, usize)>)
    requires
        n == s@.len(),
        i <= n,
    ensures
        match r {
            Some(p) => spec_parse_half(s@, i as int) == Some((p.0, p.1 as int)) && p.1 <= n,
            None => spec_parse_half(s@, i as int) is None,
        },
{
    if let Some(j) = parse_lit(s, n, i, "null") {
        return Some((None, j));
    }
    if let Some(j) = parse_lit(s, n, i, "\"Before\"") {
        return Some((Some(HalfCheck::Before), j));
    }
    if let Some(j) = parse_lit(s, n, i, "\"After\"") {
        return Some((Some(HalfCheck::After), j));
    }
    None
}

#[verifier::rlimit(60)]
fn parse_date_tok(s: &str, n: usize, i: usize) -> (r: Option<(Date, usize)>)
    requires
        n == s@.len(),
        i <= n,
    ensures
        match r {
            Some(p) => spec_parse_date(s@, i as int) == Some((p.0, p.1 as int)) && p.1 <= n,
            None => spec_parse_date(s@, i as int) is None,
        },
{
    let j = skip_ws(s, n, i);
    if n - j < 12 {
        return None;
    }
    let q0 = s.get_char(j);
    let y1 = s.get_char(j + 1);
    let y2 = s.get_char(j + 2);
    let y3 = s.get_char(j + 3);
    let y4 = s.get_char(j + 4);
    let s1 = s.get_char(j + 5);
    let m1 = s.get_char(j + 6);
    let m2 = s.get_char(j + 7);
    let s2 = s.get_char(j + 8);
    let d1 = s.get_char(j + 9);
    let d2 = s.get_char(j + 10);
    let q1 = s.get_char(j + 11);
    let digits_ok = ('0' <= y1 && y1 <= '9') && ('0' <= y2 && y2 <= '9') && ('0' <= y3 && y3
        <= '9') && ('0' <= y4 && y4 <= '9') && ('0' <= m1 && m1 <= '9') && ('0' <= m2 && m2 <= '9')
        && ('0' <= d1 && d1 <= '9') && ('0' <= d2 && d2 <= '9');
    if !(q0 == '"' && digits_ok && s1 == '-' && s2 == '-' && q1 == '"') {
        return None;
    }
    let y = ((y1 as u32 - 48) * 1000) + ((y2 as u32 - 48) * 100) + ((y3 as u32 - 48) * 10) + (
    y4 as u32 - 48);
    let m = ((m1 as u32 - 48) * 10) + (m2 as u32 - 48);
    let d = ((d1 as u32 - 48) * 10) + (d2 as u32 - 48);
    proof {
        reveal_with_fuel(spec_digits_val, 6);
        assert(spec_digits_val(s@, j as int + 1, j as int + 5) == y);
        assert(spec_digits_val(s@, j as int + 6, j as int + 8) == m);
        assert(spec_digits_val(s@, j as int + 9, j as int + 11) == d);
    }
    let mut ok = y >= 1 && y <= 9999 && m >= 1 && m <= 12 && d >= 1;
    if ok {
        ok = d <= crate::date::last_day_of_month(y as i32, m);
    }
    if !ok {
        return None;
    }
    Some((Date { year: y as i32, month: m, day: d }, j + 12))
}

fn parse_opts3_last(s: &str, n: usize, i: usize, first: Option<i32>, last: Option<i32>) -> (r:
    Option<((Option<i32>, Option<i32>, Option<HalfCheck>), usize)>)
    requires
        n == s@.len(),
        i <= n,
    ensures
        match r {
            Some(p) => spec_parse_opts3_last(s@, i as int, first, last) == Some((p.0, p.1 as int))
                && p.1 <= n,
            None => spec_parse_opts3_last(s@, i as int, first, last) is None,
        },
{
    proof {
        reveal(spec_parse_opts3_last);
    }
    if let Some(j) = parse_lit(s, n, i, "}") {
        return Some(((first, last, None), j));
    }
    let j1 = match parse_lit(s, n, i, ",") {
        None => {
            return None;
        },
        Some(j) => j,
    };
    let j2 = match parse_lit(s, n, j1, "\"half_check\":") {
        None => {
            return None;
        },
        Some(j) => j,
    };
    let (half_check, j3) = match parse_half_tok(s, n, j2) {
        None => {
            return None;
        },
        Some(p) => p,
    };
    let j4 = match parse_lit(s, n, j3, "}") {
        None => {
            return None;
        },
        Some(j) => j,
    };
    Some(((first, last, half_check), j4))
}

fn parse_opts3_first(s: &str, n: usize, i: usize, first: Option<i32>) -> (r: Option<((Option<i32>, Option<i32>, Option<HalfCheck>), usize)>)
    requires
        n == s@.len(),
        i <= n,
    ensures
        match r {
            Some(p) => spec_parse_opts3_first(s@, i as int, first) == Some((p.0, p.1 as int))
                && p.1 <= n,
            None => spec_parse_opts3_first(s@, i as int, first) is None,
        },
{
    proof {
        reveal(spec_parse_opts3_first);
    }
    if let Some(j) = parse_lit(s, n, i, "}") {
        return Some(((first, None, None), j));
    }
    let j1 = match parse_lit(s, n, i, ",") {
        None => {
            return None;
        },
        Some(j) => j,
    };
    if let Some(j2) = parse_lit(s, n, j1, "\"last\":") {
        let (last, j3) = match parse_opt_i32_tok(s, n, j2) {
            None => {
                return None;
            },
            Some(p) => p,
        };
        return parse_opts3_last(s, n, j3, first, last);
    }
    let j2 = match parse_lit(s, n, j1, "\"half_check\":") {
        None => {
            return None;
        },
        Some(j) => j,
    };
    let (half_check, j3) = match parse_half_tok(s, n, j2) {
        None => {
            return None;
        },
        Some(p) => p,
    };
    let j4 = match parse_lit(s, n, j3, "}") {
        None => {
            return None;
        },
        Some(j) => j,
    };
    Some(((first, None, half_check), j4))
}

fn parse_opts3(s: &str, n: usize, i: usize) -> (r: Option<((Option<i32>, Option<i32>, Option<HalfCheck>), usize)>)
    requires
        n == s@.len(),
        i <= n,
    ensures
        match r {
            Some(p) => spec_parse_opts3(s@, i as int) == Some((p.0, p.1 as int)) && p.1 <= n,
            None => spec_parse_opts3(s@, i as int) is None,
        },
{
    proof {
        reveal(spec_parse_opts3);
    }
    if let Some(j) = parse_lit(s, n, i, "}") {
        return Some(((None, None, None), j));
    }
    let j1 = match parse_lit(s, n, i, ",") {
        None => {
            return None;
        },
        Some(j) => j,
    };
    if let Some(j2) = parse_lit(s, n, j1, "\"first\":") {
        let (first, j3) = match parse_opt_i32_tok(s, n, j2) {
            None => {
                return None;
            },
            Some(p) => p,
        };
        return parse_opts3_first(s, n, j3, first);
    }
    if let Some(j2) = parse_lit(s, n, j1, "\"last\":") {
        let (last, j3) = match parse_opt_i32_tok(s, n, j2) {
            None => {
                return None;
            },
            Some(p) => p,
        };
        return parse_opts3_last(s, n, j3, None, last);
    }
    let j2 = match parse_lit(s, n, j1, "\"half_check\":") {
        None => {
            return None;
        },
        Some(j) => j,
    };
    let (half_check, j3) = match parse_half_tok(s, n, j2) {
        None => {
            return None;
        },
        Some(p) => p,
    };
    let j4 = match parse_lit(s, n, j3, "}") {
        None => {
            return None;
        },
        Some(j) => j,
    };
    Some(((None, None, half_check), j4))
}

fn parse_opts2_first(s: &str, n: usize, i: usize, first: Option<i32>) -> (r: Option<((Option<i32>, Option<i32>), usize)>)
    requires
        n == s@.len(),
        i <= n,
    ensures
        match r {
            Some(p) => spec_parse_opts2_first(s@, i as int, first) == Some((p.0, p.1 as int))
                && p.1 <= n,
            None => spec_parse_opts2_first(s@, i as int, first) is None,
        },
{
    proof {
        reveal(spec_parse_opts2_first);
    }
    if let Some(j) = parse_lit(s, n, i, "}") {
        return Some(((first, None), j));
    }
    let j1 = match parse_lit(s, n, i, ",") {
        None => {
            return None;
        },
        Some(j) => j,
    };
    let j2 = match parse_lit(s, n, j1, "\"last\":") {
        None => {
            return None;
        },
        Some(j) => j,
    };
    let (last, j3) = match parse_opt_i32_tok(s, n, j2) {
        None => {
            return None;
        },
        Some(p) => p,
    };
    let j4 = match parse_lit(s, n, j3, "}") {
        None => {
            return None;
        },
        Some(j) => j,
    };
    Some(((first, last), j4))
}

fn parse_opts2(s: &str, n: usize, i: usize) -> (r: Option<((Option<i32>, Option<i32>), usize)>)
    requires
        n == s@.len(),
        i <= n,
    ensures
        match r {
            Some(p) => spec_parse_opts2(s@, i as int) == Some((p.0, p.1 as int)) && p.1 <= n,
            None => spec_parse_opts2(s@, i as int) is None,
        },
{
    proof {
        reveal(spec_parse_opts2);
    }
    if let Some(j) = parse_lit(s, n, i, "}") {
        return Some(((None, None), j));
    }
    let j1 = match parse_lit(s, n, i, ",") {
        None => {
            return None;
        },
        Some(j) => j,
    };
    if let Some(j2) = parse_lit(s, n, j1, "\"first\":") {
        let (first, j3) = match parse_opt_i32_tok(s, n, j2) {
            None => {
                return None;
            },
            Some(p) => p,
        };
        return parse_opts2_first(s, n, j3, first);
    }
    let j2 = match parse_lit(s, n, j1, "\"last\":") {
        None => {
            return None;
        },
        Some(j) => j,
    };
    let (last, j3) = match parse_opt_i32_tok(s, n, j2) {
        None => {
            return None;
        },
        Some(p) => p,
    };
    let j4 = match parse_lit(s, n, j3, "}") {
        None => {
            return None;
        },
        Some(j) => j,
    };
    Some(((None, last), j4))
}

#[verifier::rlimit(100)]
fn parse_movable_fields(s: &str, n: usize, i: usize) -> (r: Option<(Holiday, usize)>)
    requires
        n == s@.len(),
        i <= n,
    ensures
        match r {
            Some(p) => spec_parse_movable_fields(s@, i as int) == Some((p.0, p.1 as int)) && p.1
                <= n,
            None => spec_parse_movable_fields(s@, i as int) is None,
        },
{
    proof {
        reveal(spec_parse_movable_fields);
        reveal(spec_parse_mov_day);
    }
    let j1 = match parse_lit(s, n, i, "{") {
        None => {
            return None;
        },
        Some(j) => j,
    };
    let j2 = match parse_lit(s, n, j1, "\"month\":") {
        None => {
            return None;
        },
        Some(j) => j,
    };
    let (month, j3) = match parse_u32_tok(s, n, j2) {
        None => {
            return None;
        },
        Some(p) => p,
    };
    let j4 = match parse_lit(s, n, j3, ",") {
        None => {
            return None;
        },
        Some(j) => j,
    };
    let j5 = match parse_lit(s, n, j4, "\"day\":") {
        None => {
            return None;
        },
        Some(j) => j,
    };
    let (day, j6) = match parse_u32_tok(s, n, j5) {
        None => {
            return None;
        },
        Some(p) => p,
    };
    match parse_opts3(s, n, j6) {
        None => None,
        Some((o, j)) => Some(
            (
                Holiday::MovableYearlyDay {
                    month,
                    day,
                    first: o.0,
                    last: o.1,
                    half_check: o.2,
                },
                j,
            ),
        ),
    }
}
#[verifier::rlimit(100)]
fn parse_easter_fields(s: &str, n: usize, i: usize) -> (r: Option<(Holiday, usize)>)
    requires
        n == s@.len(),
        i <= n,
    ensures
        match r {
            Some(p) => spec_parse_easter_fields(s@, i as int) == Some((p.0, p.1 as int)) && p.1
                <= n,
            None => spec_parse_easter_fields(s@, i as int) is None,
        },
{
    proof {
        reveal(spec_parse_easter_fields);
    }
    let j1 = match parse_lit(s, n, i, "{") {
        None => {
            return None;
        },
        Some(j) => j,
    };
    let j2 = match parse_lit(s, n, j1, "\"offset\":") {
        None => {
            return None;
        },
        Some(j) => j,
    };
    let (off, j3) = match parse_number(s, n, j2) {
        None => {
            return None;
        },
        Some(p) => p,
    };
    if !(-0x8000_0000 <= off && off <= 0x7fff_ffff) {
        return None;
    }
    match parse_opts2(s, n, j3) {
        None => None,
        Some((o, j)) => Some(
            (Holiday::EasterOffset { offset: off as i32, first: o.0, last: o.1 }, j),
        ),
    }
}
#[verifier::rlimit(100)]
fn parse_mw_fields(s: &str, n: usize, i: usize) -> (r: Option<(Holiday, usize)>)
    requires
        n == s@.len(),
        i <= n,
    ensures
        match r {
            Some(p) => spec_parse_mw_fields(s@, i as int) == Some((p.0, p.1 as int)) && p.1 <= n,
            None => spec_parse_mw_fields(s@, i as int) is None,
        },
{
    proof {
        reveal(spec_parse_mw_fields);
        reveal(spec_parse_mw_kinds);
    }
    let j1 = match parse_lit(s, n, i, "{") {
        None => {
            return None;
        },
        Some(j) => j,
    };
    let j2 = match parse_lit(s, n, j1, "\"month\":") {
        None => {
            return None;
        },
        Some(j) => j,
    };
    let (month, j3) = match parse_u32_tok(s, n, j2) {
        None => {
            return None;
        },
        Some(p) => p,
    };
    let j4 = match parse_lit(s, n, j3, ",") {
        None => {
            return None;
        },
        Some(j) => j,
    };
    let j5 = match parse_lit(s, n, j4, "\"weekday\":") {
        None => {
            return None;
        },
        Some(j) => j,
    };
    let (weekday, j6) = match parse_weekday_tok(s, n, j5) {
        None => {
            return None;
        },
        Some(p) => p,
    };
    let j7 = match parse_lit(s, n, j6, ",") {
        None => {
            return None;
        },
        Some(j) => j,
    };
    let j8 = match parse_lit(s, n, j7, "\"nth\":") {
        None => {
            return None;
        },
        Some(j) => j,
    };
    let (nth, j9) = match parse_nth_tok(s, n, j8) {
        None => {
            return None;
        },
        Some(p) => p,
    };
    match parse_opts3(s, n, j9) {
        None => None,
        Some((o, j)) => Some(
            (
                Holiday::MonthWeekday {
                    month,
                    weekday,
                    nth,
                    first: o.0,
                    last: o.1,
                    half_check: o.2,
                },
                j,
            ),
        ),
    }
}
#[verifier::rlimit(100)]
fn parse_rule(s: &str, n: usize, i: usize) -> (r: Option<(Holiday, usize)>)
    requires
        n == s@.len(),
        i <= n,
    ensures
        match r {
            Some(p) => spec_parse_rule(s@, i as int) == Some((p.0, p.1 as int)) && p.1 <= n,
            None => spec_parse_rule(s@, i as int) is None,
        },
{
    proof {
        reveal(spec_parse_rule);
    }
    let j = match parse_lit(s, n, i, "{") {
        None => {
            return None;
        },
        Some(j) => j,
    };
    if let Some(j2) = parse_lit(s, n, j, "\"WeekDay\":") {
        let (w, j3) = match parse_weekday_tok(s, n, j2) {
            None => {
                return None;
            },
            Some(p) => p,
        };
        let j4 = match parse_lit(s, n, j3, "}") {
            None => {
                return None;
            },
            Some(j) => j,
        };
        return Some((Holiday::WeekDay(w), j4));
    }
    if let Some(j2) = parse_lit(s, n, j, "\"SingularDay\":") {
        let (d, j3) = match parse_date_tok(s, n, j2) {
            None => {
                return None;
            },
            Some(p) => p,
        };
        let j4 = match parse_lit(s, n, j3, "}") {
            None => {
                return None;
            },
            Some(j) => j,
        };
        return Some((Holiday::SingularDay(d), j4));
    }
    if let Some(j2) = parse_lit(s, n, j, "\"MovableYearlyDay\":") {
        let (rr, j3) = match parse_movable_fields(s, n, j2) {
            None => {
                return None;
            },
            Some(p) => p,
        };
        let j4 = match parse_lit(s, n, j3, "}") {
            None => {
                return None;
            },
            Some(j) => j,
        };
        return Some((rr, j4));
    }
    if let Some(j2) = parse_lit(s, n, j, "\"EasterOffset\":") {
        let (rr, j3) = match parse_easter_fields(s, n, j2) {
            None => {
                return None;
            },
            Some(p) => p,
        };
        let j4 = match parse_lit(s, n, j3, "}") {
            None => {
                return None;
            },
            Some(j) => j,
        };
        return Some((rr, j4));
    }
    if let Some(j2) = parse_lit(s, n, j, "\"MonthWeekday\":") {
        let (rr, j3) = match parse_mw_fields(s, n, j2) {
            None => {
                return None;
            },
            Some(p) => p,
        };
        let j4 = match parse_lit(s, n, j3, "}") {
            None => {
                return None;
            },
            Some(j) => j,
        };
        return Some((rr, j4));
    }
    None
}

fn parse_rules_tail(s: &str, n: usize, i: usize) -> (r: Option<(Vec<Holiday>, usize)>)
    requires
        n == s@.len(),
        i <= n,
    ensures
        match r {
            Some(p) => spec_parse_rules_tail(s@, i as int) == Some((p.0@, p.1 as int)) && p.1 <= n,
            None => spec_parse_rules_tail(s@, i as int) is None,
        },
    decreases n - i,
{
    proof {
        reveal(spec_parse_rules_tail);
    }
    let (first_rule, j) = match parse_rule(s, n, i) {
        None => {
            return None;
        },
        Some(p) => p,
    };
    proof {
        lemma_parse_rule_advances(s@, i as int);
    }
    if let Some(j2) = parse_lit(s, n, j, ",") {
        proof {
            lemma_parse_lit_ge(s@, j as int, ","@);
        }
        let (rest, j3) = match parse_rules_tail(s, n, j2) {
            None => {
                return None;
            },
            Some(p) => p,
        };
        let mut out = rest;
        out.insert(0, first_rule);
        proof {
            assert(out@ =~= seq![first_rule] + out@.subrange(1, out@.len() as int));
        }
        return Some((out, j3));
    }
    let j2 = match parse_lit(s, n, j, "]") {
        None => {
            return None;
        },
        Some(j2) => j2,
    };
    let mut out: Vec<Holiday> = Vec::new();
    out.push(first_rule);
    proof {
        assert(out@ =~= seq![first_rule]);
    }
    Some((out, j2))
}

/// Decode a rule list from the wire format; any malformed input is
/// rejected as a whole.
pub fn decode_rules(s: &str) -> (r: Result<Vec<Holiday>, DecodeError>)
    ensures
        match r {
            Ok(v) => spec_decode_rules(s@) == Some(v@),
            Err(_) => spec_decode_rules(s@) is None,
        },
{
    let n = s.unicode_len();
    let j = match parse_lit(s, n, 0, "[") {
        None => {
            return Err(DecodeError { pos: 0 });
        },
        Some(j) => j,
    };
    if let Some(j2) = parse_lit(s, n, j, "]") {
        if skip_ws(s, n, j2) == n {
            let out: Vec<Holiday> = Vec::new();
            proof {
                assert(out@ =~= Seq::<Holiday>::empty());
            }
            return Ok(out);
        }
        return Err(DecodeError { pos: j2 });
    }
    let (out, j2) = match parse_rules_tail(s, n, j) {
        None => {
            return Err(DecodeError { pos: j });
        },
        Some(p) => p,
    };
    if skip_ws(s, n, j2) == n {
        Ok(out)
    } else {
        Err(DecodeError { pos: j2 })
    }
}

fn append_digit(out: &mut String, d: u64)
    requires
        d < 10,
    ensures
        final(out)@ == old(out)@ + seq![digit_char(d as int)],
{
    proof {
        reveal_strlit("0");
        reveal_strlit("1");
        reveal_strlit("2");
        reveal_strlit("3");
        reveal_strlit("4");
        reveal_strlit("5");
        reveal_strlit("6");
        reveal_strlit("7");
        reveal_strlit("8");
        reveal_strlit("9");
    }
    if d == 0 {
        out.append("0");
    } else if d == 1 {
        out.append("1");
    } else if d == 2 {
        out.append("2");
    } else if d == 3 {
        out.append("3");
    } else if d == 4 {
        out.append("4");
    } else if d == 5 {
        out.append("5");
    } else if d == 6 {
        out.append("6");
    } else if d == 7 {
        out.append("7");
    } else if d == 8 {
        out.append("8");
    } else {
        out.append("9");
    }
    proof {
        assert(final(out)@ =~= old(out)@ + seq![digit_char(d as int)]);
    }
}

fn append_dec(out: &mut String, n: u64)
    ensures
        final(out)@ == old(out)@ + spec_dec_digits(n as int),
    decreases n,
{
    if n < 10 {
        append_digit(out, n);
    } else {
        append_dec(out, n / 10);
        append_digit(out, n % 10);
        proof {
            assert(final(out)@ =~= old(out)@ + spec_dec_digits(n as int));
        }
    }
}

fn append_int(out: &mut String, v: i64)
    requires
        -0x8000_0000 <= v <= 0x7fff_ffff,
    ensures
        final(out)@ == old(out)@ + spec_int_token(v as int),
{
    if v < 0 {
        out.append("-");
        append_dec(out, (-v) as u64);
        proof {
            assert(final(out)@ =~= old(out)@ + spec_int_token(v as int));
        }
    } else {
        append_dec(out, v as u64);
    }
}

fn append_pad2(out: &mut String, n: u64)
    ensures
        final(out)@ == old(out)@ + spec_pad2(n as int),
{
    if n < 10 {
        out.append("0");
    }
    append_dec(out, n);
    proof {
        assert(final(out)@ =~= old(out)@ + spec_pad2(n as int));
    }
}

fn append_pad4(out: &mut String, n: u64)
    ensures
        final(out)@ == old(out)@ + spec_pad4(n as int),
{
    if n < 10 {
        out.append("000");
    } else if n < 100 {
        out.append("00");
    } else if n < 1000 {
        out.append("0");
    }
    append_dec(out, n);
    proof {
        assert(final(out)@ =~= old(out)@ + spec_pad4(n as int));
    }
}

fn append_date(out: &mut String, d: Date)
    requires
        d.valid(),
    ensures
        final(out)@ == old(out)@ + spec_date_token(d),
{
    out.append("\"");
    append_pad4(out, d.year as u64);
    out.append("-");
    append_pad2(out, d.month as u64);
    out.append("-");
    append_pad2(out, d.day as u64);
    out.append("\"");
    proof {
        assert(final(out)@ =~= old(out)@ + spec_date_token(d));
    }
}

fn append_weekday(out: &mut String, w: Weekday)
    ensures
        final(out)@ == old(out)@ + spec_weekday_token(w),
{
    match w {
        Weekday::Mon => out.append("\"Mon\""),
        Weekday::Tue => out.append("\"Tue\""),
        Weekday::Wed => out.append("\"Wed\""),
        Weekday::Thu => out.append("\"Thu\""),
        Weekday::Fri => out.append("\"Fri\""),
        Weekday::Sat => out.append("\"Sat\""),
        Weekday::Sun => out.append("\"Sun\""),
    }
}

fn append_nth(out: &mut String, nth: NthWeek)
    ensures
        final(out)@ == old(out)@ + spec_nth_token(nth),
{
    match nth {
        NthWeek::First => out.append("\"First\""),
        NthWeek::Second => out.append("\"Second\""),
        NthWeek::Third => out.append("\"Third\""),
        NthWeek::Fourth => out.append("\"Fourth\""),
        NthWeek::Last => out.append("\"Last\""),
    }
}

fn append_opt_int(out: &mut String, o: Option<i32>)
    ensures
        final(out)@ == old(out)@ + spec_opt_int_token(o),
{
    match o {
        None => out.append("null"),
        Some(v) => append_int(out, v as i64),
    }
}

fn append_half(out: &mut String, o: Option<HalfCheck>)
    ensures
        final(out)@ == old(out)@ + spec_half_token(o),
{
    match o {
        None => out.append("null"),
        Some(HalfCheck::Before) => out.append("\"Before\""),
        Some(HalfCheck::After) => out.append("\"After\""),
    }
}

#[verifier::rlimit(100)]
#[verifier::spinoff_prover]
fn append_rule_weekday(out: &mut String, w: Weekday)
    ensures
        final(out)@ == old(out)@ + spec_encode_rule(Holiday::WeekDay(w)),
{
    out.append("{");
    out.append("\n    ");
    out.append("\"WeekDay\":");
    out.append(" ");
    append_weekday(out, w);
    out.append("\n  ");
    out.append("}");
    proof {
        assert(final(out)@ =~= old(out)@ + spec_encode_rule(Holiday::WeekDay(w)));
    }
}

#[verifier::rlimit(100)]
#[verifier::spinoff_prover]
fn append_rule_singular(out: &mut String, d: Date)
    requires
        d.valid(),
    ensures
        final(out)@ == old(out)@ + spec_encode_rule(Holiday::SingularDay(d)),
{
    out.append("{");
    out.append("\n    ");
    out.append("\"SingularDay\":");
    out.append(" ");
    append_date(out, d);
    out.append("\n  ");
    out.append("}");
    proof {
        assert(final(out)@ =~= old(out)@ + spec_encode_rule(Holiday::SingularDay(d)));
    }
}

#[verifier::rlimit(100)]
#[verifier::spinoff_prover]
fn append_rule_movable(
    out: &mut String,
    month: u32,
    day: u32,
    first: Option<i32>,
    last: Option<i32>,
    half_check: Option<HalfCheck>,
)
    ensures
        final(out)@ == old(out)@ + spec_encode_rule(
            Holiday::MovableYearlyDay { month, day, first, last, half_check },
        ),
{
    out.append("{");
    out.append("\n    ");
    out.append("\"MovableYearlyDay\":");
    out.append(" ");
    out.append("{");
    out.append("\n      ");
    out.append("\"month\":");
    out.append(" ");
    append_dec(out, month as u64);
    out.append(",");
    out.append("\n      ");
    out.append("\"day\":");
    out.append(" ");
    append_dec(out, day as u64);
    proof {
        assert(out@ =~= old(out)@ + ("{"@ + "\n    "@ + "\"MovableYearlyDay\":"@ + " "@)
            + mov_b1(month, day));
    }
    let ghost mid = out@;
    out.append(",");
    out.append("\n      ");
    out.append("\"first\":");
    out.append(" ");
    append_opt_int(out, first);
    out.append(",");
    out.append("\n      ");
    out.append("\"last\":");
    out.append(" ");
    append_opt_int(out, last);
    proof {
        assert(out@ =~= mid + opt_bounds(first, last));
    }
    let ghost mid2 = out@;
    out.append(",");
    out.append("\n      ");
    out.append("\"half_check\":");
    out.append(" ");
    append_half(out, half_check);
    out.append("\n    ");
    out.append("}");
    proof {
        assert(out@ =~= mid2 + opt_tail(half_check));
    }
    let ghost mid3 = out@;
    out.append("\n  ");
    out.append("}");
    proof {
        assert(out@ =~= mid3 + ("\n  "@ + "}"@));
        assert(final(out)@ =~= old(out)@ + spec_encode_rule(
            Holiday::MovableYearlyDay { month, day, first, last, half_check },
        ));
    }
}

#[verifier::rlimit(100)]
#[verifier::spinoff_prover]
fn append_rule_easter(out: &mut String, offset: i32, first: Option<i32>, last: Option<i32>)
    ensures
        final(out)@ == old(out)@ + spec_encode_rule(Holiday::EasterOffset { offset, first, last }),
{
    out.append("{");
    out.append("\n    ");
    out.append("\"EasterOffset\":");
    out.append(" ");
    out.append("{");
    out.append("\n      ");
    out.append("\"offset\":");
    out.append(" ");
    append_int(out, offset as i64);
    proof {
        assert(out@ =~= old(out)@ + ("{"@ + "\n    "@ + "\"EasterOffset\":"@ + " "@) + eas_b1(
            offset,
        ));
    }
    let ghost mid = out@;
    out.append(",");
    out.append("\n      ");
    out.append("\"first\":");
    out.append(" ");
    append_opt_int(out, first);
    out.append(",");
    out.append("\n      ");
    out.append("\"last\":");
    out.append(" ");
    append_opt_int(out, last);
    out.append("\n    ");
    out.append("}");
    out.append("\n  ");
    out.append("}");
    proof {
        assert(out@ =~= mid + eas_b2(first, last) + ("\n  "@ + "}"@));
        assert(final(out)@ =~= old(out)@ + spec_encode_rule(
            Holiday::EasterOffset { offset, first, last },
        ));
    }
}

#[verifier::rlimit(100)]
#[verifier::spinoff_prover]
fn append_rule_month_weekday(
    out: &mut String,
    month: u32,
    weekday: Weekday,
    nth: NthWeek,
    first: Option<i32>,
    last: Option<i32>,
    half_check: Option<HalfCheck>,
)
    ensures
        final(out)@ == old(out)@ + spec_encode_rule(
            Holiday::MonthWeekday { month, weekday, nth, first, last, half_check },
        ),
{
    out.append("{");
    out.append("\n    ");
    out.append("\"MonthWeekday\":");
    out.append(" ");
    out.append("{");
    out.append("\n      ");
    out.append("\"month\":");
    out.append(" ");
    append_dec(out, month as u64);
    proof {
        assert(out@ =~= old(out)@ + ("{"@ + "\n    "@ + "\"MonthWeekday\":"@ + " "@) + mw_b1(
            month,
        ));
    }
    let ghost mid = out@;
    out.append(",");
    out.append("\n      ");
    out.append("\"weekday\":");
    out.append(" ");
    append_weekday(out, weekday);
    out.append(",");
    out.append("\n      ");
    out.append("\"nth\":");
    out.append(" ");
    append_nth(out, nth);
    proof {
        assert(out@ =~= mid + mw_kinds(weekday, nth));
    }
    let ghost mid2 = out@;
    out.append(",");
    out.append("\n      ");
    out.append("\"first\":");
    out.append(" ");
    append_opt_int(out, first);
    out.append(",");
    out.append("\n      ");
    out.append("\"last\":");
    out.append(" ");
    append_opt_int(out, last);
    proof {
        assert(out@ =~= mid2 + opt_bounds(first, last));
    }
    let ghost mid3 = out@;
    out.append(",");
    out.append("\n      ");
    out.append("\"half_check\":");
    out.append(" ");
    append_half(out, half_check);
    out.append("\n    ");
    out.append("}");
    out.append("\n  ");
    out.append("}");
    proof {
        assert(out@ =~= mid3 + opt_tail(half_check) + ("\n  "@ + "}"@));
        let head = "{"@ + "\n    "@ + "\"MonthWeekday\":"@ + " "@;
        let body = mw_body(month, weekday, nth, first, last, half_check);
        assert(out@ =~= old(out)@ + head + body + ("\n  "@ + "}"@));
        assert(spec_encode_rule(Holiday::MonthWeekday { month, weekday, nth, first, last, half_check })
            == head + body + "\n  "@ + "}"@);
        assert(out@ =~= old(out)@ + (head + body + "\n  "@ + "}"@));
    }
}

fn append_rule(out: &mut String, rule: &Holiday)
    requires
        rule_encodable(*rule),
    ensures
        final(out)@ == old(out)@ + spec_encode_rule(*rule),
{
    match *rule {
        Holiday::WeekDay(w) => append_rule_weekday(out, w),
        Holiday::SingularDay(d) => append_rule_singular(out, d),
        Holiday::MovableYearlyDay { month, day, first, last, half_check } => append_rule_movable(
            out,
            month,
            day,
            first,
            last,
            half_check,
        ),
        Holiday::EasterOffset { offset, first, last } => append_rule_easter(
            out,
            offset,
            first,
            last,
        ),
        Holiday::MonthWeekday { month, weekday, nth, first, last, half_check } => append_rule_month_weekday(
            out,
            month,
            weekday,
            nth,
            first,
            last,
            half_check,
        ),
    }
}

fn append_items(out: &mut String, rules: &[Holiday], i: usize)
    requires
        i < rules@.len(),
        forall|j: int| 0 <= j < rules@.len() ==> rule_encodable(#[trigger] rules@[j]),
    ensures
        final(out)@ == old(out)@ + spec_encode_items(rules@.subrange(i as int, rules@.len() as int)),
    decreases rules@.len() - i,
{
    out.append("\n  ");
    append_rule(out, &rules[i]);
    if i + 1 < rules.len() {
        out.append(",");
        append_items(out, rules, i + 1);
    }
    proof {
        let tail = rules@.subrange(i as int, rules@.len() as int);
        assert(tail[0] == rules@[i as int]);
        if i + 1 < rules@.len() {
            assert(tail.subrange(1, tail.len() as int) =~= rules@.subrange(
                i as int + 1,
                rules@.len() as int,
            ));
        }
        assert(final(out)@ =~= old(out)@ + spec_encode_items(tail));
    }
}

/// Encode a rule list in the wire format.
pub fn encode_rules(rules: &[Holiday]) -> (r: String)
    requires
        forall|j: int| 0 <= j < rules@.len() ==> rule_encodable(#[trigger] rules@[j]),
    ensures
        r@ == spec_encode_rules(rules@),
{
    let mut out = String::new();
    if rules.len() == 0 {
        out.append("[]");
        proof {
            assert(out@ =~= spec_encode_rules(rules@));
        }
        return out;
    }
    out.append("[");
    append_items(&mut out, rules, 0);
    out.append("\n");
    out.append("]");
    proof {
        assert(rules@.subrange(0, rules@.len() as int) =~= rules@);
        assert(out@ =~= spec_encode_rules(rules@));
    }
    out
}

// ---------------------------------------------------------------------
// Round trip: the parser inverts the encoder.
// ---------------------------------------------------------------------

pub open spec fn all_ws(w: Seq<char>) -> bool {
    forall|k: int| 0 <= k < w.len() ==> is_ws_char(#[trigger] w[k])
}

proof fn lemma_skip_ws_exact(s: Seq<char>, i: int, j: int)
    requires
        0 <= i <= j <= s.len(),
        forall|k: int| i <= k < j ==> is_ws_char(#[trigger] s[k]),
        j == s.len() || !is_ws_char(s[j]),
    ensures
        spec_skip_ws(s, i) == j,
    decreases j - i,
{
    if i < j {
        lemma_skip_ws_exact(s, i + 1, j);
    }
}

proof fn lemma_digits_end_exact(s: Seq<char>, i: int, j: int)
    requires
        0 <= i <= j <= s.len(),
        forall|k: int| i <= k < j ==> is_digit_char(#[trigger] s[k]),
        j == s.len() || !is_digit_char(s[j]),
    ensures
        spec_digits_end(s, i) == j,
    decreases j - i,
{
    if i < j {
        lemma_digits_end_exact(s, i + 1, j);
    }
}

/// A literal parses exactly where the input holds whitespace and then
/// that literal.
proof fn lemma_parse_lit_at(pre: Seq<char>, w: Seq<char>, lit: Seq<char>, suf: Seq<char>)
    requires
        all_ws(w),
        lit.len() > 0,
        !is_ws_char(lit[0]),
    ensures
        spec_parse_lit(pre + w + lit + suf, pre.len() as int, lit) == Some(
            pre.len() + w.len() + lit.len() as int,
        ),
{
    let s = pre + w + lit + suf;
    let i = pre.len() as int;
    let j = i + w.len() as int;
    assert forall|k: int| i <= k < j implies is_ws_char(#[trigger] s[k]) by {
        assert(s[k] == w[k - i]);
    }
    assert(s[j] == lit[0]);
    lemma_skip_ws_exact(s, i, j);
    assert(s.subrange(j, j + lit.len() as int) =~= lit);
}

/// A literal fails to parse where the input holds, after whitespace,
/// a token that differs from it at some position.
proof fn lemma_parse_lit_mismatch(
    pre: Seq<char>,
    w: Seq<char>,
    actual: Seq<char>,
    lit: Seq<char>,
    suf: Seq<char>,
    k: int,
)
    requires
        all_ws(w),
        actual.len() > 0,
        !is_ws_char(actual[0]),
        0 <= k < actual.len(),
        k < lit.len(),
        actual[k] != lit[k],
    ensures
        spec_parse_lit(pre + w + actual + suf, pre.len() as int, lit) is None,
{
    let s = pre + w + actual + suf;
    let i = pre.len() as int;
    let j = i + w.len() as int;
    assert forall|t: int| i <= t < j implies is_ws_char(#[trigger] s[t]) by {
        assert(s[t] == w[t - i]);
    }
    assert(s[j] == actual[0]);
    lemma_skip_ws_exact(s, i, j);
    if j + lit.len() <= s.len() {
        assert(s[j + k] == actual[k]);
        assert(s.subrange(j, j + lit.len() as int)[k] == actual[k]);
    }
}

proof fn lemma_dec_digits_props(n: int)
    requires
        n >= 0,
    ensures
        spec_dec_digits(n).len() >= 1,
        forall|k: int|
            0 <= k < spec_dec_digits(n).len() ==> is_digit_char(#[trigger] spec_dec_digits(n)[k]),
        n >= 1 ==> spec_dec_digits(n)[0] != '0',
        n == 0 ==> spec_dec_digits(n) == seq!['0'],
    decreases n,
{
    if n >= 10 {
        lemma_dec_digits_props(n / 10);
        vstd::arithmetic::div_mod::lemma_mod_bound(n, 10);
    }
}

proof fn lemma_dec_len_bound(n: int, e: int)
    requires
        e >= 1,
        0 <= n < pow10(e),
    ensures
        spec_dec_digits(n).len() <= e,
    decreases n,
{
    if n >= 10 {
        lemma_fundamental_div_mod(n, 10);
        lemma_mod_bound(n, 10);
        assert(n / 10 < pow10(e - 1)) by {
            if n / 10 >= pow10(e - 1) {
                assert(n >= 10 * (n / 10));
            }
        }
        assert(e - 1 >= 1) by {
            if e == 1 {
                assert(pow10(1) == 10);
            }
        }
        lemma_dec_len_bound(n / 10, e - 1);
    }
}

proof fn lemma_digits_val_of_dec(s: Seq<char>, i: int, n: int)
    requires
        n >= 0,
        0 <= i,
        i + spec_dec_digits(n).len() <= s.len(),
        s.subrange(i, i + spec_dec_digits(n).len() as int) == spec_dec_digits(n),
    ensures
        spec_digits_val(s, i, i + spec_dec_digits(n).len() as int) == n,
    decreases n,
{
    let m = spec_dec_digits(n).len() as int;
    if n < 10 {
        reveal_with_fuel(spec_digits_val, 3);
        assert(s[i] == spec_dec_digits(n)[0]);
        assert(spec_digits_val(s, i, i + 1) == digit_val(s[i]));
    } else {
        let head = spec_dec_digits(n / 10);
        assert(s.subrange(i, i + head.len() as int) =~= head) by {
            assert forall|t: int| 0 <= t < head.len() implies s.subrange(
                i,
                i + head.len() as int,
            )[t] == head[t] by {
                assert(s[i + t] == spec_dec_digits(n)[t]);
            }
        }
        lemma_digits_val_of_dec(s, i, n / 10);
        assert(s[i + m - 1] == spec_dec_digits(n)[m - 1]);
        lemma_fundamental_div_mod(n, 10);
        lemma_mod_bound(n, 10);
    }
}

proof fn lemma_digits_val_zero_prefix(s: Seq<char>, i: int, j: int)
    requires
        0 <= i < j,
        s[i] == '0',
    ensures
        spec_digits_val(s, i, j) == spec_digits_val(s, i + 1, j),
    decreases j - i,
{
    reveal_with_fuel(spec_digits_val, 3);
    if i + 1 < j {
        lemma_digits_val_zero_prefix(s, i, j - 1);
    }
}

/// A signed decimal token parses back to its value when followed by a
/// non-digit.
#[verifier::rlimit(100)]
#[verifier::spinoff_prover]
proof fn lemma_parse_number_at(pre: Seq<char>, w: Seq<char>, v: int, suf: Seq<char>)
    requires
        all_ws(w),
        -0x8000_0000 <= v <= 0xffff_ffff,
        suf.len() == 0 || !is_digit_char(suf[0]),
    ensures
        spec_parse_number(pre + w + spec_int_token(v) + suf, pre.len() as int) == Some(
            (v, pre.len() + w.len() + spec_int_token(v).len() as int),
        ),
{
    let a = if v < 0 {
        -v
    } else {
        v
    };
    let dec = spec_dec_digits(a);
    lemma_dec_digits_props(a);
    let s = pre + w + spec_int_token(v) + suf;
    let i = pre.len() as int;
    let j = i + w.len() as int;
    let tok = spec_int_token(v);
    assert forall|t: int| i <= t < j implies is_ws_char(#[trigger] s[t]) by {
        assert(s[t] == w[t - i]);
    }
    if v < 0 {
        reveal_strlit("-");
        assert(s[j] == '-');
        assert(!is_ws_char(s[j]));
        lemma_skip_ws_exact(s, i, j);
        let d0 = j + 1;
        assert forall|t: int| d0 <= t < d0 + dec.len() implies is_digit_char(#[trigger] s[t]) by {
            assert(s[t] == dec[t - d0]);
        }
        assert(d0 + dec.len() == s.len() || !is_digit_char(s[d0 + dec.len() as int])) by {
            if d0 + dec.len() < s.len() {
                assert(s[d0 + dec.len() as int] == suf[0]);
            }
        }
        lemma_digits_end_exact(s, d0, d0 + dec.len() as int);
        assert(s.subrange(d0, d0 + dec.len() as int) =~= dec);
        lemma_digits_val_of_dec(s, d0, a);
        assert(s[d0] == dec[0]);
        reveal_with_fuel(pow10, 12);
        lemma_dec_len_bound(a, 10);
    } else {
        assert(s[j] == dec[0]);
        assert(is_digit_char(dec[0]));
        assert(!is_ws_char(s[j])) by {
            assert(is_digit_char(s[j]));
        }
        lemma_skip_ws_exact(s, i, j);
        assert(s[j] != '-') by {
            assert(is_digit_char(s[j]));
        }
        let d0 = j;
        assert forall|t: int| d0 <= t < d0 + dec.len() implies is_digit_char(#[trigger] s[t]) by {
            assert(s[t] == dec[t - d0]);
        }
        assert(d0 + dec.len() == s.len() || !is_digit_char(s[d0 + dec.len() as int])) by {
            if d0 + dec.len() < s.len() {
                assert(s[d0 + dec.len() as int] == suf[0]);
            }
        }
        lemma_digits_end_exact(s, d0, d0 + dec.len() as int);
        assert(s.subrange(d0, d0 + dec.len() as int) =~= dec);
        lemma_digits_val_of_dec(s, d0, a);
        assert(s[d0] == dec[0]);
        reveal_with_fuel(pow10, 12);
        lemma_dec_len_bound(a, 10);
    }
}

#[verifier::rlimit(100)]
#[verifier::spinoff_prover]
proof fn lemma_parse_weekday_at(pre: Seq<char>, w: Seq<char>, wd: Weekday, suf: Seq<char>)
    requires
        all_ws(w),
    ensures
        spec_parse_weekday(pre + w + spec_weekday_token(wd) + suf, pre.len() as int) == Some(
            (wd, pre.len() + w.len() + spec_weekday_token(wd).len() as int),
        ),
{
    reveal_strlit("\"Mon\"");
    reveal_strlit("\"Tue\"");
    reveal_strlit("\"Wed\"");
    reveal_strlit("\"Thu\"");
    reveal_strlit("\"Fri\"");
    reveal_strlit("\"Sat\"");
    reveal_strlit("\"Sun\"");
    let tok = spec_weekday_token(wd);
    match wd {
        Weekday::Mon => {
            lemma_parse_lit_at(pre, w, tok, suf);
        },
        Weekday::Tue => {
            lemma_parse_lit_mismatch(pre, w, tok, "\"Mon\""@, suf, 1);
            lemma_parse_lit_at(pre, w, tok, suf);
        },
        Weekday::Wed => {
            lemma_parse_lit_mismatch(pre, w, tok, "\"Mon\""@, suf, 1);
            lemma_parse_lit_mismatch(pre, w, tok, "\"Tue\""@, suf, 1);
            lemma_parse_lit_at(pre, w, tok, suf);
        },
        Weekday::Thu => {
            lemma_parse_lit_mismatch(pre, w, tok, "\"Mon\""@, suf, 1);
            lemma_parse_lit_mismatch(pre, w, tok, "\"Tue\""@, suf, 2);
            lemma_parse_lit_mismatch(pre, w, tok, "\"Wed\""@, suf, 1);
            lemma_parse_lit_at(pre, w, tok, suf);
        },
        Weekday::Fri => {
            lemma_parse_lit_mismatch(pre, w, tok, "\"Mon\""@, suf, 1);
            lemma_parse_lit_mismatch(pre, w, tok, "\"Tue\""@, suf, 1);
            lemma_parse_lit_mismatch(pre, w, tok, "\"Wed\""@, suf, 1);
            lemma_parse_lit_mismatch(pre, w, tok, "\"Thu\""@, suf, 1);
            lemma_parse_lit_at(pre, w, tok, suf);
        },
        Weekday::Sat => {
            lemma_parse_lit_mismatch(pre, w, tok, "\"Mon\""@, suf, 1);
            lemma_parse_lit_mismatch(pre, w, tok, "\"Tue\""@, suf, 1);
            lemma_parse_lit_mismatch(pre, w, tok, "\"Wed\""@, suf, 1);
            lemma_parse_lit_mismatch(pre, w, tok, "\"Thu\""@, suf, 1);
            lemma_parse_lit_mismatch(pre, w, tok, "\"Fri\""@, suf, 1);
            lemma_parse_lit_at(pre, w, tok, suf);
        },
        Weekday::Sun => {
            lemma_parse_lit_mismatch(pre, w, tok, "\"Mon\""@, suf, 1);
            lemma_parse_lit_mismatch(pre, w, tok, "\"Tue\""@, suf, 1);
            lemma_parse_lit_mismatch(pre, w, tok, "\"Wed\""@, suf, 1);
            lemma_parse_lit_mismatch(pre, w, tok, "\"Thu\""@, suf, 1);
            lemma_parse_lit_mismatch(pre, w, tok, "\"Fri\""@, suf, 1);
            lemma_parse_lit_mismatch(pre, w, tok, "\"Sat\""@, suf, 2);
            lemma_parse_lit_at(pre, w, tok, suf);
        },
    }
}

#[verifier::rlimit(100)]
#[verifier::spinoff_prover]
proof fn lemma_parse_nth_at(pre: Seq<char>, w: Seq<char>, nth: NthWeek, suf: Seq<char>)
    requires
        all_ws(w),
    ensures
        spec_parse_nth(pre + w + spec_nth_token(nth) + suf, pre.len() as int) == Some(
            (nth, pre.len() + w.len() + spec_nth_token(nth).len() as int),
        ),
{
    reveal_strlit("\"First\"");
    reveal_strlit("\"Second\"");
    reveal_strlit("\"Third\"");
    reveal_strlit("\"Fourth\"");
    reveal_strlit("\"Last\"");
    let tok = spec_nth_token(nth);
    match nth {
        NthWeek::First => {
            lemma_parse_lit_at(pre, w, tok, suf);
        },
        NthWeek::Second => {
            lemma_parse_lit_mismatch(pre, w, tok, "\"First\""@, suf, 1);
            lemma_parse_lit_at(pre, w, tok, suf);
        },
        NthWeek::Third => {
            lemma_parse_lit_mismatch(pre, w, tok, "\"First\""@, suf, 1);
            lemma_parse_lit_mismatch(pre, w, tok, "\"Second\""@, suf, 1);
            lemma_parse_lit_at(pre, w, tok, suf);
        },
        NthWeek::Fourth => {
            lemma_parse_lit_mismatch(pre, w, tok, "\"First\""@, suf, 2);
            lemma_parse_lit_mismatch(pre, w, tok, "\"Second\""@, suf, 1);
            lemma_parse_lit_mismatch(pre, w, tok, "\"Third\""@, suf, 1);
            lemma_parse_lit_at(pre, w, tok, suf);
        },
        NthWeek::Last => {
            lemma_parse_lit_mismatch(pre, w, tok, "\"First\""@, suf, 1);
            lemma_parse_lit_mismatch(pre, w, tok, "\"Second\""@, suf, 1);
            lemma_parse_lit_mismatch(pre, w, tok, "\"Third\""@, suf, 1);
            lemma_parse_lit_mismatch(pre, w, tok, "\"Fourth\""@, suf, 1);
            lemma_parse_lit_at(pre, w, tok, suf);
        },
    }
}

#[verifier::rlimit(100)]
#[verifier::spinoff_prover]
proof fn lemma_parse_half_at(pre: Seq<char>, w: Seq<char>, hc: Option<HalfCheck>, suf: Seq<char>)
    requires
        all_ws(w),
    ensures
        spec_parse_half(pre + w + spec_half_token(hc) + suf, pre.len() as int) == Some(
            (hc, pre.len() + w.len() + spec_half_token(hc).len() as int),
        ),
{
    reveal_strlit("null");
    reveal_strlit("\"Before\"");
    reveal_strlit("\"After\"");
    let tok = spec_half_token(hc);
    match hc {
        None => {
            lemma_parse_lit_at(pre, w, tok, suf);
        },
        Some(HalfCheck::Before) => {
            lemma_parse_lit_mismatch(pre, w, tok, "null"@, suf, 0);
            lemma_parse_lit_at(pre, w, tok, suf);
        },
        Some(HalfCheck::After) => {
            lemma_parse_lit_mismatch(pre, w, tok, "null"@, suf, 0);
            lemma_parse_lit_mismatch(pre, w, tok, "\"Before\""@, suf, 1);
            lemma_parse_lit_at(pre, w, tok, suf);
        },
    }
}

#[verifier::rlimit(100)]
#[verifier::spinoff_prover]
proof fn lemma_parse_opt_i32_at(pre: Seq<char>, w: Seq<char>, o: Option<i32>, suf: Seq<char>)
    requires
        all_ws(w),
        suf.len() == 0 || !is_digit_char(suf[0]),
    ensures
        spec_parse_opt_i32(pre + w + spec_opt_int_token(o) + suf, pre.len() as int) == Some(
            (o, pre.len() + w.len() + spec_opt_int_token(o).len() as int),
        ),
{
    reveal_strlit("null");
    let tok = spec_opt_int_token(o);
    match o {
        None => {
            lemma_parse_lit_at(pre, w, tok, suf);
        },
        Some(v) => {
            let a = if v < 0 {
                -(v as int)
            } else {
                v as int
            };
            lemma_dec_digits_props(a);
            if v < 0 {
                reveal_strlit("-");
                assert(tok[0] == '-');
            } else {
                assert(tok[0] == spec_dec_digits(a)[0]);
                assert(is_digit_char(tok[0]));
            }
            lemma_parse_lit_mismatch(pre, w, tok, "null"@, suf, 0);
            lemma_parse_number_at(pre, w, v as int, suf);
        },
    }
}

proof fn lemma_dec_len_small(n: int)
    requires
        0 <= n <= 9999,
    ensures
        n < 10 ==> spec_dec_digits(n).len() == 1,
        10 <= n < 100 ==> spec_dec_digits(n).len() == 2,
        100 <= n < 1000 ==> spec_dec_digits(n).len() == 3,
        1000 <= n ==> spec_dec_digits(n).len() == 4,
{
    reveal_with_fuel(spec_dec_digits, 5);
}

proof fn lemma_pad4_digits(p: Seq<char>, y: int)
    requires
        0 <= y <= 9999,
        p == spec_pad4(y),
    ensures
        p.len() == 4,
        forall|k: int| 0 <= k < 4 ==> is_digit_char(#[trigger] p[k]),
{
    reveal_strlit("0");
    reveal_strlit("00");
    reveal_strlit("000");
    lemma_dec_len_small(y);
    lemma_dec_digits_props(y);
}

proof fn lemma_pad2_digits(p: Seq<char>, m: int)
    requires
        0 <= m <= 99,
        p == spec_pad2(m),
    ensures
        p.len() == 2,
        forall|k: int| 0 <= k < 2 ==> is_digit_char(#[trigger] p[k]),
{
    reveal_strlit("0");
    lemma_dec_len_small(m);
    lemma_dec_digits_props(m);
}

proof fn lemma_val_pad4(s: Seq<char>, i: int, y: int)
    requires
        0 <= i,
        0 <= y <= 9999,
        i + 4 <= s.len(),
        s.subrange(i, i + 4) == spec_pad4(y),
    ensures
        spec_digits_val(s, i, i + 4) == y,
{
    reveal_strlit("0");
    reveal_strlit("00");
    reveal_strlit("000");
    lemma_dec_len_small(y);
    lemma_dec_digits_props(y);
    let dec = spec_dec_digits(y);
    let z = 4 - dec.len() as int;
    assert forall|k: int| 0 <= k < z implies #[trigger] s[i + k] == '0' by {
        assert(s[i + k] == spec_pad4(y)[k]);
    }
    assert(s.subrange(i + z, i + 4) =~= dec) by {
        assert forall|k: int| 0 <= k < dec.len() implies s.subrange(i + z, i + 4)[k] == dec[k] by {
            assert(s[i + z + k] == spec_pad4(y)[z + k]);
        }
    }
    lemma_digits_val_of_dec(s, i + z, y);
    if z >= 1 {
        assert(s[i + 0] == '0');
        lemma_digits_val_zero_prefix(s, i, i + 4);
    }
    if z >= 2 {
        assert(s[i + 1] == '0');
        lemma_digits_val_zero_prefix(s, i + 1, i + 4);
    }
    if z >= 3 {
        assert(s[i + 2] == '0');
        lemma_digits_val_zero_prefix(s, i + 2, i + 4);
    }
}

proof fn lemma_val_pad2(s: Seq<char>, i: int, m: int)
    requires
        0 <= i,
        0 <= m <= 99,
        i + 2 <= s.len(),
        s.subrange(i, i + 2) == spec_pad2(m),
    ensures
        spec_digits_val(s, i, i + 2) == m,
{
    reveal_strlit("0");
    lemma_dec_len_small(m);
    lemma_dec_digits_props(m);
    let dec = spec_dec_digits(m);
    let z = 2 - dec.len() as int;
    assert forall|k: int| 0 <= k < z implies #[trigger] s[i + k] == '0' by {
        assert(s[i + k] == spec_pad2(m)[k]);
    }
    assert(s.subrange(i + z, i + 2) =~= dec) by {
        assert forall|k: int| 0 <= k < dec.len() implies s.subrange(i + z, i + 2)[k] == dec[k] by {
            assert(s[i + z + k] == spec_pad2(m)[z + k]);
        }
    }
    lemma_digits_val_of_dec(s, i + z, m);
    if z >= 1 {
        assert(s[i + 0] == '0');
        lemma_digits_val_zero_prefix(s, i, i + 2);
    }
}

#[verifier::rlimit(100)]
proof fn lemma_parse_date_at(pre: Seq<char>, w: Seq<char>, d: Date, suf: Seq<char>)
    requires
        all_ws(w),
        d.valid(),
    ensures
        spec_parse_date(pre + w + spec_date_token(d) + suf, pre.len() as int) == Some(
            (d, pre.len() + w.len() + 12int),
        ),
{
    reveal_strlit("\"");
    reveal_strlit("-");
    let tok = spec_date_token(d);
    let p4 = spec_pad4(d.year as int);
    let p2m = spec_pad2(d.month as int);
    let p2d = spec_pad2(d.day as int);
    lemma_pad4_digits(p4, d.year as int);
    lemma_pad2_digits(p2m, d.month as int);
    lemma_pad2_digits(p2d, d.day as int);
    assert(tok.len() == 12);
    let s = pre + w + tok + suf;
    let i = pre.len() as int;
    let j = i + w.len() as int;
    assert forall|t: int| i <= t < j implies is_ws_char(#[trigger] s[t]) by {
        assert(s[t] == w[t - i]);
    }
    assert forall|t: int| 0 <= t < 12 implies #[trigger] s[j + t] == tok[t] by {}
    assert(s[j] == '"');
    lemma_skip_ws_exact(s, i, j);
    assert(tok[5] == '-');
    assert(tok[8] == '-');
    assert(tok[11] == '"');
    assert forall|t: int| 1 <= t < 5 implies is_digit_char(#[trigger] s[j + t]) by {
        assert(tok[t] == p4[t - 1]);
    }
    assert forall|t: int| 6 <= t < 8 implies is_digit_char(#[trigger] s[j + t]) by {
        assert(tok[t] == p2m[t - 6]);
    }
    assert forall|t: int| 9 <= t < 11 implies is_digit_char(#[trigger] s[j + t]) by {
        assert(tok[t] == p2d[t - 9]);
    }
    assert(s.subrange(j + 1, j + 5) =~= p4) by {
        assert forall|t: int| 0 <= t < 4 implies s.subrange(j + 1, j + 5)[t] == p4[t] by {
            assert(s[j + 1 + t] == tok[1 + t]);
        }
    }
    assert(s.subrange(j + 6, j + 8) =~= p2m) by {
        assert forall|t: int| 0 <= t < 2 implies s.subrange(j + 6, j + 8)[t] == p2m[t] by {
            assert(s[j + 6 + t] == tok[6 + t]);
        }
    }
    assert(s.subrange(j + 9, j + 11) =~= p2d) by {
        assert forall|t: int| 0 <= t < 2 implies s.subrange(j + 9, j + 11)[t] == p2d[t] by {
            assert(s[j + 9 + t] == tok[9 + t]);
        }
    }
    lemma_val_pad4(s, j + 1, d.year as int);
    lemma_val_pad2(s, j + 6, d.month as int);
    lemma_val_pad2(s, j + 9, d.day as int);
}

proof fn lemma_assoc_step(p: Seq<char>, x: Seq<char>, y: Seq<char>, z: Seq<char>, u: Seq<char>, r: Seq<char>)
    ensures
        p + x + y + (z + u + r) == (p + x + y) + z + u + r,
{
    assert(p + x + y + (z + u + r) =~= (p + x + y) + z + u + r);
}

#[verifier::rlimit(100)]
#[verifier::spinoff_prover]
proof fn lemma_parse_opts3_last_at(
    pre: Seq<char>,
    first: Option<i32>,
    last: Option<i32>,
    half_check: Option<HalfCheck>,
    suf: Seq<char>,
)
    ensures
        spec_parse_opts3_last(
            pre + opt_tail(half_check) + suf,
            pre.len() as int,
            first,
            last,
        ) == Some(((first, last, half_check), (pre.len() + opt_tail(half_check).len()) as int)),
{
    reveal(spec_parse_opts3_last);
    let s = pre + opt_tail(half_check) + suf;
    reveal_strlit(",");
    reveal_strlit("\n      ");
    reveal_strlit(" ");
    reveal_strlit("\"half_check\":");
    reveal_strlit("\n    ");
    reveal_strlit("}");
    assert(all_ws("\n      "@));
    assert(all_ws(" "@));
    assert(all_ws("\n    "@));
    let r3: Seq<char> = suf;
    let r2: Seq<char> = "\n    "@ + "}"@ + r3;
    let r1: Seq<char> = " "@ + spec_half_token(half_check) + r2;
    let r0: Seq<char> = "\n      "@ + "\"half_check\":"@ + r1;
    let p0: Seq<char> = pre;
    let p1: Seq<char> = p0 + Seq::<char>::empty() + ","@;
    let p2: Seq<char> = p1 + "\n      "@ + "\"half_check\":"@;
    let p3: Seq<char> = p2 + " "@ + spec_half_token(half_check);
    assert(s =~= p0 + Seq::<char>::empty() + ","@ + r0);
    lemma_parse_lit_mismatch(p0, Seq::<char>::empty(), ","@, "}"@, r0, 0);
    lemma_parse_lit_at(p0, Seq::<char>::empty(), ","@, r0);
    lemma_assoc_step(p0, Seq::<char>::empty(), ","@, "\n      "@, "\"half_check\":"@, r1);
    assert(s == p1 + "\n      "@ + "\"half_check\":"@ + r1);
    lemma_parse_lit_at(p1, "\n      "@, "\"half_check\":"@, r1);
    lemma_assoc_step(p1, "\n      "@, "\"half_check\":"@, " "@, spec_half_token(half_check), r2);
    assert(s == p2 + " "@ + spec_half_token(half_check) + r2);
    lemma_parse_half_at(p2, " "@, half_check, r2);
    lemma_assoc_step(p2, " "@, spec_half_token(half_check), "\n    "@, "}"@, r3);
    assert(s == p3 + "\n    "@ + "}"@ + r3);
    lemma_parse_lit_at(p3, "\n    "@, "}"@, r3);
    assert(p3 + "\n    "@ + "}"@ =~= pre + opt_tail(half_check));
}

#[verifier::rlimit(100)]
#[verifier::spinoff_prover]
proof fn lemma_parse_opts3_first_at(
    pre: Seq<char>,
    first: Option<i32>,
    last: Option<i32>,
    half_check: Option<HalfCheck>,
    suf: Seq<char>,
)
    ensures
        spec_parse_opts3_first(
            pre + opt_last_field(last) + opt_tail(half_check) + suf,
            pre.len() as int,
            first,
        ) == Some(
            (
                (first, last, half_check),
                (pre.len() + opt_last_field(last).len() + opt_tail(half_check).len()) as int,
            ),
        ),
{
    reveal(spec_parse_opts3_first);
    let s = pre + opt_last_field(last) + opt_tail(half_check) + suf;
    reveal_strlit(",");
    reveal_strlit("\n      ");
    reveal_strlit(" ");
    reveal_strlit("\"last\":");
    reveal_strlit("}");
    assert(all_ws("\n      "@));
    assert(all_ws(" "@));
    let r2: Seq<char> = opt_tail(half_check) + suf;
    let r1: Seq<char> = " "@ + spec_opt_int_token(last) + r2;
    let r0: Seq<char> = "\n      "@ + "\"last\":"@ + r1;
    let p0: Seq<char> = pre;
    let p1: Seq<char> = p0 + Seq::<char>::empty() + ","@;
    let p2: Seq<char> = p1 + "\n      "@ + "\"last\":"@;
    assert(s =~= p0 + Seq::<char>::empty() + ","@ + r0);
    lemma_parse_lit_mismatch(p0, Seq::<char>::empty(), ","@, "}"@, r0, 0);
    lemma_parse_lit_at(p0, Seq::<char>::empty(), ","@, r0);
    lemma_assoc_step(p0, Seq::<char>::empty(), ","@, "\n      "@, "\"last\":"@, r1);
    assert(s == p1 + "\n      "@ + "\"last\":"@ + r1);
    lemma_parse_lit_at(p1, "\n      "@, "\"last\":"@, r1);
    lemma_assoc_step(p1, "\n      "@, "\"last\":"@, " "@, spec_opt_int_token(last), r2);
    assert(s == p2 + " "@ + spec_opt_int_token(last) + r2);
    assert(r2[0] == ',');
    assert(!is_digit_char(r2[0]));
    lemma_parse_opt_i32_at(p2, " "@, last, r2);
    let pe: Seq<char> = p2 + " "@ + spec_opt_int_token(last);
    assert(s =~= pe + opt_tail(half_check) + suf);
    lemma_parse_opts3_last_at(pe, first, last, half_check, suf);
    assert(pe =~= pre + opt_last_field(last));
}

#[verifier::rlimit(100)]
#[verifier::spinoff_prover]
proof fn lemma_parse_opts3_at(
    pre: Seq<char>,
    first: Option<i32>,
    last: Option<i32>,
    half_check: Option<HalfCheck>,
    suf: Seq<char>,
)
    ensures
        spec_parse_opts3(
            pre + opt_first_field(first) + opt_last_field(last) + opt_tail(half_check) + suf,
            pre.len() as int,
        ) == Some(
            (
                (first, last, half_check),
                (pre.len() + opt_first_field(first).len() + opt_last_field(last).len()
                    + opt_tail(half_check).len()) as int,
            ),
        ),
{
    reveal(spec_parse_opts3);
    let s = pre + opt_first_field(first) + opt_last_field(last) + opt_tail(half_check) + suf;
    reveal_strlit(",");
    reveal_strlit("\n      ");
    reveal_strlit(" ");
    reveal_strlit("\"first\":");
    reveal_strlit("}");
    assert(all_ws("\n      "@));
    assert(all_ws(" "@));
    let r2: Seq<char> = opt_last_field(last) + opt_tail(half_check) + suf;
    let r1: Seq<char> = " "@ + spec_opt_int_token(first) + r2;
    let r0: Seq<char> = "\n      "@ + "\"first\":"@ + r1;
    let p0: Seq<char> = pre;
    let p1: Seq<char> = p0 + Seq::<char>::empty() + ","@;
    let p2: Seq<char> = p1 + "\n      "@ + "\"first\":"@;
    assert(s =~= p0 + Seq::<char>::empty() + ","@ + r0);
    lemma_parse_lit_mismatch(p0, Seq::<char>::empty(), ","@, "}"@, r0, 0);
    lemma_parse_lit_at(p0, Seq::<char>::empty(), ","@, r0);
    lemma_assoc_step(p0, Seq::<char>::empty(), ","@, "\n      "@, "\"first\":"@, r1);
    assert(s == p1 + "\n      "@ + "\"first\":"@ + r1);
    lemma_parse_lit_at(p1, "\n      "@, "\"first\":"@, r1);
    lemma_assoc_step(p1, "\n      "@, "\"first\":"@, " "@, spec_opt_int_token(first), r2);
    assert(s == p2 + " "@ + spec_opt_int_token(first) + r2);
    assert(r2[0] == ',');
    assert(!is_digit_char(r2[0]));
    lemma_parse_opt_i32_at(p2, " "@, first, r2);
    let pe: Seq<char> = p2 + " "@ + spec_opt_int_token(first);
    assert(s =~= pe + opt_last_field(last) + opt_tail(half_check) + suf);
    lemma_parse_opts3_first_at(pe, first, last, half_check, suf);
    assert(pe =~= pre + opt_first_field(first));
}

#[verifier::rlimit(100)]
#[verifier::spinoff_prover]
proof fn lemma_parse_opts2_first_at(
    pre: Seq<char>,
    first: Option<i32>,
    last: Option<i32>,
    suf: Seq<char>,
)
    ensures
        spec_parse_opts2_first(
            pre + opt_last_field(last) + "\n    "@ + "}"@ + suf,
            pre.len() as int,
            first,
        ) == Some(
            (
                (first, last),
                (pre.len() + opt_last_field(last).len() + "\n    "@.len() + "}"@.len()) as int,
            ),
        ),
{
    reveal(spec_parse_opts2_first);
    let s = pre + opt_last_field(last) + "\n    "@ + "}"@ + suf;
    reveal_strlit(",");
    reveal_strlit("\n      ");
    reveal_strlit(" ");
    reveal_strlit("\"last\":");
    reveal_strlit("\n    ");
    reveal_strlit("}");
    assert(all_ws("\n      "@));
    assert(all_ws(" "@));
    assert(all_ws("\n    "@));
    let r3: Seq<char> = suf;
    let r2: Seq<char> = "\n    "@ + "}"@ + r3;
    let r1: Seq<char> = " "@ + spec_opt_int_token(last) + r2;
    let r0: Seq<char> = "\n      "@ + "\"last\":"@ + r1;
    let p0: Seq<char> = pre;
    let p1: Seq<char> = p0 + Seq::<char>::empty() + ","@;
    let p2: Seq<char> = p1 + "\n      "@ + "\"last\":"@;
    let p3: Seq<char> = p2 + " "@ + spec_opt_int_token(last);
    assert(s =~= p0 + Seq::<char>::empty() + ","@ + r0);
    lemma_parse_lit_mismatch(p0, Seq::<char>::empty(), ","@, "}"@, r0, 0);
    lemma_parse_lit_at(p0, Seq::<char>::empty(), ","@, r0);
    lemma_assoc_step(p0, Seq::<char>::empty(), ","@, "\n      "@, "\"last\":"@, r1);
    assert(s == p1 + "\n      "@ + "\"last\":"@ + r1);
    lemma_parse_lit_at(p1, "\n      "@, "\"last\":"@, r1);
    lemma_assoc_step(p1, "\n      "@, "\"last\":"@, " "@, spec_opt_int_token(last), r2);
    assert(s == p2 + " "@ + spec_opt_int_token(last) + r2);
    assert(r2[0] == '\n');
    assert(!is_digit_char(r2[0]));
    lemma_parse_opt_i32_at(p2, " "@, last, r2);
    lemma_assoc_step(p2, " "@, spec_opt_int_token(last), "\n    "@, "}"@, r3);
    assert(s == p3 + "\n    "@ + "}"@ + r3);
    lemma_parse_lit_at(p3, "\n    "@, "}"@, r3);
    assert(p3 + "\n    "@ + "}"@ =~= pre + opt_last_field(last) + "\n    "@ + "}"@);
}

#[verifier::rlimit(100)]
#[verifier::spinoff_prover]
proof fn lemma_parse_opts2_at(pre: Seq<char>, first: Option<i32>, last: Option<i32>, suf: Seq<char>)
    ensures
        spec_parse_opts2(pre + eas_b2(first, last) + suf, pre.len() as int) == Some(
            ((first, last), (pre.len() + eas_b2(first, last).len()) as int),
        ),
{
    reveal(spec_parse_opts2);
    let s = pre + eas_b2(first, last) + suf;
    reveal_strlit(",");
    reveal_strlit("\n      ");
    reveal_strlit(" ");
    reveal_strlit("\"first\":");
    reveal_strlit("}");
    assert(all_ws("\n      "@));
    assert(all_ws(" "@));
    let r2: Seq<char> = opt_last_field(last) + "\n    "@ + "}"@ + suf;
    let r1: Seq<char> = " "@ + spec_opt_int_token(first) + r2;
    let r0: Seq<char> = "\n      "@ + "\"first\":"@ + r1;
    let p0: Seq<char> = pre;
    let p1: Seq<char> = p0 + Seq::<char>::empty() + ","@;
    let p2: Seq<char> = p1 + "\n      "@ + "\"first\":"@;
    assert(s =~= p0 + Seq::<char>::empty() + ","@ + r0);
    lemma_parse_lit_mismatch(p0, Seq::<char>::empty(), ","@, "}"@, r0, 0);
    lemma_parse_lit_at(p0, Seq::<char>::empty(), ","@, r0);
    lemma_assoc_step(p0, Seq::<char>::empty(), ","@, "\n      "@, "\"first\":"@, r1);
    assert(s == p1 + "\n      "@ + "\"first\":"@ + r1);
    lemma_parse_lit_at(p1, "\n      "@, "\"first\":"@, r1);
    lemma_assoc_step(p1, "\n      "@, "\"first\":"@, " "@, spec_opt_int_token(first), r2);
    assert(s == p2 + " "@ + spec_opt_int_token(first) + r2);
    assert(r2[0] == ',');
    assert(!is_digit_char(r2[0]));
    lemma_parse_opt_i32_at(p2, " "@, first, r2);
    let pe: Seq<char> = p2 + " "@ + spec_opt_int_token(first);
    assert(s =~= pe + opt_last_field(last) + "\n    "@ + "}"@ + suf);
    lemma_parse_opts2_first_at(pe, first, last, suf);
    assert(pe =~= pre + opt_first_field(first));
}

#[verifier::rlimit(100)]
#[verifier::spinoff_prover]
proof fn lemma_parse_mov_b1a_red(pre: Seq<char>, w: Seq<char>, month: u32, suf: Seq<char>)
    requires
        all_ws(w),
        suf.len() == 0 || !is_digit_char(suf[0]),
    ensures
        spec_parse_movable_fields(pre + w + mov_b1a(month) + suf, pre.len() as int)
            == spec_parse_mov_day(
            pre + w + mov_b1a(month) + suf,
            (pre.len() + w.len() + mov_b1a(month).len()) as int,
            month,
        ),
{
    reveal(spec_parse_movable_fields);
    let s = pre + w + mov_b1a(month) + suf;
    reveal_strlit("\n      ");
    reveal_strlit(" ");
    reveal_strlit("\"month\":");
    reveal_strlit("{");
    assert(all_ws("\n      "@));
    assert(all_ws(" "@));
    let r2: Seq<char> = suf;
    let r1: Seq<char> = " "@ + spec_dec_digits(month as int) + r2;
    let r0: Seq<char> = "\n      "@ + "\"month\":"@ + r1;
    let p0: Seq<char> = pre;
    let p1: Seq<char> = p0 + w + "{"@;
    let p2: Seq<char> = p1 + "\n      "@ + "\"month\":"@;
    assert(s =~= p0 + w + "{"@ + r0);
    lemma_parse_lit_at(p0, w, "{"@, r0);
    lemma_assoc_step(p0, w, "{"@, "\n      "@, "\"month\":"@, r1);
    assert(s == p1 + "\n      "@ + "\"month\":"@ + r1);
    lemma_parse_lit_at(p1, "\n      "@, "\"month\":"@, r1);
    lemma_assoc_step(p1, "\n      "@, "\"month\":"@, " "@, spec_dec_digits(month as int), r2);
    assert(s == p2 + " "@ + spec_dec_digits(month as int) + r2);
    assert(spec_int_token(month as int) == spec_dec_digits(month as int));
    lemma_parse_number_at(p2, " "@, month as int, r2);
    assert(p2 + " "@ + spec_dec_digits(month as int) =~= pre + w + mov_b1a(month));
}

#[verifier::rlimit(100)]
#[verifier::spinoff_prover]
proof fn lemma_parse_mov_day_red(pre: Seq<char>, month: u32, day: u32, suf: Seq<char>)
    requires
        suf.len() == 0 || !is_digit_char(suf[0]),
    ensures
        spec_parse_mov_day(pre + mov_b1b(day) + suf, pre.len() as int, month)
            == spec_parse_mov_opts(
            pre + mov_b1b(day) + suf,
            (pre.len() + mov_b1b(day).len()) as int,
            month,
            day,
        ),
{
    reveal(spec_parse_mov_day);
    let s = pre + mov_b1b(day) + suf;
    reveal_strlit("\n      ");
    reveal_strlit(" ");
    reveal_strlit("\"day\":");
    reveal_strlit(",");
    assert(all_ws("\n      "@));
    assert(all_ws(" "@));
    let r2: Seq<char> = suf;
    let r1: Seq<char> = " "@ + spec_dec_digits(day as int) + r2;
    let r0: Seq<char> = "\n      "@ + "\"day\":"@ + r1;
    let p0: Seq<char> = pre;
    let p1: Seq<char> = p0 + Seq::<char>::empty() + ","@;
    let p2: Seq<char> = p1 + "\n      "@ + "\"day\":"@;
    assert(s =~= p0 + Seq::<char>::empty() + ","@ + r0);
    lemma_parse_lit_at(p0, Seq::<char>::empty(), ","@, r0);
    lemma_assoc_step(p0, Seq::<char>::empty(), ","@, "\n      "@, "\"day\":"@, r1);
    assert(s == p1 + "\n      "@ + "\"day\":"@ + r1);
    lemma_parse_lit_at(p1, "\n      "@, "\"day\":"@, r1);
    lemma_assoc_step(p1, "\n      "@, "\"day\":"@, " "@, spec_dec_digits(day as int), r2);
    assert(s == p2 + " "@ + spec_dec_digits(day as int) + r2);
    assert(spec_int_token(day as int) == spec_dec_digits(day as int));
    lemma_parse_number_at(p2, " "@, day as int, r2);
    assert(p2 + " "@ + spec_dec_digits(day as int) =~= pre + mov_b1b(day));
}

#[verifier::rlimit(100)]
#[verifier::spinoff_prover]
proof fn lemma_parse_eas_b1_red(pre: Seq<char>, w: Seq<char>, offset: i32, suf: Seq<char>)
    requires
        all_ws(w),
        suf.len() == 0 || !is_digit_char(suf[0]),
    ensures
        spec_parse_easter_fields(pre + w + eas_b1(offset) + suf, pre.len() as int) == spec_parse_eas_opts(pre + w + eas_b1(offset) + suf, (pre.len() + w.len() + eas_b1(offset).len()) as int, offset),
{
    reveal(spec_parse_easter_fields);
    let s = pre + w + eas_b1(offset) + suf;
    reveal_strlit("\n      ");
    reveal_strlit(" ");
    reveal_strlit("\"offset\":");
    reveal_strlit("{");
    assert(all_ws("\n      "@));
    assert(all_ws(" "@));
    let r2: Seq<char> = suf;
    let r1: Seq<char> = " "@ + spec_int_token(offset as int) + r2;
    let r0: Seq<char> = "\n      "@ + "\"offset\":"@ + r1;
    let p0: Seq<char> = pre;
    let p1: Seq<char> = p0 + w + "{"@;
    let p2: Seq<char> = p1 + "\n      "@ + "\"offset\":"@;
    assert(s =~= p0 + w + "{"@ + r0);
    lemma_parse_lit_at(p0, w, "{"@, r0);
    lemma_assoc_step(p0, w, "{"@, "\n      "@, "\"offset\":"@, r1);
    assert(s == p1 + "\n      "@ + "\"offset\":"@ + r1);
    lemma_parse_lit_at(p1, "\n      "@, "\"offset\":"@, r1);
    lemma_assoc_step(p1, "\n      "@, "\"offset\":"@, " "@, spec_int_token(offset as int), r2);
    assert(s == p2 + " "@ + spec_int_token(offset as int) + r2);
    lemma_parse_number_at(p2, " "@, offset as int, r2);
    assert(p2 + " "@ + spec_int_token(offset as int) =~= pre + w + eas_b1(offset));
}

#[verifier::rlimit(100)]
#[verifier::spinoff_prover]
proof fn lemma_parse_mw_kinds_red(pre: Seq<char>, month: u32, weekday: Weekday, nth: NthWeek, suf: Seq<char>)
    ensures
        spec_parse_mw_kinds(pre + mw_kinds(weekday, nth) + suf, pre.len() as int, month) == spec_parse_mw_opts(pre + mw_kinds(weekday, nth) + suf, (pre.len() + mw_kinds(weekday, nth).len()) as int, month, weekday, nth),
{
    reveal(spec_parse_mw_kinds);
    let s = pre + mw_kinds(weekday, nth) + suf;
    reveal_strlit("\n      ");
    reveal_strlit(" ");
    reveal_strlit("\"nth\":");
    reveal_strlit("\"weekday\":");
    reveal_strlit(",");
    assert(all_ws("\n      "@));
    assert(all_ws(" "@));
    let r5: Seq<char> = suf;
    let r4: Seq<char> = " "@ + spec_nth_token(nth) + r5;
    let r3: Seq<char> = "\n      "@ + "\"nth\":"@ + r4;
    let r2: Seq<char> = Seq::<char>::empty() + ","@ + r3;
    let r1: Seq<char> = " "@ + spec_weekday_token(weekday) + r2;
    let r0: Seq<char> = "\n      "@ + "\"weekday\":"@ + r1;
    let p0: Seq<char> = pre;
    let p1: Seq<char> = p0 + Seq::<char>::empty() + ","@;
    let p2: Seq<char> = p1 + "\n      "@ + "\"weekday\":"@;
    let p3: Seq<char> = p2 + " "@ + spec_weekday_token(weekday);
    let p4: Seq<char> = p3 + Seq::<char>::empty() + ","@;
    let p5: Seq<char> = p4 + "\n      "@ + "\"nth\":"@;
    assert(s =~= p0 + Seq::<char>::empty() + ","@ + r0);
    lemma_parse_lit_at(p0, Seq::<char>::empty(), ","@, r0);
    lemma_assoc_step(p0, Seq::<char>::empty(), ","@, "\n      "@, "\"weekday\":"@, r1);
    assert(s == p1 + "\n      "@ + "\"weekday\":"@ + r1);
    lemma_parse_lit_at(p1, "\n      "@, "\"weekday\":"@, r1);
    lemma_assoc_step(p1, "\n      "@, "\"weekday\":"@, " "@, spec_weekday_token(weekday), r2);
    assert(s == p2 + " "@ + spec_weekday_token(weekday) + r2);
    lemma_parse_weekday_at(p2, " "@, weekday, r2);
    lemma_assoc_step(p2, " "@, spec_weekday_token(weekday), Seq::<char>::empty(), ","@, r3);
    assert(s == p3 + Seq::<char>::empty() + ","@ + r3);
    lemma_parse_lit_at(p3, Seq::<char>::empty(), ","@, r3);
    lemma_assoc_step(p3, Seq::<char>::empty(), ","@, "\n      "@, "\"nth\":"@, r4);
    assert(s == p4 + "\n      "@ + "\"nth\":"@ + r4);
    lemma_parse_lit_at(p4, "\n      "@, "\"nth\":"@, r4);
    lemma_assoc_step(p4, "\n      "@, "\"nth\":"@, " "@, spec_nth_token(nth), r5);
    assert(s == p5 + " "@ + spec_nth_token(nth) + r5);
    lemma_parse_nth_at(p5, " "@, nth, r5);
    assert(p5 + " "@ + spec_nth_token(nth) =~= pre + mw_kinds(weekday, nth));
}

#[verifier::rlimit(100)]
#[verifier::spinoff_prover]
proof fn lemma_parse_mw_b1_red(pre: Seq<char>, w: Seq<char>, month: u32, suf: Seq<char>)
    requires
        all_ws(w),
        suf.len() == 0 || !is_digit_char(suf[0]),
    ensures
        spec_parse_mw_fields(pre + w + mw_b1(month) + suf, pre.len() as int) == spec_parse_mw_kinds(pre + w + mw_b1(month) + suf, (pre.len() + w.len() + mw_b1(month).len()) as int, month),
{
    reveal(spec_parse_mw_fields);
    let s = pre + w + mw_b1(month) + suf;
    reveal_strlit("\n      ");
    reveal_strlit(" ");
    reveal_strlit("\"month\":");
    reveal_strlit("{");
    assert(all_ws("\n      "@));
    assert(all_ws(" "@));
    let r2: Seq<char> = suf;
    let r1: Seq<char> = " "@ + spec_dec_digits(month as int) + r2;
    let r0: Seq<char> = "\n      "@ + "\"month\":"@ + r1;
    let p0: Seq<char> = pre;
    let p1: Seq<char> = p0 + w + "{"@;
    let p2: Seq<char> = p1 + "\n      "@ + "\"month\":"@;
    assert(s =~= p0 + w + "{"@ + r0);
    lemma_parse_lit_at(p0, w, "{"@, r0);
    lemma_assoc_step(p0, w, "{"@, "\n      "@, "\"month\":"@, r1);
    assert(s == p1 + "\n      "@ + "\"month\":"@ + r1);
    lemma_parse_lit_at(p1, "\n      "@, "\"month\":"@, r1);
    lemma_assoc_step(p1, "\n      "@, "\"month\":"@, " "@, spec_dec_digits(month as int), r2);
    assert(s == p2 + " "@ + spec_dec_digits(month as int) + r2);
    assert(spec_int_token(month as int) == spec_dec_digits(month as int));
    lemma_parse_number_at(p2, " "@, month as int, r2);
    assert(p2 + " "@ + spec_dec_digits(month as int) =~= pre + w + mw_b1(month));
}

#[verifier::rlimit(100)]
#[verifier::spinoff_prover]
proof fn lemma_parse_mw_fields_at(pre: Seq<char>, w: Seq<char>, month: u32, weekday: Weekday, nth: NthWeek, first: Option<i32>, last: Option<i32>, half_check: Option<HalfCheck>, suf: Seq<char>)
    requires
        all_ws(w),
    ensures
        spec_parse_mw_fields(pre + w + mw_body(month, weekday, nth, first, last, half_check) + suf, pre.len() as int) == Some(
            (
                Holiday::MonthWeekday { month, weekday, nth, first, last, half_check },
                (pre.len() + w.len() + mw_body(month, weekday, nth, first, last, half_check).len()) as int,
            ),
        ),
{
    let b1 = mw_b1(month);
    let bk = mw_kinds(weekday, nth);
    let ob = opt_bounds(first, last);
    let ot = opt_tail(half_check);
    let s = pre + w + mw_body(month, weekday, nth, first, last, half_check) + suf;
    reveal_strlit(",");
    assert(bk[0] == ',');
    assert(ob[0] == ',');
    assert(ot[0] == ',');
    assert(s =~= pre + w + b1 + (bk + ob + ot + suf));
    assert((bk + ob + ot + suf)[0] == ',');
    assert(!is_digit_char((bk + ob + ot + suf)[0]));
    lemma_parse_mw_b1_red(pre, w, month, bk + ob + ot + suf);
    let pre2 = pre + w + b1;
    assert(s =~= pre2 + bk + (ob + ot + suf));
    lemma_parse_mw_kinds_red(pre2, month, weekday, nth, ob + ot + suf);
    let pre3 = pre2 + bk;
    assert(s =~= pre3 + opt_first_field(first) + opt_last_field(last) + ot + suf);
    lemma_parse_opts3_at(pre3, first, last, half_check, suf);
    assert(pre3 + ob + ot =~= pre + w + mw_body(month, weekday, nth, first, last, half_check));
}
#[verifier::rlimit(100)]
#[verifier::spinoff_prover]
proof fn lemma_parse_movable_fields_at(pre: Seq<char>, w: Seq<char>, month: u32, day: u32, first: Option<i32>, last: Option<i32>, half_check: Option<HalfCheck>, suf: Seq<char>)
    requires
        all_ws(w),
    ensures
        spec_parse_movable_fields(pre + w + movable_body(month, day, first, last, half_check) + suf, pre.len() as int) == Some(
            (
                Holiday::MovableYearlyDay { month, day, first, last, half_check },
                (pre.len() + w.len() + movable_body(month, day, first, last, half_check).len()) as int,
            ),
        ),
{
    let b1a = mov_b1a(month);
    let b1b = mov_b1b(day);
    let ob = opt_bounds(first, last);
    let ot = opt_tail(half_check);
    let s = pre + w + movable_body(month, day, first, last, half_check) + suf;
    reveal_strlit(",");
    assert(b1b[0] == ',');
    assert(ob[0] == ',');
    assert(ot[0] == ',');
    assert(s =~= pre + w + b1a + (b1b + ob + ot + suf));
    assert((b1b + ob + ot + suf)[0] == ',');
    assert(!is_digit_char((b1b + ob + ot + suf)[0]));
    lemma_parse_mov_b1a_red(pre, w, month, b1b + ob + ot + suf);
    let pre1 = pre + w + b1a;
    assert(s =~= pre1 + b1b + (ob + ot + suf));
    assert((ob + ot + suf)[0] == ',');
    assert(!is_digit_char((ob + ot + suf)[0]));
    lemma_parse_mov_day_red(pre1, month, day, ob + ot + suf);
    let pre2 = pre1 + b1b;
    assert(s =~= pre2 + opt_first_field(first) + opt_last_field(last) + ot + suf);
    lemma_parse_opts3_at(pre2, first, last, half_check, suf);
    assert(pre2 + ob + ot =~= pre + w + movable_body(month, day, first, last, half_check));
}

#[verifier::rlimit(100)]
#[verifier::spinoff_prover]
proof fn lemma_parse_easter_fields_at(pre: Seq<char>, w: Seq<char>, offset: i32, first: Option<i32>, last: Option<i32>, suf: Seq<char>)
    requires
        all_ws(w),
    ensures
        spec_parse_easter_fields(pre + w + easter_body(offset, first, last) + suf, pre.len() as int) == Some(
            (
                Holiday::EasterOffset { offset, first, last },
                (pre.len() + w.len() + easter_body(offset, first, last).len()) as int,
            ),
        ),
{
    let b1 = eas_b1(offset);
    let b2 = eas_b2(first, last);
    let s = pre + w + easter_body(offset, first, last) + suf;
    reveal_strlit(",");
    assert(b2[0] == ',');
    assert(s =~= pre + w + b1 + (b2 + suf));
    assert((b2 + suf)[0] == ',');
    assert(!is_digit_char((b2 + suf)[0]));
    lemma_parse_eas_b1_red(pre, w, offset, b2 + suf);
    let pre2 = pre + w + b1;
    assert(s =~= pre2 + b2 + suf);
    lemma_parse_opts2_at(pre2, first, last, suf);
    assert(pre2 + b2 =~= pre + w + easter_body(offset, first, last));
}

#[verifier::rlimit(100)]
#[verifier::spinoff_prover]
proof fn lemma_parse_rule_weekday_at(pre: Seq<char>, w: Seq<char>, wd: Weekday, suf: Seq<char>)
    requires
        all_ws(w),
    ensures
        spec_parse_rule(pre + w + spec_encode_rule(Holiday::WeekDay(wd)) + suf, pre.len() as int)
            == Some(
            (
                Holiday::WeekDay(wd),
                (pre.len() + w.len() + spec_encode_rule(Holiday::WeekDay(wd)).len()) as int,
            ),
        ),
{
    reveal(spec_parse_rule);
    let tok = spec_weekday_token(wd);
    let s = pre + w + spec_encode_rule(Holiday::WeekDay(wd)) + suf;
    reveal_strlit("{");
    reveal_strlit("}");
    reveal_strlit("\n    ");
    reveal_strlit(" ");
    reveal_strlit("\n  ");
    reveal_strlit("\"WeekDay\":");
    assert(all_ws("\n    "@));
    assert(all_ws(" "@));
    assert(all_ws("\n  "@));
    let r3: Seq<char> = suf;
    let r2: Seq<char> = "\n  "@ + "}"@ + r3;
    let r1: Seq<char> = " "@ + tok + r2;
    let r0: Seq<char> = "\n    "@ + "\"WeekDay\":"@ + r1;
    let p0: Seq<char> = pre;
    let p1: Seq<char> = p0 + w + "{"@;
    let p2: Seq<char> = p1 + "\n    "@ + "\"WeekDay\":"@;
    let p3: Seq<char> = p2 + " "@ + tok;
    assert(s =~= p0 + w + "{"@ + r0);
    lemma_parse_lit_at(p0, w, "{"@, r0);
    lemma_assoc_step(p0, w, "{"@, "\n    "@, "\"WeekDay\":"@, r1);
    assert(s == p1 + "\n    "@ + "\"WeekDay\":"@ + r1);
    lemma_parse_lit_at(p1, "\n    "@, "\"WeekDay\":"@, r1);
    lemma_assoc_step(p1, "\n    "@, "\"WeekDay\":"@, " "@, tok, r2);
    assert(s == p2 + " "@ + tok + r2);
    lemma_parse_weekday_at(p2, " "@, wd, r2);
    lemma_assoc_step(p2, " "@, tok, "\n  "@, "}"@, r3);
    assert(s == p3 + "\n  "@ + "}"@ + r3);
    lemma_parse_lit_at(p3, "\n  "@, "}"@, r3);
    assert(p3 + "\n  "@ + "}"@ =~= pre + w + spec_encode_rule(Holiday::WeekDay(wd)));
}

#[verifier::rlimit(100)]
#[verifier::spinoff_prover]
proof fn lemma_parse_rule_singular_at(pre: Seq<char>, w: Seq<char>, d: Date, suf: Seq<char>)
    requires
        all_ws(w),
        d.valid(),
    ensures
        spec_parse_rule(
            pre + w + spec_encode_rule(Holiday::SingularDay(d)) + suf,
            pre.len() as int,
        ) == Some(
            (
                Holiday::SingularDay(d),
                (pre.len() + w.len() + spec_encode_rule(Holiday::SingularDay(d)).len()) as int,
            ),
        ),
{
    reveal(spec_parse_rule);
    let tok = spec_date_token(d);
    reveal_strlit("\"");
    reveal_strlit("-");
    lemma_pad4_digits(spec_pad4(d.year as int), d.year as int);
    lemma_pad2_digits(spec_pad2(d.month as int), d.month as int);
    lemma_pad2_digits(spec_pad2(d.day as int), d.day as int);
    assert(tok.len() == 12);
    let s = pre + w + spec_encode_rule(Holiday::SingularDay(d)) + suf;
    reveal_strlit("{");
    reveal_strlit("}");
    reveal_strlit("\n    ");
    reveal_strlit(" ");
    reveal_strlit("\n  ");
    reveal_strlit("\"WeekDay\":");
    reveal_strlit("\"SingularDay\":");
    assert(all_ws("\n    "@));
    assert(all_ws(" "@));
    assert(all_ws("\n  "@));
    let r3: Seq<char> = suf;
    let r2: Seq<char> = "\n  "@ + "}"@ + r3;
    let r1: Seq<char> = " "@ + tok + r2;
    let r0: Seq<char> = "\n    "@ + "\"SingularDay\":"@ + r1;
    let p0: Seq<char> = pre;
    let p1: Seq<char> = p0 + w + "{"@;
    let p2: Seq<char> = p1 + "\n    "@ + "\"SingularDay\":"@;
    let p3: Seq<char> = p2 + " "@ + tok;
    assert(s =~= p0 + w + "{"@ + r0);
    lemma_parse_lit_at(p0, w, "{"@, r0);
    lemma_parse_lit_mismatch(p1, "\n    "@, "\"SingularDay\":"@, "\"WeekDay\":"@, r1, 1);
    lemma_assoc_step(p0, w, "{"@, "\n    "@, "\"SingularDay\":"@, r1);
    assert(s == p1 + "\n    "@ + "\"SingularDay\":"@ + r1);
    lemma_parse_lit_at(p1, "\n    "@, "\"SingularDay\":"@, r1);
    lemma_assoc_step(p1, "\n    "@, "\"SingularDay\":"@, " "@, tok, r2);
    assert(s == p2 + " "@ + tok + r2);
    lemma_parse_date_at(p2, " "@, d, r2);
    lemma_assoc_step(p2, " "@, tok, "\n  "@, "}"@, r3);
    assert(s == p3 + "\n  "@ + "}"@ + r3);
    lemma_parse_lit_at(p3, "\n  "@, "}"@, r3);
    assert(p3 + "\n  "@ + "}"@ =~= pre + w + spec_encode_rule(Holiday::SingularDay(d)));
}

#[verifier::rlimit(100)]
#[verifier::spinoff_prover]
proof fn lemma_parse_rule_movable_at(
    pre: Seq<char>,
    w: Seq<char>,
    month: u32,
    day: u32,
    first: Option<i32>,
    last: Option<i32>,
    half_check: Option<HalfCheck>,
    suf: Seq<char>,
)
    requires
        all_ws(w),
    ensures
        ({
            let rule = Holiday::MovableYearlyDay { month, day, first, last, half_check };
            spec_parse_rule(pre + w + spec_encode_rule(rule) + suf, pre.len() as int) == Some(
                (rule, (pre.len() + w.len() + spec_encode_rule(rule).len()) as int),
            )
        }),
{
    reveal(spec_parse_rule);
    let rule = Holiday::MovableYearlyDay { month, day, first, last, half_check };
    let body = movable_body(month, day, first, last, half_check);
    let s = pre + w + spec_encode_rule(rule) + suf;
    reveal_strlit("{");
    reveal_strlit("}");
    reveal_strlit("\n    ");
    reveal_strlit(" ");
    reveal_strlit("\n  ");
    reveal_strlit("\"WeekDay\":");
    reveal_strlit("\"SingularDay\":");
    reveal_strlit("\"MovableYearlyDay\":");
    assert(all_ws("\n    "@));
    assert(all_ws(" "@));
    assert(all_ws("\n  "@));
    let r3: Seq<char> = suf;
    let r2: Seq<char> = "\n  "@ + "}"@ + r3;
    let r1: Seq<char> = " "@ + body + r2;
    let r0: Seq<char> = "\n    "@ + "\"MovableYearlyDay\":"@ + r1;
    let p0: Seq<char> = pre;
    let p1: Seq<char> = p0 + w + "{"@;
    let p2: Seq<char> = p1 + "\n    "@ + "\"MovableYearlyDay\":"@;
    let p3: Seq<char> = p2 + " "@ + body;
    assert(s =~= p0 + w + "{"@ + r0);
    lemma_parse_lit_at(p0, w, "{"@, r0);
    lemma_parse_lit_mismatch(p1, "\n    "@, "\"MovableYearlyDay\":"@, "\"WeekDay\":"@, r1, 1);
    lemma_parse_lit_mismatch(p1, "\n    "@, "\"MovableYearlyDay\":"@, "\"SingularDay\":"@, r1, 1);
    lemma_assoc_step(p0, w, "{"@, "\n    "@, "\"MovableYearlyDay\":"@, r1);
    assert(s == p1 + "\n    "@ + "\"MovableYearlyDay\":"@ + r1);
    lemma_parse_lit_at(p1, "\n    "@, "\"MovableYearlyDay\":"@, r1);
    lemma_assoc_step(p1, "\n    "@, "\"MovableYearlyDay\":"@, " "@, body, r2);
    assert(s == p2 + " "@ + body + r2);
    lemma_parse_movable_fields_at(p2, " "@, month, day, first, last, half_check, r2);
    lemma_assoc_step(p2, " "@, body, "\n  "@, "}"@, r3);
    assert(s == p3 + "\n  "@ + "}"@ + r3);
    lemma_parse_lit_at(p3, "\n  "@, "}"@, r3);
    assert(p3 + "\n  "@ + "}"@ =~= pre + w + spec_encode_rule(rule));
}

#[verifier::rlimit(100)]
#[verifier::spinoff_prover]
proof fn lemma_parse_rule_easter_at(
    pre: Seq<char>,
    w: Seq<char>,
    offset: i32,
    first: Option<i32>,
    last: Option<i32>,
    suf: Seq<char>,
)
    requires
        all_ws(w),
    ensures
        ({
            let rule = Holiday::EasterOffset { offset, first, last };
            spec_parse_rule(pre + w + spec_encode_rule(rule) + suf, pre.len() as int) == Some(
                (rule, (pre.len() + w.len() + spec_encode_rule(rule).len()) as int),
            )
        }),
{
    reveal(spec_parse_rule);
    let rule = Holiday::EasterOffset { offset, first, last };
    let body = easter_body(offset, first, last);
    let s = pre + w + spec_encode_rule(rule) + suf;
    reveal_strlit("{");
    reveal_strlit("}");
    reveal_strlit("\n    ");
    reveal_strlit(" ");
    reveal_strlit("\n  ");
    reveal_strlit("\"WeekDay\":");
    reveal_strlit("\"SingularDay\":");
    reveal_strlit("\"MovableYearlyDay\":");
    reveal_strlit("\"EasterOffset\":");
    assert(all_ws("\n    "@));
    assert(all_ws(" "@));
    assert(all_ws("\n  "@));
    let r3: Seq<char> = suf;
    let r2: Seq<char> = "\n  "@ + "}"@ + r3;
    let r1: Seq<char> = " "@ + body + r2;
    let r0: Seq<char> = "\n    "@ + "\"EasterOffset\":"@ + r1;
    let p0: Seq<char> = pre;
    let p1: Seq<char> = p0 + w + "{"@;
    let p2: Seq<char> = p1 + "\n    "@ + "\"EasterOffset\":"@;
    let p3: Seq<char> = p2 + " "@ + body;
    assert(s =~= p0 + w + "{"@ + r0);
    lemma_parse_lit_at(p0, w, "{"@, r0);
    lemma_parse_lit_mismatch(p1, "\n    "@, "\"EasterOffset\":"@, "\"WeekDay\":"@, r1, 1);
    lemma_parse_lit_mismatch(p1, "\n    "@, "\"EasterOffset\":"@, "\"SingularDay\":"@, r1, 1);
    lemma_parse_lit_mismatch(p1, "\n    "@, "\"EasterOffset\":"@, "\"MovableYearlyDay\":"@, r1, 1);
    lemma_assoc_step(p0, w, "{"@, "\n    "@, "\"EasterOffset\":"@, r1);
    assert(s == p1 + "\n    "@ + "\"EasterOffset\":"@ + r1);
    lemma_parse_lit_at(p1, "\n    "@, "\"EasterOffset\":"@, r1);
    lemma_assoc_step(p1, "\n    "@, "\"EasterOffset\":"@, " "@, body, r2);
    assert(s == p2 + " "@ + body + r2);
    lemma_parse_easter_fields_at(p2, " "@, offset, first, last, r2);
    lemma_assoc_step(p2, " "@, body, "\n  "@, "}"@, r3);
    assert(s == p3 + "\n  "@ + "}"@ + r3);
    lemma_parse_lit_at(p3, "\n  "@, "}"@, r3);
    assert(p3 + "\n  "@ + "}"@ =~= pre + w + spec_encode_rule(rule));
}

#[verifier::rlimit(100)]
#[verifier::spinoff_prover]
proof fn lemma_parse_rule_mw_at(
    pre: Seq<char>,
    w: Seq<char>,
    month: u32,
    weekday: Weekday,
    nth: NthWeek,
    first: Option<i32>,
    last: Option<i32>,
    half_check: Option<HalfCheck>,
    suf: Seq<char>,
)
    requires
        all_ws(w),
    ensures
        ({
            let rule = Holiday::MonthWeekday { month, weekday, nth, first, last, half_check };
            spec_parse_rule(pre + w + spec_encode_rule(rule) + suf, pre.len() as int) == Some(
                (rule, (pre.len() + w.len() + spec_encode_rule(rule).len()) as int),
            )
        }),
{
    reveal(spec_parse_rule);
    let rule = Holiday::MonthWeekday { month, weekday, nth, first, last, half_check };
    let body = mw_body(month, weekday, nth, first, last, half_check);
    let s = pre + w + spec_encode_rule(rule) + suf;
    reveal_strlit("{");
    reveal_strlit("}");
    reveal_strlit("\n    ");
    reveal_strlit(" ");
    reveal_strlit("\n  ");
    reveal_strlit("\"WeekDay\":");
    reveal_strlit("\"SingularDay\":");
    reveal_strlit("\"MovableYearlyDay\":");
    reveal_strlit("\"EasterOffset\":");
    reveal_strlit("\"MonthWeekday\":");
    assert(all_ws("\n    "@));
    assert(all_ws(" "@));
    assert(all_ws("\n  "@));
    let r3: Seq<char> = suf;
    let r2: Seq<char> = "\n  "@ + "}"@ + r3;
    let r1: Seq<char> = " "@ + body + r2;
    let r0: Seq<char> = "\n    "@ + "\"MonthWeekday\":"@ + r1;
    let p0: Seq<char> = pre;
    let p1: Seq<char> = p0 + w + "{"@;
    let p2: Seq<char> = p1 + "\n    "@ + "\"MonthWeekday\":"@;
    let p3: Seq<char> = p2 + " "@ + body;
    assert(s =~= p0 + w + "{"@ + r0);
    lemma_parse_lit_at(p0, w, "{"@, r0);
    lemma_parse_lit_mismatch(p1, "\n    "@, "\"MonthWeekday\":"@, "\"WeekDay\":"@, r1, 1);
    lemma_parse_lit_mismatch(p1, "\n    "@, "\"MonthWeekday\":"@, "\"SingularDay\":"@, r1, 1);
    lemma_parse_lit_mismatch(p1, "\n    "@, "\"MonthWeekday\":"@, "\"MovableYearlyDay\":"@, r1, 3);
    lemma_parse_lit_mismatch(p1, "\n    "@, "\"MonthWeekday\":"@, "\"EasterOffset\":"@, r1, 1);
    lemma_assoc_step(p0, w, "{"@, "\n    "@, "\"MonthWeekday\":"@, r1);
    assert(s == p1 + "\n    "@ + "\"MonthWeekday\":"@ + r1);
    lemma_parse_lit_at(p1, "\n    "@, "\"MonthWeekday\":"@, r1);
    lemma_assoc_step(p1, "\n    "@, "\"MonthWeekday\":"@, " "@, body, r2);
    assert(s == p2 + " "@ + body + r2);
    lemma_parse_mw_fields_at(p2, " "@, month, weekday, nth, first, last, half_check, r2);
    lemma_assoc_step(p2, " "@, body, "\n  "@, "}"@, r3);
    assert(s == p3 + "\n  "@ + "}"@ + r3);
    lemma_parse_lit_at(p3, "\n  "@, "}"@, r3);
    assert(p3 + "\n  "@ + "}"@ =~= pre + w + spec_encode_rule(rule));
}

proof fn lemma_parse_rule_at(pre: Seq<char>, w: Seq<char>, rule: Holiday, suf: Seq<char>)
    requires
        all_ws(w),
        rule_encodable(rule),
    ensures
        spec_parse_rule(pre + w + spec_encode_rule(rule) + suf, pre.len() as int) == Some(
            (rule, (pre.len() + w.len() + spec_encode_rule(rule).len()) as int),
        ),
{
    match rule {
        Holiday::WeekDay(wd) => lemma_parse_rule_weekday_at(pre, w, wd, suf),
        Holiday::SingularDay(d) => lemma_parse_rule_singular_at(pre, w, d, suf),
        Holiday::MovableYearlyDay { month, day, first, last, half_check } => {
            lemma_parse_rule_movable_at(pre, w, month, day, first, last, half_check, suf);
        },
        Holiday::EasterOffset { offset, first, last } => {
            lemma_parse_rule_easter_at(pre, w, offset, first, last, suf);
        },
        Holiday::MonthWeekday { month, weekday, nth, first, last, half_check } => {
            lemma_parse_rule_mw_at(pre, w, month, weekday, nth, first, last, half_check, suf);
        },
    }
}

/// Every encoded rule begins with an opening brace.
proof fn lemma_encode_rule_head(rule: Holiday)
    ensures
        spec_encode_rule(rule).len() > 0,
        spec_encode_rule(rule)[0] == '{',
        !is_ws_char(spec_encode_rule(rule)[0]),
{
    reveal_strlit("{");
    match rule {
        Holiday::WeekDay(_) => {},
        Holiday::SingularDay(_) => {},
        Holiday::MovableYearlyDay { .. } => {},
        Holiday::EasterOffset { .. } => {},
        Holiday::MonthWeekday { .. } => {},
    }
}

#[verifier::rlimit(100)]
#[verifier::spinoff_prover]
proof fn lemma_parse_tail_encoding(rules: Seq<Holiday>, pre: Seq<char>, suf: Seq<char>)
    requires
        rules.len() >= 1,
        forall|j: int| 0 <= j < rules.len() ==> rule_encodable(#[trigger] rules[j]),
        all_ws(suf),
    ensures
        spec_parse_rules_tail(
            pre + spec_encode_items(rules) + "\n"@ + "]"@ + suf,
            pre.len() as int,
        ) == Some(
            (rules, (pre.len() + spec_encode_items(rules).len() + "\n"@.len() + "]"@.len()) as int),
        ),
    decreases rules.len(),
{
    reveal(spec_parse_rules_tail);
    reveal_strlit("\n  ");
    reveal_strlit("\n");
    reveal_strlit("]");
    reveal_strlit(",");
    assert(all_ws("\n  "@));
    assert(all_ws("\n"@));
    let items = spec_encode_items(rules);
    let enc0 = spec_encode_rule(rules[0]);
    let s = pre + items + "\n"@ + "]"@ + suf;
    lemma_encode_rule_head(rules[0]);
    if rules.len() == 1 {
        let r0: Seq<char> = "\n"@ + "]"@ + suf;
        assert(s =~= pre + "\n  "@ + enc0 + r0);
        lemma_parse_rule_at(pre, "\n  "@, rules[0], r0);
        let pe = pre + "\n  "@ + enc0;
        assert(s =~= pe + "\n"@ + "]"@ + suf);
        lemma_parse_lit_mismatch(pe, "\n"@, "]"@, ","@, suf, 0);
        lemma_parse_lit_at(pe, "\n"@, "]"@, suf);
        assert(seq![rules[0]] =~= rules);
        assert(pe + "\n"@ + "]"@ =~= pre + items + "\n"@ + "]"@);
    } else {
        let rest = rules.subrange(1, rules.len() as int);
        assert(forall|j: int|
            0 <= j < rest.len() ==> rule_encodable(#[trigger] rest[j]) && rest[j] == rules[j + 1]);
        let items_rest = spec_encode_items(rest);
        let r0: Seq<char> = ","@ + items_rest + "\n"@ + "]"@ + suf;
        assert(s =~= pre + "\n  "@ + enc0 + r0);
        lemma_parse_rule_at(pre, "\n  "@, rules[0], r0);
        let pe = pre + "\n  "@ + enc0;
        assert(s =~= pe + Seq::<char>::empty() + ","@ + (items_rest + "\n"@ + "]"@ + suf));
        lemma_parse_lit_at(pe, Seq::<char>::empty(), ","@, items_rest + "\n"@ + "]"@ + suf);
        let pre2 = pe + ","@;
        assert(s =~= pre2 + items_rest + "\n"@ + "]"@ + suf);
        lemma_parse_tail_encoding(rest, pre2, suf);
        assert(pre2 =~= pe + Seq::<char>::empty() + ","@);
        assert(seq![rules[0]] + rest =~= rules);
        assert(pre2 + items_rest =~= pre + items);
    }
}

/// Round trip: decoding an encoded rule list restores exactly that
/// list. Holds for every rule list whose one-off dates are real
/// calendar days.
#[verifier::rlimit(100)]
#[verifier::spinoff_prover]
pub proof fn lemma_decode_encode_round_trip(rules: Seq<Holiday>)
    requires
        forall|j: int| 0 <= j < rules.len() ==> rule_encodable(#[trigger] rules[j]),
    ensures
        spec_decode_rules(spec_encode_rules(rules)) == Some(rules),
{
    reveal_strlit("[");
    reveal_strlit("]");
    reveal_strlit("[]");
    reveal_strlit("\n");
    reveal_strlit("\n  ");
    let s = spec_encode_rules(rules);
    let e: Seq<char> = Seq::<char>::empty();
    if rules.len() == 0 {
        assert(s =~= e + e + "["@ + "]"@);
        lemma_parse_lit_at(e, e, "["@, "]"@);
        let p1 = e + e + "["@;
        assert(s =~= p1 + e + "]"@ + e);
        lemma_parse_lit_at(p1, e, "]"@, e);
        assert(spec_skip_ws(s, 2) == s.len());
        assert(Seq::<Holiday>::empty() =~= rules);
    } else {
        let items = spec_encode_items(rules);
        let enc0 = spec_encode_rule(rules[0]);
        lemma_encode_rule_head(rules[0]);
        let tail_rest: Seq<char> = items + "\n"@ + "]"@;
        assert(s =~= e + e + "["@ + tail_rest);
        lemma_parse_lit_at(e, e, "["@, tail_rest);
        let p1 = e + e + "["@;
        if rules.len() == 1 {
            assert(items =~= "\n  "@ + enc0);
            assert(s =~= p1 + "\n  "@ + enc0 + ("\n"@ + "]"@ + e));
            lemma_parse_lit_mismatch(p1, "\n  "@, enc0, "]"@, "\n"@ + "]"@ + e, 0);
        } else {
            let rest = rules.subrange(1, rules.len() as int);
            assert(items =~= "\n  "@ + enc0 + (","@ + spec_encode_items(rest)));
            assert(s =~= p1 + "\n  "@ + enc0 + (","@ + spec_encode_items(rest) + "\n"@ + "]"@
                + e));
            lemma_parse_lit_mismatch(
                p1,
                "\n  "@,
                enc0,
                "]"@,
                ","@ + spec_encode_items(rest) + "\n"@ + "]"@ + e,
                0,
            );
        }
        assert(s =~= p1 + items + "\n"@ + "]"@ + e);
        lemma_parse_tail_encoding(rules, p1, e);
        assert((p1.len() + items.len() + "\n"@.len() + "]"@.len()) as int == s.len());
        assert(spec_skip_ws(s, s.len() as int) == s.len());
    }
}

} // verus!
