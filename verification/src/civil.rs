//! Civil dates of the proleptic Gregorian calendar and their day numbers.

use vstd::prelude::*;
use vstd::arithmetic::div_mod;

verus! {

/// Whether `year` has a 29th of February.
pub open spec fn is_leap(year: int) -> bool {
    year % 4 == 0 && (year % 100 != 0 || year % 400 == 0)
}

/// How many days a month has.
pub open spec fn month_length(year: int, month: int) -> int {
    if month == 2 {
        if is_leap(year) {
            29
        } else {
            28
        }
    } else if month == 4 || month == 6 || month == 9 || month == 11 {
        30
    } else {
        31
    }
}

/// How many days lie between the first day of year 1 and the first day of `year`.
pub open spec fn days_before_year(year: int) -> int {
    365 * (year - 1) + (year - 1) / 4 - (year - 1) / 100 + (year - 1) / 400
}

/// How many days of `year` lie before the first day of `month`.
pub open spec fn days_before_month(year: int, month: int) -> int {
    let common: int = if month == 1 {
        0
    } else if month == 2 {
        31
    } else if month == 3 {
        59
    } else if month == 4 {
        90
    } else if month == 5 {
        120
    } else if month == 6 {
        151
    } else if month == 7 {
        181
    } else if month == 8 {
        212
    } else if month == 9 {
        243
    } else if month == 10 {
        273
    } else if month == 11 {
        304
    } else {
        334
    };
    if month > 2 && is_leap(year) {
        common + 1
    } else {
        common
    }
}

/// The number of days from 1970-01-01 to the given date; negative before it.
pub open spec fn day_number(year: int, month: int, day: int) -> int {
    days_before_year(year) + days_before_month(year, month) + day - 1 - 719_162
}

/// Whether the three numbers name a day of the calendar.
pub open spec fn is_date(year: int, month: int, day: int) -> bool {
    1 <= month <= 12 && 1 <= day <= month_length(year, month)
}

/// The calendar: 1970-01-01 is day 0, every day is followed by the next, every month by the first
/// of the next one, and February has a 29th in the years that 4 divides, except those that 100
/// divides and 400 does not.
pub proof fn lemma_calendar(year: int, month: int, day: int)
    ensures
        day_number(1970, 1, 1) == 0,
        day_number(year, month, day + 1) == day_number(year, month, day) + 1,
        1 <= month <= 12 ==> {
            let length = if month == 2 {
                if year % 400 == 0 || year % 4 == 0 && year % 100 != 0 {
                    29int
                } else {
                    28
                }
            } else if month == 4 || month == 6 || month == 9 || month == 11 {
                30
            } else {
                31
            };
            &&& is_date(year, month, day) <==> 1 <= day <= length
            &&& month < 12 ==> day_number(year, month + 1, 1) == day_number(year, month, length) + 1
            &&& month == 12 ==> day_number(year + 1, 1, 1) == day_number(year, 12, 31) + 1
        },
        is_date(year, month, day) ==> 1 <= month <= 12,
{
    lemma_year_length(year);
}

/// A day number belongs to exactly one date.
pub proof fn lemma_day_number_injective(y1: int, m1: int, d1: int, y2: int, m2: int, d2: int)
    requires
        is_date(y1, m1, d1),
        is_date(y2, m2, d2),
        day_number(y1, m1, d1) == day_number(y2, m2, d2),
    ensures
        y1 == y2,
        m1 == m2,
        d1 == d2,
{
    lemma_year_of_day(y1, m1, d1);
    lemma_year_of_day(y2, m2, d2);
    if y1 < y2 {
        lemma_years_ordered(y1 + 1, y2);
    } else if y2 < y1 {
        lemma_years_ordered(y2 + 1, y1);
    }
}

/// A date lies on or after the first day of its year and before the first day of the next.
proof fn lemma_year_of_day(year: int, month: int, day: int)
    requires
        is_date(year, month, day),
    ensures
        day_number(year, 1, 1) <= day_number(year, month, day) < day_number(year + 1, 1, 1),
{
    lemma_year_length(year);
}

/// Consecutive years lie 365 days apart, leap years 366.
proof fn lemma_year_length(year: int)
    ensures
        days_before_year(year + 1) - days_before_year(year) == if is_leap(year) {
            366int
        } else {
            365
        },
{
}

/// Years start in order.
proof fn lemma_years_ordered(a: int, b: int)
    requires
        a <= b,
    ensures
        days_before_year(a) <= days_before_year(b),
    decreases b - a,
{
    if a < b {
        lemma_years_ordered(a + 1, b);
        lemma_year_length(a);
    }
}

/// The first of March of year `400 * era + yoe`, as a day number.
proof fn lemma_march_year(y: int, era: int, yoe: int)
    requires
        y == 400 * era + yoe,
        0 <= yoe < 400,
    ensures
        day_number(y, 3, 1) == era * 146_097 + yoe * 365 + yoe / 4 - yoe / 100 - 719_468,
{
    lemma_leap_cycle(yoe, era);
    div_mod::lemma_hoist_over_denominator(yoe - 1, 100 * era, 4);
    div_mod::lemma_hoist_over_denominator(yoe - 1, 4 * era, 100);
    div_mod::lemma_hoist_over_denominator(yoe - 1, era, 400);
    lemma_year_length(yoe);
}

/// The months counted from March lie at the offsets that `(153 * mp + 2) / 5` gives.
proof fn lemma_march_month(y: int, month: int, mp: int, day: int)
    requires
        1 <= month <= 12,
        mp == if month > 2 {
            month - 3
        } else {
            month + 9
        },
    ensures
        day_number(if month <= 2 {
            y + 1
        } else {
            y
        }, month, day) == day_number(y, 3, 1) + (153 * mp + 2) / 5 + day - 1,
{
    lemma_year_length(y);
}

/// The day number of a civil date.
pub fn days_from_civil(year: i64, month: i64, day: i64) -> (r: i64)
    requires
        -25_000_000_000_000_000 <= year <= 25_000_000_000_000_000,
        1 <= month <= 12,
        -1_000_000_000_000_000 <= day <= 1_000_000_000_000_000,
    ensures
        r == day_number(year as int, month as int, day as int),
{
    let y: i64 = if month <= 2 { year - 1 } else { year };
    let era: i64 = if y >= 0 { y / 400 } else { -((399 - y) / 400) };
    let yoe: i64 = y - era * 400;
    assert(0 <= yoe < 400);
    let mp: i64 = if month > 2 { month - 3 } else { month + 9 };
    proof {
        lemma_march_year(y as int, era as int, yoe as int);
        lemma_march_month(y as int, month as int, mp as int, day as int);
    }
    let doy: i64 = (153 * mp + 2) / 5 + day - 1;
    let doe: i64 = yoe * 365 + yoe / 4 - yoe / 100 + doy;
    era * 146_097 + doe - 719_468
}

/// A day of a cycle of 400 years that start in March lies in the year that the closed form
/// gives. The day is written as `a` centuries, `b` cycles of four years, `c` years and `r` days.
proof fn lemma_year_of_cycle(doe: int, a: int, b: int, c: int, r: int)
    requires
        0 <= a <= 3,
        0 <= b <= 24,
        0 <= c <= 3,
        0 <= r <= 365,
        doe == 36_524 * a + 1461 * b + 365 * c + r,
        r == 365 ==> c == 3 && (b < 24 || a == 3),
    ensures
        (doe - doe / 1460 + doe / 36_524 - doe / 146_096) / 365 == 100 * a + 4 * b + c,
{
    let e: int = (24 * a + b + 365 * c + r) / 1460;
    assert(doe / 1460 == 25 * a + b + e);
    assert(0 <= e <= 1);
    assert(e == 1 ==> c == 3 && r >= 1);
    assert(r == 365 ==> e == 1);
    let f: int = if doe == 146_096 { 1 } else { 0 };
    assert(doe / 36_524 == a + f);
    assert(doe / 146_096 == f);
}

/// The parts of a day of a cycle of 400 years, as [`lemma_year_of_cycle`] takes them.
proof fn lemma_split_cycle(doe: int) -> (p: (int, int, int, int))
    requires
        0 <= doe <= 146_096,
    ensures
        0 <= p.0 <= 3,
        0 <= p.1 <= 24,
        0 <= p.2 <= 3,
        0 <= p.3 <= 365,
        doe == 36_524 * p.0 + 1461 * p.1 + 365 * p.2 + p.3,
        p.3 == 365 ==> p.2 == 3 && (p.1 < 24 || p.0 == 3),
{
    let a: int = if doe / 36_524 < 3 { doe / 36_524 } else { 3 };
    let rest1 = doe - 36_524 * a;
    let b = rest1 / 1461;
    let rest2 = rest1 - 1461 * b;
    let c: int = if rest2 / 365 < 3 { rest2 / 365 } else { 3 };
    (a, b, c, rest2 - 365 * c)
}

/// A day of a year that starts in March lies in the month that the closed form gives.
proof fn lemma_month_of_year(y: int, doy: int, mp: int, d: int, m: int)
    requires
        0 <= doy <= 365,
        doy == 365 ==> is_leap(y + 1),
        mp == (5 * doy + 2) / 153,
        d == doy - (153 * mp + 2) / 5 + 1,
        m == if mp < 10 {
            mp + 3
        } else {
            mp - 9
        },
    ensures
        is_date(if m <= 2 {
            y + 1
        } else {
            y
        }, m, d),
        0 <= mp <= 11,
{
}

/// The year and the day of the year of a day of a cycle of 400 years that start in March.
proof fn lemma_cycle(doe: int, yoe: int, doy: int)
    requires
        0 <= doe <= 146_096,
        yoe == (doe - doe / 1460 + doe / 36_524 - doe / 146_096) / 365,
        doy == doe - (365 * yoe + yoe / 4 - yoe / 100),
    ensures
        0 <= yoe < 400,
        0 <= doy <= 365,
        doy == 365 ==> is_leap(yoe + 1),
{
    let p = lemma_split_cycle(doe);
    lemma_year_of_cycle(doe, p.0, p.1, p.2, p.3);
    assert(yoe / 4 == 25 * p.0 + p.1);
    assert(yoe / 100 == p.0);
    assert(doy == p.3);
}

/// Adding cycles of 400 years changes no leap year.
proof fn lemma_leap_cycle(year: int, era: int)
    ensures
        is_leap(year + 400 * era) == is_leap(year),
{
    div_mod::lemma_mod_multiples_vanish(100 * era, year, 4);
    div_mod::lemma_mod_multiples_vanish(4 * era, year, 100);
    div_mod::lemma_mod_multiples_vanish(era, year, 400);
}

/// The closed form of [`civil_from_days`] yields the date of the day number.
proof fn lemma_civil(z: int, era: int, doe: int, yoe: int, doy: int, mp: int, d: int, m: int)
    requires
        z == era * 146_097 + doe,
        0 <= doe <= 146_096,
        yoe == (doe - doe / 1460 + doe / 36_524 - doe / 146_096) / 365,
        doy == doe - (365 * yoe + yoe / 4 - yoe / 100),
        mp == (5 * doy + 2) / 153,
        d == doy - (153 * mp + 2) / 5 + 1,
        m == if mp < 10 {
            mp + 3
        } else {
            mp - 9
        },
    ensures
        ({
            let y = yoe + era * 400;
            let year = if m <= 2 {
                y + 1
            } else {
                y
            };
            is_date(year, m, d) && day_number(year, m, d) == z - 719_468
        }),
{
    let y = yoe + era * 400;
    lemma_cycle(doe, yoe, doy);
    lemma_leap_cycle(yoe + 1, era);
    lemma_march_year(y, era, yoe);
    lemma_month_of_year(y, doy, mp, d, m);
    lemma_march_month(y, m, mp, d);
}

/// Every day number belongs to a date.
pub proof fn lemma_day_has_date(days: int) -> (date: (int, int, int))
    ensures
        is_date(date.0, date.1, date.2),
        day_number(date.0, date.1, date.2) == days,
{
    let z = days + 719_468;
    let era = z / 146_097;
    let doe = z % 146_097;
    let yoe = (doe - doe / 1460 + doe / 36_524 - doe / 146_096) / 365;
    let doy = doe - (365 * yoe + yoe / 4 - yoe / 100);
    let mp = (5 * doy + 2) / 153;
    let d = doy - (153 * mp + 2) / 5 + 1;
    let m = if mp < 10 {
        mp + 3
    } else {
        mp - 9
    };
    lemma_civil(z, era, doe, yoe, doy, mp, d, m);
    let y = yoe + era * 400;
    (
        if m <= 2 {
            y + 1
        } else {
            y
        },
        m,
        d,
    )
}

/// The civil date of a day number.
pub fn civil_from_days(days: i64) -> (r: (i64, i64, i64))
    requires
        days <= i64::MAX - 719_468,
    ensures
        is_date(r.0 as int, r.1 as int, r.2 as int),
        day_number(r.0 as int, r.1 as int, r.2 as int) == days,
{
    let z: i64 = days + 719_468;
    let era: i64 = if z >= 0 { z / 146_097 } else { -((146_096 - z) / 146_097) };
    let doe: i64 = z - era * 146_097;
    assert(0 <= doe <= 146_096);
    let yoe: i64 = (doe - doe / 1460 + doe / 36_524 - doe / 146_096) / 365;
    proof {
        lemma_cycle(doe as int, yoe as int, doe - (365 * yoe + yoe / 4 - yoe / 100));
    }
    let y: i64 = yoe + era * 400;
    let doy: i64 = doe - (365 * yoe + yoe / 4 - yoe / 100);
    let mp: i64 = (5 * doy + 2) / 153;
    let d: i64 = doy - (153 * mp + 2) / 5 + 1;
    let m: i64 = if mp < 10 { mp + 3 } else { mp - 9 };
    proof {
        lemma_civil(
            z as int,
            era as int,
            doe as int,
            yoe as int,
            doy as int,
            mp as int,
            d as int,
            m as int,
        );
    }
    let year: i64 = if m <= 2 { y + 1 } else { y };
    (year, m, d)
}

} // verus!
