//! The Gregorian calendar, and the UTC date and time of a Unix timestamp.

use vstd::prelude::*;

verus! {

/// Whether `year` has a 29th of February.
pub open spec fn is_leap(year: int) -> bool {
    year % 4 == 0 && (year % 100 != 0 || year % 400 == 0)
}

/// How many days `month` (1 to 12) of `year` has.
pub open spec fn days_in_month(year: int, month: int) -> int {
    if month == 2 {
        if is_leap(year) {
            29
        } else {
            28
        }
    } else if month == 4 || month == 6 || month == 9 || month == 11 {
        30
    } else {
        31
    }
}

/// How many days of `year` lie before `month` (1 to 12).
pub open spec fn days_before_month(year: int, month: int) -> int
    decreases month,
{
    if month <= 1 {
        0
    } else {
        days_before_month(year, month - 1) + days_in_month(year, month - 1)
    }
}

/// How many days lie between the first day of year 0 and the first day of
/// `year`: 365 for each year between them, and one for each leap year.
pub open spec fn days_before_year(year: int) -> int {
    365 * year + (year + 3) / 4 - (year + 99) / 100 + (year + 399) / 400
}

/// Whether the calendar has the day.
pub open spec fn is_date(year: int, month: int, day: int) -> bool {
    1 <= month <= 12 && 1 <= day <= days_in_month(year, month)
}

/// How many days lie between the first day of 1970 and the given day.
pub open spec fn day_number(year: int, month: int, day: int) -> int {
    days_before_year(year) + days_before_month(year, month) + (day - 1) - days_before_year(1970)
}

/// A date and a time of day, in UTC: year, month, day, hour, minute, second.
pub type Civil = (i64, u32, u32, u32, u32, u32);

/// Whether `c` is a day of the calendar and a time of day.
pub open spec fn is_civil(c: Civil) -> bool {
    is_date(c.0 as int, c.1 as int, c.2 as int) && c.3 < 24 && c.4 < 60 && c.5 < 60
}

/// How many seconds lie between the first second of 1970 and `c`.
pub open spec fn unix_of(c: Civil) -> int {
    day_number(c.0 as int, c.1 as int, c.2 as int) * 86400 + c.3 * 3600 + c.4 * 60 + c.5
}

/// Division that rounds up, in terms of division that rounds down.
proof fn lemma_rounded_up(year: int)
    ensures
        (year + 3) / 4 == year / 4 + if year % 4 == 0 {
            0int
        } else {
            1int
        },
        (year + 99) / 100 == year / 100 + if year % 100 == 0 {
            0int
        } else {
            1int
        },
        (year + 399) / 400 == year / 400 + if year % 400 == 0 {
            0int
        } else {
            1int
        },
        year % 400 == 0 ==> year % 100 == 0,
        year % 100 == 0 ==> year % 4 == 0,
{
}

/// One year on, the days before the year have grown by the days of the year:
/// 366 in a leap year, 365 in any other.
pub proof fn law_year_length(year: int)
    ensures
        days_before_year(year + 1) - days_before_year(year) == if is_leap(year) {
            366int
        } else {
            365int
        },
        days_before_year(0) == 0,
        days_before_month(year, 12) + 31 == if is_leap(year) {
            366int
        } else {
            365int
        },
{
    lemma_rounded_up(year);
    assert((year + 4) / 4 == year / 4 + 1);
    assert((year + 100) / 100 == year / 100 + 1);
    assert((year + 400) / 400 == year / 400 + 1);
    assert(days_before_month(year, 12) == 306 + days_in_month(year, 2)) by {
        reveal_with_fuel(days_before_month, 12);
    }
}

/// In a cycle of 400 years that begins with a March, the year in which day
/// `day` of the cycle falls.
#[verifier::spinoff_prover]
#[verifier::rlimit(100)]
proof fn lemma_year_of_cycle(day: int, year: int)
    requires
        0 <= day < 146097,
        year == (day - day / 1460 + day / 36524 - day / 146096) / 365,
    ensures
        0 <= year < 400,
        0 <= day - (365 * year + year / 4 - year / 100) <= 365,
        day - (365 * year + year / 4 - year / 100) == 365 ==> is_leap(year + 1),
{
}

/// The days before a month that is counted from March: its number in a year
/// that begins with March gives them without a table.
proof fn lemma_month_of_year(doy: int, mp: int, month: int, day: int, year: int)
    requires
        0 <= doy <= 365,
        doy == 365 ==> is_leap(year + 1),
        mp == (5 * doy + 2) / 153,
        month == if mp < 10 {
            mp + 3
        } else {
            mp - 9
        },
        day == doy - (153 * mp + 2) / 5 + 1,
    ensures
        0 <= mp < 12,
        month > 2 ==> is_date(year, month, day) && days_before_month(year, month) + day - 1
            == days_before_month(year, 3) + doy,
        month <= 2 ==> is_date(year + 1, month, day) && days_before_month(year + 1, month) + day - 1
            == doy - 306,
{
    reveal_with_fuel(days_before_month, 12);
}

/// The first of March: the days before it, counted from the first of March of year 0.
proof fn lemma_march(year: int)
    ensures
        days_before_year(year) + days_before_month(year, 3) == 60 + 365 * year + year / 4 - year
            / 100 + year / 400,
        days_before_year(year + 1) == days_before_year(year) + days_before_month(year, 3) + 306,
{
    reveal_with_fuel(days_before_month, 3);
    lemma_rounded_up(year);
    law_year_length(year);
}

/// The day that the arithmetic of [`civil_from_unix`] arrives at: `doe` days
/// into the cycle of 400 years number `era`, which begins with a March.
proof fn lemma_day_of_cycle(era: int, doe: int, yoe: int, doy: int, mp: int, m: int, d: int, y: int)
    requires
        0 <= doe < 146097,
        yoe == (doe - doe / 1460 + doe / 36524 - doe / 146096) / 365,
        doy == doe - (365 * yoe + yoe / 4 - yoe / 100),
        mp == (5 * doy + 2) / 153,
        d == doy - (153 * mp + 2) / 5 + 1,
        m == if mp < 10 {
            mp + 3
        } else {
            mp - 9
        },
        y == if m <= 2 {
            yoe + era * 400 + 1
        } else {
            yoe + era * 400
        },
    ensures
        is_date(y, m, d),
        day_number(y, m, d) == era * 146097 + doe - 719468,
{
    let march_year = yoe + era * 400;
    lemma_year_of_cycle(doe, yoe);
    assert(is_leap(yoe + 1) == is_leap(march_year + 1));
    lemma_month_of_year(doy, mp, m, d, march_year);
    lemma_march(march_year);
    assert(march_year / 4 == era * 100 + yoe / 4);
    assert(march_year / 100 == era * 4 + yoe / 100);
    assert(march_year / 400 == era);
    assert(days_before_year(1970) == 719528);
}

/// The UTC date and time of a Unix timestamp.
pub fn civil_from_unix(unix: i64) -> (c: Civil)
    ensures
        is_civil(c),
        unix_of(c) == unix,
{
    let days: i64 = unix.checked_div_euclid(86400).unwrap();
    let secs_of_day: i64 = unix.checked_rem_euclid(86400).unwrap();
    let h: u32 = (secs_of_day / 3600) as u32;
    let mi: u32 = ((secs_of_day % 3600) / 60) as u32;
    let s: u32 = (secs_of_day % 60) as u32;

    // Count from the first of March of year 0, in cycles of 400 years.
    let z: i64 = days + 719468;
    let era: i64 = z.checked_div_euclid(146097).unwrap();
    let doe: i64 = z - era * 146097;
    let yoe: i64 = (doe - doe / 1460 + doe / 36524 - doe / 146096) / 365;
    proof {
        lemma_year_of_cycle(doe as int, yoe as int);
    }
    let doy: i64 = doe - (365 * yoe + yoe / 4 - yoe / 100);
    let mp: i64 = (5 * doy + 2) / 153;
    let d: i64 = doy - (153 * mp + 2) / 5 + 1;
    let m: i64 = if mp < 10 {
        mp + 3
    } else {
        mp - 9
    };
    let y: i64 = if m <= 2 {
        yoe + era * 400 + 1
    } else {
        yoe + era * 400
    };
    proof {
        lemma_day_of_cycle(
            era as int,
            doe as int,
            yoe as int,
            doy as int,
            mp as int,
            m as int,
            d as int,
            y as int,
        );
    }
    (y, m as u32, d as u32, h, mi, s)
}

/// The days of a month lie before the month that follows.
proof fn lemma_later_month(year: int, m1: int, m2: int)
    requires
        1 <= m1 < m2,
    ensures
        days_before_month(year, m1) + days_in_month(year, m1) <= days_before_month(year, m2),
    decreases m2,
{
    if m1 < m2 - 1 {
        lemma_later_month(year, m1, m2 - 1);
    }
}

/// The days of a year lie before the year that follows.
proof fn lemma_later_year(y1: int, y2: int)
    requires
        y1 <= y2,
    ensures
        days_before_year(y1) <= days_before_year(y2),
    decreases y2 - y1,
{
    if y1 < y2 {
        lemma_later_year(y1, y2 - 1);
        law_year_length(y2 - 1);
    }
}

/// A day of the year lies in the year.
proof fn lemma_day_in_year(year: int, month: int, day: int)
    requires
        is_date(year, month, day),
    ensures
        0 <= days_before_month(year, month) + day - 1 < days_before_year(year + 1)
            - days_before_year(year),
{
    law_year_length(year);
    if month > 1 {
        lemma_later_month(year, 1, month);
    }
    if month < 12 {
        lemma_later_month(year, month, 12);
    }
}

/// A later day of the calendar has a greater number.
proof fn lemma_later_day(y1: int, m1: int, d1: int, y2: int, m2: int, d2: int)
    requires
        is_date(y1, m1, d1),
        is_date(y2, m2, d2),
        y1 < y2 || (y1 == y2 && (m1 < m2 || (m1 == m2 && d1 < d2))),
    ensures
        day_number(y1, m1, d1) < day_number(y2, m2, d2),
{
    lemma_day_in_year(y1, m1, d1);
    lemma_day_in_year(y2, m2, d2);
    if y1 < y2 {
        lemma_later_year(y1 + 1, y2);
    } else if m1 < m2 {
        lemma_later_month(y1, m1, m2);
    }
}

/// A second of the calendar is written in one way only: two dates and times
/// that lie equally far from 1970 are the same.
pub proof fn law_civil_unique(a: Civil, b: Civil)
    requires
        is_civil(a),
        is_civil(b),
        unix_of(a) == unix_of(b),
    ensures
        a == b,
{
    let na = day_number(a.0 as int, a.1 as int, a.2 as int);
    let nb = day_number(b.0 as int, b.1 as int, b.2 as int);
    assert(na == nb);
    if a.0 != b.0 || a.1 != b.1 || a.2 != b.2 {
        if a.0 < b.0 || (a.0 == b.0 && (a.1 < b.1 || (a.1 == b.1 && a.2 < b.2))) {
            lemma_later_day(
                a.0 as int,
                a.1 as int,
                a.2 as int,
                b.0 as int,
                b.1 as int,
                b.2 as int,
            );
        } else {
            lemma_later_day(
                b.0 as int,
                b.1 as int,
                b.2 as int,
                a.0 as int,
                a.1 as int,
                a.2 as int,
            );
        }
    }
}

/// The last day of a month (1 to 12): 28 in February, 29 where the year divides
/// by 4 and not by 100, or by 400; 30 in April, June, September and November; 31
/// in any other.
pub open spec fn last_day(year: int, month: int) -> int {
    if month == 2 {
        if year % 400 == 0 {
            29
        } else if year % 100 == 0 {
            28
        } else if year % 4 == 0 {
            29
        } else {
            28
        }
    } else if month == 4 || month == 6 || month == 9 || month == 11 {
        30
    } else {
        31
    }
}

/// The day that follows a day.
proof fn lemma_next_day(year: int, month: int, day: int)
    requires
        is_date(year, month, day),
    ensures
        day < last_day(year, month) ==> is_date(year, month, day + 1) && day_number(
            year,
            month,
            day + 1,
        ) == day_number(year, month, day) + 1,
        day >= last_day(year, month) && month < 12 ==> is_date(year, month + 1, 1) && day_number(
            year,
            month + 1,
            1,
        ) == day_number(year, month, day) + 1,
        day >= last_day(year, month) && month == 12 ==> is_date(year + 1, 1, 1) && day_number(
            year + 1,
            1,
            1,
        ) == day_number(year, month, day) + 1,
        days_in_month(year, month) == last_day(year, month),
{
    assert(year % 400 == 0 ==> year % 100 == 0);
    assert(year % 100 == 0 ==> year % 4 == 0);
    law_year_length(year);
}

/// The year of a timestamp is far from any limit.
proof fn lemma_year_is_bounded(c: Civil)
    requires
        is_civil(c),
        i64::MIN <= unix_of(c) <= i64::MAX,
    ensures
        c.0 < i64::MAX,
{
    lemma_day_in_year(c.0 as int, c.1 as int, c.2 as int);
    let n = day_number(c.0 as int, c.1 as int, c.2 as int);
    assert(n * 86400 <= i64::MAX);
    assert(days_before_year(1970) == 719528);
    let y = c.0 as int;
    lemma_rounded_up(y);
    if y > 0 {
        assert(y / 4 >= y / 100);
        assert(y / 400 >= 0);
        assert(days_before_year(y) >= 365 * y - 1);
        assert(n >= 365 * y - 719530);
    }
}

/// The calendar runs on second by second: a second later the second is one more,
/// and behind the last second of a minute, an hour, a day, a month and a year the
/// next one begins. Timestamp 0 is the first second of 1970.
pub proof fn law_next_second(unix: i64, now: Civil, next: Civil)
    requires
        unix < i64::MAX,
        is_civil(now),
        unix_of(now) == unix,
        is_civil(next),
        unix_of(next) == unix + 1,
    ensures
        unix == 0 ==> now == (1970i64, 1u32, 1u32, 0u32, 0u32, 0u32),
        ({
            let (y, m, d, h, mi, s) = now;
            let (ny, nm, nd, nh, nmi, ns) = next;
            if s < 59 {
                (ny, nm, nd, nh, nmi) == (y, m, d, h, mi) && ns == s + 1
            } else if mi < 59 {
                (ny, nm, nd, nh) == (y, m, d, h) && nmi == mi + 1 && ns == 0
            } else if h < 23 {
                (ny, nm, nd) == (y, m, d) && nh == h + 1 && nmi == 0 && ns == 0
            } else if d < last_day(y as int, m as int) {
                (ny, nm) == (y, m) && nd == d + 1 && nh == 0 && nmi == 0 && ns == 0
            } else if m < 12 {
                ny == y && nm == m + 1 && nd == 1 && nh == 0 && nmi == 0 && ns == 0
            } else {
                ny == y + 1 && nm == 1 && nd == 1 && nh == 0 && nmi == 0 && ns == 0
            }
        }),
{
    let (y, m, d, h, mi, s) = now;
    lemma_year_is_bounded(now);
    lemma_next_day(y as int, m as int, d as int);
    let day = day_number(y as int, m as int, d as int);
    let wanted: Civil = if s < 59 {
        (y, m, d, h, mi, (s + 1) as u32)
    } else if mi < 59 {
        (y, m, d, h, (mi + 1) as u32, 0u32)
    } else if h < 23 {
        (y, m, d, (h + 1) as u32, 0u32, 0u32)
    } else if d < last_day(y as int, m as int) {
        (y, m, (d + 1) as u32, 0u32, 0u32, 0u32)
    } else if m < 12 {
        (y, (m + 1) as u32, 1u32, 0u32, 0u32, 0u32)
    } else {
        ((y + 1) as i64, 1u32, 1u32, 0u32, 0u32, 0u32)
    };
    assert(is_civil(wanted));
    assert(unix_of(wanted) == unix + 1);
    law_civil_unique(wanted, next);
    if unix == 0 {
        let first: Civil = (1970i64, 1u32, 1u32, 0u32, 0u32, 0u32);
        assert(is_civil(first));
        assert(unix_of(first) == 0);
        law_civil_unique(now, first);
    }
}

} // verus!
