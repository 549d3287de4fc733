//! The Gregorian calendar: days since 1970 and dates.

use vstd::prelude::*;

verus! {

pub open spec fn is_leap(year: int) -> bool {
    year % 4 == 0 && (year % 100 != 0 || year % 400 == 0)
}

/// The days of a month.
pub open spec fn days_in_month(year: int, month: int) -> int {
    if month == 2 {
        if is_leap(year) {
            29
        } else {
            28
        }
    } else if month == 4 || month == 6 || month == 9 || month == 11 {
        30
    } else {
        31
    }
}

/// The days of a year before a month.
pub open spec fn days_before_month(year: int, month: int) -> int
    decreases month,
{
    if month <= 1 {
        0
    } else {
        days_before_month(year, month - 1) + days_in_month(year, month - 1)
    }
}

/// The days before a year, counted from year one.
pub open spec fn days_before_year(year: int) -> int {
    365 * (year - 1) + (year - 1) / 4 - (year - 1) / 100 + (year - 1) / 400
}

/// The day of a date, counted from 1 January 1970.
pub open spec fn day_number(year: int, month: int, day: int) -> int {
    days_before_year(year) + days_before_month(year, month) + day - 1 - 719_162
}

/// Whether there is such a date.
pub open spec fn is_date(year: int, month: int, day: int) -> bool {
    1 <= month <= 12 && 1 <= day <= days_in_month(year, month)
}

/// The day of a date, counted with the year starting in March, which puts the
/// leap day last.
spec fn march_number(year: int, month: int, day: int) -> int {
    365 * year + year / 4 - year / 100 + year / 400 + (153 * month + 2) / 5 + day - 1 - 719_468
}

proof fn lemma_months(year: int)
    ensures
        days_before_month(year, 1) == 0,
        days_before_month(year, 2) == 31,
        days_before_month(year, 3) == 31 + days_in_month(year, 2),
        days_before_month(year, 4) == 62 + days_in_month(year, 2),
        days_before_month(year, 5) == 92 + days_in_month(year, 2),
        days_before_month(year, 6) == 123 + days_in_month(year, 2),
        days_before_month(year, 7) == 153 + days_in_month(year, 2),
        days_before_month(year, 8) == 184 + days_in_month(year, 2),
        days_before_month(year, 9) == 215 + days_in_month(year, 2),
        days_before_month(year, 10) == 245 + days_in_month(year, 2),
        days_before_month(year, 11) == 276 + days_in_month(year, 2),
        days_before_month(year, 12) == 306 + days_in_month(year, 2),
{
    reveal_with_fuel(days_before_month, 13);
}

/// A year later there are as many days more as the year has.
proof fn lemma_year_length(year: int)
    ensures
        days_before_year(year + 1) == days_before_year(year) + (if is_leap(year) {
            366int
        } else {
            365
        }),
{
    lemma_steps(year, 4);
    lemma_steps(year, 100);
    lemma_steps(year, 400);
}

proof fn lemma_steps(year: int, step: int)
    requires
        step == 4 || step == 100 || step == 400,
    ensures
        year / step == (year - 1) / step + (if year % step == 0 {
            1int
        } else {
            0
        }),
{
}

proof fn lemma_march_number(year: int, month: int, day: int)
    requires
        1 <= month <= 12,
    ensures
        month > 2 ==> day_number(year, month, day) == march_number(year, month - 3, day),
        month <= 2 ==> day_number(year, month, day) == march_number(year - 1, month + 9, day),
{
    lemma_months(year);
    lemma_year_length(year);
}

/// The day after a date is counted one higher.
pub proof fn law_days_count_dates(year: int, month: int, day: int)
    requires
        is_date(year, month, day),
    ensures
        day < days_in_month(year, month) ==> day_number(year, month, day + 1) == day_number(
            year,
            month,
            day,
        ) + 1,
        day == days_in_month(year, month) && month < 12 ==> day_number(year, month + 1, 1)
            == day_number(year, month, day) + 1,
        day == days_in_month(year, month) && month == 12 ==> day_number(year + 1, 1, 1)
            == day_number(year, month, day) + 1,
        day_number(1970, 1, 1) == 0,
{
    lemma_months(year);
    lemma_months(year + 1);
    lemma_months(1970);
    lemma_year_length(year);
}

proof fn lemma_month_order(year: int, month: int, later: int)
    requires
        1 <= month < later <= 12,
    ensures
        days_before_month(year, month) + days_in_month(year, month) <= days_before_month(
            year,
            later,
        ),
    decreases later,
{
    if month + 1 < later {
        lemma_month_order(year, month, later - 1);
    }
}

proof fn lemma_year_order(year: int, later: int)
    requires
        year < later,
    ensures
        days_before_year(year) + (if is_leap(year) {
            366int
        } else {
            365
        }) <= days_before_year(later),
    decreases later - year,
{
    if year + 1 < later {
        lemma_year_order(year, later - 1);
    }
    lemma_year_length(later - 1);
}

/// A day has one date.
pub proof fn law_dates_are_unique(y: int, m: int, d: int, year: int, month: int, day: int)
    requires
        is_date(y, m, d),
        is_date(year, month, day),
        day_number(y, m, d) == day_number(year, month, day),
    ensures
        y == year && m == month && d == day,
{
    lemma_months(y);
    lemma_months(year);
    if y < year {
        lemma_year_order(y, year);
    } else if year < y {
        lemma_year_order(year, y);
    } else if m < month {
        lemma_month_order(y, m, month);
    } else if month < m {
        lemma_month_order(y, month, m);
    }
}

/// The date of a day.
pub fn civil_from_days(days_since_unix_epoch: u64) -> (date: (u64, u32, u32))
    requires
        days_since_unix_epoch <= u64::MAX - 719_468,
    ensures
        is_date(date.0 as int, date.1 as int, date.2 as int),
        day_number(date.0 as int, date.1 as int, date.2 as int) == days_since_unix_epoch,
{
    let z: u64 = days_since_unix_epoch + 719_468;
    let era: u64 = z / 146_097;
    let doe: u64 = z % 146_097;
    // Centuries, four-year spans and years from March to February; the last of
    // each is the one that may hold a day more.
    let century: u64 = if doe / 36_524 < 3 {
        doe / 36_524
    } else {
        3
    };
    let of_century: u64 = doe - 36_524 * century;
    let span: u64 = of_century / 1_461;
    let of_span: u64 = of_century % 1_461;
    let single: u64 = if of_span / 365 < 3 {
        of_span / 365
    } else {
        3
    };
    let doy: u64 = of_span - 365 * single;
    let yoe: u64 = 100 * century + 4 * span + single;
    let mp: u64 = (5 * doy + 2) / 153;
    let day: u64 = doy + 1 - (153 * mp + 2) / 5;
    let year: u64 = 400 * era + yoe;
    let ghost marched = year as int;
    proof {
        assert(0 <= span <= 24);
        assert(yoe < 400);
        assert(yoe / 4 == 25 * century + span);
        assert(yoe / 100 == century);
        assert(marched / 4 == 100 * era + yoe / 4);
        assert(marched / 100 == 4 * era + yoe / 100);
        assert(marched / 400 == era);
        assert(doy <= 365);
        assert(doy == 365 ==> single == 3 && (span == 24 ==> century == 3));
        assert(0 <= mp <= 11);
        assert(march_number(marched, mp as int, day as int) == days_since_unix_epoch);
    }
    if mp < 10 {
        let month: u64 = mp + 3;
        proof {
            lemma_march_number(marched, month as int, day as int);
        }
        (year, month as u32, day as u32)
    } else {
        let month: u64 = mp - 9;
        proof {
            lemma_march_number(marched + 1, month as int, day as int);
            lemma_leap_by_parts(era as int, century as int, span as int, single as int);
        }
        (year + 1, month as u32, day as u32)
    }
}

/// The year after the last of a four-year span is a leap year, but for the
/// last span of the first three centuries.
proof fn lemma_leap_by_parts(era: int, century: int, span: int, single: int)
    requires
        0 <= century <= 3,
        0 <= span <= 24,
        0 <= single <= 3,
    ensures
        is_leap(400 * era + 100 * century + 4 * span + single + 1) <==> single == 3 && (span == 24
            ==> century == 3),
{
    let year = 400 * era + 100 * century + 4 * span + single + 1;
    if single < 3 {
        assert(year == 4 * (100 * era + 25 * century + span) + (single + 1));
        assert(year % 4 == single + 1);
    } else {
        assert(year == 4 * (100 * era + 25 * century + span + 1));
        assert(year % 4 == 0);
        if span < 24 {
            assert(year == 100 * (4 * era + century) + 4 * (span + 1));
            assert(year % 100 == 4 * (span + 1));
        } else {
            assert(year == 100 * (4 * era + century + 1));
            assert(year % 100 == 0);
            if century < 3 {
                assert(year == 400 * era + 100 * (century + 1));
                assert(year % 400 == 100 * (century + 1));
            } else {
                assert(year == 400 * (era + 1));
                assert(year % 400 == 0);
            }
        }
    }
}

/// The day of a date. A day beyond the end of its month runs on into the next.
pub fn days_from_civil(year: u32, month: u32, day: u32) -> (days: u64)
    requires
        year >= 1970,
        1 <= month <= 12,
        1 <= day <= 31,
    ensures
        days == day_number(year as int, month as int, day as int),
{
    let marched: u64 = if month <= 2 {
        year as u64 - 1
    } else {
        year as u64
    };
    let shifted: u64 = if month > 2 {
        month as u64 - 3
    } else {
        month as u64 + 9
    };
    proof {
        lemma_march_number(year as int, month as int, day as int);
    }
    365 * marched + marched / 4 - marched / 100 + marched / 400 + (153 * shifted + 2) / 5
        + day as u64 - 1 - 719_468
}

} // verus!
