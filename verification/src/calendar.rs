//! The proleptic Gregorian calendar, counted in days from 1970-01-01.

use vstd::prelude::*;

verus! {

/// Whether `y` is a leap year.
pub open spec fn is_leap(y: int) -> bool {
    y % 4 == 0 && (y % 100 != 0 || y % 400 == 0)
}

/// The number of leap years before year `y`, counted from year 1.
pub open spec fn leaps_before(y: int) -> int {
    (y - 1) / 4 - (y - 1) / 100 + (y - 1) / 400
}

/// The length of month `m` of year `y`.
pub open spec fn month_length(y: int, m: int) -> int {
    if m == 2 {
        if is_leap(y) {
            29
        } else {
            28
        }
    } else if m == 4 || m == 6 || m == 9 || m == 11 {
        30
    } else {
        31
    }
}

/// The days of year `y` before month `m`.
pub open spec fn days_before_month(y: int, m: int) -> int
    decreases m,
{
    if m <= 1 {
        0
    } else {
        days_before_month(y, m - 1) + month_length(y, m - 1)
    }
}

/// Whether year `y` has a day `d` of month `m`.
pub open spec fn is_date(y: int, m: int, d: int) -> bool {
    1 <= m <= 12 && 1 <= d <= month_length(y, m)
}

/// The days from 1970-01-01 to the given date.
pub open spec fn day_number(y: int, m: int, d: int) -> int {
    365 * (y - 1970) + (leaps_before(y) - leaps_before(1970)) + days_before_month(y, m) + (d - 1)
}

/// The date that lies the given number of days after 1970-01-01, as year,
/// month and day.
pub fn civil_from_days(z: i64) -> (r: (i64, u32, u32))
    requires
        i64::MIN + 146_096 <= z + 719_468 <= i64::MAX,
    ensures
        is_date(r.0 as int, r.1 as int, r.2 as int),
        day_number(r.0 as int, r.1 as int, r.2 as int) == z,
{
    let shifted = z + 719_468;
    let era = if shifted >= 0 {
        shifted / 146_097
    } else {
        (shifted - 146_096) / 146_097
    };
    proof {
        lemma_era(shifted as int, era as int);
    }
    let doe = (shifted - era * 146_097) as u64;
    proof {
        lemma_year_of_era(doe as u32);
    }
    let yoe = (doe - doe / 1460 + doe / 36524 - doe / 146_096) / 365;
    let march_year = yoe as i64 + era * 400;
    let doy = doe - (365 * yoe + yoe / 4 - yoe / 100);
    proof {
        lemma_month_of_year(doy as u32);
    }
    let mp = (5 * doy + 2) / 153;
    let d = (doy - (153 * mp + 2) / 5 + 1) as u32;
    let m = if mp < 10 {
        mp + 3
    } else {
        mp - 9
    } as u32;
    let y = if m <= 2 {
        march_year + 1
    } else {
        march_year
    };
    proof {
        lemma_march_date(era as int, yoe as int, doy as int, mp as int, d as int);
    }
    (y, m, d)
}

proof fn lemma_era(shifted: int, era: int)
    requires
        era == if shifted >= 0 {
            shifted / 146_097
        } else {
            -((146_096 - shifted) / 146_097)
        },
    ensures
        0 <= shifted - era * 146_097 < 146_097,
{
}

/// A day counted from the first of March of `400 * era + yoe` is the date that
/// the month table gives.
#[verifier::spinoff_prover]
proof fn lemma_march_date(era: int, yoe: int, doy: int, mp: int, d: int)
    requires
        0 <= yoe <= 399,
        0 <= doy <= 365,
        doy == 365 ==> (yoe + 1) % 4 == 0 && ((yoe + 1) % 100 != 0 || yoe == 399),
        0 <= mp <= 11,
        doy == days_since_march(mp) + d - 1,
        1 <= d <= march_month_length(mp),
    ensures
        ({
            let m = if mp < 10 {
                mp + 3
            } else {
                mp - 9
            };
            let y = if m <= 2 {
                yoe + era * 400 + 1
            } else {
                yoe + era * 400
            };
            &&& is_date(y, m, d)
            &&& day_number(y, m, d) == era * 146_097 + 365 * yoe + yoe / 4 - yoe / 100 + doy
                - 719_468
        }),
{
    reveal_with_fuel(days_before_month, 13);
    let march_year = yoe + era * 400;
    lemma_leap_count(march_year);
    assert(march_year / 4 == 100 * era + yoe / 4);
    assert(march_year / 100 == 4 * era + yoe / 100);
    assert(march_year / 400 == era);
    assert((march_year + 1) % 4 == (yoe + 1) % 4);
    assert((march_year + 1) % 100 == (yoe + 1) % 100);
    assert((march_year + 1) % 400 == (yoe + 1) % 400);
}

/// The days from the first of March to the month that is `mp` months later.
spec fn days_since_march(mp: int) -> int {
    (153 * mp + 2) / 5
}

/// The length of the month `mp` months after March; February counts in full.
spec fn march_month_length(mp: int) -> int {
    if mp == 11 {
        29
    } else if mp == 1 || mp == 3 || mp == 6 || mp == 8 {
        30
    } else {
        31
    }
}

#[verifier::spinoff_prover]
proof fn lemma_leap_count(y: int)
    ensures
        leaps_before(y + 1) == leaps_before(y) + if is_leap(y) {
            1int
        } else {
            0int
        },
{
    assert(y / 4 == (y - 1) / 4 + if y % 4 == 0 {
        1int
    } else {
        0int
    });
    assert(y / 100 == (y - 1) / 100 + if y % 100 == 0 {
        1int
    } else {
        0int
    });
    assert(y / 400 == (y - 1) / 400 + if y % 400 == 0 {
        1int
    } else {
        0int
    });
    assert(y % 100 == 0 ==> y % 4 == 0);
    assert(y % 400 == 0 ==> y % 100 == 0);
}

proof fn lemma_month_of_year(doy: u32)
    requires
        doy <= 365,
    ensures
        ({
            let mp = (5 * doy + 2) / 153;
            let d = doy - (153 * mp + 2) / 5 + 1;
            0 <= mp <= 11 && 1 <= d <= march_month_length(mp)
        }),
{
    assert(({
        let mp = (5 * doy + 2) / 153;
        let d = doy - (153 * mp + 2) / 5 + 1;
        &&& 0 <= mp <= 11
        &&& 1 <= d <= 31
        &&& mp == 11 ==> d <= 29
        &&& (mp == 1 || mp == 3 || mp == 6 || mp == 8) ==> d <= 30
    })) by (bit_vector)
        requires
            doy <= 365,
    ;
}

proof fn lemma_year_of_era(doe: u32)
    requires
        doe < 146097,
    ensures
        ({
            let yoe = ((doe - doe / 1460 + doe / 36524 - doe / 146096) / 365) as int;
            let doy = doe - (365 * yoe + yoe / 4 - yoe / 100);
            &&& 0 <= yoe <= 399
            &&& 0 <= doy <= 365
            &&& doy == 365 ==> (yoe + 1) % 4 == 0 && ((yoe + 1) % 100 != 0 || yoe == 399)
        }),
{
    assert(({
        let yoe = ((doe - doe / 1460 + doe / 36524 - doe / 146096) / 365) as u32;
        let doy = doe - (365 * yoe + yoe / 4 - yoe / 100);
        &&& 0 <= yoe <= 399
        &&& 0 <= doy <= 365
        &&& doy == 365 ==> (yoe + 1) % 4 == 0 && ((yoe + 1) % 100 != 0 || yoe == 399)
    })) by (bit_vector)
        requires
            doe < 146097,
    ;
}

/// The day after a date.
pub open spec fn next_date(y: int, m: int, d: int) -> (int, int, int) {
    if d < month_length(y, m) {
        (y, m, d + 1)
    } else if m < 12 {
        (y, m + 1, 1)
    } else {
        (y + 1, 1, 1)
    }
}

/// Counting starts at 1970-01-01 and every next date counts one more.
pub proof fn law_day_number_counts(y: int, m: int, d: int)
    requires
        is_date(y, m, d),
    ensures
        day_number(1970, 1, 1) == 0,
        ({
            let n = next_date(y, m, d);
            is_date(n.0, n.1, n.2) && day_number(n.0, n.1, n.2) == day_number(y, m, d) + 1
        }),
{
    reveal_with_fuel(days_before_month, 13);
    lemma_leap_count(y);
}

/// The months have their lengths; February has a day more where four divides
/// the year, but not where only a hundred does.
pub proof fn law_gregorian_months(y: int, m: int)
    requires
        1 <= m <= 12,
    ensures
        m != 2 ==> month_length(y, m) == seq![31int, 28, 31, 30, 31, 30, 31, 31, 30, 31, 30, 31][m
            - 1],
        month_length(y, 2) == 28 || month_length(y, 2) == 29,
        month_length(y, 2) == 29 <==> y % 400 == 0 || (y % 4 == 0 && y % 100 != 0),
{
}

/// A year has 365 days, and one more where February has, and four hundred years
/// have 146097.
#[verifier::spinoff_prover]
pub proof fn law_gregorian_years(y: int)
    ensures
        day_number(y + 1, 1, 1) - day_number(y, 1, 1) == 337 + month_length(y, 2),
        day_number(y + 400, 1, 1) - day_number(y, 1, 1) == 146_097,
{
    lemma_leap_count(y);
    assert((y + 399) / 4 == (y - 1) / 4 + 100);
    assert((y + 399) / 100 == (y - 1) / 100 + 4);
    assert((y + 399) / 400 == (y - 1) / 400 + 1);
}

/// No two dates have the same day number, so a day number stands for one date.
pub proof fn law_day_number_unique(y1: int, m1: int, d1: int, y2: int, m2: int, d2: int)
    requires
        is_date(y1, m1, d1),
        is_date(y2, m2, d2),
        day_number(y1, m1, d1) == day_number(y2, m2, d2),
    ensures
        y1 == y2,
        m1 == m2,
        d1 == d2,
{
    lemma_within_year(y1, m1, d1);
    lemma_within_year(y2, m2, d2);
    if y1 < y2 {
        lemma_years_ordered(y1 + 1, y2);
    } else if y2 < y1 {
        lemma_years_ordered(y2 + 1, y1);
    } else {
        lemma_months_ordered(y1, m1, m2);
        lemma_months_ordered(y1, m2, m1);
    }
}

proof fn lemma_within_year(y: int, m: int, d: int)
    requires
        is_date(y, m, d),
    ensures
        day_number(y, 1, 1) <= day_number(y, m, d) < day_number(y + 1, 1, 1),
{
    reveal_with_fuel(days_before_month, 13);
    lemma_leap_count(y);
}

proof fn lemma_years_ordered(y1: int, y2: int)
    requires
        y1 <= y2,
    ensures
        day_number(y1, 1, 1) <= day_number(y2, 1, 1),
{
}

proof fn lemma_months_ordered(y: int, m1: int, m2: int)
    requires
        1 <= m1 <= 12,
        1 <= m2 <= 12,
    ensures
        m1 < m2 ==> days_before_month(y, m1) + month_length(y, m1) <= days_before_month(y, m2),
{
    reveal_with_fuel(days_before_month, 13);
}

/// Whether a date lies before another: by year, then by month, then by day.
pub open spec fn is_earlier(y1: int, m1: int, d1: int, y2: int, m2: int, d2: int) -> bool {
    y1 < y2 || (y1 == y2 && (m1 < m2 || (m1 == m2 && d1 < d2)))
}

/// Day numbers are in the order of the dates.
pub proof fn law_day_number_ordered(y1: int, m1: int, d1: int, y2: int, m2: int, d2: int)
    requires
        is_date(y1, m1, d1),
        is_date(y2, m2, d2),
    ensures
        day_number(y1, m1, d1) < day_number(y2, m2, d2) <==> is_earlier(y1, m1, d1, y2, m2, d2),
{
    lemma_within_year(y1, m1, d1);
    lemma_within_year(y2, m2, d2);
    if y1 < y2 {
        lemma_years_ordered(y1 + 1, y2);
    } else if y2 < y1 {
        lemma_years_ordered(y2 + 1, y1);
    } else {
        lemma_months_ordered(y1, m1, m2);
        lemma_months_ordered(y1, m2, m1);
    }
}

/// Every day from the first of January of year 0 on has a date.
pub(crate) proof fn lemma_has_date(day: int) -> (r: (int, int, int))
    requires
        day >= -719_528,
    ensures
        is_date(r.0, r.1, r.2),
        day_number(r.0, r.1, r.2) == day,
    decreases day + 719_528,
{
    if day == -719_528 {
        reveal_with_fuel(days_before_month, 13);
        (0, 1, 1)
    } else {
        let (y, m, d) = lemma_has_date(day - 1);
        law_day_number_counts(y, m, d);
        next_date(y, m, d)
    }
}

/// The days of the years 0 to 9999.
pub(crate) proof fn lemma_four_digit_years(y: int, m: int, d: int)
    requires
        is_date(y, m, d),
        -719_528 <= day_number(y, m, d) <= 2_932_896,
    ensures
        0 <= y <= 9999,
{
    reveal_with_fuel(days_before_month, 13);
    law_day_number_ordered(y, m, d, 0, 1, 1);
    law_day_number_ordered(9999, 12, 31, y, m, d);
}

} // verus!
