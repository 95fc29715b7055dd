//! Calendar dates (`YYYY-MM-DD`, UTC) for day counts since 1970-01-01, by
//! Howard Hinnant's civil-from-days algorithm, proved against the Gregorian
//! calendar.

use vstd::prelude::*;
use crate::text;
use crate::text::push_decimal_padded;

verus! {

// ---------------------------------------------------------------------------
// The Gregorian calendar
// ---------------------------------------------------------------------------

pub open spec fn is_leap(y: int) -> bool {
    y % 4 == 0 && (y % 100 != 0 || y % 400 == 0)
}

pub open spec fn month_len(y: int, m: int) -> int {
    if m == 2 {
        if is_leap(y) {
            29
        } else {
            28
        }
    } else if m == 4 || m == 6 || m == 9 || m == 11 {
        30
    } else {
        31
    }
}

/// Days of the year `y` before the first of month `m`.
pub open spec fn days_before_month(y: int, m: int) -> int {
    let common: int = if m <= 1 {
        0
    } else if m == 2 {
        31
    } else if m == 3 {
        59
    } else if m == 4 {
        90
    } else if m == 5 {
        120
    } else if m == 6 {
        151
    } else if m == 7 {
        181
    } else if m == 8 {
        212
    } else if m == 9 {
        243
    } else if m == 10 {
        273
    } else if m == 11 {
        304
    } else {
        334
    };
    if m > 2 && is_leap(y) {
        common + 1
    } else {
        common
    }
}

/// The number of leap years in `[0, y)`: multiples of 4, less multiples of
/// 100, plus multiples of 400.
pub open spec fn leaps_before(y: int) -> int {
    (y + 3) / 4 - (y + 99) / 100 + (y + 399) / 400
}

/// Days from 0000-01-01 to the first of January of year `y`.
pub open spec fn days_before_year(y: int) -> int {
    365 * y + leaps_before(y)
}

/// The day count since 1970-01-01 of the date `y-m-d` (0000-01-01 is day
/// -719528).
pub open spec fn day_number(y: int, m: int, d: int) -> int {
    days_before_year(y) + days_before_month(y, m) + d - 1 - 719528
}

pub open spec fn valid_date(y: int, m: int, d: int) -> bool {
    y >= 0 && 1 <= m <= 12 && 1 <= d <= month_len(y, m)
}

/// `YYYY-MM-DD`, the year zero-padded to at least four digits.
pub open spec fn date_text(y: int, m: int, d: int) -> Seq<char> {
    text::dec_padded(y as nat, 4) + "-"@ + text::dec_padded(m as nat, 2) + "-"@
        + text::dec_padded(d as nat, 2)
}

// ---------------------------------------------------------------------------
// The algorithm's quantities
// ---------------------------------------------------------------------------

/// Days from March 1 of year 0 of an era (400 years) to March 1 of its
/// year `y`.
pub open spec fn era_days(y: int) -> int {
    365 * y + y / 4 - y / 100
}

/// The March-based year of an era in which its day `doe` falls.
pub open spec fn year_of_era(doe: int) -> int {
    (doe - doe / 1460 + doe / 36524 - doe / 146096) / 365
}

/// The date that Hinnant's algorithm gives for `days`.
pub open spec fn civil_date(days: int) -> (int, int, int) {
    let z = days + 719468;
    let era = z / 146097;
    let doe = z % 146097;
    let yoe = year_of_era(doe);
    let y = yoe + era * 400;
    let doy = doe - era_days(yoe);
    let mp = (5 * doy + 2) / 153;
    let d = doy - (153 * mp + 2) / 5 + 1;
    let m = if mp < 10 {
        mp + 3
    } else {
        mp - 9
    };
    (if m <= 2 {
        y + 1
    } else {
        y
    }, m, d)
}

#[verifier::spinoff_prover]
proof fn lemma_year_of_era(doe: int)
    requires
        0 <= doe < 146097,
    ensures
        0 <= year_of_era(doe) <= 399,
        era_days(year_of_era(doe)) <= doe,
        year_of_era(doe) < 399 ==> doe < era_days(year_of_era(doe) + 1),
{
}

/// March 1 of year `400 * era + yoe`, counted from 0000-01-01, matches the
/// era count.
#[verifier::spinoff_prover]
proof fn lemma_march_first(era: int, yoe: int)
    requires
        era >= 0,
        0 <= yoe < 400,
    ensures
        days_before_year(400 * era + yoe) + (if is_leap(400 * era + yoe) {
            1int
        } else {
            0
        }) + 59 == 146097 * era + era_days(yoe) + 60,
{
    let y = 400 * era + yoe;
    assert((y + 3) / 4 == 100 * era + (yoe + 3) / 4);
    assert((y + 99) / 100 == 4 * era + (yoe + 99) / 100);
    assert((y + 399) / 400 == era + (yoe + 399) / 400);
    assert(y % 4 == yoe % 4);
    assert(y % 100 == yoe % 100);
    assert(y % 400 == yoe % 400);
}

/// Days of a common year before the first of month `m`.
pub open spec fn common_days_before(m: int) -> int {
    days_before_month(1, m)
}

/// The month of a March-based day of year: `1 <= m <= 12`, the day fits the
/// month (February having `28 + leap` days), and the month's offset from
/// March agrees with the calendar's table.
#[verifier::spinoff_prover]
proof fn lemma_month_of_day(doy: int, leap: int)
    requires
        0 <= leap <= 1,
        0 <= doy <= 364 + leap,
    ensures
        ({
            let mp = (5 * doy + 2) / 153;
            let d = doy - (153 * mp + 2) / 5 + 1;
            let m = if mp < 10 {
                mp + 3
            } else {
                mp - 9
            };
            &&& 0 <= mp <= 11
            &&& 1 <= m <= 12
            &&& 1 <= d
            &&& m != 2 ==> d <= month_len(1, m)
            &&& m == 2 ==> d <= 28 + leap
            &&& m >= 3 ==> common_days_before(m) - 59 == (153 * mp + 2) / 5
            &&& m <= 2 ==> common_days_before(m) + 306 == (153 * mp + 2) / 5
        }),
{
}

/// The doy of a day of an era is within its March-based year, whose length
/// is 366 days exactly when the following calendar year is a leap year.
#[verifier::spinoff_prover]
proof fn lemma_day_of_year(era: int, doe: int)
    requires
        era >= 0,
        0 <= doe < 146097,
    ensures
        ({
            let yoe = year_of_era(doe);
            let doy = doe - era_days(yoe);
            0 <= doy <= 364 + (if is_leap(yoe + era * 400 + 1) {
                1int
            } else {
                0
            })
        }),
{
    lemma_year_of_era(doe);
    let yoe = year_of_era(doe);
    let y1 = yoe + era * 400 + 1;
    assert(y1 % 4 == (yoe + 1) % 4);
    assert(y1 % 100 == (yoe + 1) % 100);
    assert(y1 % 400 == (yoe + 1) % 400);
}

/// Leap years repeat every 400 years, 97 of them per cycle.
#[verifier::spinoff_prover]
proof fn lemma_leaps_shift(q: int, r: int)
    requires
        q >= 0,
        0 <= r <= 400,
    ensures
        leaps_before(400 * q + r) == 97 * q + leaps_before(r),
        is_leap(400 * q + r) == is_leap(r),
{
    let y = 400 * q + r;
    assert((y + 3) / 4 == 100 * q + (r + 3) / 4);
    assert((y + 99) / 100 == 4 * q + (r + 99) / 100);
    assert((y + 399) / 400 == q + (r + 399) / 400);
    assert(y % 4 == r % 4);
    assert(y % 100 == r % 100);
    assert(y % 400 == r % 400);
}

#[verifier::spinoff_prover]
proof fn lemma_leaps_step(r: int)
    requires
        0 <= r < 400,
    ensures
        leaps_before(r + 1) == leaps_before(r) + (if is_leap(r) {
            1int
        } else {
            0
        }),
{
}

#[verifier::spinoff_prover]
proof fn lemma_next_year(y: int)
    requires
        y >= 0,
    ensures
        days_before_year(y + 1) == days_before_year(y) + 365 + (if is_leap(y) {
            1int
        } else {
            0
        }),
{
    let q = y / 400;
    let r = y % 400;
    assert(y == 400 * q + r);
    lemma_leaps_shift(q, r);
    lemma_leaps_shift(q, r + 1);
    lemma_leaps_step(r);
}

/// Hinnant's date is a valid calendar date whose day number is `days`.
#[verifier::spinoff_prover]
pub proof fn lemma_civil_date(days: int)
    requires
        days >= 0,
    ensures
        ({
            let (y, m, d) = civil_date(days);
            valid_date(y, m, d) && day_number(y, m, d) == days
        }),
{
    let z = days + 719468;
    let era = z / 146097;
    let doe = z % 146097;
    assert(z == 146097 * era + doe);
    let yoe = year_of_era(doe);
    lemma_year_of_era(doe);
    let y0 = yoe + era * 400;
    let doy = doe - era_days(yoe);
    lemma_day_of_year(era, doe);
    let leap: int = if is_leap(y0 + 1) {
        1
    } else {
        0
    };
    lemma_month_of_day(doy, leap);
    lemma_march_first(era, yoe);
    lemma_next_year(y0);
    let mp = (5 * doy + 2) / 153;
    let d = doy - (153 * mp + 2) / 5 + 1;
    let m = if mp < 10 {
        mp + 3
    } else {
        mp - 9
    };
    assert(civil_date(days) == (if m <= 2 {
        y0 + 1
    } else {
        y0
    }, m, d));
    if m >= 3 {
        assert(days_before_month(y0, m) == common_days_before(m) + (if is_leap(y0) {
            1int
        } else {
            0
        }));
        assert(month_len(y0, m) == month_len(1, m));
    } else {
        assert(days_before_month(y0 + 1, m) == common_days_before(m));
        assert(m != 2 ==> month_len(y0 + 1, m) == month_len(1, m));
    }
}

proof fn lemma_years_grow(a: int, b: int)
    requires
        0 <= a <= b,
    ensures
        days_before_year(a) + 365 * (b - a) <= days_before_year(b),
    decreases b - a,
{
    if a < b {
        lemma_years_grow(a, b - 1);
        lemma_next_year(b - 1);
    }
}

/// A valid date's offset within its year is below the year's length, and
/// earlier months end before later months start.
#[verifier::spinoff_prover]
proof fn lemma_within_year(y: int, m: int, d: int)
    requires
        valid_date(y, m, d),
    ensures
        0 <= days_before_month(y, m) + d - 1 < 365 + (if is_leap(y) {
            1int
        } else {
            0
        }),
        forall|m2: int|
            1 <= m2 < m ==> days_before_month(y, m2) + month_len(y, m2) <= days_before_month(
                y,
                m,
            ),
{
}

/// Different valid dates have different day numbers: the day count names
/// exactly one date.
pub proof fn day_number_names_one_date(y1: int, m1: int, d1: int, y2: int, m2: int, d2: int)
    requires
        valid_date(y1, m1, d1),
        valid_date(y2, m2, d2),
        day_number(y1, m1, d1) == day_number(y2, m2, d2),
    ensures
        y1 == y2 && m1 == m2 && d1 == d2,
{
    lemma_within_year(y1, m1, d1);
    lemma_within_year(y2, m2, d2);
    if y1 < y2 {
        lemma_next_year(y1);
        lemma_years_grow(y1 + 1, y2);
    } else if y2 < y1 {
        lemma_next_year(y2);
        lemma_years_grow(y2 + 1, y1);
    }
    assert(y1 == y2);
    if m1 < m2 {
        assert(days_before_month(y1, m1) + month_len(y1, m1) <= days_before_month(y1, m2));
    } else if m2 < m1 {
        assert(days_before_month(y1, m2) + month_len(y1, m2) <= days_before_month(y1, m1));
    }
}

// ---------------------------------------------------------------------------
// Implementation
// ---------------------------------------------------------------------------

/// Calendar date (`YYYY-MM-DD`, UTC) for `days` since 1970-01-01.
pub fn civil_from_days(days: u64) -> (s: String)
    requires
        days <= u64::MAX - 719468,
    ensures
        ({
            let (y, m, d) = civil_date(days as int);
            &&& valid_date(y, m, d)
            &&& day_number(y, m, d) == days
            &&& s@ == date_text(y, m, d)
        }),
{
    proof {
        lemma_civil_date(days as int);
        lemma_year_of_era(((days + 719468) % 146097) as int);
    }
    let z = days + 719_468;
    let era = z / 146_097;
    let doe = z % 146_097;
    let yoe = (doe - doe / 1460 + doe / 36_524 - doe / 146_096) / 365;
    assert(era <= u64::MAX / 146097);
    let year = yoe + era * 400;
    let doy = doe - (365 * yoe + yoe / 4 - yoe / 100);
    assert(doy <= 365);
    let mp = (5 * doy + 2) / 153;
    let day = doy - (153 * mp + 2) / 5 + 1;
    let month = if mp < 10 {
        mp + 3
    } else {
        mp - 9
    };
    let year = if month <= 2 {
        year + 1
    } else {
        year
    };
    let mut s = String::new();
    push_decimal_padded(&mut s, year, 4);
    s.append("-");
    push_decimal_padded(&mut s, month, 2);
    s.append("-");
    push_decimal_padded(&mut s, day, 2);
    s
}

} // verus!
