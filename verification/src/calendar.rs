//! The proleptic Gregorian calendar, counted in days.
use vstd::prelude::*;

verus! {

/// A leap year of the Gregorian calendar.
pub open spec fn is_leap(y: int) -> bool {
    y % 4 == 0 && (y % 100 != 0 || y % 400 == 0)
}

/// The number of days of month `m` (January is 1) of year `y`.
pub open spec fn month_length(y: int, m: int) -> int {
    if m == 2 {
        if is_leap(y) {
            29
        } else {
            28
        }
    } else if m == 4 || m == 6 || m == 9 || m == 11 {
        30
    } else {
        31
    }
}

/// The days of year `y` before the first of month `m`.
pub open spec fn days_before_month(y: int, m: int) -> int
    decreases m,
{
    if m <= 1 {
        0
    } else {
        days_before_month(y, m - 1) + month_length(y, m - 1)
    }
}

/// The days from the first of January of year 0 to that of year `y`.
pub open spec fn days_before_year(y: nat) -> nat
    decreases y,
{
    if y == 0 {
        0
    } else {
        days_before_year((y - 1) as nat) + if is_leap(y - 1) {
            366nat
        } else {
            365nat
        }
    }
}

/// The number of the day `y-m-d`, counted from the first of January of
/// year 0.
pub open spec fn day_number(y: nat, m: int, d: int) -> int {
    days_before_year(y) + days_before_month(y as int, m) + d - 1
}

/// `y-m-d` is a day of the calendar.
pub open spec fn valid_date(y: int, m: int, d: int) -> bool {
    &&& y >= 0
    &&& 1 <= m <= 12
    &&& 1 <= d <= month_length(y, m)
}

/// The number of days of year `y`.
pub open spec fn year_length(y: int) -> int {
    if is_leap(y) {
        366
    } else {
        365
    }
}

proof fn lemma_months_grow(y: int, a: int, b: int)
    requires
        1 <= a <= b,
    ensures
        days_before_month(y, a) <= days_before_month(y, b),
    decreases b,
{
    if a < b {
        lemma_months_grow(y, a, b - 1);
    }
}

/// The twelve months make the year.
proof fn lemma_months_make_the_year(y: int)
    ensures
        days_before_month(y, 13) == year_length(y),
{
    reveal_with_fuel(days_before_month, 13);
}

proof fn lemma_years_grow(a: nat, b: nat)
    requires
        a <= b,
    ensures
        days_before_year(a) <= days_before_year(b),
    decreases b,
{
    if a < b {
        lemma_years_grow(a, (b - 1) as nat);
    }
}

/// A date of the calendar falls within its year.
proof fn lemma_within_the_year(y: nat, m: int, d: int)
    requires
        valid_date(y as int, m, d),
    ensures
        days_before_year(y) <= day_number(y, m, d) < days_before_year(y + 1),
{
    lemma_months_grow(y as int, m + 1, 13);
    lemma_months_grow(y as int, 1, m);
    lemma_months_make_the_year(y as int);
    assert(days_before_month(y as int, m + 1) == days_before_month(y as int, m) + month_length(y as int, m));
    assert(days_before_year(y + 1) == days_before_year(y) + year_length(y as int));
}

/// Days are numbered in calendar order.
proof fn lemma_numbered_in_order(y1: nat, m1: int, d1: int, y2: nat, m2: int, d2: int)
    requires
        valid_date(y1 as int, m1, d1),
        valid_date(y2 as int, m2, d2),
        y1 < y2 || (y1 == y2 && m1 < m2) || (y1 == y2 && m1 == m2 && d1 < d2),
    ensures
        day_number(y1, m1, d1) < day_number(y2, m2, d2),
{
    if y1 < y2 {
        lemma_within_the_year(y1, m1, d1);
        lemma_within_the_year(y2, m2, d2);
        lemma_years_grow(y1 + 1, y2);
    } else if m1 < m2 {
        lemma_months_grow(y1 as int, m1 + 1, m2);
    }
}

/// A date numbered before day 3652425 (the first of January of year
/// 10000) lies in a year of at most four digits.
pub proof fn lemma_before_year_ten_thousand(y: nat, m: int, d: int)
    requires
        valid_date(y as int, m, d),
        day_number(y, m, d) < 3652425,
    ensures
        y < 10000,
{
    lemma_within_the_year(y, m, d);
    lemma_days_before_year(10000);
    assert(leaps(9999) == 2424);
    if y >= 10000 {
        lemma_years_grow(10000, y);
    }
}

/// Dates numbered in order are in calendar order: an earlier number is
/// an earlier year, or an earlier month of the same year, or an earlier day
/// of the same month.
pub proof fn lemma_numbers_follow_dates(y1: nat, m1: int, d1: int, y2: nat, m2: int, d2: int)
    requires
        valid_date(y1 as int, m1, d1),
        valid_date(y2 as int, m2, d2),
        day_number(y1, m1, d1) < day_number(y2, m2, d2),
    ensures
        y1 < y2 || (y1 == y2 && m1 < m2) || (y1 == y2 && m1 == m2 && d1 < d2),
{
    if y2 < y1 || (y1 == y2 && m2 < m1) || (y1 == y2 && m1 == m2 && d2 < d1) {
        lemma_numbered_in_order(y2, m2, d2, y1, m1, d1);
    }
}

/// One day number names one date: two dates of the calendar with the same
/// number are the same date.
pub proof fn law_one_number_one_date(y1: nat, m1: int, d1: int, y2: nat, m2: int, d2: int)
    requires
        valid_date(y1 as int, m1, d1),
        valid_date(y2 as int, m2, d2),
        day_number(y1, m1, d1) == day_number(y2, m2, d2),
    ensures
        y1 == y2 && m1 == m2 && d1 == d2,
{
    if y1 < y2 || (y1 == y2 && m1 < m2) || (y1 == y2 && m1 == m2 && d1 < d2) {
        lemma_numbered_in_order(y1, m1, d1, y2, m2, d2);
    } else if y2 < y1 || (y1 == y2 && m2 < m1) || (y1 == y2 && m1 == m2 && d2 < d1) {
        lemma_numbered_in_order(y2, m2, d2, y1, m1, d1);
    }
}

/// The leap years among `1..=x`.
pub open spec fn leaps(x: int) -> int {
    x / 4 - x / 100 + x / 400
}

proof fn lemma_leaps_step(y: int)
    requires
        y >= 1,
    ensures
        leaps(y) == leaps(y - 1) + if is_leap(y) {
            1int
        } else {
            0int
        },
{
}

/// The days before year `y`: a year is 365 days, and a day more for each
/// leap year before it (year 0 is one).
proof fn lemma_days_before_year(y: nat)
    ensures
        days_before_year(y) == 365 * y + if y >= 1 {
            leaps(y - 1) + 1
        } else {
            0int
        },
    decreases y,
{
    if y >= 1 {
        lemma_days_before_year((y - 1) as nat);
        if y >= 2 {
            lemma_leaps_step(y - 1);
        }
    }
}

/// The days before each month, counted from March when the month is
/// March or later.
proof fn lemma_days_before_month(y: int, m: int)
    requires
        1 <= m <= 12,
    ensures
        m >= 3 ==> days_before_month(y, m) == 59 + (if is_leap(y) {
            1int
        } else {
            0int
        }) + (153 * (m - 3) + 2) / 5,
        m <= 2 ==> days_before_month(y, m) == (153 * (m + 9) + 2) / 5 - 306,
{
    reveal_with_fuel(days_before_month, 13);
}

/// Within one 400-year era (146097 days), counted from the first of March
/// of its first year: the year of the era, and the day of that year.
pub proof fn lemma_era(doe: u32)
    requires
        doe < 146097,
    ensures
        ({
            let yoe = (doe - doe / 1460 + doe / 36524 - doe / 146096) / 365;
            let doy = doe - (365 * yoe + yoe / 4 - yoe / 100);
            &&& doe - doe / 1460 + doe / 36524 >= doe / 146096
            &&& 0 <= yoe <= 399
            &&& 365 * yoe + yoe / 4 - yoe / 100 <= doe
            &&& doy <= 365
            &&& doy == 365 ==> (yoe + 1) % 4 == 0 && ((yoe + 1) % 100 != 0 || yoe == 399)
        }),
{
    assert({
        let yoe = (doe - doe / 1460 + doe / 36524 - doe / 146096) / 365;
        let doy = doe - (365 * yoe + yoe / 4 - yoe / 100);
        &&& doe - doe / 1460 + doe / 36524 >= doe / 146096
        &&& 0 <= yoe <= 399
        &&& 365 * yoe + yoe / 4 - yoe / 100 <= doe
        &&& doy <= 365
        &&& doy == 365 ==> (yoe + 1) % 4 == 0 && ((yoe + 1) % 100 != 0 || yoe == 399)
    }) by (bit_vector)
        requires
            doe < 146097,
    ;
}

/// The length of the `mp`-th month counted from March (so February, the
/// last, in a year that has a 29th).
pub open spec fn march_month_length(mp: int) -> int {
    if mp == 11 {
        29
    } else if mp == 1 || mp == 3 || mp == 6 || mp == 8 {
        30
    } else {
        31
    }
}

/// Within a year counted from March: the month and the day of the month.
pub proof fn lemma_month(doy: u32)
    requires
        doy <= 365,
    ensures
        ({
            let mp = (5 * doy + 2) / 153;
            let d = doy - (153 * mp + 2) / 5 + 1;
            &&& mp <= 11
            &&& (153 * mp + 2) / 5 <= doy
            &&& 1 <= d <= march_month_length(mp)
            &&& (mp == 11 && d == 29) ==> doy == 365
        }),
{
    assert({
        let mp = (5 * doy + 2) / 153;
        let d = doy - (153 * mp + 2) / 5 + 1;
        &&& mp <= 11
        &&& (153 * mp + 2) / 5 <= doy
        &&& 1 <= d <= (if mp == 11 {
            29u32
        } else if mp == 1 || mp == 3 || mp == 6 || mp == 8 {
            30u32
        } else {
            31u32
        })
        &&& (mp == 11 && d == 29) ==> doy == 365
    }) by (bit_vector)
        requires
            doy <= 365,
    ;
}

/// The year, month and day of the day `days` after the first of January
/// 1970, by counting 400-year eras from the first of March of year 0.
pub open spec fn civil(days: int) -> (int, int, int) {
    let z = days + 719468;
    let era = z / 146097;
    let doe = z % 146097;
    let yoe = (doe - doe / 1460 + doe / 36524 - doe / 146096) / 365;
    let yp = yoe + era * 400;
    let doy = doe - (365 * yoe + yoe / 4 - yoe / 100);
    let mp = (5 * doy + 2) / 153;
    let d = doy - (153 * mp + 2) / 5 + 1;
    let m = if mp < 10 {
        mp + 3
    } else {
        mp - 9
    };
    (if m <= 2 {
        yp + 1
    } else {
        yp
    }, m, d)
}

/// The first of January 1970 is day 719528 of the calendar.
pub open spec fn epoch_day() -> int {
    719528
}

/// Every day from the first of January 1970 on falls on one calendar
/// date: `civil(days)` is a valid date, and it is the date `days` days
/// after the epoch.
#[verifier::spinoff_prover]
#[verifier::rlimit(40)]
pub proof fn law_civil_is_the_calendar_date(days: int)
    requires
        days >= 0,
    ensures
        valid_date(civil(days).0, civil(days).1, civil(days).2),
        day_number(civil(days).0 as nat, civil(days).1, civil(days).2) == days + epoch_day(),
{
    let z = days + 719468;
    let era = z / 146097;
    let doe = z % 146097;
    lemma_era(doe as u32);
    let yoe = (doe - doe / 1460 + doe / 36524 - doe / 146096) / 365;
    let yp = yoe + era * 400;
    let doy = doe - (365 * yoe + yoe / 4 - yoe / 100);
    lemma_month(doy as u32);
    let mp = (5 * doy + 2) / 153;
    let d = doy - (153 * mp + 2) / 5 + 1;
    let m = if mp < 10 {
        mp + 3
    } else {
        mp - 9
    };
    let y = if m <= 2 {
        yp + 1
    } else {
        yp
    };
    assert(civil(days) == (y, m, d));
    assert(z == era * 146097 + doe);
    assert(era >= 0);
    // The leap years before year `yp` of the era, counted by era.
    assert(leaps(yp) == 97 * era + yoe / 4 - yoe / 100) by {
        assert((yoe + era * 400) / 4 == era * 100 + yoe / 4);
        assert((yoe + era * 400) / 100 == era * 4 + yoe / 100);
        assert((yoe + era * 400) / 400 == era);
    }
    assert(365 * yp + leaps(yp) + doy == z);
    lemma_days_before_month(y, m);
    lemma_days_before_year(y as nat);
    if m >= 3 {
        if yp >= 1 {
            lemma_leaps_step(yp);
        }
    } else {
        assert(month_length(y, m) == if m == 1 {
            31int
        } else if is_leap(y) {
            29int
        } else {
            28int
        });
        if m == 2 && d == 29 {
            assert((y % 4) == ((yoe + 1) % 4));
            if yoe == 399 {
                assert(y == (era + 1) * 400);
            } else {
                assert((y % 100) == ((yoe + 1) % 100));
            }
        }
    }
}

} // verus!
