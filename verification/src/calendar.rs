//! The proleptic Gregorian calendar, with days counted from 1970-01-01.

use vstd::prelude::*;

verus! {

/// Whether year `y` has a 29th of February.
pub open spec fn is_leap_year(y: int) -> bool {
    y % 4 == 0 && (y % 100 != 0 || y % 400 == 0)
}

/// How many days month `m` of year `y` has.
pub open spec fn days_in_month(y: int, m: int) -> int {
    if m == 2 {
        if is_leap_year(y) {
            29
        } else {
            28
        }
    } else if m == 4 || m == 6 || m == 9 || m == 11 {
        30
    } else {
        31
    }
}

/// How many leap years lie between year 1, inclusive, and year `y`, exclusive;
/// negative for a `y` before year 1.
pub open spec fn leap_years_before(y: int) -> int {
    (y - 1) / 4 - (y - 1) / 100 + (y - 1) / 400
}

/// How many days of year `y` come before month `m`.
pub open spec fn days_before_month(y: int, m: int) -> int
    decreases m,
{
    if m <= 1 {
        0
    } else {
        days_before_month(y, m - 1) + days_in_month(y, m - 1)
    }
}

/// The number of days from 1970-01-01 to the given date.
pub open spec fn day_number(y: int, m: int, d: int) -> int {
    365 * (y - 1970) + (leap_years_before(y) - leap_years_before(1970)) + days_before_month(y, m)
        + (d - 1)
}

/// Whether there is such a date.
pub open spec fn is_date(y: int, m: int, d: int) -> bool {
    1 <= m <= 12 && 1 <= d <= days_in_month(y, m)
}

/// The year of the era that day `doe` of the era falls in. Centuries have 36524
/// days, four-year cycles 1461, and `doe / 1460` counts the leap days gone by but
/// for at most one.
#[verifier::spinoff_prover]
proof fn lemma_year_of_era(doe: int, yoe: int)
    requires
        0 <= doe < 146097,
        yoe == (doe - doe / 1460 + doe / 36524 - doe / 146096) / 365,
    ensures
        0 <= yoe < 400,
        365 * yoe + yoe / 4 - yoe / 100 <= doe,
        doe - (365 * yoe + yoe / 4 - yoe / 100) <= 365,
        doe - (365 * yoe + yoe / 4 - yoe / 100) == 365 ==> is_leap_year(yoe + 1),
{
    if doe == 146096 {
        assert(yoe == 399);
    } else {
        let c = doe / 36524;
        let r = doe - 36524 * c;
        let k = r / 1461;
        let r4 = r - 1461 * k;
        assert(0 <= c <= 3 && 0 <= r <= 36523);
        assert(0 <= k <= 24 && 0 <= r4 <= 1460);
        assert(k == 24 ==> r4 <= 1459);
        let t = if 24 * c + k + r4 >= 1460 { 1int } else { 0int };
        assert(doe == 1460 * (25 * c + k) + (24 * c + k + r4));
        assert(doe / 1460 == 25 * c + k + t);
        assert(doe / 146096 == 0);
        let j = (r4 - t) / 365;
        assert(0 <= j <= 3);
        assert(doe - doe / 1460 + c == 365 * (100 * c + 4 * k) + (r4 - t));
        assert(yoe == 100 * c + 4 * k + j);
        assert(yoe / 4 == 25 * c + k);
        assert(yoe / 100 == c);
        assert(doe - (365 * yoe + yoe / 4 - yoe / 100) == r4 - 365 * j);
        if r4 - 365 * j == 365 {
            assert(j == 3 && k < 24);
            assert((yoe + 1) % 4 == 0);
            assert((yoe + 1) % 100 == 4 * k + 4);
        }
    }
}

/// The lengths of the months, summed.
proof fn lemma_days_before_month(y: int)
    ensures
        days_before_month(y, 1) == 0,
        days_before_month(y, 2) == 31,
        ({
            let feb = if is_leap_year(y) { 60int } else { 59int };
            &&& days_before_month(y, 3) == feb
            &&& days_before_month(y, 4) == feb + 31
            &&& days_before_month(y, 5) == feb + 61
            &&& days_before_month(y, 6) == feb + 92
            &&& days_before_month(y, 7) == feb + 122
            &&& days_before_month(y, 8) == feb + 153
            &&& days_before_month(y, 9) == feb + 184
            &&& days_before_month(y, 10) == feb + 214
            &&& days_before_month(y, 11) == feb + 245
            &&& days_before_month(y, 12) == feb + 275
            &&& days_before_month(y, 13) == feb + 306
        }),
{
    reveal_with_fuel(days_before_month, 14);
}

/// The date on day `doy`, counted from the 1st of March, of the year that starts
/// on the 1st of March of year `march`.
proof fn lemma_march_date(march: int, doy: int, mp: int, m: int, d: int, y: int)
    requires
        0 <= doy <= 365,
        doy == 365 ==> is_leap_year(march + 1),
        mp == (5 * doy + 2) / 153,
        d == doy - (153 * mp + 2) / 5 + 1,
        m == (if mp < 10 { mp + 3 } else { mp - 9 }),
        y == (if m <= 2 { march + 1 } else { march }),
    ensures
        is_date(y, m, d),
        days_before_month(y, m) + (d - 1) == (if m <= 2 { doy - 306 } else {
            doy + (if is_leap_year(march) { 60int } else { 59int })
        }),
{
    lemma_days_before_month(y);
    assert(0 <= mp <= 11);
}

proof fn lemma_march_year(era: int, yoe: int)
    requires
        0 <= yoe < 400,
    ensures
        ({
            let march = yoe + 400 * era;
            let before = 365 * yoe + yoe / 4 - yoe / 100 + era * 146097;
            &&& 365 * (march - 1970) + leap_years_before(march) - leap_years_before(1970) + (
            if is_leap_year(march) { 60int } else { 59int }) == before - 719468
            &&& 365 * (march + 1 - 1970) + leap_years_before(march + 1) - leap_years_before(1970)
                - 306 == before - 719468
        }),
{
    let march = yoe + 400 * era;
    assert(march / 4 == yoe / 4 + 100 * era);
    assert(march / 100 == yoe / 100 + 4 * era);
    assert(march / 400 == era);
    assert((march - 1) / 4 == (yoe - 1) / 4 + 100 * era);
    assert((march - 1) / 100 == (yoe - 1) / 100 + 4 * era);
    assert((march - 1) / 400 == (yoe - 1) / 400 + era);
    assert(march % 4 == yoe % 4);
    assert(march % 100 == yoe % 100);
    assert(march % 400 == yoe % 400);
}

/// Day `doy` of the year that starts on the 1st of March, `yoe` years into era
/// `era`, gives the date.
#[verifier::spinoff_prover]
proof fn lemma_civil(era: int, yoe: int, doy: int, mp: int, m: int, d: int)
    requires
        0 <= yoe < 400,
        0 <= doy <= 365,
        doy == 365 ==> is_leap_year(yoe + 1),
        mp == (5 * doy + 2) / 153,
        d == doy - (153 * mp + 2) / 5 + 1,
        m == (if mp < 10 { mp + 3 } else { mp - 9 }),
    ensures
        ({
            let march = yoe + era * 400;
            let y = if m <= 2 { march + 1 } else { march };
            let z = era * 146097 + 365 * yoe + yoe / 4 - yoe / 100 + doy;
            is_date(y, m, d) && day_number(y, m, d) == z - 719468
        }),
{
    let march = yoe + era * 400;
    let y = if m <= 2 { march + 1 } else { march };
    assert(is_leap_year(yoe + 1) == is_leap_year(march + 1)) by {
        assert((march + 1) % 4 == (yoe + 1) % 4);
        assert((march + 1) % 100 == (yoe + 1) % 100);
        assert((march + 1) % 400 == (yoe + 1) % 400);
    }
    lemma_march_date(march, doy, mp, m, d, y);
    lemma_march_year(era, yoe);
}

/// The 400-year era that day `z`, counted from the 1st of March of year 0, falls
/// in.
fn era_of(z: i64) -> (era: i64)
    requires
        z - 146096 >= i64::MIN,
    ensures
        era == z as int / 146097,
{
    (if z >= 0 { z } else { z - 146096 }) / 146097
}

/// The date of the day that comes `z` days after 1970-01-01, as year, month and
/// day of the month.
pub fn civil_from_days(z: i64) -> (date: (i64, u32, u32))
    requires
        z + 719468 <= i64::MAX,
    ensures
        is_date(date.0 as int, date.1 as int, date.2 as int),
        day_number(date.0 as int, date.1 as int, date.2 as int) == z,
        date_of_day(z as int) == (date.0 as int, date.1 as int, date.2 as int),
{
    // Years are counted from the 1st of March, so that the leap day comes last.
    let z: i64 = z + 719468;
    let era: i64 = era_of(z);
    let doe: u64 = (z - era * 146097) as u64;
    let yoe: u64 = (doe - doe / 1460 + doe / 36524 - doe / 146096) / 365;
    proof {
        lemma_year_of_era(doe as int, yoe as int);
    }
    let y: i64 = yoe as i64 + era * 400;
    let doy: u64 = doe - (365 * yoe + yoe / 4 - yoe / 100);
    let mp: u64 = (5 * doy + 2) / 153;
    let d: u32 = (doy - (153 * mp + 2) / 5 + 1) as u32;
    let m: u32 = (if mp < 10 { mp + 3 } else { mp - 9 }) as u32;
    proof {
        lemma_civil(era as int, yoe as int, doy as int, mp as int, m as int, d as int);
    }
    let year: i64 = if m <= 2 { y + 1 } else { y };
    proof {
        law_date_of_day(year as int, m as int, d as int);
    }
    (year, m, d)
}

/// The date after the given one.
pub open spec fn next_date(y: int, m: int, d: int) -> (int, int, int) {
    if d < days_in_month(y, m) {
        (y, m, d + 1)
    } else if m < 12 {
        (y, m + 1, 1)
    } else {
        (y + 1, 1, 1)
    }
}

/// A quotient grows by one exactly at the multiples of the divisor.
proof fn lemma_quotient_step(y: int, k: int)
    requires
        k == 4 || k == 100 || k == 400,
    ensures
        y / k == (y - 1) / k + (if y % k == 0 { 1int } else { 0int }),
{
    let q = y / k;
    let r = y % k;
    if k == 4 {
        assert(y == 4 * q + r);
    } else if k == 100 {
        assert(y == 100 * q + r);
    } else {
        assert(y == 400 * q + r);
    }
}

#[verifier::spinoff_prover]
proof fn lemma_next_year(y: int)
    ensures
        leap_years_before(y + 1) == leap_years_before(y) + (if is_leap_year(y) { 1int } else {
            0int
        }),
{
    lemma_quotient_step(y, 4);
    lemma_quotient_step(y, 100);
    lemma_quotient_step(y, 400);
    assert(y % 400 == 0 ==> y % 100 == 0);
    assert(y % 100 == 0 ==> y % 4 == 0);
}

/// Dates and day numbers advance together: the date after a date has the next
/// day number.
pub proof fn law_next_day(y: int, m: int, d: int)
    requires
        is_date(y, m, d),
    ensures
        ({
            let next = next_date(y, m, d);
            &&& is_date(next.0, next.1, next.2)
            &&& day_number(next.0, next.1, next.2) == day_number(y, m, d) + 1
        }),
{
    lemma_days_before_month(y);
    lemma_days_before_month(y + 1);
    lemma_next_year(y);
}

/// The day of the year of a date, counted from zero, and how far it can go.
proof fn lemma_day_of_year(y: int, m: int, d: int)
    requires
        is_date(y, m, d),
    ensures
        0 <= days_before_month(y, m) + (d - 1) <= (if is_leap_year(y) { 365int } else { 364int }),
{
    lemma_days_before_month(y);
}

proof fn lemma_years_ordered(y1: int, y2: int)
    requires
        y1 < y2,
    ensures
        365 * y1 + leap_years_before(y1) + (if is_leap_year(y1) { 366int } else { 365int }) <= 365
            * y2 + leap_years_before(y2),
    decreases y2 - y1,
{
    if y1 + 1 < y2 {
        lemma_years_ordered(y1 + 1, y2);
    }
    lemma_next_year(y1);
}

/// A date is no earlier than the start of year `y0` exactly if its year is not
/// before `y0`.
pub proof fn law_year_of_date(y: int, m: int, d: int, y0: int)
    requires
        is_date(y, m, d),
    ensures
        y >= y0 <==> day_number(y, m, d) >= day_number(y0, 1, 1),
{
    lemma_day_of_year(y, m, d);
    lemma_days_before_month(y0);
    if y < y0 {
        lemma_years_ordered(y, y0);
    } else if y > y0 {
        lemma_years_ordered(y0, y);
    }
}

/// Different dates have different day numbers, so the date of a day is unique.
pub proof fn law_dates_distinct(y1: int, m1: int, d1: int, y2: int, m2: int, d2: int)
    requires
        is_date(y1, m1, d1),
        is_date(y2, m2, d2),
        day_number(y1, m1, d1) == day_number(y2, m2, d2),
    ensures
        y1 == y2 && m1 == m2 && d1 == d2,
{
    lemma_day_of_year(y1, m1, d1);
    lemma_day_of_year(y2, m2, d2);
    if y1 < y2 {
        lemma_years_ordered(y1, y2);
    } else if y2 < y1 {
        lemma_years_ordered(y2, y1);
    }
    lemma_days_before_month(y1);
}

/// The date, as year, month and day, of the day that comes `z` days after
/// 1970-01-01.
pub open spec fn date_of_day(z: int) -> (int, int, int) {
    choose|date: (int, int, int)|
        is_date(date.0, date.1, date.2) && #[trigger] day_number(date.0, date.1, date.2) == z
}

/// `date_of_day` undoes `day_number`.
pub proof fn law_date_of_day(y: int, m: int, d: int)
    requires
        is_date(y, m, d),
    ensures
        date_of_day(day_number(y, m, d)) == (y, m, d),
{
    let date = (y, m, d);
    assert(is_date(date.0, date.1, date.2) && day_number(date.0, date.1, date.2) == day_number(
        y,
        m,
        d,
    ));
    let found = date_of_day(day_number(y, m, d));
    law_dates_distinct(y, m, d, found.0, found.1, found.2);
}

proof fn lemma_date_exists(z: int)
    ensures
        is_date(date_of_day(z).0, date_of_day(z).1, date_of_day(z).2),
        day_number(date_of_day(z).0, date_of_day(z).1, date_of_day(z).2) == z,
    decreases
            if z < 0 {
                -z
            } else {
                z
            },
{
    if z == 0 {
        lemma_days_before_month(1970);
        assert(day_number(1970, 1, 1) == 0);
        law_date_of_day(1970, 1, 1);
    } else if z > 0 {
        lemma_date_exists(z - 1);
        let (y, m, d) = date_of_day(z - 1);
        law_next_day(y, m, d);
        let next = next_date(y, m, d);
        law_date_of_day(next.0, next.1, next.2);
    } else {
        lemma_date_exists(z + 1);
        let (y, m, d) = date_of_day(z + 1);
        let before = if d > 1 {
            (y, m, d - 1)
        } else if m > 1 {
            (y, m - 1, days_in_month(y, m - 1))
        } else {
            (y - 1, 12, 31)
        };
        assert(next_date(before.0, before.1, before.2) == (y, m, d));
        law_next_day(before.0, before.1, before.2);
        law_date_of_day(before.0, before.1, before.2);
    }
}

/// The calendar: the first day is 1970-01-01, and every day's date is the one after the
/// day before. Months have thirty-one days but for April, June, September and November
/// with thirty and February with twenty-eight, or twenty-nine in years that four divides,
/// except for those that a hundred divides and four hundred does not.
pub proof fn law_day_after(z: int)
    ensures
        date_of_day(0) == (1970int, 1int, 1int),
        ({
            let (y, m, d) = date_of_day(z);
            let last: int = if m == 2 {
                if y % 4 == 0 && (y % 100 != 0 || y % 400 == 0) {
                    29
                } else {
                    28
                }
            } else if m == 4 || m == 6 || m == 9 || m == 11 {
                30
            } else {
                31
            };
            &&& 1 <= m <= 12
            &&& 1 <= d <= last
            &&& date_of_day(z + 1) == if d < last {
                (y, m, d + 1)
            } else if m < 12 {
                (y, m + 1, 1int)
            } else {
                (y + 1, 1int, 1int)
            }
        }),
{
    lemma_days_before_month(1970);
    assert(day_number(1970, 1, 1) == 0);
    law_date_of_day(1970, 1, 1);
    lemma_date_exists(z);
    let (y, m, d) = date_of_day(z);
    law_next_day(y, m, d);
    let next = next_date(y, m, d);
    law_date_of_day(next.0, next.1, next.2);
}

/// The year of a day within 120,000 days of 1970 has four digits.
pub(crate) proof fn lemma_four_digit_year(z: int)
    requires
        -120_000 <= z <= 120_000,
    ensures
        0 <= date_of_day(z).0 <= 9999,
        is_date(date_of_day(z).0, date_of_day(z).1, date_of_day(z).2),
{
    lemma_date_exists(z);
    let (y, m, d) = date_of_day(z);
    assert(day_number(0, 1, 1) == -719_528);
    assert(day_number(10_000, 1, 1) == 2_932_897);
    law_year_of_date(y, m, d, 0);
    law_year_of_date(y, m, d, 10_000);
}

} // verus!
