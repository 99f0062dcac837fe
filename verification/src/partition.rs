//! Where a batch is filed: one directory to a day, one file to a batch.

use vstd::prelude::*;

use crate::calendar::{
    civil_from_days, date_of_day, day_number, law_year_of_date, lemma_four_digit_year,
};
use crate::text::{
    decimal, is_decimal, law_signed_decimal_writes, law_zero_padded, push_signed_decimal,
    push_zero_padded, signed_decimal, worth, writes, zero_padded,
};

verus! {

/// Integer division that rounds toward zero.
pub open spec fn quotient(a: int, b: int) -> int {
    if a >= 0 {
        a / b
    } else {
        -((-a) / b)
    }
}

/// The day, counted from 1970-01-01, that a time in nanoseconds is filed under.
/// Times before 1970 round toward it, as all times here do.
pub open spec fn partition_day(ns: int) -> int {
    quotient(quotient(ns, 1_000_000_000), 86_400)
}

/// The path of a batch below the archive's root.
pub open spec fn partition_text(window_start_ns: int, window_end_ns: int) -> Seq<char> {
    let date = date_of_day(partition_day(window_start_ns));
    "year="@ + zero_padded(date.0 as nat, 4) + "/month="@ + zero_padded(date.1 as nat, 2) + "/day="@
        + zero_padded(date.2 as nat, 2) + "/goflow2_"@ + signed_decimal(
        quotient(window_start_ns, 1000),
    ) + "_"@ + signed_decimal(quotient(window_end_ns, 1000)) + ".parquet"@
}

/// The path, below the archive's root, of a batch whose flows start between the
/// given times: partitioned by the day of the first, and named after both, in
/// microseconds.
pub fn partition_path(window_start_ns: i64, window_end_ns: i64) -> (path: String)
    ensures
        path@ == partition_text(window_start_ns as int, window_end_ns as int),
{
    let secs: i64 = window_start_ns / 1_000_000_000;
    let days: i64 = secs / 86_400;
    assert(days == partition_day(window_start_ns as int));
    let (year, month, day) = civil_from_days(days);
    proof {
        assert(day_number(0, 1, 1) == -719528);
        law_year_of_date(year as int, month as int, day as int, 0);
    }
    let mut path = String::new();
    path.append("year=");
    push_zero_padded(&mut path, year as u64, 4);
    path.append("/month=");
    push_zero_padded(&mut path, month as u64, 2);
    path.append("/day=");
    push_zero_padded(&mut path, day as u64, 2);
    path.append("/goflow2_");
    push_signed_decimal(&mut path, window_start_ns / 1000);
    path.append("_");
    push_signed_decimal(&mut path, window_end_ns / 1000);
    path.append(".parquet");
    assert(path@ =~= partition_text(window_start_ns as int, window_end_ns as int));
    path
}

/// A time since 1970 is filed under the day that it lies in.
pub proof fn law_day_holds_time(ns: int)
    requires
        ns >= 0,
    ensures
        partition_day(ns) * 86_400_000_000_000 <= ns < (partition_day(ns) + 1) * 86_400_000_000_000,
{
}

/// A later time is never filed under an earlier day.
pub proof fn law_days_in_order(a: int, b: int)
    requires
        a <= b,
    ensures
        partition_day(a) <= partition_day(b),
{
}

/// The number `a / b`, rounded toward zero, lies within one of the true quotient, on the
/// side of zero.
proof fn lemma_quotient(a: int, b: int, c: int)
    requires
        b > 0,
        c > 0,
    ensures
        a >= 0 ==> quotient(quotient(a, b), c) == a / (b * c),
        a < 0 ==> quotient(quotient(a, b), c) == -((-a) / (b * c)),
{
    if a >= 0 {
        vstd::arithmetic::div_mod::lemma_div_denominator(a, b, c);
        vstd::arithmetic::div_mod::lemma_div_pos_is_pos(a, b);
    } else {
        vstd::arithmetic::div_mod::lemma_div_denominator(-a, b, c);
        vstd::arithmetic::div_mod::lemma_div_pos_is_pos(-a, b);
    }
}

/// Whether a path is put together from the given texts, and they are the year in four
/// digits, the month and the day in two, and the two ends of the window in microseconds.
/// All numbers round toward zero, which is down for times since 1970.
pub open spec fn path_says(
    path: Seq<char>,
    start: i64,
    end: i64,
    date: (Seq<char>, Seq<char>, Seq<char>),
    window: (Seq<char>, Seq<char>),
) -> bool {
    let days = if start >= 0 {
        start as int / 86_400_000_000_000
    } else {
        -((-start) / 86_400_000_000_000)
    };
    let (y, m, d) = date_of_day(days);
    &&& path == "year="@ + date.0 + "/month="@ + date.1 + "/day="@ + date.2 + "/goflow2_"@
        + window.0 + "_"@ + window.1 + ".parquet"@
    &&& date.0.len() == 4 && is_decimal(date.0) && worth(date.0) == y
    &&& date.1.len() == 2 && is_decimal(date.1) && worth(date.1) == m
    &&& date.2.len() == 2 && is_decimal(date.2) && worth(date.2) == d
    &&& start >= 0 ==> writes(window.0, start as int / 1000)
    &&& start < 0 ==> writes(window.0, -((-start) / 1000))
    &&& end >= 0 ==> writes(window.1, end as int / 1000)
    &&& end < 0 ==> writes(window.1, -((-end) / 1000))
}

/// What a path says: the day on which the first flow of the batch starts, and the window
/// of the batch.
pub proof fn law_path(start: i64, end: i64)
    ensures
        exists|date: (Seq<char>, Seq<char>, Seq<char>), window: (Seq<char>, Seq<char>)|
            path_says(partition_text(start as int, end as int), start, end, date, window),
{
    lemma_quotient(start as int, 1_000_000_000, 86_400);
    let days = partition_day(start as int);
    lemma_four_digit_year(days);
    let date = date_of_day(days);
    let year = zero_padded(date.0 as nat, 4);
    let month = zero_padded(date.1 as nat, 2);
    let day = zero_padded(date.2 as nat, 2);
    law_zero_padded(date.0 as nat, 4);
    law_zero_padded(date.1 as nat, 2);
    law_zero_padded(date.2 as nat, 2);
    lemma_short(date.0 as nat, 4);
    lemma_short(date.1 as nat, 2);
    lemma_short(date.2 as nat, 2);
    let from = signed_decimal(quotient(start as int, 1000));
    let to = signed_decimal(quotient(end as int, 1000));
    law_signed_decimal_writes(quotient(start as int, 1000));
    law_signed_decimal_writes(quotient(end as int, 1000));
    assert(path_says(
        partition_text(start as int, end as int),
        start,
        end,
        (year, month, day),
        (from, to),
    ));
}

/// A number below a hundred has at most two digits, one below ten thousand at most four.
proof fn lemma_short(n: nat, width: nat)
    requires
        width == 2 && n < 100 || width == 4 && n < 10_000,
    ensures
        zero_padded(n, width).len() == width,
{
    assert(decimal(n).len() <= width) by {
        reveal_with_fuel(crate::text::digits, 5);
    }
}

} // verus!
