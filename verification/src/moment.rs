//! Points in time, in UTC, and how they are written. The chrono crate reads and
//! writes them.

use chrono::DateTime;

use vstd::prelude::*;

use crate::calendar::date_of_day;
use crate::text::{is_decimal, law_zero_padded, worth, zero_padded};

verus! {

/// The first second that has a date, counted from 1970: that of the year -262143.
pub const FIRST_SECOND: i64 = -8_334_601_228_800;

/// The last second that has a date: that of the year 262142.
pub const LAST_SECOND: i64 = 8_210_266_876_799;

/// Whether so many seconds since 1970, and so many nanoseconds behind them, are a
/// point in time. In the last second of a minute there may be more nanoseconds than
/// a second has: those of a leap second.
pub open spec fn is_moment(secs: i64, nanos: u32) -> bool {
    &&& FIRST_SECOND <= secs <= LAST_SECOND
    &&& nanos < 1_000_000_000 || (nanos < 2_000_000_000 && secs as int % 60 == 59)
}

/// A date as text: year, month and day with hyphens between them. A year that does
/// not have four digits has a sign.
pub open spec fn date_text(date: (int, int, int)) -> Seq<char> {
    let year = if 0 <= date.0 <= 9999 {
        zero_padded(date.0 as nat, 4)
    } else if date.0 < 0 {
        seq!['-'] + zero_padded((-date.0) as nat, 4)
    } else {
        seq!['+'] + zero_padded(date.0 as nat, 4)
    };
    year + "-"@ + zero_padded(date.1 as nat, 2) + "-"@ + zero_padded(date.2 as nat, 2)
}

/// The date of the day that the second lies in, in UTC.
pub open spec fn utc_date(secs: i64) -> Seq<char> {
    date_text(date_of_day(secs as int / 86_400))
}

/// The point in time that a text in the format of RFC 3339 names: seconds since
/// 1970 and nanoseconds.
pub uninterp spec fn rfc3339_moment(text: Seq<char>) -> Option<(i64, u32)>;

/// A fraction of a second as text: nothing for a whole second, and otherwise a point
/// and as many digits as it takes, three by three.
pub open spec fn fraction_text(nanos: nat) -> Seq<char> {
    if nanos == 0 {
        Seq::empty()
    } else if nanos % 1_000_000 == 0 {
        "."@ + zero_padded(nanos / 1_000_000, 3)
    } else if nanos % 1_000 == 0 {
        "."@ + zero_padded(nanos / 1_000, 6)
    } else {
        "."@ + zero_padded(nanos, 9)
    }
}

/// A point in time in the format of RFC 3339, in UTC: the date, the time of day, and
/// that there is no offset. A leap second is the sixtieth.
pub open spec fn rfc3339_text(secs: i64, nanos: u32) -> Seq<char> {
    let of_day = secs as int % 86_400;
    let (second, fraction) = if nanos >= 1_000_000_000 {
        (of_day % 60 + 1, nanos - 1_000_000_000)
    } else {
        (of_day % 60, nanos as int)
    };
    utc_date(secs) + "T"@ + zero_padded((of_day / 3_600) as nat, 2) + ":"@ + zero_padded(
        (of_day / 60 % 60) as nat,
        2,
    ) + ":"@ + zero_padded(second as nat, 2) + fraction_text(fraction as nat) + "+00:00"@
}

/// `DateTime::parse_from_rfc3339`, taken to UTC. What it reads depends on the text
/// alone, and is a point in time.
#[verifier::external_body]
fn parse_rfc3339(text: &str) -> (res: Option<(i64, u32)>)
    ensures
        res == rfc3339_moment(text@),
        res matches Some((secs, nanos)) ==> is_moment(secs, nanos),
{
    let parsed = DateTime::parse_from_rfc3339(text).ok()?;
    Some((parsed.timestamp(), parsed.timestamp_subsec_nanos()))
}

/// `DateTime::to_rfc3339` in UTC: the date and the time of day, with a fraction of a
/// second in three, six or nine digits where there is one.
#[verifier::external_body]
fn to_rfc3339(secs: i64, nanos: u32) -> (text: String)
    requires
        is_moment(secs, nanos),
    ensures
        text@ == rfc3339_text(secs, nanos),
{
    DateTime::from_timestamp(secs, nanos).unwrap().to_rfc3339()
}

/// `DateTime::timestamp_nanos_opt`: the nanoseconds since 1970, if 64 bits hold
/// them.
#[verifier::external_body]
fn timestamp_nanos(secs: i64, nanos: u32) -> (res: Option<i64>)
    requires
        is_moment(secs, nanos),
    ensures
        res == (if i64::MIN <= secs * 1_000_000_000 + nanos <= i64::MAX {
            Some((secs * 1_000_000_000 + nanos) as i64)
        } else {
            None
        }),
{
    DateTime::from_timestamp(secs, nanos).unwrap().timestamp_nanos_opt()
}

/// `DateTime::format` with `%Y-%m-%d` in UTC: the date of the day that the second
/// lies in.
#[verifier::external_body]
fn format_date(secs: i64, nanos: u32) -> (text: String)
    requires
        is_moment(secs, nanos),
    ensures
        text@ == utc_date(secs),
{
    DateTime::from_timestamp(secs, nanos).unwrap().format("%Y-%m-%d").to_string()
}

/// A point in time.
#[derive(Debug, Clone, Copy)]
pub struct Moment {
    secs: i64,
    nanos: u32,
}

impl Moment {
    #[verifier::type_invariant]
    spec fn inv(self) -> bool {
        is_moment(self.secs, self.nanos)
    }

    /// The seconds since 1970.
    pub closed spec fn secs(self) -> i64 {
        self.secs
    }

    /// The nanoseconds behind them.
    pub closed spec fn nanos(self) -> u32 {
        self.nanos
    }

    /// The point in time so many seconds since 1970 and so many nanoseconds behind
    /// them, if there is one.
    pub fn new(secs: i64, nanos: u32) -> (res: Option<Moment>)
        ensures
            res is Some <==> is_moment(secs, nanos),
            res matches Some(m) ==> m.secs() == secs && m.nanos() == nanos,
    {
        let whole: bool = nanos < 1_000_000_000;
        let leap: bool = nanos < 2_000_000_000 && last_of_minute(secs);
        if FIRST_SECOND <= secs && secs <= LAST_SECOND && (whole || leap) {
            Some(Moment { secs, nanos })
        } else {
            None
        }
    }

    /// Reads a point in time in the format of RFC 3339.
    pub fn parse(text: &str) -> (res: Option<Moment>)
        ensures
            match rfc3339_moment(text@) {
                Some((secs, nanos)) => res matches Some(m) && m.secs() == secs && m.nanos()
                    == nanos,
                None => res is None,
            },
    {
        match parse_rfc3339(text) {
            Some((secs, nanos)) => Some(Moment { secs, nanos }),
            None => None,
        }
    }

    /// The point in time in the format of RFC 3339.
    pub fn to_text(&self) -> (text: String)
        ensures
            text@ == rfc3339_text(self.secs(), self.nanos()),
    {
        proof {
            use_type_invariant(self);
        }
        to_rfc3339(self.secs, self.nanos)
    }

    /// The nanoseconds since 1970, if 64 bits hold them.
    pub fn to_nanos(&self) -> (res: Option<i64>)
        ensures
            res == (if i64::MIN <= self.secs() * 1_000_000_000 + self.nanos() <= i64::MAX {
                Some((self.secs() * 1_000_000_000 + self.nanos()) as i64)
            } else {
                None
            }),
    {
        proof {
            use_type_invariant(self);
        }
        timestamp_nanos(self.secs, self.nanos)
    }

    /// The date, in UTC.
    pub fn date(&self) -> (text: String)
        ensures
            text@ == utc_date(self.secs()),
    {
        proof {
            use_type_invariant(self);
        }
        format_date(self.secs, self.nanos)
    }
}

/// Whether the second is the last of its minute.
fn last_of_minute(secs: i64) -> (res: bool)
    ensures
        res == (secs as int % 60 == 59),
{
    let r: i64 = secs % 60;
    r == 59 || r == -1
}

/// The date of a day counted from 1970, as text.
pub open spec fn dated(day: int) -> Seq<char> {
    date_text(date_of_day(day))
}

/// A second lies in the day whose date it has.
pub(crate) proof fn lemma_day_of_second(secs: i64)
    ensures
        exists|day: int|
            86_400 * day <= secs < 86_400 * (day + 1) && utc_date(secs) == #[trigger] dated(day),
{
    let day = secs as int / 86_400;
    assert(86_400 * day <= secs < 86_400 * (day + 1));
    assert(utc_date(secs) == dated(day));
}

/// How a date is written: the year, the month and the day with hyphens between them, the
/// year in at least four digits and the others in two. A year has a sign exactly if it is
/// negative or above 9999.
pub proof fn law_date_text(y: int, m: int, d: int)
    requires
        1 <= m <= 12,
        1 <= d <= 31,
    ensures
        exists|year: Seq<char>, month: Seq<char>, day: Seq<char>|
            {
                &&& date_text((y, m, d)) == (if y < 0 {
                    seq!['-']
                } else if y > 9999 {
                    seq!['+']
                } else {
                    Seq::empty()
                }) + year + seq!['-'] + month + seq!['-'] + day
                &&& year.len() >= 4 && #[trigger] is_decimal(year) && worth(year) == if y < 0 {
                    -y
                } else {
                    y
                }
                &&& month.len() == 2 && #[trigger] is_decimal(month) && worth(month) == m
                &&& day.len() == 2 && #[trigger] is_decimal(day) && worth(day) == d
            },
{
    let size = if y < 0 {
        (-y) as nat
    } else {
        y as nat
    };
    let year = zero_padded(size, 4);
    let month = zero_padded(m as nat, 2);
    let day = zero_padded(d as nat, 2);
    law_zero_padded(size, 4);
    law_zero_padded(m as nat, 2);
    law_zero_padded(d as nat, 2);
    assert(month.len() == 2 && day.len() == 2) by {
        reveal_with_fuel(crate::text::digits, 3);
    }
    reveal_strlit("-");
    let sign = if y < 0 {
        seq!['-']
    } else if y > 9999 {
        seq!['+']
    } else {
        Seq::empty()
    };
    assert("-"@ =~= seq!['-']);
    assert(sign + year + seq!['-'] + month + seq!['-'] + day =~= date_text((y, m, d)));
    assert(is_decimal(year) && is_decimal(month) && is_decimal(day));
}

} // verus!
