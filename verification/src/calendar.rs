//! Dates and times of day in UTC, in the proleptic Gregorian calendar.

use vstd::prelude::*;

use crate::numerals::right_aligned;
use crate::numerals::zero_padded;
use crate::text::dec;

verus! {

/// Is `y` a leap year?
pub open spec fn is_leap(y: int) -> bool {
    y % 4 == 0 && (y % 100 != 0 || y % 400 == 0)
}

/// The number of days of month `m` of year `y`.
pub open spec fn month_len(y: int, m: int) -> int {
    if m == 2 {
        if is_leap(y) {
            29
        } else {
            28
        }
    } else if m == 4 || m == 6 || m == 9 || m == 11 {
        30
    } else {
        31
    }
}

/// The number of days from the start of year 1 to the start of year `y`.
pub open spec fn days_to_year(y: int) -> int {
    365 * (y - 1) + (y - 1) / 4 - (y - 1) / 100 + (y - 1) / 400
}

/// The number of days from the start of year `y` to the start of month `m`.
pub open spec fn days_to_month(y: int, m: int) -> int
    decreases m,
{
    if m <= 1 {
        0
    } else {
        days_to_month(y, m - 1) + month_len(y, m - 1)
    }
}

/// A day of the calendar.
pub struct Date {
    pub year: u64,
    pub month: u64,
    pub day: u64,
}

impl Date {
    /// There is such a day.
    pub open spec fn valid(self) -> bool {
        1 <= self.year && 1 <= self.month <= 12 && 1 <= self.day <= month_len(
            self.year as int,
            self.month as int,
        )
    }

    /// The number of days from 1970-01-01 to this day.
    pub open spec fn number(self) -> int {
        days_to_year(self.year as int) - days_to_year(1970) + days_to_month(
            self.year as int,
            self.month as int,
        ) + self.day - 1
    }
}

proof fn days_to_month_bound(y: int, m: int)
    requires
        1 <= m <= 13,
    ensures
        0 <= days_to_month(y, m),
        m <= 12 ==> days_to_month(y, m) + month_len(y, m) <= days_to_month(y, 13),
        days_to_month(y, 13) == (if is_leap(y) {
            366int
        } else {
            365int
        }),
{
    reveal_with_fuel(days_to_month, 14);
}

proof fn days_to_month_monotone(y: int, a: int, b: int)
    requires
        1 <= a < b <= 12,
    ensures
        days_to_month(y, a) + month_len(y, a) <= days_to_month(y, b),
    decreases b - a,
{
    if b > a + 1 {
        days_to_month_monotone(y, a, b - 1);
    }
}

proof fn year_step(y: int)
    requires
        y >= 1,
    ensures
        days_to_year(y + 1) == days_to_year(y) + if is_leap(y) {
            366int
        } else {
            365int
        },
{
    // One more multiple of 4, 100 or 400 is passed exactly when y is one.
    let a = y - 1;
    assert((a + 1) / 4 == a / 4 + if y % 4 == 0 {
        1int
    } else {
        0int
    });
    assert((a + 1) / 100 == a / 100 + if y % 100 == 0 {
        1int
    } else {
        0int
    });
    assert((a + 1) / 400 == a / 400 + if y % 400 == 0 {
        1int
    } else {
        0int
    });
}

proof fn year_monotone(a: int, b: int)
    requires
        1 <= a < b,
    ensures
        days_to_year(a) + if is_leap(a) {
            366int
        } else {
            365int
        } <= days_to_year(b),
    decreases b - a,
{
    year_step(a);
    if b > a + 1 {
        year_step(b - 1);
        year_monotone(a, b - 1);
    }
}

/// Two days with the same number are the same day.
pub proof fn date_is_unique(a: Date, b: Date)
    requires
        a.valid(),
        b.valid(),
        a.number() == b.number(),
    ensures
        a == b,
{
    days_to_month_bound(a.year as int, a.month as int);
    days_to_month_bound(b.year as int, b.month as int);
    if a.year < b.year {
        year_monotone(a.year as int, b.year as int);
    } else if b.year < a.year {
        year_monotone(b.year as int, a.year as int);
    }
    if a.month < b.month {
        days_to_month_monotone(a.year as int, a.month as int, b.month as int);
    } else if b.month < a.month {
        days_to_month_monotone(a.year as int, b.month as int, a.month as int);
    }
}

/// The day that is `n` days after 1970-01-01.
pub open spec fn date_of(n: int) -> Date {
    choose|d: Date| d.valid() && d.number() == n
}

fn month_days(year: u64, month: u64) -> (n: u64)
    ensures
        n == month_len(year as int, month as int),
{
    if month == 2 {
        if year % 4 == 0 && (year % 100 != 0 || year % 400 == 0) {
            29
        } else {
            28
        }
    } else if month == 4 || month == 6 || month == 9 || month == 11 {
        30
    } else {
        31
    }
}

proof fn spans_to_year(era: int, century: int, quad: int, step: int)
    requires
        0 <= era,
        0 <= century <= 3,
        0 <= quad <= 24,
        0 <= step <= 3,
    ensures
        days_to_year(400 * era + 100 * century + 4 * quad + step + 1) == 146_097 * era + 36_524
            * century + 1461 * quad + 365 * step,
{
    let a = 400 * era + 100 * century + 4 * quad + step;
    assert(a / 4 == 100 * era + 25 * century + quad);
    assert(a / 100 == 4 * era + century);
    assert(a / 400 == era);
}

proof fn last_day_is_leap(
    in_era: int,
    century: int,
    in_century: int,
    quad: int,
    in_quad: int,
    step: int,
)
    requires
        0 <= in_era < 146_097,
        century == (if in_era / 36_524 > 3 {
            3
        } else {
            in_era / 36_524
        }),
        in_century == in_era - century * 36_524,
        quad == in_century / 1461,
        in_quad == in_century % 1461,
        step == (if in_quad / 365 > 3 {
            3
        } else {
            in_quad / 365
        }),
    ensures
        0 <= century <= 3,
        0 <= quad <= 24,
        0 <= step <= 3,
        0 <= in_quad - 365 * step <= 365,
        in_quad - 365 * step == 365 ==> step == 3 && (quad == 24 ==> century == 3),
{
    assert(0 <= in_century <= 36_524);
    assert(century < 3 ==> in_century < 36_524);
    assert(in_century == 1461 * quad + in_quad);
}

proof fn leap_of_spans(era: int, century: int, quad: int)
    requires
        0 <= era,
        0 <= century <= 3,
        0 <= quad <= 24,
        quad == 24 ==> century == 3,
    ensures
        is_leap(400 * era + 100 * century + 4 * quad + 4),
{
    let y = 400 * era + 100 * century + 4 * quad + 4;
    assert(y % 4 == 0);
    if quad == 24 {
        assert(y == 400 * (era + 1));
        assert(y % 400 == 0);
    } else {
        assert(y % 100 == 4 * quad + 4);
    }
}

/// The day that is `days` days after 1970-01-01.
pub fn date_from_days(days: u64) -> (d: Date)
    requires
        days <= 0x1_0000_0000_0000,
    ensures
        d.valid(),
        d.number() == days,
        d == date_of(days as int),
{
    // Days since the start of year 1, split into 400-, 100-, 4- and 1-year spans.
    let n: u64 = days + 719_162;
    let era: u64 = n / 146_097;
    let in_era: u64 = n % 146_097;
    let century: u64 = if in_era / 36_524 > 3 {
        3
    } else {
        in_era / 36_524
    };
    let in_century: u64 = in_era - century * 36_524;
    let quad: u64 = in_century / 1461;
    let in_quad: u64 = in_century % 1461;
    let step: u64 = if in_quad / 365 > 3 {
        3
    } else {
        in_quad / 365
    };
    proof {
        last_day_is_leap(
            in_era as int,
            century as int,
            in_century as int,
            quad as int,
            in_quad as int,
            step as int,
        );
    }
    let year: u64 = 400 * era + 100 * century + 4 * quad + step + 1;
    let mut left: u64 = in_quad - 365 * step;
    proof {
        spans_to_year(era as int, century as int, quad as int, step as int);
        spans_to_year(4, 3, 17, 1);
        assert(days_to_year(year as int) + left == n);
        if left == 365 {
            leap_of_spans(era as int, century as int, quad as int);
        }
        days_to_month_bound(year as int, 1);
    }
    let mut month: u64 = 1;
    while left >= month_days(year, month)
        invariant
            1 <= month <= 12,
            left + days_to_month(year as int, month as int) + days_to_year(year as int) == n,
            left + days_to_month(year as int, month as int) < days_to_month(year as int, 13),
        decreases 13 - month,
    {
        proof {
            days_to_month_bound(year as int, month as int);
        }
        left = left - month_days(year, month);
        month = month + 1;
        proof {
            if month <= 12 {
                days_to_month_bound(year as int, month as int);
            }
        }
    }
    let d = Date { year, month, day: left + 1 };
    proof {
        assert(d.valid() && d.number() == days);
        date_is_unique(d, date_of(days as int));
    }
    d
}

/// `n` in decimal, with zeros before it up to `width` digits.
pub open spec fn padded(n: nat, width: nat) -> Seq<char> {
    right_aligned(dec(n), width, '0')
}

/// The time `secs` seconds after 1970-01-01 00:00:00 UTC, as `YYYY-MM-DD HH:MM:SS UTC`.
pub open spec fn utc_text(secs: nat) -> Seq<char> {
    let d = date_of((secs / 86400) as int);
    let t = secs % 86400;
    padded(d.year as nat, 4) + "-"@ + padded(d.month as nat, 2) + "-"@ + padded(d.day as nat, 2)
        + " "@ + padded(t / 3600, 2) + ":"@ + padded(t % 3600 / 60, 2) + ":"@ + padded(t % 60, 2)
        + " UTC"@
}

/// Writes a Unix timestamp as `YYYY-MM-DD HH:MM:SS UTC`.
pub fn format_utc(secs: u64) -> (s: String)
    ensures
        s@ == utc_text(secs as nat),
{
    let d = date_from_days(secs / 86400);
    let t: u64 = secs % 86400;
    let mut s = zero_padded(d.year, 4);
    s.push_str("-");
    s.push_str(zero_padded(d.month, 2).as_str());
    s.push_str("-");
    s.push_str(zero_padded(d.day, 2).as_str());
    s.push_str(" ");
    s.push_str(zero_padded(t / 3600, 2).as_str());
    s.push_str(":");
    s.push_str(zero_padded(t % 3600 / 60, 2).as_str());
    s.push_str(":");
    s.push_str(zero_padded(t % 60, 2).as_str());
    s.push_str(" UTC");
    s
}

} // verus!
