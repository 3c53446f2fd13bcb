//! What the numbers that are printed stand for: dates, sizes and counts.

use vstd::prelude::*;
use vstd::utf8::encode_utf8;

use crate::calendar::date_is_unique;
use crate::calendar::date_of;
use crate::calendar::days_to_month;
use crate::calendar::padded;
use crate::calendar::utc_text;
use crate::calendar::Date;
use crate::numerals::left_aligned;
use crate::numerals::right_aligned;
use crate::order::ascending;
use crate::order::ascending_facts;
use crate::order::bytes_le;
use crate::order::name_le;
use crate::render::bytes_text;
use crate::render::nearest;
use crate::render::short_id;
use crate::render::spacing;
use crate::snapshot::pending_frames;
use crate::text::dec;

verus! {

// ---------------------------------------------------------------------------------------
// Dates
// ---------------------------------------------------------------------------------------
/// The number of days of month `m` of year `y`: February has a day more every fourth year, but
/// not at the turn of a century that four hundred does not divide.
pub open spec fn days_in(y: int, m: int) -> int {
    if m == 2 && y % 4 == 0 && y % 100 != 0 || m == 2 && y % 400 == 0 {
        29
    } else if m == 2 {
        28
    } else if m == 4 || m == 6 || m == 9 || m == 11 {
        30
    } else {
        31
    }
}

/// The day after `d`.
pub open spec fn next_day(d: Date) -> Date {
    if d.day < days_in(d.year as int, d.month as int) {
        Date { day: (d.day + 1) as u64, ..d }
    } else if d.month < 12 {
        Date { year: d.year, month: (d.month + 1) as u64, day: 1 }
    } else {
        Date { year: (d.year + 1) as u64, month: 1, day: 1 }
    }
}

/// The days are numbered one after the other from 1970-01-01 on: the day after a day of the
/// calendar is one, and its number is the next.
pub proof fn days_are_numbered_in_order(d: Date)
    requires
        d.valid(),
        d.year < 0xffff_ffff,
    ensures
        next_day(d).valid(),
        next_day(d).number() == d.number() + 1,
        (Date { year: 1970, month: 1, day: 1 }).number() == 0,
        (Date { year: 1970, month: 1, day: 1 }).valid(),
{
    reveal_with_fuel(days_to_month, 14);
    let y = d.year as int;
    assert(y / 4 - (y - 1) / 4 == (if y % 4 == 0 {
        1int
    } else {
        0int
    }));
    assert(y / 100 - (y - 1) / 100 == (if y % 100 == 0 {
        1int
    } else {
        0int
    }));
    assert(y / 400 - (y - 1) / 400 == (if y % 400 == 0 {
        1int
    } else {
        0int
    }));
    assert(y % 400 == 0 ==> y % 100 == 0 && y % 4 == 0);
}

/// A time is written as the day and the time of day that it falls on.
pub proof fn time_is_written_as_its_day_and_hour(
    d: Date,
    hour: nat,
    minute: nat,
    second: nat,
    secs: nat,
)
    requires
        d.valid(),
        d.number() >= 0,
        hour < 24,
        minute < 60,
        second < 60,
        secs == 86400 * d.number() + 3600 * hour + 60 * minute + second,
    ensures
        utc_text(secs) == padded(d.year as nat, 4) + "-"@ + padded(d.month as nat, 2) + "-"@
            + padded(d.day as nat, 2) + " "@ + padded(hour, 2) + ":"@ + padded(minute, 2) + ":"@
            + padded(second, 2) + " UTC"@,
{
    let n = d.number();
    let t = 3600 * hour + 60 * minute + second;
    assert(secs / 86400 == n && secs % 86400 == t);
    let chosen = date_of(n);
    assert(chosen.valid() && chosen.number() == n);
    date_is_unique(chosen, d);
    assert(t / 3600 == hour && t % 3600 / 60 == minute && t % 60 == second);
}

// ---------------------------------------------------------------------------------------
// Sizes
// ---------------------------------------------------------------------------------------
/// The size of the unit that a byte count is written in.
pub open spec fn unit_size(n: nat) -> nat {
    if n < 1024 * 1024 {
        1024
    } else if n < 1024 * 1024 * 1024 {
        1024 * 1024
    } else if n < 1024 * 1024 * 1024 * 1024 {
        1024 * 1024 * 1024
    } else {
        1024 * 1024 * 1024 * 1024
    }
}

/// The name of the unit that a byte count is written in.
pub open spec fn unit_name(n: nat) -> Seq<char> {
    if n < 1024 * 1024 {
        "KiB"@
    } else if n < 1024 * 1024 * 1024 {
        "MiB"@
    } else if n < 1024 * 1024 * 1024 * 1024 {
        "GiB"@
    } else {
        "TiB"@
    }
}

/// A byte count below 1024 is written as it is. A larger one is written in tenths of the largest
/// unit that it reaches, and no other number of tenths is nearer to it.
pub proof fn sizes_are_written_to_the_nearest_tenth(n: nat, tenths: nat)
    requires
        n < 0x20_0000_0000_0000,
    ensures
        n < 1024 ==> bytes_text(n) == dec(n) + " B"@,
        n >= 1024 && -(unit_size(n) as int) < 2 * (10 * n - tenths * unit_size(n)) < unit_size(n)
            ==> bytes_text(n) == dec(tenths / 10) + "."@ + dec(tenths % 10) + " "@ + unit_name(n),
{
    assert(spacing(n) == 1);
    assert(n % 1 == 0 && n / 1 == n);
    assert(nearest(n, 1) == n);
    if n >= 1024 {
        let size = unit_size(n) as int;
        let q = (10 * n) as int / size;
        let r = (10 * n) as int % size;
        assert(10 * n == q * size + r && 0 <= r < size) by (nonlinear_arith)
            requires
                q == (10 * n) as int / size,
                r == (10 * n) as int % size,
                size > 0,
        ;
        if -size < 2 * (10 * n - tenths * size) < size {
            if 2 * r < size {
                assert(tenths == q) by (nonlinear_arith)
                    requires
                        10 * n == q * size + r,
                        0 <= r,
                        2 * r < size,
                        -size < 2 * (10 * n - tenths * size) < size,
                ;
            } else {
                assert(tenths == q + 1 && 2 * r > size) by (nonlinear_arith)
                    requires
                        10 * n == q * size + r,
                        r < size,
                        2 * r >= size,
                        -size < 2 * (10 * n - tenths * size) < size,
                ;
            }
        }
    }
}

/// An abbreviated id is the first twelve characters of it, or all of a shorter one.
pub proof fn short_ids_are_prefixes(id: Seq<char>)
    ensures
        id.len() >= 12 ==> short_id(id) == id.take(12),
        id.len() < 12 ==> short_id(id) == id,
{
    if id.len() < 12 {
        assert(id.take(id.len() as int) =~= id);
    }
}

// ---------------------------------------------------------------------------------------
// Orders
// ---------------------------------------------------------------------------------------
proof fn earlier_byte_decides(a: Seq<u8>, b: Seq<u8>, k: int)
    requires
        0 <= k <= a.len(),
        k <= b.len(),
        a.take(k) == b.take(k),
    ensures
        k == a.len() ==> bytes_le(a, b),
        k < a.len() && k == b.len() ==> !bytes_le(a, b),
        k < a.len() && k < b.len() && a[k] < b[k] ==> bytes_le(a, b) && !bytes_le(b, a),
    decreases k,
{
    if k > 0 {
        assert(a.take(k)[0] == a.first() && b.take(k)[0] == b.first());
        let x = a.drop_first();
        let y = b.drop_first();
        assert(x.take(k - 1) =~= a.take(k).drop_first());
        assert(y.take(k - 1) =~= b.take(k).drop_first());
        earlier_byte_decides(x, y, k - 1);
    }
}

/// Names are in the order of their bytes: the first byte in which two of them differ decides, and
/// a name comes before every longer one that starts with it.
pub proof fn names_are_in_the_order_of_their_bytes(a: Seq<char>, b: Seq<char>, k: int)
    requires
        0 <= k <= encode_utf8(a).len(),
        k <= encode_utf8(b).len(),
        encode_utf8(a).take(k) == encode_utf8(b).take(k),
    ensures
        k == encode_utf8(a).len() ==> name_le(a, b),
        k < encode_utf8(a).len() && k == encode_utf8(b).len() ==> !name_le(a, b),
        k < encode_utf8(a).len() && k < encode_utf8(b).len() && encode_utf8(a)[k] < encode_utf8(
            b,
        )[k] ==> name_le(a, b) && !name_le(b, a),
{
    earlier_byte_decides(encode_utf8(a), encode_utf8(b), k);
}

/// Pages are listed from the lowest number to the highest, each as often as it was given.
pub proof fn pages_are_listed_from_the_lowest(pages: Seq<u32>, i: int, j: int)
    requires
        0 <= i <= j < ascending(pages).len(),
    ensures
        ascending(pages)[i] <= ascending(pages)[j],
        ascending(pages).to_multiset() == pages.to_multiset(),
{
    ascending_facts(pages);
}

// ---------------------------------------------------------------------------------------
// Columns
// ---------------------------------------------------------------------------------------
/// What is aligned keeps its text, and is filled up to the width where it is shorter: to the left
/// of it or to the right.
pub proof fn aligned_text_is_kept(s: Seq<char>, width: nat, c: char)
    ensures
        right_aligned(s, width, c).len() == (if s.len() < width {
            width
        } else {
            s.len()
        }),
        right_aligned(s, width, c).skip(right_aligned(s, width, c).len() - s.len()) == s,
        forall|i: int|
            0 <= i < right_aligned(s, width, c).len() - s.len() ==> #[trigger] right_aligned(
                s,
                width,
                c,
            )[i] == c,
        left_aligned(s, width).len() == (if s.len() < width {
            width
        } else {
            s.len()
        }),
        left_aligned(s, width).take(s.len() as int) == s,
        forall|i: int|
            s.len() <= i < left_aligned(s, width).len() ==> #[trigger] left_aligned(s, width)[i]
                == ' ',
{
    assert(right_aligned(s, width, c).skip(right_aligned(s, width, c).len() - s.len()) =~= s);
    assert(left_aligned(s, width).take(s.len() as int) =~= s);
}

/// A number is written in decimal: its last digit after the digits of its tenth, and one below ten
/// as its digit.
pub proof fn numbers_are_written_in_decimal(n: nat)
    ensures
        n < 10 ==> dec(n) == seq![('0' as u8 + n) as char],
        n >= 10 ==> dec(n) == dec(n / 10).push(('0' as u8 + n % 10) as char),
{
}

// ---------------------------------------------------------------------------------------
// Write-ahead logs
// ---------------------------------------------------------------------------------------
/// A write-ahead log holds as many frames as fit behind its header of 32 bytes, each a page and 24
/// bytes; what is there but does not fill a frame counts as one.
pub proof fn frames_are_counted(len: u64, page_size: u32, n: nat)
    requires
        n >= 1,
    ensures
        len <= 32 ==> pending_frames(Some(len), page_size) is None,
        len > 32 && len - 32 < 24 + page_size ==> pending_frames(Some(len), page_size) == Some(
            1nat,
        ),
        n * (24 + page_size) <= len - 32 < (n + 1) * (24 + page_size) ==> pending_frames(
            Some(len),
            page_size,
        ) == Some(n),
        pending_frames(None, page_size) is None,
{
    let size = 24 + page_size as int;
    let d = len - 32;
    if n * size <= d < (n + 1) * size {
        assert(d / size == n && d >= size) by (nonlinear_arith)
            requires
                n * size <= d,
                d < (n + 1) * size,
                size >= 24,
                n >= 1,
        ;
    }
    if 0 < d < size {
        assert(d / size == 0) by (nonlinear_arith)
            requires
                0 < d < size,
        ;
    }
}

} // verus!
