//! Reading decimal numbers, and padding text to a width.

use vstd::prelude::*;

use crate::text::begins;
use crate::text::chars_of;
use crate::text::dec;
use crate::text::decimal;

verus! {

/// Is `c` a decimal digit?
pub open spec fn is_digit(c: char) -> bool {
    '0' <= c <= '9'
}

/// Is `s` made of decimal digits only?
pub open spec fn all_digits(s: Seq<char>) -> bool {
    forall|i: int| 0 <= i < s.len() ==> is_digit(#[trigger] s[i])
}

/// The number that the digits `s` stand for.
pub open spec fn digits_value(s: Seq<char>) -> nat
    decreases s.len(),
{
    if s.len() == 0 {
        0
    } else {
        digits_value(s.drop_last()) * 10 + (s.last() as nat - 48) as nat
    }
}

/// `s` without a plus sign at its start.
pub open spec fn unsigned(s: Seq<char>) -> Seq<char> {
    if begins(s, '+') {
        s.skip(1)
    } else {
        s
    }
}

/// The number that `s` is: digits, at least one of them, with at most one plus sign before.
pub open spec fn number(s: Seq<char>) -> Option<nat> {
    if unsigned(s).len() > 0 && all_digits(unsigned(s)) {
        Some(digits_value(unsigned(s)))
    } else {
        None
    }
}

/// The number that `s` is, if it is at most `max`.
pub open spec fn number_upto(s: Seq<char>, max: nat) -> Option<nat> {
    match number(s) {
        Some(n) => if n <= max {
            Some(n)
        } else {
            None
        },
        None => None,
    }
}

proof fn digits_value_grows(s: Seq<char>, k: int)
    requires
        0 <= k <= s.len(),
        all_digits(s),
    ensures
        digits_value(s.take(k)) <= digits_value(s),
    decreases s.len(),
{
    if k == s.len() {
        assert(s.take(k) =~= s);
    } else {
        assert(s.drop_last().take(k) =~= s.take(k));
        assert(all_digits(s.drop_last())) by {
            assert forall|i: int| 0 <= i < s.len() - 1 implies is_digit(
                #[trigger] s.drop_last()[i],
            ) by {
                assert(is_digit(s[i]));
            }
        }
        digits_value_grows(s.drop_last(), k);
        assert(is_digit(s[s.len() - 1]));
    }
}

/// Reads the number `s`, which may be at most `max`.
pub fn parse_number(s: &str, max: u64) -> (r: Option<u64>)
    ensures
        match r {
            Some(n) => number_upto(s@, max as nat) == Some(n as nat),
            None => number_upto(s@, max as nat) is None,
        },
{
    let v = chars_of(s);
    let start: usize = if v.len() > 0 && v[0] == '+' {
        1
    } else {
        0
    };
    let ghost t = unsigned(s@);
    assert(t =~= v@.skip(start as int));
    if start >= v.len() {
        return None;
    }
    let mut n: u64 = 0;
    let mut i: usize = start;
    assert(t.take(0) =~= Seq::<char>::empty());
    while i < v.len()
        invariant
            start <= i <= v@.len(),
            t == unsigned(s@),
            t == v@.skip(start as int),
            t.len() > 0,
            n == digits_value(t.take(i - start)),
            n <= max,
            forall|j: int| 0 <= j < i - start ==> is_digit(#[trigger] t[j]),
        decreases v@.len() - i,
    {
        let c: char = v[i];
        let ghost k = i - start;
        assert(c == t[k]);
        if !('0' <= c && c <= '9') {
            assert(!is_digit(t[k]));
            return None;
        }
        let d: u64 = (c as u32 - 48) as u64;
        proof {
            assert(t.take(k + 1).drop_last() =~= t.take(k));
            if all_digits(t) {
                digits_value_grows(t, k + 1);
            }
        }
        if n > (u64::MAX - d) / 10 || n * 10 + d > max {
            return None;
        }
        n = n * 10 + d;
        i = i + 1;
    }
    assert(t.take(i - start) =~= t);
    Some(n)
}

/// The decimal form of a number is made of digits, and reads back as the number.
pub proof fn dec_reads_back(n: nat)
    ensures
        dec(n).len() > 0,
        all_digits(dec(n)),
        digits_value(dec(n)) == n,
        number(dec(n)) == Some(n),
    decreases n,
{
    let s = dec(n);
    if n < 10 {
        reveal_with_fuel(digits_value, 2);
        assert(s.drop_last() =~= Seq::<char>::empty());
    } else {
        dec_reads_back(n / 10);
        assert(s.drop_last() =~= dec(n / 10));
        assert forall|i: int| 0 <= i < s.len() implies is_digit(#[trigger] s[i]) by {
            if i < s.len() - 1 {
                assert(is_digit(dec(n / 10)[i]));
            }
        }
    }
    assert(is_digit(s[0]));
    assert(unsigned(s) == s);
}

// ---------------------------------------------------------------------------------------
// Padding
// ---------------------------------------------------------------------------------------
/// `n` times the character `c`.
pub open spec fn fill(c: char, n: int) -> Seq<char> {
    Seq::new(
        if n > 0 {
            n as nat
        } else {
            0
        },
        |i: int| c,
    )
}

/// `s`, with `c` before it up to `width` characters.
pub open spec fn right_aligned(s: Seq<char>, width: nat, c: char) -> Seq<char> {
    fill(c, width - s.len()) + s
}

/// `s`, with spaces after it up to `width` characters.
pub open spec fn left_aligned(s: Seq<char>, width: nat) -> Seq<char> {
    s + fill(' ', width - s.len())
}

fn push_fill(s: &mut String, c: char, from: usize, to: usize)
    ensures
        final(s)@ == old(s)@ + fill(c, to - from),
{
    let mut i: usize = from;
    assert(fill(c, 0) =~= Seq::<char>::empty());
    assert(s@ + fill(c, 0) =~= s@);
    while i < to
        invariant
            from <= i,
            i <= to || i == from,
            s@ == old(s)@ + fill(c, i - from),
        decreases to - i,
    {
        s.push(c);
        i = i + 1;
        assert(s@ =~= old(s)@ + fill(c, i - from));
    }
    assert(fill(c, to - from) =~= fill(c, i - from));
}

/// `s`, with `c` before it up to `width` characters.
pub fn align_right(s: &str, width: usize, c: char) -> (r: String)
    ensures
        r@ == right_aligned(s@, width as nat, c),
{
    let n: usize = chars_of(s).len();
    let mut r = String::new();
    push_fill(&mut r, c, n, width);
    r.push_str(s);
    assert(r@ =~= right_aligned(s@, width as nat, c));
    r
}

/// `s`, with spaces after it up to `width` characters.
pub fn align_left(s: &str, width: usize) -> (r: String)
    ensures
        r@ == left_aligned(s@, width as nat),
{
    let n: usize = chars_of(s).len();
    let mut r = s.to_string();
    push_fill(&mut r, ' ', n, width);
    r
}

/// `n` in decimal, with zeros before it up to `width` digits.
pub fn zero_padded(n: u64, width: usize) -> (r: String)
    ensures
        r@ == right_aligned(dec(n as nat), width as nat, '0'),
{
    align_right(decimal(n).as_str(), width, '0')
}

} // verus!
