//! Pieces of output: short ids, JSON strings, byte counts, joined lists.

use vstd::prelude::*;

use crate::sha256::hex_digit;
use crate::text::all_hex;
use crate::text::chars_of;
use crate::text::dec;
use crate::text::decimal;
use crate::text::is_hex;
use crate::text::string_of;
use crate::text::texts;

verus! {

// ---------------------------------------------------------------------------------------
// Ids
// ---------------------------------------------------------------------------------------
/// The first twelve characters of an id.
pub open spec fn short_id(id: Seq<char>) -> Seq<char> {
    id.take(
        if id.len() < 12 {
            id.len() as int
        } else {
            12
        },
    )
}

/// An id, abbreviated for human output.
pub fn short(id: &str) -> (s: String)
    ensures
        s@ == short_id(id@),
{
    let v = chars_of(id);
    let n: usize = if v.len() < 12 {
        v.len()
    } else {
        12
    };
    let s = string_of(&v, 0, n);
    assert(s@ =~= short_id(id@));
    s
}

// ---------------------------------------------------------------------------------------
// JSON
// ---------------------------------------------------------------------------------------
/// How one character stands in a JSON string.
pub open spec fn json_char(c: char) -> Seq<char> {
    let u = c as nat;
    if c == '"' {
        seq!['\\', '"']
    } else if c == '\\' {
        seq!['\\', '\\']
    } else if c == '\n' {
        seq!['\\', 'n']
    } else if c == '\r' {
        seq!['\\', 'r']
    } else if c == '\t' {
        seq!['\\', 't']
    } else if u < 0x20 {
        seq!['\\', 'u', '0', '0', hex_digit(u / 16), hex_digit(u % 16)]
    } else {
        seq![c]
    }
}

/// The characters of a JSON string.
pub open spec fn json_chars(s: Seq<char>) -> Seq<char>
    decreases s.len(),
{
    if s.len() == 0 {
        Seq::empty()
    } else {
        json_char(s.first()) + json_chars(s.drop_first())
    }
}

/// The JSON string literal for `s`.
pub open spec fn json(s: Seq<char>) -> Seq<char> {
    (seq!['"'] + json_chars(s)).push('"')
}

fn push_json_char(r: &mut String, c: char)
    ensures
        final(r)@ == old(r)@ + json_char(c),
{
    let u: u32 = c as u32;
    if c == '"' {
        r.push('\\');
        r.push('"');
    } else if c == '\\' {
        r.push('\\');
        r.push('\\');
    } else if c == '\n' {
        r.push('\\');
        r.push('n');
    } else if c == '\r' {
        r.push('\\');
        r.push('r');
    } else if c == '\t' {
        r.push('\\');
        r.push('t');
    } else if u < 0x20 {
        r.push('\\');
        r.push('u');
        r.push('0');
        r.push('0');
        r.push(if u / 16 == 0 {
            '0'
        } else {
            '1'
        });
        let low: u8 = (u % 16) as u8;
        r.push(if low < 10 {
            (48 + low) as char
        } else {
            (87 + low) as char
        });
    } else {
        r.push(c);
    }
    assert(r@ =~= old(r)@ + json_char(c));
}

/// The JSON string literal for `s`.
pub fn json_str(s: &str) -> (r: String)
    ensures
        r@ == json(s@),
{
    let v = chars_of(s);
    let mut r = String::new();
    r.push('"');
    let mut i: usize = 0;
    assert(s@.skip(0) =~= s@);
    assert(r@ + json_chars(s@) =~= seq!['"'] + json_chars(s@));
    while i < v.len()
        invariant
            v@ == s@,
            i <= v@.len(),
            r@ + json_chars(s@.skip(i as int)) == seq!['"'] + json_chars(s@),
        decreases v@.len() - i,
    {
        let ghost before = r@;
        let ghost rest = s@.skip(i as int);
        push_json_char(&mut r, v[i]);
        proof {
            assert(rest.drop_first() =~= s@.skip(i + 1));
            assert(r@ + json_chars(s@.skip(i + 1)) =~= before + json_chars(rest));
        }
        i = i + 1;
    }
    assert(r@ + json_chars(s@.skip(i as int)) =~= r@);
    r.push('"');
    r
}

/// What a JSON string literal of an optional text is; `null` for none.
pub open spec fn json_or_null(s: Option<Seq<char>>) -> Seq<char> {
    match s {
        None => "null"@,
        Some(t) => json(t),
    }
}

/// The JSON name of a truth value.
pub open spec fn truth(b: bool) -> Seq<char> {
    if b {
        "true"@
    } else {
        "false"@
    }
}

/// The JSON name of a truth value.
pub fn truth_str(b: bool) -> (s: &'static str)
    ensures
        s@ == truth(b),
{
    if b {
        "true"
    } else {
        "false"
    }
}

proof fn json_char_plain(c: char)
    ensures
        forall|i: int| 0 <= i < json_char(c).len() ==> #[trigger] json_char(c)[i] >= ' ',
{
    let u = c as nat;
    if u < 0x20 {
        assert(u / 16 < 10);
        let d = u % 16;
        assert(hex_digit(u / 16) >= ' ');
        assert(hex_digit(d) >= ' ');
    }
}

/// A JSON string holds no control character, and every quote within it follows a backslash.
pub proof fn json_is_well_formed(s: Seq<char>)
    ensures
        forall|i: int| 0 <= i < json_chars(s).len() ==> #[trigger] json_chars(s)[i] >= ' ',
        forall|i: int|
            0 <= i < json_chars(s).len() && #[trigger] json_chars(s)[i] == '"' ==> i > 0
                && json_chars(s)[i - 1] == '\\',
    decreases s.len(),
{
    if s.len() > 0 {
        json_is_well_formed(s.drop_first());
        let head = json_char(s.first());
        let rest = json_chars(s.drop_first());
        let all = json_chars(s);
        assert forall|i: int| 0 <= i < all.len() implies #[trigger] all[i] >= ' ' by {
            if i >= head.len() {
                assert(rest[i - head.len()] >= ' ');
            } else {
                assert(all[i] == head[i]);
                json_char_plain(s.first());
            }
        }
        assert forall|i: int| 0 <= i < all.len() && #[trigger] all[i] == '"' implies i > 0 && all[i
            - 1] == '\\' by {
            if i >= head.len() {
                assert(rest[i - head.len()] == '"');
                assert(all[i - 1] == rest[i - head.len() - 1]);
            }
        }
    }
}

/// The value of a hexadecimal digit.
pub open spec fn hex_value(c: char) -> nat {
    if c <= '9' {
        (c as nat - '0' as nat) as nat
    } else if c <= 'F' {
        (c as nat - 'A' as nat + 10) as nat
    } else {
        (c as nat - 'a' as nat + 10) as nat
    }
}

/// The number in an escape `\uXXXX` at the start of `t`, if there is one.
pub open spec fn unit_at(t: Seq<char>) -> Option<nat> {
    if t.len() >= 6 && t[0] == '\\' && t[1] == 'u' && all_hex(t.subrange(2, 6)) {
        Some(
            hex_value(t[2]) * 4096 + hex_value(t[3]) * 256 + hex_value(t[4]) * 16 + hex_value(
                t[5],
            ),
        )
    } else {
        None
    }
}

/// Is `u` the first half of a pair of escapes that stand for one character?
pub open spec fn is_high_half(u: nat) -> bool {
    0xd800 <= u <= 0xdbff
}

/// Is `u` the second half of a pair of escapes that stand for one character?
pub open spec fn is_low_half(u: nat) -> bool {
    0xdc00 <= u <= 0xdfff
}

/// The character that a backslash and `c` stand for, if they stand for one.
pub open spec fn short_escape(c: char) -> Option<char> {
    if c == '"' || c == '\\' || c == '/' {
        Some(c)
    } else if c == 'b' {
        Some('\x08')
    } else if c == 'f' {
        Some('\x0c')
    } else if c == 'n' {
        Some('\n')
    } else if c == 'r' {
        Some('\r')
    } else if c == 't' {
        Some('\t')
    } else {
        None
    }
}

/// `c` in front of a text, if there is one.
pub open spec fn in_front(c: char, rest: Option<Seq<char>>) -> Option<Seq<char>> {
    match rest {
        None => None,
        Some(r) => Some(seq![c] + r),
    }
}

/// The text that `t`, what stands between the quotes of a JSON string literal, stands for;
/// `None` if `t` cannot stand there.
pub open spec fn decoded_chars(t: Seq<char>) -> Option<Seq<char>>
    decreases t.len(),
{
    if t.len() == 0 {
        Some(Seq::empty())
    } else if t[0] == '"' || ' ' > t[0] {
        None
    } else if t[0] != '\\' {
        in_front(t[0], decoded_chars(t.skip(1)))
    } else if t.len() >= 2 && short_escape(t[1]) is Some {
        in_front(short_escape(t[1]).unwrap(), decoded_chars(t.skip(2)))
    } else {
        match unit_at(t) {
            None => None,
            Some(u) => if !is_high_half(u) && !is_low_half(u) {
                in_front(u as char, decoded_chars(t.skip(6)))
            } else {
                match unit_at(t.skip(6)) {
                    Some(v) => if is_high_half(u) && is_low_half(v) {
                        in_front(
                            (0x10000 + (u - 0xd800) * 1024 + (v - 0xdc00)) as char,
                            decoded_chars(t.skip(12)),
                        )
                    } else {
                        None
                    },
                    None => None,
                }
            },
        }
    }
}

/// The text that a JSON string literal stands for; `None` if `literal` is none.
pub open spec fn decoded(literal: Seq<char>) -> Option<Seq<char>> {
    let n = literal.len();
    if n >= 2 && literal[0] == '"' && literal[n - 1] == '"' {
        decoded_chars(literal.subrange(1, n - 1))
    } else {
        None
    }
}

proof fn json_char_decodes(c: char, rest: Seq<char>)
    ensures
        decoded_chars(json_char(c) + rest) == in_front(c, decoded_chars(rest)),
{
    let head = json_char(c);
    let t = head + rest;
    assert(t.skip(head.len() as int) =~= rest);
    assert(t[0] == head[0]);
    if head.len() >= 2 {
        assert(t[1] == head[1]);
    }
    if head.len() == 6 {
        let u = c as nat;
        let d = u % 16;
        let digits = t.subrange(2, 6);
        assert(t[2] == '0' && t[3] == '0' && t[4] == hex_digit(u / 16) && t[5] == hex_digit(d));
        assert(u / 16 <= 1 && d < 16);
        assert(hex_value(hex_digit(d)) == d && is_hex(hex_digit(d)));
        assert forall|i: int| 0 <= i < digits.len() implies is_hex(#[trigger] digits[i]) by {
            assert(digits[i] == t[i + 2]);
        }
        assert(unit_at(t) == Some(u));
    }
}

proof fn json_chars_decode(s: Seq<char>)
    ensures
        decoded_chars(json_chars(s)) == Some(s),
    decreases s.len(),
{
    if s.len() == 0 {
        assert(s =~= Seq::empty());
    } else {
        json_char_decodes(s.first(), json_chars(s.drop_first()));
        json_chars_decode(s.drop_first());
        assert(seq![s.first()] + s.drop_first() =~= s);
    }
}

/// A JSON string literal stands for the text that it was made of.
pub proof fn json_decodes(s: Seq<char>)
    ensures
        decoded(json(s)) == Some(s),
{
    let literal = json(s);
    json_chars_decode(s);
    assert(literal.subrange(1, literal.len() - 1) =~= json_chars(s));
}

/// Two texts have one JSON string literal exactly where they are one text.
pub proof fn json_is_injective(a: Seq<char>, b: Seq<char>)
    ensures
        json(a) == json(b) <==> a == b,
{
    json_decodes(a);
    json_decodes(b);
}

// ---------------------------------------------------------------------------------------
// Lists
// ---------------------------------------------------------------------------------------
/// `items` with `sep` between each two.
pub open spec fn join(items: Seq<Seq<char>>, sep: Seq<char>) -> Seq<char>
    decreases items.len(),
{
    if items.len() == 0 {
        Seq::empty()
    } else if items.len() == 1 {
        items[0]
    } else {
        join(items.drop_last(), sep) + sep + items.last()
    }
}

/// `items` with `sep` between each two.
pub fn join_strings(items: &Vec<String>, sep: &str) -> (s: String)
    ensures
        s@ == join(texts(items@), sep@),
{
    let mut s = String::new();
    let ghost all = texts(items@);
    let mut i: usize = 0;
    assert(all.take(0) =~= Seq::empty());
    assert(s@ =~= Seq::empty());
    while i < items.len()
        invariant
            i <= items@.len(),
            all == texts(items@),
            s@ == join(all.take(i as int), sep@),
        decreases items@.len() - i,
    {
        let ghost before = s@;
        if i > 0 {
            s.push_str(sep);
        }
        s.push_str(items[i].as_str());
        proof {
            assert(all.take(i + 1).drop_last() =~= all.take(i as int));
            assert(all.take(i + 1).last() == items@[i as int]@);
            if i == 0 {
                assert(s@ =~= items@[0]@);
            }
        }
        i = i + 1;
    }
    assert(all.take(i as int) =~= all);
    s
}

// ---------------------------------------------------------------------------------------
// Byte counts
// ---------------------------------------------------------------------------------------
/// The distance between two neighbouring numbers of 53 significant bits around `n`.
pub open spec fn spacing(n: nat) -> nat
    decreases n,
{
    if n < 0x20_0000_0000_0000 {
        1
    } else {
        2 * spacing(n / 2)
    }
}

/// `n / d`, rounded to the nearest integer, and to the even one of two that are as near.
pub open spec fn nearest(n: nat, d: nat) -> nat {
    let q = n / d;
    let r = n % d;
    if 2 * r < d || (2 * r == d && q % 2 == 0) {
        q
    } else {
        q + 1
    }
}

/// `n`, rounded to 53 significant bits.
pub open spec fn to_53_bits(n: nat) -> nat {
    nearest(n, spacing(n)) * spacing(n)
}

/// The name of the largest unit up to TiB that `n` reaches, and its size in bytes.
pub open spec fn unit_of(n: nat) -> (Seq<char>, nat) {
    if n < 0x400 {
        ("B"@, 1)
    } else if n < 0x10_0000 {
        ("KiB"@, 0x400)
    } else if n < 0x4000_0000 {
        ("MiB"@, 0x10_0000)
    } else if n < 0x100_0000_0000 {
        ("GiB"@, 0x4000_0000)
    } else {
        ("TiB"@, 0x100_0000_0000)
    }
}

/// A byte count such as `512 B` or `12.3 KiB`: in the largest unit that it reaches, with one
/// decimal. Beyond 53 bits the count is rounded first.
pub open spec fn bytes_text(n: nat) -> Seq<char> {
    let v = to_53_bits(n);
    let (name, size) = unit_of(v);
    let tenths = nearest(v * 10, size);
    if n < 0x400 {
        dec(n) + " B"@
    } else {
        dec(tenths / 10) + "."@ + dec(tenths % 10) + " "@ + name
    }
}

fn spacing_of(n: u64) -> (s: u64)
    ensures
        s == spacing(n as nat),
        1 <= s,
        s <= 2048,
    decreases n,
{
    proof {
        spacing_bound(n as nat);
    }
    if n < 0x20_0000_0000_0000 {
        1
    } else {
        2 * spacing_of(n / 2)
    }
}

proof fn spacing_bound(n: nat)
    ensures
        1 <= spacing(n),
        n < 0x20_0000_0000_0000 ==> spacing(n) == 1,
        n <= u64::MAX ==> spacing(n) <= 2048,
{
    reveal_with_fuel(spacing, 13);
    spacing_positive(n);
}

proof fn spacing_positive(n: nat)
    ensures
        1 <= spacing(n),
    decreases n,
{
    if n >= 0x20_0000_0000_0000 {
        spacing_positive(n / 2);
    }
}

fn nearest_of(n: u128, d: u128) -> (q: u128)
    requires
        0 < d <= 0x100_0000_0000,
        n <= 0x1_0000_0000_0000_0000_0000,
    ensures
        q == nearest(n as nat, d as nat),
{
    let q: u128 = n / d;
    let r: u128 = n % d;
    proof {
        assert(q <= n) by (nonlinear_arith)
            requires
                q == n / d,
                d >= 1,
        ;
        assert(r < d);
    }
    if 2 * r < d || (2 * r == d && q % 2 == 0) {
        q
    } else {
        q + 1
    }
}

proof fn rounding_bound(n: nat, u: nat)
    requires
        n <= u64::MAX,
        1 <= u <= 2048,
    ensures
        nearest(n, u) <= n + 1,
        nearest(n, u) * u <= n + 2048,
{
    let q = n / u;
    assert(q * u <= n && q <= n && (q + 1) * u <= n + u) by (nonlinear_arith)
        requires
            q == n / u,
            u >= 1,
    ;
}

/// Writes a byte count for humans.
pub fn human_bytes(n: u64) -> (s: String)
    ensures
        s@ == bytes_text(n as nat),
{
    if n < 0x400 {
        let mut s = decimal(n);
        s.push_str(" B");
        return s;
    }
    let u: u64 = spacing_of(n);
    proof {
        rounding_bound(n as nat, u as nat);
    }
    let q: u128 = nearest_of(n as u128, u as u128);
    proof {
        assert(q * u <= n + 2048);
    }
    let v: u128 = q * u as u128;
    let ghost w = to_53_bits(n as nat);
    assert(v == w);
    proof {
        if n < 0x20_0000_0000_0000 {
            assert(nearest(n as nat, 1) == n);
        }
    }
    let (name, size): (&str, u128) = if v < 0x400 {
        ("B", 1)
    } else if v < 0x10_0000 {
        ("KiB", 0x400)
    } else if v < 0x4000_0000 {
        ("MiB", 0x10_0000)
    } else if v < 0x100_0000_0000 {
        ("GiB", 0x4000_0000)
    } else {
        ("TiB", 0x100_0000_0000)
    };
    let tenths: u128 = nearest_of(v * 10, size);
    proof {
        tenths_bound(v as nat, size as nat);
    }
    let mut s = decimal((tenths / 10) as u64);
    s.push_str(".");
    s.push_str(decimal((tenths % 10) as u64).as_str());
    s.push_str(" ");
    s.push_str(name);
    s
}

proof fn tenths_bound(v: nat, size: nat)
    requires
        v <= u64::MAX + 2048,
        size == unit_of(v).1,
    ensures
        nearest(v * 10, size) < 0x1_0000_0000_0000,
{
}

} // verus!
