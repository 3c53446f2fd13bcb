//! Text helpers: decimal numbers, padding, and strings as sequences of characters.

use vstd::prelude::*;
use vstd::utf8::decode_utf8;
use vstd::utf8::encode_utf8;
use vstd::utf8::encode_utf8_decode_utf8;
use vstd::utf8::encode_utf8_valid_utf8;
use vstd::utf8::valid_utf8;

verus! {

/// `String::push` appends one character.
pub assume_specification[ String::push ](s: &mut String, c: char)
    ensures
        final(s)@ == old(s)@.push(c),
;

/// `String::push_str` appends a string slice.
pub assume_specification[ String::push_str ](s: &mut String, t: &str)
    ensures
        final(s)@ == old(s)@ + t@,
;

/// The decimal digit for `d < 10`.
pub open spec fn digit(d: nat) -> char {
    (48 + d) as char
}

/// `n` in decimal, without leading zeros.
pub open spec fn dec(n: nat) -> Seq<char>
    decreases n,
{
    if n < 10 {
        seq![digit(n)]
    } else {
        dec(n / 10).push(digit(n % 10))
    }
}

/// `n` in decimal.
pub fn decimal(n: u64) -> (s: String)
    ensures
        s@ == dec(n as nat),
    decreases n,
{
    if n < 10 {
        let mut s = String::new();
        s.push((48 + n as u8) as char);
        assert(s@ =~= dec(n as nat));
        s
    } else {
        let mut s = decimal(n / 10);
        s.push((48 + (n % 10) as u8) as char);
        s
    }
}

/// The characters of `s`.
pub fn chars_of(s: &str) -> (v: Vec<char>)
    ensures
        v@ == s@,
{
    let mut v: Vec<char> = Vec::new();
    for c in it: s.chars()
        invariant
            it.seq() == s@,
            v@ == s@.take(it.index@),
    {
        v.push(c);
        assert(s@.take(it.index@ + 1) =~= s@.take(it.index@).push(c));
    }
    assert(s@.take(s@.len() as int) =~= s@);
    v
}

/// The string of the characters `v[from..to]`.
pub fn string_of(v: &Vec<char>, from: usize, to: usize) -> (s: String)
    requires
        from <= to <= v@.len(),
    ensures
        s@ == v@.subrange(from as int, to as int),
{
    let mut s = String::new();
    let mut i: usize = from;
    while i < to
        invariant
            from <= i <= to <= v@.len(),
            s@ == v@.subrange(from as int, i as int),
        decreases to - i,
    {
        s.push(v[i]);
        i = i + 1;
        assert(v@.subrange(from as int, i as int) =~= v@.subrange(from as int, i - 1).push(
            v@[i - 1],
        ));
    }
    s
}

/// Do `a` and `b` hold the same characters?
pub fn same_text(a: &str, b: &str) -> (same: bool)
    ensures
        same == (a@ == b@),
{
    let x = a.as_bytes();
    let y = b.as_bytes();
    proof {
        encode_utf8_decode_utf8(a@);
        encode_utf8_decode_utf8(b@);
        assert(a@ == b@ <==> x@ == y@);
    }
    if x.len() != y.len() {
        return false;
    }
    let mut i: usize = 0;
    while i < x.len()
        invariant
            i <= x@.len() == y@.len(),
            forall|j: int| 0 <= j < i ==> x@[j] == y@[j],
            a@ == b@ <==> x@ == y@,
        decreases x@.len() - i,
    {
        if x[i] != y[i] {
            return false;
        }
        i = i + 1;
    }
    assert(x@ =~= y@);
    true
}

/// Does `s` start with the character `c`?
pub open spec fn begins(s: Seq<char>, c: char) -> bool {
    s.len() > 0 && s[0] == c
}

/// Does `s` start with the character `c`?
pub fn begins_with(s: &str, c: char) -> (r: bool)
    ensures
        r == begins(s@, c),
{
    let mut it = s.chars();
    match it.next() {
        None => false,
        Some(d) => d == c,
    }
}

/// The texts of a list of strings.
pub open spec fn texts(list: Seq<String>) -> Seq<Seq<char>> {
    Seq::new(list.len(), |i: int| list[i]@)
}

// ---------------------------------------------------------------------------------------
// Bytes and text
// ---------------------------------------------------------------------------------------
/// The text that `bytes` encode, if they are valid UTF-8.
pub open spec fn as_text(bytes: Seq<u8>) -> Option<Seq<char>> {
    if valid_utf8(bytes) {
        Some(decode_utf8(bytes))
    } else {
        None
    }
}

/// `std::str::from_utf8`: the text that the bytes encode if they are valid UTF-8, and an
/// error otherwise.
#[verifier::external_body]
pub(crate) fn text_from_utf8(bytes: &[u8]) -> (r: Option<String>)
    ensures
        match r {
            Some(s) => as_text(bytes@) == Some(s@),
            None => as_text(bytes@) is None,
        },
{
    match std::str::from_utf8(bytes) {
        Ok(s) => Some(s.to_string()),
        Err(_) => None,
    }
}

/// The UTF-8 bytes of `s`.
pub fn bytes_of(s: &str) -> (b: Vec<u8>)
    ensures
        b@ == encode_utf8(s@),
        as_text(b@) == Some(s@),
{
    proof {
        encode_utf8_decode_utf8(s@);
        encode_utf8_valid_utf8(s@);
    }
    vstd::slice::slice_to_vec(s.as_bytes())
}

/// The form in which a string is quoted in messages: that of `{:?}`.
pub uninterp spec fn quoted(s: Seq<char>) -> Seq<char>;

/// `format!("{:?}", s)`: the string in double quotes with special characters escaped, as
/// named by [`quoted`].
#[verifier::external_body]
pub(crate) fn quote(s: &str) -> (q: String)
    ensures
        q@ == quoted(s@),
{
    format!("{:?}", s)
}

// ---------------------------------------------------------------------------------------
// Searching and cutting
// ---------------------------------------------------------------------------------------
/// The first position of `c` in `s` from `from` on; the length of `s` if there is none.
pub open spec fn index_of(s: Seq<char>, c: char, from: nat) -> nat
    decreases s.len() - from,
{
    if from >= s.len() {
        s.len()
    } else if s[from as int] == c {
        from
    } else {
        index_of(s, c, from + 1)
    }
}

/// The position that is found holds `c`, and none before it does.
pub proof fn index_of_facts(s: Seq<char>, c: char, from: nat)
    requires
        from <= s.len(),
    ensures
        from <= index_of(s, c, from) <= s.len(),
        index_of(s, c, from) < s.len() ==> s[index_of(s, c, from) as int] == c,
        forall|i: int| from <= i < index_of(s, c, from) ==> s[i] != c,
    decreases s.len() - from,
{
    if from < s.len() && s[from as int] != c {
        index_of_facts(s, c, from + 1);
    }
}

/// A position that holds `c`, and before which none does, is the one that is found.
pub proof fn index_of_is(s: Seq<char>, c: char, from: nat, n: nat)
    requires
        from <= n <= s.len(),
        forall|i: int| from <= i < n ==> s[i] != c,
        n < s.len() ==> s[n as int] == c,
    ensures
        index_of(s, c, from) == n,
    decreases n - from,
{
    if from < n {
        index_of_is(s, c, from + 1, n);
    }
}

fn find_char(v: &Vec<char>, c: char, from: usize) -> (n: usize)
    requires
        from <= v@.len(),
    ensures
        n == index_of(v@, c, from as nat),
        from <= n <= v@.len(),
{
    let mut n: usize = from;
    while n < v.len() && v[n] != c
        invariant
            from <= n <= v@.len(),
            index_of(v@, c, from as nat) == index_of(v@, c, n as nat),
        decreases v@.len() - n,
    {
        n = n + 1;
    }
    n
}

/// `s` cut at the first `c`: what comes before it and what comes after.
pub open spec fn cut(s: Seq<char>, c: char) -> Option<(Seq<char>, Seq<char>)> {
    let n = index_of(s, c, 0) as int;
    if n < s.len() {
        Some((s.take(n), s.skip(n + 1)))
    } else {
        None
    }
}

/// Cuts `s` at the first `c`.
pub fn split_at_first(s: &str, c: char) -> (r: Option<(String, String)>)
    ensures
        match r {
            None => cut(s@, c) is None,
            Some((a, b)) => cut(s@, c) == Some((a@, b@)),
        },
{
    let v = chars_of(s);
    let n: usize = find_char(&v, c, 0);
    if n >= v.len() {
        return None;
    }
    let a = string_of(&v, 0, n);
    let b = string_of(&v, n + 1, v.len());
    assert(a@ =~= s@.take(n as int));
    assert(b@ =~= s@.skip(n + 1));
    Some((a, b))
}

/// What comes before and after the first `c`, where the part before holds none.
pub proof fn cut_at(a: Seq<char>, c: char, b: Seq<char>)
    requires
        !a.contains(c),
    ensures
        cut(a.push(c) + b, c) == Some((a, b)),
{
    let s = a.push(c) + b;
    assert(s[a.len() as int] == c);
    assert forall|i: int| 0 <= i < a.len() implies s[i] != c by {
        assert(a.contains(a[i]));
    }
    index_of_is(s, c, 0, a.len());
    assert(s.take(a.len() as int) =~= a);
    assert(s.skip(a.len() as int + 1) =~= b);
}

/// What follows `prefix` in `s`, if `s` starts with it.
pub open spec fn after_prefix(s: Seq<char>, prefix: Seq<char>) -> Option<Seq<char>> {
    if starts(s, prefix) {
        Some(s.skip(prefix.len() as int))
    } else {
        None
    }
}

/// Does `s` start with `prefix`?
pub open spec fn starts(s: Seq<char>, prefix: Seq<char>) -> bool {
    prefix.len() <= s.len() && s.take(prefix.len() as int) == prefix
}

/// Does `s` start with `prefix`?
pub fn starts_with(s: &str, prefix: &str) -> (r: bool)
    ensures
        r == starts(s@, prefix@),
{
    let v = chars_of(s);
    let p = chars_of(prefix);
    has_prefix(&v, &p)
}

fn has_prefix(v: &Vec<char>, p: &Vec<char>) -> (r: bool)
    ensures
        r == starts(v@, p@),
{
    if p.len() > v.len() {
        return false;
    }
    let mut i: usize = 0;
    while i < p.len()
        invariant
            i <= p@.len() <= v@.len(),
            forall|j: int| 0 <= j < i ==> v@[j] == p@[j],
        decreases p@.len() - i,
    {
        if v[i] != p[i] {
            assert(v@.take(p@.len() as int)[i as int] != p@[i as int]);
            return false;
        }
        i = i + 1;
    }
    assert(v@.take(p@.len() as int) =~= p@);
    true
}

/// What follows `prefix` in `s`, if `s` starts with it.
pub fn strip(s: &str, prefix: &str) -> (r: Option<String>)
    ensures
        match r {
            None => after_prefix(s@, prefix@) is None,
            Some(t) => after_prefix(s@, prefix@) == Some(t@),
        },
{
    let v = chars_of(s);
    let p = chars_of(prefix);
    if has_prefix(&v, &p) {
        let t = string_of(&v, p.len(), v.len());
        assert(t@ =~= s@.skip(p@.len() as int));
        Some(t)
    } else {
        None
    }
}

/// Does `s` end with `suffix`?
pub open spec fn ends(s: Seq<char>, suffix: Seq<char>) -> bool {
    suffix.len() <= s.len() && s.skip(s.len() - suffix.len()) == suffix
}

/// Does `s` end with `suffix`?
pub fn ends_with(s: &str, suffix: &str) -> (r: bool)
    ensures
        r == ends(s@, suffix@),
{
    let v = chars_of(s);
    let p = chars_of(suffix);
    if p.len() > v.len() {
        return false;
    }
    let len: usize = v.len();
    let from: usize = len - p.len();
    let mut i: usize = 0;
    while i < p.len()
        invariant
            v@ == s@,
            p@ == suffix@,
            i <= p@.len() <= v@.len(),
            len == v@.len(),
            from == len - p@.len(),
            forall|j: int| 0 <= j < i ==> v@[from + j] == p@[j],
        decreases p@.len() - i,
    {
        if v[from + i] != p[i] {
            assert(v@.skip(from as int)[i as int] != p@[i as int]);
            return false;
        }
        i = i + 1;
    }
    assert(v@.skip(from as int) =~= p@);
    true
}

/// Is `c` white space? (The Unicode property `White_Space`.)
pub open spec fn is_space(c: char) -> bool {
    let u = c as u32;
    9 <= u <= 13 || u == 0x20 || u == 0x85 || u == 0xa0 || u == 0x1680 || 0x2000 <= u <= 0x200a || u
        == 0x2028 || u == 0x2029 || u == 0x202f || u == 0x205f || u == 0x3000
}

/// `s` without the white space at its end.
pub open spec fn trimmed(s: Seq<char>) -> Seq<char>
    decreases s.len(),
{
    if s.len() > 0 && is_space(s.last()) {
        trimmed(s.drop_last())
    } else {
        s
    }
}

/// `s` without the white space at its end.
pub fn trim_right(s: &str) -> (t: String)
    ensures
        t@ == trimmed(s@),
{
    let v = chars_of(s);
    let mut n: usize = v.len();
    assert(v@.take(n as int) =~= s@);
    while n > 0 && is_space_char(v[n - 1])
        invariant
            n <= v@.len(),
            trimmed(s@) == trimmed(v@.take(n as int)),
        decreases n,
    {
        assert(v@.take(n as int).drop_last() =~= v@.take(n - 1));
        n = n - 1;
    }
    let t = string_of(&v, 0, n);
    assert(t@ =~= v@.take(n as int));
    t
}

fn is_space_char(c: char) -> (r: bool)
    ensures
        r == is_space(c),
{
    let u: u32 = c as u32;
    (9 <= u && u <= 13) || u == 0x20 || u == 0x85 || u == 0xa0 || u == 0x1680 || (0x2000 <= u && u
        <= 0x200a) || u == 0x2028 || u == 0x2029 || u == 0x202f || u == 0x205f || u == 0x3000
}

/// Is `c` an ASCII hexadecimal digit, of either case?
pub open spec fn is_hex(c: char) -> bool {
    '0' <= c <= '9' || 'a' <= c <= 'f' || 'A' <= c <= 'F'
}

/// Is `s` made of hexadecimal digits only?
pub open spec fn all_hex(s: Seq<char>) -> bool {
    forall|i: int| 0 <= i < s.len() ==> is_hex(#[trigger] s[i])
}

/// Is `s` made of hexadecimal digits only?
pub fn is_all_hex(s: &str) -> (r: bool)
    ensures
        r == all_hex(s@),
{
    let v = chars_of(s);
    let mut i: usize = 0;
    while i < v.len()
        invariant
            v@ == s@,
            i <= v@.len(),
            forall|j: int| 0 <= j < i ==> is_hex(#[trigger] v@[j]),
        decreases v@.len() - i,
    {
        let c: char = v[i];
        if !(('0' <= c && c <= '9') || ('a' <= c && c <= 'f') || ('A' <= c && c <= 'F')) {
            assert(!is_hex(s@[i as int]));
            return false;
        }
        i = i + 1;
    }
    true
}

// ---------------------------------------------------------------------------------------
// Lines
// ---------------------------------------------------------------------------------------
/// A line without a carriage return at its end.
pub open spec fn without_return(line: Seq<char>) -> Seq<char> {
    if line.len() > 0 && line.last() == '\r' {
        line.drop_last()
    } else {
        line
    }
}

/// The lines of `s`: each ends at a line feed, and loses a carriage return before it; what
/// follows the last line feed is a line of its own if it is not empty.
pub open spec fn lines(s: Seq<char>) -> Seq<Seq<char>>
    decreases s.len(),
{
    let n = index_of(s, '\n', 0) as int;
    if s.len() == 0 {
        Seq::empty()
    } else if n >= s.len() {
        seq![s]
    } else {
        seq![without_return(s.take(n))] + lines(s.skip(n + 1))
    }
}

proof fn index_of_skip(s: Seq<char>, c: char, k: nat)
    requires
        k <= s.len(),
    ensures
        index_of(s.skip(k as int), c, 0) + k == index_of(s, c, k),
{
    index_of_facts(s, c, k);
    let n = index_of(s, c, k);
    let t = s.skip(k as int);
    assert forall|i: int| 0 <= i < n - k implies t[i] != c by {
        assert(s[i + k] != c);
    }
    index_of_is(t, c, 0, (n - k) as nat);
}

/// The lines of `s`.
pub fn split_lines(s: &str) -> (r: Vec<String>)
    ensures
        texts(r@) == lines(s@),
{
    let v = chars_of(s);
    let mut r: Vec<String> = Vec::new();
    let mut start: usize = 0;
    proof {
        assert(s@.skip(0) =~= s@);
        assert(texts(r@) + lines(s@) =~= lines(s@));
    }
    while start < v.len()
        invariant
            v@ == s@,
            start <= v@.len(),
            texts(r@) + lines(s@.skip(start as int)) == lines(s@),
        decreases v@.len() - start,
    {
        let ghost before = texts(r@);
        let ghost rest = s@.skip(start as int);
        proof {
            index_of_skip(s@, '\n', start as nat);
        }
        let n: usize = find_char(&v, '\n', start);
        if n >= v.len() {
            let line = string_of(&v, start, n);
            assert(line@ =~= rest);
            r.push(line);
            start = n;
            proof {
                assert(texts(r@) =~= before + seq![rest]);
                assert(s@.skip(start as int) =~= Seq::<char>::empty());
                assert(texts(r@) + lines(s@.skip(start as int)) =~= before + lines(rest));
            }
        } else {
            let end: usize = if n > start && v[n - 1] == '\r' {
                n - 1
            } else {
                n
            };
            let line = string_of(&v, start, end);
            proof {
                let whole = rest.take(n - start);
                assert(whole =~= s@.subrange(start as int, n as int));
                assert(line@ =~= without_return(whole));
            }
            let ghost l = line@;
            r.push(line);
            start = n + 1;
            proof {
                let tail = s@.skip(start as int);
                assert(rest.skip(index_of(rest, '\n', 0) as int + 1) =~= tail);
                assert(texts(r@) =~= before + seq![l]);
                assert(texts(r@) + lines(tail) =~= before + (seq![l] + lines(tail)));
            }
        }
    }
    assert(s@.skip(start as int) =~= Seq::<char>::empty());
    assert(texts(r@) + Seq::<Seq<char>>::empty() =~= texts(r@));
    r
}

// ---------------------------------------------------------------------------------------
// Prefixes by bytes
// ---------------------------------------------------------------------------------------
/// The number of bytes that `c` takes in UTF-8.
pub open spec fn char_width(c: char) -> nat {
    let u = c as u32;
    if u < 0x80 {
        1
    } else if u < 0x800 {
        2
    } else if u < 0x1_0000 {
        3
    } else {
        4
    }
}

/// The characters at the start of `s` that fit in `n` bytes.
pub open spec fn fitting(s: Seq<char>, n: nat) -> Seq<char>
    decreases s.len(),
{
    if s.len() == 0 || char_width(s[0]) > n {
        Seq::empty()
    } else {
        seq![s[0]] + fitting(s.skip(1), (n - char_width(s[0])) as nat)
    }
}

/// The characters at the start of `s` that fit in `n` bytes.
pub fn first_bytes(s: &str, n: usize) -> (r: String)
    ensures
        r@ == fitting(s@, n as nat),
{
    let v = chars_of(s);
    let mut r = String::new();
    let mut left: usize = n;
    let mut i: usize = 0;
    assert(s@.skip(0) =~= s@);
    assert(r@ + fitting(s@, n as nat) =~= fitting(s@, n as nat));
    while i < v.len()
        invariant
            v@ == s@,
            i <= v@.len(),
            r@ + fitting(s@.skip(i as int), left as nat) == fitting(s@, n as nat),
        decreases v@.len() - i,
    {
        let u: u32 = v[i] as u32;
        let w: usize = if u < 0x80 {
            1
        } else if u < 0x800 {
            2
        } else if u < 0x1_0000 {
            3
        } else {
            4
        };
        let ghost rest = s@.skip(i as int);
        let ghost before = r@;
        assert(rest[0] == v@[i as int]);
        if w > left {
            assert(r@ + fitting(rest, left as nat) =~= r@);
            return r;
        }
        r.push(v[i]);
        proof {
            assert(rest.skip(1) =~= s@.skip(i + 1));
            assert(r@ + fitting(s@.skip(i + 1), (left - w) as nat) =~= before + fitting(
                rest,
                left as nat,
            ));
        }
        left = left - w;
        i = i + 1;
    }
    assert(r@ + fitting(s@.skip(i as int), left as nat) =~= r@);
    r
}

/// What fits is the start of `s`.
pub proof fn fitting_is_prefix(s: Seq<char>, n: nat)
    ensures
        fitting(s, n).len() <= s.len(),
        s.take(fitting(s, n).len() as int) == fitting(s, n),
    decreases s.len(),
{
    let f = fitting(s, n);
    if s.len() > 0 && char_width(s[0]) <= n {
        fitting_is_prefix(s.skip(1), (n - char_width(s[0])) as nat);
        let g = fitting(s.skip(1), (n - char_width(s[0])) as nat);
        assert forall|i: int| 0 <= i < f.len() implies s.take(f.len() as int)[i] == f[i] by {
            if i > 0 {
                assert(g[i - 1] == s.skip(1).take(g.len() as int)[i - 1]);
            }
        }
    }
    assert(s.take(f.len() as int) =~= f);
}

/// Of ASCII text, as many characters fit as there are bytes.
pub proof fn fitting_ascii(s: Seq<char>, n: nat)
    requires
        forall|i: int| 0 <= i < s.len() ==> (#[trigger] s[i] as u32) < 0x80,
    ensures
        fitting(s, n) == s.take(
            if s.len() < n {
                s.len() as int
            } else {
                n as int
            },
        ),
    decreases s.len(),
{
    let k = if s.len() < n {
        s.len() as int
    } else {
        n as int
    };
    if s.len() > 0 && n > 0 {
        assert((s[0] as u32) < 0x80);
        assert forall|i: int| 0 <= i < s.skip(1).len() implies (#[trigger] s.skip(1)[i] as u32)
            < 0x80 by {
            assert((s[i + 1] as u32) < 0x80);
        }
        fitting_ascii(s.skip(1), (n - 1) as nat);
        assert(fitting(s, n) =~= s.take(k));
    } else {
        if s.len() > 0 {
            assert((s[0] as u32) < 0x80);
        }
        assert(fitting(s, n) =~= s.take(k));
    }
}

} // verus!
