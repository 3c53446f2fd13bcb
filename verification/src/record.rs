//! SQLite varints and records.
//!
//! Just enough of the record format is read here to walk `sqlite_schema` and learn each
//! object's name, type and root page: a varint header length, a list of varint serial
//! types, and the values they describe.

use vstd::prelude::*;
use vstd::slice::slice_subrange;
use vstd::slice::slice_to_vec;
use vstd::utf8::decode_utf8;
use vstd::utf8::valid_utf8;

use crate::text::dec;
use crate::text::decimal;

verus! {

/// Why a low-level structure could not be decoded.
#[derive(Debug, PartialEq, Eq)]
pub struct DecodeError(pub String);

impl DecodeError {
    /// The sentence that is shown to the user.
    pub fn message(&self) -> (s: String)
        ensures
            s@ == self.0@,
    {
        self.0.clone()
    }
}

// ---------------------------------------------------------------------------------------
// Varints
// ---------------------------------------------------------------------------------------
/// `bytes` as a big-endian number of base-128 digits, the high bit of each byte ignored.
pub open spec fn base128(bytes: Seq<u8>) -> nat
    decreases bytes.len(),
{
    if bytes.len() == 0 {
        0
    } else {
        base128(bytes.drop_last()) * 128 + (bytes.last() % 128) as nat
    }
}

/// Where the varint at the start of `buf` ends, its first `i` bytes all being continued: at
/// the first byte whose high bit is clear, and after nine bytes at the latest.
pub open spec fn varint_end(buf: Seq<u8>, i: nat) -> Option<nat>
    decreases 9 - i,
{
    if i >= buf.len() {
        None
    } else if i >= 8 {
        Some(9)
    } else if buf[i as int] < 128 {
        Some(i + 1)
    } else {
        varint_end(buf, i + 1)
    }
}

/// The varint at the start of `buf` and the number of bytes it takes; `None` if `buf` ends
/// within it. A ninth byte holds eight bits, every other byte seven.
pub open spec fn varint(buf: Seq<u8>) -> Option<(nat, nat)> {
    match varint_end(buf, 0) {
        None => None,
        Some(n) => if n <= 8 {
            Some((base128(buf.take(n as int)), n))
        } else {
            Some((base128(buf.take(8)) * 256 + buf[8] as nat, n))
        },
    }
}

/// `128^k`.
pub open spec fn pow128(k: nat) -> nat
    decreases k,
{
    if k == 0 {
        1
    } else {
        128 * pow128((k - 1) as nat)
    }
}

/// `k` base-128 digits stay below `128^k`.
pub proof fn base128_bound(bytes: Seq<u8>)
    ensures
        base128(bytes) < pow128(bytes.len()),
    decreases bytes.len(),
{
    if bytes.len() > 0 {
        base128_bound(bytes.drop_last());
    }
}

/// The powers of 128 that a varint can reach.
pub proof fn pow128_values()
    ensures
        pow128(0) == 1,
        pow128(7) == 0x2_0000_0000_0000,
        pow128(8) == 0x100_0000_0000_0000,
{
    reveal_with_fuel(pow128, 9);
}

/// A varint takes one to nine bytes, all of them in `buf`, and fits in 64 bits.
pub proof fn varint_bounds(buf: Seq<u8>)
    ensures
        varint(buf) matches Some((v, n)) ==> 1 <= n <= 9 && n <= buf.len() && v <= u64::MAX,
{
    varint_end_bounds(buf, 0);
    pow128_values();
    if let Some(n) = varint_end(buf, 0) {
        if n <= 8 {
            base128_bound(buf.take(n as int));
            pow128_monotone(n, 8);
        } else {
            base128_bound(buf.take(8));
        }
    }
}

proof fn varint_end_bounds(buf: Seq<u8>, i: nat)
    requires
        i <= 8,
    ensures
        varint_end(buf, i) matches Some(n) ==> i < n <= 9 && n <= buf.len(),
    decreases 9 - i,
{
    if i < buf.len() && i < 8 && buf[i as int] >= 128 {
        varint_end_bounds(buf, i + 1);
    }
}

proof fn pow128_monotone(a: nat, b: nat)
    requires
        a <= b,
    ensures
        pow128(a) <= pow128(b),
        pow128(a) >= 1,
    decreases b,
{
    if a < b {
        pow128_monotone(a, (b - 1) as nat);
    } else if a > 0 {
        pow128_monotone((a - 1) as nat, (b - 1) as nat);
    }
}

/// Decodes the varint at the start of `buf` into its value and the number of bytes it takes.
pub fn read_varint(buf: &[u8]) -> (r: Result<(u64, usize), DecodeError>)
    ensures
        match r {
            Ok((v, n)) => varint(buf@) == Some((v as nat, n as nat)) && 1 <= n <= 9 && n
                <= buf@.len(),
            Err(e) => varint(buf@) is None && e.0@ == "truncated varint"@,
        },
{
    let mut value: u64 = 0;
    let mut i: usize = 0;
    proof {
        pow128_values();
    }
    while i < 9
        invariant
            i <= 8,
            i <= buf@.len(),
            value == base128(buf@.take(i as int)),
            varint_end(buf@, 0) == varint_end(buf@, i as nat),
        decreases 9 - i,
    {
        if i >= buf.len() {
            return Err(DecodeError("truncated varint".to_string()));
        }
        let b: u8 = buf[i];
        proof {
            pow128_values();
            base128_bound(buf@.take(i as int));
            pow128_monotone(i as nat, 8);
            assert(buf@.take(i + 1).drop_last() =~= buf@.take(i as int));
        }
        if i == 8 {
            return Ok((value * 256 + b as u64, 9));
        }
        proof {
            pow128_monotone(i as nat, 7);
        }
        value = value * 128 + (b % 128) as u64;
        if b < 128 {
            return Ok((value, i + 1));
        }
        i = i + 1;
    }
    Err(DecodeError("truncated varint".to_string()))
}

/// `k` base-128 digits of `v`, the most significant first, each with its high bit set.
pub open spec fn continued_digits(v: nat, k: nat) -> Seq<u8>
    decreases k,
{
    if k == 0 {
        Seq::empty()
    } else {
        continued_digits(v / 128, (k - 1) as nat).push((v % 128 + 128) as u8)
    }
}

/// The number of base-128 digits of `v`; none for zero.
pub open spec fn digit_count(v: nat) -> nat
    decreases v,
{
    if v == 0 {
        0
    } else {
        digit_count(v / 128) + 1
    }
}

/// The shortest varint that encodes `v`.
pub open spec fn varint_bytes(v: nat) -> Seq<u8> {
    if v < 0x100_0000_0000_0000 {
        continued_digits(v / 128, digit_count(v / 128)).push((v % 128) as u8)
    } else {
        continued_digits(v / 256, 8).push((v % 256) as u8)
    }
}

fn push_continued(out: &mut Vec<u8>, v: u64, k: usize)
    ensures
        final(out)@ == old(out)@ + continued_digits(v as nat, k as nat),
    decreases k,
{
    if k > 0 {
        push_continued(out, v / 128, k - 1);
        out.push((v % 128) as u8 + 128);
    }
    assert(out@ =~= old(out)@ + continued_digits(v as nat, k as nat));
}

/// Encodes `value` as a varint.
pub fn write_varint(value: u64) -> (out: Vec<u8>)
    ensures
        out@ == varint_bytes(value as nat),
{
    let mut out: Vec<u8> = Vec::new();
    if value > 0x00ff_ffff_ffff_ffff {
        push_continued(&mut out, value / 256, 8);
        out.push((value % 256) as u8);
    } else {
        let mut k: usize = 0;
        let mut rest: u64 = value / 128;
        proof {
            pow128_values();
            digit_count_bound(rest as nat, 7);
        }
        while rest > 0
            invariant
                k + digit_count(rest as nat) == digit_count((value / 128) as nat),
                digit_count((value / 128) as nat) <= 7,
            decreases rest,
        {
            rest = rest / 128;
            k = k + 1;
        }
        push_continued(&mut out, value / 128, k);
        out.push((value % 128) as u8);
    }
    assert(out@ =~= varint_bytes(value as nat));
    out
}

proof fn continued_digits_facts(v: nat, k: nat)
    requires
        v < pow128(k),
    ensures
        continued_digits(v, k).len() == k,
        base128(continued_digits(v, k)) == v,
        forall|i: int| 0 <= i < k ==> continued_digits(v, k)[i] >= 128,
    decreases k,
{
    if k > 0 {
        continued_digits_facts(v / 128, (k - 1) as nat);
        let s = continued_digits(v, k);
        assert(s.drop_last() =~= continued_digits(v / 128, (k - 1) as nat));
    }
}

proof fn digit_count_bound(v: nat, k: nat)
    ensures
        v < pow128(digit_count(v)),
        v < pow128(k) ==> digit_count(v) <= k,
    decreases v,
{
    if v > 0 {
        digit_count_bound(v / 128, if k > 0 { (k - 1) as nat } else { 0 });
    }
}

proof fn varint_end_skips(buf: Seq<u8>, i: nat, n: nat)
    requires
        i <= n <= 8,
        n < buf.len(),
        forall|j: int| i <= j < n ==> buf[j] >= 128,
    ensures
        varint_end(buf, i) == varint_end(buf, n),
    decreases n - i,
{
    if i < n {
        varint_end_skips(buf, i + 1, n);
    }
}

/// Reading gives back what was written, whatever bytes follow, and the encoding takes one
/// to nine bytes.
pub proof fn varint_round_trip(v: u64, rest: Seq<u8>)
    ensures
        varint(varint_bytes(v as nat) + rest) == Some((v as nat, varint_bytes(v as nat).len())),
        1 <= varint_bytes(v as nat).len() <= 9,
{
    let enc = varint_bytes(v as nat);
    let buf = enc + rest;
    pow128_values();
    if v < 0x100_0000_0000_0000 {
        let hi = v as nat / 128;
        let k = digit_count(hi);
        digit_count_bound(hi, 7);
        continued_digits_facts(hi, k);
        varint_end_skips(buf, 0, k);
        assert(buf.take((k + 1) as int).drop_last() =~= continued_digits(hi, k));
        assert(buf.take((k + 1) as int).last() == (v as nat % 128) as u8);
    } else {
        let hi = v as nat / 256;
        continued_digits_facts(hi, 8);
        varint_end_skips(buf, 0, 8);
        assert(buf.take(8) =~= continued_digits(hi, 8));
    }
}

/// No varint of the same value is shorter than the one that is written.
pub proof fn varint_is_shortest(buf: Seq<u8>)
    ensures
        varint(buf) matches Some((v, n)) ==> varint_bytes(v).len() <= n,
{
    pow128_values();
    varint_bounds(buf);
    if let Some((v, n)) = varint(buf) {
        if v < 0x100_0000_0000_0000 {
            let k = digit_count(v / 128);
            if n <= 8 {
                base128_bound(buf.take(n as int));
                digit_count_bound(v / 128, (n - 1) as nat);
            } else {
                digit_count_bound(v / 128, 7);
            }
            continued_digits_len(v / 128, k);
        } else {
            if n <= 8 {
                base128_bound(buf.take(n as int));
                pow128_monotone(n, 8);
            }
            continued_digits_len(v / 256, 8);
        }
    }
}

proof fn continued_digits_len(v: nat, k: nat)
    ensures
        continued_digits(v, k).len() == k,
    decreases k,
{
    if k > 0 {
        continued_digits_len(v / 128, (k - 1) as nat);
    }
}

// ---------------------------------------------------------------------------------------
// Values
// ---------------------------------------------------------------------------------------
/// A decoded column. A floating-point column is held as its IEEE 754 bit pattern.
#[derive(Debug, Clone, PartialEq, Eq)]
pub enum Value {
    Null,
    Int(i64),
    Float(u64),
    Text(String),
    Blob(Vec<u8>),
}

/// The mathematical value of a [`Value`].
#[verifier::ext_equal]
pub enum ValueView {
    Null,
    Int(i64),
    Float(u64),
    Text(Seq<char>),
    Blob(Seq<u8>),
}

impl View for Value {
    type V = ValueView;

    open spec fn view(&self) -> ValueView {
        match self {
            Value::Null => ValueView::Null,
            Value::Int(v) => ValueView::Int(*v),
            Value::Float(bits) => ValueView::Float(*bits),
            Value::Text(s) => ValueView::Text(s@),
            Value::Blob(b) => ValueView::Blob(b@),
        }
    }
}

/// The views of a sequence of values.
pub open spec fn value_views(values: Seq<Value>) -> Seq<ValueView> {
    Seq::new(values.len(), |i: int| values[i]@)
}

impl Value {
    /// The integer, if the value is one.
    pub fn as_int(&self) -> (r: Option<i64>)
        ensures
            r == (match self@ {
                ValueView::Int(v) => Some(v),
                _ => None,
            }),
    {
        match self {
            Value::Int(v) => Some(*v),
            _ => None,
        }
    }

    /// The text, if the value is text.
    pub fn as_text(&self) -> (r: Option<&str>)
        ensures
            match self@ {
                ValueView::Text(t) => r matches Some(s) && s@ == t,
                _ => r is None,
            },
    {
        match self {
            Value::Text(s) => Some(s.as_str()),
            _ => None,
        }
    }
}

/// The number of body bytes that a column of serial type `serial` takes; `None` for the two
/// reserved types.
pub open spec fn serial_len(serial: nat) -> Option<nat> {
    if serial == 10 || serial == 11 {
        None
    } else if serial >= 12 {
        Some(((serial - 12) / 2) as nat)
    } else if serial <= 4 {
        Some(serial)
    } else if serial == 5 {
        Some(6)
    } else if serial <= 7 {
        Some(8)
    } else {
        Some(0)
    }
}

/// What is said of a reserved serial type.
pub open spec fn reserved_serial(serial: nat) -> Seq<char> {
    "reserved serial type "@ + dec(serial)
}

fn column_len(serial: u64) -> (r: Result<u64, DecodeError>)
    ensures
        match r {
            Ok(n) => serial_len(serial as nat) == Some(n as nat),
            Err(e) => serial_len(serial as nat) is None && e.0@ == reserved_serial(serial as nat),
        },
{
    if serial == 10 || serial == 11 {
        let mut m = "reserved serial type ".to_string();
        m.push_str(decimal(serial).as_str());
        Err(DecodeError(m))
    } else if serial >= 12 {
        Ok((serial - 12) / 2)
    } else if serial <= 4 {
        Ok(serial)
    } else if serial == 5 {
        Ok(6)
    } else if serial <= 7 {
        Ok(8)
    } else {
        Ok(0)
    }
}

/// The number of body bytes that a column of serial type `serial` takes.
pub fn serial_type_len(serial: u64) -> (r: Result<usize, DecodeError>)
    ensures
        match r {
            Ok(n) => serial_len(serial as nat) matches Some(len) && n == len as usize,
            Err(e) => serial_len(serial as nat) is None && e.0@ == reserved_serial(serial as nat),
        },
{
    match column_len(serial) {
        Ok(n) => Ok(n as usize),
        Err(e) => Err(e),
    }
}

/// `bytes` as a big-endian unsigned number.
pub open spec fn be_uint(bytes: Seq<u8>) -> nat
    decreases bytes.len(),
{
    if bytes.len() == 0 {
        0
    } else {
        be_uint(bytes.drop_last()) * 256 + bytes.last() as nat
    }
}

/// `256^k`.
pub open spec fn pow256(k: nat) -> nat
    decreases k,
{
    if k == 0 {
        1
    } else {
        256 * pow256((k - 1) as nat)
    }
}

/// `bytes` as a big-endian number in two's complement.
pub open spec fn be_int(bytes: Seq<u8>) -> int {
    if bytes.len() > 0 && bytes[0] >= 128 {
        be_uint(bytes) - pow256(bytes.len())
    } else {
        be_uint(bytes) as int
    }
}

proof fn be_int_bounds(bytes: Seq<u8>)
    requires
        bytes.len() >= 1,
    ensures
        bytes.len() == 1 ==> be_int(bytes) == (if bytes[0] >= 128 {
            bytes[0] - 256
        } else {
            bytes[0] as int
        }),
        bytes.len() > 1 ==> be_int(bytes) == be_int(bytes.drop_last()) * 256 + bytes.last(),
        -128 * pow256((bytes.len() - 1) as nat) <= be_int(bytes) < 128 * pow256(
            (bytes.len() - 1) as nat,
        ),
    decreases bytes.len(),
{
    reveal_with_fuel(pow256, 2);
    reveal_with_fuel(be_uint, 2);
    if bytes.len() > 1 {
        be_int_bounds(bytes.drop_last());
    }
}

proof fn pow256_bound(k: nat)
    requires
        k <= 7,
    ensures
        128 * pow256(k) <= 0x8000_0000_0000_0000,
        k <= 6 ==> 128 * pow256(k) <= 0x80_0000_0000_0000,
{
    reveal_with_fuel(pow256, 9);
}

fn read_be_int(buf: &[u8]) -> (v: i64)
    requires
        1 <= buf@.len() <= 8,
    ensures
        v == be_int(buf@),
{
    let mut v: i64 = if buf[0] >= 128 {
        buf[0] as i64 - 256
    } else {
        buf[0] as i64
    };
    let mut i: usize = 1;
    proof {
        be_int_bounds(buf@.take(1));
    }
    while i < buf.len()
        invariant
            1 <= i <= buf@.len() <= 8,
            v == be_int(buf@.take(i as int)),
        decreases buf@.len() - i,
    {
        proof {
            be_int_bounds(buf@.take(i as int));
            be_int_bounds(buf@.take(i + 1));
            assert(buf@.take(i + 1).drop_last() =~= buf@.take(i as int));
            pow256_bound((i - 1) as nat);
            pow256_bound(i as nat);
        }
        v = v * 256 + buf[i] as i64;
        i = i + 1;
    }
    assert(buf@.take(i as int) =~= buf@);
    v
}

proof fn be_uint_bound(bytes: Seq<u8>)
    ensures
        be_uint(bytes) < pow256(bytes.len()),
    decreases bytes.len(),
{
    if bytes.len() > 0 {
        be_uint_bound(bytes.drop_last());
    }
}

fn read_be_bits(buf: &[u8]) -> (v: u64)
    requires
        buf@.len() == 8,
    ensures
        v == be_uint(buf@),
{
    let mut v: u64 = 0;
    let mut i: usize = 0;
    while i < 8
        invariant
            i <= 8,
            buf@.len() == 8,
            v == be_uint(buf@.take(i as int)),
        decreases 8 - i,
    {
        proof {
            be_uint_bound(buf@.take(i as int));
            pow256_bound(i as nat);
            assert(buf@.take(i + 1).drop_last() =~= buf@.take(i as int));
        }
        assert(2 * pow256(7) <= 0x200_0000_0000_0000) by {
            pow256_bound(7);
        }
        assert(pow256(i as nat) <= 0x100_0000_0000_0000);
        v = v * 256 + buf[i] as u64;
        i = i + 1;
    }
    assert(buf@.take(8) =~= buf@);
    v
}

/// The text that `String::from_utf8_lossy` makes of `bytes`.
pub uninterp spec fn lossy_text(bytes: Seq<u8>) -> Seq<char>;

/// `String::from_utf8_lossy`: valid UTF-8 comes out as the characters it encodes; in other
/// input the malformed parts are replaced, as named by [`lossy_text`].
#[verifier::external_body]
fn utf8_lossy(bytes: &[u8]) -> (s: String)
    ensures
        s@ == lossy_text(bytes@),
        valid_utf8(bytes@) ==> s@ == decode_utf8(bytes@),
{
    String::from_utf8_lossy(bytes).into_owned()
}

/// The text that a text column holds: what its bytes encode, or, where they are not valid
/// UTF-8, what [`lossy_text`] makes of them.
pub open spec fn text_in(raw: Seq<u8>) -> Seq<char> {
    if valid_utf8(raw) {
        decode_utf8(raw)
    } else {
        lossy_text(raw)
    }
}

/// The column of serial type `serial` whose body bytes are `raw`.
pub open spec fn column_value(serial: nat, raw: Seq<u8>) -> ValueView {
    if serial == 0 {
        ValueView::Null
    } else if serial <= 6 {
        ValueView::Int(be_int(raw) as i64)
    } else if serial == 7 {
        ValueView::Float(be_uint(raw) as u64)
    } else if serial == 8 {
        ValueView::Int(0)
    } else if serial == 9 {
        ValueView::Int(1)
    } else if serial % 2 == 0 {
        ValueView::Blob(raw)
    } else {
        ValueView::Text(text_in(raw))
    }
}

/// The column of serial type `serial` at the start of `body`, or what is wrong with it.
pub open spec fn column_at(serial: nat, body: Seq<u8>) -> Result<ValueView, Seq<char>> {
    match serial_len(serial) {
        None => Err(reserved_serial(serial)),
        Some(len) => if body.len() < len {
            Err(
                "record value truncated (serial "@ + dec(serial) + ", need "@ + dec(len)
                    + " bytes)"@,
            )
        } else {
            Ok(column_value(serial, body.take(len as int)))
        },
    }
}

fn decode_value(serial: u64, buf: &[u8]) -> (r: Result<(Value, usize), DecodeError>)
    ensures
        match r {
            Ok((v, n)) => column_at(serial as nat, buf@) == Ok::<ValueView, Seq<char>>(v@) && n
                <= buf@.len() && serial_len(serial as nat) == Some(n as nat),
            Err(e) => column_at(serial as nat, buf@) == Err::<ValueView, Seq<char>>(e.0@),
        },
{
    let len: u64 = match column_len(serial) {
        Ok(n) => n,
        Err(e) => {
            return Err(e);
        },
    };
    if (buf.len() as u64) < len {
        let mut m = "record value truncated (serial ".to_string();
        m.push_str(decimal(serial).as_str());
        m.push_str(", need ");
        m.push_str(decimal(len).as_str());
        m.push_str(" bytes)");
        return Err(DecodeError(m));
    }
    let n: usize = len as usize;
    let raw = slice_subrange(buf, 0, n);
    assert(raw@ =~= buf@.take(n as int));
    let value = if serial == 0 {
        Value::Null
    } else if serial <= 6 {
        Value::Int(read_be_int(raw))
    } else if serial == 7 {
        Value::Float(read_be_bits(raw))
    } else if serial == 8 {
        Value::Int(0)
    } else if serial == 9 {
        Value::Int(1)
    } else if serial % 2 == 0 {
        Value::Blob(slice_to_vec(raw))
    } else {
        Value::Text(utf8_lossy(raw))
    };
    Ok((value, n))
}

// ---------------------------------------------------------------------------------------
// Records
// ---------------------------------------------------------------------------------------
/// The columns whose serial types are listed in `header` and whose bytes follow one another
/// in `body`, or what is wrong with the first that cannot be read.
pub open spec fn columns(header: Seq<u8>, body: Seq<u8>) -> Result<Seq<ValueView>, Seq<char>>
    decreases header.len(),
{
    if header.len() == 0 {
        Ok(Seq::empty())
    } else {
        match varint(header) {
            None => Err("truncated varint"@),
            Some((serial, used)) => match column_at(serial, body) {
                Err(e) => Err(e),
                Ok(value) => {
                    proof {
                        varint_bounds(header);
                    }
                    after(
                        seq![value],
                        columns(
                            header.skip(used as int),
                            body.skip(serial_len(serial).unwrap() as int),
                        ),
                    )
                },
            },
        }
    }
}

/// `rest` with `first` put before its columns.
pub open spec fn after(
    first: Seq<ValueView>,
    rest: Result<Seq<ValueView>, Seq<char>>,
) -> Result<Seq<ValueView>, Seq<char>> {
    match rest {
        Ok(values) => Ok(first + values),
        Err(e) => Err(e),
    }
}

/// The columns of the record `payload`, or what is wrong with it.
pub open spec fn record(payload: Seq<u8>) -> Result<Seq<ValueView>, Seq<char>> {
    match varint(payload) {
        None => Err("truncated varint"@),
        Some((header_len, n)) => if header_len < n || header_len > payload.len() {
            Err("record header length "@ + dec(header_len) + " out of range"@)
        } else {
            columns(
                payload.subrange(n as int, header_len as int),
                payload.skip(header_len as int),
            )
        },
    }
}

/// Decodes a whole record payload into its columns.
pub fn decode_record(payload: &[u8]) -> (r: Result<Vec<Value>, DecodeError>)
    ensures
        match r {
            Ok(values) => record(payload@) == Ok::<Seq<ValueView>, Seq<char>>(value_views(values@)),
            Err(e) => record(payload@) == Err::<Seq<ValueView>, Seq<char>>(e.0@),
        },
{
    let (header_len, n) = match read_varint(payload) {
        Ok(p) => p,
        Err(e) => {
            return Err(e);
        },
    };
    if header_len < n as u64 || header_len > payload.len() as u64 {
        let mut m = "record header length ".to_string();
        m.push_str(decimal(header_len).as_str());
        m.push_str(" out of range");
        return Err(DecodeError(m));
    }
    let split: usize = header_len as usize;
    let mut header = slice_subrange(payload, n, split);
    let mut body = slice_subrange(payload, split, payload.len());
    let mut values: Vec<Value> = Vec::new();
    assert(body@ =~= payload@.skip(split as int));
    proof {
        after_nothing(columns(header@, body@));
        assert(value_views(values@) =~= Seq::empty());
    }
    while header.len() > 0
        invariant
            record(payload@) == after(value_views(values@), columns(header@, body@)),
        decreases header@.len(),
    {
        let (serial, used) = match read_varint(header) {
            Ok(p) => p,
            Err(e) => {
                return Err(e);
            },
        };
        let (value, len) = match decode_value(serial, body) {
            Ok(p) => p,
            Err(e) => {
                return Err(e);
            },
        };
        let ghost before = values@;
        let ghost (h, b) = (header@, body@);
        header = slice_subrange(header, used, header.len());
        body = slice_subrange(body, len, body.len());
        values.push(value);
        proof {
            assert(header@ =~= h.skip(used as int));
            assert(body@ =~= b.skip(len as int));
            assert(value_views(values@) =~= value_views(before) + seq![value@]);
            after_twice(value_views(before), seq![value@], columns(header@, body@));
        }
    }
    assert(value_views(values@) + Seq::<ValueView>::empty() =~= value_views(values@));
    Ok(values)
}

proof fn after_nothing(rest: Result<Seq<ValueView>, Seq<char>>)
    ensures
        after(Seq::empty(), rest) == rest,
{
    if let Ok(values) = rest {
        assert(Seq::<ValueView>::empty() + values =~= values);
    }
}

proof fn after_twice(a: Seq<ValueView>, b: Seq<ValueView>, rest: Result<Seq<ValueView>, Seq<char>>)
    ensures
        after(a, after(b, rest)) == after(a + b, rest),
{
    if let Ok(values) = rest {
        assert(a + (b + values) =~= a + b + values);
    }
}

} // verus!
