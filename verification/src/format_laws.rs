//! What the file format says of a database's header, its pages and its records, byte by byte.

use vstd::prelude::*;
use vstd::utf8::encode_utf8;
use vstd::utf8::encode_utf8_decode_utf8;
use vstd::utf8::encode_utf8_valid_utf8;

use crate::bytes::be16;
use crate::bytes::be32;
use crate::dbfile::file_source;
use crate::dbfile::open_file;
use crate::dbfile::DbHeader;
use crate::error::ErrorView;
use crate::record::base128;
use crate::record::be_int;
use crate::record::be_uint;
use crate::record::column_at;
use crate::record::column_value;
use crate::record::columns;
use crate::record::pow256;
use crate::record::record;
use crate::record::serial_len;
use crate::record::varint;
use crate::record::varint_bytes;
use crate::record::varint_end;
use crate::record::varint_round_trip;
use crate::record::ValueView;

verus! {

// ---------------------------------------------------------------------------------------
// The file header
// ---------------------------------------------------------------------------------------
/// The bytes that every database starts with: `SQLite format 3` and a zero.
pub open spec fn starts_as_database(bytes: Seq<u8>) -> bool {
    bytes.take(16) == seq![
        0x53u8,
        0x51u8,
        0x4cu8,
        0x69u8,
        0x74u8,
        0x65u8,
        0x20u8,
        0x66u8,
        0x6fu8,
        0x72u8,
        0x6du8,
        0x61u8,
        0x74u8,
        0x20u8,
        0x33u8,
        0x00u8,
    ]
}

/// The page size at offset 16, where 1 stands for 65536.
pub open spec fn size_in(bytes: Seq<u8>) -> int {
    if be16(bytes, 16) == 1 {
        65536
    } else {
        be16(bytes, 16) as int
    }
}

/// A file of `bytes` that opens has its page size at offset 16, the reserved bytes at 20, the
/// change counter at 24, the freelist at 32 and 36, the largest root page at 52 and the text
/// encoding at 56.
pub proof fn header_fields_lie_where_they_should(path: Seq<char>, bytes: Seq<u8>, h: DbHeader)
    requires
        open_file(path, bytes) == Ok::<DbHeader, ErrorView>(h),
    ensures
        h.wf(),
        h.page_size == size_in(bytes),
        h.reserved == bytes[20],
        h.change_counter == be32(bytes, 24),
        h.freelist_head == be32(bytes, 32),
        h.freelist_count == be32(bytes, 36),
        h.largest_root_btree == be32(bytes, 52),
        h.text_encoding == be32(bytes, 56),
        h.page_size * h.page_count <= bytes.len(),
{
    let head = bytes.take(100);
    assert(head.take(100) =~= head);
}

/// The page count is the stored one, at offset 28, where it was written together with the change
/// counter; otherwise it is the number of whole pages in the file.
pub proof fn page_count_is_stored_or_counted(path: Seq<char>, bytes: Seq<u8>, h: DbHeader)
    requires
        open_file(path, bytes) == Ok::<DbHeader, ErrorView>(h),
    ensures
        be32(bytes, 28) != 0 && be32(bytes, 92) == be32(bytes, 24) ==> h.page_count == be32(
            bytes,
            28,
        ),
        (be32(bytes, 28) == 0 || be32(bytes, 92) != be32(bytes, 24)) && bytes.len()
            / h.page_size as nat <= u32::MAX ==> h.page_count * h.page_size <= bytes.len() < (
        h.page_count + 1) * h.page_size,
{
    let head = bytes.take(100);
    assert(be32(head, 28) == be32(bytes, 28) && be32(head, 92) == be32(bytes, 92) && be32(head, 24)
        == be32(bytes, 24) && be16(head, 16) == be16(bytes, 16));
    let size = h.page_size as int;
    let len = bytes.len() as int;
    let q = len / size;
    assert(q * size <= len < (q + 1) * size && q >= 0) by (nonlinear_arith)
        requires
            q == len / size,
            size > 0,
            len >= 0,
    ;
}

/// A file opens exactly where it has a header, starts as a database does, has a page size of the
/// format's that leaves at least 480 usable bytes, and is as long as its pages.
pub proof fn file_opens_iff_it_is_a_database(path: Seq<char>, bytes: Seq<u8>)
    ensures
        open_file(path, bytes) is Ok ==> bytes.len() >= 100 && starts_as_database(bytes) && (
        size_in(bytes) == 512 || size_in(bytes) == 1024 || size_in(bytes) == 2048 || size_in(bytes)
            == 4096 || size_in(bytes) == 8192 || size_in(bytes) == 16384 || size_in(bytes) == 32768
            || size_in(bytes) == 65536) && size_in(bytes) - bytes[20] >= 480,
        bytes.len() >= 100 && starts_as_database(bytes) && (size_in(bytes) == 512 || size_in(bytes)
            == 1024 || size_in(bytes) == 2048 || size_in(bytes) == 4096 || size_in(bytes) == 8192
            || size_in(bytes) == 16384 || size_in(bytes) == 32768 || size_in(bytes) == 65536)
            && size_in(bytes) - bytes[20] >= 480 ==> (open_file(path, bytes) is Err <==> be32(
            bytes,
            28,
        ) != 0 && be32(bytes, 92) == be32(bytes, 24) && be32(bytes, 28) * size_in(bytes)
            > bytes.len()),
{
    let head = bytes.take(100);
    if bytes.len() >= 100 {
        assert(head.take(16) =~= bytes.take(16));
        assert(be32(head, 28) == be32(bytes, 28) && be32(head, 92) == be32(bytes, 92) && be32(
            head,
            24,
        ) == be32(bytes, 24) && be16(head, 16) == be16(bytes, 16) && head[20] == bytes[20]);
        let size = size_in(bytes);
        let len = bytes.len() as int;
        if size >= 512 {
            let q = len / size;
            let c = q % 0x1_0000_0000;
            assert(size * c <= len) by (nonlinear_arith)
                requires
                    q == len / size,
                    c == q % 0x1_0000_0000,
                    size > 0,
                    len >= 0,
            ;
        }
        assert(be32(bytes, 28) * size == size * be32(bytes, 28)) by (nonlinear_arith);
    }
}

/// Page `p` of a file is the `p`-th stretch of as many bytes as a page has; there is no page 0
/// and none past the last.
pub proof fn pages_lie_one_behind_the_other(bytes: Seq<u8>, h: DbHeader, p: u32)
    requires
        h.wf(),
        h.page_size * h.page_count <= bytes.len(),
    ensures
        (file_source(bytes, h).read)(p) is Ok <==> 1 <= p <= h.page_count,
        (file_source(bytes, h).read)(p) matches Ok(page) ==> page.len() == h.page_size && forall|
            i: int,
        |
            0 <= i < h.page_size ==> #[trigger] page[i] == bytes[(p - 1) * h.page_size + i],
{
    let size = h.page_size as int;
    let n = h.page_count as int;
    if 1 <= p <= n {
        assert(p * size == (p - 1) * size + size && 0 <= (p - 1) * size && p * size <= size * n)
            by (nonlinear_arith)
            requires
                1 <= p <= n,
                size > 0,
        ;
    }
}

// ---------------------------------------------------------------------------------------
// Varints
// ---------------------------------------------------------------------------------------
proof fn ends_where(buf: Seq<u8>, i: nat)
    requires
        i <= 8,
    ensures
        varint_end(buf, i) matches Some(n) ==> i < n <= 9 && n <= buf.len() && (forall|j: int|
            i <= j < n - 1 ==> buf[j] >= 128) && (n < 9 ==> buf[n - 1] < 128),
        varint_end(buf, i) is None ==> buf.len() <= 8 && forall|j: int|
            i <= j < buf.len() ==> buf[j] >= 128,
    decreases 9 - i,
{
    if i < buf.len() && i < 8 && buf[i as int] >= 128 {
        ends_where(buf, i + 1);
    }
}

/// A varint ends with the first byte below 128, or with the ninth byte; it is cut off only where
/// the buffer ends before that.
pub proof fn varint_ends_with_the_first_small_byte(buf: Seq<u8>)
    ensures
        varint(buf) matches Some((v, n)) ==> 1 <= n <= 9 && n <= buf.len() && (forall|j: int|
            0 <= j < n - 1 ==> buf[j] >= 128) && (n < 9 ==> buf[n - 1] < 128),
        varint(buf) is None ==> buf.len() <= 8 && forall|j: int|
            0 <= j < buf.len() ==> buf[j] >= 128,
{
    ends_where(buf, 0);
}

proof fn same_end(a: Seq<u8>, i: nat, n: nat)
    requires
        i < n <= 8,
        n <= a.len(),
        forall|j: int| i <= j < n - 1 ==> a[j] >= 128,
        a[n - 1] < 128,
    ensures
        varint_end(a, i) == Some(n),
    decreases n - i,
{
    if i + 1 < n {
        same_end(a, i + 1, n);
    }
}

/// A varint of one byte is that byte. Each further byte adds seven bits at the end, and the ninth
/// adds eight: without it, the bytes before give the rest of the number.
pub proof fn varint_grows_by_its_last_byte(buf: Seq<u8>)
    ensures
        varint(buf) matches Some((v, n)) ==> {
            &&& n == 1 ==> v == buf[0]
            &&& n >= 2 ==> {
                let shorter = buf.take(n - 2).push((buf[n - 2] - 128) as u8);
                varint(shorter) matches Some((w, m)) && m == n - 1 && v == (if n < 9 {
                    w * 128 + buf[n - 1]
                } else {
                    w * 256 + buf[8]
                })
            }
        },
{
    reveal_with_fuel(base128, 2);
    ends_where(buf, 0);
    if let Some((v, n)) = varint(buf) {
        if n == 1 {
            assert(buf.take(1).drop_last() =~= Seq::empty());
        } else {
            let shorter = buf.take(n - 2).push((buf[n - 2] - 128) as u8);
            same_end(shorter, 0, (n - 1) as nat);
            assert(shorter.take(n - 1) =~= shorter);
            assert(shorter.drop_last() =~= buf.take(n - 2));
            assert(buf.take(n - 1).drop_last() =~= buf.take(n - 2));
            assert(base128(shorter) == base128(buf.take(n - 1)));
            if n < 9 {
                assert(buf.take(n as int).drop_last() =~= buf.take(n - 1));
            }
        }
    }
}

// ---------------------------------------------------------------------------------------
// Columns
// ---------------------------------------------------------------------------------------
/// What is taken off a number whose first byte is `first` to make it a signed one: the whole
/// range, if the sign bit is set.
pub open spec fn sign_off(first: u8, range: int) -> int {
    if first >= 128 {
        range
    } else {
        0
    }
}

proof fn uint_step(bytes: Seq<u8>)
    requires
        bytes.len() > 0,
    ensures
        be_uint(bytes) == be_uint(bytes.take(bytes.len() - 1)) * 256 + bytes[bytes.len() - 1],
{
    assert(bytes.drop_last() =~= bytes.take(bytes.len() - 1));
}

proof fn uint_bytes(b: Seq<u8>)
    requires
        1 <= b.len() <= 8,
    ensures
        be_uint(b) == (if b.len() == 1 {
            b[0] as int
        } else if b.len() == 2 {
            be16(b, 0) as int
        } else if b.len() == 3 {
            b[0] * 0x1_0000 + be16(b, 1)
        } else if b.len() == 4 {
            be32(b, 0) as int
        } else if b.len() == 5 {
            b[0] * 0x1_0000_0000 + be32(b, 1)
        } else if b.len() == 6 {
            be16(b, 0) * 0x1_0000_0000 + be32(b, 2)
        } else if b.len() == 7 {
            (b[0] * 0x1_0000 + be16(b, 1)) * 0x1_0000_0000 + be32(b, 3)
        } else {
            be32(b, 0) * 0x1_0000_0000 + be32(b, 4)
        }),
    decreases b.len(),
{
    reveal_with_fuel(be_uint, 2);
    uint_step(b);
    if b.len() > 1 {
        uint_bytes(b.take(b.len() - 1));
    } else {
        assert(b.take(0) =~= Seq::empty());
    }
}

/// The integers of a record, of 1, 2, 3, 4, 6 or 8 bytes, are in two's complement with the most
/// significant byte first.
pub proof fn integers_are_in_twos_complement(b: Seq<u8>)
    requires
        b.len() == 1 || b.len() == 2 || b.len() == 3 || b.len() == 4 || b.len() == 6 || b.len()
            == 8,
    ensures
        b.len() == 1 ==> be_int(b) == b[0] - sign_off(b[0], 0x100),
        b.len() == 2 ==> be_int(b) == be16(b, 0) - sign_off(b[0], 0x1_0000),
        b.len() == 3 ==> be_int(b) == b[0] * 0x1_0000 + be16(b, 1) - sign_off(b[0], 0x100_0000),
        b.len() == 4 ==> be_int(b) == be32(b, 0) - sign_off(b[0], 0x1_0000_0000),
        b.len() == 6 ==> be_int(b) == be16(b, 0) * 0x1_0000_0000 + be32(b, 2) - sign_off(
            b[0],
            0x1_0000_0000_0000,
        ),
        b.len() == 8 ==> be_int(b) == be32(b, 0) * 0x1_0000_0000 + be32(b, 4) - sign_off(
            b[0],
            0x1_0000_0000_0000_0000,
        ),
        b.len() == 8 ==> be_uint(b) == be32(b, 0) * 0x1_0000_0000 + be32(b, 4),
{
    reveal_with_fuel(pow256, 9);
    uint_bytes(b);
}

/// The serial types: 0 is null; 1 to 6 are integers of 1, 2, 3, 4, 6 and 8 bytes; 7 is a float of
/// eight; 8 and 9 are zero and one; 10 and 11 are reserved.
pub proof fn small_serial_types(serial: nat, body: Seq<u8>)
    requires
        serial < 12,
    ensures
        ({
            let width: int = if serial <= 4 {
                serial as int
            } else if serial == 5 {
                6
            } else if serial == 6 || serial == 7 {
                8
            } else {
                0
            };
            &&& column_at(serial, body) is Ok <==> serial < 10 && body.len() >= width
            &&& serial < 10 ==> serial_len(serial) == Some(width as nat)
            &&& column_at(serial, body) matches Ok(v) ==> v == (if serial == 0 {
                ValueView::Null
            } else if serial <= 6 {
                ValueView::Int(be_int(body.take(width)) as i64)
            } else if serial == 7 {
                ValueView::Float(be_uint(body.take(8)) as u64)
            } else {
                ValueView::Int((serial - 8) as i64)
            })
        }),
{
}

/// A text of `n` bytes has the serial type 13 + 2n, a blob of `n` bytes 12 + 2n; one that is cut
/// off is refused.
pub proof fn texts_and_blobs_carry_their_length(text: Seq<char>, raw: Seq<u8>, rest: Seq<u8>)
    ensures
        column_at(13 + 2 * encode_utf8(text).len(), encode_utf8(text) + rest) == Ok::<
            ValueView,
            Seq<char>,
        >(ValueView::Text(text)),
        column_at(12 + 2 * raw.len(), raw + rest) == Ok::<ValueView, Seq<char>>(
            ValueView::Blob(raw),
        ),
        serial_len(13 + 2 * raw.len()) == Some(raw.len()),
        serial_len(12 + 2 * raw.len()) == Some(raw.len()),
        rest.len() < raw.len() ==> column_at(13 + 2 * raw.len(), rest) is Err && column_at(
            12 + 2 * raw.len(),
            rest,
        ) is Err,
{
    let bytes = encode_utf8(text);
    encode_utf8_valid_utf8(text);
    encode_utf8_decode_utf8(text);
    assert((bytes + rest).take(bytes.len() as int) =~= bytes);
    assert((raw + rest).take(raw.len() as int) =~= raw);
}

/// The columns follow one another: the first serial type goes with the first bytes of the body,
/// and what follows is read as if it stood alone.
pub proof fn columns_follow_one_another(
    serial: u64,
    more: Seq<u8>,
    raw: Seq<u8>,
    rest: Seq<u8>,
    values: Seq<ValueView>,
)
    requires
        serial_len(serial as nat) == Some(raw.len()),
    ensures
        columns(more, rest) == Ok::<Seq<ValueView>, Seq<char>>(values) ==> columns(
            varint_bytes(serial as nat) + more,
            raw + rest,
        ) == Ok::<Seq<ValueView>, Seq<char>>(seq![column_value(serial as nat, raw)] + values),
        columns(more, rest) is Err ==> columns(
            varint_bytes(serial as nat) + more,
            raw + rest,
        ) is Err,
        columns(Seq::empty(), rest) == Ok::<Seq<ValueView>, Seq<char>>(Seq::empty()),
{
    let lead = varint_bytes(serial as nat);
    varint_round_trip(serial, more);
    assert((lead + more).skip(lead.len() as int) =~= more);
    assert((raw + rest).skip(raw.len() as int) =~= rest);
    assert((raw + rest).take(raw.len() as int) =~= raw);
}

/// A record starts with the length of its header, itself included; then come the serial types,
/// and then the columns.
pub proof fn record_is_header_and_body(header_len: u64, header: Seq<u8>, body: Seq<u8>)
    requires
        header_len == varint_bytes(header_len as nat).len() + header.len(),
    ensures
        record(varint_bytes(header_len as nat) + header + body) == columns(header, body),
{
    let lead = varint_bytes(header_len as nat);
    let all = lead + header + body;
    varint_round_trip(header_len, header + body);
    assert(lead + (header + body) =~= all);
    assert(all.subrange(lead.len() as int, header_len as int) =~= header);
    assert(all.skip(header_len as int) =~= body);
}

} // verus!
