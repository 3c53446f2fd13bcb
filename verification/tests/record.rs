//! Varints and records.

use litegraft::record::decode_record;
use litegraft::record::read_varint;
use litegraft::record::serial_type_len;
use litegraft::record::write_varint;
use litegraft::record::Value;

#[test]
fn varint_short_encodings() {
    assert_eq!(read_varint(&[0x00]).unwrap(), (0, 1));
    assert_eq!(read_varint(&[0x7f]).unwrap(), (127, 1));
    // 0x81 0x00 = 128; 0xff 0x7f = 16383 (max 2-byte value).
    assert_eq!(read_varint(&[0x81, 0x00]).unwrap(), (128, 2));
    assert_eq!(read_varint(&[0xff, 0x7f]).unwrap(), (16383, 2));
}

#[test]
fn varint_nine_byte_form_uses_all_bits_of_last_byte() {
    let buf = [0xff, 0xff, 0xff, 0xff, 0xff, 0xff, 0xff, 0xff, 0xff];
    assert_eq!(read_varint(&buf).unwrap(), (u64::MAX, 9));
}

#[test]
fn varint_truncated_is_an_error_not_a_panic() {
    assert!(read_varint(&[]).is_err());
    assert!(read_varint(&[0x81]).is_err());
    assert_eq!(read_varint(&[]).unwrap_err().message(), "truncated varint");
}

#[test]
fn varint_roundtrip_across_length_boundaries() {
    let cases = [
        0,
        1,
        127,
        128,
        16383,
        16384,
        2097151,
        2097152,
        268435455,
        268435456,
        u32::MAX as u64,
        0x00ff_ffff_ffff_ffff,
        0x0100_0000_0000_0000,
        u64::MAX,
    ];
    for v in cases {
        let enc = write_varint(v);
        assert_eq!(read_varint(&enc).unwrap(), (v, enc.len()), "value {v}");
    }
}

#[test]
fn varint_round_trip_ignores_what_follows() {
    for v in [0u64, 127, 128, 300, 0x0100_0000_0000_0000] {
        let mut enc = write_varint(v);
        let n = enc.len();
        enc.extend_from_slice(&[0xff, 0x00, 0x81]);
        assert_eq!(read_varint(&enc).unwrap(), (v, n));
    }
}

#[test]
fn varint_exact_bytes() {
    assert_eq!(write_varint(0), vec![0x00]);
    assert_eq!(write_varint(127), vec![0x7f]);
    assert_eq!(write_varint(128), vec![0x81, 0x00]);
    assert_eq!(write_varint(16384), vec![0x81, 0x80, 0x00]);
    assert_eq!(
        write_varint(0x0100_0000_0000_0000),
        vec![0x80, 0x80 | 0x40, 0x80, 0x80, 0x80, 0x80, 0x80, 0x80, 0x00]
    );
    assert_eq!(write_varint(u64::MAX), vec![0xff; 9]);
}

#[test]
fn varint_padding_is_read_but_never_written() {
    assert_eq!(read_varint(&[0x80, 0x01]).unwrap(), (1, 2));
    assert_eq!(write_varint(1).len(), 1);
}

#[test]
fn serial_type_lengths_match_spec_table() {
    for (serial, want) in [
        (0u64, 0usize),
        (1, 1),
        (2, 2),
        (3, 3),
        (4, 4),
        (5, 6),
        (6, 8),
        (7, 8),
        (8, 0),
        (9, 0),
    ] {
        assert_eq!(serial_type_len(serial).unwrap(), want, "serial {serial}");
    }
    assert_eq!(serial_type_len(12).unwrap(), 0); // empty blob
    assert_eq!(serial_type_len(13).unwrap(), 0); // empty string
    assert_eq!(serial_type_len(18).unwrap(), 3); // 3-byte blob
    assert_eq!(serial_type_len(19).unwrap(), 3); // 3-byte text
    assert!(serial_type_len(10).is_err(), "10 and 11 are reserved");
    assert_eq!(
        serial_type_len(11).unwrap_err().message(),
        "reserved serial type 11"
    );
}

#[test]
fn decode_record_with_mixed_types() {
    // Record: header_len, serials [text(3), int8, null], body "abc", 0x05.
    let payload = [0x04, 19, 0x01, 0x00, b'a', b'b', b'c', 0x05];
    let values = decode_record(&payload).unwrap();
    assert_eq!(
        values,
        vec![Value::Text("abc".into()), Value::Int(5), Value::Null]
    );
}

#[test]
fn decode_record_numeric_serials() {
    // Serial types 8 and 9 encode 0 and 1 with no body bytes at all.
    let payload = [0x03, 8, 9];
    assert_eq!(
        decode_record(&payload).unwrap(),
        vec![Value::Int(0), Value::Int(1)]
    );
    // -2 as a 1-byte twos-complement int (serial 1) must sign-extend.
    let payload = [0x02, 1, 0xfe];
    assert_eq!(decode_record(&payload).unwrap(), vec![Value::Int(-2)]);
    // -1 as a 4-byte int (serial 4).
    let payload = [0x02, 4, 0xff, 0xff, 0xff, 0xff];
    assert_eq!(decode_record(&payload).unwrap(), vec![Value::Int(-1)]);
    // Serial 7 is a big-endian IEEE 754 double.
    let mut payload = vec![0x02, 7];
    payload.extend_from_slice(&1.5f64.to_bits().to_be_bytes());
    assert_eq!(
        decode_record(&payload).unwrap(),
        vec![Value::Float(1.5f64.to_bits())]
    );
}

#[test]
fn decode_record_wide_integers() {
    let mut payload = vec![0x02, 6];
    payload.extend_from_slice(&i64::MIN.to_be_bytes());
    assert_eq!(decode_record(&payload).unwrap(), vec![Value::Int(i64::MIN)]);
    let mut payload = vec![0x02, 6];
    payload.extend_from_slice(&i64::MAX.to_be_bytes());
    assert_eq!(decode_record(&payload).unwrap(), vec![Value::Int(i64::MAX)]);
    // Three and six byte forms.
    let payload = [0x03, 3, 5, 0x01, 0x00, 0x00, 0xff, 0xff, 0xff, 0xff, 0xff, 0xfe];
    assert_eq!(
        decode_record(&payload).unwrap(),
        vec![Value::Int(65536), Value::Int(-2)]
    );
}

#[test]
fn decode_record_blob_vs_text_parity_rule() {
    // Serial 14 = 1-byte blob, serial 15 = 1-byte text.
    let payload = [0x03, 14, 15, 0xaa, b'x'];
    let values = decode_record(&payload).unwrap();
    assert_eq!(
        values,
        vec![Value::Blob(vec![0xaa]), Value::Text("x".into())]
    );
}

#[test]
fn decode_record_replaces_malformed_text() {
    let payload = [0x02, 17, 0xff, b'y'];
    assert_eq!(
        decode_record(&payload).unwrap(),
        vec![Value::Text("\u{fffd}y".into())]
    );
    let payload = [0x02, 17, 0xc3, 0xa9];
    assert_eq!(
        decode_record(&payload).unwrap(),
        vec![Value::Text("é".into())]
    );
}

#[test]
fn decode_record_truncated_body_is_an_error() {
    // Header claims a 3-byte text but only 1 body byte follows.
    let payload = [0x02, 19, b'a'];
    assert!(decode_record(&payload).is_err());
    assert_eq!(
        decode_record(&payload).unwrap_err().message(),
        "record value truncated (serial 19, need 3 bytes)"
    );
}

#[test]
fn decode_record_header_len_beyond_payload_is_an_error() {
    let payload = [0x7f, 1, 2];
    assert!(decode_record(&payload).is_err());
    assert_eq!(
        decode_record(&payload).unwrap_err().message(),
        "record header length 127 out of range"
    );
    assert!(decode_record(&[0x00]).is_err(), "shorter than itself");
}

#[test]
fn value_accessors_pick_only_matching_variants() {
    assert_eq!(Value::Int(7).as_int(), Some(7));
    assert_eq!(Value::Text("t".into()).as_int(), None);
    assert_eq!(Value::Text("t".into()).as_text(), Some("t"));
    assert_eq!(Value::Null.as_text(), None);
}
