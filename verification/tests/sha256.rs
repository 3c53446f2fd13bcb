//! SHA-256 against published vectors.

use litegraft::sha256::hex_digest;
use litegraft::sha256::to_hex;
use litegraft::sha256::Sha256;

#[test]
fn published_digests() {
    assert_eq!(
        hex_digest(b""),
        "e3b0c44298fc1c149afbf4c8996fb92427ae41e4649b934ca495991b7852b855"
    );
    assert_eq!(
        hex_digest(b"abc"),
        "ba7816bf8f01cfea414140de5dae2223b00361a396177a9cb410ff61f20015ad"
    );
    assert_eq!(
        hex_digest(b"abcdbcdecdefdefgefghfghighijhijkijkljklmklmnlmnomnopnopq"),
        "248d6a61d20638b8e5c026930c3e6039a33ce45964ff2167f6ecedd419db06c1"
    );
}

#[test]
fn a_hundred_thousand_bytes() {
    // Ten rounds of the well-known million-letter message would take long unoptimised; a
    // tenth of it crosses many blocks too.
    let message = vec![b'a'; 100_000];
    let whole = hex_digest(&message);
    let mut h = Sha256::new();
    for piece in message.chunks(777) {
        h.update(piece);
    }
    assert_eq!(to_hex(&h.finish()), whole);
}

#[test]
fn million_letters() {
    let message = vec![b'a'; 1_000_000];
    assert_eq!(
        hex_digest(&message),
        "cdc76e5c9914fb9281a1c7e284d73e67f1809a48a497200e046d39ccc7112cd0"
    );
}

#[test]
fn lengths_around_a_block() {
    for n in [54usize, 55, 56, 57, 63, 64, 65, 119, 120, 128] {
        let message: Vec<u8> = (0..n).map(|i| i as u8).collect();
        let mut h = Sha256::new();
        h.update(&message[..n / 2]);
        h.update(&message[n / 2..]);
        assert_eq!(to_hex(&h.finish()), hex_digest(&message), "{n} bytes");
    }
}

#[test]
fn hex_is_lower_case_and_padded() {
    assert_eq!(to_hex(&[0x00, 0x0f, 0xa0, 0xff]), "000fa0ff");
    assert_eq!(to_hex(&[]), "");
}
