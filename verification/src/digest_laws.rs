//! How a message is padded, and how a digest is written.

use vstd::prelude::*;

use crate::bytes::be32;
use crate::sha256::be_bytes;
use crate::sha256::chained;
use crate::sha256::hex;
use crate::sha256::padding;
use crate::sha256::sha256;
use crate::sha256::word_bytes;

verus! {

proof fn four_bytes(v: nat)
    requires
        v < 0x1_0000_0000,
    ensures
        be_bytes(v, 4).len() == 4,
        be32(be_bytes(v, 4), 0) == v,
{
    reveal_with_fuel(be_bytes, 5);
    let b = be_bytes(v, 4);
    assert(b[3] == v % 256 && b[2] == v / 256 % 256);
    assert(b[1] == v / 256 / 256 % 256 && b[0] == v / 256 / 256 / 256 % 256);
}

proof fn eight_bytes(v: nat)
    requires
        v < 0x1_0000_0000_0000_0000,
    ensures
        be_bytes(v, 8).len() == 8,
        be32(be_bytes(v, 8), 0) == v / 0x1_0000_0000,
        be32(be_bytes(v, 8), 4) == v % 0x1_0000_0000,
{
    reveal_with_fuel(be_bytes, 9);
    let b = be_bytes(v, 8);
    let w = v / 256 / 256 / 256 / 256;
    assert(b[7] == v % 256 && b[6] == v / 256 % 256);
    assert(b[5] == v / 256 / 256 % 256 && b[4] == v / 256 / 256 / 256 % 256);
    assert(b[3] == w % 256 && b[2] == w / 256 % 256);
    assert(b[1] == w / 256 / 256 % 256 && b[0] == w / 256 / 256 / 256 % 256);
    assert(w == v / 0x1_0000_0000);
}

/// A padded message fills whole blocks of 64 bytes, and no more of them than it takes: it goes on
/// with a one bit, then zeros, and ends with its length in bits, in eight bytes.
pub proof fn padding_fills_whole_blocks(message: Seq<u8>)
    requires
        message.len() * 8 < 0x1_0000_0000_0000_0000,
    ensures
        ({
            let n = message.len() as int;
            let all = message + padding(message.len());
            let end = all.len() - 8;
            &&& all.len() % 64 == 0
            &&& n + 9 <= all.len() < n + 9 + 64
            &&& all.take(n) == message
            &&& all[n] == 0x80
            &&& forall|i: int| n < i < end ==> #[trigger] all[i] == 0
            &&& be32(all, end) * 0x1_0000_0000 + be32(all, end + 4) == n * 8
        }),
{
    let n = message.len() as int;
    let pad = padding(message.len());
    let all = message + pad;
    let bits = be_bytes(message.len() * 8, 8);
    eight_bytes(message.len() * 8);
    let end = all.len() - 8;
    let q = n / 64;
    let r = n % 64;
    assert(n == 64 * q + r);
    assert((119 - r) % 64 == (if r <= 55 {
        55 - r
    } else {
        119 - r
    }));
    assert(all.len() == (if r <= 55 {
        64 * (q + 1)
    } else {
        64 * (q + 2)
    }));
    assert(all.take(n) =~= message);
    assert forall|i: int| 0 <= i < 8 implies all[end + i] == #[trigger] bits[i] by {}
    assert(be32(all, end) == be32(bits, 0));
    assert(be32(all, end + 4) == be32(bits, 4));
}

proof fn words_one_by_one(words: Seq<u32>, i: int)
    requires
        0 <= i < words.len(),
    ensures
        word_bytes(words).len() == 4 * words.len(),
        be32(word_bytes(words), 4 * i) == words[i],
    decreases words.len(),
{
    let rest = words.drop_last();
    let last = be_bytes(words.last() as nat, 4);
    four_bytes(words.last() as nat);
    let all = word_bytes(words);
    if rest.len() > 0 {
        words_one_by_one(rest, if i < rest.len() {
            i
        } else {
            0
        });
    }
    if i == rest.len() {
        assert forall|k: int| 0 <= k < 4 implies all[4 * i + k] == #[trigger] last[k] by {}
        assert(be32(all, 4 * i) == be32(last, 0));
    } else {
        assert(be32(all, 4 * i) == be32(word_bytes(rest), 4 * i));
    }
}

/// The digest is made of the hash value's words, one behind the other, each with its most
/// significant byte first.
pub proof fn digest_is_made_of_words(message: Seq<u8>, i: int)
    requires
        ({
            let all = message + padding(message.len());
            0 <= i < chained(all, all.len() / 64).len()
        }),
    ensures
        ({
            let all = message + padding(message.len());
            be32(sha256(message), 4 * i) == chained(all, all.len() / 64)[i]
        }),
{
    let all = message + padding(message.len());
    words_one_by_one(chained(all, all.len() / 64), i);
}

/// The digit that stands for `d`.
pub open spec fn digit_for(d: int) -> char {
    "0123456789abcdef"@[d]
}

/// Each byte is written as two hexadecimal digits, the high half first.
pub proof fn bytes_are_two_digits_each(bytes: Seq<u8>, i: int)
    requires
        0 <= i < bytes.len(),
    ensures
        hex(bytes).len() == 2 * bytes.len(),
        hex(bytes)[2 * i] == digit_for(bytes[i] as int / 16),
        hex(bytes)[2 * i + 1] == digit_for(bytes[i] as int % 16),
    decreases bytes.len(),
{
    reveal_strlit("0123456789abcdef");
    let rest = bytes.drop_last();
    if rest.len() > 0 {
        bytes_are_two_digits_each(rest, if i < rest.len() {
            i
        } else {
            0
        });
    } else {
        assert(hex(rest) =~= Seq::empty());
    }
    if i < rest.len() {
        assert(rest[i] == bytes[i]);
    }
}

} // verus!
