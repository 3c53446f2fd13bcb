//! SHA-256, the content address of pages and snapshots.

use vstd::prelude::*;

use crate::bytes::be32;
use crate::bytes::read_be32;

verus! {

/// The initial hash value: the first 32 bits of the fractional parts of the square roots of
/// the first eight primes.
pub const INITIAL: [u32; 8] = [
    0x6a09e667, 0xbb67ae85, 0x3c6ef372, 0xa54ff53a, 0x510e527f, 0x9b05688c,
    0x1f83d9ab, 0x5be0cd19,
];

/// The round constants: the first 32 bits of the fractional parts of the cube roots of the
/// first 64 primes.
pub const ROUND: [u32; 64] = [
    0x428a2f98, 0x71374491, 0xb5c0fbcf, 0xe9b5dba5, 0x3956c25b, 0x59f111f1,
    0x923f82a4, 0xab1c5ed5, 0xd807aa98, 0x12835b01, 0x243185be, 0x550c7dc3,
    0x72be5d74, 0x80deb1fe, 0x9bdc06a7, 0xc19bf174, 0xe49b69c1, 0xefbe4786,
    0x0fc19dc6, 0x240ca1cc, 0x2de92c6f, 0x4a7484aa, 0x5cb0a9dc, 0x76f988da,
    0x983e5152, 0xa831c66d, 0xb00327c8, 0xbf597fc7, 0xc6e00bf3, 0xd5a79147,
    0x06ca6351, 0x14292967, 0x27b70a85, 0x2e1b2138, 0x4d2c6dfc, 0x53380d13,
    0x650a7354, 0x766a0abb, 0x81c2c92e, 0x92722c85, 0xa2bfe8a1, 0xa81a664b,
    0xc24b8b70, 0xc76c51a3, 0xd192e819, 0xd6990624, 0xf40e3585, 0x106aa070,
    0x19a4c116, 0x1e376c08, 0x2748774c, 0x34b0bcb5, 0x391c0cb3, 0x4ed8aa4a,
    0x5b9cca4f, 0x682e6ff3, 0x748f82ee, 0x78a5636f, 0x84c87814, 0x8cc70208,
    0x90befffa, 0xa4506ceb, 0xbef9a3f7, 0xc67178f2,
];

// ---------------------------------------------------------------------------------------
// The function
// ---------------------------------------------------------------------------------------
/// Addition modulo `2^32`.
pub open spec fn plus(a: u32, b: u32) -> u32 {
    ((a + b) % 0x1_0000_0000) as u32
}

/// `x` rotated right by `n` bits.
pub open spec fn rotr(x: u32, n: u32) -> u32 {
    (x >> n) | (x << ((32 - n) as u32))
}

/// The bits of `y` where `x` has ones, and those of `z` where it has zeros.
pub open spec fn choice(x: u32, y: u32, z: u32) -> u32 {
    (x & y) ^ (!x & z)
}

/// The bits that at least two of the three have.
pub open spec fn majority(x: u32, y: u32, z: u32) -> u32 {
    (x & y) ^ (x & z) ^ (y & z)
}

/// The mixing of the first working variable.
pub open spec fn big_sigma0(x: u32) -> u32 {
    rotr(x, 2) ^ rotr(x, 13) ^ rotr(x, 22)
}

/// The mixing of the fifth working variable.
pub open spec fn big_sigma1(x: u32) -> u32 {
    rotr(x, 6) ^ rotr(x, 11) ^ rotr(x, 25)
}

/// The mixing of the schedule word fifteen back.
pub open spec fn small_sigma0(x: u32) -> u32 {
    rotr(x, 7) ^ rotr(x, 18) ^ (x >> 3u32)
}

/// The mixing of the schedule word two back.
pub open spec fn small_sigma1(x: u32) -> u32 {
    rotr(x, 17) ^ rotr(x, 19) ^ (x >> 10u32)
}

/// Word `t` of the message schedule of `block`.
pub open spec fn scheduled(block: Seq<u8>, t: nat) -> u32
    decreases t,
{
    if t < 16 {
        be32(block, 4 * t as int)
    } else {
        plus(
            plus(
                plus(
                    small_sigma1(scheduled(block, (t - 2) as nat)),
                    scheduled(block, (t - 7) as nat),
                ),
                small_sigma0(scheduled(block, (t - 15) as nat)),
            ),
            scheduled(block, (t - 16) as nat),
        )
    }
}

/// One round on the working variables `a..h`.
pub open spec fn round(s: Seq<u32>, k: u32, w: u32) -> Seq<u32> {
    let t1 = plus(
        plus(plus(plus(s[7], big_sigma1(s[4])), choice(s[4], s[5], s[6])), k),
        w,
    );
    let t2 = plus(big_sigma0(s[0]), majority(s[0], s[1], s[2]));
    seq![plus(t1, t2), s[0], s[1], s[2], plus(s[3], t1), s[4], s[5], s[6]]
}

/// The working variables after `t` rounds.
pub open spec fn rounds(s: Seq<u32>, block: Seq<u8>, t: nat) -> Seq<u32>
    decreases t,
{
    if t == 0 {
        s
    } else {
        round(rounds(s, block, (t - 1) as nat), ROUND@[t - 1], scheduled(block, (t - 1) as nat))
    }
}

/// The hash value after `block`.
#[verifier::opaque]
pub open spec fn compressed(h: Seq<u32>, block: Seq<u8>) -> Seq<u32> {
    let s = rounds(h, block, 64);
    Seq::new(8, |i: int| plus(h[i], s[i]))
}

/// The hash value after the first `n` blocks of `data`.
pub open spec fn chained(data: Seq<u8>, n: nat) -> Seq<u32>
    decreases n,
{
    if n == 0 {
        INITIAL@
    } else {
        compressed(chained(data, (n - 1) as nat), data.subrange(64 * (n - 1), 64 * n as int))
    }
}

/// The `k` low bytes of `v`, the most significant first.
pub open spec fn be_bytes(v: nat, k: nat) -> Seq<u8>
    decreases k,
{
    if k == 0 {
        Seq::empty()
    } else {
        be_bytes(v / 256, (k - 1) as nat).push((v % 256) as u8)
    }
}

/// The padding of a message of `len` bytes: a one bit, zeros up to eight bytes before the
/// end of a block, and the length in bits.
pub open spec fn padding(len: nat) -> Seq<u8> {
    seq![0x80u8] + Seq::new(((119 - len % 64) % 64) as nat, |i: int| 0u8) + be_bytes(len * 8, 8)
}

/// The bytes of `words`, each big-endian.
pub open spec fn word_bytes(words: Seq<u32>) -> Seq<u8>
    decreases words.len(),
{
    if words.len() == 0 {
        Seq::empty()
    } else {
        word_bytes(words.drop_last()) + be_bytes(words.last() as nat, 4)
    }
}

/// The SHA-256 digest of `message`.
pub open spec fn sha256(message: Seq<u8>) -> Seq<u8> {
    let padded = message + padding(message.len());
    word_bytes(chained(padded, padded.len() / 64))
}

// ---------------------------------------------------------------------------------------
// Computing it
// ---------------------------------------------------------------------------------------
fn plus_exec(a: u32, b: u32) -> (r: u32)
    ensures
        r == plus(a, b),
{
    ((a as u64 + b as u64) % 0x1_0000_0000) as u32
}

fn rotate(x: u32, n: u32) -> (r: u32)
    requires
        0 < n < 32,
    ensures
        r == rotr(x, n),
{
    (x >> n) | (x << (32 - n))
}

fn schedule(block: &Vec<u8>) -> (w: Vec<u32>)
    requires
        block@.len() == 64,
    ensures
        w@.len() == 64,
        forall|t: int| 0 <= t < 64 ==> #[trigger] w@[t] == scheduled(block@, t as nat),
{
    let mut w: Vec<u32> = Vec::new();
    let mut t: usize = 0;
    while t < 64
        invariant
            block@.len() == 64,
            t <= 64,
            w@.len() == t,
            forall|u: int| 0 <= u < t ==> #[trigger] w@[u] == scheduled(block@, u as nat),
        decreases 64 - t,
    {
        let next: u32 = if t < 16 {
            read_be32(block.as_slice(), 4 * t)
        } else {
            let a: u32 = w[t - 2];
            let b: u32 = w[t - 15];
            let s1: u32 = rotate(a, 17) ^ rotate(a, 19) ^ (a >> 10u32);
            let s0: u32 = rotate(b, 7) ^ rotate(b, 18) ^ (b >> 3u32);
            plus_exec(plus_exec(plus_exec(s1, w[t - 7]), s0), w[t - 16])
        };
        w.push(next);
        t = t + 1;
    }
    w
}

fn compress(h: &Vec<u32>, block: &Vec<u8>) -> (r: Vec<u32>)
    requires
        h@.len() == 8,
        block@.len() == 64,
    ensures
        r@.len() == 8,
        r@ == compressed(h@, block@),
{
    let w = schedule(block);
    let k = ROUND;
    let mut a: u32 = h[0];
    let mut b: u32 = h[1];
    let mut c: u32 = h[2];
    let mut d: u32 = h[3];
    let mut e: u32 = h[4];
    let mut f: u32 = h[5];
    let mut g: u32 = h[6];
    let mut i: u32 = h[7];
    let mut t: usize = 0;
    assert(seq![a, b, c, d, e, f, g, i] =~= h@);
    while t < 64
        invariant
            t <= 64,
            w@.len() == 64,
            k@ == ROUND@,
            forall|u: int| 0 <= u < 64 ==> #[trigger] w@[u] == scheduled(block@, u as nat),
            seq![a, b, c, d, e, f, g, i] == rounds(h@, block@, t as nat),
        decreases 64 - t,
    {
        let ghost s = seq![a, b, c, d, e, f, g, i];
        let s1: u32 = rotate(e, 6) ^ rotate(e, 11) ^ rotate(e, 25);
        let ch: u32 = (e & f) ^ (!e & g);
        let t1: u32 = plus_exec(plus_exec(plus_exec(plus_exec(i, s1), ch), k[t]), w[t]);
        let s0: u32 = rotate(a, 2) ^ rotate(a, 13) ^ rotate(a, 22);
        let maj: u32 = (a & b) ^ (a & c) ^ (b & c);
        let t2: u32 = plus_exec(s0, maj);
        i = g;
        g = f;
        f = e;
        e = plus_exec(d, t1);
        d = c;
        c = b;
        b = a;
        a = plus_exec(t1, t2);
        t = t + 1;
        assert(seq![a, b, c, d, e, f, g, i] =~= round(s, ROUND@[t - 1], w@[t - 1]));
    }
    let mut r: Vec<u32> = Vec::new();
    r.push(plus_exec(h[0], a));
    r.push(plus_exec(h[1], b));
    r.push(plus_exec(h[2], c));
    r.push(plus_exec(h[3], d));
    r.push(plus_exec(h[4], e));
    r.push(plus_exec(h[5], f));
    r.push(plus_exec(h[6], g));
    r.push(plus_exec(h[7], i));
    proof {
        reveal(compressed);
        let s = rounds(h@, block@, 64);
        assert(s[0] == a && s[1] == b && s[2] == c && s[3] == d && s[4] == e && s[5] == f && s[6]
            == g && s[7] == i);
        assert(r@ =~= compressed(h@, block@));
    }
    r
}

/// A digest in the making: the bytes taken in so far.
pub struct Sha256 {
    state: Vec<u32>,
    tail: Vec<u8>,
    len: u64,
    data: Ghost<Seq<u8>>,
}

proof fn chained_prefix(a: Seq<u8>, b: Seq<u8>, n: nat)
    requires
        64 * n <= a.len(),
        64 * n <= b.len(),
        a.take(64 * n as int) == b.take(64 * n as int),
    ensures
        chained(a, n) == chained(b, n),
    decreases n,
{
    if n > 0 {
        let m = (n - 1) as nat;
        let cut = 64 * m as int;
        assert(a.take(cut) =~= a.take(64 * n as int).take(cut));
        assert(b.take(cut) =~= b.take(64 * n as int).take(cut));
        chained_prefix(a, b, m);
        assert(a.subrange(cut, 64 * n as int) =~= a.take(64 * n as int).subrange(
            cut,
            64 * n as int,
        ));
        assert(b.subrange(cut, 64 * n as int) =~= b.take(64 * n as int).subrange(
            cut,
            64 * n as int,
        ));
    }
}

proof fn absorbed(before: Seq<u8>, byte: u8)
    ensures
        ({
            let after = before.push(byte);
            let n = before.len() / 64;
            let tail = before.skip(64 * n as int).push(byte);
            &&& tail.len() == before.len() % 64 + 1
            &&& tail.len() < 64 ==> after.len() / 64 == n && tail == after.skip(64 * n as int)
                && chained(after, n) == chained(before, n)
            &&& tail.len() == 64 ==> after.len() / 64 == n + 1 && chained(after, n + 1)
                == compressed(chained(before, n), tail)
        }),
{
    let after = before.push(byte);
    let n = before.len() / 64;
    let tail = before.skip(64 * n as int).push(byte);
    assert(before.take(64 * n as int) =~= after.take(64 * n as int));
    chained_prefix(before, after, n);
    assert(tail =~= after.skip(64 * n as int));
    if tail.len() == 64 {
        assert(tail =~= after.subrange(64 * n as int, 64 * (n + 1) as int));
    }
}

impl Sha256 {
    /// The bytes taken in so far.
    pub closed spec fn view(&self) -> Seq<u8> {
        self.data@
    }

    /// The digest is in order.
    pub closed spec fn wf(&self) -> bool {
        &&& self.state@ == chained(self.data@, self.data@.len() / 64)
        &&& self.state@.len() == 8
        &&& self.tail@ == self.data@.skip(64 * (self.data@.len() / 64) as int)
        &&& self.len == self.data@.len() % 0x1_0000_0000_0000_0000
    }

    /// A digest that has taken in nothing yet.
    pub fn new() -> (r: Sha256)
        ensures
            r.wf(),
            r.view() == Seq::<u8>::empty(),
    {
        let initial = INITIAL;
        let mut state: Vec<u32> = Vec::new();
        let mut i: usize = 0;
        while i < 8
            invariant
                i <= 8,
                initial@ == INITIAL@,
                state@ == INITIAL@.take(i as int),
            decreases 8 - i,
        {
            state.push(initial[i]);
            assert(INITIAL@.take(i + 1) =~= INITIAL@.take(i as int).push(INITIAL@[i as int]));
            i = i + 1;
        }
        let tail: Vec<u8> = Vec::new();
        let ghost none = Seq::<u8>::empty();
        proof {
            assert(state@ =~= INITIAL@);
            assert(tail@ =~= none.skip(0));
        }
        Sha256 { state, tail, len: 0, data: Ghost(none) }
    }

    fn absorb(&mut self, byte: u8)
        requires
            old(self).wf(),
        ensures
            final(self).wf(),
            final(self).view() == old(self).view().push(byte),
    {
        let ghost before = self.data@;
        proof {
            absorbed(before, byte);
        }
        self.tail.push(byte);
        self.len = if self.len == u64::MAX {
            0
        } else {
            self.len + 1
        };
        self.data = Ghost(before.push(byte));
        if self.tail.len() == 64 {
            self.state = compress(&self.state, &self.tail);
            self.tail = Vec::new();
            assert(self.tail@ =~= self.data@.skip(64 * (self.data@.len() / 64) as int));
        }
    }

    /// Takes in `bytes`.
    pub fn update(&mut self, bytes: &[u8])
        requires
            old(self).wf(),
        ensures
            final(self).wf(),
            final(self).view() == old(self).view() + bytes@,
    {
        let mut i: usize = 0;
        assert(self.view() + bytes@.take(0) =~= self.view());
        while i < bytes.len()
            invariant
                i <= bytes@.len(),
                self.wf(),
                self.view() == old(self).view() + bytes@.take(i as int),
            decreases bytes@.len() - i,
        {
            self.absorb(bytes[i]);
            assert(bytes@.take(i + 1) =~= bytes@.take(i as int).push(bytes@[i as int]));
            assert(self.view() =~= old(self).view() + bytes@.take(i + 1));
            i = i + 1;
        }
        assert(bytes@.take(i as int) =~= bytes@);
    }

    /// The digest of the bytes taken in.
    pub fn finish(self) -> (digest: Vec<u8>)
        requires
            self.wf(),
        ensures
            digest@ == sha256(self.view()),
    {
        let ghost message = self.data@;
        let mut h = self;
        let pad = make_padding(h.len, Ghost(message.len()));
        h.update(pad.as_slice());
        proof {
            padding_len(message.len());
        }
        words_to_bytes(&h.state)
    }
}

proof fn padding_len(len: nat)
    ensures
        (len + padding(len).len()) % 64 == 0,
{
    be_bytes_len(len * 8, 8);
    let q = len / 64;
    let r = len % 64;
    assert(len == 64 * q + r);
    assert((119 - r) % 64 == (if r <= 55 {
        55 - r
    } else {
        119 - r
    }));
    assert(len + padding(len).len() == (if r <= 55 {
        64 * (q + 1)
    } else {
        64 * (q + 2)
    }));
}

fn make_padding(len: u64, Ghost(n): Ghost<nat>) -> (pad: Vec<u8>)
    requires
        len == n % 0x1_0000_0000_0000_0000,
    ensures
        pad@ == padding(n),
{
    let zeros: u64 = (119 - len % 64) % 64;
    let mut pad: Vec<u8> = Vec::new();
    pad.push(0x80);
    let mut i: u64 = 0;
    assert(pad@ =~= seq![0x80u8] + Seq::new(0, |j: int| 0u8));
    while i < zeros
        invariant
            i <= zeros < 64,
            pad@ == seq![0x80u8] + Seq::new(i as nat, |j: int| 0u8),
        decreases zeros - i,
    {
        pad.push(0);
        i = i + 1;
        assert(pad@ =~= seq![0x80u8] + Seq::new(i as nat, |j: int| 0u8));
    }
    let bits: u64 = bits_of(len);
    push_be_bytes(&mut pad, bits, 8);
    proof {
        assert(len % 64 == n % 64);
        be_bytes_mod(n * 8, bits as nat, 8);
        assert(pad@ =~= padding(n));
    }
    pad
}

fn words_to_bytes(words: &Vec<u32>) -> (out: Vec<u8>)
    ensures
        out@ == word_bytes(words@),
{
    let mut out: Vec<u8> = Vec::new();
    let mut k: usize = 0;
    assert(words@.take(0) =~= Seq::<u32>::empty());
    while k < words.len()
        invariant
            k <= words@.len(),
            out@ == word_bytes(words@.take(k as int)),
        decreases words@.len() - k,
    {
        assert(words@.take(k + 1).drop_last() =~= words@.take(k as int));
        push_be_bytes(&mut out, words[k] as u64, 4);
        k = k + 1;
    }
    assert(words@.take(k as int) =~= words@);
    out
}

spec fn bits_of_spec(len: u64) -> int {
    (len * 8) % 0x1_0000_0000_0000_0000
}

fn bits_of(len: u64) -> (r: u64)
    ensures
        r == bits_of_spec(len),
{
    let low: u64 = len % 0x2000_0000_0000_0000;
    low * 8
}

fn push_be_bytes(out: &mut Vec<u8>, v: u64, k: usize)
    ensures
        final(out)@ == old(out)@ + be_bytes(v as nat, k as nat),
    decreases k,
{
    if k > 0 {
        push_be_bytes(out, v / 256, k - 1);
        out.push((v % 256) as u8);
    }
    assert(out@ =~= old(out)@ + be_bytes(v as nat, k as nat));
}

proof fn be_bytes_len(v: nat, k: nat)
    ensures
        be_bytes(v, k).len() == k,
    decreases k,
{
    if k > 0 {
        be_bytes_len(v / 256, (k - 1) as nat);
    }
}

/// `256^k`.
spec fn pow256(k: nat) -> nat
    decreases k,
{
    if k == 0 {
        1
    } else {
        256 * pow256((k - 1) as nat)
    }
}

proof fn be_bytes_congruent(v: nat, w: nat, q: nat, k: nat)
    requires
        v == w + q * pow256(k),
    ensures
        be_bytes(v, k) == be_bytes(w, k),
    decreases k,
{
    if k > 0 {
        let p = pow256((k - 1) as nat);
        assert(v == w + 256 * (q * p)) by (nonlinear_arith)
            requires
                v == w + q * (256 * p),
        ;
        assert(v % 256 == w % 256);
        assert(v / 256 == w / 256 + q * p);
        be_bytes_congruent(v / 256, w / 256, q, (k - 1) as nat);
    }
}

proof fn be_bytes_mod(v: nat, w: nat, k: nat)
    requires
        k == 8,
        w == v % 0x1_0000_0000_0000_0000,
    ensures
        be_bytes(v, k) == be_bytes(w, k),
{
    reveal_with_fuel(pow256, 9);
    assert(pow256(8) == 0x1_0000_0000_0000_0000);
    let q = v / 0x1_0000_0000_0000_0000;
    assert(v == w + q * 0x1_0000_0000_0000_0000);
    assert(q * pow256(8) == q * 0x1_0000_0000_0000_0000);
    be_bytes_congruent(v, w, q, k);
}

// ---------------------------------------------------------------------------------------
// Hexadecimal
// ---------------------------------------------------------------------------------------
/// The lower-case hexadecimal digit for `d < 16`.
pub open spec fn hex_digit(d: nat) -> char {
    if d < 10 {
        (48 + d) as char
    } else {
        (87 + d) as char
    }
}

/// `bytes` in lower-case hexadecimal, two digits each.
pub open spec fn hex(bytes: Seq<u8>) -> Seq<char>
    decreases bytes.len(),
{
    if bytes.len() == 0 {
        Seq::empty()
    } else {
        hex(bytes.drop_last()).push(hex_digit((bytes.last() / 16) as nat)).push(
            hex_digit((bytes.last() % 16) as nat),
        )
    }
}

/// Is `c` a lower-case hexadecimal digit?
pub open spec fn is_lower_hex(c: char) -> bool {
    '0' <= c <= '9' || 'a' <= c <= 'f'
}

/// The hexadecimal SHA-256 digest of `message`.
pub open spec fn hex_sha256(message: Seq<u8>) -> Seq<char> {
    hex(sha256(message))
}

fn push_hex_digit(s: &mut String, d: u8)
    requires
        d < 16,
    ensures
        final(s)@ == old(s)@.push(hex_digit(d as nat)),
{
    if d < 10 {
        s.push((48 + d) as char);
    } else {
        s.push((87 + d) as char);
    }
}

/// `bytes` in lower-case hexadecimal.
pub fn to_hex(bytes: &[u8]) -> (s: String)
    ensures
        s@ == hex(bytes@),
{
    let mut s = String::new();
    let mut i: usize = 0;
    assert(bytes@.take(0) =~= Seq::<u8>::empty());
    assert(s@ =~= Seq::empty());
    while i < bytes.len()
        invariant
            i <= bytes@.len(),
            s@ == hex(bytes@.take(i as int)),
        decreases bytes@.len() - i,
    {
        assert(bytes@.take(i + 1).drop_last() =~= bytes@.take(i as int));
        push_hex_digit(&mut s, bytes[i] / 16);
        push_hex_digit(&mut s, bytes[i] % 16);
        i = i + 1;
    }
    assert(bytes@.take(i as int) =~= bytes@);
    s
}

/// The hexadecimal SHA-256 digest of `bytes`.
pub fn hex_digest(bytes: &[u8]) -> (s: String)
    ensures
        s@ == hex_sha256(bytes@),
{
    let mut h = Sha256::new();
    h.update(bytes);
    assert(h.view() =~= bytes@);
    let digest = h.finish();
    to_hex(digest.as_slice())
}

proof fn hex_facts(bytes: Seq<u8>)
    ensures
        hex(bytes).len() == 2 * bytes.len(),
        forall|i: int| 0 <= i < hex(bytes).len() ==> is_lower_hex(#[trigger] hex(bytes)[i]),
    decreases bytes.len(),
{
    if bytes.len() > 0 {
        hex_facts(bytes.drop_last());
    }
}

proof fn word_bytes_len(words: Seq<u32>)
    ensures
        word_bytes(words).len() == 4 * words.len(),
    decreases words.len(),
{
    if words.len() > 0 {
        word_bytes_len(words.drop_last());
        be_bytes_len(words.last() as nat, 4);
    }
}

proof fn chained_len(data: Seq<u8>, n: nat)
    ensures
        chained(data, n).len() == 8,
{
    reveal(compressed);
}

/// A digest is 32 bytes, and 64 lower-case hexadecimal digits when written out.
pub proof fn digest_shape(message: Seq<u8>)
    ensures
        sha256(message).len() == 32,
        hex_sha256(message).len() == 64,
        forall|i: int| 0 <= i < 64 ==> is_lower_hex(#[trigger] hex_sha256(message)[i]),
{
    let padded = message + padding(message.len());
    chained_len(padded, padded.len() / 64);
    word_bytes_len(chained(padded, padded.len() / 64));
    hex_facts(sha256(message));
}

} // verus!
