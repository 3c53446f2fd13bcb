//! Big-endian fields of byte buffers.

use vstd::prelude::*;

verus! {

/// The 16-bit big-endian field at `at`.
pub open spec fn be16(s: Seq<u8>, at: int) -> nat {
    s[at] as nat * 0x100 + s[at + 1] as nat
}

/// The 32-bit big-endian field at `at`.
pub open spec fn be32(s: Seq<u8>, at: int) -> u32 {
    (s[at] * 0x100_0000 + s[at + 1] * 0x1_0000 + s[at + 2] * 0x100 + s[at + 3]) as u32
}

/// Reads the 16-bit big-endian field at `at`.
pub fn read_be16(s: &[u8], at: usize) -> (v: usize)
    requires
        at + 2 <= s@.len(),
    ensures
        v == be16(s@, at as int),
        v <= 0xffff,
{
    s[at] as usize * 0x100 + s[at + 1] as usize
}

/// Reads the 32-bit big-endian field at `at`.
pub fn read_be32(s: &[u8], at: usize) -> (v: u32)
    requires
        at + 4 <= s@.len(),
    ensures
        v == be32(s@, at as int),
{
    s[at] as u32 * 0x100_0000 + s[at + 1] as u32 * 0x1_0000 + s[at + 2] as u32 * 0x100
        + s[at + 3] as u32
}

} // verus!
