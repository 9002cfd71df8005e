//! Fixed-width integers as they lie in the container: big-endian in the
//! header and the length prefix, little-endian in the assignment rows.

use vstd::prelude::*;

verus! {

/// The unsigned 16-bit value of two bytes, least significant first.
pub open spec fn le16(b0: u8, b1: u8) -> int {
    b0 as int + b1 as int * 256
}

/// The unsigned 32-bit value of four bytes, most significant first.
pub open spec fn be32(b0: u8, b1: u8, b2: u8, b3: u8) -> int {
    b0 as int * 16777216 + b1 as int * 65536 + b2 as int * 256 + b3 as int
}

/// Reads a little-endian `u16` from two bytes.
pub fn read_le16(b0: u8, b1: u8) -> (v: u16)
    ensures
        v as int == le16(b0, b1),
{
    let lo: u16 = b0 as u16;
    let hi: u16 = b1 as u16;
    lo + hi * 256
}

/// Reads a big-endian `u32` from four bytes.
pub fn read_be32(b0: u8, b1: u8, b2: u8, b3: u8) -> (v: u32)
    ensures
        v as int == be32(b0, b1, b2, b3),
{
    let x0: u32 = b0 as u32;
    let x1: u32 = b1 as u32;
    let x2: u32 = b2 as u32;
    let x3: u32 = b3 as u32;
    x0 * 16777216 + x1 * 65536 + x2 * 256 + x3
}

} // verus!
