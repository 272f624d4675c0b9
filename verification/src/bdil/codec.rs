//! Byte values of the frame format.

use vstd::prelude::*;

verus! {

pub const MAGIC: [u8; 2] = [0xCA, 0xED];

pub const VER_0_1_0: u8 = 0x40;
pub const VER_EXPLICIT: u8 = 0x41;

pub const EXPR_LIT_POS: u8 = 0x10;
pub const EXPR_LIT_NEG: u8 = 0x11;

pub const WORD: u8 = 0x30;

pub const END: u8 = 0x00;
pub const T_INT: u8 = 0x20;
pub const T_FLT: u8 = 0x21;
pub const T_STR: u8 = 0x22;
pub const T_LIT_POS: u8 = 0x23;
pub const T_LIT_NEG: u8 = 0x24;
pub const T_VAR: u8 = 0x25;

/// The four bytes of `u`, least significant first.
pub open spec fn le_bytes(u: u32) -> Seq<u8> {
    seq![(u & 0xff) as u8, ((u >> 8) & 0xff) as u8, ((u >> 16) & 0xff) as u8, ((u >> 24) & 0xff) as u8]
}

/// The value of four bytes read least significant first.
pub open spec fn from_le_bytes(b0: u8, b1: u8, b2: u8, b3: u8) -> u32 {
    (b0 as u32) | ((b1 as u32) << 8) | ((b2 as u32) << 16) | ((b3 as u32) << 24)
}

pub proof fn lemma_le_bytes_roundtrip(u: u32)
    ensures
        from_le_bytes(le_bytes(u)[0], le_bytes(u)[1], le_bytes(u)[2], le_bytes(u)[3]) == u,
{
    let b0 = (u & 0xff) as u8;
    let b1 = ((u >> 8) & 0xff) as u8;
    let b2 = ((u >> 16) & 0xff) as u8;
    let b3 = ((u >> 24) & 0xff) as u8;
    assert((b0 as u32) | ((b1 as u32) << 8) | ((b2 as u32) << 16) | ((b3 as u32) << 24) == u) by (bit_vector)
        requires
            b0 == (u & 0xff) as u8,
            b1 == ((u >> 8) & 0xff) as u8,
            b2 == ((u >> 16) & 0xff) as u8,
            b3 == ((u >> 24) & 0xff) as u8,
    ;
}

/// Numbers are written least significant byte first: the `k`-th byte is the remainder
/// by 256 of the number divided by 256 to the `k`-th power; and four bytes read back give
/// the number with those bytes in that order.
pub proof fn lemma_little_endian(u: u32, b0: u8, b1: u8, b2: u8, b3: u8)
    ensures
        le_bytes(u).len() == 4,
        le_bytes(u)[0] == (u % 256) as u8,
        le_bytes(u)[1] == ((u / 256) % 256) as u8,
        le_bytes(u)[2] == ((u / 65536) % 256) as u8,
        le_bytes(u)[3] == (u / 16777216) as u8,
        from_le_bytes(b0, b1, b2, b3) % 256 == b0 as u32,
        (from_le_bytes(b0, b1, b2, b3) / 256) % 256 == b1 as u32,
        (from_le_bytes(b0, b1, b2, b3) / 65536) % 256 == b2 as u32,
        from_le_bytes(b0, b1, b2, b3) / 16777216 == b3 as u32,
{
    assert((u & 0xff) == u % 256) by (bit_vector);
    assert(((u >> 8) & 0xff) == (u / 256) % 256) by (bit_vector);
    assert(((u >> 16) & 0xff) == (u / 65536) % 256) by (bit_vector);
    assert(((u >> 24) & 0xff) == u / 16777216) by (bit_vector);
    let x = from_le_bytes(b0, b1, b2, b3);
    assert(((b0 as u32) | ((b1 as u32) << 8) | ((b2 as u32) << 16) | ((b3 as u32) << 24)) % 256 == b0 as u32) by (bit_vector);
    assert((((b0 as u32) | ((b1 as u32) << 8) | ((b2 as u32) << 16) | ((b3 as u32) << 24)) / 256) % 256 == b1 as u32) by (bit_vector);
    assert((((b0 as u32) | ((b1 as u32) << 8) | ((b2 as u32) << 16) | ((b3 as u32) << 24)) / 65536) % 256 == b2 as u32) by (bit_vector);
    assert(((b0 as u32) | ((b1 as u32) << 8) | ((b2 as u32) << 16) | ((b3 as u32) << 24)) / 16777216 == b3 as u32) by (bit_vector);
}

pub proof fn lemma_i32_u32_roundtrip(i: i32)
    ensures
        (i as u32) as i32 == i,
{
    assert((i as u32) as i32 == i) by (bit_vector);
}

} // verus!
