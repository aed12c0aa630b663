//! Shared fixed tables and constants of the compressed-block bit grammar.
use vstd::prelude::*;

verus! {

/// Fewest pending non-padding bits that still hold a decodable token.
pub const MIN_DECODE: u32 = 8;

/// Shortest back-reference the grammar can express.
pub const MIN_MATCH: usize = 3;

pub const HASH_MASK: u32 = 16383;

pub const HASH_LOG: u32 = 14;

/// Size of the sliding dictionary; largest encodable offset.
pub const WHACK_MAX_OFF: u16 = 16384;

/// Starting width of the encoder's big-length escape code.
pub const BIG_LEN_BITS: u32 = 9;

/// Items covered by the first step of the encoder's big-length escape.
pub const BIG_LEN_BASE: u32 = 4;

/// Least code value of the encoder's big-length escape.
pub const BIG_LEN_CODE: u16 = 500;

pub const MIN_OFF_BITS: u8 = 6;

pub const MAX_OFF_BITS: u8 = MIN_OFF_BITS + 8;

/// Match lengths below `MIN_MATCH + MAX_FAST_LEN` use the fixed prefix code.
pub const MAX_FAST_LEN: u8 = 9;

/// Largest encodable match length.
pub const MAXLEN: usize = 2051;

/// Starting width of the decoder's big-length escape code.
pub const D_BIG_LEN_BITS: u32 = 6;

/// Items covered by the first step of the decoder's big-length escape.
pub const D_BIG_LEN_BASE: u32 = 1;

/// Lengths at or below this decode without the big-length escape.
pub const DMAX_FAST_LEN: usize = 7;

/// Least code value of the decoder's big-length escape.
pub const D_BIG_LEN_CODE: u8 = 60;

/// A fixed prefix code: `encode` is the code value, MSB-aligned when
/// emitted into `bits` bits of output.
pub struct Huff {
    pub bits: u16,
    pub encode: usize,
}

/// Decode table for the top five bits of the bit buffer: 0 marks a
/// literal, 3 through 6 a short match length, 255 the big-length escape.
pub open spec fn spec_lenval(i: int) -> u8 {
    if i < 16 {
        0
    } else if i < 24 {
        3
    } else if i < 28 {
        4
    } else if i == 28 {
        5
    } else if i == 29 {
        6
    } else {
        255
    }
}

pub fn lenval(i: u64) -> (r: u8)
    requires
        i < 32,
    ensures
        r == spec_lenval(i as int),
        r == 0 || r == 3 || r == 4 || r == 5 || r == 6 || r == 255,
{
    if i < 16 {
        0
    } else if i < 24 {
        3
    } else if i < 28 {
        4
    } else if i == 28 {
        5
    } else if i == 29 {
        6
    } else {
        255
    }
}

/// Width in bits of the short length code whose decoded value is the index.
pub open spec fn spec_lenbits(i: int) -> u8 {
    if i == 3 {
        2
    } else if i == 4 {
        3
    } else if i == 5 || i == 6 {
        5
    } else {
        0
    }
}

pub fn lenbits(i: u8) -> (r: u8)
    requires
        i < 7,
    ensures
        r == spec_lenbits(i as int),
        r <= 5,
{
    if i == 3 {
        2
    } else if i == 4 {
        3
    } else if i == 5 || i == 6 {
        5
    } else {
        0
    }
}

/// Extra bits carried by each of the sixteen offset classes.
pub open spec fn spec_offbits(i: int) -> u8 {
    if i < 4 {
        5
    } else if i < 6 {
        6
    } else if i < 8 {
        7
    } else if i < 10 {
        8
    } else if i < 12 {
        9
    } else if i < 14 {
        10
    } else if i == 14 {
        12
    } else {
        13
    }
}

pub fn offbits(i: u64) -> (r: u8)
    requires
        i < 16,
    ensures
        r == spec_offbits(i as int),
        5 <= r <= 13,
{
    if i < 4 {
        5
    } else if i < 6 {
        6
    } else if i < 8 {
        7
    } else if i < 10 {
        8
    } else if i < 12 {
        9
    } else if i < 14 {
        10
    } else if i == 14 {
        12
    } else {
        13
    }
}

/// Base offset of each of the sixteen offset classes.
pub open spec fn spec_offbase(i: int) -> u16 {
    if i == 0 {
        0
    } else if i == 1 {
        0x20
    } else if i == 2 {
        0x40
    } else if i == 3 {
        0x60
    } else if i == 4 {
        0x80
    } else if i == 5 {
        0xc0
    } else if i == 6 {
        0x100
    } else if i == 7 {
        0x180
    } else if i == 8 {
        0x200
    } else if i == 9 {
        0x300
    } else if i == 10 {
        0x400
    } else if i == 11 {
        0x600
    } else if i == 12 {
        0x800
    } else if i == 13 {
        0xc00
    } else if i == 14 {
        0x1000
    } else {
        0x2000
    }
}

pub fn offbase(i: u64) -> (r: u16)
    requires
        i < 16,
    ensures
        r == spec_offbase(i as int),
        r <= 0x2000,
{
    if i == 0 {
        0
    } else if i == 1 {
        0x20
    } else if i == 2 {
        0x40
    } else if i == 3 {
        0x60
    } else if i == 4 {
        0x80
    } else if i == 5 {
        0xc0
    } else if i == 6 {
        0x100
    } else if i == 7 {
        0x180
    } else if i == 8 {
        0x200
    } else if i == 9 {
        0x300
    } else if i == 10 {
        0x400
    } else if i == 11 {
        0x600
    } else if i == 12 {
        0x800
    } else if i == 13 {
        0xc00
    } else if i == 14 {
        0x1000
    } else {
        0x2000
    }
}

/// Width of the fixed prefix code for short match length `l`.
pub open spec fn spec_lentab_bits(l: int) -> u16 {
    if l == 0 {
        2
    } else if l == 1 {
        3
    } else if l == 2 || l == 3 {
        5
    } else if l == 4 {
        6
    } else if l == 5 || l == 6 {
        7
    } else {
        8
    }
}

/// Code value of the fixed prefix code for short match length `l`.
pub open spec fn spec_lentab_code(l: int) -> usize {
    if l == 0 {
        0b10
    } else if l == 1 {
        0b110
    } else if l == 2 {
        0b11100
    } else if l == 3 {
        0b11101
    } else if l == 4 {
        0b111100
    } else if l == 5 {
        0b1111010
    } else if l == 6 {
        0b1111011
    } else if l == 7 {
        0b11111000
    } else {
        0b11111001
    }
}

/// Fixed prefix code for short match lengths (`length - MIN_MATCH` in 0..9).
pub fn lentab(l: u16) -> (h: Huff)
    requires
        l < 9,
    ensures
        h.bits == spec_lentab_bits(l as int),
        h.encode == spec_lentab_code(l as int),
        2 <= h.bits <= 8,
        h.encode < vstd::arithmetic::power2::pow2(h.bits as nat),
{
    proof {
        crate::bitbuf::lemma_pow2_values();
    }
    if l == 0 {
        Huff { bits: 2, encode: 0b10 }
    } else if l == 1 {
        Huff { bits: 3, encode: 0b110 }
    } else if l == 2 {
        Huff { bits: 5, encode: 0b11100 }
    } else if l == 3 {
        Huff { bits: 5, encode: 0b11101 }
    } else if l == 4 {
        Huff { bits: 6, encode: 0b111100 }
    } else if l == 5 {
        Huff { bits: 7, encode: 0b1111010 }
    } else if l == 6 {
        Huff { bits: 7, encode: 0b1111011 }
    } else if l == 7 {
        Huff { bits: 8, encode: 0b11111000 }
    } else {
        Huff { bits: 8, encode: 0b11111001 }
    }
}

} // verus!
