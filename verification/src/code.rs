//! The symbols that pass between the matcher and the Huffman coder, and the
//! format's schedules of base values and extra bits for lengths and distances.

use vstd::prelude::*;

verus! {

/// The literal/length symbol that ends a block.
pub const END_OF_BLOCK: u16 = 256;

/// For each length symbol from 257 on: the smallest stored length (the match
/// length minus three) that it covers, and the number of extra bits that follow.
pub open spec fn length_table() -> Seq<(int, int)> {
    seq![
        (0, 0), (1, 0), (2, 0), (3, 0), (4, 0), (5, 0), (6, 0), (7, 0),
        (8, 1), (10, 1), (12, 1), (14, 1),
        (16, 2), (20, 2), (24, 2), (28, 2),
        (32, 3), (40, 3), (48, 3), (56, 3),
        (64, 4), (80, 4), (96, 4), (112, 4),
        (128, 5), (160, 5), (192, 5), (224, 5),
        (255, 0),
    ]
}

/// For each distance symbol: the smallest distance that it covers, and the
/// number of extra bits that follow.
pub open spec fn distance_table() -> Seq<(int, int)> {
    seq![
        (1, 0), (2, 0), (3, 0), (4, 0),
        (5, 1), (7, 1),
        (9, 2), (13, 2),
        (17, 3), (25, 3),
        (33, 4), (49, 4),
        (65, 5), (97, 5),
        (129, 6), (193, 6),
        (257, 7), (385, 7),
        (513, 8), (769, 8),
        (1025, 9), (1537, 9),
        (2049, 10), (3073, 10),
        (4097, 11), (6145, 11),
        (8193, 12), (12289, 12),
        (16385, 13), (24577, 13),
    ]
}

/// The entry of the length schedule for the symbol `257 + index`.
pub fn length_entry(index: usize) -> (r: (u8, u8))
    requires
        index < 29,
    ensures
        r.0 as int == length_table()[index as int].0,
        r.1 as int == length_table()[index as int].1,
{
    if index < 8 {
        (index as u8, 0)
    } else if index == 28 {
        (255, 0)
    } else {
        let bits: u8 = (index / 4 - 1) as u8;
        let step: usize = index % 4;
        let base: usize = if bits == 1 {
            8 + 2 * step
        } else if bits == 2 {
            16 + 4 * step
        } else if bits == 3 {
            32 + 8 * step
        } else if bits == 4 {
            64 + 16 * step
        } else {
            128 + 32 * step
        };
        (base as u8, bits)
    }
}

/// The entry of the distance schedule for the symbol `index`.
pub fn distance_entry(index: usize) -> (r: (u16, u8))
    requires
        index < 30,
    ensures
        r.0 as int == distance_table()[index as int].0,
        r.1 as int == distance_table()[index as int].1,
{
    if index < 4 {
        (index as u16 + 1, 0)
    } else {
        let bits: u8 = (index / 2 - 1) as u8;
        let (low, half) = range_of_bits(bits);
        let base: u16 = if index % 2 == 0 {
            low + 1
        } else {
            low + half + 1
        };
        (base, bits)
    }
}

/// The distances minus one that take `bits` extra bits start at `low`, in two
/// halves of `half` each.
pub open spec fn spec_range_of_bits(bits: int) -> (int, int) {
    if bits == 1 {
        (0x0004, 0x0002)
    } else if bits == 2 {
        (0x0008, 0x0004)
    } else if bits == 3 {
        (0x0010, 0x0008)
    } else if bits == 4 {
        (0x0020, 0x0010)
    } else if bits == 5 {
        (0x0040, 0x0020)
    } else if bits == 6 {
        (0x0080, 0x0040)
    } else if bits == 7 {
        (0x0100, 0x0080)
    } else if bits == 8 {
        (0x0200, 0x0100)
    } else if bits == 9 {
        (0x0400, 0x0200)
    } else if bits == 10 {
        (0x0800, 0x0400)
    } else if bits == 11 {
        (0x1000, 0x0800)
    } else if bits == 12 {
        (0x2000, 0x1000)
    } else {
        (0x4000, 0x2000)
    }
}

/// Where the distances minus one that take `bits` extra bits start, and how
/// long each of their two halves is.
fn range_of_bits(bits: u8) -> (r: (u16, u16))
    requires
        1 <= bits <= 13,
    ensures
        r.0 as int == spec_range_of_bits(bits as int).0,
        r.1 as int == spec_range_of_bits(bits as int).1,
{
    if bits == 1 {
        (0x0004, 0x0002)
    } else if bits == 2 {
        (0x0008, 0x0004)
    } else if bits == 3 {
        (0x0010, 0x0008)
    } else if bits == 4 {
        (0x0020, 0x0010)
    } else if bits == 5 {
        (0x0040, 0x0020)
    } else if bits == 6 {
        (0x0080, 0x0040)
    } else if bits == 7 {
        (0x0100, 0x0080)
    } else if bits == 8 {
        (0x0200, 0x0100)
    } else if bits == 9 {
        (0x0400, 0x0200)
    } else if bits == 10 {
        (0x0800, 0x0400)
    } else if bits == 11 {
        (0x1000, 0x0800)
    } else if bits == 12 {
        (0x2000, 0x1000)
    } else {
        (0x4000, 0x2000)
    }
}

/// The number of extra bits that the distance minus one `d` takes; 0 below 4.
pub open spec fn spec_distance_bits(d: int) -> int {
    if d < 0x0004 {
        0
    } else if d < 0x0008 {
        1
    } else if d < 0x0010 {
        2
    } else if d < 0x0020 {
        3
    } else if d < 0x0040 {
        4
    } else if d < 0x0080 {
        5
    } else if d < 0x0100 {
        6
    } else if d < 0x0200 {
        7
    } else if d < 0x0400 {
        8
    } else if d < 0x0800 {
        9
    } else if d < 0x1000 {
        10
    } else if d < 0x2000 {
        11
    } else if d < 0x4000 {
        12
    } else {
        13
    }
}

/// The number of extra bits that the distance minus one `d` takes.
fn distance_bits(d: u16) -> (r: u8)
    requires
        4 <= d < 0x8000,
    ensures
        r as int == spec_distance_bits(d as int),
        1 <= r <= 13,
{
    if d < 0x0008 {
        1
    } else if d < 0x0010 {
        2
    } else if d < 0x0020 {
        3
    } else if d < 0x0040 {
        4
    } else if d < 0x0080 {
        5
    } else if d < 0x0100 {
        6
    } else if d < 0x0200 {
        7
    } else if d < 0x0400 {
        8
    } else if d < 0x0800 {
        9
    } else if d < 0x1000 {
        10
    } else if d < 0x2000 {
        11
    } else if d < 0x4000 {
        12
    } else {
        13
    }
}

/// One symbol of the stream between the matcher and the Huffman coder.
#[derive(Debug, Clone, Copy, PartialEq, Eq, Structural)]
pub enum Code {
    /// The end of a block.
    EndOfBlock,
    /// One byte as it is.
    Literal(u8),
    /// A copy of `length + 3` bytes that start `distance` bytes back.
    Pointer { distance: u16, length: u8 },
}

impl Code {
    /// A back-reference reaches back at least one byte and at most the window.
    pub open spec fn wf(self) -> bool {
        match self {
            Code::Pointer { distance, .. } => 1 <= distance <= 0x8000,
            _ => true,
        }
    }

    /// The literal/length symbol of the stored length `l`.
    pub open spec fn length_symbol(l: int) -> int {
        if l < 0x08 {
            257 + l
        } else if l < 0x10 {
            265 + (l - 0x08) / 0x02
        } else if l < 0x20 {
            269 + (l - 0x10) / 0x04
        } else if l < 0x40 {
            273 + (l - 0x20) / 0x08
        } else if l < 0x80 {
            277 + (l - 0x40) / 0x10
        } else if l < 0xFF {
            281 + (l - 0x80) / 0x20
        } else {
            285
        }
    }

    /// The symbol of the literal/length alphabet that stands for this code.
    pub open spec fn spec_literal_code(self) -> int {
        match self {
            Code::Literal(x) => x as int,
            Code::EndOfBlock => 256,
            Code::Pointer { length, .. } => Self::length_symbol(length as int),
        }
    }

    /// The extra bits after a length symbol, as `(width, value)`; `None` where
    /// the symbol takes none.
    pub open spec fn spec_extra_length(self) -> Option<(u8, u16)> {
        match self {
            Code::Pointer { length, .. } => {
                let l = length as int;
                if l < 0x08 || l == 0xFF {
                    None
                } else if l < 0x10 {
                    Some((1u8, ((l - 0x08) % 0x02) as u16))
                } else if l < 0x20 {
                    Some((2u8, ((l - 0x10) % 0x04) as u16))
                } else if l < 0x40 {
                    Some((3u8, ((l - 0x20) % 0x08) as u16))
                } else if l < 0x80 {
                    Some((4u8, ((l - 0x40) % 0x10) as u16))
                } else {
                    Some((5u8, ((l - 0x80) % 0x20) as u16))
                }
            },
            _ => None,
        }
    }

    /// The distance symbol with its extra bits, as `(symbol, width, value)`;
    /// `None` for what is no back-reference.
    pub open spec fn spec_distance_code(self) -> Option<(u16, u8, u16)> {
        match self {
            Code::Pointer { distance, .. } => {
                let d = distance as int - 1;
                if d < 4 {
                    Some((d as u16, 0u8, 0u16))
                } else {
                    let bits = spec_distance_bits(d);
                    let (low, half) = spec_range_of_bits(bits);
                    Some(((2 * bits + 2 + (d - low) / half) as u16, bits as u8, ((d - low) % half) as u16))
                }
            },
            _ => None,
        }
    }

    /// The symbol of the literal/length alphabet that stands for this code.
    pub fn literal_code(&self) -> (r: u16)
        ensures
            r as int == self.spec_literal_code(),
            r <= 285,
    {
        match *self {
            Code::Literal(x) => x as u16,
            Code::EndOfBlock => END_OF_BLOCK,
            Code::Pointer { length, .. } => {
                let l: u16 = length as u16;
                if l < 0x08 {
                    257 + l
                } else if l < 0x10 {
                    265 + (l - 0x08) / 0x02
                } else if l < 0x20 {
                    269 + (l - 0x10) / 0x04
                } else if l < 0x40 {
                    273 + (l - 0x20) / 0x08
                } else if l < 0x80 {
                    277 + (l - 0x40) / 0x10
                } else if l < 0xFF {
                    281 + (l - 0x80) / 0x20
                } else {
                    285
                }
            },
        }
    }

    /// The extra bits after a length symbol, as `(width, value)`; `None` where
    /// the symbol takes none.
    pub fn extra_length(&self) -> (r: Option<(u8, u16)>)
        ensures
            r == self.spec_extra_length(),
    {
        match *self {
            Code::Pointer { length, .. } => {
                let l: u16 = length as u16;
                if l < 0x08 || l == 0xFF {
                    None
                } else if l < 0x10 {
                    Some((1, (l - 0x08) % 0x02))
                } else if l < 0x20 {
                    Some((2, (l - 0x10) % 0x04))
                } else if l < 0x40 {
                    Some((3, (l - 0x20) % 0x08))
                } else if l < 0x80 {
                    Some((4, (l - 0x40) % 0x10))
                } else {
                    Some((5, (l - 0x80) % 0x20))
                }
            },
            _ => None,
        }
    }

    /// The distance symbol with its extra bits, as `(symbol, width, value)`;
    /// `None` for what is no back-reference.
    pub fn distance_code(&self) -> (r: Option<(u16, u8, u16)>)
        requires
            self.wf(),
        ensures
            r == self.spec_distance_code(),
    {
        match *self {
            Code::Pointer { distance, .. } => {
                let d: u16 = distance - 1;
                if d < 4 {
                    Some((d, 0, 0))
                } else {
                    let bits: u8 = distance_bits(d);
                    let (low, half) = range_of_bits(bits);
                    let (div, rem) = div_rem(d - low, half);
                    Some((2 * (bits as u16) + 2 + div, bits, rem))
                }
            },
            _ => None,
        }
    }
}

/// Quotient and remainder at once.
pub fn div_rem(a: u16, b: u16) -> (r: (u16, u16))
    requires
        b != 0,
    ensures
        r.0 as int == a as int / b as int,
        r.1 as int == a as int % b as int,
{
    (a / b, a % b)
}

/// The number of extra bits after the literal/length symbol of this code.
pub open spec fn extra_length_width(c: Code) -> int {
    match c.spec_extra_length() {
        Some((w, _)) => w as int,
        None => 0,
    }
}

/// The value of the extra bits after the literal/length symbol of this code.
pub open spec fn extra_length_value(c: Code) -> int {
    match c.spec_extra_length() {
        Some((_, v)) => v as int,
        None => 0,
    }
}

/// The distance symbol of this code; 0 for what is no back-reference.
pub open spec fn distance_symbol(c: Code) -> int {
    match c.spec_distance_code() {
        Some((s, _, _)) => s as int,
        None => 0,
    }
}

/// The number of extra bits after the distance symbol of this code.
pub open spec fn distance_extra_width(c: Code) -> int {
    match c.spec_distance_code() {
        Some((_, w, _)) => w as int,
        None => 0,
    }
}

/// The value of the extra bits after the distance symbol of this code.
pub open spec fn distance_extra_value(c: Code) -> int {
    match c.spec_distance_code() {
        Some((_, _, v)) => v as int,
        None => 0,
    }
}

/// Looking a back-reference's length symbol up in the schedule and adding the
/// extra bits gives the stored length back.
pub proof fn lemma_length_schedule(c: Code)
    requires
        c is Pointer,
    ensures
        257 <= c.spec_literal_code() <= 285,
        length_table()[c.spec_literal_code() - 257].1 == extra_length_width(c),
        length_table()[c.spec_literal_code() - 257].0 + extra_length_value(c) == c->length,
        0 <= extra_length_value(c),
        extra_length_width(c) == 0 ==> extra_length_value(c) == 0,
{
    let l = c->length as int;
    let t = length_table();
    if l < 0x08 {
    } else if l < 0x10 {
        assert(t[8].0 == 8 && t[9].0 == 10 && t[10].0 == 12 && t[11].0 == 14);
    } else if l < 0x20 {
        assert(t[12].0 == 16 && t[13].0 == 20 && t[14].0 == 24 && t[15].0 == 28);
    } else if l < 0x40 {
        assert(t[16].0 == 32 && t[17].0 == 40 && t[18].0 == 48 && t[19].0 == 56);
    } else if l < 0x80 {
        assert(t[20].0 == 64 && t[21].0 == 80 && t[22].0 == 96 && t[23].0 == 112);
    } else if l < 0xFF {
        assert(t[24].0 == 128 && t[25].0 == 160 && t[26].0 == 192 && t[27].0 == 224);
    } else {
    }
}

/// Looking a back-reference's distance symbol up in the schedule and adding
/// the extra bits gives the distance back.
pub proof fn lemma_distance_schedule(c: Code)
    requires
        c is Pointer,
        c.wf(),
    ensures
        0 <= distance_symbol(c) < 30,
        distance_table()[distance_symbol(c)].1 == distance_extra_width(c),
        distance_table()[distance_symbol(c)].0 + distance_extra_value(c) == c->distance,
        0 <= distance_extra_value(c),
        distance_extra_width(c) == 0 ==> distance_extra_value(c) == 0,
{
    let d = c->distance as int - 1;
    let t = distance_table();
    if d < 4 {
    } else {
        let bits = spec_distance_bits(d);
        let (low, half) = spec_range_of_bits(bits);
        let div = (d - low) / half;
        if bits == 1 {
            assert(div == (d - 4) / 2 && (d - low) % half == (d - 4) % 2);
        } else if bits == 2 {
            assert(div == (d - 8) / 4 && (d - low) % half == (d - 8) % 4);
        } else if bits == 3 {
            assert(div == (d - 16) / 8 && (d - low) % half == (d - 16) % 8);
        } else if bits == 4 {
            assert(div == (d - 32) / 16 && (d - low) % half == (d - 32) % 16);
        } else if bits == 5 {
            assert(div == (d - 64) / 32 && (d - low) % half == (d - 64) % 32);
        } else if bits == 6 {
            assert(div == (d - 128) / 64 && (d - low) % half == (d - 128) % 64);
        } else if bits == 7 {
            assert(div == (d - 256) / 128 && (d - low) % half == (d - 256) % 128);
        } else if bits == 8 {
            assert(div == (d - 512) / 256 && (d - low) % half == (d - 512) % 256);
        } else if bits == 9 {
            assert(div == (d - 1024) / 512 && (d - low) % half == (d - 1024) % 512);
        } else if bits == 10 {
            assert(div == (d - 2048) / 1024 && (d - low) % half == (d - 2048) % 1024);
        } else if bits == 11 {
            assert(div == (d - 4096) / 2048 && (d - low) % half == (d - 4096) % 2048);
        } else if bits == 12 {
            assert(div == (d - 8192) / 4096 && (d - low) % half == (d - 8192) % 4096);
        } else {
            assert(div == (d - 16384) / 8192 && (d - low) % half == (d - 16384) % 8192);
        }
        assert(div == 0 || div == 1);
        assert(t[4].0 == 5 && t[5].0 == 7 && t[6].0 == 9 && t[7].0 == 13);
        assert(t[8].0 == 17 && t[9].0 == 25 && t[10].0 == 33 && t[11].0 == 49);
        assert(t[12].0 == 65 && t[13].0 == 97 && t[14].0 == 129 && t[15].0 == 193);
        assert(t[16].0 == 257 && t[17].0 == 385 && t[18].0 == 513 && t[19].0 == 769);
        assert(t[20].0 == 1025 && t[21].0 == 1537 && t[22].0 == 2049 && t[23].0 == 3073);
        assert(t[24].0 == 4097 && t[25].0 == 6145 && t[26].0 == 8193 && t[27].0 == 12289);
        assert(t[28].0 == 16385 && t[29].0 == 24577);
    }
}

/// A length symbol with its extra bits never gives a stored length above 255,
/// and takes at most five extra bits.
pub proof fn lemma_length_table_bounds(i: int)
    requires
        0 <= i < 29,
    ensures
        0 <= length_table()[i].1 <= 5,
        0 <= length_table()[i].0,
        length_table()[i].0 + vstd::arithmetic::power2::pow2(length_table()[i].1 as nat) <= 256,
{
    vstd::arithmetic::power2::lemma2_to64();
    if i == 0 {
        assert(length_table()[0] == (0int, 0int));
    } else if i == 1 {
        assert(length_table()[1] == (1int, 0int));
    } else if i == 2 {
        assert(length_table()[2] == (2int, 0int));
    } else if i == 3 {
        assert(length_table()[3] == (3int, 0int));
    } else if i == 4 {
        assert(length_table()[4] == (4int, 0int));
    } else if i == 5 {
        assert(length_table()[5] == (5int, 0int));
    } else if i == 6 {
        assert(length_table()[6] == (6int, 0int));
    } else if i == 7 {
        assert(length_table()[7] == (7int, 0int));
    } else if i == 8 {
        assert(length_table()[8] == (8int, 1int));
    } else if i == 9 {
        assert(length_table()[9] == (10int, 1int));
    } else if i == 10 {
        assert(length_table()[10] == (12int, 1int));
    } else if i == 11 {
        assert(length_table()[11] == (14int, 1int));
    } else if i == 12 {
        assert(length_table()[12] == (16int, 2int));
    } else if i == 13 {
        assert(length_table()[13] == (20int, 2int));
    } else if i == 14 {
        assert(length_table()[14] == (24int, 2int));
    } else if i == 15 {
        assert(length_table()[15] == (28int, 2int));
    } else if i == 16 {
        assert(length_table()[16] == (32int, 3int));
    } else if i == 17 {
        assert(length_table()[17] == (40int, 3int));
    } else if i == 18 {
        assert(length_table()[18] == (48int, 3int));
    } else if i == 19 {
        assert(length_table()[19] == (56int, 3int));
    } else if i == 20 {
        assert(length_table()[20] == (64int, 4int));
    } else if i == 21 {
        assert(length_table()[21] == (80int, 4int));
    } else if i == 22 {
        assert(length_table()[22] == (96int, 4int));
    } else if i == 23 {
        assert(length_table()[23] == (112int, 4int));
    } else if i == 24 {
        assert(length_table()[24] == (128int, 5int));
    } else if i == 25 {
        assert(length_table()[25] == (160int, 5int));
    } else if i == 26 {
        assert(length_table()[26] == (192int, 5int));
    } else if i == 27 {
        assert(length_table()[27] == (224int, 5int));
    } else {
        assert(length_table()[28] == (255int, 0int));
    }
}

/// A distance symbol with its extra bits gives a distance between 1 and
/// 32768, and takes at most thirteen extra bits.
pub proof fn lemma_distance_table_bounds(i: int)
    requires
        0 <= i < 30,
    ensures
        0 <= distance_table()[i].1 <= 13,
        1 <= distance_table()[i].0,
        distance_table()[i].0 + vstd::arithmetic::power2::pow2(distance_table()[i].1 as nat) <= 32769,
{
    vstd::arithmetic::power2::lemma2_to64();
    if i == 0 {
        assert(distance_table()[0] == (1int, 0int));
    } else if i == 1 {
        assert(distance_table()[1] == (2int, 0int));
    } else if i == 2 {
        assert(distance_table()[2] == (3int, 0int));
    } else if i == 3 {
        assert(distance_table()[3] == (4int, 0int));
    } else if i == 4 {
        assert(distance_table()[4] == (5int, 1int));
    } else if i == 5 {
        assert(distance_table()[5] == (7int, 1int));
    } else if i == 6 {
        assert(distance_table()[6] == (9int, 2int));
    } else if i == 7 {
        assert(distance_table()[7] == (13int, 2int));
    } else if i == 8 {
        assert(distance_table()[8] == (17int, 3int));
    } else if i == 9 {
        assert(distance_table()[9] == (25int, 3int));
    } else if i == 10 {
        assert(distance_table()[10] == (33int, 4int));
    } else if i == 11 {
        assert(distance_table()[11] == (49int, 4int));
    } else if i == 12 {
        assert(distance_table()[12] == (65int, 5int));
    } else if i == 13 {
        assert(distance_table()[13] == (97int, 5int));
    } else if i == 14 {
        assert(distance_table()[14] == (129int, 6int));
    } else if i == 15 {
        assert(distance_table()[15] == (193int, 6int));
    } else if i == 16 {
        assert(distance_table()[16] == (257int, 7int));
    } else if i == 17 {
        assert(distance_table()[17] == (385int, 7int));
    } else if i == 18 {
        assert(distance_table()[18] == (513int, 8int));
    } else if i == 19 {
        assert(distance_table()[19] == (769int, 8int));
    } else if i == 20 {
        assert(distance_table()[20] == (1025int, 9int));
    } else if i == 21 {
        assert(distance_table()[21] == (1537int, 9int));
    } else if i == 22 {
        assert(distance_table()[22] == (2049int, 10int));
    } else if i == 23 {
        assert(distance_table()[23] == (3073int, 10int));
    } else if i == 24 {
        assert(distance_table()[24] == (4097int, 11int));
    } else if i == 25 {
        assert(distance_table()[25] == (6145int, 11int));
    } else if i == 26 {
        assert(distance_table()[26] == (8193int, 12int));
    } else if i == 27 {
        assert(distance_table()[27] == (12289int, 12int));
    } else if i == 28 {
        assert(distance_table()[28] == (16385int, 13int));
    } else {
        assert(distance_table()[29] == (24577int, 13int));
    }
}

} // verus!
