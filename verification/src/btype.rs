//! The three kinds of DEFLATE block.

use vstd::prelude::*;

verus! {

/// How a block's body is coded. The value `11` is reserved and has no variant.
#[derive(Debug, Clone, Copy, PartialEq, Eq, Structural)]
pub enum BlockType {
    /// Stored bytes, on the wire `00`.
    Raw,
    /// The Huffman codes fixed by the format, on the wire `01`.
    Fixed,
    /// Huffman codes transmitted in the block, on the wire `10`.
    Dynamic,
}

impl BlockType {
    /// The two header bits of this block type, as a number.
    pub open spec fn wire(self) -> int {
        match self {
            BlockType::Raw => 0,
            BlockType::Fixed => 1,
            BlockType::Dynamic => 2,
        }
    }

    /// The block type with the given header bits.
    pub fn from(btype: u16) -> (r: Self)
        requires
            btype <= 2,
        ensures
            r.wire() == btype,
    {
        if btype == 0 {
            BlockType::Raw
        } else if btype == 1 {
            BlockType::Fixed
        } else {
            BlockType::Dynamic
        }
    }

    /// The header bits of this block type.
    pub fn to_bits(self) -> (r: u16)
        ensures
            r == self.wire(),
    {
        match self {
            BlockType::Raw => 0,
            BlockType::Fixed => 1,
            BlockType::Dynamic => 2,
        }
    }
}

} // verus!
