//! The ways in which decoding can fail.

use vstd::prelude::*;

verus! {

/// Why a decode call gave up. Every failure ends the call; no partial output is kept.
#[derive(Debug, Clone, Copy, PartialEq, Eq, Structural)]
pub enum Error {
    /// The input ended in the middle of a read, or a caller-sized output does not fit.
    BufferOverflow,
    /// A block announced the reserved type `11`.
    ReservedBlockType,
    /// A stored block whose `NLEN` is not the one's complement of `LEN`.
    LengthComplementMismatch,
    /// The transmitted code lengths do not stop where the two alphabets end.
    InvalidCodeLengths,
    /// A repeat of the previous code length with no length before it.
    NoPreviousWidth,
    /// The bits read match no code of the table in force.
    InvalidWidth,
    /// A literal/length or distance symbol outside the alphabet.
    InvalidSymbol,
    /// A back-reference that starts before the beginning of the output.
    BackReferenceOutOfRange,
    /// An end-of-block marker in a symbol stream handed to the expander.
    UnexpectedEndOfBlock,
    /// Fewer bytes than a ZLIB header and trailer take.
    ZlibHeaderTooShort,
    /// A ZLIB compression method other than DEFLATE.
    ZlibUnsupportedMethod,
    /// A ZLIB header whose two bytes are not a multiple of 31.
    ZlibFcheckMismatch,
    /// A ZLIB stream that asks for a preset dictionary.
    ZlibPresetDictionary,
    /// The trailer does not hold the Adler-32 checksum of the decoded bytes.
    ZlibChecksumMismatch,
}

impl Error {
    /// The description of each failure.
    pub open spec fn message_text(self) -> Seq<char> {
        match self {
            Error::BufferOverflow => "Buffer overflow."@,
            Error::ReservedBlockType => "Reserved btype."@,
            Error::LengthComplementMismatch => "LEN is not the one's complement of NLEN."@,
            Error::InvalidCodeLengths => "Invalid code lengths."@,
            Error::NoPreviousWidth => "No previous value."@,
            Error::InvalidWidth => "Invalid width decoded"@,
            Error::InvalidSymbol => "Invalid value decoded."@,
            Error::BackReferenceOutOfRange => "One distance is greater than current index."@,
            Error::UnexpectedEndOfBlock => "End Of Block is not supposed to be there."@,
            Error::ZlibHeaderTooShort => "Zlib's header is missing"@,
            Error::ZlibUnsupportedMethod => "Zlib only supports deflate compression algorithm"@,
            Error::ZlibFcheckMismatch => "Fcheck must be multiple of 31"@,
            Error::ZlibPresetDictionary => "Zlib dictionaries is not implemented"@,
            Error::ZlibChecksumMismatch => "Zlib checksum error"@,
        }
    }

    /// A short description for people.
    pub fn message(&self) -> (r: &'static str)
        ensures
            r@ == self.message_text(),
    {
        match self {
            Error::BufferOverflow => "Buffer overflow.",
            Error::ReservedBlockType => "Reserved btype.",
            Error::LengthComplementMismatch => "LEN is not the one's complement of NLEN.",
            Error::InvalidCodeLengths => "Invalid code lengths.",
            Error::NoPreviousWidth => "No previous value.",
            Error::InvalidWidth => "Invalid width decoded",
            Error::InvalidSymbol => "Invalid value decoded.",
            Error::BackReferenceOutOfRange => "One distance is greater than current index.",
            Error::UnexpectedEndOfBlock => "End Of Block is not supposed to be there.",
            Error::ZlibHeaderTooShort => "Zlib's header is missing",
            Error::ZlibUnsupportedMethod => "Zlib only supports deflate compression algorithm",
            Error::ZlibFcheckMismatch => "Fcheck must be multiple of 31",
            Error::ZlibPresetDictionary => "Zlib dictionaries is not implemented",
            Error::ZlibChecksumMismatch => "Zlib checksum error",
        }
    }
}

} // verus!
