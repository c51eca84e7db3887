//! Codeword values of the data encodation and the types shared by encoder and decoder.
use vstd::prelude::*;

pub mod ascii;
pub mod buffers;
pub mod base256;
pub mod c40;
pub mod edifact;

verus! {

/// First codeword of a message in the "05" macro format.
pub const MACRO05: u8 = 236;

/// First codeword of a message in the "06" macro format.
pub const MACRO06: u8 = 237;

/// Codeword marking a Reader Programming message (first codeword only).
pub const READER_PROGRAMMING: u8 = 234;

/// Codeword that returns from C40, Text and X12 to ASCII.
pub const UNLATCH: u8 = 254;

/// The value that ends EDIFACT encodation.
pub const EDIFACT_UNLATCH: u8 = 31;

/// ECI assignment number of UTF-8.
pub const ECI_UTF8: u32 = 26;

/// Header that a macro codeword stands for: `[)>` RS `0` `version` GS.
pub open spec fn spec_macro_head(version: u8) -> Seq<u8> {
    seq![91u8, 41u8, 62u8, 30u8, 48u8, version, 29u8]
}

/// Trailer that a macro codeword stands for: RS EOT.
pub open spec fn spec_macro_trail() -> Seq<u8> {
    seq![30u8, 4u8]
}

/// Appends the macro header `[)>` RS `0` `version` GS.
pub fn push_macro_head(out: &mut Vec<u8>, version: u8)
    ensures
        final(out)@ == old(out)@ + spec_macro_head(version),
{
    out.push(91);
    out.push(41);
    out.push(62);
    out.push(30);
    out.push(48);
    out.push(version);
    out.push(29);
    proof { assert(final(out)@ =~= old(out)@ + spec_macro_head(version)); }
}

/// Appends the macro trailer RS EOT.
pub fn push_macro_trail(out: &mut Vec<u8>)
    ensures
        final(out)@ == old(out)@ + spec_macro_trail(),
{
    out.push(30);
    out.push(4);
    proof { assert(final(out)@ =~= old(out)@ + spec_macro_trail()); }
}

/// Failure to encode the data part.
#[derive(Debug, Clone, PartialEq, Eq)]
pub enum DataEncodingError {
    /// The data does not fit any allowed symbol size, or cannot be encoded.
    TooMuchOrIllegalData,
    /// The list of allowed symbol sizes is empty.
    SymbolListEmpty,
    /// The ECI assignment number is outside `0..=999999`.
    InvalidEci(u32),
    /// A control codeword (FNC1, ECI, Reader Programming) stands where it cannot.
    InvalidControlPosition(&'static str),
    /// The error correction codewords could not be computed.
    ErrorCorrection(crate::errorcode::ErrorEncodingError),
    /// An internal consistency check failed.
    InternalError(&'static str),
}

/// ECI codeword of the ASCII encodation.
pub const ECI: u8 = 241;

/// The codewords after the ECI codeword that give the assignment number
/// `eci` (at most 999999): one, two or three codewords.
pub open spec fn spec_eci_codewords(eci: u32) -> Seq<u8> {
    if eci <= 126 {
        seq![(eci + 1) as u8]
    } else if eci <= 16382 {
        seq![((eci - 127) / 254 + 128) as u8, ((eci - 127) % 254 + 1) as u8]
    } else {
        seq![((eci - 16383) / 64516 + 192) as u8, (((eci - 16383) / 254) % 254 + 1) as u8,
            ((eci - 16383) % 254 + 1) as u8]
    }
}

/// Appends the ECI codeword and the codewords of the assignment number.
///
/// # Errors
///
/// Fails with [DataEncodingError::InvalidEci] when `eci` exceeds 999999.
pub fn write_eci_codewords(codewords: &mut Vec<u8>, eci: u32) -> (r: Result<(), DataEncodingError>)
    ensures
        eci > 999999 ==> r == Err::<(), DataEncodingError>(DataEncodingError::InvalidEci(eci))
            && final(codewords)@ == old(codewords)@,
        eci <= 999999 ==> r is Ok && final(codewords)@ == old(codewords)@.push(ECI) + spec_eci_codewords(eci),
{
    if eci > 999999 {
        return Err(DataEncodingError::InvalidEci(eci));
    }
    codewords.push(ECI);
    if eci <= 126 {
        codewords.push((eci + 1) as u8);
    } else if eci <= 16382 {
        codewords.push(((eci - 127) / 254 + 128) as u8);
        codewords.push(((eci - 127) % 254 + 1) as u8);
    } else {
        codewords.push(((eci - 16383) / 64516 + 192) as u8);
        codewords.push((((eci - 16383) / 254) % 254 + 1) as u8);
        codewords.push(((eci - 16383) % 254 + 1) as u8);
    }
    proof {
        assert(final(codewords)@ =~= old(codewords)@.push(ECI) + spec_eci_codewords(eci));
    }
    Ok(())
}

/// Position of the `FNC1` codeword that marks the data format (7.2.4.7).
#[derive(Debug, Clone, Copy, PartialEq, Eq, Structural)]
pub enum Fnc1Position {
    /// First symbol character: the data follows the GS1 format.
    First,
    /// Second symbol character: the data follows an industry format.
    Second,
}

/// The data encodation schemes (modes) of Data Matrix.
///
/// A symbol may switch between them; each has its strengths.
#[derive(Debug, Clone, Copy, PartialEq, Eq, Structural)]
pub enum EncodationType {
    Ascii,
    C40,
    Text,
    X12,
    Edifact,
    Base256,
}

impl EncodationType {
    /// A fixed index from 0 to 5 for the encodation type.
    ///
    /// The index also orders the types by preference; smaller is preferred.
    pub fn index(&self) -> (r: usize)
        ensures
            r == (match *self {
                EncodationType::Ascii => 0usize,
                EncodationType::Base256 => 1,
                EncodationType::Edifact => 2,
                EncodationType::X12 => 3,
                EncodationType::C40 => 4,
                EncodationType::Text => 5,
            }),
    {
        match self {
            EncodationType::Ascii => 0,
            EncodationType::Base256 => 1,
            EncodationType::Edifact => 2,
            EncodationType::X12 => 3,
            EncodationType::C40 => 4,
            EncodationType::Text => 5,
        }
    }

    /// Whether the type is ASCII.
    pub fn is_ascii(&self) -> (r: bool)
        ensures
            r == (*self == EncodationType::Ascii),
    {
        match self {
            EncodationType::Ascii => true,
            _ => false,
        }
    }

    /// The codeword that latches from ASCII to this type; none for ASCII itself.
    pub fn latch_from_ascii(&self) -> (r: Option<u8>)
        ensures
            r == (match *self {
                EncodationType::Ascii => None,
                EncodationType::C40 => Some(ascii::LATCH_C40),
                EncodationType::Text => Some(ascii::LATCH_TEXT),
                EncodationType::X12 => Some(ascii::LATCH_X12),
                EncodationType::Edifact => Some(ascii::LATCH_EDIFACT),
                EncodationType::Base256 => Some(ascii::LATCH_BASE256),
            }),
    {
        match self {
            EncodationType::Ascii => None,
            EncodationType::C40 => Some(ascii::LATCH_C40),
            EncodationType::Text => Some(ascii::LATCH_TEXT),
            EncodationType::X12 => Some(ascii::LATCH_X12),
            EncodationType::Edifact => Some(ascii::LATCH_EDIFACT),
            EncodationType::Base256 => Some(ascii::LATCH_BASE256),
        }
    }
}

} // verus!
