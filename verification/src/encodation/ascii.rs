//! Codewords of the ASCII encodation.
use vstd::prelude::*;

verus! {

/// First padding codeword.
pub const PAD: u8 = 129;

/// Latch to C40.
pub const LATCH_C40: u8 = 230;

/// Latch to Base256.
pub const LATCH_BASE256: u8 = 231;

/// Function character 1.
pub const FNC1: u8 = 232;

/// Structured Append.
pub const STRUCTURED_APPEND: u8 = 233;

/// Upper Shift: the next data codeword stands for a byte in 128..=255.
pub const UPPER_SHIFT: u8 = 235;

/// Latch to ANSI X12.
pub const LATCH_X12: u8 = 238;

/// Latch to Text.
pub const LATCH_TEXT: u8 = 239;

/// Latch to EDIFACT.
pub const LATCH_EDIFACT: u8 = 240;

/// Extended Channel Interpretation.
pub const ECI: u8 = 241;

} // verus!
