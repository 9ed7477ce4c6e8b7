//! The errors that the encoder reports.
use vstd::prelude::*;

verus! {

/// Why an operation of the encoder could not be carried out.
#[derive(Debug, Clone, Copy, PartialEq, Eq, Structural)]
pub enum QrError {
    /// The message holds a character that no supported mode can encode.
    UnsupportedInput,
    /// No version up to 40 holds the message at the chosen level.
    Capacity,
    /// A version outside `1..=40`.
    InvalidVersion,
    /// A mask index outside `0..=7`.
    InvalidMask,
    /// An error-correction level that the symbol cannot carry.
    InvalidEC,
    /// More bits were asked for than the integer holds.
    WidthExceeded,
    /// Division by the zero element of the field.
    DivByZero,
    /// A Reed-Solomon block longer than 255 codewords.
    MessageTooLong,
}

} // verus!
