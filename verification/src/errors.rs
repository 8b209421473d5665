//! Error values shared by the codecs.

use vstd::prelude::*;

verus! {

/// Everything that can go wrong while encoding or decoding.
///
/// All failures are local and non-recoverable within a call: either a full,
/// correct sequence is produced, or the call fails without a partial result.
#[derive(Clone, Copy, Debug, PartialEq, Eq, Structural)]
pub enum CodecError {
    /// An encoder met an input symbol that the supplied alphabet or ordering
    /// does not contain.
    SymbolNotInAlphabet,
    /// A decoder met an entry whose dictionary or ordering index lies out of
    /// bounds.
    IndexOutOfRange,
    /// An LZ77 decoder met an entry whose backward offset reaches before the
    /// start of the decoded output, or a copy of positive length at offset
    /// zero.
    OffsetOutOfRange,
    /// A deserializer ran out of bytes before the frame was complete.
    UnexpectedEnd,
    /// A deserializer met a field width other than 1, 2, 4 or 8 bytes.
    InvalidWidth,
    /// A deserialized value does not fit the platform's `usize`.
    ValueOverflow,
}

impl CodecError {
    /// A short human-readable description of the error.
    pub fn describe(&self) -> (r: &'static str)
    {
        match self {
            CodecError::SymbolNotInAlphabet => "input symbol missing from the alphabet",
            CodecError::IndexOutOfRange => "entry index out of range",
            CodecError::OffsetOutOfRange => "entry offset out of range",
            CodecError::UnexpectedEnd => "unexpected end of serialized data",
            CodecError::InvalidWidth => "invalid serialized field width",
            CodecError::ValueOverflow => "serialized value too large for this platform",
        }
    }
}

} // verus!
