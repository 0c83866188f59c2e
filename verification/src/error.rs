//! The failures of encoding and decoding.
use vstd::prelude::*;

verus! {

/// Why a text could not be encoded or a byte buffer could not be decoded.
#[derive(Debug, Clone, Copy, PartialEq, Eq, Structural)]
pub enum CodecError {
    /// The text has no symbols, or the stored table of counts has no entries.
    EmptyInput,
    /// The text holds the null character, which the format reserves as the
    /// end of the table of counts.
    UnsupportedSymbol,
    /// A count does not fit its counter: a symbol occurs more than
    /// `u32::MAX` times, or the coded message has more bits than the length
    /// field and this machine's bit buffers can describe.
    CountOverflow,
    /// The buffer does not follow the layout. `offset` is the index of the
    /// first byte at which it departs from it.
    MalformedArtifact { offset: usize },
    /// The coded message does not end on a symbol boundary of the code.
    CorruptStream,
}

} // verus!
