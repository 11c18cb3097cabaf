//! The ways a transcoding pass can fail.
use vstd::prelude::*;

verus! {

#[derive(Clone, Copy, Debug, PartialEq, Eq, Structural)]
pub enum TranscodeError {
    /// A message's bytes, or the still image inside it, could not be decoded.
    DecodeError,
    /// The encoder could not be made, rejected a frame, or produced more than
    /// a message can carry.
    EncodeError,
    /// A frame's size differs from the size the topic's encoder was made for.
    DimensionMismatch { expected_width: u32, expected_height: u32, width: u32, height: u32 },
    /// Every channel identifier is taken.
    TooManyChannels,
}

} // verus!
