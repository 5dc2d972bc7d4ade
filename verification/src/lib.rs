//! UME-8: a self-synchronizing variable-length encoding for 21-bit scalar
//! values, together with the text-container types built on top of it.
//!
//! Every encoded byte carries explicit framing bits, so a decoder can walk a
//! byte buffer forwards or backwards and find sequence boundaries without an
//! external index. The encoder, the two decoders, and the sequence counter
//! are verified against a common mathematical model of the byte format.

use vstd::prelude::*;

pub mod decode;
pub mod encode;
pub mod framing;
pub mod laws;
pub mod lemmas;
pub mod model;
pub mod string;
pub mod text;
pub mod util;

pub use decode::{decode_forward, decode_reverse, DecodeUnchecked, ToCharUnchecked};
pub use encode::{encode, encode_all, EncodeUnchecked};
pub use string::Ume8String;
pub use text::Ume8Str;
pub use util::{count_sequences_unchecked, is_sequence_part, is_singleton};

verus! {

/// The ways an encode or a checked decode can fail.
#[derive(Clone, Copy, Debug, PartialEq, Eq, Structural)]
pub enum Ume8Error {
    /// A scalar value of more than 21 bits was handed to the encoder, or a
    /// buffer held a sequence of more than four bytes.
    OutOfRange,
    /// The buffer ended, or a new sequence began, before the end byte of the
    /// sequence being read was found.
    TruncatedSequence,
    /// Decoding began on a byte that is not the first byte of a sequence.
    UnexpectedContinuationByte,
}

} // verus!
