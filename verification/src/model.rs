//! The mathematical model of the encoding: what a buffer of bytes means.
//!
//! The model has three layers. [`value_of`] gives the scalar value carried by
//! one sequence of bytes, and [`wf_sequence`] says which byte strings are
//! sequences at all. [`decode_result`] parses a whole buffer front to back
//! into its scalar values, or into the error a checked decoder must report;
//! [`decode_result_back`] does the same back to front. [`encoding_of`] and
//! [`encode_seq`] build the buffer a value, or a string of values, encodes to.
//!
//! All executable contracts of the crate are stated over these functions.

use vstd::prelude::*;

use crate::framing::{
    data_bits, in_range, is_cont_byte, is_end_byte, is_singleton_byte, is_start_byte,
    opens_sequence,
};
use crate::Ume8Error;

verus! {

/// Powers of 32: the weight of a data chunk that stands `k` bytes before the
/// end of its sequence, each later byte carrying 5 bits.
pub open spec fn pow32(k: nat) -> int
    decreases k,
{
    if k == 0 {
        1
    } else {
        32 * pow32((k - 1) as nat)
    }
}

/// The scalar value carried by one encoded sequence: each byte contributes
/// its data bits, the earlier bytes weighing 32 times more per position.
pub open spec fn value_of(s: Seq<u8>) -> int
    decreases s.len(),
{
    if s.len() == 0 {
        0
    } else {
        value_of(s.drop_last()) * 32 + data_bits(s.last())
    }
}

/// A well-formed single sequence: either one singleton byte, or a start byte,
/// interior continuation bytes, and an end byte — at most four bytes in all.
pub open spec fn wf_sequence(s: Seq<u8>) -> bool {
    ||| (s.len() == 1 && is_singleton_byte(s[0]))
    ||| {
        &&& 2 <= s.len() <= 4
        &&& is_start_byte(s[0])
        &&& (forall|i: int| 1 <= i < s.len() - 1 ==> is_cont_byte(#[trigger] s[i]))
        &&& is_end_byte(s[s.len() - 1])
    }
}

/// How many continuation bytes stand at the front of `s`.
pub open spec fn cont_run_len(s: Seq<u8>) -> nat
    decreases s.len(),
{
    if s.len() > 0 && is_cont_byte(s[0]) {
        1 + cont_run_len(s.skip(1))
    } else {
        0
    }
}

/// How many continuation bytes stand at the back of `s`.
pub open spec fn cont_run_len_back(s: Seq<u8>) -> nat
    decreases s.len(),
{
    if s.len() > 0 && is_cont_byte(s.last()) {
        1 + cont_run_len_back(s.drop_last())
    } else {
        0
    }
}

/// The length of the first sequence of a buffer: one byte for a singleton,
/// otherwise the start byte, the run of continuation bytes after it, and the
/// end byte. On a buffer whose first sequence is cut off this exceeds the
/// part of the sequence that is present.
pub open spec fn first_len(s: Seq<u8>) -> int {
    if s.len() == 0 {
        0
    } else if is_singleton_byte(s[0]) {
        1
    } else {
        2 + cont_run_len(s.skip(1)) as int
    }
}

/// The length of the last sequence of a buffer, measured from the back.
pub open spec fn last_len(s: Seq<u8>) -> int {
    if s.len() == 0 {
        0
    } else if is_singleton_byte(s.last()) {
        1
    } else {
        2 + cont_run_len_back(s.drop_last()) as int
    }
}

/// Parse a buffer front to back: the scalar values it encodes, or the error
/// a forward decoder reports. A buffer that ends, or starts a new sequence,
/// before the pending end byte is truncated; a buffer whose first byte is a
/// continuation or end byte starts in the middle of a sequence; a sequence
/// of more than four bytes would carry more than 21 bits.
pub open spec fn decode_result(s: Seq<u8>) -> Result<Seq<u32>, Ume8Error>
    decreases s.len(),
{
    if s.len() == 0 {
        Ok(Seq::empty())
    } else if is_singleton_byte(s[0]) {
        match decode_result(s.skip(1)) {
            Ok(vs) => Ok(seq![s[0] as u32] + vs),
            Err(e) => Err(e),
        }
    } else if is_start_byte(s[0]) {
        let n = 2 + cont_run_len(s.skip(1)) as int;
        if n > s.len() {
            Err(Ume8Error::TruncatedSequence)
        } else if !is_end_byte(s[n - 1]) {
            Err(Ume8Error::TruncatedSequence)
        } else if n > 4 {
            Err(Ume8Error::OutOfRange)
        } else {
            match decode_result(s.skip(n)) {
                Ok(vs) => Ok(seq![value_of(s.take(n)) as u32] + vs),
                Err(e) => Err(e),
            }
        }
    } else {
        Err(Ume8Error::UnexpectedContinuationByte)
    }
}

/// Parse a buffer back to front: the scalar values in reverse order, or the
/// error a reverse decoder reports. The error classes mirror the forward
/// ones: a buffer whose last byte is a continuation or start byte ends in
/// the middle of a sequence.
pub open spec fn decode_result_back(s: Seq<u8>) -> Result<Seq<u32>, Ume8Error>
    decreases s.len(),
{
    if s.len() == 0 {
        Ok(Seq::empty())
    } else if is_singleton_byte(s.last()) {
        match decode_result_back(s.drop_last()) {
            Ok(vs) => Ok(seq![s.last() as u32] + vs),
            Err(e) => Err(e),
        }
    } else if is_end_byte(s.last()) {
        let n = 2 + cont_run_len_back(s.drop_last()) as int;
        if n > s.len() {
            Err(Ume8Error::TruncatedSequence)
        } else if !is_start_byte(s[s.len() - n]) {
            Err(Ume8Error::TruncatedSequence)
        } else if n > 4 {
            Err(Ume8Error::OutOfRange)
        } else {
            match decode_result_back(s.take(s.len() - n)) {
                Ok(vs) => Ok(seq![value_of(s.skip(s.len() - n)) as u32] + vs),
                Err(e) => Err(e),
            }
        }
    } else {
        Err(Ume8Error::UnexpectedContinuationByte)
    }
}

/// A valid buffer: a concatenation of complete, well-formed sequences.
pub open spec fn buf_ok(s: Seq<u8>) -> bool {
    decode_result(s) is Ok
}

/// The scalar values a valid buffer encodes, in buffer order.
pub open spec fn decode_spec(s: Seq<u8>) -> Seq<u32> {
    decode_result(s)->Ok_0
}

/// How many bytes of a buffer open a sequence. On a valid buffer this is the
/// number of encoded scalar values.
pub open spec fn count_spec(s: Seq<u8>) -> nat
    decreases s.len(),
{
    if s.len() == 0 {
        0
    } else {
        (if opens_sequence(s[0]) {
            1nat
        } else {
            0nat
        }) + count_spec(s.skip(1))
    }
}

/// How many bytes the encoding of a scalar value takes: the smallest
/// sequence whose data bits hold the value.
pub open spec fn enc_len(v: u32) -> int {
    if v < 0x80 {
        1
    } else if v < 0x800 {
        2
    } else if v < 0x1_0000 {
        3
    } else {
        4
    }
}

/// The encoding of one scalar value: a singleton for values under 128, else
/// a start byte with the highest 6-bit chunk and continuation and end bytes
/// with the lower 5-bit chunks.
pub open spec fn encoding_of(v: u32) -> Seq<u8> {
    if v < 0x80 {
        seq![v as u8]
    } else if v < 0x800 {
        seq![(0xC0 + v / 32) as u8, (0xA0 + v % 32) as u8]
    } else if v < 0x1_0000 {
        seq![(0xC0 + v / 1024) as u8, (0x80 + (v / 32) % 32) as u8, (0xA0 + v % 32) as u8]
    } else {
        seq![
            (0xC0 + v / 32768) as u8,
            (0x80 + (v / 1024) % 32) as u8,
            (0x80 + (v / 32) % 32) as u8,
            (0xA0 + v % 32) as u8,
        ]
    }
}

/// Every scalar value of a string is in the 21-bit range.
pub open spec fn all_in_range(vs: Seq<u32>) -> bool {
    forall|i: int| 0 <= i < vs.len() ==> in_range(#[trigger] vs[i])
}

/// The encoding of a string of scalar values: the sequences laid end to end.
pub open spec fn encode_seq(vs: Seq<u32>) -> Seq<u8>
    decreases vs.len(),
{
    if vs.len() == 0 {
        Seq::empty()
    } else {
        encoding_of(vs[0]) + encode_seq(vs.skip(1))
    }
}

} // verus!
