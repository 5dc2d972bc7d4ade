//! Byte-level utilities: classify single bytes and count the encoded
//! scalar values of a buffer without reconstructing them.

use vstd::prelude::*;

use crate::framing::{is_singleton_byte, MASK_SEQ, MASK_SEQ_START};
use crate::lemmas::lemma_count_decode;
use crate::model::{buf_ok, count_spec, decode_spec};

verus! {

/// True when the byte belongs to a multi-byte sequence.
pub fn is_sequence_part(byte: &u8) -> (r: bool)
    ensures
        r == !is_singleton_byte(*byte),
{
    let b = *byte;
    proof {
        assert((b & 0x80 != 0) == (b >= 0x80)) by (bit_vector);
    }
    b & MASK_SEQ != 0
}

/// True when the byte is a whole one-byte sequence.
pub fn is_singleton(byte: &u8) -> (r: bool)
    ensures
        r == is_singleton_byte(*byte),
{
    let b = *byte;
    proof {
        assert((b & 0x80 == 0) == (b < 0x80)) by (bit_vector);
    }
    b & MASK_SEQ == 0
}

/// Count the scalar values encoded in a buffer by counting the bytes that
/// open a sequence: singletons and start bytes. On a valid buffer this is
/// exactly the number of values a decoder would yield; on any other bytes
/// it is still the number of opening bytes, nothing more.
pub fn count_sequences_unchecked(bytes: &[u8]) -> (r: usize)
    ensures
        r == count_spec(bytes@),
        buf_ok(bytes@) ==> r == decode_spec(bytes@).len(),
{
    let ghost s = bytes@;
    let mut count: usize = 0;
    let mut i: usize = 0;
    proof {
        assert(s.skip(0) =~= s);
    }
    while i < bytes.len()
        invariant
            i <= s.len(),
            count <= i,
            s == bytes@,
            count + count_spec(s.skip(i as int)) == count_spec(s),
        decreases s.len() - i,
    {
        let b = bytes[i];
        proof {
            assert((b & 0x80 == 0 || b & 0x40 != 0) == (b < 0x80 || b >= 0xC0)) by (bit_vector);
            assert(s.skip(i as int)[0] == s[i as int]);
            assert(s.skip(i as int).skip(1) =~= s.skip(i as int + 1));
        }
        if b & MASK_SEQ == 0 || b & MASK_SEQ_START != 0 {
            count = count + 1;
        }
        i = i + 1;
    }
    proof {
        assert(s.skip(s.len() as int).len() == 0);
        if buf_ok(s) {
            lemma_count_decode(s);
        }
    }
    count
}

} // verus!
