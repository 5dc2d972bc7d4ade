//! The encoder: one scalar value to its byte sequence, a whole string of
//! values to a buffer, and a streaming encoder that hands the buffer out
//! one byte at a time.

use vstd::prelude::*;

use crate::framing::{in_range, SCALAR_LIMIT};
use crate::lemmas::{lemma_encode_seq_push, lemma_encoding_wf};
use crate::model::{all_in_range, enc_len, encode_seq, encoding_of};
use crate::Ume8Error;

verus! {

/// Build the byte sequence of one in-range scalar value.
pub(crate) fn encode_scalar(v: u32) -> (r: Vec<u8>)
    requires
        in_range(v),
    ensures
        r@ == encoding_of(v),
{
    let mut out: Vec<u8> = Vec::new();
    if v < 0x80 {
        out.push(v as u8);
        proof {
            assert(out@ =~= encoding_of(v));
        }
    } else if v < 0x800 {
        out.push((0xC0 + v / 32) as u8);
        out.push((0xA0 + v % 32) as u8);
        proof {
            assert(out@ =~= encoding_of(v));
        }
    } else if v < 0x1_0000 {
        out.push((0xC0 + v / 1024) as u8);
        out.push((0x80 + (v / 32) % 32) as u8);
        out.push((0xA0 + v % 32) as u8);
        proof {
            assert(out@ =~= encoding_of(v));
        }
    } else {
        out.push((0xC0 + v / 32768) as u8);
        out.push((0x80 + (v / 1024) % 32) as u8);
        out.push((0x80 + (v / 32) % 32) as u8);
        out.push((0xA0 + v % 32) as u8);
        proof {
            assert(out@ =~= encoding_of(v));
        }
    }
    out
}

/// Encode one scalar value, or report that it does not fit in 21 bits.
/// The encoding is one byte for values under 128, two under 2^11, three
/// under 2^16, four under 2^21.
pub fn encode(value: u32) -> (r: Result<Vec<u8>, Ume8Error>)
    ensures
        in_range(value) ==> r is Ok && r->Ok_0@ == encoding_of(value) && r->Ok_0@.len() == enc_len(
            value,
        ),
        !in_range(value) ==> r == Err::<Vec<u8>, Ume8Error>(Ume8Error::OutOfRange),
{
    if value < SCALAR_LIMIT {
        proof {
            lemma_encoding_wf(value);
        }
        Ok(encode_scalar(value))
    } else {
        Err(Ume8Error::OutOfRange)
    }
}

/// Encode a string of scalar values into one buffer, or report the first
/// value that does not fit in 21 bits.
pub fn encode_all(values: &[u32]) -> (r: Result<Vec<u8>, Ume8Error>)
    ensures
        all_in_range(values@) ==> r is Ok && r->Ok_0@ == encode_seq(values@),
        !all_in_range(values@) ==> r == Err::<Vec<u8>, Ume8Error>(Ume8Error::OutOfRange),
{
    let mut out: Vec<u8> = Vec::new();
    let mut i: usize = 0;
    while i < values.len()
        invariant
            i <= values@.len(),
            forall|j: int| 0 <= j < i ==> in_range(#[trigger] values@[j]),
            out@ == encode_seq(values@.take(i as int)),
        decreases values@.len() - i,
    {
        let v = values[i];
        if v >= SCALAR_LIMIT {
            assert(!in_range(values@[i as int]));
            return Err(Ume8Error::OutOfRange);
        }
        let mut e = encode_scalar(v);
        out.append(&mut e);
        proof {
            lemma_encode_seq_push(values@.take(i as int), v);
            assert(values@.take(i as int).push(v) =~= values@.take(i as int + 1));
        }
        i = i + 1;
    }
    proof {
        assert(values@.take(values@.len() as int) =~= values@);
    }
    Ok(out)
}

/// A streaming encoder over a string of scalar values: each call of
/// [`EncodeUnchecked::next`] hands out the next byte of the encoded buffer,
/// buffering at most one sequence between calls. All values must be in the
/// 21-bit range before encoding begins.
#[derive(Clone)]
pub struct EncodeUnchecked {
    /// The scalar values being encoded.
    pub values: Vec<u32>,
    /// How many values have been taken from `values`.
    pub vi: usize,
    /// The bytes of the sequence currently being handed out.
    pub pending: Vec<u8>,
    /// How many bytes of `pending` have been handed out.
    pub pi: usize,
}

impl EncodeUnchecked {
    /// The encoder's cursors sit inside its buffers and every value still
    /// to encode is in range.
    pub open spec fn wf(self) -> bool {
        &&& self.vi <= self.values@.len()
        &&& self.pi <= self.pending@.len()
        &&& all_in_range(self.values@.skip(self.vi as int))
    }

    /// The bytes the encoder has still to hand out: the rest of the current
    /// sequence, then the encodings of the remaining values.
    pub open spec fn stream_rest(self) -> Seq<u8> {
        self.pending@.skip(self.pi as int) + encode_seq(self.values@.skip(self.vi as int))
    }

    /// Start encoding a string of in-range scalar values.
    pub fn new(values: Vec<u32>) -> (r: Self)
        requires
            all_in_range(values@),
        ensures
            r.wf(),
            r.stream_rest() == encode_seq(values@),
    {
        let r = EncodeUnchecked { values, vi: 0, pending: Vec::new(), pi: 0 };
        proof {
            assert(r.values@.skip(0) =~= r.values@);
            assert(r.stream_rest() =~= encode_seq(r.values@));
        }
        r
    }

    /// Load the encoding of one value as the pending sequence.
    fn set_data(&mut self, data: u32)
        requires
            in_range(data),
        ensures
            final(self).pending@ == encoding_of(data),
            final(self).pi == 0,
            final(self).values == old(self).values,
            final(self).vi == old(self).vi,
    {
        self.pending = encode_scalar(data);
        self.pi = 0;
    }

    /// The next byte of the encoded buffer, or `None` when every value has
    /// been fully handed out.
    pub fn next(&mut self) -> (r: Option<u8>)
        requires
            old(self).wf(),
        ensures
            final(self).wf(),
            old(self).stream_rest().len() == 0 ==> r is None
                && final(self).stream_rest().len() == 0,
            old(self).stream_rest().len() > 0 ==> r == Some(old(self).stream_rest()[0])
                && final(self).stream_rest() == old(self).stream_rest().skip(1),
    {
        let ghost pend0 = self.pending@.skip(self.pi as int);
        let ghost vals0 = self.values@.skip(self.vi as int);
        if self.pi == self.pending.len() {
            assert(pend0.len() == 0);
            if self.vi == self.values.len() {
                assert(vals0.len() == 0);
                assert(old(self).stream_rest().len() == 0);
                return None;
            }
            let v = self.values[self.vi];
            self.vi = self.vi + 1;
            proof {
                assert(in_range(vals0[0]));
                assert(vals0[0] == v);
                assert(vals0.skip(1) =~= self.values@.skip(self.vi as int));
                assert(encode_seq(vals0) == encoding_of(v) + encode_seq(vals0.skip(1)));
                lemma_encoding_wf(v);
            }
            proof {
                assert forall|j: int| 0 <= j < vals0.skip(1).len() implies in_range(
                    #[trigger] vals0.skip(1)[j],
                ) by {
                    assert(vals0.skip(1)[j] == vals0[j + 1]);
                }
            }
            if v < 0x80 {
                proof {
                    assert(encoding_of(v) =~= seq![v as u8]);
                    assert(old(self).stream_rest() =~= encode_seq(vals0));
                    assert(self.stream_rest() =~= encode_seq(vals0.skip(1)));
                    assert(old(self).stream_rest()[0] == v as u8);
                    assert(self.stream_rest() =~= old(self).stream_rest().skip(1));
                }
                return Some(v as u8);
            }
            self.set_data(v);
            proof {
                assert(self.pending@.skip(0) =~= encoding_of(v));
                assert(old(self).stream_rest() =~= encode_seq(vals0));
                assert(self.stream_rest() =~= old(self).stream_rest());
            }
        }
        let ghost pre = self.stream_rest();
        assert(pre =~= old(self).stream_rest());
        assert(pre.len() > 0);
        let b = self.pending[self.pi];
        self.pi = self.pi + 1;
        proof {
            assert(b == pre[0]);
            assert(self.stream_rest() =~= pre.skip(1));
        }
        Some(b)
    }
}

} // verus!
