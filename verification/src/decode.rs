//! The decoders: a bidirectional cursor over a byte buffer that
//! reconstructs scalar values from either end, a character adapter on top
//! of it, and checked whole-buffer decoders that report exactly the errors
//! of the model instead of demanding a valid buffer up front.

use vstd::prelude::*;

use crate::framing::{data_bits, is_cont_byte, is_end_byte, is_singleton_byte, is_start_byte};
use crate::lemmas::{
    lemma_buf_ok_last, lemma_buf_ok_structure, lemma_crl_back_exact, lemma_crl_exact,
    lemma_multi_value_bound, lemma_pow32_values, lemma_value_of_peel_first,
};
use crate::model::{
    buf_ok, cont_run_len, cont_run_len_back, count_spec, decode_result, decode_result_back,
    decode_spec, first_len, last_len, pow32, value_of, wf_sequence,
};
use crate::util::count_sequences_unchecked;
use vstd::utf8::is_scalar;
use crate::Ume8Error;

verus! {

/// A decoding cursor over an owned byte buffer. The bytes between `front`
/// and `back` are the ones not yet consumed; [`DecodeUnchecked::next`]
/// takes a sequence off the front, [`DecodeUnchecked::next_back`] off the
/// back. Both demand that the remaining bytes form a valid buffer — the
/// checked [`decode_forward`] and [`decode_reverse`] decoders are the
/// entry points for untrusted bytes.
#[derive(Clone)]
pub struct DecodeUnchecked {
    /// The underlying buffer.
    pub bytes: Vec<u8>,
    /// Index of the first unconsumed byte.
    pub front: usize,
    /// Index one past the last unconsumed byte.
    pub back: usize,
}

impl DecodeUnchecked {
    /// The cursors sit inside the buffer in order.
    pub open spec fn wf(self) -> bool {
        self.front <= self.back <= self.bytes@.len()
    }

    /// The bytes not yet consumed from either end.
    pub open spec fn remaining(self) -> Seq<u8> {
        self.bytes@.subrange(self.front as int, self.back as int)
    }

    /// Start decoding a buffer from both ends.
    pub fn new(bytes: Vec<u8>) -> (r: Self)
        ensures
            r.wf(),
            r.remaining() == bytes@,
    {
        let back = bytes.len();
        let r = DecodeUnchecked { bytes, front: 0, back };
        proof {
            assert(r.remaining() =~= r.bytes@);
        }
        r
    }

    /// Decode the next scalar value off the front of the remaining bytes.
    pub fn next(&mut self) -> (r: Option<u32>)
        requires
            old(self).wf(),
            buf_ok(old(self).remaining()),
        ensures
            final(self).wf(),
            buf_ok(final(self).remaining()),
            final(self).bytes@ == old(self).bytes@,
            final(self).back == old(self).back,
            old(self).remaining().len() == 0 ==> r is None && final(self).remaining() == old(
                self,
            ).remaining(),
            old(self).remaining().len() > 0 ==> {
                &&& r == Some(decode_spec(old(self).remaining())[0])
                &&& final(self).remaining() == old(self).remaining().skip(
                    first_len(old(self).remaining()),
                )
                &&& decode_spec(final(self).remaining()) == decode_spec(
                    old(self).remaining(),
                ).skip(1)
            },
    {
        let ghost s = old(self).remaining();
        if self.front == self.back {
            proof {
                assert(s.len() == 0);
                assert(self.remaining() =~= s);
            }
            return None;
        }
        proof {
            lemma_buf_ok_structure(s);
        }
        let ghost n = first_len(s);
        let ghost base = old(self).front as int;
        let b = self.bytes[self.front];
        self.front = self.front + 1;
        proof {
            assert(b == s[0]);
        }
        if b < 0x80 {
            proof {
                assert(is_singleton_byte(s[0]));
                assert(n == 1);
                assert(self.remaining() =~= s.skip(1));
                let q = s.take(1);
                assert(q.drop_last().len() == 0 && q.last() == s[0]);
                assert(value_of(q.drop_last()) == 0);
                assert(value_of(q) == value_of(q.drop_last()) * 32 + data_bits(q.last()));
                assert(decode_spec(s)[0] == value_of(q) as u32);
            }
            return Some(b as u32);
        }
        proof {
            assert(!is_singleton_byte(s[0]));
            assert(wf_sequence(s.take(n)));
            assert(s.take(n)[0] == s[0]);
            assert(is_start_byte(s[0]));
            assert(2 <= n <= 4);
        }
        let mut data: u32 = (b - 0xC0) as u32;
        proof {
            let q1 = s.take(1);
            assert(q1.drop_last().len() == 0 && q1.last() == s[0]);
            assert(value_of(q1.drop_last()) == 0);
            assert(value_of(q1) == value_of(q1.drop_last()) * 32 + data_bits(q1.last()));
            assert(data as int == value_of(s.take(1)));
        }
        loop
            invariant_except_break
                self.front <= base + n - 1,
            invariant
                self.bytes@ == old(self).bytes@,
                self.back == old(self).back,
                self.wf(),
                base == old(self).front,
                s == self.bytes@.subrange(base, self.back as int),
                n == first_len(s),
                2 <= n <= 4,
                n <= s.len(),
                wf_sequence(s.take(n)),
                base + 1 <= self.front <= base + n,
                data as int == value_of(s.take(self.front - base)),
            ensures
                self.bytes@ == old(self).bytes@,
                self.back == old(self).back,
                base == old(self).front,
                self.front == base + n,
                data as int == value_of(s.take(n)),
            decreases base + n - self.front,
        {
            let ghost k = self.front - base;
            proof {
                // the byte about to be read is inside the first sequence
                assert(s[k] == s.take(n)[k]);
                if k < n - 1 {
                    assert(is_cont_byte(s[k]));
                } else {
                    assert(s.take(n)[n - 1] == s[n - 1]);
                    assert(is_end_byte(s[k]));
                }
                // bound on the partial value, so the shift cannot overflow
                let q = s.take(k);
                assert(q[0] == s[0]);
                assert forall|i: int|
                    1 <= i < q.len() implies !is_singleton_byte(#[trigger] q[i]) && !is_start_byte(
                    q[i],
                ) by {
                    assert(q[i] == s.take(n)[i]);
                    assert(is_cont_byte(q[i]));
                }
                lemma_multi_value_bound(q);
                lemma_pow32_values();
                assert(pow32((k - 1) as nat) <= 1024) by {
                    if k == 1 {
                    } else if k == 2 {
                    } else {
                        assert(k == 3);
                    }
                }
                assert(data < 65536);
            }
            let nb = self.bytes[self.front];
            self.front = self.front + 1;
            proof {
                assert(nb == s[k]);
                let q2 = s.take(k + 1);
                assert(q2.drop_last() =~= s.take(k as int));
                assert(q2.last() == s[k]);
                assert(value_of(q2) == value_of(s.take(k as int)) * 32 + data_bits(s[k]));
            }
            if nb >= 0xA0 {
                proof {
                    assert(is_end_byte(s[k]));
                    assert(k == n - 1);
                    assert(data_bits(s[k]) == nb - 0xA0);
                }
                data = data * 32 + (nb - 0xA0) as u32;
                break ;
            } else {
                proof {
                    assert(is_cont_byte(s[k]));
                    assert(k < n - 1);
                    assert(data_bits(s[k]) == nb - 0x80);
                }
                data = data * 32 + (nb - 0x80) as u32;
            }
        }
        proof {
            assert(self.remaining() =~= s.skip(n));
            assert(decode_spec(s)[0] == value_of(s.take(n)) as u32);
            assert(0 <= value_of(s.take(n)) < 0x20_0000);
        }
        Some(data)
    }

    /// Decode the last scalar value off the back of the remaining bytes.
    /// Walking the buffer this way yields exactly the forward values in
    /// reverse order.
    pub fn next_back(&mut self) -> (r: Option<u32>)
        requires
            old(self).wf(),
            buf_ok(old(self).remaining()),
        ensures
            final(self).wf(),
            buf_ok(final(self).remaining()),
            final(self).bytes@ == old(self).bytes@,
            final(self).front == old(self).front,
            old(self).remaining().len() == 0 ==> r is None && final(self).remaining() == old(
                self,
            ).remaining(),
            old(self).remaining().len() > 0 ==> {
                &&& r == Some(decode_spec(old(self).remaining()).last())
                &&& final(self).remaining() == old(self).remaining().take(
                    old(self).remaining().len() - last_len(old(self).remaining()),
                )
                &&& decode_spec(final(self).remaining()) == decode_spec(
                    old(self).remaining(),
                ).drop_last()
            },
    {
        let ghost s = old(self).remaining();
        if self.front == self.back {
            proof {
                assert(s.len() == 0);
                assert(self.remaining() =~= s);
            }
            return None;
        }
        proof {
            lemma_buf_ok_last(s);
        }
        let ghost k = last_len(s);
        let ghost base = old(self).front as int;
        let ghost m = s.len() - k;
        let ghost z = s.skip(m);
        let b = self.bytes[self.back - 1];
        self.back = self.back - 1;
        proof {
            assert(b == s[s.len() - 1]);
            assert(s.last() == s[s.len() - 1]);
        }
        if b < 0x80 {
            proof {
                assert(is_singleton_byte(s.last()));
                assert(k == 1);
                assert(z.len() == 1);
                assert(z.drop_last().len() == 0 && z.last() == s.last());
                assert(value_of(z.drop_last()) == 0);
                assert(value_of(z) == value_of(z.drop_last()) * 32 + data_bits(z.last()));
                assert(self.remaining() =~= s.take(s.len() - 1));
            }
            return Some(b as u32);
        }
        proof {
            assert(!is_singleton_byte(s.last()));
            assert(wf_sequence(z));
            if z.len() == 1 {
                assert(z[0] == s.last());
                assert(is_singleton_byte(s.last()));
            }
            assert(2 <= k <= 4);
            assert(z[k - 1] == s.last());
            assert(is_end_byte(s.last()));
            assert(b - 0xA0 == data_bits(s.last()));
            let suf = s.subrange(s.len() - 1, s.len() as int);
            assert(suf.drop_last().len() == 0 && suf.last() == s.last());
            assert(value_of(suf.drop_last()) == 0);
            assert(value_of(suf) == value_of(suf.drop_last()) * 32 + data_bits(suf.last()));
            lemma_pow32_values();
        }
        let mut data: u32 = (b - 0xA0) as u32;
        let mut weight: u32 = 32;
        loop
            invariant_except_break
                base + m + 1 <= self.back,
                data < weight,
                weight as int == pow32((s.len() - (self.back - base)) as nat),
            invariant
                self.bytes@ == old(self).bytes@,
                self.front == old(self).front,
                self.wf(),
                base == old(self).front,
                0 <= base,
                base + s.len() <= self.bytes@.len(),
                s == self.bytes@.subrange(base, base + s.len()),
                k == last_len(s),
                2 <= k <= 4,
                k <= s.len(),
                m == s.len() - k,
                z == s.skip(m),
                wf_sequence(z),
                base + m <= self.back <= base + s.len() - 1,
                data as int == value_of(s.subrange(self.back - base, s.len() as int)),
                weight <= 32768,
            ensures
                self.bytes@ == old(self).bytes@,
                self.front == old(self).front,
                base == old(self).front,
                self.back == base + m,
                data as int == value_of(s.skip(m)),
            decreases self.back,
        {
            let pb = self.bytes[self.back - 1];
            self.back = self.back - 1;
            let ghost j = self.back - base;
            proof {
                assert(0 <= j && j < s.len());
                assert(self.bytes@.subrange(base, base + s.len())[j] == self.bytes@[base + j]);
                assert(s[j] == self.bytes@[base + j]);
                assert(pb == s[j]);
                assert(m <= j <= s.len() - 2);
                if j > m {
                    assert(s[j] == z[j - m]);
                    assert(1 <= j - m < k - 1);
                    assert(is_cont_byte(s[j]));
                } else {
                    assert(s[j] == z[0]);
                    assert(is_start_byte(s[j]));
                }
                let suf = s.subrange(j, s.len() as int);
                lemma_value_of_peel_first(suf);
                assert(suf[0] == s[j]);
                assert(suf.skip(1) =~= s.subrange(j + 1, s.len() as int));
                assert(pow32((suf.len() - 1) as nat) == weight);
                lemma_pow32_values();
            }
            if pb >= 0xC0 {
                proof {
                    assert(is_start_byte(s[j]));
                    assert(j == m);
                    assert(data_bits(s[j]) == pb - 0xC0);
                    assert((pb - 0xC0) < 64);
                    assert((pb - 0xC0) as int * weight as int <= 63 * 32768) by (nonlinear_arith)
                        requires
                            (pb - 0xC0) < 64,
                            0 <= weight <= 32768,
                    ;
                }
                data = data + (pb - 0xC0) as u32 * weight;
                proof {
                    assert(s.subrange(m, s.len() as int) =~= s.skip(m));
                }
                break ;
            } else {
                proof {
                    assert(is_cont_byte(s[j]));
                    assert(j > m);
                    assert(data_bits(s[j]) == pb - 0x80);
                    assert((pb - 0x80) < 32);
                    assert((pb - 0x80) as int * weight as int <= 31 * weight as int)
                        by (nonlinear_arith)
                        requires
                            (pb - 0x80) < 32,
                            0 <= weight,
                    ;
                    // the new weight stays within the four-byte budget
                    assert(s.len() - j <= k - 1);
                    assert(pow32((s.len() - j) as nat) <= 32768) by {
                        lemma_pow32_values();
                        if s.len() - j == 1 {
                        } else if s.len() - j == 2 {
                        } else {
                            assert(s.len() - j == 3);
                        }
                    }
                }
                data = data + (pb - 0x80) as u32 * weight;
                weight = weight * 32;
            }
        }
        proof {
            assert(self.remaining() =~= s.take(m));
            assert(decode_spec(s).last() == value_of(s.skip(m)) as u32);
            assert(0 <= value_of(s.skip(m)) < 0x20_0000);
        }
        Some(data)
    }

    /// The number of scalar values left, bounded from both sides: the
    /// shortest sequence is one byte and the longest four, so between a
    /// quarter of the remaining bytes (rounded up) and all of them.
    pub fn size_hint(&self) -> (r: (usize, Option<usize>))
        requires
            self.wf(),
        ensures
            r.0 == (self.remaining().len() + 3) / 4,
            r.1 == Some(self.remaining().len() as usize),
            buf_ok(self.remaining()) ==> r.0 <= decode_spec(self.remaining()).len()
                <= self.remaining().len(),
    {
        let rem = self.back - self.front;
        let lower = rem / 4 + if rem % 4 != 0 {
            1
        } else {
            0
        };
        proof {
            if buf_ok(self.remaining()) {
                crate::lemmas::lemma_decode_len_bounds(self.remaining());
            }
        }
        (lower, Some(rem))
    }

    /// Count the remaining scalar values without reconstructing them, by
    /// counting the bytes that open a sequence.
    pub fn count(self) -> (r: usize)
        requires
            self.wf(),
        ensures
            r == count_spec(self.remaining()),
            buf_ok(self.remaining()) ==> r == decode_spec(self.remaining()).len(),
    {
        let s: &[u8] = self.bytes.as_slice();
        let part: &[u8] = &s[self.front..self.back];
        proof {
            assert(part@ == self.remaining());
        }
        count_sequences_unchecked(part)
    }

    /// The last remaining scalar value, consuming the decoder.
    pub fn last(self) -> (r: Option<u32>)
        requires
            self.wf(),
            buf_ok(self.remaining()),
        ensures
            self.remaining().len() == 0 ==> r is None,
            self.remaining().len() > 0 ==> r == Some(decode_spec(self.remaining()).last()),
    {
        let mut d = self;
        d.next_back()
    }
}

/// Relies on char::from_u32: `Some` exactly for the Unicode scalar values —
/// below 0xD800 or between 0xE000 and 0x10FFFF — and the returned character
/// has scalar value `v`.
#[verifier::external_body]
fn char_from_u32(v: u32) -> (r: Option<char>)
    ensures
        r is Some <==> is_scalar(v),
        r matches Some(c) ==> c as u32 == v,
{
    char::from_u32(v)
}

/// A decoding cursor that maps each scalar value to the character with that
/// value. The decoded values must all be Unicode scalar values; a buffer of
/// arbitrary in-range values is decoded with [`DecodeUnchecked`] instead.
#[derive(Clone)]
pub struct ToCharUnchecked {
    /// The underlying scalar-value decoder.
    pub inner: DecodeUnchecked,
}

impl ToCharUnchecked {
    /// The inner cursor is well formed.
    pub open spec fn wf(self) -> bool {
        self.inner.wf()
    }

    /// The bytes not yet consumed from either end.
    pub open spec fn remaining(self) -> Seq<u8> {
        self.inner.remaining()
    }

    /// Every value still to decode is a Unicode scalar value.
    pub open spec fn scalars_ok(self) -> bool {
        forall|i: int|
            0 <= i < decode_spec(self.remaining()).len() ==> is_scalar(
                #[trigger] decode_spec(self.remaining())[i],
            )
    }

    /// Wrap a scalar-value decoder.
    pub fn new(inner: DecodeUnchecked) -> (r: Self)
        ensures
            r.inner == inner,
    {
        ToCharUnchecked { inner }
    }

    /// Decode the next character off the front of the remaining bytes.
    pub fn next(&mut self) -> (r: Option<char>)
        requires
            old(self).wf(),
            buf_ok(old(self).remaining()),
            old(self).scalars_ok(),
        ensures
            final(self).wf(),
            buf_ok(final(self).remaining()),
            final(self).scalars_ok(),
            old(self).remaining().len() == 0 ==> r is None && final(self).remaining() == old(
                self,
            ).remaining(),
            old(self).remaining().len() > 0 ==> {
                &&& r matches Some(c) && c as u32 == decode_spec(old(self).remaining())[0]
                &&& decode_spec(final(self).remaining()) == decode_spec(
                    old(self).remaining(),
                ).skip(1)
            },
    {
        let ghost s = old(self).inner.remaining();
        let v_opt = self.inner.next();
        match v_opt {
            None => None,
            Some(v) => {
                proof {
                    lemma_buf_ok_structure(s);
                    assert(v == decode_spec(s)[0]);
                    assert(is_scalar(v));
                    assert forall|i: int|
                        0 <= i < decode_spec(self.remaining()).len() implies is_scalar(
                        #[trigger] decode_spec(self.remaining())[i],
                    ) by {
                        assert(decode_spec(self.remaining())[i] == decode_spec(s).skip(1)[i]);
                        assert(decode_spec(s).skip(1)[i] == decode_spec(s)[i + 1]);
                    }
                }
                match char_from_u32(v) {
                    Some(c) => Some(c),
                    None => None,
                }
            },
        }
    }

    /// Decode the last character off the back of the remaining bytes.
    pub fn next_back(&mut self) -> (r: Option<char>)
        requires
            old(self).wf(),
            buf_ok(old(self).remaining()),
            old(self).scalars_ok(),
        ensures
            final(self).wf(),
            buf_ok(final(self).remaining()),
            final(self).scalars_ok(),
            old(self).remaining().len() == 0 ==> r is None && final(self).remaining() == old(
                self,
            ).remaining(),
            old(self).remaining().len() > 0 ==> {
                &&& r matches Some(c) && c as u32 == decode_spec(old(self).remaining()).last()
                &&& decode_spec(final(self).remaining()) == decode_spec(
                    old(self).remaining(),
                ).drop_last()
            },
    {
        let ghost s = old(self).inner.remaining();
        let v_opt = self.inner.next_back();
        match v_opt {
            None => None,
            Some(v) => {
                proof {
                    lemma_buf_ok_structure(s);
                    assert(v == decode_spec(s).last());
                    assert(decode_spec(s).last() == decode_spec(s)[decode_spec(s).len() - 1]);
                    assert(is_scalar(v));
                    assert forall|i: int|
                        0 <= i < decode_spec(self.remaining()).len() implies is_scalar(
                        #[trigger] decode_spec(self.remaining())[i],
                    ) by {
                        assert(decode_spec(self.remaining())[i] == decode_spec(s).drop_last()[i]);
                        assert(decode_spec(s).drop_last()[i] == decode_spec(s)[i]);
                    }
                }
                match char_from_u32(v) {
                    Some(c) => Some(c),
                    None => None,
                }
            },
        }
    }

    /// The number of characters left, bounded from both sides as for the
    /// scalar-value decoder.
    pub fn size_hint(&self) -> (r: (usize, Option<usize>))
        requires
            self.wf(),
        ensures
            r.0 == (self.remaining().len() + 3) / 4,
            r.1 == Some(self.remaining().len() as usize),
            buf_ok(self.remaining()) ==> r.0 <= decode_spec(self.remaining()).len()
                <= self.remaining().len(),
    {
        self.inner.size_hint()
    }

    /// Count the remaining characters without reconstructing them.
    pub fn count(self) -> (r: usize)
        requires
            self.wf(),
        ensures
            r == count_spec(self.remaining()),
            buf_ok(self.remaining()) ==> r == decode_spec(self.remaining()).len(),
    {
        self.inner.count()
    }
}

/// Reconstruct the value of one well-formed multi-byte sequence lying at
/// `start .. start + n` in the buffer.
fn sequence_value(bytes: &[u8], start: usize, n: usize) -> (r: u32)
    requires
        start + n <= bytes@.len(),
        2 <= n <= 4,
        wf_sequence(bytes@.subrange(start as int, start as int + n as int)),
    ensures
        r as int == value_of(bytes@.subrange(start as int, start as int + n as int)),
{
    let ghost q = bytes@.subrange(start as int, start as int + n as int);
    proof {
        crate::lemmas::lemma_wf_value_bound(q);
        assert(q[0] == bytes@[start as int]);
        assert(is_start_byte(q[0]));
    }
    let b0 = bytes[start];
    let mut data: u32 = (b0 - 0xC0) as u32;
    proof {
        let q1 = q.take(1);
        assert(q1.drop_last().len() == 0 && q1.last() == q[0]);
        assert(value_of(q1.drop_last()) == 0);
        assert(value_of(q1) == value_of(q1.drop_last()) * 32 + data_bits(q1.last()));
        assert(data as int == value_of(q.take(1)));
    }
    let blen = bytes.len();
    let end = start + n - 1;
    let mut i: usize = start + 1;
    while i < end
        invariant
            end == start + n - 1,
            start + n <= bytes@.len(),
            2 <= n <= 4,
            q == bytes@.subrange(start as int, start as int + n as int),
            wf_sequence(q),
            start + 1 <= i <= start + n - 1,
            data as int == value_of(q.take(i - start)),
        decreases start + n - i,
    {
        let ghost k = i - start;
        proof {
            assert(q[k] == bytes@[start + k]);
            assert(is_cont_byte(q[k]));
            let p = q.take(k);
            assert(p[0] == q[0]);
            assert forall|t: int|
                1 <= t < p.len() implies !is_singleton_byte(#[trigger] p[t]) && !is_start_byte(
                p[t],
            ) by {
                assert(p[t] == q[t]);
                assert(is_cont_byte(q[t]));
            }
            lemma_multi_value_bound(p);
            lemma_pow32_values();
            assert(pow32((k - 1) as nat) <= 1024) by {
                if k == 1 {
                } else if k == 2 {
                } else {
                    assert(k == 3);
                }
            }
            assert(data < 65536);
            let q2 = q.take(k + 1);
            assert(q2.drop_last() =~= q.take(k as int));
            assert(q2.last() == q[k]);
            assert(value_of(q2) == value_of(q.take(k as int)) * 32 + data_bits(q[k]));
            assert(data_bits(q[k]) == bytes@[i as int] - 0x80);
        }
        let nb = bytes[i];
        data = data * 32 + (nb - 0x80) as u32;
        i = i + 1;
    }
    proof {
        let k = (n - 1) as int;
        assert(q[k] == bytes@[start + k]);
        assert(is_end_byte(q[k]));
        let p = q.take(k);
        assert(p[0] == q[0]);
        assert forall|t: int|
            1 <= t < p.len() implies !is_singleton_byte(#[trigger] p[t]) && !is_start_byte(
            p[t],
        ) by {
            assert(p[t] == q[t]);
            assert(is_cont_byte(q[t]));
        }
        lemma_multi_value_bound(p);
        lemma_pow32_values();
        assert(pow32((k - 1) as nat) <= 1024) by {
            if k == 1 {
            } else if k == 2 {
            } else {
                assert(k == 3);
            }
        }
        assert(data < 65536);
        assert(q.take(n as int) =~= q);
        assert(q.drop_last() =~= q.take(k));
        assert(value_of(q) == value_of(q.take(k)) * 32 + data_bits(q.last()));
        assert(q.last() == q[k]);
        assert(data_bits(q[k]) == bytes@[start + k] - 0xA0);
    }
    let lb = bytes[start + n - 1];
    data * 32 + (lb - 0xA0) as u32
}

/// Decode a whole buffer front to back. On a valid buffer the result is
/// exactly the encoded values; on any other buffer it is exactly the error
/// the model assigns: `TruncatedSequence` when the buffer ends or a new
/// sequence opens before the pending end byte, `UnexpectedContinuationByte`
/// when the buffer starts inside a sequence, `OutOfRange` when a sequence
/// runs past four bytes.
pub fn decode_forward(bytes: &[u8]) -> (r: Result<Vec<u32>, Ume8Error>)
    ensures
        decode_result(bytes@) is Ok ==> r is Ok && r->Ok_0@ == decode_spec(bytes@),
        decode_result(bytes@) is Err ==> r is Err && r->Err_0 == decode_result(bytes@)->Err_0,
{
    let ghost s = bytes@;
    let mut out: Vec<u32> = Vec::new();
    let mut i: usize = 0;
    proof {
        assert(s.skip(0) =~= s);
    }
    while i < bytes.len()
        invariant
            s == bytes@,
            i <= s.len(),
            decode_result(s.skip(i as int)) is Ok ==> decode_result(s) is Ok && decode_spec(s)
                =~= out@ + decode_spec(s.skip(i as int)),
            decode_result(s.skip(i as int)) is Err ==> decode_result(s) == decode_result(
                s.skip(i as int),
            ),
        decreases s.len() - i,
    {
        let ghost t = s.skip(i as int);
        let b = bytes[i];
        proof {
            assert(t[0] == s[i as int]);
        }
        if b < 0x80 {
            out.push(b as u32);
            i = i + 1;
            proof {
                assert(is_singleton_byte(t[0]));
                let t2 = s.skip(i as int);
                assert(t.skip(1) =~= t2);
                if decode_result(t2) is Ok {
                    assert(decode_result(t) is Ok);
                    assert(decode_spec(t) =~= seq![b as u32] + decode_spec(t2));
                    assert(decode_spec(s) =~= out@ + decode_spec(t2));
                } else {
                    assert(decode_result(t) == decode_result(t2));
                }
            }
        } else if b >= 0xC0 {
            proof {
                assert(is_start_byte(t[0]));
            }
            let mut j: usize = i + 1;
            while j < bytes.len() && bytes[j] >= 0x80 && bytes[j] < 0xA0
                invariant
                    s == bytes@,
                    i + 1 <= j <= s.len(),
                    i < s.len(),
                    forall|p: int| i + 1 <= p < j ==> is_cont_byte(#[trigger] s[p]),
                decreases s.len() - j,
            {
                j = j + 1;
            }
            proof {
                assert forall|p: int|
                    0 <= p < j - (i + 1) implies is_cont_byte(#[trigger] t.skip(1)[p]) by {
                    assert(t.skip(1)[p] == s[i + 1 + p]);
                }
                if j < s.len() {
                    assert(t.skip(1)[j - i - 1] == s[j as int]);
                    assert(!is_cont_byte(s[j as int]));
                }
                lemma_crl_exact(t.skip(1), j - i - 1);
                assert(cont_run_len(t.skip(1)) == j - i - 1);
            }
            if j == bytes.len() {
                proof {
                    assert(2 + cont_run_len(t.skip(1)) as int > t.len());
                    assert(decode_result(t) == Err::<Seq<u32>, Ume8Error>(
                        Ume8Error::TruncatedSequence,
                    ));
                }
                return Err(Ume8Error::TruncatedSequence);
            }
            let ej = bytes[j];
            proof {
                assert(ej == s[j as int]);
                assert(t[(j - i) as int] == s[j as int]);
            }
            if ej < 0x80 || ej >= 0xC0 {
                proof {
                    assert(!is_end_byte(s[j as int]));
                    assert(decode_result(t) == Err::<Seq<u32>, Ume8Error>(
                        Ume8Error::TruncatedSequence,
                    ));
                }
                return Err(Ume8Error::TruncatedSequence);
            }
            proof {
                assert(is_end_byte(s[j as int]));
            }
            if j - i + 1 > 4 {
                proof {
                    assert(decode_result(t) == Err::<Seq<u32>, Ume8Error>(Ume8Error::OutOfRange));
                }
                return Err(Ume8Error::OutOfRange);
            }
            let n = j - i + 1;
            proof {
                let q = s.subrange(i as int, i as int + n as int);
                assert(q[0] == s[i as int]);
                assert forall|p: int| 1 <= p < n - 1 implies is_cont_byte(#[trigger] q[p]) by {
                    assert(q[p] == s[i + p]);
                }
                assert(q[n - 1] == s[j as int]);
                assert(wf_sequence(q));
                assert(t.take(n as int) =~= q);
            }
            let v = sequence_value(bytes, i, n);
            out.push(v);
            i = j + 1;
            proof {
                let t2 = s.skip(i as int);
                assert(t.skip(n as int) =~= t2);
                if decode_result(t2) is Ok {
                    assert(decode_result(t) is Ok);
                    assert(decode_spec(t) =~= seq![v] + decode_spec(t2));
                    assert(decode_spec(s) =~= out@ + decode_spec(t2));
                } else {
                    assert(decode_result(t) == decode_result(t2));
                }
            }
        } else {
            proof {
                assert(!is_singleton_byte(t[0]) && !is_start_byte(t[0]));
                assert(decode_result(t) == Err::<Seq<u32>, Ume8Error>(
                    Ume8Error::UnexpectedContinuationByte,
                ));
            }
            return Err(Ume8Error::UnexpectedContinuationByte);
        }
    }
    proof {
        assert(s.skip(s.len() as int).len() == 0);
        assert(decode_result(s.skip(s.len() as int)) is Ok);
        assert(decode_spec(s.skip(s.len() as int)).len() == 0);
        assert(decode_spec(s) =~= out@);
    }
    Ok(out)
}

/// Decode a whole buffer back to front, yielding the values in reverse
/// order. The error classes mirror the forward decoder's, judged from the
/// back: a buffer whose last byte is a continuation or start byte ends
/// inside a sequence.
pub fn decode_reverse(bytes: &[u8]) -> (r: Result<Vec<u32>, Ume8Error>)
    ensures
        decode_result_back(bytes@) is Ok ==> r is Ok && r->Ok_0@ == decode_result_back(
            bytes@,
        )->Ok_0,
        decode_result_back(bytes@) is Err ==> r is Err && r->Err_0 == decode_result_back(
            bytes@,
        )->Err_0,
        buf_ok(bytes@) ==> r is Ok && r->Ok_0@ == decode_spec(bytes@).reverse(),
{
    proof {
        if buf_ok(bytes@) {
            crate::lemmas::lemma_decode_back_agrees(bytes@);
        }
    }
    let ghost s = bytes@;
    let mut out: Vec<u32> = Vec::new();
    let mut i: usize = bytes.len();
    proof {
        assert(s.take(s.len() as int) =~= s);
    }
    while i > 0
        invariant
            s == bytes@,
            i <= s.len(),
            decode_result_back(s.take(i as int)) is Ok ==> decode_result_back(s) is Ok
                && decode_result_back(s)->Ok_0 =~= out@ + decode_result_back(
                s.take(i as int),
            )->Ok_0,
            decode_result_back(s.take(i as int)) is Err ==> decode_result_back(s)
                == decode_result_back(s.take(i as int)),
        decreases i,
    {
        let ghost t = s.take(i as int);
        let b = bytes[i - 1];
        proof {
            assert(t.last() == s[i - 1]);
            assert(b == t.last());
        }
        if b < 0x80 {
            out.push(b as u32);
            i = i - 1;
            proof {
                assert(is_singleton_byte(t.last()));
                let t2 = s.take(i as int);
                assert(t.drop_last() =~= t2);
                if decode_result_back(t2) is Ok {
                    assert(decode_result_back(t) is Ok);
                    assert(decode_result_back(t)->Ok_0 =~= seq![b as u32] + decode_result_back(
                        t2,
                    )->Ok_0);
                    assert(decode_result_back(s)->Ok_0 =~= out@ + decode_result_back(t2)->Ok_0);
                } else {
                    assert(decode_result_back(t) == decode_result_back(t2));
                }
            }
        } else if b >= 0xA0 && b < 0xC0 {
            proof {
                assert(is_end_byte(t.last()));
            }
            let mut j: usize = i - 1;
            while j > 0 && bytes[j - 1] >= 0x80 && bytes[j - 1] < 0xA0
                invariant
                    s == bytes@,
                    0 < i <= s.len(),
                    0 <= j <= i - 1,
                    forall|p: int| j <= p < i - 1 ==> is_cont_byte(#[trigger] s[p]),
                decreases j,
            {
                j = j - 1;
            }
            proof {
                let d = t.drop_last();
                assert(d.len() == i - 1);
                assert forall|p: int|
                    d.len() - (i - 1 - j) <= p < d.len() implies is_cont_byte(
                    #[trigger] d[p],
                ) by {
                    assert(d[p] == s[p]);
                }
                if j > 0 {
                    assert(d[j - 1] == s[j - 1]);
                    assert(!is_cont_byte(s[j - 1]));
                }
                lemma_crl_back_exact(d, i - 1 - j);
                assert(cont_run_len_back(d) == i - 1 - j);
            }
            if j == 0 {
                proof {
                    assert(2 + cont_run_len_back(t.drop_last()) as int > t.len());
                    assert(decode_result_back(t) == Err::<Seq<u32>, Ume8Error>(
                        Ume8Error::TruncatedSequence,
                    ));
                    if buf_ok(bytes@) {
                        crate::lemmas::lemma_decode_back_agrees(bytes@);
                    }
                }
                return Err(Ume8Error::TruncatedSequence);
            }
            let sb = bytes[j - 1];
            proof {
                assert(sb == s[j - 1]);
                assert(t[t.len() - (i - j + 1)] == s[j - 1]);
            }
            if sb < 0xC0 {
                proof {
                    assert(!is_start_byte(s[j - 1]));
                    assert(decode_result_back(t) == Err::<Seq<u32>, Ume8Error>(
                        Ume8Error::TruncatedSequence,
                    ));
                    if buf_ok(bytes@) {
                        crate::lemmas::lemma_decode_back_agrees(bytes@);
                    }
                }
                return Err(Ume8Error::TruncatedSequence);
            }
            proof {
                assert(is_start_byte(s[j - 1]));
            }
            if i - j + 1 > 4 {
                proof {
                    assert(decode_result_back(t) == Err::<Seq<u32>, Ume8Error>(
                        Ume8Error::OutOfRange,
                    ));
                    if buf_ok(bytes@) {
                        crate::lemmas::lemma_decode_back_agrees(bytes@);
                    }
                }
                return Err(Ume8Error::OutOfRange);
            }
            let n = i - j + 1;
            proof {
                let q = s.subrange(j - 1, i as int);
                assert(q.len() == n);
                assert(q[0] == s[j - 1]);
                assert forall|p: int| 1 <= p < n - 1 implies is_cont_byte(#[trigger] q[p]) by {
                    assert(q[p] == s[j - 1 + p]);
                }
                assert(q[n - 1] == s[i - 1]);
                assert(wf_sequence(q));
                assert(t.skip(t.len() - n) =~= q);
            }
            let v = sequence_value(bytes, j - 1, n);
            out.push(v);
            i = j - 1;
            proof {
                let t2 = s.take(i as int);
                assert(t.take(t.len() - n) =~= t2);
                if decode_result_back(t2) is Ok {
                    assert(decode_result_back(t) is Ok);
                    assert(decode_result_back(t)->Ok_0 =~= seq![v] + decode_result_back(
                        t2,
                    )->Ok_0);
                    assert(decode_result_back(s)->Ok_0 =~= out@ + decode_result_back(t2)->Ok_0);
                } else {
                    assert(decode_result_back(t) == decode_result_back(t2));
                }
            }
        } else {
            proof {
                assert(!is_singleton_byte(t.last()) && !is_end_byte(t.last()));
                assert(decode_result_back(t) == Err::<Seq<u32>, Ume8Error>(
                    Ume8Error::UnexpectedContinuationByte,
                ));
                if buf_ok(bytes@) {
                    crate::lemmas::lemma_decode_back_agrees(bytes@);
                }
            }
            return Err(Ume8Error::UnexpectedContinuationByte);
        }
    }
    proof {
        assert(s.take(0).len() == 0);
        assert(decode_result_back(s.take(0)) is Ok);
        assert(decode_result_back(s.take(0))->Ok_0.len() == 0);
        assert(decode_result_back(s)->Ok_0 =~= out@);
    }
    Ok(out)
}

} // verus!
