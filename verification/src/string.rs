//! The owned text container: a growable byte buffer that holds a valid
//! encoded buffer at every observable point. Characters are appended by
//! encoding them; whole containers concatenate without any boundary
//! fix-up, because every byte carries its framing.

use vstd::prelude::*;

use crate::encode::encode_scalar;
use crate::framing::in_range;
use crate::lemmas::{lemma_decode_concat, lemma_encoding_wf, lemma_wf_buf_ok};
use crate::model::{buf_ok, decode_spec, encoding_of};
use crate::text::Ume8Str;
use vstd::utf8::char_is_scalar;

verus! {

/// Relies on Vec::capacity: the capacity is at least the length.
#[verifier::external_body]
fn vec_capacity(v: &Vec<u8>) -> (r: usize)
    ensures
        r >= v@.len(),
{
    v.capacity()
}

/// Relies on Vec::reserve_exact: it changes only the capacity, never the
/// contents.
#[verifier::external_body]
fn vec_reserve_exact(v: &mut Vec<u8>, additional: usize)
    ensures
        final(v)@ == old(v)@,
{
    v.reserve_exact(additional)
}

/// Relies on Vec::shrink_to_fit: it changes only the capacity, never the
/// contents.
#[verifier::external_body]
fn vec_shrink_to_fit(v: &mut Vec<u8>)
    ensures
        final(v)@ == old(v)@,
{
    v.shrink_to_fit()
}

/// Relies on Vec::shrink_to: it changes only the capacity, never the
/// contents.
#[verifier::external_body]
fn vec_shrink_to(v: &mut Vec<u8>, min_capacity: usize)
    ensures
        final(v)@ == old(v)@,
{
    v.shrink_to(min_capacity)
}

/// An owned, growable, always-valid encoded buffer.
#[derive(Clone)]
pub struct Ume8String {
    /// The underlying bytes.
    pub bytes: Vec<u8>,
}

impl View for Ume8String {
    type V = Seq<u8>;

    open spec fn view(&self) -> Seq<u8> {
        self.bytes@
    }
}

impl Ume8String {
    /// The container's invariant: its bytes form a valid buffer.
    pub open spec fn wf(self) -> bool {
        buf_ok(self@)
    }

    /// The scalar values the container's bytes encode, in order.
    pub open spec fn values(self) -> Seq<u32> {
        decode_spec(self@)
    }

    /// An empty container.
    pub fn new() -> (r: Self)
        ensures
            r.wf(),
            r@ == Seq::<u8>::empty(),
    {
        let r = Ume8String { bytes: Vec::new() };
        proof {
            assert(r@ =~= Seq::<u8>::empty());
        }
        r
    }

    /// An empty container with room for `capacity` bytes.
    pub fn with_capacity(capacity: usize) -> (r: Self)
        ensures
            r.wf(),
            r@ == Seq::<u8>::empty(),
    {
        let r = Ume8String { bytes: Vec::with_capacity(capacity) };
        proof {
            assert(r@ =~= Seq::<u8>::empty());
        }
        r
    }

    /// Take over a byte buffer that is already known to be a valid
    /// concatenation of complete sequences.
    pub fn from_bytes_unchecked(bytes: Vec<u8>) -> (r: Self)
        requires
            buf_ok(bytes@),
        ensures
            r.wf(),
            r@ == bytes@,
    {
        Ume8String { bytes }
    }

    /// Give up the container and keep its bytes.
    pub fn into_bytes(self) -> (r: Vec<u8>)
        ensures
            r@ == self@,
    {
        self.bytes
    }

    /// How many bytes the container can hold without reallocating; at
    /// least as many as it holds.
    pub fn capacity(&self) -> (r: usize)
        ensures
            r >= self@.len(),
    {
        vec_capacity(&self.bytes)
    }

    /// Reserve room for at least `additional` more bytes.
    pub fn reserve(&mut self, additional: usize)
        ensures
            final(self)@ == old(self)@,
    {
        self.bytes.reserve(additional);
    }

    /// Reserve room for exactly `additional` more bytes.
    pub fn reserve_exact(&mut self, additional: usize)
        ensures
            final(self)@ == old(self)@,
    {
        vec_reserve_exact(&mut self.bytes, additional);
    }

    /// Drop unused capacity.
    pub fn shrink_to_fit(&mut self)
        ensures
            final(self)@ == old(self)@,
    {
        vec_shrink_to_fit(&mut self.bytes);
    }

    /// Drop capacity down to at most `min_capacity`, keeping the contents.
    pub fn shrink_to(&mut self, min_capacity: usize)
        ensures
            final(self)@ == old(self)@,
    {
        vec_shrink_to(&mut self.bytes, min_capacity);
    }

    /// Append one character: encode its scalar value and extend the buffer
    /// with the complete sequence, so the buffer stays valid.
    pub fn push(&mut self, ch: char)
        requires
            old(self).wf(),
        ensures
            final(self).wf(),
            final(self)@ == old(self)@ + encoding_of(ch as u32),
            final(self).values() == old(self).values() + seq![ch as u32],
    {
        proof {
            char_is_scalar(ch);
            assert(in_range(ch as u32));
        }
        let mut e = encode_scalar(ch as u32);
        proof {
            lemma_encoding_wf(ch as u32);
            lemma_wf_buf_ok(e@);
            lemma_decode_concat(old(self)@, e@);
        }
        self.bytes.append(&mut e);
        proof {
            assert(final(self).values() =~= old(self).values() + seq![ch as u32]);
        }
    }

    /// Remove every byte.
    pub fn clear(&mut self)
        ensures
            final(self).wf(),
            final(self)@ == Seq::<u8>::empty(),
    {
        self.bytes.clear();
        proof {
            assert(self@ =~= Seq::<u8>::empty());
        }
    }

    /// Borrow the container as a text view.
    pub fn as_str(&self) -> (r: Ume8Str<'_>)
        requires
            self.wf(),
        ensures
            r@ == self@,
            buf_ok(r@),
    {
        Ume8Str::new(self.bytes.as_slice())
    }

    /// Append another container's bytes. Two valid buffers concatenate to
    /// a valid buffer, and the values concatenate with them.
    pub fn push_string(&mut self, string: Self)
        requires
            old(self).wf(),
            string.wf(),
        ensures
            final(self).wf(),
            final(self)@ == old(self)@ + string@,
            final(self).values() == old(self).values() + string.values(),
    {
        proof {
            lemma_decode_concat(old(self)@, string@);
        }
        let mut b = string.into_bytes();
        self.bytes.append(&mut b);
        proof {
            assert(final(self).values() =~= old(self).values() + decode_spec(string@));
        }
    }
}

impl Default for Ume8String {
    /// An empty container.
    fn default() -> (r: Self)
        ensures
            r.wf(),
            r@ == Seq::<u8>::empty(),
    {
        Ume8String::new()
    }
}

} // verus!
