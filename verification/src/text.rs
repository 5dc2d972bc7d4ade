//! The borrowed text view: a non-owning slice of encoded bytes that is
//! known to be aligned on sequence boundaries, with character iteration and
//! byte-level queries.

use vstd::prelude::*;

use crate::decode::{DecodeUnchecked, ToCharUnchecked};
use crate::framing::is_singleton_byte;
use crate::model::buf_ok;
use crate::util::is_singleton;

verus! {

/// The needle occurs somewhere in the haystack as a contiguous run of
/// bytes. This is a byte-level match: a run that crosses sequence
/// boundaries counts too, as documented on [`Ume8Str::contains`].
pub open spec fn contains_bytes(h: Seq<u8>, nd: Seq<u8>) -> bool {
    exists|i: int| 0 <= i <= h.len() - nd.len() && #[trigger] h.subrange(i, i + nd.len()) == nd
}

/// Every byte of the buffer is a one-byte sequence.
pub open spec fn all_singletons(s: Seq<u8>) -> bool {
    forall|i: int| 0 <= i < s.len() ==> is_singleton_byte(#[trigger] s[i])
}

/// A borrowed view over a valid encoded buffer. The constructor is the one
/// place that demands sequence alignment; everything built on the view can
/// then rely on it.
pub struct Ume8Str<'a> {
    /// The underlying bytes.
    pub bytes: &'a [u8],
}

impl<'a> View for Ume8Str<'a> {
    type V = Seq<u8>;

    open spec fn view(&self) -> Seq<u8> {
        self.bytes@
    }
}

/// The bytes starting at `at` in `h` are exactly `nd`.
fn match_at(h: &[u8], nd: &[u8], at: usize) -> (r: bool)
    requires
        at + nd@.len() <= h@.len(),
    ensures
        r == (h@.subrange(at as int, at as int + nd@.len() as int) == nd@),
{
    let m = nd.len();
    let hl = h.len();
    let mut j: usize = 0;
    while j < m
        invariant
            j <= m,
            m == nd@.len(),
            hl == h@.len(),
            at + m <= hl,
            forall|p: int| 0 <= p < j ==> h@[at + p] == #[trigger] nd@[p],
        decreases m - j,
    {
        if h[at + j] != nd[j] {
            proof {
                assert(h@.subrange(at as int, at as int + m as int)[j as int] == h@[at + j]);
            }
            return false;
        }
        j = j + 1;
    }
    proof {
        assert(h@.subrange(at as int, at as int + m as int) =~= nd@);
    }
    true
}

impl<'a> Ume8Str<'a> {
    /// View a byte slice as encoded text. The slice must be a valid
    /// buffer: a concatenation of complete sequences.
    pub fn new(bytes: &'a [u8]) -> (r: Ume8Str<'a>)
        requires
            buf_ok(bytes@),
        ensures
            r@ == bytes@,
            buf_ok(r@),
    {
        Ume8Str { bytes }
    }

    /// The length in bytes, not in characters.
    pub fn len(&self) -> (r: usize)
        ensures
            r == self@.len(),
    {
        self.bytes.len()
    }

    /// True when the view holds no bytes.
    pub fn is_empty(&self) -> (r: bool)
        ensures
            r == (self@.len() == 0),
    {
        self.bytes.len() == 0
    }

    /// The underlying bytes.
    pub fn as_bytes(&self) -> (r: &[u8])
        ensures
            r@ == self@,
    {
        self.bytes
    }

    /// Iterate over the decoded characters, on a copy of the bytes.
    pub fn chars(&self) -> (r: ToCharUnchecked)
        ensures
            r.wf(),
            r.remaining() == self@,
    {
        let mut v: Vec<u8> = Vec::new();
        v.extend_from_slice(self.bytes);
        proof {
            assert(v@ =~= self.bytes@);
        }
        ToCharUnchecked::new(DecodeUnchecked::new(v))
    }

    /// True when the other view's bytes occur contiguously in this one.
    /// The match is on raw bytes: a byte run that happens to cross a
    /// sequence boundary matches as well, so this can report more than
    /// character-level containment.
    pub fn contains(&self, other: &Ume8Str<'_>) -> (r: bool)
        ensures
            r == contains_bytes(self@, other@),
    {
        let m = other.bytes.len();
        if m == 0 {
            proof {
                assert(self@.subrange(0, 0 + other@.len() as int) =~= other@);
                assert(contains_bytes(self@, other@));
            }
            return true;
        }
        let hl = self.bytes.len();
        if hl < m {
            return false;
        }
        let top = hl - m;
        let mut i: usize = 0;
        while i <= top
            invariant
                m == other@.len(),
                hl == self@.len(),
                0 < m <= hl,
                top == hl - m,
                i <= top + 1,
                forall|p: int|
                    0 <= p < i ==> #[trigger] self@.subrange(p, p + other@.len() as int)
                        != other@,
            decreases top + 1 - i,
        {
            if match_at(self.bytes, other.bytes, i) {
                proof {
                    assert(self@.subrange(i as int, i as int + other@.len() as int) == other@);
                    assert(contains_bytes(self@, other@));
                }
                return true;
            }
            i = i + 1;
        }
        false
    }

    /// True when this view begins with the other's bytes.
    pub fn starts_with(&self, other: &Ume8Str<'_>) -> (r: bool)
        ensures
            r == (other@.len() <= self@.len() && self@.subrange(0, other@.len() as int)
                == other@),
    {
        if other.bytes.len() > self.bytes.len() {
            return false;
        }
        match_at(self.bytes, other.bytes, 0)
    }

    /// True when this view ends with the other's bytes.
    pub fn ends_with(&self, other: &Ume8Str<'_>) -> (r: bool)
        ensures
            r == (other@.len() <= self@.len() && self@.subrange(
                self@.len() - other@.len(),
                self@.len() as int,
            ) == other@),
    {
        if other.bytes.len() > self.bytes.len() {
            return false;
        }
        match_at(self.bytes, other.bytes, self.bytes.len() - other.bytes.len())
    }

    /// True when every byte is a one-byte sequence, so every character has
    /// a singleton encoding.
    pub fn is_ascii(&self) -> (r: bool)
        ensures
            r == all_singletons(self@),
    {
        let mut i: usize = 0;
        while i < self.bytes.len()
            invariant
                i <= self@.len(),
                forall|p: int| 0 <= p < i ==> is_singleton_byte(#[trigger] self@[p]),
            decreases self@.len() - i,
        {
            if !is_singleton(&self.bytes[i]) {
                return false;
            }
            i = i + 1;
        }
        true
    }
}

} // verus!
