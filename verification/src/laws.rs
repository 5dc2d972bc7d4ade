//! The laws of the codec, stated once over the model and proved for all
//! inputs. The contracts of the executable encoder and decoders are given
//! in terms of the same model functions, so each law carries over to the
//! executable code through those contracts.

use vstd::prelude::*;

use crate::framing::in_range;
use crate::lemmas::{
    lemma_back_ok_implies_buf_ok, lemma_count_decode, lemma_decode_back_agrees,
    lemma_decode_concat, lemma_decode_len_bounds,
    lemma_encode_seq_decodes, lemma_encoding_wf, lemma_wf_buf_ok,
};
use crate::model::{
    all_in_range, buf_ok, count_spec, decode_result_back, decode_spec, enc_len, encode_seq,
    encoding_of,
};

verus! {

/// Round trip: every scalar value below 2^21 decodes back from its own
/// encoding, and the encoding has the length its bit count demands — one
/// byte under 128, two under 2^11, three under 2^16, four under 2^21.
pub proof fn lemma_round_trip(v: u32)
    requires
        in_range(v),
    ensures
        buf_ok(encoding_of(v)),
        decode_spec(encoding_of(v)) =~= seq![v],
        encoding_of(v).len() == enc_len(v),
{
    lemma_encoding_wf(v);
    lemma_wf_buf_ok(encoding_of(v));
}

/// Bidirectional agreement: encoding any string of in-range values gives a
/// valid buffer; decoding it forward returns the string, and decoding it
/// backward returns the string reversed.
pub proof fn lemma_bidirectional_agreement(vs: Seq<u32>)
    requires
        all_in_range(vs),
    ensures
        buf_ok(encode_seq(vs)),
        decode_spec(encode_seq(vs)) =~= vs,
        decode_result_back(encode_seq(vs)) is Ok,
        decode_result_back(encode_seq(vs))->Ok_0 =~= vs.reverse(),
{
    lemma_encode_seq_decodes(vs);
    lemma_decode_back_agrees(encode_seq(vs));
    assert(decode_spec(encode_seq(vs)).reverse() =~= vs.reverse());
}

/// Boundary agreement: the backward parser accepts exactly the buffers the
/// forward parser accepts, and on those it yields the forward values in
/// reverse order — the two traversal directions always find the same
/// sequence boundaries.
pub proof fn lemma_boundary_agreement(s: Seq<u8>)
    ensures
        decode_result_back(s) is Ok <==> buf_ok(s),
        buf_ok(s) ==> decode_result_back(s)->Ok_0 =~= decode_spec(s).reverse(),
{
    if decode_result_back(s) is Ok {
        lemma_back_ok_implies_buf_ok(s);
    }
    if buf_ok(s) {
        lemma_decode_back_agrees(s);
    }
}

/// Concatenation closure: two valid buffers laid end to end form a valid
/// buffer, and it decodes to the two value strings laid end to end. No
/// boundary fix-up is ever needed, because every byte carries its framing.
pub proof fn lemma_concatenation_closure(a: Seq<u8>, b: Seq<u8>)
    requires
        buf_ok(a),
        buf_ok(b),
    ensures
        buf_ok(a + b),
        decode_spec(a + b) =~= decode_spec(a) + decode_spec(b),
{
    lemma_decode_concat(a, b);
}

/// Count consistency: on a valid buffer, counting the opening bytes gives
/// the number of values the forward decoder yields, which is also the
/// number the backward decoder yields.
pub proof fn lemma_count_consistency(s: Seq<u8>)
    requires
        buf_ok(s),
    ensures
        count_spec(s) == decode_spec(s).len(),
        decode_result_back(s) is Ok,
        count_spec(s) == decode_result_back(s)->Ok_0.len(),
{
    lemma_count_decode(s);
    lemma_decode_back_agrees(s);
}

/// Size-hint soundness: a valid buffer holds between one and four bytes
/// per value, so a quarter of the byte count, rounded up, never exceeds the
/// number of values, and the byte count is never below it.
pub proof fn lemma_size_hint_soundness(s: Seq<u8>)
    requires
        buf_ok(s),
    ensures
        (s.len() + 3) / 4 <= decode_spec(s).len() <= s.len(),
{
    lemma_decode_len_bounds(s);
}

} // verus!
