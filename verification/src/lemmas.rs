//! Structural facts about the model: bounds on sequence values, how the
//! parse of a buffer splits off its first or last sequence, and how parsing
//! behaves under concatenation. The public laws in [`crate::laws`] and the
//! contracts of the executable code rest on these.

use vstd::prelude::*;

use crate::framing::{
    data_bits, in_range, is_cont_byte, is_end_byte, is_singleton_byte, is_start_byte,
    opens_sequence,
};
use crate::model::{
    all_in_range, buf_ok, cont_run_len, cont_run_len_back, count_spec, decode_result,
    decode_result_back, decode_spec, enc_len, encode_seq, encoding_of, first_len, last_len,
    pow32, value_of, wf_sequence,
};
use crate::Ume8Error;

verus! {

/// Powers of 32 are positive.
pub proof fn lemma_pow32_pos(k: nat)
    ensures
        pow32(k) >= 1,
    decreases k,
{
    if k > 0 {
        lemma_pow32_pos((k - 1) as nat);
    }
}

/// The value of a sequence is never negative.
pub proof fn lemma_value_of_nonneg(s: Seq<u8>)
    ensures
        value_of(s) >= 0,
    decreases s.len(),
{
    if s.len() > 0 {
        lemma_value_of_nonneg(s.drop_last());
    }
}

/// A multi-byte sequence of `k` bytes stays below `64 * 32^(k - 1)`: the
/// start byte carries 6 data bits and each later byte 5.
pub proof fn lemma_multi_value_bound(s: Seq<u8>)
    requires
        s.len() >= 1,
        is_start_byte(s[0]),
        forall|i: int| 1 <= i < s.len() ==> !is_singleton_byte(#[trigger] s[i]) && !is_start_byte(
            s[i],
        ),
    ensures
        0 <= value_of(s) < 64 * pow32((s.len() - 1) as nat),
    decreases s.len(),
{
    let l = s.len() as int;
    if l == 1 {
        assert(s.last() == s[0]);
        assert(value_of(s) == value_of(s.drop_last()) * 32 + data_bits(s.last()));
        assert(value_of(s.drop_last()) == 0);
        assert(pow32(0) == 1);
    } else {
        let t = s.drop_last();
        assert(forall|i: int| 1 <= i < t.len() ==> t[i] == #[trigger] s[i]);
        lemma_multi_value_bound(t);
        let p = pow32((l - 2) as nat);
        lemma_pow32_pos((l - 2) as nat);
        assert(pow32((l - 1) as nat) == 32 * p);
        assert(s.last() == s[l - 1]);
        assert(!is_singleton_byte(s[l - 1]) && !is_start_byte(s[l - 1]));
        assert(data_bits(s.last()) < 32);
        assert(value_of(s) == value_of(t) * 32 + data_bits(s.last()));
        assert(value_of(t) * 32 <= (64 * p - 1) * 32);
    }
}

/// A well-formed sequence carries a value below 2^21.
pub proof fn lemma_wf_value_bound(s: Seq<u8>)
    requires
        wf_sequence(s),
    ensures
        0 <= value_of(s) < 0x20_0000,
{
    if s.len() == 1 && is_singleton_byte(s[0]) {
        assert(value_of(s) == value_of(s.drop_last()) * 32 + data_bits(s.last()));
        assert(s.drop_last().len() == 0);
        assert(s.last() == s[0]);
    } else {
        lemma_multi_value_bound(s);
        reveal_with_fuel(pow32, 5);
        assert(pow32(1) == 32 && pow32(2) == 1024 && pow32(3) == 32768);
    }
}

/// The first few powers of 32, written out.
pub proof fn lemma_pow32_values()
    ensures
        pow32(0) == 1,
        pow32(1) == 32,
        pow32(2) == 1024,
        pow32(3) == 32768,
{
    reveal_with_fuel(pow32, 5);
}

/// The value of a sequence, peeled from the front: the first byte's data
/// bits weigh one power of 32 per remaining byte.
pub proof fn lemma_value_of_peel_first(s: Seq<u8>)
    requires
        s.len() >= 1,
    ensures
        value_of(s) == data_bits(s[0]) * pow32((s.len() - 1) as nat) + value_of(s.skip(1)),
    decreases s.len(),
{
    if s.len() == 1 {
        assert(s.drop_last().len() == 0);
        assert(s.skip(1).len() == 0);
        assert(s.last() == s[0]);
        assert(value_of(s) == value_of(s.drop_last()) * 32 + data_bits(s.last()));
        assert(pow32(0) == 1);
    } else {
        let l = s.len() as int;
        let t = s.drop_last();
        lemma_value_of_peel_first(t);
        assert(t.skip(1) =~= s.skip(1).drop_last());
        assert(t[0] == s[0]);
        assert(s.skip(1).last() == s.last());
        let d = data_bits(s[0]);
        let p = pow32((l - 2) as nat);
        let w = value_of(s.skip(1).drop_last());
        assert(value_of(t) == d * p + w);
        assert(value_of(s) == value_of(t) * 32 + data_bits(s.last()));
        assert((d * p + w) * 32 == d * (32 * p) + w * 32) by (nonlinear_arith);
        assert(pow32((l - 1) as nat) == 32 * p);
        assert(value_of(s.skip(1)) == w * 32 + data_bits(s.skip(1).last()));
    }
}

/// The bytes inside a continuation run are continuation bytes, and the byte
/// after the run, if any, is not.
pub proof fn lemma_crl_bytes(s: Seq<u8>)
    ensures
        cont_run_len(s) <= s.len(),
        forall|i: int| 0 <= i < cont_run_len(s) ==> is_cont_byte(#[trigger] s[i]),
        cont_run_len(s) < s.len() ==> !is_cont_byte(s[cont_run_len(s) as int]),
    decreases s.len(),
{
    if s.len() > 0 && is_cont_byte(s[0]) {
        lemma_crl_bytes(s.skip(1));
        assert forall|i: int| 1 <= i < cont_run_len(s) implies is_cont_byte(#[trigger] s[i]) by {
            assert(s[i] == s.skip(1)[i - 1]);
        }
    }
}

/// A continuation run is exactly the number of leading continuation bytes.
pub proof fn lemma_crl_exact(s: Seq<u8>, k: int)
    requires
        0 <= k <= s.len(),
        forall|i: int| 0 <= i < k ==> is_cont_byte(#[trigger] s[i]),
        k < s.len() ==> !is_cont_byte(s[k]),
    ensures
        cont_run_len(s) == k,
    decreases s.len(),
{
    if k == 0 {
    } else {
        assert(forall|i: int| 0 <= i < k - 1 ==> is_cont_byte(#[trigger] s.skip(1)[i]));
        lemma_crl_exact(s.skip(1), k - 1);
    }
}

/// Parsing a buffer that starts with a complete well-formed sequence first
/// takes off exactly that sequence.
pub proof fn lemma_decode_prepend(q: Seq<u8>, t: Seq<u8>)
    requires
        wf_sequence(q),
    ensures
        0 <= value_of(q) < 0x20_0000,
        decode_result(t) is Ok ==> buf_ok(q + t) && decode_spec(q + t) =~= seq![
            value_of(q) as u32,
        ] + decode_spec(t),
        decode_result(t) is Err ==> decode_result(q + t) == decode_result(t),
{
    lemma_wf_value_bound(q);
    let u = q + t;
    assert(u.len() == q.len() + t.len());
    assert(u[0] == q[0]);
    if q.len() == 1 && is_singleton_byte(q[0]) {
        assert(u.skip(1) =~= t);
        assert(q.drop_last().len() == 0 && q.last() == q[0]);
        assert(value_of(q) == value_of(q.drop_last()) * 32 + data_bits(q.last()));
        assert(value_of(q) == q[0]);
    } else {
        let n = q.len() as int;
        assert(u.skip(1) =~= q.skip(1) + t);
        assert forall|i: int| 0 <= i < n - 2 implies is_cont_byte(#[trigger] u.skip(1)[i]) by {
            assert(u.skip(1)[i] == q[i + 1]);
        }
        assert(u.skip(1)[n - 2] == q[n - 1]);
        assert(is_end_byte(q[n - 1]) && !is_cont_byte(q[n - 1]));
        lemma_crl_exact(u.skip(1), n - 2);
        assert(u[n - 1] == q[n - 1]);
        assert(u.skip(n) =~= t);
        assert(u.take(n) =~= q);
    }
}

/// A well-formed sequence on its own is a valid buffer holding one value.
pub proof fn lemma_wf_buf_ok(q: Seq<u8>)
    requires
        wf_sequence(q),
    ensures
        buf_ok(q),
        0 <= value_of(q) < 0x20_0000,
        decode_spec(q) =~= seq![value_of(q) as u32],
{
    let empty = Seq::<u8>::empty();
    assert(decode_result(empty) == Ok::<Seq<u32>, Ume8Error>(Seq::empty()));
    lemma_decode_prepend(q, empty);
    assert(q + empty =~= q);
}

/// A nonempty valid buffer splits into its first sequence — well-formed, at
/// most four bytes — and a valid rest; its values are the first sequence's
/// value followed by the values of the rest.
pub proof fn lemma_buf_ok_structure(s: Seq<u8>)
    requires
        buf_ok(s),
        s.len() > 0,
    ensures
        1 <= first_len(s) <= 4,
        first_len(s) <= s.len(),
        wf_sequence(s.take(first_len(s))),
        buf_ok(s.skip(first_len(s))),
        0 <= value_of(s.take(first_len(s))) < 0x20_0000,
        decode_spec(s) =~= seq![value_of(s.take(first_len(s))) as u32] + decode_spec(
            s.skip(first_len(s)),
        ),
        decode_spec(s).len() == 1 + decode_spec(s.skip(first_len(s))).len(),
        decode_spec(s)[0] == value_of(s.take(first_len(s))) as u32,
        decode_spec(s.skip(first_len(s))) =~= decode_spec(s).skip(1),
{
    if is_singleton_byte(s[0]) {
        let q = s.take(1);
        assert(q[0] == s[0] && q.len() == 1);
        assert(wf_sequence(q));
        assert(q.drop_last().len() == 0 && q.last() == q[0]);
        assert(value_of(q) == value_of(q.drop_last()) * 32 + data_bits(q.last()));
        assert(value_of(q) == s[0]);
        assert(decode_result(s.skip(1)) is Ok);
    } else {
        assert(is_start_byte(s[0]));
        let n = 2 + cont_run_len(s.skip(1)) as int;
        assert(n <= s.len() && is_end_byte(s[n - 1]) && n <= 4 && decode_result(s.skip(n)) is Ok);
        assert(first_len(s) == n);
        let q = s.take(n);
        lemma_crl_bytes(s.skip(1));
        assert forall|i: int| 1 <= i < n - 1 implies is_cont_byte(#[trigger] q[i]) by {
            assert(q[i] == s.skip(1)[i - 1]);
        }
        assert(q[0] == s[0] && q[n - 1] == s[n - 1]);
        assert(wf_sequence(q));
        lemma_wf_value_bound(q);
    }
}

/// Concatenating two valid buffers gives a valid buffer whose values are
/// the values of the two parts laid end to end.
pub proof fn lemma_decode_concat(a: Seq<u8>, b: Seq<u8>)
    requires
        buf_ok(a),
        buf_ok(b),
    ensures
        buf_ok(a + b),
        decode_spec(a + b) =~= decode_spec(a) + decode_spec(b),
    decreases a.len(),
{
    if a.len() == 0 {
        assert(a + b =~= b);
        assert(decode_spec(a).len() == 0);
    } else {
        lemma_buf_ok_structure(a);
        let n = first_len(a);
        let q = a.take(n);
        let r = a.skip(n);
        lemma_decode_concat(r, b);
        assert(a + b =~= q + (r + b));
        lemma_decode_prepend(q, r + b);
    }
}

/// Counting opening bytes distributes over concatenation.
pub proof fn lemma_count_concat(a: Seq<u8>, b: Seq<u8>)
    ensures
        count_spec(a + b) == count_spec(a) + count_spec(b),
    decreases a.len(),
{
    if a.len() == 0 {
        assert(a + b =~= b);
    } else {
        assert((a + b)[0] == a[0]);
        assert((a + b).skip(1) =~= a.skip(1) + b);
        lemma_count_concat(a.skip(1), b);
    }
}

/// A buffer without opening bytes counts no sequences.
pub proof fn lemma_count_none(s: Seq<u8>)
    requires
        forall|i: int| 0 <= i < s.len() ==> !opens_sequence(#[trigger] s[i]),
    ensures
        count_spec(s) == 0,
    decreases s.len(),
{
    if s.len() > 0 {
        assert(forall|i: int| 0 <= i < s.skip(1).len() ==> s.skip(1)[i] == #[trigger] s[i + 1]);
        lemma_count_none(s.skip(1));
    }
}

/// A well-formed sequence has exactly one opening byte.
pub proof fn lemma_count_wf(q: Seq<u8>)
    requires
        wf_sequence(q),
    ensures
        count_spec(q) == 1,
{
    assert(opens_sequence(q[0]));
    assert forall|i: int| 0 <= i < q.skip(1).len() implies !opens_sequence(
        #[trigger] q.skip(1)[i],
    ) by {
        assert(q.skip(1)[i] == q[i + 1]);
    }
    lemma_count_none(q.skip(1));
}

/// On a valid buffer, counting opening bytes counts the decoded values.
pub proof fn lemma_count_decode(s: Seq<u8>)
    requires
        buf_ok(s),
    ensures
        count_spec(s) == decode_spec(s).len(),
    decreases s.len(),
{
    if s.len() == 0 {
    } else {
        lemma_buf_ok_structure(s);
        let n = first_len(s);
        assert(s =~= s.take(n) + s.skip(n));
        lemma_count_concat(s.take(n), s.skip(n));
        lemma_count_wf(s.take(n));
        lemma_count_decode(s.skip(n));
    }
}

/// A valid buffer holds between one and four bytes for each of its values.
pub proof fn lemma_decode_len_bounds(s: Seq<u8>)
    requires
        buf_ok(s),
    ensures
        decode_spec(s).len() <= s.len() <= 4 * decode_spec(s).len(),
    decreases s.len(),
{
    if s.len() == 0 {
    } else {
        lemma_buf_ok_structure(s);
        lemma_decode_len_bounds(s.skip(first_len(s)));
    }
}

/// The encoding of an in-range value is a well-formed sequence of the
/// length the bit budget demands, and it carries exactly that value.
pub proof fn lemma_encoding_wf(v: u32)
    requires
        in_range(v),
    ensures
        wf_sequence(encoding_of(v)),
        encoding_of(v).len() == enc_len(v),
        value_of(encoding_of(v)) == v,
{
    let e = encoding_of(v);
    if v < 0x80 {
        assert(e =~= seq![v as u8]);
        assert(e.drop_last().len() == 0 && e.last() == e[0]);
        assert(value_of(e) == value_of(e.drop_last()) * 32 + data_bits(e.last()));
    } else if v < 0x800 {
        vstd::arithmetic::div_mod::lemma_fundamental_div_mod(v as int, 32);
        assert(4 <= v / 32 < 64);
        assert(0 <= v % 32 < 32);
        let b0 = (0xC0 + v / 32) as u8;
        let b1 = (0xA0 + v % 32) as u8;
        assert(b0 == 0xC0 + v / 32 && b1 == 0xA0 + v % 32);
        assert(is_start_byte(b0) && is_end_byte(b1));
        assert(e[0] == b0 && e[1] == b1 && e.len() == 2);
        assert(e.drop_last() =~= seq![b0]);
        assert(seq![b0].drop_last().len() == 0 && seq![b0].last() == b0);
        assert(value_of(seq![b0].drop_last()) == 0);
        assert(e.last() == b1);
        assert(value_of(seq![b0]) == v / 32);
        assert(value_of(e) == (v / 32) * 32 + (v % 32));
    } else if v < 0x1_0000 {
        vstd::arithmetic::div_mod::lemma_fundamental_div_mod(v as int, 32);
        vstd::arithmetic::div_mod::lemma_fundamental_div_mod(v as int / 32, 32);
        vstd::arithmetic::div_mod::lemma_div_denominator(v as int, 32, 32);
        assert(v as int / 1024 == (v as int / 32) / 32);
        assert(2 <= v / 1024 < 64);
        assert(0 <= (v / 32) % 32 < 32 && 0 <= v % 32 < 32);
        let b0 = (0xC0 + v / 1024) as u8;
        let b1 = (0x80 + (v / 32) % 32) as u8;
        let b2 = (0xA0 + v % 32) as u8;
        assert(b0 == 0xC0 + v / 1024 && b1 == 0x80 + (v / 32) % 32 && b2 == 0xA0 + v % 32);
        assert(is_start_byte(b0) && is_cont_byte(b1) && is_end_byte(b2));
        assert(e.len() == 3 && e[0] == b0 && e[1] == b1 && e[2] == b2);
        assert(forall|i: int| 1 <= i < 2 ==> is_cont_byte(#[trigger] e[i]));
        assert(e.drop_last() =~= seq![b0, b1]);
        assert(seq![b0, b1].drop_last() =~= seq![b0]);
        assert(seq![b0].drop_last().len() == 0 && seq![b0].last() == b0);
        assert(value_of(seq![b0].drop_last()) == 0);
        assert(seq![b0, b1].last() == b1);
        assert(e.last() == b2);
        assert(value_of(seq![b0]) == v / 1024);
        assert(value_of(seq![b0, b1]) == (v / 1024) * 32 + (v / 32) % 32);
        assert(value_of(e) == ((v / 1024) * 32 + (v / 32) % 32) * 32 + (v % 32));
        assert(v as int == 32 * (v as int / 32) + v as int % 32);
        assert(v as int / 32 == 32 * (v as int / 1024) + (v as int / 32) % 32);
    } else {
        vstd::arithmetic::div_mod::lemma_fundamental_div_mod(v as int, 32);
        vstd::arithmetic::div_mod::lemma_fundamental_div_mod(v as int / 32, 32);
        vstd::arithmetic::div_mod::lemma_fundamental_div_mod(v as int / 1024, 32);
        vstd::arithmetic::div_mod::lemma_div_denominator(v as int, 32, 32);
        vstd::arithmetic::div_mod::lemma_div_denominator(v as int, 1024, 32);
        assert(v as int / 1024 == (v as int / 32) / 32);
        assert(v as int / 32768 == (v as int / 1024) / 32);
        assert(2 <= v / 32768 < 64);
        assert(0 <= (v / 1024) % 32 < 32 && 0 <= (v / 32) % 32 < 32 && 0 <= v % 32 < 32);
        let b0 = (0xC0 + v / 32768) as u8;
        let b1 = (0x80 + (v / 1024) % 32) as u8;
        let b2 = (0x80 + (v / 32) % 32) as u8;
        let b3 = (0xA0 + v % 32) as u8;
        assert(b0 == 0xC0 + v / 32768 && b1 == 0x80 + (v / 1024) % 32 && b2 == 0x80 + (v / 32) % 32
            && b3 == 0xA0 + v % 32);
        assert(is_start_byte(b0) && is_cont_byte(b1) && is_cont_byte(b2) && is_end_byte(b3));
        assert(e.len() == 4 && e[0] == b0 && e[1] == b1 && e[2] == b2 && e[3] == b3);
        assert(forall|i: int| 1 <= i < 3 ==> is_cont_byte(#[trigger] e[i]));
        assert(e.drop_last() =~= seq![b0, b1, b2]);
        assert(seq![b0, b1, b2].drop_last() =~= seq![b0, b1]);
        assert(seq![b0, b1].drop_last() =~= seq![b0]);
        assert(seq![b0].drop_last().len() == 0 && seq![b0].last() == b0);
        assert(value_of(seq![b0].drop_last()) == 0);
        assert(seq![b0, b1].last() == b1);
        assert(seq![b0, b1, b2].last() == b2);
        assert(e.last() == b3);
        assert(value_of(seq![b0]) == v / 32768);
        assert(value_of(seq![b0, b1]) == (v / 32768) * 32 + (v / 1024) % 32);
        assert(value_of(seq![b0, b1, b2]) == ((v / 32768) * 32 + (v / 1024) % 32) * 32 + (v / 32)
            % 32);
        assert(value_of(e) == (((v / 32768) * 32 + (v / 1024) % 32) * 32 + (v / 32) % 32) * 32 + (v
            % 32));
        assert(v as int == 32 * (v as int / 32) + v as int % 32);
        assert(v as int / 32 == 32 * (v as int / 1024) + (v as int / 32) % 32);
        assert(v as int / 1024 == 32 * (v as int / 32768) + (v as int / 1024) % 32);
    }
}

/// Encoding a string of in-range values gives a valid buffer that decodes
/// back to exactly those values.
pub proof fn lemma_encode_seq_decodes(vs: Seq<u32>)
    requires
        all_in_range(vs),
    ensures
        buf_ok(encode_seq(vs)),
        decode_spec(encode_seq(vs)) =~= vs,
    decreases vs.len(),
{
    if vs.len() == 0 {
    } else {
        assert(in_range(vs[0]));
        lemma_encoding_wf(vs[0]);
        lemma_encode_seq_decodes(vs.skip(1));
        lemma_decode_prepend(encoding_of(vs[0]), encode_seq(vs.skip(1)));
        lemma_value_of_nonneg(encoding_of(vs[0]));
    }
}

/// Appending one value to a string appends its encoding to the buffer.
pub proof fn lemma_encode_seq_push(vs: Seq<u32>, v: u32)
    ensures
        encode_seq(vs.push(v)) =~= encode_seq(vs) + encoding_of(v),
    decreases vs.len(),
{
    let w = vs.push(v);
    assert(w.len() == vs.len() + 1);
    if vs.len() == 0 {
        assert(w[0] == v);
        assert(w.skip(1) =~= Seq::<u32>::empty());
        assert(encode_seq(w) == encoding_of(v) + encode_seq(w.skip(1)));
        assert(encode_seq(w.skip(1)).len() == 0);
        assert(encode_seq(vs).len() == 0);
    } else {
        assert(w[0] == vs[0]);
        assert(w.skip(1) =~= vs.skip(1).push(v));
        lemma_encode_seq_push(vs.skip(1), v);
        assert(encode_seq(w) == encoding_of(vs[0]) + encode_seq(w.skip(1)));
        assert(encode_seq(vs) == encoding_of(vs[0]) + encode_seq(vs.skip(1)));
        assert(encode_seq(w.skip(1)) =~= encode_seq(vs.skip(1)) + encoding_of(v));
    }
}

/// A nonempty valid buffer also splits at its last sequence: a valid prefix
/// followed by one well-formed sequence, whose value is the last value.
pub proof fn lemma_buf_ok_last(s: Seq<u8>)
    requires
        buf_ok(s),
        s.len() > 0,
    ensures
        1 <= last_len(s) <= 4,
        last_len(s) <= s.len(),
        wf_sequence(s.skip(s.len() - last_len(s))),
        buf_ok(s.take(s.len() - last_len(s))),
        0 <= value_of(s.skip(s.len() - last_len(s))) < 0x20_0000,
        decode_spec(s) =~= decode_spec(s.take(s.len() - last_len(s))) + seq![
            value_of(s.skip(s.len() - last_len(s))) as u32,
        ],
        decode_spec(s).len() == decode_spec(s.take(s.len() - last_len(s))).len() + 1,
        decode_spec(s).last() == value_of(s.skip(s.len() - last_len(s))) as u32,
        decode_spec(s.take(s.len() - last_len(s))) =~= decode_spec(s).drop_last(),
    decreases s.len(),
{
    lemma_buf_ok_structure(s);
    let n = first_len(s);
    let q = s.take(n);
    let r = s.skip(n);
    if r.len() == 0 {
        assert(s =~= q);
        if n == 1 {
            assert(s.last() == s[0]);
            assert(is_singleton_byte(s.last()));
            assert(last_len(s) == 1);
        } else {
            assert(s.last() == s[n - 1]);
            assert(q[n - 1] == s[n - 1]);
            assert(is_end_byte(s.last()));
            assert(!is_singleton_byte(s.last()));
            let d = s.drop_last();
            assert(d.len() == n - 1);
            assert forall|i: int| d.len() - (n - 2) <= i < d.len() implies is_cont_byte(
                #[trigger] d[i],
            ) by {
                assert(d[i] == q[i]);
            }
            assert(d[0] == q[0] && is_start_byte(q[0]) && !is_cont_byte(d[0]));
            lemma_crl_back_exact(d, n - 2);
            assert(last_len(s) == n);
        }
        assert(s.skip(s.len() - last_len(s)) =~= q);
        assert(s.take(0).len() == 0);
        assert(decode_spec(s.take(0)).len() == 0);
        lemma_wf_value_bound(q);
    } else {
        lemma_buf_ok_last(r);
        let k = last_len(r);
        let zr = r.skip(r.len() - k);
        assert(s.skip(s.len() - k) =~= zr);
        assert(s.last() == r.last());
        if k == 1 {
            assert(zr.len() == 1);
            assert(r.last() == zr[0]);
            assert(is_singleton_byte(s.last()));
            assert(last_len(s) == 1);
        } else {
            assert(zr[k - 1] == r.last());
            assert(is_end_byte(s.last()) && !is_singleton_byte(s.last()));
            let d = s.drop_last();
            assert(d.len() == s.len() - 1);
            assert forall|i: int| d.len() - (k - 2) <= i < d.len() implies is_cont_byte(
                #[trigger] d[i],
            ) by {
                assert(d[i] == s[i]);
                assert(s[i] == zr[i - (s.len() - k)]);
            }
            assert(d[d.len() - (k - 2) - 1] == s[s.len() - k]);
            assert(s[s.len() - k] == zr[0]);
            assert(is_start_byte(zr[0]) && !is_cont_byte(zr[0]));
            lemma_crl_back_exact(d, k - 2);
            assert(last_len(s) == k);
        }
        let pr = r.take(r.len() - k);
        assert(s.take(s.len() - k) =~= q + pr);
        lemma_decode_prepend(q, pr);
        lemma_wf_value_bound(zr);
    }
}

/// Parsing a valid buffer from the back yields the same values as parsing
/// it from the front, in reverse order.
pub proof fn lemma_decode_back_agrees(s: Seq<u8>)
    requires
        buf_ok(s),
    ensures
        decode_result_back(s) is Ok,
        decode_result_back(s)->Ok_0 =~= decode_spec(s).reverse(),
    decreases s.len(),
{
    if s.len() == 0 {
        assert(decode_spec(s).reverse() =~= Seq::<u32>::empty());
    } else {
        lemma_buf_ok_last(s);
        let k = last_len(s);
        let m = s.len() - k;
        let p = s.take(m);
        let z = s.skip(m);
        lemma_decode_back_agrees(p);
        let pa = decode_spec(p);
        let x = value_of(z) as u32;
        assert((pa + seq![x]).reverse() =~= seq![x] + pa.reverse());
        if k == 1 {
            assert(z.len() == 1);
            assert(s.last() == z[0]);
            assert(is_singleton_byte(s.last()));
            assert(s.drop_last() =~= p);
            assert(z.drop_last().len() == 0 && z.last() == z[0]);
            assert(value_of(z) == value_of(z.drop_last()) * 32 + data_bits(z.last()));
            assert(value_of(z) == z[0]);
        } else {
            assert(z[k - 1] == s.last());
            assert(is_end_byte(s.last()) && !is_singleton_byte(s.last()));
            let d = s.drop_last();
            assert forall|i: int| d.len() - (k - 2) <= i < d.len() implies is_cont_byte(
                #[trigger] d[i],
            ) by {
                assert(d[i] == s[i]);
                assert(s[i] == z[i - m]);
            }
            assert(d[d.len() - (k - 2) - 1] == s[m]);
            assert(s[m] == z[0]);
            assert(is_start_byte(z[0]) && !is_cont_byte(z[0]));
            lemma_crl_back_exact(d, k - 2);
            assert(s.take(s.len() - k) =~= p);
        }
    }
}

/// The bytes inside a backward continuation run are continuation bytes.
pub proof fn lemma_crl_back_bytes(s: Seq<u8>)
    ensures
        cont_run_len_back(s) <= s.len(),
        forall|i: int|
            s.len() - cont_run_len_back(s) <= i < s.len() ==> is_cont_byte(#[trigger] s[i]),
    decreases s.len(),
{
    if s.len() > 0 && is_cont_byte(s.last()) {
        lemma_crl_back_bytes(s.drop_last());
        assert forall|i: int|
            s.len() - cont_run_len_back(s) <= i < s.len() implies is_cont_byte(
            #[trigger] s[i],
        ) by {
            if i < s.len() - 1 {
                assert(s[i] == s.drop_last()[i]);
            } else {
                assert(s[i] == s.last());
            }
        }
    }
}

/// A buffer the backward parser accepts is a valid buffer: the two
/// directions agree on where sequences begin and end.
pub proof fn lemma_back_ok_implies_buf_ok(s: Seq<u8>)
    requires
        decode_result_back(s) is Ok,
    ensures
        buf_ok(s),
    decreases s.len(),
{
    if s.len() == 0 {
    } else if is_singleton_byte(s.last()) {
        let p = s.drop_last();
        let z = s.subrange(s.len() - 1, s.len() as int);
        assert(decode_result_back(p) is Ok);
        lemma_back_ok_implies_buf_ok(p);
        assert(z.len() == 1 && z[0] == s.last());
        assert(wf_sequence(z));
        lemma_wf_buf_ok(z);
        lemma_decode_concat(p, z);
        assert(p + z =~= s);
    } else {
        assert(is_end_byte(s.last()));
        let d = s.drop_last();
        let n = 2 + cont_run_len_back(d) as int;
        assert(n <= s.len() && is_start_byte(s[s.len() - n]) && n <= 4 && decode_result_back(
            s.take(s.len() - n),
        ) is Ok);
        let m = s.len() - n;
        let p = s.take(m);
        let z = s.skip(m);
        lemma_back_ok_implies_buf_ok(p);
        lemma_crl_back_bytes(d);
        assert(z.len() == n);
        assert(z[0] == s[m]);
        assert forall|i: int| 1 <= i < n - 1 implies is_cont_byte(#[trigger] z[i]) by {
            assert(z[i] == s[m + i]);
            assert(s[m + i] == d[m + i]);
            assert(d.len() - cont_run_len_back(d) <= m + i < d.len());
        }
        assert(z[n - 1] == s.last());
        assert(wf_sequence(z));
        lemma_wf_buf_ok(z);
        lemma_decode_concat(p, z);
        assert(p + z =~= s);
    }
}

/// The backward continuation run is exactly the number of trailing
/// continuation bytes.
pub proof fn lemma_crl_back_exact(s: Seq<u8>, k: int)
    requires
        0 <= k <= s.len(),
        forall|i: int| s.len() - k <= i < s.len() ==> is_cont_byte(#[trigger] s[i]),
        k < s.len() ==> !is_cont_byte(s[s.len() - k - 1]),
    ensures
        cont_run_len_back(s) == k,
    decreases s.len(),
{
    if k == 0 {
    } else {
        assert(forall|i: int|
            s.drop_last().len() - (k - 1) <= i < s.drop_last().len() ==> is_cont_byte(
                #[trigger] s.drop_last()[i],
            ));
        lemma_crl_back_exact(s.drop_last(), k - 1);
    }
}

} // verus!
