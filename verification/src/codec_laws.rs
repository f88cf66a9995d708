//! The two laws that tie encoding and decoding together.
//!
//! `lemma_round_trip`: decoding the encoding of any constructible value
//! yields that value back and consumes exactly its encoding.
//!
//! `lemma_prefix_incomplete`: decoding any strict prefix of a valid encoding
//! reports `Incomplete`, never a framing error, so a caller reading from a
//! stream can always wait for more bytes.

use vstd::prelude::*;

use crate::ascii::{
    all_digits, digits_val, int_dec, int_line_i64, int_line_ok, int_line_val, is_digit,
    lemma_u_dec_digits, u_dec,
};
use crate::decode::{
    clip_to, find_crlf, lemma_find_crlf_at_idx, lemma_find_crlf_none, null_line, pair_at,
    spec_decode, spec_decode_elems, ElemsStep, SpecStep,
};
use crate::resp::{crlf, encode_list, no_crlf, spec_encode, wf, wf_list, RespModel};

verus! {

/// Digits are never part of a terminator.
pub proof fn lemma_digits_no_crlf(s: Seq<u8>)
    requires
        all_digits(s),
    ensures
        no_crlf(s),
{
    assert forall|i: int| 0 <= i && i + 1 < s.len() implies !(s[i] == 13 && #[trigger] s[i + 1]
        == 10) by {
        assert(is_digit(s[i]));
    }
}

/// The decimal notation of a 64-bit integer is a well-formed integer body
/// with that value, and contains no terminator.
pub proof fn lemma_int_dec_props(i: int)
    requires
        i64::MIN <= i <= i64::MAX,
    ensures
        int_line_i64(int_dec(i)),
        int_line_val(int_dec(i)) == i,
        no_crlf(int_dec(i)),
{
    if i < 0 {
        lemma_u_dec_digits((-i) as nat);
        let s = seq![45u8] + u_dec((-i) as nat);
        assert(s[0] == 45);
        assert(s.drop_first() =~= u_dec((-i) as nat));
        assert(int_line_ok(s));
        assert(int_line_val(s) == -digits_val(u_dec((-i) as nat)));
        assert forall|j: int| 0 <= j && j + 1 < s.len() implies !(s[j] == 13 && #[trigger] s[j + 1]
            == 10) by {
            assert(s[j + 1] == u_dec((-i) as nat)[j]);
            assert(is_digit(s[j + 1]));
        }
    } else {
        lemma_u_dec_digits(i as nat);
        let s = u_dec(i as nat);
        assert(is_digit(s[0]));
        assert(int_line_ok(s));
        assert(int_line_val(s) == digits_val(s));
        lemma_digits_no_crlf(s);
    }
}

/// The canonical digits of a number are never the null marker line.
pub proof fn lemma_u_dec_not_null(n: nat)
    ensures
        u_dec(n) != null_line(),
{
    lemma_u_dec_digits(n);
    if u_dec(n) == null_line() {
        assert(is_digit(u_dec(n)[0]));
        assert(u_dec(n)[0] == 45);
    }
}

/// In `line` + CR LF + `rest`, the first terminator stands exactly after
/// `line`, provided `line` holds none.
pub proof fn lemma_header_line(line: Seq<u8>, rest: Seq<u8>)
    requires
        no_crlf(line),
    ensures
        find_crlf(line + crlf() + rest) == Some(line.len() as int),
{
    let s = line + crlf() + rest;
    let i = line.len() as int;
    assert(s[i] == 13);
    assert(s[i + 1] == 10);
    assert(pair_at(s, i));
    assert forall|j: int| 0 <= j < i implies !#[trigger] pair_at(s, j) by {
        if j + 1 < line.len() {
            assert(s[j] == line[j]);
            assert(s[j + 1] == line[j + 1]);
        } else {
            assert(j + 1 == line.len());
            assert(s[j + 1] == 13);
        }
    }
    lemma_find_crlf_at_idx(s, i);
}

/// A buffer that ends inside a header line or just after its CR holds no
/// terminator yet.
pub proof fn lemma_header_prefix_none(line: Seq<u8>, m: int)
    requires
        no_crlf(line),
        0 <= m <= line.len() + 1,
    ensures
        find_crlf((line + crlf()).take(m)) == None::<int>,
{
    let b = (line + crlf()).take(m);
    assert forall|j: int| 0 <= j && j + 1 < b.len() implies !#[trigger] pair_at(b, j) by {
        if j + 1 < line.len() {
            assert(b[j] == line[j]);
            assert(b[j + 1] == line[j + 1]);
        } else {
            assert(j + 1 == line.len());
            assert(b[j + 1] == 13);
        }
    }
    lemma_find_crlf_none(b);
}

/// Decoding the encoding of a constructible value, with anything after it,
/// yields the value and consumes exactly the encoding.
pub proof fn lemma_decode_encode(v: RespModel, rest: Seq<u8>)
    requires
        wf(v),
    ensures
        spec_decode(spec_encode(v) + rest) == SpecStep::Val(v, spec_encode(v).len() as int),
    decreases v,
{
    let enc = spec_encode(v);
    let s = enc + rest;
    match v {
        RespModel::SimpleString(t) => {
            assert(s.drop_first() =~= t + crlf() + rest);
            lemma_header_line(t, rest);
            assert((t + crlf() + rest).take(t.len() as int) =~= t);
        },
        RespModel::Error(t) => {
            assert(s.drop_first() =~= t + crlf() + rest);
            lemma_header_line(t, rest);
            assert((t + crlf() + rest).take(t.len() as int) =~= t);
        },
        RespModel::Integer(i) => {
            let line = int_dec(i as int);
            lemma_int_dec_props(i as int);
            assert(s[0] == 58);
            assert(s.drop_first() =~= line + crlf() + rest);
            lemma_header_line(line, rest);
            assert((line + crlf() + rest).take(line.len() as int) =~= line);
        },
        RespModel::BulkString(None) => {
            let line = null_line();
            assert(enc =~= seq![36u8] + line + crlf());
            assert(s[0] == 36);
            assert(s.drop_first() =~= line + crlf() + rest);
            assert(no_crlf(line));
            lemma_header_line(line, rest);
            assert((line + crlf() + rest).take(line.len() as int) =~= line);
        },
        RespModel::BulkString(Some(p)) => {
            let line = u_dec(p.len());
            lemma_u_dec_digits(p.len());
            lemma_u_dec_not_null(p.len());
            lemma_digits_no_crlf(line);
            assert(s[0] == 36);
            let body = line + crlf() + (p + crlf() + rest);
            assert(s.drop_first() =~= body);
            lemma_header_line(line, p + crlf() + rest);
            let i = line.len() as int;
            assert(body.take(i) =~= line);
            let l = digits_val(line);
            assert(l == p.len());
            assert(body.len() == i + 2 + p.len() + 2 + rest.len());
            assert(body.subrange(i + 2, i + 2 + l) =~= p);
            assert(enc.len() == 1 + i + 2 + l + 2);
        },
        RespModel::Array(vs) => {
            let line = u_dec(vs.len());
            lemma_u_dec_digits(vs.len());
            lemma_u_dec_not_null(vs.len());
            lemma_digits_no_crlf(line);
            assert(s[0] == 42);
            let tail = encode_list(vs) + rest;
            let body = line + crlf() + tail;
            assert(s.drop_first() =~= body);
            lemma_header_line(line, tail);
            let i = line.len() as int;
            assert(body.take(i) =~= line);
            let c = digits_val(line);
            assert(c == vs.len());
            assert(clip_to(i + 2, body.len() as int) == i + 2);
            assert(body.skip(i + 2) =~= tail);
            lemma_decode_encode_list(vs, rest);
            assert(spec_decode_elems(tail, vs.len()) == ElemsStep::Vals(
                vs,
                encode_list(vs).len() as int,
            ));
            assert(enc.len() == 1 + i + 2 + encode_list(vs).len());
        },
    }
}

/// Decoding the concatenated encodings of `vs`, with anything after them,
/// yields `vs` and consumes exactly those encodings.
pub proof fn lemma_decode_encode_list(vs: Seq<RespModel>, rest: Seq<u8>)
    requires
        wf_list(vs),
    ensures
        spec_decode_elems(encode_list(vs) + rest, vs.len()) == ElemsStep::Vals(
            vs,
            encode_list(vs).len() as int,
        ),
    decreases vs,
{
    if vs.len() == 0 {
        assert(vs =~= Seq::<RespModel>::empty());
    } else {
        let enc0 = spec_encode(vs[0]);
        let d = vs.drop_first();
        let s = encode_list(vs) + rest;
        assert(s =~= enc0 + (encode_list(d) + rest));
        lemma_decode_encode(vs[0], encode_list(d) + rest);
        let n0 = enc0.len() as int;
        assert(spec_decode(s) == SpecStep::Val(vs[0], n0));
        assert(clip_to(n0, s.len() as int) == n0);
        assert(s.skip(n0) =~= encode_list(d) + rest);
        lemma_decode_encode_list(d, rest);
        assert(seq![vs[0]] + d =~= vs);
        assert(encode_list(vs).len() == n0 + encode_list(d).len());
    }
}

/// Round trip: decoding the encoding of a constructible value yields exactly
/// that value, consuming the whole encoding.
pub proof fn lemma_round_trip(v: RespModel)
    requires
        wf(v),
    ensures
        spec_decode(spec_encode(v)) == SpecStep::Val(v, spec_encode(v).len() as int),
{
    lemma_decode_encode(v, Seq::empty());
    assert(spec_encode(v) + Seq::<u8>::empty() =~= spec_encode(v));
}

/// The encoding is one-to-one over constructible values: no two of them
/// share wire bytes.
pub proof fn lemma_encode_injective(v1: RespModel, v2: RespModel)
    requires
        wf(v1),
        wf(v2),
        spec_encode(v1) == spec_encode(v2),
    ensures
        v1 == v2,
{
    lemma_round_trip(v1);
    lemma_round_trip(v2);
}

/// Every strict prefix of a valid encoding decodes to `Incomplete`: partial
/// data is never mistaken for a framing error or for a shorter value.
pub proof fn lemma_prefix_incomplete(v: RespModel, k: int)
    requires
        wf(v),
        0 <= k < spec_encode(v).len(),
    ensures
        spec_decode(spec_encode(v).take(k)) == SpecStep::Incomplete,
    decreases v,
{
    let enc = spec_encode(v);
    let s = enc.take(k);
    if k == 0 {
        return ;
    }
    match v {
        RespModel::SimpleString(t) => {
            lemma_prefix_header_only(43u8, t, k, enc);
        },
        RespModel::Error(t) => {
            lemma_prefix_header_only(45u8, t, k, enc);
        },
        RespModel::Integer(i) => {
            lemma_int_dec_props(i as int);
            lemma_prefix_header_only(58u8, int_dec(i as int), k, enc);
        },
        RespModel::BulkString(None) => {
            assert(enc =~= seq![36u8] + null_line() + crlf());
            assert(no_crlf(null_line()));
            lemma_prefix_header_only(36u8, null_line(), k, enc);
        },
        RespModel::BulkString(Some(p)) => {
            let line = u_dec(p.len());
            lemma_u_dec_digits(p.len());
            lemma_u_dec_not_null(p.len());
            lemma_digits_no_crlf(line);
            let i = line.len() as int;
            let body = s.drop_first();
            assert(s[0] == 36);
            if k - 1 <= i + 1 {
                assert(body =~= (line + crlf()).take(k - 1));
                lemma_header_prefix_none(line, k - 1);
            } else {
                assert(body =~= line + crlf() + (p + crlf()).take(k - 1 - (i + 2)));
                lemma_header_line(line, (p + crlf()).take(k - 1 - (i + 2)));
                assert(body.take(i) =~= line);
                let l = digits_val(line);
                assert(l == p.len());
                assert(body.len() == k - 1);
                assert(enc.len() == 1 + i + 2 + l + 2);
                assert(body.len() < i + 2 + l + 2);
            }
        },
        RespModel::Array(vs) => {
            let line = u_dec(vs.len());
            lemma_u_dec_digits(vs.len());
            lemma_u_dec_not_null(vs.len());
            lemma_digits_no_crlf(line);
            let i = line.len() as int;
            let body = s.drop_first();
            assert(s[0] == 42);
            if k - 1 <= i + 1 {
                assert(body =~= (line + crlf()).take(k - 1));
                lemma_header_prefix_none(line, k - 1);
            } else {
                let j = k - 1 - (i + 2);
                assert(body =~= line + crlf() + encode_list(vs).take(j));
                lemma_header_line(line, encode_list(vs).take(j));
                assert(body.take(i) =~= line);
                let c = digits_val(line);
                assert(c == vs.len());
                assert(clip_to(i + 2, body.len() as int) == i + 2);
                assert(body.skip(i + 2) =~= encode_list(vs).take(j));
                assert(enc.len() == 1 + i + 2 + encode_list(vs).len());
                assert(0 <= j < encode_list(vs).len());
                lemma_prefix_incomplete_list(vs, j);
            }
        },
    }
}

/// For the variants whose whole encoding is one header line, any strict
/// prefix still misses the terminator.
proof fn lemma_prefix_header_only(tag: u8, line: Seq<u8>, k: int, enc: Seq<u8>)
    requires
        tag == 43 || tag == 45 || tag == 58 || tag == 36 || tag == 42,
        no_crlf(line),
        enc == seq![tag] + line + crlf(),
        1 <= k < enc.len(),
    ensures
        find_crlf(enc.take(k).drop_first()) == None::<int>,
        spec_decode(enc.take(k)) == SpecStep::Incomplete,
    decreases 0int,
{
    let s = enc.take(k);
    assert(s[0] == tag);
    assert(s.drop_first() =~= (line + crlf()).take(k - 1));
    assert(k - 1 <= line.len() + 1);
    lemma_header_prefix_none(line, k - 1);
}

/// Cutting the concatenated encodings of `vs` short anywhere leaves an
/// incomplete run of elements.
pub proof fn lemma_prefix_incomplete_list(vs: Seq<RespModel>, j: int)
    requires
        wf_list(vs),
        0 <= j < encode_list(vs).len(),
    ensures
        spec_decode_elems(encode_list(vs).take(j), vs.len()) == ElemsStep::Incomplete,
    decreases vs,
{
    assert(vs.len() > 0) by {
        if vs.len() == 0 {
            assert(encode_list(vs).len() == 0);
        }
    }
    let enc0 = spec_encode(vs[0]);
    let d = vs.drop_first();
    let s = encode_list(vs).take(j);
    let n0 = enc0.len() as int;
    assert(wf(vs[0]) && wf_list(d));
    assert(encode_list(vs) == enc0 + encode_list(d));
    if j < n0 {
        assert(s =~= enc0.take(j));
        lemma_prefix_incomplete(vs[0], j);
        assert(spec_decode(s) == SpecStep::Incomplete);
        assert(spec_decode_elems(s, vs.len()) == ElemsStep::Incomplete);
    } else if j == n0 {
        assert(s =~= enc0);
        lemma_round_trip(vs[0]);
        assert(spec_decode(s) == SpecStep::Val(vs[0], n0));
        assert(clip_to(n0, s.len() as int) == n0);
        assert(s.skip(n0) =~= Seq::<u8>::empty());
        assert(vs.len() >= 2) by {
            if vs.len() == 1 {
                assert(encode_list(vs).len() == n0 + encode_list(d).len());
                assert(encode_list(d).len() == 0);
            }
        }
        assert(spec_decode(Seq::<u8>::empty()) == SpecStep::Incomplete);
        assert(spec_decode_elems(Seq::<u8>::empty(), (vs.len() - 1) as nat)
            == ElemsStep::Incomplete);
        assert(spec_decode_elems(s, vs.len()) == ElemsStep::Incomplete);
    } else {
        let tail_prefix = encode_list(d).take(j - n0);
        assert(s =~= enc0 + tail_prefix);
        lemma_decode_encode(vs[0], tail_prefix);
        assert(spec_decode(s) == SpecStep::Val(vs[0], n0));
        assert(clip_to(n0, s.len() as int) == n0);
        assert(s.skip(n0) =~= tail_prefix);
        assert(encode_list(vs).len() == n0 + encode_list(d).len());
        lemma_prefix_incomplete_list(d, j - n0);
        assert(spec_decode_elems(tail_prefix, d.len()) == ElemsStep::Incomplete);
        assert(spec_decode_elems(s, vs.len()) == ElemsStep::Incomplete);
    }
}

} // verus!
