//! Decoding one value from the front of a byte buffer.
//!
//! `spec_decode` is the mathematical decoder: it yields the decoded value
//! together with the number of bytes it occupies, or reports that the buffer
//! does not yet hold a whole value (`Incomplete`), or that it can never
//! become one (`Malformed`). The executable `decode` agrees with it exactly.
//!
//! Two deliberate points of leniency, kept from the wire grammar: the two
//! bytes after a bulk payload are skipped without being checked against the
//! terminator, and a `-1` aggregate count decodes to an empty aggregate. A
//! declared length or count beyond the machine's word size is reported as
//! `Incomplete`, since no buffer this process can hold reaches it.

use vstd::prelude::*;

use crate::ascii::{
    all_digits, digits_val, int_line_i64, int_line_val, check_digits, digits_value_capped,
    parse_int_line,
};
use crate::resp::{RespModel, RespValue, model_list, lemma_model_list};

verus! {

/// The terminator pair CR LF standing at offset `j` of `s`.
pub open spec fn pair_at(s: Seq<u8>, j: int) -> bool {
    s[j] == 13 && s[j + 1] == 10
}

/// The offset of the first terminator pair of `s`, if any.
pub open spec fn find_crlf(s: Seq<u8>) -> Option<int>
    decreases s.len(),
{
    if s.len() < 2 {
        None
    } else if s[0] == 13 && s[1] == 10 {
        Some(0)
    } else {
        match find_crlf(s.drop_first()) {
            Some(i) => Some(i + 1),
            None => None,
        }
    }
}

pub proof fn lemma_find_crlf_props(s: Seq<u8>)
    ensures
        match find_crlf(s) {
            Some(i) => 0 <= i && i + 2 <= s.len() && pair_at(s, i) && (forall|j: int|
                0 <= j < i ==> !#[trigger] pair_at(s, j)),
            None => forall|j: int| 0 <= j && j + 1 < s.len() ==> !#[trigger] pair_at(s, j),
        },
    decreases s.len(),
{
    if s.len() < 2 {
    } else if s[0] == 13 && s[1] == 10 {
    } else {
        let d = s.drop_first();
        lemma_find_crlf_props(d);
        assert(forall|j: int| 0 <= j && j + 1 < d.len() ==> #[trigger] pair_at(s, j + 1) == pair_at(
            d,
            j,
        ));
        match find_crlf(d) {
            Some(i) => {
                assert(pair_at(d, i));
                assert(pair_at(s, i + 1));
                assert forall|j: int| 0 <= j < i + 1 implies !#[trigger] pair_at(s, j) by {
                    if j == 0 {
                        assert(!pair_at(s, 0));
                    } else {
                        assert(!pair_at(d, j - 1));
                    }
                }
            },
            None => {
                assert forall|j: int| 0 <= j && j + 1 < s.len() implies !#[trigger] pair_at(
                    s,
                    j,
                ) by {
                    if j > 0 {
                        assert(!pair_at(d, j - 1));
                    }
                }
            },
        }
    }
}

pub proof fn lemma_find_crlf_at_idx(s: Seq<u8>, i: int)
    requires
        0 <= i,
        i + 2 <= s.len(),
        pair_at(s, i),
        forall|j: int| 0 <= j < i ==> !#[trigger] pair_at(s, j),
    ensures
        find_crlf(s) == Some(i),
{
    lemma_find_crlf_props(s);
    match find_crlf(s) {
        Some(i2) => {
            if i2 < i {
                assert(!pair_at(s, i2));
            } else if i < i2 {
                assert(!pair_at(s, i));
            }
        },
        None => {
            assert(!pair_at(s, i));
        },
    }
}

pub proof fn lemma_find_crlf_none(s: Seq<u8>)
    requires
        forall|j: int| 0 <= j && j + 1 < s.len() ==> !#[trigger] pair_at(s, j),
    ensures
        find_crlf(s) == None::<int>,
{
    lemma_find_crlf_props(s);
    match find_crlf(s) {
        Some(i) => {
            assert(!pair_at(s, i));
        },
        None => {},
    }
}

/// What decoding a buffer yields: a value and the count of bytes it
/// occupies, or the need for more bytes, or an unrecoverable framing error.
#[verifier::ext_equal]
pub enum SpecStep {
    Val(RespModel, int),
    Incomplete,
    Malformed,
}

/// What decoding a run of aggregate elements yields.
#[verifier::ext_equal]
pub enum ElemsStep {
    Vals(Seq<RespModel>, int),
    Incomplete,
    Malformed,
}

/// An offset clipped into a sequence's range; identity for every offset the
/// decoder actually produces.
pub open spec fn clip_to(n: int, len: int) -> int {
    if 0 <= n <= len {
        n
    } else {
        0
    }
}

/// The exact length line of a null bulk value: the two bytes `-1`.
pub open spec fn null_line() -> Seq<u8> {
    seq![45u8, 49u8]
}

/// Decodes one value from the front of `s`.
pub open spec fn spec_decode(s: Seq<u8>) -> SpecStep
    decreases s.len(), 0int, 0int,
{
    if s.len() < 1 {
        SpecStep::Incomplete
    } else {
        let tag = s[0];
        let body = s.drop_first();
        if tag == 43 || tag == 45 {
            // '+' simple status, '-' error status
            match find_crlf(body) {
                None => SpecStep::Incomplete,
                Some(i) => {
                    let line = body.take(i);
                    if tag == 43 {
                        SpecStep::Val(RespModel::SimpleString(line), 3 + i)
                    } else {
                        SpecStep::Val(RespModel::Error(line), 3 + i)
                    }
                },
            }
        } else if tag == 58 {
            // ':' integer
            match find_crlf(body) {
                None => SpecStep::Incomplete,
                Some(i) => {
                    let line = body.take(i);
                    if int_line_i64(line) {
                        SpecStep::Val(RespModel::Integer(int_line_val(line) as i64), 3 + i)
                    } else {
                        SpecStep::Malformed
                    }
                },
            }
        } else if tag == 36 {
            // '$' bulk bytes
            match find_crlf(body) {
                None => SpecStep::Incomplete,
                Some(i) => {
                    let line = body.take(i);
                    if line == null_line() {
                        SpecStep::Val(RespModel::BulkString(None), 3 + i)
                    } else if line.len() >= 1 && all_digits(line) {
                        let l = digits_val(line);
                        if l > usize::MAX {
                            SpecStep::Incomplete
                        } else if body.len() < i + 2 + l + 2 {
                            SpecStep::Incomplete
                        } else {
                            SpecStep::Val(
                                RespModel::BulkString(Some(body.subrange(i + 2, i + 2 + l))),
                                1 + i + 2 + l + 2,
                            )
                        }
                    } else {
                        SpecStep::Malformed
                    }
                },
            }
        } else if tag == 42 {
            // '*' aggregate
            match find_crlf(body) {
                None => SpecStep::Incomplete,
                Some(i) => {
                    let line = body.take(i);
                    if line == null_line() {
                        SpecStep::Val(RespModel::Array(Seq::empty()), 3 + i)
                    } else if line.len() >= 1 && all_digits(line) {
                        let c = digits_val(line);
                        if c > usize::MAX {
                            SpecStep::Incomplete
                        } else {
                            let rest = body.skip(clip_to(i + 2, body.len() as int));
                            match spec_decode_elems(rest, c as nat) {
                                ElemsStep::Vals(vs, m) => SpecStep::Val(
                                    RespModel::Array(vs),
                                    1 + i + 2 + m,
                                ),
                                ElemsStep::Incomplete => SpecStep::Incomplete,
                                ElemsStep::Malformed => SpecStep::Malformed,
                            }
                        }
                    } else {
                        SpecStep::Malformed
                    }
                },
            }
        } else {
            SpecStep::Malformed
        }
    }
}

/// Decodes `c` values from the front of `s`, back to back.
pub open spec fn spec_decode_elems(s: Seq<u8>, c: nat) -> ElemsStep
    decreases s.len(), c, 1int,
{
    if c == 0 {
        ElemsStep::Vals(Seq::empty(), 0)
    } else {
        match spec_decode(s) {
            SpecStep::Incomplete => ElemsStep::Incomplete,
            SpecStep::Malformed => ElemsStep::Malformed,
            SpecStep::Val(v, n) => {
                let used = clip_to(n, s.len() as int);
                match spec_decode_elems(s.skip(used), (c - 1) as nat) {
                    ElemsStep::Vals(vs, m) => ElemsStep::Vals(seq![v] + vs, used + m),
                    ElemsStep::Incomplete => ElemsStep::Incomplete,
                    ElemsStep::Malformed => ElemsStep::Malformed,
                }
            },
        }
    }
}

/// A decoded value occupies at least its tag and one terminator, and no more
/// than the whole buffer; a run of `c` decoded elements holds `c` values.
pub proof fn lemma_decode_used(s: Seq<u8>)
    ensures
        spec_decode(s) is Val ==> 3 <= spec_decode(s)->Val_1 <= s.len(),
    decreases s.len(), 0int, 0int,
{
    if s.len() >= 1 {
        let body = s.drop_first();
        lemma_find_crlf_props(body);
        let tag = s[0];
        match find_crlf(body) {
            Some(i) => {
                let line = body.take(i);
                assert(0 <= i && i + 2 <= body.len());
                if tag == 43 || tag == 45 || tag == 58 {
                    assert(spec_decode(s) is Val ==> spec_decode(s)->Val_1 == 3 + i);
                } else if tag == 36 {
                    if line != null_line() && line.len() >= 1 && all_digits(line) {
                        crate::ascii::lemma_digits_val_nonneg(line);
                    }
                    assert(spec_decode(s) is Val ==> 3 <= spec_decode(s)->Val_1 <= s.len());
                } else if tag == 42 {
                    if line != null_line() && line.len() >= 1 && all_digits(line) && digits_val(
                        line,
                    ) <= usize::MAX {
                        crate::ascii::lemma_digits_val_nonneg(line);
                        let rest = body.skip(clip_to(i + 2, body.len() as int));
                        lemma_decode_elems_used(rest, digits_val(line) as nat);
                        assert(rest.len() == body.len() - (i + 2));
                        assert(spec_decode(s) is Val ==> 3 <= spec_decode(s)->Val_1 <= s.len());
                    }
                }
            },
            None => {},
        }
    }
}

pub proof fn lemma_decode_elems_used(s: Seq<u8>, c: nat)
    ensures
        spec_decode_elems(s, c) is Vals ==> 0 <= spec_decode_elems(s, c)->Vals_1 <= s.len()
            && spec_decode_elems(s, c)->Vals_0.len() == c,
    decreases s.len(), c, 1int,
{
    if c > 0 {
        lemma_decode_used(s);
        match spec_decode(s) {
            SpecStep::Val(v, n) => {
                let used = clip_to(n, s.len() as int);
                lemma_decode_elems_used(s.skip(used), (c - 1) as nat);
            },
            _ => {},
        }
    }
}

/// What the executable decoder yields.
#[derive(Debug)]
pub enum DecodeResult {
    Complete(RespValue, usize),
    Incomplete,
    Malformed,
}

impl View for DecodeResult {
    type V = SpecStep;

    open spec fn view(&self) -> SpecStep {
        match self {
            DecodeResult::Complete(v, n) => SpecStep::Val(v@, *n as int),
            DecodeResult::Incomplete => SpecStep::Incomplete,
            DecodeResult::Malformed => SpecStep::Malformed,
        }
    }
}

pub enum ElemsResult {
    Complete(Vec<RespValue>, usize),
    Incomplete,
    Malformed,
}

impl View for ElemsResult {
    type V = ElemsStep;

    open spec fn view(&self) -> ElemsStep {
        match self {
            ElemsResult::Complete(vs, m) => ElemsStep::Vals(model_list(vs@), *m as int),
            ElemsResult::Incomplete => ElemsStep::Incomplete,
            ElemsResult::Malformed => ElemsStep::Malformed,
        }
    }
}

/// The offset, relative to `from`, of the first terminator pair at or after
/// `from`.
fn find_crlf_at(buf: &[u8], from: usize) -> (r: Option<usize>)
    requires
        from <= buf@.len(),
    ensures
        match r {
            Some(i) => find_crlf(buf@.skip(from as int)) == Some(i as int),
            None => find_crlf(buf@.skip(from as int)) == None::<int>,
        },
{
    let ghost s = buf@.skip(from as int);
    proof {
        assert(forall|t: int| 0 <= t < s.len() ==> #[trigger] s[t] == buf@[from + t]);
    }
    if buf.len() - from < 2 {
        return None;
    }
    let mut j: usize = from;
    while j < buf.len() - 1
        invariant
            from <= j <= buf@.len(),
            buf@.len() >= from + 2,
            s == buf@.skip(from as int),
            forall|t: int| 0 <= t < j - from ==> !#[trigger] pair_at(s, t),
        decreases buf@.len() - j,
    {
        if buf[j] == 13 && buf[j + 1] == 10 {
            proof {
                assert(s[j - from] == buf@[j as int]);
                assert(s[j - from + 1] == buf@[j + 1]);
                assert(pair_at(s, j - from));
                lemma_find_crlf_at_idx(s, j - from);
            }
            return Some(j - from);
        }
        proof {
            assert(s[j - from] == buf@[j as int]);
            assert(s[j - from + 1] == buf@[j + 1]);
            assert(!pair_at(s, j - from));
            assert(forall|t: int| 0 <= t < j + 1 - from ==> !#[trigger] pair_at(s, t));
        }
        j = j + 1;
    }
    proof {
        lemma_find_crlf_none(s);
    }
    None
}

/// Decodes one value from the front of `buf`: the executable twin of
/// `spec_decode`.
pub fn decode(buf: &[u8]) -> (r: DecodeResult)
    ensures
        r@ == spec_decode(buf@),
        r is Complete ==> r->Complete_1 <= buf@.len(),
{
    proof {
        assert(buf@.skip(0) =~= buf@);
    }
    decode_at(buf, 0)
}

#[verifier::rlimit(60)]
fn decode_at(buf: &[u8], pos: usize) -> (r: DecodeResult)
    requires
        pos <= buf@.len(),
    ensures
        r@ == spec_decode(buf@.skip(pos as int)),
        r is Complete ==> pos + r->Complete_1 <= buf@.len(),
    decreases buf@.len() - pos, 0int, 0int,
{
    let ghost s = buf@.skip(pos as int);
    if pos >= buf.len() {
        return DecodeResult::Incomplete;
    }
    let tag = buf[pos];
    proof {
        assert(s[0] == tag);
        assert(s.drop_first() =~= buf@.skip(pos + 1));
    }
    let ghost body = s.drop_first();
    if tag == 43 || tag == 45 {
        match find_crlf_at(buf, pos + 1) {
            None => DecodeResult::Incomplete,
            Some(i) => {
                proof {
                    lemma_find_crlf_props(body);
                    assert(body.take(i as int) =~= buf@.subrange(
                        pos + 1,
                        pos + 1 + i,
                    ));
                }
                let line = vstd::slice::slice_subrange(buf, pos + 1, pos + 1 + i);
                let text = vstd::slice::slice_to_vec(line);
                if tag == 43 {
                    DecodeResult::Complete(RespValue::SimpleString(text), 3 + i)
                } else {
                    DecodeResult::Complete(RespValue::Error(text), 3 + i)
                }
            },
        }
    } else if tag == 58 {
        match find_crlf_at(buf, pos + 1) {
            None => DecodeResult::Incomplete,
            Some(i) => {
                proof {
                    lemma_find_crlf_props(body);
                    assert(body.take(i as int) =~= buf@.subrange(
                        pos + 1,
                        pos + 1 + i,
                    ));
                }
                let line = vstd::slice::slice_subrange(buf, pos + 1, pos + 1 + i);
                match parse_int_line(line) {
                    Some(v) => DecodeResult::Complete(RespValue::Integer(v), 3 + i),
                    None => DecodeResult::Malformed,
                }
            },
        }
    } else if tag == 36 {
        match find_crlf_at(buf, pos + 1) {
            None => DecodeResult::Incomplete,
            Some(i) => {
                proof {
                    lemma_find_crlf_props(body);
                    assert(body.take(i as int) =~= buf@.subrange(
                        pos + 1,
                        pos + 1 + i,
                    ));
                }
                let line = vstd::slice::slice_subrange(buf, pos + 1, pos + 1 + i);
                if line.len() == 2 && line[0] == 45 && line[1] == 49 {
                    proof {
                        assert(line@ =~= null_line());
                    }
                    DecodeResult::Complete(RespValue::BulkString(None), 3 + i)
                } else if check_digits(line) {
                    proof {
                        assert(line@ != null_line());
                    }
                    match digits_value_capped(line, usize::MAX as u64) {
                        None => DecodeResult::Incomplete,
                        Some(l64) => {
                            let l = l64 as usize;
                            // Whole frame: header line, payload, skipped pair.
                            let after_line = pos + 1 + i + 2;
                            let rem = buf.len() - after_line;
                            if rem < 2 || rem - 2 < l {
                                DecodeResult::Incomplete
                            } else {
                                proof {
                                    assert(body.subrange(i + 2, i + 2 + l as int) =~= buf@.subrange(
                                        after_line as int,
                                        after_line + l,
                                    ));
                                }
                                let payload = vstd::slice::slice_subrange(
                                    buf,
                                    after_line,
                                    after_line + l,
                                );
                                let bytes = vstd::slice::slice_to_vec(payload);
                                DecodeResult::Complete(
                                    RespValue::BulkString(Some(bytes)),
                                    1 + i + 2 + l + 2,
                                )
                            }
                        },
                    }
                } else {
                    DecodeResult::Malformed
                }
            },
        }
    } else if tag == 42 {
        match find_crlf_at(buf, pos + 1) {
            None => DecodeResult::Incomplete,
            Some(i) => {
                proof {
                    lemma_find_crlf_props(body);
                    assert(body.take(i as int) =~= buf@.subrange(
                        pos + 1,
                        pos + 1 + i,
                    ));
                }
                let line = vstd::slice::slice_subrange(buf, pos + 1, pos + 1 + i);
                if line.len() == 2 && line[0] == 45 && line[1] == 49 {
                    proof {
                        assert(line@ =~= null_line());
                        assert(model_list(Seq::<RespValue>::empty()) =~= Seq::<
                            RespModel,
                        >::empty());
                    }
                    DecodeResult::Complete(RespValue::Array(Vec::new()), 3 + i)
                } else if check_digits(line) {
                    proof {
                        assert(line@ != null_line());
                    }
                    match digits_value_capped(line, usize::MAX as u64) {
                        None => DecodeResult::Incomplete,
                        Some(c64) => {
                            let c = c64 as usize;
                            let after_line = pos + 1 + i + 2;
                            proof {
                                assert(clip_to(i + 2, body.len() as int) == i + 2);
                                assert(body.skip(i + 2) =~= buf@.skip(after_line as int));
                            }
                            match decode_elems_at(buf, after_line, c) {
                                ElemsResult::Incomplete => DecodeResult::Incomplete,
                                ElemsResult::Malformed => DecodeResult::Malformed,
                                ElemsResult::Complete(vs, m) => DecodeResult::Complete(
                                    RespValue::Array(vs),
                                    1 + i + 2 + m,
                                ),
                            }
                        },
                    }
                } else {
                    DecodeResult::Malformed
                }
            },
        }
    } else {
        DecodeResult::Malformed
    }
}

fn decode_elems_at(buf: &[u8], pos: usize, count: usize) -> (r: ElemsResult)
    requires
        pos <= buf@.len(),
    ensures
        r@ == spec_decode_elems(buf@.skip(pos as int), count as nat),
        r is Complete ==> pos + r->Complete_1 <= buf@.len(),
    decreases buf@.len() - pos, count, 1int,
{
    let total: usize = buf.len();
    proof {
        assert(buf@.len() <= usize::MAX);
    }
    let ghost s = buf@.skip(pos as int);
    if count == 0 {
        proof {
            assert(model_list(Seq::<RespValue>::empty()) =~= Seq::<RespModel>::empty());
        }
        return ElemsResult::Complete(Vec::new(), 0);
    }
    match decode_at(buf, pos) {
        DecodeResult::Incomplete => ElemsResult::Incomplete,
        DecodeResult::Malformed => ElemsResult::Malformed,
        DecodeResult::Complete(v, n) => {
            proof {
                lemma_decode_used(s);
                assert(3 <= n as int <= s.len());
                assert(clip_to(n as int, s.len() as int) == n as int);
                assert(s.skip(n as int) =~= buf@.skip(pos + n));
            }
            match decode_elems_at(buf, pos + n, count - 1) {
                ElemsResult::Incomplete => ElemsResult::Incomplete,
                ElemsResult::Malformed => ElemsResult::Malformed,
                ElemsResult::Complete(mut vs, m) => {
                    let ghost tail = vs@;
                    vs.insert(0, v);
                    proof {
                        assert(vs@ =~= seq![v] + tail);
                        assert((seq![v] + tail).drop_first() =~= tail);
                        assert(model_list(vs@) == seq![v@] + model_list(tail));
                    }
                    ElemsResult::Complete(vs, n + m)
                },
            }
        },
    }
}

} // verus!
