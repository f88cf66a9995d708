//! The protocol's value type and its wire encoding.
//!
//! `RespValue` is the tagged union every request and reply is made of;
//! `RespModel` is its mathematical shadow, over `Seq<u8>` instead of
//! `Vec<u8>`. `spec_encode` defines the wire bytes of a value; `to_bytes`
//! produces exactly those bytes.

use vstd::prelude::*;

use crate::ascii::{int_dec, push_i64_dec, push_u64_dec, u_dec};

verus! {

/// One protocol-level datum.
///
/// `BulkString(None)` is the protocol's null bulk value. An `Array` is used
/// both for requests and for multi-part replies.
#[derive(Debug, PartialEq, Eq)]
pub enum RespValue {
    SimpleString(Vec<u8>),
    Error(Vec<u8>),
    Integer(i64),
    BulkString(Option<Vec<u8>>),
    Array(Vec<RespValue>),
}

/// The mathematical model of a `RespValue`.
#[verifier::ext_equal]
pub enum RespModel {
    SimpleString(Seq<u8>),
    Error(Seq<u8>),
    Integer(i64),
    BulkString(Option<Seq<u8>>),
    Array(Seq<RespModel>),
}

impl View for RespValue {
    type V = RespModel;

    open spec fn view(&self) -> RespModel
        decreases self,
    {
        match self {
            RespValue::SimpleString(s) => RespModel::SimpleString(s@),
            RespValue::Error(s) => RespModel::Error(s@),
            RespValue::Integer(i) => RespModel::Integer(*i),
            RespValue::BulkString(None) => RespModel::BulkString(None),
            RespValue::BulkString(Some(p)) => RespModel::BulkString(Some(p@)),
            RespValue::Array(a) => RespModel::Array(model_list(a@)),
        }
    }
}

/// The models of a sequence of values.
pub open spec fn model_list(l: Seq<RespValue>) -> Seq<RespModel>
    decreases l,
{
    if l.len() == 0 {
        Seq::empty()
    } else {
        seq![l[0]@] + model_list(l.drop_first())
    }
}

pub proof fn lemma_model_list(l: Seq<RespValue>)
    ensures
        model_list(l).len() == l.len(),
        forall|i: int| 0 <= i < l.len() ==> model_list(l)[i] == #[trigger] l[i]@,
    decreases l,
{
    if l.len() > 0 {
        lemma_model_list(l.drop_first());
        assert(model_list(l) == seq![l[0]@] + model_list(l.drop_first()));
        assert(model_list(l).len() == 1 + model_list(l.drop_first()).len());
        assert forall|i: int| 0 <= i < l.len() implies model_list(l)[i] == #[trigger] l[i]@ by {
            assert(model_list(l) == seq![l[0]@] + model_list(l.drop_first()));
            if i > 0 {
                assert(model_list(l)[i] == model_list(l.drop_first())[i - 1]);
                assert(l.drop_first()[i - 1] == l[i]);
            }
        }
    }
}

/// The two-byte line terminator CR LF.
pub open spec fn crlf() -> Seq<u8> {
    seq![13u8, 10u8]
}

/// True when `s` nowhere contains the two-byte terminator sequence.
pub open spec fn no_crlf(s: Seq<u8>) -> bool {
    forall|i: int| 0 <= i && i + 1 < s.len() ==> !(s[i] == 13 && #[trigger] s[i + 1] == 10)
}

/// A value is constructible when its status and error texts contain no
/// embedded terminator and its payload and element counts fit in a machine
/// word. Every value built from `Vec`s satisfies the size bounds; the
/// terminator bound is what makes a status line decodable.
pub open spec fn wf(v: RespModel) -> bool
    decreases v,
{
    match v {
        RespModel::SimpleString(s) => no_crlf(s),
        RespModel::Error(s) => no_crlf(s),
        RespModel::Integer(_) => true,
        RespModel::BulkString(None) => true,
        RespModel::BulkString(Some(p)) => p.len() <= usize::MAX,
        RespModel::Array(vs) => vs.len() <= usize::MAX && wf_list(vs),
    }
}

pub open spec fn wf_list(vs: Seq<RespModel>) -> bool
    decreases vs,
{
    if vs.len() == 0 {
        true
    } else {
        wf(vs[0]) && wf_list(vs.drop_first())
    }
}

/// The wire bytes of a value: the tag byte, a header line ended by CR LF,
/// and, for bulk and aggregate values, the payload or the encoded elements.
pub open spec fn spec_encode(v: RespModel) -> Seq<u8>
    decreases v,
{
    match v {
        RespModel::SimpleString(s) => seq![43u8] + s + crlf(),
        RespModel::Error(s) => seq![45u8] + s + crlf(),
        RespModel::Integer(i) => seq![58u8] + int_dec(i as int) + crlf(),
        RespModel::BulkString(None) => seq![36u8, 45u8, 49u8, 13u8, 10u8],
        RespModel::BulkString(Some(p)) => seq![36u8] + u_dec(p.len()) + crlf() + p + crlf(),
        RespModel::Array(vs) => seq![42u8] + u_dec(vs.len()) + crlf() + encode_list(vs),
    }
}

/// The encodings of a sequence of values, back to back.
pub open spec fn encode_list(vs: Seq<RespModel>) -> Seq<u8>
    decreases vs,
{
    if vs.len() == 0 {
        Seq::empty()
    } else {
        spec_encode(vs[0]) + encode_list(vs.drop_first())
    }
}

pub proof fn lemma_encode_list_take_succ(vs: Seq<RespModel>, i: int)
    requires
        0 <= i < vs.len(),
    ensures
        encode_list(vs.take(i + 1)) == encode_list(vs.take(i)) + spec_encode(vs[i]),
    decreases i,
{
    if i == 0 {
        assert(vs.take(0).len() == 0);
        let t = vs.take(1);
        assert(t[0] == vs[0]);
        assert(t.drop_first() =~= Seq::<RespModel>::empty());
        assert(encode_list(t) == spec_encode(vs[0]) + encode_list(t.drop_first()));
        assert(encode_list(vs.take(0)) + spec_encode(vs[0]) =~= spec_encode(vs[0]) + Seq::<
            u8,
        >::empty());
    } else {
        let d = vs.drop_first();
        lemma_encode_list_take_succ(d, i - 1);
        assert(vs.take(i + 1)[0] == vs[0]);
        assert(vs.take(i + 1).drop_first() =~= d.take(i));
        assert(vs.take(i)[0] == vs[0]);
        assert(vs.take(i).drop_first() =~= d.take(i - 1));
        assert(encode_list(vs.take(i + 1)) == spec_encode(vs[0]) + encode_list(d.take(i)));
        assert(encode_list(vs.take(i)) == spec_encode(vs[0]) + encode_list(d.take(i - 1)));
        assert(d[i - 1] == vs[i]);
        assert((spec_encode(vs[0]) + encode_list(d.take(i - 1))) + spec_encode(vs[i]) =~= spec_encode(
            vs[0],
        ) + (encode_list(d.take(i - 1)) + spec_encode(vs[i])));
    }
}

/// Appends a copy of `src` to `dst`.
pub fn push_bytes(dst: &mut Vec<u8>, src: &[u8])
    ensures
        final(dst)@ == old(dst)@ + src@,
{
    let mut i: usize = 0;
    while i < src.len()
        invariant
            i <= src@.len(),
            dst@ == old(dst)@ + src@.take(i as int),
        decreases src@.len() - i,
    {
        dst.push(src[i]);
        proof {
            assert(src@.take(i + 1) =~= src@.take(i as int).push(src@[i as int]));
            assert(old(dst)@ + src@.take(i + 1) =~= (old(dst)@ + src@.take(i as int)).push(
                src@[i as int],
            ));
        }
        i = i + 1;
    }
    proof {
        assert(src@.take(src@.len() as int) =~= src@);
    }
}

impl RespValue {
    /// The payload of a non-null bulk value, if the value is one.
    pub fn as_bulk(&self) -> (r: Option<&Vec<u8>>)
        ensures
            match r {
                Some(b) => self@ is BulkString && self@->BulkString_0 is Some && b@
                    == self@->BulkString_0->0,
                None => !(self@ is BulkString && self@->BulkString_0 is Some),
            },
    {
        match self {
            RespValue::BulkString(Some(b)) => Some(b),
            _ => None,
        }
    }

    /// A copy of the value, equal to it in the model.
    #[verifier::loop_isolation(false)]
    pub fn duplicate(&self) -> (r: RespValue)
        ensures
            r@ == self@,
        decreases *self,
    {
        match self {
            RespValue::SimpleString(s) => RespValue::SimpleString(
                vstd::slice::slice_to_vec(s.as_slice()),
            ),
            RespValue::Error(s) => RespValue::Error(vstd::slice::slice_to_vec(s.as_slice())),
            RespValue::Integer(i) => RespValue::Integer(*i),
            RespValue::BulkString(None) => RespValue::BulkString(None),
            RespValue::BulkString(Some(p)) => RespValue::BulkString(
                Some(vstd::slice::slice_to_vec(p.as_slice())),
            ),
            RespValue::Array(a) => {
                let mut out: Vec<RespValue> = Vec::new();
                let mut i: usize = 0;
                while i < a.len()
                    invariant
                        i <= a@.len(),
                        out@.len() == i,
                        forall|j: int| 0 <= j < i ==> #[trigger] out@[j]@ == a@[j]@,
                    decreases a@.len() - i,
                {
                    proof {
                        assert(decreases_to!(*self => *a));
                        assert(decreases_to!(*a => a@));
                        assert(decreases_to!(a@ => a@[i as int]));
                        assert(decreases_to!(*self => a@[i as int]));
                    }
                    let e = a[i].duplicate();
                    out.push(e);
                    i = i + 1;
                }
                proof {
                    lemma_model_list(out@);
                    lemma_model_list(a@);
                    assert forall|j: int| 0 <= j < a@.len() implies model_list(out@)[j]
                        == model_list(a@)[j] by {
                        assert(out@[j]@ == a@[j]@);
                    }
                    assert(model_list(out@) =~= model_list(a@));
                }
                RespValue::Array(out)
            },
        }
    }

    /// Encodes the value for the wire: total and deterministic.
    #[verifier::loop_isolation(false)]
    pub fn to_bytes(&self) -> (r: Vec<u8>)
        ensures
            r@ == spec_encode(self@),
        decreases *self,
    {
        match self {
            RespValue::SimpleString(s) => {
                let mut r: Vec<u8> = Vec::new();
                r.push(43u8);
                push_bytes(&mut r, s.as_slice());
                r.push(13u8);
                r.push(10u8);
                proof {
                    assert(r@ =~= seq![43u8] + s@ + crlf());
                }
                r
            },
            RespValue::Error(s) => {
                let mut r: Vec<u8> = Vec::new();
                r.push(45u8);
                push_bytes(&mut r, s.as_slice());
                r.push(13u8);
                r.push(10u8);
                proof {
                    assert(r@ =~= seq![45u8] + s@ + crlf());
                }
                r
            },
            RespValue::Integer(i) => {
                let mut r: Vec<u8> = Vec::new();
                r.push(58u8);
                push_i64_dec(&mut r, *i);
                r.push(13u8);
                r.push(10u8);
                proof {
                    assert(r@ =~= seq![58u8] + int_dec(*i as int) + crlf());
                }
                r
            },
            RespValue::BulkString(None) => {
                let mut r: Vec<u8> = Vec::new();
                r.push(36u8);
                r.push(45u8);
                r.push(49u8);
                r.push(13u8);
                r.push(10u8);
                proof {
                    assert(r@ =~= seq![36u8, 45u8, 49u8, 13u8, 10u8]);
                }
                r
            },
            RespValue::BulkString(Some(p)) => {
                let mut r: Vec<u8> = Vec::new();
                r.push(36u8);
                push_u64_dec(&mut r, p.len() as u64);
                r.push(13u8);
                r.push(10u8);
                push_bytes(&mut r, p.as_slice());
                r.push(13u8);
                r.push(10u8);
                proof {
                    assert(r@ =~= seq![36u8] + u_dec(p@.len()) + crlf() + p@ + crlf());
                }
                r
            },
            RespValue::Array(a) => {
                let ghost vs = model_list(a@);
                proof {
                    lemma_model_list(a@);
                }
                let mut r: Vec<u8> = Vec::new();
                r.push(42u8);
                push_u64_dec(&mut r, a.len() as u64);
                r.push(13u8);
                r.push(10u8);
                proof {
                    assert(vs.len() == a@.len());
                    assert(r@ =~= seq![42u8] + u_dec(vs.len()) + crlf());
                    assert(encode_list(vs.take(0)) =~= Seq::<u8>::empty());
                    assert(r@ + encode_list(vs.take(0)) =~= r@);
                }
                let ghost header = r@;
                let mut i: usize = 0;
                while i < a.len()
                    invariant
                        i <= a@.len(),
                        vs.len() == a@.len(),
                        forall|j: int| 0 <= j < a@.len() ==> vs[j] == #[trigger] a@[j]@,
                        r@ == header + encode_list(vs.take(i as int)),
                        header == seq![42u8] + u_dec(vs.len()) + crlf(),
                    decreases a@.len() - i,
                {
                    proof {
                        assert(decreases_to!(*self => *a));
                        assert(decreases_to!(*a => a@));
                        assert(decreases_to!(a@ => a@[i as int]));
                        assert(decreases_to!(*self => a@[i as int]));
                    }
                    let b = a[i].to_bytes();
                    push_bytes(&mut r, b.as_slice());
                    proof {
                        lemma_encode_list_take_succ(vs, i as int);
                        assert((header + encode_list(vs.take(i as int))) + spec_encode(vs[i as int])
                            =~= header + (encode_list(vs.take(i as int)) + spec_encode(
                            vs[i as int],
                        )));
                    }
                    i = i + 1;
                }
                proof {
                    assert(vs.take(vs.len() as int) =~= vs);
                    assert(self@ =~= RespModel::Array(vs));
                }
                r
            },
        }
    }
}

} // verus!
