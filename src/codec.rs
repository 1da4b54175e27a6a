use vstd::prelude::*;
use vstd::utf8::{encode_utf8, valid_utf8};

use crate::tuple::{ComparisonOperator, Request, RequestModel, Tuple, Value, ValueModel};
use crate::utils::{
    i32_le, push_i32, push_le, read_le_i32, read_le_u64, read_le_usize, u64_le,
};

verus! {

broadcast use {vstd::utf8::encode_utf8_decode_utf8, vstd::utf8::encode_utf8_valid_utf8};

/// A type with a byte encoding that decodes back without ambiguity.
pub trait Serializable: Sized + View {
    /// Whether a model has an encoding.
    spec fn encodable(v: Self::V) -> bool;

    /// The bytes that encode a model.
    spec fn encoding(v: Self::V) -> Seq<u8>;

    /// Whether this value has an encoding.
    fn can_encode(&self) -> (r: bool)
        ensures
            r == Self::encodable(self@),
    ;

    fn to_bytes(&self) -> (r: Vec<u8>)
        requires
            Self::encodable(self@),
        ensures
            r@ == Self::encoding(self@),
    ;

    /// Decodes a value off the front of `bytes` and leaves what follows it.
    /// Succeeds exactly when `bytes` starts with the encoding of some model,
    /// which is then the one decoded.
    fn from_bytes(bytes: &mut &[u8]) -> (r: Option<Self>)
        ensures
            r is Some ==> Self::encodable(r->0@) && old(bytes)@ == Self::encoding(r->0@)
                + final(bytes)@,
            forall|v: Self::V, rest: Seq<u8>|
                #![trigger Self::encoding(v) + rest]
                Self::encodable(v) && old(bytes)@ == Self::encoding(v) + rest ==> r is Some && r->0@
                    == v && final(bytes)@ == rest,
    ;
}

pub const INT_SIZE: i32 = -1;

pub const FLOAT_SIZE: i32 = -2;

pub const EMPTY_INT: i32 = -3;

pub const EMPTY_FLOAT: i32 = -4;

pub const EMPTY_STRING: i32 = -5;

/// The leading `i32` of a value's encoding: a tag, or a string's byte length.
pub open spec fn value_header(v: ValueModel) -> i32 {
    match v {
        ValueModel::Int(Some(_)) => INT_SIZE,
        ValueModel::Int(None) => EMPTY_INT,
        ValueModel::Float(Some(_)) => FLOAT_SIZE,
        ValueModel::Float(None) => EMPTY_FLOAT,
        ValueModel::Str(Some(s)) => encode_utf8(s).len() as i32,
        ValueModel::Str(None) => EMPTY_STRING,
    }
}

/// What follows the header in a value's encoding.
pub open spec fn value_payload(v: ValueModel) -> Seq<u8> {
    match v {
        ValueModel::Int(Some(i)) => i32_le(i),
        ValueModel::Float(Some(b)) => u64_le(b as nat),
        ValueModel::Str(Some(s)) => encode_utf8(s),
        _ => Seq::empty(),
    }
}

/// The wire code of an operator.
pub open spec fn op_code(op: ComparisonOperator) -> i32 {
    match op {
        ComparisonOperator::EQ => 0,
        ComparisonOperator::NEQ => 1,
        ComparisonOperator::GE => 2,
        ComparisonOperator::GT => 3,
        ComparisonOperator::LE => 4,
        ComparisonOperator::LT => 5,
        ComparisonOperator::ANY => 6,
    }
}

/// The encodings of the elements of `s`, one after the other.
pub open spec fn elements_encoding<T: Serializable>(s: Seq<T::V>) -> Seq<u8>
    decreases s.len(),
{
    if s.len() == 0 {
        Seq::empty()
    } else {
        T::encoding(s[0]) + elements_encoding::<T>(s.drop_first())
    }
}

/// The `String` behind some bytes, where they are valid UTF-8.
///
/// Relies on `String::from_utf8`: it fails exactly on bytes that are not valid
/// UTF-8, and otherwise keeps the bytes as the string's contents.
#[verifier::external_body]
fn string_from_utf8(bytes: Vec<u8>) -> (r: Option<String>)
    ensures
        r is None <==> !valid_utf8(bytes@),
        r matches Some(s) ==> encode_utf8(s@) == bytes@,
{
    String::from_utf8(bytes).ok()
}

proof fn lemma_value_header_split(
    start: Seq<u8>,
    after: Seq<u8>,
    rh: Option<i32>,
    v: ValueModel,
    rest: Seq<u8>,
)
    requires
        forall|x: i32, r2: Seq<u8>|
            #![trigger i32_le(x) + r2]
            start == i32_le(x) + r2 <==> (rh == Some(x) && after == r2),
    ensures
        value_splits(start, v, rest) <==> (value_encodable(v) && rh == Some(value_header(v))
            && after == value_payload(v) + rest),
{
    let h = value_header(v);
    let p = value_payload(v);
    assert(i32_le(h) + p + rest == i32_le(h) + (p + rest));
    if start == i32_le(h) + (p + rest) {
    }
}

/// Whether a value has an encoding: a string's bytes must be counted by an `i32`.
pub open spec fn value_encodable(v: ValueModel) -> bool {
    match v {
        ValueModel::Str(Some(s)) => encode_utf8(s).len() <= i32::MAX,
        _ => true,
    }
}

/// The encoding of a value: its header, then its payload.
pub open spec fn value_encoding(v: ValueModel) -> Seq<u8> {
    i32_le(value_header(v)) + value_payload(v)
}

/// Whether `s` is the encoding of the value `v` followed by `rest`.
pub open spec fn value_splits(s: Seq<u8>, v: ValueModel, rest: Seq<u8>) -> bool {
    value_encodable(v) && s == value_encoding(v) + rest
}

impl Serializable for Value {
    open spec fn encodable(v: ValueModel) -> bool {
        value_encodable(v)
    }

    open spec fn encoding(v: ValueModel) -> Seq<u8> {
        value_encoding(v)
    }

    fn can_encode(&self) -> (r: bool) {
        match self {
            Value::String(Some(s)) => s.as_str().as_bytes().len() <= i32::MAX as usize,
            _ => true,
        }
    }

    fn to_bytes(&self) -> (r: Vec<u8>) {
        let mut out: Vec<u8> = Vec::new();
        match self {
            Value::Int(Some(i)) => {
                push_i32(&mut out, INT_SIZE);
                push_i32(&mut out, *i);
            },
            Value::Int(None) => push_i32(&mut out, EMPTY_INT),
            Value::Float(Some(b)) => {
                push_i32(&mut out, FLOAT_SIZE);
                push_le(&mut out, *b as u128, 8);
            },
            Value::Float(None) => push_i32(&mut out, EMPTY_FLOAT),
            Value::String(Some(s)) => {
                let bytes = s.as_str().as_bytes();
                push_i32(&mut out, bytes.len() as i32);
                let mut owned = vstd::slice::slice_to_vec(bytes);
                out.append(&mut owned);
            },
            Value::String(None) => push_i32(&mut out, EMPTY_STRING),
        }
        out
    }

    fn from_bytes(bytes: &mut &[u8]) -> (r: Option<Value>) {
        let ghost start = bytes@;
        let rh = read_le_i32(bytes);
        let ghost after = bytes@;
        proof {
            assert forall|v: ValueModel, rest: Seq<u8>|
                #![trigger value_encoding(v) + rest]
                value_splits(start, v, rest) <==> (value_encodable(v) && rh == Some(
                    value_header(v),
                ) && after == value_payload(v) + rest) by {
                lemma_value_header_split(start, after, rh, v, rest);
            }
        }
        let h = match rh {
            Some(h) => h,
            None => return None,
        };
        if h == EMPTY_INT || h == EMPTY_FLOAT || h == EMPTY_STRING {
            let r = if h == EMPTY_INT {
                Value::Int(None)
            } else if h == EMPTY_FLOAT {
                Value::Float(None)
            } else {
                Value::String(None)
            };
            proof {
                assert forall|v: ValueModel, rest: Seq<u8>|
                    #![trigger value_encoding(v) + rest]
                    value_splits(start, v, rest) <==> (r@ == v && bytes@ == rest) by {
                    if r@ == v && bytes@ == rest {
                        assert(after == value_payload(v) + rest);
                    }
                }
            }
            Some(r)
        } else if h == INT_SIZE {
            let ghost before = bytes@;
            let ri = read_le_i32(bytes);
            match ri {
                Some(i) => {
                    let r = Value::Int(Some(i));
                    proof {
                        assert forall|v: ValueModel, rest: Seq<u8>|
                            #![trigger value_encoding(v) + rest]
                            value_splits(start, v, rest) <==> (r@ == v && bytes@ == rest) by {
                            if value_splits(start, v, rest) {
                                let j = v->Int_0->0;
                                assert(before == i32_le(j) + rest);
                            }
                        }
                    }
                    Some(r)
                },
                None => {
                    proof {
                        assert forall|v: ValueModel, rest: Seq<u8>|
                            #![trigger value_encoding(v) + rest]
                            !value_splits(start, v, rest) by {
                            if value_splits(start, v, rest) {
                                let j = v->Int_0->0;
                                assert(before == i32_le(j) + rest);
                            }
                        }
                    }
                    None
                },
            }
        } else if h == FLOAT_SIZE {
            let ghost before = bytes@;
            let rb = read_le_u64(bytes);
            match rb {
                Some(b) => {
                    let r = Value::Float(Some(b));
                    proof {
                        assert forall|v: ValueModel, rest: Seq<u8>|
                            #![trigger value_encoding(v) + rest]
                            value_splits(start, v, rest) <==> (r@ == v && bytes@ == rest) by {
                            if value_splits(start, v, rest) {
                                let j = v->Float_0->0;
                                assert(before == u64_le(j as nat) + rest);
                            }
                        }
                    }
                    Some(r)
                },
                None => {
                    proof {
                        assert forall|v: ValueModel, rest: Seq<u8>|
                            #![trigger value_encoding(v) + rest]
                            !value_splits(start, v, rest) by {
                            if value_splits(start, v, rest) {
                                let j = v->Float_0->0;
                                assert(before == u64_le(j as nat) + rest);
                            }
                        }
                    }
                    None
                },
            }
        } else if h >= 0 && (h as usize) <= bytes.len() {
            let n = h as usize;
            let b: &[u8] = *bytes;
            let (head, tail) = b.split_at(n);
            let text = string_from_utf8(vstd::slice::slice_to_vec(head));
            match text {
                Some(s) => {
                    *bytes = tail;
                    let r = Value::String(Some(s));
                    proof {
                        assert(after == head@ + tail@);
                        assert forall|v: ValueModel, rest: Seq<u8>|
                            #![trigger value_encoding(v) + rest]
                            value_splits(start, v, rest) <==> (r@ == v && bytes@ == rest) by {
                            if value_splits(start, v, rest) {
                                assert(v is Str && v->Str_0 is Some);
                                let t = v->Str_0->0;
                                assert(encode_utf8(t).len() == n);
                                assert(encode_utf8(t) == after.take(n as int));
                                assert(head@ == after.take(n as int));
                                assert(encode_utf8(s@) == encode_utf8(t));
                                assert(vstd::utf8::decode_utf8(encode_utf8(t)) == t);
                                assert(vstd::utf8::decode_utf8(encode_utf8(s@)) == s@);
                                assert(rest == after.skip(n as int));
                                assert(tail@ == after.skip(n as int));
                            }
                            if r@ == v && bytes@ == rest {
                                assert(encode_utf8(s@) == head@);
                                assert(encode_utf8(s@).len() == n);
                                assert(value_header(v) == h);
                                assert(after == value_payload(v) + rest);
                            }
                        }
                    }
                    Some(r)
                },
                None => {
                    proof {
                        assert forall|v: ValueModel, rest: Seq<u8>|
                            #![trigger value_encoding(v) + rest]
                            !value_splits(start, v, rest) by {
                            if value_splits(start, v, rest) {
                                let t = v->Str_0->0;
                                assert(encode_utf8(t) == after.take(n as int));
                                assert(head@ == after.take(n as int));
                            }
                        }
                    }
                    None
                },
            }
        } else {
            proof {
                assert forall|v: ValueModel, rest: Seq<u8>|
                    #![trigger value_encoding(v) + rest]
                    !value_splits(start, v, rest) by {
                    if value_splits(start, v, rest) {
                        if v is Str && v->Str_0 is Some {
                            assert(after.len() >= value_payload(v).len());
                        }
                    }
                }
            }
            None
        }
    }
}

/// Decodes an operator's code off the front of `bytes`.
fn decode_op(bytes: &mut &[u8]) -> (r: Option<ComparisonOperator>)
    ensures
        forall|v: ComparisonOperator, rest: Seq<u8>|
            #![trigger ComparisonOperator::encoding(v) + rest]
            old(bytes)@ == ComparisonOperator::encoding(v) + rest <==> (r == Some(v) && final(bytes)@
                == rest),
{
    ComparisonOperator::from_bytes(bytes)
}

impl Serializable for ComparisonOperator {
    open spec fn encodable(v: ComparisonOperator) -> bool {
        true
    }

    open spec fn encoding(v: ComparisonOperator) -> Seq<u8> {
        i32_le(op_code(v))
    }

    fn can_encode(&self) -> (r: bool) {
        true
    }

    fn to_bytes(&self) -> (r: Vec<u8>) {
        let code: i32 = match self {
            ComparisonOperator::EQ => 0,
            ComparisonOperator::NEQ => 1,
            ComparisonOperator::GE => 2,
            ComparisonOperator::GT => 3,
            ComparisonOperator::LE => 4,
            ComparisonOperator::LT => 5,
            ComparisonOperator::ANY => 6,
        };
        let mut out: Vec<u8> = Vec::new();
        push_i32(&mut out, code);
        out
    }

    fn from_bytes(bytes: &mut &[u8]) -> (r: Option<ComparisonOperator>) {
        let ghost start = bytes@;
        let rc = read_le_i32(bytes);
        let r = match rc {
            Some(0) => Some(ComparisonOperator::EQ),
            Some(1) => Some(ComparisonOperator::NEQ),
            Some(2) => Some(ComparisonOperator::GE),
            Some(3) => Some(ComparisonOperator::GT),
            Some(4) => Some(ComparisonOperator::LE),
            Some(5) => Some(ComparisonOperator::LT),
            Some(6) => Some(ComparisonOperator::ANY),
            _ => None,
        };
        proof {
            assert forall|v: ComparisonOperator, rest: Seq<u8>|
                #![trigger i32_le(op_code(v)) + rest]
                start == i32_le(op_code(v)) + rest <==> (r matches Some(x) && x@ == v && bytes@
                    == rest) by {
                if start == i32_le(op_code(v)) + rest {
                    assert(rc == Some(op_code(v)));
                }
            }
        }
        r
    }
}

/// The encoding of a request: its operand, then its operator's code.
pub open spec fn request_encoding(r: RequestModel) -> Seq<u8> {
    value_encoding(r.value) + i32_le(op_code(r.op))
}

impl Serializable for Request {
    open spec fn encodable(v: RequestModel) -> bool {
        value_encodable(v.value)
    }

    open spec fn encoding(v: RequestModel) -> Seq<u8> {
        request_encoding(v)
    }

    fn can_encode(&self) -> (r: bool) {
        self.value.can_encode()
    }

    fn to_bytes(&self) -> (r: Vec<u8>) {
        let mut out = self.value.to_bytes();
        let mut op = self.op.to_bytes();
        out.append(&mut op);
        out
    }

    fn from_bytes(bytes: &mut &[u8]) -> (r: Option<Request>) {
        let ghost start = bytes@;
        let value = Value::from_bytes(bytes);
        let ghost mid = bytes@;
        let value = match value {
            Some(v) => v,
            None => {
                proof {
                    assert forall|v: RequestModel, rest: Seq<u8>|
                        #![trigger request_encoding(v) + rest]
                        !(value_encodable(v.value) && start == request_encoding(v) + rest) by {
                        let tail = ComparisonOperator::encoding(v.op) + rest;
                        assert(Value::encoding(v.value) == value_encoding(v.value));
                        assert(request_encoding(v) + rest == Value::encoding(v.value) + tail);
                    }
                }
                return None;
            },
        };
        let op = decode_op(bytes);
        let r = match op {
            Some(o) => Some(Request { value, op: o }),
            None => None,
        };
        proof {
            assert forall|v: RequestModel, rest: Seq<u8>|
                #![trigger request_encoding(v) + rest]
                (value_encodable(v.value) && start == request_encoding(v) + rest) <==> (r is Some
                    && r->0@ == v && bytes@ == rest) by {
                let tail = ComparisonOperator::encoding(v.op) + rest;
                assert(Value::encoding(v.value) == value_encoding(v.value));
                assert(request_encoding(v) + rest == Value::encoding(v.value) + tail);
                if value_encodable(v.value) && start == request_encoding(v) + rest {
                    assert(value@ == v.value);
                    assert(mid == tail);
                    assert(op == Some(v.op));
                    assert(r->0@ == RequestModel { value: v.value, op: v.op });
                }
                if r is Some && r->0@ == v && bytes@ == rest {
                    assert(value@ == v.value);
                    assert(op == Some(v.op));
                    assert(mid == tail);
                    assert(Value::encoding(value@) + mid == start);
                }
            }
        }
        r
    }
}

/// The models of the items of `s`.
pub open spec fn views<T: View>(s: Seq<T>) -> Seq<T::V> {
    s.map_values(|x: T| x@)
}

/// Whether a tuple has an encoding: its length fits a `usize` and every element has one.
pub open spec fn tuple_encodable<T: Serializable>(s: Seq<T::V>) -> bool {
    s.len() <= usize::MAX && forall|i: int| 0 <= i < s.len() ==> T::encodable(#[trigger] s[i])
}

/// The encoding of a tuple: its length in eight bytes, then its elements.
pub open spec fn tuple_encoding<T: Serializable>(s: Seq<T::V>) -> Seq<u8> {
    u64_le(s.len()) + elements_encoding::<T>(s)
}

proof fn lemma_elements_push<T: Serializable>(s: Seq<T::V>, x: T::V)
    ensures
        elements_encoding::<T>(s.push(x)) == elements_encoding::<T>(s) + T::encoding(x),
    decreases s.len(),
{
    if s.len() == 0 {
        assert(s.push(x).drop_first() == Seq::<T::V>::empty());
        assert(elements_encoding::<T>(Seq::<T::V>::empty()) == Seq::<u8>::empty());
        assert(T::encoding(x) + Seq::<u8>::empty() == T::encoding(x));
    } else {
        assert(s.push(x).drop_first() == s.drop_first().push(x));
        lemma_elements_push::<T>(s.drop_first(), x);
        assert(T::encoding(s[0]) + (elements_encoding::<T>(s.drop_first()) + T::encoding(x)) == (
        T::encoding(s[0]) + elements_encoding::<T>(s.drop_first())) + T::encoding(x));
    }
}

impl<T: Serializable> Serializable for Tuple<T> {
    open spec fn encodable(v: Seq<T::V>) -> bool {
        tuple_encodable::<T>(v)
    }

    open spec fn encoding(v: Seq<T::V>) -> Seq<u8> {
        tuple_encoding::<T>(v)
    }

    fn can_encode(&self) -> (r: bool) {
        let mut i: usize = 0;
        while i < self.0.len()
            invariant
                0 <= i <= self.0@.len(),
                self@.len() == self.0@.len(),
                forall|j: int| 0 <= j < i ==> T::encodable(#[trigger] self@[j]),
            decreases self.0@.len() - i,
        {
            assert(self@[i as int] == self.0@[i as int]@);
            if !self.0[i].can_encode() {
                return false;
            }
            i = i + 1;
        }
        true
    }

    fn to_bytes(&self) -> (r: Vec<u8>) {
        let mut out: Vec<u8> = Vec::new();
        push_le(&mut out, self.0.len() as u128, 8);
        let ghost view = self@;
        let mut i: usize = 0;
        assert(view.take(0) == Seq::<T::V>::empty());
        while i < self.0.len()
            invariant
                0 <= i <= self.0@.len(),
                view == self@,
                view.len() == self.0@.len(),
                tuple_encodable::<T>(view),
                out@ == u64_le(view.len()) + elements_encoding::<T>(view.take(i as int)),
            decreases self.0@.len() - i,
        {
            assert(view[i as int] == self.0@[i as int]@);
            let mut item = self.0[i].to_bytes();
            proof {
                lemma_elements_push::<T>(view.take(i as int), view[i as int]);
                assert(view.take(i + 1) == view.take(i as int).push(view[i as int]));
            }
            out.append(&mut item);
            i = i + 1;
        }
        assert(view.take(i as int) == view);
        out
    }

    fn from_bytes(bytes: &mut &[u8]) -> (r: Option<Tuple<T>>) {
        let ghost start = bytes@;
        let rn = read_le_usize(bytes);
        let n = match rn {
            Some(n) => n,
            None => {
                proof {
                    assert forall|v: Seq<T::V>, rest: Seq<u8>|
                        #![trigger tuple_encoding::<T>(v) + rest]
                        !(tuple_encodable::<T>(v) && start == tuple_encoding::<T>(v) + rest) by {
                        let tail = elements_encoding::<T>(v) + rest;
                        assert(tuple_encoding::<T>(v) + rest == u64_le(v.len()) + tail);
                        if tuple_encodable::<T>(v) {
                            assert(u64_le((v.len() as usize) as nat) + tail == u64_le(v.len())
                                + tail);
                        }
                    }
                }
                return None;
            },
        };
        let ghost after = bytes@;
        proof {
            assert(start == u64_le(n as nat) + after);
            assert forall|v: Seq<T::V>, rest: Seq<u8>|
                #![trigger tuple_encoding::<T>(v) + rest]
                tuple_encodable::<T>(v) && start == tuple_encoding::<T>(v) + rest implies v.len()
                    == n && after == elements_encoding::<T>(v) + rest by {
                let tail = elements_encoding::<T>(v) + rest;
                assert(tuple_encoding::<T>(v) + rest == u64_le(v.len()) + tail);
                assert(u64_le((v.len() as usize) as nat) + tail == u64_le(v.len()) + tail);
            }
        }
        let mut elems: Vec<T> = Vec::new();
        let mut i: usize = 0;
        proof {
            assert(views(elems@) == Seq::<T::V>::empty());
            assert(elements_encoding::<T>(views(elems@)) + after == after);
            assert forall|v: Seq<T::V>, rest: Seq<u8>|
                #![trigger tuple_encoding::<T>(v) + rest]
                tuple_encodable::<T>(v) && start == tuple_encoding::<T>(v) + rest implies v.len()
                    == n && v.take(0) == views(elems@) && bytes@ == elements_encoding::<T>(v.skip(0))
                    + rest by {
                assert(v.skip(0) == v);
            }
        }
        while i < n
            invariant
                0 <= i <= n,
                elems@.len() == i,
                forall|j: int| 0 <= j < i ==> T::encodable(#[trigger] views(elems@)[j]),
                after == elements_encoding::<T>(views(elems@)) + bytes@,
                start == u64_le(n as nat) + after,
                start == old(bytes)@,
                forall|v: Seq<T::V>, rest: Seq<u8>|
                    #![trigger tuple_encoding::<T>(v) + rest]
                    tuple_encodable::<T>(v) && start == tuple_encoding::<T>(v) + rest ==> v.len()
                        == n && v.take(i as int) == views(elems@) && bytes@
                        == elements_encoding::<T>(v.skip(i as int)) + rest,
            decreases n - i,
        {
            let ghost cur = bytes@;
            let ghost old_views = views(elems@);
            let item = T::from_bytes(bytes);
            proof {
                assert forall|v: Seq<T::V>, rest: Seq<u8>|
                    #![trigger tuple_encoding::<T>(v) + rest]
                    tuple_encodable::<T>(v) && start == tuple_encoding::<T>(v) + rest implies item
                        is Some && item->0@ == v[i as int] && bytes@ == elements_encoding::<T>(
                        v.skip(i + 1),
                    ) + rest by {
                    let w = v.skip(i as int);
                    assert(w[0] == v[i as int]);
                    assert(w.drop_first() == v.skip(i + 1));
                    let tail = elements_encoding::<T>(v.skip(i + 1)) + rest;
                    assert(elements_encoding::<T>(w) + rest == T::encoding(v[i as int]) + tail);
                    assert(T::encodable(v[i as int]));
                }
            }
            match item {
                Some(x) => {
                    let ghost xv = x@;
                    elems.push(x);
                    proof {
                        assert(views(elems@) == old_views.push(xv));
                        lemma_elements_push::<T>(old_views, xv);
                        assert(after == elements_encoding::<T>(views(elems@)) + bytes@);
                        assert forall|j: int| 0 <= j < i + 1 implies T::encodable(
                            #[trigger] views(elems@)[j],
                        ) by {
                            if j < i {
                                assert(views(elems@)[j] == old_views[j]);
                            }
                        }
                        assert forall|v: Seq<T::V>, rest: Seq<u8>|
                            #![trigger tuple_encoding::<T>(v) + rest]
                            tuple_encodable::<T>(v) && start == tuple_encoding::<T>(v) + rest implies v.len()
                                == n && v.take(i + 1) == views(elems@) && bytes@
                                == elements_encoding::<T>(v.skip(i + 1)) + rest by {
                            assert(v.take(i + 1) == v.take(i as int).push(v[i as int]));
                        }
                    }
                },
                None => {
                    proof {
                        assert forall|v: Seq<T::V>, rest: Seq<u8>|
                            #![trigger tuple_encoding::<T>(v) + rest]
                            !(tuple_encodable::<T>(v) && start == tuple_encoding::<T>(v) + rest) by {
                        }
                    }
                    return None;
                },
            }
            i = i + 1;
        }
        let r = Tuple(elems);
        proof {
            assert(r@ == views(elems@));
            assert(tuple_encodable::<T>(r@));
            assert(start == tuple_encoding::<T>(r@) + bytes@);
            assert forall|v: Seq<T::V>, rest: Seq<u8>|
                #![trigger tuple_encoding::<T>(v) + rest]
                tuple_encodable::<T>(v) && start == tuple_encoding::<T>(v) + rest implies r@ == v
                    && bytes@ == rest by {
                assert(v.take(n as int) == v);
                assert(v.skip(n as int) == Seq::<T::V>::empty());
                assert(elements_encoding::<T>(Seq::<T::V>::empty()) == Seq::<u8>::empty());
                assert(rest + Seq::<u8>::empty() == rest);
                assert(Seq::<u8>::empty() + rest == rest);
            }
        }
        Some(r)
    }
}

} // verus!
