use vstd::prelude::*;

verus! {

broadcast use vstd::utf8::encode_utf8_decode_utf8;

/// A value of the tuple space. Floats are held as their IEEE-754 binary64 bit
/// pattern. `None` makes a type-only placeholder, which only requests use.
#[derive(Debug, PartialEq)]
pub enum Value {
    Int(Option<i32>),
    Float(Option<u64>),
    String(Option<String>),
}

/// The mathematical model of a [`Value`].
pub enum ValueModel {
    Int(Option<i32>),
    Float(Option<u64>),
    Str(Option<Seq<char>>),
}

impl View for Value {
    type V = ValueModel;

    open spec fn view(&self) -> ValueModel {
        match self {
            Value::Int(i) => ValueModel::Int(*i),
            Value::Float(f) => ValueModel::Float(*f),
            Value::String(s) => ValueModel::Str(
                match s {
                    Some(s) => Some(s@),
                    None => None,
                },
            ),
        }
    }
}

/// The comparison a request applies between its operand and a candidate value.
#[derive(PartialEq, Eq, Structural, Debug, Clone, Copy)]
pub enum ComparisonOperator {
    EQ,
    NEQ,
    GE,
    GT,
    LE,
    LT,
    ANY,
}

impl View for ComparisonOperator {
    type V = ComparisonOperator;

    open spec fn view(&self) -> ComparisonOperator {
        *self
    }
}

/// One element of a pattern: a typed operand and the comparison to apply.
#[derive(Debug, PartialEq)]
pub struct Request {
    pub value: Value,
    pub op: ComparisonOperator,
}

/// The mathematical model of a [`Request`].
pub struct RequestModel {
    pub value: ValueModel,
    pub op: ComparisonOperator,
}

impl View for Request {
    type V = RequestModel;

    open spec fn view(&self) -> RequestModel {
        RequestModel { value: self.value@, op: self.op }
    }
}

/// An ordered sequence of values (a tuple) or of requests (a pattern).
#[derive(Debug, PartialEq)]
pub struct Tuple<T>(pub Vec<T>);

impl<T: View> View for Tuple<T> {
    type V = Seq<T::V>;

    open spec fn view(&self) -> Seq<T::V> {
        crate::codec::views(self.0@)
    }
}

/// Whether two value models have the same variant.
pub open spec fn same_type(a: ValueModel, b: ValueModel) -> bool {
    match (a, b) {
        (ValueModel::Int(_), ValueModel::Int(_)) => true,
        (ValueModel::Float(_), ValueModel::Float(_)) => true,
        (ValueModel::Str(_), ValueModel::Str(_)) => true,
        _ => false,
    }
}

/// Whether a value carries its payload (is not a type-only placeholder).
pub open spec fn is_concrete(v: ValueModel) -> bool {
    match v {
        ValueModel::Int(i) => i is Some,
        ValueModel::Float(f) => f is Some,
        ValueModel::Str(s) => s is Some,
    }
}

/// Whether every element of a tuple carries its payload.
pub open spec fn all_concrete(t: Seq<ValueModel>) -> bool {
    forall|i: int| 0 <= i < t.len() ==> is_concrete(#[trigger] t[i])
}

/// The sign bit of a binary64 pattern.
pub open spec fn float_sign_bit() -> int {
    0x8000_0000_0000_0000
}

/// The bits of a binary64 pattern other than the sign.
pub open spec fn float_magnitude(b: u64) -> int {
    b as int % float_sign_bit()
}

/// Whether a binary64 pattern is a NaN: all exponent bits set and a non-zero fraction.
pub open spec fn float_is_nan(b: u64) -> bool {
    float_magnitude(b) > 0x7ff0_0000_0000_0000
}

/// The place of a non-NaN binary64 pattern on the line: IEEE-754 orders such
/// floats as this key orders them (both zeros get 0).
pub open spec fn float_key(b: u64) -> int {
    if b as int >= float_sign_bit() {
        -float_magnitude(b)
    } else {
        float_magnitude(b)
    }
}

/// Lexicographic order on byte strings (a proper prefix comes first).
pub open spec fn bytes_lt(a: Seq<u8>, b: Seq<u8>) -> bool
    decreases a.len(),
{
    if a.len() == 0 {
        b.len() > 0
    } else if b.len() == 0 {
        false
    } else if a[0] != b[0] {
        a[0] < b[0]
    } else {
        bytes_lt(a.drop_first(), b.drop_first())
    }
}

/// Whether `op` holds between an operand and a value that compare as given:
/// `less` when the operand is below the value, `equal` when they are equal,
/// `greater` when the operand is above it. With none of the three (a NaN) only
/// `ANY` holds.
pub open spec fn op_holds(op: ComparisonOperator, less: bool, equal: bool, greater: bool) -> bool {
    match op {
        ComparisonOperator::EQ => equal,
        ComparisonOperator::NEQ => less || greater,
        ComparisonOperator::GE => greater || equal,
        ComparisonOperator::GT => greater,
        ComparisonOperator::LE => less || equal,
        ComparisonOperator::LT => less,
        ComparisonOperator::ANY => true,
    }
}

/// Whether `op` holds between the operand `a` and the value `b`: both must carry
/// a payload of the same type. Integers compare as numbers, floats as IEEE-754
/// numbers (a NaN compares with nothing), strings lexicographically by their
/// UTF-8 bytes.
pub open spec fn compares(op: ComparisonOperator, a: ValueModel, b: ValueModel) -> bool {
    match (a, b) {
        (ValueModel::Int(Some(x)), ValueModel::Int(Some(y))) => op_holds(op, x < y, x == y, x > y),
        (ValueModel::Float(Some(x)), ValueModel::Float(Some(y))) => {
            let ordered = !float_is_nan(x) && !float_is_nan(y);
            op_holds(
                op,
                ordered && float_key(x) < float_key(y),
                ordered && float_key(x) == float_key(y),
                ordered && float_key(x) > float_key(y),
            )
        },
        (ValueModel::Str(Some(x)), ValueModel::Str(Some(y))) => {
            let (bx, by) = (vstd::utf8::encode_utf8(x), vstd::utf8::encode_utf8(y));
            op_holds(op, bytes_lt(bx, by), x == y, bytes_lt(by, bx))
        },
        _ => false,
    }
}

/// Whether a single request accepts a value: the types agree, and the operator
/// is `ANY` or holds between the request's operand and the value.
pub open spec fn request_accepts(r: RequestModel, v: ValueModel) -> bool {
    same_type(r.value, v) && (r.op == ComparisonOperator::ANY || compares(r.op, r.value, v))
}

/// Whether a pattern accepts a tuple: equal lengths, and each request accepts
/// the value at its place.
pub open spec fn tuple_accepts(r: Seq<RequestModel>, t: Seq<ValueModel>) -> bool {
    r.len() == t.len() && forall|i: int| 0 <= i < r.len() ==> request_accepts(#[trigger] r[i], t[i])
}

/// A pattern never accepts a tuple of another length.
pub proof fn lemma_arity_mismatch(r: Seq<RequestModel>, t: Seq<ValueModel>)
    requires
        r.len() != t.len(),
    ensures
        !tuple_accepts(r, t),
{
}

impl Value {
    pub fn integer(i: i32) -> (r: Value)
        ensures
            r@ == ValueModel::Int(Some(i)),
    {
        Value::Int(Some(i))
    }

    /// A float given by its binary64 bit pattern.
    pub fn float(bits: u64) -> (r: Value)
        ensures
            r@ == ValueModel::Float(Some(bits)),
    {
        Value::Float(Some(bits))
    }

    pub fn string(s: String) -> (r: Value)
        ensures
            r@ == ValueModel::Str(Some(s@)),
    {
        Value::String(Some(s))
    }

    pub fn is_int(&self) -> (r: bool)
        ensures
            r == self@ is Int,
    {
        matches!(self, Value::Int(_))
    }

    pub fn is_float(&self) -> (r: bool)
        ensures
            r == self@ is Float,
    {
        matches!(self, Value::Float(_))
    }

    pub fn is_string(&self) -> (r: bool)
        ensures
            r == self@ is Str,
    {
        matches!(self, Value::String(_))
    }

    pub fn is_same_type(&self, other: &Value) -> (r: bool)
        ensures
            r == same_type(self@, other@),
    {
        self.is_int() && other.is_int() || self.is_float() && other.is_float() || self.is_string()
            && other.is_string()
    }

    /// Whether the value carries its payload.
    pub fn is_concrete(&self) -> (r: bool)
        ensures
            r == is_concrete(self@),
    {
        match self {
            Value::Int(i) => i.is_some(),
            Value::Float(f) => f.is_some(),
            Value::String(s) => s.is_some(),
        }
    }
}

impl Clone for Value {
    fn clone(&self) -> (r: Value)
        ensures
            r@ == self@,
    {
        match self {
            Value::Int(i) => Value::Int(*i),
            Value::Float(f) => Value::Float(*f),
            Value::String(s) => Value::String(
                match s {
                    Some(s) => Some(s.clone()),
                    None => None,
                },
            ),
        }
    }
}

/// Compares two byte strings lexicographically: negative, zero or positive as
/// `a` comes before, equals or comes after `b`.
fn compare_bytes(a: &[u8], b: &[u8]) -> (r: i8)
    ensures
        r < 0 <==> bytes_lt(a@, b@),
        r == 0 <==> a@ == b@,
        r > 0 <==> bytes_lt(b@, a@),
{
    let mut i: usize = 0;
    assert(a@.skip(0) == a@ && b@.skip(0) == b@);
    while i < a.len() && i < b.len()
        invariant
            0 <= i <= a@.len(),
            i <= b@.len(),
            a@.take(i as int) == b@.take(i as int),
            bytes_lt(a@, b@) == bytes_lt(a@.skip(i as int), b@.skip(i as int)),
            bytes_lt(b@, a@) == bytes_lt(b@.skip(i as int), a@.skip(i as int)),
        decreases a@.len() - i,
    {
        assert(a@.skip(i as int)[0] == a@[i as int] && b@.skip(i as int)[0] == b@[i as int]);
        if a[i] != b[i] {
            return if a[i] < b[i] {
                -1
            } else {
                1
            };
        }
        proof {
            let (sa, sb) = (a@.skip(i as int), b@.skip(i as int));
            assert(sa.drop_first() == a@.skip(i + 1));
            assert(sb.drop_first() == b@.skip(i + 1));
            assert(a@.take(i + 1) == a@.take(i as int).push(a@[i as int]));
            assert(b@.take(i + 1) == b@.take(i as int).push(b@[i as int]));
        }
        i = i + 1;
    }
    assert(a@.skip(i as int).len() == a@.len() - i && b@.skip(i as int).len() == b@.len() - i);
    if i < b.len() {
        -1
    } else if i < a.len() {
        1
    } else {
        assert(a@ == a@.take(i as int));
        assert(b@ == b@.take(i as int));
        0
    }
}

/// Where a non-NaN binary64 pattern falls on the line (see [`float_key`]).
fn float_position(b: u64) -> (r: i64)
    ensures
        r == float_key(b),
{
    if b >= 0x8000_0000_0000_0000 {
        -((b - 0x8000_0000_0000_0000) as i64)
    } else {
        b as i64
    }
}

/// Whether a binary64 pattern is a NaN.
fn float_nan(b: u64) -> (r: bool)
    ensures
        r == float_is_nan(b),
{
    let magnitude = if b >= 0x8000_0000_0000_0000 {
        b - 0x8000_0000_0000_0000
    } else {
        b
    };
    magnitude > 0x7ff0_0000_0000_0000
}

fn apply_op(op: ComparisonOperator, less: bool, equal: bool, greater: bool) -> (r: bool)
    ensures
        r == op_holds(op, less, equal, greater),
{
    match op {
        ComparisonOperator::EQ => equal,
        ComparisonOperator::NEQ => less || greater,
        ComparisonOperator::GE => greater || equal,
        ComparisonOperator::GT => greater,
        ComparisonOperator::LE => less || equal,
        ComparisonOperator::LT => less,
        ComparisonOperator::ANY => true,
    }
}

impl Request {
    pub fn new(value: Value, op: ComparisonOperator) -> (r: Request)
        ensures
            r@ == (RequestModel { value: value@, op }),
    {
        Request { value, op }
    }

    /// Whether this request accepts `v`.
    pub fn satisfies(&self, v: &Value) -> (r: bool)
        ensures
            r == request_accepts(self@, v@),
    {
        if !self.value.is_same_type(v) {
            return false;
        }
        if self.op == ComparisonOperator::ANY {
            return true;
        }
        match (&self.value, v) {
            (Value::Int(Some(x)), Value::Int(Some(y))) => apply_op(self.op, *x < *y, *x == *y, *x > *y),
            (Value::Float(Some(x)), Value::Float(Some(y))) => {
                let ordered = !float_nan(*x) && !float_nan(*y);
                let (kx, ky) = (float_position(*x), float_position(*y));
                apply_op(self.op, ordered && kx < ky, ordered && kx == ky, ordered && kx > ky)
            },
            (Value::String(Some(x)), Value::String(Some(y))) => {
                let c = compare_bytes(x.as_str().as_bytes(), y.as_str().as_bytes());
                proof {
                    if x@ != y@ {
                        assert(vstd::utf8::decode_utf8(vstd::utf8::encode_utf8(x@)) == x@);
                        assert(vstd::utf8::decode_utf8(vstd::utf8::encode_utf8(y@)) == y@);
                    }
                }
                apply_op(self.op, c < 0, c == 0, c > 0)
            },
            _ => false,
        }
    }
}

impl Clone for Request {
    fn clone(&self) -> (r: Request)
        ensures
            r@ == self@,
    {
        Request { value: self.value.clone(), op: self.op }
    }
}

impl<T> Tuple<T> {
    pub fn new() -> (r: Tuple<T>)
        ensures
            r.0@ == Seq::<T>::empty(),
    {
        Tuple(Vec::new())
    }

    pub fn from_vec(v: Vec<T>) -> (r: Tuple<T>)
        ensures
            r.0@ == v@,
    {
        Tuple(v)
    }

    pub fn len(&self) -> (r: usize)
        ensures
            r == self.0@.len(),
    {
        self.0.len()
    }

    pub fn push(&mut self, x: T)
        ensures
            final(self).0@ == old(self).0@.push(x),
    {
        self.0.push(x);
    }
}

impl Tuple<Request> {
    /// Whether this pattern accepts the tuple `values`.
    pub fn satisfies(&self, values: &Tuple<Value>) -> (r: bool)
        ensures
            r == tuple_accepts(self@, values@),
    {
        if self.0.len() != values.0.len() {
            assert(self@.len() == self.0@.len() && values@.len() == values.0@.len());
            return false;
        }
        let mut i: usize = 0;
        while i < self.0.len()
            invariant
                self.0@.len() == values.0@.len(),
                0 <= i <= self.0@.len(),
                forall|j: int| 0 <= j < i ==> request_accepts(#[trigger] self@[j], values@[j]),
            decreases self.0@.len() - i,
        {
            assert(self@[i as int] == self.0@[i as int]@ && values@[i as int] == values.0@[i as int]@);
            if !self.0[i].satisfies(&values.0[i]) {
                return false;
            }
            i = i + 1;
        }
        true
    }
}

impl Tuple<Value> {
    /// Whether every element carries its payload.
    pub fn is_concrete(&self) -> (r: bool)
        ensures
            r == all_concrete(self@),
    {
        let mut i: usize = 0;
        while i < self.0.len()
            invariant
                0 <= i <= self.0@.len(),
                self@.len() == self.0@.len(),
                forall|j: int| 0 <= j < i ==> is_concrete(#[trigger] self@[j]),
            decreases self.0@.len() - i,
        {
            assert(self@[i as int] == self.0@[i as int]@);
            if !self.0[i].is_concrete() {
                return false;
            }
            i = i + 1;
        }
        true
    }
}

impl Clone for Tuple<Value> {
    fn clone(&self) -> (r: Tuple<Value>)
        ensures
            r@ == self@,
    {
        let mut out: Vec<Value> = Vec::new();
        let mut i: usize = 0;
        while i < self.0.len()
            invariant
                0 <= i <= self.0@.len(),
                out@.len() == i,
                forall|j: int| 0 <= j < i ==> (#[trigger] out@[j])@ == self.0@[j]@,
            decreases self.0@.len() - i,
        {
            out.push(self.0[i].clone());
            i = i + 1;
        }
        let r = Tuple(out);
        assert(r@ =~= self@);
        r
    }
}

impl Clone for Tuple<Request> {
    fn clone(&self) -> (r: Tuple<Request>)
        ensures
            r@ == self@,
    {
        let mut out: Vec<Request> = Vec::new();
        let mut i: usize = 0;
        while i < self.0.len()
            invariant
                0 <= i <= self.0@.len(),
                out@.len() == i,
                forall|j: int| 0 <= j < i ==> (#[trigger] out@[j])@ == self.0@[j]@,
            decreases self.0@.len() - i,
        {
            out.push(self.0[i].clone());
            i = i + 1;
        }
        let r = Tuple(out);
        assert(r@ =~= self@);
        r
    }
}

} // verus!
