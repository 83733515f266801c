//! Values of the algebraic data model, and rows of them.

use vstd::prelude::*;
use vstd::utf8::encode_utf8;

verus! {

/// A value. The floats are held by their bits.
#[derive(Debug, Eq)]
pub enum AlgebraicValue {
    Sum(SumValue),
    Product(ProductValue),
    Bool(bool),
    I8(i8),
    U8(u8),
    I16(i16),
    U16(u16),
    I32(i32),
    U32(u32),
    I64(i64),
    U64(u64),
    I128(i128),
    U128(u128),
    F32(u32),
    F64(u64),
    String(String),
    Bytes(Vec<u8>),
    Array(Vec<AlgebraicValue>),
    Mapping(Vec<(AlgebraicValue, AlgebraicValue)>),
}

/// A variant of a sum type, by its tag, with what it carries.
#[derive(Debug, PartialEq, Eq)]
pub struct SumValue {
    pub tag: u8,
    pub value: Box<AlgebraicValue>,
}

/// The elements of a product type, in order. A row of a table is one.
#[derive(Debug, PartialEq, Eq)]
pub struct ProductValue {
    pub elements: Vec<AlgebraicValue>,
}

/// What a value is, with nothing of how it is stored.
pub enum Value {
    Sum(u8, Box<Value>),
    Product(Seq<Value>),
    Bool(bool),
    I8(i8),
    U8(u8),
    I16(i16),
    U16(u16),
    I32(i32),
    U32(u32),
    I64(i64),
    U64(u64),
    I128(i128),
    U128(u128),
    F32(u32),
    F64(u64),
    String(Seq<char>),
    Bytes(Seq<u8>),
    Array(Seq<Value>),
    Mapping(Seq<(Value, Value)>),
}

/// `v` is a number, and zero. The floats have two zeros.
pub open spec fn is_zero(v: Value) -> bool {
    match v {
        Value::I8(x) => x == 0,
        Value::U8(x) => x == 0,
        Value::I16(x) => x == 0,
        Value::U16(x) => x == 0,
        Value::I32(x) => x == 0,
        Value::U32(x) => x == 0,
        Value::I64(x) => x == 0,
        Value::U64(x) => x == 0,
        Value::I128(x) => x == 0,
        Value::U128(x) => x == 0,
        Value::F32(bits) => bits == 0 || bits == 0x8000_0000,
        Value::F64(bits) => bits == 0 || bits == 0x8000_0000_0000_0000,
        _ => false,
    }
}

/// The bits that stand for all floats equal to the one with these bits: those of the zero without
/// a sign for both zeros, and one pattern for all values that are not numbers.
pub open spec fn canonical_f32(bits: u32) -> u32 {
    if bits == 0x8000_0000 {
        0
    } else if 0x7f80_0000 < bits < 0x8000_0000 || 0xff80_0000 < bits {
        0x7fc0_0000
    } else {
        bits
    }
}

/// The bits that stand for all floats equal to the one with these bits.
pub open spec fn canonical_f64(bits: u64) -> u64 {
    if bits == 0x8000_0000_0000_0000 {
        0
    } else if 0x7ff0_0000_0000_0000 < bits < 0x8000_0000_0000_0000 || 0xfff0_0000_0000_0000
        < bits {
        0x7ff8_0000_0000_0000
    } else {
        bits
    }
}

/// The value that stands for all values equal to `v`. Two values are equal when they differ at
/// most in which zero, or which of the values that are not numbers, a float is.
pub open spec fn canonical(v: Value) -> Value
    decreases v,
{
    match v {
        Value::Sum(tag, x) => Value::Sum(tag, Box::new(canonical(*x))),
        Value::Product(s) => Value::Product(canonical_all(s)),
        Value::F32(bits) => Value::F32(canonical_f32(bits)),
        Value::F64(bits) => Value::F64(canonical_f64(bits)),
        Value::Array(s) => Value::Array(canonical_all(s)),
        Value::Mapping(s) => Value::Mapping(canonical_pairs(s)),
        _ => v,
    }
}

/// What stands for each of `s`.
pub open spec fn canonical_all(s: Seq<Value>) -> Seq<Value>
    decreases s,
{
    Seq::new(s.len(), |i: int| if 0 <= i < s.len() { canonical(s[i]) } else { Value::Bool(false) })
}

pub open spec fn canonical_pairs(s: Seq<(Value, Value)>) -> Seq<(Value, Value)>
    decreases s,
{
    Seq::new(
        s.len(),
        |i: int|
            if 0 <= i < s.len() {
                (canonical(s[i].0), canonical(s[i].1))
            } else {
                (Value::Bool(false), Value::Bool(false))
            },
    )
}

/// What a row is: its values, one per column.
pub type Row = Seq<Value>;

impl View for AlgebraicValue {
    type V = Value;

    open spec fn view(&self) -> Value {
        self.model()
    }
}

impl AlgebraicValue {
    pub open spec fn model(&self) -> Value
        decreases self,
    {
        match self {
            AlgebraicValue::Sum(s) => Value::Sum(s.tag, Box::new((*s.value).model())),
            AlgebraicValue::Product(p) => Value::Product(values(p.elements@)),
            AlgebraicValue::Bool(x) => Value::Bool(*x),
            AlgebraicValue::I8(x) => Value::I8(*x),
            AlgebraicValue::U8(x) => Value::U8(*x),
            AlgebraicValue::I16(x) => Value::I16(*x),
            AlgebraicValue::U16(x) => Value::U16(*x),
            AlgebraicValue::I32(x) => Value::I32(*x),
            AlgebraicValue::U32(x) => Value::U32(*x),
            AlgebraicValue::I64(x) => Value::I64(*x),
            AlgebraicValue::U64(x) => Value::U64(*x),
            AlgebraicValue::I128(x) => Value::I128(*x),
            AlgebraicValue::U128(x) => Value::U128(*x),
            AlgebraicValue::F32(x) => Value::F32(*x),
            AlgebraicValue::F64(x) => Value::F64(*x),
            AlgebraicValue::String(x) => Value::String(x@),
            AlgebraicValue::Bytes(x) => Value::Bytes(x@),
            AlgebraicValue::Array(x) => Value::Array(values(x@)),
            AlgebraicValue::Mapping(x) => Value::Mapping(value_pairs(x@)),
        }
    }
}

/// What each of `s` is.
pub open spec fn values(s: Seq<AlgebraicValue>) -> Seq<Value>
    decreases s,
{
    Seq::new(s.len(), |i: int| if 0 <= i < s.len() { s[i].model() } else { Value::Bool(false) })
}

pub open spec fn value_pairs(s: Seq<(AlgebraicValue, AlgebraicValue)>) -> Seq<(Value, Value)>
    decreases s,
{
    Seq::new(
        s.len(),
        |i: int|
            if 0 <= i < s.len() {
                (s[i].0.model(), s[i].1.model())
            } else {
                (Value::Bool(false), Value::Bool(false))
            },
    )
}

impl View for ProductValue {
    type V = Row;

    open spec fn view(&self) -> Row {
        values(self.elements@)
    }
}

impl Clone for AlgebraicValue {
    fn clone(&self) -> (r: Self)
        ensures
            r@ == self@,
    {
        self.duplicate()
    }
}

impl AlgebraicValue {
    fn duplicate(&self) -> (r: Self)
        ensures
            r@ == self@,
        decreases self,
    {
        match self {
            AlgebraicValue::Sum(s) => AlgebraicValue::Sum(
                SumValue { tag: s.tag, value: Box::new((*s.value).duplicate()) },
            ),
            AlgebraicValue::Product(p) => AlgebraicValue::Product(
                ProductValue { elements: clone_values(&p.elements) },
            ),
            AlgebraicValue::Bool(x) => AlgebraicValue::Bool(*x),
            AlgebraicValue::I8(x) => AlgebraicValue::I8(*x),
            AlgebraicValue::U8(x) => AlgebraicValue::U8(*x),
            AlgebraicValue::I16(x) => AlgebraicValue::I16(*x),
            AlgebraicValue::U16(x) => AlgebraicValue::U16(*x),
            AlgebraicValue::I32(x) => AlgebraicValue::I32(*x),
            AlgebraicValue::U32(x) => AlgebraicValue::U32(*x),
            AlgebraicValue::I64(x) => AlgebraicValue::I64(*x),
            AlgebraicValue::U64(x) => AlgebraicValue::U64(*x),
            AlgebraicValue::I128(x) => AlgebraicValue::I128(*x),
            AlgebraicValue::U128(x) => AlgebraicValue::U128(*x),
            AlgebraicValue::F32(x) => AlgebraicValue::F32(*x),
            AlgebraicValue::F64(x) => AlgebraicValue::F64(*x),
            AlgebraicValue::String(x) => AlgebraicValue::String(x.clone()),
            AlgebraicValue::Bytes(x) => AlgebraicValue::Bytes(x.clone()),
            AlgebraicValue::Array(x) => AlgebraicValue::Array(clone_values(x)),
            AlgebraicValue::Mapping(x) => AlgebraicValue::Mapping(clone_pairs(x)),
        }
    }
}

fn clone_values(v: &Vec<AlgebraicValue>) -> (r: Vec<AlgebraicValue>)
    ensures
        values(r@) == values(v@),
    decreases v,
{
    let mut r: Vec<AlgebraicValue> = Vec::new();
    for i in 0..v.len()
        invariant
            r@.len() == i,
            forall|j: int| 0 <= j < i ==> (#[trigger] r@[j])@ == v@[j]@,
    {
        r.push(v[i].duplicate());
    }
    assert(values(r@) =~= values(v@));
    r
}

fn clone_pairs(v: &Vec<(AlgebraicValue, AlgebraicValue)>) -> (r: Vec<
    (AlgebraicValue, AlgebraicValue),
>)
    ensures
        value_pairs(r@) == value_pairs(v@),
    decreases v,
{
    let mut r: Vec<(AlgebraicValue, AlgebraicValue)> = Vec::new();
    for i in 0..v.len()
        invariant
            r@.len() == i,
            forall|j: int|
                0 <= j < i ==> (#[trigger] r@[j]).0@ == v@[j].0@ && r@[j].1@ == v@[j].1@,
    {
        let k = v[i].0.duplicate();
        let x = v[i].1.duplicate();
        r.push((k, x));
    }
    assert(value_pairs(r@) =~= value_pairs(v@));
    r
}

impl Clone for ProductValue {
    fn clone(&self) -> (r: Self)
        ensures
            r@ == self@,
    {
        ProductValue { elements: clone_values(&self.elements) }
    }
}

fn canonical_bits_f32(bits: u32) -> (r: u32)
    ensures
        r == canonical_f32(bits),
{
    if bits == 0x8000_0000 {
        0
    } else if (0x7f80_0000 < bits && bits < 0x8000_0000) || 0xff80_0000 < bits {
        0x7fc0_0000
    } else {
        bits
    }
}

fn canonical_bits_f64(bits: u64) -> (r: u64)
    ensures
        r == canonical_f64(bits),
{
    if bits == 0x8000_0000_0000_0000 {
        0
    } else if (0x7ff0_0000_0000_0000 < bits && bits < 0x8000_0000_0000_0000)
        || 0xfff0_0000_0000_0000 < bits {
        0x7ff8_0000_0000_0000
    } else {
        bits
    }
}

impl AlgebraicValue {
    /// Whether the two are equal.
    pub fn same(&self, other: &AlgebraicValue) -> (r: bool)
        ensures
            r == (canonical(self@) == canonical(other@)),
        decreases self,
    {
        match (self, other) {
            (AlgebraicValue::Sum(a), AlgebraicValue::Sum(b)) => {
                a.tag == b.tag && (*a.value).same(&*b.value)
            },
            (AlgebraicValue::Product(a), AlgebraicValue::Product(b)) => same_values(
                &a.elements,
                &b.elements,
            ),
            (AlgebraicValue::Bool(a), AlgebraicValue::Bool(b)) => *a == *b,
            (AlgebraicValue::I8(a), AlgebraicValue::I8(b)) => *a == *b,
            (AlgebraicValue::U8(a), AlgebraicValue::U8(b)) => *a == *b,
            (AlgebraicValue::I16(a), AlgebraicValue::I16(b)) => *a == *b,
            (AlgebraicValue::U16(a), AlgebraicValue::U16(b)) => *a == *b,
            (AlgebraicValue::I32(a), AlgebraicValue::I32(b)) => *a == *b,
            (AlgebraicValue::U32(a), AlgebraicValue::U32(b)) => *a == *b,
            (AlgebraicValue::I64(a), AlgebraicValue::I64(b)) => *a == *b,
            (AlgebraicValue::U64(a), AlgebraicValue::U64(b)) => *a == *b,
            (AlgebraicValue::I128(a), AlgebraicValue::I128(b)) => *a == *b,
            (AlgebraicValue::U128(a), AlgebraicValue::U128(b)) => *a == *b,
            (AlgebraicValue::F32(a), AlgebraicValue::F32(b)) => canonical_bits_f32(*a)
                == canonical_bits_f32(*b),
            (AlgebraicValue::F64(a), AlgebraicValue::F64(b)) => canonical_bits_f64(*a)
                == canonical_bits_f64(*b),
            (AlgebraicValue::String(a), AlgebraicValue::String(b)) => *a == *b,
            (AlgebraicValue::Bytes(a), AlgebraicValue::Bytes(b)) => same_bytes(a, b),
            (AlgebraicValue::Array(a), AlgebraicValue::Array(b)) => same_values(a, b),
            (AlgebraicValue::Mapping(a), AlgebraicValue::Mapping(b)) => same_pairs(a, b),
            _ => false,
        }
    }
}

impl PartialEq for AlgebraicValue {
    fn eq(&self, other: &AlgebraicValue) -> (r: bool) {
        self.same(other)
    }
}

impl vstd::std_specs::cmp::PartialEqSpecImpl for AlgebraicValue {
    open spec fn obeys_eq_spec() -> bool {
        true
    }

    open spec fn eq_spec(&self, other: &AlgebraicValue) -> bool {
        canonical(self@) == canonical(other@)
    }
}

fn same_values(a: &Vec<AlgebraicValue>, b: &Vec<AlgebraicValue>) -> (r: bool)
    ensures
        r == (canonical_all(values(a@)) == canonical_all(values(b@))),
    decreases a,
{
    let ghost s = canonical_all(values(a@));
    let ghost t = canonical_all(values(b@));
    if a.len() != b.len() {
        assert(s.len() != t.len());
        return false;
    }
    for i in 0..a.len()
        invariant
            a@.len() == b@.len(),
            s == canonical_all(values(a@)),
            t == canonical_all(values(b@)),
            forall|j: int| 0 <= j < i ==> #[trigger] s[j] == t[j],
    {
        assert(s[i as int] == canonical(a@[i as int]@));
        assert(t[i as int] == canonical(b@[i as int]@));
        if !a[i].same(&b[i]) {
            return false;
        }
    }
    assert(s =~= t);
    true
}

fn same_pairs(
    a: &Vec<(AlgebraicValue, AlgebraicValue)>,
    b: &Vec<(AlgebraicValue, AlgebraicValue)>,
) -> (r: bool)
    ensures
        r == (canonical_pairs(value_pairs(a@)) == canonical_pairs(value_pairs(b@))),
    decreases a,
{
    let ghost s = canonical_pairs(value_pairs(a@));
    let ghost t = canonical_pairs(value_pairs(b@));
    if a.len() != b.len() {
        assert(s.len() != t.len());
        return false;
    }
    for i in 0..a.len()
        invariant
            a@.len() == b@.len(),
            s == canonical_pairs(value_pairs(a@)),
            t == canonical_pairs(value_pairs(b@)),
            forall|j: int| 0 <= j < i ==> #[trigger] s[j] == t[j],
    {
        assert(s[i as int] == (canonical(a@[i as int].0@), canonical(a@[i as int].1@)));
        assert(t[i as int] == (canonical(b@[i as int].0@), canonical(b@[i as int].1@)));
        if !a[i].0.same(&b[i].0) || !a[i].1.same(&b[i].1) {
            return false;
        }
    }
    assert(s =~= t);
    true
}

/// Whether the two hold the same bytes.
pub fn same_bytes(a: &Vec<u8>, b: &Vec<u8>) -> (r: bool)
    ensures
        r == (a@ == b@),
{
    if a.len() != b.len() {
        return false;
    }
    for i in 0..a.len()
        invariant
            a@.len() == b@.len(),
            forall|j: int| 0 <= j < i ==> a@[j] == b@[j],
    {
        if a[i] != b[i] {
            return false;
        }
    }
    assert(a@ =~= b@);
    true
}

/// The `width` lowest bytes of `n`, the lowest first.
pub open spec fn le_bytes(n: nat, width: nat) -> Seq<u8>
    decreases width,
{
    if width == 0 {
        Seq::empty()
    } else {
        seq![(n % 256) as u8] + le_bytes(n / 256, (width - 1) as nat)
    }
}

/// The bytes of `v`: numbers lowest byte first, a length before what has one.
pub open spec fn encoded(v: Value) -> Seq<u8>
    decreases v,
{
    match v {
        Value::Sum(tag, x) => seq![tag] + encoded(*x),
        Value::Product(s) => encoded_all(s),
        Value::Bool(x) => seq![if x { 1u8 } else { 0u8 }],
        Value::I8(x) => le_bytes(x as u8 as nat, 1),
        Value::U8(x) => le_bytes(x as nat, 1),
        Value::I16(x) => le_bytes(x as u16 as nat, 2),
        Value::U16(x) => le_bytes(x as nat, 2),
        Value::I32(x) => le_bytes(x as u32 as nat, 4),
        Value::U32(x) => le_bytes(x as nat, 4),
        Value::I64(x) => le_bytes(x as u64 as nat, 8),
        Value::U64(x) => le_bytes(x as nat, 8),
        Value::I128(x) => le_bytes(x as u128 as nat, 16),
        Value::U128(x) => le_bytes(x as nat, 16),
        Value::F32(x) => le_bytes(x as nat, 4),
        Value::F64(x) => le_bytes(x as nat, 8),
        Value::String(s) => encoded_bytes(encode_utf8(s)),
        Value::Bytes(s) => encoded_bytes(s),
        Value::Array(s) => le_bytes(s.len() as u32 as nat, 4) + encoded_all(s),
        Value::Mapping(s) => le_bytes(s.len() as u32 as nat, 4) + encoded_pairs(s),
    }
}

/// The bytes of each of `s`, one after the other.
pub open spec fn encoded_all(s: Seq<Value>) -> Seq<u8>
    decreases s,
{
    if s.len() == 0 {
        Seq::empty()
    } else {
        encoded_all(s.drop_last()) + encoded(s.last())
    }
}

pub open spec fn encoded_pairs(s: Seq<(Value, Value)>) -> Seq<u8>
    decreases s,
{
    if s.len() == 0 {
        Seq::empty()
    } else {
        encoded_pairs(s.drop_last()) + encoded(s.last().0) + encoded(s.last().1)
    }
}

/// `s` behind its length.
pub open spec fn encoded_bytes(s: Seq<u8>) -> Seq<u8> {
    le_bytes(s.len() as u32 as nat, 4) + s
}

/// Appends the `width` lowest bytes of `n`.
pub fn put_le_bytes(n: u128, width: usize, out: &mut Vec<u8>)
    ensures
        final(out)@ == old(out)@ + le_bytes(n as nat, width as nat),
{
    let mut rest: u128 = n;
    let mut left: usize = width;
    while left > 0
        invariant
            old(out)@ + le_bytes(n as nat, width as nat) == out@ + le_bytes(
                rest as nat,
                left as nat,
            ),
        decreases left,
    {
        let ghost before = out@;
        out.push((rest % 256) as u8);
        assert(before + le_bytes(rest as nat, left as nat) =~= out@ + le_bytes(
            rest as nat / 256,
            (left - 1) as nat,
        ));
        rest = rest / 256;
        left = left - 1;
    }
    assert(out@ + le_bytes(rest as nat, 0) =~= out@);
}

fn put_bytes(s: &[u8], out: &mut Vec<u8>)
    ensures
        final(out)@ == old(out)@ + encoded_bytes(s@),
{
    put_le_bytes(s.len() as u32 as u128, 4, out);
    out.extend_from_slice(s);
    assert(out@ =~= old(out)@ + encoded_bytes(s@));
}

impl AlgebraicValue {
    /// Appends the bytes of the value.
    pub fn encode(&self, out: &mut Vec<u8>)
        ensures
            final(out)@ == old(out)@ + encoded(self@),
        decreases self,
    {
        match self {
            AlgebraicValue::Sum(s) => {
                out.push(s.tag);
                (*s.value).encode(out);
                assert(out@ =~= old(out)@ + encoded(self@));
            },
            AlgebraicValue::Product(p) => encode_values(&p.elements, out),
            AlgebraicValue::Bool(x) => {
                out.push(if *x { 1u8 } else { 0u8 });
                assert(out@ =~= old(out)@ + encoded(self@));
            },
            AlgebraicValue::I8(x) => put_le_bytes(*x as u8 as u128, 1, out),
            AlgebraicValue::U8(x) => put_le_bytes(*x as u128, 1, out),
            AlgebraicValue::I16(x) => put_le_bytes(*x as u16 as u128, 2, out),
            AlgebraicValue::U16(x) => put_le_bytes(*x as u128, 2, out),
            AlgebraicValue::I32(x) => put_le_bytes(*x as u32 as u128, 4, out),
            AlgebraicValue::U32(x) => put_le_bytes(*x as u128, 4, out),
            AlgebraicValue::I64(x) => put_le_bytes(*x as u64 as u128, 8, out),
            AlgebraicValue::U64(x) => put_le_bytes(*x as u128, 8, out),
            AlgebraicValue::I128(x) => put_le_bytes(*x as u128, 16, out),
            AlgebraicValue::U128(x) => put_le_bytes(*x, 16, out),
            AlgebraicValue::F32(x) => put_le_bytes(*x as u128, 4, out),
            AlgebraicValue::F64(x) => put_le_bytes(*x as u128, 8, out),
            AlgebraicValue::String(x) => put_bytes(x.as_str().as_bytes(), out),
            AlgebraicValue::Bytes(x) => put_bytes(x.as_slice(), out),
            AlgebraicValue::Array(x) => {
                put_le_bytes(x.len() as u32 as u128, 4, out);
                encode_values(x, out);
                assert(out@ =~= old(out)@ + encoded(self@));
            },
            AlgebraicValue::Mapping(x) => {
                put_le_bytes(x.len() as u32 as u128, 4, out);
                encode_pairs(x, out);
                assert(out@ =~= old(out)@ + encoded(self@));
            },
        }
    }
}

fn encode_values(v: &Vec<AlgebraicValue>, out: &mut Vec<u8>)
    ensures
        final(out)@ == old(out)@ + encoded_all(values(v@)),
    decreases v,
{
    let ghost all = values(v@);
    assert(all.take(0) =~= Seq::<Value>::empty());
    assert(out@ =~= old(out)@ + encoded_all(all.take(0)));
    for i in 0..v.len()
        invariant
            all == values(v@),
            out@ == old(out)@ + encoded_all(all.take(i as int)),
    {
        v[i].encode(out);
        assert(all.take(i + 1).drop_last() =~= all.take(i as int));
        assert(out@ =~= old(out)@ + encoded_all(all.take(i + 1)));
    }
    assert(all.take(v@.len() as int) =~= all);
}

fn encode_pairs(v: &Vec<(AlgebraicValue, AlgebraicValue)>, out: &mut Vec<u8>)
    ensures
        final(out)@ == old(out)@ + encoded_pairs(value_pairs(v@)),
    decreases v,
{
    let ghost all = value_pairs(v@);
    assert(all.take(0) =~= Seq::<(Value, Value)>::empty());
    assert(out@ =~= old(out)@ + encoded_pairs(all.take(0)));
    for i in 0..v.len()
        invariant
            all == value_pairs(v@),
            out@ == old(out)@ + encoded_pairs(all.take(i as int)),
    {
        v[i].0.encode(out);
        v[i].1.encode(out);
        assert(all.take(i + 1).drop_last() =~= all.take(i as int));
        assert(out@ =~= old(out)@ + encoded_pairs(all.take(i + 1)));
    }
    assert(all.take(v@.len() as int) =~= all);
}

impl ProductValue {
    /// Appends the bytes of the row.
    pub fn encode(&self, out: &mut Vec<u8>)
        ensures
            final(out)@ == old(out)@ + encoded_all(self@),
    {
        encode_values(&self.elements, out)
    }

    /// Whether the two are equal, value by value.
    pub fn same(&self, other: &ProductValue) -> (r: bool)
        ensures
            r == (canonical_all(self@) == canonical_all(other@)),
    {
        same_values(&self.elements, &other.elements)
    }
}

} // verus!
