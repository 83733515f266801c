//! The order of values, and ranges of them.

use vstd::prelude::*;
use vstd::utf8::{encode_utf8, encode_utf8_decode_utf8};

use crate::ordered::KeyOrder;
use crate::value::{
    canonical, canonical_all, canonical_pairs, value_pairs, values, AlgebraicValue, Value,
};

verus! {

/// The order of two numbers.
pub open spec fn int_order(a: int, b: int) -> KeyOrder {
    if a < b {
        KeyOrder::Before
    } else if a == b {
        KeyOrder::Same
    } else {
        KeyOrder::After
    }
}

/// Where the float with these bits stands among the floats: the zeros together, and the values
/// that are not numbers together, after all numbers.
pub open spec fn f32_rank(bits: u32) -> int {
    if bits < 0x8000_0000 {
        if bits > 0x7f80_0000 {
            0x7f80_0001
        } else {
            bits as int
        }
    } else if bits - 0x8000_0000 > 0x7f80_0000 {
        0x7f80_0001
    } else {
        0x8000_0000 - bits
    }
}

/// Where the float with these bits stands among the floats.
pub open spec fn f64_rank(bits: u64) -> int {
    if bits < 0x8000_0000_0000_0000 {
        if bits > 0x7ff0_0000_0000_0000 {
            0x7ff0_0000_0000_0001
        } else {
            bits as int
        }
    } else if bits - 0x8000_0000_0000_0000 > 0x7ff0_0000_0000_0000 {
        0x7ff0_0000_0000_0001
    } else {
        0x8000_0000_0000_0000 - bits
    }
}

/// Where the variant of `v` stands among the variants.
pub open spec fn variant_rank(v: Value) -> int {
    match v {
        Value::Sum(_, _) => 0,
        Value::Product(_) => 1,
        Value::Bool(_) => 2,
        Value::I8(_) => 3,
        Value::U8(_) => 4,
        Value::I16(_) => 5,
        Value::U16(_) => 6,
        Value::I32(_) => 7,
        Value::U32(_) => 8,
        Value::I64(_) => 9,
        Value::U64(_) => 10,
        Value::I128(_) => 11,
        Value::U128(_) => 12,
        Value::F32(_) => 13,
        Value::F64(_) => 14,
        Value::String(_) => 15,
        Value::Bytes(_) => 16,
        Value::Array(_) => 17,
        Value::Mapping(_) => 18,
    }
}

/// The order of two sequences of bytes from place `i` on: by the first byte in which they differ,
/// a beginning before what it begins.
pub open spec fn bytes_order_from(s: Seq<u8>, t: Seq<u8>, i: int) -> KeyOrder
    decreases s.len() - i,
{
    if i >= s.len() || i >= t.len() {
        int_order(s.len() as int, t.len() as int)
    } else if s[i] != t[i] {
        int_order(s[i] as int, t[i] as int)
    } else {
        bytes_order_from(s, t, i + 1)
    }
}

/// The order of two values: that of their variants, or else that of what they hold.
pub open spec fn value_order(a: Value, b: Value) -> KeyOrder
    decreases a, 0int,
{
    match (a, b) {
        (Value::Sum(s, x), Value::Sum(t, y)) => if s != t {
            int_order(s as int, t as int)
        } else {
            value_order(*x, *y)
        },
        (Value::Product(s), Value::Product(t)) => values_order_from(s, t, 0),
        (Value::Bool(x), Value::Bool(y)) => int_order(
            if x { 1 } else { 0 },
            if y { 1 } else { 0 },
        ),
        (Value::I8(x), Value::I8(y)) => int_order(x as int, y as int),
        (Value::U8(x), Value::U8(y)) => int_order(x as int, y as int),
        (Value::I16(x), Value::I16(y)) => int_order(x as int, y as int),
        (Value::U16(x), Value::U16(y)) => int_order(x as int, y as int),
        (Value::I32(x), Value::I32(y)) => int_order(x as int, y as int),
        (Value::U32(x), Value::U32(y)) => int_order(x as int, y as int),
        (Value::I64(x), Value::I64(y)) => int_order(x as int, y as int),
        (Value::U64(x), Value::U64(y)) => int_order(x as int, y as int),
        (Value::I128(x), Value::I128(y)) => int_order(x as int, y as int),
        (Value::U128(x), Value::U128(y)) => int_order(x as int, y as int),
        (Value::F32(x), Value::F32(y)) => int_order(f32_rank(x), f32_rank(y)),
        (Value::F64(x), Value::F64(y)) => int_order(f64_rank(x), f64_rank(y)),
        (Value::String(x), Value::String(y)) => bytes_order_from(
            encode_utf8(x),
            encode_utf8(y),
            0,
        ),
        (Value::Bytes(x), Value::Bytes(y)) => bytes_order_from(x, y, 0),
        (Value::Array(s), Value::Array(t)) => values_order_from(s, t, 0),
        (Value::Mapping(s), Value::Mapping(t)) => pairs_order_from(s, t, 0),
        _ => int_order(variant_rank(a), variant_rank(b)),
    }
}

/// The order of two sequences of values from place `i` on.
pub open spec fn values_order_from(s: Seq<Value>, t: Seq<Value>, i: int) -> KeyOrder
    decreases s, s.len() - i,
{
    if i < 0 || i >= s.len() || i >= t.len() {
        int_order(s.len() as int, t.len() as int)
    } else {
        match value_order(s[i], t[i]) {
            KeyOrder::Same => values_order_from(s, t, i + 1),
            o => o,
        }
    }
}

/// The order of two sequences of pairs from place `i` on.
pub open spec fn pairs_order_from(
    s: Seq<(Value, Value)>,
    t: Seq<(Value, Value)>,
    i: int,
) -> KeyOrder
    decreases s, s.len() - i,
{
    if i < 0 || i >= s.len() || i >= t.len() {
        int_order(s.len() as int, t.len() as int)
    } else {
        match value_order(s[i].0, t[i].0) {
            KeyOrder::Same => match value_order(s[i].1, t[i].1) {
                KeyOrder::Same => pairs_order_from(s, t, i + 1),
                o => o,
            },
            o => o,
        }
    }
}

/// Neither of two values comes before the other just when they are equal.
pub proof fn law_order_agrees_with_equality(a: Value, b: Value)
    ensures
        value_order(a, b) == KeyOrder::Same <==> canonical(a) == canonical(b),
    decreases a, 0int,
{
    match (a, b) {
        (Value::Sum(s, x), Value::Sum(t, y)) => {
            law_order_agrees_with_equality(*x, *y);
        },
        (Value::Product(s), Value::Product(t)) => {
            lemma_values_agree(s, t, 0);
            lemma_canonical_all(s, t);
        },
        (Value::String(x), Value::String(y)) => {
            lemma_bytes_agree(encode_utf8(x), encode_utf8(y), 0);
            encode_utf8_decode_utf8(x);
            encode_utf8_decode_utf8(y);
        },
        (Value::Bytes(x), Value::Bytes(y)) => {
            lemma_bytes_agree(x, y, 0);
        },
        (Value::Array(s), Value::Array(t)) => {
            lemma_values_agree(s, t, 0);
            lemma_canonical_all(s, t);
        },
        (Value::Mapping(s), Value::Mapping(t)) => {
            lemma_pairs_agree(s, t, 0);
            lemma_canonical_pairs(s, t);
        },
        _ => {},
    }
}

proof fn lemma_bytes_agree(s: Seq<u8>, t: Seq<u8>, i: int)
    requires
        0 <= i <= s.len(),
        i <= t.len(),
        forall|j: int| 0 <= j < i ==> s[j] == t[j],
    ensures
        bytes_order_from(s, t, i) == KeyOrder::Same <==> s == t,
    decreases s.len() - i,
{
    if i >= s.len() || i >= t.len() {
        if s.len() == t.len() {
            assert(s =~= t);
        }
    } else if s[i] == t[i] {
        lemma_bytes_agree(s, t, i + 1);
    }
}

proof fn lemma_values_agree(s: Seq<Value>, t: Seq<Value>, i: int)
    requires
        0 <= i <= s.len(),
        i <= t.len(),
    ensures
        values_order_from(s, t, i) == KeyOrder::Same <==> s.len() == t.len() && (forall|j: int|
            i <= j < s.len() ==> canonical(#[trigger] s[j]) == canonical(t[j])),
    decreases s, s.len() - i,
{
    if i < s.len() && i < t.len() {
        law_order_agrees_with_equality(s[i], t[i]);
        lemma_values_agree(s, t, i + 1);
        assert(canonical(s[i]) == canonical(s[i]));
    }
}

proof fn lemma_pairs_agree(s: Seq<(Value, Value)>, t: Seq<(Value, Value)>, i: int)
    requires
        0 <= i <= s.len(),
        i <= t.len(),
    ensures
        pairs_order_from(s, t, i) == KeyOrder::Same <==> s.len() == t.len() && (forall|j: int|
            i <= j < s.len() ==> canonical((#[trigger] s[j]).0) == canonical(t[j].0) && canonical(
                s[j].1,
            ) == canonical(t[j].1)),
    decreases s, s.len() - i,
{
    if i < s.len() && i < t.len() {
        law_order_agrees_with_equality(s[i].0, t[i].0);
        law_order_agrees_with_equality(s[i].1, t[i].1);
        lemma_pairs_agree(s, t, i + 1);
    }
}

proof fn lemma_canonical_all(s: Seq<Value>, t: Seq<Value>)
    ensures
        canonical_all(s) == canonical_all(t) <==> s.len() == t.len() && (forall|j: int|
            0 <= j < s.len() ==> canonical(#[trigger] s[j]) == canonical(t[j])),
{
    let a = canonical_all(s);
    let b = canonical_all(t);
    if a == b {
        assert(a.len() == b.len());
        assert forall|j: int| 0 <= j < s.len() implies canonical(#[trigger] s[j]) == canonical(
            t[j],
        ) by {
            assert(a[j] == b[j]);
        }
    }
    if s.len() == t.len() && (forall|j: int|
        0 <= j < s.len() ==> canonical(#[trigger] s[j]) == canonical(t[j])) {
        assert(a =~= b);
    }
}

proof fn lemma_canonical_pairs(s: Seq<(Value, Value)>, t: Seq<(Value, Value)>)
    ensures
        canonical_pairs(s) == canonical_pairs(t) <==> s.len() == t.len() && (forall|j: int|
            0 <= j < s.len() ==> canonical((#[trigger] s[j]).0) == canonical(t[j].0) && canonical(
                s[j].1,
            ) == canonical(t[j].1)),
{
    let a = canonical_pairs(s);
    let b = canonical_pairs(t);
    if a == b {
        assert(a.len() == b.len());
        assert forall|j: int| 0 <= j < s.len() implies canonical((#[trigger] s[j]).0) == canonical(
            t[j].0,
        ) && canonical(s[j].1) == canonical(t[j].1) by {
            assert(a[j] == b[j]);
        }
    }
    if s.len() == t.len() && (forall|j: int|
        0 <= j < s.len() ==> canonical((#[trigger] s[j]).0) == canonical(t[j].0) && canonical(
            s[j].1,
        ) == canonical(t[j].1)) {
        assert(a =~= b);
    }
}

fn i128_order(a: i128, b: i128) -> (r: KeyOrder)
    ensures
        r == int_order(a as int, b as int),
{
    if a < b {
        KeyOrder::Before
    } else if a == b {
        KeyOrder::Same
    } else {
        KeyOrder::After
    }
}

fn u128_order(a: u128, b: u128) -> (r: KeyOrder)
    ensures
        r == int_order(a as int, b as int),
{
    if a < b {
        KeyOrder::Before
    } else if a == b {
        KeyOrder::Same
    } else {
        KeyOrder::After
    }
}

fn rank_of_f32(bits: u32) -> (r: i128)
    ensures
        r == f32_rank(bits),
{
    if bits < 0x8000_0000 {
        if bits > 0x7f80_0000 {
            0x7f80_0001
        } else {
            bits as i128
        }
    } else if bits - 0x8000_0000 > 0x7f80_0000 {
        0x7f80_0001
    } else {
        0x8000_0000 - bits as i128
    }
}

fn rank_of_f64(bits: u64) -> (r: i128)
    ensures
        r == f64_rank(bits),
{
    if bits < 0x8000_0000_0000_0000 {
        if bits > 0x7ff0_0000_0000_0000 {
            0x7ff0_0000_0000_0001
        } else {
            bits as i128
        }
    } else if bits - 0x8000_0000_0000_0000 > 0x7ff0_0000_0000_0000 {
        0x7ff0_0000_0000_0001
    } else {
        0x8000_0000_0000_0000 - bits as i128
    }
}

fn bytes_order(a: &[u8], b: &[u8]) -> (r: KeyOrder)
    ensures
        r == bytes_order_from(a@, b@, 0),
{
    let mut i: usize = 0;
    while i < a.len() && i < b.len()
        invariant
            i <= a@.len(),
            i <= b@.len(),
            bytes_order_from(a@, b@, 0) == bytes_order_from(a@, b@, i as int),
        decreases a@.len() - i,
    {
        if a[i] != b[i] {
            return u128_order(a[i] as u128, b[i] as u128);
        }
        i = i + 1;
    }
    u128_order(a.len() as u128, b.len() as u128)
}

fn rank_of_variant(v: &AlgebraicValue) -> (r: i128)
    ensures
        r == variant_rank(v@),
{
    match v {
        AlgebraicValue::Sum(_) => 0,
        AlgebraicValue::Product(_) => 1,
        AlgebraicValue::Bool(_) => 2,
        AlgebraicValue::I8(_) => 3,
        AlgebraicValue::U8(_) => 4,
        AlgebraicValue::I16(_) => 5,
        AlgebraicValue::U16(_) => 6,
        AlgebraicValue::I32(_) => 7,
        AlgebraicValue::U32(_) => 8,
        AlgebraicValue::I64(_) => 9,
        AlgebraicValue::U64(_) => 10,
        AlgebraicValue::I128(_) => 11,
        AlgebraicValue::U128(_) => 12,
        AlgebraicValue::F32(_) => 13,
        AlgebraicValue::F64(_) => 14,
        AlgebraicValue::String(_) => 15,
        AlgebraicValue::Bytes(_) => 16,
        AlgebraicValue::Array(_) => 17,
        AlgebraicValue::Mapping(_) => 18,
    }
}

impl AlgebraicValue {
    /// Whether the value comes before the other, or after it, or neither.
    pub fn order(&self, other: &AlgebraicValue) -> (r: KeyOrder)
        ensures
            r == value_order(self@, other@),
        decreases self,
    {
        match (self, other) {
            (AlgebraicValue::Sum(a), AlgebraicValue::Sum(b)) => {
                if a.tag != b.tag {
                    u128_order(a.tag as u128, b.tag as u128)
                } else {
                    (*a.value).order(&*b.value)
                }
            },
            (AlgebraicValue::Product(a), AlgebraicValue::Product(b)) => order_of_values(
                &a.elements,
                &b.elements,
            ),
            (AlgebraicValue::Bool(a), AlgebraicValue::Bool(b)) => u128_order(
                if *a { 1 } else { 0 },
                if *b { 1 } else { 0 },
            ),
            (AlgebraicValue::I8(a), AlgebraicValue::I8(b)) => i128_order(*a as i128, *b as i128),
            (AlgebraicValue::U8(a), AlgebraicValue::U8(b)) => u128_order(*a as u128, *b as u128),
            (AlgebraicValue::I16(a), AlgebraicValue::I16(b)) => i128_order(*a as i128, *b as i128),
            (AlgebraicValue::U16(a), AlgebraicValue::U16(b)) => u128_order(*a as u128, *b as u128),
            (AlgebraicValue::I32(a), AlgebraicValue::I32(b)) => i128_order(*a as i128, *b as i128),
            (AlgebraicValue::U32(a), AlgebraicValue::U32(b)) => u128_order(*a as u128, *b as u128),
            (AlgebraicValue::I64(a), AlgebraicValue::I64(b)) => i128_order(*a as i128, *b as i128),
            (AlgebraicValue::U64(a), AlgebraicValue::U64(b)) => u128_order(*a as u128, *b as u128),
            (AlgebraicValue::I128(a), AlgebraicValue::I128(b)) => i128_order(*a, *b),
            (AlgebraicValue::U128(a), AlgebraicValue::U128(b)) => u128_order(*a, *b),
            (AlgebraicValue::F32(a), AlgebraicValue::F32(b)) => i128_order(
                rank_of_f32(*a),
                rank_of_f32(*b),
            ),
            (AlgebraicValue::F64(a), AlgebraicValue::F64(b)) => i128_order(
                rank_of_f64(*a),
                rank_of_f64(*b),
            ),
            (AlgebraicValue::String(a), AlgebraicValue::String(b)) => bytes_order(
                a.as_str().as_bytes(),
                b.as_str().as_bytes(),
            ),
            (AlgebraicValue::Bytes(a), AlgebraicValue::Bytes(b)) => bytes_order(
                a.as_slice(),
                b.as_slice(),
            ),
            (AlgebraicValue::Array(a), AlgebraicValue::Array(b)) => order_of_values(a, b),
            (AlgebraicValue::Mapping(a), AlgebraicValue::Mapping(b)) => order_of_pairs(a, b),
            _ => i128_order(rank_of_variant(self), rank_of_variant(other)),
        }
    }
}

fn order_of_values(a: &Vec<AlgebraicValue>, b: &Vec<AlgebraicValue>) -> (r: KeyOrder)
    ensures
        r == values_order_from(values(a@), values(b@), 0),
    decreases a,
{
    let ghost s = values(a@);
    let ghost t = values(b@);
    let mut i: usize = 0;
    while i < a.len() && i < b.len()
        invariant
            i <= a@.len(),
            i <= b@.len(),
            s == values(a@),
            t == values(b@),
            values_order_from(s, t, 0) == values_order_from(s, t, i as int),
        decreases a@.len() - i,
    {
        assert(s[i as int] == a@[i as int]@ && t[i as int] == b@[i as int]@);
        match a[i].order(&b[i]) {
            KeyOrder::Same => {},
            o => {
                return o;
            },
        }
        i = i + 1;
    }
    u128_order(a.len() as u128, b.len() as u128)
}

fn order_of_pairs(
    a: &Vec<(AlgebraicValue, AlgebraicValue)>,
    b: &Vec<(AlgebraicValue, AlgebraicValue)>,
) -> (r: KeyOrder)
    ensures
        r == pairs_order_from(value_pairs(a@), value_pairs(b@), 0),
    decreases a,
{
    let ghost s = value_pairs(a@);
    let ghost t = value_pairs(b@);
    let mut i: usize = 0;
    while i < a.len() && i < b.len()
        invariant
            i <= a@.len(),
            i <= b@.len(),
            s == value_pairs(a@),
            t == value_pairs(b@),
            pairs_order_from(s, t, 0) == pairs_order_from(s, t, i as int),
        decreases a@.len() - i,
    {
        assert(s[i as int] == (a@[i as int].0@, a@[i as int].1@));
        assert(t[i as int] == (b@[i as int].0@, b@[i as int].1@));
        match a[i].0.order(&b[i].0) {
            KeyOrder::Same => {},
            o => {
                return o;
            },
        }
        match a[i].1.order(&b[i].1) {
            KeyOrder::Same => {},
            o => {
                return o;
            },
        }
        i = i + 1;
    }
    u128_order(a.len() as u128, b.len() as u128)
}

/// One end of a range.
#[derive(Debug, PartialEq, Eq)]
pub enum RangeBound {
    Included(AlgebraicValue),
    Excluded(AlgebraicValue),
    Unbounded,
}

/// What an end of a range is.
pub enum BoundModel {
    Included(Value),
    Excluded(Value),
    Unbounded,
}

impl View for RangeBound {
    type V = BoundModel;

    open spec fn view(&self) -> BoundModel {
        match self {
            RangeBound::Included(v) => BoundModel::Included(v@),
            RangeBound::Excluded(v) => BoundModel::Excluded(v@),
            RangeBound::Unbounded => BoundModel::Unbounded,
        }
    }
}

/// A range of values.
#[derive(Debug, PartialEq, Eq)]
pub struct ValueRange {
    pub start: RangeBound,
    pub end: RangeBound,
}

/// What a range is.
pub struct RangeModel {
    pub start: BoundModel,
    pub end: BoundModel,
}

impl View for ValueRange {
    type V = RangeModel;

    open spec fn view(&self) -> RangeModel {
        RangeModel { start: self.start@, end: self.end@ }
    }
}

impl RangeModel {
    /// `v` lies in the range.
    pub open spec fn contains(self, v: Value) -> bool {
        &&& match self.start {
            BoundModel::Included(s) => value_order(s, v) != KeyOrder::After,
            BoundModel::Excluded(s) => value_order(s, v) == KeyOrder::Before,
            BoundModel::Unbounded => true,
        }
        &&& match self.end {
            BoundModel::Included(e) => value_order(v, e) != KeyOrder::After,
            BoundModel::Excluded(e) => value_order(v, e) == KeyOrder::Before,
            BoundModel::Unbounded => true,
        }
    }
}

impl ValueRange {
    /// Whether `value` lies in the range.
    pub fn contains(&self, value: &AlgebraicValue) -> (r: bool)
        ensures
            r == self@.contains(value@),
    {
        let after_start = match &self.start {
            RangeBound::Included(s) => s.order(value) != KeyOrder::After,
            RangeBound::Excluded(s) => s.order(value) == KeyOrder::Before,
            RangeBound::Unbounded => true,
        };
        let before_end = match &self.end {
            RangeBound::Included(e) => value.order(e) != KeyOrder::After,
            RangeBound::Excluded(e) => value.order(e) == KeyOrder::Before,
            RangeBound::Unbounded => true,
        };
        after_start && before_end
    }
}

} // verus!
