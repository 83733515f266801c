//! What holds of the order of values, and of ranges of them.

use vstd::prelude::*;
use vstd::utf8::encode_utf8;

use crate::data_key::{bytes_before, DataKey, Key, RowId};
use crate::ordered::{KeyOrder, OrderedKey};
use crate::range::{
    bytes_order_from, law_order_agrees_with_equality, pairs_order_from, value_order,
    values_order_from, BoundModel, RangeBound, RangeModel, ValueRange,
};
use crate::value::{AlgebraicValue, Value};

verus! {

/// Two numbers of one type are in the order of the numbers, and of the flags, the one that does not
/// hold comes first.
pub proof fn law_numbers_are_in_their_order(a: Value, b: Value)
    ensures
        ({
            let o = value_order(a, b);
            match (a, b) {
                (Value::Bool(x), Value::Bool(y)) => {
                    &&& o == KeyOrder::Before <==> !x && y
                    &&& o == KeyOrder::After <==> x && !y
                    &&& o == KeyOrder::Same <==> x == y
                },
                (Value::I8(x), Value::I8(y)) => {
                    &&& o == KeyOrder::Before <==> x < y
                    &&& o == KeyOrder::After <==> x > y
                    &&& o == KeyOrder::Same <==> x == y
                },
                (Value::U8(x), Value::U8(y)) => {
                    &&& o == KeyOrder::Before <==> x < y
                    &&& o == KeyOrder::After <==> x > y
                    &&& o == KeyOrder::Same <==> x == y
                },
                (Value::I16(x), Value::I16(y)) => {
                    &&& o == KeyOrder::Before <==> x < y
                    &&& o == KeyOrder::After <==> x > y
                    &&& o == KeyOrder::Same <==> x == y
                },
                (Value::U16(x), Value::U16(y)) => {
                    &&& o == KeyOrder::Before <==> x < y
                    &&& o == KeyOrder::After <==> x > y
                    &&& o == KeyOrder::Same <==> x == y
                },
                (Value::I32(x), Value::I32(y)) => {
                    &&& o == KeyOrder::Before <==> x < y
                    &&& o == KeyOrder::After <==> x > y
                    &&& o == KeyOrder::Same <==> x == y
                },
                (Value::U32(x), Value::U32(y)) => {
                    &&& o == KeyOrder::Before <==> x < y
                    &&& o == KeyOrder::After <==> x > y
                    &&& o == KeyOrder::Same <==> x == y
                },
                (Value::I64(x), Value::I64(y)) => {
                    &&& o == KeyOrder::Before <==> x < y
                    &&& o == KeyOrder::After <==> x > y
                    &&& o == KeyOrder::Same <==> x == y
                },
                (Value::U64(x), Value::U64(y)) => {
                    &&& o == KeyOrder::Before <==> x < y
                    &&& o == KeyOrder::After <==> x > y
                    &&& o == KeyOrder::Same <==> x == y
                },
                (Value::I128(x), Value::I128(y)) => {
                    &&& o == KeyOrder::Before <==> x < y
                    &&& o == KeyOrder::After <==> x > y
                    &&& o == KeyOrder::Same <==> x == y
                },
                (Value::U128(x), Value::U128(y)) => {
                    &&& o == KeyOrder::Before <==> x < y
                    &&& o == KeyOrder::After <==> x > y
                    &&& o == KeyOrder::Same <==> x == y
                },
                _ => true,
            }
        }),
{
}

/// Two floats are in the order of the numbers: those with a sign before those without, except that
/// the zeros stand together, among those without the lesser bits first, and among those with the
/// greater. All that are not numbers stand together behind the others.
pub proof fn law_floats_are_in_their_order(a: Value, b: Value)
    ensures
        ({
            let o = value_order(a, b);
            match (a, b) {
                (Value::F32(x), Value::F32(y)) => {
                    let p = x % 0x8000_0000;
                    let q = y % 0x8000_0000;
                    if p > 0x7f80_0000 || q > 0x7f80_0000 {
                        &&& o == KeyOrder::Before <==> p <= 0x7f80_0000
                        &&& o == KeyOrder::After <==> q <= 0x7f80_0000
                        &&& o == KeyOrder::Same <==> p > 0x7f80_0000 && q > 0x7f80_0000
                    } else {
                        &&& o == KeyOrder::Same <==> x == y || (p == 0 && q == 0)
                        &&& x < 0x8000_0000 && y < 0x8000_0000 ==> (o == KeyOrder::Before
                            <==> x < y)
                        &&& x < 0x8000_0000 && y < 0x8000_0000 ==> (o == KeyOrder::After <==> x > y)
                        &&& x > 0x8000_0000 && y > 0x8000_0000 ==> (o == KeyOrder::Before
                            <==> x > y)
                        &&& x > 0x8000_0000 && y > 0x8000_0000 ==> (o == KeyOrder::After <==> x < y)
                        &&& x > 0x8000_0000 && y < 0x8000_0000 ==> o == KeyOrder::Before
                        &&& x > 0x8000_0000 && q == 0 ==> o == KeyOrder::Before
                        &&& x < 0x8000_0000 && y > 0x8000_0000 ==> o == KeyOrder::After
                        &&& p == 0 && y > 0x8000_0000 ==> o == KeyOrder::After
                        &&& p == 0 && 0 < y < 0x8000_0000 ==> o == KeyOrder::Before
                        &&& 0 < x < 0x8000_0000 && q == 0 ==> o == KeyOrder::After
                    }
                },
                (Value::F64(x), Value::F64(y)) => {
                    let p = x % 0x8000_0000_0000_0000;
                    let q = y % 0x8000_0000_0000_0000;
                    if p > 0x7ff0_0000_0000_0000 || q > 0x7ff0_0000_0000_0000 {
                        &&& o == KeyOrder::Before <==> p <= 0x7ff0_0000_0000_0000
                        &&& o == KeyOrder::After <==> q <= 0x7ff0_0000_0000_0000
                        &&& o == KeyOrder::Same <==> p > 0x7ff0_0000_0000_0000 && q >
                            0x7ff0_0000_0000_0000
                    } else {
                        &&& o == KeyOrder::Same <==> x == y || (p == 0 && q == 0)
                        &&& x < 0x8000_0000_0000_0000 && y < 0x8000_0000_0000_0000 ==> (o ==
                            KeyOrder::Before <==> x < y)
                        &&& x < 0x8000_0000_0000_0000 && y < 0x8000_0000_0000_0000 ==> (o ==
                            KeyOrder::After <==> x > y)
                        &&& x > 0x8000_0000_0000_0000 && y > 0x8000_0000_0000_0000 ==> (o ==
                            KeyOrder::Before <==> x > y)
                        &&& x > 0x8000_0000_0000_0000 && y > 0x8000_0000_0000_0000 ==> (o ==
                            KeyOrder::After <==> x < y)
                        &&& x > 0x8000_0000_0000_0000 && y < 0x8000_0000_0000_0000 ==> o ==
                            KeyOrder::Before
                        &&& x > 0x8000_0000_0000_0000 && q == 0 ==> o == KeyOrder::Before
                        &&& x < 0x8000_0000_0000_0000 && y > 0x8000_0000_0000_0000 ==> o ==
                            KeyOrder::After
                        &&& p == 0 && y > 0x8000_0000_0000_0000 ==> o == KeyOrder::After
                        &&& p == 0 && 0 < y < 0x8000_0000_0000_0000 ==> o == KeyOrder::Before
                        &&& 0 < x < 0x8000_0000_0000_0000 && q == 0 ==> o == KeyOrder::After
                    }
                },
                _ => true,
            }
        }),
{
}

/// `s` comes before `t` by their first difference: they agree in the first places, and then `s` is
/// at its end and `t` is not, or has the lesser byte.
pub open spec fn differ_at(s: Seq<u8>, t: Seq<u8>, i: int) -> bool {
    &&& 0 <= i <= s.len()
    &&& i < t.len()
    &&& s.take(i) == t.take(i)
    &&& i < s.len() ==> s[i] < t[i]
}

proof fn lemma_bytes_order(s: Seq<u8>, t: Seq<u8>, i: int)
    requires
        0 <= i <= s.len(),
        i <= t.len(),
        s.take(i) == t.take(i),
    ensures
        bytes_order_from(s, t, i) == KeyOrder::Before ==> exists|j: int| #[trigger]
            differ_at(s, t, j),
        bytes_order_from(s, t, i) == KeyOrder::After ==> exists|j: int| #[trigger]
            differ_at(t, s, j),
        bytes_order_from(s, t, i) == KeyOrder::Same ==> s == t,
    decreases s.len() - i,
{
    if i >= s.len() || i >= t.len() {
        if s.len() < t.len() {
            assert(differ_at(s, t, i));
        } else if s.len() > t.len() {
            assert(differ_at(t, s, i));
        } else {
            assert(s.take(i) =~= s);
            assert(t.take(i) =~= t);
        }
    } else if s[i] != t[i] {
        if s[i] < t[i] {
            assert(differ_at(s, t, i));
        } else {
            assert(differ_at(t, s, i));
        }
    } else {
        assert(s.take(i + 1) =~= s.take(i).push(s[i]));
        assert(t.take(i + 1) =~= t.take(i).push(t[i]));
        lemma_bytes_order(s, t, i + 1);
    }
}

/// Two do not come before each other both ways, nor is a sequence before itself.
proof fn lemma_differ_one_way(s: Seq<u8>, t: Seq<u8>, i: int, j: int)
    requires
        differ_at(s, t, i),
    ensures
        !differ_at(t, s, j),
        s != t,
{
    if s == t {
        assert(i < s.len());
    }
    if differ_at(t, s, j) {
        if i < j {
            assert(t.take(j)[i] == s.take(j)[i]);
        } else if j < i {
            assert(t.take(i)[j] == s.take(i)[j]);
        }
    }
}

/// Bytes, and texts by their bytes, are in the order of the first byte in which they differ, and a
/// beginning comes before what it begins.
pub proof fn law_texts_are_in_their_order(a: Value, b: Value)
    ensures
        ({
            let o = value_order(a, b);
            match (a, b) {
                (Value::Bytes(x), Value::Bytes(y)) => {
                    &&& o == KeyOrder::Before <==> exists|i: int| #[trigger] differ_at(x, y, i)
                    &&& o == KeyOrder::After <==> exists|i: int| #[trigger] differ_at(y, x, i)
                    &&& o == KeyOrder::Same <==> x == y
                },
                (Value::String(x), Value::String(y)) => {
                    &&& o == KeyOrder::Before <==> exists|i: int| #[trigger]
                        differ_at(encode_utf8(x), encode_utf8(y), i)
                    &&& o == KeyOrder::After <==> exists|i: int| #[trigger]
                        differ_at(encode_utf8(y), encode_utf8(x), i)
                    &&& o == KeyOrder::Same <==> x == y
                },
                _ => true,
            }
        }),
{
    law_order_agrees_with_equality(a, b);
    match (a, b) {
        (Value::Bytes(x), Value::Bytes(y)) => lemma_bytes_order_is_theirs(x, y),
        (Value::String(x), Value::String(y)) => lemma_bytes_order_is_theirs(
            encode_utf8(x),
            encode_utf8(y),
        ),
        _ => {},
    }
}

proof fn lemma_bytes_order_is_theirs(s: Seq<u8>, t: Seq<u8>)
    ensures
        bytes_order_from(s, t, 0) == KeyOrder::Before <==> exists|i: int| #[trigger]
            differ_at(s, t, i),
        bytes_order_from(s, t, 0) == KeyOrder::After <==> exists|i: int| #[trigger]
            differ_at(t, s, i),
{
    assert(s.take(0) =~= t.take(0));
    lemma_bytes_order(s, t, 0);
    if exists|i: int| #[trigger] differ_at(s, t, i) {
        let i = choose|i: int| #[trigger] differ_at(s, t, i);
        if bytes_order_from(s, t, 0) == KeyOrder::After {
            let j = choose|j: int| #[trigger] differ_at(t, s, j);
            lemma_differ_one_way(s, t, i, j);
        }
        lemma_differ_one_way(s, t, i, 0);
    }
    if exists|i: int| #[trigger] differ_at(t, s, i) {
        let i = choose|i: int| #[trigger] differ_at(t, s, i);
        if bytes_order_from(s, t, 0) == KeyOrder::Before {
            let j = choose|j: int| #[trigger] differ_at(s, t, j);
            lemma_differ_one_way(t, s, i, j);
        }
        lemma_differ_one_way(t, s, i, 0);
    }
}

/// The kinds of values follow one another in a fixed order, whatever the values hold: variants,
/// products, flags, the numbers by their width and those with a sign first, the floats, texts,
/// bytes, arrays and mappings.
pub proof fn law_kinds_are_in_their_order(a: Value, b: Value)
    ensures
        ({
            let apart = value_order(a, b) == KeyOrder::Before && value_order(b, a)
                == KeyOrder::After;
            let past_array = b is Mapping;
            let past_bytes = b is Array || past_array;
            let past_string = b is Bytes || past_bytes;
            let past_f64 = b is String || past_string;
            let past_f32 = b is F64 || past_f64;
            let past_u128 = b is F32 || past_f32;
            let past_i128 = b is U128 || past_u128;
            let past_u64 = b is I128 || past_i128;
            let past_i64 = b is U64 || past_u64;
            let past_u32 = b is I64 || past_i64;
            let past_i32 = b is U32 || past_u32;
            let past_u16 = b is I32 || past_i32;
            let past_i16 = b is U16 || past_u16;
            let past_u8 = b is I16 || past_i16;
            let past_i8 = b is U8 || past_u8;
            let past_bool = b is I8 || past_i8;
            let past_product = b is Bool || past_bool;
            let past_sum = b is Product || past_product;
            &&& a is Sum && past_sum ==> apart
            &&& a is Product && past_product ==> apart
            &&& a is Bool && past_bool ==> apart
            &&& a is I8 && past_i8 ==> apart
            &&& a is U8 && past_u8 ==> apart
            &&& a is I16 && past_i16 ==> apart
            &&& a is U16 && past_u16 ==> apart
            &&& a is I32 && past_i32 ==> apart
            &&& a is U32 && past_u32 ==> apart
            &&& a is I64 && past_i64 ==> apart
            &&& a is U64 && past_u64 ==> apart
            &&& a is I128 && past_i128 ==> apart
            &&& a is U128 && past_u128 ==> apart
            &&& a is F32 && past_f32 ==> apart
            &&& a is F64 && past_f64 ==> apart
            &&& a is String && past_string ==> apart
            &&& a is Bytes && past_bytes ==> apart
            &&& a is Array && past_array ==> apart
        }),
{
}

/// The order of variants is that of their tags, or else of what they carry.
pub proof fn law_variants_are_in_their_order(s: u8, x: Value, t: u8, y: Value)
    ensures
        ({
            let o = value_order(Value::Sum(s, Box::new(x)), Value::Sum(t, Box::new(y)));
            &&& s < t ==> o == KeyOrder::Before
            &&& s > t ==> o == KeyOrder::After
            &&& s == t ==> o == value_order(x, y)
        }),
{
}

/// The order of products and of arrays is that of the first values that differ, or else of their
/// lengths: where the first `i` values do not differ, it is that of the next two, and where there
/// is no next one on a side, that side comes first.
pub proof fn law_sequences_are_in_their_order(s: Seq<Value>, t: Seq<Value>, i: int)
    requires
        0 <= i <= s.len(),
        i <= t.len(),
        forall|j: int| 0 <= j < i ==> value_order(#[trigger] s[j], t[j]) == KeyOrder::Same,
    ensures
        ({
            let o = value_order(Value::Product(s), Value::Product(t));
            let p = value_order(Value::Array(s), Value::Array(t));
            let q = value_order(s[i], t[i]);
            &&& i < s.len() && i < t.len() && q != KeyOrder::Same ==> o == q && p == q
            &&& i == s.len() && i < t.len() ==> o == KeyOrder::Before && p == KeyOrder::Before
            &&& i == t.len() && i < s.len() ==> o == KeyOrder::After && p == KeyOrder::After
            &&& i == s.len() && i == t.len() ==> o == KeyOrder::Same && p == KeyOrder::Same
        }),
{
    lemma_values_order(s, t, i);
}

/// The order of mappings is that of the first pairs that differ, or else of their lengths. Two
/// pairs are in the order of their keys, or else of their values.
pub proof fn law_mappings_are_in_their_order(
    s: Seq<(Value, Value)>,
    t: Seq<(Value, Value)>,
    i: int,
)
    requires
        0 <= i <= s.len(),
        i <= t.len(),
        forall|j: int|
            0 <= j < i ==> value_order((#[trigger] s[j]).0, t[j].0) == KeyOrder::Same
                && value_order(s[j].1, t[j].1) == KeyOrder::Same,
    ensures
        ({
            let o = value_order(Value::Mapping(s), Value::Mapping(t));
            let k = value_order(s[i].0, t[i].0);
            let q = value_order(s[i].1, t[i].1);
            let within = i < s.len() && i < t.len();
            &&& within && k != KeyOrder::Same ==> o == k
            &&& within && k == KeyOrder::Same && q != KeyOrder::Same ==> o == q
            &&& i == s.len() && i < t.len() ==> o == KeyOrder::Before
            &&& i == t.len() && i < s.len() ==> o == KeyOrder::After
            &&& i == s.len() && i == t.len() ==> o == KeyOrder::Same
        }),
{
    lemma_pairs_order(s, t, i);
}

proof fn lemma_values_order(s: Seq<Value>, t: Seq<Value>, i: int)
    requires
        0 <= i <= s.len(),
        i <= t.len(),
        forall|j: int| 0 <= j < i ==> value_order(#[trigger] s[j], t[j]) == KeyOrder::Same,
    ensures
        values_order_from(s, t, 0) == values_order_from(s, t, i),
    decreases i,
{
    if i > 0 {
        lemma_values_order(s, t, i - 1);
        assert(value_order(s[i - 1], t[i - 1]) == KeyOrder::Same);
    }
}

proof fn lemma_pairs_order(s: Seq<(Value, Value)>, t: Seq<(Value, Value)>, i: int)
    requires
        0 <= i <= s.len(),
        i <= t.len(),
        forall|j: int|
            0 <= j < i ==> value_order((#[trigger] s[j]).0, t[j].0) == KeyOrder::Same
                && value_order(s[j].1, t[j].1) == KeyOrder::Same,
    ensures
        pairs_order_from(s, t, 0) == pairs_order_from(s, t, i),
    decreases i,
{
    if i > 0 {
        lemma_pairs_order(s, t, i - 1);
        assert(value_order(s[i - 1].0, t[i - 1].0) == KeyOrder::Same);
    }
}

/// A range has the values that are past its start and not past its end. One that is open at both
/// ends has every value.
pub proof fn law_range_has_two_ends(start: BoundModel, end: BoundModel, v: Value)
    ensures
        ({
            let open = BoundModel::Unbounded;
            let from = RangeModel { start, end: open };
            let to = RangeModel { start: open, end };
            &&& (RangeModel { start, end }).contains(v) <==> from.contains(v) && to.contains(v)
            &&& (RangeModel { start: open, end: open }).contains(v)
        }),
{
}

/// A range from a value on has what does not come before the value, with the value or without it,
/// and one up to a value what does not come after it. Of numbers, those are the greater and the
/// lesser ones.
pub proof fn law_ends_of_a_range(e: Value, v: Value)
    ensures
        ({
            let open = BoundModel::Unbounded;
            let from = (RangeModel { start: BoundModel::Included(e), end: open }).contains(v);
            let past = (RangeModel { start: BoundModel::Excluded(e), end: open }).contains(v);
            let to = (RangeModel { start: open, end: BoundModel::Included(e) }).contains(v);
            let short = (RangeModel { start: open, end: BoundModel::Excluded(e) }).contains(v);
            &&& from == (value_order(e, v) != KeyOrder::After)
            &&& past == (value_order(e, v) == KeyOrder::Before)
            &&& to == (value_order(v, e) != KeyOrder::After)
            &&& short == (value_order(v, e) == KeyOrder::Before)
            &&& match (e, v) {
                (Value::I8(x), Value::I8(y)) => {
                    &&& from <==> x <= y
                    &&& past <==> x < y
                    &&& to <==> y <= x
                    &&& short <==> y < x
                },
                (Value::U8(x), Value::U8(y)) => {
                    &&& from <==> x <= y
                    &&& past <==> x < y
                    &&& to <==> y <= x
                    &&& short <==> y < x
                },
                (Value::I16(x), Value::I16(y)) => {
                    &&& from <==> x <= y
                    &&& past <==> x < y
                    &&& to <==> y <= x
                    &&& short <==> y < x
                },
                (Value::U16(x), Value::U16(y)) => {
                    &&& from <==> x <= y
                    &&& past <==> x < y
                    &&& to <==> y <= x
                    &&& short <==> y < x
                },
                (Value::I32(x), Value::I32(y)) => {
                    &&& from <==> x <= y
                    &&& past <==> x < y
                    &&& to <==> y <= x
                    &&& short <==> y < x
                },
                (Value::U32(x), Value::U32(y)) => {
                    &&& from <==> x <= y
                    &&& past <==> x < y
                    &&& to <==> y <= x
                    &&& short <==> y < x
                },
                (Value::I64(x), Value::I64(y)) => {
                    &&& from <==> x <= y
                    &&& past <==> x < y
                    &&& to <==> y <= x
                    &&& short <==> y < x
                },
                (Value::U64(x), Value::U64(y)) => {
                    &&& from <==> x <= y
                    &&& past <==> x < y
                    &&& to <==> y <= x
                    &&& short <==> y < x
                },
                (Value::I128(x), Value::I128(y)) => {
                    &&& from <==> x <= y
                    &&& past <==> x < y
                    &&& to <==> y <= x
                    &&& short <==> y < x
                },
                (Value::U128(x), Value::U128(y)) => {
                    &&& from <==> x <= y
                    &&& past <==> x < y
                    &&& to <==> y <= x
                    &&& short <==> y < x
                },
                _ => true,
            }
        }),
{
}

/// A range is what it was made with.
pub proof fn law_range_is_what_it_was_made_with(range: ValueRange, v: AlgebraicValue)
    ensures
        range@.start == range.start@,
        range@.end == range.end@,
        (RangeBound::Included(v))@ == BoundModel::Included(v@),
        (RangeBound::Excluded(v))@ == BoundModel::Excluded(v@),
        RangeBound::Unbounded@ == BoundModel::Unbounded,
{
}

/// The ids of tables are in the order of the numbers. The keys of rows are in the order of the
/// first byte in which they differ, a beginning before what it begins, and those that are data
/// before those that are hashes.
pub proof fn law_keys_are_in_their_order(m: u32, n: u32, x: Seq<u8>, y: Seq<u8>)
    ensures
        <u32 as OrderedKey>::before(m, n) <==> m < n,
        RowId::before(Key::Data(x), Key::Data(y)) <==> exists|i: int| #[trigger]
            differ_at(x, y, i),
        RowId::before(Key::Hash(x), Key::Hash(y)) <==> exists|i: int| #[trigger]
            differ_at(x, y, i),
        RowId::before(Key::Data(x), Key::Hash(y)),
        !RowId::before(Key::Hash(x), Key::Data(y)),
        DataKey::before(Key::Data(x), Key::Data(y)) <==> exists|i: int| #[trigger]
            differ_at(x, y, i),
{
    lemma_bytes_before(x, y);
}

proof fn lemma_bytes_before(x: Seq<u8>, y: Seq<u8>)
    ensures
        bytes_before(x, y) <==> exists|i: int| #[trigger] differ_at(x, y, i),
    decreases y.len(),
{
    if y.len() == 0 {
    } else if x.len() == 0 {
        assert(x.take(0) =~= y.take(0));
        assert(differ_at(x, y, 0));
    } else {
        let p = x.skip(1);
        let q = y.skip(1);
        lemma_bytes_before(p, q);
        if x[0] < y[0] {
            assert(x.take(0) =~= y.take(0));
            assert(differ_at(x, y, 0));
        } else if x[0] == y[0] && bytes_before(p, q) {
            let i = choose|i: int| #[trigger] differ_at(p, q, i);
            assert(x.take(i + 1) =~= seq![x[0]] + p.take(i));
            assert(y.take(i + 1) =~= seq![y[0]] + q.take(i));
            assert(differ_at(x, y, i + 1));
        }
        if exists|i: int| #[trigger] differ_at(x, y, i) {
            let i = choose|i: int| #[trigger] differ_at(x, y, i);
            if i > 0 {
                assert(x.take(i)[0] == y.take(i)[0]);
                assert(p.take(i - 1) =~= x.take(i).skip(1));
                assert(q.take(i - 1) =~= y.take(i).skip(1));
                assert(differ_at(p, q, i - 1));
            }
        }
    }
}

} // verus!
