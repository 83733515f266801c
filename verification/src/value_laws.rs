//! What holds of values: what they hold, when they are equal, and what their bytes are.

use vstd::prelude::*;
use vstd::utf8::{encode_utf8, encode_utf8_decode_utf8};

use crate::value::{
    canonical, canonical_all, canonical_pairs, encoded, encoded_all, encoded_pairs, is_zero,
    le_bytes, value_pairs, values, AlgebraicValue, ProductValue, Row, Value,
};

verus! {

/// A value holds what it was made with: the number itself, the text itself, and what it is made of
/// in its order.
pub proof fn law_value_holds_what_it_was_made_with(v: AlgebraicValue)
    ensures
        match v {
            AlgebraicValue::Sum(x) => v@ == Value::Sum(x.tag, Box::new((*x.value)@)),
            AlgebraicValue::Product(x) => v@ == Value::Product(x@),
            AlgebraicValue::Bool(x) => v@ == Value::Bool(x),
            AlgebraicValue::I8(x) => v@ == Value::I8(x),
            AlgebraicValue::U8(x) => v@ == Value::U8(x),
            AlgebraicValue::I16(x) => v@ == Value::I16(x),
            AlgebraicValue::U16(x) => v@ == Value::U16(x),
            AlgebraicValue::I32(x) => v@ == Value::I32(x),
            AlgebraicValue::U32(x) => v@ == Value::U32(x),
            AlgebraicValue::I64(x) => v@ == Value::I64(x),
            AlgebraicValue::U64(x) => v@ == Value::U64(x),
            AlgebraicValue::I128(x) => v@ == Value::I128(x),
            AlgebraicValue::U128(x) => v@ == Value::U128(x),
            AlgebraicValue::F32(x) => v@ == Value::F32(x),
            AlgebraicValue::F64(x) => v@ == Value::F64(x),
            AlgebraicValue::String(x) => v@ == Value::String(x@),
            AlgebraicValue::Bytes(x) => v@ == Value::Bytes(x@),
            AlgebraicValue::Array(x) => {
                &&& v@ is Array
                &&& v@->Array_0.len() == x@.len()
                &&& forall|i: int| 0 <= i < x@.len() ==> #[trigger] v@->Array_0[i] == x@[i]@
            },
            AlgebraicValue::Mapping(x) => {
                &&& v@ is Mapping
                &&& v@->Mapping_0.len() == x@.len()
                &&& forall|i: int|
                    0 <= i < x@.len() ==> #[trigger] v@->Mapping_0[i] == (x@[i].0@, x@[i].1@)
            },
        },
{
    match v {
        AlgebraicValue::Sum(x) => {
            assert(v@ == Value::Sum(x.tag, Box::new((*x.value).model())));
        },
        AlgebraicValue::Product(x) => {
            assert(v@ == Value::Product(values(x.elements@)));
        },
        AlgebraicValue::Array(x) => {
            assert(v@ == Value::Array(values(x@)));
            assert forall|i: int| 0 <= i < x@.len() implies #[trigger] v@->Array_0[i]
                == x@[i]@ by {}
        },
        AlgebraicValue::Mapping(x) => {
            assert(v@ == Value::Mapping(value_pairs(x@)));
            assert forall|i: int| 0 <= i < x@.len() implies #[trigger] v@->Mapping_0[i] == (
                x@[i].0@,
                x@[i].1@,
            ) by {}
        },
        _ => {},
    }
}

/// A row has its values, one per column, in their order.
pub proof fn law_row_has_its_values(row: ProductValue)
    ensures
        row@.len() == row.elements@.len(),
        forall|i: int| 0 <= i < row.elements@.len() ==> #[trigger] row@[i] == row.elements@[i]@,
{
}

/// Two values are equal just when they are of one kind and hold the same: the same number, text or
/// bytes, or equal values one by one. Of the floats, the two zeros are equal, and so are all that
/// are not numbers; two others are equal when their bits are.
pub proof fn law_equal_values(a: Value, b: Value)
    ensures
        canonical(a) == canonical(b) <==> match (a, b) {
            (Value::Sum(s, x), Value::Sum(t, y)) => s == t && canonical(*x) == canonical(*y),
            (Value::Product(s), Value::Product(t)) => {
                &&& s.len() == t.len()
                &&& forall|i: int|
                    0 <= i < s.len() ==> canonical(#[trigger] s[i]) == canonical(t[i])
            },
            (Value::Bool(x), Value::Bool(y)) => x == y,
            (Value::I8(x), Value::I8(y)) => x == y,
            (Value::U8(x), Value::U8(y)) => x == y,
            (Value::I16(x), Value::I16(y)) => x == y,
            (Value::U16(x), Value::U16(y)) => x == y,
            (Value::I32(x), Value::I32(y)) => x == y,
            (Value::U32(x), Value::U32(y)) => x == y,
            (Value::I64(x), Value::I64(y)) => x == y,
            (Value::U64(x), Value::U64(y)) => x == y,
            (Value::I128(x), Value::I128(y)) => x == y,
            (Value::U128(x), Value::U128(y)) => x == y,
            (Value::F32(x), Value::F32(y)) => {
                ||| x == y
                ||| x % 0x8000_0000 == 0 && y % 0x8000_0000 == 0
                ||| x % 0x8000_0000 > 0x7f80_0000 && y % 0x8000_0000 > 0x7f80_0000
            },
            (Value::F64(x), Value::F64(y)) => {
                ||| x == y
                ||| x % 0x8000_0000_0000_0000 == 0 && y % 0x8000_0000_0000_0000 == 0
                ||| x % 0x8000_0000_0000_0000 > 0x7ff0_0000_0000_0000 && y % 0x8000_0000_0000_0000
                    > 0x7ff0_0000_0000_0000
            },
            (Value::String(x), Value::String(y)) => x == y,
            (Value::Bytes(x), Value::Bytes(y)) => x == y,
            (Value::Array(s), Value::Array(t)) => {
                &&& s.len() == t.len()
                &&& forall|i: int|
                    0 <= i < s.len() ==> canonical(#[trigger] s[i]) == canonical(t[i])
            },
            (Value::Mapping(s), Value::Mapping(t)) => {
                &&& s.len() == t.len()
                &&& forall|i: int|
                    0 <= i < s.len() ==> canonical((#[trigger] s[i]).0) == canonical(t[i].0)
                        && canonical(s[i].1) == canonical(t[i].1)
            },
            _ => false,
        },
{
    match (a, b) {
        (Value::Product(s), Value::Product(t)) => lemma_equal_all(s, t),
        (Value::Array(s), Value::Array(t)) => lemma_equal_all(s, t),
        (Value::Mapping(s), Value::Mapping(t)) => lemma_equal_pairs(s, t),
        _ => {},
    }
}

proof fn lemma_equal_all(s: Seq<Value>, t: Seq<Value>)
    ensures
        canonical_all(s) == canonical_all(t) <==> s.len() == t.len() && (forall|i: int|
            0 <= i < s.len() ==> canonical(#[trigger] s[i]) == canonical(t[i])),
{
    let a = canonical_all(s);
    let b = canonical_all(t);
    if a == b {
        assert(a.len() == b.len());
        assert forall|i: int| 0 <= i < s.len() implies canonical(#[trigger] s[i]) == canonical(
            t[i],
        ) by {
            assert(a[i] == b[i]);
        }
    } else if s.len() == t.len() && (forall|i: int|
        0 <= i < s.len() ==> canonical(#[trigger] s[i]) == canonical(t[i])) {
        assert(a =~= b);
    }
}

proof fn lemma_equal_pairs(s: Seq<(Value, Value)>, t: Seq<(Value, Value)>)
    ensures
        canonical_pairs(s) == canonical_pairs(t) <==> s.len() == t.len() && (forall|i: int|
            0 <= i < s.len() ==> canonical((#[trigger] s[i]).0) == canonical(t[i].0) && canonical(
                s[i].1,
            ) == canonical(t[i].1)),
{
    let a = canonical_pairs(s);
    let b = canonical_pairs(t);
    if a == b {
        assert(a.len() == b.len());
        assert forall|i: int| 0 <= i < s.len() implies canonical((#[trigger] s[i]).0) == canonical(
            t[i].0,
        ) && canonical(s[i].1) == canonical(t[i].1) by {
            assert(a[i] == b[i]);
        }
    } else if s.len() == t.len() && (forall|i: int|
        0 <= i < s.len() ==> canonical((#[trigger] s[i]).0) == canonical(t[i].0) && canonical(
            s[i].1,
        ) == canonical(t[i].1)) {
        assert(a =~= b);
    }
}

/// A flag, a number that is no float, a text and bytes are equal to nothing but themselves.
pub proof fn law_plain_values_equal_only_themselves(a: Value, b: Value)
    requires
        !(a is Sum || a is Product || a is F32 || a is F64 || a is Array || a is Mapping),
        canonical(a) == canonical(b),
    ensures
        a == b,
{
    law_equal_values(a, b);
}

/// The values that an autoincrement column fills are the zeros of the types of numbers, both of
/// them where there are two.
pub proof fn law_zeros_are_filled(v: Value)
    ensures
        is_zero(v) <==> match v {
            Value::I8(x) => x == 0,
            Value::U8(x) => x == 0,
            Value::I16(x) => x == 0,
            Value::U16(x) => x == 0,
            Value::I32(x) => x == 0,
            Value::U32(x) => x == 0,
            Value::I64(x) => x == 0,
            Value::U64(x) => x == 0,
            Value::I128(x) => x == 0,
            Value::U128(x) => x == 0,
            Value::F32(x) => x % 0x8000_0000 == 0,
            Value::F64(x) => x % 0x8000_0000_0000_0000 == 0,
            _ => false,
        },
        is_zero(v) ==> {
            ||| canonical(v) == canonical(Value::I8(0))
            ||| canonical(v) == canonical(Value::U8(0))
            ||| canonical(v) == canonical(Value::I16(0))
            ||| canonical(v) == canonical(Value::U16(0))
            ||| canonical(v) == canonical(Value::I32(0))
            ||| canonical(v) == canonical(Value::U32(0))
            ||| canonical(v) == canonical(Value::I64(0))
            ||| canonical(v) == canonical(Value::U64(0))
            ||| canonical(v) == canonical(Value::I128(0))
            ||| canonical(v) == canonical(Value::U128(0))
            ||| canonical(v) == canonical(Value::F32(0))
            ||| canonical(v) == canonical(Value::F64(0))
        },
{
}

/// The lowest byte of a number comes first, and then those of what is left of it.
proof fn lemma_bytes_of(n: nat, width: nat)
    ensures
        le_bytes(n, width).len() == width,
        width > 0 ==> {
            &&& n == le_bytes(n, width)[0] + 256 * (n / 256)
            &&& forall|i: int|
                0 < i < width ==> #[trigger] le_bytes(n, width)[i] == le_bytes(
                    n / 256,
                    (width - 1) as nat,
                )[i - 1]
        },
    decreases width,
{
    if width > 0 {
        lemma_bytes_of(n / 256, (width - 1) as nat);
    }
}

proof fn lemma_one_byte(n: nat)
    requires
        n < 0x100,
    ensures
        le_bytes(n, 1).len() == 1,
        ({
            let b = le_bytes(n, 1);
            n == b[0]
        }),
{
    lemma_bytes_of(n, 1);
}

proof fn lemma_two_bytes(n: nat)
    requires
        n < 0x1_0000,
    ensures
        le_bytes(n, 2).len() == 2,
        ({
            let b = le_bytes(n, 2);
            n == b[0] + 0x100 * b[1]
        }),
{
    lemma_bytes_of(n, 2);
    let n1: nat = n / 0x100;
    lemma_bytes_of(n1, 1);
    assert(le_bytes(n, 2)[1] == le_bytes(n1, 1)[0]);
}

proof fn lemma_four_bytes(n: nat)
    requires
        n < 0x1_0000_0000,
    ensures
        le_bytes(n, 4).len() == 4,
        ({
            let b = le_bytes(n, 4);
            n == b[0] + 0x100 * b[1] + 0x1_0000 * b[2] + 0x100_0000 * b[3]
        }),
{
    lemma_bytes_of(n, 4);
    let n1: nat = n / 0x100;
    lemma_bytes_of(n1, 3);
    let n2: nat = n1 / 0x100;
    lemma_bytes_of(n2, 2);
    let n3: nat = n2 / 0x100;
    lemma_bytes_of(n3, 1);
    assert(le_bytes(n, 4)[1] == le_bytes(n1, 3)[0]);
    assert(le_bytes(n, 4)[2] == le_bytes(n1, 3)[1]);
    assert(le_bytes(n1, 3)[1] == le_bytes(n2, 2)[0]);
    assert(le_bytes(n, 4)[3] == le_bytes(n1, 3)[2]);
    assert(le_bytes(n1, 3)[2] == le_bytes(n2, 2)[1]);
    assert(le_bytes(n2, 2)[1] == le_bytes(n3, 1)[0]);
}

proof fn lemma_eight_bytes(n: nat)
    requires
        n < 0x1_0000_0000_0000_0000,
    ensures
        le_bytes(n, 8).len() == 8,
        ({
            let b = le_bytes(n, 8);
            n == b[0] + 0x100 * b[1] + 0x1_0000 * b[2] + 0x100_0000 * b[3]
                + 0x1_0000_0000 * b[4] + 0x100_0000_0000 * b[5] + 0x1_0000_0000_0000 * b[6]
                + 0x100_0000_0000_0000 * b[7]
        }),
{
    lemma_bytes_of(n, 8);
    let n1: nat = n / 0x100;
    lemma_bytes_of(n1, 7);
    let n2: nat = n1 / 0x100;
    lemma_bytes_of(n2, 6);
    let n3: nat = n2 / 0x100;
    lemma_bytes_of(n3, 5);
    let n4: nat = n3 / 0x100;
    lemma_bytes_of(n4, 4);
    let n5: nat = n4 / 0x100;
    lemma_bytes_of(n5, 3);
    let n6: nat = n5 / 0x100;
    lemma_bytes_of(n6, 2);
    let n7: nat = n6 / 0x100;
    lemma_bytes_of(n7, 1);
    assert(le_bytes(n, 8)[1] == le_bytes(n1, 7)[0]);
    assert(le_bytes(n, 8)[2] == le_bytes(n1, 7)[1]);
    assert(le_bytes(n1, 7)[1] == le_bytes(n2, 6)[0]);
    assert(le_bytes(n, 8)[3] == le_bytes(n1, 7)[2]);
    assert(le_bytes(n1, 7)[2] == le_bytes(n2, 6)[1]);
    assert(le_bytes(n2, 6)[1] == le_bytes(n3, 5)[0]);
    assert(le_bytes(n, 8)[4] == le_bytes(n1, 7)[3]);
    assert(le_bytes(n1, 7)[3] == le_bytes(n2, 6)[2]);
    assert(le_bytes(n2, 6)[2] == le_bytes(n3, 5)[1]);
    assert(le_bytes(n3, 5)[1] == le_bytes(n4, 4)[0]);
    assert(le_bytes(n, 8)[5] == le_bytes(n1, 7)[4]);
    assert(le_bytes(n1, 7)[4] == le_bytes(n2, 6)[3]);
    assert(le_bytes(n2, 6)[3] == le_bytes(n3, 5)[2]);
    assert(le_bytes(n3, 5)[2] == le_bytes(n4, 4)[1]);
    assert(le_bytes(n4, 4)[1] == le_bytes(n5, 3)[0]);
    assert(le_bytes(n, 8)[6] == le_bytes(n1, 7)[5]);
    assert(le_bytes(n1, 7)[5] == le_bytes(n2, 6)[4]);
    assert(le_bytes(n2, 6)[4] == le_bytes(n3, 5)[3]);
    assert(le_bytes(n3, 5)[3] == le_bytes(n4, 4)[2]);
    assert(le_bytes(n4, 4)[2] == le_bytes(n5, 3)[1]);
    assert(le_bytes(n5, 3)[1] == le_bytes(n6, 2)[0]);
    assert(le_bytes(n, 8)[7] == le_bytes(n1, 7)[6]);
    assert(le_bytes(n1, 7)[6] == le_bytes(n2, 6)[5]);
    assert(le_bytes(n2, 6)[5] == le_bytes(n3, 5)[4]);
    assert(le_bytes(n3, 5)[4] == le_bytes(n4, 4)[3]);
    assert(le_bytes(n4, 4)[3] == le_bytes(n5, 3)[2]);
    assert(le_bytes(n5, 3)[2] == le_bytes(n6, 2)[1]);
    assert(le_bytes(n6, 2)[1] == le_bytes(n7, 1)[0]);
}

proof fn lemma_sixteen_bytes(n: nat)
    requires
        n < 0x1_0000_0000_0000_0000_0000_0000_0000_0000,
    ensures
        le_bytes(n, 16).len() == 16,
        ({
            let b = le_bytes(n, 16);
            n == b[0] + 0x100 * b[1] + 0x1_0000 * b[2] + 0x100_0000 * b[3]
                + 0x1_0000_0000 * b[4] + 0x100_0000_0000 * b[5] + 0x1_0000_0000_0000 * b[6]
                + 0x100_0000_0000_0000 * b[7] + 0x1_0000_0000_0000_0000 * b[8]
                + 0x100_0000_0000_0000_0000 * b[9] + 0x1_0000_0000_0000_0000_0000 * b[10]
                + 0x100_0000_0000_0000_0000_0000 * b[11]
                + 0x1_0000_0000_0000_0000_0000_0000 * b[12]
                + 0x100_0000_0000_0000_0000_0000_0000 * b[13]
                + 0x1_0000_0000_0000_0000_0000_0000_0000 * b[14]
                + 0x100_0000_0000_0000_0000_0000_0000_0000 * b[15]
        }),
{
    lemma_bytes_of(n, 16);
    let n1: nat = n / 0x100;
    lemma_bytes_of(n1, 15);
    let n2: nat = n1 / 0x100;
    lemma_bytes_of(n2, 14);
    let n3: nat = n2 / 0x100;
    lemma_bytes_of(n3, 13);
    let n4: nat = n3 / 0x100;
    lemma_bytes_of(n4, 12);
    let n5: nat = n4 / 0x100;
    lemma_bytes_of(n5, 11);
    let n6: nat = n5 / 0x100;
    lemma_bytes_of(n6, 10);
    let n7: nat = n6 / 0x100;
    lemma_bytes_of(n7, 9);
    let n8: nat = n7 / 0x100;
    lemma_bytes_of(n8, 8);
    let n9: nat = n8 / 0x100;
    lemma_bytes_of(n9, 7);
    let n10: nat = n9 / 0x100;
    lemma_bytes_of(n10, 6);
    let n11: nat = n10 / 0x100;
    lemma_bytes_of(n11, 5);
    let n12: nat = n11 / 0x100;
    lemma_bytes_of(n12, 4);
    let n13: nat = n12 / 0x100;
    lemma_bytes_of(n13, 3);
    let n14: nat = n13 / 0x100;
    lemma_bytes_of(n14, 2);
    let n15: nat = n14 / 0x100;
    lemma_bytes_of(n15, 1);
    assert(le_bytes(n, 16)[1] == le_bytes(n1, 15)[0]);
    assert(le_bytes(n, 16)[2] == le_bytes(n1, 15)[1]);
    assert(le_bytes(n1, 15)[1] == le_bytes(n2, 14)[0]);
    assert(le_bytes(n, 16)[3] == le_bytes(n1, 15)[2]);
    assert(le_bytes(n1, 15)[2] == le_bytes(n2, 14)[1]);
    assert(le_bytes(n2, 14)[1] == le_bytes(n3, 13)[0]);
    assert(le_bytes(n, 16)[4] == le_bytes(n1, 15)[3]);
    assert(le_bytes(n1, 15)[3] == le_bytes(n2, 14)[2]);
    assert(le_bytes(n2, 14)[2] == le_bytes(n3, 13)[1]);
    assert(le_bytes(n3, 13)[1] == le_bytes(n4, 12)[0]);
    assert(le_bytes(n, 16)[5] == le_bytes(n1, 15)[4]);
    assert(le_bytes(n1, 15)[4] == le_bytes(n2, 14)[3]);
    assert(le_bytes(n2, 14)[3] == le_bytes(n3, 13)[2]);
    assert(le_bytes(n3, 13)[2] == le_bytes(n4, 12)[1]);
    assert(le_bytes(n4, 12)[1] == le_bytes(n5, 11)[0]);
    assert(le_bytes(n, 16)[6] == le_bytes(n1, 15)[5]);
    assert(le_bytes(n1, 15)[5] == le_bytes(n2, 14)[4]);
    assert(le_bytes(n2, 14)[4] == le_bytes(n3, 13)[3]);
    assert(le_bytes(n3, 13)[3] == le_bytes(n4, 12)[2]);
    assert(le_bytes(n4, 12)[2] == le_bytes(n5, 11)[1]);
    assert(le_bytes(n5, 11)[1] == le_bytes(n6, 10)[0]);
    assert(le_bytes(n, 16)[7] == le_bytes(n1, 15)[6]);
    assert(le_bytes(n1, 15)[6] == le_bytes(n2, 14)[5]);
    assert(le_bytes(n2, 14)[5] == le_bytes(n3, 13)[4]);
    assert(le_bytes(n3, 13)[4] == le_bytes(n4, 12)[3]);
    assert(le_bytes(n4, 12)[3] == le_bytes(n5, 11)[2]);
    assert(le_bytes(n5, 11)[2] == le_bytes(n6, 10)[1]);
    assert(le_bytes(n6, 10)[1] == le_bytes(n7, 9)[0]);
    assert(le_bytes(n, 16)[8] == le_bytes(n1, 15)[7]);
    assert(le_bytes(n1, 15)[7] == le_bytes(n2, 14)[6]);
    assert(le_bytes(n2, 14)[6] == le_bytes(n3, 13)[5]);
    assert(le_bytes(n3, 13)[5] == le_bytes(n4, 12)[4]);
    assert(le_bytes(n4, 12)[4] == le_bytes(n5, 11)[3]);
    assert(le_bytes(n5, 11)[3] == le_bytes(n6, 10)[2]);
    assert(le_bytes(n6, 10)[2] == le_bytes(n7, 9)[1]);
    assert(le_bytes(n7, 9)[1] == le_bytes(n8, 8)[0]);
    assert(le_bytes(n, 16)[9] == le_bytes(n1, 15)[8]);
    assert(le_bytes(n1, 15)[8] == le_bytes(n2, 14)[7]);
    assert(le_bytes(n2, 14)[7] == le_bytes(n3, 13)[6]);
    assert(le_bytes(n3, 13)[6] == le_bytes(n4, 12)[5]);
    assert(le_bytes(n4, 12)[5] == le_bytes(n5, 11)[4]);
    assert(le_bytes(n5, 11)[4] == le_bytes(n6, 10)[3]);
    assert(le_bytes(n6, 10)[3] == le_bytes(n7, 9)[2]);
    assert(le_bytes(n7, 9)[2] == le_bytes(n8, 8)[1]);
    assert(le_bytes(n8, 8)[1] == le_bytes(n9, 7)[0]);
    assert(le_bytes(n, 16)[10] == le_bytes(n1, 15)[9]);
    assert(le_bytes(n1, 15)[9] == le_bytes(n2, 14)[8]);
    assert(le_bytes(n2, 14)[8] == le_bytes(n3, 13)[7]);
    assert(le_bytes(n3, 13)[7] == le_bytes(n4, 12)[6]);
    assert(le_bytes(n4, 12)[6] == le_bytes(n5, 11)[5]);
    assert(le_bytes(n5, 11)[5] == le_bytes(n6, 10)[4]);
    assert(le_bytes(n6, 10)[4] == le_bytes(n7, 9)[3]);
    assert(le_bytes(n7, 9)[3] == le_bytes(n8, 8)[2]);
    assert(le_bytes(n8, 8)[2] == le_bytes(n9, 7)[1]);
    assert(le_bytes(n9, 7)[1] == le_bytes(n10, 6)[0]);
    assert(le_bytes(n, 16)[11] == le_bytes(n1, 15)[10]);
    assert(le_bytes(n1, 15)[10] == le_bytes(n2, 14)[9]);
    assert(le_bytes(n2, 14)[9] == le_bytes(n3, 13)[8]);
    assert(le_bytes(n3, 13)[8] == le_bytes(n4, 12)[7]);
    assert(le_bytes(n4, 12)[7] == le_bytes(n5, 11)[6]);
    assert(le_bytes(n5, 11)[6] == le_bytes(n6, 10)[5]);
    assert(le_bytes(n6, 10)[5] == le_bytes(n7, 9)[4]);
    assert(le_bytes(n7, 9)[4] == le_bytes(n8, 8)[3]);
    assert(le_bytes(n8, 8)[3] == le_bytes(n9, 7)[2]);
    assert(le_bytes(n9, 7)[2] == le_bytes(n10, 6)[1]);
    assert(le_bytes(n10, 6)[1] == le_bytes(n11, 5)[0]);
    assert(le_bytes(n, 16)[12] == le_bytes(n1, 15)[11]);
    assert(le_bytes(n1, 15)[11] == le_bytes(n2, 14)[10]);
    assert(le_bytes(n2, 14)[10] == le_bytes(n3, 13)[9]);
    assert(le_bytes(n3, 13)[9] == le_bytes(n4, 12)[8]);
    assert(le_bytes(n4, 12)[8] == le_bytes(n5, 11)[7]);
    assert(le_bytes(n5, 11)[7] == le_bytes(n6, 10)[6]);
    assert(le_bytes(n6, 10)[6] == le_bytes(n7, 9)[5]);
    assert(le_bytes(n7, 9)[5] == le_bytes(n8, 8)[4]);
    assert(le_bytes(n8, 8)[4] == le_bytes(n9, 7)[3]);
    assert(le_bytes(n9, 7)[3] == le_bytes(n10, 6)[2]);
    assert(le_bytes(n10, 6)[2] == le_bytes(n11, 5)[1]);
    assert(le_bytes(n11, 5)[1] == le_bytes(n12, 4)[0]);
    assert(le_bytes(n, 16)[13] == le_bytes(n1, 15)[12]);
    assert(le_bytes(n1, 15)[12] == le_bytes(n2, 14)[11]);
    assert(le_bytes(n2, 14)[11] == le_bytes(n3, 13)[10]);
    assert(le_bytes(n3, 13)[10] == le_bytes(n4, 12)[9]);
    assert(le_bytes(n4, 12)[9] == le_bytes(n5, 11)[8]);
    assert(le_bytes(n5, 11)[8] == le_bytes(n6, 10)[7]);
    assert(le_bytes(n6, 10)[7] == le_bytes(n7, 9)[6]);
    assert(le_bytes(n7, 9)[6] == le_bytes(n8, 8)[5]);
    assert(le_bytes(n8, 8)[5] == le_bytes(n9, 7)[4]);
    assert(le_bytes(n9, 7)[4] == le_bytes(n10, 6)[3]);
    assert(le_bytes(n10, 6)[3] == le_bytes(n11, 5)[2]);
    assert(le_bytes(n11, 5)[2] == le_bytes(n12, 4)[1]);
    assert(le_bytes(n12, 4)[1] == le_bytes(n13, 3)[0]);
    assert(le_bytes(n, 16)[14] == le_bytes(n1, 15)[13]);
    assert(le_bytes(n1, 15)[13] == le_bytes(n2, 14)[12]);
    assert(le_bytes(n2, 14)[12] == le_bytes(n3, 13)[11]);
    assert(le_bytes(n3, 13)[11] == le_bytes(n4, 12)[10]);
    assert(le_bytes(n4, 12)[10] == le_bytes(n5, 11)[9]);
    assert(le_bytes(n5, 11)[9] == le_bytes(n6, 10)[8]);
    assert(le_bytes(n6, 10)[8] == le_bytes(n7, 9)[7]);
    assert(le_bytes(n7, 9)[7] == le_bytes(n8, 8)[6]);
    assert(le_bytes(n8, 8)[6] == le_bytes(n9, 7)[5]);
    assert(le_bytes(n9, 7)[5] == le_bytes(n10, 6)[4]);
    assert(le_bytes(n10, 6)[4] == le_bytes(n11, 5)[3]);
    assert(le_bytes(n11, 5)[3] == le_bytes(n12, 4)[2]);
    assert(le_bytes(n12, 4)[2] == le_bytes(n13, 3)[1]);
    assert(le_bytes(n13, 3)[1] == le_bytes(n14, 2)[0]);
    assert(le_bytes(n, 16)[15] == le_bytes(n1, 15)[14]);
    assert(le_bytes(n1, 15)[14] == le_bytes(n2, 14)[13]);
    assert(le_bytes(n2, 14)[13] == le_bytes(n3, 13)[12]);
    assert(le_bytes(n3, 13)[12] == le_bytes(n4, 12)[11]);
    assert(le_bytes(n4, 12)[11] == le_bytes(n5, 11)[10]);
    assert(le_bytes(n5, 11)[10] == le_bytes(n6, 10)[9]);
    assert(le_bytes(n6, 10)[9] == le_bytes(n7, 9)[8]);
    assert(le_bytes(n7, 9)[8] == le_bytes(n8, 8)[7]);
    assert(le_bytes(n8, 8)[7] == le_bytes(n9, 7)[6]);
    assert(le_bytes(n9, 7)[6] == le_bytes(n10, 6)[5]);
    assert(le_bytes(n10, 6)[5] == le_bytes(n11, 5)[4]);
    assert(le_bytes(n11, 5)[4] == le_bytes(n12, 4)[3]);
    assert(le_bytes(n12, 4)[3] == le_bytes(n13, 3)[2]);
    assert(le_bytes(n13, 3)[2] == le_bytes(n14, 2)[1]);
    assert(le_bytes(n14, 2)[1] == le_bytes(n15, 1)[0]);
}

proof fn lemma_i8_bits(x: i8)
    ensures
        x as u8 == (if x < 0 { x + 0x100 } else { x as int }),
{
    assert(x < 0 ==> x as u8 == x + 0x100) by (bit_vector);
}

proof fn lemma_i16_bits(x: i16)
    ensures
        x as u16 == (if x < 0 { x + 0x1_0000 } else { x as int }),
{
    assert(x < 0 ==> x as u16 == x + 0x1_0000) by (bit_vector);
}

proof fn lemma_i32_bits(x: i32)
    ensures
        x as u32 == (if x < 0 { x + 0x1_0000_0000 } else { x as int }),
{
    assert(x < 0 ==> x as u32 == x + 0x1_0000_0000) by (bit_vector);
}

proof fn lemma_i64_bits(x: i64)
    ensures
        x as u64 == (if x < 0 { x + 0x1_0000_0000_0000_0000 } else { x as int }),
{
    assert(x < 0 ==> x as u64 == x + 0x1_0000_0000_0000_0000) by (bit_vector);
}

proof fn lemma_i128_bits(x: i128)
    ensures
        x as u128 == (if x < 0 {
            x + 0x1_0000_0000_0000_0000_0000_0000_0000_0000
        } else {
            x as int
        }),
{
    assert(x < 0 ==> x as u128 == x + 0x1_0000_0000_0000_0000_0000_0000_0000_0000) by (bit_vector);
}

/// The bytes of a number are as many as its type is wide, and are the number, the lowest byte
/// first: a number below zero is what it is short of the first that the type cannot hold.
pub proof fn law_bytes_of_numbers(v: Value)
    ensures
        ({
            let b = encoded(v);
            match v {
                Value::Bool(x) => b.len() == 1 && b[0] == (if x { 1int } else { 0int }),
                Value::I8(x) => {
                    &&& b.len() == 1
                    &&& (if x < 0 { x + 0x100 } else { x as int }) == b[0]
                },
                Value::U8(x) => {
                    &&& b.len() == 1
                    &&& x == b[0]
                },
                Value::I16(x) => {
                    &&& b.len() == 2
                    &&& (if x < 0 { x + 0x1_0000 } else { x as int }) == b[0] + 0x100 * b[1]
                },
                Value::U16(x) => {
                    &&& b.len() == 2
                    &&& x == b[0] + 0x100 * b[1]
                },
                Value::I32(x) => {
                    &&& b.len() == 4
                    &&& (if x < 0 { x + 0x1_0000_0000 } else { x as int }) == b[0]
                        + 0x100 * b[1] + 0x1_0000 * b[2] + 0x100_0000 * b[3]
                },
                Value::U32(x) => {
                    &&& b.len() == 4
                    &&& x == b[0] + 0x100 * b[1] + 0x1_0000 * b[2] + 0x100_0000 * b[3]
                },
                Value::I64(x) => {
                    &&& b.len() == 8
                    &&& (if x < 0 { x + 0x1_0000_0000_0000_0000 } else { x as int }) == b[0]
                        + 0x100 * b[1] + 0x1_0000 * b[2] + 0x100_0000 * b[3]
                        + 0x1_0000_0000 * b[4] + 0x100_0000_0000 * b[5]
                        + 0x1_0000_0000_0000 * b[6] + 0x100_0000_0000_0000 * b[7]
                },
                Value::U64(x) => {
                    &&& b.len() == 8
                    &&& x == b[0] + 0x100 * b[1] + 0x1_0000 * b[2] + 0x100_0000 * b[3]
                        + 0x1_0000_0000 * b[4] + 0x100_0000_0000 * b[5]
                        + 0x1_0000_0000_0000 * b[6] + 0x100_0000_0000_0000 * b[7]
                },
                Value::I128(x) => {
                    &&& b.len() == 16
                    &&& (if x < 0 {
                        x + 0x1_0000_0000_0000_0000_0000_0000_0000_0000
                    } else {
                        x as int
                    }) == b[0]
                        + 0x100 * b[1] + 0x1_0000 * b[2] + 0x100_0000 * b[3]
                        + 0x1_0000_0000 * b[4] + 0x100_0000_0000 * b[5]
                        + 0x1_0000_0000_0000 * b[6] + 0x100_0000_0000_0000 * b[7]
                        + 0x1_0000_0000_0000_0000 * b[8] + 0x100_0000_0000_0000_0000 * b[9]
                        + 0x1_0000_0000_0000_0000_0000 * b[10]
                        + 0x100_0000_0000_0000_0000_0000 * b[11]
                        + 0x1_0000_0000_0000_0000_0000_0000 * b[12]
                        + 0x100_0000_0000_0000_0000_0000_0000 * b[13]
                        + 0x1_0000_0000_0000_0000_0000_0000_0000 * b[14]
                        + 0x100_0000_0000_0000_0000_0000_0000_0000 * b[15]
                },
                Value::U128(x) => {
                    &&& b.len() == 16
                    &&& x == b[0] + 0x100 * b[1] + 0x1_0000 * b[2] + 0x100_0000 * b[3]
                        + 0x1_0000_0000 * b[4] + 0x100_0000_0000 * b[5]
                        + 0x1_0000_0000_0000 * b[6] + 0x100_0000_0000_0000 * b[7]
                        + 0x1_0000_0000_0000_0000 * b[8] + 0x100_0000_0000_0000_0000 * b[9]
                        + 0x1_0000_0000_0000_0000_0000 * b[10]
                        + 0x100_0000_0000_0000_0000_0000 * b[11]
                        + 0x1_0000_0000_0000_0000_0000_0000 * b[12]
                        + 0x100_0000_0000_0000_0000_0000_0000 * b[13]
                        + 0x1_0000_0000_0000_0000_0000_0000_0000 * b[14]
                        + 0x100_0000_0000_0000_0000_0000_0000_0000 * b[15]
                },
                Value::F32(x) => {
                    &&& b.len() == 4
                    &&& x == b[0] + 0x100 * b[1] + 0x1_0000 * b[2] + 0x100_0000 * b[3]
                },
                Value::F64(x) => {
                    &&& b.len() == 8
                    &&& x == b[0] + 0x100 * b[1] + 0x1_0000 * b[2] + 0x100_0000 * b[3]
                        + 0x1_0000_0000 * b[4] + 0x100_0000_0000 * b[5]
                        + 0x1_0000_0000_0000 * b[6] + 0x100_0000_0000_0000 * b[7]
                },
                _ => true,
            }
        }),
{
    match v {
        Value::I8(x) => {
            lemma_i8_bits(x);
            lemma_one_byte(x as u8 as nat);
        },
        Value::U8(x) => lemma_one_byte(x as nat),
        Value::I16(x) => {
            lemma_i16_bits(x);
            lemma_two_bytes(x as u16 as nat);
        },
        Value::U16(x) => lemma_two_bytes(x as nat),
        Value::I32(x) => {
            lemma_i32_bits(x);
            lemma_four_bytes(x as u32 as nat);
        },
        Value::U32(x) => lemma_four_bytes(x as nat),
        Value::I64(x) => {
            lemma_i64_bits(x);
            lemma_eight_bytes(x as u64 as nat);
        },
        Value::U64(x) => lemma_eight_bytes(x as nat),
        Value::I128(x) => {
            lemma_i128_bits(x);
            lemma_sixteen_bytes(x as u128 as nat);
        },
        Value::U128(x) => lemma_sixteen_bytes(x as nat),
        Value::F32(x) => lemma_four_bytes(x as nat),
        Value::F64(x) => lemma_eight_bytes(x as nat),
        _ => {},
    }
}

/// The bytes of what is made of others: a text and bytes stand behind their length, the values of
/// an array and the pairs of a mapping one after the other behind their count, those of a product
/// one after the other, and what a variant carries behind its tag.
pub proof fn law_bytes_of_compounds(v: Value)
    ensures
        ({
            let b = encoded(v);
            let n = b[0] + 0x100 * b[1] + 0x1_0000 * b[2] + 0x100_0000 * b[3];
            match v {
                Value::Sum(tag, x) => {
                    &&& b.len() == 1 + encoded(*x).len()
                    &&& b[0] == tag
                    &&& b.skip(1) == encoded(*x)
                },
                Value::Product(s) => if s.len() == 0 {
                    b.len() == 0
                } else {
                    b == encoded(Value::Product(s.drop_last())) + encoded(s.last())
                },
                Value::String(x) => {
                    &&& b.len() == 4 + encode_utf8(x).len()
                    &&& b.skip(4) == encode_utf8(x)
                    &&& encode_utf8(x).len() < 0x1_0000_0000 ==> n == encode_utf8(x).len()
                },
                Value::Bytes(x) => {
                    &&& b.len() == 4 + x.len()
                    &&& b.skip(4) == x
                    &&& x.len() < 0x1_0000_0000 ==> n == x.len()
                },
                Value::Array(s) => {
                    &&& b.len() >= 4
                    &&& b.skip(4) == encoded(Value::Product(s))
                    &&& s.len() < 0x1_0000_0000 ==> n == s.len()
                },
                Value::Mapping(s) => {
                    &&& b.len() >= 4
                    &&& s.len() < 0x1_0000_0000 ==> n == s.len()
                    &&& if s.len() == 0 {
                        b.len() == 4
                    } else {
                        b.skip(4) == encoded(Value::Mapping(s.drop_last())).skip(4) + encoded(
                            s.last().0,
                        ) + encoded(s.last().1)
                    }
                },
                _ => true,
            }
        }),
{
    let b = encoded(v);
    match v {
        Value::Sum(tag, x) => {
            assert(b.skip(1) =~= encoded(*x));
        },
        Value::Product(s) => {
            assert(b == encoded_all(s));
            if s.len() > 0 {
                assert(encoded(Value::Product(s.drop_last())) == encoded_all(s.drop_last()));
            }
        },
        Value::String(x) => {
            let t = encode_utf8(x);
            lemma_four_bytes(t.len() as u32 as nat);
            assert(b.skip(4) =~= t);
        },
        Value::Bytes(x) => {
            lemma_four_bytes(x.len() as u32 as nat);
            assert(b.skip(4) =~= x);
        },
        Value::Array(s) => {
            lemma_four_bytes(s.len() as u32 as nat);
            assert(b == le_bytes(s.len() as u32 as nat, 4) + encoded_all(s));
            assert(b.skip(4) =~= encoded_all(s));
            assert(encoded(Value::Product(s)) == encoded_all(s));
        },
        Value::Mapping(s) => {
            lemma_four_bytes(s.len() as u32 as nat);
            assert(b == le_bytes(s.len() as u32 as nat, 4) + encoded_pairs(s));
            assert(b.skip(4) =~= encoded_pairs(s));
            if s.len() > 0 {
                let t = s.drop_last();
                let c = encoded(Value::Mapping(t));
                lemma_four_bytes(t.len() as u32 as nat);
                assert(c == le_bytes(t.len() as u32 as nat, 4) + encoded_pairs(t));
                assert(c.skip(4) =~= encoded_pairs(t));
            }
        },
        _ => {},
    }
}

/// The bytes of a row are those of its values, one after the other.
pub proof fn law_bytes_of_rows(row: Row)
    ensures
        row.len() == 0 ==> encoded_all(row).len() == 0,
        row.len() > 0 ==> encoded_all(row) == encoded_all(row.drop_last()) + encoded(row.last()),
        row.len() > 0 ==> encoded_all(row) == encoded(row[0]) + encoded_all(row.skip(1)),
{
    if row.len() > 0 {
        lemma_first_bytes(row);
    }
}

proof fn lemma_first_bytes(s: Seq<Value>)
    requires
        s.len() > 0,
    ensures
        encoded_all(s) == encoded(s[0]) + encoded_all(s.skip(1)),
    decreases s.len(),
{
    let t = s.skip(1);
    if s.len() == 1 {
        assert(s.drop_last() =~= Seq::empty());
        assert(t =~= Seq::empty());
        assert(encoded_all(s) =~= encoded(s[0]) + encoded_all(t));
    } else {
        lemma_first_bytes(s.drop_last());
        assert(s.drop_last().skip(1) =~= t.drop_last());
        assert(encoded_all(s) =~= encoded(s[0]) + encoded_all(t));
    }
}

proof fn lemma_first_pair_bytes(s: Seq<(Value, Value)>)
    requires
        s.len() > 0,
    ensures
        encoded_pairs(s) == encoded(s[0].0) + (encoded(s[0].1) + encoded_pairs(s.skip(1))),
    decreases s.len(),
{
    let t = s.skip(1);
    if s.len() == 1 {
        assert(s.drop_last() =~= Seq::empty());
        assert(t =~= Seq::empty());
        assert(encoded_pairs(s) =~= encoded(s[0].0) + (encoded(s[0].1) + encoded_pairs(t)));
    } else {
        lemma_first_pair_bytes(s.drop_last());
        assert(s.drop_last().skip(1) =~= t.drop_last());
        assert(encoded_pairs(s) =~= encoded(s[0].0) + (encoded(s[0].1) + encoded_pairs(t)));
    }
}

/// The two are of one kind, and what they are made of is, as it is of two values of one type.
pub open spec fn alike(a: Value, b: Value) -> bool
    decreases a,
{
    match (a, b) {
        (Value::Sum(s, x), Value::Sum(t, y)) => s == t ==> alike(*x, *y),
        (Value::Product(s), Value::Product(t)) => {
            &&& s.len() == t.len()
            &&& forall|i: int| 0 <= i < s.len() ==> alike(#[trigger] s[i], t[i])
        },
        (Value::Bool(_), Value::Bool(_)) => true,
        (Value::I8(_), Value::I8(_)) => true,
        (Value::U8(_), Value::U8(_)) => true,
        (Value::I16(_), Value::I16(_)) => true,
        (Value::U16(_), Value::U16(_)) => true,
        (Value::I32(_), Value::I32(_)) => true,
        (Value::U32(_), Value::U32(_)) => true,
        (Value::I64(_), Value::I64(_)) => true,
        (Value::U64(_), Value::U64(_)) => true,
        (Value::I128(_), Value::I128(_)) => true,
        (Value::U128(_), Value::U128(_)) => true,
        (Value::F32(_), Value::F32(_)) => true,
        (Value::F64(_), Value::F64(_)) => true,
        (Value::String(_), Value::String(_)) => true,
        (Value::Bytes(_), Value::Bytes(_)) => true,
        (Value::Array(s), Value::Array(t)) => {
            forall|i: int| 0 <= i < s.len() && i < t.len() ==> alike(#[trigger] s[i], t[i])
        },
        (Value::Mapping(s), Value::Mapping(t)) => {
            forall|i: int|
                0 <= i < s.len() && i < t.len() ==> alike((#[trigger] s[i]).0, t[i].0) && alike(
                    s[i].1,
                    t[i].1,
                )
        },
        _ => false,
    }
}

/// Every text, every array and whatever else has a length is short enough for a length of four
/// bytes.
pub open spec fn fits(v: Value) -> bool
    decreases v,
{
    match v {
        Value::Sum(_, x) => fits(*x),
        Value::Product(s) => forall|i: int| 0 <= i < s.len() ==> fits(#[trigger] s[i]),
        Value::String(x) => encode_utf8(x).len() < 0x1_0000_0000,
        Value::Bytes(x) => x.len() < 0x1_0000_0000,
        Value::Array(s) => {
            &&& s.len() < 0x1_0000_0000
            &&& forall|i: int| 0 <= i < s.len() ==> fits(#[trigger] s[i])
        },
        Value::Mapping(s) => {
            &&& s.len() < 0x1_0000_0000
            &&& forall|i: int| 0 <= i < s.len() ==> fits((#[trigger] s[i]).0) && fits(s[i].1)
        },
        _ => true,
    }
}

/// What is at the front of equal bytes is equal, where it is as long.
proof fn lemma_same_front(a: Seq<u8>, b: Seq<u8>, x: Seq<u8>, y: Seq<u8>)
    requires
        a + x == b + y,
        a.len() == b.len(),
    ensures
        a == b,
        x == y,
{
    let p = a + x;
    let q = b + y;
    assert(p.len() == a.len() + x.len() && q.len() == b.len() + y.len());
    assert forall|i: int| 0 <= i < a.len() implies a[i] == b[i] by {
        assert(p[i] == a[i] && q[i] == b[i]);
    }
    assert(a =~= b);
    assert forall|i: int| 0 <= i < x.len() implies x[i] == y[i] by {
        assert(p[a.len() + i] == x[i] && q[a.len() + i] == y[i]);
    }
    assert(x =~= y);
}

/// Two lengths with the same four bytes are the same.
proof fn lemma_same_length(m: nat, n: nat, x: Seq<u8>, y: Seq<u8>)
    requires
        m < 0x1_0000_0000,
        n < 0x1_0000_0000,
        le_bytes(m as u32 as nat, 4) + x == le_bytes(n as u32 as nat, 4) + y,
    ensures
        m == n,
        x == y,
{
    lemma_four_bytes(m);
    lemma_four_bytes(n);
    lemma_same_front(le_bytes(m, 4), le_bytes(n, 4), x, y);
}

/// Two values of one type with the same bytes at the front of what they stand in are the same, and
/// so is what stands behind them: no bytes of a value begin those of another.
pub proof fn law_bytes_tell_values_apart(a: Value, b: Value, x: Seq<u8>, y: Seq<u8>)
    requires
        alike(a, b),
        fits(a),
        fits(b),
        encoded(a) + x == encoded(b) + y,
    ensures
        a == b,
        x == y,
    decreases a,
{
    match (a, b) {
        (Value::Sum(s, v), Value::Sum(t, w)) => {
            assert(encoded(a) + x =~= seq![s] + (encoded(*v) + x));
            assert(encoded(b) + y =~= seq![t] + (encoded(*w) + y));
            lemma_same_front(seq![s], seq![t], encoded(*v) + x, encoded(*w) + y);
            assert(seq![s][0] == seq![t][0]);
            law_bytes_tell_values_apart(*v, *w, x, y);
        },
        (Value::Product(s), Value::Product(t)) => {
            assert(encoded(a) == encoded_all(s) && encoded(b) == encoded_all(t));
            lemma_bytes_tell_all_apart(s, t, x, y);
        },
        (Value::Bool(v), Value::Bool(w)) => {
            lemma_same_front(encoded(a), encoded(b), x, y);
            assert(encoded(a)[0] == encoded(b)[0]);
        },
        (Value::String(v), Value::String(w)) => {
            let s = encode_utf8(v);
            let t = encode_utf8(w);
            assert(encoded(a) + x =~= le_bytes(s.len() as u32 as nat, 4) + (s + x));
            assert(encoded(b) + y =~= le_bytes(t.len() as u32 as nat, 4) + (t + y));
            lemma_same_length(s.len(), t.len(), s + x, t + y);
            lemma_same_front(s, t, x, y);
            encode_utf8_decode_utf8(v);
            encode_utf8_decode_utf8(w);
        },
        (Value::Bytes(s), Value::Bytes(t)) => {
            assert(encoded(a) + x =~= le_bytes(s.len() as u32 as nat, 4) + (s + x));
            assert(encoded(b) + y =~= le_bytes(t.len() as u32 as nat, 4) + (t + y));
            lemma_same_length(s.len(), t.len(), s + x, t + y);
            lemma_same_front(s, t, x, y);
        },
        (Value::Array(s), Value::Array(t)) => {
            assert(encoded(a) == le_bytes(s.len() as u32 as nat, 4) + encoded_all(s));
            assert(encoded(b) == le_bytes(t.len() as u32 as nat, 4) + encoded_all(t));
            assert(encoded(a) + x =~= le_bytes(s.len() as u32 as nat, 4) + (encoded_all(s) + x));
            assert(encoded(b) + y =~= le_bytes(t.len() as u32 as nat, 4) + (encoded_all(t) + y));
            lemma_same_length(s.len(), t.len(), encoded_all(s) + x, encoded_all(t) + y);
            lemma_bytes_tell_all_apart(s, t, x, y);
        },
        (Value::Mapping(s), Value::Mapping(t)) => {
            assert(encoded(a) == le_bytes(s.len() as u32 as nat, 4) + encoded_pairs(s));
            assert(encoded(b) == le_bytes(t.len() as u32 as nat, 4) + encoded_pairs(t));
            assert(encoded(a) + x =~= le_bytes(s.len() as u32 as nat, 4) + (encoded_pairs(s) + x));
            assert(encoded(b) + y =~= le_bytes(t.len() as u32 as nat, 4) + (encoded_pairs(t) + y));
            lemma_same_length(s.len(), t.len(), encoded_pairs(s) + x, encoded_pairs(t) + y);
            lemma_bytes_tell_pairs_apart(s, t, x, y);
        },
        _ => {
            law_bytes_of_numbers(a);
            law_bytes_of_numbers(b);
            lemma_same_front(encoded(a), encoded(b), x, y);
        },
    }
}

proof fn lemma_bytes_tell_all_apart(s: Seq<Value>, t: Seq<Value>, x: Seq<u8>, y: Seq<u8>)
    requires
        s.len() == t.len(),
        forall|i: int| 0 <= i < s.len() ==> alike(#[trigger] s[i], t[i]),
        forall|i: int| 0 <= i < s.len() ==> fits(#[trigger] s[i]),
        forall|i: int| 0 <= i < t.len() ==> fits(#[trigger] t[i]),
        encoded_all(s) + x == encoded_all(t) + y,
    ensures
        s == t,
        x == y,
    decreases s,
{
    if s.len() == 0 {
        assert(s =~= t);
        assert(encoded_all(s) + x =~= x);
        assert(encoded_all(t) + y =~= y);
    } else {
        let p = s.skip(1);
        let q = t.skip(1);
        lemma_first_bytes(s);
        lemma_first_bytes(t);
        assert(encoded_all(s) + x =~= encoded(s[0]) + (encoded_all(p) + x));
        assert(encoded_all(t) + y =~= encoded(t[0]) + (encoded_all(q) + y));
        assert(alike(s[0], t[0]));
        law_bytes_tell_values_apart(s[0], t[0], encoded_all(p) + x, encoded_all(q) + y);
        assert forall|i: int| 0 <= i < p.len() implies alike(#[trigger] p[i], q[i]) by {
            assert(alike(s[i + 1], t[i + 1]));
        }
        assert forall|i: int| 0 <= i < p.len() implies fits(#[trigger] p[i]) by {
            assert(fits(s[i + 1]));
        }
        assert forall|i: int| 0 <= i < q.len() implies fits(#[trigger] q[i]) by {
            assert(fits(t[i + 1]));
        }
        lemma_bytes_tell_all_apart(p, q, x, y);
        assert(s =~= seq![s[0]] + p);
        assert(t =~= seq![t[0]] + q);
    }
}

proof fn lemma_bytes_tell_pairs_apart(
    s: Seq<(Value, Value)>,
    t: Seq<(Value, Value)>,
    x: Seq<u8>,
    y: Seq<u8>,
)
    requires
        s.len() == t.len(),
        forall|i: int|
            0 <= i < s.len() ==> alike((#[trigger] s[i]).0, t[i].0) && alike(s[i].1, t[i].1),
        forall|i: int| 0 <= i < s.len() ==> fits((#[trigger] s[i]).0) && fits(s[i].1),
        forall|i: int| 0 <= i < t.len() ==> fits((#[trigger] t[i]).0) && fits(t[i].1),
        encoded_pairs(s) + x == encoded_pairs(t) + y,
    ensures
        s == t,
        x == y,
    decreases s,
{
    if s.len() == 0 {
        assert(s =~= t);
        assert(encoded_pairs(s) + x =~= x);
        assert(encoded_pairs(t) + y =~= y);
    } else {
        let p = s.skip(1);
        let q = t.skip(1);
        lemma_first_pair_bytes(s);
        lemma_first_pair_bytes(t);
        let m = encoded_pairs(p) + x;
        let n = encoded_pairs(q) + y;
        assert(encoded_pairs(s) + x =~= encoded(s[0].0) + (encoded(s[0].1) + m));
        assert(encoded_pairs(t) + y =~= encoded(t[0].0) + (encoded(t[0].1) + n));
        assert(alike(s[0].0, t[0].0) && alike(s[0].1, t[0].1));
        law_bytes_tell_values_apart(s[0].0, t[0].0, encoded(s[0].1) + m, encoded(t[0].1) + n);
        law_bytes_tell_values_apart(s[0].1, t[0].1, m, n);
        assert forall|i: int| 0 <= i < p.len() implies alike((#[trigger] p[i]).0, q[i].0) && alike(
            p[i].1,
            q[i].1,
        ) by {
            assert(alike(s[i + 1].0, t[i + 1].0));
        }
        assert forall|i: int| 0 <= i < p.len() implies fits((#[trigger] p[i]).0) && fits(
            p[i].1,
        ) by {
            assert(fits(s[i + 1].0));
        }
        assert forall|i: int| 0 <= i < q.len() implies fits((#[trigger] q[i]).0) && fits(
            q[i].1,
        ) by {
            assert(fits(t[i + 1].0));
        }
        lemma_bytes_tell_pairs_apart(p, q, x, y);
        assert(s =~= seq![s[0]] + p);
        assert(t =~= seq![t[0]] + q);
    }
}

/// Two rows of one type that differ have different bytes.
pub proof fn law_bytes_tell_rows_apart(a: Row, b: Row)
    requires
        alike(Value::Product(a), Value::Product(b)),
        fits(Value::Product(a)),
        fits(Value::Product(b)),
        encoded_all(a) == encoded_all(b),
    ensures
        a == b,
{
    lemma_bytes_tell_all_apart(a, b, Seq::empty(), Seq::empty());
}

} // verus!
