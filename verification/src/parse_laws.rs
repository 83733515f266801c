//! What holds of the reading of values from text.

use vstd::prelude::*;

use crate::parse::{
    all_digits, digit, digits_start, float_model, law_read_int, number_of, parsed, read_digits,
    read_int, ErrorVm, ErrorVmModel, IntFault, ParseFault, ParseFaultModel,
};
use crate::types::{AlgebraicType, Type};
use crate::value::Value;

verus! {

/// The least and the greatest number of a type of integers.
pub open spec fn bounds_of(ty: Type) -> Option<(int, int)> {
    match ty {
        Type::I8 => Some((-128, 127)),
        Type::U8 => Some((0, 255)),
        Type::I16 => Some((-0x8000, 0x7fff)),
        Type::U16 => Some((0, 0xffff)),
        Type::I32 => Some((-0x8000_0000, 0x7fff_ffff)),
        Type::U32 => Some((0, 0xffff_ffff)),
        Type::I64 => Some((-0x8000_0000_0000_0000, 0x7fff_ffff_ffff_ffff)),
        Type::U64 => Some((0, 0xffff_ffff_ffff_ffff)),
        Type::I128 => Some(
            (
                -0x8000_0000_0000_0000_0000_0000_0000_0000,
                0x7fff_ffff_ffff_ffff_ffff_ffff_ffff_ffff,
            ),
        ),
        Type::U128 => Some((0, 0xffff_ffff_ffff_ffff_ffff_ffff_ffff_ffff)),
        _ => None,
    }
}

/// The number that `v` holds, where it is a value of the type of integers `ty`.
pub open spec fn held(ty: Type, v: Value) -> Option<int> {
    match (ty, v) {
        (Type::I8, Value::I8(x)) => Some(x as int),
        (Type::U8, Value::U8(x)) => Some(x as int),
        (Type::I16, Value::I16(x)) => Some(x as int),
        (Type::U16, Value::U16(x)) => Some(x as int),
        (Type::I32, Value::I32(x)) => Some(x as int),
        (Type::U32, Value::U32(x)) => Some(x as int),
        (Type::I64, Value::I64(x)) => Some(x as int),
        (Type::U64, Value::U64(x)) => Some(x as int),
        (Type::I128, Value::I128(x)) => Some(x as int),
        (Type::U128, Value::U128(x)) => Some(x as int),
        _ => None,
    }
}

/// `s` is read as the number `n` of the type of integers `ty`.
pub open spec fn reads(s: Seq<char>, ty: Type, n: int) -> bool {
    forall|float: Result<u64, Seq<char>>| #[trigger]
        parsed(s, ty, float) is Ok && held(ty, parsed(s, ty, float)->Ok_0) == Some(n)
}

/// `s` is not read as a value of type `ty`, for the fault `f`.
pub open spec fn fails(s: Seq<char>, ty: Type, f: IntFault) -> bool {
    forall|float: Result<u64, Seq<char>>| #[trigger]
        parsed(s, ty, float) == Err::<Value, ErrorVmModel>(
            ErrorVmModel::Parse { value: s, ty, err: ParseFaultModel::Int(f) },
        )
}

/// What is read as an integer is a value of the type that was asked for, and its number is the one
/// that the digits of the text make, with the sign before them, where there is one. It is read just
/// where there are digits, nothing else stands behind the sign, and the type has the number.
pub proof fn law_parsed_integer_is_the_number(
    s: Seq<char>,
    ty: Type,
    float: Result<u64, Seq<char>>,
)
    requires
        bounds_of(ty) is Some,
    ensures
        ({
            let (lo, hi) = bounds_of(ty)->Some_0;
            let r = parsed(s, ty, float);
            &&& r is Ok ==> held(ty, r->Ok_0) == Some(number_of(s, lo))
            &&& r is Ok <==> {
                &&& digits_start(s, lo) < s.len()
                &&& all_digits(s, digits_start(s, lo))
                &&& lo <= number_of(s, lo) <= hi
            }
        }),
{
    let (lo, hi) = bounds_of(ty)->Some_0;
    law_read_int(s, lo, hi);
}

/// The digits are the ten of the decimal system, and each stands for its number.
pub proof fn law_digits_are_decimal(c: char)
    ensures
        '0' <= c <= '9' ==> digit(c) == Some(c as int - 48),
        !('0' <= c <= '9') ==> digit(c) == None::<int>,
{
}

/// A text of no character is no integer. One of one character is the number of that digit, where
/// it is a digit.
pub proof fn law_first_character_of_an_integer(c: char, ty: Type)
    requires
        bounds_of(ty) is Some,
    ensures
        fails(seq![], ty, IntFault::Empty),
        '0' <= c <= '9' ==> reads(seq![c], ty, c as int - 48),
        !('0' <= c <= '9') ==> fails(seq![c], ty, IntFault::InvalidDigit),
{
    reveal(read_int);
    let (lo, hi) = bounds_of(ty)->Some_0;
    let s = seq![c];
    reveal_with_fuel(read_digits, 2);
    assert(s.len() == 1 && s[0] == c);
    if '0' <= c <= '9' {
        assert(read_int(s, lo, hi) == Ok::<int, IntFault>(c as int - 48));
    } else {
        assert(read_int(s, lo, hi) == Err::<int, IntFault>(IntFault::InvalidDigit));
    }
}

/// A sign before a digit: a plus changes nothing, and a minus makes the number negative, where the
/// type has negative numbers.
pub proof fn law_sign_of_an_integer(c: char, ty: Type)
    requires
        bounds_of(ty) is Some,
    ensures
        '0' <= c <= '9' ==> reads(seq!['+', c], ty, c as int - 48),
        '0' <= c <= '9' && bounds_of(ty)->Some_0.0 < 0 ==> reads(seq!['-', c], ty, 48 - c as int),
        !('0' <= c <= '9') ==> fails(seq!['+', c], ty, IntFault::InvalidDigit),
        !('0' <= c <= '9') || bounds_of(ty)->Some_0.0 == 0 ==> fails(
            seq!['-', c],
            ty,
            IntFault::InvalidDigit,
        ),
{
    reveal(read_int);
    let (lo, hi) = bounds_of(ty)->Some_0;
    reveal_with_fuel(read_digits, 3);
    let p = seq!['+', c];
    let m = seq!['-', c];
    assert(p.len() == 2 && p[0] == '+' && p[1] == c);
    assert(m.len() == 2 && m[0] == '-' && m[1] == c);
    if '0' <= c <= '9' {
        assert(read_int(p, lo, hi) == Ok::<int, IntFault>(c as int - 48));
        if lo < 0 {
            assert(read_int(m, lo, hi) == Ok::<int, IntFault>(48 - c as int));
        }
    } else {
        assert(read_int(p, lo, hi) == Err::<int, IntFault>(IntFault::InvalidDigit));
    }
    if !('0' <= c <= '9') || lo == 0 {
        assert(digit('-') is None);
        assert(read_int(m, lo, hi) == Err::<int, IntFault>(IntFault::InvalidDigit));
    }
}

proof fn lemma_read_one_more(
    s: Seq<char>,
    c: char,
    i: int,
    acc: int,
    negative: bool,
    lo: int,
    hi: int,
)
    requires
        0 <= i <= s.len(),
    ensures
        read_digits(s.push(c), i, acc, negative, lo, hi) == match read_digits(
            s,
            i,
            acc,
            negative,
            lo,
            hi,
        ) {
            Err(f) => Err(f),
            Ok(n) => read_digits(seq![c], 0, n, negative, lo, hi),
        },
    decreases s.len() - i,
{
    let t = s.push(c);
    if i < s.len() {
        assert(t[i] == s[i]);
        match digit(s[i]) {
            Some(d) => {
                let next = if negative { acc * 10 - d } else { acc * 10 + d };
                lemma_read_one_more(s, c, i + 1, next, negative, lo, hi);
            },
            None => {},
        }
    } else {
        reveal_with_fuel(read_digits, 2);
        assert(t[i] == c && t.len() == i + 1);
        assert(seq![c][0] == c);
    }
}

/// One more character behind a text that is an integer: a digit makes ten times the number and the
/// digit, counted away from zero, where the type has that number, and is too much where it has not.
/// What is no digit is refused. Behind a text that is no integer nothing helps, except behind
/// nothing and behind a lone sign.
pub proof fn law_next_character_of_an_integer(s: Seq<char>, c: char, ty: Type, n: int, f: IntFault)
    requires
        bounds_of(ty) is Some,
        s.len() > 0,
    ensures
        ({
            let (lo, hi) = bounds_of(ty)->Some_0;
            let m = if s[0] == '-' { 10 * n - (c as int - 48) } else { 10 * n + (c as int - 48) };
            &&& reads(s, ty, n) && '0' <= c <= '9' && lo <= m <= hi ==> reads(s.push(c), ty, m)
            &&& reads(s, ty, n) && '0' <= c <= '9' && m > hi ==> fails(
                s.push(c),
                ty,
                IntFault::PosOverflow,
            )
            &&& reads(s, ty, n) && '0' <= c <= '9' && m < lo ==> fails(
                s.push(c),
                ty,
                IntFault::NegOverflow,
            )
            &&& reads(s, ty, n) && !('0' <= c <= '9') ==> fails(
                s.push(c),
                ty,
                IntFault::InvalidDigit,
            )
            &&& fails(s, ty, f) && !(s.len() == 1 && (s[0] == '+' || s[0] == '-')) ==> fails(
                s.push(c),
                ty,
                f,
            )
        }),
{
    reveal(read_int);
    let (lo, hi) = bounds_of(ty)->Some_0;
    let float: Result<u64, Seq<char>> = Ok(0);
    let t = s.push(c);
    assert(t[0] == s[0]);
    let negative = s[0] == '-' && lo < 0;
    let i: int = if s[0] == '+' || negative { 1 } else { 0 };
    lemma_read_one_more(s, c, i, 0, negative, lo, hi);
    reveal_with_fuel(read_digits, 2);
    if !(s.len() == 1 && (s[0] == '+' || s[0] == '-')) {
        assert(read_int(s, lo, hi) == read_digits(s, i, 0, negative, lo, hi));
        assert(read_int(t, lo, hi) == read_digits(t, i, 0, negative, lo, hi));
        assert(seq![c][0] == c);
        if s[0] == '-' && lo == 0 {
            assert(digit('-') is None);
            assert(read_int(s, lo, hi) is Err);
        }
        if reads(s, ty, n) {
            assert(parsed(s, ty, float) is Ok);
            assert(read_int(s, lo, hi) is Ok);
            law_read_int(s, lo, hi);
            assert(read_int(s, lo, hi) == Ok::<int, IntFault>(n));
        }
        if fails(s, ty, f) {
            assert(parsed(s, ty, float) is Err);
            assert(read_int(s, lo, hi) == Err::<int, IntFault>(f));
        }
    } else {
        assert(read_int(s, lo, hi) is Err);
        assert(parsed(s, ty, float) is Err);
    }
}

/// What is not an integer is read as this: a flag is the word for it, a text is itself, a float is
/// what the reader of floats made of it, and no value of another type is read.
pub proof fn law_parsed_others(s: Seq<char>, ty: Type, float: Result<u64, Seq<char>>)
    ensures
        ({
            let r = parsed(s, ty, float);
            match ty {
                Type::Bool => {
                    &&& s == "true"@ ==> r == Ok::<Value, ErrorVmModel>(Value::Bool(true))
                    &&& s == "false"@ ==> r == Ok::<Value, ErrorVmModel>(Value::Bool(false))
                    &&& s != "true"@ && s != "false"@ ==> r == Err::<Value, ErrorVmModel>(
                        ErrorVmModel::Parse { value: s, ty, err: ParseFaultModel::Bool },
                    )
                },
                Type::String => r == Ok::<Value, ErrorVmModel>(Value::String(s)),
                Type::F32 => match float {
                    Ok(bits) => r matches Ok(Value::F32(x)) && x == bits % 0x1_0000_0000,
                    Err(f) => r == Err::<Value, ErrorVmModel>(
                        ErrorVmModel::Parse { value: s, ty, err: ParseFaultModel::Float(f) },
                    ),
                },
                Type::F64 => match float {
                    Ok(bits) => r == Ok::<Value, ErrorVmModel>(Value::F64(bits)),
                    Err(f) => r == Err::<Value, ErrorVmModel>(
                        ErrorVmModel::Parse { value: s, ty, err: ParseFaultModel::Float(f) },
                    ),
                },
                _ => bounds_of(ty) is None ==> r == Err::<Value, ErrorVmModel>(
                    ErrorVmModel::Unsupported { value: s, ty },
                ),
            }
        }),
{
    reveal_strlit("true");
    reveal_strlit("false");
    assert("true"@.len() != "false"@.len());
    match float {
        Ok(bits) => {
            assert(bits as u32 == bits % 0x1_0000_0000) by (bit_vector);
        },
        Err(_) => {},
    }
}

/// What a fault says is what it was made with, and so is what is said of it.
pub proof fn law_fault_says_what_it_was_made_with(
    f: IntFault,
    s: String,
    ty: AlgebraicType,
    e: ParseFault,
    bits: u64,
)
    ensures
        (ParseFault::Int(f))@ == ParseFaultModel::Int(f),
        ParseFault::Bool@ == ParseFaultModel::Bool,
        (ParseFault::Float(s))@ == ParseFaultModel::Float(s@),
        (ErrorVm::Parse { value: s, ty, err: e })@ == (ErrorVmModel::Parse {
            value: s@,
            ty: ty@,
            err: e@,
        }),
        (ErrorVm::Unsupported { value: s, ty })@ == (ErrorVmModel::Unsupported {
            value: s@,
            ty: ty@,
        }),
        float_model(Ok::<u64, String>(bits)) == Ok::<u64, Seq<char>>(bits),
        float_model(Err::<u64, String>(s)) == Err::<u64, Seq<char>>(s@),
        ParseFault::Int(IntFault::Empty).text() == "cannot parse integer from empty string"@,
        ParseFault::Int(IntFault::InvalidDigit).text() == "invalid digit found in string"@,
        ParseFault::Int(IntFault::PosOverflow).text() == "number too large to fit in target type"@,
        ParseFault::Int(IntFault::NegOverflow).text() == "number too small to fit in target type"@,
        ParseFault::Bool.text() == "provided string was not `true` or `false`"@,
        ParseFault::Float(s).text() == s@,
{
}

} // verus!
