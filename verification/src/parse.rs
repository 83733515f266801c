//! Reading values from text.

use vstd::prelude::*;
use vstd::string::StrSliceExecFns;

use crate::types::{AlgebraicType, Type};
use crate::value::{AlgebraicValue, Value};

verus! {

/// Why a text is not an integer.
#[derive(Debug, Clone, Copy, PartialEq, Eq, Structural)]
pub enum IntFault {
    Empty,
    InvalidDigit,
    PosOverflow,
    NegOverflow,
}

/// Why a text is not a value.
#[derive(Debug, PartialEq, Eq)]
pub enum ParseFault {
    Int(IntFault),
    Bool,
    Float(String),
}

/// What a [`ParseFault`] says.
pub enum ParseFaultModel {
    Int(IntFault),
    Bool,
    Float(Seq<char>),
}

impl View for ParseFault {
    type V = ParseFaultModel;

    open spec fn view(&self) -> ParseFaultModel {
        match self {
            ParseFault::Int(f) => ParseFaultModel::Int(*f),
            ParseFault::Bool => ParseFaultModel::Bool,
            ParseFault::Float(s) => ParseFaultModel::Float(s@),
        }
    }
}

impl ParseFault {
    /// What is said of it.
    pub open spec fn text(self) -> Seq<char> {
        match self {
            ParseFault::Int(IntFault::Empty) => "cannot parse integer from empty string"@,
            ParseFault::Int(IntFault::InvalidDigit) => "invalid digit found in string"@,
            ParseFault::Int(IntFault::PosOverflow) => "number too large to fit in target type"@,
            ParseFault::Int(IntFault::NegOverflow) => "number too small to fit in target type"@,
            ParseFault::Bool => "provided string was not `true` or `false`"@,
            ParseFault::Float(s) => s@,
        }
    }

    /// What is said of it.
    pub fn message(&self) -> (r: String)
        ensures
            r@ == self.text(),
    {
        match self {
            ParseFault::Int(IntFault::Empty) => "cannot parse integer from empty string".to_owned(),
            ParseFault::Int(IntFault::InvalidDigit) => "invalid digit found in string".to_owned(),
            ParseFault::Int(
                IntFault::PosOverflow,
            ) => "number too large to fit in target type".to_owned(),
            ParseFault::Int(
                IntFault::NegOverflow,
            ) => "number too small to fit in target type".to_owned(),
            ParseFault::Bool => "provided string was not `true` or `false`".to_owned(),
            ParseFault::Float(s) => s.clone(),
        }
    }
}

/// What can go wrong when a value is read from text.
#[derive(Debug, PartialEq, Eq)]
pub enum ErrorVm {
    /// The text is not a value of the type.
    Parse { value: String, ty: AlgebraicType, err: ParseFault },
    /// No value of the type is read from text.
    Unsupported { value: String, ty: AlgebraicType },
}

/// What an [`ErrorVm`] says.
pub enum ErrorVmModel {
    Parse { value: Seq<char>, ty: Type, err: ParseFaultModel },
    Unsupported { value: Seq<char>, ty: Type },
}

impl View for ErrorVm {
    type V = ErrorVmModel;

    open spec fn view(&self) -> ErrorVmModel {
        match self {
            ErrorVm::Parse { value, ty, err } => ErrorVmModel::Parse {
                value: value@,
                ty: ty@,
                err: err@,
            },
            ErrorVm::Unsupported { value, ty } => ErrorVmModel::Unsupported {
                value: value@,
                ty: ty@,
            },
        }
    }
}

/// The digit that `c` is.
pub open spec fn digit(c: char) -> Option<int> {
    if '0' <= c <= '9' {
        Some(c as int - '0' as int)
    } else {
        None
    }
}

/// `acc` with the digits of `s` from place `i` on behind it, as long as it stays within `lo` and
/// `hi`.
pub open spec fn read_digits(
    s: Seq<char>,
    i: int,
    acc: int,
    negative: bool,
    lo: int,
    hi: int,
) -> Result<int, IntFault>
    decreases s.len() - i,
{
    if i >= s.len() {
        Ok(acc)
    } else {
        match digit(s[i]) {
            None => Err(IntFault::InvalidDigit),
            Some(d) => {
                let next = if negative {
                    acc * 10 - d
                } else {
                    acc * 10 + d
                };
                if next > hi {
                    Err(IntFault::PosOverflow)
                } else if next < lo {
                    Err(IntFault::NegOverflow)
                } else {
                    read_digits(s, i + 1, next, negative, lo, hi)
                }
            },
        }
    }
}

/// The integer that `s` is: a sign, where there is one, and digits. A minus is one only where
/// `lo` is negative.
#[verifier::opaque]
pub open spec fn read_int(s: Seq<char>, lo: int, hi: int) -> Result<int, IntFault> {
    if s.len() == 0 {
        Err(IntFault::Empty)
    } else if s.len() == 1 && (s[0] == '+' || s[0] == '-') {
        Err(IntFault::InvalidDigit)
    } else if s[0] == '+' {
        read_digits(s, 1, 0, false, lo, hi)
    } else if s[0] == '-' && lo < 0 {
        read_digits(s, 1, 0, true, lo, hi)
    } else {
        read_digits(s, 0, 0, false, lo, hi)
    }
}

/// The digit that `c` is.
fn to_digit(c: char) -> (r: Option<u8>)
    ensures
        match (r, digit(c)) {
            (Some(d), Some(m)) => d == m && d < 10,
            (None, None) => true,
            _ => false,
        },
{
    if '0' <= c && c <= '9' {
        Some((c as u32 - '0' as u32) as u8)
    } else {
        None
    }
}

/// The integer between `lo` and `hi` that `value` is.
fn parse_signed(value: &str, lo: i128, hi: i128) -> (r: Result<i128, IntFault>)
    requires
        lo < 0 < hi,
    ensures
        match (r, read_int(value@, lo as int, hi as int)) {
            (Ok(x), Ok(m)) => x == m && lo <= x <= hi,
            (Err(e), Err(f)) => e == f,
            _ => false,
        },
{
    proof {
        reveal(read_int);
    }
    let n: usize = value.unicode_len();
    if n == 0 {
        return Err(IntFault::Empty);
    }
    let first: char = value.get_char(0);
    if n == 1 && (first == '+' || first == '-') {
        return Err(IntFault::InvalidDigit);
    }
    let negative: bool = first == '-';
    let mut i: usize = if first == '+' || first == '-' {
        1
    } else {
        0
    };
    let mut acc: i128 = 0;
    while i < n
        invariant
            n == value@.len(),
            i <= n,
            lo < 0 < hi,
            lo <= acc <= hi,
            read_int(value@, lo as int, hi as int) == read_digits(
                value@,
                i as int,
                acc as int,
                negative,
                lo as int,
                hi as int,
            ),
            negative ==> acc <= 0,
            !negative ==> acc >= 0,
        decreases n - i,
    {
        let d: i128 = match to_digit(value.get_char(i)) {
            Some(d) => d as i128,
            None => {
                return Err(IntFault::InvalidDigit);
            },
        };
        let next: Option<i128> = match acc.checked_mul(10) {
            Some(m) => if negative {
                m.checked_sub(d)
            } else {
                m.checked_add(d)
            },
            None => None,
        };
        match next {
            Some(x) => {
                if x > hi {
                    return Err(IntFault::PosOverflow);
                }
                if x < lo {
                    return Err(IntFault::NegOverflow);
                }
                acc = x;
            },
            None => {
                return Err(
                    if negative {
                        IntFault::NegOverflow
                    } else {
                        IntFault::PosOverflow
                    },
                );
            },
        }
        i = i + 1;
    }
    Ok(acc)
}

/// The integer up to `hi` that `value` is.
fn parse_unsigned(value: &str, hi: u128) -> (r: Result<u128, IntFault>)
    ensures
        match (r, read_int(value@, 0, hi as int)) {
            (Ok(x), Ok(m)) => x == m && x <= hi,
            (Err(e), Err(f)) => e == f,
            _ => false,
        },
{
    proof {
        reveal(read_int);
    }
    let n: usize = value.unicode_len();
    if n == 0 {
        return Err(IntFault::Empty);
    }
    let first: char = value.get_char(0);
    if n == 1 && (first == '+' || first == '-') {
        return Err(IntFault::InvalidDigit);
    }
    let mut i: usize = if first == '+' {
        1
    } else {
        0
    };
    let mut acc: u128 = 0;
    while i < n
        invariant
            n == value@.len(),
            i <= n,
            acc <= hi,
            read_int(value@, 0, hi as int) == read_digits(
                value@,
                i as int,
                acc as int,
                false,
                0,
                hi as int,
            ),
        decreases n - i,
    {
        let d: u128 = match to_digit(value.get_char(i)) {
            Some(d) => d as u128,
            None => {
                return Err(IntFault::InvalidDigit);
            },
        };
        let next: Option<u128> = match acc.checked_mul(10) {
            Some(m) => m.checked_add(d),
            None => None,
        };
        match next {
            Some(x) => {
                if x > hi {
                    return Err(IntFault::PosOverflow);
                }
                acc = x;
            },
            None => {
                return Err(IntFault::PosOverflow);
            },
        }
        i = i + 1;
    }
    Ok(acc)
}

/// The least and the greatest integer of a type of integers.
pub open spec fn int_range(ty: Type) -> Option<(int, int)> {
    match ty {
        Type::I8 => Some((i8::MIN as int, i8::MAX as int)),
        Type::U8 => Some((0, u8::MAX as int)),
        Type::I16 => Some((i16::MIN as int, i16::MAX as int)),
        Type::U16 => Some((0, u16::MAX as int)),
        Type::I32 => Some((i32::MIN as int, i32::MAX as int)),
        Type::U32 => Some((0, u32::MAX as int)),
        Type::I64 => Some((i64::MIN as int, i64::MAX as int)),
        Type::U64 => Some((0, u64::MAX as int)),
        Type::I128 => Some((i128::MIN as int, i128::MAX as int)),
        Type::U128 => Some((0, u128::MAX as int)),
        _ => None,
    }
}

/// The integer `x` as a value of a type of integers.
pub open spec fn int_value(ty: Type, x: int) -> Value {
    match ty {
        Type::I8 => Value::I8(x as i8),
        Type::U8 => Value::U8(x as u8),
        Type::I16 => Value::I16(x as i16),
        Type::U16 => Value::U16(x as u16),
        Type::I32 => Value::I32(x as i32),
        Type::U32 => Value::U32(x as u32),
        Type::I64 => Value::I64(x as i64),
        Type::U64 => Value::U64(x as u64),
        Type::I128 => Value::I128(x as i128),
        _ => Value::U128(x as u128),
    }
}

/// The value of type `ty` that `s` is, given what the reader of floats makes of `s`.
pub open spec fn parsed(s: Seq<char>, ty: Type, float: Result<u64, Seq<char>>) -> Result<
    Value,
    ErrorVmModel,
> {
    match ty {
        Type::Bool => if s == "true"@ {
            Ok(Value::Bool(true))
        } else if s == "false"@ {
            Ok(Value::Bool(false))
        } else {
            Err(ErrorVmModel::Parse { value: s, ty, err: ParseFaultModel::Bool })
        },
        Type::F32 => match float {
            Ok(bits) => Ok(Value::F32(bits as u32)),
            Err(f) => Err(ErrorVmModel::Parse { value: s, ty, err: ParseFaultModel::Float(f) }),
        },
        Type::F64 => match float {
            Ok(bits) => Ok(Value::F64(bits)),
            Err(f) => Err(ErrorVmModel::Parse { value: s, ty, err: ParseFaultModel::Float(f) }),
        },
        Type::String => Ok(Value::String(s)),
        _ => match int_range(ty) {
            Some((lo, hi)) => match read_int(s, lo, hi) {
                Ok(x) => Ok(int_value(ty, x)),
                Err(f) => Err(
                    ErrorVmModel::Parse { value: s, ty, err: ParseFaultModel::Int(f) },
                ),
            },
            None => Err(ErrorVmModel::Unsupported { value: s, ty }),
        },
    }
}

/// What the reader of floats makes of a text: the bits of the float, or why it is none.
pub open spec fn float_model(float: Result<u64, String>) -> Result<u64, Seq<char>> {
    match float {
        Ok(bits) => Ok(bits),
        Err(e) => Err(e@),
    }
}

/// The integer that `value` is, where `ty` is a type of integers.
fn parse_int(value: &str, ty: &AlgebraicType) -> (r: Option<Result<AlgebraicValue, IntFault>>)
    ensures
        match (r, int_range(ty@)) {
            (Some(Ok(v)), Some((lo, hi))) => {
                &&& read_int(value@, lo, hi) is Ok
                &&& v@ == int_value(ty@, read_int(value@, lo, hi)->Ok_0)
            },
            (Some(Err(f)), Some((lo, hi))) => read_int(value@, lo, hi) == Err::<int, IntFault>(f),
            (None, None) => true,
            _ => false,
        },
{
    match ty {
        AlgebraicType::I8 => match parse_signed(value, i8::MIN as i128, i8::MAX as i128) {
            Ok(x) => Some(Ok(AlgebraicValue::I8(x as i8))),
            Err(f) => Some(Err(f)),
        },
        AlgebraicType::U8 => match parse_unsigned(value, u8::MAX as u128) {
            Ok(x) => Some(Ok(AlgebraicValue::U8(x as u8))),
            Err(f) => Some(Err(f)),
        },
        AlgebraicType::I16 => match parse_signed(value, i16::MIN as i128, i16::MAX as i128) {
            Ok(x) => Some(Ok(AlgebraicValue::I16(x as i16))),
            Err(f) => Some(Err(f)),
        },
        AlgebraicType::U16 => match parse_unsigned(value, u16::MAX as u128) {
            Ok(x) => Some(Ok(AlgebraicValue::U16(x as u16))),
            Err(f) => Some(Err(f)),
        },
        AlgebraicType::I32 => match parse_signed(value, i32::MIN as i128, i32::MAX as i128) {
            Ok(x) => Some(Ok(AlgebraicValue::I32(x as i32))),
            Err(f) => Some(Err(f)),
        },
        AlgebraicType::U32 => match parse_unsigned(value, u32::MAX as u128) {
            Ok(x) => Some(Ok(AlgebraicValue::U32(x as u32))),
            Err(f) => Some(Err(f)),
        },
        AlgebraicType::I64 => match parse_signed(value, i64::MIN as i128, i64::MAX as i128) {
            Ok(x) => Some(Ok(AlgebraicValue::I64(x as i64))),
            Err(f) => Some(Err(f)),
        },
        AlgebraicType::U64 => match parse_unsigned(value, u64::MAX as u128) {
            Ok(x) => Some(Ok(AlgebraicValue::U64(x as u64))),
            Err(f) => Some(Err(f)),
        },
        AlgebraicType::I128 => match parse_signed(value, i128::MIN, i128::MAX) {
            Ok(x) => Some(Ok(AlgebraicValue::I128(x))),
            Err(f) => Some(Err(f)),
        },
        AlgebraicType::U128 => match parse_unsigned(value, u128::MAX) {
            Ok(x) => Some(Ok(AlgebraicValue::U128(x))),
            Err(f) => Some(Err(f)),
        },
        _ => None,
    }
}

/// Why `value` is not a value of type `ty`.
fn refused(value: &str, ty: &AlgebraicType, err: ParseFault) -> (r: ErrorVm)
    ensures
        r@ == (ErrorVmModel::Parse { value: value@, ty: ty@, err: err@ }),
{
    ErrorVm::Parse { value: value.to_owned(), ty: ty.clone(), err }
}

/// The value of type `ty` that `value` is. For the types of floats, `float` is what the reader of
/// floats makes of `value`; for the others it does not matter.
pub fn parse(value: &str, ty: &AlgebraicType, float: Result<u64, String>) -> (r: Result<
    AlgebraicValue,
    ErrorVm,
>)
    ensures
        match (r, parsed(value@, ty@, float_model(float))) {
            (Ok(v), Ok(m)) => v@ == m,
            (Err(e), Err(f)) => e@ == f,
            _ => false,
        },
{
    match ty {
        AlgebraicType::Bool => {
            let text = value.to_owned();
            if text == "true".to_owned() {
                Ok(AlgebraicValue::Bool(true))
            } else if text == "false".to_owned() {
                Ok(AlgebraicValue::Bool(false))
            } else {
                Err(refused(value, ty, ParseFault::Bool))
            }
        },
        AlgebraicType::F32 => match float {
            Ok(bits) => Ok(AlgebraicValue::F32(#[verifier::truncate] (bits as u32))),
            Err(f) => Err(refused(value, ty, ParseFault::Float(f))),
        },
        AlgebraicType::F64 => match float {
            Ok(bits) => Ok(AlgebraicValue::F64(bits)),
            Err(f) => Err(refused(value, ty, ParseFault::Float(f))),
        },
        AlgebraicType::String => Ok(AlgebraicValue::String(value.to_owned())),
        _ => match parse_int(value, ty) {
            Some(Ok(v)) => Ok(v),
            Some(Err(f)) => Err(refused(value, ty, ParseFault::Int(f))),
            None => Err(ErrorVm::Unsupported { value: value.to_owned(), ty: ty.clone() }),
        },
    }
}

/// Every character of `s` from place `i` on is a digit.
pub open spec fn all_digits(s: Seq<char>, i: int) -> bool {
    forall|j: int| i <= j < s.len() ==> digit(#[trigger] s[j]) is Some
}

/// The number that the digits of `s` from place `i` on, behind `acc`, make.
pub open spec fn digits_value(s: Seq<char>, i: int, acc: int) -> int
    decreases s.len() - i,
{
    if i >= s.len() {
        acc
    } else {
        match digit(s[i]) {
            Some(d) => digits_value(s, i + 1, acc * 10 + d),
            None => acc,
        }
    }
}

/// Where the digits of `s` begin: behind the sign, where there is one.
pub open spec fn digits_start(s: Seq<char>, lo: int) -> int {
    if s.len() > 0 && (s[0] == '+' || (s[0] == '-' && lo < 0)) {
        1
    } else {
        0
    }
}

/// The number that `s` is, were there no bounds to it.
pub open spec fn number_of(s: Seq<char>, lo: int) -> int {
    let n = digits_value(s, digits_start(s, lo), 0);
    if s.len() > 0 && s[0] == '-' && lo < 0 {
        -n
    } else {
        n
    }
}

proof fn lemma_digits_grow(s: Seq<char>, i: int, acc: int)
    requires
        0 <= i,
        0 <= acc,
    ensures
        acc <= digits_value(s, i, acc),
    decreases s.len() - i,
{
    if i < s.len() {
        match digit(s[i]) {
            Some(d) => lemma_digits_grow(s, i + 1, acc * 10 + d),
            None => {},
        }
    }
}

proof fn lemma_read_digits(s: Seq<char>, i: int, acc: int, negative: bool, lo: int, hi: int)
    requires
        0 <= i <= s.len(),
        0 <= acc,
        lo <= 0 <= hi,
        negative ==> lo <= -acc,
        !negative ==> acc <= hi,
    ensures
        ({
            let n = digits_value(s, i, acc);
            let m = if negative { -n } else { n };
            &&& read_digits(s, i, if negative { -acc } else { acc }, negative, lo, hi) is Ok
                <==> all_digits(s, i) && lo <= m <= hi
            &&& all_digits(s, i) && lo <= m <= hi ==> read_digits(
                s,
                i,
                if negative { -acc } else { acc },
                negative,
                lo,
                hi,
            ) == Ok::<int, IntFault>(m)
        }),
    decreases s.len() - i,
{
    if i < s.len() {
        match digit(s[i]) {
            Some(d) => {
                let next = acc * 10 + d;
                lemma_digits_grow(s, i + 1, next);
                if (negative && lo <= -next) || (!negative && next <= hi) {
                    lemma_read_digits(s, i + 1, next, negative, lo, hi);
                }
                assert(all_digits(s, i) <==> all_digits(s, i + 1)) by {
                    assert forall|j: int| i <= j < s.len() && all_digits(s, i + 1) implies digit(
                        #[trigger] s[j],
                    ) is Some by {}
                }
            },
            None => {
                assert(digit(s[i]) is None);
            },
        }
    }
}

/// An integer is read from a text just where the text is digits, at least one, behind a sign or
/// none, and what they make lies within the bounds; and it is what they make.
pub proof fn law_read_int(s: Seq<char>, lo: int, hi: int)
    requires
        lo <= 0 <= hi,
    ensures
        read_int(s, lo, hi) is Ok <==> {
            &&& digits_start(s, lo) < s.len()
            &&& all_digits(s, digits_start(s, lo))
            &&& lo <= number_of(s, lo) <= hi
        },
        read_int(s, lo, hi) is Ok ==> read_int(s, lo, hi) == Ok::<int, IntFault>(
            number_of(s, lo),
        ),
{
    reveal(read_int);
    if s.len() > 0 {
        let i = digits_start(s, lo);
        let negative = s[0] == '-' && lo < 0;
        lemma_read_digits(s, i, 0, negative, lo, hi);
        if s.len() == 1 && s[0] == '-' && lo == 0 {
            assert(digit(s[0]) is None);
        }
    }
}

} // verus!
