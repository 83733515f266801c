use tx_datastore::parse::{parse, ErrorVm, IntFault, ParseFault};
use tx_datastore::types::{AlgebraicType, ProductType};
use tx_datastore::value::AlgebraicValue;

fn read(value: &str, ty: &AlgebraicType) -> Result<AlgebraicValue, ErrorVm> {
    let float = match ty {
        AlgebraicType::F32 => value.parse::<f32>().map(|x| x.to_bits() as u64).map_err(|e| e.to_string()),
        _ => value.parse::<f64>().map(|x| x.to_bits()).map_err(|e| e.to_string()),
    };
    parse(value, ty, float)
}

fn int_fault(value: &str, ty: &AlgebraicType) -> IntFault {
    match read(value, ty) {
        Err(ErrorVm::Parse { value: v, ty: t, err: ParseFault::Int(f) }) => {
            assert_eq!(v, value);
            assert_eq!(t, *ty);
            f
        }
        other => panic!("{:?}", other),
    }
}

#[test]
fn values_of_each_type() {
    assert_eq!(read("1", &AlgebraicType::I32), Ok(AlgebraicValue::I32(1)));
    assert_eq!(read("true", &AlgebraicType::Bool), Ok(AlgebraicValue::Bool(true)));
    assert_eq!(read("false", &AlgebraicType::Bool), Ok(AlgebraicValue::Bool(false)));
    assert_eq!(read("1.0", &AlgebraicType::F64), Ok(AlgebraicValue::F64(1.0f64.to_bits())));
    assert_eq!(read("-2.5", &AlgebraicType::F32), Ok(AlgebraicValue::F32((-2.5f32).to_bits())));
    assert!(read("bananas", &AlgebraicType::I32).is_err());
    assert_eq!(read(" any text ", &AlgebraicType::String), Ok(AlgebraicValue::String(" any text ".to_string())));
}

#[test]
fn the_ends_of_each_type() {
    assert_eq!(read("-128", &AlgebraicType::I8), Ok(AlgebraicValue::I8(i8::MIN)));
    assert_eq!(read("127", &AlgebraicType::I8), Ok(AlgebraicValue::I8(i8::MAX)));
    assert_eq!(read("255", &AlgebraicType::U8), Ok(AlgebraicValue::U8(u8::MAX)));
    assert_eq!(read("-32768", &AlgebraicType::I16), Ok(AlgebraicValue::I16(i16::MIN)));
    assert_eq!(read("65535", &AlgebraicType::U16), Ok(AlgebraicValue::U16(u16::MAX)));
    assert_eq!(read("-2147483648", &AlgebraicType::I32), Ok(AlgebraicValue::I32(i32::MIN)));
    assert_eq!(read("4294967295", &AlgebraicType::U32), Ok(AlgebraicValue::U32(u32::MAX)));
    assert_eq!(read("-9223372036854775808", &AlgebraicType::I64), Ok(AlgebraicValue::I64(i64::MIN)));
    assert_eq!(read("18446744073709551615", &AlgebraicType::U64), Ok(AlgebraicValue::U64(u64::MAX)));
    assert_eq!(read(&i128::MIN.to_string(), &AlgebraicType::I128), Ok(AlgebraicValue::I128(i128::MIN)));
    assert_eq!(read(&i128::MAX.to_string(), &AlgebraicType::I128), Ok(AlgebraicValue::I128(i128::MAX)));
    assert_eq!(read(&u128::MAX.to_string(), &AlgebraicType::U128), Ok(AlgebraicValue::U128(u128::MAX)));
    assert_eq!(read("+0012", &AlgebraicType::U16), Ok(AlgebraicValue::U16(12)));
}

#[test]
fn what_is_no_integer() {
    assert_eq!(int_fault("", &AlgebraicType::I32), IntFault::Empty);
    assert_eq!(int_fault("-", &AlgebraicType::I32), IntFault::InvalidDigit);
    assert_eq!(int_fault("+", &AlgebraicType::U32), IntFault::InvalidDigit);
    assert_eq!(int_fault("-1", &AlgebraicType::U32), IntFault::InvalidDigit);
    assert_eq!(int_fault("+-1", &AlgebraicType::I32), IntFault::InvalidDigit);
    assert_eq!(int_fault(" 1", &AlgebraicType::I32), IntFault::InvalidDigit);
    assert_eq!(int_fault("1_000", &AlgebraicType::I32), IntFault::InvalidDigit);
    assert_eq!(int_fault("\u{661}", &AlgebraicType::I32), IntFault::InvalidDigit);
    assert_eq!(int_fault("128", &AlgebraicType::I8), IntFault::PosOverflow);
    assert_eq!(int_fault("-129", &AlgebraicType::I8), IntFault::NegOverflow);
    assert_eq!(int_fault("256", &AlgebraicType::U8), IntFault::PosOverflow);
    assert_eq!(int_fault("999x", &AlgebraicType::U8), IntFault::PosOverflow);
    assert_eq!(int_fault("99x9", &AlgebraicType::U8), IntFault::InvalidDigit);
    let past = "340282366920938463463374607431768211456";
    assert_eq!(int_fault(past, &AlgebraicType::U128), IntFault::PosOverflow);
    let under = "-170141183460469231731687303715884105729";
    assert_eq!(int_fault(under, &AlgebraicType::I128), IntFault::NegOverflow);
}

#[test]
fn what_is_said_of_it() {
    let said = |r: Result<AlgebraicValue, ErrorVm>| match r {
        Err(ErrorVm::Parse { err, .. }) => err.message(),
        other => panic!("{:?}", other),
    };
    for (value, ty) in [
        ("", AlgebraicType::U8),
        ("x", AlgebraicType::U8),
        ("256", AlgebraicType::U8),
    ] {
        assert_eq!(said(read(value, &ty)), value.parse::<u8>().unwrap_err().to_string());
    }
    assert_eq!(said(read("-129", &AlgebraicType::I8)), "-129".parse::<i8>().unwrap_err().to_string());
    assert_eq!(said(read("yes", &AlgebraicType::Bool)), "yes".parse::<bool>().unwrap_err().to_string());
    assert_eq!(said(read("z", &AlgebraicType::F64)), "z".parse::<f64>().unwrap_err().to_string());
}

#[test]
fn types_without_a_text() {
    for ty in [
        AlgebraicType::make_array_type(AlgebraicType::U8),
        AlgebraicType::Ref(1),
        AlgebraicType::Product(ProductType { elements: vec![] }),
    ] {
        assert_eq!(
            read("1", &ty),
            Err(ErrorVm::Unsupported { value: "1".to_string(), ty: ty.clone() })
        );
    }
}
