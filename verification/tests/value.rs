use tx_datastore::data_key::DataKey;
use tx_datastore::error::SequenceError;
use tx_datastore::insert::{can_replace_with_sequence, sequence_value_to_algebraic_value};
use tx_datastore::ordered::KeyOrder;
use tx_datastore::sequence::{Sequence, SequenceSchema};
use tx_datastore::system_tables::{StColumnRow, StIndexRow, StSequenceRow, StTableRow};
use tx_datastore::error::DBError;
use tx_datastore::types::{AlgebraicType, ProductType, ProductTypeElement, SumType};
use tx_datastore::value::{AlgebraicValue, ProductValue, SumValue};

#[test]
fn row_bytes() {
    let row = ProductValue {
        elements: vec![
            AlgebraicValue::U32(1),
            AlgebraicValue::String("Foo".to_string()),
            AlgebraicValue::I8(-2),
        ],
    };
    let mut bytes = Vec::new();
    row.encode(&mut bytes);
    assert_eq!(bytes, vec![1, 0, 0, 0, 3, 0, 0, 0, 70, 111, 111, 254]);
}

#[test]
fn short_data_is_its_own_key() {
    let data = vec![7u8; 32];
    assert_eq!(DataKey::from_data(&data), DataKey::Data(data));
}

#[test]
fn long_data_is_known_by_its_digest() {
    let data = "The quick brown fox jumps over the lazy dog".as_bytes().to_vec();
    let digest = vec![
        0x4d, 0x74, 0x1b, 0x6f, 0x1e, 0xb2, 0x9c, 0xb2, 0xa9, 0xb9, 0x91, 0x1c, 0x82, 0xf5, 0x6f, 0xa8,
        0xd7, 0x3b, 0x04, 0x95, 0x9d, 0x3d, 0x9d, 0x22, 0x28, 0x95, 0xdf, 0x6c, 0x0b, 0x28, 0xaa, 0x15,
    ];
    assert_eq!(DataKey::from_data(&data), DataKey::Hash(digest));
}

fn nested_type() -> AlgebraicType {
    AlgebraicType::Sum(SumType {
        variants: vec![
            ProductTypeElement { name: Some("größe".to_string()), algebraic_type: AlgebraicType::F32 },
            ProductTypeElement {
                name: None,
                algebraic_type: AlgebraicType::Mapping(
                    Box::new(AlgebraicType::String),
                    Box::new(AlgebraicType::Product(ProductType {
                        elements: vec![ProductTypeElement {
                            name: Some("x".to_string()),
                            algebraic_type: AlgebraicType::make_array_type(AlgebraicType::Ref(3)),
                        }],
                    })),
                ),
            },
        ],
    })
}

#[test]
fn a_type_is_read_back_from_its_bytes() {
    let mut bytes = Vec::new();
    nested_type().encode(&mut bytes);
    assert_eq!(AlgebraicType::decode(&bytes), Some(nested_type()));
    bytes.push(0);
    assert_eq!(AlgebraicType::decode(&bytes), None);
    // A name that is no text.
    assert_eq!(AlgebraicType::decode(&vec![1, 1, 0, 0, 0, 1, 1, 0, 0, 0, 0xff, 3]), None);
    assert_eq!(AlgebraicType::decode(&vec![200]), None);
}

#[test]
fn catalogue_rows_are_read_back() {
    let table = StTableRow { table_id: 8, table_name: "t".to_string() };
    assert_eq!(StTableRow::try_from(&table.to_row()).unwrap(), table);
    let column = StColumnRow {
        table_id: 8,
        col_id: 1,
        col_name: "größe".to_string(),
        col_type: nested_type(),
        is_autoinc: false,
    };
    assert_eq!(StColumnRow::try_from(&column.to_row()).unwrap(), column);
    let index = StIndexRow { index_id: 4, table_id: 8, col_id: 1, index_name: "i".to_string(), is_unique: true };
    assert_eq!(StIndexRow::try_from(&index.to_row()).unwrap(), index);
    let sequence = StSequenceRow {
        sequence_id: 5,
        sequence_name: "s".to_string(),
        table_id: 8,
        col_id: 1,
        increment: -3,
        start: 9,
        min_value: i128::MIN,
        max_value: i128::MAX,
        allocated: 2,
    };
    assert_eq!(StSequenceRow::try_from(&sequence.to_row()).unwrap(), sequence);
}

#[test]
fn a_row_that_is_not_of_the_catalogue() {
    let row = ProductValue { elements: vec![AlgebraicValue::U32(1), AlgebraicValue::U32(2)] };
    assert_eq!(StTableRow::try_from(&row), Err(DBError::InvalidField(1)));
    let none = ProductValue { elements: vec![] };
    assert_eq!(StIndexRow::try_from(&none), Err(DBError::InvalidField(0)));
}

#[test]
fn zeros_are_filled() {
    for zero in [
        AlgebraicValue::I8(0),
        AlgebraicValue::U128(0),
        AlgebraicValue::F32(0.0f32.to_bits()),
        AlgebraicValue::F64((-0.0f64).to_bits()),
    ] {
        assert!(can_replace_with_sequence(&zero));
    }
    for other in [
        AlgebraicValue::I8(1),
        AlgebraicValue::F32(1.0f32.to_bits()),
        AlgebraicValue::Bool(false),
        AlgebraicValue::String(String::new()),
    ] {
        assert!(!can_replace_with_sequence(&other));
    }
}

#[test]
fn numbers_are_cut_to_their_width() {
    let value = |ty: AlgebraicType, n: i128| sequence_value_to_algebraic_value("t", "c", &ty, n);
    assert_eq!(value(AlgebraicType::U8, 300), Ok(AlgebraicValue::U8(44)));
    assert_eq!(value(AlgebraicType::I8, 200), Ok(AlgebraicValue::I8(-56)));
    assert_eq!(value(AlgebraicType::U32, 1 << 32), Ok(AlgebraicValue::U32(0)));
    assert_eq!(value(AlgebraicType::U128, -1), Ok(AlgebraicValue::U128(u128::MAX)));
    assert_eq!(value(AlgebraicType::I128, -1), Ok(AlgebraicValue::I128(-1)));
    assert_eq!(
        value(AlgebraicType::F32, 1),
        Err(SequenceError::NotInteger { col: "t.c".to_string(), found: AlgebraicType::F32 })
    );
}

#[test]
fn the_order_of_values() {
    let f = |x: f32| AlgebraicValue::F32(x.to_bits());
    let g = |x: f64| AlgebraicValue::F64(x.to_bits());
    let s = |x: &str| AlgebraicValue::String(x.to_string());
    let sum = |tag: u8, n: i32| {
        AlgebraicValue::Sum(SumValue { tag, value: Box::new(AlgebraicValue::I32(n)) })
    };
    for (a, b) in [
        (AlgebraicValue::Bool(false), AlgebraicValue::Bool(true)),
        (AlgebraicValue::I64(-5), AlgebraicValue::I64(4)),
        (f(-2.0), f(-1.0)),
        (f(-1.0), f(-0.0)),
        (f(0.0), f(1.5)),
        (f(f32::INFINITY), f(f32::NAN)),
        (g(-1e300), g(1e-300)),
        (s("a"), s("b")),
        (s("a"), s("aa")),
        (s("z"), s("\u{e9}")),
        (sum(0, 9), sum(1, 0)),
        (sum(1, 0), sum(1, 1)),
        (AlgebraicValue::U32(9), AlgebraicValue::I64(-9)),
        (
            AlgebraicValue::Array(vec![AlgebraicValue::U8(1)]),
            AlgebraicValue::Array(vec![AlgebraicValue::U8(1), AlgebraicValue::U8(0)]),
        ),
        (
            AlgebraicValue::Mapping(vec![(AlgebraicValue::U8(1), AlgebraicValue::U8(1))]),
            AlgebraicValue::Mapping(vec![(AlgebraicValue::U8(1), AlgebraicValue::U8(2))]),
        ),
    ] {
        assert_eq!(a.order(&b), KeyOrder::Before);
        assert_eq!(b.order(&a), KeyOrder::After);
        assert_eq!(a.order(&a), KeyOrder::Same);
    }
    assert_eq!(f(0.0).order(&f(-0.0)), KeyOrder::Same);
    assert_eq!(f(f32::NAN).order(&f(-f32::NAN)), KeyOrder::Same);
}

#[test]
fn a_sequence_by_itself() {
    let mut sequence = Sequence::new(SequenceSchema {
        sequence_id: 1,
        sequence_name: "s".to_string(),
        table_id: 1,
        col_id: 0,
        increment: 1,
        start: 1,
        min_value: 1,
        max_value: 10,
        allocated: 3,
    });
    assert_eq!(sequence.nth_value(9), 10);
    assert_eq!(sequence.nth_value(10), 1);
    assert_eq!(sequence.gen_next_value(), Some(1));
    assert_eq!(sequence.gen_next_value(), Some(2));
    assert_eq!(sequence.gen_next_value(), None);
    assert!(sequence.is_exhausted());
    sequence.set_allocation(5);
    assert_eq!(sequence.gen_next_value(), Some(3));
}

#[test]
fn what_is_said_of_sequences() {
    let name = || "s".to_string();
    for (error, said) in [
        (SequenceError::Exist(name()), "Sequence with name `s` already exists."),
        (
            SequenceError::IncrementIsZero(name()),
            "Sequence `s`: The increment is 0, and this means the sequence can't advance.",
        ),
        (SequenceError::MinMax(name(), 5, -1), "Sequence `s`: The min_value 5 must < max_value -1."),
        (SequenceError::MinStart(name(), 0, 10), "Sequence `s`: The start value 0 must be >= min_value 10."),
        (SequenceError::MaxStart(name(), 11, 10), "Sequence `s`: The start value 11 must be <= min_value 10."),
        (
            SequenceError::SequenceValue(name()),
            "Sequence `s` failed to decode value from Sled (not a u128).",
        ),
        (SequenceError::NotFound(42), "Sequence ID `42` not found."),
        (
            SequenceError::NotInteger { col: "t.c".to_string(), found: AlgebraicType::Bool },
            "Sequence applied to a non-integer field. Column `t.c` is of type {found.to_sats()}.",
        ),
        (SequenceError::UnableToAllocate(7), "Sequence ID `7` still had no values left after allocation."),
    ] {
        assert_eq!(error.message(), said);
    }
    let least = SequenceError::MinMax(name(), i128::MIN, i128::MAX).message();
    assert_eq!(
        least,
        format!("Sequence `s`: The min_value {} must < max_value {}.", i128::MIN, i128::MAX)
    );
}
