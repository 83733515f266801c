//! What holds of texts: those of numbers, and what is shown of an answer. And what holds of types.

use vstd::prelude::*;
use vstd::utf8::encode_utf8;

use crate::parse::IntFault;
use crate::parse_laws::{
    law_first_character_of_an_integer, law_next_character_of_an_integer,
    law_sign_of_an_integer, reads,
};
use crate::sql::{
    address_text, column_titles, psql_text, shown_rows, stmt_text, text_rows, texts,
};
use crate::text::{decimal_text, signed_text};
use crate::types::{
    elements_bytes, name_bytes, name_model, type_bytes, AlgebraicType, ProductType, RowType, Type,
};
use crate::value::le_bytes;

verus! {

/// A number is read back from its text in decimal. The text is digits, the first of them no zero
/// unless the number is.
pub proof fn law_decimal_text_is_the_number(n: nat)
    requires
        n <= 0xffff_ffff_ffff_ffff_ffff_ffff_ffff_ffff,
    ensures
        reads(decimal_text(n), Type::U128, n as int),
        decimal_text(n).len() > 0,
        forall|i: int| 0 <= i < decimal_text(n).len() ==> '0' <= #[trigger] decimal_text(n)[i]
            <= '9',
        n > 0 ==> decimal_text(n)[0] != '0',
    decreases n,
{
    let d = (n % 10) as int;
    let c = ('0' as int + d) as char;
    let s = decimal_text(n);
    if n < 10 {
        assert(s =~= seq![c]);
        law_first_character_of_an_integer(c, Type::U128);
    } else {
        let front = decimal_text(n / 10);
        law_decimal_text_is_the_number(n / 10);
        assert(s =~= front.push(c));
        law_next_character_of_an_integer(
            front,
            c,
            Type::U128,
            (n / 10) as int,
            IntFault::Empty,
        );
    }
}

/// A number with a sign is read back from its text. A negative one has a minus before the text of
/// its distance from zero, and the others are as they are without a sign.
pub proof fn law_signed_text_is_the_number(n: i128)
    ensures
        reads(signed_text(n as int), Type::I128, n as int),
        n < 0 ==> signed_text(n as int)[0] == '-' && signed_text(n as int).skip(1) == decimal_text(
            (-n) as nat,
        ),
        n >= 0 ==> signed_text(n as int) == decimal_text(n as nat),
{
    if n < 0 {
        lemma_minus((-n) as nat);
        assert(signed_text(n as int).skip(1) =~= decimal_text((-n) as nat));
    } else {
        lemma_no_minus(n as nat);
    }
}

proof fn lemma_no_minus(n: nat)
    requires
        n <= 0x7fff_ffff_ffff_ffff_ffff_ffff_ffff_ffff,
    ensures
        reads(decimal_text(n), Type::I128, n as int),
    decreases n,
{
    let d = (n % 10) as int;
    let c = ('0' as int + d) as char;
    let s = decimal_text(n);
    law_decimal_text_is_the_number(n);
    if n < 10 {
        assert(s =~= seq![c]);
        law_first_character_of_an_integer(c, Type::I128);
    } else {
        let front = decimal_text(n / 10);
        lemma_no_minus(n / 10);
        law_decimal_text_is_the_number(n / 10);
        assert('0' <= front[0] <= '9');
        assert(s =~= front.push(c));
        law_next_character_of_an_integer(
            front,
            c,
            Type::I128,
            (n / 10) as int,
            IntFault::Empty,
        );
    }
}

proof fn lemma_minus(n: nat)
    requires
        n <= 0x8000_0000_0000_0000_0000_0000_0000_0000,
    ensures
        reads(seq!['-'] + decimal_text(n), Type::I128, -(n as int)),
    decreases n,
{
    let d = (n % 10) as int;
    let c = ('0' as int + d) as char;
    let s = seq!['-'] + decimal_text(n);
    if n < 10 {
        assert(s =~= seq!['-', c]);
        law_sign_of_an_integer(c, Type::I128);
    } else {
        let front = seq!['-'] + decimal_text(n / 10);
        lemma_minus(n / 10);
        assert(s =~= front.push(c));
        law_next_character_of_an_integer(
            front,
            c,
            Type::I128,
            -((n / 10) as int),
            IntFault::Empty,
        );
    }
}

/// A text is an address just where it is thirty-two characters, each a digit or a letter from a to
/// f, large or small.
pub proof fn law_addresses_are_hexadecimal(s: Seq<char>)
    ensures
        address_text(s) <==> s.len() == 32 && (forall|i: int|
            0 <= i < s.len() ==> {
                ||| '0' <= #[trigger] s[i] <= '9'
                ||| 'a' <= s[i] <= 'f'
                ||| 'A' <= s[i] <= 'F'
            }),
{
    if address_text(s) {
        assert forall|i: int| 0 <= i < s.len() implies {
            ||| '0' <= #[trigger] s[i] <= '9'
            ||| 'a' <= s[i] <= 'f'
            ||| 'A' <= s[i] <= 'F'
        } by {}
    }
}

/// The columns are shown under their names, and those without one under their numbers, counted from
/// zero. Of each row, as many cells are shown as there are columns, from the first on.
pub proof fn law_shown_are_columns_and_cells(schema: RowType, rows: Seq<Seq<Seq<char>>>)
    ensures
        ({
            let titles = column_titles(schema);
            &&& titles.len() == schema.len()
            &&& forall|i: int|
                0 <= i < schema.len() ==> #[trigger] titles[i] == match schema[i].0 {
                    Some(name) => name,
                    None => "column "@ + decimal_text(i as nat),
                }
        }),
        ({
            let shown = shown_rows(rows, schema.len());
            &&& shown.len() == rows.len()
            &&& forall|i: int|
                0 <= i < rows.len() ==> (#[trigger] shown[i]).len() == if rows[i].len()
                    <= schema.len() {
                    rows[i].len()
                } else {
                    schema.len()
                }
            &&& forall|i: int, j: int|
                0 <= i < rows.len() && 0 <= j < shown[i].len() ==> #[trigger] shown[i][j]
                    == rows[i][j]
        }),
        stmt_text(schema, rows) == psql_text(
            column_titles(schema),
            shown_rows(rows, schema.len()),
        ),
{
}

/// Texts are taken one by one, and rows of them cell by cell.
pub proof fn law_texts_are_taken_one_by_one(s: Seq<String>, rows: Seq<Vec<String>>)
    ensures
        texts(s).len() == s.len(),
        forall|i: int| 0 <= i < s.len() ==> #[trigger] texts(s)[i] == s[i]@,
        text_rows(rows).len() == rows.len(),
        forall|i: int| 0 <= i < rows.len() ==> #[trigger] text_rows(rows)[i] == texts(rows[i]@),
{
}

/// A type is what it was made with: its kind, and what it is made of in its order, each with its
/// name, where it has one.
pub proof fn law_type_is_what_it_was_made_with(t: AlgebraicType)
    ensures
        match t {
            AlgebraicType::Sum(x) => {
                &&& t@ is Sum
                &&& t@->Sum_0.len() == x.variants@.len()
                &&& forall|i: int| 0 <= i < x.variants@.len() ==> #[trigger] t@->Sum_0[i] == (
                    name_model(x.variants@[i].name),
                    x.variants@[i].algebraic_type@,
                )
            },
            AlgebraicType::Product(x) => t@ == Type::Product(x@),
            AlgebraicType::Ref(n) => t@ == Type::Ref(n),
            AlgebraicType::Bool => t@ == Type::Bool,
            AlgebraicType::I8 => t@ == Type::I8,
            AlgebraicType::U8 => t@ == Type::U8,
            AlgebraicType::I16 => t@ == Type::I16,
            AlgebraicType::U16 => t@ == Type::U16,
            AlgebraicType::I32 => t@ == Type::I32,
            AlgebraicType::U32 => t@ == Type::U32,
            AlgebraicType::I64 => t@ == Type::I64,
            AlgebraicType::U64 => t@ == Type::U64,
            AlgebraicType::I128 => t@ == Type::I128,
            AlgebraicType::U128 => t@ == Type::U128,
            AlgebraicType::F32 => t@ == Type::F32,
            AlgebraicType::F64 => t@ == Type::F64,
            AlgebraicType::String => t@ == Type::String,
            AlgebraicType::Array(x) => t@ == Type::Array(Box::new((*x)@)),
            AlgebraicType::Mapping(k, v) => t@ == Type::Mapping(
                Box::new((*k)@),
                Box::new((*v)@),
            ),
        },
{
    match t {
        AlgebraicType::Sum(x) => {
            assert(t@ == Type::Sum(crate::types::elements_model(x.variants@)));
        },
        AlgebraicType::Array(x) => {
            assert(t@ == Type::Array(Box::new((*x).model())));
        },
        AlgebraicType::Mapping(k, v) => {
            assert(t@ == Type::Mapping(Box::new((*k).model()), Box::new((*v).model())));
        },
        _ => {},
    }
}

/// A row type has the name, where there is one, and the type of each element, in their order.
pub proof fn law_row_type_is_what_it_was_made_with(x: ProductType, name: String)
    ensures
        x@.len() == x.elements@.len(),
        forall|i: int| 0 <= i < x.elements@.len() ==> #[trigger] x@[i] == (
            name_model(x.elements@[i].name),
            x.elements@[i].algebraic_type@,
        ),
        name_model(Some(name)) == Some(name@),
        name_model(None::<String>) == None::<Seq<char>>,
{
}

/// The bytes of a type: a number for its kind, and behind it how many there are of what it is made
/// of, and those.
pub proof fn law_bytes_of_types(t: Type)
    ensures
        match t {
            Type::Sum(s) => s.len() < 0x1_0000_0000 ==> type_bytes(t) == seq![0u8] + le_bytes(
                s.len(),
                4,
            ) + elements_bytes(s),
            Type::Product(s) => s.len() < 0x1_0000_0000 ==> type_bytes(t) == seq![1u8] + le_bytes(
                s.len(),
                4,
            ) + elements_bytes(s),
            Type::Ref(n) => type_bytes(t) == seq![2u8] + le_bytes(n as nat, 4),
            Type::Bool => type_bytes(t) == seq![3u8],
            Type::I8 => type_bytes(t) == seq![4u8],
            Type::U8 => type_bytes(t) == seq![5u8],
            Type::I16 => type_bytes(t) == seq![6u8],
            Type::U16 => type_bytes(t) == seq![7u8],
            Type::I32 => type_bytes(t) == seq![8u8],
            Type::U32 => type_bytes(t) == seq![9u8],
            Type::I64 => type_bytes(t) == seq![10u8],
            Type::U64 => type_bytes(t) == seq![11u8],
            Type::I128 => type_bytes(t) == seq![12u8],
            Type::U128 => type_bytes(t) == seq![13u8],
            Type::F32 => type_bytes(t) == seq![14u8],
            Type::F64 => type_bytes(t) == seq![15u8],
            Type::String => type_bytes(t) == seq![16u8],
            Type::Array(x) => type_bytes(t) == seq![17u8] + type_bytes(*x),
            Type::Mapping(k, v) => type_bytes(t) == seq![18u8] + type_bytes(*k) + type_bytes(*v),
        },
{
}

/// The bytes of what a type is made of: those of each name and type, one after the other. Before a
/// name stands one and how long it is, and zero stands for no name.
pub proof fn law_bytes_of_elements(s: RowType, name: Option<Seq<char>>, t: Type, n: Seq<char>)
    ensures
        elements_bytes(RowType::empty()) == Seq::<u8>::empty(),
        elements_bytes(s.push((name, t))) == elements_bytes(s) + name_bytes(name) + type_bytes(t),
        name_bytes(None) == seq![0u8],
        encode_utf8(n).len() < 0x1_0000_0000 ==> name_bytes(Some(n)) == seq![1u8] + le_bytes(
            encode_utf8(n).len(),
            4,
        ) + encode_utf8(n),
{
    assert(s.push((name, t)).drop_last() =~= s);
}

} // verus!
