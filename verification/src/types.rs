//! Types of the algebraic data model, and their bytes.

use vstd::prelude::*;
use vstd::utf8::{decode_utf8, encode_utf8, valid_utf8};

use crate::value::{le_bytes, put_le_bytes};

verus! {

/// The type of a value.
#[derive(Debug, PartialEq, Eq)]
pub enum AlgebraicType {
    Sum(SumType),
    Product(ProductType),
    Ref(u32),
    Bool,
    I8,
    U8,
    I16,
    U16,
    I32,
    U32,
    I64,
    U64,
    I128,
    U128,
    F32,
    F64,
    String,
    Array(Box<AlgebraicType>),
    Mapping(Box<AlgebraicType>, Box<AlgebraicType>),
}

/// One variant of a sum or one element of a product: its type, and its name if it has one.
#[derive(Debug, PartialEq, Eq)]
pub struct ProductTypeElement {
    pub name: Option<String>,
    pub algebraic_type: AlgebraicType,
}

/// The variants of a sum.
#[derive(Debug, PartialEq, Eq)]
pub struct SumType {
    pub variants: Vec<ProductTypeElement>,
}

/// The elements of a product. The type of a row is one.
#[derive(Debug, PartialEq, Eq)]
pub struct ProductType {
    pub elements: Vec<ProductTypeElement>,
}

/// What a type is, with nothing of how it is stored.
pub enum Type {
    Sum(Seq<(Option<Seq<char>>, Type)>),
    Product(Seq<(Option<Seq<char>>, Type)>),
    Ref(u32),
    Bool,
    I8,
    U8,
    I16,
    U16,
    I32,
    U32,
    I64,
    U64,
    I128,
    U128,
    F32,
    F64,
    String,
    Array(Box<Type>),
    Mapping(Box<Type>, Box<Type>),
}

/// What the type of a row is: a name, where there is one, and a type per column.
pub type RowType = Seq<(Option<Seq<char>>, Type)>;

/// What a name is, where there is one.
pub open spec fn name_model(name: Option<String>) -> Option<Seq<char>> {
    match name {
        Some(n) => Some(n@),
        None => None,
    }
}

impl AlgebraicType {
    pub open spec fn model(&self) -> Type
        decreases self,
    {
        match self {
            AlgebraicType::Sum(t) => Type::Sum(elements_model(t.variants@)),
            AlgebraicType::Product(t) => Type::Product(elements_model(t.elements@)),
            AlgebraicType::Ref(n) => Type::Ref(*n),
            AlgebraicType::Bool => Type::Bool,
            AlgebraicType::I8 => Type::I8,
            AlgebraicType::U8 => Type::U8,
            AlgebraicType::I16 => Type::I16,
            AlgebraicType::U16 => Type::U16,
            AlgebraicType::I32 => Type::I32,
            AlgebraicType::U32 => Type::U32,
            AlgebraicType::I64 => Type::I64,
            AlgebraicType::U64 => Type::U64,
            AlgebraicType::I128 => Type::I128,
            AlgebraicType::U128 => Type::U128,
            AlgebraicType::F32 => Type::F32,
            AlgebraicType::F64 => Type::F64,
            AlgebraicType::String => Type::String,
            AlgebraicType::Array(t) => Type::Array(Box::new((**t).model())),
            AlgebraicType::Mapping(k, v) => Type::Mapping(
                Box::new((**k).model()),
                Box::new((**v).model()),
            ),
        }
    }
}

/// What each of `s` is.
pub open spec fn elements_model(s: Seq<ProductTypeElement>) -> RowType
    decreases s,
{
    Seq::new(
        s.len(),
        |i: int|
            if 0 <= i < s.len() {
                (name_model(s[i].name), s[i].algebraic_type.model())
            } else {
                (None, Type::Bool)
            },
    )
}

impl View for AlgebraicType {
    type V = Type;

    open spec fn view(&self) -> Type {
        self.model()
    }
}

impl View for ProductType {
    type V = RowType;

    open spec fn view(&self) -> RowType {
        elements_model(self.elements@)
    }
}

impl Clone for AlgebraicType {
    fn clone(&self) -> (r: Self)
        ensures
            r@ == self@,
    {
        self.duplicate()
    }
}

impl Clone for ProductType {
    fn clone(&self) -> (r: Self)
        ensures
            r@ == self@,
    {
        ProductType { elements: duplicate_elements(&self.elements) }
    }
}

impl AlgebraicType {
    /// The type of the arrays of `t`.
    pub fn make_array_type(t: AlgebraicType) -> (r: AlgebraicType)
        ensures
            r@ == Type::Array(Box::new(t@)),
    {
        AlgebraicType::Array(Box::new(t))
    }

    fn duplicate(&self) -> (r: Self)
        ensures
            r@ == self@,
        decreases self,
    {
        match self {
            AlgebraicType::Sum(t) => AlgebraicType::Sum(
                SumType { variants: duplicate_elements(&t.variants) },
            ),
            AlgebraicType::Product(t) => AlgebraicType::Product(
                ProductType { elements: duplicate_elements(&t.elements) },
            ),
            AlgebraicType::Ref(n) => AlgebraicType::Ref(*n),
            AlgebraicType::Bool => AlgebraicType::Bool,
            AlgebraicType::I8 => AlgebraicType::I8,
            AlgebraicType::U8 => AlgebraicType::U8,
            AlgebraicType::I16 => AlgebraicType::I16,
            AlgebraicType::U16 => AlgebraicType::U16,
            AlgebraicType::I32 => AlgebraicType::I32,
            AlgebraicType::U32 => AlgebraicType::U32,
            AlgebraicType::I64 => AlgebraicType::I64,
            AlgebraicType::U64 => AlgebraicType::U64,
            AlgebraicType::I128 => AlgebraicType::I128,
            AlgebraicType::U128 => AlgebraicType::U128,
            AlgebraicType::F32 => AlgebraicType::F32,
            AlgebraicType::F64 => AlgebraicType::F64,
            AlgebraicType::String => AlgebraicType::String,
            AlgebraicType::Array(t) => AlgebraicType::Array(Box::new((**t).duplicate())),
            AlgebraicType::Mapping(k, v) => AlgebraicType::Mapping(
                Box::new((**k).duplicate()),
                Box::new((**v).duplicate()),
            ),
        }
    }
}

fn duplicate_name(name: &Option<String>) -> (r: Option<String>)
    ensures
        name_model(r) == name_model(*name),
{
    match name {
        Some(n) => Some(n.clone()),
        None => None,
    }
}

fn duplicate_elements(v: &Vec<ProductTypeElement>) -> (r: Vec<ProductTypeElement>)
    ensures
        elements_model(r@) == elements_model(v@),
    decreases v,
{
    let mut r: Vec<ProductTypeElement> = Vec::new();
    for i in 0..v.len()
        invariant
            r@.len() == i,
            forall|j: int|
                0 <= j < i ==> name_model((#[trigger] r@[j]).name) == name_model(v@[j].name)
                    && r@[j].algebraic_type@ == v@[j].algebraic_type@,
    {
        let name = duplicate_name(&v[i].name);
        let algebraic_type = v[i].algebraic_type.duplicate();
        r.push(ProductTypeElement { name, algebraic_type });
    }
    assert(elements_model(r@) =~= elements_model(v@));
    r
}

/// The bytes of `t`: a tag, then what the tag announces.
pub open spec fn type_bytes(t: Type) -> Seq<u8>
    decreases t,
{
    match t {
        Type::Sum(s) => seq![0u8] + le_bytes(s.len() as u32 as nat, 4) + elements_bytes(s),
        Type::Product(s) => seq![1u8] + le_bytes(s.len() as u32 as nat, 4) + elements_bytes(s),
        Type::Ref(n) => seq![2u8] + le_bytes(n as nat, 4),
        Type::Bool => seq![3u8],
        Type::I8 => seq![4u8],
        Type::U8 => seq![5u8],
        Type::I16 => seq![6u8],
        Type::U16 => seq![7u8],
        Type::I32 => seq![8u8],
        Type::U32 => seq![9u8],
        Type::I64 => seq![10u8],
        Type::U64 => seq![11u8],
        Type::I128 => seq![12u8],
        Type::U128 => seq![13u8],
        Type::F32 => seq![14u8],
        Type::F64 => seq![15u8],
        Type::String => seq![16u8],
        Type::Array(t) => seq![17u8] + type_bytes(*t),
        Type::Mapping(k, v) => seq![18u8] + type_bytes(*k) + type_bytes(*v),
    }
}

/// The bytes of a name, where there is one.
pub open spec fn name_bytes(name: Option<Seq<char>>) -> Seq<u8> {
    match name {
        None => seq![0u8],
        Some(n) => seq![1u8] + le_bytes(encode_utf8(n).len() as u32 as nat, 4) + encode_utf8(n),
    }
}

pub open spec fn elements_bytes(s: RowType) -> Seq<u8>
    decreases s,
{
    if s.len() == 0 {
        Seq::empty()
    } else {
        elements_bytes(s.drop_last()) + name_bytes(s.last().0) + type_bytes(s.last().1)
    }
}

fn put_name(name: &Option<String>, out: &mut Vec<u8>)
    ensures
        final(out)@ == old(out)@ + name_bytes(name_model(*name)),
{
    match name {
        None => {
            out.push(0);
            assert(out@ =~= old(out)@ + name_bytes(None));
        },
        Some(n) => {
            let b = n.as_str().as_bytes();
            out.push(1);
            put_le_bytes(b.len() as u32 as u128, 4, out);
            out.extend_from_slice(b);
            assert(out@ =~= old(out)@ + name_bytes(Some(n@)));
        },
    }
}

impl AlgebraicType {
    /// Appends the bytes of the type.
    pub fn encode(&self, out: &mut Vec<u8>)
        ensures
            final(out)@ == old(out)@ + type_bytes(self@),
        decreases self,
    {
        match self {
            AlgebraicType::Sum(t) => {
                out.push(0);
                put_le_bytes(t.variants.len() as u32 as u128, 4, out);
                put_elements(&t.variants, out);
            },
            AlgebraicType::Product(t) => {
                out.push(1);
                put_le_bytes(t.elements.len() as u32 as u128, 4, out);
                put_elements(&t.elements, out);
            },
            AlgebraicType::Ref(n) => {
                out.push(2);
                put_le_bytes(*n as u128, 4, out);
            },
            AlgebraicType::Bool => out.push(3),
            AlgebraicType::I8 => out.push(4),
            AlgebraicType::U8 => out.push(5),
            AlgebraicType::I16 => out.push(6),
            AlgebraicType::U16 => out.push(7),
            AlgebraicType::I32 => out.push(8),
            AlgebraicType::U32 => out.push(9),
            AlgebraicType::I64 => out.push(10),
            AlgebraicType::U64 => out.push(11),
            AlgebraicType::I128 => out.push(12),
            AlgebraicType::U128 => out.push(13),
            AlgebraicType::F32 => out.push(14),
            AlgebraicType::F64 => out.push(15),
            AlgebraicType::String => out.push(16),
            AlgebraicType::Array(t) => {
                out.push(17);
                (**t).encode(out);
            },
            AlgebraicType::Mapping(k, v) => {
                out.push(18);
                (**k).encode(out);
                (**v).encode(out);
            },
        }
        assert(out@ =~= old(out)@ + type_bytes(self@));
    }
}

fn put_elements(v: &Vec<ProductTypeElement>, out: &mut Vec<u8>)
    ensures
        final(out)@ == old(out)@ + elements_bytes(elements_model(v@)),
    decreases v,
{
    let ghost all = elements_model(v@);
    assert(all.take(0) =~= RowType::empty());
    assert(out@ =~= old(out)@ + elements_bytes(all.take(0)));
    for i in 0..v.len()
        invariant
            all == elements_model(v@),
            out@ == old(out)@ + elements_bytes(all.take(i as int)),
    {
        put_name(&v[i].name, out);
        v[i].algebraic_type.encode(out);
        assert(all.take(i + 1).drop_last() =~= all.take(i as int));
        assert(out@ =~= old(out)@ + elements_bytes(all.take(i + 1)));
    }
    assert(all.take(v@.len() as int) =~= all);
}

/// The number in the first four bytes of `b`, and what follows them.
pub open spec fn read_u32(b: Seq<u8>) -> Option<(u32, Seq<u8>)> {
    if b.len() < 4 {
        None
    } else {
        Some(((b[0] + 256 * b[1] + 65536 * b[2] + 16777216 * b[3]) as u32, b.skip(4)))
    }
}

/// The name at the front of `b`, and what follows it.
pub open spec fn read_name(b: Seq<u8>) -> Option<(Option<Seq<char>>, Seq<u8>)> {
    if b.len() == 0 {
        None
    } else if b[0] == 0 {
        Some((None, b.skip(1)))
    } else if b[0] == 1 {
        match read_u32(b.skip(1)) {
            Some((n, rest)) => if n <= rest.len() && valid_utf8(rest.take(n as int)) {
                Some((Some(decode_utf8(rest.take(n as int))), rest.skip(n as int)))
            } else {
                None
            },
            None => None,
        }
    } else {
        None
    }
}

/// The type at the front of `b`, and what follows it.
pub open spec fn read_type(b: Seq<u8>) -> Option<(Type, Seq<u8>)>
    decreases b.len(), 0nat,
{
    if b.len() == 0 {
        None
    } else {
        let tag = b[0];
        let rest = b.skip(1);
        if tag == 0 || tag == 1 {
            match read_u32(rest) {
                Some((n, r)) => match read_elements(r, n as nat) {
                    Some((s, r2)) => Some(
                        (
                            if tag == 0 {
                                Type::Sum(s)
                            } else {
                                Type::Product(s)
                            },
                            r2,
                        ),
                    ),
                    None => None,
                },
                None => None,
            }
        } else if tag == 2 {
            match read_u32(rest) {
                Some((n, r)) => Some((Type::Ref(n), r)),
                None => None,
            }
        } else if tag == 17 {
            match read_type(rest) {
                Some((t, r)) => Some((Type::Array(Box::new(t)), r)),
                None => None,
            }
        } else if tag == 18 {
            match read_type(rest) {
                Some((k, r)) => if r.len() < b.len() {
                    match read_type(r) {
                        Some((v, r2)) => Some((Type::Mapping(Box::new(k), Box::new(v)), r2)),
                        None => None,
                    }
                } else {
                    None
                },
                None => None,
            }
        } else {
            match plain_type(tag) {
                Some(t) => Some((t, rest)),
                None => None,
            }
        }
    }
}

/// The type that its tag alone says.
pub open spec fn plain_type(tag: u8) -> Option<Type> {
    if tag == 3 {
        Some(Type::Bool)
    } else if tag == 4 {
        Some(Type::I8)
    } else if tag == 5 {
        Some(Type::U8)
    } else if tag == 6 {
        Some(Type::I16)
    } else if tag == 7 {
        Some(Type::U16)
    } else if tag == 8 {
        Some(Type::I32)
    } else if tag == 9 {
        Some(Type::U32)
    } else if tag == 10 {
        Some(Type::I64)
    } else if tag == 11 {
        Some(Type::U64)
    } else if tag == 12 {
        Some(Type::I128)
    } else if tag == 13 {
        Some(Type::U128)
    } else if tag == 14 {
        Some(Type::F32)
    } else if tag == 15 {
        Some(Type::F64)
    } else if tag == 16 {
        Some(Type::String)
    } else {
        None
    }
}

/// The `n` elements at the front of `b`, and what follows them.
pub open spec fn read_elements(b: Seq<u8>, n: nat) -> Option<(RowType, Seq<u8>)>
    decreases b.len(), n + 1,
{
    if n == 0 {
        Some((RowType::empty(), b))
    } else {
        match read_name(b) {
            Some((name, r)) => if r.len() < b.len() {
                match read_type(r) {
                    Some((t, r2)) => if r2.len() < b.len() {
                        match read_elements(r2, (n - 1) as nat) {
                            Some((s, r3)) => Some((seq![(name, t)] + s, r3)),
                            None => None,
                        }
                    } else {
                        None
                    },
                    None => None,
                }
            } else {
                None
            },
            None => None,
        }
    }
}

/// The type whose bytes `b` is, where it is those of one.
pub open spec fn type_of_bytes(b: Seq<u8>) -> Option<Type> {
    match read_type(b) {
        Some((t, rest)) => if rest.len() == 0 {
            Some(t)
        } else {
            None
        },
        None => None,
    }
}

proof fn lemma_read_name_shortens(b: Seq<u8>)
    ensures
        read_name(b) matches Some((name, r)) ==> r.len() < b.len(),
{
}

proof fn lemma_read_type_shortens(b: Seq<u8>)
    ensures
        read_type(b) matches Some((t, r)) ==> r.len() < b.len(),
    decreases b.len(), 0nat,
{
    if b.len() > 0 {
        let rest = b.skip(1);
        if b[0] == 0 || b[0] == 1 {
            match read_u32(rest) {
                Some((n, r)) => lemma_read_elements_shortens(r, n as nat),
                None => {},
            }
        } else if b[0] == 17 {
            lemma_read_type_shortens(rest);
        } else if b[0] == 18 {
            lemma_read_type_shortens(rest);
            match read_type(rest) {
                Some((k, r)) => lemma_read_type_shortens(r),
                None => {},
            }
        }
    }
}

proof fn lemma_read_elements_shortens(b: Seq<u8>, n: nat)
    ensures
        read_elements(b, n) matches Some((s, r)) ==> r.len() <= b.len(),
    decreases b.len(), n + 1,
{
    if n > 0 {
        match read_name(b) {
            Some((name, r)) => {
                lemma_read_type_shortens(r);
                match read_type(r) {
                    Some((t, r2)) => lemma_read_elements_shortens(r2, (n - 1) as nat),
                    None => {},
                }
            },
            None => {},
        }
    }
}

/// `String::from_utf8` of std: the text that the bytes are the UTF-8 of, where they are valid
/// UTF-8.
#[verifier::external_body]
fn string_from_utf8(bytes: Vec<u8>) -> (r: Option<String>)
    ensures
        match r {
            Some(s) => valid_utf8(bytes@) && s@ == decode_utf8(bytes@),
            None => !valid_utf8(bytes@),
        },
{
    String::from_utf8(bytes).ok()
}

fn take_u32(b: &Vec<u8>, at: usize) -> (r: Option<(u32, usize)>)
    requires
        at <= b@.len(),
    ensures
        match r {
            Some((n, p)) => p <= b@.len() && read_u32(b@.skip(at as int)) == Some((n, b@.skip(p as int))),
            None => read_u32(b@.skip(at as int)) is None,
        },
{
    if b.len() - at < 4 {
        return None;
    }
    let n: u32 = b[at] as u32 + 256 * b[at + 1] as u32 + 65536 * b[at + 2] as u32 + 16777216 * b[at
        + 3] as u32;
    assert(b@.skip(at as int).skip(4) =~= b@.skip(at + 4));
    Some((n, at + 4))
}

fn take_name(b: &Vec<u8>, at: usize) -> (r: Option<(Option<String>, usize)>)
    requires
        at <= b@.len(),
    ensures
        match r {
            Some((name, p)) => at < p <= b@.len() && read_name(b@.skip(at as int)) == Some(
                (name_model(name), b@.skip(p as int)),
            ),
            None => read_name(b@.skip(at as int)) is None,
        },
{
    if at == b.len() {
        return None;
    }
    assert(b@.skip(at as int).skip(1) =~= b@.skip(at + 1));
    if b[at] == 0 {
        Some((None, at + 1))
    } else if b[at] == 1 {
        match take_u32(b, at + 1) {
            Some((n, p)) => {
                proof {
                    assert(b@.skip(at + 1).len() >= 4);
                    assert(b@.skip(p as int).len() == b@.skip(at + 1).skip(4).len());
                }
                if n as usize > b.len() - p {
                    return None;
                }
                let end: usize = p + n as usize;
                let mut text: Vec<u8> = Vec::new();
                for i in p..end
                    invariant
                        end <= b@.len(),
                        p <= end,
                        text@ == b@.subrange(p as int, i as int),
                {
                    text.push(b[i]);
                    assert(text@ =~= b@.subrange(p as int, i + 1));
                }
                assert(text@ =~= b@.skip(p as int).take(n as int));
                assert(b@.skip(p as int).skip(n as int) =~= b@.skip(end as int));
                match string_from_utf8(text) {
                    Some(s) => Some((Some(s), end)),
                    None => None,
                }
            },
            None => None,
        }
    } else {
        None
    }
}

fn take_type(b: &Vec<u8>, at: usize) -> (r: Option<(AlgebraicType, usize)>)
    requires
        at <= b@.len(),
    ensures
        match r {
            Some((t, p)) => at < p <= b@.len() && read_type(b@.skip(at as int)) == Some(
                (t@, b@.skip(p as int)),
            ),
            None => read_type(b@.skip(at as int)) is None,
        },
    decreases b@.len() - at, 0nat,
{
    if at == b.len() {
        return None;
    }
    let ghost here = b@.skip(at as int);
    proof {
        assert(here.skip(1) =~= b@.skip(at + 1));
        lemma_read_type_shortens(here);
        lemma_read_type_shortens(here.skip(1));
    }
    let tag: u8 = b[at];
    if tag == 0 || tag == 1 {
        match take_u32(b, at + 1) {
            Some((n, p)) => {
                assert(b@.skip(p as int).len() == b@.skip(at + 1).skip(4).len());
                match take_elements(b, p, n) {
                    Some((s, q)) => {
                        if tag == 0 {
                            Some((AlgebraicType::Sum(SumType { variants: s }), q))
                        } else {
                            Some((AlgebraicType::Product(ProductType { elements: s }), q))
                        }
                    },
                    None => None,
                }
            },
            None => None,
        }
    } else if tag == 2 {
        match take_u32(b, at + 1) {
            Some((n, p)) => {
                assert(b@.skip(p as int).len() == b@.skip(at + 1).skip(4).len());
                Some((AlgebraicType::Ref(n), p))
            },
            None => None,
        }
    } else if tag == 17 {
        match take_type(b, at + 1) {
            Some((t, p)) => Some((AlgebraicType::Array(Box::new(t)), p)),
            None => None,
        }
    } else if tag == 18 {
        match take_type(b, at + 1) {
            Some((k, p)) => match take_type(b, p) {
                Some((v, q)) => Some((AlgebraicType::Mapping(Box::new(k), Box::new(v)), q)),
                None => None,
            },
            None => None,
        }
    } else {
        match tag {
            3 => Some((AlgebraicType::Bool, at + 1)),
            4 => Some((AlgebraicType::I8, at + 1)),
            5 => Some((AlgebraicType::U8, at + 1)),
            6 => Some((AlgebraicType::I16, at + 1)),
            7 => Some((AlgebraicType::U16, at + 1)),
            8 => Some((AlgebraicType::I32, at + 1)),
            9 => Some((AlgebraicType::U32, at + 1)),
            10 => Some((AlgebraicType::I64, at + 1)),
            11 => Some((AlgebraicType::U64, at + 1)),
            12 => Some((AlgebraicType::I128, at + 1)),
            13 => Some((AlgebraicType::U128, at + 1)),
            14 => Some((AlgebraicType::F32, at + 1)),
            15 => Some((AlgebraicType::F64, at + 1)),
            16 => Some((AlgebraicType::String, at + 1)),
            _ => None,
        }
    }
}

fn take_elements(b: &Vec<u8>, at: usize, n: u32) -> (r: Option<(Vec<ProductTypeElement>, usize)>)
    requires
        at <= b@.len(),
    ensures
        match r {
            Some((s, p)) => at <= p <= b@.len() && read_elements(b@.skip(at as int), n as nat) == Some(
                (elements_model(s@), b@.skip(p as int)),
            ),
            None => read_elements(b@.skip(at as int), n as nat) is None,
        },
    decreases b@.len() - at, n + 1,
{
    let ghost here = b@.skip(at as int);
    let ghost whole = read_elements(here, n as nat);
    let mut s: Vec<ProductTypeElement> = Vec::new();
    let mut left: u32 = n;
    let mut pos: usize = at;
    assert(elements_model(s@) =~= RowType::empty());
    proof {
        match whole {
            Some((x, r)) => {
                assert(RowType::empty() + x =~= x);
            },
            None => {},
        }
    }
    while left > 0
        invariant
            at <= pos <= b@.len(),
            left <= n,
            left < n ==> at < pos,
            here == b@.skip(at as int),
            whole == read_elements(here, n as nat),
            match read_elements(b@.skip(pos as int), left as nat) {
                Some((x, r)) => whole == Some((elements_model(s@) + x, r)),
                None => whole is None,
            },
        decreases left,
    {
        let ghost before = elements_model(s@);
        match take_name(b, pos) {
            Some((name, p)) => {
                proof {
                    lemma_read_type_shortens(b@.skip(p as int));
                }
                match take_type(b, p) {
                    Some((t, q)) => {
                        let ghost e = (name_model(name), t@);
                        s.push(ProductTypeElement { name, algebraic_type: t });
                        proof {
                            assert(elements_model(s@) =~= before.push(e));
                            match read_elements(b@.skip(q as int), (left - 1) as nat) {
                                Some((x, r)) => {
                                    assert(before + (seq![e] + x) =~= elements_model(s@) + x);
                                },
                                None => {},
                            }
                        }
                        pos = q;
                        left = left - 1;
                    },
                    None => {
                        return None;
                    },
                }
            },
            None => {
                return None;
            },
        }
    }
    proof {
        assert(elements_model(s@) + RowType::empty() =~= elements_model(s@));
    }
    Some((s, pos))
}

impl AlgebraicType {
    /// The type whose bytes these are, where they are those of one.
    pub fn decode(bytes: &Vec<u8>) -> (r: Option<AlgebraicType>)
        ensures
            match r {
                Some(t) => type_of_bytes(bytes@) == Some(t@),
                None => type_of_bytes(bytes@) is None,
            },
    {
        assert(bytes@.skip(0) =~= bytes@);
        match take_type(bytes, 0) {
            Some((t, p)) => {
                if p == bytes.len() {
                    Some(t)
                } else {
                    None
                }
            },
            None => None,
        }
    }
}

/// Every count and every name in `t` is short enough for its four-byte length.
pub open spec fn type_fits(t: Type) -> bool
    decreases t,
{
    match t {
        Type::Sum(s) => s.len() <= u32::MAX && elements_fit(s),
        Type::Product(s) => s.len() <= u32::MAX && elements_fit(s),
        Type::Array(t) => type_fits(*t),
        Type::Mapping(k, v) => type_fits(*k) && type_fits(*v),
        _ => true,
    }
}

pub open spec fn elements_fit(s: RowType) -> bool
    decreases s,
{
    s.len() > 0 ==> {
        &&& elements_fit(s.drop_last())
        &&& type_fits(s.last().1)
        &&& (s.last().0 matches Some(n) ==> encode_utf8(n).len() <= u32::MAX)
    }
}

proof fn lemma_elements_front(s: RowType)
    requires
        s.len() > 0,
    ensures
        elements_bytes(s) == name_bytes(s[0].0) + type_bytes(s[0].1) + elements_bytes(s.skip(1)),
        elements_fit(s) ==> elements_fit(s.skip(1)) && type_fits(s[0].1) && (s[0].0 matches Some(n)
            ==> encode_utf8(n).len() <= u32::MAX),
    decreases s.len(),
{
    let t = s.skip(1);
    if s.len() == 1 {
        assert(s.drop_last() =~= RowType::empty());
        assert(t =~= RowType::empty());
        assert(elements_bytes(s) =~= name_bytes(s[0].0) + type_bytes(s[0].1) + elements_bytes(t));
    } else {
        lemma_elements_front(s.drop_last());
        assert(s.drop_last().skip(1) =~= t.drop_last());
        assert(s.last() == t.last());
        assert(elements_bytes(s) =~= name_bytes(s[0].0) + type_bytes(s[0].1) + elements_bytes(t));
    }
}

proof fn lemma_read_u32_bytes(n: u32, rest: Seq<u8>)
    ensures
        read_u32(le_bytes(n as nat, 4) + rest) == Some((n, rest)),
        le_bytes(n as nat, 4).len() == 4,
{
    reveal_with_fuel(le_bytes, 5);
    let b = le_bytes(n as nat, 4) + rest;
    assert(b.skip(4) =~= rest);
    let m = n as nat;
    assert(b[0] == m % 256);
    assert(b[1] == m / 256 % 256);
    assert(b[2] == m / 256 / 256 % 256);
    assert(b[3] == m / 256 / 256 / 256 % 256);
}

proof fn lemma_read_name_bytes(name: Option<Seq<char>>, rest: Seq<u8>)
    requires
        name matches Some(n) ==> encode_utf8(n).len() <= u32::MAX,
    ensures
        read_name(name_bytes(name) + rest) == Some((name, rest)),
{
    match name {
        None => {
            assert((name_bytes(name) + rest).skip(1) =~= rest);
        },
        Some(n) => {
            let text = encode_utf8(n);
            let len = text.len() as u32;
            let b = name_bytes(name) + rest;
            assert(b.skip(1) =~= le_bytes(len as nat, 4) + (text + rest));
            lemma_read_u32_bytes(len, text + rest);
            assert((text + rest).take(len as int) =~= text);
            assert((text + rest).skip(len as int) =~= rest);
            vstd::utf8::encode_utf8_valid_utf8(n);
            vstd::utf8::encode_utf8_decode_utf8(n);
        },
    }
}

/// A type is read back from its bytes, whatever stands behind them.
pub proof fn lemma_type_round_trip(t: Type, rest: Seq<u8>)
    requires
        type_fits(t),
    ensures
        read_type(type_bytes(t) + rest) == Some((t, rest)),
    decreases t,
{
    let b = type_bytes(t) + rest;
    match t {
        Type::Sum(s) => {
            assert(b.skip(1) =~= le_bytes(s.len(), 4) + (elements_bytes(s) + rest));
            lemma_read_u32_bytes(s.len() as u32, elements_bytes(s) + rest);
            lemma_elements_round_trip(s, rest);
        },
        Type::Product(s) => {
            assert(b.skip(1) =~= le_bytes(s.len(), 4) + (elements_bytes(s) + rest));
            lemma_read_u32_bytes(s.len() as u32, elements_bytes(s) + rest);
            lemma_elements_round_trip(s, rest);
        },
        Type::Ref(n) => {
            assert(b.skip(1) =~= le_bytes(n as nat, 4) + rest);
            lemma_read_u32_bytes(n, rest);
        },
        Type::Array(x) => {
            assert(b.skip(1) =~= type_bytes(*x) + rest);
            lemma_type_round_trip(*x, rest);
        },
        Type::Mapping(k, v) => {
            assert(b.skip(1) =~= type_bytes(*k) + (type_bytes(*v) + rest));
            lemma_type_round_trip(*k, type_bytes(*v) + rest);
            lemma_type_round_trip(*v, rest);
        },
        _ => {
            assert(b.skip(1) =~= rest);
        },
    }
}

#[verifier::rlimit(40)]
proof fn lemma_elements_round_trip(s: RowType, rest: Seq<u8>)
    requires
        elements_fit(s),
    ensures
        read_elements(elements_bytes(s) + rest, s.len()) == Some((s, rest)),
    decreases s,
{
    let b = elements_bytes(s) + rest;
    if s.len() == 0 {
        assert(b =~= rest);
        assert(s =~= RowType::empty());
    } else {
        lemma_elements_front(s);
        let t = s.skip(1);
        let tail = elements_bytes(t) + rest;
        assert(b =~= name_bytes(s[0].0) + (type_bytes(s[0].1) + tail));
        let r = type_bytes(s[0].1) + tail;
        lemma_read_name_bytes(s[0].0, r);
        lemma_type_round_trip(s[0].1, tail);
        lemma_elements_round_trip(t, rest);
        lemma_read_name_shortens(b);
        lemma_read_type_shortens(r);
        assert(seq![s[0]] + t =~= s);
        assert(read_name(b) == Some((s[0].0, r)));
        assert(read_type(r) == Some((s[0].1, tail)));
        assert(read_elements(tail, t.len()) == Some((t, rest)));
    }
}

/// A type is decoded from its bytes.
pub proof fn law_type_round_trip(t: Type)
    requires
        type_fits(t),
    ensures
        type_of_bytes(type_bytes(t)) == Some(t),
{
    lemma_type_round_trip(t, Seq::empty());
    assert(type_bytes(t) + Seq::<u8>::empty() =~= type_bytes(t));
}

proof fn lemma_bytes_read_u32(b: Seq<u8>)
    ensures
        read_u32(b) matches Some((n, rest)) ==> b == le_bytes(n as nat, 4) + rest,
{
    if b.len() >= 4 {
        reveal_with_fuel(le_bytes, 5);
        let m: nat = (b[0] + 256 * b[1] + 65536 * b[2] + 16777216 * b[3]) as nat;
        assert(m % 256 == b[0]);
        let m1 = m / 256;
        assert(m1 == b[1] + 256 * b[2] + 65536 * b[3]);
        assert(m1 % 256 == b[1]);
        let m2 = m1 / 256;
        assert(m2 == b[2] + 256 * b[3]);
        assert(m2 % 256 == b[2]);
        let m3 = m2 / 256;
        assert(m3 == b[3]);
        assert(b =~= le_bytes(m, 4) + b.skip(4));
    }
}

proof fn lemma_bytes_read_name(b: Seq<u8>)
    ensures
        read_name(b) matches Some((name, rest)) ==> b == name_bytes(name) + rest,
{
    if b.len() > 0 && b[0] == 0 {
        assert(b =~= name_bytes(None) + b.skip(1));
    } else if b.len() > 0 && b[0] == 1 {
        lemma_bytes_read_u32(b.skip(1));
        match read_u32(b.skip(1)) {
            Some((n, rest)) => {
                if n <= rest.len() && valid_utf8(rest.take(n as int)) {
                    let text = rest.take(n as int);
                    let name = decode_utf8(text);
                    vstd::utf8::decode_utf8_encode_utf8(text);
                    assert(rest =~= text + rest.skip(n as int));
                    assert(b =~= seq![1u8] + b.skip(1));
                    assert(b =~= name_bytes(Some(name)) + rest.skip(n as int));
                }
            },
            None => {},
        }
    }
}

/// What is read from the front of bytes are the bytes of the type that is read.
proof fn lemma_bytes_read_type(b: Seq<u8>)
    ensures
        read_type(b) matches Some((t, rest)) ==> b == type_bytes(t) + rest,
    decreases b.len(), 0nat,
{
    if b.len() > 0 {
        let rest = b.skip(1);
        assert(b =~= seq![b[0]] + rest);
        if b[0] == 0 || b[0] == 1 {
            lemma_bytes_read_u32(rest);
            match read_u32(rest) {
                Some((n, r)) => {
                    lemma_bytes_read_elements(r, n as nat);
                    match read_elements(r, n as nat) {
                        Some((s, r2)) => {
                            assert(b =~= seq![b[0]] + le_bytes(n as nat, 4) + elements_bytes(s)
                                + r2);
                        },
                        None => {},
                    }
                },
                None => {},
            }
        } else if b[0] == 2 {
            lemma_bytes_read_u32(rest);
            match read_u32(rest) {
                Some((n, r)) => {
                    assert(b =~= seq![2u8] + le_bytes(n as nat, 4) + r);
                },
                None => {},
            }
        } else if b[0] == 17 {
            lemma_bytes_read_type(rest);
            match read_type(rest) {
                Some((t, r)) => {
                    assert(b =~= seq![17u8] + type_bytes(t) + r);
                },
                None => {},
            }
        } else if b[0] == 18 {
            lemma_read_type_shortens(rest);
            lemma_bytes_read_type(rest);
            match read_type(rest) {
                Some((k, r)) => {
                    lemma_bytes_read_type(r);
                    match read_type(r) {
                        Some((v, r2)) => {
                            assert(b =~= seq![18u8] + type_bytes(k) + type_bytes(v) + r2);
                        },
                        None => {},
                    }
                },
                None => {},
            }
        }
    }
}

#[verifier::rlimit(60)]
#[verifier::spinoff_prover]
proof fn lemma_bytes_read_elements(b: Seq<u8>, n: nat)
    ensures
        read_elements(b, n) matches Some((s, rest)) ==> s.len() == n && b == elements_bytes(s)
            + rest,
    decreases b.len(), n + 1,
{
    if n == 0 {
        assert(b =~= elements_bytes(RowType::empty()) + b);
    } else {
        lemma_bytes_read_name(b);
        lemma_read_name_shortens(b);
        match read_name(b) {
            Some((name, r)) => {
                lemma_bytes_read_type(r);
                lemma_read_type_shortens(r);
                match read_type(r) {
                    Some((t, r2)) => {
                        lemma_bytes_read_elements(r2, (n - 1) as nat);
                        match read_elements(r2, (n - 1) as nat) {
                            Some((s, r3)) => {
                                let all = seq![(name, t)] + s;
                                lemma_elements_front(all);
                                assert(all.skip(1) =~= s);
                                assert(all[0] == (name, t));
                                assert(elements_bytes(all) + r3 =~= name_bytes(name) + (type_bytes(
                                    t,
                                ) + (elements_bytes(s) + r3)));
                            },
                            None => {},
                        }
                    },
                    None => {},
                }
            },
            None => {},
        }
    }
}

/// Only the bytes of a type are decoded, and into that type.
pub proof fn law_only_bytes_of_types_are_decoded(b: Seq<u8>)
    ensures
        type_of_bytes(b) matches Some(t) ==> b == type_bytes(t),
{
    lemma_bytes_read_type(b);
    match read_type(b) {
        Some((t, rest)) => {
            if rest.len() == 0 {
                assert(type_bytes(t) + rest =~= type_bytes(t));
            }
        },
        None => {},
    }
}

} // verus!
