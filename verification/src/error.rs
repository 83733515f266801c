//! What can go wrong.

use vstd::prelude::*;
use vstd::string::StringExecFns;

use crate::text::{decimal, decimal_text, signed_decimal, signed_text};
use crate::types::{AlgebraicType, Type};
use crate::value::{AlgebraicValue, ProductValue, Row, Value};

verus! {

/// What can go wrong with a sequence.
#[derive(Debug, PartialEq, Eq)]
pub enum SequenceError {
    Exist(String),
    IncrementIsZero(String),
    MinMax(String, i128, i128),
    MinStart(String, i128, i128),
    MaxStart(String, i128, i128),
    SequenceValue(String),
    NotFound(u32),
    NotInteger { col: String, found: AlgebraicType },
    UnableToAllocate(u32),
}

/// What is said of an error of a sequence.
pub open spec fn sequence_error_text(f: Fault) -> Seq<char> {
    match f {
        Fault::SequenceExist(name) => "Sequence with name `"@ + name + "` already exists."@,
        Fault::IncrementIsZero(name) => "Sequence `"@ + name
            + "`: The increment is 0, and this means the sequence can't advance."@,
        Fault::MinMax(name, min, max) => "Sequence `"@ + name + "`: The min_value "@ + signed_text(
            min as int,
        ) + " must < max_value "@ + signed_text(max as int) + "."@,
        Fault::MinStart(name, start, min) => "Sequence `"@ + name + "`: The start value "@
            + signed_text(start as int) + " must be >= min_value "@ + signed_text(min as int)
            + "."@,
        Fault::MaxStart(name, start, max) => "Sequence `"@ + name + "`: The start value "@
            + signed_text(start as int) + " must be <= min_value "@ + signed_text(max as int)
            + "."@,
        Fault::SequenceValue(name) => "Sequence `"@ + name
            + "` failed to decode value from Sled (not a u128)."@,
        Fault::SequenceNotFound(id) => "Sequence ID `"@ + decimal_text(id as nat)
            + "` not found."@,
        Fault::NotInteger { col, found: _ } => "Sequence applied to a non-integer field. Column `"@
            + col + "` is of type {found.to_sats()}."@,
        Fault::UnableToAllocate(id) => "Sequence ID `"@ + decimal_text(id as nat)
            + "` still had no values left after allocation."@,
        _ => Seq::empty(),
    }
}

/// `before`, `middle` and `after`, one after the other.
fn said(before: &str, middle: &str, after: &str) -> (r: String)
    ensures
        r@ == before@ + middle@ + after@,
{
    let mut r = before.to_owned();
    r.append(middle);
    r.append(after);
    r
}

impl SequenceError {
    /// What is said of the error.
    pub fn message(&self) -> (r: String)
        ensures
            r@ == sequence_error_text(self@),
    {
        match self {
            SequenceError::Exist(name) => said(
                "Sequence with name `",
                name.as_str(),
                "` already exists.",
            ),
            SequenceError::IncrementIsZero(name) => said(
                "Sequence `",
                name.as_str(),
                "`: The increment is 0, and this means the sequence can't advance.",
            ),
            SequenceError::MinMax(name, min, max) => {
                let mut r = said("Sequence `", name.as_str(), "`: The min_value ");
                r.append(signed_decimal(*min).as_str());
                r.append(" must < max_value ");
                r.append(signed_decimal(*max).as_str());
                r.append(".");
                r
            },
            SequenceError::MinStart(name, start, min) => {
                let mut r = said("Sequence `", name.as_str(), "`: The start value ");
                r.append(signed_decimal(*start).as_str());
                r.append(" must be >= min_value ");
                r.append(signed_decimal(*min).as_str());
                r.append(".");
                r
            },
            SequenceError::MaxStart(name, start, max) => {
                let mut r = said("Sequence `", name.as_str(), "`: The start value ");
                r.append(signed_decimal(*start).as_str());
                r.append(" must be <= min_value ");
                r.append(signed_decimal(*max).as_str());
                r.append(".");
                r
            },
            SequenceError::SequenceValue(name) => said(
                "Sequence `",
                name.as_str(),
                "` failed to decode value from Sled (not a u128).",
            ),
            SequenceError::NotFound(id) => said(
                "Sequence ID `",
                decimal(*id as u128).as_str(),
                "` not found.",
            ),
            SequenceError::NotInteger { col, found: _ } => said(
                "Sequence applied to a non-integer field. Column `",
                col.as_str(),
                "` is of type {found.to_sats()}.",
            ),
            SequenceError::UnableToAllocate(id) => said(
                "Sequence ID `",
                decimal(*id as u128).as_str(),
                "` still had no values left after allocation.",
            ),
        }
    }
}

/// What can go wrong with a table.
#[derive(Debug, PartialEq, Eq)]
pub enum TableError {
    IdNotFound(u32),
    IdTaken(u32),
    RowInvalidType { table_id: u32, row: ProductValue },
}

/// What can go wrong with an index.
#[derive(Debug, PartialEq, Eq)]
pub enum IndexError {
    Exist(String),
    ColumnIndexed { table_id: u32, col_id: u32 },
    NotUnique { index_name: String, table_id: u32, col_id: u32 },
    UniqueConstraintViolation {
        constraint_name: String,
        table_name: String,
        col_name: String,
        value: AlgebraicValue,
    },
}

/// What can go wrong in the datastore.
#[derive(Debug, PartialEq, Eq)]
pub enum DBError {
    Table(TableError),
    Index(IndexError),
    Sequence(SequenceError),
    /// A row does not hold, at this place, what is looked for there.
    InvalidField(u32),
}

/// What an error says.
pub enum Fault {
    SequenceExist(Seq<char>),
    IncrementIsZero(Seq<char>),
    MinMax(Seq<char>, i128, i128),
    MinStart(Seq<char>, i128, i128),
    MaxStart(Seq<char>, i128, i128),
    SequenceValue(Seq<char>),
    SequenceNotFound(u32),
    NotInteger { col: Seq<char>, found: Type },
    UnableToAllocate(u32),
    TableIdNotFound(u32),
    TableIdTaken(u32),
    RowInvalidType { table_id: u32, row: Row },
    IndexExist(Seq<char>),
    ColumnIndexed { table_id: u32, col_id: u32 },
    NotUnique { index_name: Seq<char>, table_id: u32, col_id: u32 },
    UniqueConstraintViolation {
        constraint_name: Seq<char>,
        table_name: Seq<char>,
        col_name: Seq<char>,
        value: Value,
    },
    InvalidField(u32),
}

impl View for SequenceError {
    type V = Fault;

    open spec fn view(&self) -> Fault {
        match self {
            SequenceError::Exist(n) => Fault::SequenceExist(n@),
            SequenceError::IncrementIsZero(n) => Fault::IncrementIsZero(n@),
            SequenceError::MinMax(n, a, b) => Fault::MinMax(n@, *a, *b),
            SequenceError::MinStart(n, a, b) => Fault::MinStart(n@, *a, *b),
            SequenceError::MaxStart(n, a, b) => Fault::MaxStart(n@, *a, *b),
            SequenceError::SequenceValue(n) => Fault::SequenceValue(n@),
            SequenceError::NotFound(id) => Fault::SequenceNotFound(*id),
            SequenceError::NotInteger { col, found } => Fault::NotInteger {
                col: col@,
                found: found@,
            },
            SequenceError::UnableToAllocate(id) => Fault::UnableToAllocate(*id),
        }
    }
}

impl View for DBError {
    type V = Fault;

    open spec fn view(&self) -> Fault {
        match self {
            DBError::Table(TableError::IdNotFound(id)) => Fault::TableIdNotFound(*id),
            DBError::Table(TableError::IdTaken(id)) => Fault::TableIdTaken(*id),
            DBError::Table(TableError::RowInvalidType { table_id, row }) => Fault::RowInvalidType {
                table_id: *table_id,
                row: row@,
            },
            DBError::Index(IndexError::Exist(name)) => Fault::IndexExist(name@),
            DBError::Index(IndexError::ColumnIndexed { table_id, col_id }) => {
                Fault::ColumnIndexed { table_id: *table_id, col_id: *col_id }
            },
            DBError::Index(IndexError::NotUnique { index_name, table_id, col_id }) => {
                Fault::NotUnique { index_name: index_name@, table_id: *table_id, col_id: *col_id }
            },
            DBError::Index(
                IndexError::UniqueConstraintViolation {
                    constraint_name,
                    table_name,
                    col_name,
                    value,
                },
            ) => Fault::UniqueConstraintViolation {
                constraint_name: constraint_name@,
                table_name: table_name@,
                col_name: col_name@,
                value: value@,
            },
            DBError::Sequence(e) => e@,
            DBError::InvalidField(at) => Fault::InvalidField(*at),
        }
    }
}

} // verus!
