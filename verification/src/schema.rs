//! Tables, columns and indexes: how they are asked for, and how they are known.

use vstd::prelude::*;

use crate::types::{AlgebraicType, ProductType, ProductTypeElement, RowType, Type};

verus! {

/// A column to be created.
#[derive(Debug, PartialEq, Eq)]
pub struct ColumnDef {
    pub col_name: String,
    pub col_type: AlgebraicType,
    pub is_autoinc: bool,
}

/// What a column to be created is.
#[verifier::ext_equal]
pub struct ColumnDefModel {
    pub col_name: Seq<char>,
    pub col_type: Type,
    pub is_autoinc: bool,
}

impl View for ColumnDef {
    type V = ColumnDefModel;

    open spec fn view(&self) -> ColumnDefModel {
        ColumnDefModel {
            col_name: self.col_name@,
            col_type: self.col_type@,
            is_autoinc: self.is_autoinc,
        }
    }
}

impl Clone for ColumnDef {
    fn clone(&self) -> (r: Self)
        ensures
            r@ == self@,
    {
        ColumnDef {
            col_name: self.col_name.clone(),
            col_type: self.col_type.clone(),
            is_autoinc: self.is_autoinc,
        }
    }
}

/// An index to be created.
#[derive(Debug, PartialEq, Eq)]
pub struct IndexDef {
    pub table_id: u32,
    pub col_id: u32,
    pub name: String,
    pub is_unique: bool,
}

/// What an index to be created is.
#[verifier::ext_equal]
pub struct IndexDefModel {
    pub table_id: u32,
    pub col_id: u32,
    pub name: Seq<char>,
    pub is_unique: bool,
}

impl View for IndexDef {
    type V = IndexDefModel;

    open spec fn view(&self) -> IndexDefModel {
        IndexDefModel {
            table_id: self.table_id,
            col_id: self.col_id,
            name: self.name@,
            is_unique: self.is_unique,
        }
    }
}

impl Clone for IndexDef {
    fn clone(&self) -> (r: Self)
        ensures
            r@ == self@,
    {
        IndexDef {
            table_id: self.table_id,
            col_id: self.col_id,
            name: self.name.clone(),
            is_unique: self.is_unique,
        }
    }
}

/// A column of a table.
#[derive(Debug, PartialEq, Eq)]
pub struct ColumnSchema {
    pub table_id: u32,
    pub col_id: u32,
    pub col_name: String,
    pub col_type: AlgebraicType,
    pub is_autoinc: bool,
}

/// What a column is.
#[verifier::ext_equal]
pub struct ColumnModel {
    pub table_id: u32,
    pub col_id: u32,
    pub col_name: Seq<char>,
    pub col_type: Type,
    pub is_autoinc: bool,
}

impl View for ColumnSchema {
    type V = ColumnModel;

    open spec fn view(&self) -> ColumnModel {
        ColumnModel {
            table_id: self.table_id,
            col_id: self.col_id,
            col_name: self.col_name@,
            col_type: self.col_type@,
            is_autoinc: self.is_autoinc,
        }
    }
}

impl Clone for ColumnSchema {
    fn clone(&self) -> (r: Self)
        ensures
            r@ == self@,
    {
        ColumnSchema {
            table_id: self.table_id,
            col_id: self.col_id,
            col_name: self.col_name.clone(),
            col_type: self.col_type.clone(),
            is_autoinc: self.is_autoinc,
        }
    }
}

/// An index of a table.
#[derive(Debug, PartialEq, Eq)]
pub struct IndexSchema {
    pub index_id: u32,
    pub table_id: u32,
    pub col_id: u32,
    pub index_name: String,
    pub is_unique: bool,
}

/// What an index is known by.
#[verifier::ext_equal]
pub struct IndexSchemaModel {
    pub index_id: u32,
    pub table_id: u32,
    pub col_id: u32,
    pub index_name: Seq<char>,
    pub is_unique: bool,
}

impl View for IndexSchema {
    type V = IndexSchemaModel;

    open spec fn view(&self) -> IndexSchemaModel {
        IndexSchemaModel {
            index_id: self.index_id,
            table_id: self.table_id,
            col_id: self.col_id,
            index_name: self.index_name@,
            is_unique: self.is_unique,
        }
    }
}

impl Clone for IndexSchema {
    fn clone(&self) -> (r: Self)
        ensures
            r@ == self@,
    {
        IndexSchema {
            index_id: self.index_id,
            table_id: self.table_id,
            col_id: self.col_id,
            index_name: self.index_name.clone(),
            is_unique: self.is_unique,
        }
    }
}

/// What the columns to be created are.
pub open spec fn column_defs(s: Seq<ColumnDef>) -> Seq<ColumnDefModel> {
    s.map_values(|x: ColumnDef| x@)
}

fn clone_column_defs(v: &Vec<ColumnDef>) -> (r: Vec<ColumnDef>)
    ensures
        column_defs(r@) == column_defs(v@),
{
    let mut r: Vec<ColumnDef> = Vec::new();
    for i in 0..v.len()
        invariant
            r@.len() == i,
            forall|j: int| 0 <= j < i ==> (#[trigger] r@[j])@ == v@[j]@,
    {
        r.push(v[i].clone());
    }
    assert(column_defs(r@) =~= column_defs(v@));
    r
}

/// What the indexes to be created are.
pub open spec fn index_defs(s: Seq<IndexDef>) -> Seq<IndexDefModel> {
    s.map_values(|x: IndexDef| x@)
}

fn clone_index_defs(v: &Vec<IndexDef>) -> (r: Vec<IndexDef>)
    ensures
        index_defs(r@) == index_defs(v@),
{
    let mut r: Vec<IndexDef> = Vec::new();
    for i in 0..v.len()
        invariant
            r@.len() == i,
            forall|j: int| 0 <= j < i ==> (#[trigger] r@[j])@ == v@[j]@,
    {
        r.push(v[i].clone());
    }
    assert(index_defs(r@) =~= index_defs(v@));
    r
}

/// What the columns are.
pub open spec fn columns_model(s: Seq<ColumnSchema>) -> Seq<ColumnModel> {
    s.map_values(|x: ColumnSchema| x@)
}

fn clone_columns_model(v: &Vec<ColumnSchema>) -> (r: Vec<ColumnSchema>)
    ensures
        columns_model(r@) == columns_model(v@),
{
    let mut r: Vec<ColumnSchema> = Vec::new();
    for i in 0..v.len()
        invariant
            r@.len() == i,
            forall|j: int| 0 <= j < i ==> (#[trigger] r@[j])@ == v@[j]@,
    {
        r.push(v[i].clone());
    }
    assert(columns_model(r@) =~= columns_model(v@));
    r
}

/// What the indexes are known by.
pub open spec fn indexes_model(s: Seq<IndexSchema>) -> Seq<IndexSchemaModel> {
    s.map_values(|x: IndexSchema| x@)
}

fn clone_indexes_model(v: &Vec<IndexSchema>) -> (r: Vec<IndexSchema>)
    ensures
        indexes_model(r@) == indexes_model(v@),
{
    let mut r: Vec<IndexSchema> = Vec::new();
    for i in 0..v.len()
        invariant
            r@.len() == i,
            forall|j: int| 0 <= j < i ==> (#[trigger] r@[j])@ == v@[j]@,
    {
        r.push(v[i].clone());
    }
    assert(indexes_model(r@) =~= indexes_model(v@));
    r
}

/// A table to be created.
#[derive(Debug, PartialEq, Eq)]
pub struct TableDef {
    pub table_name: String,
    pub columns: Vec<ColumnDef>,
    pub indexes: Vec<IndexDef>,
}

/// What a table to be created is.
#[verifier::ext_equal]
pub struct TableDefModel {
    pub table_name: Seq<char>,
    pub columns: Seq<ColumnDefModel>,
    pub indexes: Seq<IndexDefModel>,
}

impl View for TableDef {
    type V = TableDefModel;

    open spec fn view(&self) -> TableDefModel {
        TableDefModel {
            table_name: self.table_name@,
            columns: column_defs(self.columns@),
            indexes: index_defs(self.indexes@),
        }
    }
}

impl Clone for TableDef {
    fn clone(&self) -> (r: Self)
        ensures
            r@ == self@,
    {
        TableDef {
            table_name: self.table_name.clone(),
            columns: clone_column_defs(&self.columns),
            indexes: clone_index_defs(&self.indexes),
        }
    }
}

/// What is known of a table besides its rows.
#[derive(Debug, PartialEq, Eq)]
pub struct TableSchema {
    pub table_id: u32,
    pub table_name: String,
    pub columns: Vec<ColumnSchema>,
    pub indexes: Vec<IndexSchema>,
}

/// What the schema of a table is.
#[verifier::ext_equal]
pub struct SchemaModel {
    pub table_id: u32,
    pub table_name: Seq<char>,
    pub columns: Seq<ColumnModel>,
    pub indexes: Seq<IndexSchemaModel>,
}

impl View for TableSchema {
    type V = SchemaModel;

    open spec fn view(&self) -> SchemaModel {
        SchemaModel {
            table_id: self.table_id,
            table_name: self.table_name@,
            columns: columns_model(self.columns@),
            indexes: indexes_model(self.indexes@),
        }
    }
}

impl Clone for TableSchema {
    fn clone(&self) -> (r: Self)
        ensures
            r@ == self@,
    {
        TableSchema {
            table_id: self.table_id,
            table_name: self.table_name.clone(),
            columns: clone_columns_model(&self.columns),
            indexes: clone_indexes_model(&self.indexes),
        }
    }
}

/// A sequence to be created.
#[derive(Debug, PartialEq, Eq)]
pub struct SequenceDef {
    pub sequence_name: String,
    pub table_id: u32,
    pub col_id: u32,
    pub increment: i128,
    pub start: Option<i128>,
    pub min_value: Option<i128>,
    pub max_value: Option<i128>,
}

/// What a sequence to be created is.
#[verifier::ext_equal]
pub struct SequenceDefModel {
    pub sequence_name: Seq<char>,
    pub table_id: u32,
    pub col_id: u32,
    pub increment: i128,
    pub start: Option<i128>,
    pub min_value: Option<i128>,
    pub max_value: Option<i128>,
}

impl View for SequenceDef {
    type V = SequenceDefModel;

    open spec fn view(&self) -> SequenceDefModel {
        SequenceDefModel {
            sequence_name: self.sequence_name@,
            table_id: self.table_id,
            col_id: self.col_id,
            increment: self.increment,
            start: self.start,
            min_value: self.min_value,
            max_value: self.max_value,
        }
    }
}

impl Clone for SequenceDef {
    fn clone(&self) -> (r: Self)
        ensures
            r@ == self@,
    {
        SequenceDef {
            sequence_name: self.sequence_name.clone(),
            table_id: self.table_id,
            col_id: self.col_id,
            increment: self.increment,
            start: self.start,
            min_value: self.min_value,
            max_value: self.max_value,
        }
    }
}

impl TableDefModel {
    /// The type of the rows: that of each column, unnamed.
    pub open spec fn row_type(self) -> RowType {
        self.columns.map_values(|c: ColumnDefModel| (None::<Seq<char>>, c.col_type))
    }
}

impl SchemaModel {
    /// The type of the rows: that of each column, unnamed.
    pub open spec fn row_type(self) -> RowType {
        self.columns.map_values(|c: ColumnModel| (None::<Seq<char>>, c.col_type))
    }

    /// The name of the column at place `c`, or nothing where there is none.
    pub open spec fn col_name(self, c: u32) -> Seq<char> {
        if c < self.columns.len() {
            self.columns[c as int].col_name
        } else {
            Seq::empty()
        }
    }
}

impl TableDef {
    /// The type of the rows of the table.
    pub fn get_row_type(&self) -> (r: ProductType)
        ensures
            r@ == self@.row_type(),
    {
        let mut elements: Vec<ProductTypeElement> = Vec::new();
        for i in 0..self.columns.len()
            invariant
                elements@.len() == i,
                forall|j: int|
                    0 <= j < i ==> (#[trigger] elements@[j]).name is None
                        && elements@[j].algebraic_type@ == self.columns@[j].col_type@,
        {
            elements.push(
                ProductTypeElement {
                    name: None,
                    algebraic_type: self.columns[i].col_type.clone(),
                },
            );
        }
        let r = ProductType { elements };
        assert(r@ =~= self@.row_type());
        r
    }
}

impl TableSchema {
    /// The type of the rows of the table.
    pub fn get_row_type(&self) -> (r: ProductType)
        ensures
            r@ == self@.row_type(),
    {
        let mut elements: Vec<ProductTypeElement> = Vec::new();
        for i in 0..self.columns.len()
            invariant
                elements@.len() == i,
                forall|j: int|
                    0 <= j < i ==> (#[trigger] elements@[j]).name is None
                        && elements@[j].algebraic_type@ == self.columns@[j].col_type@,
        {
            elements.push(
                ProductTypeElement {
                    name: None,
                    algebraic_type: self.columns[i].col_type.clone(),
                },
            );
        }
        let r = ProductType { elements };
        assert(r@ =~= self@.row_type());
        r
    }
}

} // verus!
