//! The system tables: the tables in which the datastore keeps its catalogue.

use vstd::prelude::*;

use crate::error::{DBError, Fault};
use crate::ids::{ST_COLUMNS_ID, ST_INDEXES_ID, ST_SEQUENCES_ID, ST_TABLES_ID};
use crate::schema::{
    ColumnModel, ColumnSchema, IndexSchema, IndexSchemaModel, SchemaModel, TableSchema,
};
use crate::sequence::{SequenceModel, SequenceSchema};
use crate::types::{
    law_type_round_trip, type_bytes, type_fits, type_of_bytes, AlgebraicType, ProductType,
    ProductTypeElement, RowType, Type,
};
use crate::value::{AlgebraicValue, ProductValue, Row, Value};

verus! {

/// The number in column `i` of `row`.
pub open spec fn u32_at(row: Row, i: u32) -> Result<u32, Fault> {
    if i < row.len() {
        match row[i as int] {
            Value::U32(x) => Ok(x),
            _ => Err(Fault::InvalidField(i)),
        }
    } else {
        Err(Fault::InvalidField(i))
    }
}

/// The wide number in column `i` of `row`.
pub open spec fn i128_at(row: Row, i: u32) -> Result<i128, Fault> {
    if i < row.len() {
        match row[i as int] {
            Value::I128(x) => Ok(x),
            _ => Err(Fault::InvalidField(i)),
        }
    } else {
        Err(Fault::InvalidField(i))
    }
}

/// The flag in column `i` of `row`.
pub open spec fn bool_at(row: Row, i: u32) -> Result<bool, Fault> {
    if i < row.len() {
        match row[i as int] {
            Value::Bool(x) => Ok(x),
            _ => Err(Fault::InvalidField(i)),
        }
    } else {
        Err(Fault::InvalidField(i))
    }
}

/// The text in column `i` of `row`.
pub open spec fn string_at(row: Row, i: u32) -> Result<Seq<char>, Fault> {
    if i < row.len() {
        match row[i as int] {
            Value::String(x) => Ok(x),
            _ => Err(Fault::InvalidField(i)),
        }
    } else {
        Err(Fault::InvalidField(i))
    }
}

/// The type whose bytes are in column `i` of `row`.
pub open spec fn type_at(row: Row, i: u32) -> Result<Type, Fault> {
    if i < row.len() {
        match row[i as int] {
            Value::Bytes(x) => match type_of_bytes(x) {
                Some(t) => Ok(t),
                None => Err(Fault::InvalidField(i)),
            },
            _ => Err(Fault::InvalidField(i)),
        }
    } else {
        Err(Fault::InvalidField(i))
    }
}

impl ProductValue {
    pub fn u32_at(&self, i: u32) -> (r: Result<u32, DBError>)
        ensures
            match r {
                Ok(x) => u32_at(self@, i) == Ok::<u32, Fault>(x),
                Err(e) => u32_at(self@, i) == Err::<u32, Fault>(e@),
            },
    {
        if (i as usize) < self.elements.len() {
            match &self.elements[i as usize] {
                AlgebraicValue::U32(x) => Ok(*x),
                _ => Err(DBError::InvalidField(i)),
            }
        } else {
            Err(DBError::InvalidField(i))
        }
    }

    pub fn i128_at(&self, i: u32) -> (r: Result<i128, DBError>)
        ensures
            match r {
                Ok(x) => i128_at(self@, i) == Ok::<i128, Fault>(x),
                Err(e) => i128_at(self@, i) == Err::<i128, Fault>(e@),
            },
    {
        if (i as usize) < self.elements.len() {
            match &self.elements[i as usize] {
                AlgebraicValue::I128(x) => Ok(*x),
                _ => Err(DBError::InvalidField(i)),
            }
        } else {
            Err(DBError::InvalidField(i))
        }
    }

    pub fn bool_at(&self, i: u32) -> (r: Result<bool, DBError>)
        ensures
            match r {
                Ok(x) => bool_at(self@, i) == Ok::<bool, Fault>(x),
                Err(e) => bool_at(self@, i) == Err::<bool, Fault>(e@),
            },
    {
        if (i as usize) < self.elements.len() {
            match &self.elements[i as usize] {
                AlgebraicValue::Bool(x) => Ok(*x),
                _ => Err(DBError::InvalidField(i)),
            }
        } else {
            Err(DBError::InvalidField(i))
        }
    }

    pub fn string_at(&self, i: u32) -> (r: Result<String, DBError>)
        ensures
            match r {
                Ok(x) => string_at(self@, i) == Ok::<Seq<char>, Fault>(x@),
                Err(e) => string_at(self@, i) == Err::<Seq<char>, Fault>(e@),
            },
    {
        if (i as usize) < self.elements.len() {
            match &self.elements[i as usize] {
                AlgebraicValue::String(x) => Ok(x.clone()),
                _ => Err(DBError::InvalidField(i)),
            }
        } else {
            Err(DBError::InvalidField(i))
        }
    }

    pub fn type_at(&self, i: u32) -> (r: Result<AlgebraicType, DBError>)
        ensures
            match r {
                Ok(x) => type_at(self@, i) == Ok::<Type, Fault>(x@),
                Err(e) => type_at(self@, i) == Err::<Type, Fault>(e@),
            },
    {
        if (i as usize) < self.elements.len() {
            match &self.elements[i as usize] {
                AlgebraicValue::Bytes(x) => match AlgebraicType::decode(x) {
                    Some(t) => Ok(t),
                    None => Err(DBError::InvalidField(i)),
                },
                _ => Err(DBError::InvalidField(i)),
            }
        } else {
            Err(DBError::InvalidField(i))
        }
    }
}

/// A row of the table of tables.
#[derive(Debug, PartialEq, Eq)]
pub struct StTableRow {
    pub table_id: u32,
    pub table_name: String,
}

/// What a row of the table of tables says.
#[verifier::ext_equal]
pub struct TableRowModel {
    pub table_id: u32,
    pub table_name: Seq<char>,
}

/// A row of the table of columns.
#[derive(Debug, PartialEq, Eq)]
pub struct StColumnRow {
    pub table_id: u32,
    pub col_id: u32,
    pub col_name: String,
    pub col_type: AlgebraicType,
    pub is_autoinc: bool,
}

/// A row of the table of indexes.
#[derive(Debug, PartialEq, Eq)]
pub struct StIndexRow {
    pub index_id: u32,
    pub table_id: u32,
    pub col_id: u32,
    pub index_name: String,
    pub is_unique: bool,
}

/// A row of the table of sequences.
#[derive(Debug, PartialEq, Eq)]
pub struct StSequenceRow {
    pub sequence_id: u32,
    pub sequence_name: String,
    pub table_id: u32,
    pub col_id: u32,
    pub increment: i128,
    pub start: i128,
    pub min_value: i128,
    pub max_value: i128,
    pub allocated: i128,
}

impl View for StTableRow {
    type V = TableRowModel;

    open spec fn view(&self) -> TableRowModel {
        TableRowModel { table_id: self.table_id, table_name: self.table_name@ }
    }
}

impl View for StColumnRow {
    type V = ColumnModel;

    open spec fn view(&self) -> ColumnModel {
        ColumnModel {
            table_id: self.table_id,
            col_id: self.col_id,
            col_name: self.col_name@,
            col_type: self.col_type@,
            is_autoinc: self.is_autoinc,
        }
    }
}

impl View for StIndexRow {
    type V = IndexSchemaModel;

    open spec fn view(&self) -> IndexSchemaModel {
        IndexSchemaModel {
            index_id: self.index_id,
            table_id: self.table_id,
            col_id: self.col_id,
            index_name: self.index_name@,
            is_unique: self.is_unique,
        }
    }
}

impl View for StSequenceRow {
    type V = SequenceModel;

    /// The sequence that the row describes, before it has given out a number.
    open spec fn view(&self) -> SequenceModel {
        SequenceModel {
            sequence_id: self.sequence_id,
            sequence_name: self.sequence_name@,
            table_id: self.table_id,
            col_id: self.col_id,
            increment: self.increment,
            start: self.start,
            min_value: self.min_value,
            max_value: self.max_value,
            allocated: self.allocated,
            value: self.start,
        }
    }
}

impl TableRowModel {
    pub open spec fn row(self) -> Row {
        seq![Value::U32(self.table_id), Value::String(self.table_name)]
    }

    pub open spec fn of_row(row: Row) -> Result<TableRowModel, Fault> {
        match u32_at(row, 0) {
            Err(e) => Err(e),
            Ok(table_id) => match string_at(row, 1) {
                Err(e) => Err(e),
                Ok(table_name) => Ok(TableRowModel { table_id, table_name }),
            },
        }
    }
}

impl ColumnModel {
    pub open spec fn row(self) -> Row {
        seq![
            Value::U32(self.table_id),
            Value::U32(self.col_id),
            Value::Bytes(type_bytes(self.col_type)),
            Value::String(self.col_name),
            Value::Bool(self.is_autoinc),
        ]
    }

    pub open spec fn of_row(row: Row) -> Result<ColumnModel, Fault> {
        match u32_at(row, 0) {
            Err(e) => Err(e),
            Ok(table_id) => match u32_at(row, 1) {
                Err(e) => Err(e),
                Ok(col_id) => match type_at(row, 2) {
                    Err(e) => Err(e),
                    Ok(col_type) => match string_at(row, 3) {
                        Err(e) => Err(e),
                        Ok(col_name) => match bool_at(row, 4) {
                            Err(e) => Err(e),
                            Ok(is_autoinc) => Ok(
                                ColumnModel { table_id, col_id, col_name, col_type, is_autoinc },
                            ),
                        },
                    },
                },
            },
        }
    }
}

impl IndexSchemaModel {
    pub open spec fn row(self) -> Row {
        seq![
            Value::U32(self.index_id),
            Value::U32(self.table_id),
            Value::U32(self.col_id),
            Value::String(self.index_name),
            Value::Bool(self.is_unique),
        ]
    }

    pub open spec fn of_row(row: Row) -> Result<IndexSchemaModel, Fault> {
        match u32_at(row, 0) {
            Err(e) => Err(e),
            Ok(index_id) => match u32_at(row, 1) {
                Err(e) => Err(e),
                Ok(table_id) => match u32_at(row, 2) {
                    Err(e) => Err(e),
                    Ok(col_id) => match string_at(row, 3) {
                        Err(e) => Err(e),
                        Ok(index_name) => match bool_at(row, 4) {
                            Err(e) => Err(e),
                            Ok(is_unique) => Ok(
                                IndexSchemaModel {
                                    index_id,
                                    table_id,
                                    col_id,
                                    index_name,
                                    is_unique,
                                },
                            ),
                        },
                    },
                },
            },
        }
    }
}

impl SequenceModel {
    pub open spec fn row(self) -> Row {
        seq![
            Value::U32(self.sequence_id),
            Value::String(self.sequence_name),
            Value::U32(self.table_id),
            Value::U32(self.col_id),
            Value::I128(self.increment),
            Value::I128(self.start),
            Value::I128(self.min_value),
            Value::I128(self.max_value),
            Value::I128(self.allocated),
        ]
    }

    pub open spec fn of_row(row: Row) -> Result<SequenceModel, Fault> {
        match u32_at(row, 0) {
            Err(e) => Err(e),
            Ok(sequence_id) => match string_at(row, 1) {
                Err(e) => Err(e),
                Ok(sequence_name) => match u32_at(row, 2) {
                    Err(e) => Err(e),
                    Ok(table_id) => match u32_at(row, 3) {
                        Err(e) => Err(e),
                        Ok(col_id) => match i128_at(row, 4) {
                            Err(e) => Err(e),
                            Ok(increment) => match i128_at(row, 5) {
                                Err(e) => Err(e),
                                Ok(start) => match i128_at(row, 6) {
                                    Err(e) => Err(e),
                                    Ok(min_value) => match i128_at(row, 7) {
                                        Err(e) => Err(e),
                                        Ok(max_value) => match i128_at(row, 8) {
                                            Err(e) => Err(e),
                                            Ok(allocated) => Ok(
                                                SequenceModel {
                                                    sequence_id,
                                                    sequence_name,
                                                    table_id,
                                                    col_id,
                                                    increment,
                                                    start,
                                                    min_value,
                                                    max_value,
                                                    allocated,
                                                    value: start,
                                                },
                                            ),
                                        },
                                    },
                                },
                            },
                        },
                    },
                },
            },
        }
    }
}

/// What a row of the table of tables says is read back from it.
pub proof fn law_table_row_round_trip(x: TableRowModel)
    ensures
        TableRowModel::of_row(x.row()) == Ok::<TableRowModel, Fault>(x),
{
}

/// What a row of the table of columns says is read back from it.
pub proof fn law_column_row_round_trip(x: ColumnModel)
    requires
        type_fits(x.col_type),
    ensures
        ColumnModel::of_row(x.row()) == Ok::<ColumnModel, Fault>(x),
{
    law_type_round_trip(x.col_type);
}

/// What a row of the table of indexes says is read back from it.
pub proof fn law_index_row_round_trip(x: IndexSchemaModel)
    ensures
        IndexSchemaModel::of_row(x.row()) == Ok::<IndexSchemaModel, Fault>(x),
{
}

/// What a row of the table of sequences says is read back from it.
pub proof fn law_sequence_row_round_trip(x: SequenceModel)
    ensures
        SequenceModel::of_row(x.row()) == Ok::<SequenceModel, Fault>(
            SequenceModel { value: x.start, ..x },
        ),
{
}

impl StTableRow {
    pub fn to_row(&self) -> (r: ProductValue)
        ensures
            r@ == self@.row(),
    {
        let elements = vec![
            AlgebraicValue::U32(self.table_id),
            AlgebraicValue::String(self.table_name.clone()),
        ];
        let r = ProductValue { elements };
        assert(r@ =~= self@.row());
        r
    }

    pub fn try_from(row: &ProductValue) -> (r: Result<StTableRow, DBError>)
        ensures
            match r {
                Ok(x) => TableRowModel::of_row(row@) == Ok::<TableRowModel, Fault>(x@),
                Err(e) => TableRowModel::of_row(row@) == Err::<TableRowModel, Fault>(e@),
            },
    {
        let table_id: u32 = match row.u32_at(0) {
            Ok(x) => x,
            Err(e) => {
                return Err(e);
            },
        };
        let table_name = match row.string_at(1) {
            Ok(x) => x,
            Err(e) => {
                return Err(e);
            },
        };
        Ok(StTableRow { table_id, table_name })
    }
}

impl StColumnRow {
    pub fn to_row(&self) -> (r: ProductValue)
        ensures
            r@ == self@.row(),
    {
        let mut bytes: Vec<u8> = Vec::new();
        self.col_type.encode(&mut bytes);
        assert(bytes@ =~= type_bytes(self.col_type@));
        let elements = vec![
            AlgebraicValue::U32(self.table_id),
            AlgebraicValue::U32(self.col_id),
            AlgebraicValue::Bytes(bytes),
            AlgebraicValue::String(self.col_name.clone()),
            AlgebraicValue::Bool(self.is_autoinc),
        ];
        let r = ProductValue { elements };
        assert(r@ =~= self@.row());
        r
    }

    pub fn try_from(row: &ProductValue) -> (r: Result<StColumnRow, DBError>)
        ensures
            match r {
                Ok(x) => ColumnModel::of_row(row@) == Ok::<ColumnModel, Fault>(x@),
                Err(e) => ColumnModel::of_row(row@) == Err::<ColumnModel, Fault>(e@),
            },
    {
        let table_id: u32 = match row.u32_at(0) {
            Ok(x) => x,
            Err(e) => {
                return Err(e);
            },
        };
        let col_id: u32 = match row.u32_at(1) {
            Ok(x) => x,
            Err(e) => {
                return Err(e);
            },
        };
        let col_type = match row.type_at(2) {
            Ok(x) => x,
            Err(e) => {
                return Err(e);
            },
        };
        let col_name = match row.string_at(3) {
            Ok(x) => x,
            Err(e) => {
                return Err(e);
            },
        };
        let is_autoinc = match row.bool_at(4) {
            Ok(x) => x,
            Err(e) => {
                return Err(e);
            },
        };
        Ok(StColumnRow { table_id, col_id, col_name, col_type, is_autoinc })
    }
}

impl StIndexRow {
    pub fn to_row(&self) -> (r: ProductValue)
        ensures
            r@ == self@.row(),
    {
        let elements = vec![
            AlgebraicValue::U32(self.index_id),
            AlgebraicValue::U32(self.table_id),
            AlgebraicValue::U32(self.col_id),
            AlgebraicValue::String(self.index_name.clone()),
            AlgebraicValue::Bool(self.is_unique),
        ];
        let r = ProductValue { elements };
        assert(r@ =~= self@.row());
        r
    }

    pub fn try_from(row: &ProductValue) -> (r: Result<StIndexRow, DBError>)
        ensures
            match r {
                Ok(x) => IndexSchemaModel::of_row(row@) == Ok::<IndexSchemaModel, Fault>(x@),
                Err(e) => IndexSchemaModel::of_row(row@) == Err::<IndexSchemaModel, Fault>(e@),
            },
    {
        let index_id: u32 = match row.u32_at(0) {
            Ok(x) => x,
            Err(e) => {
                return Err(e);
            },
        };
        let table_id: u32 = match row.u32_at(1) {
            Ok(x) => x,
            Err(e) => {
                return Err(e);
            },
        };
        let col_id: u32 = match row.u32_at(2) {
            Ok(x) => x,
            Err(e) => {
                return Err(e);
            },
        };
        let index_name = match row.string_at(3) {
            Ok(x) => x,
            Err(e) => {
                return Err(e);
            },
        };
        let is_unique = match row.bool_at(4) {
            Ok(x) => x,
            Err(e) => {
                return Err(e);
            },
        };
        Ok(StIndexRow { index_id, table_id, col_id, index_name, is_unique })
    }
}

impl StSequenceRow {
    pub fn to_row(&self) -> (r: ProductValue)
        ensures
            r@ == self@.row(),
    {
        let elements = vec![
            AlgebraicValue::U32(self.sequence_id),
            AlgebraicValue::String(self.sequence_name.clone()),
            AlgebraicValue::U32(self.table_id),
            AlgebraicValue::U32(self.col_id),
            AlgebraicValue::I128(self.increment),
            AlgebraicValue::I128(self.start),
            AlgebraicValue::I128(self.min_value),
            AlgebraicValue::I128(self.max_value),
            AlgebraicValue::I128(self.allocated),
        ];
        let r = ProductValue { elements };
        assert(r@ =~= self@.row());
        r
    }

    pub fn try_from(row: &ProductValue) -> (r: Result<StSequenceRow, DBError>)
        ensures
            match r {
                Ok(x) => SequenceModel::of_row(row@) == Ok::<SequenceModel, Fault>(x@),
                Err(e) => SequenceModel::of_row(row@) == Err::<SequenceModel, Fault>(e@),
            },
    {
        let sequence_id: u32 = match row.u32_at(0) {
            Ok(x) => x,
            Err(e) => {
                return Err(e);
            },
        };
        let sequence_name = match row.string_at(1) {
            Ok(x) => x,
            Err(e) => {
                return Err(e);
            },
        };
        let table_id: u32 = match row.u32_at(2) {
            Ok(x) => x,
            Err(e) => {
                return Err(e);
            },
        };
        let col_id: u32 = match row.u32_at(3) {
            Ok(x) => x,
            Err(e) => {
                return Err(e);
            },
        };
        let increment: i128 = match row.i128_at(4) {
            Ok(x) => x,
            Err(e) => {
                return Err(e);
            },
        };
        let start: i128 = match row.i128_at(5) {
            Ok(x) => x,
            Err(e) => {
                return Err(e);
            },
        };
        let min_value: i128 = match row.i128_at(6) {
            Ok(x) => x,
            Err(e) => {
                return Err(e);
            },
        };
        let max_value: i128 = match row.i128_at(7) {
            Ok(x) => x,
            Err(e) => {
                return Err(e);
            },
        };
        let allocated: i128 = match row.i128_at(8) {
            Ok(x) => x,
            Err(e) => {
                return Err(e);
            },
        };
        Ok(
            StSequenceRow {
                sequence_id,
                sequence_name,
                table_id,
                col_id,
                increment,
                start,
                min_value,
                max_value,
                allocated,
            },
        )
    }

    /// The schema of the sequence that the row describes.
    pub fn to_schema(&self) -> (r: SequenceSchema)
        ensures
            r@ == self@,
    {
        SequenceSchema {
            sequence_id: self.sequence_id,
            sequence_name: self.sequence_name.clone(),
            table_id: self.table_id,
            col_id: self.col_id,
            increment: self.increment,
            start: self.start,
            min_value: self.min_value,
            max_value: self.max_value,
            allocated: self.allocated,
        }
    }
}

/// A column of a system table.
pub open spec fn system_column(
    table_id: u32,
    col_id: u32,
    name: Seq<char>,
    col_type: Type,
    is_autoinc: bool,
) -> ColumnModel {
    ColumnModel { table_id, col_id, col_name: name, col_type, is_autoinc }
}

/// A unique index of a system table.
pub open spec fn system_index(
    index_id: u32,
    table_id: u32,
    col_id: u32,
    name: Seq<char>,
) -> IndexSchemaModel {
    IndexSchemaModel { index_id, table_id, col_id, index_name: name, is_unique: true }
}

fn column(
    table_id: u32,
    col_id: u32,
    name: &str,
    col_type: AlgebraicType,
    is_autoinc: bool,
) -> (r: ColumnSchema)
    ensures
        r@ == system_column(table_id, col_id, name@, col_type@, is_autoinc),
{
    ColumnSchema { table_id, col_id, col_name: name.to_owned(), col_type, is_autoinc }
}

fn unique_index(index_id: u32, table_id: u32, col_id: u32, name: &str) -> (r: IndexSchema)
    ensures
        r@ == system_index(index_id, table_id, col_id, name@),
{
    IndexSchema { index_id, table_id, col_id, index_name: name.to_owned(), is_unique: true }
}

/// What the schema of the table of tables is.
pub open spec fn st_table_model() -> SchemaModel {
    SchemaModel {
        table_id: ST_TABLES_ID,
        table_name: "st_table"@,
        columns: seq![
            system_column(ST_TABLES_ID, 0, "table_id"@, Type::U32, true),
            system_column(ST_TABLES_ID, 1, "table_name"@, Type::String, false),
            system_column(ST_TABLES_ID, 2, "is_system_table"@, Type::Bool, false),
        ],
        indexes: seq![
            system_index(0, ST_TABLES_ID, 0, "table_id_idx"@),
            system_index(3, ST_TABLES_ID, 1, "table_name_idx"@),
        ],
    }
}

/// The schema of the table of tables.
pub fn st_table_schema() -> (r: TableSchema)
    ensures
        r@ == st_table_model(),
{
    let columns = vec![
        column(ST_TABLES_ID, 0, "table_id", AlgebraicType::U32, true),
        column(ST_TABLES_ID, 1, "table_name", AlgebraicType::String, false),
        column(ST_TABLES_ID, 2, "is_system_table", AlgebraicType::Bool, false),
    ];
    let indexes = vec![
        unique_index(0, ST_TABLES_ID, 0, "table_id_idx"),
        unique_index(3, ST_TABLES_ID, 1, "table_name_idx"),
    ];
    let r = TableSchema {
        table_id: ST_TABLES_ID,
        table_name: "st_table".to_owned(),
        columns,
        indexes,
    };
    assert(r@.columns =~= st_table_model().columns);
    assert(r@.indexes =~= st_table_model().indexes);
    r
}

/// What the schema of the table of columns is.
pub open spec fn st_columns_model() -> SchemaModel {
    SchemaModel {
        table_id: ST_COLUMNS_ID,
        table_name: "st_columns"@,
        columns: seq![
            system_column(ST_COLUMNS_ID, 0, "table_id"@, Type::U32, false),
            system_column(ST_COLUMNS_ID, 1, "col_id"@, Type::U32, false),
            system_column(ST_COLUMNS_ID, 2, "col_type"@, Type::Array(Box::new(Type::U8)), false),
            system_column(ST_COLUMNS_ID, 3, "col_name"@, Type::String, false),
            system_column(ST_COLUMNS_ID, 4, "is_autoinc"@, Type::Bool, false),
        ],
        indexes: Seq::empty(),
    }
}

/// The schema of the table of columns.
pub fn st_columns_schema() -> (r: TableSchema)
    ensures
        r@ == st_columns_model(),
{
    let columns = vec![
        column(ST_COLUMNS_ID, 0, "table_id", AlgebraicType::U32, false),
        column(ST_COLUMNS_ID, 1, "col_id", AlgebraicType::U32, false),
        column(
            ST_COLUMNS_ID,
            2,
            "col_type",
            AlgebraicType::make_array_type(AlgebraicType::U8),
            false,
        ),
        column(ST_COLUMNS_ID, 3, "col_name", AlgebraicType::String, false),
        column(ST_COLUMNS_ID, 4, "is_autoinc", AlgebraicType::Bool, false),
    ];
    let indexes: Vec<IndexSchema> = Vec::new();
    let r = TableSchema {
        table_id: ST_COLUMNS_ID,
        table_name: "st_columns".to_owned(),
        columns,
        indexes,
    };
    assert(r@.columns =~= st_columns_model().columns);
    assert(r@.indexes =~= st_columns_model().indexes);
    r
}

/// What the schema of the table of sequences is.
pub open spec fn st_sequences_model() -> SchemaModel {
    SchemaModel {
        table_id: ST_SEQUENCES_ID,
        table_name: "st_sequence"@,
        columns: seq![
            system_column(ST_SEQUENCES_ID, 0, "sequence_id"@, Type::U32, true),
            system_column(ST_SEQUENCES_ID, 1, "sequence_name"@, Type::String, false),
            system_column(ST_SEQUENCES_ID, 2, "table_id"@, Type::U32, false),
            system_column(ST_SEQUENCES_ID, 3, "col_id"@, Type::U32, false),
            system_column(ST_SEQUENCES_ID, 4, "increment"@, Type::I128, false),
            system_column(ST_SEQUENCES_ID, 5, "start"@, Type::I128, false),
            system_column(ST_SEQUENCES_ID, 6, "min_value"@, Type::I128, false),
            system_column(ST_SEQUENCES_ID, 7, "max_malue"@, Type::I128, false),
            system_column(ST_SEQUENCES_ID, 8, "allocated"@, Type::I128, false),
        ],
        indexes: seq![
            system_index(2, ST_SEQUENCES_ID, 0, "sequences_id_idx"@),
        ],
    }
}

/// The schema of the table of sequences.
pub fn st_sequences_schema() -> (r: TableSchema)
    ensures
        r@ == st_sequences_model(),
{
    let columns = vec![
        column(ST_SEQUENCES_ID, 0, "sequence_id", AlgebraicType::U32, true),
        column(ST_SEQUENCES_ID, 1, "sequence_name", AlgebraicType::String, false),
        column(ST_SEQUENCES_ID, 2, "table_id", AlgebraicType::U32, false),
        column(ST_SEQUENCES_ID, 3, "col_id", AlgebraicType::U32, false),
        column(ST_SEQUENCES_ID, 4, "increment", AlgebraicType::I128, false),
        column(ST_SEQUENCES_ID, 5, "start", AlgebraicType::I128, false),
        column(ST_SEQUENCES_ID, 6, "min_value", AlgebraicType::I128, false),
        column(ST_SEQUENCES_ID, 7, "max_malue", AlgebraicType::I128, false),
        column(ST_SEQUENCES_ID, 8, "allocated", AlgebraicType::I128, false),
    ];
    let indexes = vec![
        unique_index(2, ST_SEQUENCES_ID, 0, "sequences_id_idx"),
    ];
    let r = TableSchema {
        table_id: ST_SEQUENCES_ID,
        table_name: "st_sequence".to_owned(),
        columns,
        indexes,
    };
    assert(r@.columns =~= st_sequences_model().columns);
    assert(r@.indexes =~= st_sequences_model().indexes);
    r
}

/// What the schema of the table of indexes is.
pub open spec fn st_indexes_model() -> SchemaModel {
    SchemaModel {
        table_id: ST_INDEXES_ID,
        table_name: "st_indexes"@,
        columns: seq![
            system_column(ST_INDEXES_ID, 0, "index_id"@, Type::U32, true),
            system_column(ST_INDEXES_ID, 1, "table_id"@, Type::U32, false),
            system_column(ST_INDEXES_ID, 2, "col_id"@, Type::U32, false),
            system_column(ST_INDEXES_ID, 3, "index_name"@, Type::String, false),
            system_column(ST_INDEXES_ID, 4, "is_unique"@, Type::Bool, false),
        ],
        indexes: seq![
            system_index(1, ST_INDEXES_ID, 0, "index_id_idx"@),
        ],
    }
}

/// The schema of the table of indexes.
pub fn st_indexes_schema() -> (r: TableSchema)
    ensures
        r@ == st_indexes_model(),
{
    let columns = vec![
        column(ST_INDEXES_ID, 0, "index_id", AlgebraicType::U32, true),
        column(ST_INDEXES_ID, 1, "table_id", AlgebraicType::U32, false),
        column(ST_INDEXES_ID, 2, "col_id", AlgebraicType::U32, false),
        column(ST_INDEXES_ID, 3, "index_name", AlgebraicType::String, false),
        column(ST_INDEXES_ID, 4, "is_unique", AlgebraicType::Bool, false),
    ];
    let indexes = vec![
        unique_index(1, ST_INDEXES_ID, 0, "index_id_idx"),
    ];
    let r = TableSchema {
        table_id: ST_INDEXES_ID,
        table_name: "st_indexes".to_owned(),
        columns,
        indexes,
    };
    assert(r@.columns =~= st_indexes_model().columns);
    assert(r@.indexes =~= st_indexes_model().indexes);
    r
}

/// What the type of the rows of the table of tables is: the id and the name.
pub open spec fn st_table_row_type_model() -> RowType {
    seq![(None::<Seq<char>>, Type::U32), (None::<Seq<char>>, Type::String)]
}

/// The type of the rows of the table of tables.
pub fn st_table_row_type() -> (r: ProductType)
    ensures
        r@ == st_table_row_type_model(),
{
    let elements = vec![
        ProductTypeElement { name: None, algebraic_type: AlgebraicType::U32 },
        ProductTypeElement { name: None, algebraic_type: AlgebraicType::String },
    ];
    let r = ProductType { elements };
    assert(r@ =~= st_table_row_type_model());
    r
}

} // verus!
