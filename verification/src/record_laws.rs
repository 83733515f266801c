//! What holds of the records of the catalogue: their places in rows, and what they are made with.

use vstd::prelude::*;

use crate::error::{sequence_error_text, DBError, Fault, IndexError, SequenceError, TableError};
use crate::ids::{
    IndexId, SequenceId, TableId, INDEX_ID_SEQUENCE_ID, SEQUENCE_ID_SEQUENCE_ID, ST_COLUMNS_ID,
    ST_INDEXES_ID, ST_SEQUENCES_ID, ST_TABLES_ID, TABLE_ID_SEQUENCE_ID,
};
use crate::messages::{Transaction, Write};
use crate::model::{column_sequence, listed_column, new_index, new_sequence};
use crate::schema::{
    ColumnDef, ColumnDefModel, ColumnModel, ColumnSchema, IndexDef, IndexDefModel, IndexSchema,
    IndexSchemaModel, SequenceDef, SequenceDefModel, TableDef, TableSchema,
};
use crate::sequence::{SequenceModel, SequenceSchema};
use crate::system_tables::{
    StColumnRow, StIndexRow, StSequenceRow, StTableRow, TableRowModel,
};
use crate::text::{decimal_text, signed_text};
use crate::types::{type_bytes, type_of_bytes, AlgebraicType, Type};
use crate::value::{AlgebraicValue, ProductValue, Row, Value};

verus! {

/// Where a row of the table of tables says what.
pub proof fn law_table_row_is_in_its_places(x: TableRowModel)
    ensures
        x.row().len() == 2,
        x.row()[0] == Value::U32(x.table_id),
        x.row()[1] == Value::String(x.table_name),
{
}

/// What is read from a row of the table of tables, place by place, and which place is at fault
/// where it cannot be read: the first that does not hold what belongs there.
pub proof fn law_table_row_is_read_from_its_places(row: Row)
    ensures
        ({
            let r = TableRowModel::of_row(row);
            let g0 = row.len() > 0 && row[0] is U32;
            let g1 = row.len() > 1 && row[1] is String;
            &&& r is Ok <==> g0 && g1
            &&& !g0 ==> r == Err::<TableRowModel, Fault>(
                Fault::InvalidField(0),
            )
            &&& g0 && !g1 ==> r == Err::<TableRowModel, Fault>(
                Fault::InvalidField(1),
            )
            &&& r matches Ok(x) ==> {
                &&& row[0] == Value::U32(x.table_id)
                &&& row[1] == Value::String(x.table_name)
            }
        }),
{
}

/// Where a row of the table of columns says what.
pub proof fn law_column_row_is_in_its_places(x: ColumnModel)
    ensures
        x.row().len() == 5,
        x.row()[0] == Value::U32(x.table_id),
        x.row()[1] == Value::U32(x.col_id),
        x.row()[2] == Value::Bytes(type_bytes(x.col_type)),
        x.row()[3] == Value::String(x.col_name),
        x.row()[4] == Value::Bool(x.is_autoinc),
{
}

/// What is read from a row of the table of columns, place by place, and which place is at fault
/// where it cannot be read: the first that does not hold what belongs there.
pub proof fn law_column_row_is_read_from_its_places(row: Row)
    ensures
        ({
            let r = ColumnModel::of_row(row);
            let g0 = row.len() > 0 && row[0] is U32;
            let g1 = row.len() > 1 && row[1] is U32;
            let g2 = row.len() > 2 && row[2] is Bytes && type_of_bytes(row[2]->Bytes_0) is Some;
            let g3 = row.len() > 3 && row[3] is String;
            let g4 = row.len() > 4 && row[4] is Bool;
            &&& r is Ok <==> g0 && g1 && g2 && g3 && g4
            &&& !g0 ==> r == Err::<ColumnModel, Fault>(
                Fault::InvalidField(0),
            )
            &&& g0 && !g1 ==> r == Err::<ColumnModel, Fault>(
                Fault::InvalidField(1),
            )
            &&& g0 && g1 && !g2 ==> r == Err::<ColumnModel, Fault>(
                Fault::InvalidField(2),
            )
            &&& g0 && g1 && g2 && !g3 ==> r == Err::<ColumnModel, Fault>(
                Fault::InvalidField(3),
            )
            &&& g0 && g1 && g2 && g3 && !g4 ==> r == Err::<ColumnModel, Fault>(
                Fault::InvalidField(4),
            )
            &&& r matches Ok(x) ==> {
                &&& row[0] == Value::U32(x.table_id)
                &&& row[1] == Value::U32(x.col_id)
                &&& Some(x.col_type) == type_of_bytes(row[2]->Bytes_0)
                &&& row[3] == Value::String(x.col_name)
                &&& row[4] == Value::Bool(x.is_autoinc)
            }
        }),
{
}

/// Where a row of the table of indexes says what.
pub proof fn law_index_row_is_in_its_places(x: IndexSchemaModel)
    ensures
        x.row().len() == 5,
        x.row()[0] == Value::U32(x.index_id),
        x.row()[1] == Value::U32(x.table_id),
        x.row()[2] == Value::U32(x.col_id),
        x.row()[3] == Value::String(x.index_name),
        x.row()[4] == Value::Bool(x.is_unique),
{
}

/// What is read from a row of the table of indexes, place by place, and which place is at fault
/// where it cannot be read: the first that does not hold what belongs there.
pub proof fn law_index_row_is_read_from_its_places(row: Row)
    ensures
        ({
            let r = IndexSchemaModel::of_row(row);
            let g0 = row.len() > 0 && row[0] is U32;
            let g1 = row.len() > 1 && row[1] is U32;
            let g2 = row.len() > 2 && row[2] is U32;
            let g3 = row.len() > 3 && row[3] is String;
            let g4 = row.len() > 4 && row[4] is Bool;
            &&& r is Ok <==> g0 && g1 && g2 && g3 && g4
            &&& !g0 ==> r == Err::<IndexSchemaModel, Fault>(
                Fault::InvalidField(0),
            )
            &&& g0 && !g1 ==> r == Err::<IndexSchemaModel, Fault>(
                Fault::InvalidField(1),
            )
            &&& g0 && g1 && !g2 ==> r == Err::<IndexSchemaModel, Fault>(
                Fault::InvalidField(2),
            )
            &&& g0 && g1 && g2 && !g3 ==> r == Err::<IndexSchemaModel, Fault>(
                Fault::InvalidField(3),
            )
            &&& g0 && g1 && g2 && g3 && !g4 ==> r == Err::<IndexSchemaModel, Fault>(
                Fault::InvalidField(4),
            )
            &&& r matches Ok(x) ==> {
                &&& row[0] == Value::U32(x.index_id)
                &&& row[1] == Value::U32(x.table_id)
                &&& row[2] == Value::U32(x.col_id)
                &&& row[3] == Value::String(x.index_name)
                &&& row[4] == Value::Bool(x.is_unique)
            }
        }),
{
}

/// Where a row of the table of sequences says what.
pub proof fn law_sequence_row_is_in_its_places(x: SequenceModel)
    ensures
        x.row().len() == 9,
        x.row()[0] == Value::U32(x.sequence_id),
        x.row()[1] == Value::String(x.sequence_name),
        x.row()[2] == Value::U32(x.table_id),
        x.row()[3] == Value::U32(x.col_id),
        x.row()[4] == Value::I128(x.increment),
        x.row()[5] == Value::I128(x.start),
        x.row()[6] == Value::I128(x.min_value),
        x.row()[7] == Value::I128(x.max_value),
        x.row()[8] == Value::I128(x.allocated),
{
}

/// What is read from a row of the table of sequences, place by place, and which place is at fault
/// where it cannot be read: the first that does not hold what belongs there.
pub proof fn law_sequence_row_is_read_from_its_places(row: Row)
    ensures
        ({
            let r = SequenceModel::of_row(row);
            let g0 = row.len() > 0 && row[0] is U32;
            let g1 = row.len() > 1 && row[1] is String;
            let g2 = row.len() > 2 && row[2] is U32;
            let g3 = row.len() > 3 && row[3] is U32;
            let g4 = row.len() > 4 && row[4] is I128;
            let g5 = row.len() > 5 && row[5] is I128;
            let g6 = row.len() > 6 && row[6] is I128;
            let g7 = row.len() > 7 && row[7] is I128;
            let g8 = row.len() > 8 && row[8] is I128;
            &&& r is Ok <==> g0 && g1 && g2 && g3 && g4 && g5 && g6 && g7 && g8
            &&& !g0 ==> r == Err::<SequenceModel, Fault>(
                Fault::InvalidField(0),
            )
            &&& g0 && !g1 ==> r == Err::<SequenceModel, Fault>(
                Fault::InvalidField(1),
            )
            &&& g0 && g1 && !g2 ==> r == Err::<SequenceModel, Fault>(
                Fault::InvalidField(2),
            )
            &&& g0 && g1 && g2 && !g3 ==> r == Err::<SequenceModel, Fault>(
                Fault::InvalidField(3),
            )
            &&& g0 && g1 && g2 && g3 && !g4 ==> r == Err::<SequenceModel, Fault>(
                Fault::InvalidField(4),
            )
            &&& g0 && g1 && g2 && g3 && g4 && !g5 ==> r == Err::<SequenceModel, Fault>(
                Fault::InvalidField(5),
            )
            &&& g0 && g1 && g2 && g3 && g4 && g5 && !g6 ==> r == Err::<SequenceModel, Fault>(
                Fault::InvalidField(6),
            )
            &&& g0 && g1 && g2 && g3 && g4 && g5 && g6 && !g7 ==> r == Err::<SequenceModel, Fault>(
                Fault::InvalidField(7),
            )
            &&& g0 && g1 && g2 && g3 && g4 && g5 && g6 && g7 && !g8 ==> r ==
                Err::<SequenceModel, Fault>(
                Fault::InvalidField(8),
            )
            &&& r matches Ok(x) ==> {
                &&& row[0] == Value::U32(x.sequence_id)
                &&& row[1] == Value::String(x.sequence_name)
                &&& row[2] == Value::U32(x.table_id)
                &&& row[3] == Value::U32(x.col_id)
                &&& row[4] == Value::I128(x.increment)
                &&& row[5] == Value::I128(x.start)
                &&& row[6] == Value::I128(x.min_value)
                &&& row[7] == Value::I128(x.max_value)
                &&& row[8] == Value::I128(x.allocated)
                &&& x.value == x.start
            }
        }),
{
}

/// A row of the table of tables says what it was made with.
pub proof fn law_table_row_says_what_it_was_made_with(x: StTableRow)
    ensures
        x@.table_id == x.table_id,
        x@.table_name == x.table_name@,
{
}

/// A row of the table of columns says what it was made with.
pub proof fn law_column_row_says_what_it_was_made_with(x: StColumnRow)
    ensures
        x@.table_id == x.table_id,
        x@.col_id == x.col_id,
        x@.col_name == x.col_name@,
        x@.col_type == x.col_type@,
        x@.is_autoinc == x.is_autoinc,
{
}

/// A row of the table of indexes says what it was made with.
pub proof fn law_index_row_says_what_it_was_made_with(x: StIndexRow)
    ensures
        x@.index_id == x.index_id,
        x@.table_id == x.table_id,
        x@.col_id == x.col_id,
        x@.index_name == x.index_name@,
        x@.is_unique == x.is_unique,
{
}

/// A row of the table of sequences says what it was made with, and what it describes begins with
/// its start.
pub proof fn law_sequence_row_says_what_it_was_made_with(x: StSequenceRow)
    ensures
        x@.sequence_id == x.sequence_id,
        x@.sequence_name == x.sequence_name@,
        x@.table_id == x.table_id,
        x@.col_id == x.col_id,
        x@.increment == x.increment,
        x@.start == x.start,
        x@.min_value == x.min_value,
        x@.max_value == x.max_value,
        x@.allocated == x.allocated,
        x@.value == x.start,
{
}

/// A sequence is what it was made with, and begins with its start.
pub proof fn law_sequence_schema_is_what_it_was_made_with(x: SequenceSchema)
    ensures
        x@.sequence_id == x.sequence_id,
        x@.sequence_name == x.sequence_name@,
        x@.table_id == x.table_id,
        x@.col_id == x.col_id,
        x@.increment == x.increment,
        x@.start == x.start,
        x@.min_value == x.min_value,
        x@.max_value == x.max_value,
        x@.allocated == x.allocated,
        x@.value == x.start,
{
}

/// A column to be created is what it was made with.
pub proof fn law_column_def_is_what_it_was_made_with(x: ColumnDef)
    ensures
        x@.col_name == x.col_name@,
        x@.col_type == x.col_type@,
        x@.is_autoinc == x.is_autoinc,
{
}

/// An index to be created is what it was made with.
pub proof fn law_index_def_is_what_it_was_made_with(x: IndexDef)
    ensures
        x@.table_id == x.table_id,
        x@.col_id == x.col_id,
        x@.name == x.name@,
        x@.is_unique == x.is_unique,
{
}

/// A sequence to be created is what it was made with.
pub proof fn law_sequence_def_is_what_it_was_made_with(x: SequenceDef)
    ensures
        x@.sequence_name == x.sequence_name@,
        x@.table_id == x.table_id,
        x@.col_id == x.col_id,
        x@.increment == x.increment,
        x@.start == x.start,
        x@.min_value == x.min_value,
        x@.max_value == x.max_value,
{
}

/// A column is what it was made with.
pub proof fn law_column_is_what_it_was_made_with(x: ColumnSchema)
    ensures
        x@.table_id == x.table_id,
        x@.col_id == x.col_id,
        x@.col_name == x.col_name@,
        x@.col_type == x.col_type@,
        x@.is_autoinc == x.is_autoinc,
{
}

/// An index is what it was made with.
pub proof fn law_index_is_what_it_was_made_with(x: IndexSchema)
    ensures
        x@.index_id == x.index_id,
        x@.table_id == x.table_id,
        x@.col_id == x.col_id,
        x@.index_name == x.index_name@,
        x@.is_unique == x.is_unique,
{
}

/// A table to be created is what it was made with, column by column and index by index, and its
/// rows have the types of its columns, unnamed.
pub proof fn law_table_def_is_what_it_was_made_with(x: TableDef)
    ensures
        x@.table_name == x.table_name@,
        x@.columns.len() == x.columns@.len(),
        forall|i: int| 0 <= i < x.columns@.len() ==> #[trigger] x@.columns[i] == x.columns@[i]@,
        x@.indexes.len() == x.indexes@.len(),
        forall|i: int| 0 <= i < x.indexes@.len() ==> #[trigger] x@.indexes[i] == x.indexes@[i]@,
        x@.row_type().len() == x.columns@.len(),
        forall|i: int|
            0 <= i < x.columns@.len() ==> #[trigger] x@.row_type()[i] == (
                None::<Seq<char>>,
                x.columns@[i].col_type@,
            ),
{
}

/// The schema of a table is what it was made with, column by column and index by index, and the
/// rows have the types of the columns, unnamed.
pub proof fn law_table_schema_is_what_it_was_made_with(x: TableSchema, c: u32)
    ensures
        x@.table_id == x.table_id,
        x@.table_name == x.table_name@,
        x@.columns.len() == x.columns@.len(),
        forall|i: int| 0 <= i < x.columns@.len() ==> #[trigger] x@.columns[i] == x.columns@[i]@,
        x@.indexes.len() == x.indexes@.len(),
        forall|i: int| 0 <= i < x.indexes@.len() ==> #[trigger] x@.indexes[i] == x.indexes@[i]@,
        x@.row_type().len() == x.columns@.len(),
        forall|i: int|
            0 <= i < x.columns@.len() ==> #[trigger] x@.row_type()[i] == (
                None::<Seq<char>>,
                x.columns@[i].col_type@,
            ),
        c < x.columns@.len() ==> x@.col_name(c) == x.columns@[c as int].col_name@,
        c >= x.columns@.len() ==> x@.col_name(c) == Seq::<char>::empty(),
{
}

/// A write says what it was made with, and a transaction is its writes, in their order.
pub proof fn law_write_says_what_it_was_made_with(w: Write, tx: Transaction)
    ensures
        w@.operation == w.operation,
        w@.set_id == w.set_id,
        w@.data_key == w.data_key@,
        tx@.len() == tx.writes@.len(),
        forall|i: int| 0 <= i < tx.writes@.len() ==> #[trigger] tx@[i] == tx.writes@[i]@,
{
}

/// An id is its number, and the ids of the system tables and of their sequences are fixed.
pub proof fn law_ids_are_numbers(n: u32)
    ensures
        TableId(n)@ == n,
        IndexId(n)@ == n,
        SequenceId(n)@ == n,
        ST_TABLES_ID == 0,
        ST_COLUMNS_ID == 1,
        ST_SEQUENCES_ID == 2,
        ST_INDEXES_ID == 3,
        TABLE_ID_SEQUENCE_ID == 0,
        SEQUENCE_ID_SEQUENCE_ID == 1,
        INDEX_ID_SEQUENCE_ID == 2,
{
}

/// A definition is listed as it is: a column under the id of its table and its own, an index under
/// the id that it is given. The sequence of a column is named after the table and the column, and
/// counts up from one, one by one.
pub proof fn law_definitions_are_listed_as_they_are(
    t: u32,
    table_name: Seq<char>,
    id: u32,
    col: ColumnDefModel,
    index: IndexDefModel,
)
    ensures
        ({
            let x = listed_column(t, id, col);
            &&& x.table_id == t
            &&& x.col_id == id
            &&& x.col_name == col.col_name
            &&& x.col_type == col.col_type
            &&& x.is_autoinc == col.is_autoinc
        }),
        ({
            let x = new_index(id, index);
            &&& x.index_id == id
            &&& x.table_id == index.table_id
            &&& x.col_id == index.col_id
            &&& x.index_name == index.name
            &&& x.is_unique == index.is_unique
        }),
        ({
            let x = column_sequence(t, table_name, id, col);
            &&& x.sequence_name == table_name + "_"@ + col.col_name + "_seq"@
            &&& x.table_id == t
            &&& x.col_id == id
            &&& x.increment == 1
            &&& x.start == Some(1i128)
            &&& x.min_value == Some(1i128)
            &&& x.max_value is None
        }),
{
    reveal_strlit("_");
    assert("_"@ =~= seq!['_']);
}

/// A sequence that is made is what its definition says. What the definition leaves open is one for
/// the start and for the least number, and the widest there is for the greatest. Nothing is
/// allocated to it, and it begins with its start.
pub proof fn law_new_sequence_is_as_defined(def: SequenceDefModel)
    ensures
        ({
            let q = new_sequence(def);
            &&& q.sequence_id == 0
            &&& q.sequence_name == def.sequence_name
            &&& q.table_id == def.table_id
            &&& q.col_id == def.col_id
            &&& q.increment == def.increment
            &&& q.start == if def.start is Some { def.start->Some_0 } else { 1 }
            &&& q.min_value == if def.min_value is Some { def.min_value->Some_0 } else { 1 }
            &&& q.max_value == if def.max_value is Some {
                def.max_value->Some_0
            } else {
                0x7fff_ffff_ffff_ffff_ffff_ffff_ffff_ffff
            }
            &&& q.allocated == 0
            &&& q.value == q.start
        }),
{
}

/// An error says what it was made with.
pub proof fn law_error_says_what_it_was_made_with(
    n: u32,
    c: u32,
    a: i128,
    b: i128,
    s: String,
    p: String,
    q: String,
    ty: AlgebraicType,
    v: AlgebraicValue,
    row: ProductValue,
    e: SequenceError,
)
    ensures
        SequenceError::Exist(s)@ == Fault::SequenceExist(s@),
        SequenceError::IncrementIsZero(s)@ == Fault::IncrementIsZero(s@),
        SequenceError::MinMax(s, a, b)@ == Fault::MinMax(s@, a, b),
        SequenceError::MinStart(s, a, b)@ == Fault::MinStart(s@, a, b),
        SequenceError::MaxStart(s, a, b)@ == Fault::MaxStart(s@, a, b),
        SequenceError::SequenceValue(s)@ == Fault::SequenceValue(s@),
        SequenceError::NotFound(n)@ == Fault::SequenceNotFound(n),
        (SequenceError::NotInteger { col: s, found: ty })@ == (Fault::NotInteger {
            col: s@,
            found: ty@,
        }),
        SequenceError::UnableToAllocate(n)@ == Fault::UnableToAllocate(n),
        DBError::Table(TableError::IdNotFound(n))@ == Fault::TableIdNotFound(n),
        DBError::Table(TableError::IdTaken(n))@ == Fault::TableIdTaken(n),
        DBError::Table(TableError::RowInvalidType { table_id: n, row })@ == (
        Fault::RowInvalidType { table_id: n, row: row@ }),
        DBError::Index(IndexError::Exist(s))@ == Fault::IndexExist(s@),
        DBError::Index(IndexError::ColumnIndexed { table_id: n, col_id: c })@ == (
        Fault::ColumnIndexed { table_id: n, col_id: c }),
        DBError::Index(IndexError::NotUnique { index_name: s, table_id: n, col_id: c })@ == (
        Fault::NotUnique { index_name: s@, table_id: n, col_id: c }),
        DBError::Index(
            IndexError::UniqueConstraintViolation {
                constraint_name: s,
                table_name: p,
                col_name: q,
                value: v,
            },
        )@ == (Fault::UniqueConstraintViolation {
            constraint_name: s@,
            table_name: p@,
            col_name: q@,
            value: v@,
        }),
        DBError::Sequence(e)@ == e@,
        DBError::InvalidField(c)@ == Fault::InvalidField(c),
{
}

/// What is said of each error of a sequence, with the name or the id and the numbers that it is
/// about.
pub proof fn law_words_for_sequence_errors(
    s: Seq<char>,
    a: i128,
    b: i128,
    n: u32,
    ty: Type,
)
    ensures
        sequence_error_text(Fault::SequenceExist(s)) == "Sequence with name `"@ + s
            + "` already exists."@,
        sequence_error_text(Fault::IncrementIsZero(s)) == "Sequence `"@ + s
            + "`: The increment is 0, and this means the sequence can't advance."@,
        sequence_error_text(Fault::MinMax(s, a, b)) == "Sequence `"@ + s + "`: The min_value "@
            + signed_text(a as int) + " must < max_value "@ + signed_text(b as int) + "."@,
        sequence_error_text(Fault::MinStart(s, a, b)) == "Sequence `"@ + s
            + "`: The start value "@ + signed_text(a as int) + " must be >= min_value "@
            + signed_text(b as int) + "."@,
        sequence_error_text(Fault::MaxStart(s, a, b)) == "Sequence `"@ + s
            + "`: The start value "@ + signed_text(a as int) + " must be <= min_value "@
            + signed_text(b as int) + "."@,
        sequence_error_text(Fault::SequenceValue(s)) == "Sequence `"@ + s
            + "` failed to decode value from Sled (not a u128)."@,
        sequence_error_text(Fault::SequenceNotFound(n)) == "Sequence ID `"@ + decimal_text(
            n as nat,
        ) + "` not found."@,
        sequence_error_text(Fault::NotInteger { col: s, found: ty })
            == "Sequence applied to a non-integer field. Column `"@ + s
            + "` is of type {found.to_sats()}."@,
        sequence_error_text(Fault::UnableToAllocate(n)) == "Sequence ID `"@ + decimal_text(
            n as nat,
        ) + "` still had no values left after allocation."@,
{
}

} // verus!
