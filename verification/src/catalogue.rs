//! Reading the catalogue: schemas, row types, names and ids.

use vstd::prelude::*;

use crate::datastore::{outcome, outcome_option, Inner};
use crate::error::{DBError, TableError};
use crate::ids::{
    IndexId, SequenceId, TableId, ST_COLUMNS_ID, ST_INDEXES_ID, ST_SEQUENCES_ID, ST_TABLES_ID,
};
use crate::iter::rows_read;
use crate::model::{by_col_id, columns_of_rows, indexes_of_rows, insert_by_col_id};
use crate::schema::{
    columns_model, indexes_model, ColumnModel, ColumnSchema, IndexSchema, TableSchema,
};
use crate::system_tables::{StColumnRow, StIndexRow, StTableRow};
use crate::types::ProductType;
use crate::value::{AlgebraicValue, ProductValue};

verus! {

/// Where a column goes among others.
proof fn lemma_insert_by_col_id(s: Seq<ColumnModel>, x: ColumnModel, p: int)
    requires
        0 <= p <= s.len(),
        forall|j: int| p <= j < s.len() ==> x.col_id < (#[trigger] s[j]).col_id,
        p > 0 ==> s[p - 1].col_id <= x.col_id,
    ensures
        insert_by_col_id(s, x) == s.insert(p, x),
    decreases s.len(),
{
    if p == s.len() {
        assert(s.insert(p, x) =~= s.push(x));
    } else {
        lemma_insert_by_col_id(s.drop_last(), x, p);
        assert(s.insert(p, x) =~= s.drop_last().insert(p, x).push(s.last()));
    }
}

/// `cols` in the order of their ids, those of one id as they came.
fn sort_by_col_id(cols: Vec<ColumnSchema>) -> (r: Vec<ColumnSchema>)
    ensures
        columns_model(r@) == by_col_id(columns_model(cols@)),
{
    let ghost all = columns_model(cols@);
    let mut sorted: Vec<ColumnSchema> = Vec::new();
    assert(columns_model(sorted@) =~= by_col_id(all.take(0)));
    let n: usize = cols.len();
    for i in 0..n
        invariant
            n == cols@.len(),
            all == columns_model(cols@),
            columns_model(sorted@) == by_col_id(all.take(i as int)),
    {
        let col = cols[i].clone();
        let ghost s = columns_model(sorted@);
        let ghost x = col@;
        let mut p: usize = sorted.len();
        while p > 0 && sorted[p - 1].col_id > col.col_id
            invariant
                p <= sorted@.len(),
                s == columns_model(sorted@),
                x == col@,
                forall|j: int| p <= j < s.len() ==> x.col_id < (#[trigger] s[j]).col_id,
            decreases p,
        {
            assert(s[p - 1] == sorted@[p - 1]@);
            p = p - 1;
        }
        let ghost before = sorted@;
        sorted.insert(p, col);
        proof {
            if p > 0 {
                assert(s[p - 1] == before[p - 1]@);
            }
            lemma_insert_by_col_id(s, x, p as int);
            assert(columns_model(sorted@) =~= s.insert(p as int, x));
            assert(all.take(i + 1).drop_last() =~= all.take(i as int));
            assert(all.take(i + 1).last() == x);
        }
    }
    assert(all.take(all.len() as int) =~= all);
    sorted
}

/// The columns that `rows` describe.
fn read_columns(rows: &Vec<ProductValue>) -> (r: Result<Vec<ColumnSchema>, DBError>)
    ensures
        match (r, columns_of_rows(rows_read(rows@))) {
            (Ok(cols), Ok(m)) => columns_model(cols@) == m,
            (Err(e), Err(f)) => e@ == f,
            _ => false,
        },
{
    let ghost all = rows_read(rows@);
    let mut cols: Vec<ColumnSchema> = Vec::new();
    assert(columns_model(cols@) =~= Seq::<ColumnModel>::empty());
    let n: usize = rows.len();
    for i in 0..n
        invariant
            n == rows@.len(),
            all == rows_read(rows@),
            columns_of_rows(all.take(i as int)) is Ok,
            columns_model(cols@) == columns_of_rows(all.take(i as int))->Ok_0,
    {
        let ghost before = cols@;
        proof {
            assert(all.take(i + 1).drop_last() =~= all.take(i as int));
            assert(all.take(i + 1).last() == rows@[i as int]@);
        }
        match StColumnRow::try_from(&rows[i]) {
            Ok(el) => {
                let ghost c = el@;
                cols.push(
                    ColumnSchema {
                        table_id: el.table_id,
                        col_id: el.col_id,
                        col_name: el.col_name,
                        col_type: el.col_type,
                        is_autoinc: el.is_autoinc,
                    },
                );
                assert(columns_model(cols@) =~= columns_model(before).push(c));
            },
            Err(e) => {
                proof {
                    lemma_columns_err(all, i + 1);
                }
                return Err(e);
            },
        }
    }
    assert(all.take(all.len() as int) =~= all);
    Ok(cols)
}

/// What cannot be read from the beginning of `rows` cannot be read from all of them.
proof fn lemma_columns_err(rows: Seq<crate::value::Row>, n: int)
    requires
        0 <= n <= rows.len(),
        columns_of_rows(rows.take(n)) is Err,
    ensures
        columns_of_rows(rows) == columns_of_rows(rows.take(n)),
    decreases rows.len() - n,
{
    if n < rows.len() {
        assert(rows.take(n + 1).drop_last() =~= rows.take(n));
        lemma_columns_err(rows, n + 1);
    } else {
        assert(rows.take(n) =~= rows);
    }
}

/// The indexes that `rows` describe.
fn read_indexes(rows: &Vec<ProductValue>) -> (r: Result<Vec<IndexSchema>, DBError>)
    ensures
        match (r, indexes_of_rows(rows_read(rows@))) {
            (Ok(indexes), Ok(m)) => indexes_model(indexes@) == m,
            (Err(e), Err(f)) => e@ == f,
            _ => false,
        },
{
    let ghost all = rows_read(rows@);
    let mut indexes: Vec<IndexSchema> = Vec::new();
    assert(indexes_model(indexes@) =~= Seq::empty());
    let n: usize = rows.len();
    for i in 0..n
        invariant
            n == rows@.len(),
            all == rows_read(rows@),
            indexes_of_rows(all.take(i as int)) is Ok,
            indexes_model(indexes@) == indexes_of_rows(all.take(i as int))->Ok_0,
    {
        let ghost before = indexes@;
        proof {
            assert(all.take(i + 1).drop_last() =~= all.take(i as int));
            assert(all.take(i + 1).last() == rows@[i as int]@);
        }
        match StIndexRow::try_from(&rows[i]) {
            Ok(el) => {
                let ghost c = el@;
                indexes.push(
                    IndexSchema {
                        index_id: el.index_id,
                        table_id: el.table_id,
                        col_id: el.col_id,
                        index_name: el.index_name,
                        is_unique: el.is_unique,
                    },
                );
                assert(indexes_model(indexes@) =~= indexes_model(before).push(c));
            },
            Err(e) => {
                proof {
                    lemma_indexes_err(all, i + 1);
                }
                return Err(e);
            },
        }
    }
    assert(all.take(all.len() as int) =~= all);
    Ok(indexes)
}

/// What cannot be read from the beginning of `rows` cannot be read from all of them.
proof fn lemma_indexes_err(rows: Seq<crate::value::Row>, n: int)
    requires
        0 <= n <= rows.len(),
        indexes_of_rows(rows.take(n)) is Err,
    ensures
        indexes_of_rows(rows) == indexes_of_rows(rows.take(n)),
    decreases rows.len() - n,
{
    if n < rows.len() {
        assert(rows.take(n + 1).drop_last() =~= rows.take(n));
        lemma_indexes_err(rows, n + 1);
    } else {
        assert(rows.take(n) =~= rows);
    }
}

impl Inner {
    /// The schema of the table of which `el` is the row in the table of tables.
    fn schema_of_columns(&self, el: StTableRow) -> (r: Result<TableSchema, DBError>)
        requires
            self.in_tx(),
        ensures
            outcome(r) == self@.schema_of_columns(el@),
    {
        let table_id: u32 = el.table_id;
        let columns = match self.seek_rows(ST_COLUMNS_ID, 0, &AlgebraicValue::U32(table_id)) {
            Ok(rows) => match read_columns(&rows) {
                Ok(columns) => sort_by_col_id(columns),
                Err(e) => {
                    return Err(e);
                },
            },
            Err(e) => {
                return Err(e);
            },
        };
        let indexes = match self.seek_rows(ST_INDEXES_ID, 1, &AlgebraicValue::U32(table_id)) {
            Ok(rows) => match read_indexes(&rows) {
                Ok(indexes) => indexes,
                Err(e) => {
                    return Err(e);
                },
            },
            Err(e) => {
                return Err(e);
            },
        };
        Ok(TableSchema { table_id, table_name: el.table_name, columns, indexes })
    }

    /// The schema of a table: that in memory, or else that in the catalogue.
    pub(crate) fn schema_for_table(&self, table_id: TableId) -> (r: Result<TableSchema, DBError>)
        requires
            self.in_tx(),
        ensures
            outcome(r) == self@.schema_for_table(table_id.0),
    {
        match self.get_schema(&table_id) {
            Some(schema) => {
                return Ok(schema);
            },
            None => {},
        }
        match self.seek_rows(ST_TABLES_ID, 0, &AlgebraicValue::U32(table_id.0)) {
            Ok(rows) => {
                assert(rows_read(rows@).len() == rows@.len());
                if rows.len() == 0 {
                    return Err(DBError::Table(TableError::IdNotFound(table_id.0)));
                }
                assert(rows_read(rows@)[0] == rows@[0]@);
                match StTableRow::try_from(&rows[0]) {
                    Ok(el) => self.schema_of_columns(el),
                    Err(e) => Err(e),
                }
            },
            Err(e) => Err(e),
        }
    }

    /// The row type of a table: that in memory, or else that of the catalogue's columns.
    pub(crate) fn row_type_for_table(&self, table_id: TableId) -> (r: Result<
        ProductType,
        DBError,
    >)
        requires
            self.in_tx(),
        ensures
            outcome(r) == self@.row_type_for_table(table_id.0),
    {
        match self.get_row_type(&table_id) {
            Some(row_type) => {
                return Ok(row_type.clone());
            },
            None => {},
        }
        match self.schema_for_table(table_id) {
            Ok(schema) => Ok(schema.get_row_type()),
            Err(e) => Err(e),
        }
    }

    /// The id in the first row of a catalogue table with `name` in a column.
    fn id_from_name(&self, table_id: u32, col_id: u32, name: &str) -> (r: Result<
        Option<u32>,
        DBError,
    >)
        requires
            self.in_tx(),
        ensures
            outcome_option(r) == self@.id_from_name(table_id, col_id, name@),
    {
        match self.seek_rows(table_id, col_id, &AlgebraicValue::String(name.to_owned())) {
            Ok(rows) => {
                assert(rows_read(rows@).len() == rows@.len());
                if rows.len() == 0 {
                    return Ok(None);
                }
                assert(rows_read(rows@)[0] == rows@[0]@);
                match rows[0].u32_at(0) {
                    Ok(id) => Ok(Some(id)),
                    Err(e) => Err(e),
                }
            },
            Err(e) => Err(e),
        }
    }

    pub(crate) fn table_id_from_name(&self, table_name: &str) -> (r: Result<
        Option<TableId>,
        DBError,
    >)
        requires
            self.in_tx(),
        ensures
            outcome_option(r) == self@.table_id_from_name(table_name@),
    {
        match self.id_from_name(ST_TABLES_ID, 1, table_name) {
            Ok(Some(id)) => Ok(Some(TableId(id))),
            Ok(None) => Ok(None),
            Err(e) => Err(e),
        }
    }

    pub(crate) fn index_id_from_name(&self, index_name: &str) -> (r: Result<
        Option<IndexId>,
        DBError,
    >)
        requires
            self.in_tx(),
        ensures
            outcome_option(r) == self@.index_id_from_name(index_name@),
    {
        match self.id_from_name(ST_INDEXES_ID, 3, index_name) {
            Ok(Some(id)) => Ok(Some(IndexId(id))),
            Ok(None) => Ok(None),
            Err(e) => Err(e),
        }
    }

    pub(crate) fn sequence_id_from_name(&self, seq_name: &str) -> (r: Result<
        Option<SequenceId>,
        DBError,
    >)
        requires
            self.in_tx(),
        ensures
            outcome_option(r) == self@.sequence_id_from_name(seq_name@),
    {
        match self.id_from_name(ST_SEQUENCES_ID, 1, seq_name) {
            Ok(Some(id)) => Ok(Some(SequenceId(id))),
            Ok(None) => Ok(None),
            Err(e) => Err(e),
        }
    }

    pub(crate) fn table_name_from_id(&self, table_id: TableId) -> (r: Result<
        Option<String>,
        DBError,
    >)
        requires
            self.in_tx(),
        ensures
            outcome_option(r) == self@.table_name_from_id(table_id.0),
    {
        match self.seek_rows(ST_TABLES_ID, 0, &AlgebraicValue::U32(table_id.0)) {
            Ok(rows) => {
                assert(rows_read(rows@).len() == rows@.len());
                if rows.len() == 0 {
                    return Ok(None);
                }
                assert(rows_read(rows@)[0] == rows@[0]@);
                match rows[0].string_at(1) {
                    Ok(name) => Ok(Some(name)),
                    Err(e) => Err(e),
                }
            },
            Err(e) => Err(e),
        }
    }
}

} // verus!
