//! The first state of a datastore: the system tables, which describe themselves.

use vstd::prelude::*;
use vstd::string::StringExecFns;
use vstd::utf8::encode_utf8;

use crate::allocation_laws::{lists, within_allocation};
use crate::btree_index::{
    all_have_column, column_of, one_row_per_value, BTreeIndex, IndexModel,
};
use crate::catalogue_laws::catalogue_in_form;
use crate::data_key::{row_key, Key, RowId};
use crate::datastore::{outcome, Inner};
use crate::error::{DBError, Fault, TableError};
use crate::ids::{
    IndexId, TableId, INDEX_ID_SEQUENCE_ID, SEQUENCE_ID_SEQUENCE_ID, ST_COLUMNS_ID, ST_INDEXES_ID,
    ST_SEQUENCES_ID, ST_TABLES_ID, TABLE_ID_SEQUENCE_ID,
};
use crate::iter::rows_read;
use crate::laws::distinct_values;
use crate::model::{new_table, DbModel};
use crate::ordered::{ascending, in_key_order, lemma_ascending_of_finite, lemma_in_key_order};
use crate::schema::{ColumnModel, IndexSchemaModel, SchemaModel, TableSchema};
use crate::sequence::{Sequence, SequenceModel};
use crate::system_tables::{
    law_index_row_round_trip, law_sequence_row_round_trip, st_columns_model, st_columns_schema,
    st_indexes_model, st_indexes_schema, st_sequences_model, st_sequences_schema, st_table_model,
    st_table_row_type, st_table_row_type_model, st_table_schema, system_index, StColumnRow,
    StIndexRow, StSequenceRow, StTableRow, TableRowModel,
};
use crate::table::{lemma_insert_exact, TableModel};
use crate::types::{ProductType, RowType};
use crate::value::{canonical, encoded, encoded_all, le_bytes, ProductValue, Row, Value};

verus! {

/// How many numbers the sequences of the system tables are allocated at first.
pub const SEQUENCE_PREALLOCATION_AMOUNT: i128 = 4_096;

/// The sequence of an autoincrement column of a system table: its id, and where it starts, past
/// the ids that the system tables themselves take.
pub open spec fn system_sequence(table_id: u32) -> (u32, i128) {
    if table_id == ST_TABLES_ID {
        (TABLE_ID_SEQUENCE_ID, 4)
    } else if table_id == ST_INDEXES_ID {
        (INDEX_ID_SEQUENCE_ID, 4)
    } else {
        (SEQUENCE_ID_SEQUENCE_ID, 3)
    }
}

/// The table has autoincrement columns, and there are sequences for them.
pub open spec fn has_system_sequence(table_id: u32) -> bool {
    table_id == ST_TABLES_ID || table_id == ST_INDEXES_ID || table_id == ST_SEQUENCES_ID
}

/// What the table of sequences lists for an autoincrement column of a system table.
pub open spec fn listed_sequence(table_id: u32, col: ColumnModel) -> SequenceModel {
    SequenceModel {
        sequence_id: system_sequence(table_id).0,
        sequence_name: col.col_name + "_seq"@,
        table_id: col.table_id,
        col_id: col.col_id,
        increment: 1,
        start: system_sequence(table_id).1,
        min_value: 1,
        max_value: u32::MAX as i128,
        allocated: SEQUENCE_PREALLOCATION_AMOUNT,
        value: system_sequence(table_id).1,
    }
}

impl DbModel {
    /// The committed table `t`, or a new one.
    pub open spec fn committed_or_new(
        self,
        t: u32,
        row_type: RowType,
        schema: SchemaModel,
    ) -> TableModel {
        if self.committed.contains_key(t) {
            self.committed[t]
        } else {
            new_table(row_type, schema)
        }
    }

    /// The datastore with a row more in a committed table, which is made where it is missing.
    pub open spec fn put_committed(
        self,
        t: u32,
        row_type: RowType,
        schema: SchemaModel,
        row: Row,
    ) -> DbModel {
        DbModel {
            committed: self.committed.insert(
                t,
                self.committed_or_new(t, row_type, schema).insert(row_key(row), row),
            ),
            ..self
        }
    }

    /// Lists column `i` of a system table.
    pub open spec fn list_system_column(self, schema: SchemaModel, i: u32) -> DbModel {
        let col = schema.columns[i as int];
        let db = self.put_committed(
            ST_COLUMNS_ID,
            st_columns_model().row_type(),
            st_columns_model(),
            ColumnModel { table_id: schema.table_id, col_id: i, ..col }.row(),
        );
        if col.is_autoinc {
            db.put_committed(
                ST_SEQUENCES_ID,
                st_sequences_model().row_type(),
                st_sequences_model(),
                listed_sequence(schema.table_id, col).row(),
            )
        } else {
            db
        }
    }

    /// Lists the first `n` columns of a system table.
    pub open spec fn list_system_columns(self, schema: SchemaModel, n: nat) -> DbModel
        decreases n,
    {
        if n == 0 {
            self
        } else {
            self.list_system_columns(schema, (n - 1) as nat).list_system_column(
                schema,
                (n - 1) as u32,
            )
        }
    }

    /// Lists the first `n` indexes of a system table.
    pub open spec fn list_system_indexes(self, schema: SchemaModel, n: nat) -> DbModel
        decreases n,
    {
        if n == 0 {
            DbModel {
                committed: self.committed.insert(
                    ST_INDEXES_ID,
                    self.committed_or_new(
                        ST_INDEXES_ID,
                        st_indexes_model().row_type(),
                        st_indexes_model(),
                    ),
                ),
                ..self
            }
        } else {
            self.list_system_indexes(schema, (n - 1) as nat).put_committed(
                ST_INDEXES_ID,
                st_indexes_model().row_type(),
                st_indexes_model(),
                IndexSchemaModel { table_id: schema.table_id, ..schema.indexes[n - 1] }.row(),
            )
        }
    }

    /// Makes a system table: lists it, its columns and its indexes.
    pub open spec fn bootstrap_system_table(self, schema: SchemaModel) -> DbModel {
        self.put_committed(
            ST_TABLES_ID,
            st_table_row_type_model(),
            st_table_model(),
            TableRowModel { table_id: schema.table_id, table_name: schema.table_name }.row(),
        ).list_system_columns(schema, schema.columns.len()).list_system_indexes(
            schema,
            schema.indexes.len(),
        )
    }

    /// Puts into use the sequences that the first `n` of `rows` describe.
    pub open spec fn use_sequences(self, rows: Seq<Row>, n: nat) -> (DbModel, Result<(), Fault>)
        decreases n,
    {
        if n == 0 {
            (self, Ok(()))
        } else {
            let (db, r) = self.use_sequences(rows, (n - 1) as nat);
            match r {
                Err(f) => (db, Err(f)),
                Ok(_) => match SequenceModel::of_row(rows[n - 1]) {
                    Err(f) => (db, Err(f)),
                    Ok(q) => (db.with_sequence(q.sequence_id, q), Ok(())),
                },
            }
        }
    }

    /// Puts into use every sequence that the committed table of sequences lists.
    pub open spec fn build_sequence_state(self) -> (DbModel, Result<(), Fault>) {
        let rows = in_key_order::<RowId, Row>(self.committed_rows(ST_SEQUENCES_ID));
        self.use_sequences(rows, rows.len())
    }

    /// Makes one index of a committed table.
    pub open spec fn build_index(self, x: IndexSchemaModel) -> (DbModel, Result<(), Fault>) {
        let t = x.table_id;
        if !self.committed.contains_key(t) {
            (self, Err(Fault::TableIdNotFound(t)))
        } else if !all_have_column(self.committed_rows(t), x.col_id) {
            (self, Err(Fault::InvalidField(x.col_id)))
        } else {
            let index = IndexModel {
                index_id: x.index_id,
                table_id: t,
                col_id: x.col_id,
                name: x.index_name,
                is_unique: x.is_unique,
                entries: Map::empty(),
            };
            (
                DbModel {
                    committed: self.committed.insert(t, self.committed[t].insert_index(index)),
                    ..self
                },
                Ok(()),
            )
        }
    }

    /// Makes the indexes that the first `n` of `rows` describe.
    pub open spec fn use_indexes(self, rows: Seq<Row>, n: nat) -> (DbModel, Result<(), Fault>)
        decreases n,
    {
        if n == 0 {
            (self, Ok(()))
        } else {
            let (db, r) = self.use_indexes(rows, (n - 1) as nat);
            match r {
                Err(f) => (db, Err(f)),
                Ok(_) => match IndexSchemaModel::of_row(rows[n - 1]) {
                    Err(f) => (db, Err(f)),
                    Ok(x) => db.build_index(x),
                },
            }
        }
    }

    /// Makes every index that the committed table of indexes lists.
    pub open spec fn build_indexes(self) -> (DbModel, Result<(), Fault>) {
        let rows = in_key_order::<RowId, Row>(self.committed_rows(ST_INDEXES_ID));
        self.use_indexes(rows, rows.len())
    }
}

/// The system tables, listed and not yet indexed.
pub open spec fn system_tables() -> DbModel {
    DbModel::empty().bootstrap_system_table(st_table_model()).bootstrap_system_table(
        st_columns_model(),
    ).bootstrap_system_table(st_indexes_model()).bootstrap_system_table(st_sequences_model())
}

/// The first state of a datastore.
pub open spec fn bootstrapped() -> DbModel {
    system_tables().build_sequence_state().0.build_indexes().0
}

impl Inner {
    /// Puts a row into a committed table, which is made where it is missing.
    fn put_committed(
        &mut self,
        table_id: u32,
        row_type: ProductType,
        schema: TableSchema,
        row: ProductValue,
    )
        requires
            old(self).parts_wf(),
            old(self).tx_state is None,
        ensures
            final(self).parts_wf(),
            final(self).tx_state is None,
            final(self)@ == old(self)@.put_committed(table_id, row_type@, schema@, row@),
    {
        let row_id = RowId(row.to_data_key());
        let ghost k = row_id@;
        let ghost r = row@;
        let table = self.committed_state.get_or_create_table(TableId(table_id), row_type, schema);
        let ghost before = table@;
        table.insert(row_id, row);
        proof {
            lemma_insert_exact(before, k, r);
        }
    }

    /// Lists one column of a system table, and its sequence where it has one.
    fn list_system_column(&mut self, schema: &TableSchema, i: u32)
        requires
            old(self).parts_wf(),
            old(self).tx_state is None,
            i < schema.columns@.len(),
            schema.columns@[i as int].is_autoinc ==> has_system_sequence(schema.table_id),
        ensures
            final(self).parts_wf(),
            final(self).tx_state is None,
            final(self)@ == old(self)@.list_system_column(schema@, i),
    {
        assert(schema@.columns[i as int] == schema.columns@[i as int]@);
        let table_id: u32 = schema.table_id;
        let col = &schema.columns[i as usize];
        let row = StColumnRow {
            table_id,
            col_id: i,
            col_name: col.col_name.clone(),
            col_type: col.col_type.clone(),
            is_autoinc: col.is_autoinc,
        };
        assert(row@ =~= (ColumnModel { table_id, col_id: i, ..col@ }));
        let st_columns = st_columns_schema();
        self.put_committed(ST_COLUMNS_ID, st_columns.get_row_type(), st_columns, row.to_row());
        if col.is_autoinc {
            let (sequence_id, start): (u32, i128) = if table_id == ST_TABLES_ID {
                (TABLE_ID_SEQUENCE_ID, 4)
            } else if table_id == ST_INDEXES_ID {
                (INDEX_ID_SEQUENCE_ID, 4)
            } else {
                (SEQUENCE_ID_SEQUENCE_ID, 3)
            };
            let mut sequence_name = col.col_name.clone();
            sequence_name.append("_seq");
            let row = StSequenceRow {
                sequence_id,
                sequence_name,
                table_id: col.table_id,
                col_id: col.col_id,
                increment: 1,
                start,
                min_value: 1,
                max_value: u32::MAX as i128,
                allocated: SEQUENCE_PREALLOCATION_AMOUNT,
            };
            assert(row@ =~= listed_sequence(table_id, col@));
            let st_sequences = st_sequences_schema();
            self.put_committed(
                ST_SEQUENCES_ID,
                st_sequences.get_row_type(),
                st_sequences,
                row.to_row(),
            );
        }
    }

    /// Makes a system table: lists it, its columns and its indexes.
    fn bootstrap_system_table(&mut self, schema: &TableSchema)
        requires
            old(self).parts_wf(),
            old(self).tx_state is None,
            schema.columns@.len() <= u32::MAX,
            forall|i: int|
                0 <= i < schema.columns@.len() && (#[trigger] schema.columns@[i]).is_autoinc
                    ==> has_system_sequence(schema.table_id),
        ensures
            final(self).parts_wf(),
            final(self).tx_state is None,
            final(self)@ == old(self)@.bootstrap_system_table(schema@),
    {
        let table_id: u32 = schema.table_id;
        let row = StTableRow { table_id, table_name: schema.table_name.clone() };
        self.put_committed(ST_TABLES_ID, st_table_row_type(), st_table_schema(), row.to_row());
        let ghost db = self@;
        let n: usize = schema.columns.len();
        for i in 0..n
            invariant
                n == schema.columns@.len(),
                n <= u32::MAX,
                table_id == schema.table_id,
                forall|i: int|
                    0 <= i < schema.columns@.len() && (#[trigger] schema.columns@[i]).is_autoinc
                        ==> has_system_sequence(schema.table_id),
                self.parts_wf(),
                self.tx_state is None,
                self@ == db.list_system_columns(schema@, i as nat),
        {
            self.list_system_column(schema, i as u32);
        }
        let ghost db = self@;
        let st_indexes = st_indexes_schema();
        self.committed_state.get_or_create_table(
            TableId(ST_INDEXES_ID),
            st_indexes.get_row_type(),
            st_indexes,
        );
        assert(self@ =~= db.list_system_indexes(schema@, 0));
        let n: usize = schema.indexes.len();
        for i in 0..n
            invariant
                n == schema.indexes@.len(),
                table_id == schema.table_id,
                self.parts_wf(),
                self.tx_state is None,
                self@ == db.list_system_indexes(schema@, i as nat),
        {
            assert(schema@.indexes[i as int] == schema.indexes@[i as int]@);
            let index = &schema.indexes[i];
            let row = StIndexRow {
                index_id: index.index_id,
                table_id,
                col_id: index.col_id,
                index_name: index.index_name.clone(),
                is_unique: index.is_unique,
            };
            assert(row@ =~= (IndexSchemaModel { table_id, ..schema@.indexes[i as int] }));
            let st_indexes = st_indexes_schema();
            self.put_committed(ST_INDEXES_ID, st_indexes.get_row_type(), st_indexes, row.to_row());
        }
    }

    /// The rows of a committed table.
    fn committed_rows(&self, table_id: u32) -> (r: Vec<ProductValue>)
        requires
            self.parts_wf(),
        ensures
            rows_read(r@) == in_key_order::<RowId, Row>(self@.committed_rows(table_id)),
    {
        let mut r: Vec<ProductValue> = Vec::new();
        match self.committed_state.tables.get(&table_id) {
            Some(table) => {
                let ghost ks = table.rows.keys();
                let ghost m = self@.committed_rows(table_id);
                proof {
                    table.rows.lemma_keys();
                    assert(m.dom() =~= ks.to_set());
                    lemma_in_key_order::<RowId, Row>(ks, m);
                }
                let n: usize = table.rows.len();
                for i in 0..n
                    invariant
                        n == ks.len(),
                        ks == table.rows.keys(),
                        table.wf(),
                        m == table@.rows,
                        forall|i: int|
                            0 <= i < ks.len() ==> table.rows@.contains_key(#[trigger] ks[i]),
                        rows_read(r@) == ks.take(i as int).map_values(|k: Key| m[k]),
                {
                    let ghost before = r@;
                    let row = table.rows.value_at(i);
                    assert(table.rows@.contains_key(ks[i as int]));
                    assert(m[ks[i as int]] == row@);
                    r.push(row.clone());
                    assert(ks.take(i + 1) =~= ks.take(i as int).push(ks[i as int]));
                    assert(rows_read(r@) =~= rows_read(before).push(m[ks[i as int]]));
                    assert(rows_read(r@) =~= ks.take(i + 1).map_values(|k: Key| m[k]));
                }
                assert(ks.take(ks.len() as int) =~= ks);
            },
            None => {
                proof {
                    let m = self@.committed_rows(table_id);
                    let none = Seq::<Key>::empty();
                    assert(m.dom() =~= none.to_set());
                    lemma_in_key_order::<RowId, Row>(none, m);
                    assert(rows_read(r@) =~= none.map_values(|k: Key| m[k]));
                }
            },
        }
        r
    }

    /// Puts into use every sequence that the committed table of sequences lists.
    fn build_sequence_state(&mut self) -> (r: Result<(), DBError>)
        requires
            old(self).parts_wf(),
            old(self).tx_state is None,
        ensures
            final(self).parts_wf(),
            final(self).tx_state is None,
            (final(self)@, outcome(r)) == old(self)@.build_sequence_state(),
    {
        let rows = self.committed_rows(ST_SEQUENCES_ID);
        let ghost all = rows_read(rows@);
        let n: usize = rows.len();
        for i in 0..n
            invariant
                n == rows@.len(),
                all == rows_read(rows@),
                all == in_key_order::<RowId, Row>(old(self)@.committed_rows(ST_SEQUENCES_ID)),
                self.parts_wf(),
                self.tx_state is None,
                (self@, Ok::<(), Fault>(())) == old(self)@.use_sequences(all, i as nat),
        {
            assert(all[i as int] == rows@[i as int]@);
            match StSequenceRow::try_from(&rows[i]) {
                Ok(sequence) => {
                    let ghost was = self@;
                    let ghost q = sequence@;
                    let id: u32 = sequence.sequence_id;
                    self.sequence_state.sequences.insert(
                        id,
                        Sequence::new(sequence.to_schema()),
                    );
                    assert(self@.sequences =~= was.sequences.insert(id, q));
                    assert(self@ =~= was.with_sequence(id, q));
                },
                Err(e) => {
                    proof {
                        lemma_use_sequences_err(old(self)@, all, (i + 1) as nat, all.len());
                    }
                    return Err(e);
                },
            }
        }
        Ok(())
    }

    /// Makes one index of a committed table.
    fn build_index(&mut self, index_row: StIndexRow) -> (r: Result<(), DBError>)
        requires
            old(self).parts_wf(),
            old(self).tx_state is None,
        ensures
            final(self).parts_wf(),
            final(self).tx_state is None,
            (final(self)@, outcome(r)) == old(self)@.build_index(index_row@),
    {
        let mut index = BTreeIndex::new(
            IndexId(index_row.index_id),
            index_row.table_id,
            index_row.col_id,
            index_row.index_name,
            index_row.is_unique,
        );
        let table_id: u32 = index_row.table_id;
        let ghost bare = index@;
        match self.committed_state.get_table(&TableId(table_id)) {
            Some(table) => {
                match index.build_from_rows(&table.rows) {
                    Ok(_) => {
                        let ghost was = table@;
                        proof {
                            assert(index@.entries =~= column_of(was.rows, index@.col_id));
                            assert(bare.emptied() == bare);
                        }
                        table.put_index(index);
                        assert(table@ =~= was.insert_index(bare));
                        assert forall|c: u32| #[trigger] table@.indexes.contains_key(c) implies
                            table@.indexes[c].entries == column_of(table@.rows, c) by {
                            assert(c != index@.col_id ==> was.indexes.contains_key(c));
                        }
                        Ok(())
                    },
                    Err(e) => {
                        assert(self@.committed =~= old(self)@.committed);
                        Err(e)
                    },
                }
            },
            None => Err(DBError::Table(TableError::IdNotFound(table_id))),
        }
    }

    /// Makes every index that the committed table of indexes lists.
    fn build_indexes(&mut self) -> (r: Result<(), DBError>)
        requires
            old(self).parts_wf(),
            old(self).tx_state is None,
        ensures
            final(self).parts_wf(),
            final(self).tx_state is None,
            (final(self)@, outcome(r)) == old(self)@.build_indexes(),
    {
        let rows = self.committed_rows(ST_INDEXES_ID);
        let ghost all = rows_read(rows@);
        let n: usize = rows.len();
        for i in 0..n
            invariant
                n == rows@.len(),
                all == rows_read(rows@),
                all == in_key_order::<RowId, Row>(old(self)@.committed_rows(ST_INDEXES_ID)),
                self.parts_wf(),
                self.tx_state is None,
                (self@, Ok::<(), Fault>(())) == old(self)@.use_indexes(all, i as nat),
        {
            assert(all[i as int] == rows@[i as int]@);
            let built = match StIndexRow::try_from(&rows[i]) {
                Ok(index_row) => self.build_index(index_row),
                Err(e) => Err(e),
            };
            match built {
                Ok(_) => {},
                Err(e) => {
                    proof {
                        lemma_use_indexes_err(old(self)@, all, (i + 1) as nat, all.len());
                    }
                    return Err(e);
                },
            }
        }
        Ok(())
    }

    /// The first state of a datastore.
    pub(crate) fn bootstrap() -> (r: Result<Self, DBError>)
        ensures
            match r {
                Ok(inner) => inner.wf() && inner@ == bootstrapped(),
                Err(_) => false,
            },
    {
        let mut inner = Inner::new();
        inner.bootstrap_system_table(&st_table_schema());
        inner.bootstrap_system_table(&st_columns_schema());
        inner.bootstrap_system_table(&st_indexes_schema());
        inner.bootstrap_system_table(&st_sequences_schema());
        proof {
            lemma_bootstrap_succeeds();
        }
        match inner.build_sequence_state() {
            Ok(_) => {},
            Err(e) => {
                return Err(e);
            },
        }
        match inner.build_indexes() {
            Ok(_) => {},
            Err(e) => {
                return Err(e);
            },
        }
        proof {
            lemma_first_indexes_unique();
        }
        Ok(inner)
    }
}

/// A sequence that cannot be read ends the reading.
proof fn lemma_use_sequences_err(db: DbModel, rows: Seq<Row>, n: nat, m: nat)
    requires
        n <= m,
        db.use_sequences(rows, n).1 is Err,
    ensures
        db.use_sequences(rows, m) == db.use_sequences(rows, n),
    decreases m - n,
{
    if n < m {
        lemma_use_sequences_err(db, rows, n, (m - 1) as nat);
    }
}

/// An index that cannot be made ends the making.
proof fn lemma_use_indexes_err(db: DbModel, rows: Seq<Row>, n: nat, m: nat)
    requires
        n <= m,
        db.use_indexes(rows, n).1 is Err,
    ensures
        db.use_indexes(rows, m) == db.use_indexes(rows, n),
    decreases m - n,
{
    if n < m {
        lemma_use_indexes_err(db, rows, n, (m - 1) as nat);
    }
}

proof fn lemma_columns_idle(db: DbModel, schema: SchemaModel, n: nat)
    ensures
        db.list_system_columns(schema, n).tx == db.tx,
        db.list_system_columns(schema, n).blobs == db.blobs,
        db.list_system_columns(schema, n).sequences == db.sequences,
    decreases n,
{
    if n > 0 {
        lemma_columns_idle(db, schema, (n - 1) as nat);
    }
}

proof fn lemma_indexes_idle(db: DbModel, schema: SchemaModel, n: nat)
    ensures
        db.list_system_indexes(schema, n).tx == db.tx,
        db.list_system_indexes(schema, n).blobs == db.blobs,
        db.list_system_indexes(schema, n).sequences == db.sequences,
    decreases n,
{
    if n > 0 {
        lemma_indexes_idle(db, schema, (n - 1) as nat);
    }
}

proof fn lemma_system_table_idle(db: DbModel, schema: SchemaModel)
    ensures
        db.bootstrap_system_table(schema).tx == db.tx,
        db.bootstrap_system_table(schema).blobs == db.blobs,
        db.bootstrap_system_table(schema).sequences == db.sequences,
{
    let a = db.put_committed(
        ST_TABLES_ID,
        st_table_row_type_model(),
        st_table_model(),
        TableRowModel { table_id: schema.table_id, table_name: schema.table_name }.row(),
    );
    lemma_columns_idle(a, schema, schema.columns.len());
    lemma_indexes_idle(
        a.list_system_columns(schema, schema.columns.len()),
        schema,
        schema.indexes.len(),
    );
}

proof fn lemma_use_idle(db: DbModel, rows: Seq<Row>, n: nat)
    ensures
        db.use_sequences(rows, n).0.tx == db.tx,
        db.use_indexes(rows, n).0.tx == db.tx,
        db.use_sequences(rows, n).0.blobs == db.blobs,
        db.use_indexes(rows, n).0.blobs == db.blobs,
        db.use_indexes(rows, n).0.sequences == db.sequences,
    decreases n,
{
    if n > 0 {
        lemma_use_idle(db, rows, (n - 1) as nat);
    }
}

/// No transaction is open at first, no bytes are kept, and the sequences in use are those that are
/// listed.
pub proof fn lemma_bootstrapped_is_idle()
    ensures
        bootstrapped().tx is None,
        bootstrapped().blobs == Map::<Key, Seq<u8>>::empty(),
        bootstrapped().sequences == system_tables().build_sequence_state().0.sequences,
        system_tables().sequences == Map::<u32, SequenceModel>::empty(),
{
    let a = DbModel::empty();
    let b = a.bootstrap_system_table(st_table_model());
    let c = b.bootstrap_system_table(st_columns_model());
    let d = c.bootstrap_system_table(st_indexes_model());
    lemma_system_table_idle(a, st_table_model());
    lemma_system_table_idle(b, st_columns_model());
    lemma_system_table_idle(c, st_indexes_model());
    lemma_system_table_idle(d, st_sequences_model());
    let e = system_tables();
    let rows = in_key_order::<RowId, Row>(e.committed_rows(ST_SEQUENCES_ID));
    lemma_use_idle(e, rows, rows.len());
    let f = e.build_sequence_state().0;
    let rows = in_key_order::<RowId, Row>(f.committed_rows(ST_INDEXES_ID));
    lemma_use_idle(f, rows, rows.len());
}

/// How many columns the rows of a system table have.
spec fn system_width(t: u32) -> nat {
    if t == ST_TABLES_ID {
        2
    } else if t == ST_SEQUENCES_ID {
        9
    } else {
        5
    }
}

/// How many columns of a system table, the first ones, have an index at first.
spec fn system_keys(t: u32) -> u32 {
    if t == ST_TABLES_ID {
        2
    } else if t == ST_SEQUENCES_ID || t == ST_INDEXES_ID {
        1
    } else {
        0
    }
}

/// The schema of a system table.
spec fn system_schema(t: u32) -> SchemaModel {
    if t == ST_TABLES_ID {
        st_table_model()
    } else if t == ST_COLUMNS_ID {
        st_columns_model()
    } else if t == ST_SEQUENCES_ID {
        st_sequences_model()
    } else {
        st_indexes_model()
    }
}

/// `table` is system table `t`, not yet indexed.
spec fn is_system_model(t: u32, table: TableModel) -> bool {
    &&& table.schema == system_schema(t)
    &&& table.row_type.len() == system_width(t)
    &&& table.indexes == Map::<u32, IndexModel>::empty()
}

/// The system tables.
spec fn system_schemas() -> Seq<SchemaModel> {
    seq![st_table_model(), st_columns_model(), st_indexes_model(), st_sequences_model()]
}

/// `row` lists one of the system tables.
spec fn lists_system_table(row: Row) -> bool {
    exists|i: int|
        0 <= i < 4 && row[0] == Value::U32(#[trigger] system_schemas()[i].table_id) && row[1]
            == Value::String(system_schemas()[i].table_name)
}

/// `row` lists the sequence of one of the system tables.
spec fn lists_system_sequence(row: Row) -> bool {
    exists|i: int|
        0 <= i < 4 && (#[trigger] system_schemas()[i]).columns[0].is_autoinc && row
            == listed_sequence(system_schemas()[i].table_id, system_schemas()[i].columns[0]).row()
}

/// `row` lists an index of one of the system tables.
spec fn lists_system_index(row: Row) -> bool {
    exists|j: int, i: int|
        0 <= j < 4 && 0 <= i < system_schemas()[j].indexes.len() && row
            == #[trigger] listed_index(j, i).row()
}

/// Index `i` of system table `j`, as it is listed.
spec fn listed_index(j: int, i: int) -> IndexSchemaModel {
    IndexSchemaModel { table_id: system_schemas()[j].table_id, ..system_schemas()[j].indexes[i] }
}

/// `row` is one that system table `t` may hold at first.
spec fn row_fits(t: u32, row: Row) -> bool {
    &&& t <= ST_INDEXES_ID
    &&& row.len() == system_width(t)
    &&& t == ST_TABLES_ID ==> lists_system_table(row)
    &&& t == ST_SEQUENCES_ID ==> SequenceModel::of_row(row) is Ok && lists_system_sequence(row)
    &&& t == ST_INDEXES_ID ==> {
        &&& IndexSchemaModel::of_row(row) is Ok
        &&& lists_system_index(row)
        &&& IndexSchemaModel::of_row(row)->Ok_0.is_unique
        &&& IndexSchemaModel::of_row(row)->Ok_0.table_id <= ST_INDEXES_ID
        &&& IndexSchemaModel::of_row(row)->Ok_0.col_id < system_keys(
            IndexSchemaModel::of_row(row)->Ok_0.table_id,
        )
    }
}

/// `rows` are some that system table `t` may hold at first, each under its key.
spec fn all_fit(t: u32, rows: Map<Key, Row>) -> bool {
    &&& rows.dom().finite()
    &&& forall|k: Key| #[trigger]
        rows.contains_key(k) ==> row_fits(t, rows[k]) && row_key(rows[k]) == k
}

/// Every committed row is one that its table may hold at first, under its key.
spec fn rows_fit(db: DbModel) -> bool {
    forall|t: u32| all_fit(t, #[trigger] db.committed_rows(t))
}

/// The committed tables are system tables, not yet indexed.
spec fn tables_fit(db: DbModel) -> bool {
    forall|t: u32| #[trigger]
        db.committed.contains_key(t) ==> t <= ST_INDEXES_ID && is_system_model(t, db.committed[t])
}

proof fn lemma_put_fits(db: DbModel, t: u32, row_type: RowType, schema: SchemaModel, row: Row)
    requires
        rows_fit(db),
        tables_fit(db),
        row_fits(t, row),
        is_system_model(t, new_table(row_type, schema)),
    ensures
        rows_fit(db.put_committed(t, row_type, schema, row)),
        tables_fit(db.put_committed(t, row_type, schema, row)),
{
    let n = db.put_committed(t, row_type, schema, row);
    let table = db.committed_or_new(t, row_type, schema);
    assert(is_system_model(t, table));
    assert(table.insert(row_key(row), row).indexes =~= Map::<u32, IndexModel>::empty());
    assert forall|u: u32| all_fit(u, #[trigger] n.committed_rows(u)) by {
        assert(all_fit(u, db.committed_rows(u)));
        if u == t {
            assert(n.committed_rows(u) =~= db.committed_rows(u).insert(row_key(row), row));
        } else {
            assert(n.committed_rows(u) == db.committed_rows(u));
        }
    }
}

proof fn lemma_columns_fit(db: DbModel, schema: SchemaModel, n: nat, j: int)
    requires
        rows_fit(db),
        tables_fit(db),
        n <= schema.columns.len() <= u32::MAX,
        0 <= j < 4,
        schema == system_schemas()[j],
    ensures
        rows_fit(db.list_system_columns(schema, n)),
        tables_fit(db.list_system_columns(schema, n)),
        db.committed.dom().subset_of(db.list_system_columns(schema, n).committed.dom()),
        n > 0 ==> db.list_system_columns(schema, n).committed.contains_key(ST_COLUMNS_ID),
        n > 0 && schema.columns[0].is_autoinc ==> db.list_system_columns(
            schema,
            n,
        ).committed.contains_key(ST_SEQUENCES_ID),
    decreases n,
{
    if n > 0 {
        lemma_columns_fit(db, schema, (n - 1) as nat, j);
        let mid = db.list_system_columns(schema, (n - 1) as nat);
        let i = (n - 1) as u32;
        let col = schema.columns[i as int];
        lemma_put_fits(
            mid,
            ST_COLUMNS_ID,
            st_columns_model().row_type(),
            st_columns_model(),
            ColumnModel { table_id: schema.table_id, col_id: i, ..col }.row(),
        );
        if col.is_autoinc {
            let q = listed_sequence(schema.table_id, col);
            law_sequence_row_round_trip(q);
            lemma_first_column_fills_itself(j, i as int);
            assert(system_schemas()[j].columns[0].is_autoinc);
            assert(lists_system_sequence(q.row()));
            lemma_put_fits(
                mid.put_committed(
                    ST_COLUMNS_ID,
                    st_columns_model().row_type(),
                    st_columns_model(),
                    ColumnModel { table_id: schema.table_id, col_id: i, ..col }.row(),
                ),
                ST_SEQUENCES_ID,
                st_sequences_model().row_type(),
                st_sequences_model(),
                q.row(),
            );
        }
    }
}

/// Of the columns of a system table, only the first may fill itself.
proof fn lemma_first_column_fills_itself(j: int, i: int)
    requires
        0 <= j < 4,
        0 <= i < system_schemas()[j].columns.len(),
        system_schemas()[j].columns[i].is_autoinc,
    ensures
        i == 0,
        system_schemas()[j].columns[i].col_id == 0,
{
    let a = st_table_model().columns;
    let b = st_columns_model().columns;
    let c = st_indexes_model().columns;
    let d = st_sequences_model().columns;
    assert(a.len() == 3 && b.len() == 5 && c.len() == 5 && d.len() == 9);
    assert(!a[1].is_autoinc && !a[2].is_autoinc);
    assert(!b[0].is_autoinc && !b[1].is_autoinc && !b[2].is_autoinc && !b[3].is_autoinc
        && !b[4].is_autoinc);
    assert(!c[1].is_autoinc && !c[2].is_autoinc && !c[3].is_autoinc && !c[4].is_autoinc);
    assert(!d[1].is_autoinc && !d[2].is_autoinc && !d[3].is_autoinc && !d[4].is_autoinc);
    assert(!d[5].is_autoinc && !d[6].is_autoinc && !d[7].is_autoinc && !d[8].is_autoinc);
}

proof fn lemma_indexes_fit(db: DbModel, schema: SchemaModel, n: nat, j: int)
    requires
        rows_fit(db),
        tables_fit(db),
        0 <= j < 4,
        schema == system_schemas()[j],
        n <= schema.indexes.len(),
        schema.table_id <= ST_INDEXES_ID,
        forall|i: int|
            0 <= i < schema.indexes.len() ==> (#[trigger] schema.indexes[i]).is_unique
                && schema.indexes[i].col_id < system_keys(schema.table_id),
    ensures
        rows_fit(db.list_system_indexes(schema, n)),
        tables_fit(db.list_system_indexes(schema, n)),
        db.committed.dom().subset_of(db.list_system_indexes(schema, n).committed.dom()),
        db.list_system_indexes(schema, n).committed.contains_key(ST_INDEXES_ID),
    decreases n,
{
    if n > 0 {
        lemma_indexes_fit(db, schema, (n - 1) as nat, j);
        assert(lists_system_index(listed_index(j, n - 1).row()));
        let x = IndexSchemaModel { table_id: schema.table_id, ..schema.indexes[n - 1] };
        law_index_row_round_trip(x);
        lemma_put_fits(
            db.list_system_indexes(schema, (n - 1) as nat),
            ST_INDEXES_ID,
            st_indexes_model().row_type(),
            st_indexes_model(),
            x.row(),
        );
    } else {
        let m = db.list_system_indexes(schema, 0);
        assert forall|u: u32| all_fit(u, #[trigger] m.committed_rows(u)) by {
            assert(all_fit(u, db.committed_rows(u)));
            assert(m.committed_rows(u) =~= db.committed_rows(u));
        }
    }
}

proof fn lemma_system_table_fits(db: DbModel, j: int)
    requires
        rows_fit(db),
        tables_fit(db),
        0 <= j < 4,
    ensures
        rows_fit(db.bootstrap_system_table(system_schemas()[j])),
        tables_fit(db.bootstrap_system_table(system_schemas()[j])),
        ({
            let schema = system_schemas()[j];
            let n = db.bootstrap_system_table(schema).committed;
            &&& db.committed.dom().subset_of(n.dom())
            &&& n.contains_key(ST_TABLES_ID)
            &&& n.contains_key(ST_COLUMNS_ID)
            &&& n.contains_key(ST_INDEXES_ID)
            &&& schema.columns[0].is_autoinc ==> n.contains_key(ST_SEQUENCES_ID)
        }),
{
    let schema = system_schemas()[j];
    let row = TableRowModel {
        table_id: schema.table_id,
        table_name: schema.table_name,
    }.row();
    assert(row[0] == Value::U32(system_schemas()[j].table_id));
    lemma_put_fits(db, ST_TABLES_ID, st_table_row_type_model(), st_table_model(), row);
    let a = db.put_committed(ST_TABLES_ID, st_table_row_type_model(), st_table_model(), row);
    lemma_columns_fit(a, schema, schema.columns.len(), j);
    let b = a.list_system_columns(schema, schema.columns.len());
    lemma_indexes_fit(b, schema, schema.indexes.len(), j);
    assert(a.committed.contains_key(ST_TABLES_ID));
    assert(b.committed.dom().contains(ST_TABLES_ID));
}

proof fn lemma_sequences_used(db: DbModel, rows: Seq<Row>, n: nat)
    requires
        n <= rows.len(),
        forall|i: int|
            0 <= i < rows.len() ==> SequenceModel::of_row(#[trigger] rows[i]) is Ok,
    ensures
        db.use_sequences(rows, n).1 is Ok,
        db.use_sequences(rows, n).0.committed == db.committed,
    decreases n,
{
    if n > 0 {
        lemma_sequences_used(db, rows, (n - 1) as nat);
        assert(SequenceModel::of_row(rows[n - 1]) is Ok);
    }
}

proof fn lemma_indexes_used(db: DbModel, rows: Seq<Row>, n: nat)
    requires
        n <= rows.len(),
        rows_fit(db),
        forall|t: u32| t <= ST_INDEXES_ID ==> #[trigger] db.committed.contains_key(t),
        forall|i: int| 0 <= i < rows.len() ==> row_fits(ST_INDEXES_ID, #[trigger] rows[i]),
    ensures
        db.use_indexes(rows, n).1 is Ok,
        db.use_indexes(rows, n).0.committed.dom() == db.committed.dom(),
        forall|t: u32| #[trigger]
            db.use_indexes(rows, n).0.committed_rows(t) == db.committed_rows(t),
    decreases n,
{
    if n > 0 {
        lemma_indexes_used(db, rows, (n - 1) as nat);
        let mid = db.use_indexes(rows, (n - 1) as nat).0;
        assert(row_fits(ST_INDEXES_ID, rows[n - 1]));
        let x = IndexSchemaModel::of_row(rows[n - 1])->Ok_0;
        let t = x.table_id;
        assert(db.committed.contains_key(t));
        assert(mid.committed.dom().contains(t));
        assert(mid.committed_rows(t) == db.committed_rows(t));
        assert forall|k: Key| #[trigger] mid.committed_rows(t).contains_key(k) implies x.col_id
            < mid.committed_rows(t)[k].len() by {
            assert(row_fits(t, db.committed_rows(t)[k]));
        }
        let after = db.use_indexes(rows, n).0;
        assert(after == mid.build_index(x).0);
        assert(after.committed.dom() =~= db.committed.dom());
        assert forall|u: u32| #[trigger] after.committed_rows(u) == db.committed_rows(u) by {
            assert(mid.committed_rows(u) == db.committed_rows(u));
        }
    }
}

/// Every value of a finite map is one of its values in order, and the other way round.
proof fn lemma_rows_in_order(m: Map<Key, Row>, i: int)
    requires
        m.dom().finite(),
        0 <= i < in_key_order::<RowId, Row>(m).len(),
    ensures
        exists|k: Key| #[trigger] m.contains_key(k) && in_key_order::<RowId, Row>(m)[i] == m[k],
{
    lemma_ascending_of_finite::<RowId>(m.dom());
    let ks = ascending::<RowId>(m.dom());
    assert(ks.to_set().contains(ks[i]));
    assert(m.contains_key(ks[i]));
}

/// The index of the names of tables.
spec fn name_index() -> IndexSchemaModel {
    system_index(3, ST_TABLES_ID, 1, "table_name_idx"@)
}

/// The table of indexes lists index `x`.
spec fn lists_index(db: DbModel, x: IndexSchemaModel) -> bool {
    let row = x.row();
    let rows = db.committed_rows(ST_INDEXES_ID);
    rows.contains_key(row_key(row)) && rows[row_key(row)] == row
}

/// The row of index `x` is short enough to be its own key.
spec fn has_short_row(x: IndexSchemaModel) -> bool {
    encode_utf8(x.index_name).len() <= 14
}

proof fn lemma_ascii_length(s: Seq<char>)
    requires
        forall|i: int| 0 <= i < s.len() ==> (#[trigger] s[i]) as u32 <= 0x7f,
    ensures
        encode_utf8(s).len() == s.len(),
    decreases s.len(),
{
    if s.len() > 0 {
        lemma_ascii_length(s.drop_first());
    }
}

proof fn lemma_number_bytes(n: nat)
    ensures
        le_bytes(n, 4).len() == 4,
        le_bytes(n, 4)[0] == (n % 256) as u8,
{
    reveal_with_fuel(le_bytes, 5);
}

/// The bytes of a row that lists an index begin with the id of the index.
proof fn lemma_index_row_bytes(x: IndexSchemaModel)
    ensures
        encoded_all(x.row()).len() == 17 + encode_utf8(x.index_name).len(),
        encoded_all(x.row())[0] == (x.index_id as nat % 256) as u8,
{
    let row = x.row();
    reveal_with_fuel(encoded_all, 6);
    assert(row.take(5) =~= row);
    assert(row.take(5).drop_last() =~= row.take(4));
    assert(row.take(4).drop_last() =~= row.take(3));
    assert(row.take(3).drop_last() =~= row.take(2));
    assert(row.take(2).drop_last() =~= row.take(1));
    assert(row.take(1).drop_last() =~= row.take(0));
    lemma_number_bytes(x.index_id as nat);
    lemma_number_bytes(x.table_id as nat);
    lemma_number_bytes(x.col_id as nat);
    lemma_number_bytes(encode_utf8(x.index_name).len() as u32 as nat);
    assert(encoded_all(row.take(0)).len() == 0);
    assert(encoded_all(row.take(1)) =~= encoded(row[0]));
    assert(encoded_all(row.take(2)) == encoded_all(row.take(1)) + encoded(row[1]));
    assert(encoded_all(row.take(3)) == encoded_all(row.take(2)) + encoded(row[2]));
    assert(encoded_all(row.take(4)) == encoded_all(row.take(3)) + encoded(row[3]));
    assert(encoded_all(row.take(5)) == encoded_all(row.take(4)) + encoded(row[4]));
}

/// The rows of two indexes have different keys, where one is its own key.
proof fn lemma_index_keys(x: IndexSchemaModel, y: IndexSchemaModel)
    requires
        x.index_id < 4,
        y.index_id < 4,
        x.index_id != y.index_id,
        has_short_row(y),
    ensures
        row_key(x.row()) != row_key(y.row()),
{
    lemma_index_row_bytes(x);
    lemma_index_row_bytes(y);
}

proof fn lemma_columns_keep_indexes(db: DbModel, schema: SchemaModel, n: nat)
    ensures
        db.list_system_columns(schema, n).committed_rows(ST_INDEXES_ID) == db.committed_rows(
            ST_INDEXES_ID,
        ),
    decreases n,
{
    if n > 0 {
        lemma_columns_keep_indexes(db, schema, (n - 1) as nat);
    }
}

/// To list the indexes of a system table keeps one listed that is not among them.
proof fn lemma_indexes_keep_index(db: DbModel, schema: SchemaModel, n: nat, y: IndexSchemaModel)
    requires
        lists_index(db, y),
        has_short_row(y),
        y.index_id < 4,
        n <= schema.indexes.len(),
        forall|i: int|
            0 <= i < schema.indexes.len() ==> (#[trigger] schema.indexes[i]).index_id < 4
                && schema.indexes[i].index_id != y.index_id,
    ensures
        lists_index(db.list_system_indexes(schema, n), y),
    decreases n,
{
    if n > 0 {
        lemma_indexes_keep_index(db, schema, (n - 1) as nat, y);
        lemma_index_keys(
            IndexSchemaModel { table_id: schema.table_id, ..schema.indexes[n - 1] },
            y,
        );
    }
}

/// To make a system table keeps an index listed that is not of it.
proof fn lemma_system_table_keeps_index(db: DbModel, schema: SchemaModel, y: IndexSchemaModel)
    requires
        lists_index(db, y),
        has_short_row(y),
        y.index_id < 4,
        forall|i: int|
            0 <= i < schema.indexes.len() ==> (#[trigger] schema.indexes[i]).index_id < 4
                && schema.indexes[i].index_id != y.index_id,
    ensures
        lists_index(db.bootstrap_system_table(schema), y),
{
    let row = TableRowModel {
        table_id: schema.table_id,
        table_name: schema.table_name,
    }.row();
    let a = db.put_committed(ST_TABLES_ID, st_table_row_type_model(), st_table_model(), row);
    assert(a.committed_rows(ST_INDEXES_ID) == db.committed_rows(ST_INDEXES_ID));
    lemma_columns_keep_indexes(a, schema, schema.columns.len());
    let b = a.list_system_columns(schema, schema.columns.len());
    lemma_indexes_keep_index(b, schema, schema.indexes.len(), y);
}

/// The indexes of the system tables are listed.
proof fn lemma_system_indexes_are_listed()
    ensures
        lists_index(system_tables(), st_table_model().indexes[0]),
        lists_index(system_tables(), name_index()),
        lists_index(system_tables(), st_indexes_model().indexes[0]),
        lists_index(system_tables(), st_sequences_model().indexes[0]),
{
    let a = DbModel::empty();
    let b = a.bootstrap_system_table(st_table_model());
    let c = b.bootstrap_system_table(st_columns_model());
    let d = c.bootstrap_system_table(st_indexes_model());
    let x = st_table_model().indexes[0];
    let y = st_indexes_model().indexes[0];
    reveal_strlit("table_id_idx");
    reveal_strlit("table_name_idx");
    reveal_strlit("index_id_idx");
    lemma_ascii_length("table_id_idx"@);
    lemma_ascii_length("table_name_idx"@);
    lemma_ascii_length("index_id_idx"@);
    assert(name_index() == st_table_model().indexes[1]);
    lemma_index_keys(name_index(), x);
    let row = TableRowModel {
        table_id: ST_TABLES_ID,
        table_name: st_table_model().table_name,
    }.row();
    let listed = a.put_committed(
        ST_TABLES_ID,
        st_table_row_type_model(),
        st_table_model(),
        row,
    ).list_system_columns(st_table_model(), st_table_model().columns.len());
    assert(lists_index(listed.list_system_indexes(st_table_model(), 1), x));
    assert(b == listed.list_system_indexes(st_table_model(), 2));
    assert(lists_index(b, x) && lists_index(b, name_index()));
    lemma_system_table_keeps_index(b, st_columns_model(), x);
    lemma_system_table_keeps_index(b, st_columns_model(), name_index());
    lemma_system_table_keeps_index(c, st_indexes_model(), x);
    lemma_system_table_keeps_index(c, st_indexes_model(), name_index());
    assert(lists_index(d, y));
    lemma_system_table_keeps_index(d, st_sequences_model(), x);
    lemma_system_table_keeps_index(d, st_sequences_model(), name_index());
    lemma_system_table_keeps_index(d, st_sequences_model(), y);
}

/// What the system tables hold before they are indexed.
proof fn lemma_system_tables()
    ensures
        rows_fit(system_tables()),
        tables_fit(system_tables()),
        forall|t: u32| t <= ST_INDEXES_ID ==> #[trigger] system_tables().committed.contains_key(t),
{
    let a = DbModel::empty();
    assert forall|t: u32| all_fit(t, #[trigger] a.committed_rows(t)) by {
        assert(a.committed_rows(t) =~= Map::<Key, Row>::empty());
    }
    lemma_system_table_fits(a, 0);
    let b = a.bootstrap_system_table(st_table_model());
    lemma_system_table_fits(b, 1);
    let c = b.bootstrap_system_table(st_columns_model());
    lemma_system_table_fits(c, 2);
    let d = c.bootstrap_system_table(st_indexes_model());
    lemma_system_table_fits(d, 3);
    assert(b.committed.dom().contains(ST_SEQUENCES_ID));
    assert(c.committed.dom().contains(ST_SEQUENCES_ID));
    assert(d.committed.dom().contains(ST_SEQUENCES_ID));
    assert(system_tables().committed.dom().contains(ST_SEQUENCES_ID));
}

/// Every index that was made is in force, where all that are listed are unique.
proof fn lemma_indexes_in_force(db: DbModel, rows: Seq<Row>, n: nat, i: int)
    requires
        n <= rows.len(),
        0 <= i < n,
        rows_fit(db),
        forall|t: u32| t <= ST_INDEXES_ID ==> #[trigger] db.committed.contains_key(t),
        forall|i: int| 0 <= i < rows.len() ==> row_fits(ST_INDEXES_ID, #[trigger] rows[i]),
    ensures
        ({
            let x = IndexSchemaModel::of_row(rows[i])->Ok_0;
            let indexes = db.use_indexes(rows, n).0.committed[x.table_id].indexes;
            indexes.contains_key(x.col_id) && indexes[x.col_id].is_unique
        }),
    decreases n,
{
    lemma_indexes_used(db, rows, (n - 1) as nat);
    lemma_indexes_used(db, rows, n);
    assert(row_fits(ST_INDEXES_ID, rows[n - 1]));
    let mid = db.use_indexes(rows, (n - 1) as nat).0;
    let x = IndexSchemaModel::of_row(rows[n - 1])->Ok_0;
    assert(db.use_indexes(rows, n) == mid.build_index(x));
    if i < n - 1 {
        lemma_indexes_in_force(db, rows, (n - 1) as nat, i);
    }
}

/// What the datastore holds once its sequences are in use.
proof fn lemma_sequences_in_use()
    ensures
        system_tables().build_sequence_state().1 is Ok,
        ({
            let f = system_tables().build_sequence_state().0;
            let indexes = in_key_order::<RowId, Row>(f.committed_rows(ST_INDEXES_ID));
            &&& f.committed == system_tables().committed
            &&& rows_fit(f)
            &&& forall|i: int|
                0 <= i < indexes.len() ==> row_fits(ST_INDEXES_ID, #[trigger] indexes[i])
        }),
{
    lemma_system_tables();
    let e = system_tables();
    assert(all_fit(ST_SEQUENCES_ID, e.committed_rows(ST_SEQUENCES_ID)));
    let sequences = in_key_order::<RowId, Row>(e.committed_rows(ST_SEQUENCES_ID));
    assert forall|i: int| 0 <= i < sequences.len() implies SequenceModel::of_row(
        #[trigger] sequences[i],
    ) is Ok by {
        lemma_rows_in_order(e.committed_rows(ST_SEQUENCES_ID), i);
    }
    lemma_sequences_used(e, sequences, sequences.len());
    let f = e.build_sequence_state().0;
    assert forall|t: u32| all_fit(t, #[trigger] f.committed_rows(t)) by {
        assert(all_fit(t, e.committed_rows(t)));
    }
    assert(all_fit(ST_INDEXES_ID, f.committed_rows(ST_INDEXES_ID)));
    let indexes = in_key_order::<RowId, Row>(f.committed_rows(ST_INDEXES_ID));
    assert forall|i: int| 0 <= i < indexes.len() implies row_fits(
        ST_INDEXES_ID,
        #[trigger] indexes[i],
    ) by {
        lemma_rows_in_order(f.committed_rows(ST_INDEXES_ID), i);
    }
}

proof fn lemma_bootstrap_succeeds()
    ensures
        system_tables().build_sequence_state().1 is Ok,
        system_tables().build_sequence_state().0.build_indexes().1 is Ok,
{
    lemma_system_tables();
    lemma_sequences_in_use();
    let f = system_tables().build_sequence_state().0;
    let indexes = in_key_order::<RowId, Row>(f.committed_rows(ST_INDEXES_ID));
    lemma_indexes_used(f, indexes, indexes.len());
}

/// No two system tables have the same name.
proof fn lemma_system_names(a: Row, b: Row)
    requires
        row_fits(ST_TABLES_ID, a),
        row_fits(ST_TABLES_ID, b),
        a[1] == b[1],
    ensures
        a == b,
{
    let schemas = system_schemas();
    let i = choose|i: int|
        0 <= i < 4 && a[0] == Value::U32(#[trigger] schemas[i].table_id) && a[1] == Value::String(
            schemas[i].table_name,
        );
    let j = choose|j: int|
        0 <= j < 4 && b[0] == Value::U32(#[trigger] schemas[j].table_id) && b[1] == Value::String(
            schemas[j].table_name,
        );
    assert(schemas[0].table_name.len() == 8) by {
        reveal_strlit("st_table");
    }
    assert(schemas[1].table_name.len() == 10 && schemas[1].table_name[3] == 'c') by {
        reveal_strlit("st_columns");
    }
    assert(schemas[2].table_name.len() == 10 && schemas[2].table_name[3] == 'i') by {
        reveal_strlit("st_indexes");
    }
    assert(schemas[3].table_name.len() == 11) by {
        reveal_strlit("st_sequence");
    }
    assert(i == j);
    assert(a =~= b);
}

/// No two system tables have the same id.
proof fn lemma_system_ids(a: Row, b: Row)
    requires
        row_fits(ST_TABLES_ID, a),
        row_fits(ST_TABLES_ID, b),
        a[0] == b[0],
    ensures
        a == b,
{
    let schemas = system_schemas();
    let i = choose|i: int|
        0 <= i < 4 && a[0] == Value::U32(#[trigger] schemas[i].table_id) && a[1] == Value::String(
            schemas[i].table_name,
        );
    let j = choose|j: int|
        0 <= j < 4 && b[0] == Value::U32(#[trigger] schemas[j].table_id) && b[1] == Value::String(
            schemas[j].table_name,
        );
    assert(schemas[0].table_id == ST_TABLES_ID && schemas[1].table_id == ST_COLUMNS_ID);
    assert(schemas[2].table_id == ST_INDEXES_ID && schemas[3].table_id == ST_SEQUENCES_ID);
    assert(i == j);
    assert(a =~= b);
}

/// No two sequences of system tables have the same id.
proof fn lemma_system_sequence_ids(a: Row, b: Row)
    requires
        row_fits(ST_SEQUENCES_ID, a),
        row_fits(ST_SEQUENCES_ID, b),
        a[0] == b[0],
    ensures
        a == b,
{
    let schemas = system_schemas();
    let i = choose|i: int|
        0 <= i < 4 && (#[trigger] schemas[i]).columns[0].is_autoinc && a == listed_sequence(
            schemas[i].table_id,
            schemas[i].columns[0],
        ).row();
    let j = choose|j: int|
        0 <= j < 4 && (#[trigger] schemas[j]).columns[0].is_autoinc && b == listed_sequence(
            schemas[j].table_id,
            schemas[j].columns[0],
        ).row();
    assert(!schemas[1].columns[0].is_autoinc);
    assert(schemas[0].table_id == ST_TABLES_ID);
    assert(schemas[2].table_id == ST_INDEXES_ID && schemas[3].table_id == ST_SEQUENCES_ID);
    assert(i == j);
}

/// To make the indexes that are listed changes neither schemas nor row types, and makes them only
/// on the first columns.
proof fn lemma_indexes_of_keys(db: DbModel, rows: Seq<Row>, n: nat)
    requires
        n <= rows.len(),
        rows_fit(db),
        tables_fit(db),
        forall|t: u32| t <= ST_INDEXES_ID ==> #[trigger] db.committed.contains_key(t),
        forall|i: int| 0 <= i < rows.len() ==> row_fits(ST_INDEXES_ID, #[trigger] rows[i]),
    ensures
        forall|t: u32| #[trigger]
            db.committed.contains_key(t) ==> {
                let table = db.use_indexes(rows, n).0.committed[t];
                &&& table.schema == system_schema(t)
                &&& table.row_type.len() == system_width(t)
                &&& table.exact()
                &&& forall|c: u32| #[trigger] table.indexes.contains_key(c) ==> c < system_keys(t)
            },
    decreases n,
{
    if n > 0 {
        lemma_indexes_of_keys(db, rows, (n - 1) as nat);
        lemma_indexes_used(db, rows, (n - 1) as nat);
        lemma_indexes_used(db, rows, n);
        assert(row_fits(ST_INDEXES_ID, rows[n - 1]));
        let mid = db.use_indexes(rows, (n - 1) as nat).0;
        let x = IndexSchemaModel::of_row(rows[n - 1])->Ok_0;
        assert(db.use_indexes(rows, n) == mid.build_index(x));
        let t = x.table_id;
        let before = mid.committed[t];
        let after = db.use_indexes(rows, n).0.committed[t];
        assert(db.committed.contains_key(t));
        assert forall|c: u32| #[trigger] after.indexes.contains_key(c) implies
            after.indexes[c].entries == column_of(after.rows, c) by {
            if c == x.col_id {
                assert(after.indexes[c].entries =~= column_of(after.rows, c));
            } else {
                assert(before.indexes.contains_key(c));
            }
        }
    }
}

/// No two indexes of system tables have the same id.
proof fn lemma_system_index_ids(a: Row, b: Row)
    requires
        row_fits(ST_INDEXES_ID, a),
        row_fits(ST_INDEXES_ID, b),
        a[0] == b[0],
    ensures
        a == b,
{
    let (j, i) = choose|j: int, i: int|
        0 <= j < 4 && 0 <= i < system_schemas()[j].indexes.len() && a == #[trigger] listed_index(
            j,
            i,
        ).row();
    let (m, n) = choose|j: int, i: int|
        0 <= j < 4 && 0 <= i < system_schemas()[j].indexes.len() && b == #[trigger] listed_index(
            j,
            i,
        ).row();
    let schemas = system_schemas();
    assert(schemas[0].indexes.len() == 2 && schemas[1].indexes.len() == 0);
    assert(schemas[2].indexes.len() == 1 && schemas[3].indexes.len() == 1);
    assert(schemas[0].indexes[0].index_id == 0 && schemas[0].indexes[1].index_id == 3);
    assert(schemas[2].indexes[0].index_id == 1 && schemas[3].indexes[0].index_id == 2);
    assert(listed_index(j, i).row()[0] == Value::U32(listed_index(j, i).index_id));
    assert(listed_index(m, n).row()[0] == Value::U32(listed_index(m, n).index_id));
    assert(j == m && i == n);
}

/// The values that a system table holds in an indexed column are distinct.
proof fn lemma_first_values_distinct(t: u32, m: Map<Key, Row>, c: u32)
    requires
        all_fit(t, m),
        c < system_keys(t),
    ensures
        distinct_values(m, c),
        one_row_per_value(column_of(m, c)),
{
    assert forall|a: Key, b: Key|
        #![trigger m.contains_key(a), m.contains_key(b)]
        m.contains_key(a) && m.contains_key(b) && a != b && c < m[a].len() && c
            < m[b].len() implies canonical(m[a][c as int]) != canonical(m[b][c as int]) by {
        if canonical(m[a][c as int]) == canonical(m[b][c as int]) {
            assert(row_fits(t, m[a]) && row_fits(t, m[b]));
            assert(m[a][c as int] == m[b][c as int]);
            if t == ST_SEQUENCES_ID {
                lemma_system_sequence_ids(m[a], m[b]);
            } else if t == ST_INDEXES_ID {
                lemma_system_index_ids(m[a], m[b]);
            } else if c == 0 {
                lemma_system_ids(m[a], m[b]);
            } else {
                lemma_system_names(m[a], m[b]);
            }
        }
    }
    let e = column_of(m, c);
    assert forall|a: Key, b: Key|
        #![trigger e.contains_key(a), e.contains_key(b)]
        e.contains_key(a) && e.contains_key(b) && a != b implies e[a] != e[b] by {
        assert(m.contains_key(a) && m.contains_key(b));
    }
}

/// The unique indexes of the system tables hold a value for one row at first.
proof fn lemma_first_indexes_unique()
    ensures
        bootstrapped().committed_unique(),
{
    lemma_system_tables();
    lemma_sequences_in_use();
    let f = system_tables().build_sequence_state().0;
    let indexes = in_key_order::<RowId, Row>(f.committed_rows(ST_INDEXES_ID));
    lemma_indexes_used(f, indexes, indexes.len());
    lemma_indexes_of_keys(f, indexes, indexes.len());
    let db = bootstrapped();
    assert forall|t: u32| #[trigger] db.committed.contains_key(t) implies db.committed[
        t
    ].unique() by {
        assert(f.committed.dom().contains(t));
        assert(f.committed.contains_key(t));
        let table = db.committed[t];
        assert(db.committed_rows(t) == f.committed_rows(t));
        assert(all_fit(t, f.committed_rows(t)));
        assert forall|c: u32| #[trigger]
            table.indexes.contains_key(c) && table.indexes[c].is_unique implies one_row_per_value(
            table.indexes[c].entries,
        ) by {
            lemma_first_values_distinct(t, table.rows, c);
        }
    }
}

/// An index of a system table that is listed is there at first, and unique.
proof fn lemma_listed_index_is_there(x: IndexSchemaModel)
    requires
        lists_index(system_tables(), x),
    ensures
        bootstrapped().committed[x.table_id].indexes.contains_key(x.col_id),
        bootstrapped().committed[x.table_id].indexes[x.col_id].is_unique,
{
    lemma_system_tables();
    lemma_sequences_in_use();
    let f = system_tables().build_sequence_state().0;
    let m = f.committed_rows(ST_INDEXES_ID);
    let indexes = in_key_order::<RowId, Row>(m);
    lemma_indexes_used(f, indexes, indexes.len());
    let k = row_key(x.row());
    assert(all_fit(ST_INDEXES_ID, m));
    assert(m == system_tables().committed_rows(ST_INDEXES_ID));
    lemma_ascending_of_finite::<RowId>(m.dom());
    let ks = ascending::<RowId>(m.dom());
    assert(ks.to_set().contains(k));
    let i = ks.index_of(k);
    assert(indexes[i] == x.row());
    law_index_row_round_trip(x);
    lemma_indexes_in_force(f, indexes, indexes.len(), i);
}

/// The tables of the catalogue are in form at first, and the first columns of those of tables, of
/// sequences and of indexes are keys.
pub proof fn law_first_catalogue_is_in_form()
    ensures
        catalogue_in_form(bootstrapped().begin(), ST_TABLES_ID, 2, 2),
        catalogue_in_form(bootstrapped().begin(), ST_COLUMNS_ID, 5, 0),
        catalogue_in_form(bootstrapped().begin(), ST_SEQUENCES_ID, 9, 1),
        catalogue_in_form(bootstrapped().begin(), ST_INDEXES_ID, 5, 1),
        !bootstrapped().begin().has_unique(ST_SEQUENCES_ID, 8),
{
    lemma_system_tables();
    lemma_sequences_in_use();
    let f = system_tables().build_sequence_state().0;
    let indexes = in_key_order::<RowId, Row>(f.committed_rows(ST_INDEXES_ID));
    assert(tables_fit(f)) by {
        assert forall|t: u32| #[trigger] f.committed.contains_key(t) implies is_system_model(
            t,
            f.committed[t],
        ) by {
            assert(system_tables().committed.contains_key(t));
        }
    }
    assert forall|t: u32| t <= ST_INDEXES_ID implies #[trigger] f.committed.contains_key(t) by {
        assert(system_tables().committed.contains_key(t));
    }
    lemma_indexes_used(f, indexes, indexes.len());
    lemma_indexes_of_keys(f, indexes, indexes.len());
    lemma_system_indexes_are_listed();
    lemma_listed_index_is_there(st_table_model().indexes[0]);
    lemma_listed_index_is_there(name_index());
    lemma_listed_index_is_there(st_indexes_model().indexes[0]);
    lemma_listed_index_is_there(st_sequences_model().indexes[0]);
    let db = bootstrapped().begin();
    assert forall|st: u32| st <= ST_INDEXES_ID implies #[trigger] catalogue_in_form(
        db,
        st,
        system_width(st),
        system_keys(st),
    ) by {
        assert(f.committed.contains_key(st));
        assert(bootstrapped().committed.dom().contains(st));
        let table = bootstrapped().committed[st];
        let j: int = if st == ST_TABLES_ID {
            0
        } else if st == ST_COLUMNS_ID {
            1
        } else if st == ST_INDEXES_ID {
            2
        } else {
            3
        };
        assert(system_schemas()[j] == system_schema(st));
        assert(bootstrapped().committed_rows(st) == f.committed_rows(st));
        assert(all_fit(st, f.committed_rows(st)));
        assert forall|k: Key| #[trigger] table.rows.contains_key(k) implies table.rows[k].len()
            == system_width(st) by {
            assert(row_fits(st, f.committed_rows(st)[k]));
        }
        assert forall|i: int|
            0 <= i < table.schema.columns.len() && (#[trigger] table.schema.columns[i]).is_autoinc
                implies table.schema.columns[i].col_id == 0 by {
            lemma_first_column_fills_itself(j, i);
        }
        assert forall|c: u32| c < system_keys(st) implies #[trigger] table.indexes.contains_key(c)
            && table.indexes[c].is_unique by {
            assert(c == 0 || c == 1);
        }
    }
    assert(catalogue_in_form(
        db,
        ST_TABLES_ID,
        system_width(ST_TABLES_ID),
        system_keys(ST_TABLES_ID),
    ));
    assert(catalogue_in_form(
        db,
        ST_COLUMNS_ID,
        system_width(ST_COLUMNS_ID),
        system_keys(ST_COLUMNS_ID),
    ));
    assert(catalogue_in_form(
        db,
        ST_SEQUENCES_ID,
        system_width(ST_SEQUENCES_ID),
        system_keys(ST_SEQUENCES_ID),
    ));
    assert(catalogue_in_form(
        db,
        ST_INDEXES_ID,
        system_width(ST_INDEXES_ID),
        system_keys(ST_INDEXES_ID),
    ));
    assert(f.committed.contains_key(ST_SEQUENCES_ID));
    if db.has_unique(ST_SEQUENCES_ID, 8) {
        assert(bootstrapped().committed[ST_SEQUENCES_ID].indexes.contains_key(8));
    }
}

/// A sequence that was put into use is one of those that are listed.
proof fn lemma_used_sequence_is_listed(db: DbModel, rows: Seq<Row>, n: nat, s: u32)
    requires
        n <= rows.len(),
        db.sequences == Map::<u32, SequenceModel>::empty(),
        db.use_sequences(rows, n).0.sequences.contains_key(s),
    ensures
        exists|i: int|
            0 <= i < n && SequenceModel::of_row(#[trigger] rows[i]) == Ok::<SequenceModel, Fault>(
                db.use_sequences(rows, n).0.sequences[s],
            ) && db.use_sequences(rows, n).0.sequences[s].sequence_id == s,
    decreases n,
{
    if n > 0 {
        let (mid, r) = db.use_sequences(rows, (n - 1) as nat);
        let q = db.use_sequences(rows, n).0.sequences[s];
        if r is Ok && SequenceModel::of_row(rows[n - 1]) == Ok::<SequenceModel, Fault>(q)
            && q.sequence_id == s {
        } else {
            assert(mid.sequences.contains_key(s) && mid.sequences[s] == q);
            lemma_used_sequence_is_listed(db, rows, (n - 1) as nat, s);
            let i = choose|i: int|
                0 <= i < n - 1 && SequenceModel::of_row(#[trigger] rows[i]) == Ok::<
                    SequenceModel,
                    Fault,
                >(q);
            assert(SequenceModel::of_row(rows[i]) == Ok::<SequenceModel, Fault>(q));
        }
    }
}

/// Every sequence is within its allocation at first.
pub proof fn law_first_sequences_are_within_allocation(s: u32)
    ensures
        within_allocation(bootstrapped().begin(), s),
{
    let st = ST_SEQUENCES_ID;
    lemma_bootstrapped_is_idle();
    lemma_system_tables();
    lemma_sequences_in_use();
    let e = system_tables();
    let f = e.build_sequence_state().0;
    let indexes = in_key_order::<RowId, Row>(f.committed_rows(ST_INDEXES_ID));
    lemma_indexes_used(f, indexes, indexes.len());
    let db = bootstrapped().begin();
    let m = e.committed_rows(st);
    assert(bootstrapped().committed_rows(st) == f.committed_rows(st));
    assert(db.committed_rows(st) == m);
    assert(db.visible(st) =~= m);
    assert(all_fit(st, m));
    if db.sequences.contains_key(s) {
        let rows = in_key_order::<RowId, Row>(m);
        lemma_used_sequence_is_listed(e, rows, rows.len(), s);
        let q = db.sequences[s];
        let i = choose|i: int|
            0 <= i < rows.len() && SequenceModel::of_row(#[trigger] rows[i]) == Ok::<
                SequenceModel,
                Fault,
            >(q) && q.sequence_id == s;
        lemma_rows_in_order(m, i);
        let own = choose|k: Key| #[trigger] m.contains_key(k) && rows[i] == m[k];
        assert forall|k: Key| #[trigger]
            m.contains_key(k) && lists(m[k], s) implies SequenceModel::of_row(
            m[k],
        )->Ok_0.allocated == q.allocated by {
            assert(m.contains_key(own));
            assert(row_fits(st, m[k]) && row_fits(st, m[own]));
            assert(m[k][0] == Value::U32(s) && m[own][0] == Value::U32(s));
            lemma_system_sequence_ids(m[k], m[own]);
        }
    }
}

/// The first state has the system tables, a unique index on the names of tables, and no two tables
/// of the same name. No hash stands for anything.
pub proof fn law_first_state()
    ensures
        bootstrapped().tx is None,
        forall|key: Key| key is Hash ==> #[trigger] bootstrapped().resolve_data_key(key) is None,
        forall|t: u32| t <= ST_INDEXES_ID ==> #[trigger] bootstrapped().committed.contains_key(t),
        bootstrapped().begin().has_unique(ST_TABLES_ID, 1),
        distinct_values(bootstrapped().begin().visible(ST_TABLES_ID), 1),
{
    lemma_bootstrapped_is_idle();
    lemma_system_tables();
    lemma_sequences_in_use();
    let f = system_tables().build_sequence_state().0;
    let indexes = in_key_order::<RowId, Row>(f.committed_rows(ST_INDEXES_ID));
    lemma_indexes_used(f, indexes, indexes.len());
    lemma_system_indexes_are_listed();
    lemma_listed_index_is_there(name_index());
    let db = bootstrapped();
    assert forall|t: u32| t <= ST_INDEXES_ID implies #[trigger] db.committed.contains_key(t) by {
        assert(f.committed.contains_key(t));
        assert(db.committed.dom().contains(t));
    }
    assert(db.committed.contains_key(ST_TABLES_ID));
    assert(db.begin().base(ST_TABLES_ID).indexes.contains_key(1));
    let names = db.begin().visible(ST_TABLES_ID);
    assert(db.committed_rows(ST_TABLES_ID) == f.committed_rows(ST_TABLES_ID));
    assert(db.begin().committed_rows(ST_TABLES_ID) == f.committed_rows(ST_TABLES_ID));
    assert(names =~= f.committed_rows(ST_TABLES_ID));
    assert(all_fit(ST_TABLES_ID, names));
    lemma_first_values_distinct(ST_TABLES_ID, names, 1);
}

} // verus!
