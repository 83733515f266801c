//! Making, changing and dropping tables, indexes and sequences.

use vstd::prelude::*;
use vstd::string::StringExecFns;

use std::sync::Arc;

use crate::btree_index::{
    all_have_column, column_of, one_row_per_value, BTreeIndex, IndexModel,
};
use crate::data_key::{row_key, Key, RowId};
use crate::datastore::{outcome, Inner};
use crate::error::{DBError, Fault, IndexError, SequenceError, TableError};
use crate::ids::{
    IndexId, SequenceId, TableId, ST_COLUMNS_ID, ST_INDEXES_ID, ST_SEQUENCES_ID, ST_TABLES_ID,
};
use crate::iter::rows_read;
use crate::laws::{law_scan_yields_visible_rows, lists_once};
use crate::messages::Transaction;
use crate::model::{merge_writes, new_index, new_sequence, new_table, DbModel};
use crate::ordered::lemma_take_set;
use crate::schema::{
    ColumnDef, IndexDef, IndexDefModel, IndexSchema, SequenceDef, TableDef, TableDefModel,
    TableSchema,
};
use crate::sequence::Sequence;
use crate::soundness::{
    lemma_commit_inv, lemma_drop_index_inv, lemma_new_table_inv, lemma_same_rows_inv,
    lemma_seen_under_key, lemma_set_index_inv, lemma_without_table_inv,
};
use crate::state::TxState;
use crate::system_tables::{StColumnRow, StIndexRow, StSequenceRow, StTableRow};
use crate::table::Table;
use crate::types::ProductType;
use crate::value::{AlgebraicValue, ProductValue, Row};

verus! {

/// `o`, or else `other`.
fn or_else(o: Option<i128>, other: i128) -> (r: i128)
    ensures
        r == crate::model::or_else(o, other),
{
    match o {
        Some(x) => x,
        None => other,
    }
}

impl Inner {
    /// Makes a sequence.
    pub(crate) fn create_sequence(&mut self, seq: SequenceDef) -> (r: Result<SequenceId, DBError>)
        requires
            old(self).in_tx(),
        ensures
            final(self).in_tx(),
            (final(self)@, outcome(r)) == old(self)@.create_sequence(seq@),
    {
        let ghost def = seq@;
        match self.seek_rows(
            ST_SEQUENCES_ID,
            1,
            &AlgebraicValue::String(seq.sequence_name.clone()),
        ) {
            Ok(rows) => {
                assert(rows_read(rows@).len() == rows@.len());
                if rows.len() > 0 {
                    return Err(DBError::Sequence(SequenceError::Exist(seq.sequence_name)));
                }
            },
            Err(e) => {
                return Err(e);
            },
        }
        let start: i128 = or_else(seq.start, 1);
        let min_value: i128 = or_else(seq.min_value, 1);
        let max_value: i128 = or_else(seq.max_value, i128::MAX);
        let sequence_row = StSequenceRow {
            sequence_id: 0,
            sequence_name: seq.sequence_name,
            table_id: seq.table_id,
            col_id: seq.col_id,
            increment: seq.increment,
            start,
            min_value,
            max_value,
            allocated: 0,
        };
        assert(sequence_row@ =~= new_sequence(def));
        let row = match self.insert_row(TableId(ST_SEQUENCES_ID), sequence_row.to_row()) {
            Ok(row) => row,
            Err(e) => {
                return Err(e);
            },
        };
        let sequence_row = match StSequenceRow::try_from(&row) {
            Ok(sequence_row) => sequence_row,
            Err(e) => {
                return Err(e);
            },
        };
        let sequence_id: u32 = sequence_row.sequence_id;
        let ghost q = sequence_row@;
        let ghost was = self@;
        let ghost after = was.put_sequence(sequence_id, q);
        proof {
            self.lemma_in_order();
            lemma_same_rows_inv(was, was.with_sequence(sequence_id, q));
            lemma_same_rows_inv(was, after);
        }
        let new: bool = !self.sequence_state.sequences.contains_key(&sequence_id);
        self.sequence_state.sequences.insert(sequence_id, Sequence::new(sequence_row.to_schema()));
        assert(self@.sequences =~= was.sequences.insert(sequence_id, q));
        assert(self@ =~= was.with_sequence(sequence_id, q));
        let tx = self.tx_mut();
        tx.make_sequence(sequence_id, new);
        assert(self@ =~= after);
        Ok(SequenceId(sequence_id))
    }

    /// Deletes the last of `rows` from a table.
    fn delete_last(&mut self, table_id: u32, rows: &Vec<ProductValue>)
        requires
            old(self).in_tx(),
        ensures
            final(self).in_tx(),
            final(self)@ == if rows@.len() > 0 {
                old(self)@.delete_row(
                    table_id,
                    row_key(rows_read(rows@).last()),
                ).0
            } else {
                old(self)@
            },
    {
        if rows.len() > 0 {
            let row = &rows[rows.len() - 1];
            assert(rows_read(rows@).last() == row@);
            let row_id = RowId(row.to_data_key());
            self.delete_row(&TableId(table_id), &row_id);
        }
    }

    /// Takes a sequence out of the catalogue and out of use.
    pub(crate) fn drop_sequence(&mut self, seq_id: SequenceId) -> (r: Result<(), DBError>)
        requires
            old(self).in_tx(),
        ensures
            final(self).in_tx(),
            (final(self)@, outcome(r)) == old(self)@.drop_sequence(seq_id.0),
    {
        let rows = match self.seek_rows(ST_SEQUENCES_ID, 0, &AlgebraicValue::U32(seq_id.0)) {
            Ok(rows) => rows,
            Err(e) => {
                return Err(e);
            },
        };
        assert(rows_read(rows@).len() == rows@.len());
        self.delete_last(ST_SEQUENCES_ID, &rows);
        let ghost after = self@.without_sequence(seq_id.0);
        proof {
            self.lemma_in_order();
            lemma_same_rows_inv(self@, after);
        }
        let tx = self.tx_mut();
        tx.drop_sequence(seq_id.0);
        assert(self@ =~= after);
        Ok(())
    }

    /// Lists one column of a table in the catalogue, and makes its sequence where it needs one.
    fn create_column(&mut self, table_id: u32, table_name: &String, col_id: u32, col: &ColumnDef) -> (r: Result<
        (),
        DBError,
    >)
        requires
            old(self).in_tx(),
        ensures
            final(self).in_tx(),
            (final(self)@, outcome(r)) == old(self)@.create_column(
                table_id,
                table_name@,
                col_id,
                col@,
            ),
    {
        proof {
            reveal(DbModel::create_column);
        }
        let listed = StColumnRow {
            table_id,
            col_id,
            col_name: col.col_name.clone(),
            col_type: col.col_type.clone(),
            is_autoinc: col.is_autoinc,
        };
        match self.insert_row(TableId(ST_COLUMNS_ID), listed.to_row()) {
            Ok(_) => {},
            Err(e) => {
                return Err(e);
            },
        }
        if col.is_autoinc {
            let mut sequence_name = table_name.clone();
            sequence_name.append("_");
            sequence_name.append(col.col_name.as_str());
            sequence_name.append("_seq");
            proof {
                reveal_strlit("_");
                assert("_"@ =~= seq!['_']);
            }
            let def = SequenceDef {
                sequence_name,
                table_id,
                col_id,
                increment: 1,
                start: Some(1),
                min_value: Some(1),
                max_value: None,
            };
            match self.create_sequence(def) {
                Ok(_) => {},
                Err(e) => {
                    return Err(e);
                },
            }
        }
        Ok(())
    }

    /// Lists the columns of a table.
    fn create_columns(&mut self, table_id: u32, def: &TableDef) -> (r: Result<(), DBError>)
        requires
            old(self).in_tx(),
        ensures
            final(self).in_tx(),
            (final(self)@, outcome(r)) == old(self)@.create_columns(
                table_id,
                def@,
                def@.columns.len(),
            ),
    {
        let n: usize = def.columns.len();
        for i in 0..n
            invariant
                n == def.columns@.len(),
                self.in_tx(),
                (self@, Ok::<(), Fault>(())) == old(self)@.create_columns(
                    table_id,
                    def@,
                    i as nat,
                ),
        {
            assert(def@.columns[i as int] == def.columns@[i as int]@);
            match self.create_column(
                table_id,
                &def.table_name,
                #[verifier::truncate] (i as u32),
                &def.columns[i],
            ) {
                Ok(_) => {},
                Err(e) => {
                    proof {
                        lemma_create_columns_err(
                            old(self)@,
                            table_id,
                            def@,
                            (i + 1) as nat,
                            def@.columns.len(),
                        );
                    }
                    return Err(e);
                },
            }
        }
        Ok(())
    }

    /// Makes the indexes of a table.
    fn create_indexes(&mut self, table_id: u32, def: &TableDef) -> (r: Result<(), DBError>)
        requires
            old(self).in_tx(),
        ensures
            final(self).in_tx(),
            (final(self)@, outcome(r)) == old(self)@.create_indexes(
                table_id,
                def@,
                def@.indexes.len(),
            ),
    {
        let n: usize = def.indexes.len();
        for i in 0..n
            invariant
                n == def.indexes@.len(),
                self.in_tx(),
                (self@, Ok::<(), Fault>(())) == old(self)@.create_indexes(
                    table_id,
                    def@,
                    i as nat,
                ),
        {
            assert(def@.indexes[i as int] == def.indexes@[i as int]@);
            let mut index = def.indexes[i].clone();
            index.table_id = table_id;
            assert(index@ =~= (IndexDefModel { table_id, ..def@.indexes[i as int] }));
            match self.create_index(index) {
                Ok(_) => {},
                Err(e) => {
                    proof {
                        lemma_create_indexes_err(
                            old(self)@,
                            table_id,
                            def@,
                            (i + 1) as nat,
                            def@.indexes.len(),
                        );
                    }
                    return Err(e);
                },
            }
        }
        Ok(())
    }

    /// Makes a table.
    pub(crate) fn create_table(&mut self, table_schema: TableDef) -> (r: Result<TableId, DBError>)
        requires
            old(self).in_tx(),
        ensures
            final(self).in_tx(),
            (final(self)@, outcome(r)) == old(self)@.create_table(table_schema@),
    {
        let listed = StTableRow { table_id: 0, table_name: table_schema.table_name.clone() };
        let row = match self.insert_row(TableId(ST_TABLES_ID), listed.to_row()) {
            Ok(row) => row,
            Err(e) => {
                return Err(e);
            },
        };
        let table_id: u32 = match StTableRow::try_from(&row) {
            Ok(el) => el.table_id,
            Err(e) => {
                return Err(e);
            },
        };
        match self.create_columns(table_id, &table_schema) {
            Ok(_) => {},
            Err(e) => {
                return Err(e);
            },
        }
        if self.table_exists(&TableId(table_id)) {
            return Err(DBError::Table(TableError::IdTaken(table_id)));
        }
        let schema = match self.schema_for_table(TableId(table_id)) {
            Ok(schema) => schema,
            Err(e) => {
                return Err(e);
            },
        };
        self.create_table_internal(TableId(table_id), table_schema.get_row_type(), schema);
        match self.create_indexes(table_id, &table_schema) {
            Ok(_) => {},
            Err(e) => {
                return Err(e);
            },
        }
        Ok(TableId(table_id))
    }

    /// Puts a table into memory, with neither rows nor indexes.
    fn create_table_internal(
        &mut self,
        table_id: TableId,
        row_type: ProductType,
        schema: TableSchema,
    )
        requires
            old(self).in_tx(),
            !old(self)@.table_exists(table_id.0),
        ensures
            final(self).in_tx(),
            final(self)@ == old(self)@.with_inserts(table_id.0, new_table(row_type@, schema@)),
    {
        let table = Table::new(row_type, schema);
        proof {
            self.lemma_in_order();
            lemma_new_table_inv(self@, table_id.0, row_type@, schema@);
        }
        let tx = self.tx_mut();
        tx.set_insert_table(table_id, table);
        assert(self@ =~= old(self)@.with_inserts(table_id.0, new_table(row_type@, schema@)));
    }

    /// Makes an index.
    pub(crate) fn create_index(&mut self, index: IndexDef) -> (r: Result<IndexId, DBError>)
        requires
            old(self).in_tx(),
        ensures
            final(self).in_tx(),
            (final(self)@, outcome(r)) == old(self)@.create_index(index@),
    {
        match self.seek_rows(ST_INDEXES_ID, 3, &AlgebraicValue::String(index.name.clone())) {
            Ok(rows) => {
                assert(rows_read(rows@).len() == rows@.len());
                if rows.len() > 0 {
                    return Err(DBError::Index(IndexError::Exist(index.name)));
                }
            },
            Err(e) => {
                return Err(e);
            },
        }
        let listed = StIndexRow {
            index_id: 0,
            table_id: index.table_id,
            col_id: index.col_id,
            index_name: index.name.clone(),
            is_unique: index.is_unique,
        };
        assert(listed@ =~= new_index(0, index@));
        let row = match self.insert_row(TableId(ST_INDEXES_ID), listed.to_row()) {
            Ok(row) => row,
            Err(e) => {
                return Err(e);
            },
        };
        let index_id: u32 = match StIndexRow::try_from(&row) {
            Ok(el) => el.index_id,
            Err(e) => {
                return Err(e);
            },
        };
        if !self.table_exists(&TableId(index.table_id)) {
            return Err(DBError::Table(TableError::IdNotFound(index.table_id)));
        }
        match self.create_index_internal(IndexId(index_id), &index) {
            Ok(_) => Ok(IndexId(index_id)),
            Err(e) => Err(e),
        }
    }

    /// Whether a column of a table has an index.
    fn has_index(&self, table_id: TableId, col_id: u32) -> (r: bool)
        requires
            self.in_tx(),
        ensures
            r == self@.has_index(table_id.0, col_id),
    {
        match self.tx().get_insert_table(&table_id) {
            Some(table) => {
                assert(table@.indexes.contains_key(col_id) <==> table.indexes@.contains_key(
                    col_id,
                ));
                if table.indexes.contains_key(&col_id) {
                    return true;
                }
            },
            None => {},
        }
        match self.base_table(&table_id) {
            Some(table) => {
                assert(table@.indexes.contains_key(col_id) <==> table.indexes@.contains_key(
                    col_id,
                ));
                match table.indexes.get(&col_id) {
                    Some(index) => !self.tx().dropped_indexes.contains_key(&index.index_id.0),
                    None => false,
                }
            },
            None => false,
        }
    }

    /// The index of a column over the rows that are seen. Each must have the column, and where the
    /// index is unique, no two the same value in it.
    fn build_seen_index(&self, index_id: IndexId, index: &IndexDef) -> (r: Result<
        BTreeIndex,
        DBError,
    >)
        requires
            self.in_tx(),
            self@.table_exists(index.table_id),
        ensures
            ({
                let seen = self@.visible(index.table_id);
                match r {
                    Ok(x) => {
                        &&& all_have_column(seen, index.col_id)
                        &&& index.is_unique ==> one_row_per_value(column_of(seen, index.col_id))
                        &&& x.wf()
                        &&& x@ == (IndexModel {
                            index_id: index_id.0,
                            table_id: index.table_id,
                            col_id: index.col_id,
                            name: index.name@,
                            is_unique: index.is_unique,
                            entries: column_of(seen, index.col_id),
                        })
                    },
                    Err(e) => if !all_have_column(seen, index.col_id) {
                        e@ == Fault::InvalidField(index.col_id)
                    } else {
                        &&& index.is_unique
                        &&& !one_row_per_value(column_of(seen, index.col_id))
                        &&& e@ == (Fault::NotUnique {
                            index_name: index.name@,
                            table_id: index.table_id,
                            col_id: index.col_id,
                        })
                    },
                }
            }),
    {
        let ghost t = index.table_id;
        let ghost c = index.col_id;
        let ghost seen = self@.visible(t);
        let rows = match self.scan(&TableId(index.table_id)) {
            Ok(iter) => iter.collect(),
            Err(e) => {
                assert(false);
                return Err(e);
            },
        };
        let ghost all = rows_read(rows@);
        let ghost ks = choose|ks: Seq<Key>| #[trigger]
            lists_once(ks, seen.dom()) && all == ks.map_values(|k: Key| seen[k]);
        proof {
            self.lemma_in_order();
            law_scan_yields_visible_rows(self@, t);
            assert(all.len() == rows@.len());
            assert forall|i: int| 0 <= i < ks.len() implies {
                &&& seen.contains_key(#[trigger] ks[i])
                &&& rows@[i]@ == seen[ks[i]]
                &&& row_key(seen[ks[i]]) == ks[i]
            } by {
                assert(ks.to_set().contains(ks[i]));
                assert(all[i] == rows@[i]@);
                lemma_seen_under_key(self@, t, ks[i]);
            }
        }
        let n: usize = rows.len();
        for i in 0..n
            invariant
                n == rows@.len(),
                n == ks.len(),
                c == index.col_id,
                seen == self@.visible(index.table_id),
                forall|i: int|
                    0 <= i < ks.len() ==> seen.contains_key(#[trigger] ks[i]) && rows@[i]@
                        == seen[ks[i]],
                forall|j: int| 0 <= j < i ==> c < seen[#[trigger] ks[j]].len(),
        {
            assert(seen.contains_key(ks[i as int]));
            if (index.col_id as usize) >= rows[i].elements.len() {
                return Err(DBError::InvalidField(index.col_id));
            }
        }
        assert forall|k: Key| #[trigger] seen.contains_key(k) implies c < seen[k].len() by {
            assert(ks.to_set().contains(k));
            let i = choose|i: int| 0 <= i < ks.len() && ks[i] == k;
            assert(c < seen[ks[i]].len());
        }
        let mut x = BTreeIndex::new(
            index_id,
            index.table_id,
            index.col_id,
            index.name.clone(),
            index.is_unique,
        );
        let ghost bare = x@;
        assert(x@.entries =~= column_of(seen.restrict(ks.take(0).to_set()), c));
        for i in 0..n
            invariant
                n == rows@.len(),
                n == ks.len(),
                x.wf(),
                c == index.col_id,
                seen == self@.visible(index.table_id),
                bare.col_id == c,
                bare.is_unique == index.is_unique,
                lists_once(ks, seen.dom()),
                all_have_column(seen, c),
                forall|i: int|
                    0 <= i < ks.len() ==> seen.contains_key(#[trigger] ks[i]) && rows@[i]@
                        == seen[ks[i]] && row_key(seen[ks[i]]) == ks[i],
                x@ == (IndexModel {
                    entries: column_of(seen.restrict(ks.take(i as int).to_set()), c),
                    ..bare
                }),
                index.is_unique ==> one_row_per_value(x@.entries),
        {
            let ghost small = seen.restrict(ks.take(i as int).to_set());
            let ghost big = seen.restrict(ks.take(i + 1).to_set());
            let ghost k = ks[i as int];
            let ghost before = x@.entries;
            let row = &rows[i];
            proof {
                assert(seen.contains_key(k));
                assert(row@[c as int] == row.elements@[c as int]@);
                lemma_take_set(ks, i as int);
                assert(big =~= small.insert(k, seen[k]));
            }
            if index.is_unique && x.contains_any(&row.elements[index.col_id as usize]) {
                proof {
                    let v = row@[c as int];
                    let j = choose|j: Key| #[trigger] x@.holding(v).contains(j);
                    let e = column_of(seen, c);
                    assert(small.contains_key(j));
                    assert(ks.take(i as int).contains(j));
                    let a = choose|a: int| 0 <= a < i && ks.take(i as int)[a] == j;
                    assert(ks[a] != ks[i as int]);
                    assert(e.contains_key(j) && e.contains_key(k) && e[j] == e[k]);
                }
                return Err(
                    DBError::Index(
                        IndexError::NotUnique {
                            index_name: index.name.clone(),
                            table_id: index.table_id,
                            col_id: index.col_id,
                        },
                    ),
                );
            }
            let row_id = RowId(row.to_data_key());
            x.insert(&row_id, row);
            proof {
                let e = x@.entries;
                assert(e =~= column_of(big, c));
                assert(x@ =~= (IndexModel { entries: column_of(big, c), ..bare }));
                if index.is_unique {
                    assert forall|a: Key, b: Key|
                        #![trigger e.contains_key(a), e.contains_key(b)]
                        e.contains_key(a) && e.contains_key(b) && a != b implies e[a] != e[b] by {
                        let other = if a == k { b } else { a };
                        assert(before.contains_key(other));
                        if before[other] == e[k] {
                            let was = IndexModel { entries: before, ..bare };
                            assert(was.holding(seen[k][c as int]).contains(other));
                        }
                        if a != k && b != k {
                            assert(before.contains_key(a) && before.contains_key(b));
                        }
                    }
                }
            }
        }
        proof {
            assert(ks.take(ks.len() as int) =~= ks);
            assert(seen.restrict(ks.to_set()) =~= seen);
        }
        Ok(x)
    }

    /// Makes an index in memory, over the rows that are seen.
    fn create_index_internal(&mut self, index_id: IndexId, index: &IndexDef) -> (r: Result<
        (),
        DBError,
    >)
        requires
            old(self).in_tx(),
            old(self)@.table_exists(index.table_id),
        ensures
            final(self).in_tx(),
            (final(self)@, outcome(r)) == old(self)@.create_index_internal(index_id.0, index@),
    {
        let table_id = TableId(index.table_id);
        match self.ensure_insert_table(table_id) {
            Ok(_) => {},
            Err(e) => {
                return Err(e);
            },
        }
        let ghost t = table_id.0;
        let ghost db = self@;
        if self.has_index(table_id, index.col_id) {
            return Err(
                DBError::Index(
                    IndexError::ColumnIndexed { table_id: index.table_id, col_id: index.col_id },
                ),
            );
        }
        let insert_index = match self.build_seen_index(index_id, index) {
            Ok(insert_index) => insert_index,
            Err(e) => {
                return Err(e);
            },
        };
        let ghost full = insert_index@;
        let schema = IndexSchema {
            index_id: index_id.0,
            table_id: index.table_id,
            col_id: index.col_id,
            index_name: index.name.clone(),
            is_unique: index.is_unique,
        };
        assert(schema@ =~= new_index(index_id.0, index@));
        let ghost table = db.inserts(t).set_index(full, new_index(index_id.0, index@));
        proof {
            self.lemma_in_order();
            lemma_set_index_inv(db, t, full, new_index(index_id.0, index@));
            let after = db.with_inserts(t, table);
            assert(after.has_inserts(t));
            assert(after.inserts(t).indexes.contains_key(full.col_id));
            assert(full.covers(db.inserts(t).rows));
        }
        let tx = self.tx_mut();
        match tx.get_insert_table_mut(&table_id) {
            Some(insert_table) => {
                insert_table.set_index(insert_index, schema);
            },
            None => {},
        }
        assert(self@ =~= db.with_inserts(t, table));
        Ok(())
    }

    /// Takes an index out of the catalogue and out of memory.
    pub(crate) fn drop_index(&mut self, index_id: &IndexId) -> (r: Result<(), DBError>)
        requires
            old(self).in_tx(),
        ensures
            final(self).in_tx(),
            (final(self)@, outcome(r)) == old(self)@.drop_index(index_id.0),
    {
        let rows = match self.seek_rows(ST_INDEXES_ID, 0, &AlgebraicValue::U32(index_id.0)) {
            Ok(rows) => rows,
            Err(e) => {
                return Err(e);
            },
        };
        assert(rows_read(rows@).len() == rows@.len());
        self.delete_last(ST_INDEXES_ID, &rows);
        self.drop_index_internal(index_id);
        Ok(())
    }

    /// Takes an index out of memory, for the transaction.
    fn drop_index_internal(&mut self, index_id: &IndexId)
        requires
            old(self).in_tx(),
        ensures
            final(self).in_tx(),
            final(self)@ == old(self)@.drop_index_internal(index_id.0),
    {
        let ghost after = self@.drop_index_internal(index_id.0);
        proof {
            self.lemma_in_order();
            lemma_drop_index_inv(self@, index_id.0);
        }
        let tx = self.tx_mut();
        tx.drop_index(index_id.0);
        assert(self@ =~= after);
    }

    /// Drops the indexes that `rows` describe.
    fn drop_indexes(&mut self, rows: &Vec<ProductValue>) -> (r: Result<(), DBError>)
        requires
            old(self).in_tx(),
        ensures
            final(self).in_tx(),
            (final(self)@, outcome(r)) == old(self)@.drop_indexes(
                rows_read(rows@),
                rows@.len(),
            ),
    {
        let n: usize = rows.len();
        for i in 0..n
            invariant
                n == rows@.len(),
                self.in_tx(),
                (self@, Ok::<(), Fault>(())) == old(self)@.drop_indexes(
                    rows_read(rows@),
                    i as nat,
                ),
        {
            assert(rows_read(rows@)[i as int] == rows@[i as int]@);
            let dropped = match StIndexRow::try_from(&rows[i]) {
                Ok(el) => self.drop_index(&IndexId(el.index_id)),
                Err(e) => Err(e),
            };
            match dropped {
                Ok(_) => {},
                Err(e) => {
                    proof {
                        lemma_drop_indexes_err(
                            old(self)@,
                            rows_read(rows@),
                            (i + 1) as nat,
                            rows@.len(),
                        );
                    }
                    return Err(e);
                },
            }
        }
        Ok(())
    }

    /// Drops the sequences that `rows` describe.
    fn drop_sequences(&mut self, rows: &Vec<ProductValue>) -> (r: Result<(), DBError>)
        requires
            old(self).in_tx(),
        ensures
            final(self).in_tx(),
            (final(self)@, outcome(r)) == old(self)@.drop_sequences(
                rows_read(rows@),
                rows@.len(),
            ),
    {
        let n: usize = rows.len();
        for i in 0..n
            invariant
                n == rows@.len(),
                self.in_tx(),
                (self@, Ok::<(), Fault>(())) == old(self)@.drop_sequences(
                    rows_read(rows@),
                    i as nat,
                ),
        {
            assert(rows_read(rows@)[i as int] == rows@[i as int]@);
            let dropped = match StSequenceRow::try_from(&rows[i]) {
                Ok(el) => self.drop_sequence(SequenceId(el.sequence_id)),
                Err(e) => Err(e),
            };
            match dropped {
                Ok(_) => {},
                Err(e) => {
                    proof {
                        lemma_drop_sequences_err(
                            old(self)@,
                            rows_read(rows@),
                            (i + 1) as nat,
                            rows@.len(),
                        );
                    }
                    return Err(e);
                },
            }
        }
        Ok(())
    }

    /// Deletes from the table of tables what it lists for a table.
    fn drop_table_from_st_tables(&mut self, table_id: TableId) -> (r: Result<(), DBError>)
        requires
            old(self).in_tx(),
        ensures
            final(self).in_tx(),
            (final(self)@, outcome(r)) == old(self)@.drop_listed(ST_TABLES_ID, table_id.0),
    {
        let rows = match self.seek_rows(ST_TABLES_ID, 0, &AlgebraicValue::U32(table_id.0)) {
            Ok(rows) => rows,
            Err(e) => {
                return Err(e);
            },
        };
        assert(rows_read(rows@).len() == rows@.len());
        if rows.len() == 0 {
            return Err(DBError::Table(TableError::IdNotFound(table_id.0)));
        }
        self.delete_rows_in(&TableId(ST_TABLES_ID), &rows);
        Ok(())
    }

    /// Deletes from the table of columns what it lists for a table.
    fn drop_table_from_st_columns(&mut self, table_id: TableId) -> (r: Result<(), DBError>)
        requires
            old(self).in_tx(),
        ensures
            final(self).in_tx(),
            (final(self)@, outcome(r)) == old(self)@.drop_listed(ST_COLUMNS_ID, table_id.0),
    {
        let rows = match self.seek_rows(ST_COLUMNS_ID, 0, &AlgebraicValue::U32(table_id.0)) {
            Ok(rows) => rows,
            Err(e) => {
                return Err(e);
            },
        };
        assert(rows_read(rows@).len() == rows@.len());
        if rows.len() == 0 {
            return Err(DBError::Table(TableError::IdNotFound(table_id.0)));
        }
        self.delete_rows_in(&TableId(ST_COLUMNS_ID), &rows);
        Ok(())
    }

    /// Drops a table whose indexes are gone.
    fn drop_table_without_indexes(&mut self, table_id: TableId) -> (r: Result<(), DBError>)
        requires
            old(self).in_tx(),
        ensures
            final(self).in_tx(),
            (final(self)@, outcome(r)) == old(self)@.drop_table_without_indexes(table_id.0),
    {
        let rows = match self.seek_rows(ST_SEQUENCES_ID, 2, &AlgebraicValue::U32(table_id.0)) {
            Ok(rows) => rows,
            Err(e) => {
                return Err(e);
            },
        };
        assert(rows_read(rows@).len() == rows@.len());
        match self.drop_sequences(&rows) {
            Ok(_) => {},
            Err(e) => {
                return Err(e);
            },
        }
        self.delete_rows_in(&TableId(ST_SEQUENCES_ID), &rows);
        match self.drop_table_from_st_columns(table_id) {
            Ok(_) => {},
            Err(e) => {
                return Err(e);
            },
        }
        match self.drop_table_from_st_tables(table_id) {
            Ok(_) => {},
            Err(e) => {
                return Err(e);
            },
        }
        let ghost after = self@.without_table(table_id.0);
        proof {
            self.lemma_in_order();
            lemma_without_table_inv(self@, table_id.0);
        }
        let tx = self.tx_mut();
        tx.drop_table(table_id);
        assert(self@ =~= after);
        Ok(())
    }

    /// Drops a table.
    pub(crate) fn drop_table(&mut self, table_id: TableId) -> (r: Result<(), DBError>)
        requires
            old(self).in_tx(),
        ensures
            final(self).in_tx(),
            (final(self)@, outcome(r)) == old(self)@.drop_table(table_id.0),
    {
        let rows = match self.seek_rows(ST_INDEXES_ID, 1, &AlgebraicValue::U32(table_id.0)) {
            Ok(rows) => rows,
            Err(e) => {
                return Err(e);
            },
        };
        assert(rows_read(rows@).len() == rows@.len());
        match self.drop_indexes(&rows) {
            Ok(_) => {
                self.delete_rows_in(&TableId(ST_INDEXES_ID), &rows);
                self.drop_table_without_indexes(table_id)
            },
            Err(e) => Err(e),
        }
    }

    /// Gives a table another name in the catalogue.
    pub(crate) fn rename_table(&mut self, table_id: TableId, new_name: &str) -> (r: Result<
        (),
        DBError,
    >)
        requires
            old(self).in_tx(),
        ensures
            final(self).in_tx(),
            (final(self)@, outcome(r)) == old(self)@.rename_table(table_id.0, new_name@),
    {
        let rows = match self.seek_rows(ST_TABLES_ID, 0, &AlgebraicValue::U32(table_id.0)) {
            Ok(rows) => rows,
            Err(e) => {
                return Err(e);
            },
        };
        assert(rows_read(rows@).len() == rows@.len());
        if rows.len() == 0 {
            return Err(DBError::Table(TableError::IdNotFound(table_id.0)));
        }
        assert(rows_read(rows@)[0] == rows@[0]@);
        let row_id = RowId(rows[0].to_data_key());
        let mut el = match StTableRow::try_from(&rows[0]) {
            Ok(el) => el,
            Err(e) => {
                return Err(e);
            },
        };
        el.table_name = new_name.to_owned();
        self.delete_row(&TableId(ST_TABLES_ID), &row_id);
        self.insert_row_internal(TableId(ST_TABLES_ID), el.to_row())
    }

    /// Begins a transaction.
    pub(crate) fn begin(&mut self)
        requires
            old(self).wf(),
            old(self)@.tx is None,
        ensures
            final(self).in_tx(),
            final(self)@ == old(self)@.begin(),
    {
        self.tx_state = Some(TxState::new());
    }

    /// Commits the transaction, and reports what it wrote.
    pub(crate) fn commit(&mut self) -> (r: Arc<Transaction>)
        requires
            old(self).in_tx(),
        ensures
            final(self).wf(),
            final(self)@ == old(self)@.commit(),
            (*r)@ == merge_writes(old(self)@.committed, old(self)@.tx->0),
    {
        let tx_state = match self.tx_state.take() {
            Some(tx_state) => tx_state,
            None => {
                assert(false);
                TxState::new()
            },
        };
        let ghost all = self.sequence_state.model();
        let ghost ks = tx_state.dropped_sequences.keys();
        proof {
            tx_state.dropped_sequences.lemma_keys();
            assert(all.remove_keys(ks.take(0).to_set()) =~= all);
        }
        let n: usize = tx_state.dropped_sequences.len();
        for i in 0..n
            invariant
                n == ks.len(),
                ks == tx_state.dropped_sequences.keys(),
                self.sequence_state.wf(),
                self.tx_state is None,
                self.blobs == old(self).blobs,
                self.committed_state == old(self).committed_state,
                self.sequence_state.model() == all.remove_keys(ks.take(i as int).to_set()),
        {
            let ghost was = self.sequence_state.model();
            self.sequence_state.sequences.remove(tx_state.dropped_sequences.key_at(i));
            proof {
                lemma_take_set(ks, i as int);
                assert(self.sequence_state.model() =~= was.remove(ks[i as int]));
                assert(self.sequence_state.model() =~= all.remove_keys(
                    ks.take(i + 1).to_set(),
                ));
            }
        }
        assert(ks.take(ks.len() as int) =~= ks);
        let r = self.committed_state.merge(tx_state);
        proof {
            old(self).lemma_in_order();
            lemma_commit_inv(old(self)@);
            assert(self@ =~= old(self)@.commit());
        }
        r
    }

    /// Drops the transaction.
    pub(crate) fn rollback(&mut self)
        requires
            old(self).in_tx(),
        ensures
            final(self).wf(),
            final(self)@ == old(self)@.rollback(),
    {
        let tx_state = match self.tx_state.take() {
            Some(tx_state) => tx_state,
            None => {
                assert(false);
                TxState::new()
            },
        };
        self.sequence_state.roll_back(&tx_state.made_sequences, &tx_state.refilled_sequences);
        assert(self@ =~= old(self)@.rollback());
    }
}

/// A column that cannot be listed ends the listing.
proof fn lemma_create_columns_err(
    db: DbModel,
    t: u32,
    def: TableDefModel,
    n: nat,
    m: nat,
)
    requires
        n <= m,
        db.create_columns(t, def, n).1 is Err,
    ensures
        db.create_columns(t, def, m) == db.create_columns(t, def, n),
    decreases m - n,
{
    if n < m {
        lemma_create_columns_err(db, t, def, n, (m - 1) as nat);
    }
}

/// An index that cannot be made ends the making.
proof fn lemma_create_indexes_err(
    db: DbModel,
    t: u32,
    def: TableDefModel,
    n: nat,
    m: nat,
)
    requires
        n <= m,
        db.create_indexes(t, def, n).1 is Err,
    ensures
        db.create_indexes(t, def, m) == db.create_indexes(t, def, n),
    decreases m - n,
{
    if n < m {
        lemma_create_indexes_err(db, t, def, n, (m - 1) as nat);
    }
}

/// An index that cannot be dropped ends the dropping.
proof fn lemma_drop_indexes_err(db: DbModel, rows: Seq<Row>, n: nat, m: nat)
    requires
        n <= m,
        db.drop_indexes(rows, n).1 is Err,
    ensures
        db.drop_indexes(rows, m) == db.drop_indexes(rows, n),
    decreases m - n,
{
    if n < m {
        lemma_drop_indexes_err(db, rows, n, (m - 1) as nat);
    }
}

/// A sequence that cannot be dropped ends the dropping.
proof fn lemma_drop_sequences_err(db: DbModel, rows: Seq<Row>, n: nat, m: nat)
    requires
        n <= m,
        db.drop_sequences(rows, n).1 is Err,
    ensures
        db.drop_sequences(rows, m) == db.drop_sequences(rows, n),
    decreases m - n,
{
    if n < m {
        lemma_drop_sequences_err(db, rows, n, (m - 1) as nat);
    }
}

} // verus!
