//! The datastore as its users see it: one transaction at a time.

use vstd::prelude::*;

use std::sync::Arc;

use crate::bootstrap::{bootstrapped, lemma_bootstrapped_is_idle};
use crate::data_key::{DataKey, RowId};
use crate::datastore::{outcome, outcome_option, Inner};
use crate::error::DBError;
use crate::ids::{ColId, IndexId, SequenceId, TableId, ST_INDEXES_ID, ST_SEQUENCES_ID};
use crate::iter::{rows_read, Data, DataRef, RangeScanIter, ScanIter, SeekIter};
use crate::messages::Transaction;
use crate::model::{merge_writes, DbModel};
use crate::range::ValueRange;
use crate::schema::{IndexDef, SequenceDef, TableDef, TableSchema};
use crate::types::ProductType;
use crate::value::{AlgebraicValue, ProductValue, Value};

verus! {

/// A datastore that one transaction has at a time.
pub struct Locking {
    /// The datastore, while no transaction has it.
    inner: Option<Inner>,
    /// What the datastore's transactions are told by.
    mark: Ghost<int>,
}

/// A transaction. It has the datastore until it is committed or rolled back.
pub struct MutTxId {
    inner: Inner,
    /// The mark of the datastore that the transaction has.
    mark: Ghost<int>,
}

impl View for Locking {
    type V = Option<DbModel>;

    closed spec fn view(&self) -> Option<DbModel> {
        match self.inner {
            Some(inner) => Some(inner@),
            None => None,
        }
    }
}

impl View for MutTxId {
    type V = DbModel;

    closed spec fn view(&self) -> DbModel {
        self.inner@
    }
}

impl MutTxId {
    pub closed spec fn wf(&self) -> bool {
        self.inner.in_tx()
    }

    /// The mark of the datastore that the transaction has. Only that datastore takes it back.
    pub closed spec fn mark(&self) -> int {
        self.mark@
    }

    /// While a transaction has the datastore, the datastore is in order: rows stand under their
    /// keys, every index holds every row of its table and no row that is not there, a unique index
    /// of the transaction holds a value for one row at most, and no row is both inserted and
    /// deleted.
    pub proof fn law_transaction_is_in_order(&self)
        requires
            self.wf(),
        ensures
            self@.tx is Some,
            self@.inv(),
    {
        self.inner.lemma_in_order();
    }

    /// Whether the catalogue lists the index.
    pub fn index_listed(&self, index_id: IndexId) -> (r: bool)
        requires
            self.wf(),
        ensures
            r == listed(self@, ST_INDEXES_ID, index_id.0),
    {
        match self.inner.seek_rows(ST_INDEXES_ID, 0, &AlgebraicValue::U32(index_id.0)) {
            Ok(rows) => {
                assert(rows_read(rows@).len() == rows@.len());
                rows.len() > 0
            },
            Err(_) => false,
        }
    }

    /// Whether the catalogue lists the sequence.
    pub fn sequence_listed(&self, seq_id: SequenceId) -> (r: bool)
        requires
            self.wf(),
        ensures
            r == listed(self@, ST_SEQUENCES_ID, seq_id.0),
    {
        match self.inner.seek_rows(ST_SEQUENCES_ID, 0, &AlgebraicValue::U32(seq_id.0)) {
            Ok(rows) => {
                assert(rows_read(rows@).len() == rows@.len());
                rows.len() > 0
            },
            Err(_) => false,
        }
    }
}

/// Catalogue table `st` lists `id`.
pub open spec fn listed(db: DbModel, st: u32, id: u32) -> bool {
    db.seek(st, 0, Value::U32(id)) matches Ok(rows) && rows.len() > 0
}

impl Locking {
    pub closed spec fn wf(&self) -> bool {
        self.inner matches Some(inner) ==> inner.wf() && inner@.tx is None
    }

    /// What the datastore's transactions are told by. Nothing is known of the marks of two
    /// datastores, so neither takes back a transaction of the other.
    pub closed spec fn mark(&self) -> int {
        self.mark@
    }

    /// While no transaction has the datastore, none is open in it, and it is in order.
    pub proof fn law_idle_datastore_is_in_order(&self)
        requires
            self.wf(),
            self@ is Some,
        ensures
            self@->0.tx is None,
            self@->0.inv(),
    {
        self.inner->0.lemma_in_order();
    }

    /// A datastore with its system tables.
    pub fn bootstrap() -> (r: Result<Self, DBError>)
        ensures
            match r {
                Ok(datastore) => datastore.wf() && datastore@ == Some(bootstrapped()),
                Err(_) => false,
            },
    {
        match Inner::bootstrap() {
            Ok(inner) => {
                proof {
                    lemma_bootstrapped_is_idle();
                }
                Ok(Locking { inner: Some(inner), mark: Ghost(arbitrary()) })
            },
            Err(e) => Err(e),
        }
    }

    /// Whether no transaction has the datastore.
    pub fn is_idle(&self) -> (r: bool)
        ensures
            r == (self@ is Some),
    {
        self.inner.is_some()
    }

    /// Begins a transaction, which takes the datastore.
    pub fn begin_mut_tx(&mut self) -> (r: MutTxId)
        requires
            old(self).wf(),
            old(self)@ is Some,
        ensures
            final(self).wf(),
            final(self)@ is None,
            final(self).mark() == old(self).mark(),
            r.wf(),
            r.mark() == old(self).mark(),
            r@ == old(self)@->0.begin(),
    {
        match self.inner.take() {
            Some(inner) => {
                let mut inner = inner;
                inner.begin();
                MutTxId { inner, mark: self.mark }
            },
            None => {
                assert(false);
                vstd::pervasive::unreached()
            },
        }
    }

    /// Drops a transaction, and takes the datastore back.
    pub fn rollback_mut_tx(&mut self, tx: MutTxId)
        requires
            old(self)@ is None,
            tx.wf(),
            tx.mark() == old(self).mark(),
        ensures
            final(self).wf(),
            final(self).mark() == old(self).mark(),
            final(self)@ == Some(tx@.rollback()),
    {
        let mut inner = tx.inner;
        inner.rollback();
        self.inner = Some(inner);
    }

    /// Commits a transaction, takes the datastore back, and reports what was written.
    pub fn commit_mut_tx(&mut self, tx: MutTxId) -> (r: Result<Option<Arc<Transaction>>, DBError>)
        requires
            old(self)@ is None,
            tx.wf(),
            tx.mark() == old(self).mark(),
        ensures
            final(self).wf(),
            final(self).mark() == old(self).mark(),
            final(self)@ == Some(tx@.commit()),
            match r {
                Ok(Some(report)) => (*report)@ == merge_writes(tx@.committed, tx@.tx->0),
                _ => false,
            },
    {
        let mut inner = tx.inner;
        let report = inner.commit();
        self.inner = Some(inner);
        Ok(Some(report))
    }

    /// Begins a transaction.
    pub fn begin_tx(&mut self) -> (r: MutTxId)
        requires
            old(self).wf(),
            old(self)@ is Some,
        ensures
            final(self).wf(),
            final(self)@ is None,
            final(self).mark() == old(self).mark(),
            r.wf(),
            r.mark() == old(self).mark(),
            r@ == old(self)@->0.begin(),
    {
        self.begin_mut_tx()
    }

    /// Drops a transaction.
    pub fn release_tx(&mut self, tx: MutTxId)
        requires
            old(self)@ is None,
            tx.wf(),
            tx.mark() == old(self).mark(),
        ensures
            final(self).wf(),
            final(self).mark() == old(self).mark(),
            final(self)@ == Some(tx@.rollback()),
    {
        self.rollback_mut_tx(tx)
    }

    /// The row, as the reader's own.
    pub fn data_to_owned(&self, data_ref: DataRef) -> (r: Data)
        ensures
            r.model() == data_ref.model(),
    {
        data_ref.into_data()
    }

    /// Makes a table.
    pub fn create_table_mut_tx(&self, tx: &mut MutTxId, schema: TableDef) -> (r: Result<
        TableId,
        DBError,
    >)
        requires
            old(tx).wf(),
        ensures
            final(tx).wf(),
            final(tx).mark() == old(tx).mark(),
            (final(tx)@, outcome(r)) == old(tx)@.create_table(schema@),
    {
        tx.inner.create_table(schema)
    }

    /// The type of the rows of a table, as the transaction sees the table: that of the table in
    /// memory, or else that of the columns that the catalogue lists.
    pub fn row_type_for_table_mut_tx(&self, tx: &MutTxId, table_id: TableId) -> (r: Result<
        ProductType,
        DBError,
    >)
        requires
            tx.wf(),
        ensures
            outcome(r) == tx@.row_type_for_table(table_id.0),
    {
        tx.inner.row_type_for_table(table_id)
    }

    /// The schema of a table, as the transaction sees the table.
    pub fn schema_for_table_mut_tx(&self, tx: &MutTxId, table_id: TableId) -> (r: Result<
        TableSchema,
        DBError,
    >)
        requires
            tx.wf(),
        ensures
            outcome(r) == tx@.schema_for_table(table_id.0),
    {
        tx.inner.schema_for_table(table_id)
    }

    /// Drops a table.
    pub fn drop_table_mut_tx(&self, tx: &mut MutTxId, table_id: TableId) -> (r: Result<
        (),
        DBError,
    >)
        requires
            old(tx).wf(),
        ensures
            final(tx).wf(),
            final(tx).mark() == old(tx).mark(),
            (final(tx)@, outcome(r)) == old(tx)@.drop_table(table_id.0),
    {
        tx.inner.drop_table(table_id)
    }

    /// Gives a table another name.
    pub fn rename_table_mut_tx(&self, tx: &mut MutTxId, table_id: TableId, new_name: &str) -> (r: Result<
        (),
        DBError,
    >)
        requires
            old(tx).wf(),
        ensures
            final(tx).wf(),
            final(tx).mark() == old(tx).mark(),
            (final(tx)@, outcome(r)) == old(tx)@.rename_table(table_id.0, new_name@),
    {
        tx.inner.rename_table(table_id, new_name)
    }

    pub fn table_id_exists(&self, tx: &MutTxId, table_id: &TableId) -> (r: bool)
        requires
            tx.wf(),
        ensures
            r == tx@.table_exists(table_id.0),
    {
        tx.inner.table_exists(table_id)
    }

    pub fn table_id_from_name_mut_tx(&self, tx: &MutTxId, table_name: &str) -> (r: Result<
        Option<TableId>,
        DBError,
    >)
        requires
            tx.wf(),
        ensures
            outcome_option(r) == tx@.table_id_from_name(table_name@),
    {
        tx.inner.table_id_from_name(table_name)
    }

    pub fn table_name_from_id_mut_tx(&self, tx: &MutTxId, table_id: TableId) -> (r: Result<
        Option<String>,
        DBError,
    >)
        requires
            tx.wf(),
        ensures
            outcome_option(r) == tx@.table_name_from_id(table_id.0),
    {
        tx.inner.table_name_from_id(table_id)
    }

    /// Makes an index.
    pub fn create_index_mut_tx(&self, tx: &mut MutTxId, index: IndexDef) -> (r: Result<
        IndexId,
        DBError,
    >)
        requires
            old(tx).wf(),
        ensures
            final(tx).wf(),
            final(tx).mark() == old(tx).mark(),
            (final(tx)@, outcome(r)) == old(tx)@.create_index(index@),
    {
        tx.inner.create_index(index)
    }

    /// Drops an index that the catalogue lists.
    pub fn drop_index_mut_tx(&self, tx: &mut MutTxId, index_id: IndexId) -> (r: Result<
        (),
        DBError,
    >)
        requires
            old(tx).wf(),
            listed(old(tx)@, ST_INDEXES_ID, index_id.0),
        ensures
            final(tx).wf(),
            final(tx).mark() == old(tx).mark(),
            (final(tx)@, outcome(r)) == old(tx)@.drop_index(index_id.0),
    {
        tx.inner.drop_index(&index_id)
    }

    pub fn index_id_from_name_mut_tx(&self, tx: &MutTxId, index_name: &str) -> (r: Result<
        Option<IndexId>,
        DBError,
    >)
        requires
            tx.wf(),
        ensures
            outcome_option(r) == tx@.index_id_from_name(index_name@),
    {
        tx.inner.index_id_from_name(index_name)
    }

    /// Gives out the next number of a sequence.
    pub fn get_next_sequence_value_mut_tx(&self, tx: &mut MutTxId, seq_id: SequenceId) -> (r: Result<
        i128,
        DBError,
    >)
        requires
            old(tx).wf(),
        ensures
            final(tx).wf(),
            final(tx).mark() == old(tx).mark(),
            (final(tx)@, outcome(r)) == old(tx)@.get_next_sequence_value(seq_id.0),
    {
        tx.inner.get_next_sequence_value(seq_id)
    }

    /// Makes a sequence.
    pub fn create_sequence_mut_tx(&self, tx: &mut MutTxId, seq: SequenceDef) -> (r: Result<
        SequenceId,
        DBError,
    >)
        requires
            old(tx).wf(),
        ensures
            final(tx).wf(),
            final(tx).mark() == old(tx).mark(),
            (final(tx)@, outcome(r)) == old(tx)@.create_sequence(seq@),
    {
        tx.inner.create_sequence(seq)
    }

    /// Drops a sequence that the catalogue lists.
    pub fn drop_sequence_mut_tx(&self, tx: &mut MutTxId, seq_id: SequenceId) -> (r: Result<
        (),
        DBError,
    >)
        requires
            old(tx).wf(),
            listed(old(tx)@, ST_SEQUENCES_ID, seq_id.0),
        ensures
            final(tx).wf(),
            final(tx).mark() == old(tx).mark(),
            (final(tx)@, outcome(r)) == old(tx)@.drop_sequence(seq_id.0),
    {
        tx.inner.drop_sequence(seq_id)
    }

    pub fn sequence_id_from_name_mut_tx(&self, tx: &MutTxId, sequence_name: &str) -> (r: Result<
        Option<SequenceId>,
        DBError,
    >)
        requires
            tx.wf(),
        ensures
            outcome_option(r) == tx@.sequence_id_from_name(sequence_name@),
    {
        tx.inner.sequence_id_from_name(sequence_name)
    }

    /// A walk over all rows of a table.
    pub fn scan_mut_tx<'a>(&'a self, tx: &'a MutTxId, table_id: TableId) -> (r: Result<
        ScanIter<'a>,
        DBError,
    >)
        requires
            tx.wf(),
        ensures
            match (r, tx@.scan(table_id.0)) {
                (Ok(iter), Ok(rows)) => iter.wf() && iter.remaining() == rows,
                (Err(e), Err(f)) => e@ == f,
                _ => false,
            },
    {
        tx.inner.scan(&table_id)
    }

    /// A walk over the rows of a table with a value of a range in a column.
    pub fn range_scan_mut_tx<'a>(
        &'a self,
        tx: &'a MutTxId,
        table_id: TableId,
        col_id: ColId,
        range: ValueRange,
    ) -> (r: Result<RangeScanIter<'a>, DBError>)
        requires
            tx.wf(),
        ensures
            match (r, tx@.range_scan(table_id.0, col_id.0, range@)) {
                (Ok(iter), Ok(rows)) => iter.wf() && iter.remaining() == rows,
                (Err(e), Err(f)) => e@ == f,
                _ => false,
            },
    {
        tx.inner.range_scan(&table_id, &col_id, range)
    }

    /// A walk over every row of a table that holds `value` in a column. A row without the column
    /// does not.
    pub fn seek_mut_tx<'a>(
        &'a self,
        tx: &'a MutTxId,
        table_id: TableId,
        col_id: ColId,
        value: &'a AlgebraicValue,
    ) -> (r: Result<SeekIter<'a>, DBError>)
        requires
            tx.wf(),
        ensures
            match (r, tx@.seek(table_id.0, col_id.0, value@)) {
                (Ok(iter), Ok(rows)) => iter.wf() && iter.remaining() == rows,
                (Err(e), Err(f)) => e@ == f,
                _ => false,
            },
    {
        tx.inner.seek(&table_id, &col_id, value)
    }

    /// The row with an id, where the table has one.
    pub fn get_row_mut_tx(&self, tx: &MutTxId, table_id: TableId, row_id: RowId) -> (r: Result<
        Option<DataRef>,
        DBError,
    >)
        requires
            tx.wf(),
        ensures
            match (r, tx@.get_row(table_id.0, row_id@)) {
                (Ok(Some(row)), Ok(Some(m))) => row.model() == m,
                (Ok(None), Ok(None)) => true,
                (Err(e), Err(f)) => e@ == f,
                _ => false,
            },
    {
        tx.inner.get_row(&table_id, &row_id)
    }

    /// Deletes the row with an id, and says whether there was one.
    pub fn delete_row_mut_tx(&self, tx: &mut MutTxId, table_id: TableId, row_id: RowId) -> (r: Result<
        bool,
        DBError,
    >)
        requires
            old(tx).wf(),
        ensures
            final(tx).wf(),
            final(tx).mark() == old(tx).mark(),
            match r {
                Ok(found) => (final(tx)@, found) == old(tx)@.delete_row(table_id.0, row_id@),
                Err(_) => false,
            },
    {
        Ok(tx.inner.delete_row(&table_id, &row_id))
    }

    /// Deletes each row of `relation` that is in a table, and says how many were.
    pub fn delete_rows_in_mut_tx(
        &self,
        tx: &mut MutTxId,
        table_id: TableId,
        relation: Vec<ProductValue>,
    ) -> (r: Result<Option<u32>, DBError>)
        requires
            old(tx).wf(),
            relation@.len() <= u32::MAX,
        ensures
            final(tx).wf(),
            final(tx).mark() == old(tx).mark(),
            match r {
                Ok(Some(count)) => (final(tx)@, count as nat) == old(tx)@.delete_rows_in(
                    table_id.0,
                    rows_read(relation@),
                ),
                _ => false,
            },
    {
        let count: usize = tx.inner.delete_rows_in(&table_id, &relation);
        Ok(Some(count as u32))
    }

    /// Inserts a row, its autoincrement columns filled where they hold zero, and returns it as it
    /// was inserted.
    pub fn insert_row_mut_tx(&self, tx: &mut MutTxId, table_id: TableId, row: ProductValue) -> (r: Result<
        ProductValue,
        DBError,
    >)
        requires
            old(tx).wf(),
        ensures
            final(tx).wf(),
            final(tx).mark() == old(tx).mark(),
            (final(tx)@, outcome(r)) == old(tx)@.insert_row(table_id.0, row@),
    {
        tx.inner.insert_row(table_id, row)
    }

    /// The bytes that a key stands for, where they are known.
    pub fn resolve_data_key_mut_tx(&self, tx: &MutTxId, data_key: &DataKey) -> (r: Result<
        Option<Arc<Vec<u8>>>,
        DBError,
    >)
        requires
            tx.wf(),
        ensures
            match (r, tx@.resolve_data_key(data_key@)) {
                (Ok(Some(b)), Some(m)) => (*b)@ == m,
                (Ok(None), None) => true,
                _ => false,
            },
    {
        tx.inner.resolve_data_key(data_key)
    }

    /// A walk over all rows of a table.
    pub fn scan_tx<'a>(&'a self, tx: &'a MutTxId, table_id: TableId) -> (r: Result<
        ScanIter<'a>,
        DBError,
    >)
        requires
            tx.wf(),
        ensures
            match (r, tx@.scan(table_id.0)) {
                (Ok(iter), Ok(rows)) => iter.wf() && iter.remaining() == rows,
                (Err(e), Err(f)) => e@ == f,
                _ => false,
            },
    {
        self.scan_mut_tx(tx, table_id)
    }

    /// A walk over the rows of a table with a value of a range in a column.
    pub fn range_scan_tx<'a>(
        &'a self,
        tx: &'a MutTxId,
        table_id: TableId,
        col_id: ColId,
        range: ValueRange,
    ) -> (r: Result<RangeScanIter<'a>, DBError>)
        requires
            tx.wf(),
        ensures
            match (r, tx@.range_scan(table_id.0, col_id.0, range@)) {
                (Ok(iter), Ok(rows)) => iter.wf() && iter.remaining() == rows,
                (Err(e), Err(f)) => e@ == f,
                _ => false,
            },
    {
        self.range_scan_mut_tx(tx, table_id, col_id, range)
    }

    /// A walk over every row of a table that holds `value` in a column.
    pub fn seek_tx<'a>(
        &'a self,
        tx: &'a MutTxId,
        table_id: TableId,
        col_id: ColId,
        value: &'a AlgebraicValue,
    ) -> (r: Result<SeekIter<'a>, DBError>)
        requires
            tx.wf(),
        ensures
            match (r, tx@.seek(table_id.0, col_id.0, value@)) {
                (Ok(iter), Ok(rows)) => iter.wf() && iter.remaining() == rows,
                (Err(e), Err(f)) => e@ == f,
                _ => false,
            },
    {
        self.seek_mut_tx(tx, table_id, col_id, value)
    }

    /// The row with an id, where the table has one.
    pub fn get_row_tx(&self, tx: &MutTxId, table_id: TableId, row_id: RowId) -> (r: Result<
        Option<DataRef>,
        DBError,
    >)
        requires
            tx.wf(),
        ensures
            match (r, tx@.get_row(table_id.0, row_id@)) {
                (Ok(Some(row)), Ok(Some(m))) => row.model() == m,
                (Ok(None), Ok(None)) => true,
                (Err(e), Err(f)) => e@ == f,
                _ => false,
            },
    {
        self.get_row_mut_tx(tx, table_id, row_id)
    }
}

} // verus!
