//! The datastore, and the operations of a transaction on it.

use vstd::prelude::*;

use std::sync::Arc;

use crate::data_key::{row_key, DataKey, Key, RowId};
use crate::error::{DBError, Fault, TableError};
use crate::ids::{ColId, TableId};
use crate::iter::{
    rows_read, DataRef, IndexSeekIter, RangeScanIter, ScanIter, ScanRangeScanIter, ScanSeekIter,
    SeekIter,
};
use crate::model::{DbModel, RowOp, TxModel};
use crate::ordered::OrdMap;
use crate::range::ValueRange;
use crate::schema::TableSchema;
use crate::soundness::{
    lemma_delete_row_inv, lemma_insert_table_inv, lemma_put_row_inv, lemma_same_seen_in_order,
};
use crate::state::{CommittedState, RowIdSet, SequencesState, TxState};
use crate::table::Table;
use crate::types::ProductType;
use crate::value::{encoded_all, AlgebraicValue, ProductValue};

verus! {

/// The datastore: committed tables, the open transaction, sequences in use.
pub struct Inner {
    /// The bytes of every row inserted so far whose key is a hash. A row's bytes are asked for by
    /// its key when the row itself may be gone.
    pub blobs: OrdMap<DataKey, Arc<Vec<u8>>>,
    pub committed_state: CommittedState,
    pub tx_state: Option<TxState>,
    pub sequence_state: SequencesState,
}

/// What the bytes are.
pub open spec fn blobs_model(blobs: Map<Key, Arc<Vec<u8>>>) -> Map<Key, Seq<u8>> {
    blobs.map_values(|b: Arc<Vec<u8>>| (*b)@)
}

/// What a transaction's state is.
pub open spec fn tx_model(tx_state: Option<TxState>) -> Option<TxModel> {
    match tx_state {
        Some(tx) => Some(tx@),
        None => None,
    }
}

impl View for Inner {
    type V = DbModel;

    open spec fn view(&self) -> DbModel {
        DbModel {
            committed: self.committed_state@,
            tx: tx_model(self.tx_state),
            sequences: self.sequence_state.model(),
            blobs: blobs_model(self.blobs@),
        }
    }
}

/// What a result says.
pub open spec fn outcome<T: View>(r: Result<T, DBError>) -> Result<<T as View>::V, Fault> {
    match r {
        Ok(x) => Ok(x@),
        Err(e) => Err(e@),
    }
}

/// What a result says that may hold nothing.
pub open spec fn outcome_option<T: View>(r: Result<Option<T>, DBError>) -> Result<
    Option<<T as View>::V>,
    Fault,
> {
    match r {
        Ok(Some(x)) => Ok(Some(x@)),
        Ok(None) => Ok(None),
        Err(e) => Err(e@),
    }
}

impl Inner {
    /// What it is made of is in order, and so is what the transaction shows.
    pub open spec fn parts_wf(&self) -> bool {
        &&& self.blobs.wf()
        &&& self.committed_state.wf()
        &&& self.sequence_state.wf()
        &&& self.tx_state matches Some(tx) ==> tx.wf() && self@.seen_in_order()
        &&& self@.blobs_under_keys()
    }

    pub open spec fn wf(&self) -> bool {
        self.parts_wf() && self@.committed_unique()
    }

    /// In order, with a transaction open.
    pub open spec fn in_tx(&self) -> bool {
        self.wf() && self.tx_state is Some
    }

    /// A datastore that is well-formed is in order.
    pub(crate) proof fn lemma_in_order(&self)
        requires
            self.wf(),
        ensures
            self@.inv(),
    {
        self.committed_state.tables.lemma_keys();
        vstd::seq_lib::seq_to_set_is_finite(self.committed_state.tables.keys());
        assert(self@.committed.dom() =~= self.committed_state.tables@.dom());
        assert forall|t: u32| #[trigger] self@.committed.contains_key(t) implies
            self@.committed[t].inv() && self@.committed[t].exact() by {
            assert(self.committed_state.tables@.contains_key(t));
        }
    }

    /// A datastore with nothing in it.
    pub fn new() -> (r: Self)
        ensures
            r.wf(),
            r@ == DbModel::empty(),
    {
        let r = Inner {
            blobs: OrdMap::new(),
            committed_state: CommittedState::new(),
            tx_state: None,
            sequence_state: SequencesState::new(),
        };
        assert(r@.blobs =~= Map::<Key, Seq<u8>>::empty());
        assert(r@ =~= DbModel::empty());
        r
    }

    /// The open transaction.
    pub(crate) fn tx(&self) -> (r: &TxState)
        requires
            self.in_tx(),
        ensures
            r.wf(),
            r@ == self@.tx->0,
            *r == self.tx_state->0,
    {
        match &self.tx_state {
            Some(tx) => tx,
            None => {
                assert(false);
                vstd::pervasive::unreached()
            },
        }
    }

    /// The open transaction, to be changed in place.
    pub(crate) fn tx_mut(&mut self) -> (r: &mut TxState)
        requires
            old(self).in_tx(),
        ensures
            r.wf(),
            r@ == old(self)@.tx->0,
            final(self)@ == old(self)@.with_tx(final(r)@),
            final(r).wf() && final(self)@.seen_in_order() ==> final(self).in_tx(),
    {
        match &mut self.tx_state {
            Some(tx) => tx,
            None => {
                assert(false);
                vstd::pervasive::unreached()
            },
        }
    }

    /// The committed table, where the transaction has not dropped it.
    pub(crate) fn base_table(&self, table_id: &TableId) -> (r: Option<&Table>)
        requires
            self.in_tx(),
        ensures
            match r {
                Some(table) => {
                    &&& self@.has_base(table_id.0)
                    &&& self.committed_state.tables@.contains_key(table_id.0)
                    &&& *table == self.committed_state.tables@[table_id.0]
                    &&& table.wf()
                    &&& table@ == self@.committed[table_id.0]
                },
                None => !self@.has_base(table_id.0),
            },
    {
        if self.tx().dropped.contains_key(&table_id.0) {
            None
        } else {
            self.committed_state.tables.get(&table_id.0)
        }
    }

    pub(crate) fn table_exists(&self, table_id: &TableId) -> (r: bool)
        requires
            self.in_tx(),
        ensures
            r == self@.table_exists(table_id.0),
    {
        self.tx().insert_tables.contains_key(&table_id.0) || self.base_table(table_id).is_some()
    }

    pub(crate) fn contains_row(&self, table_id: &TableId, row_id: &RowId) -> (r: bool)
        requires
            self.in_tx(),
        ensures
            r == self@.contains_row(table_id.0, row_id@),
    {
        match self.tx().get_row_op(table_id, row_id) {
            RowOp::Insert => true,
            RowOp::Delete => {
                assert(!self@.fresh(table_id.0).contains_key(row_id@)) by {
                    assert(self@.tx->0.inv());
                }
                false
            },
            RowOp::Absent => match self.base_table(table_id) {
                Some(table) => table.rows.contains_key(row_id),
                None => false,
            },
        }
    }

    pub(crate) fn get_row(&self, table_id: &TableId, row_id: &RowId) -> (r: Result<
        Option<DataRef>,
        DBError,
    >)
        requires
            self.in_tx(),
        ensures
            match (r, self@.get_row(table_id.0, row_id@)) {
                (Ok(Some(row)), Ok(Some(m))) => row.model() == m,
                (Ok(None), Ok(None)) => true,
                (Err(e), Err(f)) => e@ == f,
                _ => false,
            },
    {
        if !self.table_exists(table_id) {
            return Err(DBError::Table(TableError::IdNotFound(table_id.0)));
        }
        match self.tx().get_row_op(table_id, row_id) {
            RowOp::Insert => match self.tx().get_row(table_id, row_id) {
                Some(row) => Ok(Some(DataRef::new(row.clone()))),
                None => Ok(None),
            },
            RowOp::Delete => {
                assert(!self@.fresh(table_id.0).contains_key(row_id@)) by {
                    assert(self@.tx->0.inv());
                }
                Ok(None)
            },
            RowOp::Absent => match self.base_table(table_id) {
                Some(table) => match table.get_row(row_id) {
                    Some(row) => Ok(Some(DataRef::new(row.clone()))),
                    None => Ok(None),
                },
                None => Ok(None),
            },
        }
    }

    pub(crate) fn get_row_type(&self, table_id: &TableId) -> (r: Option<&ProductType>)
        requires
            self.in_tx(),
        ensures
            match (r, self@.row_type(table_id.0)) {
                (Some(t), Some(m)) => t@ == m,
                (None, None) => true,
                _ => false,
            },
    {
        match self.tx().get_insert_table(table_id) {
            Some(table) => Some(table.get_row_type()),
            None => match self.base_table(table_id) {
                Some(table) => Some(table.get_row_type()),
                None => None,
            },
        }
    }

    pub(crate) fn get_schema(&self, table_id: &TableId) -> (r: Option<TableSchema>)
        requires
            self.in_tx(),
        ensures
            match (r, self@.schema(table_id.0)) {
                (Some(t), Some(m)) => t@ == m,
                (None, None) => true,
                _ => false,
            },
    {
        match self.tx().get_insert_table(table_id) {
            Some(table) => Some(table.get_schema().clone()),
            None => match self.base_table(table_id) {
                Some(table) => {
                    Some(table.emptied_without(&self.tx().dropped_indexes).get_schema().clone())
                },
                None => None,
            },
        }
    }

    /// The bytes that a key stands for, where they are known.
    pub(crate) fn resolve_data_key(&self, data_key: &DataKey) -> (r: Result<
        Option<Arc<Vec<u8>>>,
        DBError,
    >)
        requires
            self.wf(),
        ensures
            match (r, self@.resolve_data_key(data_key@)) {
                (Ok(Some(b)), Some(m)) => (*b)@ == m,
                (Ok(None), None) => true,
                _ => false,
            },
    {
        match data_key {
            DataKey::Data(data) => Ok(Some(Arc::new(data.clone()))),
            DataKey::Hash(_) => match self.blobs.get(data_key) {
                Some(bytes) => Ok(Some(bytes.clone())),
                None => Ok(None),
            },
        }
    }

    pub(crate) fn scan(&self, table_id: &TableId) -> (r: Result<ScanIter<'_>, DBError>)
        requires
            self.in_tx(),
        ensures
            match (r, self@.scan(table_id.0)) {
                (Ok(iter), Ok(rows)) => iter.wf() && iter.remaining() == rows,
                (Err(e), Err(f)) => e@ == f,
                _ => false,
            },
    {
        if self.table_exists(table_id) {
            return Ok(ScanIter::new(*table_id, self));
        }
        Err(DBError::Table(TableError::IdNotFound(table_id.0)))
    }

    /// A walk over the rows of a table with a value of a range in a column.
    pub(crate) fn range_scan(&self, table_id: &TableId, col_id: &ColId, range: ValueRange) -> (r: Result<
        RangeScanIter<'_>,
        DBError,
    >)
        requires
            self.in_tx(),
        ensures
            match (r, self@.range_scan(table_id.0, col_id.0, range@)) {
                (Ok(iter), Ok(rows)) => iter.wf() && iter.remaining() == rows,
                (Err(e), Err(f)) => e@ == f,
                _ => false,
            },
    {
        match self.scan(table_id) {
            Ok(scan_iter) => Ok(
                RangeScanIter::Scan(ScanRangeScanIter::new(scan_iter, *col_id, range)),
            ),
            Err(e) => Err(e),
        }
    }

    /// A walk over every row of a table that holds `value` in a column.
    pub(crate) fn seek<'a>(
        &'a self,
        table_id: &TableId,
        col_id: &ColId,
        value: &'a AlgebraicValue,
    ) -> (r: Result<SeekIter<'a>, DBError>)
        requires
            self.in_tx(),
        ensures
            match (r, self@.seek(table_id.0, col_id.0, value@)) {
                (Ok(iter), Ok(rows)) => iter.wf() && iter.remaining() == rows,
                (Err(e), Err(f)) => e@ == f,
                _ => false,
            },
    {
        match self.tx().index_seek(table_id, col_id, value) {
            Some(inserted_rows) => Ok(
                SeekIter::Index(
                    IndexSeekIter::new(self, *table_id, *col_id, value, inserted_rows),
                ),
            ),
            None => {
                if self.table_exists(table_id) {
                    Ok(SeekIter::Scan(ScanSeekIter::new(self, *table_id, *col_id, value)))
                } else {
                    Err(DBError::Table(TableError::IdNotFound(table_id.0)))
                }
            },
        }
    }

    /// The rows of a table that hold `value` in a column.
    pub(crate) fn seek_rows(&self, table_id: u32, col_id: u32, value: &AlgebraicValue) -> (r: Result<
        Vec<ProductValue>,
        DBError,
    >)
        requires
            self.in_tx(),
        ensures
            match (r, self@.seek(table_id, col_id, value@)) {
                (Ok(rows), Ok(m)) => rows_read(rows@) == m,
                (Err(e), Err(f)) => e@ == f,
                _ => false,
            },
    {
        match self.seek(&TableId(table_id), &ColId(col_id), value) {
            Ok(iter) => Ok(iter.collect()),
            Err(e) => Err(e),
        }
    }

    /// Gives the transaction its own part of a table, made from the committed table where it had
    /// none.
    pub(crate) fn ensure_insert_table(&mut self, table_id: TableId) -> (r: Result<(), DBError>)
        requires
            old(self).in_tx(),
        ensures
            final(self).in_tx(),
            match r {
                Ok(_) => {
                    &&& old(self)@.table_exists(table_id.0)
                    &&& final(self)@ == old(self)@.with_insert_table(table_id.0)
                },
                Err(e) => {
                    &&& !old(self)@.table_exists(table_id.0)
                    &&& final(self)@ == old(self)@
                    &&& e@ == Fault::TableIdNotFound(table_id.0)
                },
            },
    {
        if !self.tx().insert_tables.contains_key(&table_id.0) {
            let table = match self.base_table(&table_id) {
                Some(committed_table) => {
                    committed_table.emptied_without(&self.tx().dropped_indexes)
                },
                None => {
                    return Err(DBError::Table(TableError::IdNotFound(table_id.0)));
                },
            };
            proof {
                self.lemma_in_order();
                lemma_insert_table_inv(self@, table_id.0);
            }
            let tx = self.tx_mut();
            tx.set_insert_table(table_id, table);
        }
        assert(self@ =~= old(self)@.with_insert_table(table_id.0));
        Ok(())
    }

    /// What a row is refused with, where it is.
    fn refusal(&self, table_id: TableId, row: &ProductValue) -> (r: Option<DBError>)
        requires
            self.in_tx(),
            self@.has_inserts(table_id.0),
        ensures
            match (r, self@.refusal(table_id.0, row@)) {
                (Some(e), Some(f)) => e@ == f,
                (None, None) => true,
                _ => false,
            },
    {
        let insert_table = match self.tx().get_insert_table(&table_id) {
            Some(insert_table) => insert_table,
            None => {
                return None;
            },
        };
        match insert_table.unique_violation(row) {
            Some(col_id) => {
                return Some(insert_table.violation(col_id, row));
            },
            None => {},
        }
        match self.base_table(&table_id) {
            Some(table) => {
                let none = RowIdSet::new();
                let gone = match self.tx().delete_tables.get(&table_id.0) {
                    Some(gone) => gone,
                    None => &none,
                };
                assert(gone@ == self@.deleted(table_id.0));
                assert(insert_table.rows@.dom() =~= self@.fresh(table_id.0).dom());
                match table.unique_violation_except(
                    row,
                    &gone.ids,
                    &insert_table.rows,
                    &self.tx().dropped_indexes,
                ) {
                    Some(col_id) => {
                        return Some(table.violation(col_id, row));
                    },
                    None => {},
                }
            },
            None => {},
        }
        if insert_table.row_type.elements.len() != row.elements.len() {
            return Some(
                DBError::Table(
                    TableError::RowInvalidType { table_id: table_id.0, row: row.clone() },
                ),
            );
        }
        None
    }

    /// Inserts a row whose bytes are `bytes`, nothing looked at.
    fn put_row(&mut self, table_id: TableId, row: ProductValue, bytes: Vec<u8>)
        requires
            old(self).in_tx(),
            old(self)@.has_inserts(table_id.0),
            old(self)@.refusal(table_id.0, row@) is None,
            bytes@ == encoded_all(row@),
        ensures
            final(self).in_tx(),
            final(self)@ == old(self)@.put_row(table_id.0, row@),
    {
        let ghost t = table_id.0;
        let ghost inserted = row@;
        let data_key = DataKey::from_data(&bytes);
        let row_id = RowId(data_key.clone());
        let ghost after = old(self)@.put_row(t, inserted);
        proof {
            old(self).lemma_in_order();
            lemma_put_row_inv(old(self)@, t, inserted);
        }
        let tx = self.tx_mut();
        match tx.get_insert_table_mut(&table_id) {
            Some(insert_table) => insert_table.insert(row_id.clone(), row),
            None => {},
        }
        let delete_table = tx.get_or_create_delete_table(table_id);
        delete_table.remove(&row_id);
        assert(tx@ =~= after.tx->0);
        proof {
            let mid = self@;
            lemma_same_seen_in_order(after, mid);
        }
        match &data_key {
            DataKey::Data(_) => {},
            DataKey::Hash(_) => {
                let ghost was = self.blobs@;
                let ghost b = bytes@;
                self.blobs.insert(data_key, Arc::new(bytes));
                assert(blobs_model(self.blobs@) =~= blobs_model(was).insert(
                    row_key(inserted),
                    b,
                ));
            },
        }
        assert(self@ =~= after);
    }

    /// Inserts a row as it is.
    pub(crate) fn insert_row_internal(&mut self, table_id: TableId, row: ProductValue) -> (r: Result<
        (),
        DBError,
    >)
        requires
            old(self).in_tx(),
        ensures
            final(self).in_tx(),
            (final(self)@, outcome(r)) == old(self)@.insert_row_internal(table_id.0, row@),
    {
        let mut bytes: Vec<u8> = Vec::new();
        row.encode(&mut bytes);
        assert(bytes@ =~= encoded_all(row@));
        match self.ensure_insert_table(table_id) {
            Ok(_) => {},
            Err(e) => {
                return Err(e);
            },
        }
        match self.refusal(table_id, &row) {
            Some(e) => Err(e),
            None => {
                self.put_row(table_id, row, bytes);
                Ok(())
            },
        }
    }

    pub(crate) fn delete_row(&mut self, table_id: &TableId, row_id: &RowId) -> (r: bool)
        requires
            old(self).in_tx(),
        ensures
            final(self).in_tx(),
            (final(self)@, r) == old(self)@.delete_row(table_id.0, row_id@),
    {
        if self.contains_row(table_id, row_id) {
            let ghost db = old(self)@.delete_row(table_id.0, row_id@).0;
            proof {
                self.lemma_in_order();
                lemma_delete_row_inv(self@, table_id.0, row_id@);
            }
            let tx = self.tx_mut();
            let delete_table = tx.get_or_create_delete_table(*table_id);
            delete_table.insert(row_id.clone());
            match tx.get_insert_table_mut(table_id) {
                Some(table) => table.delete(row_id),
                None => {},
            }
            assert(tx@ =~= db.tx->0);
            assert(self@ =~= db);
            true
        } else {
            false
        }
    }

    /// Deletes each row of `relation` that is there, and says how many were.
    pub(crate) fn delete_rows_in(&mut self, table_id: &TableId, relation: &Vec<ProductValue>) -> (r:
        usize)
        requires
            old(self).in_tx(),
        ensures
            final(self).in_tx(),
            (final(self)@, r as nat) == old(self)@.delete_rows_in(
                table_id.0,
                rows_read(relation@),
            ),
            r <= relation@.len(),
    {
        let ghost rows = rows_read(relation@);
        let mut count: usize = 0;
        let n: usize = relation.len();
        for i in 0..n
            invariant
                n == relation@.len(),
                count <= i,
                rows == rows_read(relation@),
                self.in_tx(),
                (self@, count as nat) == old(self)@.delete_rows_in(
                    table_id.0,
                    rows.take(i as int),
                ),
        {
            proof {
                assert(rows.take(i + 1).drop_last() =~= rows.take(i as int));
                assert(rows.take(i + 1).last() == relation@[i as int]@);
            }
            let row_id = RowId(relation[i].to_data_key());
            if self.delete_row(table_id, &row_id) {
                count = count + 1;
            }
        }
        assert(rows.take(rows.len() as int) =~= rows);
        count
    }
}

} // verus!
