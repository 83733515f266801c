//! What a datastore holds: committed tables, the open transaction, sequences.

use vstd::prelude::*;

use std::sync::Arc;

use crate::btree_index::column_of;
use crate::data_key::{lists_in_order, row_ids, row_key, Key, RowId};
use crate::ids::{ColId, IndexId, SequenceId, TableId};
use crate::messages::{writes_model, writes_of, Operation, Transaction, Write};
use crate::model::{
    delete_writes, insert_writes, merge, merge_base, merge_deletes, merge_inserts, merge_table,
    merge_writes, new_table, without_index_each, RowOp, TxModel,
};
use crate::ordered::{ascending, ascends, lemma_take_set, OrdMap, OrderedKey};
use crate::schema::TableSchema;
use crate::sequence::{Sequence, SequenceModel};
use crate::table::{
    lemma_add_exact, lemma_merge_exact, lemma_without_indexes_inv, Table, TableModel,
};
use crate::types::ProductType;
use crate::value::{AlgebraicValue, ProductValue};

verus! {

/// The sequences in use, by their ids.
pub struct SequencesState {
    pub sequences: OrdMap<u32, Sequence>,
}

/// `sequences` without those in `made`, and with nothing left of the allocation of those in
/// `refilled`.
pub open spec fn rolled_back(
    sequences: Map<u32, SequenceModel>,
    made: Set<u32>,
    refilled: Set<u32>,
) -> Map<u32, SequenceModel> {
    Map::new(
        |s: u32| sequences.contains_key(s) && !made.contains(s),
        |s: u32|
            if refilled.contains(s) {
                sequences[s].used_up()
            } else {
                sequences[s]
            },
    )
}

impl SequencesState {
    pub open spec fn wf(&self) -> bool {
        self.sequences.wf()
    }

    pub open spec fn model(&self) -> Map<u32, SequenceModel> {
        self.sequences@.map_values(|s: Sequence| s@)
    }

    pub fn new() -> (r: Self)
        ensures
            r.wf(),
            r.model() == Map::<u32, SequenceModel>::empty(),
    {
        let r = SequencesState { sequences: OrdMap::new() };
        assert(r.model() =~= Map::<u32, SequenceModel>::empty());
        r
    }

    /// Takes out the sequences in `made`, and what is left of the allocation of those in
    /// `refilled`.
    pub fn roll_back(&mut self, made: &OrdMap<u32, ()>, refilled: &OrdMap<u32, ()>)
        requires
            old(self).wf(),
            made.wf(),
            refilled.wf(),
        ensures
            final(self).wf(),
            final(self).model() == rolled_back(
                old(self).model(),
                made@.dom(),
                refilled@.dom(),
            ),
    {
        let ghost all = self.model();
        let ghost rs = refilled.keys();
        proof {
            refilled.lemma_keys();
            assert(self.model() =~= rolled_back(all, Set::empty(), rs.take(0).to_set()));
        }
        let n: usize = refilled.len();
        for i in 0..n
            invariant
                n == rs.len(),
                rs == refilled.keys(),
                rs.no_duplicates(),
                self.wf(),
                refilled.wf(),
                self.model() == rolled_back(all, Set::empty(), rs.take(i as int).to_set()),
        {
            let ghost s = rs[i as int];
            match self.get_sequence_mut(SequenceId(*refilled.key_at(i))) {
                Some(sequence) => {
                    sequence.use_up();
                },
                None => {},
            }
            proof {
                lemma_take_set(rs, i as int);
                if rs.take(i as int).contains(s) {
                    let j = choose|j: int| 0 <= j < i && rs.take(i as int)[j] == s;
                    assert(rs[j] == rs[i as int]);
                }
                assert(self.model() =~= rolled_back(all, Set::empty(), rs.take(i + 1).to_set()));
            }
        }
        assert(rs.take(rs.len() as int) =~= rs);
        let ghost gone = refilled@.dom();
        let ghost ms = made.keys();
        proof {
            made.lemma_keys();
            assert(ms.take(0).to_set() =~= Set::<u32>::empty());
        }
        let n: usize = made.len();
        for i in 0..n
            invariant
                n == ms.len(),
                ms == made.keys(),
                self.wf(),
                made.wf(),
                self.model() == rolled_back(all, ms.take(i as int).to_set(), gone),
        {
            let ghost was = self.model();
            self.sequences.remove(made.key_at(i));
            proof {
                lemma_take_set(ms, i as int);
                assert(self.model() =~= was.remove(ms[i as int]));
                assert(self.model() =~= rolled_back(all, ms.take(i + 1).to_set(), gone));
            }
        }
        assert(ms.take(ms.len() as int) =~= ms);
    }

    pub fn get_sequence_mut(&mut self, seq_id: SequenceId) -> (r: Option<&mut Sequence>)
        requires
            old(self).wf(),
        ensures
            final(self).wf(),
            match r {
                Some(s) => {
                    &&& old(self).model().contains_key(seq_id.0)
                    &&& s@ == old(self).model()[seq_id.0]
                    &&& final(self).model() == old(self).model().insert(seq_id.0, final(s)@)
                },
                None => !old(self).model().contains_key(seq_id.0) && final(self).model() == old(
                    self,
                ).model(),
            },
    {
        match self.sequences.get_mut(&seq_id.0) {
            Some(s) => {
                assert(after_borrow(self).model() =~= old(self).model().insert(
                    seq_id.0,
                    final(s)@,
                ));
                Some(s)
            },
            None => None,
        }
    }
}

/// A set of row ids.
pub struct RowIdSet {
    pub ids: OrdMap<RowId, ()>,
}

impl View for RowIdSet {
    type V = Set<Key>;

    open spec fn view(&self) -> Set<Key> {
        self.ids@.dom()
    }
}

impl RowIdSet {
    pub open spec fn wf(&self) -> bool {
        self.ids.wf()
    }

    pub fn new() -> (r: Self)
        ensures
            r.wf(),
            r@ == Set::<Key>::empty(),
    {
        let r = RowIdSet { ids: OrdMap::new() };
        assert(r@ =~= Set::<Key>::empty());
        r
    }

    pub fn contains(&self, row_id: &RowId) -> (r: bool)
        requires
            self.wf(),
        ensures
            r == self@.contains(row_id@),
    {
        self.ids.contains_key(row_id)
    }

    pub fn insert(&mut self, row_id: RowId)
        requires
            old(self).wf(),
        ensures
            final(self).wf(),
            final(self)@ == old(self)@.insert(row_id@),
    {
        let ghost k = row_id@;
        self.ids.insert(row_id, ());
        assert(self@ =~= old(self)@.insert(k));
    }

    pub fn remove(&mut self, row_id: &RowId)
        requires
            old(self).wf(),
        ensures
            final(self).wf(),
            final(self)@ == old(self)@.remove(row_id@),
    {
        self.ids.remove(row_id);
        assert(self@ =~= old(self)@.remove(row_id@));
    }
}

/// What the tables are.
pub open spec fn table_models(tables: Map<u32, Table>) -> Map<u32, TableModel> {
    tables.map_values(|t: Table| t@)
}

/// Every one of `tables` is in order.
pub open spec fn tables_wf(tables: Map<u32, Table>) -> bool {
    forall|t: u32| #[trigger] tables.contains_key(t) ==> tables[t].wf()
}

/// Every index of `tables` holds just the rows of its table.
pub open spec fn tables_exact(tables: Map<u32, Table>) -> bool {
    forall|t: u32| #[trigger] tables.contains_key(t) ==> tables[t]@.exact()
}

/// What a transaction has done so far.
pub struct TxState {
    pub insert_tables: OrdMap<u32, Table>,
    pub delete_tables: OrdMap<u32, RowIdSet>,
    /// The committed tables that it dropped.
    pub dropped: OrdMap<u32, ()>,
    /// The indexes of committed tables that it dropped.
    pub dropped_indexes: OrdMap<u32, ()>,
    /// The sequences that it dropped.
    pub dropped_sequences: OrdMap<u32, ()>,
    /// The sequences that it made.
    pub made_sequences: OrdMap<u32, ()>,
    /// The sequences that it allocated more to.
    pub refilled_sequences: OrdMap<u32, ()>,
}

/// What the sets are.
pub open spec fn row_id_sets(sets: Map<u32, RowIdSet>) -> Map<u32, Set<Key>> {
    sets.map_values(|s: RowIdSet| s@)
}

impl View for TxState {
    type V = TxModel;

    open spec fn view(&self) -> TxModel {
        TxModel {
            inserts: table_models(self.insert_tables@),
            deletes: row_id_sets(self.delete_tables@),
            dropped: self.dropped@.dom(),
            dropped_indexes: self.dropped_indexes@.dom(),
            dropped_sequences: self.dropped_sequences@.dom(),
            made_sequences: self.made_sequences@.dom(),
            refilled_sequences: self.refilled_sequences@.dom(),
        }
    }
}

impl TxState {
    /// Each table and each set is in order.
    pub open spec fn parts_wf(&self) -> bool {
        &&& self.insert_tables.wf()
        &&& self.delete_tables.wf()
        &&& self.dropped.wf()
        &&& self.dropped_indexes.wf()
        &&& self.dropped_sequences.wf()
        &&& self.made_sequences.wf()
        &&& self.refilled_sequences.wf()
        &&& tables_wf(self.insert_tables@)
        &&& forall|t: u32| #[trigger]
            self.delete_tables@.contains_key(t) ==> self.delete_tables@[t].wf()
    }

    pub open spec fn wf(&self) -> bool {
        self.parts_wf() && self@.inv()
    }

    pub fn new() -> (r: Self)
        ensures
            r.wf(),
            r@ == TxModel::empty(),
    {
        let r = TxState {
            insert_tables: OrdMap::new(),
            delete_tables: OrdMap::new(),
            dropped: OrdMap::new(),
            dropped_indexes: OrdMap::new(),
            dropped_sequences: OrdMap::new(),
            made_sequences: OrdMap::new(),
            refilled_sequences: OrdMap::new(),
        };
        assert(r@ =~= TxModel::empty());
        r
    }

    fn is_deleted(&self, table_id: &TableId, row_id: &RowId) -> (r: bool)
        requires
            self.parts_wf(),
        ensures
            r == self@.deleted(table_id.0).contains(row_id@),
    {
        match self.delete_tables.get(&table_id.0) {
            Some(set) => set.contains(row_id),
            None => false,
        }
    }

    pub fn get_row_op(&self, table_id: &TableId, row_id: &RowId) -> (r: RowOp)
        requires
            self.parts_wf(),
        ensures
            r == self@.row_op(table_id.0, row_id@),
    {
        if self.is_deleted(table_id, row_id) {
            return RowOp::Delete;
        }
        match self.insert_tables.get(&table_id.0) {
            None => RowOp::Absent,
            Some(table) => match table.get_row(row_id) {
                Some(_) => RowOp::Insert,
                None => RowOp::Absent,
            },
        }
    }

    /// The row, where the transaction inserted it and did not delete it.
    pub fn get_row(&self, table_id: &TableId, row_id: &RowId) -> (r: Option<&ProductValue>)
        requires
            self.parts_wf(),
        ensures
            match r {
                Some(row) => {
                    &&& self@.row_op(table_id.0, row_id@) == RowOp::Insert
                    &&& row@ == self@.fresh(table_id.0)[row_id@]
                },
                None => self@.row_op(table_id.0, row_id@) != RowOp::Insert,
            },
    {
        if self.is_deleted(table_id, row_id) {
            return None;
        }
        match self.insert_tables.get(&table_id.0) {
            None => None,
            Some(table) => table.get_row(row_id),
        }
    }

    pub fn get_insert_table_mut(&mut self, table_id: &TableId) -> (r: Option<&mut Table>)
        requires
            old(self).parts_wf(),
        ensures
            match r {
                Some(table) => {
                    &&& old(self)@.inserts.contains_key(table_id.0)
                    &&& table.wf()
                    &&& table@ == old(self)@.inserts[table_id.0]
                    &&& final(self)@ == (TxModel {
                        inserts: old(self)@.inserts.insert(table_id.0, final(table)@),
                        ..old(self)@
                    })
                    &&& final(table).wf() ==> final(self).parts_wf()
                },
                None => !old(self)@.inserts.contains_key(table_id.0) && *final(self) == *old(self),
            },
    {
        match self.insert_tables.get_mut(&table_id.0) {
            Some(table) => {
                assert(table_models(after_borrow(self).insert_tables@) =~= table_models(
                    old(self).insert_tables@,
                ).insert(table_id.0, final(table)@));
                Some(table)
            },
            None => None,
        }
    }

    pub fn get_insert_table(&self, table_id: &TableId) -> (r: Option<&Table>)
        requires
            self.parts_wf(),
        ensures
            match r {
                Some(table) => {
                    &&& self@.inserts.contains_key(table_id.0)
                    &&& table.wf()
                    &&& table@ == self@.inserts[table_id.0]
                    &&& *table == self.insert_tables@[table_id.0]
                },
                None => !self@.inserts.contains_key(table_id.0),
            },
    {
        self.insert_tables.get(&table_id.0)
    }

    /// Puts a table in the place of the transaction's part of it.
    pub fn set_insert_table(&mut self, table_id: TableId, table: Table)
        requires
            old(self).parts_wf(),
            table.wf(),
        ensures
            final(self).parts_wf(),
            final(self)@ == (TxModel {
                inserts: old(self)@.inserts.insert(table_id.0, table@),
                ..old(self)@
            }),
    {
        let ghost added = table@;
        self.insert_tables.insert(table_id.0, table);
        assert(self@.inserts =~= old(self)@.inserts.insert(table_id.0, added));
    }

    pub fn get_or_create_delete_table(&mut self, table_id: TableId) -> (r: &mut RowIdSet)
        requires
            old(self).parts_wf(),
        ensures
            r.wf(),
            r@ == old(self)@.deleted(table_id.0),
            final(self)@ == (TxModel {
                deletes: old(self)@.deletes.insert(table_id.0, final(r)@),
                ..old(self)@
            }),
            final(r).wf() ==> final(self).parts_wf(),
    {
        if !self.delete_tables.contains_key(&table_id.0) {
            self.delete_tables.insert(table_id.0, RowIdSet::new());
        }
        match self.delete_tables.get_mut(&table_id.0) {
            Some(set) => {
                assert(row_id_sets(after_borrow(self).delete_tables@) =~= row_id_sets(
                    old(self).delete_tables@,
                ).insert(table_id.0, final(set)@));
                set
            },
            None => {
                assert(false);
                vstd::pervasive::unreached()
            },
        }
    }

    /// Takes a table out: the transaction's part of it, and the committed table.
    pub fn drop_table(&mut self, table_id: TableId)
        requires
            old(self).parts_wf(),
        ensures
            final(self).parts_wf(),
            final(self)@ == (TxModel {
                inserts: old(self)@.inserts.remove(table_id.0),
                deletes: old(self)@.deletes.remove(table_id.0),
                dropped: old(self)@.dropped.insert(table_id.0),
                ..old(self)@
            }),
    {
        let ghost was = *self;
        self.insert_tables.remove(&table_id.0);
        self.delete_tables.remove(&table_id.0);
        self.dropped.insert(table_id.0, ());
        proof {
            assert(self@.inserts =~= was@.inserts.remove(table_id.0));
            assert(self@.deletes =~= was@.deletes.remove(table_id.0));
            assert(self@.dropped =~= was@.dropped.insert(table_id.0));
        }
    }

    /// Takes an index out: out of the transaction's parts of tables, and out of the committed ones.
    pub fn drop_index(&mut self, index_id: u32)
        requires
            old(self).parts_wf(),
        ensures
            final(self).parts_wf(),
            final(self)@ == (TxModel {
                inserts: without_index_each(old(self)@.inserts, index_id),
                dropped_indexes: old(self)@.dropped_indexes.insert(index_id),
                ..old(self)@
            }),
    {
        self.dropped_indexes.insert(index_id, ());
        assert(self@.dropped_indexes =~= old(self)@.dropped_indexes.insert(index_id));
        let ghost ks = self.insert_tables.keys();
        let ghost was = self.insert_tables@;
        let ghost before = *self;
        proof {
            self.insert_tables.lemma_keys();
        }
        let n: usize = self.insert_tables.len();
        for i in 0..n
            invariant
                n == ks.len(),
                ks == self.insert_tables.keys(),
                self.parts_wf(),
                self.delete_tables == before.delete_tables,
                self.dropped == before.dropped,
                self.dropped_indexes == before.dropped_indexes,
                self.dropped_sequences == before.dropped_sequences,
                self.made_sequences == before.made_sequences,
                self.refilled_sequences == before.refilled_sequences,
                self.insert_tables@.dom() == was.dom(),
                forall|i: int| 0 <= i < ks.len() ==> was.contains_key(#[trigger] ks[i]),
                forall|a: int, b: int|
                    #![trigger ks[a], ks[b]]
                    0 <= a < b < ks.len() ==> ks[a] < ks[b],
                forall|j: int|
                    0 <= j < i ==> self.insert_tables@[#[trigger] ks[j]]@
                        == was[ks[j]]@.without_index(index_id),
                forall|j: int| i <= j < n ==> self.insert_tables@[#[trigger] ks[j]] == was[ks[j]],
        {
            assert(self.insert_tables@.contains_key(ks[i as int]));
            let table = self.insert_tables.value_at_mut(i);
            table.drop_index(&IndexId(index_id));
            assert(self.insert_tables@.dom() =~= was.dom());
        }
        proof {
            self.insert_tables.lemma_keys();
            assert forall|t: u32| #[trigger] was.contains_key(t) implies self.insert_tables@[t]@
                == was[t]@.without_index(index_id) by {
                assert(self.insert_tables@.contains_key(t));
                let j = choose|j: int| 0 <= j < ks.len() && ks[j] == t;
                assert(self.insert_tables@[ks[j]]@ == was[ks[j]]@.without_index(index_id));
            }
            assert(self@.inserts =~= without_index_each(old(self)@.inserts, index_id));
        }
    }

    /// Takes a sequence out of use.
    pub fn drop_sequence(&mut self, sequence_id: u32)
        requires
            old(self).parts_wf(),
        ensures
            final(self).parts_wf(),
            final(self)@ == (TxModel {
                dropped_sequences: old(self)@.dropped_sequences.insert(sequence_id),
                ..old(self)@
            }),
    {
        self.dropped_sequences.insert(sequence_id, ());
        assert(self@.dropped_sequences =~= old(self)@.dropped_sequences.insert(sequence_id));
    }

    /// Takes a sequence into use, which is new where `new` says so. Where one of that id was there,
    /// it counts as one that was allocated more.
    pub fn make_sequence(&mut self, sequence_id: u32, new: bool)
        requires
            old(self).parts_wf(),
        ensures
            final(self).parts_wf(),
            final(self)@ == (TxModel {
                dropped_sequences: old(self)@.dropped_sequences.remove(sequence_id),
                made_sequences: if new {
                    old(self)@.made_sequences.insert(sequence_id)
                } else {
                    old(self)@.made_sequences
                },
                refilled_sequences: if new {
                    old(self)@.refilled_sequences
                } else {
                    old(self)@.refilled_sequences.insert(sequence_id)
                },
                ..old(self)@
            }),
    {
        self.dropped_sequences.remove(&sequence_id);
        assert(self@.dropped_sequences =~= old(self)@.dropped_sequences.remove(sequence_id));
        if new {
            self.made_sequences.insert(sequence_id, ());
            assert(self@.made_sequences =~= old(self)@.made_sequences.insert(sequence_id));
        } else {
            self.refilled_sequences.insert(sequence_id, ());
            assert(self@.refilled_sequences =~= old(self)@.refilled_sequences.insert(sequence_id));
        }
    }

    /// Takes note that more was allocated to a sequence.
    pub fn note_refill(&mut self, sequence_id: u32)
        requires
            old(self).parts_wf(),
        ensures
            final(self).parts_wf(),
            final(self)@ == (TxModel {
                refilled_sequences: old(self)@.refilled_sequences.insert(sequence_id),
                ..old(self)@
            }),
    {
        self.refilled_sequences.insert(sequence_id, ());
        assert(self@.refilled_sequences =~= old(self)@.refilled_sequences.insert(sequence_id));
    }

    /// The rows of the transaction's part of a table that its index of `col_id` holds `value` for,
    /// of which there is at most one where the index is unique; nothing, where it has no such
    /// index.
    pub fn index_seek(
        &self,
        table_id: &TableId,
        col_id: &ColId,
        value: &AlgebraicValue,
    ) -> (r: Option<Vec<RowId>>)
        requires
            self.wf(),
        ensures
            match r {
                Some(ids) => {
                    &&& self@.inserts.contains_key(table_id.0)
                    &&& self@.inserts[table_id.0].indexes.contains_key(col_id.0)
                    &&& lists_in_order(
                        ids@,
                        self@.inserts[table_id.0].indexes[col_id.0].holding(value@),
                    )
                    &&& self@.inserts[table_id.0].indexes[col_id.0].is_unique ==> ids@.len() <= 1
                },
                None => {
                    ||| !self@.inserts.contains_key(table_id.0)
                    ||| !self@.inserts[table_id.0].indexes.contains_key(col_id.0)
                },
            },
    {
        match self.insert_tables.get(&table_id.0) {
            Some(table) => {
                let r = table.index_seek(*col_id, value);
                proof {
                    assert(self@.inserts.contains_key(table_id.0));
                    assert(table@.unique());
                    if r is Some {
                        let index = table@.indexes[col_id.0];
                        let ks = row_ids(r->0@);
                        if index.is_unique && ks.len() > 1 {
                            assert(ks.to_set().contains(ks[0]) && ks.to_set().contains(ks[1]));
                            assert(index.holding(value@).contains(ks[0]));
                            assert(index.holding(value@).contains(ks[1]));
                            assert(RowId::before(ks[0], ks[1]));
                            RowId::law_irreflexive(ks[0]);
                            assert(index.entries.contains_key(ks[0]));
                            assert(index.entries.contains_key(ks[1]));
                        }
                    }
                }
                r
            },
            None => None,
        }
    }
}

/// The committed tables, by their ids.
pub struct CommittedState {
    pub tables: OrdMap<u32, Table>,
}

impl View for CommittedState {
    type V = Map<u32, TableModel>;

    open spec fn view(&self) -> Map<u32, TableModel> {
        table_models(self.tables@)
    }
}

impl CommittedState {
    pub open spec fn wf(&self) -> bool {
        self.tables.wf() && tables_wf(self.tables@) && tables_exact(self.tables@)
    }

    pub fn new() -> (r: Self)
        ensures
            r.wf(),
            r@ == Map::<u32, TableModel>::empty(),
    {
        let r = CommittedState { tables: OrdMap::new() };
        assert(r@ =~= Map::<u32, TableModel>::empty());
        r
    }

    pub fn get_or_create_table(
        &mut self,
        table_id: TableId,
        row_type: ProductType,
        schema: TableSchema,
    ) -> (r: &mut Table)
        requires
            old(self).wf(),
        ensures
            r.wf(),
            r@ == if old(self)@.contains_key(table_id.0) {
                old(self)@[table_id.0]
            } else {
                new_table(row_type@, schema@)
            },
            r@.exact(),
            final(self)@ == old(self)@.insert(table_id.0, final(r)@),
            final(r).wf() && final(r)@.exact() ==> final(self).wf(),
    {
        if !self.tables.contains_key(&table_id.0) {
            self.tables.insert(table_id.0, Table::new(row_type, schema));
        }
        match self.tables.get_mut(&table_id.0) {
            Some(table) => {
                assert(table_models(after_borrow(self).tables@) =~= table_models(
                    old(self).tables@,
                ).insert(table_id.0, final(table)@));
                table
            },
            None => {
                assert(false);
                vstd::pervasive::unreached()
            },
        }
    }

    pub fn get_table(&mut self, table_id: &TableId) -> (r: Option<&mut Table>)
        requires
            old(self).wf(),
        ensures
            match r {
                Some(table) => {
                    &&& old(self)@.contains_key(table_id.0)
                    &&& table.wf()
                    &&& table@ == old(self)@[table_id.0]
                    &&& table@.exact()
                    &&& final(self)@ == old(self)@.insert(table_id.0, final(table)@)
                    &&& final(table).wf() && final(table)@.exact() ==> final(self).wf()
                },
                None => !old(self)@.contains_key(table_id.0) && *final(self) == *old(self),
            },
    {
        match self.tables.get_mut(&table_id.0) {
            Some(table) => {
                assert(table_models(after_borrow(self).tables@) =~= table_models(
                    old(self).tables@,
                ).insert(table_id.0, final(table)@));
                Some(table)
            },
            None => None,
        }
    }

    /// The rows of a committed table that its index of `col_id` holds `value` for; nothing, where
    /// it has no such index.
    pub fn index_seek(
        &self,
        table_id: &TableId,
        col_id: &ColId,
        value: &AlgebraicValue,
    ) -> (r: Option<Vec<RowId>>)
        requires
            self.wf(),
        ensures
            match r {
                Some(ids) => {
                    &&& self@.contains_key(table_id.0)
                    &&& self@[table_id.0].indexes.contains_key(col_id.0)
                    &&& lists_in_order(
                        ids@,
                        self@[table_id.0].indexes[col_id.0].holding(value@),
                    )
                },
                None => {
                    ||| !self@.contains_key(table_id.0)
                    ||| !self@[table_id.0].indexes.contains_key(col_id.0)
                },
            },
    {
        match self.tables.get(&table_id.0) {
            Some(table) => table.index_seek(*col_id, value),
            None => None,
        }
    }

    /// Takes in all that a transaction did, and reports it.
    pub fn merge(&mut self, tx_state: TxState) -> (r: Arc<Transaction>)
        requires
            old(self).wf(),
            tx_state.parts_wf(),
        ensures
            final(self).wf(),
            final(self)@ == merge(old(self)@, tx_state@),
            (*r)@ == merge_writes(old(self)@, tx_state@),
    {
        let ghost tx = tx_state@;
        let mut writes: Vec<Write> = Vec::new();
        let mut deletes: Vec<Write> = Vec::new();
        let TxState {
            insert_tables,
            delete_tables,
            dropped,
            dropped_indexes,
            dropped_sequences: _,
            made_sequences: _,
            refilled_sequences: _,
        } = tx_state;
        self.drop_tables(&dropped, &dropped_indexes);
        assert(self@ =~= tx.left_of(old(self)@));
        self.merge_delete_tables(delete_tables, &mut deletes);
        self.merge_insert_tables(insert_tables, &mut writes);
        let ghost inserted = writes@;
        let ghost deleted = deletes@;
        writes.append(&mut deletes);
        proof {
            assert(tx.inserts.dom() =~= insert_tables@.dom());
            assert(tx.deletes.dom() =~= delete_tables@.dom());
            assert(writes_model(writes@) =~= writes_model(inserted) + writes_model(deleted));
            assert(writes_model(writes@) =~= merge_writes(old(self)@, tx));
        }
        Arc::new(Transaction { writes })
    }

    /// Takes out some tables, and some indexes of the others.
    fn drop_tables(&mut self, dropped: &OrdMap<u32, ()>, dropped_indexes: &OrdMap<u32, ()>)
        requires
            old(self).wf(),
            dropped.wf(),
            dropped_indexes.wf(),
        ensures
            final(self).wf(),
            final(self)@ == old(self)@.remove_keys(dropped@.dom()).map_values(
                |t: TableModel| t.without_indexes(dropped_indexes@.dom()),
            ),
    {
        let ghost ds = dropped.keys();
        let ghost all = self.tables@;
        proof {
            dropped.lemma_keys();
            assert(all.remove_keys(ds.take(0).to_set()) =~= all);
        }
        let l: usize = dropped.len();
        for i in 0..l
            invariant
                l == ds.len(),
                ds == dropped.keys(),
                self.wf(),
                all == old(self).tables@,
                tables_wf(all),
                tables_exact(all),
                self.tables@ == all.remove_keys(ds.take(i as int).to_set()),
        {
            self.tables.remove(dropped.key_at(i));
            proof {
                lemma_take_set(ds, i as int);
                assert(self.tables@ =~= all.remove_keys(ds.take(i + 1).to_set()));
            }
        }
        assert(ds.take(ds.len() as int) =~= ds);
        let ghost ids = dropped_indexes@.dom();
        let ghost ks = self.tables.keys();
        let ghost was = self.tables@;
        proof {
            self.tables.lemma_keys();
        }
        let n: usize = self.tables.len();
        for i in 0..n
            invariant
                n == ks.len(),
                ks == self.tables.keys(),
                self.wf(),
                dropped_indexes.wf(),
                ids == dropped_indexes@.dom(),
                self.tables@.dom() == was.dom(),
                forall|i: int| 0 <= i < ks.len() ==> was.contains_key(#[trigger] ks[i]),
                forall|a: int, b: int|
                    #![trigger ks[a], ks[b]]
                    0 <= a < b < ks.len() ==> ks[a] < ks[b],
                forall|j: int|
                    0 <= j < i ==> self.tables@[#[trigger] ks[j]]@ == was[ks[j]]@.without_indexes(
                        ids,
                    ),
                forall|j: int| i <= j < n ==> self.tables@[#[trigger] ks[j]] == was[ks[j]],
        {
            assert(self.tables@.contains_key(ks[i as int]));
            let ghost before = self.tables@[ks[i as int]]@;
            let table = self.tables.value_at_mut(i);
            table.drop_indexes(dropped_indexes);
            proof {
                lemma_without_indexes_inv(before, ids);
                assert(self.tables@.dom() =~= was.dom());
            }
        }
        proof {
            self.tables.lemma_keys();
            assert forall|t: u32| #[trigger] was.contains_key(t) implies self.tables@[t]@
                == was[t]@.without_indexes(ids) by {
                assert(self.tables@.contains_key(t));
                let j = choose|j: int| 0 <= j < ks.len() && ks[j] == t;
                assert(self.tables@[ks[j]]@ == was[ks[j]]@.without_indexes(ids));
            }
            assert(self@ =~= old(self)@.remove_keys(dropped@.dom()).map_values(
                |t: TableModel| t.without_indexes(ids),
            ));
        }
    }

    fn merge_insert_tables(
        &mut self,
        insert_tables: OrdMap<u32, Table>,
        writes: &mut Vec<Write>,
    )
        requires
            old(self).wf(),
            insert_tables.wf(),
            tables_wf(insert_tables@),
        ensures
            final(self).wf(),
            final(self)@ == merge_inserts(old(self)@, table_models(insert_tables@)),
            writes_model(final(writes)@) == writes_model(old(writes)@) + insert_writes(
                table_models(insert_tables@),
                ascending::<u32>(insert_tables@.dom()),
            ),
    {
        let ghost all = table_models(insert_tables@);
        let ghost ks = insert_tables.keys();
        let mut rest = insert_tables;
        let ghost mut i: int = 0;
        proof {
            rest.lemma_keys();
            assert(ks.skip(0) =~= ks);
            assert(all.restrict(ks.take(0).to_set()) =~= Map::<u32, TableModel>::empty());
            assert(merge_inserts(self@, Map::<u32, TableModel>::empty()) =~= self@);
            assert(writes_model(writes@) =~= writes_model(old(writes)@) + insert_writes(
                all,
                ks.take(0),
            ));
        }
        while rest.len() > 0
            invariant
                self.wf(),
                rest.wf(),
                tables_wf(rest@),
                0 <= i <= ks.len(),
                rest.keys() == ks.skip(i),
                ascends::<u32>(ks),
                ks.to_set() == all.dom(),
                forall|t: u32| #[trigger]
                    rest@.contains_key(t) ==> all.contains_key(t) && rest@[t]@ == all[t],
                self@ == merge_inserts(old(self)@, all.restrict(ks.take(i).to_set())),
                writes_model(writes@) == writes_model(old(writes)@) + insert_writes(
                    all,
                    ks.take(i),
                ),
            decreases rest.keys().len(),
        {
            let ghost before = self@;
            let ghost small = all.restrict(ks.take(i).to_set());
            let ghost big = all.restrict(ks.take(i + 1).to_set());
            proof {
                rest.lemma_keys();
                assert(rest.keys()[0] == ks[i]);
                assert(rest@.contains_key(rest.keys()[0]));
            }
            let (table_id, table) = rest.take_first();
            let ghost t = table_id;
            let ghost inserted = table@;
            proof {
                assert(inserted == all[t]);
                if ks.take(i).contains(t) {
                    let j = choose|j: int| 0 <= j < i && ks.take(i)[j] == t;
                    assert(ks[j] == ks[i]);
                }
                assert(!small.contains_key(t));
            }
            self.merge_insert_table(TableId(table_id), table, writes);
            proof {
                lemma_take_set(ks, i);
                assert(merge_base(before, t, inserted) == merge_base(old(self)@, t, inserted));
                assert(big =~= small.insert(t, inserted));
                assert(self@ =~= merge_inserts(old(self)@, big));
                assert(ks.skip(i).skip(1) =~= ks.skip(i + 1));
                assert(ks.take(i + 1).drop_last() =~= ks.take(i));
                assert(writes_model(writes@) =~= writes_model(old(writes)@) + insert_writes(
                    all,
                    ks.take(i + 1),
                ));
                i = i + 1;
            }
        }
        proof {
            assert(ks.take(i) =~= ks);
            assert(all.restrict(ks.to_set()) =~= all);
            assert(all.dom() =~= insert_tables@.dom());
        }
    }

    fn merge_insert_table(&mut self, table_id: TableId, table: Table, writes: &mut Vec<Write>)
        requires
            old(self).wf(),
            table.wf(),
        ensures
            final(self).wf(),
            final(self)@ == old(self)@.insert(
                table_id.0,
                merge_table(merge_base(old(self)@, table_id.0, table@), table@),
            ),
            writes_model(final(writes)@) == writes_model(old(writes)@) + writes_of(
                Operation::Insert,
                table_id.0,
                table@.rows.dom(),
            ),
    {
        let ghost inserted = table@;
        let Table { row_type, schema, indexes, rows } = table;
        proof {
            assert forall|k: Key| #[trigger] rows@.contains_key(k) implies row_key(rows@[k]@)
                == k by {
                assert(inserted.rows.contains_key(k));
            }
            assert forall|c: u32| #[trigger] indexes@.contains_key(c) implies indexes@[c].wf()
                && indexes@[c].col_id == c by {
                assert(inserted.indexes.contains_key(c));
            }
            assert(inserted.rows.dom() =~= rows@.dom());
        }
        let commit_table = self.get_or_create_table(table_id, row_type, schema.clone());
        let ghost got = commit_table@;
        commit_table.set_schema(schema);
        let ghost base = commit_table@;
        assert(got.exact() ==> base.exact()) by {
            assert forall|c: u32| #[trigger] base.indexes.contains_key(c) && got.exact() implies
                base.indexes[c].entries == column_of(base.rows, c) by {
                assert(got.indexes.contains_key(c));
            }
        }
        commit_table.insert_rows(table_id.0, rows, writes);
        let ghost mid = commit_table@;
        commit_table.add_indexes(indexes);
        proof {
            lemma_merge_exact(base, inserted.rows, Set::empty());
            lemma_add_exact(mid, inserted.indexes);
        }
    }

    fn merge_delete_tables(
        &mut self,
        delete_tables: OrdMap<u32, RowIdSet>,
        writes: &mut Vec<Write>,
    )
        requires
            old(self).wf(),
            delete_tables.wf(),
            forall|t: u32| #[trigger]
                delete_tables@.contains_key(t) ==> delete_tables@[t].wf(),
        ensures
            final(self).wf(),
            final(self)@ == merge_deletes(old(self)@, row_id_sets(delete_tables@)),
            writes_model(final(writes)@) == writes_model(old(writes)@) + delete_writes(
                old(self)@.dom(),
                row_id_sets(delete_tables@),
                ascending::<u32>(delete_tables@.dom()),
            ),
    {
        let ghost all = row_id_sets(delete_tables@);
        let ghost ks = delete_tables.keys();
        proof {
            delete_tables.lemma_keys();
            assert(all.restrict(ks.take(0).to_set()) =~= Map::<u32, Set<Key>>::empty());
            assert(merge_deletes(self@, Map::<u32, Set<Key>>::empty()) =~= self@);
            assert(writes_model(writes@) =~= writes_model(old(writes)@) + delete_writes(
                old(self)@.dom(),
                all,
                ks.take(0),
            ));
        }
        let n: usize = delete_tables.len();
        for i in 0..n
            invariant
                n == ks.len(),
                ks == delete_tables.keys(),
                all == row_id_sets(delete_tables@),
                delete_tables.wf(),
                self.wf(),
                forall|t: u32| #[trigger]
                    delete_tables@.contains_key(t) ==> delete_tables@[t].wf(),
                ascends::<u32>(ks),
                forall|i: int|
                    0 <= i < ks.len() ==> delete_tables@.contains_key(#[trigger] ks[i]),
                self@ == merge_deletes(old(self)@, all.restrict(ks.take(i as int).to_set())),
                self@.dom() == old(self)@.dom(),
                writes_model(writes@) == writes_model(old(writes)@) + delete_writes(
                    old(self)@.dom(),
                    all,
                    ks.take(i as int),
                ),
        {
            let ghost small = all.restrict(ks.take(i as int).to_set());
            let ghost big = all.restrict(ks.take(i + 1).to_set());
            let ghost t = ks[i as int];
            proof {
                assert(delete_tables@.contains_key(ks[i as int]));
                if ks.take(i as int).contains(t) {
                    let j = choose|j: int| 0 <= j < i && ks.take(i as int)[j] == t;
                    assert(ks[j] == ks[i as int]);
                }
                assert(!small.contains_key(t));
                lemma_take_set(ks, i as int);
                assert(big =~= small.insert(t, all[t]));
                assert(ks.take(i + 1).drop_last() =~= ks.take(i as int));
            }
            let table_id = TableId(*delete_tables.key_at(i));
            let row_ids = delete_tables.value_at(i);
            match self.get_table(&table_id) {
                Some(table) => {
                    let ghost before = table@;
                    table.delete_rows(table_id.0, &row_ids.ids, writes);
                    proof {
                        lemma_merge_exact(before, Map::empty(), row_ids@);
                    }
                },
                None => {},
            }
            proof {
                assert(self@ =~= merge_deletes(old(self)@, big));
                assert(self@.dom() =~= old(self)@.dom());
                assert(writes_model(writes@) =~= writes_model(old(writes)@) + delete_writes(
                    old(self)@.dom(),
                    all,
                    ks.take(i + 1),
                ));
            }
        }
        proof {
            assert(ks.take(ks.len() as int) =~= ks);
            assert(all.restrict(ks.to_set()) =~= all);
            assert(all.dom() =~= delete_tables@.dom());
        }
    }
}

} // verus!
