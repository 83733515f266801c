//! What the datastore is, and what each operation makes of it.

use vstd::prelude::*;

use crate::btree_index::{all_have_column, column_of, one_row_per_value, IndexModel};
use crate::data_key::{key_of, row_key, Key, RowId};
use crate::error::Fault;
use crate::ids::{ST_COLUMNS_ID, ST_INDEXES_ID, ST_SEQUENCES_ID, ST_TABLES_ID};
use crate::iter::in_range;
use crate::messages::{writes_of, Operation, WriteModel};
use crate::ordered::{ascending, in_key_order};
use crate::range::RangeModel;
use crate::schema::{
    ColumnDefModel, ColumnModel, IndexDefModel, IndexSchemaModel, SchemaModel, SequenceDefModel,
    TableDefModel,
};
use crate::sequence::SequenceModel;
use crate::state::rolled_back;
use crate::system_tables::{string_at, u32_at, TableRowModel};
use crate::table::TableModel;
use crate::types::{RowType, Type};
use crate::value::{canonical, encoded_all, is_zero, Row, Value};

verus! {

/// How many numbers are allocated to a sequence at a time.
pub const SEQUENCE_ALLOCATION: usize = 1024;

/// What has become of a row in a transaction.
#[derive(Debug, Clone, Copy, PartialEq, Eq, Structural)]
pub enum RowOp {
    Insert,
    Delete,
    Absent,
}

/// What a transaction has done so far.
#[verifier::ext_equal]
pub struct TxModel {
    /// The tables that it inserted into, with what it inserted.
    pub inserts: Map<u32, TableModel>,
    /// The rows that it deleted, by table.
    pub deletes: Map<u32, Set<Key>>,
    /// The committed tables that it dropped.
    pub dropped: Set<u32>,
    /// The indexes of committed tables that it dropped.
    pub dropped_indexes: Set<u32>,
    /// The sequences that it dropped.
    pub dropped_sequences: Set<u32>,
    /// The sequences that it made.
    pub made_sequences: Set<u32>,
    /// The sequences that it allocated more to.
    pub refilled_sequences: Set<u32>,
}

impl TxModel {
    pub open spec fn empty() -> TxModel {
        TxModel {
            inserts: Map::empty(),
            deletes: Map::empty(),
            dropped: Set::empty(),
            dropped_indexes: Set::empty(),
            dropped_sequences: Set::empty(),
            made_sequences: Set::empty(),
            refilled_sequences: Set::empty(),
        }
    }

    /// The rows of table `t` that the transaction deleted.
    pub open spec fn deleted(self, t: u32) -> Set<Key> {
        if self.deletes.contains_key(t) {
            self.deletes[t]
        } else {
            Set::empty()
        }
    }

    /// The rows of table `t` that the transaction inserted.
    pub open spec fn fresh(self, t: u32) -> Map<Key, Row> {
        if self.inserts.contains_key(t) {
            self.inserts[t].rows
        } else {
            Map::empty()
        }
    }

    /// What has become of a row.
    pub open spec fn row_op(self, t: u32, k: Key) -> RowOp {
        if self.deleted(t).contains(k) {
            RowOp::Delete
        } else if self.fresh(t).contains_key(k) {
            RowOp::Insert
        } else {
            RowOp::Absent
        }
    }

    /// What is left of the committed tables: those that were not dropped, each without the indexes
    /// that were.
    pub open spec fn left_of(self, committed: Map<u32, TableModel>) -> Map<u32, TableModel> {
        Map::new(
            |t: u32| committed.contains_key(t) && !self.dropped.contains(t),
            |t: u32| committed[t].without_indexes(self.dropped_indexes),
        )
    }

    /// The tables are in order, a unique index holds a value for one row, and no row is both
    /// inserted and deleted.
    pub open spec fn inv(self) -> bool {
        &&& self.inserts.dom().finite()
        &&& self.deletes.dom().finite()
        &&& forall|t: u32| #[trigger]
            self.inserts.contains_key(t) ==> self.inserts[t].inv() && self.inserts[t].unique()
        &&& forall|t: u32| #[trigger] self.deletes.contains_key(t) ==> self.deletes[t].finite()
        &&& forall|t: u32, k: Key|
            #![trigger self.fresh(t).contains_key(k)]
            self.fresh(t).contains_key(k) ==> !self.deleted(t).contains(k)
    }
}

/// `tables`, each without an index.
pub open spec fn without_index_each(
    tables: Map<u32, TableModel>,
    index_id: u32,
) -> Map<u32, TableModel> {
    tables.map_values(|t: TableModel| t.without_index(index_id))
}

/// The rows of `m` that hold `v` in column `c`, in the order of their keys.
pub open spec fn matching(m: Map<Key, Row>, c: u32, v: Value) -> Seq<Row> {
    in_key_order::<RowId, Row>(holding(m, c, v))
}

/// The rows of `m` that hold `v` in column `c`.
pub open spec fn holding(m: Map<Key, Row>, c: u32, v: Value) -> Map<Key, Row> {
    m.restrict(Set::new(|k: Key| m.contains_key(k) && holds(m[k], c, v)))
}

/// `row` has column `c`, with a value equal to `v` in it.
pub open spec fn holds(row: Row, c: u32, v: Value) -> bool {
    c < row.len() && canonical(row[c as int]) == canonical(v)
}

/// `cols` with one column more, before those with a greater id.
pub open spec fn insert_by_col_id(cols: Seq<ColumnModel>, col: ColumnModel) -> Seq<ColumnModel>
    decreases cols.len(),
{
    if cols.len() == 0 || cols.last().col_id <= col.col_id {
        cols.push(col)
    } else {
        insert_by_col_id(cols.drop_last(), col).push(cols.last())
    }
}

/// `cols` in the order of their ids.
pub open spec fn by_col_id(cols: Seq<ColumnModel>) -> Seq<ColumnModel>
    decreases cols.len(),
{
    if cols.len() == 0 {
        Seq::empty()
    } else {
        insert_by_col_id(by_col_id(cols.drop_last()), cols.last())
    }
}

/// The columns that `rows` describe, or what keeps the first unreadable one from being read.
pub open spec fn columns_of_rows(rows: Seq<Row>) -> Result<Seq<ColumnModel>, Fault>
    decreases rows.len(),
{
    if rows.len() == 0 {
        Ok(Seq::empty())
    } else {
        match columns_of_rows(rows.drop_last()) {
            Err(f) => Err(f),
            Ok(s) => match ColumnModel::of_row(rows.last()) {
                Err(f) => Err(f),
                Ok(c) => Ok(s.push(c)),
            },
        }
    }
}

/// The indexes that `rows` describe, or what keeps the first unreadable one from being read.
pub open spec fn indexes_of_rows(rows: Seq<Row>) -> Result<Seq<IndexSchemaModel>, Fault>
    decreases rows.len(),
{
    if rows.len() == 0 {
        Ok(Seq::empty())
    } else {
        match indexes_of_rows(rows.drop_last()) {
            Err(f) => Err(f),
            Ok(s) => match IndexSchemaModel::of_row(rows.last()) {
                Err(f) => Err(f),
                Ok(c) => Ok(s.push(c)),
            },
        }
    }
}

/// The first of the sequences in `rows` that is for column `c`. An unreadable row before it is an
/// error.
pub open spec fn sequence_for(rows: Seq<Row>, c: u32) -> Result<Option<u32>, Fault>
    decreases rows.len(),
{
    if rows.len() == 0 {
        Ok(None)
    } else {
        match SequenceModel::of_row(rows[0]) {
            Err(f) => Err(f),
            Ok(s) => if s.col_id == c {
                Ok(Some(s.sequence_id))
            } else {
                sequence_for(rows.skip(1), c)
            },
        }
    }
}

/// The number `n` as a value of type `ty`, cut to its width, where the type is one of integers.
pub open spec fn number_value(ty: Type, n: i128) -> Option<Value> {
    match ty {
        Type::I8 => Some(Value::I8(n as i8)),
        Type::U8 => Some(Value::U8(n as u8)),
        Type::I16 => Some(Value::I16(n as i16)),
        Type::U16 => Some(Value::U16(n as u16)),
        Type::I32 => Some(Value::I32(n as i32)),
        Type::U32 => Some(Value::U32(n as u32)),
        Type::I64 => Some(Value::I64(n as i64)),
        Type::U64 => Some(Value::U64(n as u64)),
        Type::I128 => Some(Value::I128(n)),
        Type::U128 => Some(Value::U128(n as u128)),
        _ => None,
    }
}

/// What the datastore is.
#[verifier::ext_equal]
pub struct DbModel {
    pub committed: Map<u32, TableModel>,
    /// The open transaction.
    pub tx: Option<TxModel>,
    pub sequences: Map<u32, SequenceModel>,
    /// The bytes of every row inserted so far whose key is a hash.
    pub blobs: Map<Key, Seq<u8>>,
}

impl DbModel {
    /// A datastore with nothing in it.
    pub open spec fn empty() -> DbModel {
        DbModel {
            committed: Map::empty(),
            tx: None,
            sequences: Map::empty(),
            blobs: Map::empty(),
        }
    }

    /// The tables are in order, committed indexes hold just the rows of their tables, and no two
    /// rows the same value where they are unique, what the transaction shows is in order, and bytes
    /// stand under their keys.
    pub open spec fn inv(self) -> bool {
        &&& self.committed.dom().finite()
        &&& forall|t: u32| #[trigger]
            self.committed.contains_key(t) ==> self.committed[t].inv() && self.committed[t].exact()
        &&& self.committed_unique()
        &&& self.tx matches Some(tx) ==> tx.inv() && self.seen_in_order()
        &&& self.blobs_under_keys()
    }

    /// Every unique index of a committed table holds a value for one row.
    pub open spec fn committed_unique(self) -> bool {
        forall|t: u32| #[trigger] self.committed.contains_key(t) ==> self.committed[t].unique()
    }

    /// Every index of the transaction holds just rows that are seen, its parts of tables are
    /// indexed, and no two rows that are seen hold the same value where a unique index is.
    pub open spec fn seen_in_order(self) -> bool {
        &&& forall|t: u32| #[trigger]
            self.has_inserts(t) ==> self.inserts(t).holds_only(self.visible(t)) && self.indexed(t)
        &&& forall|t: u32, c: u32| #[trigger]
            self.has_unique(t, c) ==> one_row_per_value(column_of(self.visible(t), c))
    }

    /// The transaction's part of table `t` has the indexes of the committed table, and an index
    /// that the committed table has not holds all rows that are seen.
    pub open spec fn indexed(self, t: u32) -> bool {
        &&& forall|c: u32|
            self.has_base(t) && #[trigger] self.base(t).indexes.contains_key(c) ==> {
                &&& self.inserts(t).indexes.contains_key(c)
                &&& self.inserts(t).indexes[c].is_unique == self.base(t).indexes[c].is_unique
                &&& self.inserts(t).indexes[c].index_id == self.base(t).indexes[c].index_id
            }
        &&& forall|c: u32| #[trigger]
            self.inserts(t).indexes.contains_key(c) && !(self.has_base(t) && self.base(
                t,
            ).indexes.contains_key(c)) ==> self.inserts(t).indexes[c].entries == column_of(
                self.visible(t),
                c,
            )
    }

    /// Some unique index of table `t` is on column `c`.
    pub open spec fn has_unique(self, t: u32, c: u32) -> bool {
        ||| self.has_inserts(t) && self.inserts(t).indexes.contains_key(c) && self.inserts(
            t,
        ).indexes[c].is_unique
        ||| self.has_base(t) && self.base(t).indexes.contains_key(c) && self.base(
            t,
        ).indexes[c].is_unique
    }

    /// The bytes that are kept stand under their keys.
    pub open spec fn blobs_under_keys(self) -> bool {
        forall|k: Key| #[trigger] self.blobs.contains_key(k) ==> key_of(self.blobs[k]) == k
    }

    /// The datastore with another transaction state.
    pub open spec fn with_tx(self, tx: TxModel) -> DbModel {
        DbModel { tx: Some(tx), ..self }
    }

    /// The datastore with `table` as the transaction's own part of table `t`.
    pub open spec fn with_inserts(self, t: u32, table: TableModel) -> DbModel {
        self.with_tx(
            TxModel { inserts: self.tx->0.inserts.insert(t, table), ..self.tx->0 },
        )
    }

    /// The datastore with another state of sequence `s`.
    pub open spec fn with_sequence(self, s: u32, q: SequenceModel) -> DbModel {
        DbModel { sequences: self.sequences.insert(s, q), ..self }
    }

    /// The transaction has its own part of table `t`.
    pub open spec fn has_inserts(self, t: u32) -> bool {
        self.tx->0.inserts.contains_key(t)
    }

    /// The transaction's own part of table `t`.
    pub open spec fn inserts(self, t: u32) -> TableModel {
        self.tx->0.inserts[t]
    }

    pub open spec fn deleted(self, t: u32) -> Set<Key> {
        self.tx->0.deleted(t)
    }

    pub open spec fn fresh(self, t: u32) -> Map<Key, Row> {
        self.tx->0.fresh(t)
    }

    /// Table `t` is committed, and the transaction has not dropped it.
    pub open spec fn has_base(self, t: u32) -> bool {
        self.committed.contains_key(t) && !self.tx->0.dropped.contains(t)
    }

    /// The committed table `t`, without the indexes that the transaction dropped.
    pub open spec fn base(self, t: u32) -> TableModel {
        self.committed[t].without_indexes(self.tx->0.dropped_indexes)
    }

    /// The rows of table `t` that are committed.
    pub open spec fn committed_rows(self, t: u32) -> Map<Key, Row> {
        if self.committed.contains_key(t) {
            self.committed[t].rows
        } else {
            Map::empty()
        }
    }

    /// The committed rows of table `t`, where the transaction has not dropped it.
    pub open spec fn stored(self, t: u32) -> Map<Key, Row> {
        if self.has_base(t) {
            self.committed[t].rows
        } else {
            Map::empty()
        }
    }

    /// Sequence `s` is in use.
    pub open spec fn in_use(self, s: u32) -> bool {
        self.sequences.contains_key(s) && !self.tx->0.dropped_sequences.contains(s)
    }

    /// The keys of the rows of table `t` that the transaction deleted or put in place of others.
    pub open spec fn replaced(self, t: u32) -> Set<Key> {
        self.deleted(t).union(self.fresh(t).dom())
    }

    /// The committed rows of table `t` that the transaction left alone.
    pub open spec fn kept(self, t: u32) -> Map<Key, Row> {
        self.stored(t).restrict(
            Set::new(
                |k: Key|
                    self.stored(t).contains_key(k) && self.tx->0.row_op(t, k) == RowOp::Absent,
            ),
        )
    }

    /// The rows of table `t` as the transaction sees them.
    pub open spec fn visible(self, t: u32) -> Map<Key, Row> {
        self.kept(t).union_prefer_right(self.fresh(t))
    }

    pub open spec fn table_exists(self, t: u32) -> bool {
        self.has_inserts(t) || self.has_base(t)
    }

    pub open spec fn contains_row(self, t: u32, k: Key) -> bool {
        self.visible(t).contains_key(k)
    }

    /// The rows of table `t`: those left alone first, then those inserted.
    pub open spec fn scan(self, t: u32) -> Result<Seq<Row>, Fault> {
        if self.table_exists(t) {
            Ok(
                in_key_order::<RowId, Row>(self.kept(t)) + in_key_order::<RowId, Row>(
                    self.fresh(t),
                ),
            )
        } else {
            Err(Fault::TableIdNotFound(t))
        }
    }

    /// The rows of table `t` with `v` in column `c`: those inserted first, where the transaction
    /// has an index of the column, and last, where it has not.
    pub open spec fn seek(self, t: u32, c: u32, v: Value) -> Result<Seq<Row>, Fault> {
        let kept = matching(self.kept(t), c, v);
        let fresh = matching(self.fresh(t), c, v);
        if self.has_inserts(t) && self.inserts(t).indexes.contains_key(c) {
            Ok(fresh + kept)
        } else if self.table_exists(t) {
            Ok(kept + fresh)
        } else {
            Err(Fault::TableIdNotFound(t))
        }
    }

    /// The rows of table `t` with a value of `range` in column `c`.
    pub open spec fn range_scan(self, t: u32, c: u32, range: RangeModel) -> Result<
        Seq<Row>,
        Fault,
    > {
        match self.scan(t) {
            Err(f) => Err(f),
            Ok(rows) => Ok(rows.filter(in_range(c, range))),
        }
    }

    /// The row under `k`, where there is one.
    pub open spec fn get_row(self, t: u32, k: Key) -> Result<Option<Row>, Fault> {
        if !self.table_exists(t) {
            Err(Fault::TableIdNotFound(t))
        } else if self.visible(t).contains_key(k) {
            Ok(Some(self.visible(t)[k]))
        } else {
            Ok(None)
        }
    }

    /// The row type of table `t`, where the table is in memory.
    pub open spec fn row_type(self, t: u32) -> Option<RowType> {
        if self.has_inserts(t) {
            Some(self.inserts(t).row_type)
        } else if self.has_base(t) {
            Some(self.committed[t].row_type)
        } else {
            None
        }
    }

    /// The schema of table `t`, where the table is in memory.
    pub open spec fn schema(self, t: u32) -> Option<SchemaModel> {
        if self.has_inserts(t) {
            Some(self.inserts(t).schema)
        } else if self.has_base(t) {
            Some(self.base(t).schema)
        } else {
            None
        }
    }

    /// The schema of table `t` as the catalogue has it.
    pub open spec fn catalogue_schema(self, t: u32) -> Result<SchemaModel, Fault> {
        match self.seek(ST_TABLES_ID, 0, Value::U32(t)) {
            Err(f) => Err(f),
            Ok(rows) => if rows.len() == 0 {
                Err(Fault::TableIdNotFound(t))
            } else {
                match TableRowModel::of_row(rows[0]) {
                    Err(f) => Err(f),
                    Ok(el) => self.schema_of_columns(el),
                }
            },
        }
    }

    /// The schema of the table of which `el` is the row in the table of tables.
    pub open spec fn schema_of_columns(self, el: TableRowModel) -> Result<SchemaModel, Fault> {
        match self.seek(ST_COLUMNS_ID, 0, Value::U32(el.table_id)) {
            Err(f) => Err(f),
            Ok(rows) => match columns_of_rows(rows) {
                Err(f) => Err(f),
                Ok(cols) => match self.seek(ST_INDEXES_ID, 1, Value::U32(el.table_id)) {
                    Err(f) => Err(f),
                    Ok(rows) => match indexes_of_rows(rows) {
                        Err(f) => Err(f),
                        Ok(indexes) => Ok(
                            SchemaModel {
                                table_id: el.table_id,
                                table_name: el.table_name,
                                columns: by_col_id(cols),
                                indexes,
                            },
                        ),
                    },
                },
            },
        }
    }

    /// The schema of table `t`: that in memory, or else that in the catalogue.
    pub open spec fn schema_for_table(self, t: u32) -> Result<SchemaModel, Fault> {
        match self.schema(t) {
            Some(s) => Ok(s),
            None => self.catalogue_schema(t),
        }
    }

    /// The row type of table `t`: that in memory, or else that of the catalogue's columns.
    pub open spec fn row_type_for_table(self, t: u32) -> Result<RowType, Fault> {
        match self.row_type(t) {
            Some(s) => Ok(s),
            None => match self.schema_for_table(t) {
                Err(f) => Err(f),
                Ok(s) => Ok(s.row_type()),
            },
        }
    }

    /// The datastore in which the transaction has its own part of table `t`, made from the
    /// committed table where it had none.
    pub open spec fn with_insert_table(self, t: u32) -> DbModel {
        if self.has_inserts(t) {
            self
        } else {
            self.with_inserts(t, self.base(t).emptied())
        }
    }

    /// The datastore with `row` inserted, nothing looked at.
    pub open spec fn put_row(self, t: u32, row: Row) -> DbModel {
        let k = row_key(row);
        DbModel {
            tx: Some(
                TxModel {
                    inserts: self.tx->0.inserts.insert(t, self.inserts(t).insert(k, row)),
                    deletes: self.tx->0.deletes.insert(t, self.deleted(t).remove(k)),
                    ..self.tx->0
                },
            ),
            blobs: if k is Hash {
                self.blobs.insert(k, encoded_all(row))
            } else {
                self.blobs
            },
            ..self
        }
    }

    /// What `row` is refused with, where the transaction has its own part of table `t`.
    pub open spec fn refusal(self, t: u32, row: Row) -> Option<Fault> {
        match self.inserts(t).first_conflict(row, Set::empty()) {
            Some(c) => Some(self.inserts(t).violation(c, row)),
            None => if self.has_base(t) && self.base(t).first_conflict(
                row,
                self.replaced(t),
            ) is Some {
                Some(
                    self.base(t).violation(
                        self.base(t).first_conflict(row, self.replaced(t))->0,
                        row,
                    ),
                )
            } else if self.inserts(t).row_type.len() != row.len() {
                Some(Fault::RowInvalidType { table_id: t, row })
            } else {
                None
            },
        }
    }

    /// Inserts a row as it is.
    pub open spec fn insert_row_internal(self, t: u32, row: Row) -> (DbModel, Result<(), Fault>) {
        if !self.table_exists(t) {
            (self, Err(Fault::TableIdNotFound(t)))
        } else {
            let db = self.with_insert_table(t);
            match db.refusal(t, row) {
                Some(f) => (db, Err(f)),
                None => (db.put_row(t, row), Ok(())),
            }
        }
    }

    /// Deletes the row under `k`, and says whether there was one.
    pub open spec fn delete_row(self, t: u32, k: Key) -> (DbModel, bool) {
        if self.contains_row(t, k) {
            let tx = self.tx->0;
            (
                self.with_tx(
                    TxModel {
                        inserts: if self.has_inserts(t) {
                            tx.inserts.insert(t, tx.inserts[t].delete_all(set![k]))
                        } else {
                            tx.inserts
                        },
                        deletes: tx.deletes.insert(t, self.deleted(t).insert(k)),
                        ..tx
                    },
                ),
                true,
            )
        } else {
            (self, false)
        }
    }

    /// Deletes each of `rows`, and says how many there were.
    pub open spec fn delete_rows_in(self, t: u32, rows: Seq<Row>) -> (DbModel, nat)
        decreases rows.len(),
    {
        if rows.len() == 0 {
            (self, 0)
        } else {
            let (db, n) = self.delete_rows_in(t, rows.drop_last());
            let (db, found) = db.delete_row(t, row_key(rows.last()));
            (db, if found { n + 1 } else { n })
        }
    }

    /// Gives out the next number of sequence `s` from what is allocated.
    pub open spec fn take_number(self, s: u32) -> (DbModel, Result<i128, Fault>) {
        if !self.in_use(s) {
            (self, Err(Fault::SequenceNotFound(s)))
        } else if self.sequences[s].exhausted() {
            (self, Err(Fault::UnableToAllocate(s)))
        } else {
            (
                self.with_sequence(s, self.sequences[s].advanced()),
                Ok(self.sequences[s].value),
            )
        }
    }

    /// The datastore with the numbers of sequence `s` allocated up to `to`.
    pub open spec fn refill(self, s: u32, to: i128) -> DbModel {
        self.with_sequence(s, self.sequences[s].allocated_to(to)).with_tx(
            TxModel {
                refilled_sequences: self.tx->0.refilled_sequences.insert(s),
                ..self.tx->0
            },
        )
    }

    /// Gives out the next number of sequence `s`, and allocates more to it where it has none left.
    /// Its row in the catalogue is put back with what is allocated, and otherwise as it was.
    pub open spec fn get_next_sequence_value(self, s: u32) -> (DbModel, Result<i128, Fault>) {
        if !self.in_use(s) || !self.sequences[s].exhausted() {
            self.take_number(s)
        } else {
            match self.seek(ST_SEQUENCES_ID, 0, Value::U32(s)) {
                Err(f) => (self, Err(f)),
                Ok(rows) => if rows.len() == 0 {
                    (self, Err(Fault::SequenceNotFound(s)))
                } else {
                    match SequenceModel::of_row(rows.last()) {
                        Err(f) => (self, Err(f)),
                        Ok(listed) => {
                            let to = self.sequences[s].nth(SEQUENCE_ALLOCATION as nat);
                            let db = self.refill(s, to);
                            let db = db.delete_row(ST_SEQUENCES_ID, row_key(rows.last())).0;
                            let (db, r) = db.insert_row_internal(
                                ST_SEQUENCES_ID,
                                listed.allocated_to(to).row(),
                            );
                            match r {
                                Err(f) => (db, Err(f)),
                                Ok(_) => db.take_number(s),
                            }
                        },
                    }
                },
            }
        }
    }

    /// Fills one column of `row` from its sequence, where the column is to be filled.
    pub open spec fn fill_column(
        self,
        t: u32,
        table_name: Seq<char>,
        col: ColumnModel,
        row: Row,
    ) -> (DbModel, Result<Row, Fault>) {
        if !col.is_autoinc || col.col_id >= row.len() || !is_zero(row[col.col_id as int]) {
            (self, Ok(row))
        } else {
            match self.seek(ST_SEQUENCES_ID, 2, Value::U32(t)) {
                Err(f) => (self, Err(f)),
                Ok(rows) => match sequence_for(rows, col.col_id) {
                    Err(f) => (self, Err(f)),
                    Ok(None) => (self, Ok(row)),
                    Ok(Some(s)) => {
                        let (db, r) = self.get_next_sequence_value(s);
                        match r {
                            Err(f) => (db, Err(f)),
                            Ok(n) => match number_value(col.col_type, n) {
                                Some(v) => (db, Ok(row.update(col.col_id as int, v))),
                                None => (
                                    db,
                                    Err(
                                        Fault::NotInteger {
                                            col: table_name + seq!['.'] + col.col_name,
                                            found: col.col_type,
                                        },
                                    ),
                                ),
                            },
                        }
                    },
                },
            }
        }
    }

    /// Fills those of the first `n` columns of `row` that are to be filled.
    pub open spec fn fill_columns(
        self,
        t: u32,
        schema: SchemaModel,
        n: nat,
        row: Row,
    ) -> (DbModel, Result<Row, Fault>)
        decreases n,
    {
        if n == 0 {
            (self, Ok(row))
        } else {
            let (db, r) = self.fill_columns(t, schema, (n - 1) as nat, row);
            match r {
                Err(f) => (db, Err(f)),
                Ok(row) => db.fill_column(t, schema.table_name, schema.columns[n - 1], row),
            }
        }
    }

    /// Inserts a row, its autoincrement columns filled where they hold zero.
    pub open spec fn insert_row(self, t: u32, row: Row) -> (DbModel, Result<Row, Fault>) {
        match self.schema_for_table(t) {
            Err(f) => (self, Err(f)),
            Ok(schema) => {
                let (db, r) = self.fill_columns(t, schema, schema.columns.len(), row);
                match r {
                    Err(f) => (db, Err(f)),
                    Ok(row) => {
                        let (db, r) = db.insert_row_internal(t, row);
                        match r {
                            Err(f) => (db, Err(f)),
                            Ok(_) => (db, Ok(row)),
                        }
                    },
                }
            },
        }
    }

    /// Makes a sequence as `def` has it. A name that is taken is refused.
    pub open spec fn create_sequence(self, def: SequenceDefModel) -> (DbModel, Result<u32, Fault>) {
        match self.seek(ST_SEQUENCES_ID, 1, Value::String(def.sequence_name)) {
            Err(f) => (self, Err(f)),
            Ok(rows) => if rows.len() > 0 {
                (self, Err(Fault::SequenceExist(def.sequence_name)))
            } else {
                self.create_named_sequence(def)
            },
        }
    }

    /// Makes a sequence as `def` has it, its name not looked at.
    pub open spec fn create_named_sequence(self, def: SequenceDefModel) -> (
        DbModel,
        Result<u32, Fault>,
    ) {
        let (db, r) = self.insert_row(ST_SEQUENCES_ID, new_sequence(def).row());
        match r {
            Err(f) => (db, Err(f)),
            Ok(row) => match SequenceModel::of_row(row) {
                Err(f) => (db, Err(f)),
                Ok(q) => (db.put_sequence(q.sequence_id, q), Ok(q.sequence_id)),
            },
        }
    }

    /// The datastore with sequence `s` in use, which the transaction has made. Where one of that id
    /// was there, it counts as one that was allocated more.
    pub open spec fn put_sequence(self, s: u32, q: SequenceModel) -> DbModel {
        self.with_sequence(s, q).with_tx(
            TxModel {
                dropped_sequences: self.tx->0.dropped_sequences.remove(s),
                made_sequences: if self.sequences.contains_key(s) {
                    self.tx->0.made_sequences
                } else {
                    self.tx->0.made_sequences.insert(s)
                },
                refilled_sequences: if self.sequences.contains_key(s) {
                    self.tx->0.refilled_sequences.insert(s)
                } else {
                    self.tx->0.refilled_sequences
                },
                ..self.tx->0
            },
        )
    }

    /// The datastore with sequence `s` out of use for the transaction.
    pub open spec fn without_sequence(self, s: u32) -> DbModel {
        self.with_tx(
            TxModel {
                dropped_sequences: self.tx->0.dropped_sequences.insert(s),
                ..self.tx->0
            },
        )
    }

    /// Takes a sequence out of the catalogue and out of use.
    pub open spec fn drop_sequence(self, s: u32) -> (DbModel, Result<(), Fault>) {
        match self.seek(ST_SEQUENCES_ID, 0, Value::U32(s)) {
            Err(f) => (self, Err(f)),
            Ok(rows) => {
                let db = if rows.len() > 0 {
                    self.delete_row(ST_SEQUENCES_ID, row_key(rows.last())).0
                } else {
                    self
                };
                (db.without_sequence(s), Ok(()))
            },
        }
    }

    /// The id in the first row of table `t` with `name` in column `c`.
    pub open spec fn id_from_name(self, t: u32, c: u32, name: Seq<char>) -> Result<
        Option<u32>,
        Fault,
    > {
        match self.seek(t, c, Value::String(name)) {
            Err(f) => Err(f),
            Ok(rows) => if rows.len() == 0 {
                Ok(None)
            } else {
                match u32_at(rows[0], 0) {
                    Err(f) => Err(f),
                    Ok(id) => Ok(Some(id)),
                }
            },
        }
    }

    pub open spec fn table_id_from_name(self, name: Seq<char>) -> Result<Option<u32>, Fault> {
        self.id_from_name(ST_TABLES_ID, 1, name)
    }

    pub open spec fn index_id_from_name(self, name: Seq<char>) -> Result<Option<u32>, Fault> {
        self.id_from_name(ST_INDEXES_ID, 3, name)
    }

    pub open spec fn sequence_id_from_name(self, name: Seq<char>) -> Result<Option<u32>, Fault> {
        self.id_from_name(ST_SEQUENCES_ID, 1, name)
    }

    /// The name in the first row of the table of tables for table `t`.
    pub open spec fn table_name_from_id(self, t: u32) -> Result<Option<Seq<char>>, Fault> {
        match self.seek(ST_TABLES_ID, 0, Value::U32(t)) {
            Err(f) => Err(f),
            Ok(rows) => if rows.len() == 0 {
                Ok(None)
            } else {
                match string_at(rows[0], 1) {
                    Err(f) => Err(f),
                    Ok(name) => Ok(Some(name)),
                }
            },
        }
    }

    /// Lists one column of table `t` in the catalogue, and makes its sequence where it needs one.
    #[verifier::opaque]
    pub open spec fn create_column(
        self,
        t: u32,
        table_name: Seq<char>,
        col_id: u32,
        col: ColumnDefModel,
    ) -> (DbModel, Result<(), Fault>) {
        let (db, r) = self.insert_row(ST_COLUMNS_ID, listed_column(t, col_id, col).row());
        match r {
            Err(f) => (db, Err(f)),
            Ok(_) => if col.is_autoinc {
                let (db, r) = db.create_sequence(column_sequence(t, table_name, col_id, col));
                match r {
                    Err(f) => (db, Err(f)),
                    Ok(_) => (db, Ok(())),
                }
            } else {
                (db, Ok(()))
            },
        }
    }

    /// Lists the first `n` columns of table `t`.
    pub open spec fn create_columns(self, t: u32, def: TableDefModel, n: nat) -> (
        DbModel,
        Result<(), Fault>,
    )
        decreases n,
    {
        if n == 0 {
            (self, Ok(()))
        } else {
            let (db, r) = self.create_columns(t, def, (n - 1) as nat);
            match r {
                Err(f) => (db, Err(f)),
                Ok(_) => db.create_column(
                    t,
                    def.table_name,
                    (n - 1) as u32,
                    def.columns[n - 1],
                ),
            }
        }
    }

    /// Makes the first `n` indexes of table `t`.
    pub open spec fn create_indexes(self, t: u32, def: TableDefModel, n: nat) -> (
        DbModel,
        Result<(), Fault>,
    )
        decreases n,
    {
        if n == 0 {
            (self, Ok(()))
        } else {
            let (db, r) = self.create_indexes(t, def, (n - 1) as nat);
            match r {
                Err(f) => (db, Err(f)),
                Ok(_) => {
                    let (db, r) = db.create_index(
                        IndexDefModel { table_id: t, ..def.indexes[n - 1] },
                    );
                    match r {
                        Err(f) => (db, Err(f)),
                        Ok(_) => (db, Ok(())),
                    }
                },
            }
        }
    }

    /// Makes a table as `def` has it. An id that a table in memory has is refused.
    pub open spec fn create_table(self, def: TableDefModel) -> (DbModel, Result<u32, Fault>) {
        let listed = TableRowModel { table_id: 0, table_name: def.table_name };
        let (db, r) = self.insert_row(ST_TABLES_ID, listed.row());
        match r {
            Err(f) => (db, Err(f)),
            Ok(row) => match TableRowModel::of_row(row) {
                Err(f) => (db, Err(f)),
                Ok(el) => {
                    let t = el.table_id;
                    let (db, r) = db.create_columns(t, def, def.columns.len());
                    match r {
                        Err(f) => (db, Err(f)),
                        Ok(_) => if db.table_exists(t) {
                            (db, Err(Fault::TableIdTaken(t)))
                        } else {
                            match db.schema_for_table(t) {
                                Err(f) => (db, Err(f)),
                                Ok(schema) => {
                                    let db = db.with_inserts(t, new_table(def.row_type(), schema));
                                    let (db, r) = db.create_indexes(t, def, def.indexes.len());
                                    match r {
                                        Err(f) => (db, Err(f)),
                                        Ok(_) => (db, Ok(t)),
                                    }
                                },
                            }
                        },
                    }
                },
            },
        }
    }

    /// Makes an index as `def` has it. A name that is taken is refused.
    pub open spec fn create_index(self, def: IndexDefModel) -> (DbModel, Result<u32, Fault>) {
        match self.seek(ST_INDEXES_ID, 3, Value::String(def.name)) {
            Err(f) => (self, Err(f)),
            Ok(rows) => if rows.len() > 0 {
                (self, Err(Fault::IndexExist(def.name)))
            } else {
                self.create_named_index(def)
            },
        }
    }

    /// Makes an index as `def` has it, its name not looked at.
    pub open spec fn create_named_index(self, def: IndexDefModel) -> (DbModel, Result<u32, Fault>) {
        let (db, r) = self.insert_row(ST_INDEXES_ID, new_index(0, def).row());
        match r {
            Err(f) => (db, Err(f)),
            Ok(row) => match IndexSchemaModel::of_row(row) {
                Err(f) => (db, Err(f)),
                Ok(el) => if !db.table_exists(def.table_id) {
                    (db, Err(Fault::TableIdNotFound(def.table_id)))
                } else {
                    let (db, r) = db.create_index_internal(el.index_id, def);
                    match r {
                        Err(f) => (db, Err(f)),
                        Ok(_) => (db, Ok(el.index_id)),
                    }
                },
            },
        }
    }

    /// Column `c` of table `t` has an index.
    pub open spec fn has_index(self, t: u32, c: u32) -> bool {
        ||| self.has_inserts(t) && self.inserts(t).indexes.contains_key(c)
        ||| self.has_base(t) && self.base(t).indexes.contains_key(c)
    }

    /// Makes an index in memory, over the rows that are seen. The column must have none yet, each
    /// row must have the column, and where the index is unique, no two the same value in it.
    pub open spec fn create_index_internal(self, index_id: u32, def: IndexDefModel) -> (
        DbModel,
        Result<(), Fault>,
    ) {
        let t = def.table_id;
        let db = self.with_insert_table(t);
        if db.has_index(t, def.col_id) {
            (db, Err(Fault::ColumnIndexed { table_id: t, col_id: def.col_id }))
        } else if !all_have_column(db.visible(t), def.col_id) {
            (db, Err(Fault::InvalidField(def.col_id)))
        } else if def.is_unique && !one_row_per_value(column_of(db.visible(t), def.col_id)) {
            (
                db,
                Err(Fault::NotUnique { index_name: def.name, table_id: t, col_id: def.col_id }),
            )
        } else {
            let index = IndexModel {
                index_id,
                table_id: t,
                col_id: def.col_id,
                name: def.name,
                is_unique: def.is_unique,
                entries: column_of(db.visible(t), def.col_id),
            };
            (
                db.with_inserts(t, db.inserts(t).set_index(index, new_index(index_id, def))),
                Ok(()),
            )
        }
    }

    /// Takes an index out of memory, for the transaction: out of every committed table, and out of
    /// every part of a table that the transaction has.
    pub open spec fn drop_index_internal(self, index_id: u32) -> DbModel {
        self.with_tx(
            TxModel {
                inserts: without_index_each(self.tx->0.inserts, index_id),
                dropped_indexes: self.tx->0.dropped_indexes.insert(index_id),
                ..self.tx->0
            },
        )
    }

    /// Takes an index out of the catalogue and out of memory.
    pub open spec fn drop_index(self, index_id: u32) -> (DbModel, Result<(), Fault>) {
        match self.seek(ST_INDEXES_ID, 0, Value::U32(index_id)) {
            Err(f) => (self, Err(f)),
            Ok(rows) => {
                let db = if rows.len() > 0 {
                    self.delete_row(ST_INDEXES_ID, row_key(rows.last())).0
                } else {
                    self
                };
                (db.drop_index_internal(index_id), Ok(()))
            },
        }
    }

    /// Drops the indexes that the first `n` of `rows` describe.
    pub open spec fn drop_indexes(self, rows: Seq<Row>, n: nat) -> (DbModel, Result<(), Fault>)
        decreases n,
    {
        if n == 0 {
            (self, Ok(()))
        } else {
            let (db, r) = self.drop_indexes(rows, (n - 1) as nat);
            match r {
                Err(f) => (db, Err(f)),
                Ok(_) => match IndexSchemaModel::of_row(rows[n - 1]) {
                    Err(f) => (db, Err(f)),
                    Ok(el) => db.drop_index(el.index_id),
                },
            }
        }
    }

    /// Drops the sequences that the first `n` of `rows` describe.
    pub open spec fn drop_sequences(self, rows: Seq<Row>, n: nat) -> (DbModel, Result<(), Fault>)
        decreases n,
    {
        if n == 0 {
            (self, Ok(()))
        } else {
            let (db, r) = self.drop_sequences(rows, (n - 1) as nat);
            match r {
                Err(f) => (db, Err(f)),
                Ok(_) => match SequenceModel::of_row(rows[n - 1]) {
                    Err(f) => (db, Err(f)),
                    Ok(el) => db.drop_sequence(el.sequence_id),
                },
            }
        }
    }

    /// Deletes from catalogue table `st` what it lists for table `t`.
    pub open spec fn drop_listed(self, st: u32, t: u32) -> (DbModel, Result<(), Fault>) {
        match self.seek(st, 0, Value::U32(t)) {
            Err(f) => (self, Err(f)),
            Ok(rows) => if rows.len() == 0 {
                (self, Err(Fault::TableIdNotFound(t)))
            } else {
                (self.delete_rows_in(st, rows).0, Ok(()))
            },
        }
    }

    /// Drops a table: its indexes, its sequences, what is listed for it, and what is in memory.
    pub open spec fn drop_table(self, t: u32) -> (DbModel, Result<(), Fault>) {
        match self.seek(ST_INDEXES_ID, 1, Value::U32(t)) {
            Err(f) => (self, Err(f)),
            Ok(rows) => {
                let (db, r) = self.drop_indexes(rows, rows.len());
                match r {
                    Err(f) => (db, Err(f)),
                    Ok(_) => db.delete_rows_in(ST_INDEXES_ID, rows).0.drop_table_without_indexes(t),
                }
            },
        }
    }

    /// Drops a table whose indexes are gone.
    pub open spec fn drop_table_without_indexes(self, t: u32) -> (DbModel, Result<(), Fault>) {
        match self.seek(ST_SEQUENCES_ID, 2, Value::U32(t)) {
            Err(f) => (self, Err(f)),
            Ok(rows) => {
                let (db, r) = self.drop_sequences(rows, rows.len());
                match r {
                    Err(f) => (db, Err(f)),
                    Ok(_) => db.delete_rows_in(ST_SEQUENCES_ID, rows).0.drop_bare_table(t),
                }
            },
        }
    }

    /// Drops a table whose indexes and sequences are gone.
    pub open spec fn drop_bare_table(self, t: u32) -> (DbModel, Result<(), Fault>) {
        let (db, r) = self.drop_listed(ST_COLUMNS_ID, t);
        match r {
            Err(f) => (db, Err(f)),
            Ok(_) => {
                let (db, r) = db.drop_listed(ST_TABLES_ID, t);
                match r {
                    Err(f) => (db, Err(f)),
                    Ok(_) => (db.without_table(t), Ok(())),
                }
            },
        }
    }

    /// The datastore in which table `t` is not there for the transaction.
    pub open spec fn without_table(self, t: u32) -> DbModel {
        let tx = self.tx->0;
        self.with_tx(
            TxModel {
                inserts: tx.inserts.remove(t),
                deletes: tx.deletes.remove(t),
                dropped: tx.dropped.insert(t),
                ..tx
            },
        )
    }

    /// Gives a table another name in the catalogue.
    pub open spec fn rename_table(self, t: u32, name: Seq<char>) -> (DbModel, Result<(), Fault>) {
        match self.seek(ST_TABLES_ID, 0, Value::U32(t)) {
            Err(f) => (self, Err(f)),
            Ok(rows) => if rows.len() == 0 {
                (self, Err(Fault::TableIdNotFound(t)))
            } else {
                match TableRowModel::of_row(rows[0]) {
                    Err(f) => (self, Err(f)),
                    Ok(el) => {
                        let db = self.delete_row(ST_TABLES_ID, row_key(rows[0])).0;
                        db.insert_row_internal(
                            ST_TABLES_ID,
                            TableRowModel { table_name: name, ..el }.row(),
                        )
                    },
                }
            },
        }
    }

    /// The bytes that `key` stands for, where they are known.
    pub open spec fn resolve_data_key(self, key: Key) -> Option<Seq<u8>> {
        match key {
            Key::Data(data) => Some(data),
            Key::Hash(_) => if self.blobs.contains_key(key) {
                Some(self.blobs[key])
            } else {
                None
            },
        }
    }

    /// Commits the transaction.
    pub open spec fn commit(self) -> DbModel {
        DbModel {
            committed: merge(self.committed, self.tx->0),
            tx: None,
            sequences: self.sequences.remove_keys(self.tx->0.dropped_sequences),
            ..self
        }
    }

    /// Drops the transaction, and the sequences that it made. What it allocated is no longer
    /// listed, so the sequences that it allocated more to have nothing left of it.
    pub open spec fn rollback(self) -> DbModel {
        DbModel {
            tx: None,
            sequences: rolled_back(
                self.sequences,
                self.tx->0.made_sequences,
                self.tx->0.refilled_sequences,
            ),
            ..self
        }
    }

    /// Begins a transaction.
    pub open spec fn begin(self) -> DbModel {
        self.with_tx(TxModel::empty())
    }
}

/// `base` once what the transaction inserted into it is there, with the indexes that it made.
pub open spec fn merge_table(base: TableModel, inserted: TableModel) -> TableModel {
    TableModel {
        schema: inserted.schema,
        ..base.insert_all(inserted.rows).add_indexes(inserted.indexes)
    }
}

/// What the transaction's part of table `t` is merged into: the committed table, or a new one.
pub open spec fn merge_base(
    committed: Map<u32, TableModel>,
    t: u32,
    inserted: TableModel,
) -> TableModel {
    if committed.contains_key(t) {
        committed[t]
    } else {
        new_table(inserted.row_type, inserted.schema)
    }
}

/// The committed tables once all that was inserted is in them.
pub open spec fn merge_inserts(
    committed: Map<u32, TableModel>,
    inserts: Map<u32, TableModel>,
) -> Map<u32, TableModel> {
    Map::new(
        |t: u32| committed.contains_key(t) || inserts.contains_key(t),
        |t: u32|
            if inserts.contains_key(t) {
                merge_table(merge_base(committed, t, inserts[t]), inserts[t])
            } else {
                committed[t]
            },
    )
}

/// The committed tables once all that was deleted is gone from them.
pub open spec fn merge_deletes(
    committed: Map<u32, TableModel>,
    deletes: Map<u32, Set<Key>>,
) -> Map<u32, TableModel> {
    Map::new(
        |t: u32| committed.contains_key(t),
        |t: u32|
            if deletes.contains_key(t) {
                committed[t].delete_all(deletes[t])
            } else {
                committed[t]
            },
    )
}

/// The committed tables after a transaction: what it dropped gone, then the rows that it deleted,
/// and then its inserts made and the indexes that it made added.
pub open spec fn merge(committed: Map<u32, TableModel>, tx: TxModel) -> Map<u32, TableModel> {
    merge_inserts(merge_deletes(tx.left_of(committed), tx.deletes), tx.inserts)
}

/// The writes for what was inserted into each of `ts`.
pub open spec fn insert_writes(inserts: Map<u32, TableModel>, ts: Seq<u32>) -> Seq<WriteModel>
    decreases ts.len(),
{
    if ts.len() == 0 {
        Seq::empty()
    } else {
        insert_writes(inserts, ts.drop_last()) + writes_of(
            Operation::Insert,
            ts.last(),
            inserts[ts.last()].rows.dom(),
        )
    }
}

/// The writes for what was deleted from each of `ts` that is among `tables`.
pub open spec fn delete_writes(
    tables: Set<u32>,
    deletes: Map<u32, Set<Key>>,
    ts: Seq<u32>,
) -> Seq<WriteModel>
    decreases ts.len(),
{
    if ts.len() == 0 {
        Seq::empty()
    } else {
        delete_writes(tables, deletes, ts.drop_last()) + if tables.contains(ts.last()) {
            writes_of(Operation::Delete, ts.last(), deletes[ts.last()])
        } else {
            Seq::empty()
        }
    }
}

/// The writes of a transaction: its inserts, then its deletes, table by table and row by row. What
/// it deleted from a table that it made itself is not written.
pub open spec fn merge_writes(committed: Map<u32, TableModel>, tx: TxModel) -> Seq<WriteModel> {
    insert_writes(tx.inserts, ascending::<u32>(tx.inserts.dom())) + delete_writes(
        tx.left_of(committed).dom(),
        tx.deletes,
        ascending::<u32>(tx.deletes.dom()),
    )
}

/// A table with neither rows nor indexes.
pub open spec fn new_table(row_type: RowType, schema: SchemaModel) -> TableModel {
    TableModel { row_type, schema, rows: Map::empty(), indexes: Map::empty() }
}

/// The schema of an index as `def` has it.
pub open spec fn new_index(index_id: u32, def: IndexDefModel) -> IndexSchemaModel {
    IndexSchemaModel {
        index_id,
        table_id: def.table_id,
        col_id: def.col_id,
        index_name: def.name,
        is_unique: def.is_unique,
    }
}

/// Column `col_id` of table `t`, as the catalogue lists it.
pub open spec fn listed_column(t: u32, col_id: u32, col: ColumnDefModel) -> ColumnModel {
    ColumnModel {
        table_id: t,
        col_id,
        col_name: col.col_name,
        col_type: col.col_type,
        is_autoinc: col.is_autoinc,
    }
}

/// The sequence that a column of table `t` is filled from.
pub open spec fn column_sequence(
    t: u32,
    table_name: Seq<char>,
    col_id: u32,
    col: ColumnDefModel,
) -> SequenceDefModel {
    SequenceDefModel {
        sequence_name: table_name + seq!['_'] + col.col_name + "_seq"@,
        table_id: t,
        col_id,
        increment: 1,
        start: Some(1),
        min_value: Some(1),
        max_value: None,
    }
}

/// `o`, or else `other`.
pub open spec fn or_else(o: Option<i128>, other: i128) -> i128 {
    match o {
        Some(x) => x,
        None => other,
    }
}

/// A sequence as `def` has it, its id still to be filled in.
pub open spec fn new_sequence(def: SequenceDefModel) -> SequenceModel {
    SequenceModel {
        sequence_id: 0,
        sequence_name: def.sequence_name,
        table_id: def.table_id,
        col_id: def.col_id,
        increment: def.increment,
        start: or_else(def.start, 1),
        min_value: or_else(def.min_value, 1),
        max_value: or_else(def.max_value, i128::MAX),
        allocated: 0,
        value: or_else(def.start, 1),
    }
}

} // verus!
