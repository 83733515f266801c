//! What holds of the datastore across its operations.

use vstd::prelude::*;

use crate::btree_index::{column_of, one_row_per_value, IndexModel};
use crate::catalogue_laws::catalogue_in_form;
use crate::data_key::{row_key, Key, RowId};
use crate::error::Fault;
use crate::ids::{ST_COLUMNS_ID, ST_INDEXES_ID, ST_SEQUENCES_ID, ST_TABLES_ID};
use crate::iter::in_range;
use crate::locking::listed;
use crate::messages::{writes_of, Operation, WriteModel};
use crate::model::{
    by_col_id, column_sequence, delete_writes, holding, holds, insert_by_col_id, insert_writes,
    listed_column, merge, merge_deletes, merge_writes, new_index, new_sequence, new_table, or_else,
    sequence_for, DbModel, TxModel, SEQUENCE_ALLOCATION,
};
use crate::ordered::{
    ascending, in_key_order, lemma_ascending, lemma_ascending_of_finite, lemma_filter_contains,
    lemma_in_key_order, OrderedKey,
};
use crate::range::RangeModel;
use crate::schema::{
    ColumnModel, IndexDefModel, IndexSchemaModel, SchemaModel, SequenceDefModel, TableDefModel,
};
use crate::sequence::SequenceModel;
use crate::soundness::{
    law_agreeing_row_is_refused, lemma_delete_row_inv, lemma_insert_table_inv, lemma_new_table_inv,
    lemma_put_row_inv, lemma_same_rows_inv, lemma_set_index_inv,
};
use crate::system_tables::TableRowModel;
use crate::table::{lemma_without_none, TableModel};
use crate::types::RowType;
use crate::value::{canonical, is_zero, Row, Value};

verus! {

/// `rows` are the rows of `m`, each once.
pub open spec fn each_once(rows: Seq<Row>, m: Map<Key, Row>) -> bool {
    exists|ks: Seq<Key>| #[trigger] lists_once(ks, m.dom()) && rows == ks.map_values(|k: Key| m[k])
}

/// `ks` are the keys in `d`, each once.
pub open spec fn lists_once(ks: Seq<Key>, d: Set<Key>) -> bool {
    ks.no_duplicates() && ks.to_set() == d
}

/// The rows of two maps with no key in common, one after the other, are those of both.
proof fn lemma_one_after_the_other(a: Map<Key, Row>, b: Map<Key, Row>, m: Map<Key, Row>)
    requires
        a.dom().finite(),
        b.dom().finite(),
        a.dom().disjoint(b.dom()),
        m.dom() == a.dom().union(b.dom()),
        forall|k: Key| #[trigger] a.contains_key(k) ==> m[k] == a[k],
        forall|k: Key| #[trigger] b.contains_key(k) ==> m[k] == b[k],
    ensures
        each_once(in_key_order::<RowId, Row>(a) + in_key_order::<RowId, Row>(b), m),
{
    let s = ascending::<RowId>(a.dom());
    let t = ascending::<RowId>(b.dom());
    lemma_ascending_of_finite::<RowId>(a.dom());
    lemma_ascending_of_finite::<RowId>(b.dom());
    lemma_in_key_order::<RowId, Row>(s, a);
    lemma_in_key_order::<RowId, Row>(t, b);
    let ks = s + t;
    assert forall|i: int| 0 <= i < s.len() implies a.contains_key(#[trigger] s[i]) by {
        assert(s.to_set().contains(s[i]));
    }
    assert forall|i: int| 0 <= i < t.len() implies b.contains_key(#[trigger] t[i]) by {
        assert(t.to_set().contains(t[i]));
    }
    assert forall|i: int, j: int| 0 <= i < j < ks.len() implies ks[i] != ks[j] by {
        if j < s.len() {
            assert(RowId::before(s[i], s[j]));
            RowId::law_irreflexive(s[i]);
        } else if i >= s.len() {
            assert(RowId::before(t[i - s.len()], t[j - s.len()]));
            RowId::law_irreflexive(t[i - s.len()]);
        } else {
            assert(a.contains_key(s[i]));
            assert(b.contains_key(t[j - s.len()]));
        }
    }
    assert forall|k: Key| #[trigger] ks.to_set().contains(k) <==> m.dom().contains(k) by {
        if a.contains_key(k) {
            assert(s.to_set().contains(k));
            let i = choose|i: int| 0 <= i < s.len() && s[i] == k;
            assert(ks[i] == k);
        }
        if b.contains_key(k) {
            assert(t.to_set().contains(k));
            let i = choose|i: int| 0 <= i < t.len() && t[i] == k;
            assert(ks[s.len() + i] == k);
        }
        if ks.contains(k) {
            let i = choose|i: int| 0 <= i < ks.len() && ks[i] == k;
            if i < s.len() {
                assert(a.contains_key(s[i]));
            } else {
                assert(b.contains_key(t[i - s.len()]));
            }
        }
    }
    assert(ks.to_set() =~= m.dom());
    assert(lists_once(ks, m.dom()));
    assert(in_key_order::<RowId, Row>(a) + in_key_order::<RowId, Row>(b) =~= ks.map_values(
        |k: Key| m[k],
    ));
}

pub proof fn lemma_finite(db: DbModel, t: u32)
    requires
        db.inv(),
        db.tx is Some,
    ensures
        db.stored(t).dom().finite(),
        db.fresh(t).dom().finite(),
        db.kept(t).dom().finite(),
        db.kept(t).dom().disjoint(db.fresh(t).dom()),
{
    if db.has_base(t) {
        assert(db.committed[t].inv());
    }
    if db.has_inserts(t) {
        assert(db.inserts(t).inv());
    }
    assert(db.kept(t).dom().subset_of(db.stored(t).dom()));
    vstd::set_lib::lemma_set_subset_finite(db.stored(t).dom(), db.kept(t).dom());
}

/// A scan yields every visible row, and each once.
pub proof fn law_scan_yields_visible_rows(db: DbModel, t: u32)
    requires
        db.inv(),
        db.tx is Some,
    ensures
        db.scan(t) is Ok <==> db.table_exists(t),
        db.table_exists(t) ==> each_once(db.scan(t)->Ok_0, db.visible(t)),
{
    lemma_finite(db, t);
    assert(db.visible(t).dom() =~= db.kept(t).dom().union(db.fresh(t).dom()));
    lemma_one_after_the_other(db.kept(t), db.fresh(t), db.visible(t));
}

/// A seek yields every visible row with the value in the column, and each once, whether or not
/// there is an index.
pub proof fn law_seek_yields_matching_rows(db: DbModel, t: u32, c: u32, v: Value)
    requires
        db.inv(),
        db.tx is Some,
    ensures
        db.seek(t, c, v) is Ok <==> db.table_exists(t),
        db.table_exists(t) ==> each_once(db.seek(t, c, v)->Ok_0, holding(db.visible(t), c, v)),
{
    lemma_finite(db, t);
    let a = holding(db.kept(t), c, v);
    let b = holding(db.fresh(t), c, v);
    let m = holding(db.visible(t), c, v);
    assert(a.dom().subset_of(db.kept(t).dom()));
    assert(b.dom().subset_of(db.fresh(t).dom()));
    vstd::set_lib::lemma_set_subset_finite(db.kept(t).dom(), a.dom());
    vstd::set_lib::lemma_set_subset_finite(db.fresh(t).dom(), b.dom());
    assert forall|k: Key| #[trigger] m.dom().contains(k) <==> a.dom().union(b.dom()).contains(
        k,
    ) by {
        assert(db.kept(t).dom().contains(k) ==> !db.fresh(t).dom().contains(k));
    }
    assert(m.dom() =~= a.dom().union(b.dom()));
    assert(m.dom() =~= b.dom().union(a.dom()));
    assert forall|k: Key| #[trigger] a.contains_key(k) implies m[k] == a[k] by {
        assert(db.kept(t).dom().contains(k));
    }
    lemma_one_after_the_other(a, b, m);
    lemma_one_after_the_other(b, a, m);
}

/// What is among the rows of `m`, each once, is a row of `m`.
pub proof fn lemma_each_once_contains(rows: Seq<Row>, m: Map<Key, Row>, row: Row)
    requires
        each_once(rows, m),
    ensures
        rows.contains(row) <==> exists|k: Key| #[trigger] m.contains_key(k) && m[k] == row,
{
    let ks = choose|ks: Seq<Key>| #[trigger]
        lists_once(ks, m.dom()) && rows == ks.map_values(|k: Key| m[k]);
    if rows.contains(row) {
        let i = choose|i: int| 0 <= i < rows.len() && rows[i] == row;
        assert(ks.to_set().contains(ks[i]));
        assert(m.contains_key(ks[i]));
    }
    if exists|k: Key| #[trigger] m.contains_key(k) && m[k] == row {
        let k = choose|k: Key| #[trigger] m.contains_key(k) && m[k] == row;
        assert(ks.to_set().contains(k));
        let i = choose|i: int| 0 <= i < ks.len() && ks[i] == k;
        assert(rows[i] == row);
    }
}

/// A range scan yields just the visible rows with a value of the range in the column.
pub proof fn law_range_scan_yields_rows_in_range(
    db: DbModel,
    t: u32,
    c: u32,
    range: RangeModel,
    row: Row,
)
    requires
        db.inv(),
        db.tx is Some,
        db.table_exists(t),
    ensures
        db.range_scan(t, c, range) is Ok,
        db.range_scan(t, c, range)->Ok_0.contains(row) <==> {
            &&& c < row.len()
            &&& range.contains(row[c as int])
            &&& exists|k: Key| #[trigger] db.visible(t).contains_key(k) && db.visible(t)[k] == row
        },
{
    law_scan_yields_visible_rows(db, t);
    let rows = db.scan(t)->Ok_0;
    lemma_each_once_contains(rows, db.visible(t), row);
    lemma_filter_contains(rows, in_range(c, range), row);
}

/// A row that was inserted is visible under its key, and so is what was visible before. No other
/// table, nothing committed and no sequence changes.
pub proof fn law_inserted_row_is_visible(db: DbModel, t: u32, row: Row)
    requires
        db.inv(),
        db.tx is Some,
        db.insert_row_internal(t, row).1 is Ok,
    ensures
        ({
            let after = db.insert_row_internal(t, row).0;
            &&& after.visible(t) == db.visible(t).insert(row_key(row), row)
            &&& after.get_row(t, row_key(row)) == Ok::<Option<Row>, Fault>(Some(row))
            &&& forall|u: u32| u != t ==> #[trigger] after.visible(u) == db.visible(u)
            &&& after.committed == db.committed
            &&& after.sequences == db.sequences
        }),
{
    let mid = db.with_insert_table(t);
    let after = mid.put_row(t, row);
    let k = row_key(row);
    lemma_insert_table_keeps_view(db, t);
    assert forall|u: u32| u != t implies #[trigger] after.visible(u) == db.visible(u) by {
        assert(mid.visible(u) == db.visible(u));
        assert(after.visible(u) =~= mid.visible(u));
    }
    assert(after.fresh(t) =~= mid.fresh(t).insert(k, row));
    assert(after.deleted(t) =~= mid.deleted(t).remove(k));
    assert(after.visible(t) =~= mid.visible(t).insert(k, row));
}

/// To give the transaction its own part of a table changes nothing that is seen.
proof fn lemma_insert_table_keeps_view(db: DbModel, t: u32)
    requires
        db.tx is Some,
        db.table_exists(t),
    ensures
        forall|u: u32| #[trigger] db.with_insert_table(t).visible(u) == db.visible(u),
        forall|u: u32| #[trigger]
            db.with_insert_table(t).table_exists(u) == db.table_exists(u),
{
    let mid = db.with_insert_table(t);
    assert forall|u: u32| #[trigger] mid.visible(u) == db.visible(u) by {
        assert(mid.fresh(u) =~= db.fresh(u));
        assert(mid.deleted(u) =~= db.deleted(u));
        assert(mid.visible(u) =~= db.visible(u));
    }
}

/// A row that was refused leaves everything that is seen as it was: every table, what is
/// committed, the sequences.
pub proof fn law_refused_row_changes_nothing_seen(db: DbModel, t: u32, row: Row)
    requires
        db.tx is Some,
        db.insert_row_internal(t, row).1 is Err,
    ensures
        ({
            let after = db.insert_row_internal(t, row).0;
            &&& forall|u: u32| #[trigger] after.visible(u) == db.visible(u)
            &&& forall|u: u32| #[trigger] after.table_exists(u) == db.table_exists(u)
            &&& after.committed == db.committed
            &&& after.sequences == db.sequences
            &&& after.blobs == db.blobs
        }),
{
    if db.table_exists(t) {
        lemma_insert_table_keeps_view(db, t);
    }
}

/// A row that was deleted is not visible, and all else is as it was. Whether there was such a row
/// is said.
pub proof fn law_deleted_row_is_gone(db: DbModel, t: u32, k: Key)
    requires
        db.inv(),
        db.tx is Some,
    ensures
        ({
            let (after, found) = db.delete_row(t, k);
            &&& found == db.visible(t).contains_key(k)
            &&& after.visible(t) == db.visible(t).remove(k)
            &&& forall|u: u32| u != t ==> #[trigger] after.visible(u) == db.visible(u)
            &&& after.committed == db.committed
            &&& after.sequences == db.sequences
            &&& after.blobs == db.blobs
        }),
{
    let (after, found) = db.delete_row(t, k);
    if found {
        assert(after.fresh(t) =~= db.fresh(t).remove(k));
        assert(after.deleted(t) =~= db.deleted(t).insert(k));
        assert(after.visible(t) =~= db.visible(t).remove(k));
        assert forall|u: u32| u != t implies #[trigger] after.visible(u) == db.visible(u) by {
            assert(after.visible(u) =~= db.visible(u));
        }
    } else {
        assert(after.visible(t) =~= db.visible(t).remove(k));
    }
}

/// To delete a row and insert it again, where it is taken, leaves the table as it was.
pub proof fn law_delete_then_insert_restores(db: DbModel, t: u32, row: Row)
    requires
        db.inv(),
        db.tx is Some,
        db.visible(t).contains_key(row_key(row)),
        db.visible(t)[row_key(row)] == row,
        db.delete_row(t, row_key(row)).0.insert_row_internal(t, row).1 is Ok,
    ensures
        db.delete_row(t, row_key(row)).0.insert_row_internal(t, row).0.visible(t) == db.visible(t),
{
    let k = row_key(row);
    let mid = db.delete_row(t, k).0;
    law_deleted_row_is_gone(db, t, k);
    lemma_delete_keeps_inv(db, t, k);
    law_inserted_row_is_visible(mid, t, row);
    assert(db.visible(t).remove(k).insert(k, row) =~= db.visible(t));
}

proof fn lemma_delete_keeps_inv(db: DbModel, t: u32, k: Key)
    requires
        db.inv(),
        db.tx is Some,
    ensures
        db.delete_row(t, k).0.inv(),
        db.delete_row(t, k).0.tx is Some,
{
    lemma_delete_row_inv(db, t, k);
}

/// What a transaction saw when it was committed, the next transaction sees: every row, every table,
/// every sequence and its next number.
pub proof fn law_committed_rows_are_seen_next(db: DbModel, t: u32)
    requires
        db.inv(),
        db.tx is Some,
    ensures
        db.commit().begin().visible(t) == db.visible(t),
        db.commit().begin().table_exists(t) == db.table_exists(t),
        forall|k: Key| db.commit().begin().get_row(t, k) == db.get_row(t, k),
        forall|s: u32| #[trigger] db.commit().begin().in_use(s) == db.in_use(s),
        forall|s: u32| #[trigger]
            db.in_use(s) ==> db.commit().begin().sequences[s] == db.sequences[s],
        db.commit().blobs == db.blobs,
        db.commit().tx is None,
{
    let next = db.commit().begin();
    assert(next.fresh(t) =~= Map::<Key, Row>::empty());
    assert(next.deleted(t) =~= Set::<Key>::empty());
    assert(next.visible(t) =~= next.stored(t));
    if db.table_exists(t) {
        let left = db.tx->0.left_of(db.committed);
        let d = merge_deletes(left, db.tx->0.deletes);
        let m = merge(db.committed, db.tx->0);
        assert(left.contains_key(t) <==> db.has_base(t));
        assert(m.contains_key(t));
        if db.has_base(t) {
            assert(d[t].rows =~= db.stored(t).remove_keys(db.deleted(t)));
        }
        if db.has_inserts(t) {
            assert(db.inserts(t).rows == db.fresh(t));
        }
        assert(m[t].rows =~= db.stored(t).remove_keys(db.deleted(t)).union_prefer_right(
            db.fresh(t),
        ));
        assert forall|k: Key| #[trigger] next.stored(t).contains_key(k) <==> db.visible(
            t,
        ).contains_key(k) by {
            assert(db.fresh(t).contains_key(k) ==> !db.deleted(t).contains(k));
        }
        assert(next.stored(t) =~= db.visible(t));
    } else {
        assert(next.stored(t) =~= Map::<Key, Row>::empty());
        assert(db.visible(t) =~= Map::<Key, Row>::empty());
    }
}

/// What was committed before a transaction, the next transaction sees where that one is rolled
/// back, and the sequences that were in use before it are in use.
pub proof fn law_rolled_back_rows_are_not_seen(db: DbModel, t: u32)
    requires
        db.tx is Some,
    ensures
        db.rollback().begin().visible(t) == db.committed_rows(t),
        db.rollback().begin().table_exists(t) == db.committed.contains_key(t),
        forall|s: u32| #[trigger]
            db.rollback().begin().in_use(s) <==> db.sequences.contains_key(s)
                && !db.tx->0.made_sequences.contains(s),
        db.rollback().committed == db.committed,
        db.rollback().blobs == db.blobs,
        db.rollback().tx is None,
{
    let next = db.rollback().begin();
    assert(next.fresh(t) =~= Map::<Key, Row>::empty());
    assert(next.visible(t) =~= db.committed_rows(t));
}

/// A transaction that does nothing leaves the datastore as it was, committed or rolled back, and
/// reports nothing.
pub proof fn law_empty_transaction_changes_nothing(db: DbModel)
    requires
        db.tx is None,
    ensures
        db.begin().commit() == db,
        db.begin().rollback() == db,
        merge_writes(db.begin().committed, db.begin().tx->0) == Seq::<WriteModel>::empty(),
{
    let tx = TxModel::empty();
    assert forall|t: u32| #[trigger] db.committed.contains_key(t) implies tx.left_of(
        db.committed,
    )[t] == db.committed[t] by {
        lemma_without_none(db.committed[t]);
    }
    assert(tx.left_of(db.committed) =~= db.committed);
    assert(merge(db.committed, tx) =~= db.committed);
    assert(db.begin().commit().sequences =~= db.sequences);
    assert(db.begin().commit() =~= db);
    assert(db.begin().rollback().sequences =~= db.sequences);
    assert(db.begin().rollback() =~= db);
    let none = Seq::<u32>::empty();
    assert(none.to_set() =~= tx.inserts.dom());
    lemma_ascending::<u32>(none);
    assert(tx.deletes.dom() =~= tx.inserts.dom());
    assert(merge_writes(db.committed, tx) =~= Seq::empty());
}

/// As long as it stays within its range, a sequence that counts up gives out one number after the
/// other, each one increment past the last.
pub proof fn law_sequence_counts_up(q: SequenceModel, n: nat)
    requires
        q.increment > 0,
        q.min_value <= q.value,
        q.value + n * q.increment <= q.max_value,
    ensures
        q.nth(n) == q.value + n * q.increment,
    decreases n,
{
    if n > 0 {
        let m = (n - 1) as nat;
        assert(m * q.increment <= n * q.increment && n * q.increment == m * q.increment
            + q.increment && 0 <= m * q.increment) by (nonlinear_arith)
            requires
                n == m + 1,
                q.increment > 0,
        ;
        law_sequence_counts_up(q, m);
        assert(q.nth(n) == q.after(q.nth(m)));
    } else {
        assert(n * q.increment == 0) by (nonlinear_arith)
            requires
                n == 0,
        ;
    }
}

/// A number is given out from what is allocated, and the number after it is the next.
pub proof fn law_next_number(db: DbModel, s: u32)
    requires
        db.in_use(s),
        !db.sequences[s].exhausted(),
    ensures
        ({
            let (after, r) = db.get_next_sequence_value(s);
            &&& r == Ok::<i128, Fault>(db.sequences[s].value)
            &&& after == db.with_sequence(s, db.sequences[s].advanced())
            &&& after.sequences[s].value == db.sequences[s].nth(1)
        }),
{
    assert(db.sequences[s].nth(0) == db.sequences[s].value);
    assert(db.sequences[s].nth(1) == db.sequences[s].after(db.sequences[s].nth(0)));
}

/// A sequence that is not in use gives out nothing.
pub proof fn law_unknown_sequence_is_refused(db: DbModel, s: u32)
    requires
        !db.in_use(s),
    ensures
        db.get_next_sequence_value(s) == (
            db,
            Err::<i128, Fault>(Fault::SequenceNotFound(s)),
        ),
{
}

/// `b` has the tables of `a`: the same are there, with the same row types and schemas, and the
/// same is committed. It has the unique indexes of `a`, and the tables of the catalogue stay in
/// form. It is in order where `a` is.
pub open spec fn same_tables(a: DbModel, b: DbModel) -> bool {
    &&& b.tx is Some
    &&& b.committed == a.committed
    &&& b.tx->0.dropped == a.tx->0.dropped
    &&& forall|u: u32| #[trigger] a.has_inserts(u) ==> b.has_inserts(u)
    &&& forall|u: u32| #[trigger] b.row_type(u) == a.row_type(u)
    &&& forall|u: u32| #[trigger] b.schema(u) == a.schema(u)
    &&& forall|u: u32| #[trigger] b.table_exists(u) == a.table_exists(u)
    &&& forall|u: u32, c: u32| #[trigger] b.has_unique(u, c) == a.has_unique(u, c)
    &&& keeps_forms(a, b)
    &&& a.inv() ==> b.inv()
}

/// A table of the catalogue that is in form in `a` is in form in `b`.
pub open spec fn keeps_forms(a: DbModel, b: DbModel) -> bool {
    forall|st: u32, width: nat, keys: u32| #[trigger]
        catalogue_in_form(a, st, width, keys) ==> catalogue_in_form(b, st, width, keys)
}

pub proof fn lemma_insert_internal_keeps_tables(db: DbModel, t: u32, row: Row)
    requires
        db.tx is Some,
    ensures
        same_tables(db, db.insert_row_internal(t, row).0),
{
    if db.table_exists(t) {
        let mid = db.with_insert_table(t);
        lemma_insert_table_shapes(db, t);
        assert forall|u: u32| #[trigger] mid.row_type(u) == db.row_type(u) by {}
        assert forall|u: u32| #[trigger] mid.schema(u) == db.schema(u) by {}
        assert forall|u: u32| #[trigger] mid.table_exists(u) == db.table_exists(u) by {}
        if db.inv() {
            lemma_insert_table_inv(db, t);
        }
        if mid.refusal(t, row) is None {
            let after = mid.put_row(t, row);
            lemma_put_row_shapes(mid, t, row);
            assert forall|u: u32| #[trigger] after.row_type(u) == db.row_type(u) by {
                assert(mid.row_type(u) == db.row_type(u));
            }
            assert forall|u: u32| #[trigger] after.schema(u) == db.schema(u) by {
                assert(mid.schema(u) == db.schema(u));
            }
            assert forall|u: u32| #[trigger] after.table_exists(u) == db.table_exists(u) by {
                assert(mid.table_exists(u) == db.table_exists(u));
            }
            if db.inv() {
                lemma_put_row_inv(mid, t, row);
            }
        }
    }
}

pub proof fn lemma_delete_keeps_tables(db: DbModel, t: u32, k: Key)
    requires
        db.tx is Some,
    ensures
        same_tables(db, db.delete_row(t, k).0),
{
    let after = db.delete_row(t, k).0;
    assert forall|u: u32| #[trigger] after.row_type(u) == db.row_type(u) by {}
    assert forall|u: u32| #[trigger] after.schema(u) == db.schema(u) by {}
    assert forall|u: u32| #[trigger] after.table_exists(u) == db.table_exists(u) by {}
    assert forall|u: u32, c: u32| #[trigger] after.has_unique(u, c) == db.has_unique(u, c) by {}
    if db.inv() {
        lemma_delete_row_inv(db, t, k);
    }
}

/// To give the transaction its own part of a table changes neither which unique indexes there are
/// nor what is in form.
proof fn lemma_insert_table_shapes(db: DbModel, t: u32)
    requires
        db.tx is Some,
        db.table_exists(t),
    ensures
        forall|u: u32, c: u32| #[trigger]
            db.with_insert_table(t).has_unique(u, c) == db.has_unique(u, c),
        keeps_forms(db, db.with_insert_table(t)),
{
    let mid = db.with_insert_table(t);
    assert forall|u: u32, c: u32| #[trigger] mid.has_unique(u, c) == db.has_unique(u, c) by {
        assert(mid.base(u) == db.base(u));
    }
    assert forall|st: u32, width: nat, keys: u32| #[trigger]
        catalogue_in_form(db, st, width, keys) implies catalogue_in_form(mid, st, width, keys) by {
        if mid.has_inserts(st) && !db.has_inserts(st) {
            assert(st == t);
            let table = db.committed[st];
            assert forall|c: u32| c < keys implies #[trigger] mid.inserts(
                st,
            ).indexes.contains_key(c) && mid.inserts(st).indexes[c].is_unique by {
                assert(table.indexes.contains_key(c));
            }
        }
    }
}

/// A row more changes neither which unique indexes there are nor what is in form.
proof fn lemma_put_row_shapes(db: DbModel, t: u32, row: Row)
    requires
        db.tx is Some,
        db.has_inserts(t),
        row.len() == db.inserts(t).row_type.len(),
    ensures
        forall|u: u32, c: u32| #[trigger]
            db.put_row(t, row).has_unique(u, c) == db.has_unique(u, c),
        keeps_forms(db, db.put_row(t, row)),
{
    let after = db.put_row(t, row);
    assert forall|u: u32, c: u32| #[trigger] after.has_unique(u, c) == db.has_unique(u, c) by {
        assert(after.base(u) == db.base(u));
    }
}

pub proof fn lemma_sequence_keeps_tables(db: DbModel, s: u32, q: SequenceModel)
    requires
        db.tx is Some,
    ensures
        same_tables(db, db.with_sequence(s, q)),
{
    let after = db.with_sequence(s, q);
    assert forall|u: u32| #[trigger] after.row_type(u) == db.row_type(u) by {}
    assert forall|u: u32| #[trigger] after.schema(u) == db.schema(u) by {}
    assert forall|u: u32| #[trigger] after.table_exists(u) == db.table_exists(u) by {}
    assert forall|u: u32, c: u32| #[trigger] after.has_unique(u, c) == db.has_unique(u, c) by {}
    if db.inv() {
        lemma_same_rows_inv(db, after);
    }
}

pub proof fn lemma_refill_keeps_tables(db: DbModel, s: u32, to: i128)
    requires
        db.tx is Some,
    ensures
        same_tables(db, db.refill(s, to)),
        forall|u: u32| #[trigger] db.refill(s, to).visible(u) == db.visible(u),
{
    let after = db.refill(s, to);
    assert forall|u: u32| #[trigger] after.row_type(u) == db.row_type(u) by {}
    assert forall|u: u32| #[trigger] after.schema(u) == db.schema(u) by {}
    assert forall|u: u32| #[trigger] after.table_exists(u) == db.table_exists(u) by {}
    assert forall|u: u32, c: u32| #[trigger] after.has_unique(u, c) == db.has_unique(u, c) by {}
    assert forall|u: u32| #[trigger] after.visible(u) == db.visible(u) by {
        assert(after.visible(u) =~= db.visible(u));
    }
    if db.inv() {
        lemma_same_rows_inv(db, after);
    }
}

proof fn lemma_put_sequence_keeps_tables(db: DbModel, s: u32, q: SequenceModel)
    requires
        db.tx is Some,
    ensures
        same_tables(db, db.put_sequence(s, q)),
        forall|u: u32| #[trigger] db.put_sequence(s, q).visible(u) == db.visible(u),
{
    let after = db.put_sequence(s, q);
    assert forall|u: u32| #[trigger] after.row_type(u) == db.row_type(u) by {}
    assert forall|u: u32| #[trigger] after.schema(u) == db.schema(u) by {}
    assert forall|u: u32| #[trigger] after.table_exists(u) == db.table_exists(u) by {}
    assert forall|u: u32, c: u32| #[trigger] after.has_unique(u, c) == db.has_unique(u, c) by {}
    assert forall|u: u32| #[trigger] after.visible(u) == db.visible(u) by {
        assert(after.visible(u) =~= db.visible(u));
    }
    if db.inv() {
        lemma_same_rows_inv(db, after);
    }
}

proof fn lemma_take_keeps_tables(db: DbModel, s: u32)
    requires
        db.tx is Some,
    ensures
        same_tables(db, db.take_number(s).0),
{
    if db.sequences.contains_key(s) {
        lemma_sequence_keeps_tables(db, s, db.sequences[s].advanced());
    }
}

pub proof fn lemma_same_tables_through(a: DbModel, b: DbModel, c: DbModel)
    requires
        same_tables(a, b),
        same_tables(b, c),
    ensures
        same_tables(a, c),
{
    assert forall|u: u32, x: u32| #[trigger] c.has_unique(u, x) == a.has_unique(u, x) by {
        assert(b.has_unique(u, x) == a.has_unique(u, x));
    }
    assert forall|st: u32, width: nat, keys: u32| #[trigger]
        catalogue_in_form(a, st, width, keys) implies catalogue_in_form(c, st, width, keys) by {
        assert(catalogue_in_form(b, st, width, keys));
    }
    assert forall|u: u32| #[trigger] c.row_type(u) == a.row_type(u) by {
        assert(b.row_type(u) == a.row_type(u));
    }
    assert forall|u: u32| #[trigger] c.schema(u) == a.schema(u) by {
        assert(b.schema(u) == a.schema(u));
    }
    assert forall|u: u32| #[trigger] c.table_exists(u) == a.table_exists(u) by {
        assert(b.table_exists(u) == a.table_exists(u));
    }
}

proof fn lemma_next_keeps_tables(db: DbModel, s: u32)
    requires
        db.tx is Some,
    ensures
        same_tables(db, db.get_next_sequence_value(s).0),
{
    if !db.in_use(s) || !db.sequences[s].exhausted() {
        lemma_take_keeps_tables(db, s);
    } else {
        match db.seek(ST_SEQUENCES_ID, 0, Value::U32(s)) {
            Ok(rows) => {
                if rows.len() > 0 {
                    match SequenceModel::of_row(rows.last()) {
                        Ok(listed) => {
                            let to = db.sequences[s].nth(SEQUENCE_ALLOCATION as nat);
                            let a = db.refill(s, to);
                            lemma_refill_keeps_tables(db, s, to);
                            let b = a.delete_row(ST_SEQUENCES_ID, row_key(rows.last())).0;
                            lemma_delete_keeps_tables(
                                a,
                                ST_SEQUENCES_ID,
                                row_key(rows.last()),
                            );
                            lemma_same_tables_through(db, a, b);
                            let row = listed.allocated_to(to).row();
                            lemma_insert_internal_keeps_tables(b, ST_SEQUENCES_ID, row);
                            let c = b.insert_row_internal(ST_SEQUENCES_ID, row).0;
                            lemma_same_tables_through(db, b, c);
                            lemma_take_keeps_tables(c, s);
                            lemma_same_tables_through(db, c, c.take_number(s).0);
                        },
                        Err(_) => {},
                    }
                }
            },
            Err(_) => {},
        }
    }
}

proof fn lemma_fill_column_keeps_tables(
    db: DbModel,
    t: u32,
    table_name: Seq<char>,
    col: ColumnModel,
    row: Row,
)
    requires
        db.tx is Some,
    ensures
        same_tables(db, db.fill_column(t, table_name, col, row).0),
{
    if col.is_autoinc && col.col_id < row.len() && is_zero(row[col.col_id as int]) {
        match db.seek(ST_SEQUENCES_ID, 2, Value::U32(t)) {
            Ok(rows) => match sequence_for(rows, col.col_id) {
                Ok(Some(s)) => lemma_next_keeps_tables(db, s),
                _ => {},
            },
            Err(_) => {},
        }
    }
}

pub proof fn lemma_fill_keeps_tables(
    db: DbModel,
    t: u32,
    schema: SchemaModel,
    n: nat,
    row: Row,
)
    requires
        db.tx is Some,
    ensures
        same_tables(db, db.fill_columns(t, schema, n, row).0),
    decreases n,
{
    if n > 0 {
        lemma_fill_keeps_tables(db, t, schema, (n - 1) as nat, row);
        let (mid, r) = db.fill_columns(t, schema, (n - 1) as nat, row);
        match r {
            Ok(filled) => {
                let col = schema.columns[n - 1];
                lemma_fill_column_keeps_tables(mid, t, schema.table_name, col, filled);
                lemma_same_tables_through(
                    db,
                    mid,
                    mid.fill_column(t, schema.table_name, col, filled).0,
                );
            },
            Err(_) => {},
        }
    }
}

proof fn lemma_insert_keeps_tables(db: DbModel, t: u32, row: Row)
    requires
        db.tx is Some,
    ensures
        same_tables(db, db.insert_row(t, row).0),
{
    match db.schema_for_table(t) {
        Ok(schema) => {
            let n = schema.columns.len();
            lemma_fill_keeps_tables(db, t, schema, n, row);
            let (mid, r) = db.fill_columns(t, schema, n, row);
            match r {
                Ok(filled) => {
                    lemma_insert_internal_keeps_tables(mid, t, filled);
                    lemma_same_tables_through(db, mid, mid.insert_row_internal(t, filled).0);
                },
                Err(_) => {},
            }
        },
        Err(_) => {},
    }
}

/// To insert a row makes no table and changes none but for its rows, and leaves what is committed
/// as it was.
pub proof fn law_insert_keeps_tables(db: DbModel, t: u32, row: Row)
    requires
        db.tx is Some,
    ensures
        same_tables(db, db.insert_row(t, row).0),
{
    lemma_insert_keeps_tables(db, t, row);
}

/// To take a number of a sequence makes no table and changes none but for its rows, and leaves
/// what is committed as it was.
pub proof fn law_next_number_keeps_tables(db: DbModel, s: u32)
    requires
        db.tx is Some,
    ensures
        same_tables(db, db.get_next_sequence_value(s).0),
{
    lemma_next_keeps_tables(db, s);
}

/// The row that an insert returns is in the table.
pub proof fn law_returned_row_is_visible(db: DbModel, t: u32, row: Row)
    requires
        db.inv(),
        db.tx is Some,
        db.insert_row(t, row).1 is Ok,
    ensures
        ({
            let (after, r) = db.insert_row(t, row);
            &&& after.visible(t).contains_key(row_key(r->Ok_0))
            &&& after.visible(t)[row_key(r->Ok_0)] == r->Ok_0
            &&& after.get_row(t, row_key(r->Ok_0)) == Ok::<Option<Row>, Fault>(Some(r->Ok_0))
        }),
{
    let schema = db.schema_for_table(t)->Ok_0;
    let n = schema.columns.len();
    let (mid, r) = db.fill_columns(t, schema, n, row);
    lemma_fill_keeps_tables(db, t, schema, n, row);
    law_inserted_row_is_visible(mid, t, r->Ok_0);
}

/// Column `c` is among the first `n` of the schema, and is an autoincrement column.
pub open spec fn fills_itself(schema: SchemaModel, n: nat, c: int) -> bool {
    exists|i: int|
        0 <= i < n && (#[trigger] schema.columns[i]).is_autoinc && schema.columns[i].col_id == c
}

proof fn lemma_fill_keeps_values(
    db: DbModel,
    t: u32,
    schema: SchemaModel,
    n: nat,
    row: Row,
    c: int,
)
    requires
        db.fill_columns(t, schema, n, row).1 is Ok,
        0 <= c < row.len(),
    ensures
        db.fill_columns(t, schema, n, row).1->Ok_0.len() == row.len(),
        db.fill_columns(t, schema, n, row).1->Ok_0[c] != row[c] ==> is_zero(row[c])
            && fills_itself(schema, n, c),
    decreases n,
{
    if n > 0 {
        let (mid, r) = db.fill_columns(t, schema, (n - 1) as nat, row);
        lemma_fill_keeps_values(db, t, schema, (n - 1) as nat, row, c);
        let before = r->Ok_0;
        let after = db.fill_columns(t, schema, n, row).1->Ok_0;
        let col = schema.columns[n - 1];
        assert(mid.fill_column(t, schema.table_name, col, before).1
            == Ok::<Row, Fault>(after));
        if after[c] != before[c] {
            assert(schema.columns[n - 1].is_autoinc && schema.columns[n - 1].col_id == c);
        }
        if fills_itself(schema, (n - 1) as nat, c) {
            let i = choose|i: int|
                0 <= i < n - 1 && (#[trigger] schema.columns[i]).is_autoinc
                    && schema.columns[i].col_id == c;
            assert(schema.columns[i].is_autoinc);
        }
    }
}

/// An insert changes nothing in a row but the zeros in its autoincrement columns.
pub proof fn law_insert_keeps_given_values(db: DbModel, t: u32, row: Row, c: int)
    requires
        db.insert_row(t, row).1 is Ok,
        0 <= c < row.len(),
    ensures
        ({
            let inserted = db.insert_row(t, row).1->Ok_0;
            let schema = db.schema_for_table(t)->Ok_0;
            &&& db.schema_for_table(t) is Ok
            &&& inserted.len() == row.len()
            &&& inserted[c] != row[c] ==> is_zero(row[c]) && fills_itself(
                schema,
                schema.columns.len(),
                c,
            )
        }),
{
    let schema = db.schema_for_table(t)->Ok_0;
    lemma_fill_keeps_values(
        db,
        t,
        schema,
        schema.columns.len(),
        row,
        c,
    );
}

/// No two of the rows of `m` hold the same value in column `c`.
pub open spec fn distinct_values(m: Map<Key, Row>, c: u32) -> bool {
    forall|j: Key, k: Key|
        #![trigger m.contains_key(j), m.contains_key(k)]
        m.contains_key(j) && m.contains_key(k) && j != k && c < m[j].len() && c < m[k].len()
            ==> canonical(m[j][c as int]) != canonical(m[k][c as int])
}

/// Where a unique index is on a column, no two rows that are seen hold the same value in it.
pub proof fn law_unique_values_are_distinct(db: DbModel, t: u32, c: u32)
    requires
        db.inv(),
        db.tx is Some,
        db.has_unique(t, c),
    ensures
        distinct_values(db.visible(t), c),
{
    let m = db.visible(t);
    let e = column_of(m, c);
    assert(one_row_per_value(e));
    assert forall|j: Key, k: Key|
        #![trigger m.contains_key(j), m.contains_key(k)]
        m.contains_key(j) && m.contains_key(k) && j != k && c < m[j].len() && c
            < m[k].len() implies canonical(m[j][c as int]) != canonical(m[k][c as int]) by {
        assert(e.contains_key(j) && e.contains_key(k));
    }
}

/// Where a unique index is on a column, a row with a value that a visible row has in the column is
/// refused, for a violation of a unique constraint.
pub proof fn law_duplicate_is_refused(db: DbModel, t: u32, c: u32, row: Row, k: Key)
    requires
        db.inv(),
        db.tx is Some,
        db.has_unique(t, c),
        c < row.len(),
        db.visible(t).contains_key(k),
        holds(db.visible(t)[k], c, row[c as int]),
    ensures
        db.insert_row_internal(t, row).1 matches Err(Fault::UniqueConstraintViolation { .. }),
{
    let mid = db.with_insert_table(t);
    lemma_insert_table_inv(db, t);
    assert(mid.has_inserts(t));
    assert(mid.fresh(t) =~= db.fresh(t));
    assert(mid.visible(t) =~= db.visible(t));
    assert(mid.base(t) == db.base(t));
    assert(mid.has_unique(t, c));
    law_agreeing_row_is_refused(mid, t, row, c, k);
}

/// The unique indexes that are there when a transaction is committed are there in the next, and no
/// others.
pub proof fn law_commit_keeps_unique_indexes(db: DbModel, t: u32, c: u32)
    requires
        db.inv(),
        db.tx is Some,
    ensures
        db.commit().begin().has_unique(t, c) == db.has_unique(t, c),
{
    let next = db.commit().begin();
    let m = db.commit().committed[t];
    lemma_without_none(m);
    if db.has_inserts(t) {
        assert(db.indexed(t));
        if db.has_base(t) && db.base(t).indexes.contains_key(c) {
            assert(db.inserts(t).indexes[c].is_unique == db.base(t).indexes[c].is_unique);
        }
    }
    assert(next.has_base(t) == db.table_exists(t));
    assert(next.base(t) == m);
}

/// `b` has what `a` has in memory, with the same row types, and the same is committed. The tables
/// of the catalogue stay in form. It is in order where `a` is.
pub open spec fn keeps_tables(a: DbModel, b: DbModel) -> bool {
    &&& b.tx is Some
    &&& b.committed == a.committed
    &&& b.tx->0.dropped == a.tx->0.dropped
    &&& forall|u: u32| #[trigger] a.has_inserts(u) ==> b.has_inserts(u)
    &&& forall|u: u32| #[trigger] a.row_type(u) is Some ==> b.row_type(u) == a.row_type(u)
    &&& keeps_forms(a, b)
    &&& a.inv() ==> b.inv()
}

proof fn lemma_keeps_through(a: DbModel, b: DbModel, c: DbModel)
    requires
        keeps_tables(a, b),
        keeps_tables(b, c),
    ensures
        keeps_tables(a, c),
{
    assert forall|st: u32, width: nat, keys: u32| #[trigger]
        catalogue_in_form(a, st, width, keys) implies catalogue_in_form(c, st, width, keys) by {
        assert(catalogue_in_form(b, st, width, keys));
    }
    assert forall|u: u32| #[trigger] a.row_type(u) is Some implies c.row_type(u) == a.row_type(
        u,
    ) by {
        assert(b.row_type(u) == a.row_type(u));
    }
}

proof fn lemma_same_keeps(a: DbModel, b: DbModel)
    requires
        same_tables(a, b),
    ensures
        keeps_tables(a, b),
{
    assert forall|u: u32| #[trigger] a.row_type(u) is Some implies b.row_type(u) == a.row_type(
        u,
    ) by {
        assert(b.row_type(u) == a.row_type(u));
    }
}

/// To make a sequence makes no table and changes none but for its rows, and leaves what is
/// committed as it was.
pub proof fn law_create_sequence_keeps_tables(db: DbModel, def: SequenceDefModel)
    requires
        db.tx is Some,
    ensures
        same_tables(db, db.create_sequence(def).0),
{
    let row = new_sequence(def).row();
    law_insert_keeps_tables(db, ST_SEQUENCES_ID, row);
    let (mid, r) = db.insert_row(ST_SEQUENCES_ID, row);
    if r is Ok {
        match SequenceModel::of_row(r->Ok_0) {
            Ok(q) => {
                lemma_put_sequence_keeps_tables(mid, q.sequence_id, q);
                lemma_same_tables_through(db, mid, mid.put_sequence(q.sequence_id, q));
            },
            Err(_) => {},
        }
    }
}

/// A sequence that was made is listed and in use. It gives out its start first, where that is not
/// zero, and where the column that says how far it is allocated does not fill itself.
pub proof fn law_created_sequence_is_listed(db: DbModel, def: SequenceDefModel)
    requires
        db.inv(),
        db.tx is Some,
        db.create_sequence(def).1 is Ok,
    ensures
        ({
            let (after, r) = db.create_sequence(def);
            let s = r->Ok_0;
            let start = or_else(def.start, 1);
            let schema = db.schema_for_table(ST_SEQUENCES_ID)->Ok_0;
            &&& listed(after, ST_SEQUENCES_ID, s)
            &&& after.in_use(s)
            &&& start != 0 && !fills_itself(schema, schema.columns.len(), 8)
                ==> after.get_next_sequence_value(s).1 == Ok::<i128, Fault>(
                start,
            )
        }),
{
    let row = new_sequence(def).row();
    let (mid, r) = db.insert_row(ST_SEQUENCES_ID, row);
    law_insert_keeps_tables(db, ST_SEQUENCES_ID, row);
    law_returned_row_is_visible(db, ST_SEQUENCES_ID, row);
    let inserted = r->Ok_0;
    let q = SequenceModel::of_row(inserted)->Ok_0;
    let after = mid.put_sequence(q.sequence_id, q);
    lemma_put_sequence_keeps_tables(mid, q.sequence_id, q);
    assert(after.visible(ST_SEQUENCES_ID) == mid.visible(ST_SEQUENCES_ID));
    lemma_visible_id_is_listed(after, ST_SEQUENCES_ID, inserted, q.sequence_id);
    law_insert_keeps_given_values(db, ST_SEQUENCES_ID, row, 5);
    law_insert_keeps_given_values(db, ST_SEQUENCES_ID, row, 8);
    let schema = db.schema_for_table(ST_SEQUENCES_ID)->Ok_0;
    if or_else(def.start, 1) != 0 && !fills_itself(schema, schema.columns.len(), 8) {
        assert(inserted[5] == row[5]);
        assert(inserted[8] == row[8]);
        law_next_number(after, q.sequence_id);
    }
}

/// A visible row of a catalogue table with `id` in front lists `id`.
proof fn lemma_visible_id_is_listed(db: DbModel, st: u32, row: Row, id: u32)
    requires
        db.inv(),
        db.tx is Some,
        db.table_exists(st),
        db.visible(st).contains_key(row_key(row)),
        db.visible(st)[row_key(row)] == row,
        row.len() > 0,
        row[0] == Value::U32(id),
    ensures
        listed(db, st, id),
{
    law_seek_yields_matching_rows(db, st, 0, Value::U32(id));
    let m = holding(db.visible(st), 0, Value::U32(id));
    let rows = db.seek(st, 0, Value::U32(id))->Ok_0;
    assert(holds(row, 0, Value::U32(id)));
    assert(m.contains_key(row_key(row)) && m[row_key(row)] == row);
    lemma_each_once_contains(rows, m, row);
    assert(rows.contains(row));
}

proof fn lemma_insert_table_keeps(db: DbModel, t: u32)
    requires
        db.tx is Some,
        db.table_exists(t),
    ensures
        keeps_tables(db, db.with_insert_table(t)),
        forall|u: u32| #[trigger] db.with_insert_table(t).visible(u) == db.visible(u),
{
    let after = db.with_insert_table(t);
    assert forall|u: u32| #[trigger] after.visible(u) == db.visible(u) by {
        assert(after.fresh(u) =~= db.fresh(u));
        assert(after.visible(u) =~= db.visible(u));
    }
    lemma_insert_table_shapes(db, t);
    if db.inv() {
        lemma_insert_table_inv(db, t);
    }
}

pub proof fn lemma_index_internal_keeps(db: DbModel, index_id: u32, def: IndexDefModel)
    requires
        db.tx is Some,
        db.table_exists(def.table_id),
    ensures
        keeps_tables(db, db.create_index_internal(index_id, def).0),
        forall|u: u32| #[trigger]
            db.create_index_internal(index_id, def).0.visible(u) == db.visible(u),
{
    let t = def.table_id;
    let mid = db.with_insert_table(t);
    lemma_insert_table_keeps(db, t);
    let (after, r) = db.create_index_internal(index_id, def);
    if r is Ok {
        let table = after.inserts(t);
        assert(table.rows == mid.inserts(t).rows);
        assert forall|u: u32| #[trigger] after.visible(u) == db.visible(u) by {
            assert(mid.visible(u) == db.visible(u));
            assert(after.fresh(u) =~= mid.fresh(u));
            assert(after.visible(u) =~= mid.visible(u));
        }
        if mid.inv() {
            let index = IndexModel {
                index_id,
                table_id: t,
                col_id: def.col_id,
                name: def.name,
                is_unique: def.is_unique,
                entries: column_of(mid.visible(t), def.col_id),
            };
            lemma_set_index_inv(mid, t, index, new_index(index_id, def));
        }
        assert(keeps_tables(mid, after));
        lemma_keeps_through(db, mid, after);
    }
}

/// To make an index keeps the tables, and leaves what is committed as it was.
pub proof fn law_create_index_keeps_tables(db: DbModel, def: IndexDefModel)
    requires
        db.tx is Some,
    ensures
        keeps_tables(db, db.create_index(def).0),
{
    let row = new_index(0, def).row();
    law_insert_keeps_tables(db, ST_INDEXES_ID, row);
    let (mid, r) = db.insert_row(ST_INDEXES_ID, row);
    lemma_same_keeps(db, mid);
    if r is Ok {
        match IndexSchemaModel::of_row(r->Ok_0) {
            Ok(el) => {
                if mid.table_exists(def.table_id) {
                    lemma_index_internal_keeps(mid, el.index_id, def);
                    lemma_keeps_through(
                        db,
                        mid,
                        mid.create_index_internal(el.index_id, def).0,
                    );
                }
            },
            Err(_) => {},
        }
    }
}

/// An index that was made is listed.
pub proof fn law_created_index_is_listed(db: DbModel, def: IndexDefModel)
    requires
        db.inv(),
        db.tx is Some,
        db.create_index(def).1 is Ok,
    ensures
        listed(db.create_index(def).0, ST_INDEXES_ID, db.create_index(def).1->Ok_0),
{
    let row = new_index(0, def).row();
    let (mid, r) = db.insert_row(ST_INDEXES_ID, row);
    law_insert_keeps_tables(db, ST_INDEXES_ID, row);
    law_returned_row_is_visible(db, ST_INDEXES_ID, row);
    let inserted = r->Ok_0;
    let id = IndexSchemaModel::of_row(inserted)->Ok_0.index_id;
    let after = mid.create_index_internal(id, def).0;
    lemma_index_internal_keeps(mid, id, def);
    assert(mid.row_type(ST_INDEXES_ID) is Some);
    assert(after.visible(ST_INDEXES_ID) == mid.visible(ST_INDEXES_ID));
    lemma_visible_id_is_listed(after, ST_INDEXES_ID, inserted, id);
}

pub proof fn lemma_columns_keep(db: DbModel, t: u32, def: TableDefModel, n: nat)
    requires
        db.tx is Some,
    ensures
        same_tables(db, db.create_columns(t, def, n).0),
    decreases n,
{
    if n > 0 {
        lemma_columns_keep(db, t, def, (n - 1) as nat);
        let (mid, r) = db.create_columns(t, def, (n - 1) as nat);
        if r is Ok {
            let col = def.columns[n - 1];
            let row = listed_column(t, (n - 1) as u32, col).row();
            reveal(DbModel::create_column);
            law_insert_keeps_tables(mid, ST_COLUMNS_ID, row);
            let (a, r) = mid.insert_row(ST_COLUMNS_ID, row);
            lemma_same_tables_through(db, mid, a);
            if r is Ok && col.is_autoinc {
                let seq = column_sequence(t, def.table_name, (n - 1) as u32, col);
                law_create_sequence_keeps_tables(a, seq);
                lemma_same_tables_through(db, a, a.create_sequence(seq).0);
            }
        }
    }
}

pub proof fn lemma_indexes_keep(db: DbModel, t: u32, def: TableDefModel, n: nat)
    requires
        db.tx is Some,
    ensures
        keeps_tables(db, db.create_indexes(t, def, n).0),
    decreases n,
{
    if n > 0 {
        lemma_indexes_keep(db, t, def, (n - 1) as nat);
        let (mid, r) = db.create_indexes(t, def, (n - 1) as nat);
        if r is Ok {
            let index = IndexDefModel { table_id: t, ..def.indexes[n - 1] };
            law_create_index_keeps_tables(mid, index);
            lemma_keeps_through(db, mid, mid.create_index(index).0);
        }
    }
}

/// A table that was made is there, with the row type of its definition, and was not before. The
/// tables that were there keep their row types, those of the catalogue stay in form, what is
/// committed is as it was, whether or not the table could be made, and the datastore is in order.
pub proof fn law_created_table_is_there(db: DbModel, def: TableDefModel)
    requires
        db.inv(),
        db.tx is Some,
    ensures
        ({
            let (after, r) = db.create_table(def);
            &&& after.tx is Some
            &&& after.inv()
            &&& after.committed == db.committed
            &&& keeps_forms(db, after)
            &&& forall|u: u32| #[trigger]
                db.row_type(u) is Some ==> after.row_type(u) == db.row_type(u)
            &&& r matches Ok(t) ==> {
                &&& !db.table_exists(t)
                &&& !after.has_base(t)
                &&& after.has_inserts(t)
                &&& after.row_type_for_table(t) == Ok::<RowType, Fault>(def.row_type())
            }
        }),
{
    let row = TableRowModel { table_id: 0, table_name: def.table_name }.row();
    law_insert_keeps_tables(db, ST_TABLES_ID, row);
    let (a, r) = db.insert_row(ST_TABLES_ID, row);
    lemma_same_keeps(db, a);
    if r is Ok {
        match TableRowModel::of_row(r->Ok_0) {
            Ok(el) => {
                let t = el.table_id;
                let n = def.columns.len();
                lemma_columns_keep(a, t, def, n);
                let (b, r) = a.create_columns(t, def, n);
                lemma_same_keeps(a, b);
                lemma_keeps_through(db, a, b);
                if r is Ok && !b.table_exists(t) {
                    match b.schema_for_table(t) {
                        Ok(schema) => {
                            let table = new_table(def.row_type(), schema);
                            let c = b.with_inserts(t, table);
                            lemma_new_part_keeps(b, t, table);
                            lemma_keeps_through(db, b, c);
                            lemma_indexes_keep(c, t, def, def.indexes.len());
                            let d = c.create_indexes(t, def, def.indexes.len()).0;
                            lemma_keeps_through(db, c, d);
                            assert(c.row_type(t) is Some);
                            assert(d.row_type(t) == c.row_type(t));
                            if db.table_exists(t) {
                                assert(db.row_type(t) is Some);
                                assert(b.row_type(t) is Some);
                            }
                            assert(d.has_base(t) ==> b.has_base(t));
                        },
                        Err(_) => {},
                    }
                }
            },
            Err(_) => {},
        }
    }
}

/// A table that was not there, with neither rows nor indexes, keeps the others.
pub proof fn lemma_new_part_keeps(db: DbModel, t: u32, table: TableModel)
    requires
        db.tx is Some,
        !db.table_exists(t),
        table == new_table(table.row_type, table.schema),
    ensures
        keeps_tables(db, db.with_inserts(t, table)),
{
    let after = db.with_inserts(t, table);
    if db.inv() {
        lemma_new_table_inv(db, t, table.row_type, table.schema);
    }
    assert forall|st: u32, width: nat, keys: u32| #[trigger]
        catalogue_in_form(db, st, width, keys) implies catalogue_in_form(
        after,
        st,
        width,
        keys,
    ) by {
        assert(st != t);
    }
}

/// A sequence that was dropped gives out nothing more.
pub proof fn law_dropped_sequence_is_gone(db: DbModel, s: u32)
    requires
        db.drop_sequence(s).1 is Ok,
    ensures
        ({
            let after = db.drop_sequence(s).0;
            &&& !after.in_use(s)
            &&& after.get_next_sequence_value(s).1 == Err::<i128, Fault>(
                Fault::SequenceNotFound(s),
            )
        }),
{
}

/// A table that was given a name has it in the catalogue.
pub proof fn law_renamed_table_has_its_name(db: DbModel, t: u32, name: Seq<char>)
    requires
        db.inv(),
        db.tx is Some,
        db.rename_table(t, name).1 is Ok,
    ensures
        ({
            let after = db.rename_table(t, name).0;
            let row = TableRowModel { table_id: t, table_name: name }.row();
            &&& after.visible(ST_TABLES_ID).contains_key(row_key(row))
            &&& after.visible(ST_TABLES_ID)[row_key(row)] == row
        }),
{
    law_seek_yields_matching_rows(db, ST_TABLES_ID, 0, Value::U32(t));
    let rows = db.seek(ST_TABLES_ID, 0, Value::U32(t))->Ok_0;
    let m = holding(db.visible(ST_TABLES_ID), 0, Value::U32(t));
    assert(rows.contains(rows[0]));
    lemma_each_once_contains(rows, m, rows[0]);
    let el = TableRowModel::of_row(rows[0])->Ok_0;
    assert(el.table_id == t);
    let mid = db.delete_row(ST_TABLES_ID, row_key(rows[0])).0;
    lemma_delete_keeps_inv(db, ST_TABLES_ID, row_key(rows[0]));
    let row = TableRowModel { table_id: t, table_name: name }.row();
    assert(row == TableRowModel { table_name: name, ..el }.row());
    law_inserted_row_is_visible(mid, ST_TABLES_ID, row);
}

/// To delete rows leaves in the table just those that were not among them, and the other tables as
/// they were.
pub proof fn law_deleted_rows_are_gone(db: DbModel, t: u32, rows: Seq<Row>, k: Key)
    requires
        db.inv(),
        db.tx is Some,
    ensures
        ({
            let (after, n) = db.delete_rows_in(t, rows);
            &&& after.inv()
            &&& after.tx is Some
            &&& n <= rows.len()
            &&& after.committed == db.committed
            &&& forall|u: u32| u != t ==> #[trigger] after.visible(u) == db.visible(u)
            &&& after.visible(t).contains_key(k) <==> {
                &&& db.visible(t).contains_key(k)
                &&& forall|i: int| 0 <= i < rows.len() ==> row_key(#[trigger] rows[i]) != k
            }
            &&& after.visible(t).contains_key(k) ==> after.visible(t)[k] == db.visible(t)[k]
        }),
    decreases rows.len(),
{
    if rows.len() > 0 {
        let front = rows.drop_last();
        law_deleted_rows_are_gone(db, t, front, k);
        let mid = db.delete_rows_in(t, front).0;
        let last = row_key(rows.last());
        law_deleted_row_is_gone(mid, t, last);
        lemma_delete_keeps_inv(mid, t, last);
        let after = db.delete_rows_in(t, rows).0;
        assert forall|u: u32| u != t implies #[trigger] after.visible(u) == db.visible(u) by {
            assert(mid.visible(u) == db.visible(u));
        }
        if forall|i: int| 0 <= i < front.len() ==> row_key(#[trigger] front[i]) != k {
            if last != k {
                assert forall|i: int| 0 <= i < rows.len() implies row_key(#[trigger] rows[i])
                    != k by {
                    if i < front.len() {
                        assert(row_key(front[i]) != k);
                    }
                }
            } else {
                assert(row_key(rows[rows.len() - 1]) == k);
            }
        } else {
            let i = choose|i: int| 0 <= i < front.len() && row_key(#[trigger] front[i]) == k;
            assert(row_key(rows[i]) == k);
        }
    }
}

/// The keys of `rows`.
pub open spec fn keys_of_rows(rows: Seq<Row>) -> Set<Key> {
    rows.map_values(|row: Row| row_key(row)).to_set()
}

/// To delete rows takes them out of the table, and says how many of them were there. One that is
/// named twice counts once.
pub proof fn law_deleted_rows_are_counted(db: DbModel, t: u32, rows: Seq<Row>)
    requires
        db.inv(),
        db.tx is Some,
    ensures
        ({
            let (after, n) = db.delete_rows_in(t, rows);
            &&& after.inv()
            &&& after.tx is Some
            &&& after.visible(t) == db.visible(t).remove_keys(keys_of_rows(rows))
            &&& n == keys_of_rows(rows).intersect(db.visible(t).dom()).len()
        }),
    decreases rows.len(),
{
    let seen = db.visible(t);
    let keys = rows.map_values(|row: Row| row_key(row));
    if rows.len() == 0 {
        assert(keys_of_rows(rows) =~= Set::empty());
        assert(keys_of_rows(rows).intersect(seen.dom()) =~= Set::empty());
        assert(seen.remove_keys(keys_of_rows(rows)) =~= seen);
    } else {
        let front = rows.drop_last();
        let before = front.map_values(|row: Row| row_key(row));
        let last = row_key(rows.last());
        law_deleted_rows_are_counted(db, t, front);
        let mid = db.delete_rows_in(t, front).0;
        law_deleted_row_is_gone(mid, t, last);
        lemma_delete_keeps_inv(mid, t, last);
        assert(keys =~= before.push(last));
        assert(keys.to_set() =~= before.to_set().insert(last)) by {
            assert forall|k: Key| keys.contains(k) <==> before.contains(k) || k == last by {
                if before.contains(k) {
                    let i = choose|i: int| 0 <= i < before.len() && before[i] == k;
                    assert(keys[i] == k);
                }
                assert(keys[keys.len() - 1] == last);
            }
        }
        let found = keys_of_rows(front).intersect(seen.dom());
        vstd::seq_lib::seq_to_set_is_finite(before);
        assert(found.finite());
        assert(db.delete_rows_in(t, rows).0.visible(t) =~= seen.remove_keys(keys_of_rows(rows)));
        if mid.visible(t).contains_key(last) {
            assert(!found.contains(last));
            assert(keys_of_rows(rows).intersect(seen.dom()) =~= found.insert(last));
        } else {
            assert(keys_of_rows(rows).intersect(seen.dom()) =~= found);
        }
    }
}

proof fn lemma_writes_of(operation: Operation, t: u32, keys: Set<Key>, w: WriteModel)
    requires
        keys.finite(),
    ensures
        writes_of(operation, t, keys).contains(w) <==> {
            &&& w.operation == operation
            &&& w.set_id == t
            &&& keys.contains(w.data_key)
        },
{
    lemma_ascending_of_finite::<RowId>(keys);
    let ks = ascending::<RowId>(keys);
    let all = writes_of(operation, t, keys);
    if all.contains(w) {
        let i = choose|i: int| 0 <= i < all.len() && all[i] == w;
        assert(ks.to_set().contains(ks[i]));
    }
    if w.operation == operation && w.set_id == t && keys.contains(w.data_key) {
        assert(ks.to_set().contains(w.data_key));
        let i = choose|i: int| 0 <= i < ks.len() && ks[i] == w.data_key;
        assert(all[i] == w);
    }
}

proof fn lemma_contains_either<A>(a: Seq<A>, b: Seq<A>, x: A)
    ensures
        (a + b).contains(x) <==> a.contains(x) || b.contains(x),
{
    let c = a + b;
    if a.contains(x) {
        let i = choose|i: int| 0 <= i < a.len() && a[i] == x;
        assert(c[i] == x);
    }
    if b.contains(x) {
        let i = choose|i: int| 0 <= i < b.len() && b[i] == x;
        assert(c[a.len() + i] == x);
    }
    if c.contains(x) {
        let i = choose|i: int| 0 <= i < c.len() && c[i] == x;
        if i < a.len() {
            assert(a[i] == x);
        } else {
            assert(b[i - a.len()] == x);
        }
    }
}

proof fn lemma_insert_writes(tx: TxModel, ts: Seq<u32>, w: WriteModel)
    requires
        tx.inv(),
        forall|i: int| 0 <= i < ts.len() ==> tx.inserts.contains_key(#[trigger] ts[i]),
    ensures
        insert_writes(tx.inserts, ts).contains(w) <==> {
            &&& w.operation == Operation::Insert
            &&& ts.contains(w.set_id)
            &&& tx.inserts[w.set_id].rows.contains_key(w.data_key)
        },
    decreases ts.len(),
{
    if ts.len() > 0 {
        let front = ts.drop_last();
        let t = ts.last();
        assert(tx.inserts.contains_key(ts[ts.len() - 1]));
        assert forall|i: int| 0 <= i < front.len() implies tx.inserts.contains_key(
            #[trigger] front[i],
        ) by {
            assert(tx.inserts.contains_key(ts[i]));
        }
        lemma_insert_writes(tx, front, w);
        assert(tx.inserts[t].inv());
        lemma_writes_of(Operation::Insert, t, tx.inserts[t].rows.dom(), w);
        lemma_contains_either(
            insert_writes(tx.inserts, front),
            writes_of(Operation::Insert, t, tx.inserts[t].rows.dom()),
            w,
        );
        lemma_contains_either(front, seq![t], w.set_id);
        assert(front + seq![t] =~= ts);
        assert(seq![t].contains(w.set_id) <==> w.set_id == t) by {
            assert(seq![t][0] == t);
        }
    }
}

proof fn lemma_delete_writes(tx: TxModel, tables: Set<u32>, ts: Seq<u32>, w: WriteModel)
    requires
        tx.inv(),
        forall|i: int| 0 <= i < ts.len() ==> tx.deletes.contains_key(#[trigger] ts[i]),
    ensures
        delete_writes(tables, tx.deletes, ts).contains(w) <==> {
            &&& w.operation == Operation::Delete
            &&& ts.contains(w.set_id)
            &&& tables.contains(w.set_id)
            &&& tx.deletes[w.set_id].contains(w.data_key)
        },
    decreases ts.len(),
{
    if ts.len() > 0 {
        let front = ts.drop_last();
        let t = ts.last();
        assert(tx.deletes.contains_key(ts[ts.len() - 1]));
        assert forall|i: int| 0 <= i < front.len() implies tx.deletes.contains_key(
            #[trigger] front[i],
        ) by {
            assert(tx.deletes.contains_key(ts[i]));
        }
        lemma_delete_writes(tx, tables, front, w);
        lemma_writes_of(Operation::Delete, t, tx.deletes[t], w);
        let more = if tables.contains(t) {
            writes_of(Operation::Delete, t, tx.deletes[t])
        } else {
            Seq::empty()
        };
        lemma_contains_either(delete_writes(tables, tx.deletes, front), more, w);
        lemma_contains_either(front, seq![t], w.set_id);
        assert(front + seq![t] =~= ts);
        assert(seq![t].contains(w.set_id) <==> w.set_id == t) by {
            assert(seq![t][0] == t);
        }
    }
}

/// What is reported of a transaction is just what it did: the rows that it inserted and that are
/// still there, and the rows that it deleted from committed tables that it did not drop. What it
/// deleted from a table that it made itself is not reported.
pub proof fn law_report_is_what_was_done(db: DbModel, w: WriteModel)
    requires
        db.inv(),
        db.tx is Some,
    ensures
        merge_writes(db.committed, db.tx->0).contains(w) <==> match w.operation {
            Operation::Insert => db.fresh(w.set_id).contains_key(w.data_key),
            Operation::Delete => db.has_base(w.set_id) && db.deleted(w.set_id).contains(
                w.data_key,
            ),
        },
{
    let tx = db.tx->0;
    let tables = tx.left_of(db.committed).dom();
    let is = ascending::<u32>(tx.inserts.dom());
    let ds = ascending::<u32>(tx.deletes.dom());
    lemma_ascending_of_finite::<u32>(tx.inserts.dom());
    lemma_ascending_of_finite::<u32>(tx.deletes.dom());
    assert forall|i: int| 0 <= i < is.len() implies tx.inserts.contains_key(#[trigger] is[i]) by {
        assert(is.to_set().contains(is[i]));
    }
    assert forall|i: int| 0 <= i < ds.len() implies tx.deletes.contains_key(#[trigger] ds[i]) by {
        assert(ds.to_set().contains(ds[i]));
    }
    lemma_insert_writes(tx, is, w);
    lemma_delete_writes(tx, tables, ds, w);
    lemma_contains_either(
        insert_writes(tx.inserts, is),
        delete_writes(tables, tx.deletes, ds),
        w,
    );
    assert(is.to_set().contains(w.set_id) <==> tx.inserts.contains_key(w.set_id));
    assert(ds.to_set().contains(w.set_id) <==> tx.deletes.contains_key(w.set_id));
}

/// The columns follow one another by their ids.
pub open spec fn in_col_id_order(cols: Seq<ColumnModel>) -> bool {
    forall|i: int, j: int|
        #![trigger cols[i], cols[j]]
        0 <= i < j < cols.len() ==> cols[i].col_id <= cols[j].col_id
}

proof fn lemma_insert_in_order(cols: Seq<ColumnModel>, col: ColumnModel)
    requires
        in_col_id_order(cols),
    ensures
        in_col_id_order(insert_by_col_id(cols, col)),
        insert_by_col_id(cols, col).to_multiset() == cols.to_multiset().insert(col),
        forall|i: int|
            0 <= i < insert_by_col_id(cols, col).len() ==> (#[trigger] insert_by_col_id(
                cols,
                col,
            )[i]).col_id <= col.col_id || (cols.len() > 0 && insert_by_col_id(cols, col)[i].col_id
                <= cols.last().col_id),
    decreases cols.len(),
{
    broadcast use vstd::seq_lib::group_to_multiset_ensures;

    if cols.len() > 0 && cols.last().col_id > col.col_id {
        let front = cols.drop_last();
        lemma_insert_in_order(front, col);
        let mid = insert_by_col_id(front, col);
        assert(cols =~= front.push(cols.last()));
        assert forall|i: int| 0 <= i < mid.len() implies (#[trigger] mid[i]).col_id
            <= cols.last().col_id by {
            if front.len() > 0 {
                assert(cols[front.len() - 1].col_id <= cols[cols.len() - 1].col_id);
            }
        }
        assert(mid.push(cols.last()).to_multiset() =~= cols.to_multiset().insert(col));
    } else {
        assert(cols.push(col).to_multiset() =~= cols.to_multiset().insert(col));
        assert forall|i: int| 0 <= i < cols.len() implies (#[trigger] cols[i]).col_id
            <= col.col_id by {
            assert(cols[i].col_id <= cols[cols.len() - 1].col_id);
        }
    }
}

/// The columns of a schema that was read from the catalogue follow one another by their ids, and
/// are those that the catalogue lists.
pub proof fn law_columns_are_in_order(cols: Seq<ColumnModel>)
    ensures
        in_col_id_order(by_col_id(cols)),
        by_col_id(cols).to_multiset() == cols.to_multiset(),
    decreases cols.len(),
{
    broadcast use vstd::seq_lib::group_to_multiset_ensures;

    if cols.len() > 0 {
        law_columns_are_in_order(cols.drop_last());
        lemma_insert_in_order(by_col_id(cols.drop_last()), cols.last());
        assert(cols =~= cols.drop_last().push(cols.last()));
        assert(by_col_id(cols).to_multiset() =~= cols.to_multiset());
    } else {
        assert(by_col_id(cols) =~= cols);
    }
}

/// A row type that is not in memory is that of the columns that the catalogue lists.
pub proof fn law_row_type_agrees_with_schema(db: DbModel, t: u32)
    requires
        db.row_type(t) is None,
    ensures
        match db.schema_for_table(t) {
            Ok(schema) => db.row_type_for_table(t) == Ok::<RowType, Fault>(schema.row_type()),
            Err(f) => db.row_type_for_table(t) == Err::<RowType, Fault>(f),
        },
{
}

/// `b` has the tables of `a`, and shows the rows that `a` shows but for the table of sequences.
pub open spec fn same_rows(a: DbModel, b: DbModel) -> bool {
    &&& same_tables(a, b)
    &&& forall|u: u32| u != ST_SEQUENCES_ID ==> #[trigger] b.visible(u) == a.visible(u)
}

proof fn lemma_same_rows_through(a: DbModel, b: DbModel, c: DbModel)
    requires
        same_rows(a, b),
        same_rows(b, c),
    ensures
        same_rows(a, c),
{
    lemma_same_tables_through(a, b, c);
    assert forall|u: u32| u != ST_SEQUENCES_ID implies #[trigger] c.visible(u) == a.visible(u) by {
        assert(b.visible(u) == a.visible(u));
    }
}

proof fn lemma_sequence_row_insert(db: DbModel, row: Row)
    requires
        db.inv(),
        db.tx is Some,
    ensures
        same_rows(db, db.insert_row_internal(ST_SEQUENCES_ID, row).0),
{
    let t = ST_SEQUENCES_ID;
    lemma_insert_internal_keeps_tables(db, t, row);
    if db.insert_row_internal(t, row).1 is Ok {
        law_inserted_row_is_visible(db, t, row);
    } else {
        law_refused_row_changes_nothing_seen(db, t, row);
    }
}

proof fn lemma_sequence_row_delete(db: DbModel, k: Key)
    requires
        db.inv(),
        db.tx is Some,
    ensures
        same_rows(db, db.delete_row(ST_SEQUENCES_ID, k).0),
{
    lemma_delete_keeps_tables(db, ST_SEQUENCES_ID, k);
    law_deleted_row_is_gone(db, ST_SEQUENCES_ID, k);
}

proof fn lemma_sequence_same_rows(db: DbModel, s: u32, q: SequenceModel)
    requires
        db.tx is Some,
    ensures
        same_rows(db, db.with_sequence(s, q)),
{
    lemma_sequence_keeps_tables(db, s, q);
    let after = db.with_sequence(s, q);
    assert forall|u: u32| u != ST_SEQUENCES_ID implies #[trigger] after.visible(u) == db.visible(
        u,
    ) by {
        assert(after.visible(u) =~= db.visible(u));
    }
}

proof fn lemma_refill_same_rows(db: DbModel, s: u32, to: i128)
    requires
        db.tx is Some,
    ensures
        same_rows(db, db.refill(s, to)),
{
    lemma_refill_keeps_tables(db, s, to);
}

proof fn lemma_take_same_rows(db: DbModel, s: u32)
    requires
        db.tx is Some,
    ensures
        same_rows(db, db.take_number(s).0),
{
    lemma_take_keeps_tables(db, s);
    if db.sequences.contains_key(s) {
        lemma_sequence_same_rows(db, s, db.sequences[s].advanced());
    }
}

proof fn lemma_next_same_rows(db: DbModel, s: u32)
    requires
        db.inv(),
        db.tx is Some,
    ensures
        same_rows(db, db.get_next_sequence_value(s).0),
{
    if !db.in_use(s) || !db.sequences[s].exhausted() {
        lemma_take_same_rows(db, s);
    } else {
        match db.seek(ST_SEQUENCES_ID, 0, Value::U32(s)) {
            Ok(rows) => {
                if rows.len() > 0 {
                    match SequenceModel::of_row(rows.last()) {
                        Ok(listed) => {
                            let to = db.sequences[s].nth(SEQUENCE_ALLOCATION as nat);
                            let a = db.refill(s, to);
                            lemma_refill_same_rows(db, s, to);
                            let b = a.delete_row(ST_SEQUENCES_ID, row_key(rows.last())).0;
                            lemma_sequence_row_delete(a, row_key(rows.last()));
                            lemma_same_rows_through(db, a, b);
                            let row = listed.allocated_to(to).row();
                            lemma_sequence_row_insert(b, row);
                            let c = b.insert_row_internal(ST_SEQUENCES_ID, row).0;
                            lemma_same_rows_through(db, b, c);
                            lemma_take_same_rows(c, s);
                            lemma_same_rows_through(db, c, c.take_number(s).0);
                        },
                        Err(_) => {},
                    }
                }
            },
            Err(_) => {},
        }
    }
}

proof fn lemma_fill_column_same_rows(
    db: DbModel,
    t: u32,
    table_name: Seq<char>,
    col: ColumnModel,
    row: Row,
)
    requires
        db.inv(),
        db.tx is Some,
    ensures
        same_rows(db, db.fill_column(t, table_name, col, row).0),
{
    if col.is_autoinc && col.col_id < row.len() && is_zero(row[col.col_id as int]) {
        match db.seek(ST_SEQUENCES_ID, 2, Value::U32(t)) {
            Ok(rows) => match sequence_for(rows, col.col_id) {
                Ok(Some(s)) => lemma_next_same_rows(db, s),
                _ => {},
            },
            Err(_) => {},
        }
    }
}

pub proof fn lemma_fill_same_rows(
    db: DbModel,
    t: u32,
    schema: SchemaModel,
    n: nat,
    row: Row,
)
    requires
        db.inv(),
        db.tx is Some,
    ensures
        same_rows(db, db.fill_columns(t, schema, n, row).0),
    decreases n,
{
    if n > 0 {
        lemma_fill_same_rows(db, t, schema, (n - 1) as nat, row);
        let (mid, r) = db.fill_columns(t, schema, (n - 1) as nat, row);
        match r {
            Ok(filled) => {
                let col = schema.columns[n - 1];
                lemma_fill_column_same_rows(mid, t, schema.table_name, col, filled);
                lemma_same_rows_through(
                    db,
                    mid,
                    mid.fill_column(t, schema.table_name, col, filled).0,
                );
            },
            Err(_) => {},
        }
    }
}

/// An insert changes no table but the one it is made into and that of sequences. Into the one it
/// is made into it puts the row that it returns, and where it is refused, nothing. That table is
/// not that of sequences here.
pub proof fn law_insert_changes_one_table(db: DbModel, t: u32, row: Row)
    requires
        db.inv(),
        db.tx is Some,
        t != ST_SEQUENCES_ID,
    ensures
        ({
            let (after, r) = db.insert_row(t, row);
            &&& forall|u: u32|
                u != t && u != ST_SEQUENCES_ID ==> #[trigger] after.visible(u) == db.visible(u)
            &&& after.visible(t) == match r {
                Ok(inserted) => db.visible(t).insert(row_key(inserted), inserted),
                Err(_) => db.visible(t),
            }
        }),
{
    let (after, r) = db.insert_row(t, row);
    match db.schema_for_table(t) {
        Ok(schema) => {
            let n = schema.columns.len();
            lemma_fill_same_rows(db, t, schema, n, row);
            let (mid, filled) = db.fill_columns(t, schema, n, row);
            match filled {
                Ok(filled) => {
                    if mid.insert_row_internal(t, filled).1 is Ok {
                        law_inserted_row_is_visible(mid, t, filled);
                    } else {
                        law_refused_row_changes_nothing_seen(mid, t, filled);
                    }
                    assert forall|u: u32| u != t && u != ST_SEQUENCES_ID implies
                        #[trigger] after.visible(u) == db.visible(u) by {
                        assert(mid.visible(u) == db.visible(u));
                    }
                    assert(mid.visible(t) == db.visible(t));
                },
                Err(_) => {},
            }
        },
        Err(_) => {},
    }
}

/// Where a unique index is on a column, an insert of a row with a value that a visible row has in
/// the column is refused, and the table stays as it was: for a violation of a unique constraint,
/// where the other columns could be filled. The value is not a zero in a column that fills itself,
/// and the table is not that of sequences.
pub proof fn law_duplicate_insert_is_refused(db: DbModel, t: u32, c: u32, row: Row, k: Key)
    requires
        db.inv(),
        db.tx is Some,
        t != ST_SEQUENCES_ID,
        db.has_unique(t, c),
        c < row.len(),
        is_zero(row[c as int]) ==> !fills_itself(
            db.schema(t)->0,
            db.schema(t)->0.columns.len(),
            c as int,
        ),
        db.visible(t).contains_key(k),
        holds(db.visible(t)[k], c, row[c as int]),
    ensures
        db.insert_row(t, row).1 is Err,
        db.insert_row(t, row).0.visible(t) == db.visible(t),
        db.insert_row(t, row).0.has_unique(t, c),
        db.fill_columns(t, db.schema(t)->0, db.schema(t)->0.columns.len(), row).1 is Ok
            ==> db.insert_row(t, row).1 matches Err(Fault::UniqueConstraintViolation { .. }),
{
    law_insert_changes_one_table(db, t, row);
    law_insert_keeps_tables(db, t, row);
    assert(db.insert_row(t, row).0.has_unique(t, c) == db.has_unique(t, c));
    let schema = db.schema(t)->0;
    assert(db.schema_for_table(t) == Ok::<SchemaModel, Fault>(schema));
    let n = schema.columns.len();
    lemma_fill_same_rows(db, t, schema, n, row);
    let (mid, filled) = db.fill_columns(t, schema, n, row);
    match filled {
        Ok(filled) => {
            lemma_fill_keeps_values(db, t, schema, n, row, c as int);
            assert(mid.visible(t) == db.visible(t));
            assert(mid.has_unique(t, c) == db.has_unique(t, c));
            law_duplicate_is_refused(mid, t, c, filled, k);
        },
        Err(_) => {},
    }
}

/// Where the values in a column are distinct, a seek for one of them yields at most one row.
pub proof fn law_seek_of_distinct_values_yields_one(db: DbModel, t: u32, c: u32, v: Value)
    requires
        db.inv(),
        db.tx is Some,
        db.table_exists(t),
        distinct_values(db.visible(t), c),
    ensures
        db.seek(t, c, v)->Ok_0.len() <= 1,
{
    law_seek_yields_matching_rows(db, t, c, v);
    let m = holding(db.visible(t), c, v);
    let rows = db.seek(t, c, v)->Ok_0;
    let ks = choose|ks: Seq<Key>| #[trigger]
        lists_once(ks, m.dom()) && rows == ks.map_values(|k: Key| m[k]);
    if rows.len() > 1 {
        assert(ks.to_set().contains(ks[0]) && ks.to_set().contains(ks[1]));
        assert(m.contains_key(ks[0]) && m.contains_key(ks[1]));
        assert(db.visible(t).contains_key(ks[0]) && db.visible(t).contains_key(ks[1]));
    }
}

/// A table whose name is taken is not made, where a unique index is on the names.
pub proof fn law_table_name_is_taken_once(db: DbModel, def: TableDefModel, k: Key)
    requires
        db.inv(),
        db.tx is Some,
        db.has_unique(ST_TABLES_ID, 1),
        db.visible(ST_TABLES_ID).contains_key(k),
        holds(db.visible(ST_TABLES_ID)[k], 1, Value::String(def.table_name)),
    ensures
        db.create_table(def).1 is Err,
        db.create_table(def).0.visible(ST_TABLES_ID) == db.visible(ST_TABLES_ID),
{
    let row = TableRowModel { table_id: 0, table_name: def.table_name }.row();
    law_duplicate_insert_is_refused(db, ST_TABLES_ID, 1, row, k);
}

pub proof fn lemma_nothing_to_fill(
    db: DbModel,
    t: u32,
    schema: SchemaModel,
    n: nat,
    row: Row,
)
    requires
        forall|i: int|
            0 <= i < n && (#[trigger] schema.columns[i]).is_autoinc && schema.columns[i].col_id
                < row.len() ==> !is_zero(row[schema.columns[i].col_id as int]),
    ensures
        db.fill_columns(t, schema, n, row) == (db, Ok::<Row, Fault>(row)),
    decreases n,
{
    if n > 0 {
        lemma_nothing_to_fill(db, t, schema, (n - 1) as nat, row);
        assert(db.fill_column(t, schema.table_name, schema.columns[n - 1], row) == (
            db,
            Ok::<Row, Fault>(row),
        ));
    }
}

} // verus!
