//! What every operation keeps: the datastore stays in order.

use vstd::prelude::*;

use crate::btree_index::{column_of, one_row_per_value, IndexModel};
use crate::data_key::{row_key, Key};
use crate::error::Fault;
use crate::laws::law_committed_rows_are_seen_next;
use crate::model::{holds, merge_deletes, new_table, DbModel, TxModel};
use crate::schema::{IndexSchemaModel, SchemaModel};
use crate::table::{
    lemma_delete_inv, lemma_delete_unique, lemma_emptied_inv, lemma_insert_inv,
    lemma_insert_unique, lemma_without_indexes_inv, lemma_without_none, TableModel,
};
use crate::types::RowType;
use crate::value::{canonical, Row};

verus! {

/// Another part of a table keeps the transaction in order, where nothing in it is deleted.
pub proof fn lemma_set_insert_table(tx: TxModel, t: u32, table: TableModel)
    requires
        tx.inv(),
        table.inv(),
        table.unique(),
        forall|k: Key| #[trigger] table.rows.contains_key(k) ==> !tx.deleted(t).contains(k),
    ensures
        (TxModel { inserts: tx.inserts.insert(t, table), ..tx }).inv(),
{
    let n = TxModel { inserts: tx.inserts.insert(t, table), ..tx };
    assert forall|u: u32, k: Key|
        #![trigger n.fresh(u).contains_key(k)]
        n.fresh(u).contains_key(k) implies !n.deleted(u).contains(k) by {
        if u != t {
            assert(tx.fresh(u).contains_key(k));
        }
    }
}

/// What the transaction shows of the other tables when its part of one changes.
pub proof fn lemma_other_tables_seen(db: DbModel, t: u32, tx: TxModel)
    requires
        forall|u: u32| u != t ==> #[trigger] tx.fresh(u) == db.fresh(u),
        forall|u: u32| u != t ==> #[trigger] tx.deleted(u) == db.deleted(u),
        forall|u: u32|
            u != t ==> (#[trigger] tx.dropped.contains(u) <==> db.tx->0.dropped.contains(u)),
    ensures
        forall|u: u32| u != t ==> #[trigger] db.with_tx(tx).visible(u) == db.visible(u),
{
    let n = db.with_tx(tx);
    assert forall|u: u32| u != t implies #[trigger] n.visible(u) == db.visible(u) by {
        assert(tx.fresh(u) == db.fresh(u));
        assert(tx.deleted(u) == db.deleted(u));
        assert(tx.dropped.contains(u) <==> db.tx->0.dropped.contains(u));
        assert(n.visible(u) =~= db.visible(u));
    }
}

/// What the transaction shows stays in order when only table `t` changes, and that stays so.
pub proof fn lemma_others_in_order(db: DbModel, n: DbModel, t: u32)
    requires
        db.seen_in_order(),
        n.committed == db.committed,
        n.tx->0.dropped_indexes == db.tx->0.dropped_indexes,
        forall|u: u32| u != t ==> #[trigger] n.visible(u) == db.visible(u),
        forall|u: u32| u != t ==> #[trigger] n.has_inserts(u) == db.has_inserts(u),
        forall|u: u32| u != t ==> #[trigger] n.has_base(u) == db.has_base(u),
        forall|u: u32| u != t && db.has_inserts(u) ==> #[trigger] n.inserts(u) == db.inserts(u),
        n.has_inserts(t) ==> n.inserts(t).holds_only(n.visible(t)) && n.indexed(t),
        forall|c: u32| #[trigger]
            n.has_unique(t, c) ==> one_row_per_value(column_of(n.visible(t), c)),
    ensures
        n.seen_in_order(),
{
    assert forall|u: u32| #[trigger] n.has_inserts(u) implies n.inserts(u).holds_only(n.visible(u))
        && n.indexed(u) by {
        if u != t {
            assert(n.visible(u) == db.visible(u));
            assert(db.has_inserts(u) == n.has_inserts(u));
            assert(n.inserts(u) == db.inserts(u));
            assert(n.has_base(u) == db.has_base(u));
            assert(n.base(u) == db.base(u));
            assert(db.indexed(u));
        }
    }
    assert forall|u: u32, c: u32| #[trigger] n.has_unique(u, c) implies one_row_per_value(
        column_of(n.visible(u), c),
    ) by {
        if u != t {
            assert(n.visible(u) == db.visible(u));
            assert(db.has_inserts(u) == n.has_inserts(u));
            assert(n.has_inserts(u) ==> n.inserts(u) == db.inserts(u));
            assert(n.has_base(u) == db.has_base(u));
            assert(n.base(u) == db.base(u));
            assert(db.has_unique(u, c));
        }
    }
}

/// What is shown alike is in order alike.
pub proof fn lemma_same_seen_in_order(a: DbModel, b: DbModel)
    requires
        a.seen_in_order(),
        b.committed == a.committed,
        b.tx->0.inserts == a.tx->0.inserts,
        b.tx->0.deletes == a.tx->0.deletes,
        b.tx->0.dropped == a.tx->0.dropped,
        b.tx->0.dropped_indexes == a.tx->0.dropped_indexes,
    ensures
        b.seen_in_order(),
        forall|u: u32| #[trigger] b.visible(u) == a.visible(u),
{
    assert forall|u: u32| #[trigger] b.visible(u) == a.visible(u) by {
        assert(b.visible(u) =~= a.visible(u));
    }
    assert forall|u: u32| #[trigger] b.has_inserts(u) implies b.inserts(u).holds_only(b.visible(u))
        && b.indexed(u) by {
        assert(a.has_inserts(u));
        assert(b.visible(u) == a.visible(u));
        assert(b.base(u) == a.base(u));
        assert(a.indexed(u));
    }
    assert forall|u: u32, c: u32| #[trigger] b.has_unique(u, c) implies one_row_per_value(
        column_of(b.visible(u), c),
    ) by {
        assert(a.has_unique(u, c));
        assert(b.visible(u) == a.visible(u));
    }
}

/// Another part of a table keeps the datastore in order, where it is in order with what is then
/// seen.
pub proof fn lemma_part_inv(db: DbModel, t: u32, table: TableModel)
    requires
        db.inv(),
        db.tx is Some,
        table.inv(),
        table.unique(),
        forall|k: Key| #[trigger] table.rows.contains_key(k) ==> !db.deleted(t).contains(k),
        table.holds_only(db.with_inserts(t, table).visible(t)),
        db.with_inserts(t, table).indexed(t),
        forall|c: u32| #[trigger]
            db.with_inserts(t, table).has_unique(t, c) ==> one_row_per_value(
                column_of(db.with_inserts(t, table).visible(t), c),
            ),
    ensures
        db.with_inserts(t, table).inv(),
        forall|u: u32| u != t ==> #[trigger] db.with_inserts(t, table).visible(u) == db.visible(u),
{
    let n = db.with_inserts(t, table);
    lemma_set_insert_table(db.tx->0, t, table);
    lemma_other_tables_seen(db, t, n.tx->0);
    lemma_others_in_order(db, n, t);
}

/// A table that was not there, with neither rows nor indexes, keeps the datastore in order.
pub proof fn lemma_new_table_inv(db: DbModel, t: u32, row_type: RowType, schema: SchemaModel)
    requires
        db.inv(),
        db.tx is Some,
        !db.table_exists(t),
    ensures
        db.with_inserts(t, new_table(row_type, schema)).inv(),
        forall|u: u32| #[trigger]
            db.with_inserts(t, new_table(row_type, schema)).visible(u) == db.visible(u),
{
    let n = db.with_inserts(t, new_table(row_type, schema));
    assert(n.visible(t) =~= db.visible(t));
    lemma_part_inv(db, t, new_table(row_type, schema));
}

/// What is left of a committed table is in order.
pub proof fn lemma_base_inv(db: DbModel, t: u32)
    requires
        db.inv(),
        db.has_base(t),
    ensures
        db.base(t).inv(),
        db.base(t).exact(),
{
    assert(db.committed.contains_key(t));
    lemma_without_indexes_inv(db.committed[t], db.tx->0.dropped_indexes);
}

/// A row that is seen stands under its key.
pub proof fn lemma_seen_under_key(db: DbModel, t: u32, k: Key)
    requires
        db.inv(),
        db.tx is Some,
        db.visible(t).contains_key(k),
    ensures
        row_key(db.visible(t)[k]) == k,
{
    if db.fresh(t).contains_key(k) {
        assert(db.inserts(t).inv());
    } else {
        assert(db.committed[t].inv());
    }
}

/// To give the transaction its own part of a table changes nothing that is seen, and keeps the
/// datastore in order.
pub proof fn lemma_insert_table_inv(db: DbModel, t: u32)
    requires
        db.inv(),
        db.tx is Some,
        db.table_exists(t),
    ensures
        db.with_insert_table(t).inv(),
{
    if !db.has_inserts(t) {
        lemma_base_inv(db, t);
        lemma_emptied_inv(db.base(t));
        let n = db.with_inserts(t, db.base(t).emptied());
        assert(n.base(t) == db.base(t));
        assert(n.visible(t) =~= db.visible(t));
        assert forall|c: u32| #[trigger] n.has_unique(t, c) implies one_row_per_value(
            column_of(n.visible(t), c),
        ) by {
            assert(db.has_unique(t, c));
        }
        lemma_part_inv(db, t, db.base(t).emptied());
    }
}

/// A row inserted keeps the datastore in order.
pub proof fn lemma_put_row_inv(db: DbModel, t: u32, row: Row)
    requires
        db.inv(),
        db.tx is Some,
        db.has_inserts(t),
        db.refusal(t, row) is None,
    ensures
        db.put_row(t, row).inv(),
        db.put_row(t, row).visible(t) == db.visible(t).insert(row_key(row), row),
        forall|u: u32| u != t ==> #[trigger] db.put_row(t, row).visible(u) == db.visible(u),
{
    let tx = db.tx->0;
    let after = db.put_row(t, row);
    let n = after.tx->0;
    let k = row_key(row);
    lemma_insert_inv(tx.inserts[t], k, row);
    lemma_insert_unique(tx.inserts[t], k, row);
    assert forall|u: u32, k: Key|
        #![trigger n.fresh(u).contains_key(k)]
        n.fresh(u).contains_key(k) implies !n.deleted(u).contains(k) by {
        assert(k == row_key(row) && u == t || tx.fresh(u).contains_key(k));
    }
    assert(after.visible(t) =~= db.visible(t).insert(k, row));
    assert forall|u: u32| u != t implies #[trigger] after.visible(u) == db.visible(u) by {
        assert(after.visible(u) =~= db.visible(u));
    }
    let a = db.inserts(t);
    let b = after.inserts(t);
    assert(db.has_inserts(t));
    assert forall|c: u32, j: Key|
        #![trigger b.indexes[c].entries.contains_key(j)]
        b.indexes.contains_key(c) && b.indexes[c].entries.contains_key(j) implies {
        &&& after.visible(t).contains_key(j)
        &&& c < after.visible(t)[j].len()
        &&& b.indexes[c].entries[j] == canonical(after.visible(t)[j][c as int])
    } by {
        assert(a.indexes.contains_key(c));
        if j != k {
            assert(a.indexes[c].entries.contains_key(j));
        }
    }
    assert(after.base(t) == db.base(t));
    assert(db.indexed(t));
    assert(after.indexed(t)) by {
        assert forall|c: u32|
            after.has_base(t) && #[trigger] after.base(t).indexes.contains_key(c) implies {
            &&& b.indexes.contains_key(c)
            &&& b.indexes[c].is_unique == after.base(t).indexes[c].is_unique
            &&& b.indexes[c].index_id == after.base(t).indexes[c].index_id
        } by {
            assert(db.base(t).indexes.contains_key(c));
        }
        assert forall|c: u32| #[trigger]
            b.indexes.contains_key(c) && !(after.has_base(t) && after.base(
                t,
            ).indexes.contains_key(c)) implies b.indexes[c].entries == column_of(
            after.visible(t),
            c,
        ) by {
            assert(a.indexes.contains_key(c));
            assert(a.indexes[c].col_id == c);
            assert(b.indexes[c].entries =~= column_of(after.visible(t), c));
        }
    }
    assert forall|c: u32| #[trigger] after.has_unique(t, c) implies one_row_per_value(
        column_of(after.visible(t), c),
    ) by {
        assert(db.has_unique(t, c));
        lemma_put_row_unique(db, t, row, c);
    }
    lemma_others_in_order(db, after, t);
    assert(after.blobs_under_keys());
}

/// Where a row is not refused, no row that is seen holds its value in the column of a unique index,
/// but the one that it takes the place of.
proof fn lemma_put_row_unique(db: DbModel, t: u32, row: Row, c: u32)
    requires
        db.inv(),
        db.tx is Some,
        db.has_inserts(t),
        db.refusal(t, row) is None,
        db.has_unique(t, c),
    ensures
        one_row_per_value(column_of(db.visible(t).insert(row_key(row), row), c)),
{
    let k = row_key(row);
    let seen = db.visible(t);
    let e = column_of(seen, c);
    let n = column_of(seen.insert(k, row), c);
    assert forall|i: Key, j: Key|
        #![trigger n.contains_key(i), n.contains_key(j)]
        n.contains_key(i) && n.contains_key(j) && i != j implies n[i] != n[j] by {
        if i != k && j != k {
            assert(e.contains_key(i) && e.contains_key(j));
        } else {
            let other = if i == k { j } else { i };
            assert(c < row.len());
            if canonical(seen[other][c as int]) == canonical(row[c as int]) {
                law_agreeing_row_is_refused(db, t, row, c, other);
            }
        }
    }
}

/// Where there is a conflict, some conflict is the first.
pub proof fn lemma_conflict_is_found(t: TableModel, row: Row, gone: Set<Key>, c: u32)
    requires
        t.conflict_at(c, row, gone),
    ensures
        t.first_conflict(row, gone) is Some,
{
    reveal(TableModel::first_conflict);
}

/// A row that agrees with one that is seen in the column of a unique index is refused.
pub proof fn law_agreeing_row_is_refused(db: DbModel, t: u32, row: Row, c: u32, k: Key)
    requires
        db.inv(),
        db.tx is Some,
        db.has_inserts(t),
        db.has_unique(t, c),
        db.visible(t).contains_key(k),
        holds(db.visible(t)[k], c, row[c as int]),
        c < row.len(),
    ensures
        db.refusal(t, row) matches Some(Fault::UniqueConstraintViolation { .. }),
{
    let part = db.inserts(t);
    assert(db.indexed(t));
    assert(db.tx->0.inserts.contains_key(t));
    assert(part.inv());
    let based = db.has_base(t) && db.base(t).indexes.contains_key(c);
    assert(part.indexes.contains_key(c) && part.indexes[c].is_unique);
    if db.fresh(t).contains_key(k) || !based {
        let index = part.indexes[c];
        if db.fresh(t).contains_key(k) {
            assert(index.covers(part.rows));
            assert(part.rows.contains_key(k));
        } else {
            assert(index.entries == column_of(db.visible(t), c));
        }
        assert(index.holding(row[c as int]).contains(k));
        assert(!Set::<Key>::empty().contains(k));
        lemma_conflict_is_found(part, row, Set::empty(), c);
    } else {
        let table = db.base(t);
        let index = table.indexes[c];
        lemma_base_inv(db, t);
        assert(index.covers(table.rows));
        assert(table.rows.contains_key(k));
        assert(index.holding(row[c as int]).contains(k));
        assert(!db.replaced(t).contains(k));
        lemma_conflict_is_found(table, row, db.replaced(t), c);
    }
}

/// A row deleted keeps the datastore in order.
pub proof fn lemma_delete_row_inv(db: DbModel, t: u32, k: Key)
    requires
        db.inv(),
        db.tx is Some,
    ensures
        db.delete_row(t, k).0.inv(),
        db.delete_row(t, k).0.visible(t) == db.visible(t).remove(k),
        forall|u: u32| u != t ==> #[trigger] db.delete_row(t, k).0.visible(u) == db.visible(u),
{
    let tx = db.tx->0;
    let after = db.delete_row(t, k).0;
    let n = after.tx->0;
    if db.has_inserts(t) {
        lemma_delete_inv(tx.inserts[t], set![k]);
        lemma_delete_unique(tx.inserts[t], set![k]);
    }
    assert forall|u: u32, j: Key|
        #![trigger n.fresh(u).contains_key(j)]
        n.fresh(u).contains_key(j) implies !n.deleted(u).contains(j) by {
        assert(tx.fresh(u).contains_key(j));
    }
    assert(after.visible(t) =~= db.visible(t).remove(k));
    assert forall|u: u32| u != t implies #[trigger] after.visible(u) == db.visible(u) by {
        assert(after.visible(u) =~= db.visible(u));
    }
    let a = db.inserts(t);
    let b = after.inserts(t);
    if db.has_inserts(t) && db.contains_row(t, k) {
        assert forall|c: u32, j: Key|
            #![trigger b.indexes[c].entries.contains_key(j)]
            b.indexes.contains_key(c) && b.indexes[c].entries.contains_key(j) implies {
            &&& after.visible(t).contains_key(j)
            &&& c < after.visible(t)[j].len()
            &&& b.indexes[c].entries[j] == canonical(after.visible(t)[j][c as int])
        } by {
            assert(a.indexes.contains_key(c));
            assert(a.indexes[c].entries.contains_key(j));
            assert(j != k);
        }
        assert(after.base(t) == db.base(t));
        assert(db.indexed(t));
        assert forall|c: u32|
            after.has_base(t) && #[trigger] after.base(t).indexes.contains_key(c) implies {
            &&& b.indexes.contains_key(c)
            &&& b.indexes[c].is_unique == after.base(t).indexes[c].is_unique
            &&& b.indexes[c].index_id == after.base(t).indexes[c].index_id
        } by {
            assert(db.base(t).indexes.contains_key(c));
        }
        assert forall|c: u32| #[trigger]
            b.indexes.contains_key(c) && !(after.has_base(t) && after.base(
                t,
            ).indexes.contains_key(c)) implies b.indexes[c].entries == column_of(
            after.visible(t),
            c,
        ) by {
            assert(a.indexes.contains_key(c));
            assert(b.indexes[c].entries =~= column_of(after.visible(t), c));
        }
    }
    assert forall|c: u32| #[trigger] after.has_unique(t, c) implies one_row_per_value(
        column_of(after.visible(t), c),
    ) by {
        assert(after.base(t) == db.base(t));
        assert(db.has_unique(t, c));
        let e = column_of(db.visible(t), c);
        let n = column_of(after.visible(t), c);
        assert forall|i: Key, j: Key|
            #![trigger n.contains_key(i), n.contains_key(j)]
            n.contains_key(i) && n.contains_key(j) && i != j implies n[i] != n[j] by {
            assert(e.contains_key(i) && e.contains_key(j));
        }
    }
    if db.contains_row(t, k) {
        lemma_others_in_order(db, after, t);
    }
}

/// An index over the rows that are seen keeps the datastore in order.
pub proof fn lemma_set_index_inv(
    db: DbModel,
    t: u32,
    index: IndexModel,
    schema: IndexSchemaModel,
)
    requires
        db.inv(),
        db.tx is Some,
        db.has_inserts(t),
        !db.has_index(t, index.col_id),
        index.entries == column_of(db.visible(t), index.col_id),
        index.is_unique ==> one_row_per_value(index.entries),
    ensures
        db.with_inserts(t, db.inserts(t).set_index(index, schema)).inv(),
        forall|u: u32| #[trigger]
            db.with_inserts(t, db.inserts(t).set_index(index, schema)).visible(u) == db.visible(u),
{
    let a = db.inserts(t);
    let b = a.set_index(index, schema);
    let after = db.with_inserts(t, b);
    assert(db.tx->0.inserts.contains_key(t));
    assert forall|k: Key| #[trigger] b.rows.contains_key(k) implies !db.deleted(t).contains(k) by {
        assert(db.fresh(t).contains_key(k));
    }
    assert(after.fresh(t) =~= db.fresh(t));
    assert(after.visible(t) =~= db.visible(t));
    assert forall|k: Key|
        #![trigger b.rows.contains_key(k)]
        b.rows.contains_key(k) && index.col_id < b.rows[k].len() implies {
        &&& index.entries.contains_key(k)
        &&& index.entries[k] == canonical(b.rows[k][index.col_id as int])
    } by {
        assert(db.fresh(t).contains_key(k));
        assert(db.visible(t).contains_key(k));
    }
    assert(index.covers(b.rows));
    assert forall|c: u32| #[trigger] b.indexes.contains_key(c) implies b.indexes[c].col_id == c
        && b.indexes[c].covers(b.rows) by {
        if c != index.col_id {
            assert(a.indexes.contains_key(c));
        }
    }
    assert forall|c: u32| #[trigger]
        b.indexes.contains_key(c) && b.indexes[c].is_unique implies one_row_per_value(
        b.indexes[c].entries,
    ) by {
        if c != index.col_id {
            assert(a.indexes.contains_key(c));
        }
    }
    assert forall|c: u32, j: Key|
        #![trigger b.indexes[c].entries.contains_key(j)]
        b.indexes.contains_key(c) && b.indexes[c].entries.contains_key(j) implies {
        &&& after.visible(t).contains_key(j)
        &&& c < after.visible(t)[j].len()
        &&& b.indexes[c].entries[j] == canonical(after.visible(t)[j][c as int])
    } by {
        if c != index.col_id {
            assert(a.indexes.contains_key(c));
            assert(a.indexes[c].entries.contains_key(j));
        }
    }
    assert(after.base(t) == db.base(t));
    assert(db.indexed(t));
    assert forall|c: u32|
        after.has_base(t) && #[trigger] after.base(t).indexes.contains_key(c) implies {
        &&& b.indexes.contains_key(c)
        &&& b.indexes[c].is_unique == after.base(t).indexes[c].is_unique
        &&& b.indexes[c].index_id == after.base(t).indexes[c].index_id
    } by {
        assert(db.base(t).indexes.contains_key(c));
    }
    assert forall|c: u32| #[trigger]
        b.indexes.contains_key(c) && !(after.has_base(t) && after.base(t).indexes.contains_key(
            c,
        )) implies b.indexes[c].entries == column_of(after.visible(t), c) by {
        if c != index.col_id {
            assert(a.indexes.contains_key(c));
        }
    }
    assert forall|c: u32| #[trigger] after.has_unique(t, c) implies one_row_per_value(
        column_of(after.visible(t), c),
    ) by {
        if c != index.col_id {
            assert(db.has_unique(t, c));
        }
    }
    lemma_part_inv(db, t, b);
}

/// An index less keeps the datastore in order.
pub proof fn lemma_drop_index_inv(db: DbModel, index_id: u32)
    requires
        db.inv(),
        db.tx is Some,
    ensures
        db.drop_index_internal(index_id).inv(),
        forall|u: u32| #[trigger] db.drop_index_internal(index_id).visible(u) == db.visible(u),
{
    let after = db.drop_index_internal(index_id);
    let x = db.tx->0;
    let y = after.tx->0;
    assert(y.inserts.dom() =~= x.inserts.dom());
    assert forall|u: u32| #[trigger] y.fresh(u) == x.fresh(u) by {}
    assert forall|u: u32| #[trigger] after.visible(u) == db.visible(u) by {
        assert(y.fresh(u) == x.fresh(u));
        assert(after.visible(u) =~= db.visible(u));
    }
    assert forall|u: u32, k: Key|
        #![trigger y.fresh(u).contains_key(k)]
        y.fresh(u).contains_key(k) implies !y.deleted(u).contains(k) by {
        assert(x.fresh(u).contains_key(k));
    }
    assert forall|u: u32| #[trigger] y.inserts.contains_key(u) implies y.inserts[u].inv()
        && y.inserts[u].unique() by {
        let a = x.inserts[u];
        let b = y.inserts[u];
        assert(x.inserts.contains_key(u));
        assert forall|c: u32| #[trigger] b.indexes.contains_key(c) implies b.indexes[c].col_id
            == c && b.indexes[c].covers(b.rows) by {
            assert(a.indexes.contains_key(c));
        }
        assert forall|c: u32| #[trigger]
            b.indexes.contains_key(c) && b.indexes[c].is_unique implies one_row_per_value(
            b.indexes[c].entries,
        ) by {
            assert(a.indexes.contains_key(c));
        }
    }
    assert forall|u: u32| #[trigger] after.has_inserts(u) implies after.inserts(u).holds_only(
        after.visible(u),
    ) && after.indexed(u) by {
        assert(db.has_inserts(u));
        assert(db.indexed(u));
        let a = db.inserts(u);
        let b = after.inserts(u);
        assert(after.visible(u) == db.visible(u));
        assert forall|c: u32, j: Key|
            #![trigger b.indexes[c].entries.contains_key(j)]
            b.indexes.contains_key(c) && b.indexes[c].entries.contains_key(j) implies {
            &&& after.visible(u).contains_key(j)
            &&& c < after.visible(u)[j].len()
            &&& b.indexes[c].entries[j] == canonical(after.visible(u)[j][c as int])
        } by {
            assert(a.indexes.contains_key(c));
            assert(a.indexes[c].entries.contains_key(j));
        }
        assert forall|c: u32|
            after.has_base(u) && #[trigger] after.base(u).indexes.contains_key(c) implies {
            &&& b.indexes.contains_key(c)
            &&& b.indexes[c].is_unique == after.base(u).indexes[c].is_unique
            &&& b.indexes[c].index_id == after.base(u).indexes[c].index_id
        } by {
            assert(db.base(u).indexes.contains_key(c));
        }
        assert forall|c: u32| #[trigger]
            b.indexes.contains_key(c) && !(after.has_base(u) && after.base(
                u,
            ).indexes.contains_key(c)) implies b.indexes[c].entries == column_of(
            after.visible(u),
            c,
        ) by {
            assert(a.indexes.contains_key(c));
            assert(a.indexes[c].index_id != index_id);
            if db.has_base(u) && db.base(u).indexes.contains_key(c) {
                assert(db.base(u).indexes[c].index_id != index_id);
                assert(after.base(u).indexes.contains_key(c));
            }
        }
    }
    assert forall|u: u32, c: u32| #[trigger] after.has_unique(u, c) implies one_row_per_value(
        column_of(after.visible(u), c),
    ) by {
        assert(after.visible(u) == db.visible(u));
        if after.has_inserts(u) && after.inserts(u).indexes.contains_key(c) {
            assert(db.inserts(u).indexes.contains_key(c));
        }
        if after.has_base(u) && after.base(u).indexes.contains_key(c) {
            assert(db.base(u).indexes.contains_key(c));
        }
        assert(db.has_unique(u, c));
    }
}

/// A state with the same tables in the transaction, and the same rows, is in order.
pub proof fn lemma_same_rows_inv(a: DbModel, b: DbModel)
    requires
        a.inv(),
        a.tx is Some,
        b.tx is Some,
        b.committed == a.committed,
        b.blobs == a.blobs,
        b.tx->0.inserts == a.tx->0.inserts,
        b.tx->0.deletes == a.tx->0.deletes,
        b.tx->0.dropped == a.tx->0.dropped,
        b.tx->0.dropped_indexes == a.tx->0.dropped_indexes,
    ensures
        b.inv(),
        forall|u: u32| #[trigger] b.visible(u) == a.visible(u),
{
    lemma_same_seen_in_order(a, b);
    let x = a.tx->0;
    let y = b.tx->0;
    assert forall|u: u32, k: Key|
        #![trigger y.fresh(u).contains_key(k)]
        y.fresh(u).contains_key(k) implies !y.deleted(u).contains(k) by {
        assert(x.fresh(u).contains_key(k));
    }
}

/// A table less keeps the datastore in order. The others are as they were.
pub proof fn lemma_without_table_inv(db: DbModel, t: u32)
    requires
        db.inv(),
        db.tx is Some,
    ensures
        db.without_table(t).inv(),
        db.without_table(t).visible(t) == Map::<Key, Row>::empty(),
        forall|u: u32| u != t ==> #[trigger] db.without_table(t).visible(u) == db.visible(u),
{
    let after = db.without_table(t);
    let x = db.tx->0;
    let y = after.tx->0;
    assert forall|u: u32, k: Key|
        #![trigger y.fresh(u).contains_key(k)]
        y.fresh(u).contains_key(k) implies !y.deleted(u).contains(k) by {
        assert(x.fresh(u).contains_key(k));
    }
    assert forall|u: u32| u != t implies #[trigger] after.visible(u) == db.visible(u) by {
        assert(after.visible(u) =~= db.visible(u));
    }
    assert(after.visible(t) =~= Map::<Key, Row>::empty());
    lemma_others_in_order(db, after, t);
}

/// What a commit leaves is in order: the committed tables, and that no two of their rows hold the
/// same value where a unique index is.
pub proof fn lemma_commit_inv(db: DbModel)
    requires
        db.inv(),
        db.tx is Some,
    ensures
        db.commit().inv(),
{
    let tx = db.tx->0;
    let n = db.commit();
    let left = tx.left_of(db.committed);
    assert(left.dom().subset_of(db.committed.dom()));
    vstd::set_lib::lemma_len_subset(left.dom(), db.committed.dom());
    assert(n.committed.dom() =~= left.dom().union(tx.inserts.dom()));
    assert forall|t: u32| #[trigger] n.committed.contains_key(t) implies n.committed[t].inv()
        && n.committed[t].exact() && n.committed[t].unique() by {
        lemma_merged_in_order(db, t);
    }
}

proof fn lemma_merged_in_order(db: DbModel, t: u32)
    requires
        db.inv(),
        db.tx is Some,
        db.commit().committed.contains_key(t),
    ensures
        db.commit().committed[t].inv(),
        db.commit().committed[t].exact(),
        db.commit().committed[t].unique(),
{
    let tx = db.tx->0;
    let m = db.commit().committed[t];
    let left = merge_deletes(tx.left_of(db.committed), tx.deletes);
    law_committed_rows_are_seen_next(db, t);
    let next = db.commit().begin();
    assert(next.fresh(t) =~= Map::<Key, Row>::empty());
    assert(next.visible(t) =~= m.rows);
    assert forall|k: Key| #[trigger] m.rows.contains_key(k) implies row_key(m.rows[k]) == k by {
        assert(db.visible(t).contains_key(k));
        lemma_seen_under_key(db, t, k);
    }
    if db.has_base(t) {
        lemma_base_inv(db, t);
    }
    if db.has_inserts(t) {
        assert(tx.inserts.contains_key(t));
        assert(tx.inserts[t].inv());
    }
    let all = db.stored(t).dom().union(db.fresh(t).dom());
    assert(all.finite());
    assert(m.rows.dom().subset_of(all)) by {
        assert forall|k: Key| m.rows.contains_key(k) implies all.contains(k) by {
            assert(db.visible(t).contains_key(k));
        }
    }
    vstd::set_lib::lemma_len_subset(m.rows.dom(), all);
    assert forall|c: u32| #[trigger] m.indexes.contains_key(c) implies {
        &&& m.indexes[c].col_id == c
        &&& m.indexes[c].entries == column_of(m.rows, c)
        &&& m.indexes[c].is_unique ==> db.has_unique(t, c)
    } by {
        if left.contains_key(t) && left[t].indexes.contains_key(c) {
            assert(db.base(t).indexes.contains_key(c));
            assert(db.base(t).indexes[c].entries == column_of(db.base(t).rows, c));
        } else {
            assert(db.inserts(t).indexes.contains_key(c));
        }
        assert(m.indexes[c].entries =~= column_of(m.rows, c));
    }
    assert forall|c: u32| #[trigger]
        m.indexes.contains_key(c) && m.indexes[c].is_unique implies one_row_per_value(
        m.indexes[c].entries,
    ) by {
        assert(db.has_unique(t, c));
    }
    assert forall|c: u32| #[trigger] m.indexes.contains_key(c) implies m.indexes[c].col_id == c
        && m.indexes[c].covers(m.rows) by {
        assert(m.indexes[c].entries == column_of(m.rows, c));
    }
}

/// What a rollback leaves is in order.
pub proof fn lemma_rollback_inv(db: DbModel)
    requires
        db.inv(),
    ensures
        db.rollback().inv(),
{
}

/// A transaction that has just begun is in order.
pub proof fn lemma_begin_inv(db: DbModel)
    requires
        db.inv(),
        db.tx is None,
    ensures
        db.begin().inv(),
{
    assert forall|u: u32, k: Key|
        #![trigger db.begin().tx->0.fresh(u).contains_key(k)]
        db.begin().tx->0.fresh(u).contains_key(k) implies !db.begin().tx->0.deleted(u).contains(
        k,
    ) by {}
    let n = db.begin();
    assert forall|u: u32, c: u32| #[trigger] n.has_unique(u, c) implies one_row_per_value(
        column_of(n.visible(u), c),
    ) by {
        assert(db.committed.contains_key(u));
        lemma_base_inv(n, u);
        lemma_without_none(db.committed[u]);
        assert(db.committed[u].indexes.contains_key(c));
        assert(n.visible(u) =~= db.committed[u].rows);
        assert(db.committed[u].indexes[c].entries == column_of(db.committed[u].rows, c));
    }
}

} // verus!
