//! What holds of tables that are dropped.

use vstd::prelude::*;

use crate::data_key::{row_key, Key};
use crate::error::Fault;
use crate::ids::{ST_COLUMNS_ID, ST_INDEXES_ID, ST_SEQUENCES_ID, ST_TABLES_ID};
use crate::laws::{
    law_deleted_rows_are_gone, law_seek_yields_matching_rows, lemma_each_once_contains,
};
use crate::model::{holding, holds, merge_deletes, DbModel};
use crate::schema::IndexSchemaModel;
use crate::sequence::SequenceModel;
use crate::soundness::{
    lemma_delete_row_inv, lemma_drop_index_inv, lemma_same_rows_inv, lemma_seen_under_key,
    lemma_without_table_inv,
};
use crate::value::{Row, Value};

verus! {

/// Table `t` is one of the system tables.
pub open spec fn is_system_table(t: u32) -> bool {
    t == ST_TABLES_ID || t == ST_COLUMNS_ID || t == ST_SEQUENCES_ID || t == ST_INDEXES_ID
}

/// `b` has what `a` has but for some rows of the system tables, and for what the transaction
/// dropped. What is committed, the sequences and the bytes are the same.
pub open spec fn fewer_listed(a: DbModel, b: DbModel) -> bool {
    &&& b.tx is Some
    &&& b.committed == a.committed
    &&& b.sequences == a.sequences
    &&& b.blobs == a.blobs
    &&& b.tx->0.made_sequences == a.tx->0.made_sequences
    &&& b.tx->0.refilled_sequences == a.tx->0.refilled_sequences
    &&& forall|s: u32| #[trigger] b.in_use(s) ==> a.in_use(s)
    &&& forall|u: u32| #[trigger] b.table_exists(u) == a.table_exists(u)
    &&& forall|u: u32| #[trigger] b.row_type(u) == a.row_type(u)
    &&& a.inv() ==> {
        &&& b.inv()
        &&& forall|u: u32, k: Key|
            #![trigger b.visible(u).contains_key(k)]
            b.visible(u).contains_key(k) ==> a.visible(u).contains_key(k) && b.visible(u)[k]
                == a.visible(u)[k]
        &&& forall|u: u32| !is_system_table(u) ==> #[trigger] b.visible(u) == a.visible(u)
    }
}

pub proof fn lemma_fewer_through(a: DbModel, b: DbModel, c: DbModel)
    requires
        fewer_listed(a, b),
        fewer_listed(b, c),
    ensures
        fewer_listed(a, c),
{
    assert forall|s: u32| #[trigger] c.in_use(s) implies a.in_use(s) by {
        assert(b.in_use(s));
    }
    assert forall|u: u32| #[trigger] c.table_exists(u) == a.table_exists(u) by {
        assert(b.table_exists(u) == a.table_exists(u));
    }
    assert forall|u: u32| #[trigger] c.row_type(u) == a.row_type(u) by {
        assert(b.row_type(u) == a.row_type(u));
    }
    if a.inv() {
        assert forall|u: u32, k: Key|
            #![trigger c.visible(u).contains_key(k)]
            c.visible(u).contains_key(k) implies a.visible(u).contains_key(k) && c.visible(u)[k]
            == a.visible(u)[k] by {
            assert(b.visible(u).contains_key(k));
        }
        assert forall|u: u32| !is_system_table(u) implies #[trigger] c.visible(u)
            == a.visible(u) by {
            assert(b.visible(u) == a.visible(u));
        }
    }
}

proof fn lemma_delete_row_fewer(db: DbModel, st: u32, k: Key)
    requires
        db.tx is Some,
        is_system_table(st),
    ensures
        fewer_listed(db, db.delete_row(st, k).0),
{
    if db.inv() {
        lemma_delete_row_inv(db, st, k);
        let b = db.delete_row(st, k).0;
        assert forall|u: u32, j: Key|
            #![trigger b.visible(u).contains_key(j)]
            b.visible(u).contains_key(j) implies db.visible(u).contains_key(j) && b.visible(u)[j]
            == db.visible(u)[j] by {
            if u != st {
                assert(b.visible(u) == db.visible(u));
            }
        }
    }
}

pub proof fn lemma_delete_rows_fewer(db: DbModel, st: u32, rows: Seq<Row>)
    requires
        db.tx is Some,
        is_system_table(st),
    ensures
        fewer_listed(db, db.delete_rows_in(st, rows).0),
    decreases rows.len(),
{
    if rows.len() > 0 {
        lemma_delete_rows_fewer(db, st, rows.drop_last());
        let mid = db.delete_rows_in(st, rows.drop_last()).0;
        let k = row_key(rows.last());
        lemma_delete_row_fewer(mid, st, k);
        lemma_fewer_through(db, mid, mid.delete_row(st, k).0);
    }
}

proof fn lemma_drop_index_fewer(db: DbModel, id: u32)
    requires
        db.tx is Some,
    ensures
        fewer_listed(db, db.drop_index(id).0),
{
    match db.seek(ST_INDEXES_ID, 0, Value::U32(id)) {
        Ok(rows) => {
            let mid = if rows.len() > 0 {
                lemma_delete_row_fewer(db, ST_INDEXES_ID, row_key(rows.last()));
                db.delete_row(ST_INDEXES_ID, row_key(rows.last())).0
            } else {
                db
            };
            let after = mid.drop_index_internal(id);
            assert(fewer_listed(db, mid));
            if mid.inv() {
                lemma_drop_index_inv(mid, id);
                assert forall|u: u32, j: Key|
                    #![trigger after.visible(u).contains_key(j)]
                    after.visible(u).contains_key(j) implies mid.visible(u).contains_key(j)
                    && after.visible(u)[j] == mid.visible(u)[j] by {
                    assert(after.visible(u) == mid.visible(u));
                }
            }
            assert(fewer_listed(mid, after));
            lemma_fewer_through(db, mid, after);
        },
        Err(_) => {},
    }
}

proof fn lemma_drop_sequence_fewer(db: DbModel, s: u32)
    requires
        db.tx is Some,
    ensures
        fewer_listed(db, db.drop_sequence(s).0),
{
    match db.seek(ST_SEQUENCES_ID, 0, Value::U32(s)) {
        Ok(rows) => {
            let mid = if rows.len() > 0 {
                lemma_delete_row_fewer(db, ST_SEQUENCES_ID, row_key(rows.last()));
                db.delete_row(ST_SEQUENCES_ID, row_key(rows.last())).0
            } else {
                db
            };
            let after = mid.without_sequence(s);
            assert(fewer_listed(db, mid));
            if mid.inv() {
                lemma_same_rows_inv(mid, after);
                assert forall|u: u32, j: Key|
                    #![trigger after.visible(u).contains_key(j)]
                    after.visible(u).contains_key(j) implies mid.visible(u).contains_key(j)
                    && after.visible(u)[j] == mid.visible(u)[j] by {
                    assert(after.visible(u) == mid.visible(u));
                }
            }
            assert(fewer_listed(mid, after));
            lemma_fewer_through(db, mid, after);
        },
        Err(_) => {},
    }
}

pub proof fn lemma_drop_indexes_fewer(db: DbModel, rows: Seq<Row>, n: nat)
    requires
        db.tx is Some,
    ensures
        fewer_listed(db, db.drop_indexes(rows, n).0),
    decreases n,
{
    if n > 0 {
        lemma_drop_indexes_fewer(db, rows, (n - 1) as nat);
        let (mid, r) = db.drop_indexes(rows, (n - 1) as nat);
        if r is Ok {
            match IndexSchemaModel::of_row(rows[n - 1]) {
                Ok(el) => {
                    lemma_drop_index_fewer(mid, el.index_id);
                    lemma_fewer_through(db, mid, mid.drop_index(el.index_id).0);
                },
                Err(_) => {},
            }
        }
    }
}

pub proof fn lemma_drop_sequences_fewer(db: DbModel, rows: Seq<Row>, n: nat)
    requires
        db.tx is Some,
    ensures
        fewer_listed(db, db.drop_sequences(rows, n).0),
    decreases n,
{
    if n > 0 {
        lemma_drop_sequences_fewer(db, rows, (n - 1) as nat);
        let (mid, r) = db.drop_sequences(rows, (n - 1) as nat);
        if r is Ok {
            match SequenceModel::of_row(rows[n - 1]) {
                Ok(el) => {
                    lemma_drop_sequence_fewer(mid, el.sequence_id);
                    lemma_fewer_through(db, mid, mid.drop_sequence(el.sequence_id).0);
                },
                Err(_) => {},
            }
        }
    }
}

pub proof fn lemma_drop_listed_fewer(db: DbModel, st: u32, t: u32)
    requires
        db.tx is Some,
        is_system_table(st),
    ensures
        fewer_listed(db, db.drop_listed(st, t).0),
{
    match db.seek(st, 0, Value::U32(t)) {
        Ok(rows) => {
            lemma_delete_rows_fewer(db, st, rows);
        },
        Err(_) => {},
    }
}

/// No row that is seen of table `st` has `t` in column `c`.
pub open spec fn lists_nothing(db: DbModel, st: u32, c: u32, t: u32) -> bool {
    forall|k: Key| #[trigger]
        db.visible(st).contains_key(k) ==> !holds(db.visible(st)[k], c, Value::U32(t))
}

/// What was sought once and then deleted is not there.
proof fn lemma_sought_and_deleted(a: DbModel, b: DbModel, st: u32, c: u32, t: u32)
    requires
        a.inv(),
        a.tx is Some,
        fewer_listed(a, b),
        a.seek(st, c, Value::U32(t)) is Ok,
    ensures
        lists_nothing(b.delete_rows_in(st, a.seek(st, c, Value::U32(t))->Ok_0).0, st, c, t),
{
    let v = Value::U32(t);
    let rows = a.seek(st, c, v)->Ok_0;
    let after = b.delete_rows_in(st, rows).0;
    law_seek_yields_matching_rows(a, st, c, v);
    assert forall|k: Key| #[trigger] after.visible(st).contains_key(k) implies !holds(
        after.visible(st)[k],
        c,
        v,
    ) by {
        law_deleted_rows_are_gone(b, st, rows, k);
        assert(b.visible(st).contains_key(k));
        let row = a.visible(st)[k];
        if holds(row, c, v) {
            let m = holding(a.visible(st), c, v);
            assert(m.contains_key(k) && m[k] == row);
            lemma_each_once_contains(rows, m, row);
            let i = choose|i: int| 0 <= i < rows.len() && rows[i] == row;
            lemma_seen_under_key(a, st, k);
            assert(row_key(rows[i]) == k);
        }
    }
}

proof fn lemma_lists_nothing_stays(a: DbModel, b: DbModel, st: u32, c: u32, t: u32)
    requires
        a.inv(),
        fewer_listed(a, b),
        lists_nothing(a, st, c, t),
    ensures
        lists_nothing(b, st, c, t),
{
    assert forall|k: Key| #[trigger] b.visible(st).contains_key(k) implies !holds(
        b.visible(st)[k],
        c,
        Value::U32(t),
    ) by {
        assert(a.visible(st).contains_key(k));
    }
}

/// A drop, whether or not it is refused, changes nothing that is committed, no sequence and no
/// bytes, so that a rollback undoes it: the datastore is then what it was without the drop.
pub proof fn law_drop_is_undone_by_rollback(db: DbModel, t: u32)
    requires
        db.tx is Some,
    ensures
        db.drop_table(t).0.committed == db.committed,
        db.drop_table(t).0.sequences == db.sequences,
        db.drop_table(t).0.blobs == db.blobs,
        db.drop_table(t).0.tx is Some,
        db.drop_table(t).0.rollback() == db.rollback(),
{
    match db.seek(ST_INDEXES_ID, 1, Value::U32(t)) {
        Ok(rows) => {
            let n = rows.len();
            lemma_drop_indexes_fewer(db, rows, n);
            let (a, r) = db.drop_indexes(rows, n);
            if r is Ok {
                let b = a.delete_rows_in(ST_INDEXES_ID, rows).0;
                lemma_delete_rows_fewer(a, ST_INDEXES_ID, rows);
                match b.seek(ST_SEQUENCES_ID, 2, Value::U32(t)) {
                    Ok(rows) => {
                        lemma_drop_sequences_fewer(b, rows, rows.len());
                        let (c, r) = b.drop_sequences(rows, rows.len());
                        if r is Ok {
                            let d = c.delete_rows_in(ST_SEQUENCES_ID, rows).0;
                            lemma_delete_rows_fewer(c, ST_SEQUENCES_ID, rows);
                            lemma_drop_listed_fewer(d, ST_COLUMNS_ID, t);
                            let (e, r) = d.drop_listed(ST_COLUMNS_ID, t);
                            if r is Ok {
                                lemma_drop_listed_fewer(e, ST_TABLES_ID, t);
                            }
                        }
                    },
                    Err(_) => {},
                }
            }
        },
        Err(_) => {},
    }
    assert(db.drop_table(t).0.rollback() =~= db.rollback());
}

/// `b` has nothing that `a` has not: no row, no sequence in use and no bytes, and what is committed
/// and the sequences are the same.
pub open spec fn only_takes_away(a: DbModel, b: DbModel) -> bool {
    &&& b.tx is Some
    &&& b.committed == a.committed
    &&& b.sequences == a.sequences
    &&& b.blobs == a.blobs
    &&& b.tx->0.made_sequences == a.tx->0.made_sequences
    &&& b.tx->0.refilled_sequences == a.tx->0.refilled_sequences
    &&& forall|s: u32| #[trigger] b.in_use(s) ==> a.in_use(s)
    &&& forall|u: u32, k: Key|
        #![trigger b.visible(u).contains_key(k)]
        b.visible(u).contains_key(k) ==> a.visible(u).contains_key(k) && b.visible(u)[k]
            == a.visible(u)[k]
}

/// A drop of a table, of an index or of a sequence, whether or not it is refused, adds nothing.
pub proof fn law_drops_only_take_away(db: DbModel, t: u32, id: u32, s: u32)
    requires
        db.inv(),
        db.tx is Some,
    ensures
        only_takes_away(db, db.drop_table(t).0),
        only_takes_away(db, db.drop_index(id).0),
        only_takes_away(db, db.drop_sequence(s).0),
{
    lemma_drop_index_fewer(db, id);
    lemma_drop_sequence_fewer(db, s);
    match db.seek(ST_INDEXES_ID, 1, Value::U32(t)) {
        Ok(rows) => {
            let n = rows.len();
            lemma_drop_indexes_fewer(db, rows, n);
            let (a, r) = db.drop_indexes(rows, n);
            if r is Ok {
                let b = a.delete_rows_in(ST_INDEXES_ID, rows).0;
                lemma_delete_rows_fewer(a, ST_INDEXES_ID, rows);
                lemma_fewer_through(db, a, b);
                match b.seek(ST_SEQUENCES_ID, 2, Value::U32(t)) {
                    Ok(rows) => {
                        lemma_drop_sequences_fewer(b, rows, rows.len());
                        let (c, r) = b.drop_sequences(rows, rows.len());
                        lemma_fewer_through(db, b, c);
                        if r is Ok {
                            let d = c.delete_rows_in(ST_SEQUENCES_ID, rows).0;
                            lemma_delete_rows_fewer(c, ST_SEQUENCES_ID, rows);
                            lemma_fewer_through(db, c, d);
                            lemma_bare_drop_takes_away(db, d, t);
                        }
                    },
                    Err(_) => {},
                }
            }
        },
        Err(_) => {},
    }
}

proof fn lemma_bare_drop_takes_away(db: DbModel, d: DbModel, t: u32)
    requires
        db.inv(),
        fewer_listed(db, d),
    ensures
        only_takes_away(db, d.drop_bare_table(t).0),
{
    lemma_drop_listed_fewer(d, ST_COLUMNS_ID, t);
    let (e, r) = d.drop_listed(ST_COLUMNS_ID, t);
    lemma_fewer_through(db, d, e);
    if r is Ok {
        lemma_drop_listed_fewer(e, ST_TABLES_ID, t);
        let (f, r) = e.drop_listed(ST_TABLES_ID, t);
        lemma_fewer_through(db, e, f);
        if r is Ok {
            let after = f.without_table(t);
            lemma_without_table_inv(f, t);
            assert forall|s: u32| #[trigger] after.in_use(s) implies db.in_use(s) by {
                assert(f.in_use(s));
            }
            assert forall|u: u32, k: Key|
                #![trigger after.visible(u).contains_key(k)]
                after.visible(u).contains_key(k) implies db.visible(u).contains_key(k)
                && after.visible(u)[k] == db.visible(u)[k] by {
                if u != t {
                    assert(after.visible(u) == f.visible(u));
                }
                assert(f.visible(u).contains_key(k));
            }
        }
    }
}

/// A drop that a transaction begins with and that is rolled back leaves the datastore as it was.
pub proof fn law_rolled_back_drop_changes_nothing(db: DbModel, t: u32)
    requires
        db.tx is None,
    ensures
        db.begin().drop_table(t).0.rollback() == db,
{
    law_drop_is_undone_by_rollback(db.begin(), t);
    assert(db.begin().rollback() =~= db);
}

/// An index or a sequence that was dropped is there again after a rollback: a drop changes nothing
/// outside the transaction.
pub proof fn law_dropped_index_and_sequence_come_back(db: DbModel, id: u32)
    requires
        db.tx is Some,
    ensures
        db.drop_index(id).0.rollback() == db.rollback(),
        db.drop_sequence(id).0.rollback() == db.rollback(),
{
}

/// An index that was dropped is gone: no committed table and no part of a table has it for the
/// transaction, and none has it once the transaction is committed.
pub proof fn law_dropped_index_is_gone(db: DbModel, id: u32, t: u32, c: u32)
    requires
        db.tx is Some,
        db.drop_index(id).1 is Ok,
    ensures
        ({
            let after = db.drop_index(id).0;
            let next = after.commit();
            &&& after.has_base(t) && after.base(t).indexes.contains_key(c) ==> after.base(
                t,
            ).indexes[c].index_id != id
            &&& after.has_inserts(t) && after.inserts(t).indexes.contains_key(c)
                ==> after.inserts(t).indexes[c].index_id != id
            &&& next.committed.contains_key(t) && next.committed[t].indexes.contains_key(c)
                ==> next.committed[t].indexes[c].index_id != id
        }),
{
    let after = db.drop_index(id).0;
    let tx = after.tx->0;
    assert(tx.dropped_indexes.contains(id));
    let base = merge_deletes(tx.left_of(after.committed), tx.deletes);
    if base.contains_key(t) && base[t].indexes.contains_key(c) {
        assert(after.base(t).indexes.contains_key(c));
        assert(base[t].indexes[c].index_id == after.base(t).indexes[c].index_id);
    }
    if tx.inserts.contains_key(t) {
        let part = tx.inserts[t];
        if part.indexes.contains_key(c) {
            assert(part.indexes[c].index_id != id);
        }
    }
}

/// A sequence that was dropped is out of use once the transaction is committed, too.
pub proof fn law_dropped_sequence_stays_gone(db: DbModel, s: u32)
    requires
        db.tx is Some,
        db.drop_sequence(s).1 is Ok,
    ensures
        !db.drop_sequence(s).0.commit().begin().in_use(s),
{
}

/// A table that was dropped is not there, and the catalogue lists nothing of it: no table, no
/// column, no index and no sequence. No row is new, and the rows of the tables that are not of the
/// system are as they were. Every other table is still there, with its row type. The datastore is
/// in order.
pub proof fn law_dropped_table_is_gone(db: DbModel, t: u32)
    requires
        db.inv(),
        db.tx is Some,
        db.drop_table(t).1 is Ok,
    ensures
        ({
            let after = db.drop_table(t).0;
            &&& after.inv()
            &&& !after.table_exists(t)
            &&& after.scan(t) == Err::<Seq<Row>, Fault>(Fault::TableIdNotFound(t))
            &&& lists_nothing(after, ST_TABLES_ID, 0, t)
            &&& lists_nothing(after, ST_COLUMNS_ID, 0, t)
            &&& lists_nothing(after, ST_INDEXES_ID, 1, t)
            &&& lists_nothing(after, ST_SEQUENCES_ID, 2, t)
            &&& forall|u: u32| u != t ==> #[trigger] after.table_exists(u) == db.table_exists(u)
            &&& forall|u: u32| u != t ==> #[trigger] after.row_type(u) == db.row_type(u)
            &&& forall|u: u32, k: Key|
                #![trigger after.visible(u).contains_key(k)]
                after.visible(u).contains_key(k) ==> db.visible(u).contains_key(k)
                    && after.visible(u)[k] == db.visible(u)[k]
            &&& forall|u: u32|
                u != t && !is_system_table(u) ==> #[trigger] after.visible(u) == db.visible(u)
        }),
{
    let v = Value::U32(t);
    let rows = db.seek(ST_INDEXES_ID, 1, v)->Ok_0;
    lemma_drop_indexes_fewer(db, rows, rows.len());
    let a = db.drop_indexes(rows, rows.len()).0;
    let b = a.delete_rows_in(ST_INDEXES_ID, rows).0;
    lemma_delete_rows_fewer(a, ST_INDEXES_ID, rows);
    lemma_sought_and_deleted(db, a, ST_INDEXES_ID, 1, t);
    lemma_fewer_through(db, a, b);
    let seqs = b.seek(ST_SEQUENCES_ID, 2, v)->Ok_0;
    lemma_drop_sequences_fewer(b, seqs, seqs.len());
    let c = b.drop_sequences(seqs, seqs.len()).0;
    let d = c.delete_rows_in(ST_SEQUENCES_ID, seqs).0;
    lemma_delete_rows_fewer(c, ST_SEQUENCES_ID, seqs);
    lemma_sought_and_deleted(b, c, ST_SEQUENCES_ID, 2, t);
    lemma_fewer_through(b, c, d);
    lemma_fewer_through(db, b, d);
    lemma_lists_nothing_stays(b, d, ST_INDEXES_ID, 1, t);
    lemma_drop_listed_fewer(d, ST_COLUMNS_ID, t);
    let e = d.drop_listed(ST_COLUMNS_ID, t).0;
    assert(fewer_listed(d, d)) by {
        lemma_delete_rows_fewer(d, ST_COLUMNS_ID, Seq::empty());
    }
    lemma_sought_and_deleted(d, d, ST_COLUMNS_ID, 0, t);
    lemma_fewer_through(db, d, e);
    lemma_lists_nothing_stays(d, e, ST_INDEXES_ID, 1, t);
    lemma_lists_nothing_stays(d, e, ST_SEQUENCES_ID, 2, t);
    lemma_drop_listed_fewer(e, ST_TABLES_ID, t);
    let f = e.drop_listed(ST_TABLES_ID, t).0;
    assert(fewer_listed(e, e)) by {
        lemma_delete_rows_fewer(e, ST_TABLES_ID, Seq::empty());
    }
    lemma_sought_and_deleted(e, e, ST_TABLES_ID, 0, t);
    lemma_fewer_through(db, e, f);
    lemma_lists_nothing_stays(e, f, ST_INDEXES_ID, 1, t);
    lemma_lists_nothing_stays(e, f, ST_SEQUENCES_ID, 2, t);
    lemma_lists_nothing_stays(e, f, ST_COLUMNS_ID, 0, t);
    let after = f.without_table(t);
    lemma_without_table_inv(f, t);
    assert(db.drop_table(t).0 == after);
    assert forall|st: u32, k: Key| #[trigger] after.visible(st).contains_key(k) implies f.visible(
        st,
    ).contains_key(k) && after.visible(st)[k] == f.visible(st)[k] by {
        if st != t {
            assert(after.visible(st) == f.visible(st));
        }
    }
    assert forall|u: u32, k: Key|
        #![trigger after.visible(u).contains_key(k)]
        after.visible(u).contains_key(k) implies db.visible(u).contains_key(k) && after.visible(
        u,
    )[k] == db.visible(u)[k] by {
        assert(f.visible(u).contains_key(k));
    }
    assert forall|u: u32| u != t && !is_system_table(u) implies #[trigger] after.visible(u)
        == db.visible(u) by {
        assert(f.visible(u) == db.visible(u));
    }
    assert forall|u: u32| u != t implies #[trigger] after.table_exists(u) == db.table_exists(
        u,
    ) by {
        assert(f.table_exists(u) == db.table_exists(u));
    }
    assert forall|u: u32| u != t implies #[trigger] after.row_type(u) == db.row_type(u) by {
        assert(f.row_type(u) == db.row_type(u));
    }
}

/// A table that was dropped is not committed once the transaction is, and the next transaction does
/// not have it.
pub proof fn law_dropped_table_is_not_committed(db: DbModel, t: u32)
    requires
        db.tx is Some,
        db.drop_table(t).1 is Ok,
    ensures
        !db.drop_table(t).0.commit().committed.contains_key(t),
        !db.drop_table(t).0.commit().begin().table_exists(t),
{
}

/// A table is dropped only where there is a table of tables.
proof fn lemma_drop_needs_catalogue(db: DbModel, t: u32)
    requires
        db.tx is Some,
        db.drop_table(t).1 is Ok,
    ensures
        db.table_exists(ST_TABLES_ID),
{
    let rows = db.seek(ST_INDEXES_ID, 1, Value::U32(t))->Ok_0;
    lemma_drop_indexes_fewer(db, rows, rows.len());
    let a = db.drop_indexes(rows, rows.len()).0;
    let b = a.delete_rows_in(ST_INDEXES_ID, rows).0;
    lemma_delete_rows_fewer(a, ST_INDEXES_ID, rows);
    let seqs = b.seek(ST_SEQUENCES_ID, 2, Value::U32(t))->Ok_0;
    lemma_drop_sequences_fewer(b, seqs, seqs.len());
    let c = b.drop_sequences(seqs, seqs.len()).0;
    let d = c.delete_rows_in(ST_SEQUENCES_ID, seqs).0;
    lemma_delete_rows_fewer(c, ST_SEQUENCES_ID, seqs);
    lemma_drop_listed_fewer(d, ST_COLUMNS_ID, t);
    let e = d.drop_listed(ST_COLUMNS_ID, t).0;
    assert(e.table_exists(ST_TABLES_ID));
    assert(d.table_exists(ST_TABLES_ID));
    assert(c.table_exists(ST_TABLES_ID));
    assert(b.table_exists(ST_TABLES_ID));
    assert(a.table_exists(ST_TABLES_ID));
}

/// A name that belonged to a dropped table alone is free.
pub proof fn law_name_of_dropped_table_is_free(db: DbModel, t: u32, name: Seq<char>)
    requires
        db.inv(),
        db.tx is Some,
        t != ST_TABLES_ID,
        db.drop_table(t).1 is Ok,
        forall|k: Key| #[trigger]
            db.visible(ST_TABLES_ID).contains_key(k) && holds(
                db.visible(ST_TABLES_ID)[k],
                1,
                Value::String(name),
            ) ==> holds(db.visible(ST_TABLES_ID)[k], 0, Value::U32(t)),
    ensures
        db.drop_table(t).0.table_id_from_name(name) == Ok::<Option<u32>, Fault>(None),
{
    let after = db.drop_table(t).0;
    let v = Value::String(name);
    law_drop_is_undone_by_rollback(db, t);
    law_dropped_table_is_gone(db, t);
    law_seek_yields_matching_rows(after, ST_TABLES_ID, 1, v);
    lemma_drop_needs_catalogue(db, t);
    let rows = after.seek(ST_TABLES_ID, 1, v)->Ok_0;
    let m = holding(after.visible(ST_TABLES_ID), 1, v);
    if rows.len() > 0 {
        assert(rows.contains(rows[0]));
        lemma_each_once_contains(rows, m, rows[0]);
        let k = choose|k: Key| #[trigger] m.contains_key(k) && m[k] == rows[0];
        assert(after.visible(ST_TABLES_ID).contains_key(k));
    }
}

} // verus!
