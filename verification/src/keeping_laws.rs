//! What operations leave alone.

use vstd::prelude::*;

use crate::catalogue_laws::lemma_seek_finds_none;
use crate::data_key::{row_key, Key};
use crate::drop_laws::{
    lemma_delete_rows_fewer, lemma_drop_indexes_fewer, lemma_drop_listed_fewer,
    lemma_drop_sequences_fewer, lemma_fewer_through, lists_nothing,
};
use crate::error::Fault;
use crate::laws::{
    distinct_values, law_deleted_row_is_gone, law_deleted_rows_are_gone,
    law_seek_yields_matching_rows, lemma_each_once_contains,
};
use crate::model::{holding, holds, DbModel};
use crate::schema::IndexSchemaModel;
use crate::sequence::SequenceModel;
use crate::soundness::{
    lemma_delete_row_inv, lemma_drop_index_inv, lemma_seen_under_key, lemma_without_table_inv,
};
use crate::value::{Row, Value};

verus! {

/// Every row of table `st` that is seen in `a` and has not `id` in column `c` is seen in `b`.
pub open spec fn leaves_rows(a: DbModel, b: DbModel, st: u32, c: u32, id: u32) -> bool {
    forall|k: Key| #[trigger]
        a.visible(st).contains_key(k) && !holds(a.visible(st)[k], c, Value::U32(id)) ==> b.visible(
            st,
        ).contains_key(k) && b.visible(st)[k] == a.visible(st)[k]
}

/// An index in memory other than `id` is in memory in `b` as it is in `a`, but for what it holds.
pub open spec fn leaves_index(a: DbModel, b: DbModel, u: u32, c: u32, id: u32) -> bool {
    &&& a.has_inserts(u) && a.inserts(u).indexes.contains_key(c) && a.inserts(u).indexes[c].index_id
        != id ==> {
        &&& b.has_inserts(u)
        &&& b.inserts(u).indexes.contains_key(c)
        &&& b.inserts(u).indexes[c].index_id == a.inserts(u).indexes[c].index_id
        &&& b.inserts(u).indexes[c].is_unique == a.inserts(u).indexes[c].is_unique
        &&& b.inserts(u).indexes[c].name == a.inserts(u).indexes[c].name
    }
    &&& a.has_base(u) && a.base(u).indexes.contains_key(c) && a.base(u).indexes[c].index_id != id
        ==> {
        &&& b.has_base(u)
        &&& b.base(u).indexes.contains_key(c)
        &&& b.base(u).indexes[c] == a.base(u).indexes[c]
    }
}

/// A row that a seek found last is one that is seen, and holds what was sought.
proof fn lemma_last_found(db: DbModel, st: u32, c: u32, v: Value)
    requires
        db.inv(),
        db.tx is Some,
        db.seek(st, c, v) is Ok,
        db.seek(st, c, v)->Ok_0.len() > 0,
    ensures
        ({
            let row = db.seek(st, c, v)->Ok_0.last();
            &&& db.visible(st).contains_key(row_key(row))
            &&& db.visible(st)[row_key(row)] == row
            &&& holds(row, c, v)
        }),
{
    law_seek_yields_matching_rows(db, st, c, v);
    let rows = db.seek(st, c, v)->Ok_0;
    let m = holding(db.visible(st), c, v);
    assert(rows.contains(rows[rows.len() - 1]));
    lemma_each_once_contains(rows, m, rows.last());
    let k = choose|k: Key| #[trigger] m.contains_key(k) && m[k] == rows.last();
    lemma_seen_under_key(db, st, k);
}

/// To drop an index takes no row out of the catalogue but that of the index, none out of any other
/// table, and no other index out of memory. The sequences are as they were.
pub proof fn law_dropped_index_leaves_the_others(db: DbModel, id: u32)
    requires
        db.inv(),
        db.tx is Some,
    ensures
        ({
            let after = db.drop_index(id).0;
            &&& leaves_rows(db, after, 3, 0, id)
            &&& forall|u: u32| u != 3 ==> #[trigger] after.visible(u) == db.visible(u)
            &&& forall|u: u32, c: u32| #[trigger] leaves_index(db, after, u, c, id)
            &&& after.sequences == db.sequences
            &&& after.tx->0.dropped_sequences == db.tx->0.dropped_sequences
        }),
{
    let v = Value::U32(id);
    let after = db.drop_index(id).0;
    match db.seek(3, 0, v) {
        Ok(rows) => {
            let mid = if rows.len() > 0 {
                db.delete_row(3, row_key(rows.last())).0
            } else {
                db
            };
            if rows.len() > 0 {
                lemma_last_found(db, 3, 0, v);
                law_deleted_row_is_gone(db, 3, row_key(rows.last()));
                lemma_delete_row_inv(db, 3, row_key(rows.last()));
            }
            lemma_drop_index_inv(mid, id);
            assert forall|u: u32| #[trigger] after.visible(u) == mid.visible(u) by {}
            assert forall|u: u32, c: u32| #[trigger] leaves_index(db, after, u, c, id) by {
                lemma_index_stays(db, mid, after, id, u, c);
            }
        },
        Err(_) => {
            assert forall|u: u32, c: u32| #[trigger] leaves_index(db, after, u, c, id) by {}
        },
    }
}

proof fn lemma_index_stays(db: DbModel, mid: DbModel, after: DbModel, id: u32, u: u32, c: u32)
    requires
        db.tx is Some,
        mid == db || exists|k: Key| mid == (#[trigger] db.delete_row(3, k)).0,
        after == mid.drop_index_internal(id),
    ensures
        leaves_index(db, after, u, c, id),
{
    assert(mid.tx->0.dropped_indexes == db.tx->0.dropped_indexes);
    assert(mid.committed == db.committed);
    if db.has_inserts(u) && db.inserts(u).indexes.contains_key(c) {
        assert(mid.has_inserts(u));
        assert(mid.inserts(u).indexes.contains_key(c));
        assert(mid.inserts(u).indexes[c].index_id == db.inserts(u).indexes[c].index_id);
    }
    if db.has_base(u) {
        assert(mid.has_base(u));
    }
}

/// To drop a sequence takes no row out of the catalogue but that of the sequence, none out of any
/// other table, and no other sequence out of use. The indexes in memory are as they were.
pub proof fn law_dropped_sequence_leaves_the_others(db: DbModel, s: u32)
    requires
        db.inv(),
        db.tx is Some,
    ensures
        ({
            let after = db.drop_sequence(s).0;
            &&& leaves_rows(db, after, 2, 0, s)
            &&& forall|u: u32| u != 2 ==> #[trigger] after.visible(u) == db.visible(u)
            &&& after.sequences == db.sequences
            &&& forall|q: u32| q != s ==> #[trigger] after.in_use(q) == db.in_use(q)
            &&& forall|u: u32| #[trigger] db.has_inserts(u) ==> after.has_inserts(u)
                && after.inserts(u).indexes.dom() == db.inserts(u).indexes.dom()
            &&& forall|u: u32, c: u32|
                db.has_inserts(u) && db.inserts(u).indexes.contains_key(c)
                    ==> #[trigger] after.inserts(u).indexes[c].index_id == db.inserts(
                    u,
                ).indexes[c].index_id
            &&& after.tx->0.dropped_indexes == db.tx->0.dropped_indexes
        }),
{
    let v = Value::U32(s);
    let after = db.drop_sequence(s).0;
    match db.seek(2, 0, v) {
        Ok(rows) => {
            let mid = if rows.len() > 0 {
                db.delete_row(2, row_key(rows.last())).0
            } else {
                db
            };
            if rows.len() > 0 {
                lemma_last_found(db, 2, 0, v);
                law_deleted_row_is_gone(db, 2, row_key(rows.last()));
            }
            assert forall|u: u32| #[trigger] after.visible(u) == mid.visible(u) by {
                assert(after.visible(u) =~= mid.visible(u));
            }
            assert forall|u: u32| #[trigger] db.has_inserts(u) implies after.has_inserts(u)
                && after.inserts(u).indexes.dom() == db.inserts(u).indexes.dom() by {
                assert(after.inserts(u).indexes.dom() =~= db.inserts(u).indexes.dom());
            }
        },
        Err(_) => {},
    }
}

/// `rows` are seen in table `st`, each under its key, with `t` in column `c`.
spec fn are_listed_for(db: DbModel, st: u32, c: u32, t: u32, rows: Seq<Row>) -> bool {
    forall|i: int| 0 <= i < rows.len() ==> {
        &&& db.visible(st).contains_key(row_key(#[trigger] rows[i]))
        &&& db.visible(st)[row_key(rows[i])] == rows[i]
        &&& holds(rows[i], c, Value::U32(t))
    }
}

proof fn lemma_found_are_listed_for(db: DbModel, st: u32, c: u32, t: u32)
    requires
        db.inv(),
        db.tx is Some,
        db.seek(st, c, Value::U32(t)) is Ok,
    ensures
        are_listed_for(db, st, c, t, db.seek(st, c, Value::U32(t))->Ok_0),
{
    let v = Value::U32(t);
    law_seek_yields_matching_rows(db, st, c, v);
    let rows = db.seek(st, c, v)->Ok_0;
    let m = holding(db.visible(st), c, v);
    assert forall|i: int| 0 <= i < rows.len() implies {
        &&& db.visible(st).contains_key(row_key(#[trigger] rows[i]))
        &&& db.visible(st)[row_key(rows[i])] == rows[i]
        &&& holds(rows[i], c, v)
    } by {
        assert(rows.contains(rows[i]));
        lemma_each_once_contains(rows, m, rows[i]);
        let k = choose|k: Key| #[trigger] m.contains_key(k) && m[k] == rows[i];
        lemma_seen_under_key(db, st, k);
    }
}

/// To delete rows that are listed for `t` leaves those that are not.
proof fn lemma_deleted_rows_leave(a: DbModel, b: DbModel, st: u32, c: u32, t: u32, rows: Seq<Row>)
    requires
        b.inv(),
        b.tx is Some,
        are_listed_for(a, st, c, t, rows),
        leaves_rows(a, b, st, c, t),
    ensures
        leaves_rows(a, b.delete_rows_in(st, rows).0, st, c, t),
        forall|u: u32|
            u != st ==> #[trigger] b.delete_rows_in(st, rows).0.visible(u) == b.visible(u),
{
    let after = b.delete_rows_in(st, rows).0;
    assert forall|k: Key| #[trigger]
        a.visible(st).contains_key(k) && !holds(
            a.visible(st)[k],
            c,
            Value::U32(t),
        ) implies after.visible(st).contains_key(k) && after.visible(st)[k] == a.visible(
        st,
    )[k] by {
        law_deleted_rows_are_gone(b, st, rows, k);
    }
    assert forall|u: u32| u != st implies #[trigger] after.visible(u) == b.visible(u) by {
        law_deleted_rows_are_gone(b, st, rows, Key::Data(Seq::empty()));
    }
}

/// What drops one listed row after another, each by an id that no other row has, leaves the rows
/// that are not listed for `t`.
proof fn lemma_one_less(
    a: DbModel,
    b: DbModel,
    d: DbModel,
    st: u32,
    c: u32,
    t: u32,
    row: Row,
    id: u32,
)
    requires
        are_listed_for(a, st, c, t, seq![row]),
        distinct_values(a.visible(st), 0),
        holds(row, 0, Value::U32(id)),
        leaves_rows(a, b, st, c, t),
        leaves_rows(b, d, st, 0, id),
    ensures
        leaves_rows(a, d, st, c, t),
{
    assert(seq![row][0] == row);
    assert forall|k: Key| #[trigger]
        a.visible(st).contains_key(k) && !holds(
            a.visible(st)[k],
            c,
            Value::U32(t),
        ) implies d.visible(st).contains_key(k) && d.visible(st)[k] == a.visible(st)[k] by {
        assert(b.visible(st).contains_key(k) && b.visible(st)[k] == a.visible(st)[k]);
        if holds(a.visible(st)[k], 0, Value::U32(id)) {
            assert(a.visible(st).contains_key(row_key(row)));
            assert(k == row_key(row));
        }
    }
}

proof fn lemma_drop_indexes_leave(db: DbModel, t: u32, rows: Seq<Row>, n: nat)
    requires
        db.inv(),
        db.tx is Some,
        are_listed_for(db, 3, 1, t, rows),
        distinct_values(db.visible(3), 0),
        n <= rows.len(),
    ensures
        ({
            let after = db.drop_indexes(rows, n).0;
            &&& leaves_rows(db, after, 3, 1, t)
            &&& forall|u: u32| u != 3 ==> #[trigger] after.visible(u) == db.visible(u)
            &&& after.tx->0.dropped_sequences == db.tx->0.dropped_sequences
        }),
    decreases n,
{
    if n > 0 {
        lemma_drop_indexes_leave(db, t, rows, (n - 1) as nat);
        lemma_drop_indexes_fewer(db, rows, (n - 1) as nat);
        let (mid, r) = db.drop_indexes(rows, (n - 1) as nat);
        if r is Ok {
            match IndexSchemaModel::of_row(rows[n - 1]) {
                Ok(el) => {
                    let after = mid.drop_index(el.index_id).0;
                    law_dropped_index_leaves_the_others(mid, el.index_id);
                    assert(are_listed_for(db, 3, 1, t, seq![rows[n - 1]]));
                    lemma_one_less(db, mid, after, 3, 1, t, rows[n - 1], el.index_id);
                    assert forall|u: u32| u != 3 implies #[trigger] after.visible(u)
                        == db.visible(u) by {
                        assert(mid.visible(u) == db.visible(u));
                    }
                },
                Err(_) => {},
            }
        }
    }
}

proof fn lemma_drop_sequences_leave(db: DbModel, t: u32, rows: Seq<Row>, n: nat)
    requires
        db.inv(),
        db.tx is Some,
        are_listed_for(db, 2, 2, t, rows),
        distinct_values(db.visible(2), 0),
        n <= rows.len(),
    ensures
        ({
            let after = db.drop_sequences(rows, n).0;
            &&& leaves_rows(db, after, 2, 2, t)
            &&& forall|u: u32| u != 2 ==> #[trigger] after.visible(u) == db.visible(u)
            &&& forall|q: u32| #[trigger] db.in_use(q) && (forall|i: int|
                0 <= i < rows.len() ==> !holds(#[trigger] rows[i], 0, Value::U32(q)))
                ==> after.in_use(q)
        }),
    decreases n,
{
    if n > 0 {
        lemma_drop_sequences_leave(db, t, rows, (n - 1) as nat);
        lemma_drop_sequences_fewer(db, rows, (n - 1) as nat);
        let (mid, r) = db.drop_sequences(rows, (n - 1) as nat);
        if r is Ok {
            match SequenceModel::of_row(rows[n - 1]) {
                Ok(el) => {
                    let after = mid.drop_sequence(el.sequence_id).0;
                    law_dropped_sequence_leaves_the_others(mid, el.sequence_id);
                    assert(are_listed_for(db, 2, 2, t, seq![rows[n - 1]]));
                    assert(holds(rows[n - 1], 0, Value::U32(el.sequence_id)));
                    lemma_one_less(db, mid, after, 2, 2, t, rows[n - 1], el.sequence_id);
                    assert forall|u: u32| u != 2 implies #[trigger] after.visible(u)
                        == db.visible(u) by {
                        assert(mid.visible(u) == db.visible(u));
                    }
                    assert forall|q: u32| #[trigger] db.in_use(q) && (forall|i: int|
                        0 <= i < rows.len() ==> !holds(
                            #[trigger] rows[i],
                            0,
                            Value::U32(q),
                        )) implies after.in_use(q) by {
                        assert(mid.in_use(q));
                        assert(q != el.sequence_id);
                    }
                },
                Err(_) => {},
            }
        }
    }
}

/// To drop a table takes nothing out of the catalogue but what is listed for it: the rows of the
/// other tables, of their columns, of their indexes and of their sequences stay, and so do the
/// sequences that are not listed for the table. The table is none of the system, and indexes and
/// sequences are listed under ids of their own.
pub proof fn law_dropped_table_leaves_the_others(db: DbModel, t: u32)
    requires
        db.inv(),
        db.tx is Some,
        t > 3,
        distinct_values(db.visible(2), 0),
        distinct_values(db.visible(3), 0),
        db.drop_table(t).1 is Ok,
    ensures
        ({
            let after = db.drop_table(t).0;
            &&& leaves_rows(db, after, 0, 0, t)
            &&& leaves_rows(db, after, 1, 0, t)
            &&& leaves_rows(db, after, 2, 2, t)
            &&& leaves_rows(db, after, 3, 1, t)
            &&& after.sequences == db.sequences
            &&& forall|q: u32| #[trigger] db.in_use(q) && (forall|k: Key| #[trigger]
                db.visible(2).contains_key(k) && holds(db.visible(2)[k], 2, Value::U32(t))
                    ==> !holds(db.visible(2)[k], 0, Value::U32(q))) ==> after.in_use(q)
        }),
{
    let v = Value::U32(t);
    let rows = db.seek(3, 1, v)->Ok_0;
    lemma_found_are_listed_for(db, 3, 1, t);
    lemma_drop_indexes_fewer(db, rows, rows.len());
    lemma_drop_indexes_leave(db, t, rows, rows.len());
    let a = db.drop_indexes(rows, rows.len()).0;
    let b = a.delete_rows_in(3, rows).0;
    lemma_delete_rows_fewer(a, 3, rows);
    lemma_deleted_rows_leave(db, a, 3, 1, t, rows);
    lemma_fewer_through(db, a, b);
    assert(b.visible(2) == db.visible(2));
    let seqs = b.seek(2, 2, v)->Ok_0;
    lemma_found_are_listed_for(b, 2, 2, t);
    lemma_drop_sequences_fewer(b, seqs, seqs.len());
    lemma_drop_sequences_leave(b, t, seqs, seqs.len());
    let c = b.drop_sequences(seqs, seqs.len()).0;
    let d = c.delete_rows_in(2, seqs).0;
    lemma_delete_rows_fewer(c, 2, seqs);
    lemma_deleted_rows_leave(b, c, 2, 2, t, seqs);
    lemma_fewer_through(b, c, d);
    assert(d.visible(1) == db.visible(1) && d.visible(0) == db.visible(0));
    assert(d.visible(3) == b.visible(3));
    lemma_found_are_listed_for(d, 1, 0, t);
    lemma_drop_listed_fewer(d, 1, t);
    let e = d.drop_listed(1, t).0;
    lemma_deleted_rows_leave(d, d, 1, 0, t, d.seek(1, 0, v)->Ok_0);
    assert(e.visible(0) == d.visible(0));
    lemma_found_are_listed_for(e, 0, 0, t);
    lemma_drop_listed_fewer(e, 0, t);
    let f = e.drop_listed(0, t).0;
    lemma_deleted_rows_leave(e, e, 0, 0, t, e.seek(0, 0, v)->Ok_0);
    let after = f.without_table(t);
    lemma_without_table_inv(f, t);
    assert(db.drop_table(t).0 == after);
    assert(after.visible(0) == f.visible(0) && after.visible(1) == f.visible(1)
        && after.visible(2) == f.visible(2) && after.visible(3) == f.visible(3));
    assert(f.visible(1) == e.visible(1) && f.visible(2) == e.visible(2) && f.visible(3)
        == e.visible(3));
    assert(e.visible(2) == d.visible(2) && e.visible(3) == d.visible(3));
    assert(after.tx->0.dropped_sequences == c.tx->0.dropped_sequences) by {
        lemma_deletes_keep_sequences(c, 2, seqs);
        lemma_deletes_keep_sequences(d, 1, d.seek(1, 0, v)->Ok_0);
        lemma_deletes_keep_sequences(e, 0, e.seek(0, 0, v)->Ok_0);
    }
    lemma_deletes_keep_sequences(a, 3, rows);
    assert forall|q: u32| #[trigger] db.in_use(q) && (forall|k: Key| #[trigger]
        db.visible(2).contains_key(k) && holds(db.visible(2)[k], 2, v) ==> !holds(
            db.visible(2)[k],
            0,
            Value::U32(q),
        )) implies after.in_use(q) by {
        assert(b.in_use(q));
        assert forall|i: int| 0 <= i < seqs.len() implies !holds(
            #[trigger] seqs[i],
            0,
            Value::U32(q),
        ) by {
            assert(db.visible(2).contains_key(row_key(seqs[i])));
        }
        assert(c.in_use(q));
    }
}

proof fn lemma_deletes_keep_sequences(db: DbModel, st: u32, rows: Seq<Row>)
    requires
        db.tx is Some,
    ensures
        db.delete_rows_in(st, rows).0.tx is Some,
        db.delete_rows_in(st, rows).0.tx->0.dropped_sequences == db.tx->0.dropped_sequences,
        db.delete_rows_in(st, rows).0.sequences == db.sequences,
    decreases rows.len(),
{
    if rows.len() > 0 {
        lemma_deletes_keep_sequences(db, st, rows.drop_last());
    }
}

/// An index that is listed, or a sequence, is dropped wherever there is its table of the catalogue,
/// and is not listed then. Those of one table have ids of their own.
pub proof fn law_dropped_is_not_listed(db: DbModel, id: u32)
    requires
        db.inv(),
        db.tx is Some,
    ensures
        db.table_exists(3) <==> db.drop_index(id).1 is Ok,
        db.table_exists(2) <==> db.drop_sequence(id).1 is Ok,
        db.table_exists(3) && distinct_values(db.visible(3), 0) ==> lists_nothing(
            db.drop_index(id).0,
            3,
            0,
            id,
        ),
        db.table_exists(2) && distinct_values(db.visible(2), 0) ==> lists_nothing(
            db.drop_sequence(id).0,
            2,
            0,
            id,
        ),
{
    let v = Value::U32(id);
    law_seek_yields_matching_rows(db, 3, 0, v);
    law_seek_yields_matching_rows(db, 2, 0, v);
    if db.table_exists(3) && distinct_values(db.visible(3), 0) {
        let rows = db.seek(3, 0, v)->Ok_0;
        lemma_last_deleted(db, 3, id);
        if rows.len() > 0 {
            lemma_delete_row_inv(db, 3, row_key(rows.last()));
            lemma_drop_index_inv(db.delete_row(3, row_key(rows.last())).0, id);
        } else {
            lemma_drop_index_inv(db, id);
        }
    }
    if db.table_exists(2) && distinct_values(db.visible(2), 0) {
        let rows = db.seek(2, 0, v)->Ok_0;
        lemma_last_deleted(db, 2, id);
        let mid = if rows.len() > 0 {
            db.delete_row(2, row_key(rows.last())).0
        } else {
            db
        };
        assert(db.drop_sequence(id).0.visible(2) =~= mid.visible(2));
    }
}

proof fn lemma_last_deleted(db: DbModel, st: u32, id: u32)
    requires
        db.inv(),
        db.tx is Some,
        db.table_exists(st),
        distinct_values(db.visible(st), 0),
    ensures
        ({
            let rows = db.seek(st, 0, Value::U32(id))->Ok_0;
            let mid = if rows.len() > 0 {
                db.delete_row(st, row_key(rows.last())).0
            } else {
                db
            };
            lists_nothing(mid, st, 0, id)
        }),
{
    let v = Value::U32(id);
    law_seek_yields_matching_rows(db, st, 0, v);
    let rows = db.seek(st, 0, v)->Ok_0;
    let m = holding(db.visible(st), 0, v);
    if rows.len() > 0 {
        let last = row_key(rows.last());
        let mid = db.delete_row(st, last).0;
        lemma_last_found(db, st, 0, v);
        law_deleted_row_is_gone(db, st, last);
        assert forall|k: Key| #[trigger] mid.visible(st).contains_key(k) implies !holds(
            mid.visible(st)[k],
            0,
            v,
        ) by {
            assert(db.visible(st).contains_key(k) && k != last);
            assert(db.visible(st).contains_key(last));
        }
    } else {
        assert forall|k: Key| #[trigger] db.visible(st).contains_key(k) implies !holds(
            db.visible(st)[k],
            0,
            v,
        ) by {
            if holds(db.visible(st)[k], 0, v) {
                assert(m.contains_key(k) && m[k] == db.visible(st)[k]);
                lemma_each_once_contains(rows, m, m[k]);
            }
        }
    }
}

/// A table for which nothing is listed is not dropped, and that its id leads to nothing is said.
pub proof fn law_unlisted_table_is_not_dropped(db: DbModel, t: u32)
    requires
        db.inv(),
        db.tx is Some,
        db.table_exists(1),
        db.table_exists(2),
        db.table_exists(3),
        lists_nothing(db, 1, 0, t),
        lists_nothing(db, 2, 2, t),
        lists_nothing(db, 3, 1, t),
    ensures
        db.drop_table(t) == (db, Err::<(), Fault>(Fault::TableIdNotFound(t))),
{
    let v = Value::U32(t);
    lemma_seek_finds_none(db, 3, 1, v);
    lemma_seek_finds_none(db, 2, 2, v);
    lemma_seek_finds_none(db, 1, 0, v);
}

} // verus!
