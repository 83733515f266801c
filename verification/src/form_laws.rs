//! What keeps the tables of the catalogue in form.

use vstd::prelude::*;

use crate::catalogue_laws::{catalogue_in_form, law_rows_have_their_width, table_in_form};
use crate::data_key::{row_key, Key};
use crate::drop_laws::{lemma_drop_indexes_fewer, lemma_drop_sequences_fewer};
use crate::ids::{ST_COLUMNS_ID, ST_INDEXES_ID, ST_SEQUENCES_ID, ST_TABLES_ID};
use crate::laws::{
    law_committed_rows_are_seen_next, law_create_index_keeps_tables,
    law_create_sequence_keeps_tables, law_created_table_is_there, law_insert_keeps_tables,
    law_next_number_keeps_tables, law_seek_yields_matching_rows, lemma_delete_keeps_tables,
    lemma_each_once_contains, lemma_insert_internal_keeps_tables,
};
use crate::model::{holding, holds, DbModel};
use crate::schema::{IndexDefModel, IndexSchemaModel, SequenceDefModel, TableDefModel};
use crate::sequence::SequenceModel;
use crate::system_tables::TableRowModel;
use crate::value::{Row, Value};

verus! {

/// A table of the catalogue stays in form when a row is inserted or deleted, into it or another,
/// and when a number of a sequence is given out.
pub proof fn law_rows_keep_form(
    db: DbModel,
    st: u32,
    width: nat,
    keys: u32,
    t: u32,
    row: Row,
    k: Key,
    s: u32,
)
    requires
        db.tx is Some,
        catalogue_in_form(db, st, width, keys),
    ensures
        catalogue_in_form(db.insert_row(t, row).0, st, width, keys),
        catalogue_in_form(db.delete_row(t, k).0, st, width, keys),
        catalogue_in_form(db.get_next_sequence_value(s).0, st, width, keys),
{
    law_insert_keeps_tables(db, t, row);
    lemma_delete_keeps_tables(db, t, k);
    law_next_number_keeps_tables(db, s);
}

/// A table of the catalogue stays in form when a table, an index or a sequence is made, whether or
/// not it could be, and when a table is renamed.
pub proof fn law_definitions_keep_form(
    db: DbModel,
    st: u32,
    width: nat,
    keys: u32,
    table: TableDefModel,
    index: IndexDefModel,
    sequence: SequenceDefModel,
    t: u32,
    name: Seq<char>,
)
    requires
        db.inv(),
        db.tx is Some,
        catalogue_in_form(db, st, width, keys),
    ensures
        catalogue_in_form(db.create_table(table).0, st, width, keys),
        catalogue_in_form(db.create_index(index).0, st, width, keys),
        catalogue_in_form(db.create_sequence(sequence).0, st, width, keys),
        catalogue_in_form(db.rename_table(t, name).0, st, width, keys),
{
    law_created_table_is_there(db, table);
    law_create_index_keeps_tables(db, index);
    law_create_sequence_keeps_tables(db, sequence);
    match db.seek(ST_TABLES_ID, 0, Value::U32(t)) {
        Ok(rows) => {
            if rows.len() > 0 {
                match TableRowModel::of_row(rows[0]) {
                    Ok(el) => {
                        let mid = db.delete_row(ST_TABLES_ID, row_key(rows[0])).0;
                        lemma_delete_keeps_tables(db, ST_TABLES_ID, row_key(rows[0]));
                        lemma_insert_internal_keeps_tables(
                            mid,
                            ST_TABLES_ID,
                            (TableRowModel { table_name: name, ..el }).row(),
                        );
                        assert(catalogue_in_form(mid, st, width, keys));
                    },
                    Err(_) => {},
                }
            }
        },
        Err(_) => {},
    }
}

/// A table of the catalogue that is in form is in form in the transaction after a commit and in
/// that after a rollback.
pub proof fn law_next_transaction_keeps_form(db: DbModel, st: u32, width: nat, keys: u32)
    requires
        db.inv(),
        db.tx is Some,
        catalogue_in_form(db, st, width, keys),
    ensures
        catalogue_in_form(db.commit().begin(), st, width, keys),
        catalogue_in_form(db.rollback().begin(), st, width, keys),
{
    let next = db.commit().begin();
    let table = db.commit().committed[st];
    assert forall|c: u32| c < keys implies #[trigger] table.indexes.contains_key(c)
        && table.indexes[c].is_unique by {
        assert(db.committed[st].indexes.contains_key(c));
        assert(db.base(st).indexes.contains_key(c));
    }
    assert(table.row_type == db.committed[st].row_type);
    assert forall|k: Key| #[trigger] table.rows.contains_key(k) implies table.rows[k].len()
        == width by {
        law_committed_rows_are_seen_next(db, st);
        assert(next.visible(st).contains_key(k) && next.visible(st)[k] == table.rows[k]);
        law_rows_have_their_width(db, st, width, keys, k);
    }
    assert(table_in_form(table, width, keys));
}

/// Index `id` is not that of one of the first `keys` columns of committed table `st`.
pub open spec fn is_no_key(db: DbModel, st: u32, keys: u32, id: u32) -> bool {
    forall|c: u32| c < keys ==> (#[trigger] db.committed[st].indexes[c]).index_id != id
}

proof fn lemma_drop_index_keeps_form(db: DbModel, st: u32, width: nat, keys: u32, id: u32)
    requires
        db.inv(),
        db.tx is Some,
        catalogue_in_form(db, st, width, keys),
        is_no_key(db, st, keys, id),
    ensures
        catalogue_in_form(db.drop_index(id).0, st, width, keys),
{
    match db.seek(ST_INDEXES_ID, 0, Value::U32(id)) {
        Ok(rows) => {
            let mid = if rows.len() > 0 {
                lemma_delete_keeps_tables(db, ST_INDEXES_ID, row_key(rows.last()));
                db.delete_row(ST_INDEXES_ID, row_key(rows.last())).0
            } else {
                db
            };
            assert(catalogue_in_form(mid, st, width, keys));
            assert(mid.inv());
            let after = mid.drop_index_internal(id);
            if after.has_inserts(st) {
                let part = after.inserts(st);
                assert(mid.has_inserts(st));
                assert(mid.indexed(st));
                assert forall|c: u32| c < keys implies #[trigger] part.indexes.contains_key(c)
                    && part.indexes[c].is_unique by {
                    assert(mid.inserts(st).indexes.contains_key(c));
                    assert(mid.committed[st].indexes.contains_key(c));
                    assert(mid.base(st).indexes.contains_key(c));
                    assert(mid.committed[st].indexes[c].index_id != id);
                }
            }
        },
        Err(_) => {},
    }
}

proof fn lemma_drop_sequence_keeps_form(db: DbModel, st: u32, width: nat, keys: u32, s: u32)
    requires
        db.tx is Some,
        catalogue_in_form(db, st, width, keys),
    ensures
        catalogue_in_form(db.drop_sequence(s).0, st, width, keys),
{
    match db.seek(ST_SEQUENCES_ID, 0, Value::U32(s)) {
        Ok(rows) => {
            if rows.len() > 0 {
                lemma_delete_keeps_tables(db, ST_SEQUENCES_ID, row_key(rows.last()));
            }
        },
        Err(_) => {},
    }
}

/// A table of the catalogue stays in form when a sequence is dropped, and when an index is that is
/// not the index of one of its keys.
pub proof fn law_drops_keep_form(db: DbModel, st: u32, width: nat, keys: u32, s: u32, id: u32)
    requires
        db.inv(),
        db.tx is Some,
        catalogue_in_form(db, st, width, keys),
    ensures
        catalogue_in_form(db.drop_sequence(s).0, st, width, keys),
        is_no_key(db, st, keys, id) ==> catalogue_in_form(db.drop_index(id).0, st, width, keys),
{
    lemma_drop_sequence_keeps_form(db, st, width, keys, s);
    if is_no_key(db, st, keys, id) {
        lemma_drop_index_keeps_form(db, st, width, keys, id);
    }
}

proof fn lemma_drop_indexes_keep_form(
    db: DbModel,
    st: u32,
    width: nat,
    keys: u32,
    rows: Seq<Row>,
    n: nat,
)
    requires
        db.inv(),
        db.tx is Some,
        catalogue_in_form(db, st, width, keys),
        n <= rows.len(),
        forall|i: int|
            0 <= i < n && IndexSchemaModel::of_row(#[trigger] rows[i]) is Ok ==> is_no_key(
                db,
                st,
                keys,
                IndexSchemaModel::of_row(rows[i])->Ok_0.index_id,
            ),
    ensures
        catalogue_in_form(db.drop_indexes(rows, n).0, st, width, keys),
    decreases n,
{
    if n > 0 {
        lemma_drop_indexes_keep_form(db, st, width, keys, rows, (n - 1) as nat);
        lemma_drop_indexes_fewer(db, rows, (n - 1) as nat);
        let (mid, r) = db.drop_indexes(rows, (n - 1) as nat);
        if r is Ok {
            match IndexSchemaModel::of_row(rows[n - 1]) {
                Ok(el) => {
                    assert(is_no_key(db, st, keys, el.index_id));
                    assert(is_no_key(mid, st, keys, el.index_id));
                    lemma_drop_index_keeps_form(mid, st, width, keys, el.index_id);
                },
                Err(_) => {},
            }
        }
    }
}

proof fn lemma_drop_sequences_keep_form(
    db: DbModel,
    st: u32,
    width: nat,
    keys: u32,
    rows: Seq<Row>,
    n: nat,
)
    requires
        db.tx is Some,
        catalogue_in_form(db, st, width, keys),
    ensures
        catalogue_in_form(db.drop_sequences(rows, n).0, st, width, keys),
    decreases n,
{
    if n > 0 {
        lemma_drop_sequences_keep_form(db, st, width, keys, rows, (n - 1) as nat);
        lemma_drop_sequences_fewer(db, rows, (n - 1) as nat);
        let (mid, r) = db.drop_sequences(rows, (n - 1) as nat);
        if r is Ok {
            match SequenceModel::of_row(rows[n - 1]) {
                Ok(el) => {
                    lemma_drop_sequence_keeps_form(mid, st, width, keys, el.sequence_id);
                },
                Err(_) => {},
            }
        }
    }
}

proof fn lemma_delete_rows_keep_form(
    db: DbModel,
    st: u32,
    width: nat,
    keys: u32,
    t: u32,
    rows: Seq<Row>,
)
    requires
        db.tx is Some,
        catalogue_in_form(db, st, width, keys),
    ensures
        db.delete_rows_in(t, rows).0.tx is Some,
        catalogue_in_form(db.delete_rows_in(t, rows).0, st, width, keys),
    decreases rows.len(),
{
    if rows.len() > 0 {
        lemma_delete_rows_keep_form(db, st, width, keys, t, rows.drop_last());
        let mid = db.delete_rows_in(t, rows.drop_last()).0;
        lemma_delete_keeps_tables(mid, t, row_key(rows.last()));
    }
}

proof fn lemma_drop_listed_keeps_form(
    db: DbModel,
    st: u32,
    width: nat,
    keys: u32,
    u: u32,
    t: u32,
)
    requires
        db.tx is Some,
        catalogue_in_form(db, st, width, keys),
    ensures
        db.drop_listed(u, t).0.tx is Some,
        catalogue_in_form(db.drop_listed(u, t).0, st, width, keys),
{
    match db.seek(u, 0, Value::U32(t)) {
        Ok(rows) => {
            lemma_delete_rows_keep_form(db, st, width, keys, u, rows);
        },
        Err(_) => {},
    }
}

/// A table of the catalogue stays in form when another table is dropped, whether or not it could
/// be, as long as no index that is listed for the other is the index of one of its own keys.
pub proof fn law_dropped_table_keeps_form(db: DbModel, st: u32, width: nat, keys: u32, t: u32)
    requires
        db.inv(),
        db.tx is Some,
        catalogue_in_form(db, st, width, keys),
        t != st,
        forall|k: Key, id: u32|
            #![trigger db.visible(ST_INDEXES_ID).contains_key(k), is_no_key(db, st, keys, id)]
            db.visible(ST_INDEXES_ID).contains_key(k) && holds(
                db.visible(ST_INDEXES_ID)[k],
                1,
                Value::U32(t),
            ) && db.visible(ST_INDEXES_ID)[k][0] == Value::U32(id) ==> is_no_key(db, st, keys, id),
    ensures
        catalogue_in_form(db.drop_table(t).0, st, width, keys),
{
    let v = Value::U32(t);
    match db.seek(ST_INDEXES_ID, 1, v) {
        Ok(rows) => {
            let n = rows.len();
            law_seek_yields_matching_rows(db, ST_INDEXES_ID, 1, v);
            let m = holding(db.visible(ST_INDEXES_ID), 1, v);
            assert forall|i: int|
                0 <= i < n && IndexSchemaModel::of_row(#[trigger] rows[i]) is Ok implies is_no_key(
                db,
                st,
                keys,
                IndexSchemaModel::of_row(rows[i])->Ok_0.index_id,
            ) by {
                assert(rows.contains(rows[i]));
                lemma_each_once_contains(rows, m, rows[i]);
                let k = choose|k: Key| #[trigger] m.contains_key(k) && m[k] == rows[i];
                assert(db.visible(ST_INDEXES_ID).contains_key(k));
            }
            lemma_drop_indexes_keep_form(db, st, width, keys, rows, n);
            lemma_drop_indexes_fewer(db, rows, n);
            let (a, r) = db.drop_indexes(rows, n);
            if r is Ok {
                let b = a.delete_rows_in(ST_INDEXES_ID, rows).0;
                lemma_delete_rows_keep_form(a, st, width, keys, ST_INDEXES_ID, rows);
                match b.seek(ST_SEQUENCES_ID, 2, v) {
                    Ok(rows) => {
                        lemma_drop_sequences_keep_form(b, st, width, keys, rows, rows.len());
                        lemma_drop_sequences_fewer(b, rows, rows.len());
                        let (c, r) = b.drop_sequences(rows, rows.len());
                        if r is Ok {
                            let d = c.delete_rows_in(ST_SEQUENCES_ID, rows).0;
                            lemma_delete_rows_keep_form(c, st, width, keys, ST_SEQUENCES_ID, rows);
                            lemma_drop_listed_keeps_form(d, st, width, keys, ST_COLUMNS_ID, t);
                            let (e, r) = d.drop_listed(ST_COLUMNS_ID, t);
                            if r is Ok {
                                lemma_drop_listed_keeps_form(e, st, width, keys, ST_TABLES_ID, t);
                            }
                        }
                    },
                    Err(_) => {},
                }
            }
        },
        Err(_) => {},
    }
}

} // verus!
