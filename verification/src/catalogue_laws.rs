//! What holds of the catalogue: names, row types, and the numbers of sequences.

use vstd::prelude::*;

use crate::btree_index::column_of;
use crate::data_key::{row_key, Key};
use crate::error::Fault;
use crate::ids::{ST_INDEXES_ID, ST_SEQUENCES_ID, ST_TABLES_ID};
use crate::laws::{
    distinct_values, law_created_table_is_there, law_deleted_row_is_gone,
    law_inserted_row_is_visible, law_seek_yields_matching_rows, law_sequence_counts_up,
    law_unique_values_are_distinct, lemma_delete_keeps_tables, lemma_each_once_contains,
    lemma_insert_internal_keeps_tables, lemma_nothing_to_fill, lemma_refill_keeps_tables,
    lemma_same_tables_through, lemma_sequence_keeps_tables, same_tables,
};
use crate::model::{holding, holds, DbModel, SEQUENCE_ALLOCATION};
use crate::schema::{IndexDefModel, SequenceDefModel, TableDefModel};
use crate::sequence::SequenceModel;
use crate::soundness::{
    lemma_base_inv, lemma_begin_inv, lemma_insert_table_inv, lemma_seen_under_key,
};
use crate::system_tables::{law_sequence_row_round_trip, TableRowModel};
use crate::table::TableModel;
use crate::types::RowType;
use crate::value::{is_zero, Row, Value};

verus! {

/// Where some row that is seen holds the value, a seek finds one.
proof fn lemma_seek_finds(db: DbModel, t: u32, c: u32, v: Value, k: Key)
    requires
        db.inv(),
        db.tx is Some,
        db.visible(t).contains_key(k),
        holds(db.visible(t)[k], c, v),
    ensures
        db.seek(t, c, v) is Ok,
        db.seek(t, c, v)->Ok_0.len() > 0,
{
    law_seek_yields_matching_rows(db, t, c, v);
    let m = holding(db.visible(t), c, v);
    assert(m.contains_key(k) && m[k] == db.visible(t)[k]);
    lemma_each_once_contains(db.seek(t, c, v)->Ok_0, m, m[k]);
}

/// An index whose name is taken is not made, and nothing changes.
pub proof fn law_index_name_is_taken_once(db: DbModel, def: IndexDefModel, k: Key)
    requires
        db.inv(),
        db.tx is Some,
        db.visible(ST_INDEXES_ID).contains_key(k),
        holds(db.visible(ST_INDEXES_ID)[k], 3, Value::String(def.name)),
    ensures
        db.create_index(def) == (db, Err::<u32, Fault>(Fault::IndexExist(def.name))),
{
    lemma_seek_finds(db, ST_INDEXES_ID, 3, Value::String(def.name), k);
}

/// A sequence whose name is taken is not made, and nothing changes.
pub proof fn law_sequence_name_is_taken_once(db: DbModel, def: SequenceDefModel, k: Key)
    requires
        db.inv(),
        db.tx is Some,
        db.visible(ST_SEQUENCES_ID).contains_key(k),
        holds(db.visible(ST_SEQUENCES_ID)[k], 1, Value::String(def.sequence_name)),
    ensures
        db.create_sequence(def) == (
            db,
            Err::<u32, Fault>(Fault::SequenceExist(def.sequence_name)),
        ),
{
    lemma_seek_finds(db, ST_SEQUENCES_ID, 1, Value::String(def.sequence_name), k);
}

/// The row that is seen under `k` agrees with `row` in column `c`, and a unique index is on the
/// column.
pub open spec fn agrees_at(db: DbModel, t: u32, c: u32, k: Key, row: Row) -> bool {
    &&& db.has_unique(t, c)
    &&& c < row.len()
    &&& db.visible(t).contains_key(k)
    &&& holds(db.visible(t)[k], c, row[c as int])
}

/// Where there is a conflict there is a first one.
proof fn lemma_least_conflict(t: TableModel, row: Row, gone: Set<Key>, c: u32)
    requires
        t.conflict_at(c, row, gone),
    ensures
        exists|m: u32|
            t.conflict_at(m, row, gone) && (forall|d: u32|
                #[trigger] t.conflict_at(d, row, gone) ==> m <= d),
    decreases c,
{
    if exists|d: u32| d < c && t.conflict_at(d, row, gone) {
        let d = choose|d: u32| d < c && t.conflict_at(d, row, gone);
        lemma_least_conflict(t, row, gone, d);
    } else {
        assert forall|d: u32| #[trigger] t.conflict_at(d, row, gone) implies c <= d by {}
    }
}

pub proof fn lemma_first_conflict_is_one(t: TableModel, row: Row, gone: Set<Key>)
    requires
        t.first_conflict(row, gone) is Some,
    ensures
        t.conflict_at(t.first_conflict(row, gone)->0, row, gone),
{
    reveal(TableModel::first_conflict);
    let c = choose|c: u32| t.conflict_at(c, row, gone);
    lemma_least_conflict(t, row, gone, c);
}

/// A row is refused for a unique constraint only where a row that is seen agrees with it in the
/// column of a unique index.
pub proof fn law_refusal_has_its_row(db: DbModel, t: u32, row: Row)
    requires
        db.inv(),
        db.tx is Some,
        db.insert_row_internal(t, row).1 matches Err(Fault::UniqueConstraintViolation { .. }),
    ensures
        exists|c: u32, k: Key| #[trigger] agrees_at(db, t, c, k, row),
{
    let mid = db.with_insert_table(t);
    lemma_insert_table_inv(db, t);
    assert(mid.has_inserts(t));
    assert(mid.fresh(t) =~= db.fresh(t));
    assert(mid.visible(t) =~= db.visible(t));
    match mid.inserts(t).first_conflict(row, Set::empty()) {
        Some(c) => {
            lemma_first_conflict_is_one(mid.inserts(t), row, Set::empty());
            let index = mid.inserts(t).indexes[c];
            assert(mid.tx->0.inserts.contains_key(t));
            assert(mid.inserts(t).inv());
            let k = choose|k: Key|
                #[trigger] index.holding(row[index.col_id as int]).contains(k) && !Set::<
                    Key,
                >::empty().contains(k);
            assert(mid.inserts(t).holds_only(mid.visible(t)));
            assert(mid.inserts(t).indexes[c].entries.contains_key(k));
            assert(agrees_at(db, t, c, k, row));
        },
        None => {
            let gone = mid.replaced(t);
            let c = mid.base(t).first_conflict(row, gone)->0;
            lemma_first_conflict_is_one(mid.base(t), row, gone);
            lemma_base_inv(db, t);
            let index = mid.base(t).indexes[c];
            let k = choose|k: Key|
                #[trigger] index.holding(row[index.col_id as int]).contains(k) && !gone.contains(
                    k,
                );
            assert(db.base(t).indexes.contains_key(c));
            assert(index.entries == column_of(db.base(t).rows, c));
            assert(db.stored(t).contains_key(k) && !db.fresh(t).contains_key(k));
            assert(db.visible(t).contains_key(k));
            assert(db.visible(t)[k] == db.base(t).rows[k]);
            assert(agrees_at(db, t, c, k, row));
        },
    }
}

/// A row in which nothing is to be filled is refused for a unique constraint only where a row that
/// is seen agrees with it in the column of a unique index, and is taken where none does.
pub proof fn law_refused_insert_has_its_row(db: DbModel, t: u32, row: Row)
    requires
        db.inv(),
        db.tx is Some,
        db.table_exists(t),
        forall|i: int|
            0 <= i < db.schema(t)->0.columns.len() && (#[trigger] db.schema(
                t,
            )->0.columns[i]).is_autoinc && db.schema(t)->0.columns[i].col_id < row.len()
                ==> !is_zero(row[db.schema(t)->0.columns[i].col_id as int]),
    ensures
        db.insert_row(t, row).1 matches Err(Fault::UniqueConstraintViolation { .. }) ==> exists|
            c: u32,
            k: Key,
        | #[trigger]
            agrees_at(db, t, c, k, row),
        db.row_type(t)->0.len() == row.len() && (forall|c: u32, k: Key|
            !(#[trigger] agrees_at(db, t, c, k, row))) ==> db.insert_row(t, row).1 == Ok::<
            Row,
            Fault,
        >(row),
{
    let schema = db.schema(t)->0;
    lemma_nothing_to_fill(db, t, schema, schema.columns.len(), row);
    if db.insert_row(t, row).1 is Err && db.insert_row_internal(t, row).1
        matches Err(Fault::UniqueConstraintViolation { .. }) {
        law_refusal_has_its_row(db, t, row);
    }
    if db.row_type(t)->0.len() == row.len() && (forall|c: u32, k: Key|
        !(#[trigger] agrees_at(db, t, c, k, row))) {
        law_row_without_equals_is_taken(db, t, row);
    }
}

/// A row of the right length that no row agrees with in the column of a unique index is taken.
pub proof fn law_row_without_equals_is_taken(db: DbModel, t: u32, row: Row)
    requires
        db.inv(),
        db.tx is Some,
        db.table_exists(t),
        db.row_type(t)->0.len() == row.len(),
        forall|c: u32, k: Key| !(#[trigger] agrees_at(db, t, c, k, row)),
    ensures
        db.insert_row_internal(t, row).1 is Ok,
{
    let mid = db.with_insert_table(t);
    assert(mid.inserts(t).row_type == db.row_type(t)->0);
    if db.insert_row_internal(t, row).1 is Err {
        law_refusal_has_its_row(db, t, row);
    }
}

/// `table` is as the catalogue needs it: only its first column fills itself, its row type and its
/// rows have `width` values, and a unique index is on each of its first `keys` columns.
pub open spec fn table_in_form(table: TableModel, width: nat, keys: u32) -> bool {
    &&& forall|i: int|
        0 <= i < table.schema.columns.len() && (#[trigger] table.schema.columns[i]).is_autoinc
            ==> table.schema.columns[i].col_id == 0
    &&& table.row_type.len() == width
    &&& forall|k: Key| #[trigger] table.rows.contains_key(k) ==> table.rows[k].len() == width
    &&& forall|c: u32|
        c < keys ==> #[trigger] table.indexes.contains_key(c) && table.indexes[c].is_unique
}

/// Table `st` of the catalogue is committed and in form, and the transaction has dropped neither it
/// nor an index of it. The transaction's own part of it is in form too.
pub open spec fn catalogue_in_form(db: DbModel, st: u32, width: nat, keys: u32) -> bool {
    &&& db.has_base(st)
    &&& table_in_form(db.committed[st], width, keys)
    &&& forall|c: u32|
        c < keys ==> !db.tx->0.dropped_indexes.contains(
            (#[trigger] db.committed[st].indexes[c]).index_id,
        )
    &&& db.has_inserts(st) ==> table_in_form(db.inserts(st), width, keys)
}

/// To put a row that agrees with no other in the column of a unique index into a table of the
/// catalogue succeeds, and keeps the table in form.
proof fn lemma_insert_into_form(db: DbModel, st: u32, width: nat, keys: u32, row: Row)
    requires
        db.inv(),
        db.tx is Some,
        catalogue_in_form(db, st, width, keys),
        row.len() == width,
        forall|c: u32, k: Key| !(#[trigger] agrees_at(db, st, c, k, row)),
    ensures
        ({
            let (after, r) = db.insert_row_internal(st, row);
            &&& r is Ok
            &&& after.inv()
            &&& same_tables(db, after)
            &&& after.visible(st) == db.visible(st).insert(row_key(row), row)
            &&& forall|u: u32| u != st ==> #[trigger] after.visible(u) == db.visible(u)
            &&& after.sequences == db.sequences
            &&& after.tx->0.dropped_sequences == db.tx->0.dropped_sequences
            &&& after.tx->0.refilled_sequences == db.tx->0.refilled_sequences
            &&& after.tx->0.made_sequences == db.tx->0.made_sequences
            &&& catalogue_in_form(after, st, width, keys)
        }),
{
    law_row_without_equals_is_taken(db, st, row);
    law_inserted_row_is_visible(db, st, row);
    lemma_insert_internal_keeps_tables(db, st, row);
}

/// The rows of a table of the catalogue that is in form have the values that they are to have.
pub proof fn law_rows_have_their_width(db: DbModel, st: u32, width: nat, keys: u32, k: Key)
    requires
        db.tx is Some,
        catalogue_in_form(db, st, width, keys),
        db.visible(st).contains_key(k),
    ensures
        db.visible(st)[k].len() == width,
{
    if db.fresh(st).contains_key(k) {
        assert(db.inserts(st).rows.contains_key(k));
    } else {
        assert(db.committed[st].rows.contains_key(k));
    }
}

/// In a table of the catalogue that is in form, the values in the first columns are distinct.
pub proof fn law_keys_are_distinct(db: DbModel, st: u32, width: nat, keys: u32, c: u32)
    requires
        db.inv(),
        db.tx is Some,
        catalogue_in_form(db, st, width, keys),
        c < keys,
    ensures
        db.has_unique(st, c),
        distinct_values(db.visible(st), c),
{
    assert(db.committed[st].indexes.contains_key(c));
    assert(db.base(st).indexes.contains_key(c));
    law_unique_values_are_distinct(db, st, c);
}

/// A seek finds the one row that holds the value, first and last.
pub proof fn lemma_seek_finds_the_one(db: DbModel, t: u32, c: u32, v: Value, k: Key)
    requires
        db.inv(),
        db.tx is Some,
        db.visible(t).contains_key(k),
        holds(db.visible(t)[k], c, v),
        distinct_values(db.visible(t), c),
    ensures
        ({
            let r = db.seek(t, c, v);
            &&& r is Ok
            &&& r->Ok_0.len() > 0
            &&& r->Ok_0[0] == db.visible(t)[k]
            &&& r->Ok_0.last() == db.visible(t)[k]
        }),
{
    law_seek_yields_matching_rows(db, t, c, v);
    lemma_seek_finds(db, t, c, v, k);
    let m = holding(db.visible(t), c, v);
    let rows = db.seek(t, c, v)->Ok_0;
    assert(rows.contains(rows[0]) && rows.contains(rows[rows.len() - 1]));
    lemma_each_once_contains(rows, m, rows[0]);
    lemma_each_once_contains(rows, m, rows.last());
    assert forall|j: Key| #[trigger] m.contains_key(j) implies j == k by {
        assert(db.visible(t).contains_key(j) && db.visible(t).contains_key(k));
    }
}

/// A seek for what no row holds finds nothing.
pub proof fn lemma_seek_finds_none(db: DbModel, t: u32, c: u32, v: Value)
    requires
        db.inv(),
        db.tx is Some,
        db.table_exists(t),
        forall|k: Key| #[trigger] db.visible(t).contains_key(k) ==> !holds(db.visible(t)[k], c, v),
    ensures
        db.seek(t, c, v) is Ok,
        db.seek(t, c, v)->Ok_0.len() == 0,
{
    law_seek_yields_matching_rows(db, t, c, v);
    let m = holding(db.visible(t), c, v);
    let rows = db.seek(t, c, v)->Ok_0;
    if rows.len() > 0 {
        assert(rows.contains(rows[0]));
        lemma_each_once_contains(rows, m, rows[0]);
    }
}

/// A table that is listed, under whatever name, takes a name that is free, and has it from then
/// on: the new name leads to it, the old one to nothing, and what is listed for the other tables
/// is as it was. Another row of the same key would be overwritten, so there is none.
pub proof fn law_table_is_renamed(db: DbModel, t: u32, k: Key, before: Seq<char>, name: Seq<char>)
    requires
        db.inv(),
        db.tx is Some,
        catalogue_in_form(db, ST_TABLES_ID, 2, 2),
        db.visible(ST_TABLES_ID).contains_key(k),
        db.visible(ST_TABLES_ID)[k] == (TableRowModel { table_id: t, table_name: before }).row(),
        forall|j: Key| #[trigger]
            db.visible(ST_TABLES_ID).contains_key(j) ==> !holds(
                db.visible(ST_TABLES_ID)[j],
                1,
                Value::String(name),
            ),
        ({
            let row = (TableRowModel { table_id: t, table_name: name }).row();
            row_key(row) == k || !db.visible(ST_TABLES_ID).contains_key(row_key(row))
        }),
    ensures
        ({
            let (after, r) = db.rename_table(t, name);
            let row = (TableRowModel { table_id: t, table_name: name }).row();
            &&& r is Ok
            &&& after.inv()
            &&& after.tx is Some
            &&& after.visible(ST_TABLES_ID) == db.visible(ST_TABLES_ID).remove(k).insert(
                row_key(row),
                row,
            )
            &&& forall|u: u32| u != ST_TABLES_ID ==> #[trigger] after.visible(u) == db.visible(u)
            &&& after.table_id_from_name(name) == Ok::<Option<u32>, Fault>(Some(t))
            &&& after.table_id_from_name(before) == Ok::<Option<u32>, Fault>(None)
            &&& after.table_name_from_id(t) == Ok::<Option<Seq<char>>, Fault>(Some(name))
            &&& catalogue_in_form(after, ST_TABLES_ID, 2, 2)
        }),
{
    let st = ST_TABLES_ID;
    let seen = db.visible(st);
    law_keys_are_distinct(db, st, 2, 2, 0);
    law_keys_are_distinct(db, st, 2, 2, 1);
    assert(holds(seen[k], 0, Value::U32(t)));
    assert(holds(seen[k], 1, Value::String(before)));
    lemma_seek_finds_the_one(db, st, 0, Value::U32(t), k);
    lemma_seen_under_key(db, st, k);
    let mid = db.delete_row(st, k).0;
    lemma_delete_keeps_tables(db, st, k);
    law_deleted_row_is_gone(db, st, k);
    assert(mid.visible(st) =~= seen.remove(k));
    let row = (TableRowModel { table_id: t, table_name: name }).row();
    assert(catalogue_in_form(mid, st, 2, 2));
    assert forall|c: u32, j: Key| !(#[trigger] agrees_at(mid, st, c, j, row)) by {
        if agrees_at(mid, st, c, j, row) {
            assert(seen.contains_key(j) && seen.contains_key(k));
            assert(c == 0 || c == 1);
            assert(distinct_values(seen, c));
        }
    }
    lemma_insert_into_form(mid, st, 2, 2, row);
    let after = mid.insert_row_internal(st, row).0;
    assert(db.rename_table(t, name).0 == after);
    assert(after.visible(st) =~= seen.remove(k).insert(row_key(row), row));
    assert forall|u: u32| u != st implies #[trigger] after.visible(u) == db.visible(u) by {
        assert(mid.visible(u) == db.visible(u));
    }
    assert(after.table_exists(st) == mid.table_exists(st));
    law_keys_are_distinct(after, st, 2, 2, 0);
    law_keys_are_distinct(after, st, 2, 2, 1);
    lemma_seek_finds_the_one(after, st, 0, Value::U32(t), row_key(row));
    lemma_seek_finds_the_one(after, st, 1, Value::String(name), row_key(row));
    assert forall|j: Key| #[trigger] after.visible(st).contains_key(j) implies !holds(
        after.visible(st)[j],
        1,
        Value::String(before),
    ) by {
        assert(!holds(seen[k], 1, Value::String(name)));
        if j != row_key(row) {
            assert(seen.contains_key(j) && seen.contains_key(k));
        }
    }
    lemma_seek_finds_none(after, st, 1, Value::String(before));
}

/// The table that an id leads to takes a name that is free, and has it from then on, and every
/// other table keeps its id and its name. The new row does not have the key of that of another
/// table.
pub proof fn law_named_table_is_renamed(
    db: DbModel,
    t: u32,
    before: Seq<char>,
    name: Seq<char>,
    u: u32,
    other: Seq<char>,
)
    requires
        db.inv(),
        db.tx is Some,
        catalogue_in_form(db, ST_TABLES_ID, 2, 2),
        db.table_name_from_id(t) == Ok::<Option<Seq<char>>, Fault>(Some(before)),
        db.table_id_from_name(name) == Ok::<Option<u32>, Fault>(None),
        ({
            let row = (TableRowModel { table_id: t, table_name: name }).row();
            let seen = db.visible(ST_TABLES_ID);
            seen.contains_key(row_key(row)) ==> holds(seen[row_key(row)], 0, Value::U32(t))
        }),
    ensures
        ({
            let (after, r) = db.rename_table(t, name);
            &&& r is Ok
            &&& after.table_id_from_name(name) == Ok::<Option<u32>, Fault>(Some(t))
            &&& after.table_id_from_name(before) == Ok::<Option<u32>, Fault>(None)
            &&& after.table_name_from_id(t) == Ok::<Option<Seq<char>>, Fault>(Some(name))
            &&& u != t ==> after.table_name_from_id(u) == db.table_name_from_id(u)
            &&& other != name && other != before ==> after.table_id_from_name(other)
                == db.table_id_from_name(other)
        }),
{
    let st = ST_TABLES_ID;
    let seen = db.visible(st);
    let v = Value::U32(t);
    let rows = db.seek(st, 0, v)->Ok_0;
    law_seek_yields_matching_rows(db, st, 0, v);
    law_seek_yields_matching_rows(db, st, 1, Value::String(name));
    let m = holding(seen, 0, v);
    assert(rows.contains(rows[0]));
    lemma_each_once_contains(rows, m, rows[0]);
    let k = choose|k: Key| #[trigger] m.contains_key(k) && m[k] == rows[0];
    assert(seen.contains_key(k));
    law_rows_have_their_width(db, st, 2, 2, k);
    assert(seen[k] =~= (TableRowModel { table_id: t, table_name: before }).row());
    law_keys_are_distinct(db, st, 2, 2, 0);
    law_keys_are_distinct(db, st, 2, 2, 1);
    assert forall|j: Key| #[trigger] seen.contains_key(j) implies !holds(
        seen[j],
        1,
        Value::String(name),
    ) by {
        if holds(seen[j], 1, Value::String(name)) {
            lemma_seek_finds(db, st, 1, Value::String(name), j);
        }
    }
    let row = (TableRowModel { table_id: t, table_name: name }).row();
    assert(seen.contains_key(row_key(row)) ==> row_key(row) == k);
    law_table_is_renamed(db, t, k, before, name);
    let after = db.rename_table(t, name).0;
    law_keys_are_distinct(after, st, 2, 2, 0);
    law_keys_are_distinct(after, st, 2, 2, 1);
    assert(after.table_exists(st));
    if u != t {
        lemma_same_row_is_sought(db, after, st, 0, Value::U32(u), k, row_key(row));
    }
    if other != name && other != before {
        lemma_same_row_is_sought(db, after, st, 1, Value::String(other), k, row_key(row));
    }
}

/// Where a row is taken out and one put in, neither of which holds the value, a seek for it finds
/// first what it found, if the values in the column are distinct.
proof fn lemma_same_row_is_sought(
    a: DbModel,
    b: DbModel,
    t: u32,
    c: u32,
    v: Value,
    gone: Key,
    new: Key,
)
    requires
        a.inv(),
        a.tx is Some,
        b.inv(),
        b.tx is Some,
        a.table_exists(t),
        b.table_exists(t),
        distinct_values(a.visible(t), c),
        distinct_values(b.visible(t), c),
        a.visible(t).contains_key(gone) ==> !holds(a.visible(t)[gone], c, v),
        b.visible(t).contains_key(new) ==> !holds(b.visible(t)[new], c, v),
        forall|k: Key| #[trigger]
            a.visible(t).contains_key(k) && k != gone ==> b.visible(t).contains_key(k)
                && b.visible(t)[k] == a.visible(t)[k],
        forall|k: Key| #[trigger]
            b.visible(t).contains_key(k) && k != new ==> a.visible(t).contains_key(k) && k != gone,
    ensures
        a.seek(t, c, v) is Ok,
        b.seek(t, c, v) is Ok,
        a.seek(t, c, v)->Ok_0.len() == 0 <==> b.seek(t, c, v)->Ok_0.len() == 0,
        a.seek(t, c, v)->Ok_0.len() > 0 ==> a.seek(t, c, v)->Ok_0[0] == b.seek(t, c, v)->Ok_0[0],
{
    if exists|k: Key| #[trigger] a.visible(t).contains_key(k) && holds(a.visible(t)[k], c, v) {
        let k = choose|k: Key| #[trigger]
            a.visible(t).contains_key(k) && holds(a.visible(t)[k], c, v);
        lemma_seek_finds_the_one(a, t, c, v, k);
        lemma_seek_finds_the_one(b, t, c, v, k);
    } else {
        assert forall|k: Key| #[trigger] b.visible(t).contains_key(k) implies !holds(
            b.visible(t)[k],
            c,
            v,
        ) by {
            if k != new {
                assert(a.visible(t).contains_key(k));
            }
        }
        lemma_seek_finds_none(a, t, c, v);
        lemma_seek_finds_none(b, t, c, v);
    }
}

/// A table that is not listed is not renamed, and nothing changes.
pub proof fn law_unlisted_table_is_not_renamed(db: DbModel, t: u32, name: Seq<char>)
    requires
        db.inv(),
        db.tx is Some,
        db.table_exists(ST_TABLES_ID),
        forall|k: Key| #[trigger]
            db.visible(ST_TABLES_ID).contains_key(k) ==> !holds(
                db.visible(ST_TABLES_ID)[k],
                0,
                Value::U32(t),
            ),
    ensures
        db.rename_table(t, name) == (db, Err::<(), Fault>(Fault::TableIdNotFound(t))),
{
    lemma_seek_finds_none(db, ST_TABLES_ID, 0, Value::U32(t));
}

/// The row type that a table has in a transaction it has past the commit. A part of the table that
/// the transaction made has the row type of the committed table, where there is one.
pub proof fn law_row_type_stays_past_commit(db: DbModel, t: u32)
    requires
        db.tx is Some,
        db.row_type(t) is Some,
        db.has_base(t) && db.has_inserts(t) ==> db.inserts(t).row_type == db.committed[t].row_type,
    ensures
        db.commit().begin().table_exists(t),
        db.commit().begin().row_type_for_table(t) == db.row_type_for_table(t),
{
}

/// A table that was made has the row type of its definition past the commit too.
pub proof fn law_created_table_keeps_its_row_type(db: DbModel, def: TableDefModel)
    requires
        db.inv(),
        db.tx is Some,
        db.create_table(def).1 is Ok,
    ensures
        ({
            let (after, r) = db.create_table(def);
            let t = r->Ok_0;
            &&& after.row_type_for_table(t) == Ok::<RowType, Fault>(def.row_type())
            &&& after.commit().begin().table_exists(t)
            &&& after.commit().begin().row_type_for_table(t) == Ok::<RowType, Fault>(
                def.row_type(),
            )
        }),
{
    law_created_table_is_there(db, def);
    let (after, r) = db.create_table(def);
    law_row_type_stays_past_commit(after, r->Ok_0);
}

/// A table keeps its row type, whatever is done to rows, to sequences, to indexes and to names.
pub proof fn law_row_types_stay(db: DbModel, u: u32, t: u32, k: Key, id: u32, name: Seq<char>)
    requires
        db.inv(),
        db.tx is Some,
    ensures
        db.delete_row(t, k).0.row_type(u) == db.row_type(u),
        db.drop_sequence(id).0.row_type(u) == db.row_type(u),
        db.drop_index(id).0.row_type(u) == db.row_type(u),
        db.rename_table(t, name).0.row_type(u) == db.row_type(u),
{
    lemma_delete_keeps_tables(db, t, k);
    assert(db.delete_row(t, k).0.row_type(u) == db.row_type(u));
    let sequences = db.seek(ST_SEQUENCES_ID, 0, Value::U32(id));
    if sequences is Ok {
        lemma_delete_keeps_tables(db, ST_SEQUENCES_ID, row_key(sequences->Ok_0.last()));
    }
    let indexes = db.seek(ST_INDEXES_ID, 0, Value::U32(id));
    if indexes is Ok {
        lemma_delete_keeps_tables(db, ST_INDEXES_ID, row_key(indexes->Ok_0.last()));
    }
    let tables = db.seek(ST_TABLES_ID, 0, Value::U32(t));
    if tables is Ok && tables->Ok_0.len() > 0 {
        let mid = db.delete_row(ST_TABLES_ID, row_key(tables->Ok_0[0])).0;
        lemma_delete_keeps_tables(db, ST_TABLES_ID, row_key(tables->Ok_0[0]));
        match TableRowModel::of_row(tables->Ok_0[0]) {
            Ok(el) => {
                lemma_insert_internal_keeps_tables(
                    mid,
                    ST_TABLES_ID,
                    (TableRowModel { table_name: name, ..el }).row(),
                );
            },
            Err(_) => {},
        }
    }
}

/// A table that was made is not there once the transaction is rolled back: nothing leads to its
/// row type, unless the transaction had dropped a table of the same id, or one was listed.
pub proof fn law_created_table_is_gone_after_rollback(db: DbModel, def: TableDefModel)
    requires
        db.inv(),
        db.tx is Some,
        db.create_table(def).1 is Ok,
        db.committed.contains_key(ST_TABLES_ID),
        !db.tx->0.dropped.contains(db.create_table(def).1->Ok_0),
        forall|k: Key| #[trigger]
            db.committed_rows(ST_TABLES_ID).contains_key(k) ==> !holds(
                db.committed_rows(ST_TABLES_ID)[k],
                0,
                Value::U32(db.create_table(def).1->Ok_0),
            ),
    ensures
        ({
            let (after, r) = db.create_table(def);
            let t = r->Ok_0;
            &&& !after.rollback().begin().table_exists(t)
            &&& after.rollback().begin().row_type_for_table(t) == Err::<RowType, Fault>(
                Fault::TableIdNotFound(t),
            )
            &&& after.rollback().begin().schema_for_table(t) is Err
        }),
{
    law_created_table_is_there(db, def);
    let (after, r) = db.create_table(def);
    let next = after.rollback().begin();
    lemma_begin_inv(after.rollback());
    assert(next.visible(ST_TABLES_ID) =~= db.committed_rows(ST_TABLES_ID));
    lemma_seek_finds_none(next, ST_TABLES_ID, 0, Value::U32(r->Ok_0));
}

/// Sequence `s` is listed under `k`, in a row that can be read.
pub open spec fn lists_sequence(db: DbModel, s: u32, k: Key) -> bool {
    &&& db.visible(ST_SEQUENCES_ID).contains_key(k)
    &&& SequenceModel::of_row(db.visible(ST_SEQUENCES_ID)[k]) is Ok
    &&& SequenceModel::of_row(db.visible(ST_SEQUENCES_ID)[k])->Ok_0.sequence_id == s
}

/// The row of sequence `s` once more is allocated to it.
pub open spec fn reallocated_row(db: DbModel, s: u32, k: Key) -> Row {
    SequenceModel::of_row(db.visible(ST_SEQUENCES_ID)[k])->Ok_0.allocated_to(
        db.sequences[s].nth(SEQUENCE_ALLOCATION as nat),
    ).row()
}

/// More can be allocated to sequence `s`, which is listed under `k`: the allocation leads to
/// another number, and no unique index is on the column that the allocation is in.
pub open spec fn can_allocate(db: DbModel, s: u32, k: Key) -> bool {
    &&& catalogue_in_form(db, ST_SEQUENCES_ID, 9, 1)
    &&& !db.has_unique(ST_SEQUENCES_ID, 8)
    &&& lists_sequence(db, s, k)
    &&& db.sequences[s].nth(SEQUENCE_ALLOCATION as nat) != db.sequences[s].value
}

/// A sequence gives out the number that is its turn, whether or not more has to be allocated to it
/// first. The number after it comes next, and the other sequences are as they were. So are the
/// tables, and the catalogue stays in form. A sequence whose range is such that an allocation leads
/// back to the number that it starts from has nothing to give, and is left out.
pub proof fn law_number_after_number(db: DbModel, s: u32, k: Key)
    requires
        db.inv(),
        db.tx is Some,
        db.in_use(s),
        db.sequences[s].exhausted() ==> can_allocate(db, s, k),
    ensures
        ({
            let (after, r) = db.get_next_sequence_value(s);
            let q = db.sequences[s];
            &&& r == Ok::<i128, Fault>(q.value)
            &&& after.in_use(s)
            &&& after.sequences[s].allocated_to(q.allocated) == q.advanced()
            &&& after.sequences == db.sequences.insert(s, after.sequences[s])
            &&& forall|u: u32| u != ST_SEQUENCES_ID ==> #[trigger] after.visible(u) == db.visible(u)
            &&& same_tables(db, after)
            &&& lists_sequence(db, s, k) ==> exists|j: Key| #[trigger] lists_sequence(after, s, j)
        }),
{
    let q = db.sequences[s];
    let after = db.get_next_sequence_value(s).0;
    if !q.exhausted() {
        lemma_sequence_keeps_tables(db, s, q.advanced());
        assert forall|u: u32| #[trigger] after.visible(u) == db.visible(u) by {
            assert(after.visible(u) =~= db.visible(u));
        }
        assert(lists_sequence(db, s, k) ==> lists_sequence(after, s, k));
    } else {
        lemma_number_past_allocation(db, s, k);
        assert(lists_sequence(after, s, row_key(reallocated_row(db, s, k))));
    }
}

proof fn lemma_number_past_allocation(db: DbModel, s: u32, k: Key)
    requires
        db.inv(),
        db.tx is Some,
        db.in_use(s),
        db.sequences[s].exhausted(),
        can_allocate(db, s, k),
    ensures
        ({
            let (after, r) = db.get_next_sequence_value(s);
            let q = db.sequences[s];
            &&& r == Ok::<i128, Fault>(q.value)
            &&& after.in_use(s)
            &&& after.sequences[s].allocated_to(q.allocated) == q.advanced()
            &&& after.sequences == db.sequences.insert(s, after.sequences[s])
            &&& forall|u: u32| u != ST_SEQUENCES_ID ==> #[trigger] after.visible(u) == db.visible(u)
            &&& same_tables(db, after)
            &&& lists_sequence(after, s, row_key(reallocated_row(db, s, k)))
            &&& after.sequences[s].allocated == q.nth(SEQUENCE_ALLOCATION as nat)
            &&& after.visible(ST_SEQUENCES_ID) == db.visible(ST_SEQUENCES_ID).remove(k).insert(
                row_key(reallocated_row(db, s, k)),
                reallocated_row(db, s, k),
            )
        }),
{
    let st = ST_SEQUENCES_ID;
    let q = db.sequences[s];
    let seen = db.visible(st);
    let after = db.get_next_sequence_value(s).0;
    let to = q.nth(SEQUENCE_ALLOCATION as nat);
    let listed = SequenceModel::of_row(seen[k])->Ok_0;
    let row = reallocated_row(db, s, k);
    assert(seen[k][0] == Value::U32(s));
    assert(holds(seen[k], 0, Value::U32(s)));
    law_keys_are_distinct(db, st, 9, 1, 0);
    lemma_seek_finds_the_one(db, st, 0, Value::U32(s), k);
    lemma_seen_under_key(db, st, k);
    let a = db.refill(s, to);
    lemma_refill_keeps_tables(db, s, to);
    let b = a.delete_row(st, k).0;
    lemma_delete_keeps_tables(a, st, k);
    law_deleted_row_is_gone(a, st, k);
    assert(a.visible(st) == seen);
    assert(b.visible(st) =~= seen.remove(k));
    assert(catalogue_in_form(a, st, 9, 1));
    assert(catalogue_in_form(b, st, 9, 1));
    assert forall|c: u32, j: Key| !(#[trigger] agrees_at(b, st, c, j, row)) by {
        if agrees_at(b, st, c, j, row) {
            assert(b.has_unique(st, c) == a.has_unique(st, c));
            assert(a.has_unique(st, c) == db.has_unique(st, c));
            assert(c != 8);
            lemma_reallocated_row(listed, seen[k], to, c);
            law_unique_values_are_distinct(db, st, c);
            assert(seen.contains_key(j) && seen.contains_key(k));
        }
    }
    lemma_insert_into_form(b, st, 9, 1, row);
    let c = b.insert_row_internal(st, row).0;
    let p = c.sequences[s];
    assert(p == q.allocated_to(to));
    lemma_sequence_keeps_tables(c, s, p.advanced());
    assert(after == c.with_sequence(s, p.advanced()));
    assert forall|u: u32| #[trigger] after.visible(u) == c.visible(u) by {
        assert(after.visible(u) =~= c.visible(u));
    }
    law_sequence_row_round_trip(listed.allocated_to(to));
    assert(lists_sequence(after, s, row_key(row)));
    assert(after.sequences =~= db.sequences.insert(s, after.sequences[s]));
    assert(after.sequences[s].allocated_to(q.allocated) =~= q.advanced());
    assert forall|u: u32| u != st implies #[trigger] after.visible(u) == db.visible(u) by {
        assert(a.visible(u) == db.visible(u));
        assert(b.visible(u) == a.visible(u));
        assert(c.visible(u) == b.visible(u));
    }
    lemma_same_tables_chain(db, a, b, c, after);
}

/// The number that is `n` places on in sequence `q`, counted up without an end.
pub open spec fn counted_up(q: SequenceModel, n: int) -> int {
    q.value + n * q.increment
}

/// A sequence that has nothing left is allocated the next thousand and twenty-four numbers. Its row
/// is put back with what is allocated in its last place, and otherwise as it was. Where the
/// sequence counts up and does not come to its end, that is as many increments on.
pub proof fn law_more_is_allocated(db: DbModel, s: u32, k: Key)
    requires
        db.inv(),
        db.tx is Some,
        db.in_use(s),
        db.sequences[s].value == db.sequences[s].allocated,
        can_allocate(db, s, k),
    ensures
        ({
            let after = db.get_next_sequence_value(s).0;
            let q = db.sequences[s];
            let was = db.visible(2)[k];
            let to = after.sequences[s].allocated;
            &&& to == q.nth(1024)
            &&& q.increment > 0 && q.min_value <= q.value && counted_up(q, 1024) <= q.max_value
                ==> to == counted_up(q, 1024)
            &&& exists|row: Row|
                {
                    &&& #[trigger] after.visible(2) == db.visible(2).remove(k).insert(
                        row_key(row),
                        row,
                    )
                    &&& row.len() == 9
                    &&& row[8] == Value::I128(to)
                    &&& forall|i: int| 0 <= i < 8 ==> #[trigger] row[i] == was[i]
                }
        }),
{
    let after = db.get_next_sequence_value(s).0;
    let q = db.sequences[s];
    let was = db.visible(2)[k];
    let to = q.nth(1024);
    lemma_number_past_allocation(db, s, k);
    if q.increment > 0 && q.min_value <= q.value && counted_up(q, 1024) <= q.max_value {
        law_sequence_counts_up(q, 1024);
    }
    let row = reallocated_row(db, s, k);
    let listed = SequenceModel::of_row(was)->Ok_0;
    assert forall|i: int| 0 <= i < 8 implies #[trigger] row[i] == was[i] by {
        lemma_reallocated_row(listed, was, to, i as u32);
    }
    assert(row[8] == Value::I128(to));
    assert(after.visible(2) == db.visible(2).remove(k).insert(row_key(row), row));
}

/// The row of a sequence that is allocated anew differs only in what is allocated.
proof fn lemma_reallocated_row(listed: SequenceModel, row: Row, to: i128, c: u32)
    requires
        SequenceModel::of_row(row) == Ok::<SequenceModel, Fault>(listed),
        c < 8,
    ensures
        c < row.len(),
        listed.allocated_to(to).row()[c as int] == row[c as int],
{
}

/// `a` and `b` are one sequence that is to give out the same number next, whatever is allocated.
pub open spec fn counts_alike(a: SequenceModel, b: SequenceModel) -> bool {
    a.allocated_to(b.allocated) == b
}

/// The call after one that gave out `v` gives out the number after `v`: in the same transaction, or
/// in one after it was committed or rolled back, whatever was done in between, as long as the
/// sequence was left alone.
pub proof fn law_next_call_gives_next_number(db: DbModel, next: DbModel, s: u32, k: Key, j: Key)
    requires
        db.inv(),
        db.tx is Some,
        db.in_use(s),
        db.sequences[s].exhausted() ==> can_allocate(db, s, k),
        next.inv(),
        next.tx is Some,
        next.in_use(s),
        counts_alike(next.sequences[s], db.get_next_sequence_value(s).0.sequences[s]),
        next.sequences[s].exhausted() ==> can_allocate(next, s, j),
    ensures
        ({
            let (after, r) = db.get_next_sequence_value(s);
            let q = db.sequences[s];
            let v = r->Ok_0;
            let second = next.get_next_sequence_value(s).1;
            &&& r is Ok
            &&& second == Ok::<i128, Fault>(q.after(v))
            &&& q.min_value <= v + q.increment <= q.max_value ==> second->Ok_0 == v + q.increment
        }),
{
    law_number_after_number(db, s, k);
    law_number_after_number(next, s, j);
    let after = db.get_next_sequence_value(s).0;
    assert(after.sequences[s].allocated_to(db.sequences[s].allocated).value
        == after.sequences[s].value);
}

proof fn lemma_same_tables_chain(a: DbModel, b: DbModel, c: DbModel, d: DbModel, e: DbModel)
    requires
        same_tables(a, b),
        same_tables(b, c),
        same_tables(c, d),
        same_tables(d, e),
    ensures
        same_tables(a, e),
{
    lemma_same_tables_through(a, b, c);
    lemma_same_tables_through(a, c, d);
    lemma_same_tables_through(a, d, e);
}

/// A number that was given out is not given out again when the transaction is rolled back or
/// committed: a sequence that is not dropped goes on where it was. One that the transaction made is
/// not there once it is rolled back.
pub proof fn law_numbers_are_not_taken_back(db: DbModel, s: u32)
    requires
        db.tx is Some,
        db.in_use(s),
    ensures
        db.commit().begin().in_use(s),
        db.commit().begin().sequences[s] == db.sequences[s],
        ({
            let next = db.rollback().begin();
            let q = db.sequences[s];
            if db.tx->0.made_sequences.contains(s) {
                !next.in_use(s)
            } else {
                next.in_use(s) && counts_alike(next.sequences[s], q)
            }
        }),
{
}

} // verus!
