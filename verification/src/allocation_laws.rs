//! What holds of the numbers that are allocated to sequences.

use vstd::prelude::*;

use crate::catalogue_laws::{
    can_allocate, catalogue_in_form, counts_alike, law_keys_are_distinct, law_number_after_number,
    law_numbers_are_not_taken_back, lists_sequence,
};
use crate::data_key::{row_key, Key};
use crate::data_laws::{rows_of_column, rows_of_filling, rows_of_insert, rows_of_next};
use crate::drop_laws::law_drops_only_take_away;
use crate::error::Fault;
use crate::form_laws::law_next_transaction_keeps_form;
use crate::ids::{ST_COLUMNS_ID, ST_INDEXES_ID, ST_SEQUENCES_ID, ST_TABLES_ID};
use crate::laws::{
    law_commit_keeps_unique_indexes, law_committed_rows_are_seen_next, law_deleted_row_is_gone,
    law_insert_keeps_tables,
    law_inserted_row_is_visible, law_refused_row_changes_nothing_seen,
    law_rolled_back_rows_are_not_seen, law_seek_yields_matching_rows, lemma_columns_keep,
    lemma_delete_keeps_tables, lemma_each_once_contains, lemma_fill_keeps_tables,
    lemma_index_internal_keeps, lemma_indexes_keep, lemma_insert_internal_keeps_tables,
    lemma_refill_keeps_tables,
};
use crate::model::{
    column_sequence, holding, holds, listed_column, new_index, new_sequence, new_table,
    sequence_for, DbModel, SEQUENCE_ALLOCATION,
};
use crate::schema::{
    IndexDefModel, IndexSchemaModel, SchemaModel, SequenceDefModel, TableDefModel,
};
use crate::sequence::SequenceModel;
use crate::soundness::{
    lemma_begin_inv, lemma_commit_inv, lemma_new_table_inv, lemma_rollback_inv,
    lemma_seen_under_key,
};
use crate::system_tables::{law_sequence_row_round_trip, TableRowModel};
use crate::value::{is_zero, Row, Value};

verus! {

/// `row` lists sequence `s`.
pub open spec fn lists(row: Row, s: u32) -> bool {
    SequenceModel::of_row(row) is Ok && SequenceModel::of_row(row)->Ok_0.sequence_id == s
}

/// A sequence gives out nothing that `rows` do not list as allocated to it: it has nothing left of
/// its allocation, or the allocation is what they list.
pub open spec fn is_covered(q: SequenceModel, rows: Map<Key, Row>, s: u32) -> bool {
    q.exhausted() || forall|k: Key| #[trigger]
        rows.contains_key(k) && lists(rows[k], s) ==> SequenceModel::of_row(
            rows[k],
        )->Ok_0.allocated == q.allocated
}

/// Sequence `s` gives out no number that is not allocated to it in the catalogue: as the
/// transaction sees it and, where the transaction neither made it nor allocated more to it, as it
/// is committed.
pub open spec fn within_allocation(db: DbModel, s: u32) -> bool {
    &&& db.in_use(s) ==> is_covered(db.sequences[s], db.visible(ST_SEQUENCES_ID), s)
    &&& db.sequences.contains_key(s) && !db.tx->0.made_sequences.contains(s)
        && !db.tx->0.refilled_sequences.contains(s) ==> is_covered(
        db.sequences[s],
        db.committed_rows(ST_SEQUENCES_ID),
        s,
    )
}

/// `b` has sequence `s` as `a` has it, and lists it in no row that `a` does not.
spec fn leaves_alone(a: DbModel, b: DbModel, s: u32) -> bool {
    &&& b.committed == a.committed
    &&& b.sequences.contains_key(s) == a.sequences.contains_key(s)
    &&& b.sequences.contains_key(s) ==> b.sequences[s] == a.sequences[s]
    &&& b.in_use(s) ==> a.in_use(s)
    &&& b.tx->0.made_sequences.contains(s) == a.tx->0.made_sequences.contains(s)
    &&& b.tx->0.refilled_sequences.contains(s) == a.tx->0.refilled_sequences.contains(s)
    &&& forall|k: Key| #[trigger]
        b.visible(ST_SEQUENCES_ID).contains_key(k) && lists(b.visible(ST_SEQUENCES_ID)[k], s) ==> {
            &&& a.visible(ST_SEQUENCES_ID).contains_key(k)
            &&& a.visible(ST_SEQUENCES_ID)[k] == b.visible(ST_SEQUENCES_ID)[k]
        }
}

proof fn lemma_left_alone(a: DbModel, b: DbModel, s: u32)
    requires
        leaves_alone(a, b, s),
        within_allocation(a, s),
    ensures
        within_allocation(b, s),
{
    assert(b.committed_rows(ST_SEQUENCES_ID) == a.committed_rows(ST_SEQUENCES_ID));
    if b.in_use(s) && !b.sequences[s].exhausted() {
        let rows = b.visible(ST_SEQUENCES_ID);
        assert forall|k: Key| #[trigger]
            rows.contains_key(k) && lists(rows[k], s) implies SequenceModel::of_row(
            rows[k],
        )->Ok_0.allocated == b.sequences[s].allocated by {
            assert(a.visible(ST_SEQUENCES_ID).contains_key(k));
        }
    }
}

/// To delete rows leaves sequences alone.
proof fn lemma_delete_leaves_alone(db: DbModel, t: u32, k: Key, s: u32)
    requires
        db.inv(),
        db.tx is Some,
    ensures
        leaves_alone(db, db.delete_row(t, k).0, s),
{
    law_deleted_row_is_gone(db, t, k);
    let after = db.delete_row(t, k).0;
    if t != ST_SEQUENCES_ID {
        assert(after.visible(ST_SEQUENCES_ID) == db.visible(ST_SEQUENCES_ID));
    }
}

/// To insert a row leaves a sequence alone, unless the row is taken and lists it.
proof fn lemma_insert_leaves_alone(db: DbModel, t: u32, row: Row, s: u32)
    requires
        db.inv(),
        db.tx is Some,
        t == ST_SEQUENCES_ID && db.insert_row_internal(t, row).1 is Ok ==> !lists(row, s),
    ensures
        leaves_alone(db, db.insert_row_internal(t, row).0, s),
{
    if db.insert_row_internal(t, row).1 is Ok {
        law_inserted_row_is_visible(db, t, row);
        if t != ST_SEQUENCES_ID {
            assert(db.insert_row_internal(t, row).0.visible(ST_SEQUENCES_ID) == db.visible(
                ST_SEQUENCES_ID,
            ));
        }
    } else {
        law_refused_row_changes_nothing_seen(db, t, row);
        assert(db.insert_row_internal(t, row).0.visible(ST_SEQUENCES_ID) == db.visible(
            ST_SEQUENCES_ID,
        ));
    }
}

/// To give out a number of one sequence leaves another alone.
proof fn lemma_next_leaves_alone(db: DbModel, other: u32, s: u32)
    requires
        db.inv(),
        db.tx is Some,
        other != s,
        within_allocation(db, s),
    ensures
        within_allocation(db.get_next_sequence_value(other).0, s),
{
    let st = ST_SEQUENCES_ID;
    let after = db.get_next_sequence_value(other).0;
    let v = Value::U32(other);
    if !db.in_use(other) || !db.sequences[other].exhausted() {
        assert(after.visible(st) =~= db.visible(st));
        lemma_left_alone(db, after, s);
    } else {
        match db.seek(st, 0, v) {
            Ok(rows) => {
                if rows.len() > 0 {
                    match SequenceModel::of_row(rows.last()) {
                        Ok(listed) => {
                            let to = db.sequences[other].nth(SEQUENCE_ALLOCATION as nat);
                            let a = db.refill(other, to);
                            lemma_refill_keeps_tables(db, other, to);
                            assert(a.visible(st) == db.visible(st));
                            lemma_left_alone(db, a, s);
                            let b = a.delete_row(st, row_key(rows.last())).0;
                            lemma_delete_keeps_tables(a, st, row_key(rows.last()));
                            lemma_delete_leaves_alone(a, st, row_key(rows.last()), s);
                            lemma_left_alone(a, b, s);
                            let row = listed.allocated_to(to).row();
                            lemma_sought_row_lists(db, other);
                            law_sequence_row_round_trip(listed.allocated_to(to));
                            lemma_insert_leaves_alone(b, st, row, s);
                            let c = b.insert_row_internal(st, row).0;
                            lemma_left_alone(b, c, s);
                            assert(c.take_number(other).0.visible(st) =~= c.visible(st));
                            lemma_left_alone(c, c.take_number(other).0, s);
                        },
                        Err(_) => {},
                    }
                }
            },
            Err(_) => {},
        }
    }
}

/// The last row that a seek for sequence `s` finds is one that is seen, under its key, and lists
/// the sequence, where it can be read.
proof fn lemma_sought_row_lists(db: DbModel, s: u32)
    requires
        db.inv(),
        db.tx is Some,
        db.seek(ST_SEQUENCES_ID, 0, Value::U32(s)) is Ok,
        db.seek(ST_SEQUENCES_ID, 0, Value::U32(s))->Ok_0.len() > 0,
    ensures
        ({
            let row = db.seek(ST_SEQUENCES_ID, 0, Value::U32(s))->Ok_0.last();
            &&& db.visible(ST_SEQUENCES_ID).contains_key(row_key(row))
            &&& db.visible(ST_SEQUENCES_ID)[row_key(row)] == row
            &&& holds(row, 0, Value::U32(s))
            &&& SequenceModel::of_row(row) is Ok ==> lists(row, s)
        }),
{
    let st = ST_SEQUENCES_ID;
    let v = Value::U32(s);
    law_seek_yields_matching_rows(db, st, 0, v);
    let rows = db.seek(st, 0, v)->Ok_0;
    let m = holding(db.visible(st), 0, v);
    assert(rows.contains(rows[rows.len() - 1]));
    lemma_each_once_contains(rows, m, rows.last());
    let k = choose|k: Key| #[trigger] m.contains_key(k) && m[k] == rows.last();
    assert(db.visible(st).contains_key(k));
    lemma_seen_under_key(db, st, k);
}

/// A sequence stays within its allocation when it gives out a number, whether or not more has to be
/// allocated to it first.
proof fn lemma_next_stays_within(db: DbModel, s: u32)
    requires
        db.inv(),
        db.tx is Some,
        catalogue_in_form(db, ST_SEQUENCES_ID, 9, 1),
        within_allocation(db, s),
    ensures
        within_allocation(db.get_next_sequence_value(s).0, s),
{
    let st = ST_SEQUENCES_ID;
    let after = db.get_next_sequence_value(s).0;
    let v = Value::U32(s);
    if !db.in_use(s) || !db.sequences[s].exhausted() {
        assert(after.visible(st) =~= db.visible(st));
        assert(after.committed_rows(st) == db.committed_rows(st));
        if after.in_use(s) && !after.sequences[s].exhausted() {
            assert forall|k: Key| #[trigger]
                after.visible(st).contains_key(k) && lists(
                    after.visible(st)[k],
                    s,
                ) implies SequenceModel::of_row(after.visible(st)[k])->Ok_0.allocated
                == after.sequences[s].allocated by {
                assert(db.visible(st).contains_key(k));
            }
        }
    } else {
        match db.seek(st, 0, v) {
            Ok(rows) => {
                if rows.len() > 0 {
                    match SequenceModel::of_row(rows.last()) {
                        Ok(listed) => {
                            lemma_refill_stays_within(db, s);
                        },
                        Err(_) => {},
                    }
                }
            },
            Err(_) => {},
        }
    }
}

proof fn lemma_refill_stays_within(db: DbModel, s: u32)
    requires
        db.inv(),
        db.tx is Some,
        catalogue_in_form(db, ST_SEQUENCES_ID, 9, 1),
        db.in_use(s),
        db.sequences[s].exhausted(),
        db.seek(ST_SEQUENCES_ID, 0, Value::U32(s)) is Ok,
        db.seek(ST_SEQUENCES_ID, 0, Value::U32(s))->Ok_0.len() > 0,
        SequenceModel::of_row(db.seek(ST_SEQUENCES_ID, 0, Value::U32(s))->Ok_0.last()) is Ok,
    ensures
        within_allocation(db.get_next_sequence_value(s).0, s),
{
    let st = ST_SEQUENCES_ID;
    let found = db.seek(st, 0, Value::U32(s))->Ok_0.last();
    let key = row_key(found);
    let listed = SequenceModel::of_row(found)->Ok_0;
    let to = db.sequences[s].nth(SEQUENCE_ALLOCATION as nat);
    let row = listed.allocated_to(to).row();
    lemma_sought_row_lists(db, s);
    law_keys_are_distinct(db, st, 9, 1, 0);
    let a = db.refill(s, to);
    lemma_refill_keeps_tables(db, s, to);
    assert(a.visible(st) == db.visible(st));
    let b = a.delete_row(st, key).0;
    lemma_delete_keeps_tables(a, st, key);
    law_deleted_row_is_gone(a, st, key);
    assert forall|k: Key| #[trigger] b.visible(st).contains_key(k) implies !lists(
        b.visible(st)[k],
        s,
    ) by {
        if lists(b.visible(st)[k], s) {
            assert(db.visible(st).contains_key(k) && db.visible(st).contains_key(key));
            assert(db.visible(st)[k][0] == Value::U32(s));
            assert(db.visible(st)[key][0] == Value::U32(s));
        }
    }
    let (c, r) = b.insert_row_internal(st, row);
    law_sequence_row_round_trip(listed.allocated_to(to));
    if r is Ok {
        law_inserted_row_is_visible(b, st, row);
    } else {
        law_refused_row_changes_nothing_seen(b, st, row);
        assert(c.visible(st) == b.visible(st));
    }
    let after = db.get_next_sequence_value(s).0;
    assert(after.visible(st) =~= c.visible(st));
    assert(after.tx->0.refilled_sequences.contains(s));
    assert(after.sequences[s].allocated == to);
}

/// A sequence stays within its allocation whatever sequence gives out a number.
pub proof fn law_next_number_stays_within_allocation(db: DbModel, other: u32, s: u32)
    requires
        db.inv(),
        db.tx is Some,
        catalogue_in_form(db, ST_SEQUENCES_ID, 9, 1),
        within_allocation(db, s),
    ensures
        within_allocation(db.get_next_sequence_value(other).0, s),
{
    if other == s {
        lemma_next_stays_within(db, s);
    } else {
        lemma_next_leaves_alone(db, other, s);
    }
}

proof fn lemma_filling_stays_within(
    db: DbModel,
    t: u32,
    schema: SchemaModel,
    n: nat,
    row: Row,
    s: u32,
)
    requires
        db.inv(),
        db.tx is Some,
        catalogue_in_form(db, ST_SEQUENCES_ID, 9, 1),
        within_allocation(db, s),
    ensures
        within_allocation(db.fill_columns(t, schema, n, row).0, s),
    decreases n,
{
    if n > 0 {
        lemma_filling_stays_within(db, t, schema, (n - 1) as nat, row, s);
        lemma_fill_keeps_tables(db, t, schema, (n - 1) as nat, row);
        let (mid, r) = db.fill_columns(t, schema, (n - 1) as nat, row);
        assert(catalogue_in_form(mid, ST_SEQUENCES_ID, 9, 1));
        if r is Ok {
            let col = schema.columns[n - 1];
            match mid.seek(ST_SEQUENCES_ID, 2, Value::U32(t)) {
                Ok(rows) => match sequence_for(rows, col.col_id) {
                    Ok(Some(q)) => law_next_number_stays_within_allocation(mid, q, s),
                    _ => {},
                },
                Err(_) => {},
            }
        }
    }
}

/// A sequence stays within its allocation when a row is inserted into a table other than that of
/// sequences, and when a row is deleted from whatever table.
pub proof fn law_rows_stay_within_allocation(db: DbModel, t: u32, row: Row, u: u32, k: Key, s: u32)
    requires
        db.inv(),
        db.tx is Some,
        catalogue_in_form(db, ST_SEQUENCES_ID, 9, 1),
        within_allocation(db, s),
    ensures
        t != ST_SEQUENCES_ID ==> within_allocation(db.insert_row(t, row).0, s),
        within_allocation(db.delete_row(u, k).0, s),
{
    lemma_delete_leaves_alone(db, u, k, s);
    lemma_left_alone(db, db.delete_row(u, k).0, s);
    if t != ST_SEQUENCES_ID {
        match db.schema_for_table(t) {
            Ok(schema) => {
                let n = schema.columns.len();
                lemma_filling_stays_within(db, t, schema, n, row, s);
                lemma_fill_keeps_tables(db, t, schema, n, row);
                let (mid, r) = db.fill_columns(t, schema, n, row);
                if r is Ok {
                    lemma_insert_leaves_alone(mid, t, r->Ok_0, s);
                    lemma_left_alone(mid, mid.insert_row_internal(t, r->Ok_0).0, s);
                }
            },
            Err(_) => {},
        }
    }
}

/// A sequence stays within its allocation when one is made, whether or not it could be, and the new
/// one is within its own.
pub proof fn law_created_sequence_is_within_allocation(db: DbModel, def: SequenceDefModel, s: u32)
    requires
        db.inv(),
        db.tx is Some,
        catalogue_in_form(db, ST_SEQUENCES_ID, 9, 1),
        within_allocation(db, s),
    ensures
        within_allocation(db.create_sequence(def).0, s),
{
    let st = ST_SEQUENCES_ID;
    let row = new_sequence(def).row();
    match db.seek(st, 1, Value::String(def.sequence_name)) {
        Ok(rows) => {
            if rows.len() == 0 && db.schema_for_table(st) is Ok {
                let schema = db.schema_for_table(st)->Ok_0;
                let n = schema.columns.len();
                lemma_filling_stays_within(db, st, schema, n, row, s);
                lemma_fill_keeps_tables(db, st, schema, n, row);
                let (mid, r) = db.fill_columns(st, schema, n, row);
                assert(catalogue_in_form(mid, st, 9, 1));
                if r is Ok {
                    lemma_listed_sequence_is_within(mid, r->Ok_0, s);
                }
            }
        },
        Err(_) => {},
    }
}

/// To list a sequence and to take it into use keeps it within its allocation, and the others.
proof fn lemma_listed_sequence_is_within(db: DbModel, row: Row, s: u32)
    requires
        db.inv(),
        db.tx is Some,
        catalogue_in_form(db, ST_SEQUENCES_ID, 9, 1),
        within_allocation(db, s),
    ensures
        ({
            let (c, r) = db.insert_row_internal(ST_SEQUENCES_ID, row);
            let q = SequenceModel::of_row(row);
            if r is Ok && q is Ok {
                within_allocation(c.put_sequence(q->Ok_0.sequence_id, q->Ok_0), s)
            } else {
                within_allocation(c, s)
            }
        }),
{
    let st = ST_SEQUENCES_ID;
    let (c, r) = db.insert_row_internal(st, row);
    lemma_insert_internal_keeps_tables(db, st, row);
    assert(catalogue_in_form(c, st, 9, 1));
    if r is Ok && lists(row, s) {
        let q = SequenceModel::of_row(row)->Ok_0;
        let after = c.put_sequence(s, q);
        assert(after.visible(st) =~= c.visible(st));
        law_inserted_row_is_visible(db, st, row);
        law_keys_are_distinct(c, st, 9, 1, 0);
        let rows = after.visible(st);
        assert forall|k: Key| #[trigger]
            rows.contains_key(k) && lists(rows[k], s) implies SequenceModel::of_row(
            rows[k],
        )->Ok_0.allocated == q.allocated by {
            let own = row_key(row);
            assert(c.visible(st).contains_key(k) && c.visible(st).contains_key(own));
            assert(c.visible(st)[k][0] == Value::U32(s));
            assert(c.visible(st)[own][0] == Value::U32(s));
        }
    } else {
        lemma_insert_leaves_alone(db, st, row, s);
        lemma_left_alone(db, c, s);
        if r is Ok && SequenceModel::of_row(row) is Ok {
            let q = SequenceModel::of_row(row)->Ok_0;
            let after = c.put_sequence(q.sequence_id, q);
            assert(after.visible(st) =~= c.visible(st));
            lemma_left_alone(c, after, s);
        }
    }
}

/// A sequence stays within its allocation when an index is made, whether or not it could be.
pub proof fn law_created_index_stays_within_allocation(db: DbModel, def: IndexDefModel, s: u32)
    requires
        db.inv(),
        db.tx is Some,
        catalogue_in_form(db, ST_SEQUENCES_ID, 9, 1),
        within_allocation(db, s),
    ensures
        within_allocation(db.create_index(def).0, s),
{
    let row = new_index(0, def).row();
    let (mid, r) = db.insert_row(ST_INDEXES_ID, row);
    law_rows_stay_within_allocation(db, ST_INDEXES_ID, row, ST_INDEXES_ID, row_key(row), s);
    law_insert_keeps_tables(db, ST_INDEXES_ID, row);
    if r is Ok {
        match IndexSchemaModel::of_row(r->Ok_0) {
            Ok(el) => {
                if mid.table_exists(def.table_id) {
                    let after = mid.create_index_internal(el.index_id, def).0;
                    lemma_index_internal_keeps(mid, el.index_id, def);
                    assert(after.visible(ST_SEQUENCES_ID) == mid.visible(ST_SEQUENCES_ID));
                    lemma_left_alone(mid, after, s);
                }
            },
            Err(_) => {},
        }
    }
}

proof fn lemma_columns_stay_within(db: DbModel, t: u32, def: TableDefModel, n: nat, s: u32)
    requires
        db.inv(),
        db.tx is Some,
        catalogue_in_form(db, ST_SEQUENCES_ID, 9, 1),
        within_allocation(db, s),
    ensures
        within_allocation(db.create_columns(t, def, n).0, s),
    decreases n,
{
    if n > 0 {
        lemma_columns_stay_within(db, t, def, (n - 1) as nat, s);
        lemma_columns_keep(db, t, def, (n - 1) as nat);
        let (mid, r) = db.create_columns(t, def, (n - 1) as nat);
        assert(catalogue_in_form(mid, ST_SEQUENCES_ID, 9, 1));
        if r is Ok {
            reveal(DbModel::create_column);
            let col = def.columns[n - 1];
            let row = listed_column(t, (n - 1) as u32, col).row();
            law_rows_stay_within_allocation(
                mid,
                ST_COLUMNS_ID,
                row,
                ST_COLUMNS_ID,
                row_key(row),
                s,
            );
            law_insert_keeps_tables(mid, ST_COLUMNS_ID, row);
            let a = mid.insert_row(ST_COLUMNS_ID, row).0;
            assert(catalogue_in_form(a, ST_SEQUENCES_ID, 9, 1));
            law_created_sequence_is_within_allocation(
                a,
                column_sequence(t, def.table_name, (n - 1) as u32, col),
                s,
            );
        }
    }
}

proof fn lemma_indexes_stay_within(db: DbModel, t: u32, def: TableDefModel, n: nat, s: u32)
    requires
        db.inv(),
        db.tx is Some,
        catalogue_in_form(db, ST_SEQUENCES_ID, 9, 1),
        within_allocation(db, s),
    ensures
        within_allocation(db.create_indexes(t, def, n).0, s),
    decreases n,
{
    if n > 0 {
        lemma_indexes_stay_within(db, t, def, (n - 1) as nat, s);
        lemma_indexes_keep(db, t, def, (n - 1) as nat);
        let (mid, r) = db.create_indexes(t, def, (n - 1) as nat);
        assert(catalogue_in_form(mid, ST_SEQUENCES_ID, 9, 1));
        if r is Ok {
            law_created_index_stays_within_allocation(
                mid,
                IndexDefModel { table_id: t, ..def.indexes[n - 1] },
                s,
            );
        }
    }
}

/// A sequence stays within its allocation when a table is made, whether or not it could be.
pub proof fn law_created_table_stays_within_allocation(db: DbModel, def: TableDefModel, s: u32)
    requires
        db.inv(),
        db.tx is Some,
        catalogue_in_form(db, ST_SEQUENCES_ID, 9, 1),
        within_allocation(db, s),
    ensures
        within_allocation(db.create_table(def).0, s),
{
    let row = (TableRowModel { table_id: 0, table_name: def.table_name }).row();
    let (a, r) = db.insert_row(ST_TABLES_ID, row);
    law_rows_stay_within_allocation(db, ST_TABLES_ID, row, ST_TABLES_ID, row_key(row), s);
    law_insert_keeps_tables(db, ST_TABLES_ID, row);
    assert(catalogue_in_form(a, ST_SEQUENCES_ID, 9, 1));
    if r is Ok {
        match TableRowModel::of_row(r->Ok_0) {
            Ok(el) => {
                let t = el.table_id;
                let n = def.columns.len();
                lemma_columns_stay_within(a, t, def, n, s);
                lemma_columns_keep(a, t, def, n);
                let (b, r) = a.create_columns(t, def, n);
                assert(catalogue_in_form(b, ST_SEQUENCES_ID, 9, 1));
                if r is Ok && !b.table_exists(t) {
                    match b.schema_for_table(t) {
                        Ok(schema) => {
                            let c = b.with_inserts(t, new_table(def.row_type(), schema));
                            lemma_new_table_inv(b, t, def.row_type(), schema);
                            assert(c.visible(ST_SEQUENCES_ID) == b.visible(ST_SEQUENCES_ID));
                            lemma_left_alone(b, c, s);
                            assert(catalogue_in_form(c, ST_SEQUENCES_ID, 9, 1));
                            lemma_indexes_stay_within(c, t, def, def.indexes.len(), s);
                        },
                        Err(_) => {},
                    }
                }
            },
            Err(_) => {},
        }
    }
}

/// A sequence stays within its allocation when a table, an index or a sequence is dropped, whether
/// or not it could be.
pub proof fn law_drops_stay_within_allocation(db: DbModel, t: u32, id: u32, q: u32, s: u32)
    requires
        db.inv(),
        db.tx is Some,
        within_allocation(db, s),
    ensures
        within_allocation(db.drop_table(t).0, s),
        within_allocation(db.drop_index(id).0, s),
        within_allocation(db.drop_sequence(q).0, s),
{
    law_drops_only_take_away(db, t, id, q);
    lemma_left_alone(db, db.drop_table(t).0, s);
    lemma_left_alone(db, db.drop_index(id).0, s);
    lemma_left_alone(db, db.drop_sequence(q).0, s);
}

/// A sequence that is within its allocation is within it in the transaction after a commit.
pub proof fn law_commit_stays_within_allocation(db: DbModel, s: u32)
    requires
        db.inv(),
        db.tx is Some,
        within_allocation(db, s),
    ensures
        within_allocation(db.commit().begin(), s),
{
    let next = db.commit().begin();
    law_committed_rows_are_seen_next(db, ST_SEQUENCES_ID);
    assert(next.visible(ST_SEQUENCES_ID) =~= next.committed_rows(ST_SEQUENCES_ID));
    assert(next.in_use(s) == db.in_use(s));
}

/// No sequence exceeds its allocation after a rollback: one that is within its allocation has
/// nothing left of it, or the allocation is what is listed as committed.
pub proof fn law_rollback_stays_within_allocation(db: DbModel, s: u32)
    requires
        db.tx is Some,
        within_allocation(db, s),
    ensures
        within_allocation(db.rollback().begin(), s),
        ({
            let next = db.rollback().begin();
            next.in_use(s) ==> is_covered(next.sequences[s], db.committed_rows(ST_SEQUENCES_ID), s)
        }),
{
    law_rolled_back_rows_are_not_seen(db, ST_SEQUENCES_ID);
    let next = db.rollback().begin();
    assert(next.committed_rows(ST_SEQUENCES_ID) == db.committed_rows(ST_SEQUENCES_ID));
}

/// A number is given out of sequence `q`: sequence `s` stays listed, where no row that is inserted
/// takes the key of one that lists it.
proof fn lemma_next_keeps_listing(db: DbModel, q: u32, s: u32, k: Key)
    requires
        db.inv(),
        db.tx is Some,
        catalogue_in_form(db, ST_SEQUENCES_ID, 9, 1),
        lists_sequence(db, s, k),
        db.get_next_sequence_value(q).1 is Ok,
        takes_no_listing(rows_of_next(db, q), s),
    ensures
        exists|j: Key| #[trigger] lists_sequence(db.get_next_sequence_value(q).0, s, j),
{
    let st = ST_SEQUENCES_ID;
    let after = db.get_next_sequence_value(q).0;
    if !db.in_use(q) || !db.sequences[q].exhausted() {
        assert(after.visible(st) =~= db.visible(st));
        assert(lists_sequence(after, s, k));
    } else {
        let found = db.seek(st, 0, Value::U32(q))->Ok_0.last();
        let listed = SequenceModel::of_row(found)->Ok_0;
        let to = db.sequences[q].nth(SEQUENCE_ALLOCATION as nat);
        let row = listed.allocated_to(to).row();
        lemma_sought_row_lists(db, q);
        let a = db.refill(q, to);
        lemma_refill_keeps_tables(db, q, to);
        assert(a.visible(st) == db.visible(st));
        let b = a.delete_row(st, row_key(found)).0;
        lemma_delete_keeps_tables(a, st, row_key(found));
        law_deleted_row_is_gone(a, st, row_key(found));
        let c = b.insert_row_internal(st, row).0;
        law_inserted_row_is_visible(b, st, row);
        law_sequence_row_round_trip(listed.allocated_to(to));
        assert(after.visible(st) =~= c.visible(st));
        assert(rows_of_next(db, q) == seq![row]);
        assert(lists(row, q));
        if q == s {
            assert(lists_sequence(after, s, row_key(row)));
        } else {
            assert(k != row_key(found));
            lemma_seen_under_key(db, st, k);
            assert(rows_of_next(db, q)[0] == row);
            assert(lists(db.visible(st)[k], s) && !lists(row, s));
            assert(row_key(row) != k);
            assert(lists_sequence(after, s, k));
        }
    }
}

/// None of `rows` has the key of a row that lists sequence `s`, unless it lists it too.
pub open spec fn takes_no_listing(rows: Seq<Row>, s: u32) -> bool {
    forall|i: int, r: Row|
        #![trigger rows[i], lists(r, s)]
        0 <= i < rows.len() && lists(r, s) && row_key(rows[i]) == row_key(r) ==> lists(rows[i], s)
}

proof fn lemma_filling_keeps_listing(
    db: DbModel,
    t: u32,
    schema: SchemaModel,
    n: nat,
    row: Row,
    s: u32,
    k: Key,
)
    requires
        db.inv(),
        db.tx is Some,
        catalogue_in_form(db, ST_SEQUENCES_ID, 9, 1),
        lists_sequence(db, s, k),
        db.fill_columns(t, schema, n, row).1 is Ok,
        takes_no_listing(rows_of_filling(db, t, schema, n, row), s),
    ensures
        exists|j: Key| #[trigger] lists_sequence(db.fill_columns(t, schema, n, row).0, s, j),
    decreases n,
{
    if n == 0 {
        assert(lists_sequence(db.fill_columns(t, schema, n, row).0, s, k));
    } else {
        let m = (n - 1) as nat;
        let (mid, r) = db.fill_columns(t, schema, m, row);
        let before = rows_of_filling(db, t, schema, m, row);
        let col = schema.columns[n - 1];
        let more = rows_of_column(mid, t, col, r->Ok_0);
        let all = rows_of_filling(db, t, schema, n, row);
        assert(all == before + more);
        assert(takes_no_listing(before, s)) by {
            assert forall|i: int, r: Row|
                #![trigger before[i], lists(r, s)]
                0 <= i < before.len() && lists(r, s) && row_key(before[i]) == row_key(
                    r,
                ) implies lists(before[i], s) by {
                assert(all[i] == before[i]);
            }
        }
        assert(takes_no_listing(more, s)) by {
            assert forall|i: int, r: Row|
                #![trigger more[i], lists(r, s)]
                0 <= i < more.len() && lists(r, s) && row_key(more[i]) == row_key(
                    r,
                ) implies lists(more[i], s) by {
                assert(all[before.len() + i] == more[i]);
            }
        }
        lemma_filling_keeps_listing(db, t, schema, m, row, s, k);
        lemma_fill_keeps_tables(db, t, schema, m, row);
        assert(catalogue_in_form(mid, ST_SEQUENCES_ID, 9, 1));
        let j = choose|j: Key| #[trigger] lists_sequence(mid, s, j);
        let after = db.fill_columns(t, schema, n, row).0;
        let filled = r->Ok_0;
        assert(after == mid.fill_column(t, schema.table_name, col, filled).0);
        if !col.is_autoinc || col.col_id >= filled.len() || !is_zero(
            filled[col.col_id as int],
        ) {
            assert(lists_sequence(after, s, j));
        } else {
            match mid.seek(ST_SEQUENCES_ID, 2, Value::U32(t)) {
                Ok(rows) => match sequence_for(rows, col.col_id) {
                    Ok(Some(q)) => {
                        lemma_next_keeps_listing(mid, q, s, j);
                    },
                    _ => {
                        assert(lists_sequence(after, s, j));
                    },
                },
                Err(_) => {},
            }
        }
    }
}

/// A sequence that is listed stays listed when a row is inserted into a table other than that of
/// sequences, and when a number is given out, of it or of another, as long as no row that is
/// inserted takes the key of one that lists it.
pub proof fn law_sequence_stays_listed(db: DbModel, t: u32, row: Row, q: u32, s: u32, k: Key)
    requires
        db.inv(),
        db.tx is Some,
        catalogue_in_form(db, ST_SEQUENCES_ID, 9, 1),
        lists_sequence(db, s, k),
    ensures
        t != ST_SEQUENCES_ID && db.insert_row(t, row).1 is Ok && takes_no_listing(
            rows_of_insert(db, t, row),
            s,
        ) ==> exists|j: Key| #[trigger] lists_sequence(db.insert_row(t, row).0, s, j),
        db.get_next_sequence_value(q).1 is Ok && takes_no_listing(rows_of_next(db, q), s)
            ==> exists|j: Key| #[trigger] lists_sequence(db.get_next_sequence_value(q).0, s, j),
{
    if db.get_next_sequence_value(q).1 is Ok && takes_no_listing(rows_of_next(db, q), s) {
        lemma_next_keeps_listing(db, q, s, k);
    }
    let all = rows_of_insert(db, t, row);
    if t != ST_SEQUENCES_ID && db.insert_row(t, row).1 is Ok && takes_no_listing(all, s) {
        let schema = db.schema_for_table(t)->Ok_0;
        let n = schema.columns.len();
        let (mid, r) = db.fill_columns(t, schema, n, row);
        let before = rows_of_filling(db, t, schema, n, row);
        assert(takes_no_listing(before, s)) by {
            assert forall|i: int, r: Row|
                #![trigger before[i], lists(r, s)]
                0 <= i < before.len() && lists(r, s) && row_key(before[i]) == row_key(
                    r,
                ) implies lists(before[i], s) by {
                assert(all[i] == before[i]);
            }
        }
        lemma_filling_keeps_listing(db, t, schema, n, row, s, k);
        lemma_fill_keeps_tables(db, t, schema, n, row);
        let j = choose|j: Key| #[trigger] lists_sequence(mid, s, j);
        law_inserted_row_is_visible(mid, t, r->Ok_0);
        let after = db.insert_row(t, row).0;
        assert(after.visible(ST_SEQUENCES_ID) == mid.visible(ST_SEQUENCES_ID));
        assert(lists_sequence(after, s, j));
    }
}

/// More can be allocated to a sequence as long as it and its row are left alone, and the table of
/// sequences stays in form and gets no unique index on what is allocated: in the same transaction,
/// and past a commit.
pub proof fn law_allocation_goes_on(db: DbModel, next: DbModel, s: u32, k: Key)
    requires
        db.inv(),
        db.tx is Some,
        can_allocate(db, s, k),
    ensures
        catalogue_in_form(next, ST_SEQUENCES_ID, 9, 1) && !next.has_unique(ST_SEQUENCES_ID, 8)
            && lists_sequence(next, s, k) && next.sequences[s] == db.sequences[s] ==> can_allocate(
            next,
            s,
            k,
        ),
        db.in_use(s) ==> can_allocate(db.commit().begin(), s, k),
{
    law_next_transaction_keeps_form(db, ST_SEQUENCES_ID, 9, 1);
    law_commit_keeps_unique_indexes(db, ST_SEQUENCES_ID, 8);
    law_committed_rows_are_seen_next(db, ST_SEQUENCES_ID);
}

/// The first number of the transaction after one in which a sequence gave out `v` last is the
/// number after `v`, whether that one was committed or rolled back, and whether or not more has to
/// be allocated first. The allocation must lead to another number, both times, and the sequence
/// must be listed: past a rollback, as it was committed.
pub proof fn law_next_transaction_gives_next_number(db: DbModel, s: u32, k: Key, j: Key)
    requires
        db.inv(),
        db.tx is Some,
        db.in_use(s),
        can_allocate(db, s, k),
        ({
            let q = db.get_next_sequence_value(s).0.sequences[s];
            q.nth(SEQUENCE_ALLOCATION as nat) != q.value
        }),
    ensures
        ({
            let (after, r) = db.get_next_sequence_value(s);
            let q = db.sequences[s];
            let v = r->Ok_0;
            let committed = after.commit().begin();
            let back = after.rollback().begin();
            &&& r is Ok
            &&& committed.get_next_sequence_value(s).1 == Ok::<i128, Fault>(q.after(v))
            &&& !db.tx->0.made_sequences.contains(s) && !back.has_unique(ST_SEQUENCES_ID, 8)
                && lists_sequence(back, s, j) ==> back.get_next_sequence_value(s).1 == Ok::<
                i128,
                Fault,
            >(q.after(v))
        }),
{
    let st = ST_SEQUENCES_ID;
    let after = db.get_next_sequence_value(s).0;
    law_number_after_number(db, s, k);
    assert(catalogue_in_form(after, st, 9, 1));
    assert(after.has_unique(st, 8) == db.has_unique(st, 8));
    let m = choose|m: Key| #[trigger] lists_sequence(after, s, m);
    assert(can_allocate(after, s, m));
    let committed = after.commit().begin();
    lemma_commit_inv(after);
    lemma_begin_inv(after.commit());
    law_allocation_goes_on(after, after, s, m);
    law_numbers_are_not_taken_back(after, s);
    law_number_after_number(committed, s, m);
    let back = after.rollback().begin();
    lemma_next_makes_none(db, s);
    if !db.tx->0.made_sequences.contains(s) && !back.has_unique(st, 8) && lists_sequence(
        back,
        s,
        j,
    ) {
        lemma_rollback_inv(after);
        lemma_begin_inv(after.rollback());
        law_next_transaction_keeps_form(after, st, 9, 1);
        lemma_nth_alike(back.sequences[s], after.sequences[s], SEQUENCE_ALLOCATION as nat);
        law_number_after_number(back, s, j);
    }
}

/// To give out a number makes no sequence.
proof fn lemma_next_makes_none(db: DbModel, s: u32)
    ensures
        db.get_next_sequence_value(s).0.tx->0.made_sequences == db.tx->0.made_sequences,
{
}

/// What is allocated has no part in which number comes when.
proof fn lemma_nth_alike(a: SequenceModel, b: SequenceModel, n: nat)
    requires
        counts_alike(a, b),
    ensures
        a.nth(n) == b.nth(n),
    decreases n,
{
    if n > 0 {
        lemma_nth_alike(a, b, (n - 1) as nat);
    }
}

} // verus!
