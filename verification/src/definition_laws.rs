//! What holds of tables and indexes that are made.

use vstd::prelude::*;

use crate::catalogue_laws::{
    catalogue_in_form, law_keys_are_distinct, lemma_seek_finds_none, lemma_seek_finds_the_one,
};
use crate::data_key::{row_key, Key};
use crate::drop_laws::lists_nothing;
use crate::error::Fault;
use crate::form_laws::law_next_transaction_keeps_form;
use crate::ids::{ST_COLUMNS_ID, ST_INDEXES_ID, ST_SEQUENCES_ID, ST_TABLES_ID};
use crate::laws::{
    fills_itself, keeps_forms, law_columns_are_in_order, law_commit_keeps_unique_indexes,
    law_committed_rows_are_seen_next, law_create_index_keeps_tables, law_created_table_is_there,
    law_duplicate_insert_is_refused, law_duplicate_is_refused, law_insert_changes_one_table,
    law_insert_keeps_given_values, law_insert_keeps_tables, law_inserted_row_is_visible,
    law_refused_row_changes_nothing_seen, law_returned_row_is_visible,
    law_seek_yields_matching_rows, lemma_columns_keep, lemma_fill_same_rows,
    lemma_index_internal_keeps, lemma_indexes_keep, lemma_new_part_keeps, lemma_nothing_to_fill,
    lists_once,
};
use crate::model::{
    by_col_id, column_sequence, columns_of_rows, holding, holds, indexes_of_rows, listed_column,
    new_index, new_sequence, new_table, DbModel,
};
use crate::schema::{
    ColumnModel, IndexDefModel, IndexSchemaModel, SchemaModel, SequenceDefModel, TableDefModel,
};
use crate::sequence::SequenceModel;
use crate::soundness::{lemma_begin_inv, lemma_commit_inv, lemma_new_table_inv};
use crate::system_tables::{law_column_row_round_trip, TableRowModel};
use crate::table::lemma_without_none;
use crate::types::type_fits;
use crate::value::{is_zero, Row, Value};

verus! {

/// A unique index that was made is in force: a row that agrees in its column with one that is seen
/// is refused, in the transaction that made it and, once that is committed, in the next. It is
/// refused as it is, and refused when its columns are to be filled first, unless the value is a
/// zero that would be filled, or the table is that of sequences.
pub proof fn law_created_index_refuses(db: DbModel, def: IndexDefModel, row: Row, k: Key)
    requires
        db.inv(),
        db.tx is Some,
        def.is_unique,
        db.create_index(def).1 is Ok,
        db.create_index(def).0.visible(def.table_id).contains_key(k),
        def.col_id < row.len(),
        holds(
            db.create_index(def).0.visible(def.table_id)[k],
            def.col_id,
            row[def.col_id as int],
        ),
    ensures
        ({
            let after = db.create_index(def).0;
            let next = after.commit().begin();
            let t = def.table_id;
            &&& after.has_unique(t, def.col_id)
            &&& after.insert_row_internal(t, row).1 matches Err(
                Fault::UniqueConstraintViolation { .. },
            )
            &&& next.has_unique(t, def.col_id)
            &&& next.insert_row_internal(t, row).1 matches Err(
                Fault::UniqueConstraintViolation { .. },
            )
            &&& t != ST_SEQUENCES_ID && keeps_its_value(after, t, def.col_id, row)
                ==> after.insert_row(t, row).1 is Err
            &&& t != ST_SEQUENCES_ID && keeps_its_value(next, t, def.col_id, row)
                ==> next.insert_row(t, row).1 is Err
        }),
{
    let t = def.table_id;
    let c = def.col_id;
    let after = db.create_index(def).0;
    let next = after.commit().begin();
    law_create_index_keeps_tables(db, def);
    lemma_made_index_is_there(db, def);
    law_duplicate_is_refused(after, t, c, row, k);
    lemma_commit_inv(after);
    lemma_begin_inv(after.commit());
    law_commit_keeps_unique_indexes(after, t, c);
    law_committed_rows_are_seen_next(after, t);
    law_duplicate_is_refused(next, t, c, row, k);
    if t != ST_SEQUENCES_ID && keeps_its_value(after, t, c, row) {
        law_duplicate_insert_is_refused(after, t, c, row, k);
    }
    if t != ST_SEQUENCES_ID && keeps_its_value(next, t, c, row) {
        law_duplicate_insert_is_refused(next, t, c, row, k);
    }
}

/// The value of `row` in column `c` is not a zero that an insert into table `t` would fill.
pub open spec fn keeps_its_value(db: DbModel, t: u32, c: u32, row: Row) -> bool {
    is_zero(row[c as int]) ==> !fills_itself(
        db.schema(t)->0,
        db.schema(t)->0.columns.len(),
        c as int,
    )
}

/// An index that was made is in the transaction's part of its table, with the rows that are seen.
proof fn lemma_made_index_is_there(db: DbModel, def: IndexDefModel)
    requires
        db.inv(),
        db.tx is Some,
        db.create_index(def).1 is Ok,
    ensures
        ({
            let (after, r) = db.create_index(def);
            let t = def.table_id;
            &&& after.has_inserts(t)
            &&& after.inserts(t).indexes.contains_key(def.col_id)
            &&& after.inserts(t).indexes[def.col_id].is_unique == def.is_unique
            &&& after.inserts(t).indexes[def.col_id].index_id == r->Ok_0
        }),
{
}

/// A table that is made gets an id that no table has. Where the ids of tables are unique in the
/// catalogue, it is not listed either.
pub proof fn law_created_table_has_a_new_id(db: DbModel, def: TableDefModel)
    requires
        db.inv(),
        db.tx is Some,
        db.create_table(def).1 is Ok,
    ensures
        !db.table_exists(db.create_table(def).1->Ok_0),
        db.has_unique(ST_TABLES_ID, 0) ==> lists_nothing(
            db,
            ST_TABLES_ID,
            0,
            db.create_table(def).1->Ok_0,
        ),
{
    law_created_table_is_there(db, def);
    if db.has_unique(ST_TABLES_ID, 0) {
        lemma_listed_id_is_new(db, def);
    }
}

/// The id that a new row of the table of tables gets is one that was not listed.
proof fn lemma_listed_id_is_new(db: DbModel, def: TableDefModel)
    requires
        db.inv(),
        db.tx is Some,
        db.has_unique(ST_TABLES_ID, 0),
        ({
            let row = (TableRowModel { table_id: 0, table_name: def.table_name }).row();
            &&& db.insert_row(ST_TABLES_ID, row).1 is Ok
            &&& TableRowModel::of_row(db.insert_row(ST_TABLES_ID, row).1->Ok_0) is Ok
        }),
    ensures
        ({
            let row = (TableRowModel { table_id: 0, table_name: def.table_name }).row();
            let el = TableRowModel::of_row(db.insert_row(ST_TABLES_ID, row).1->Ok_0)->Ok_0;
            lists_nothing(db, ST_TABLES_ID, 0, el.table_id)
        }),
{
    let st = ST_TABLES_ID;
    let row = (TableRowModel { table_id: 0, table_name: def.table_name }).row();
    let inserted = db.insert_row(st, row).1->Ok_0;
    let t = TableRowModel::of_row(inserted)->Ok_0.table_id;
    let schema = db.schema_for_table(st)->Ok_0;
    let n = schema.columns.len();
    let mid = db.fill_columns(st, schema, n, row).0;
    lemma_fill_same_rows(db, st, schema, n, row);
    assert(mid.visible(st) == db.visible(st));
    assert(mid.has_unique(st, 0) == db.has_unique(st, 0));
    assert(inserted[0] == Value::U32(t));
    assert forall|k: Key| #[trigger] db.visible(st).contains_key(k) implies !holds(
        db.visible(st)[k],
        0,
        Value::U32(t),
    ) by {
        if holds(db.visible(st)[k], 0, Value::U32(t)) {
            law_duplicate_is_refused(mid, st, 0, inserted, k);
        }
    }
}

/// Where the ids of tables are unique in the catalogue, and every table that is there is listed,
/// the id that a new table gets is free when its columns are listed, so that it is not refused.
pub proof fn law_new_id_is_free(db: DbModel, def: TableDefModel)
    requires
        db.inv(),
        db.tx is Some,
        db.has_unique(ST_TABLES_ID, 0),
        forall|u: u32| #[trigger]
            db.table_exists(u) ==> exists|k: Key| #[trigger]
                db.visible(ST_TABLES_ID).contains_key(k) && holds(
                    db.visible(ST_TABLES_ID)[k],
                    0,
                    Value::U32(u),
                ),
        ({
            let row = (TableRowModel { table_id: 0, table_name: def.table_name }).row();
            &&& db.insert_row(ST_TABLES_ID, row).1 is Ok
            &&& TableRowModel::of_row(db.insert_row(ST_TABLES_ID, row).1->Ok_0) is Ok
        }),
    ensures
        ({
            let row = (TableRowModel { table_id: 0, table_name: def.table_name }).row();
            let (a, r) = db.insert_row(ST_TABLES_ID, row);
            let t = TableRowModel::of_row(r->Ok_0)->Ok_0.table_id;
            !a.create_columns(t, def, def.columns.len()).0.table_exists(t)
        }),
{
    let row = (TableRowModel { table_id: 0, table_name: def.table_name }).row();
    let (a, r) = db.insert_row(ST_TABLES_ID, row);
    let t = TableRowModel::of_row(r->Ok_0)->Ok_0.table_id;
    law_insert_keeps_tables(db, ST_TABLES_ID, row);
    lemma_columns_keep(a, t, def, def.columns.len());
    lemma_listed_id_is_new(db, def);
    let b = a.create_columns(t, def, def.columns.len()).0;
    assert(b.table_exists(t) == a.table_exists(t));
    assert(a.table_exists(t) == db.table_exists(t));
}

/// `b` shows of table `u` what `a` shows, unless `u` is table `st` or that of sequences.
spec fn shows_same_but(a: DbModel, b: DbModel, st: u32) -> bool {
    forall|u: u32| u != st && u != ST_SEQUENCES_ID ==> #[trigger] b.visible(u) == a.visible(u)
}

/// To make a sequence changes the rows of no table but that of sequences.
proof fn lemma_sequence_shows_same(db: DbModel, def: SequenceDefModel)
    requires
        db.inv(),
        db.tx is Some,
    ensures
        shows_same_but(db, db.create_sequence(def).0, ST_SEQUENCES_ID),
{
    let st = ST_SEQUENCES_ID;
    let row = new_sequence(def).row();
    let (mid, r) = db.insert_row(st, row);
    assert(shows_same_but(db, mid, st)) by {
        match db.schema_for_table(st) {
            Ok(schema) => {
                let n = schema.columns.len();
                lemma_fill_same_rows(db, st, schema, n, row);
                let (a, filled) = db.fill_columns(st, schema, n, row);
                match filled {
                    Ok(filled) => {
                        if a.insert_row_internal(st, filled).1 is Ok {
                            law_inserted_row_is_visible(a, st, filled);
                        } else {
                            law_refused_row_changes_nothing_seen(a, st, filled);
                        }
                        assert forall|u: u32| u != st implies #[trigger] mid.visible(u)
                            == db.visible(u) by {
                            assert(a.visible(u) == db.visible(u));
                        }
                    },
                    Err(_) => {},
                }
            },
            Err(_) => {},
        }
    }
    if r is Ok {
        match SequenceModel::of_row(r->Ok_0) {
            Ok(q) => {
                let after = mid.put_sequence(q.sequence_id, q);
                assert forall|u: u32| u != st implies #[trigger] after.visible(u) == db.visible(
                    u,
                ) by {
                    assert(after.visible(u) =~= mid.visible(u));
                    assert(mid.visible(u) == db.visible(u));
                }
            },
            Err(_) => {},
        }
    }
}

/// The row that lists column `i` of table `t`.
pub open spec fn column_row(t: u32, def: TableDefModel, i: int) -> Row {
    listed_column(t, i as u32, def.columns[i]).row()
}

/// `m` with the rows that list the first `n` columns of table `t`.
spec fn with_columns(m: Map<Key, Row>, t: u32, def: TableDefModel, n: nat) -> Map<Key, Row>
    decreases n,
{
    if n == 0 {
        m
    } else {
        let row = column_row(t, def, n - 1);
        with_columns(m, t, def, (n - 1) as nat).insert(row_key(row), row)
    }
}

/// To list the columns of a table puts just their rows into the table of columns.
proof fn lemma_columns_are_listed(db: DbModel, t: u32, def: TableDefModel, n: nat)
    requires
        db.inv(),
        db.tx is Some,
        t != 0,
        n <= def.columns.len(),
        n <= u32::MAX,
        catalogue_in_form(db, ST_COLUMNS_ID, 5, 0),
        db.create_columns(t, def, n).1 is Ok,
    ensures
        ({
            let after = db.create_columns(t, def, n).0;
            &&& shows_same_but(db, after, ST_COLUMNS_ID)
            &&& after.visible(ST_COLUMNS_ID) == with_columns(
                db.visible(ST_COLUMNS_ID),
                t,
                def,
                n,
            )
        }),
    decreases n,
{
    let st = ST_COLUMNS_ID;
    if n > 0 {
        let (mid, r) = db.create_columns(t, def, (n - 1) as nat);
        lemma_columns_are_listed(db, t, def, (n - 1) as nat);
        lemma_columns_keep(db, t, def, (n - 1) as nat);
        reveal(DbModel::create_column);
        let col = def.columns[n - 1];
        let row = column_row(t, def, n - 1);
        assert(catalogue_in_form(mid, st, 5, 0));
        let schema = mid.schema(st)->0;
        assert(mid.schema_for_table(st) == Ok::<SchemaModel, Fault>(schema));
        lemma_nothing_to_fill(mid, st, schema, schema.columns.len(), row);
        law_insert_changes_one_table(mid, st, row);
        law_insert_keeps_tables(mid, st, row);
        let a = mid.insert_row(st, row).0;
        let after = db.create_columns(t, def, n).0;
        if col.is_autoinc {
            lemma_sequence_shows_same(a, column_sequence(t, def.table_name, (n - 1) as u32, col));
        }
        assert(after.visible(st) == a.visible(st));
        assert forall|u: u32| u != st && u != ST_SEQUENCES_ID implies #[trigger] after.visible(u)
            == db.visible(u) by {
            assert(after.visible(u) == a.visible(u));
            assert(a.visible(u) == mid.visible(u));
            assert(mid.visible(u) == db.visible(u));
        }
    }
}

/// The rows that list the columns of a definition have keys of their own.
pub open spec fn column_keys_differ(t: u32, def: TableDefModel) -> bool {
    forall|i: int, j: int|
        #![trigger column_row(t, def, i), column_row(t, def, j)]
        0 <= i < j < def.columns.len() ==> row_key(column_row(t, def, i)) != row_key(
            column_row(t, def, j),
        )
}

/// Which rows are there once the first `n` columns are listed.
proof fn lemma_with_columns(m: Map<Key, Row>, t: u32, def: TableDefModel, n: nat, k: Key)
    requires
        column_keys_differ(t, def),
        n <= def.columns.len(),
    ensures
        ({
            let all = with_columns(m, t, def, n);
            &&& all.contains_key(k) ==> m.contains_key(k) && all[k] == m[k] || exists|i: int|
                0 <= i < n && k == row_key(#[trigger] column_row(t, def, i)) && all[k]
                    == column_row(t, def, i)
            &&& forall|i: int|
                #![trigger column_row(t, def, i)]
                0 <= i < n ==> all.contains_key(row_key(column_row(t, def, i))) && all[row_key(
                    column_row(t, def, i),
                )] == column_row(t, def, i)
        }),
    decreases n,
{
    if n > 0 {
        lemma_with_columns(m, t, def, (n - 1) as nat, k);
        let before = with_columns(m, t, def, (n - 1) as nat);
        let all = with_columns(m, t, def, n);
        let row = column_row(t, def, n - 1);
        assert(all == before.insert(row_key(row), row));
        if all.contains_key(k) && k != row_key(row) && !(m.contains_key(k) && all[k] == m[k]) {
            let i = choose|i: int|
                0 <= i < n - 1 && k == row_key(#[trigger] column_row(t, def, i)) && before[k]
                    == column_row(t, def, i);
            assert(k == row_key(column_row(t, def, i)));
        }
        assert forall|i: int|
            #![trigger column_row(t, def, i)]
            0 <= i < n implies all.contains_key(row_key(column_row(t, def, i))) && all[row_key(
            column_row(t, def, i),
        )] == column_row(t, def, i) by {
            if i < n - 1 {
                assert(row_key(column_row(t, def, i)) != row_key(row));
            }
        }
    }
}

/// The columns of a definition, as the catalogue lists them for table `t`.
pub open spec fn listed_columns(t: u32, def: TableDefModel) -> Seq<ColumnModel> {
    Seq::new(def.columns.len(), |i: int| listed_column(t, i as u32, def.columns[i]))
}

proof fn lemma_columns_of_rows(rows: Seq<Row>, cols: Seq<ColumnModel>)
    requires
        rows.len() == cols.len(),
        forall|i: int|
            0 <= i < rows.len() ==> ColumnModel::of_row(#[trigger] rows[i]) == Ok::<
                ColumnModel,
                Fault,
            >(cols[i]),
    ensures
        columns_of_rows(rows) == Ok::<Seq<ColumnModel>, Fault>(cols),
    decreases rows.len(),
{
    if rows.len() > 0 {
        let front = rows.drop_last();
        let before = cols.drop_last();
        assert forall|i: int| 0 <= i < front.len() implies ColumnModel::of_row(
            #[trigger] front[i],
        ) == Ok::<ColumnModel, Fault>(before[i]) by {
            assert(front[i] == rows[i]);
        }
        lemma_columns_of_rows(front, before);
        assert(rows.last() == rows[rows.len() - 1]);
        assert(before.push(cols.last()) =~= cols);
    } else {
        assert(cols =~= Seq::empty());
    }
}

/// Columns with the ids from zero on, in whatever order, are put in order by their ids.
proof fn lemma_sorted_columns(cols: Seq<ColumnModel>, all: Seq<ColumnModel>)
    requires
        cols.no_duplicates(),
        cols.len() == all.len(),
        all.len() <= u32::MAX,
        forall|i: int| 0 <= i < all.len() ==> (#[trigger] all[i]).col_id == i,
        forall|j: int| 0 <= j < cols.len() ==> all.contains(#[trigger] cols[j]),
    ensures
        by_col_id(cols) == all,
{
    broadcast use vstd::seq_lib::group_to_multiset_ensures;

    law_columns_are_in_order(cols);
    let s = by_col_id(cols);
    assert(s.len() == s.to_multiset().len());
    assert(cols.len() == cols.to_multiset().len());
    cols.lemma_multiset_has_no_duplicates();
    assert forall|j: int| 0 <= j < s.len() implies 0 <= (#[trigger] s[j]).col_id < all.len()
        && s[j] == all[s[j].col_id as int] by {
        assert(s.contains(s[j]));
        assert(s.to_multiset().count(s[j]) > 0);
        assert(cols.contains(s[j]));
        let i = choose|i: int| 0 <= i < cols.len() && cols[i] == s[j];
        assert(all.contains(cols[i]));
    }
    s.lemma_multiset_has_no_duplicates_conv();
    assert forall|i: int, j: int| 0 <= i < j < s.len() implies (#[trigger] s[i]).col_id < (
    #[trigger] s[j]).col_id by {
        assert(s[i].col_id <= s[j].col_id);
        assert(s[i] != s[j]);
    }
    assert forall|i: int| 0 <= i < s.len() implies (#[trigger] s[i]) == all[i] by {
        lemma_strict_below(s, i);
        lemma_strict_above(s, i);
    }
    assert(s =~= all);
}

proof fn lemma_strict_below(s: Seq<ColumnModel>, i: int)
    requires
        0 <= i < s.len(),
        forall|i: int, j: int|
            #![trigger s[i], s[j]]
            0 <= i < j < s.len() ==> s[i].col_id < s[j].col_id,
    ensures
        s[i].col_id >= i,
    decreases i,
{
    if i > 0 {
        lemma_strict_below(s, i - 1);
        assert(s[i - 1].col_id < s[i].col_id);
    }
}

proof fn lemma_strict_above(s: Seq<ColumnModel>, i: int)
    requires
        0 <= i < s.len(),
        forall|i: int, j: int|
            #![trigger s[i], s[j]]
            0 <= i < j < s.len() ==> s[i].col_id < s[j].col_id,
        forall|j: int| 0 <= j < s.len() ==> (#[trigger] s[j]).col_id < s.len(),
    ensures
        s[i].col_id <= i,
    decreases s.len() - i,
{
    if i < s.len() - 1 {
        lemma_strict_above(s, i + 1);
        assert(s[i].col_id < s[i + 1].col_id);
    } else {
        assert(s[i].col_id < s.len());
    }
}

/// What a seek for the columns of table `t` finds, once they are listed.
proof fn lemma_listed_columns_are_read(db: DbModel, m: Map<Key, Row>, t: u32, def: TableDefModel)
    requires
        db.inv(),
        db.tx is Some,
        db.table_exists(ST_COLUMNS_ID),
        db.visible(ST_COLUMNS_ID) == with_columns(m, t, def, def.columns.len()),
        forall|k: Key| #[trigger] m.contains_key(k) ==> !holds(m[k], 0, Value::U32(t)),
        column_keys_differ(t, def),
        def.columns.len() <= u32::MAX,
        forall|i: int|
            0 <= i < def.columns.len() ==> type_fits((#[trigger] def.columns[i]).col_type),
    ensures
        ({
            let r = db.seek(ST_COLUMNS_ID, 0, Value::U32(t));
            &&& r is Ok
            &&& columns_of_rows(r->Ok_0) is Ok
            &&& by_col_id(columns_of_rows(r->Ok_0)->Ok_0) == listed_columns(t, def)
        }),
{
    let st = ST_COLUMNS_ID;
    let v = Value::U32(t);
    let n = def.columns.len();
    let all = listed_columns(t, def);
    law_seek_yields_matching_rows(db, st, 0, v);
    let found = holding(db.visible(st), 0, v);
    let rows = db.seek(st, 0, v)->Ok_0;
    let ks = choose|ks: Seq<Key>| #[trigger]
        lists_once(ks, found.dom()) && rows == ks.map_values(|k: Key| found[k]);
    assert forall|i: int| #![trigger column_row(t, def, i)] 0 <= i < n implies found.contains_key(
        row_key(column_row(t, def, i)),
    ) && found[row_key(column_row(t, def, i))] == column_row(t, def, i) by {
        lemma_with_columns(m, t, def, n, row_key(column_row(t, def, i)));
        assert(holds(column_row(t, def, i), 0, v));
    }
    assert forall|j: int| 0 <= j < ks.len() implies exists|i: int|
        0 <= i < n && #[trigger] ks[j] == row_key(#[trigger] column_row(t, def, i)) && rows[j]
            == column_row(t, def, i) by {
        assert(ks.to_set().contains(ks[j]));
        assert(found.contains_key(ks[j]));
        lemma_with_columns(m, t, def, n, ks[j]);
    }
    let at = |j: int|
        choose|i: int|
            0 <= i < n && ks[j] == row_key(#[trigger] column_row(t, def, i)) && rows[j]
                == column_row(t, def, i);
    let cols = Seq::new(ks.len(), |j: int| all[at(j)]);
    assert forall|j: int| 0 <= j < ks.len() implies 0 <= #[trigger] at(j) < n && ks[j] == row_key(
        column_row(t, def, at(j)),
    ) && rows[j] == column_row(t, def, at(j)) by {
        assert(exists|i: int|
            0 <= i < n && ks[j] == row_key(#[trigger] column_row(t, def, i)) && rows[j]
                == column_row(t, def, i));
    }
    assert forall|j: int| 0 <= j < rows.len() implies ColumnModel::of_row(#[trigger] rows[j])
        == Ok::<ColumnModel, Fault>(cols[j]) by {
        let i = at(j);
        assert(type_fits(def.columns[i].col_type));
        law_column_row_round_trip(all[i]);
        assert(rows[j] == all[i].row());
    }
    lemma_columns_of_rows(rows, cols);
    assert forall|i: int, j: int| 0 <= i < j < cols.len() implies cols[i] != cols[j] by {
        assert(ks[i] != ks[j]);
        assert(at(i) != at(j));
        assert(all[at(i)].col_id == at(i) && all[at(j)].col_id == at(j));
    }
    assert forall|j: int| 0 <= j < cols.len() implies all.contains(#[trigger] cols[j]) by {
        assert(cols[j] == all[at(j)]);
    }
    lemma_as_many_columns(t, def, ks, found, at);
    lemma_sorted_columns(cols, all);
}

/// A definition has as many columns as rows are listed for it.
proof fn lemma_as_many_columns(
    t: u32,
    def: TableDefModel,
    ks: Seq<Key>,
    found: Map<Key, Row>,
    at: spec_fn(int) -> int,
)
    requires
        lists_once(ks, found.dom()),
        column_keys_differ(t, def),
        forall|i: int|
            #![trigger column_row(t, def, i)]
            0 <= i < def.columns.len() ==> found.contains_key(row_key(column_row(t, def, i))),
        forall|j: int|
            0 <= j < ks.len() ==> 0 <= #[trigger] at(j) < def.columns.len() && ks[j] == row_key(
                column_row(t, def, at(j)),
            ),
    ensures
        ks.len() == def.columns.len(),
{
    let own = Seq::new(def.columns.len(), |i: int| row_key(column_row(t, def, i)));
    assert(own.no_duplicates());
    assert(own.to_set() =~= ks.to_set()) by {
        assert forall|k: Key| #[trigger] own.contains(k) <==> ks.contains(k) by {
            if own.contains(k) {
                let i = choose|i: int| 0 <= i < own.len() && own[i] == k;
                assert(found.contains_key(row_key(column_row(t, def, i))));
                assert(ks.to_set().contains(k));
            }
            if ks.contains(k) {
                let j = choose|j: int| 0 <= j < ks.len() && ks[j] == k;
                assert(own[at(j)] == k);
            }
        }
    }
    own.unique_seq_to_set();
    ks.unique_seq_to_set();
}

/// The indexes of a table that is in memory, once the first `n` of a definition are made: those
/// that it had, and then those that were made.
proof fn lemma_indexes_are_made(db: DbModel, t: u32, def: TableDefModel, n: nat)
    requires
        db.inv(),
        db.tx is Some,
        db.has_inserts(t),
        n <= def.indexes.len(),
        db.create_indexes(t, def, n).1 is Ok,
    ensures
        ({
            let after = db.create_indexes(t, def, n).0;
            let before = db.inserts(t).schema;
            let schema = after.inserts(t).schema;
            &&& after.has_inserts(t)
            &&& after.inv()
            &&& after.tx is Some
            &&& schema.table_id == before.table_id
            &&& schema.table_name == before.table_name
            &&& schema.columns == before.columns
            &&& schema.indexes.len() == before.indexes.len() + n
            &&& forall|i: int|
                0 <= i < n ==> is_index_of(
                    #[trigger] schema.indexes[before.indexes.len() + i],
                    t,
                    def.indexes[i],
                )
            &&& shows_same_but(db, after, ST_INDEXES_ID)
        }),
    decreases n,
{
    if n > 0 {
        lemma_indexes_are_made(db, t, def, (n - 1) as nat);
        let mid = db.create_indexes(t, def, (n - 1) as nat).0;
        let index = IndexDefModel { table_id: t, ..def.indexes[n - 1] };
        let after = db.create_indexes(t, def, n).0;
        assert(after == mid.create_index(index).0);
        let row = new_index(0, index).row();
        let (a, r) = mid.insert_row(ST_INDEXES_ID, row);
        law_insert_changes_one_table(mid, ST_INDEXES_ID, row);
        law_insert_keeps_tables(mid, ST_INDEXES_ID, row);
        law_create_index_keeps_tables(mid, index);
        assert(a.schema(t) == mid.schema(t));
        assert(a.table_exists(t) == mid.table_exists(t));
        let id = IndexSchemaModel::of_row(r->Ok_0)->Ok_0.index_id;
        lemma_index_internal_keeps(a, id, index);
        assert(mid.has_inserts(t) && a.has_inserts(t));
        let schema = after.inserts(t).schema;
        assert(schema.indexes == a.inserts(t).schema.indexes.push(new_index(id, index)));
        let k = db.inserts(t).schema.indexes.len();
        assert forall|i: int| 0 <= i < n implies is_index_of(
            #[trigger] schema.indexes[k + i],
            t,
            def.indexes[i],
        ) by {
            if i < n - 1 {
                assert(is_index_of(mid.inserts(t).schema.indexes[k + i], t, def.indexes[i]));
            }
        }
        assert forall|u: u32| u != ST_INDEXES_ID && u != ST_SEQUENCES_ID implies
            #[trigger] after.visible(u) == db.visible(u) by {
            assert(after.visible(u) == a.visible(u));
            assert(a.visible(u) == mid.visible(u));
            assert(mid.visible(u) == db.visible(u));
        }
    }
}

/// `x` is an index of table `t` as `def` has it, whatever its id.
pub open spec fn is_index_of(x: IndexSchemaModel, t: u32, def: IndexDefModel) -> bool {
    x == new_index(x.index_id, IndexDefModel { table_id: t, ..def })
}

/// The system tables hold the row of table `t`, under its name, and for its columns the rows of
/// those of `def`, and no others.
pub open spec fn has_its_rows(db: DbModel, t: u32, def: TableDefModel) -> bool {
    let tables = db.visible(ST_TABLES_ID);
    let columns = db.visible(ST_COLUMNS_ID);
    let row = (TableRowModel { table_id: t, table_name: def.table_name }).row();
    &&& tables.contains_key(row_key(row))
    &&& tables[row_key(row)] == row
    &&& forall|i: int|
        #![trigger column_row(t, def, i)]
        0 <= i < def.columns.len() ==> columns.contains_key(row_key(column_row(t, def, i)))
            && columns[row_key(column_row(t, def, i))] == column_row(t, def, i)
    &&& forall|k: Key| #[trigger]
        columns.contains_key(k) && holds(columns[k], 0, Value::U32(t)) ==> exists|i: int|
            0 <= i < def.columns.len() && columns[k] == #[trigger] column_row(t, def, i)
}

/// Table `t` is listed as `def` has it: under its name, with its columns and its indexes.
pub open spec fn is_listed_as(db: DbModel, t: u32, def: TableDefModel) -> bool {
    let schema = db.schema_for_table(t)->Ok_0;
    &&& has_its_rows(db, t, def)
    &&& db.table_id_from_name(def.table_name) == Ok::<Option<u32>, Fault>(Some(t))
    &&& db.table_name_from_id(t) == Ok::<Option<Seq<char>>, Fault>(Some(def.table_name))
    &&& db.schema_for_table(t) is Ok
    &&& schema.table_id == t
    &&& schema.table_name == def.table_name
    &&& schema.columns == listed_columns(t, def)
    &&& schema.indexes.len() == def.indexes.len()
    &&& forall|i: int|
        0 <= i < def.indexes.len() ==> is_index_of(
            #[trigger] schema.indexes[i],
            t,
            def.indexes[i],
        )
}

/// A table whose row is seen is found by its name, and its name by its id.
proof fn lemma_table_is_found(db: DbModel, t: u32, name: Seq<char>)
    requires
        db.inv(),
        db.tx is Some,
        catalogue_in_form(db, ST_TABLES_ID, 2, 2),
        ({
            let row = (TableRowModel { table_id: t, table_name: name }).row();
            let seen = db.visible(ST_TABLES_ID);
            seen.contains_key(row_key(row)) && seen[row_key(row)] == row
        }),
    ensures
        db.table_id_from_name(name) == Ok::<Option<u32>, Fault>(Some(t)),
        db.table_name_from_id(t) == Ok::<Option<Seq<char>>, Fault>(Some(name)),
        ({
            let rows = db.seek(ST_TABLES_ID, 0, Value::U32(t));
            &&& rows is Ok
            &&& rows->Ok_0.len() > 0
            &&& rows->Ok_0[0] == (TableRowModel { table_id: t, table_name: name }).row()
        }),
{
    let st = ST_TABLES_ID;
    let row = (TableRowModel { table_id: t, table_name: name }).row();
    law_keys_are_distinct(db, st, 2, 2, 0);
    law_keys_are_distinct(db, st, 2, 2, 1);
    assert(holds(row, 0, Value::U32(t)));
    assert(holds(row, 1, Value::String(name)));
    lemma_seek_finds_the_one(db, st, 0, Value::U32(t), row_key(row));
    lemma_seek_finds_the_one(db, st, 1, Value::String(name), row_key(row));
}

/// What the catalogue says of a table once its row and its columns are listed.
proof fn lemma_new_table_is_read(db: DbModel, b: DbModel, t: u32, def: TableDefModel)
    requires
        b.inv(),
        b.tx is Some,
        !b.table_exists(t),
        catalogue_in_form(b, ST_TABLES_ID, 2, 2),
        catalogue_in_form(b, ST_COLUMNS_ID, 5, 0),
        def.columns.len() <= u32::MAX,
        column_keys_differ(t, def),
        forall|i: int|
            0 <= i < def.columns.len() ==> type_fits((#[trigger] def.columns[i]).col_type),
        lists_nothing(db, ST_COLUMNS_ID, 0, t),
        lists_nothing(db, ST_INDEXES_ID, 1, t),
        b.visible(ST_COLUMNS_ID) == with_columns(
            db.visible(ST_COLUMNS_ID),
            t,
            def,
            def.columns.len(),
        ),
        b.visible(ST_INDEXES_ID) == db.visible(ST_INDEXES_ID),
        ({
            let row = (TableRowModel { table_id: t, table_name: def.table_name }).row();
            let seen = b.visible(ST_TABLES_ID);
            seen.contains_key(row_key(row)) && seen[row_key(row)] == row
        }),
        b.schema_for_table(t) is Ok,
    ensures
        b.schema_for_table(t) == Ok::<SchemaModel, Fault>(
            SchemaModel {
                table_id: t,
                table_name: def.table_name,
                columns: listed_columns(t, def),
                indexes: Seq::empty(),
            },
        ),
{
    lemma_table_is_found(b, t, def.table_name);
    lemma_listed_columns_are_read(b, db.visible(ST_COLUMNS_ID), t, def);
    law_seek_yields_matching_rows(b, ST_INDEXES_ID, 1, Value::U32(t));
    let el = TableRowModel { table_id: t, table_name: def.table_name };
    assert(TableRowModel::of_row(el.row()) == Ok::<TableRowModel, Fault>(el));
    assert(b.schema_for_table(t) == b.schema_of_columns(el));
    assert(b.seek(ST_INDEXES_ID, 1, Value::U32(t)) is Ok);
    lemma_seek_finds_none(b, ST_INDEXES_ID, 1, Value::U32(t));
    let rows = b.seek(ST_INDEXES_ID, 1, Value::U32(t))->Ok_0;
    assert(rows =~= Seq::empty());
    assert(indexes_of_rows(rows) == Ok::<Seq<IndexSchemaModel>, Fault>(Seq::empty()));
}

/// The catalogue can take table `t` as `def` has it: nothing is listed for its id, its columns'
/// rows have keys of their own, and their types can be written down.
pub open spec fn fits_catalogue(db: DbModel, t: u32, def: TableDefModel) -> bool {
    &&& lists_nothing(db, ST_COLUMNS_ID, 0, t)
    &&& lists_nothing(db, ST_INDEXES_ID, 1, t)
    &&& def.columns.len() <= u32::MAX
    &&& column_keys_differ(t, def)
    &&& forall|i: int|
        0 <= i < def.columns.len() ==> type_fits((#[trigger] def.columns[i]).col_type)
}

/// What the datastore is when a table that is made is in memory and its indexes are not.
proof fn lemma_table_before_indexes(db: DbModel, def: TableDefModel) -> (c: DbModel)
    requires
        db.inv(),
        db.tx is Some,
        catalogue_in_form(db, ST_TABLES_ID, 2, 2),
        catalogue_in_form(db, ST_COLUMNS_ID, 5, 0),
        db.create_table(def).1 is Ok,
        fits_catalogue(db, db.create_table(def).1->Ok_0, def),
    ensures
        ({
            let t = db.create_table(def).1->Ok_0;
            let n = def.indexes.len();
            &&& c.inv()
            &&& c.tx is Some
            &&& c.has_inserts(t)
            &&& !c.has_base(t)
            &&& c.inserts(t).schema == SchemaModel {
                table_id: t,
                table_name: def.table_name,
                columns: listed_columns(t, def),
                indexes: Seq::empty(),
            }
            &&& has_its_rows(c, t, def)
            &&& c.create_indexes(t, def, n).1 is Ok
            &&& db.create_table(def).0 == c.create_indexes(t, def, n).0
            &&& keeps_forms(db, c)
        }),
{
    let row = (TableRowModel { table_id: 0, table_name: def.table_name }).row();
    let (a, r) = db.insert_row(ST_TABLES_ID, row);
    law_insert_keeps_tables(db, ST_TABLES_ID, row);
    law_insert_changes_one_table(db, ST_TABLES_ID, row);
    law_returned_row_is_visible(db, ST_TABLES_ID, row);
    law_insert_keeps_given_values(db, ST_TABLES_ID, row, 1);
    let inserted = r->Ok_0;
    let t = TableRowModel::of_row(inserted)->Ok_0.table_id;
    let own = (TableRowModel { table_id: t, table_name: def.table_name }).row();
    assert(inserted =~= own);
    law_created_table_is_there(db, def);
    assert(db.table_exists(0));
    assert(t != 0);
    let n = def.columns.len();
    let b = a.create_columns(t, def, n).0;
    lemma_columns_keep(a, t, def, n);
    assert(catalogue_in_form(a, ST_TABLES_ID, 2, 2) && catalogue_in_form(b, ST_TABLES_ID, 2, 2));
    assert(catalogue_in_form(a, ST_COLUMNS_ID, 5, 0) && catalogue_in_form(b, ST_COLUMNS_ID, 5, 0));
    lemma_columns_are_listed(a, t, def, n);
    assert(a.visible(ST_COLUMNS_ID) == db.visible(ST_COLUMNS_ID));
    assert(a.visible(ST_INDEXES_ID) == db.visible(ST_INDEXES_ID));
    assert(b.visible(ST_INDEXES_ID) == a.visible(ST_INDEXES_ID));
    assert(b.visible(ST_TABLES_ID) == a.visible(ST_TABLES_ID));
    lemma_new_table_is_read(db, b, t, def);
    let schema = b.schema_for_table(t)->Ok_0;
    let table = new_table(def.row_type(), schema);
    let c = b.with_inserts(t, table);
    lemma_new_table_inv(b, t, def.row_type(), schema);
    lemma_new_part_keeps(b, t, table);
    assert(c.visible(ST_TABLES_ID) == b.visible(ST_TABLES_ID));
    assert(c.visible(ST_COLUMNS_ID) == b.visible(ST_COLUMNS_ID));
    lemma_columns_are_its_rows(db, c, t, def);
    assert forall|st: u32, width: nat, keys: u32| #[trigger]
        catalogue_in_form(db, st, width, keys) implies catalogue_in_form(c, st, width, keys) by {
        assert(catalogue_in_form(a, st, width, keys));
        assert(catalogue_in_form(b, st, width, keys));
    }
    c
}

/// What the system tables hold for a table is there in the next transaction.
proof fn lemma_rows_past_commit(db: DbModel, t: u32, def: TableDefModel)
    requires
        db.inv(),
        db.tx is Some,
        has_its_rows(db, t, def),
    ensures
        has_its_rows(db.commit().begin(), t, def),
{
    law_committed_rows_are_seen_next(db, ST_TABLES_ID);
    law_committed_rows_are_seen_next(db, ST_COLUMNS_ID);
}

/// A table that is listed as its definition has it is so in the next transaction.
proof fn lemma_listed_past_commit(db: DbModel, t: u32, def: TableDefModel)
    requires
        db.inv(),
        db.tx is Some,
        catalogue_in_form(db, ST_TABLES_ID, 2, 2),
        db.has_inserts(t),
        is_listed_as(db, t, def),
    ensures
        db.commit().begin().inv(),
        db.commit().begin().schema_for_table(t) == db.schema_for_table(t),
        is_listed_as(db.commit().begin(), t, def),
{
    let next = db.commit().begin();
    lemma_commit_inv(db);
    lemma_begin_inv(db.commit());
    law_next_transaction_keeps_form(db, ST_TABLES_ID, 2, 2);
    lemma_rows_past_commit(db, t, def);
    lemma_table_is_found(next, t, def.table_name);
    lemma_without_none(db.commit().committed[t]);
}

/// A table that was made is listed as its definition has it, in the transaction that made it and,
/// once that is committed, in the next: the system tables hold its row and those of its columns,
/// its name leads to it, and its schema has the columns and the indexes of the definition. The
/// tables of tables and of columns are in form.
pub proof fn law_created_table_is_listed(db: DbModel, def: TableDefModel)
    requires
        db.inv(),
        db.tx is Some,
        catalogue_in_form(db, ST_TABLES_ID, 2, 2),
        catalogue_in_form(db, ST_COLUMNS_ID, 5, 0),
        db.create_table(def).1 is Ok,
        fits_catalogue(db, db.create_table(def).1->Ok_0, def),
    ensures
        ({
            let (after, r) = db.create_table(def);
            &&& is_listed_as(after, r->Ok_0, def)
            &&& is_listed_as(after.commit().begin(), r->Ok_0, def)
        }),
{
    let t = db.create_table(def).1->Ok_0;
    let c = lemma_table_before_indexes(db, def);
    let n = def.indexes.len();
    let d = c.create_indexes(t, def, n).0;
    lemma_indexes_are_made(c, t, def, n);
    lemma_indexes_keep(c, t, def, n);
    assert(catalogue_in_form(c, ST_TABLES_ID, 2, 2));
    assert(catalogue_in_form(d, ST_TABLES_ID, 2, 2));
    assert(d.visible(ST_TABLES_ID) == c.visible(ST_TABLES_ID));
    assert(d.visible(ST_COLUMNS_ID) == c.visible(ST_COLUMNS_ID));
    lemma_table_is_found(d, t, def.table_name);
    let made = d.inserts(t).schema;
    assert(d.schema_for_table(t) == Ok::<SchemaModel, Fault>(made));
    assert forall|i: int| 0 <= i < n implies is_index_of(
        #[trigger] made.indexes[i],
        t,
        def.indexes[i],
    ) by {
        assert(made.indexes[0 + i] == made.indexes[i]);
    }
    lemma_listed_past_commit(d, t, def);
}

proof fn lemma_columns_are_its_rows(db: DbModel, d: DbModel, t: u32, def: TableDefModel)
    requires
        lists_nothing(db, ST_COLUMNS_ID, 0, t),
        column_keys_differ(t, def),
        d.visible(ST_COLUMNS_ID) == with_columns(
            db.visible(ST_COLUMNS_ID),
            t,
            def,
            def.columns.len(),
        ),
        ({
            let row = (TableRowModel { table_id: t, table_name: def.table_name }).row();
            let seen = d.visible(ST_TABLES_ID);
            seen.contains_key(row_key(row)) && seen[row_key(row)] == row
        }),
    ensures
        has_its_rows(d, t, def),
{
    let m = db.visible(ST_COLUMNS_ID);
    let n = def.columns.len();
    let columns = d.visible(ST_COLUMNS_ID);
    assert forall|i: int|
        #![trigger column_row(t, def, i)]
        0 <= i < n implies columns.contains_key(row_key(column_row(t, def, i)))
        && columns[row_key(column_row(t, def, i))] == column_row(t, def, i) by {
        lemma_with_columns(m, t, def, n, row_key(column_row(t, def, i)));
    }
    assert forall|k: Key| #[trigger]
        columns.contains_key(k) && holds(columns[k], 0, Value::U32(t)) implies exists|i: int|
        0 <= i < n && columns[k] == #[trigger] column_row(t, def, i) by {
        lemma_with_columns(m, t, def, n, k);
    }
}

/// The rows of `indexes` have keys of their own.
pub open spec fn index_keys_differ(indexes: Seq<IndexSchemaModel>) -> bool {
    forall|i: int, j: int|
        #![trigger indexes[i], indexes[j]]
        0 <= i < j < indexes.len() ==> row_key(indexes[i].row()) != row_key(indexes[j].row())
}

/// The system table of indexes holds the rows of `indexes`.
pub open spec fn has_index_rows(db: DbModel, indexes: Seq<IndexSchemaModel>) -> bool {
    forall|i: int|
        0 <= i < indexes.len() ==> {
            let row = (#[trigger] indexes[i]).row();
            &&& db.visible(ST_INDEXES_ID).contains_key(row_key(row))
            &&& db.visible(ST_INDEXES_ID)[row_key(row)] == row
        }
}

/// The row of an index that was made says what its definition does.
proof fn lemma_made_index_row(db: DbModel, def: IndexDefModel)
    requires
        db.inv(),
        db.tx is Some,
        catalogue_in_form(db, ST_INDEXES_ID, 5, 1),
        db.create_index(def).1 is Ok,
    ensures
        ({
            let (after, r) = db.create_index(def);
            let row = new_index(r->Ok_0, def).row();
            after.visible(ST_INDEXES_ID) == db.visible(ST_INDEXES_ID).insert(row_key(row), row)
        }),
{
    let st = ST_INDEXES_ID;
    let row = new_index(0, def).row();
    let (mid, r) = db.insert_row(st, row);
    law_insert_changes_one_table(db, st, row);
    law_insert_keeps_tables(db, st, row);
    let inserted = r->Ok_0;
    let id = IndexSchemaModel::of_row(inserted)->Ok_0.index_id;
    let schema = db.schema_for_table(st)->Ok_0;
    assert(db.schema(st) == Some(schema));
    assert forall|c: int| 1 <= c < 5 implies inserted[c] == row[c] by {
        law_insert_keeps_given_values(db, st, row, c);
    }
    law_insert_keeps_given_values(db, st, row, 0);
    assert(inserted =~= new_index(id, def).row());
    lemma_index_internal_keeps(mid, id, def);
    assert(db.create_index(def).0.visible(st) == mid.visible(st));
}

proof fn lemma_index_rows_are_listed(db: DbModel, t: u32, def: TableDefModel, n: nat)
    requires
        db.inv(),
        db.tx is Some,
        db.has_inserts(t),
        db.inserts(t).schema.indexes.len() == 0,
        catalogue_in_form(db, ST_INDEXES_ID, 5, 1),
        n <= def.indexes.len(),
        db.create_indexes(t, def, n).1 is Ok,
        index_keys_differ(db.create_indexes(t, def, n).0.inserts(t).schema.indexes),
    ensures
        has_index_rows(
            db.create_indexes(t, def, n).0,
            db.create_indexes(t, def, n).0.inserts(t).schema.indexes,
        ),
    decreases n,
{
    lemma_indexes_are_made(db, t, def, n);
    if n > 0 {
        lemma_indexes_are_made(db, t, def, (n - 1) as nat);
        lemma_indexes_keep(db, t, def, (n - 1) as nat);
        let mid = db.create_indexes(t, def, (n - 1) as nat).0;
        let index = IndexDefModel { table_id: t, ..def.indexes[n - 1] };
        let (after, r) = mid.create_index(index);
        assert(after == db.create_indexes(t, def, n).0);
        assert(catalogue_in_form(mid, ST_INDEXES_ID, 5, 1));
        lemma_made_index_row(mid, index);
        lemma_schema_grows(mid, index);
        let before = mid.inserts(t).schema.indexes;
        let all = after.inserts(t).schema.indexes;
        assert(all == before.push(new_index(r->Ok_0, index)));
        assert(index_keys_differ(before)) by {
            assert forall|i: int, j: int|
                #![trigger before[i], before[j]]
                0 <= i < j < before.len() implies row_key(before[i].row()) != row_key(
                before[j].row(),
            ) by {
                assert(all[i] == before[i] && all[j] == before[j]);
            }
        }
        lemma_index_rows_are_listed(db, t, def, (n - 1) as nat);
        assert forall|i: int| 0 <= i < all.len() implies ({
            let row = (#[trigger] all[i]).row();
            &&& after.visible(ST_INDEXES_ID).contains_key(row_key(row))
            &&& after.visible(ST_INDEXES_ID)[row_key(row)] == row
        }) by {
            if i < before.len() {
                assert(before[i] == all[i]);
                assert(row_key(all[i].row()) != row_key(all[all.len() - 1].row()));
            }
        }
    }
}

/// An index that was made is the last in the schema of its table.
proof fn lemma_schema_grows(db: DbModel, def: IndexDefModel)
    requires
        db.inv(),
        db.tx is Some,
        db.has_inserts(def.table_id),
        db.create_index(def).1 is Ok,
    ensures
        ({
            let (after, r) = db.create_index(def);
            let t = def.table_id;
            after.inserts(t).schema.indexes == db.inserts(t).schema.indexes.push(
                new_index(r->Ok_0, def),
            )
        }),
{
    let t = def.table_id;
    let row = new_index(0, def).row();
    let mid = db.insert_row(ST_INDEXES_ID, row).0;
    law_insert_keeps_tables(db, ST_INDEXES_ID, row);
    assert(mid.schema(t) == db.schema(t));
    assert(mid.has_inserts(t));
}

/// The indexes of a table that was made are listed in the system table of indexes, in the
/// transaction that made it and, once that is committed, in the next: every index of its schema has
/// its row there. The tables of tables, of columns and of indexes are in form, and the rows of the
/// indexes have keys of their own.
pub proof fn law_created_indexes_are_listed(db: DbModel, def: TableDefModel)
    requires
        db.inv(),
        db.tx is Some,
        catalogue_in_form(db, ST_TABLES_ID, 2, 2),
        catalogue_in_form(db, ST_COLUMNS_ID, 5, 0),
        catalogue_in_form(db, ST_INDEXES_ID, 5, 1),
        db.create_table(def).1 is Ok,
        fits_catalogue(db, db.create_table(def).1->Ok_0, def),
        ({
            let (after, r) = db.create_table(def);
            index_keys_differ(after.schema_for_table(r->Ok_0)->Ok_0.indexes)
        }),
    ensures
        ({
            let (after, r) = db.create_table(def);
            let next = after.commit().begin();
            let t = r->Ok_0;
            &&& has_index_rows(after, after.schema_for_table(t)->Ok_0.indexes)
            &&& has_index_rows(next, next.schema_for_table(t)->Ok_0.indexes)
        }),
{
    let t = db.create_table(def).1->Ok_0;
    let c = lemma_table_before_indexes(db, def);
    let n = def.indexes.len();
    let d = c.create_indexes(t, def, n).0;
    lemma_indexes_are_made(c, t, def, n);
    lemma_indexes_keep(c, t, def, n);
    assert(catalogue_in_form(c, ST_INDEXES_ID, 5, 1));
    lemma_index_rows_are_listed(c, t, def, n);
    law_created_table_is_listed(db, def);
    assert(catalogue_in_form(c, ST_TABLES_ID, 2, 2));
    lemma_listed_past_commit(d, t, def);
    law_committed_rows_are_seen_next(d, ST_INDEXES_ID);
}

} // verus!
