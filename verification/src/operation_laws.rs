//! What holds of single operations: what they yield, in what order, and why they are refused.

use vstd::prelude::*;

use crate::btree_index::{column_of, one_row_per_value};
use crate::catalogue_laws::{
    agrees_at, catalogue_in_form, lemma_first_conflict_is_one, lemma_seek_finds_none,
    lemma_seek_finds_the_one,
};
use crate::data_key::{row_key, Key, RowId};
use crate::error::Fault;
use crate::laws::{
    distinct_values, fills_itself, law_columns_are_in_order, law_created_sequence_is_listed,
    law_insert_keeps_given_values, law_insert_keeps_tables, lemma_columns_keep, lemma_finite,
};
use crate::locking::listed;
use crate::messages::{writes_of, Operation, WriteModel};
use crate::model::{
    by_col_id, column_sequence, columns_of_rows, delete_writes, holding, holds, indexes_of_rows,
    insert_writes, listed_column, merge_writes, new_index, new_sequence, DbModel, RowOp, TxModel,
};
use crate::ordered::{
    ascending, in_key_order, lemma_ascending_of_finite, lemma_filter_contains, lemma_in_key_order,
    OrderedKey,
};
use crate::range::RangeModel;
use crate::row_laws::law_seek_yields_rows_with_the_value;
use crate::schema::{
    ColumnDefModel, ColumnModel, IndexDefModel, IndexSchemaModel, SchemaModel, TableDefModel,
};
use crate::sequence::SequenceModel;
use crate::soundness::{
    law_agreeing_row_is_refused, lemma_base_inv, lemma_insert_table_inv, lemma_seen_under_key,
};
use crate::system_tables::TableRowModel;
use crate::table::{lemma_without_none, TableModel};
use crate::types::RowType;
use crate::value::{canonical, Row, Value};
use crate::value_laws::law_plain_values_equal_only_themselves;

verus! {

/// The number after another is one increment on, and past one end of the range the other end.
pub proof fn law_number_follows_number(q: SequenceModel, v: i128)
    ensures
        q.min_value <= v + q.increment <= q.max_value ==> q.after(v) == v + q.increment,
        v + q.increment > q.max_value ==> q.after(v) == q.min_value,
        v + q.increment < q.min_value && v + q.increment <= q.max_value ==> q.after(v)
            == q.max_value,
{
}

/// A sequence gives out one number after the other. To give one out changes what comes next and
/// nothing else, to allocate changes what is allocated and nothing else, and nothing is left where
/// the next number is the one that the allocation ends at.
pub proof fn law_sequence_goes_on(q: SequenceModel, n: nat, to: i128)
    ensures
        q.nth(0) == q.value,
        q.nth(n + 1) == q.after(q.nth(n)),
        q.advanced().value == q.after(q.value),
        q.advanced() == (SequenceModel { value: q.advanced().value, ..q }),
        q.allocated_to(to).allocated == to,
        q.allocated_to(to) == (SequenceModel { allocated: to, ..q }),
        q.used_up().allocated == q.value,
        q.used_up() == (SequenceModel { allocated: q.value, ..q }),
        q.exhausted() <==> q.value == q.allocated,
{
}

/// A row is got by its key just where the table is there and the row is visible.
pub proof fn law_row_is_got_by_its_key(db: DbModel, t: u32, k: Key)
    ensures
        db.get_row(t, k) == (if !db.table_exists(t) {
            Err::<Option<Row>, Fault>(Fault::TableIdNotFound(t))
        } else if db.visible(t).contains_key(k) {
            Ok(Some(db.visible(t)[k]))
        } else {
            Ok(None)
        }),
{
}

/// Rows of a table that is not there are neither read nor put in: that the id of the table leads to
/// nothing is said.
pub proof fn law_missing_table_is_named(
    db: DbModel,
    t: u32,
    c: u32,
    v: Value,
    range: RangeModel,
    row: Row,
)
    requires
        !db.table_exists(t),
    ensures
        db.scan(t) == Err::<Seq<Row>, Fault>(Fault::TableIdNotFound(t)),
        db.seek(t, c, v) == Err::<Seq<Row>, Fault>(Fault::TableIdNotFound(t)),
        db.range_scan(t, c, range) == Err::<Seq<Row>, Fault>(Fault::TableIdNotFound(t)),
        db.insert_row_internal(t, row) == (db, Err::<(), Fault>(Fault::TableIdNotFound(t))),
        !db.tx->0.inserts.contains_key(t),
        !db.committed.contains_key(t) || db.tx->0.dropped.contains(t),
{
}

/// What has become of a row: it was deleted, or inserted and not deleted, or neither. A row is
/// visible just where it was inserted, or was committed and neither.
pub proof fn law_row_ops(db: DbModel, t: u32, k: Key)
    requires
        db.inv(),
        db.tx is Some,
    ensures
        ({
            let tx = db.tx->0;
            let deleted = tx.deletes.contains_key(t) && tx.deletes[t].contains(k);
            let inserted = tx.inserts.contains_key(t) && tx.inserts[t].rows.contains_key(k);
            let committed = db.committed.contains_key(t) && !tx.dropped.contains(t)
                && db.committed[t].rows.contains_key(k);
            &&& tx.row_op(t, k) == RowOp::Delete <==> deleted
            &&& tx.row_op(t, k) == RowOp::Insert <==> inserted
            &&& tx.row_op(t, k) == RowOp::Absent <==> !deleted && !inserted
            &&& db.visible(t).contains_key(k) <==> inserted || (committed && !deleted)
            &&& inserted ==> db.visible(t)[k] == tx.inserts[t].rows[k]
            &&& committed && !deleted && !inserted ==> db.visible(t)[k] == db.committed[t].rows[k]
        }),
{
    assert(db.tx->0.fresh(t).contains_key(k) ==> !db.tx->0.deleted(t).contains(k));
}

/// What `db` has of table `t` says why `row` is refused: the name of the index on column `c`, that
/// of the table and that of the column, and the value.
pub open spec fn says_why(table: TableModel, c: u32, row: Row, f: Fault) -> bool {
    f matches Fault::UniqueConstraintViolation { constraint_name, table_name, col_name, value } && {
        &&& table.indexes.contains_key(c)
        &&& table.indexes[c].is_unique
        &&& constraint_name == table.indexes[c].name
        &&& table_name == table.schema.table_name
        &&& c < table.schema.columns.len() ==> col_name == table.schema.columns[c as int].col_name
        &&& c >= table.schema.columns.len() ==> col_name.len() == 0
        &&& value == row[c as int]
    }
}

/// A row is taken just where it has as many values as the row type and agrees with no row that is
/// seen in the column of a unique index. Where it agrees with one, it is refused with the name of
/// the index, the table and the column, and the value. Otherwise it is refused as it is.
pub proof fn law_refusal_says_why(db: DbModel, t: u32, row: Row)
    requires
        db.inv(),
        db.tx is Some,
        db.table_exists(t),
    ensures
        ({
            let agrees = exists|c: u32, k: Key| #[trigger] agrees_at(db, t, c, k, row);
            match db.insert_row_internal(t, row).1 {
                Ok(_) => row.len() == db.row_type(t)->0.len() && !agrees,
                Err(Fault::RowInvalidType { table_id, row: refused }) => {
                    &&& row.len() != db.row_type(t)->0.len()
                    &&& !agrees
                    &&& table_id == t
                    &&& refused == row
                },
                Err(f) => exists|c: u32, k: Key|
                    #![trigger agrees_at(db, t, c, k, row)]
                    {
                        &&& agrees_at(db, t, c, k, row)
                        &&& says_why(db.with_insert_table(t).inserts(t), c, row, f) || says_why(
                            db.base(t),
                            c,
                            row,
                            f,
                        )
                    },
            }
        }),
{
    let mid = db.with_insert_table(t);
    lemma_insert_table_inv(db, t);
    assert(mid.has_inserts(t));
    assert(mid.fresh(t) =~= db.fresh(t));
    assert(mid.visible(t) =~= db.visible(t));
    assert(mid.inserts(t).row_type == db.row_type(t)->0);
    match mid.inserts(t).first_conflict(row, Set::empty()) {
        Some(c) => {
            lemma_first_conflict_is_one(mid.inserts(t), row, Set::empty());
            let index = mid.inserts(t).indexes[c];
            assert(mid.tx->0.inserts.contains_key(t));
            assert(mid.inserts(t).inv());
            let k = choose|k: Key|
                #[trigger] index.holding(row[index.col_id as int]).contains(k) && !Set::<
                    Key,
                >::empty().contains(k);
            assert(mid.inserts(t).holds_only(mid.visible(t)));
            assert(mid.inserts(t).indexes[c].entries.contains_key(k));
            assert(agrees_at(db, t, c, k, row));
            let f = db.insert_row_internal(t, row).1->Err_0;
            assert(says_why(mid.inserts(t), c, row, f));
        },
        None => {
            let gone = mid.replaced(t);
            if mid.has_base(t) && mid.base(t).first_conflict(row, gone) is Some {
                let c = mid.base(t).first_conflict(row, gone)->0;
                lemma_first_conflict_is_one(mid.base(t), row, gone);
                lemma_base_inv(db, t);
                let index = mid.base(t).indexes[c];
                let k = choose|k: Key|
                    #[trigger] index.holding(row[index.col_id as int]).contains(k)
                        && !gone.contains(k);
                assert(db.base(t).indexes.contains_key(c));
                assert(index.entries == column_of(db.base(t).rows, c));
                assert(db.stored(t).contains_key(k) && !db.fresh(t).contains_key(k));
                assert(db.visible(t).contains_key(k));
                assert(db.visible(t)[k] == db.base(t).rows[k]);
                assert(agrees_at(db, t, c, k, row));
                let f = db.insert_row_internal(t, row).1->Err_0;
                assert(says_why(db.base(t), c, row, f));
            } else {
                assert forall|c: u32, k: Key| !(#[trigger] agrees_at(db, t, c, k, row)) by {
                    if agrees_at(db, t, c, k, row) {
                        law_agreeing_row_is_refused(mid, t, row, c, k);
                    }
                }
            }
        },
    }
}

/// The only row with a name in its place leads to the id in front of it: in the table of tables and
/// in that of sequences the name is in the second place, and in that of indexes in the fourth.
pub proof fn law_name_leads_to_its_id(db: DbModel, name: Seq<char>, k: Key, id: u32)
    requires
        db.inv(),
        db.tx is Some,
    ensures
        ({
            let row = db.visible(0)[k];
            db.visible(0).contains_key(k) && row.len() > 1 && row[0] == Value::U32(id) && row[1]
                == Value::String(name) && distinct_values(db.visible(0), 1)
                ==> db.table_id_from_name(name) == Ok::<Option<u32>, Fault>(Some(id))
        }),
        ({
            let row = db.visible(2)[k];
            db.visible(2).contains_key(k) && row.len() > 1 && row[0] == Value::U32(id) && row[1]
                == Value::String(name) && distinct_values(db.visible(2), 1)
                ==> db.sequence_id_from_name(name) == Ok::<Option<u32>, Fault>(Some(id))
        }),
        ({
            let row = db.visible(3)[k];
            db.visible(3).contains_key(k) && row.len() > 3 && row[0] == Value::U32(id) && row[3]
                == Value::String(name) && distinct_values(db.visible(3), 3)
                ==> db.index_id_from_name(name) == Ok::<Option<u32>, Fault>(Some(id))
        }),
{
    let v = Value::String(name);
    let tables = db.visible(0);
    if tables.contains_key(k) && tables[k].len() > 1 && tables[k][0] == Value::U32(id)
        && tables[k][1] == v && distinct_values(tables, 1) {
        assert(holds(tables[k], 1, v));
        lemma_seek_finds_the_one(db, 0, 1, v, k);
    }
    let sequences = db.visible(2);
    if sequences.contains_key(k) && sequences[k].len() > 1 && sequences[k][0] == Value::U32(id)
        && sequences[k][1] == v && distinct_values(sequences, 1) {
        assert(holds(sequences[k], 1, v));
        lemma_seek_finds_the_one(db, 2, 1, v, k);
    }
    let indexes = db.visible(3);
    if indexes.contains_key(k) && indexes[k].len() > 3 && indexes[k][0] == Value::U32(id)
        && indexes[k][3] == v && distinct_values(indexes, 3) {
        assert(holds(indexes[k], 3, v));
        lemma_seek_finds_the_one(db, 3, 3, v, k);
    }
}

/// A name that no row has in its place leads to nothing.
pub proof fn law_unknown_name_leads_to_nothing(db: DbModel, name: Seq<char>)
    requires
        db.inv(),
        db.tx is Some,
        db.table_exists(0),
        db.table_exists(2),
        db.table_exists(3),
    ensures
        (forall|k: Key| #[trigger]
            db.visible(0).contains_key(k) && db.visible(0)[k].len() > 1 ==> db.visible(0)[k][1]
                != Value::String(name)) ==> db.table_id_from_name(name) == Ok::<
            Option<u32>,
            Fault,
        >(None),
        (forall|k: Key| #[trigger]
            db.visible(2).contains_key(k) && db.visible(2)[k].len() > 1 ==> db.visible(2)[k][1]
                != Value::String(name)) ==> db.sequence_id_from_name(name) == Ok::<
            Option<u32>,
            Fault,
        >(None),
        (forall|k: Key| #[trigger]
            db.visible(3).contains_key(k) && db.visible(3)[k].len() > 3 ==> db.visible(3)[k][3]
                != Value::String(name)) ==> db.index_id_from_name(name) == Ok::<
            Option<u32>,
            Fault,
        >(None),
{
    let v = Value::String(name);
    if forall|k: Key| #[trigger]
        db.visible(0).contains_key(k) && db.visible(0)[k].len() > 1 ==> db.visible(0)[k][1] != v {
        lemma_no_row_holds_text(db, 0, 1, name);
    }
    if forall|k: Key| #[trigger]
        db.visible(2).contains_key(k) && db.visible(2)[k].len() > 1 ==> db.visible(2)[k][1] != v {
        lemma_no_row_holds_text(db, 2, 1, name);
    }
    if forall|k: Key| #[trigger]
        db.visible(3).contains_key(k) && db.visible(3)[k].len() > 3 ==> db.visible(3)[k][3] != v {
        lemma_no_row_holds_text(db, 3, 3, name);
    }
}

proof fn lemma_no_row_holds_text(db: DbModel, t: u32, c: u32, name: Seq<char>)
    requires
        db.inv(),
        db.tx is Some,
        db.table_exists(t),
        forall|k: Key| #[trigger]
            db.visible(t).contains_key(k) && db.visible(t)[k].len() > c ==> db.visible(
                t,
            )[k][c as int] != Value::String(name),
    ensures
        db.seek(t, c, Value::String(name)) is Ok,
        db.seek(t, c, Value::String(name))->Ok_0.len() == 0,
{
    let v = Value::String(name);
    assert forall|k: Key| #[trigger] db.visible(t).contains_key(k) implies !holds(
        db.visible(t)[k],
        c,
        v,
    ) by {
        if holds(db.visible(t)[k], c, v) {
            law_plain_values_equal_only_themselves(v, db.visible(t)[k][c as int]);
        }
    }
    lemma_seek_finds_none(db, t, c, v);
}

/// The only row of the table of tables with an id in front has the name of the table behind it, and
/// a table without a row has no name.
pub proof fn law_id_leads_to_its_name(db: DbModel, t: u32, k: Key, name: Seq<char>)
    requires
        db.inv(),
        db.tx is Some,
    ensures
        ({
            let row = db.visible(0)[k];
            db.visible(0).contains_key(k) && row.len() > 1 && row[0] == Value::U32(t) && row[1]
                == Value::String(name) && distinct_values(db.visible(0), 0)
                ==> db.table_name_from_id(t) == Ok::<Option<Seq<char>>, Fault>(Some(name))
        }),
        db.table_exists(0) && (forall|j: Key| #[trigger]
            db.visible(0).contains_key(j) && db.visible(0)[j].len() > 0 ==> db.visible(0)[j][0]
                != Value::U32(t)) ==> db.table_name_from_id(t) == Ok::<Option<Seq<char>>, Fault>(
            None,
        ),
{
    let v = Value::U32(t);
    let tables = db.visible(0);
    if tables.contains_key(k) && tables[k].len() > 1 && tables[k][0] == v && tables[k][1]
        == Value::String(name) && distinct_values(tables, 0) {
        assert(holds(tables[k], 0, v));
        lemma_seek_finds_the_one(db, 0, 0, v, k);
    }
    if db.table_exists(0) && (forall|j: Key| #[trigger]
        tables.contains_key(j) && tables[j].len() > 0 ==> tables[j][0] != v) {
        assert forall|j: Key| #[trigger] tables.contains_key(j) implies !holds(tables[j], 0, v) by {
            if holds(tables[j], 0, v) {
                law_plain_values_equal_only_themselves(v, tables[j][0]);
            }
        }
        lemma_seek_finds_none(db, 0, 0, v);
    }
}

/// An index in memory is made just where the column has none, every row that is seen has the column
/// and, for a unique one, no two rows that are seen have equal values in it. Which of the three is
/// not so is said, in this order.
pub proof fn law_index_is_made_or_refused(db: DbModel, index_id: u32, def: IndexDefModel)
    requires
        db.tx is Some,
        db.table_exists(def.table_id),
    ensures
        ({
            let t = def.table_id;
            let c = def.col_id;
            let rows = db.visible(t);
            let r = db.create_index_internal(index_id, def).1;
            let taken = (db.tx->0.inserts.contains_key(t)
                && db.tx->0.inserts[t].indexes.contains_key(c)) || (db.has_base(t) && db.base(
                t,
            ).indexes.contains_key(c));
            let lacking = exists|k: Key| #[trigger] rows.contains_key(k) && rows[k].len() <= c;
            let twice = exists|j: Key, k: Key|
                #![trigger rows.contains_key(j), rows.contains_key(k)]
                rows.contains_key(j) && rows.contains_key(k) && j != k && c < rows[j].len() && c
                    < rows[k].len() && canonical(rows[j][c as int]) == canonical(rows[k][c as int]);
            &&& taken ==> r == Err::<(), Fault>(Fault::ColumnIndexed { table_id: t, col_id: c })
            &&& !taken && lacking ==> r == Err::<(), Fault>(Fault::InvalidField(c))
            &&& !taken && !lacking && def.is_unique && twice ==> r == Err::<(), Fault>(
                Fault::NotUnique { index_name: def.name, table_id: t, col_id: c },
            )
            &&& !taken && !lacking && !(def.is_unique && twice) ==> r is Ok
        }),
{
    let t = def.table_id;
    let c = def.col_id;
    let mid = db.with_insert_table(t);
    assert(mid.fresh(t) =~= db.fresh(t));
    assert(mid.visible(t) =~= db.visible(t));
    let rows = db.visible(t);
    let entries = column_of(rows, c);
    if one_row_per_value(entries) {
        assert forall|j: Key, k: Key|
            #![trigger rows.contains_key(j), rows.contains_key(k)]
            rows.contains_key(j) && rows.contains_key(k) && j != k && c < rows[j].len() && c
                < rows[k].len() implies canonical(rows[j][c as int]) != canonical(
            rows[k][c as int],
        ) by {
            assert(entries.contains_key(j) && entries.contains_key(k));
        }
    } else {
        let (j, k) = choose|j: Key, k: Key|
            #![trigger entries.contains_key(j), entries.contains_key(k)]
            entries.contains_key(j) && entries.contains_key(k) && j != k && entries[j]
                == entries[k];
        assert(rows.contains_key(j) && rows.contains_key(k));
    }
    assert(mid.base(t) == db.base(t));
    if !db.has_inserts(t) {
        assert(mid.inserts(t).indexes.dom() =~= db.base(t).indexes.dom());
    }
}

/// An index that was made is that of its definition, under the id that it was given: in memory it
/// is on the definition's column, has its name, is unique where that is so, and holds the value of
/// each row that is seen. It is behind the others in the schema of the table. The row type and the
/// rows are as they were.
pub proof fn law_made_index_is_as_defined(db: DbModel, index_id: u32, def: IndexDefModel)
    requires
        db.tx is Some,
        db.table_exists(def.table_id),
        db.create_index_internal(index_id, def).1 is Ok,
    ensures
        ({
            let t = def.table_id;
            let c = def.col_id;
            let after = db.create_index_internal(index_id, def).0;
            let was = db.with_insert_table(t).inserts(t);
            let table = after.inserts(t);
            &&& table.indexes.contains_key(c)
            &&& table.indexes[c].index_id == index_id
            &&& table.indexes[c].table_id == t
            &&& table.indexes[c].col_id == c
            &&& table.indexes[c].name == def.name
            &&& table.indexes[c].is_unique == def.is_unique
            &&& forall|k: Key| #[trigger]
                table.indexes[c].entries.contains_key(k) <==> db.visible(t).contains_key(k)
            &&& forall|k: Key| #[trigger]
                db.visible(t).contains_key(k) ==> table.indexes[c].entries[k] == canonical(
                    db.visible(t)[k][c as int],
                )
            &&& forall|d: u32|
                d != c ==> (#[trigger] table.indexes.contains_key(d) <==> was.indexes.contains_key(
                    d,
                ))
            &&& forall|d: u32|
                d != c && #[trigger] was.indexes.contains_key(d) ==> table.indexes[d]
                    == was.indexes[d]
            &&& table.schema.indexes == was.schema.indexes.push(
                (IndexSchemaModel {
                    index_id,
                    table_id: t,
                    col_id: c,
                    index_name: def.name,
                    is_unique: def.is_unique,
                }),
            )
            &&& table.schema.columns == was.schema.columns
            &&& table.schema.table_name == was.schema.table_name
            &&& table.schema.table_id == was.schema.table_id
            &&& table.row_type == was.row_type
            &&& table.rows == was.rows
        }),
{
    let t = def.table_id;
    let mid = db.with_insert_table(t);
    assert(mid.fresh(t) =~= db.fresh(t));
    assert(mid.visible(t) =~= db.visible(t));
    let table = db.create_index_internal(index_id, def).0.inserts(t);
    let c = def.col_id;
    assert forall|k: Key| #[trigger]
        table.indexes[c].entries.contains_key(k) <==> db.visible(t).contains_key(k) by {
        assert(mid.visible(t).contains_key(k) == db.visible(t).contains_key(k));
    }
}

/// `rows` are those of `a` in the order of their keys, and behind them those of `b`.
pub open spec fn in_two_orders(rows: Seq<Row>, a: Map<Key, Row>, b: Map<Key, Row>) -> bool {
    forall|i: int, j: int|
        #![trigger rows[i], rows[j]]
        0 <= i < j < rows.len() ==> {
            let p = row_key(rows[i]);
            let q = row_key(rows[j]);
            ||| a.contains_key(p) && a.contains_key(q) && RowId::before(p, q)
            ||| b.contains_key(p) && b.contains_key(q) && RowId::before(p, q)
            ||| a.contains_key(p) && b.contains_key(q)
        }
}

proof fn lemma_in_two_orders(a: Map<Key, Row>, b: Map<Key, Row>)
    requires
        a.dom().finite(),
        b.dom().finite(),
        forall|k: Key| #[trigger] a.contains_key(k) ==> row_key(a[k]) == k,
        forall|k: Key| #[trigger] b.contains_key(k) ==> row_key(b[k]) == k,
    ensures
        in_two_orders(in_key_order::<RowId, Row>(a) + in_key_order::<RowId, Row>(b), a, b),
{
    let s = ascending::<RowId>(a.dom());
    let t = ascending::<RowId>(b.dom());
    lemma_ascending_of_finite::<RowId>(a.dom());
    lemma_ascending_of_finite::<RowId>(b.dom());
    lemma_in_key_order::<RowId, Row>(s, a);
    lemma_in_key_order::<RowId, Row>(t, b);
    let rows = in_key_order::<RowId, Row>(a) + in_key_order::<RowId, Row>(b);
    let m = s.len() as int;
    assert forall|i: int| 0 <= i < m implies a.contains_key(#[trigger] s[i]) by {
        assert(s.to_set().contains(s[i]));
    }
    assert forall|i: int| 0 <= i < t.len() implies b.contains_key(#[trigger] t[i]) by {
        assert(t.to_set().contains(t[i]));
    }
    assert forall|i: int, j: int| #![trigger rows[i], rows[j]] 0 <= i < j < rows.len() implies {
        let p = row_key(rows[i]);
        let q = row_key(rows[j]);
        ||| a.contains_key(p) && a.contains_key(q) && RowId::before(p, q)
        ||| b.contains_key(p) && b.contains_key(q) && RowId::before(p, q)
        ||| a.contains_key(p) && b.contains_key(q)
    } by {
        if j < m {
            assert(rows[i] == a[s[i]] && rows[j] == a[s[j]]);
            assert(a.contains_key(s[i]) && a.contains_key(s[j]));
            assert(RowId::before(s[i], s[j]));
        } else if i >= m {
            assert(rows[i] == b[t[i - m]] && rows[j] == b[t[j - m]]);
            assert(b.contains_key(t[i - m]) && b.contains_key(t[j - m]));
            assert(RowId::before(t[i - m], t[j - m]));
        } else {
            assert(rows[i] == a[s[i]] && rows[j] == b[t[j - m]]);
            assert(a.contains_key(s[i]) && b.contains_key(t[j - m]));
        }
    }
}

/// The committed rows of table `t` that are seen and that the transaction did not insert.
pub open spec fn left_alone(db: DbModel, t: u32) -> Map<Key, Row> {
    db.visible(t).remove_keys(db.fresh(t).dom())
}

/// A scan yields the rows that the transaction left alone before those that it inserted, and either
/// in the order of their keys.
pub proof fn law_scan_is_in_order(db: DbModel, t: u32)
    requires
        db.inv(),
        db.tx is Some,
        db.table_exists(t),
    ensures
        in_two_orders(db.scan(t)->Ok_0, left_alone(db, t), db.fresh(t)),
{
    lemma_finite(db, t);
    lemma_parts_under_keys(db, t);
    assert(left_alone(db, t) =~= db.kept(t));
    lemma_in_two_orders(db.kept(t), db.fresh(t));
}

proof fn lemma_parts_under_keys(db: DbModel, t: u32)
    requires
        db.inv(),
        db.tx is Some,
    ensures
        forall|k: Key| #[trigger] db.kept(t).contains_key(k) ==> row_key(db.kept(t)[k]) == k,
        forall|k: Key| #[trigger] db.fresh(t).contains_key(k) ==> row_key(db.fresh(t)[k]) == k,
{
    lemma_finite(db, t);
    assert forall|k: Key| #[trigger] db.kept(t).contains_key(k) implies row_key(db.kept(t)[k])
        == k by {
        assert(db.kept(t).dom().contains(k) && !db.fresh(t).dom().contains(k));
        lemma_seen_under_key(db, t, k);
    }
    assert forall|k: Key| #[trigger] db.fresh(t).contains_key(k) implies row_key(db.fresh(t)[k])
        == k by {
        lemma_seen_under_key(db, t, k);
    }
}

/// A seek yields what it finds in the order of the keys as well: what the transaction inserted
/// comes first where it has an index of the column, and last where it has not.
pub proof fn law_seek_is_in_order(db: DbModel, t: u32, c: u32, v: Value)
    requires
        db.inv(),
        db.tx is Some,
        db.table_exists(t),
    ensures
        db.tx->0.inserts.contains_key(t) && db.tx->0.inserts[t].indexes.contains_key(c)
            ==> in_two_orders(db.seek(t, c, v)->Ok_0, db.fresh(t), left_alone(db, t)),
        !(db.tx->0.inserts.contains_key(t) && db.tx->0.inserts[t].indexes.contains_key(c))
            ==> in_two_orders(db.seek(t, c, v)->Ok_0, left_alone(db, t), db.fresh(t)),
{
    lemma_finite(db, t);
    lemma_parts_under_keys(db, t);
    assert(left_alone(db, t) =~= db.kept(t));
    let a = holding(db.kept(t), c, v);
    let b = holding(db.fresh(t), c, v);
    assert(a.dom().subset_of(db.kept(t).dom()));
    assert(b.dom().subset_of(db.fresh(t).dom()));
    vstd::set_lib::lemma_set_subset_finite(db.kept(t).dom(), a.dom());
    vstd::set_lib::lemma_set_subset_finite(db.fresh(t).dom(), b.dom());
    assert forall|k: Key| #[trigger] a.contains_key(k) implies row_key(a[k]) == k by {
        assert(db.kept(t).contains_key(k));
    }
    assert forall|k: Key| #[trigger] b.contains_key(k) implies row_key(b[k]) == k by {
        assert(db.fresh(t).contains_key(k));
    }
    lemma_in_two_orders(a, b);
    lemma_in_two_orders(b, a);
    assert(forall|k: Key| #[trigger] a.contains_key(k) ==> db.kept(t).contains_key(k));
    assert(forall|k: Key| #[trigger] b.contains_key(k) ==> db.fresh(t).contains_key(k));
}

/// `a` is reported before `b`: inserts before deletes, then by table, then by key.
pub open spec fn reported_before(a: WriteModel, b: WriteModel) -> bool {
    ||| a.operation == Operation::Insert && b.operation == Operation::Delete
    ||| a.operation == b.operation && a.set_id < b.set_id
    ||| a.operation == b.operation && a.set_id == b.set_id && RowId::before(a.data_key, b.data_key)
}

/// Each of `ws` is reported before those behind it.
pub open spec fn in_report_order(ws: Seq<WriteModel>) -> bool {
    forall|i: int, j: int|
        #![trigger ws[i], ws[j]]
        0 <= i < j < ws.len() ==> reported_before(ws[i], ws[j])
}

proof fn lemma_writes_of_in_order(operation: Operation, t: u32, keys: Set<Key>)
    requires
        keys.finite(),
    ensures
        in_report_order(writes_of(operation, t, keys)),
        forall|i: int|
            0 <= i < writes_of(operation, t, keys).len() ==> (#[trigger] writes_of(
                operation,
                t,
                keys,
            )[i]).operation == operation && writes_of(operation, t, keys)[i].set_id == t,
{
    lemma_ascending_of_finite::<RowId>(keys);
    let ks = ascending::<RowId>(keys);
    let ws = writes_of(operation, t, keys);
    assert forall|i: int, j: int| #![trigger ws[i], ws[j]] 0 <= i < j < ws.len() implies
        reported_before(ws[i], ws[j]) by {
        assert(RowId::before(ks[i], ks[j]));
    }
}

proof fn lemma_insert_writes_in_order(tx: TxModel, ts: Seq<u32>)
    requires
        tx.inv(),
        forall|i: int| 0 <= i < ts.len() ==> tx.inserts.contains_key(#[trigger] ts[i]),
        forall|i: int, j: int| #![trigger ts[i], ts[j]] 0 <= i < j < ts.len() ==> ts[i] < ts[j],
    ensures
        ({
            let ws = insert_writes(tx.inserts, ts);
            &&& in_report_order(ws)
            &&& forall|i: int|
                0 <= i < ws.len() ==> (#[trigger] ws[i]).operation == Operation::Insert
                    && ts.contains(ws[i].set_id)
        }),
    decreases ts.len(),
{
    if ts.len() > 0 {
        let front = ts.drop_last();
        let t = ts.last();
        assert(tx.inserts.contains_key(ts[ts.len() - 1]));
        assert forall|i: int| 0 <= i < front.len() implies tx.inserts.contains_key(
            #[trigger] front[i],
        ) by {
            assert(tx.inserts.contains_key(ts[i]));
        }
        lemma_insert_writes_in_order(tx, front);
        assert(tx.inserts[t].inv());
        let more = writes_of(Operation::Insert, t, tx.inserts[t].rows.dom());
        lemma_writes_of_in_order(Operation::Insert, t, tx.inserts[t].rows.dom());
        lemma_writes_behind(insert_writes(tx.inserts, front), more, front, ts, t);
    }
}

proof fn lemma_delete_writes_in_order(tx: TxModel, tables: Set<u32>, ts: Seq<u32>)
    requires
        tx.inv(),
        forall|i: int| 0 <= i < ts.len() ==> tx.deletes.contains_key(#[trigger] ts[i]),
        forall|i: int, j: int| #![trigger ts[i], ts[j]] 0 <= i < j < ts.len() ==> ts[i] < ts[j],
    ensures
        ({
            let ws = delete_writes(tables, tx.deletes, ts);
            &&& in_report_order(ws)
            &&& forall|i: int|
                0 <= i < ws.len() ==> (#[trigger] ws[i]).operation == Operation::Delete
                    && ts.contains(ws[i].set_id)
        }),
    decreases ts.len(),
{
    if ts.len() > 0 {
        let front = ts.drop_last();
        let t = ts.last();
        assert(tx.deletes.contains_key(ts[ts.len() - 1]));
        assert forall|i: int| 0 <= i < front.len() implies tx.deletes.contains_key(
            #[trigger] front[i],
        ) by {
            assert(tx.deletes.contains_key(ts[i]));
        }
        lemma_delete_writes_in_order(tx, tables, front);
        let more = if tables.contains(t) {
            writes_of(Operation::Delete, t, tx.deletes[t])
        } else {
            Seq::empty()
        };
        lemma_writes_of_in_order(Operation::Delete, t, tx.deletes[t]);
        lemma_writes_behind(delete_writes(tables, tx.deletes, front), more, front, ts, t);
    }
}

/// What is written to a table behind the others stays in order behind what is written to those.
proof fn lemma_writes_behind(
    ws: Seq<WriteModel>,
    more: Seq<WriteModel>,
    front: Seq<u32>,
    ts: Seq<u32>,
    t: u32,
)
    requires
        ts.len() > 0,
        front == ts.drop_last(),
        t == ts.last(),
        forall|i: int, j: int| #![trigger ts[i], ts[j]] 0 <= i < j < ts.len() ==> ts[i] < ts[j],
        in_report_order(ws),
        in_report_order(more),
        forall|i: int| 0 <= i < ws.len() ==> front.contains((#[trigger] ws[i]).set_id),
        forall|i: int| 0 <= i < more.len() ==> (#[trigger] more[i]).set_id == t,
        forall|i: int, j: int|
            #![trigger ws[i], more[j]]
            0 <= i < ws.len() && 0 <= j < more.len() ==> ws[i].operation == more[j].operation,
    ensures
        in_report_order(ws + more),
        forall|i: int|
            0 <= i < (ws + more).len() ==> ts.contains((#[trigger] (ws + more)[i]).set_id),
{
    let all = ws + more;
    assert(ts[ts.len() - 1] == t);
    assert forall|i: int| 0 <= i < ws.len() implies (#[trigger] ws[i]).set_id < t && ts.contains(
        ws[i].set_id,
    ) by {
        let j = choose|j: int| 0 <= j < front.len() && front[j] == ws[i].set_id;
        assert(ts[j] == front[j] && ts[j] < ts[ts.len() - 1]);
    }
    assert forall|i: int, j: int| #![trigger all[i], all[j]] 0 <= i < j < all.len() implies
        reported_before(all[i], all[j]) by {
        let m = ws.len() as int;
        if j < m {
            assert(all[i] == ws[i] && all[j] == ws[j]);
        } else if i >= m {
            assert(all[i] == more[i - m] && all[j] == more[j - m]);
        } else {
            assert(all[i] == ws[i] && all[j] == more[j - m]);
            assert(ws[i].operation == more[j - m].operation);
        }
    }
    assert forall|i: int| 0 <= i < all.len() implies ts.contains((#[trigger] all[i]).set_id) by {
        if i < ws.len() {
            assert(all[i] == ws[i]);
        } else {
            assert(all[i] == more[i - ws.len()]);
        }
    }
}

/// A transaction is reported in order: what it inserted before what it deleted, either table by
/// table, and within a table by key. So nothing is reported twice.
pub proof fn law_report_is_in_order(db: DbModel)
    requires
        db.inv(),
        db.tx is Some,
    ensures
        in_report_order(merge_writes(db.committed, db.tx->0)),
{
    let tx = db.tx->0;
    let tables = tx.left_of(db.committed).dom();
    let is = ascending::<u32>(tx.inserts.dom());
    let ds = ascending::<u32>(tx.deletes.dom());
    lemma_ascending_of_finite::<u32>(tx.inserts.dom());
    lemma_ascending_of_finite::<u32>(tx.deletes.dom());
    assert forall|i: int| 0 <= i < is.len() implies tx.inserts.contains_key(#[trigger] is[i]) by {
        assert(is.to_set().contains(is[i]));
    }
    assert forall|i: int| 0 <= i < ds.len() implies tx.deletes.contains_key(#[trigger] ds[i]) by {
        assert(ds.to_set().contains(ds[i]));
    }
    assert forall|i: int, j: int| #![trigger is[i], is[j]] 0 <= i < j < is.len() implies is[i]
        < is[j] by {
        assert(<u32 as OrderedKey>::before(is[i], is[j]));
    }
    assert forall|i: int, j: int| #![trigger ds[i], ds[j]] 0 <= i < j < ds.len() implies ds[i]
        < ds[j] by {
        assert(<u32 as OrderedKey>::before(ds[i], ds[j]));
    }
    lemma_insert_writes_in_order(tx, is);
    lemma_delete_writes_in_order(tx, tables, ds);
    let a = insert_writes(tx.inserts, is);
    let b = delete_writes(tables, tx.deletes, ds);
    let ws = merge_writes(db.committed, tx);
    assert forall|i: int, j: int| #![trigger ws[i], ws[j]] 0 <= i < j < ws.len() implies
        reported_before(ws[i], ws[j]) by {
        let m = a.len() as int;
        if j < m {
            assert(ws[i] == a[i] && ws[j] == a[j]);
        } else if i >= m {
            assert(ws[i] == b[i - m] && ws[j] == b[j - m]);
        } else {
            assert(ws[i] == a[i] && ws[j] == b[j - m]);
        }
    }
}

proof fn lemma_columns_of_rows(rows: Seq<Row>)
    ensures
        columns_of_rows(rows) matches Ok(cols) ==> cols.len() == rows.len() && forall|i: int|
            0 <= i < rows.len() ==> ColumnModel::of_row(rows[i]) == Ok::<ColumnModel, Fault>(
                #[trigger] cols[i],
            ),
        columns_of_rows(rows) matches Err(f) ==> exists|i: int|
            0 <= i < rows.len() && ColumnModel::of_row(#[trigger] rows[i]) == Err::<
                ColumnModel,
                Fault,
            >(f),
    decreases rows.len(),
{
    if rows.len() > 0 {
        let front = rows.drop_last();
        lemma_columns_of_rows(front);
        match columns_of_rows(front) {
            Ok(cols) => {
                if ColumnModel::of_row(rows.last()) is Err {
                    assert(ColumnModel::of_row(rows[rows.len() - 1]) is Err);
                }
                assert forall|i: int| 0 <= i < front.len() implies ColumnModel::of_row(rows[i])
                    == Ok::<ColumnModel, Fault>(#[trigger] cols[i]) by {
                    assert(front[i] == rows[i]);
                }
            },
            Err(f) => {
                let i = choose|i: int|
                    0 <= i < front.len() && ColumnModel::of_row(#[trigger] front[i]) == Err::<
                        ColumnModel,
                        Fault,
                    >(f);
                assert(rows[i] == front[i]);
            },
        }
    }
}

proof fn lemma_indexes_of_rows(rows: Seq<Row>)
    ensures
        indexes_of_rows(rows) matches Ok(all) ==> all.len() == rows.len() && forall|i: int|
            0 <= i < rows.len() ==> IndexSchemaModel::of_row(rows[i]) == Ok::<
                IndexSchemaModel,
                Fault,
            >(#[trigger] all[i]),
        indexes_of_rows(rows) matches Err(f) ==> exists|i: int|
            0 <= i < rows.len() && IndexSchemaModel::of_row(#[trigger] rows[i]) == Err::<
                IndexSchemaModel,
                Fault,
            >(f),
    decreases rows.len(),
{
    if rows.len() > 0 {
        let front = rows.drop_last();
        lemma_indexes_of_rows(front);
        match indexes_of_rows(front) {
            Ok(all) => {
                if IndexSchemaModel::of_row(rows.last()) is Err {
                    assert(IndexSchemaModel::of_row(rows[rows.len() - 1]) is Err);
                }
                assert forall|i: int| 0 <= i < front.len() implies IndexSchemaModel::of_row(rows[i])
                    == Ok::<IndexSchemaModel, Fault>(#[trigger] all[i]) by {
                    assert(front[i] == rows[i]);
                }
            },
            Err(f) => {
                let i = choose|i: int|
                    0 <= i < front.len() && IndexSchemaModel::of_row(#[trigger] front[i])
                        == Err::<IndexSchemaModel, Fault>(f);
                assert(rows[i] == front[i]);
            },
        }
    }
}

/// `row` is visible in table `t`.
pub open spec fn is_visible(db: DbModel, t: u32, row: Row) -> bool {
    exists|k: Key| #[trigger] db.visible(t).contains_key(k) && db.visible(t)[k] == row
}

/// The schema of a table that is not in memory is what the catalogue lists for it: its name in the
/// table of tables, its columns in that of columns, in the order of their ids, and its indexes in
/// that of indexes. The rows of the table of tables have ids of their own.
pub proof fn law_listed_schema_is_read(db: DbModel, t: u32, k: Key, name: Seq<char>)
    requires
        db.inv(),
        db.tx is Some,
        db.schema(t) is None,
        db.visible(0).contains_key(k),
        db.visible(0)[k].len() > 1,
        db.visible(0)[k][0] == Value::U32(t),
        db.visible(0)[k][1] == Value::String(name),
        distinct_values(db.visible(0), 0),
    ensures
        db.schema_for_table(t) matches Ok(schema) ==> {
            &&& schema.table_id == t
            &&& schema.table_name == name
            &&& forall|col: ColumnModel| #[trigger]
                schema.columns.contains(col) <==> exists|row: Row|
                    #![trigger is_visible(db, 1, row)]
                    {
                        &&& is_visible(db, 1, row)
                        &&& row.len() > 0 && row[0] == Value::U32(t)
                        &&& ColumnModel::of_row(row) == Ok::<ColumnModel, Fault>(col)
                    }
            &&& forall|i: int, j: int|
                #![trigger schema.columns[i], schema.columns[j]]
                0 <= i < j < schema.columns.len() ==> schema.columns[i].col_id
                    <= schema.columns[j].col_id
            &&& forall|index: IndexSchemaModel| #[trigger]
                schema.indexes.contains(index) <==> exists|row: Row|
                    #![trigger is_visible(db, 3, row)]
                    {
                        &&& is_visible(db, 3, row)
                        &&& row.len() > 1 && row[1] == Value::U32(t)
                        &&& IndexSchemaModel::of_row(row) == Ok::<IndexSchemaModel, Fault>(index)
                    }
        },
{
    let v = Value::U32(t);
    assert(holds(db.visible(0)[k], 0, v));
    lemma_seek_finds_the_one(db, 0, 0, v, k);
    if db.schema_for_table(t) is Ok {
        let schema = db.schema_for_table(t)->Ok_0;
        let crows = db.seek(1, 0, v)->Ok_0;
        let irows = db.seek(3, 1, v)->Ok_0;
        assert(db.table_exists(1) && db.table_exists(3));
        let cols = columns_of_rows(crows)->Ok_0;
        let indexes = indexes_of_rows(irows)->Ok_0;
        lemma_columns_of_rows(crows);
        lemma_indexes_of_rows(irows);
        law_columns_are_in_order(cols);
        assert(schema.columns == by_col_id(cols));
        assert(schema.indexes == indexes);
        assert forall|col: ColumnModel| #[trigger] schema.columns.contains(col) <==> exists|
            row: Row,
        |
            #![trigger is_visible(db, 1, row)]
            {
                &&& is_visible(db, 1, row)
                &&& row.len() > 0 && row[0] == v
                &&& ColumnModel::of_row(row) == Ok::<ColumnModel, Fault>(col)
            } by {
            broadcast use vstd::seq_lib::group_to_multiset_ensures;

            assert(schema.columns.contains(col) <==> schema.columns.to_multiset().count(col) > 0);
            assert(cols.contains(col) <==> cols.to_multiset().count(col) > 0);
            if cols.contains(col) {
                let i = choose|i: int| 0 <= i < cols.len() && cols[i] == col;
                assert(crows.contains(crows[i]));
                law_seek_yields_rows_with_the_value(db, 1, 0, v, crows[i]);
                assert(is_visible(db, 1, crows[i]));
            }
            if exists|row: Row|
                #![trigger is_visible(db, 1, row)]
                {
                    &&& is_visible(db, 1, row)
                    &&& row.len() > 0 && row[0] == v
                    &&& ColumnModel::of_row(row) == Ok::<ColumnModel, Fault>(col)
                } {
                let row = choose|row: Row|
                    #![trigger is_visible(db, 1, row)]
                    {
                        &&& is_visible(db, 1, row)
                        &&& row.len() > 0 && row[0] == v
                        &&& ColumnModel::of_row(row) == Ok::<ColumnModel, Fault>(col)
                    };
                law_seek_yields_rows_with_the_value(db, 1, 0, v, row);
                let i = choose|i: int| 0 <= i < crows.len() && crows[i] == row;
                assert(cols[i] == col);
            }
        }
        assert forall|index: IndexSchemaModel| #[trigger]
            schema.indexes.contains(index) <==> exists|row: Row|
                #![trigger is_visible(db, 3, row)]
                {
                    &&& is_visible(db, 3, row)
                    &&& row.len() > 1 && row[1] == v
                    &&& IndexSchemaModel::of_row(row) == Ok::<IndexSchemaModel, Fault>(index)
                } by {
            if indexes.contains(index) {
                let i = choose|i: int| 0 <= i < indexes.len() && indexes[i] == index;
                assert(irows.contains(irows[i]));
                law_seek_yields_rows_with_the_value(db, 3, 1, v, irows[i]);
                assert(is_visible(db, 3, irows[i]));
            }
            if exists|row: Row|
                #![trigger is_visible(db, 3, row)]
                {
                    &&& is_visible(db, 3, row)
                    &&& row.len() > 1 && row[1] == v
                    &&& IndexSchemaModel::of_row(row) == Ok::<IndexSchemaModel, Fault>(index)
                } {
                let row = choose|row: Row|
                    #![trigger is_visible(db, 3, row)]
                    {
                        &&& is_visible(db, 3, row)
                        &&& row.len() > 1 && row[1] == v
                        &&& IndexSchemaModel::of_row(row) == Ok::<IndexSchemaModel, Fault>(index)
                    };
                law_seek_yields_rows_with_the_value(db, 3, 1, v, row);
                let i = choose|i: int| 0 <= i < irows.len() && irows[i] == row;
                assert(indexes[i] == index);
            }
        }
    }
}

/// A schema that is in memory is the one that is given: that of the transaction's own part of the
/// table, where it has one, and else that of the committed table without the indexes that were
/// dropped. So is the row type.
pub proof fn law_schema_in_memory_is_given(db: DbModel, t: u32)
    requires
        db.table_exists(t),
    ensures
        ({
            let own = db.tx->0.inserts[t];
            let committed = db.committed[t];
            if db.tx->0.inserts.contains_key(t) {
                &&& db.schema_for_table(t) == Ok::<SchemaModel, Fault>(own.schema)
                &&& db.row_type_for_table(t) == Ok::<RowType, Fault>(own.row_type)
            } else {
                &&& db.schema_for_table(t) matches Ok(schema) && {
                    &&& schema.table_id == committed.schema.table_id
                    &&& schema.table_name == committed.schema.table_name
                    &&& schema.columns == committed.schema.columns
                }
                &&& db.row_type_for_table(t) == Ok::<RowType, Fault>(committed.row_type)
            }
        }),
{
}

/// A sequence in use that has nothing left gives out nothing, and that nothing could be allocated
/// to it is said. Where more would have to be allocated and the catalogue does not list the
/// sequence, it counts as one that is not there.
pub proof fn law_sequence_without_numbers_is_named(db: DbModel, s: u32)
    requires
        db.inv(),
        db.tx is Some,
        db.in_use(s),
        db.sequences[s].value == db.sequences[s].allocated,
    ensures
        db.take_number(s) == (db, Err::<i128, Fault>(Fault::UnableToAllocate(s))),
        db.table_exists(2) && (forall|k: Key| #[trigger]
            db.visible(2).contains_key(k) && db.visible(2)[k].len() > 0 ==> db.visible(2)[k][0]
                != Value::U32(s)) ==> db.get_next_sequence_value(s) == (
            db,
            Err::<i128, Fault>(Fault::SequenceNotFound(s)),
        ),
{
    if db.table_exists(2) && (forall|k: Key| #[trigger]
        db.visible(2).contains_key(k) && db.visible(2)[k].len() > 0 ==> db.visible(2)[k][0]
            != Value::U32(s)) {
        lemma_no_row_has_id(db, 2, s);
    }
}

proof fn lemma_no_row_has_id(db: DbModel, t: u32, id: u32)
    requires
        db.inv(),
        db.tx is Some,
        db.table_exists(t),
        forall|k: Key| #[trigger]
            db.visible(t).contains_key(k) && db.visible(t)[k].len() > 0 ==> db.visible(t)[k][0]
                != Value::U32(id),
    ensures
        db.seek(t, 0, Value::U32(id)) is Ok,
        db.seek(t, 0, Value::U32(id))->Ok_0.len() == 0,
{
    let v = Value::U32(id);
    assert forall|k: Key| #[trigger] db.visible(t).contains_key(k) implies !holds(
        db.visible(t)[k],
        0,
        v,
    ) by {
        if holds(db.visible(t)[k], 0, v) {
            law_plain_values_equal_only_themselves(v, db.visible(t)[k][0]);
        }
    }
    lemma_seek_finds_none(db, t, 0, v);
}

/// A table that is neither in memory nor listed has no schema and no row type, and that its id
/// leads to nothing is said.
pub proof fn law_unlisted_table_has_no_schema(db: DbModel, t: u32)
    requires
        db.inv(),
        db.tx is Some,
        db.table_exists(0),
        !db.table_exists(t),
        forall|k: Key| #[trigger]
            db.visible(0).contains_key(k) && db.visible(0)[k].len() > 0 ==> db.visible(0)[k][0]
                != Value::U32(t),
    ensures
        db.schema_for_table(t) == Err::<SchemaModel, Fault>(Fault::TableIdNotFound(t)),
        db.row_type_for_table(t) == Err::<RowType, Fault>(Fault::TableIdNotFound(t)),
{
    lemma_no_row_has_id(db, 0, t);
}

/// An index of a table that is not there is not made. Where it could be listed, that the id of the
/// table leads to nothing is said.
pub proof fn law_index_needs_its_table(db: DbModel, def: IndexDefModel, row: Row)
    requires
        db.tx is Some,
        !db.table_exists(def.table_id),
        db.seek(3, 3, Value::String(def.name)) matches Ok(rows) && rows.len() == 0,
        db.insert_row(
            3,
            seq![
                Value::U32(0),
                Value::U32(def.table_id),
                Value::U32(def.col_id),
                Value::String(def.name),
                Value::Bool(def.is_unique),
            ],
        ).1 == Ok::<Row, Fault>(row),
        IndexSchemaModel::of_row(row) is Ok,
    ensures
        db.create_index(def).1 == Err::<u32, Fault>(Fault::TableIdNotFound(def.table_id)),
{
    let listed = new_index(0, def).row();
    assert(listed =~= seq![
        Value::U32(0),
        Value::U32(def.table_id),
        Value::U32(def.col_id),
        Value::String(def.name),
        Value::Bool(def.is_unique),
    ]);
    law_insert_keeps_tables(db, 3, listed);
    let mid = db.insert_row(3, listed).0;
    assert(mid.table_exists(def.table_id) == db.table_exists(def.table_id));
}

/// A table whose id a table in memory has is not made, and that the id is taken is said, once its
/// columns could be listed.
pub proof fn law_taken_id_is_named(db: DbModel, def: TableDefModel, t: u32, name: Seq<char>)
    requires
        db.tx is Some,
        db.table_exists(t),
        ({
            let (mid, r) = db.insert_row(0, seq![Value::U32(0), Value::String(def.table_name)]);
            &&& r is Ok
            &&& r->Ok_0.len() == 2
            &&& r->Ok_0[0] == Value::U32(t)
            &&& r->Ok_0[1] == Value::String(name)
            &&& mid.create_columns(t, def, def.columns.len()).1 is Ok
        }),
    ensures
        db.create_table(def).1 == Err::<u32, Fault>(Fault::TableIdTaken(t)),
{
    let listed = TableRowModel { table_id: 0, table_name: def.table_name }.row();
    assert(listed =~= seq![Value::U32(0), Value::String(def.table_name)]);
    law_insert_keeps_tables(db, 0, listed);
    let mid = db.insert_row(0, listed).0;
    assert(mid.table_exists(t) == db.table_exists(t));
    lemma_columns_keep(mid, t, def, def.columns.len());
    let after = mid.create_columns(t, def, def.columns.len()).0;
    assert(after.table_exists(t) == mid.table_exists(t));
}

/// The schema that a table in memory has when a transaction is committed it has in the next: its
/// name, its columns and its indexes.
pub proof fn law_schema_stays_past_commit(db: DbModel, t: u32)
    requires
        db.tx is Some,
        db.table_exists(t),
    ensures
        db.commit().begin().schema(t) == db.schema(t),
{
    let next = db.commit().begin();
    assert(next.committed.contains_key(t));
    lemma_without_none(next.committed[t]);
    assert(next.base(t) == next.committed[t]);
}

/// A table without an index, or without some, has none on their columns in its schema, and keeps
/// the others, its columns, its name, its row type and its rows.
pub proof fn law_schema_without_indexes(
    table: TableModel,
    id: u32,
    ids: Set<u32>,
    x: IndexSchemaModel,
)
    ensures
        ({
            let c = x.col_id;
            let less = table.without_index(id);
            let few = table.without_indexes(ids);
            let taken = table.indexes.contains_key(c);
            &&& less.schema.indexes.contains(x) <==> table.schema.indexes.contains(x) && !(taken
                && table.indexes[c].index_id == id)
            &&& few.schema.indexes.contains(x) <==> table.schema.indexes.contains(x) && !(taken
                && ids.contains(table.indexes[c].index_id))
            &&& less.schema.columns == table.schema.columns
            &&& few.schema.columns == table.schema.columns
            &&& less.schema.table_name == table.schema.table_name
            &&& few.schema.table_name == table.schema.table_name
            &&& less.row_type == table.row_type
            &&& few.row_type == table.row_type
            &&& less.rows == table.rows
            &&& few.rows == table.rows
        }),
{
    let one = table.columns_of_index(id);
    let some = table.columns_of_indexes(ids);
    lemma_filter_contains(
        table.schema.indexes,
        |y: IndexSchemaModel| !one.contains(y.col_id),
        x,
    );
    lemma_filter_contains(
        table.schema.indexes,
        |y: IndexSchemaModel| !some.contains(y.col_id),
        x,
    );
}

/// The row that the sequence of a column is listed with: named after the table and the column, for
/// the column, counting up from one, one by one, with nothing allocated.
pub open spec fn sequence_row(
    t: u32,
    table_name: Seq<char>,
    col_id: u32,
    col_name: Seq<char>,
) -> Row {
    seq![
        Value::U32(0),
        Value::String(table_name + "_"@ + col_name + "_seq"@),
        Value::U32(t),
        Value::U32(col_id),
        Value::I128(1),
        Value::I128(1),
        Value::I128(1),
        Value::I128(0x7fff_ffff_ffff_ffff_ffff_ffff_ffff_ffff),
        Value::I128(0),
    ]
}

/// Sequence `s` is in use, is for column `col_id` of table `t`, and is to give out one.
pub open spec fn fills_column(db: DbModel, s: u32, t: u32, col_id: u32) -> bool {
    &&& db.in_use(s)
    &&& db.sequences[s].table_id == t
    &&& db.sequences[s].col_id == col_id
    &&& db.sequences[s].increment == 1
    &&& db.sequences[s].value == 1
}

/// A column that fills itself gets a sequence when it is listed, which is listed and in use, is for
/// the column, and begins with one. The table of sequences is in form.
pub proof fn law_column_gets_its_sequence(
    db: DbModel,
    t: u32,
    table_name: Seq<char>,
    col_id: u32,
    col: ColumnDefModel,
)
    requires
        db.inv(),
        db.tx is Some,
        catalogue_in_form(db, 2, 9, 1),
        col.is_autoinc,
        db.create_column(t, table_name, col_id, col).1 is Ok,
    ensures
        ({
            let after = db.create_column(t, table_name, col_id, col).0;
            exists|s: u32| #[trigger] fills_column(after, s, t, col_id) && listed(after, 2, s)
        }),
{
    reveal(DbModel::create_column);
    let listing = listed_column(t, col_id, col).row();
    let mid = db.insert_row(1, listing).0;
    law_insert_keeps_tables(db, 1, listing);
    assert(catalogue_in_form(mid, 2, 9, 1));
    let def = column_sequence(t, table_name, col_id, col);
    law_created_sequence_is_listed(mid, def);
    let row = new_sequence(def).row();
    let given = sequence_row(t, table_name, col_id, col.col_name);
    reveal_strlit("_");
    assert("_"@ =~= seq!['_']);
    assert(row =~= given);
    let schema = mid.schema_for_table(2)->Ok_0;
    assert forall|c: int| 1 <= c < 9 implies !(#[trigger] fills_itself(
        schema,
        schema.columns.len(),
        c,
    )) by {}
    law_insert_keeps_given_values(mid, 2, row, 2);
    law_insert_keeps_given_values(mid, 2, row, 3);
    law_insert_keeps_given_values(mid, 2, row, 4);
    law_insert_keeps_given_values(mid, 2, row, 5);
    let after = db.create_column(t, table_name, col_id, col).0;
    let s = mid.create_sequence(def).1->Ok_0;
    assert(fills_column(after, s, t, col_id));
}

} // verus!
