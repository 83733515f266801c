//! What holds of the bytes that keys stand for.

use vstd::prelude::*;

use crate::data_key::{key_of, row_key, Key};
use crate::ids::{ST_COLUMNS_ID, ST_INDEXES_ID, ST_SEQUENCES_ID, ST_TABLES_ID};
use crate::model::{
    column_sequence, listed_column, new_index, new_sequence, new_table, sequence_for, DbModel,
    SEQUENCE_ALLOCATION,
};
use crate::schema::{
    ColumnModel, IndexDefModel, SchemaModel, SequenceDefModel, TableDefModel,
};
use crate::sequence::SequenceModel;
use crate::system_tables::TableRowModel;
use crate::value::{encoded_all, is_zero, Row, Value};

verus! {

/// `blobs` with the bytes of `row`, where its key is a hash.
pub open spec fn with_bytes(blobs: Map<Key, Seq<u8>>, row: Row) -> Map<Key, Seq<u8>> {
    if row_key(row) is Hash {
        blobs.insert(row_key(row), encoded_all(row))
    } else {
        blobs
    }
}

/// `blobs` with the bytes of each of `rows`, one after the other.
pub open spec fn with_all_bytes(blobs: Map<Key, Seq<u8>>, rows: Seq<Row>) -> Map<Key, Seq<u8>>
    decreases rows.len(),
{
    if rows.len() == 0 {
        blobs
    } else {
        with_bytes(with_all_bytes(blobs, rows.drop_last()), rows.last())
    }
}

/// What the keys stand for in `b` is what they stood for in `a`, with the bytes of `rows`.
pub open spec fn learns(a: DbModel, b: DbModel, rows: Seq<Row>) -> bool {
    b.blobs == with_all_bytes(a.blobs, rows)
}

proof fn lemma_one_after_another(blobs: Map<Key, Seq<u8>>, a: Seq<Row>, b: Seq<Row>)
    ensures
        with_all_bytes(blobs, a + b) == with_all_bytes(with_all_bytes(blobs, a), b),
    decreases b.len(),
{
    if b.len() == 0 {
        assert(a + b =~= a);
    } else {
        assert((a + b).drop_last() =~= a + b.drop_last());
        lemma_one_after_another(blobs, a, b.drop_last());
    }
}

proof fn lemma_learns_through(a: DbModel, b: DbModel, c: DbModel, rows: Seq<Row>, more: Seq<Row>)
    requires
        learns(a, b, rows),
        learns(b, c, more),
    ensures
        learns(a, c, rows + more),
{
    lemma_one_after_another(a.blobs, rows, more);
}

/// The rows that the next number of sequence `s` makes the datastore insert: none, or the row of
/// the sequence with what is allocated.
pub open spec fn rows_of_next(db: DbModel, s: u32) -> Seq<Row> {
    if !db.in_use(s) || !db.sequences[s].exhausted() {
        Seq::empty()
    } else {
        match db.seek(ST_SEQUENCES_ID, 0, Value::U32(s)) {
            Err(_) => Seq::empty(),
            Ok(rows) => if rows.len() == 0 {
                Seq::empty()
            } else {
                match SequenceModel::of_row(rows.last()) {
                    Err(_) => Seq::empty(),
                    Ok(listed) => {
                        let to = db.sequences[s].nth(SEQUENCE_ALLOCATION as nat);
                        let row = listed.allocated_to(to).row();
                        rows_of_plain_insert(
                            db.refill(s, to).delete_row(ST_SEQUENCES_ID, row_key(rows.last())).0,
                            ST_SEQUENCES_ID,
                            row,
                        )
                    },
                }
            },
        }
    }
}

/// The row, where it is taken as it is.
pub open spec fn rows_of_plain_insert(db: DbModel, t: u32, row: Row) -> Seq<Row> {
    if db.insert_row_internal(t, row).1 is Ok {
        seq![row]
    } else {
        Seq::empty()
    }
}

/// The rows that are inserted to fill a column of `row`.
pub open spec fn rows_of_column(db: DbModel, t: u32, col: ColumnModel, row: Row) -> Seq<Row> {
    if !col.is_autoinc || col.col_id >= row.len() || !is_zero(row[col.col_id as int]) {
        Seq::empty()
    } else {
        match db.seek(ST_SEQUENCES_ID, 2, Value::U32(t)) {
            Err(_) => Seq::empty(),
            Ok(rows) => match sequence_for(rows, col.col_id) {
                Ok(Some(s)) => rows_of_next(db, s),
                _ => Seq::empty(),
            },
        }
    }
}

/// The rows that are inserted to fill the first `n` columns of `row`.
pub open spec fn rows_of_filling(
    db: DbModel,
    t: u32,
    schema: SchemaModel,
    n: nat,
    row: Row,
) -> Seq<Row>
    decreases n,
{
    if n == 0 {
        Seq::empty()
    } else {
        let before = rows_of_filling(db, t, schema, (n - 1) as nat, row);
        let (mid, r) = db.fill_columns(t, schema, (n - 1) as nat, row);
        match r {
            Err(_) => before,
            Ok(filled) => before + rows_of_column(mid, t, schema.columns[n - 1], filled),
        }
    }
}

/// The rows that an insert of `row` inserts: those of the sequences that it fills the row from, and
/// then the row that it returns.
pub open spec fn rows_of_insert(db: DbModel, t: u32, row: Row) -> Seq<Row> {
    match db.schema_for_table(t) {
        Err(_) => Seq::empty(),
        Ok(schema) => {
            let n = schema.columns.len();
            let before = rows_of_filling(db, t, schema, n, row);
            let (mid, r) = db.fill_columns(t, schema, n, row);
            match r {
                Err(_) => before,
                Ok(filled) => before + rows_of_plain_insert(mid, t, filled),
            }
        },
    }
}

/// The rows that are inserted to make a sequence.
pub open spec fn rows_of_sequence(db: DbModel, def: SequenceDefModel) -> Seq<Row> {
    match db.seek(ST_SEQUENCES_ID, 1, Value::String(def.sequence_name)) {
        Ok(rows) if rows.len() == 0 => rows_of_insert(
            db,
            ST_SEQUENCES_ID,
            new_sequence(def).row(),
        ),
        _ => Seq::empty(),
    }
}

/// The rows that are inserted to make an index.
pub open spec fn rows_of_index(db: DbModel, def: IndexDefModel) -> Seq<Row> {
    match db.seek(ST_INDEXES_ID, 3, Value::String(def.name)) {
        Ok(rows) if rows.len() == 0 => rows_of_insert(db, ST_INDEXES_ID, new_index(0, def).row()),
        _ => Seq::empty(),
    }
}

/// The rows that are inserted to list the first `n` columns of a table.
pub open spec fn rows_of_columns(db: DbModel, t: u32, def: TableDefModel, n: nat) -> Seq<Row>
    decreases n,
{
    if n == 0 {
        Seq::empty()
    } else {
        let before = rows_of_columns(db, t, def, (n - 1) as nat);
        let (mid, r) = db.create_columns(t, def, (n - 1) as nat);
        match r {
            Err(_) => before,
            Ok(_) => {
                let col = def.columns[n - 1];
                let row = listed_column(t, (n - 1) as u32, col).row();
                let (after, r) = mid.insert_row(ST_COLUMNS_ID, row);
                before + rows_of_insert(mid, ST_COLUMNS_ID, row) + if r is Ok && col.is_autoinc {
                    rows_of_sequence(
                        after,
                        column_sequence(t, def.table_name, (n - 1) as u32, col),
                    )
                } else {
                    Seq::empty()
                }
            },
        }
    }
}

/// The rows that are inserted to make the first `n` indexes of a table.
pub open spec fn rows_of_indexes(db: DbModel, t: u32, def: TableDefModel, n: nat) -> Seq<Row>
    decreases n,
{
    if n == 0 {
        Seq::empty()
    } else {
        let before = rows_of_indexes(db, t, def, (n - 1) as nat);
        let (mid, r) = db.create_indexes(t, def, (n - 1) as nat);
        match r {
            Err(_) => before,
            Ok(_) => before + rows_of_index(
                mid,
                IndexDefModel { table_id: t, ..def.indexes[n - 1] },
            ),
        }
    }
}

/// The rows that are inserted to make a table.
pub open spec fn rows_of_table(db: DbModel, def: TableDefModel) -> Seq<Row> {
    let row = TableRowModel { table_id: 0, table_name: def.table_name }.row();
    let first = rows_of_insert(db, ST_TABLES_ID, row);
    let (a, r) = db.insert_row(ST_TABLES_ID, row);
    match r {
        Err(_) => first,
        Ok(row) => match TableRowModel::of_row(row) {
            Err(_) => first,
            Ok(el) => {
                let t = el.table_id;
                let n = def.columns.len();
                let second = first + rows_of_columns(a, t, def, n);
                let (b, r) = a.create_columns(t, def, n);
                if r is Err || b.table_exists(t) {
                    second
                } else {
                    match b.schema_for_table(t) {
                        Err(_) => second,
                        Ok(schema) => second + rows_of_indexes(
                            b.with_inserts(t, new_table(def.row_type(), schema)),
                            t,
                            def,
                            def.indexes.len(),
                        ),
                    }
                }
            },
        },
    }
}

proof fn lemma_plain_insert_learns(db: DbModel, t: u32, row: Row)
    ensures
        learns(db, db.insert_row_internal(t, row).0, rows_of_plain_insert(db, t, row)),
{
    let rows = rows_of_plain_insert(db, t, row);
    if rows.len() > 0 {
        assert(rows.drop_last() =~= Seq::empty());
        assert(with_all_bytes(db.blobs, rows.drop_last()) == db.blobs);
    }
}

proof fn lemma_next_learns(db: DbModel, s: u32)
    ensures
        learns(db, db.get_next_sequence_value(s).0, rows_of_next(db, s)),
{
    if db.in_use(s) && db.sequences[s].exhausted() {
        match db.seek(ST_SEQUENCES_ID, 0, Value::U32(s)) {
            Ok(rows) => {
                if rows.len() > 0 {
                    match SequenceModel::of_row(rows.last()) {
                        Ok(listed) => {
                            let to = db.sequences[s].nth(SEQUENCE_ALLOCATION as nat);
                            let mid = db.refill(s, to).delete_row(
                                ST_SEQUENCES_ID,
                                row_key(rows.last()),
                            ).0;
                            assert(mid.blobs == db.blobs);
                            lemma_plain_insert_learns(
                                mid,
                                ST_SEQUENCES_ID,
                                listed.allocated_to(to).row(),
                            );
                        },
                        Err(_) => {},
                    }
                }
            },
            Err(_) => {},
        }
    }
}

proof fn lemma_filling_learns(db: DbModel, t: u32, schema: SchemaModel, n: nat, row: Row)
    ensures
        learns(
            db,
            db.fill_columns(t, schema, n, row).0,
            rows_of_filling(db, t, schema, n, row),
        ),
    decreases n,
{
    if n > 0 {
        lemma_filling_learns(db, t, schema, (n - 1) as nat, row);
        let before = rows_of_filling(db, t, schema, (n - 1) as nat, row);
        let (mid, r) = db.fill_columns(t, schema, (n - 1) as nat, row);
        if r is Ok {
            let col = schema.columns[n - 1];
            let filled = r->Ok_0;
            let more = rows_of_column(mid, t, col, filled);
            let after = mid.fill_column(t, schema.table_name, col, filled).0;
            assert(learns(mid, after, more)) by {
                match mid.seek(ST_SEQUENCES_ID, 2, Value::U32(t)) {
                    Ok(rows) => match sequence_for(rows, col.col_id) {
                        Ok(Some(s)) => lemma_next_learns(mid, s),
                        _ => {},
                    },
                    Err(_) => {},
                }
            }
            lemma_learns_through(db, mid, after, before, more);
        }
    }
}

/// What keys stand for after an insert is what they stood for, with the rows that it inserted,
/// whether or not it is refused.
pub proof fn law_insert_learns_its_rows(db: DbModel, t: u32, row: Row)
    ensures
        learns(db, db.insert_row(t, row).0, rows_of_insert(db, t, row)),
{
    match db.schema_for_table(t) {
        Ok(schema) => {
            let n = schema.columns.len();
            lemma_filling_learns(db, t, schema, n, row);
            let (mid, r) = db.fill_columns(t, schema, n, row);
            if r is Ok {
                lemma_plain_insert_learns(mid, t, r->Ok_0);
                lemma_learns_through(
                    db,
                    mid,
                    mid.insert_row_internal(t, r->Ok_0).0,
                    rows_of_filling(db, t, schema, n, row),
                    rows_of_plain_insert(mid, t, r->Ok_0),
                );
            }
        },
        Err(_) => {},
    }
}

/// What keys stand for after a number was given out is what they stood for, with the row of the
/// sequence where more was allocated to it.
pub proof fn law_next_number_learns_its_rows(db: DbModel, s: u32)
    ensures
        learns(db, db.get_next_sequence_value(s).0, rows_of_next(db, s)),
{
    lemma_next_learns(db, s);
}

/// What keys stand for once a sequence or an index was made is what they stood for, with the rows
/// that were inserted, whether or not it could be made.
pub proof fn law_catalogue_learns_its_rows(
    db: DbModel,
    sequence: SequenceDefModel,
    index: IndexDefModel,
)
    ensures
        learns(db, db.create_sequence(sequence).0, rows_of_sequence(db, sequence)),
        learns(db, db.create_index(index).0, rows_of_index(db, index)),
{
    law_insert_learns_its_rows(db, ST_SEQUENCES_ID, new_sequence(sequence).row());
    law_insert_learns_its_rows(db, ST_INDEXES_ID, new_index(0, index).row());
}

proof fn lemma_columns_learn(db: DbModel, t: u32, def: TableDefModel, n: nat)
    ensures
        learns(db, db.create_columns(t, def, n).0, rows_of_columns(db, t, def, n)),
    decreases n,
{
    if n > 0 {
        lemma_columns_learn(db, t, def, (n - 1) as nat);
        let before = rows_of_columns(db, t, def, (n - 1) as nat);
        let (mid, r) = db.create_columns(t, def, (n - 1) as nat);
        if r is Ok {
            reveal(DbModel::create_column);
            let col = def.columns[n - 1];
            let row = listed_column(t, (n - 1) as u32, col).row();
            let (a, r) = mid.insert_row(ST_COLUMNS_ID, row);
            law_insert_learns_its_rows(mid, ST_COLUMNS_ID, row);
            let own = rows_of_insert(mid, ST_COLUMNS_ID, row);
            lemma_learns_through(db, mid, a, before, own);
            if r is Ok && col.is_autoinc {
                let seq = column_sequence(t, def.table_name, (n - 1) as u32, col);
                law_insert_learns_its_rows(a, ST_SEQUENCES_ID, new_sequence(seq).row());
                lemma_learns_through(
                    db,
                    a,
                    a.create_sequence(seq).0,
                    before + own,
                    rows_of_sequence(a, seq),
                );
            } else {
                assert(before + own + Seq::<Row>::empty() =~= before + own);
            }
        }
    }
}

proof fn lemma_indexes_learn(db: DbModel, t: u32, def: TableDefModel, n: nat)
    ensures
        learns(db, db.create_indexes(t, def, n).0, rows_of_indexes(db, t, def, n)),
    decreases n,
{
    if n > 0 {
        lemma_indexes_learn(db, t, def, (n - 1) as nat);
        let (mid, r) = db.create_indexes(t, def, (n - 1) as nat);
        if r is Ok {
            let index = IndexDefModel { table_id: t, ..def.indexes[n - 1] };
            law_insert_learns_its_rows(mid, ST_INDEXES_ID, new_index(0, index).row());
            lemma_learns_through(
                db,
                mid,
                mid.create_index(index).0,
                rows_of_indexes(db, t, def, (n - 1) as nat),
                rows_of_index(mid, index),
            );
        }
    }
}

/// What keys stand for once a table was made is what they stood for, with the rows that were
/// inserted, whether or not it could be made.
pub proof fn law_created_table_learns_its_rows(db: DbModel, def: TableDefModel)
    ensures
        learns(db, db.create_table(def).0, rows_of_table(db, def)),
{
    let row = TableRowModel { table_id: 0, table_name: def.table_name }.row();
    let first = rows_of_insert(db, ST_TABLES_ID, row);
    let (a, r) = db.insert_row(ST_TABLES_ID, row);
    law_insert_learns_its_rows(db, ST_TABLES_ID, row);
    if r is Ok {
        match TableRowModel::of_row(r->Ok_0) {
            Ok(el) => {
                let t = el.table_id;
                let n = def.columns.len();
                lemma_columns_learn(a, t, def, n);
                let (b, r) = a.create_columns(t, def, n);
                let second = first + rows_of_columns(a, t, def, n);
                lemma_learns_through(db, a, b, first, rows_of_columns(a, t, def, n));
                if r is Ok && !b.table_exists(t) {
                    match b.schema_for_table(t) {
                        Ok(schema) => {
                            let c = b.with_inserts(t, new_table(def.row_type(), schema));
                            let m = def.indexes.len();
                            lemma_indexes_learn(c, t, def, m);
                            lemma_learns_through(
                                db,
                                c,
                                c.create_indexes(t, def, m).0,
                                second,
                                rows_of_indexes(c, t, def, m),
                            );
                        },
                        Err(_) => {},
                    }
                }
            },
            Err(_) => {},
        }
    }
}

/// What a key stands for it stands for once more rows are there, as long as none of them has the
/// key with other bytes.
pub proof fn law_known_bytes_stay(
    a: DbModel,
    b: DbModel,
    rows: Seq<Row>,
    key: Key,
    bytes: Seq<u8>,
)
    requires
        learns(a, b, rows),
        a.resolve_data_key(key) == Some(bytes),
        forall|i: int|
            0 <= i < rows.len() && row_key(#[trigger] rows[i]) == key ==> encoded_all(rows[i])
                == bytes,
    ensures
        b.resolve_data_key(key) == Some(bytes),
{
    if key is Hash {
        lemma_known_bytes(a.blobs, rows, key, bytes);
    }
}

proof fn lemma_known_bytes(blobs: Map<Key, Seq<u8>>, rows: Seq<Row>, key: Key, bytes: Seq<u8>)
    requires
        blobs.contains_key(key),
        blobs[key] == bytes,
        forall|i: int|
            0 <= i < rows.len() && row_key(#[trigger] rows[i]) == key ==> encoded_all(rows[i])
                == bytes,
    ensures
        with_all_bytes(blobs, rows).contains_key(key),
        with_all_bytes(blobs, rows)[key] == bytes,
    decreases rows.len(),
{
    if rows.len() > 0 {
        let front = rows.drop_last();
        assert forall|i: int|
            0 <= i < front.len() && row_key(#[trigger] front[i]) == key implies encoded_all(
            front[i],
        ) == bytes by {
            assert(front[i] == rows[i]);
        }
        lemma_known_bytes(blobs, front, key, bytes);
        assert(rows.last() == rows[rows.len() - 1]);
    }
}

/// A hash that stood for nothing stands for nothing once more rows are there, unless it is the key
/// of one of them.
pub proof fn law_unknown_hash_stays_unknown(a: DbModel, b: DbModel, rows: Seq<Row>, key: Key)
    requires
        learns(a, b, rows),
        a.resolve_data_key(key) is None,
        forall|i: int| 0 <= i < rows.len() ==> row_key(#[trigger] rows[i]) != key,
    ensures
        b.resolve_data_key(key) is None,
{
    lemma_unknown_hash(a.blobs, rows, key);
}

proof fn lemma_unknown_hash(blobs: Map<Key, Seq<u8>>, rows: Seq<Row>, key: Key)
    requires
        !blobs.contains_key(key),
        forall|i: int| 0 <= i < rows.len() ==> row_key(#[trigger] rows[i]) != key,
    ensures
        !with_all_bytes(blobs, rows).contains_key(key),
    decreases rows.len(),
{
    if rows.len() > 0 {
        let front = rows.drop_last();
        assert forall|i: int| 0 <= i < front.len() implies row_key(#[trigger] front[i])
            != key by {
            assert(front[i] == rows[i]);
        }
        lemma_unknown_hash(blobs, front, key);
        assert(rows.last() == rows[rows.len() - 1]);
    }
}

/// What the bytes of a row that was inserted are known by stays known through a later insert, and
/// through the next number of a sequence, as long as no row that is inserted then has the key with
/// other bytes.
pub proof fn law_inserted_bytes_stay(
    db: DbModel,
    next: DbModel,
    t: u32,
    row: Row,
    u: u32,
    more: Row,
    s: u32,
)
    requires
        db.insert_row(t, row).1 is Ok,
        next.blobs == db.insert_row(t, row).0.blobs,
        ({
            let inserted = db.insert_row(t, row).1->Ok_0;
            &&& forall|i: int|
                #![trigger rows_of_insert(next, u, more)[i]]
                0 <= i < rows_of_insert(next, u, more).len() && row_key(
                    rows_of_insert(next, u, more)[i],
                ) == row_key(inserted) ==> encoded_all(rows_of_insert(next, u, more)[i])
                    == encoded_all(inserted)
            &&& forall|i: int|
                #![trigger rows_of_next(next, s)[i]]
                0 <= i < rows_of_next(next, s).len() && row_key(rows_of_next(next, s)[i])
                    == row_key(inserted) ==> encoded_all(rows_of_next(next, s)[i]) == encoded_all(
                    inserted,
                )
        }),
    ensures
        ({
            let inserted = db.insert_row(t, row).1->Ok_0;
            let key = row_key(inserted);
            let bytes = Some(encoded_all(inserted));
            &&& next.insert_row(u, more).0.resolve_data_key(key) == bytes
            &&& next.get_next_sequence_value(s).0.resolve_data_key(key) == bytes
        }),
{
    let inserted = db.insert_row(t, row).1->Ok_0;
    let key = row_key(inserted);
    let bytes = encoded_all(inserted);
    law_returned_bytes_resolve(db, t, row);
    assert(next.resolve_data_key(key) == Some(bytes));
    law_insert_learns_its_rows(next, u, more);
    law_known_bytes_stay(
        next,
        next.insert_row(u, more).0,
        rows_of_insert(next, u, more),
        key,
        bytes,
    );
    law_next_number_learns_its_rows(next, s);
    law_known_bytes_stay(
        next,
        next.get_next_sequence_value(s).0,
        rows_of_next(next, s),
        key,
        bytes,
    );
}

/// To drop or to rename something leaves known what was known: a drop changes nothing, and a name
/// at most adds the row that has it.
pub proof fn law_bytes_stay_through_drops(db: DbModel, t: u32, id: u32, name: Seq<char>)
    requires
        db.tx is Some,
    ensures
        db.drop_index(id).0.blobs == db.blobs,
        db.drop_sequence(id).0.blobs == db.blobs,
        db.rename_table(t, name).0.blobs == db.blobs || exists|el: TableRowModel|
            db.rename_table(t, name).0.blobs == with_bytes(
                db.blobs,
                #[trigger] (TableRowModel { table_name: name, ..el }).row(),
            ),
{
    match db.seek(ST_TABLES_ID, 0, Value::U32(t)) {
        Ok(rows) => {
            if rows.len() > 0 {
                match TableRowModel::of_row(rows[0]) {
                    Ok(el) => {
                        let row = (TableRowModel { table_name: name, ..el }).row();
                        let mid = db.delete_row(ST_TABLES_ID, row_key(rows[0])).0;
                        assert(mid.blobs == db.blobs);
                        if mid.insert_row_internal(ST_TABLES_ID, row).1 is Ok {
                            assert(db.rename_table(t, name).0.blobs == with_bytes(db.blobs, row));
                        }
                    },
                    Err(_) => {},
                }
            }
        },
        Err(_) => {},
    }
}

/// A key that is a hash stands for nothing, where no bytes are kept for it. Bytes that are kept
/// have their key.
pub proof fn law_kept_bytes_have_their_key(db: DbModel, key: Key)
    requires
        db.inv(),
    ensures
        key is Hash ==> (db.resolve_data_key(key) is Some <==> db.blobs.contains_key(key)),
        key is Hash && db.resolve_data_key(key) is Some ==> key_of(db.resolve_data_key(key)->0)
            == key,
{
}

/// To insert a row makes known what the row's key stands for, and nothing else: every other key
/// stands for what it stood for, or for nothing.
pub proof fn law_other_bytes_stay(db: DbModel, t: u32, row: Row, key: Key)
    requires
        key != row_key(row),
    ensures
        db.insert_row_internal(t, row).0.resolve_data_key(key) == db.resolve_data_key(key),
{
}

/// The bytes of a row that was inserted are known by its key.
pub proof fn law_inserted_bytes_resolve(db: DbModel, t: u32, row: Row)
    requires
        db.insert_row_internal(t, row).1 is Ok,
    ensures
        db.insert_row_internal(t, row).0.resolve_data_key(row_key(row)) == Some(encoded_all(row)),
{
}

/// The bytes of a row as it came back from its insert are known by its key.
pub proof fn law_returned_bytes_resolve(db: DbModel, t: u32, row: Row)
    requires
        db.insert_row(t, row).1 is Ok,
    ensures
        ({
            let (after, r) = db.insert_row(t, row);
            after.resolve_data_key(row_key(r->Ok_0)) == Some(encoded_all(r->Ok_0))
        }),
{
    let schema = db.schema_for_table(t)->Ok_0;
    let (mid, filled) = db.fill_columns(
        t,
        schema,
        schema.columns.len(),
        row,
    );
    law_inserted_bytes_resolve(mid, t, filled->Ok_0);
}

/// What a key stands for is still known when the row is deleted, and after the transaction,
/// committed or rolled back.
pub proof fn law_resolved_bytes_stay(db: DbModel, t: u32, k: Key, key: Key)
    ensures
        db.delete_row(t, k).0.resolve_data_key(key) == db.resolve_data_key(key),
        db.commit().resolve_data_key(key) == db.resolve_data_key(key),
        db.rollback().resolve_data_key(key) == db.resolve_data_key(key),
        db.begin().resolve_data_key(key) == db.resolve_data_key(key),
{
}

/// A key that holds its data itself stands for it, whether or not a row has it.
pub proof fn law_short_data_resolves(db: DbModel, data: Seq<u8>)
    ensures
        db.resolve_data_key(Key::Data(data)) == Some(data),
{
}

} // verus!
