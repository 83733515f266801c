//! What holds of rows: which are told apart, which are found, and what fills their columns.

use vstd::prelude::*;

use crate::data_key::{key_of, keccak256_digest, row_key, DataKey, Key, RowId};
use crate::error::Fault;
use crate::ids::ST_SEQUENCES_ID;
use crate::laws::{
    law_insert_changes_one_table, law_insert_keeps_tables, law_inserted_row_is_visible,
    law_range_scan_yields_rows_in_range, law_scan_yields_visible_rows,
    law_seek_yields_matching_rows, lemma_each_once_contains, lemma_insert_internal_keeps_tables,
    lemma_nothing_to_fill,
};
use crate::model::{holding, number_value, sequence_for, DbModel};
use crate::order_laws::law_ends_of_a_range;
use crate::parse_laws::{bounds_of, held};
use crate::range::{BoundModel, RangeModel};
use crate::schema::{ColumnModel, SchemaModel};
use crate::sequence::SequenceModel;
use crate::types::Type;
use crate::value::{canonical, encoded_all, is_zero, Row, Value};
use crate::value_laws::{
    alike, fits, law_bytes_tell_rows_apart, law_plain_values_equal_only_themselves,
};

verus! {

/// Data of at most thirty-two bytes is its own key, and the key of longer data is its hash.
pub proof fn law_key_holds_short_data(data: Seq<u8>, id: RowId, b: Vec<u8>)
    ensures
        data.len() <= 32 ==> key_of(data) == Key::Data(data),
        data.len() > 32 ==> key_of(data) == Key::Hash(keccak256_digest(data)),
        (DataKey::Data(b))@ == Key::Data(b@),
        (DataKey::Hash(b))@ == Key::Hash(b@),
        id@ == id.0@,
{
}

/// Two different rows of one row type have different keys, where the bytes of one of them are at
/// most thirty-two.
pub proof fn law_different_rows_have_different_keys(a: Row, b: Row)
    requires
        alike(Value::Product(a), Value::Product(b)),
        fits(Value::Product(a)),
        fits(Value::Product(b)),
        encoded_all(a).len() <= 32 || encoded_all(b).len() <= 32,
        a != b,
    ensures
        row_key(a) != row_key(b),
{
    if encoded_all(a) == encoded_all(b) {
        law_bytes_tell_rows_apart(a, b);
    }
}

/// `row` is among the rows that a scan of table `t` yields, among those that a seek for any of its
/// own values yields, and is got by its key.
pub open spec fn is_found(db: DbModel, t: u32, row: Row) -> bool {
    &&& db.scan(t) is Ok
    &&& db.scan(t)->Ok_0.contains(row)
    &&& forall|c: u32|
        c < row.len() ==> (#[trigger] db.seek(t, c, row[c as int])) is Ok && db.seek(
            t,
            c,
            row[c as int],
        )->Ok_0.contains(row)
    &&& db.get_row(t, row_key(row)) == Ok::<Option<Row>, Fault>(Some(row))
}

proof fn lemma_visible_is_found(db: DbModel, t: u32, row: Row)
    requires
        db.inv(),
        db.tx is Some,
        db.table_exists(t),
        db.visible(t).contains_key(row_key(row)),
        db.visible(t)[row_key(row)] == row,
    ensures
        is_found(db, t, row),
{
    let m = db.visible(t);
    law_scan_yields_visible_rows(db, t);
    lemma_each_once_contains(db.scan(t)->Ok_0, m, row);
    assert forall|c: u32| c < row.len() implies (#[trigger] db.seek(t, c, row[c as int])) is Ok
        && db.seek(t, c, row[c as int])->Ok_0.contains(row) by {
        let v = row[c as int];
        law_seek_yields_matching_rows(db, t, c, v);
        let h = holding(m, c, v);
        assert(h.contains_key(row_key(row)) && h[row_key(row)] == row);
        lemma_each_once_contains(db.seek(t, c, v)->Ok_0, h, row);
    }
}

/// A row that is taken is found, and so is every other row that was visible, where one of the two
/// is short, as long as they differ.
pub proof fn law_insert_leaves_other_rows(db: DbModel, t: u32, a: Row, b: Row)
    requires
        db.inv(),
        db.tx is Some,
        db.visible(t).contains_key(row_key(a)),
        db.visible(t)[row_key(a)] == a,
        db.insert_row_internal(t, b).1 is Ok,
        alike(Value::Product(a), Value::Product(b)),
        fits(Value::Product(a)),
        fits(Value::Product(b)),
        encoded_all(a).len() <= 32 || encoded_all(b).len() <= 32,
    ensures
        is_found(db.insert_row_internal(t, b).0, t, a),
        is_found(db.insert_row_internal(t, b).0, t, b),
{
    let after = db.insert_row_internal(t, b).0;
    law_inserted_row_is_visible(db, t, b);
    lemma_insert_internal_keeps_tables(db, t, b);
    assert(after.table_exists(t) == db.table_exists(t));
    if a != b {
        law_different_rows_have_different_keys(a, b);
    }
    lemma_visible_is_found(after, t, a);
    lemma_visible_is_found(after, t, b);
}

/// The row that an insert returns is found, and so is every other row that was visible, where one
/// of the two is short, as long as they differ. The table is not that of sequences.
pub proof fn law_filled_insert_leaves_other_rows(db: DbModel, t: u32, a: Row, row: Row)
    requires
        db.inv(),
        db.tx is Some,
        t != ST_SEQUENCES_ID,
        db.visible(t).contains_key(row_key(a)),
        db.visible(t)[row_key(a)] == a,
        db.insert_row(t, row).1 is Ok,
        ({
            let b = db.insert_row(t, row).1->Ok_0;
            &&& alike(Value::Product(a), Value::Product(b))
            &&& fits(Value::Product(a))
            &&& fits(Value::Product(b))
            &&& encoded_all(a).len() <= 32 || encoded_all(b).len() <= 32
        }),
    ensures
        is_found(db.insert_row(t, row).0, t, a),
        is_found(db.insert_row(t, row).0, t, db.insert_row(t, row).1->Ok_0),
{
    let after = db.insert_row(t, row).0;
    let b = db.insert_row(t, row).1->Ok_0;
    law_insert_changes_one_table(db, t, row);
    law_insert_keeps_tables(db, t, row);
    assert(db.table_exists(t));
    assert(after.table_exists(t) == db.table_exists(t));
    if a != b {
        law_different_rows_have_different_keys(a, b);
    }
    lemma_visible_is_found(after, t, a);
    lemma_visible_is_found(after, t, b);
}

/// A seek yields a row just where the row is visible and has, in the column, a value that equals
/// the one looked for. Where that is a flag, a number that is no float, a text or bytes, the row
/// has that very value.
pub proof fn law_seek_yields_rows_with_the_value(db: DbModel, t: u32, c: u32, v: Value, row: Row)
    requires
        db.inv(),
        db.tx is Some,
        db.table_exists(t),
    ensures
        db.seek(t, c, v) is Ok,
        db.seek(t, c, v)->Ok_0.contains(row) <==> {
            &&& exists|k: Key| #[trigger] db.visible(t).contains_key(k) && db.visible(t)[k] == row
            &&& c < row.len()
            &&& canonical(row[c as int]) == canonical(v)
        },
        !(v is Sum || v is Product || v is F32 || v is F64 || v is Array || v is Mapping) ==> (
        db.seek(t, c, v)->Ok_0.contains(row) <==> {
            &&& exists|k: Key| #[trigger] db.visible(t).contains_key(k) && db.visible(t)[k] == row
            &&& c < row.len()
            &&& row[c as int] == v
        }),
{
    law_seek_yields_matching_rows(db, t, c, v);
    let m = db.visible(t);
    let h = holding(m, c, v);
    let rows = db.seek(t, c, v)->Ok_0;
    lemma_each_once_contains(rows, h, row);
    if exists|k: Key| #[trigger] h.contains_key(k) && h[k] == row {
        let k = choose|k: Key| #[trigger] h.contains_key(k) && h[k] == row;
        assert(m.contains_key(k) && m[k] == row);
    }
    if (exists|k: Key| #[trigger] m.contains_key(k) && m[k] == row) && c < row.len() && canonical(
        row[c as int],
    ) == canonical(v) {
        let k = choose|k: Key| #[trigger] m.contains_key(k) && m[k] == row;
        assert(h.contains_key(k) && h[k] == row);
    }
    if !(v is Sum || v is Product || v is F32 || v is F64 || v is Array || v is Mapping) {
        if c < row.len() && canonical(row[c as int]) == canonical(v) {
            law_plain_values_equal_only_themselves(v, row[c as int]);
        }
    }
}

/// A range scan that begins with a number yields, of the visible rows with a number of that type in
/// the column, just those whose number is not less, and one that ends with a number just those
/// whose number is not greater.
pub proof fn law_range_scan_goes_by_number(
    db: DbModel,
    t: u32,
    c: u32,
    ty: Type,
    e: Value,
    row: Row,
    k: Key,
)
    requires
        db.inv(),
        db.tx is Some,
        db.table_exists(t),
        db.visible(t).contains_key(k),
        db.visible(t)[k] == row,
        c < row.len(),
        held(ty, e) is Some,
        held(ty, row[c as int]) is Some,
    ensures
        ({
            let x = held(ty, e)->Some_0;
            let y = held(ty, row[c as int])->Some_0;
            let open = BoundModel::Unbounded;
            let from = RangeModel { start: BoundModel::Included(e), end: open };
            let past = RangeModel { start: BoundModel::Excluded(e), end: open };
            let to = RangeModel { start: open, end: BoundModel::Included(e) };
            let short = RangeModel { start: open, end: BoundModel::Excluded(e) };
            &&& db.range_scan(t, c, from)->Ok_0.contains(row) <==> x <= y
            &&& db.range_scan(t, c, past)->Ok_0.contains(row) <==> x < y
            &&& db.range_scan(t, c, to)->Ok_0.contains(row) <==> y <= x
            &&& db.range_scan(t, c, short)->Ok_0.contains(row) <==> y < x
        }),
{
    let open = BoundModel::Unbounded;
    law_ends_of_a_range(e, row[c as int]);
    let from = RangeModel { start: BoundModel::Included(e), end: open };
    let past = RangeModel { start: BoundModel::Excluded(e), end: open };
    let to = RangeModel { start: open, end: BoundModel::Included(e) };
    let short = RangeModel { start: open, end: BoundModel::Excluded(e) };
    law_range_scan_yields_rows_in_range(db, t, c, from, row);
    law_range_scan_yields_rows_in_range(db, t, c, past, row);
    law_range_scan_yields_rows_in_range(db, t, c, to, row);
    law_range_scan_yields_rows_in_range(db, t, c, short, row);
}

/// A number as a value of a type of integers is a value of that type. Where the type has the
/// number, it is the number. For a type of others there is none.
pub proof fn law_number_becomes_itself(ty: Type, n: i128)
    ensures
        number_value(ty, n) is Some <==> bounds_of(ty) is Some,
        bounds_of(ty) is Some ==> held(ty, number_value(ty, n)->Some_0) is Some,
        bounds_of(ty) is Some && bounds_of(ty)->Some_0.0 <= n <= bounds_of(ty)->Some_0.1 ==> held(
            ty,
            number_value(ty, n)->Some_0,
        ) == Some(n as int),
{
}

/// A number that a type of integers has not is cut to the width of the type: numbers that are as
/// far apart as the type has numbers become one value.
pub proof fn law_number_is_cut(ty: Type, m: i128, n: i128)
    requires
        match ty {
            Type::I8 => m == n + 0x100,
            Type::U8 => m == n + 0x100,
            Type::I16 => m == n + 0x1_0000,
            Type::U16 => m == n + 0x1_0000,
            Type::I32 => m == n + 0x1_0000_0000,
            Type::U32 => m == n + 0x1_0000_0000,
            Type::I64 => m == n + 0x1_0000_0000_0000_0000,
            Type::U64 => m == n + 0x1_0000_0000_0000_0000,
            _ => false,
        },
    ensures
        number_value(ty, m) == number_value(ty, n),
{
    match ty {
        Type::I8 => {
            assert(m as i8 == n as i8) by (bit_vector)
                requires
                    m == n + 0x100,
            ;
        },
        Type::U8 => {
            assert(m as u8 == n as u8) by (bit_vector)
                requires
                    m == n + 0x100,
            ;
        },
        Type::I16 => {
            assert(m as i16 == n as i16) by (bit_vector)
                requires
                    m == n + 0x1_0000,
            ;
        },
        Type::U16 => {
            assert(m as u16 == n as u16) by (bit_vector)
                requires
                    m == n + 0x1_0000,
            ;
        },
        Type::I32 => {
            assert(m as i32 == n as i32) by (bit_vector)
                requires
                    m == n + 0x1_0000_0000,
            ;
        },
        Type::U32 => {
            assert(m as u32 == n as u32) by (bit_vector)
                requires
                    m == n + 0x1_0000_0000,
            ;
        },
        Type::I64 => {
            assert(m as i64 == n as i64) by (bit_vector)
                requires
                    m == n + 0x1_0000_0000_0000_0000,
            ;
        },
        Type::U64 => {
            assert(m as u64 == n as u64) by (bit_vector)
                requires
                    m == n + 0x1_0000_0000_0000_0000,
            ;
        },
        _ => {},
    }
}

/// A negative number as one of the widest type without a sign is as far from the end of its range
/// as it is from zero.
pub proof fn law_negative_number_is_cut(n: i128)
    requires
        n < 0,
    ensures
        number_value(Type::U128, n) matches Some(Value::U128(x)) && x
            == 0x1_0000_0000_0000_0000_0000_0000_0000_0000 + n,
{
    let x = n as u128;
    assert(x == 0xffff_ffff_ffff_ffff_ffff_ffff_ffff_ffff + n + 1) by (bit_vector)
        requires
            n < 0,
            x == n as u128,
    ;
}

/// The sequence for a column is the first that is listed for it: where the first `i` rows are those
/// of sequences for other columns, it is that of the next, where that is for the column. Where that
/// cannot be read, this is the fault, and where there is no next, there is none.
pub proof fn law_first_sequence_is_found(rows: Seq<Row>, c: u32, i: int)
    requires
        0 <= i <= rows.len(),
        forall|j: int|
            0 <= j < i ==> (SequenceModel::of_row(#[trigger] rows[j]) matches Ok(q) && q.col_id
                != c),
    ensures
        i == rows.len() ==> sequence_for(rows, c) == Ok::<Option<u32>, Fault>(None),
        i < rows.len() ==> match SequenceModel::of_row(rows[i]) {
            Ok(q) => q.col_id == c ==> sequence_for(rows, c) == Ok::<Option<u32>, Fault>(
                Some(q.sequence_id),
            ),
            Err(f) => sequence_for(rows, c) == Err::<Option<u32>, Fault>(f),
        },
{
    lemma_sequence_for_rest(rows, c, i);
    if i < rows.len() {
        assert(rows.skip(i)[0] == rows[i]);
    }
}

proof fn lemma_sequence_for_rest(rows: Seq<Row>, c: u32, i: int)
    requires
        0 <= i <= rows.len(),
        forall|j: int|
            0 <= j < i ==> (SequenceModel::of_row(#[trigger] rows[j]) matches Ok(q) && q.col_id
                != c),
    ensures
        sequence_for(rows, c) == sequence_for(rows.skip(i), c),
    decreases i,
{
    if i == 0 {
        assert(rows.skip(0) =~= rows);
    } else {
        lemma_sequence_for_rest(rows, c, i - 1);
        let rest = rows.skip(i - 1);
        assert(rest[0] == rows[i - 1]);
        assert(rest.skip(1) =~= rows.skip(i));
        assert(SequenceModel::of_row(rows[i - 1]) is Ok);
    }
}

/// A column that fills itself, and that holds zero, is filled with the next number of the sequence
/// that is listed for it: the value of the column's type that is the number, where the type has it.
/// Nothing else in the row changes. A column whose type is not one of integers is refused.
pub proof fn law_column_is_filled_with_the_next_number(
    db: DbModel,
    t: u32,
    table_name: Seq<char>,
    col: ColumnModel,
    row: Row,
    s: u32,
)
    requires
        col.is_autoinc,
        col.col_id < row.len(),
        is_zero(row[col.col_id as int]),
        db.seek(ST_SEQUENCES_ID, 2, Value::U32(t)) is Ok,
        sequence_for(db.seek(ST_SEQUENCES_ID, 2, Value::U32(t))->Ok_0, col.col_id) == Ok::<
            Option<u32>,
            Fault,
        >(Some(s)),
    ensures
        ({
            let c = col.col_id as int;
            let (after, r) = db.fill_column(t, table_name, col, row);
            let (next, number) = db.get_next_sequence_value(s);
            &&& after == next
            &&& number matches Err(f) ==> r == Err::<Row, Fault>(f)
            &&& number matches Ok(n) ==> match bounds_of(col.col_type) {
                Some((lo, hi)) => {
                    &&& r is Ok
                    &&& r->Ok_0.len() == row.len()
                    &&& forall|j: int| 0 <= j < row.len() && j != c ==> #[trigger] r->Ok_0[j]
                        == row[j]
                    &&& held(col.col_type, r->Ok_0[c]) is Some
                    &&& lo <= n <= hi ==> held(col.col_type, r->Ok_0[c]) == Some(n as int)
                },
                None => r == Err::<Row, Fault>(
                    Fault::NotInteger {
                        col: table_name + seq!['.'] + col.col_name,
                        found: col.col_type,
                    },
                ),
            }
        }),
{
    match db.get_next_sequence_value(s).1 {
        Ok(n) => law_number_becomes_itself(col.col_type, n),
        Err(_) => {},
    }
}

/// A column is left as it is where it does not fill itself, where the row has it not, where it does
/// not hold zero, and where no sequence is listed for it.
pub proof fn law_column_is_left(
    db: DbModel,
    t: u32,
    table_name: Seq<char>,
    col: ColumnModel,
    row: Row,
)
    requires
        ({
            ||| !col.is_autoinc
            ||| col.col_id >= row.len()
            ||| !is_zero(row[col.col_id as int])
            ||| db.seek(ST_SEQUENCES_ID, 2, Value::U32(t)) matches Ok(rows) && sequence_for(
                rows,
                col.col_id,
            ) == Ok::<Option<u32>, Fault>(None)
        }),
    ensures
        db.fill_column(t, table_name, col, row) == (db, Ok::<Row, Fault>(row)),
{
}

proof fn lemma_filled_so_far(
    db: DbModel,
    t: u32,
    schema: SchemaModel,
    i: nat,
    n: nat,
    row: Row,
)
    requires
        i <= n,
        db.fill_columns(t, schema, n, row).1 is Ok,
    ensures
        db.fill_columns(t, schema, i, row).1 is Ok,
    decreases n,
{
    if i < n {
        lemma_filled_so_far(db, t, schema, i, (n - 1) as nat, row);
    }
}

proof fn lemma_fill_leaves(
    db: DbModel,
    t: u32,
    schema: SchemaModel,
    i: nat,
    n: nat,
    row: Row,
    c: int,
)
    requires
        i <= n,
        db.fill_columns(t, schema, n, row).1 is Ok,
        0 <= c < row.len(),
        forall|j: int| i <= j < n ==> (#[trigger] schema.columns[j]).col_id != c,
    ensures
        db.fill_columns(t, schema, i, row).1->Ok_0.len() == row.len(),
        db.fill_columns(t, schema, n, row).1->Ok_0.len() == row.len(),
        db.fill_columns(t, schema, n, row).1->Ok_0[c] == db.fill_columns(
            t,
            schema,
            i,
            row,
        ).1->Ok_0[c],
    decreases n,
{
    if i < n {
        lemma_fill_leaves(db, t, schema, i, (n - 1) as nat, row, c);
        assert(schema.columns[n - 1].col_id != c);
    } else {
        lemma_fill_keeps_length(db, t, schema, n, row);
    }
}

proof fn lemma_fill_keeps_length(db: DbModel, t: u32, schema: SchemaModel, n: nat, row: Row)
    requires
        db.fill_columns(t, schema, n, row).1 is Ok,
    ensures
        db.fill_columns(t, schema, n, row).1->Ok_0.len() == row.len(),
    decreases n,
{
    if n > 0 {
        lemma_fill_keeps_length(db, t, schema, (n - 1) as nat, row);
    }
}

/// What an insert puts in a column that fills itself, where the row has zero in it and a sequence
/// is listed for it, is the next number of that sequence: the value of the column's type that is
/// the number, where the type has it. The number is the next once the columns before it are filled.
/// No other column of the schema has the id.
pub proof fn law_insert_fills_with_the_next_number(db: DbModel, t: u32, row: Row, i: nat, s: u32)
    requires
        db.schema_for_table(t) is Ok,
        db.insert_row(t, row).1 is Ok,
        ({
            let schema = db.schema_for_table(t)->Ok_0;
            let col = schema.columns[i as int];
            let mid = db.fill_columns(t, schema, i, row).0;
            let listed = mid.seek(ST_SEQUENCES_ID, 2, Value::U32(t));
            &&& i < schema.columns.len()
            &&& col.is_autoinc
            &&& col.col_id < row.len()
            &&& is_zero(row[col.col_id as int])
            &&& forall|j: int| 0 <= j < schema.columns.len() && j != i ==> (
            #[trigger] schema.columns[j]).col_id != col.col_id
            &&& listed is Ok
            &&& sequence_for(listed->Ok_0, col.col_id) == Ok::<Option<u32>, Fault>(Some(s))
        }),
    ensures
        ({
            let schema = db.schema_for_table(t)->Ok_0;
            let col = schema.columns[i as int];
            let mid = db.fill_columns(t, schema, i, row).0;
            let v = db.insert_row(t, row).1->Ok_0[col.col_id as int];
            let number = mid.get_next_sequence_value(s).1;
            &&& number is Ok
            &&& bounds_of(col.col_type) is Some
            &&& held(col.col_type, v) is Some
            &&& bounds_of(col.col_type)->Some_0.0 <= number->Ok_0 <= bounds_of(
                col.col_type,
            )->Some_0.1 ==> held(col.col_type, v) == Some(number->Ok_0 as int)
        }),
{
    let schema = db.schema_for_table(t)->Ok_0;
    let n = schema.columns.len();
    let col = schema.columns[i as int];
    let c = col.col_id as int;
    lemma_filled_so_far(db, t, schema, i, n, row);
    lemma_filled_so_far(db, t, schema, (i + 1) as nat, n, row);
    let (mid, r) = db.fill_columns(t, schema, i, row);
    let before = r->Ok_0;
    assert forall|j: int| 0 <= j < i implies (#[trigger] schema.columns[j]).col_id != c by {}
    lemma_fill_leaves(db, t, schema, 0, i, row, c);
    assert(db.fill_columns(t, schema, 0, row) == (db, Ok::<Row, Fault>(row)));
    assert(before[c] == row[c] && before.len() == row.len());
    assert(db.fill_columns(t, schema, (i + 1) as nat, row) == mid.fill_column(
        t,
        schema.table_name,
        col,
        before,
    ));
    law_column_is_filled_with_the_next_number(mid, t, schema.table_name, col, before, s);
    assert forall|j: int| i + 1 <= j < n implies (#[trigger] schema.columns[j]).col_id != c by {}
    lemma_fill_leaves(db, t, schema, (i + 1) as nat, n, row, c);
}

/// Where no column before it is to be filled, the number that a column is filled with is the one
/// that the datastore would give out next.
pub proof fn law_first_filled_column_gets_the_next_number(
    db: DbModel,
    t: u32,
    row: Row,
    i: nat,
    s: u32,
)
    requires
        db.schema_for_table(t) is Ok,
        db.insert_row(t, row).1 is Ok,
        ({
            let schema = db.schema_for_table(t)->Ok_0;
            let col = schema.columns[i as int];
            let listed = db.seek(ST_SEQUENCES_ID, 2, Value::U32(t));
            &&& i < schema.columns.len()
            &&& col.is_autoinc
            &&& col.col_id < row.len()
            &&& is_zero(row[col.col_id as int])
            &&& forall|j: int| 0 <= j < schema.columns.len() && j != i ==> (
            #[trigger] schema.columns[j]).col_id != col.col_id
            &&& forall|j: int|
                0 <= j < i && (#[trigger] schema.columns[j]).is_autoinc && schema.columns[j].col_id
                    < row.len() ==> !is_zero(row[schema.columns[j].col_id as int])
            &&& listed is Ok
            &&& sequence_for(listed->Ok_0, col.col_id) == Ok::<Option<u32>, Fault>(Some(s))
        }),
    ensures
        ({
            let col = db.schema_for_table(t)->Ok_0.columns[i as int];
            let v = db.insert_row(t, row).1->Ok_0[col.col_id as int];
            let number = db.get_next_sequence_value(s).1;
            &&& number is Ok
            &&& bounds_of(col.col_type) is Some
            &&& held(col.col_type, v) is Some
            &&& bounds_of(col.col_type)->Some_0.0 <= number->Ok_0 <= bounds_of(
                col.col_type,
            )->Some_0.1 ==> held(col.col_type, v) == Some(number->Ok_0 as int)
        }),
{
    let schema = db.schema_for_table(t)->Ok_0;
    lemma_nothing_to_fill(db, t, schema, i, row);
    law_insert_fills_with_the_next_number(db, t, row, i, s);
}

} // verus!
