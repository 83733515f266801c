//! Inserting rows: autoincrement columns, and the sequences that fill them.

use vstd::prelude::*;
use vstd::string::StringExecFns;

use crate::data_key::RowId;
use crate::datastore::{outcome, Inner};
use crate::error::{DBError, Fault, SequenceError};
use crate::ids::{SequenceId, TableId, ST_SEQUENCES_ID};
use crate::iter::rows_read;
use crate::model::{number_value, sequence_for, DbModel, SEQUENCE_ALLOCATION};
use crate::schema::{ColumnSchema, SchemaModel, TableSchema};
use crate::soundness::lemma_same_rows_inv;
use crate::system_tables::StSequenceRow;
use crate::types::AlgebraicType;
use crate::value::{is_zero, AlgebraicValue, ProductValue, Row};

verus! {

/// `sequence_value` as a value of type `ty`, cut to its width.
pub fn sequence_value_to_algebraic_value(
    table_name: &str,
    col_name: &str,
    ty: &AlgebraicType,
    sequence_value: i128,
) -> (r: Result<AlgebraicValue, SequenceError>)
    ensures
        match (r, number_value(ty@, sequence_value)) {
            (Ok(v), Some(m)) => v@ == m,
            (Err(e), None) => e@ == (Fault::NotInteger {
                col: table_name@ + seq!['.'] + col_name@,
                found: ty@,
            }),
            _ => false,
        },
{
    match ty {
        AlgebraicType::I8 => Ok(AlgebraicValue::I8(#[verifier::truncate] (sequence_value as i8))),
        AlgebraicType::U8 => Ok(AlgebraicValue::U8(#[verifier::truncate] (sequence_value as u8))),
        AlgebraicType::I16 => Ok(
            AlgebraicValue::I16(#[verifier::truncate] (sequence_value as i16)),
        ),
        AlgebraicType::U16 => Ok(
            AlgebraicValue::U16(#[verifier::truncate] (sequence_value as u16)),
        ),
        AlgebraicType::I32 => Ok(
            AlgebraicValue::I32(#[verifier::truncate] (sequence_value as i32)),
        ),
        AlgebraicType::U32 => Ok(
            AlgebraicValue::U32(#[verifier::truncate] (sequence_value as u32)),
        ),
        AlgebraicType::I64 => Ok(
            AlgebraicValue::I64(#[verifier::truncate] (sequence_value as i64)),
        ),
        AlgebraicType::U64 => Ok(
            AlgebraicValue::U64(#[verifier::truncate] (sequence_value as u64)),
        ),
        AlgebraicType::I128 => Ok(AlgebraicValue::I128(sequence_value)),
        AlgebraicType::U128 => Ok(
            AlgebraicValue::U128(#[verifier::truncate] (sequence_value as u128)),
        ),
        _ => {
            let mut col = table_name.to_owned();
            col.append(".");
            col.append(col_name);
            proof {
                reveal_strlit(".");
                assert("."@ =~= seq!['.']);
                assert(col@ =~= table_name@ + seq!['.'] + col_name@);
            }
            Err(SequenceError::NotInteger { col, found: ty.clone() })
        },
    }
}

/// Whether `value` is a number, and zero.
pub fn can_replace_with_sequence(value: &AlgebraicValue) -> (r: bool)
    ensures
        r == is_zero(value@),
{
    match value {
        AlgebraicValue::I8(x) => *x == 0,
        AlgebraicValue::U8(x) => *x == 0,
        AlgebraicValue::I16(x) => *x == 0,
        AlgebraicValue::U16(x) => *x == 0,
        AlgebraicValue::I32(x) => *x == 0,
        AlgebraicValue::U32(x) => *x == 0,
        AlgebraicValue::I64(x) => *x == 0,
        AlgebraicValue::U64(x) => *x == 0,
        AlgebraicValue::I128(x) => *x == 0,
        AlgebraicValue::U128(x) => *x == 0,
        AlgebraicValue::F32(bits) => *bits == 0 || *bits == 0x8000_0000,
        AlgebraicValue::F64(bits) => *bits == 0 || *bits == 0x8000_0000_0000_0000,
        _ => false,
    }
}

/// The first of the sequences in `rows` that is for column `col_id`.
fn find_sequence(rows: &Vec<ProductValue>, col_id: u32) -> (r: Result<Option<u32>, DBError>)
    ensures
        match (r, sequence_for(rows_read(rows@), col_id)) {
            (Ok(x), Ok(m)) => x == m,
            (Err(e), Err(f)) => e@ == f,
            _ => false,
        },
{
    let ghost all = rows_read(rows@);
    assert(all.skip(0) =~= all);
    let n: usize = rows.len();
    for i in 0..n
        invariant
            n == rows@.len(),
            all == rows_read(rows@),
            sequence_for(all, col_id) == sequence_for(all.skip(i as int), col_id),
    {
        proof {
            assert(all.skip(i as int).skip(1) =~= all.skip(i + 1));
            assert(all.skip(i as int)[0] == rows@[i as int]@);
        }
        match StSequenceRow::try_from(&rows[i]) {
            Ok(el) => {
                if el.col_id == col_id {
                    return Ok(Some(el.sequence_id));
                }
            },
            Err(e) => {
                return Err(e);
            },
        }
    }
    Ok(None)
}

impl Inner {
    /// Gives out the next number of a sequence from what is allocated.
    fn take_number(&mut self, seq_id: SequenceId) -> (r: Result<i128, DBError>)
        requires
            old(self).in_tx(),
        ensures
            final(self).in_tx(),
            (final(self)@, outcome(r)) == old(self)@.take_number(seq_id.0),
    {
        if self.tx().dropped_sequences.contains_key(&seq_id.0) {
            return Err(DBError::Sequence(SequenceError::NotFound(seq_id.0)));
        }
        let r = match self.sequence_state.get_sequence_mut(seq_id) {
            None => Err(DBError::Sequence(SequenceError::NotFound(seq_id.0))),
            Some(sequence) => match sequence.gen_next_value() {
                Some(value) => Ok(value),
                None => Err(DBError::Sequence(SequenceError::UnableToAllocate(seq_id.0))),
            },
        };
        proof {
            let m = old(self)@.take_number(seq_id.0).0;
            assert(self@.sequences =~= m.sequences);
            assert(self@ =~= m);
            old(self).lemma_in_order();
            lemma_same_rows_inv(old(self)@, m);
        }
        r
    }

    /// Allocates more numbers to a sequence, up to the number returned.
    fn allocate(&mut self, seq_id: SequenceId) -> (r: Option<i128>)
        requires
            old(self).in_tx(),
        ensures
            final(self).in_tx(),
            match r {
                Some(to) => {
                    let q = old(self)@.sequences[seq_id.0];
                    &&& old(self)@.sequences.contains_key(seq_id.0)
                    &&& to == q.nth(SEQUENCE_ALLOCATION as nat)
                    &&& final(self)@ == old(self)@.refill(seq_id.0, to)
                },
                None => !old(self)@.sequences.contains_key(seq_id.0) && final(self)@ == old(self)@,
            },
    {
        let r = match self.sequence_state.get_sequence_mut(seq_id) {
            None => None,
            Some(sequence) => {
                let to: i128 = sequence.nth_value(SEQUENCE_ALLOCATION);
                sequence.set_allocation(to);
                Some(to)
            },
        };
        proof {
            old(self).lemma_in_order();
            lemma_same_rows_inv(old(self)@, self@);
        }
        match r {
            Some(to) => {
                let ghost after = old(self)@.refill(seq_id.0, to);
                proof {
                    lemma_same_rows_inv(old(self)@, after);
                }
                let tx = self.tx_mut();
                tx.note_refill(seq_id.0);
                assert(self@ =~= after);
            },
            None => {},
        }
        r
    }

    /// Whether a sequence has no number left of what is allocated to it.
    fn is_exhausted(&self, seq_id: SequenceId) -> (r: bool)
        requires
            self.in_tx(),
        ensures
            r == (self@.in_use(seq_id.0) && self@.sequences[seq_id.0].exhausted()),
    {
        if self.tx().dropped_sequences.contains_key(&seq_id.0) {
            return false;
        }
        match self.sequence_state.sequences.get(&seq_id.0) {
            None => false,
            Some(sequence) => sequence.is_exhausted(),
        }
    }

    /// Gives out the next number of a sequence, and allocates more to it where it has none left.
    pub(crate) fn get_next_sequence_value(&mut self, seq_id: SequenceId) -> (r: Result<
        i128,
        DBError,
    >)
        requires
            old(self).in_tx(),
        ensures
            final(self).in_tx(),
            (final(self)@, outcome(r)) == old(self)@.get_next_sequence_value(seq_id.0),
    {
        if !self.is_exhausted(seq_id) {
            return self.take_number(seq_id);
        }
        let rows = match self.seek_rows(ST_SEQUENCES_ID, 0, &AlgebraicValue::U32(seq_id.0)) {
            Ok(rows) => rows,
            Err(e) => {
                return Err(e);
            },
        };
        assert(rows_read(rows@).len() == rows@.len());
        if rows.len() == 0 {
            return Err(DBError::Sequence(SequenceError::NotFound(seq_id.0)));
        }
        let old_seq_row = &rows[rows.len() - 1];
        assert(rows_read(rows@).last() == old_seq_row@);
        let old_seq_row_id = RowId(old_seq_row.to_data_key());
        let mut seq_row = match StSequenceRow::try_from(old_seq_row) {
            Ok(seq_row) => seq_row,
            Err(e) => {
                return Err(e);
            },
        };
        let ghost listed = seq_row@;
        match self.allocate(seq_id) {
            Some(to) => {
                seq_row.allocated = to;
                assert(seq_row@ =~= listed.allocated_to(to));
            },
            None => {
                return Err(DBError::Sequence(SequenceError::NotFound(seq_id.0)));
            },
        }
        self.delete_row(&TableId(ST_SEQUENCES_ID), &old_seq_row_id);
        match self.insert_row_internal(TableId(ST_SEQUENCES_ID), seq_row.to_row()) {
            Ok(_) => {},
            Err(e) => {
                return Err(e);
            },
        }
        self.take_number(seq_id)
    }

    /// Fills one column of `row` from its sequence, where the column is to be filled.
    fn fill_column(
        &mut self,
        table_id: TableId,
        table_name: &String,
        col: &ColumnSchema,
        row: ProductValue,
    ) -> (r: Result<ProductValue, DBError>)
        requires
            old(self).in_tx(),
        ensures
            final(self).in_tx(),
            (final(self)@, outcome(r)) == old(self)@.fill_column(
                table_id.0,
                table_name@,
                col@,
                row@,
            ),
    {
        let mut row = row;
        let ghost before = row@;
        if !col.is_autoinc || (col.col_id as usize) >= row.elements.len() {
            return Ok(row);
        }
        assert(row@[col.col_id as int] == row.elements@[col.col_id as int]@);
        if !can_replace_with_sequence(&row.elements[col.col_id as usize]) {
            return Ok(row);
        }
        let rows = match self.seek_rows(ST_SEQUENCES_ID, 2, &AlgebraicValue::U32(table_id.0)) {
            Ok(rows) => rows,
            Err(e) => {
                return Err(e);
            },
        };
        let seq_id = match find_sequence(&rows, col.col_id) {
            Ok(Some(seq_id)) => seq_id,
            Ok(None) => {
                return Ok(row);
            },
            Err(e) => {
                return Err(e);
            },
        };
        let sequence_value = match self.get_next_sequence_value(SequenceId(seq_id)) {
            Ok(sequence_value) => sequence_value,
            Err(e) => {
                return Err(e);
            },
        };
        match sequence_value_to_algebraic_value(
            table_name.as_str(),
            col.col_name.as_str(),
            &col.col_type,
            sequence_value,
        ) {
            Ok(value) => {
                let ghost v = value@;
                row.elements[col.col_id as usize] = value;
                assert(row@ =~= before.update(col.col_id as int, v));
                Ok(row)
            },
            Err(e) => Err(DBError::Sequence(e)),
        }
    }

    /// Inserts a row, its autoincrement columns filled where they hold zero.
    pub(crate) fn insert_row(&mut self, table_id: TableId, row: ProductValue) -> (r: Result<
        ProductValue,
        DBError,
    >)
        requires
            old(self).in_tx(),
        ensures
            final(self).in_tx(),
            (final(self)@, outcome(r)) == old(self)@.insert_row(table_id.0, row@),
    {
        let schema = match self.schema_for_table(table_id) {
            Ok(schema) => schema,
            Err(e) => {
                return Err(e);
            },
        };
        let row = match self.fill_columns(table_id, &schema, row) {
            Ok(row) => row,
            Err(e) => {
                return Err(e);
            },
        };
        match self.insert_row_internal(table_id, row.clone()) {
            Ok(_) => Ok(row),
            Err(e) => Err(e),
        }
    }

    /// Fills the columns of `row` that are to be filled.
    fn fill_columns(
        &mut self,
        table_id: TableId,
        schema: &TableSchema,
        row: ProductValue,
    ) -> (r: Result<ProductValue, DBError>)
        requires
            old(self).in_tx(),
        ensures
            final(self).in_tx(),
            (final(self)@, outcome(r)) == old(self)@.fill_columns(
                table_id.0,
                schema@,
                schema@.columns.len(),
                row@,
            ),
    {
        let ghost first = row@;
        let mut filled = row;
        let n: usize = schema.columns.len();
        assert(schema@.columns.len() == n);
        for i in 0..n
            invariant
                n == schema.columns@.len(),
                n == schema@.columns.len(),
                self.in_tx(),
                first == row@,
                (self@, Ok::<Row, Fault>(filled@)) == old(self)@.fill_columns(
                        table_id.0,
                    schema@,
                    i as nat,
                    first,
                ),
        {
            assert(schema@.columns[i as int] == schema.columns@[i as int]@);
            match self.fill_column(table_id, &schema.table_name, &schema.columns[i], filled) {
                Ok(row) => {
                    filled = row;
                },
                Err(e) => {
                    proof {
                        lemma_fill_err(
                            old(self)@,
                                        table_id.0,
                            schema@,
                            (i + 1) as nat,
                            schema@.columns.len(),
                            first,
                        );
                    }
                    return Err(e);
                },
            }
        }
        Ok(filled)
    }
}

/// A column that cannot be filled ends the filling.
proof fn lemma_fill_err(
    db: DbModel,
    t: u32,
    schema: SchemaModel,
    n: nat,
    m: nat,
    row: Row,
)
    requires
        n <= m,
        db.fill_columns(t, schema, n, row).1 is Err,
    ensures
        db.fill_columns(t, schema, m, row) == db.fill_columns(t, schema, n, row),
    decreases m - n,
{
    if n < m {
        lemma_fill_err(db, t, schema, n, (m - 1) as nat, row);
    }
}

} // verus!
