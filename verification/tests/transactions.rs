use std::sync::Arc;

use tx_datastore::data_key::{DataKey, RowId};
use tx_datastore::error::{DBError, IndexError, SequenceError, TableError};
use tx_datastore::ids::{ColId, IndexId, SequenceId, TableId, ST_COLUMNS_ID, ST_INDEXES_ID, ST_SEQUENCES_ID, ST_TABLES_ID};
use tx_datastore::locking::{Locking, MutTxId};
use tx_datastore::messages::{Operation, Transaction, Write};
use tx_datastore::range::{RangeBound, ValueRange};
use tx_datastore::schema::{ColumnDef, IndexDef, SequenceDef, TableDef};
use tx_datastore::system_tables::{StSequenceRow, StTableRow};
use tx_datastore::types::{AlgebraicType, ProductType, ProductTypeElement};
use tx_datastore::value::{AlgebraicValue, ProductValue};

fn people() -> TableDef {
    TableDef {
        table_name: "people".to_string(),
        columns: vec![
            ColumnDef { col_name: "id".to_string(), col_type: AlgebraicType::U32, is_autoinc: true },
            ColumnDef { col_name: "name".to_string(), col_type: AlgebraicType::String, is_autoinc: false },
            ColumnDef { col_name: "age".to_string(), col_type: AlgebraicType::U32, is_autoinc: false },
        ],
        indexes: vec![
            IndexDef { table_id: 0, col_id: 0, name: "people_id".to_string(), is_unique: true },
            IndexDef { table_id: 0, col_id: 1, name: "people_name".to_string(), is_unique: true },
        ],
    }
}

fn person(id: u32, name: &str, age: u32) -> ProductValue {
    ProductValue {
        elements: vec![
            AlgebraicValue::U32(id),
            AlgebraicValue::String(name.to_string()),
            AlgebraicValue::U32(age),
        ],
    }
}

fn row_id(row: &ProductValue) -> RowId {
    RowId(row.to_data_key())
}

/// A datastore with the people Ann (30), Bob (20) and Cy (20) committed.
fn with_people() -> (Locking, TableId) {
    let mut datastore = Locking::bootstrap().unwrap();
    let mut tx = datastore.begin_mut_tx();
    let table_id = datastore.create_table_mut_tx(&mut tx, people()).unwrap();
    for (name, age) in [("Ann", 30), ("Bob", 20), ("Cy", 20)] {
        datastore.insert_row_mut_tx(&mut tx, table_id, person(0, name, age)).unwrap();
    }
    datastore.commit_mut_tx(tx).unwrap();
    (datastore, table_id)
}

fn scan(datastore: &Locking, tx: &MutTxId, table_id: TableId) -> Vec<ProductValue> {
    let mut rows = datastore.scan_mut_tx(tx, table_id).unwrap().collect();
    rows.sort_by_key(|r| match r.elements[0] {
        AlgebraicValue::U32(id) => id,
        _ => panic!("no id"),
    });
    rows
}

fn seek(datastore: &Locking, tx: &MutTxId, table_id: TableId, col: u32, value: AlgebraicValue) -> Vec<ProductValue> {
    let mut rows = datastore.seek_mut_tx(tx, table_id, ColId(col), &value).unwrap().collect();
    rows.sort_by_key(|r| match r.elements[0] {
        AlgebraicValue::U32(id) => id,
        _ => panic!("no id"),
    });
    rows
}

fn text(s: &str) -> AlgebraicValue {
    AlgebraicValue::String(s.to_string())
}

#[test]
fn one_transaction_at_a_time() {
    let mut datastore = Locking::bootstrap().unwrap();
    assert!(datastore.is_idle());
    let tx = datastore.begin_tx();
    assert!(!datastore.is_idle());
    datastore.release_tx(tx);
    assert!(datastore.is_idle());
}

#[test]
fn scan_yields_committed_and_inserted_rows_once() {
    let (mut datastore, people) = with_people();
    let mut tx = datastore.begin_mut_tx();
    datastore.insert_row_mut_tx(&mut tx, people, person(0, "Di", 40)).unwrap();
    assert!(datastore.delete_row_mut_tx(&mut tx, people, row_id(&person(2, "Bob", 20))).unwrap());
    assert_eq!(
        scan(&datastore, &tx, people),
        vec![person(1, "Ann", 30), person(3, "Cy", 20), person(4, "Di", 40)]
    );
    let mut iter = datastore.scan_tx(&tx, people).unwrap();
    let mut n = 0;
    while let Some(row) = iter.next() {
        assert_eq!(row.view().elements.len(), 3);
        n += 1;
    }
    assert_eq!(n, 3);
    assert!(iter.next().is_none());
}

#[test]
fn seek_by_index_and_without() {
    let (mut datastore, people) = with_people();
    let mut tx = datastore.begin_mut_tx();
    // Nothing of the transaction's own yet: every row is committed.
    assert_eq!(seek(&datastore, &tx, people, 1, text("Bob")), vec![person(2, "Bob", 20)]);
    assert_eq!(
        seek(&datastore, &tx, people, 2, AlgebraicValue::U32(20)),
        vec![person(2, "Bob", 20), person(3, "Cy", 20)]
    );
    // Rows of both kinds.
    datastore.insert_row_mut_tx(&mut tx, people, person(0, "Di", 20)).unwrap();
    assert_eq!(seek(&datastore, &tx, people, 1, text("Bob")), vec![person(2, "Bob", 20)]);
    assert_eq!(seek(&datastore, &tx, people, 1, text("Di")), vec![person(4, "Di", 20)]);
    assert_eq!(seek(&datastore, &tx, people, 1, text("Eve")), Vec::<ProductValue>::new());
    assert_eq!(
        seek(&datastore, &tx, people, 2, AlgebraicValue::U32(20)),
        vec![person(2, "Bob", 20), person(3, "Cy", 20), person(4, "Di", 20)]
    );
    // An index made in the transaction finds committed rows too.
    let index = IndexDef { table_id: people.0, col_id: 2, name: "people_age".to_string(), is_unique: false };
    datastore.create_index_mut_tx(&mut tx, index).unwrap();
    assert_eq!(
        seek(&datastore, &tx, people, 2, AlgebraicValue::U32(20)),
        vec![person(2, "Bob", 20), person(3, "Cy", 20), person(4, "Di", 20)]
    );
    let mut iter = datastore.seek_tx(&tx, people, ColId(2), &AlgebraicValue::U32(30)).unwrap();
    assert_eq!(*iter.next().unwrap().view(), person(1, "Ann", 30));
    assert!(iter.next().is_none());
}

#[test]
fn seek_past_the_last_column_finds_nothing() {
    let (mut datastore, people) = with_people();
    let tx = datastore.begin_mut_tx();
    assert_eq!(seek(&datastore, &tx, people, 9, AlgebraicValue::U32(20)), Vec::<ProductValue>::new());
}

#[test]
fn range_scan_includes_and_excludes_its_ends() {
    let (mut datastore, people) = with_people();
    let mut tx = datastore.begin_mut_tx();
    datastore.insert_row_mut_tx(&mut tx, people, person(0, "Di", 40)).unwrap();
    let ages = |start: RangeBound, end: RangeBound| {
        let rows = datastore
            .range_scan_mut_tx(&tx, people, ColId(2), ValueRange { start, end })
            .unwrap()
            .collect();
        let mut ages: Vec<u32> = rows
            .iter()
            .map(|r| match r.elements[2] {
                AlgebraicValue::U32(age) => age,
                _ => panic!("no age"),
            })
            .collect();
        ages.sort();
        ages
    };
    let at = |n: u32| RangeBound::Included(AlgebraicValue::U32(n));
    let past = |n: u32| RangeBound::Excluded(AlgebraicValue::U32(n));
    assert_eq!(ages(RangeBound::Unbounded, RangeBound::Unbounded), vec![20, 20, 30, 40]);
    assert_eq!(ages(at(20), past(40)), vec![20, 20, 30]);
    assert_eq!(ages(past(20), at(40)), vec![30, 40]);
    assert_eq!(ages(past(20), past(30)), Vec::<u32>::new());
    let range = ValueRange { start: at(30), end: at(30) };
    let mut iter = datastore.range_scan_tx(&tx, people, ColId(2), range).unwrap();
    assert_eq!(*iter.next().unwrap().view(), person(1, "Ann", 30));
    assert!(iter.next().is_none());
}

#[test]
fn rows_are_read_by_their_ids() {
    let (mut datastore, people) = with_people();
    let mut tx = datastore.begin_mut_tx();
    let ann = person(1, "Ann", 30);
    let inserted = datastore.insert_row_mut_tx(&mut tx, people, person(0, "Di", 40)).unwrap();
    assert_eq!(inserted, person(4, "Di", 40));
    let found = datastore.get_row_mut_tx(&tx, people, row_id(&ann)).unwrap().unwrap();
    assert_eq!(*found.view(), ann);
    let found = datastore.get_row_tx(&tx, people, row_id(&inserted)).unwrap().unwrap();
    let owned = datastore.data_to_owned(found.clone());
    assert_eq!(*owned.view(), inserted);
    assert_eq!(ProductValue::from(owned), inserted);
    assert!(datastore.get_row_mut_tx(&tx, people, row_id(&person(9, "Ann", 30))).unwrap().is_none());
    assert!(datastore.delete_row_mut_tx(&mut tx, people, row_id(&ann)).unwrap());
    assert!(!datastore.delete_row_mut_tx(&mut tx, people, row_id(&ann)).unwrap());
    assert!(datastore.get_row_mut_tx(&tx, people, row_id(&ann)).unwrap().is_none());
}

#[test]
fn delete_then_insert_restores_the_table() {
    let (mut datastore, people) = with_people();
    let mut tx = datastore.begin_mut_tx();
    let before = scan(&datastore, &tx, people);
    datastore.delete_row_mut_tx(&mut tx, people, row_id(&person(2, "Bob", 20))).unwrap();
    datastore.insert_row_mut_tx(&mut tx, people, person(2, "Bob", 20)).unwrap();
    assert_eq!(scan(&datastore, &tx, people), before);
    datastore.commit_mut_tx(tx).unwrap();
    let tx = datastore.begin_mut_tx();
    assert_eq!(scan(&datastore, &tx, people), before);
}

#[test]
fn deleted_rows_are_counted() {
    let (mut datastore, people) = with_people();
    let mut tx = datastore.begin_mut_tx();
    let relation = vec![person(1, "Ann", 30), person(1, "Ann", 30), person(8, "Nobody", 1), person(3, "Cy", 20)];
    assert_eq!(datastore.delete_rows_in_mut_tx(&mut tx, people, relation).unwrap(), Some(2));
    assert_eq!(scan(&datastore, &tx, people), vec![person(2, "Bob", 20)]);
}

#[test]
fn commit_reports_what_was_written() {
    let (mut datastore, people) = with_people();
    let mut tx = datastore.begin_mut_tx();
    datastore.insert_row_mut_tx(&mut tx, people, person(7, "Di", 40)).unwrap();
    datastore.delete_row_mut_tx(&mut tx, people, row_id(&person(1, "Ann", 30))).unwrap();
    let report = datastore.commit_mut_tx(tx).unwrap().unwrap();
    assert_eq!(
        report,
        Arc::new(Transaction {
            writes: vec![
                Write { operation: Operation::Insert, set_id: people.0, data_key: person(7, "Di", 40).to_data_key() },
                Write { operation: Operation::Delete, set_id: people.0, data_key: person(1, "Ann", 30).to_data_key() },
            ],
        })
    );
}

#[test]
fn what_was_committed_is_seen_next() {
    let (mut datastore, people) = with_people();
    let mut tx = datastore.begin_mut_tx();
    datastore.insert_row_mut_tx(&mut tx, people, person(0, "Di", 40)).unwrap();
    datastore.delete_row_mut_tx(&mut tx, people, row_id(&person(3, "Cy", 20))).unwrap();
    let seen = scan(&datastore, &tx, people);
    datastore.commit_mut_tx(tx).unwrap();
    let tx = datastore.begin_mut_tx();
    assert_eq!(scan(&datastore, &tx, people), seen);
}

#[test]
fn what_was_rolled_back_is_not_seen_next() {
    let (mut datastore, people) = with_people();
    let mut tx = datastore.begin_mut_tx();
    let before = scan(&datastore, &tx, people);
    datastore.insert_row_mut_tx(&mut tx, people, person(0, "Di", 40)).unwrap();
    datastore.delete_row_mut_tx(&mut tx, people, row_id(&person(3, "Cy", 20))).unwrap();
    datastore.rollback_mut_tx(tx);
    let tx = datastore.begin_mut_tx();
    assert_eq!(scan(&datastore, &tx, people), before);
}

#[test]
fn an_empty_transaction_writes_nothing() {
    let (mut datastore, people) = with_people();
    let tx = datastore.begin_mut_tx();
    let before = scan(&datastore, &tx, people);
    let report = datastore.commit_mut_tx(tx).unwrap().unwrap();
    assert_eq!(*report, Transaction { writes: vec![] });
    let tx = datastore.begin_mut_tx();
    assert_eq!(scan(&datastore, &tx, people), before);
}

#[test]
fn a_violation_names_the_index_and_the_value() {
    let (mut datastore, people) = with_people();
    let mut tx = datastore.begin_mut_tx();
    let expected = DBError::Index(IndexError::UniqueConstraintViolation {
        constraint_name: "people_name".to_string(),
        table_name: "people".to_string(),
        col_name: "name".to_string(),
        value: text("Bob"),
    });
    // Against a committed row, then against one of the transaction.
    assert_eq!(datastore.insert_row_mut_tx(&mut tx, people, person(11, "Bob", 1)), Err(expected));
    datastore.delete_row_mut_tx(&mut tx, people, row_id(&person(2, "Bob", 20))).unwrap();
    datastore.insert_row_mut_tx(&mut tx, people, person(11, "Bob", 1)).unwrap();
    assert!(datastore.insert_row_mut_tx(&mut tx, people, person(12, "Bob", 2)).is_err());
    assert_eq!(
        scan(&datastore, &tx, people),
        vec![person(1, "Ann", 30), person(3, "Cy", 20), person(11, "Bob", 1)]
    );
}

#[test]
fn a_row_of_the_wrong_length_is_refused() {
    let (mut datastore, people) = with_people();
    let mut tx = datastore.begin_mut_tx();
    let row = ProductValue { elements: vec![AlgebraicValue::U32(5), text("Eve")] };
    assert_eq!(
        datastore.insert_row_mut_tx(&mut tx, people, row.clone()),
        Err(DBError::Table(TableError::RowInvalidType { table_id: people.0, row }))
    );
}

#[test]
fn a_table_that_is_not_there() {
    let mut datastore = Locking::bootstrap().unwrap();
    let mut tx = datastore.begin_mut_tx();
    let nowhere = TableId(77);
    let missing = || DBError::Table(TableError::IdNotFound(77));
    assert!(!datastore.table_id_exists(&tx, &nowhere));
    assert!(datastore.table_id_exists(&tx, &TableId(ST_TABLES_ID)));
    assert_eq!(datastore.insert_row_mut_tx(&mut tx, nowhere, person(0, "A", 1)), Err(missing()));
    assert_eq!(datastore.scan_mut_tx(&tx, nowhere).err(), Some(missing()));
    assert_eq!(datastore.seek_mut_tx(&tx, nowhere, ColId(0), &AlgebraicValue::U32(1)).err(), Some(missing()));
    let all = ValueRange { start: RangeBound::Unbounded, end: RangeBound::Unbounded };
    assert_eq!(datastore.range_scan_mut_tx(&tx, nowhere, ColId(0), all).err(), Some(missing()));
    assert_eq!(datastore.get_row_mut_tx(&tx, nowhere, row_id(&person(0, "A", 1))).err(), Some(missing()));
    assert_eq!(datastore.schema_for_table_mut_tx(&tx, nowhere), Err(missing()));
    assert_eq!(datastore.row_type_for_table_mut_tx(&tx, nowhere), Err(missing()));
    assert_eq!(datastore.rename_table_mut_tx(&mut tx, nowhere, "x"), Err(missing()));
    assert_eq!(datastore.drop_table_mut_tx(&mut tx, nowhere), Err(missing()));
    let index = IndexDef { table_id: 77, col_id: 0, name: "i".to_string(), is_unique: false };
    assert_eq!(datastore.create_index_mut_tx(&mut tx, index), Err(missing()));
    assert!(!datastore.delete_row_mut_tx(&mut tx, nowhere, row_id(&person(0, "A", 1))).unwrap());
}

#[test]
fn an_index_of_a_column_that_is_not_there() {
    let (mut datastore, people) = with_people();
    let mut tx = datastore.begin_mut_tx();
    let index = IndexDef { table_id: people.0, col_id: 8, name: "far".to_string(), is_unique: false };
    assert_eq!(datastore.create_index_mut_tx(&mut tx, index), Err(DBError::InvalidField(8)));
}

#[test]
fn names_and_ids() {
    let (mut datastore, people) = with_people();
    let mut tx = datastore.begin_mut_tx();
    assert_eq!(datastore.table_id_from_name_mut_tx(&tx, "people").unwrap(), Some(people));
    assert_eq!(datastore.table_id_from_name_mut_tx(&tx, "nobody").unwrap(), None);
    assert_eq!(datastore.table_name_from_id_mut_tx(&tx, people).unwrap(), Some("people".to_string()));
    assert_eq!(datastore.table_name_from_id_mut_tx(&tx, TableId(77)).unwrap(), None);
    assert_eq!(datastore.index_id_from_name_mut_tx(&tx, "people_name").unwrap(), Some(IndexId(5)));
    assert_eq!(datastore.index_id_from_name_mut_tx(&tx, "nothing").unwrap(), None);
    assert_eq!(datastore.sequence_id_from_name_mut_tx(&tx, "people_id_seq").unwrap(), Some(SequenceId(3)));
    assert_eq!(datastore.sequence_id_from_name_mut_tx(&tx, "nothing").unwrap(), None);
    datastore.rename_table_mut_tx(&mut tx, people, "persons").unwrap();
    assert_eq!(datastore.table_id_from_name_mut_tx(&tx, "persons").unwrap(), Some(people));
    assert_eq!(datastore.table_id_from_name_mut_tx(&tx, "people").unwrap(), None);
}

#[test]
fn a_name_is_taken_once() {
    let (mut datastore, _) = with_people();
    let mut tx = datastore.begin_mut_tx();
    assert!(datastore.create_table_mut_tx(&mut tx, people()).is_err());
}

#[test]
fn the_row_type_of_a_table() {
    let (mut datastore, people) = with_people();
    let tx = datastore.begin_mut_tx();
    let element = |t: AlgebraicType| ProductTypeElement { name: None, algebraic_type: t };
    assert_eq!(
        datastore.row_type_for_table_mut_tx(&tx, people).unwrap(),
        ProductType {
            elements: vec![
                element(AlgebraicType::U32),
                element(AlgebraicType::String),
                element(AlgebraicType::U32),
            ],
        }
    );
}

#[test]
fn a_dropped_index_no_longer_refuses() {
    let (mut datastore, people) = with_people();
    let mut tx = datastore.begin_mut_tx();
    let name_index = IndexId(5);
    assert!(tx.index_listed(name_index));
    datastore.drop_index_mut_tx(&mut tx, name_index).unwrap();
    assert!(!tx.index_listed(name_index));
    assert_eq!(datastore.index_id_from_name_mut_tx(&tx, "people_name").unwrap(), None);
    datastore.insert_row_mut_tx(&mut tx, people, person(0, "Bob", 5)).unwrap();
    assert_eq!(
        seek(&datastore, &tx, people, 1, text("Bob")),
        vec![person(2, "Bob", 20), person(4, "Bob", 5)]
    );
}

#[test]
fn a_dropped_table_is_gone_from_memory() {
    let (mut datastore, people) = with_people();
    let mut tx = datastore.begin_mut_tx();
    datastore.drop_table_mut_tx(&mut tx, people).unwrap();
    assert!(!datastore.table_id_exists(&tx, &people));
    assert!(datastore.scan_mut_tx(&tx, people).is_err());
    assert_eq!(datastore.sequence_id_from_name_mut_tx(&tx, "people_id_seq").unwrap(), None);
    assert_eq!(datastore.index_id_from_name_mut_tx(&tx, "people_id").unwrap(), None);
}

fn counter(name: &str, increment: i128, start: i128, min: i128, max: i128) -> SequenceDef {
    SequenceDef {
        sequence_name: name.to_string(),
        table_id: 0,
        col_id: 9,
        increment,
        start: Some(start),
        min_value: Some(min),
        max_value: Some(max),
    }
}

#[test]
fn a_sequence_counts_and_wraps() {
    let mut datastore = Locking::bootstrap().unwrap();
    let mut tx = datastore.begin_mut_tx();
    let up = datastore.create_sequence_mut_tx(&mut tx, counter("up", 2, 5, 1, 9)).unwrap();
    let down = datastore.create_sequence_mut_tx(&mut tx, counter("down", -1, 2, 1, 3)).unwrap();
    assert!(tx.sequence_listed(up));
    let mut next = |s: SequenceId| datastore.get_next_sequence_value_mut_tx(&mut tx, s).unwrap();
    assert_eq!(vec![next(up), next(up), next(up), next(up)], vec![5, 7, 9, 1]);
    assert_eq!(vec![next(down), next(down), next(down)], vec![2, 1, 3]);
}

#[test]
fn defaults_of_a_sequence() {
    let mut datastore = Locking::bootstrap().unwrap();
    let mut tx = datastore.begin_mut_tx();
    let def = SequenceDef {
        sequence_name: "plain".to_string(),
        table_id: 0,
        col_id: 9,
        increment: 1,
        start: None,
        min_value: None,
        max_value: None,
    };
    let id = datastore.create_sequence_mut_tx(&mut tx, def).unwrap();
    let rows = datastore
        .seek_mut_tx(&tx, TableId(ST_SEQUENCES_ID), ColId(1), &text("plain"))
        .unwrap()
        .collect();
    assert_eq!(
        StSequenceRow::try_from(&rows[0]).unwrap(),
        StSequenceRow {
            sequence_id: id.0,
            sequence_name: "plain".to_string(),
            table_id: 0,
            col_id: 9,
            increment: 1,
            start: 1,
            min_value: 1,
            max_value: i128::MAX,
            allocated: 0,
        }
    );
    assert_eq!(datastore.get_next_sequence_value_mut_tx(&mut tx, id).unwrap(), 1);
}

#[test]
fn more_is_allocated_when_a_sequence_runs_out() {
    let mut datastore = Locking::bootstrap().unwrap();
    let mut tx = datastore.begin_mut_tx();
    // It starts where its allocation ends.
    let id = datastore.create_sequence_mut_tx(&mut tx, counter("zero", 1, 0, 0, 1_000_000)).unwrap();
    assert_eq!(datastore.get_next_sequence_value_mut_tx(&mut tx, id).unwrap(), 0);
    let rows = datastore
        .seek_mut_tx(&tx, TableId(ST_SEQUENCES_ID), ColId(1), &text("zero"))
        .unwrap()
        .collect();
    assert_eq!(rows.len(), 1);
    assert_eq!(StSequenceRow::try_from(&rows[0]).unwrap().allocated, 1024);
    for n in 1..1030 {
        assert_eq!(datastore.get_next_sequence_value_mut_tx(&mut tx, id).unwrap(), n);
    }
}

#[test]
fn a_sequence_that_comes_round_cannot_be_allocated() {
    let mut datastore = Locking::bootstrap().unwrap();
    let mut tx = datastore.begin_mut_tx();
    let id = datastore.create_sequence_mut_tx(&mut tx, counter("round", 1, 0, 0, 3)).unwrap();
    assert_eq!(
        datastore.get_next_sequence_value_mut_tx(&mut tx, id),
        Err(DBError::Sequence(SequenceError::UnableToAllocate(id.0)))
    );
}

#[test]
fn a_dropped_sequence_gives_out_nothing() {
    let mut datastore = Locking::bootstrap().unwrap();
    let mut tx = datastore.begin_mut_tx();
    let id = datastore.create_sequence_mut_tx(&mut tx, counter("c", 1, 1, 1, 9)).unwrap();
    datastore.drop_sequence_mut_tx(&mut tx, id).unwrap();
    assert!(!tx.sequence_listed(id));
    assert_eq!(
        datastore.get_next_sequence_value_mut_tx(&mut tx, id),
        Err(DBError::Sequence(SequenceError::NotFound(id.0)))
    );
}

#[test]
fn a_column_that_is_no_integer_is_not_filled() {
    let mut datastore = Locking::bootstrap().unwrap();
    let mut tx = datastore.begin_mut_tx();
    let def = TableDef {
        table_name: "odd".to_string(),
        columns: vec![ColumnDef { col_name: "c".to_string(), col_type: AlgebraicType::String, is_autoinc: true }],
        indexes: vec![],
    };
    let table_id = datastore.create_table_mut_tx(&mut tx, def).unwrap();
    let row = ProductValue { elements: vec![AlgebraicValue::U32(0)] };
    assert_eq!(
        datastore.insert_row_mut_tx(&mut tx, table_id, row),
        Err(DBError::Sequence(SequenceError::NotInteger {
            col: "odd.c".to_string(),
            found: AlgebraicType::String,
        }))
    );
    let row = ProductValue { elements: vec![text("given")] };
    assert_eq!(datastore.insert_row_mut_tx(&mut tx, table_id, row.clone()).unwrap(), row);
}

#[test]
fn many_rows_with_numbers_of_their_own() {
    let mut datastore = Locking::bootstrap().unwrap();
    let mut tx = datastore.begin_mut_tx();
    let def = TableDef {
        table_name: "many".to_string(),
        columns: vec![ColumnDef { col_name: "n".to_string(), col_type: AlgebraicType::U64, is_autoinc: true }],
        indexes: vec![],
    };
    let table_id = datastore.create_table_mut_tx(&mut tx, def).unwrap();
    for n in 1..=1500u64 {
        let row = ProductValue { elements: vec![AlgebraicValue::U64(0)] };
        let inserted = datastore.insert_row_mut_tx(&mut tx, table_id, row).unwrap();
        assert_eq!(inserted.elements, vec![AlgebraicValue::U64(n)]);
    }
    assert_eq!(datastore.scan_mut_tx(&tx, table_id).unwrap().collect().len(), 1500);
}

#[test]
fn bytes_are_known_by_their_key() {
    let (mut datastore, people) = with_people();
    let mut tx = datastore.begin_mut_tx();
    let long = person(50, "A name that takes more than a key can hold", 61);
    let mut bytes = Vec::new();
    long.encode(&mut bytes);
    let key = long.to_data_key();
    assert!(matches!(key, DataKey::Hash(_)));
    assert_eq!(datastore.resolve_data_key_mut_tx(&tx, &key).unwrap(), None);
    datastore.insert_row_mut_tx(&mut tx, people, long.clone()).unwrap();
    assert_eq!(datastore.resolve_data_key_mut_tx(&tx, &key).unwrap(), Some(Arc::new(bytes.clone())));
    datastore.delete_row_mut_tx(&mut tx, people, row_id(&long)).unwrap();
    assert_eq!(datastore.resolve_data_key_mut_tx(&tx, &key).unwrap(), Some(Arc::new(bytes.clone())));
    datastore.rollback_mut_tx(tx);
    let tx = datastore.begin_mut_tx();
    assert_eq!(datastore.resolve_data_key_mut_tx(&tx, &key).unwrap(), Some(Arc::new(bytes)));
    let short = DataKey::Data(vec![1, 2, 3]);
    assert_eq!(datastore.resolve_data_key_mut_tx(&tx, &short).unwrap(), Some(Arc::new(vec![1, 2, 3])));
}

#[test]
fn the_catalogue_lists_itself() {
    let mut datastore = Locking::bootstrap().unwrap();
    let tx = datastore.begin_mut_tx();
    for (id, name) in [
        (ST_TABLES_ID, "st_table"),
        (ST_COLUMNS_ID, "st_columns"),
        (ST_SEQUENCES_ID, "st_sequence"),
        (ST_INDEXES_ID, "st_indexes"),
    ] {
        let rows = datastore
            .seek_mut_tx(&tx, TableId(ST_TABLES_ID), ColId(1), &text(name))
            .unwrap()
            .collect();
        assert_eq!(rows.len(), 1);
        assert_eq!(
            StTableRow::try_from(&rows[0]).unwrap(),
            StTableRow { table_id: id, table_name: name.to_string() }
        );
    }
}
