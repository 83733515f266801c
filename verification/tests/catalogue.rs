use std::sync::Arc;

use tx_datastore::data_key::{DataKey, RowId};
use tx_datastore::error::{DBError, IndexError, SequenceError, TableError};
use tx_datastore::ids::{
    ColId, IndexId, SequenceId, TableId, ST_COLUMNS_ID, ST_INDEXES_ID, ST_SEQUENCES_ID, ST_TABLES_ID,
    TABLE_ID_SEQUENCE_ID,
};
use tx_datastore::locking::{Locking, MutTxId};
use tx_datastore::ordered::KeyOrder;
use tx_datastore::range::{RangeBound, ValueRange};
use tx_datastore::schema::{ColumnDef, IndexDef, SequenceDef, TableDef};
use tx_datastore::system_tables::{StSequenceRow, StTableRow};
use tx_datastore::types::{AlgebraicType, ProductType, ProductTypeElement};
use tx_datastore::value::{AlgebraicValue, ProductValue};

fn foo() -> TableDef {
    TableDef {
        table_name: "Foo".to_string(),
        columns: vec![
            ColumnDef { col_name: "id".to_string(), col_type: AlgebraicType::U32, is_autoinc: true },
            ColumnDef { col_name: "name".to_string(), col_type: AlgebraicType::String, is_autoinc: false },
            ColumnDef { col_name: "age".to_string(), col_type: AlgebraicType::U32, is_autoinc: false },
        ],
        indexes: vec![
            IndexDef { table_id: 0, col_id: 0, name: "id_idx".to_string(), is_unique: true },
            IndexDef { table_id: 0, col_id: 1, name: "name_idx".to_string(), is_unique: true },
        ],
    }
}

fn row(id: u32, name: &str, age: u32) -> ProductValue {
    ProductValue {
        elements: vec![
            AlgebraicValue::U32(id),
            AlgebraicValue::String(name.to_string()),
            AlgebraicValue::U32(age),
        ],
    }
}

/// A datastore with table 4, named Foo, and one row in it, committed.
fn with_foo() -> (Locking, TableId) {
    let mut datastore = Locking::bootstrap().unwrap();
    let mut tx = datastore.begin_mut_tx();
    let table_id = datastore.create_table_mut_tx(&mut tx, foo()).unwrap();
    assert_eq!(table_id, TableId(4));
    datastore.insert_row_mut_tx(&mut tx, table_id, row(0, "Foo", 18)).unwrap();
    datastore.commit_mut_tx(tx).unwrap();
    (datastore, table_id)
}

fn scan(datastore: &Locking, tx: &MutTxId, table_id: TableId) -> Vec<ProductValue> {
    datastore.scan_mut_tx(tx, table_id).unwrap().collect()
}

/// How many rows the system tables have for table `t`.
fn listed_for(datastore: &Locking, tx: &MutTxId, t: TableId) -> Vec<usize> {
    [(ST_TABLES_ID, 0), (ST_COLUMNS_ID, 0), (ST_INDEXES_ID, 1), (ST_SEQUENCES_ID, 2)]
        .iter()
        .map(|(st, col)| {
            datastore
                .seek_mut_tx(tx, TableId(*st), ColId(*col), &AlgebraicValue::U32(t.0))
                .unwrap()
                .collect()
                .len()
        })
        .collect()
}

fn age_index(t: TableId, name: &str, is_unique: bool) -> IndexDef {
    IndexDef { table_id: t.0, col_id: 2, name: name.to_string(), is_unique }
}

fn counter(name: &str) -> SequenceDef {
    SequenceDef {
        sequence_name: name.to_string(),
        table_id: 0,
        col_id: 9,
        increment: 3,
        start: Some(0),
        min_value: Some(0),
        max_value: Some(1_000_000),
    }
}

#[test]
fn a_dropped_table_is_gone_from_the_catalogue() {
    let (mut datastore, t) = with_foo();
    let mut tx = datastore.begin_mut_tx();
    assert_eq!(listed_for(&datastore, &tx, t), vec![1, 3, 2, 1]);
    assert_eq!(datastore.drop_table_mut_tx(&mut tx, t), Ok(()));
    assert!(!datastore.table_id_exists(&tx, &t));
    assert_eq!(datastore.table_id_from_name_mut_tx(&tx, "Foo"), Ok(None));
    assert_eq!(datastore.table_name_from_id_mut_tx(&tx, t), Ok(None));
    assert_eq!(listed_for(&datastore, &tx, t), vec![0, 0, 0, 0]);
    assert_eq!(
        datastore.row_type_for_table_mut_tx(&tx, t),
        Err(DBError::Table(TableError::IdNotFound(4)))
    );
    datastore.commit_mut_tx(tx).unwrap();
    let tx = datastore.begin_mut_tx();
    assert!(!datastore.table_id_exists(&tx, &t));
    assert_eq!(listed_for(&datastore, &tx, t), vec![0, 0, 0, 0]);
    for st in [ST_TABLES_ID, ST_COLUMNS_ID, ST_INDEXES_ID, ST_SEQUENCES_ID] {
        assert!(datastore.table_id_exists(&tx, &TableId(st)));
    }
}

#[test]
fn a_drop_is_undone_by_rollback() {
    let (mut datastore, t) = with_foo();
    let mut tx = datastore.begin_mut_tx();
    datastore.drop_table_mut_tx(&mut tx, t).unwrap();
    datastore.rollback_mut_tx(tx);
    let mut tx = datastore.begin_mut_tx();
    assert!(datastore.table_id_exists(&tx, &t));
    assert_eq!(scan(&datastore, &tx, t), vec![row(1, "Foo", 18)]);
    assert_eq!(listed_for(&datastore, &tx, t), vec![1, 3, 2, 1]);
    // Its indexes refuse, and its sequence counts, as before.
    assert!(datastore.insert_row_mut_tx(&mut tx, t, row(0, "Foo", 19)).is_err());
    let inserted = datastore.insert_row_mut_tx(&mut tx, t, row(0, "Bar", 19)).unwrap();
    assert_eq!(inserted, row(3, "Bar", 19));
}

#[test]
fn the_name_of_a_dropped_table_is_free() {
    let (mut datastore, t) = with_foo();
    let mut tx = datastore.begin_mut_tx();
    datastore.drop_table_mut_tx(&mut tx, t).unwrap();
    let next = datastore.create_table_mut_tx(&mut tx, foo()).unwrap();
    assert_eq!(next, TableId(5));
    assert_eq!(datastore.insert_row_mut_tx(&mut tx, next, row(0, "Foo", 1)).unwrap(), row(1, "Foo", 1));
    datastore.commit_mut_tx(tx).unwrap();
    let tx = datastore.begin_mut_tx();
    assert!(!datastore.table_id_exists(&tx, &t));
    assert_eq!(scan(&datastore, &tx, next), vec![row(1, "Foo", 1)]);
}

#[test]
fn a_table_made_and_dropped_in_one_transaction_leaves_nothing() {
    let mut datastore = Locking::bootstrap().unwrap();
    let mut tx = datastore.begin_mut_tx();
    let t = datastore.create_table_mut_tx(&mut tx, foo()).unwrap();
    datastore.insert_row_mut_tx(&mut tx, t, row(0, "Foo", 18)).unwrap();
    datastore.drop_table_mut_tx(&mut tx, t).unwrap();
    assert!(datastore.scan_mut_tx(&tx, t).is_err());
    let report = datastore.commit_mut_tx(tx).unwrap().unwrap();
    assert!(report.writes.iter().all(|w| w.set_id != t.0));
    let tx = datastore.begin_mut_tx();
    assert!(!datastore.table_id_exists(&tx, &t));
    assert_eq!(listed_for(&datastore, &tx, t), vec![0, 0, 0, 0]);
}

#[test]
fn deletes_from_a_new_table_are_not_reported() {
    let mut datastore = Locking::bootstrap().unwrap();
    let mut tx = datastore.begin_mut_tx();
    let t = datastore.create_table_mut_tx(&mut tx, foo()).unwrap();
    let inserted = datastore.insert_row_mut_tx(&mut tx, t, row(0, "Foo", 18)).unwrap();
    assert_eq!(datastore.delete_rows_in_mut_tx(&mut tx, t, vec![inserted]).unwrap(), Some(1));
    let report = datastore.commit_mut_tx(tx).unwrap().unwrap();
    assert!(report.writes.iter().all(|w| w.set_id != 4));
    let tx = datastore.begin_mut_tx();
    assert!(datastore.table_id_exists(&tx, &t));
    assert_eq!(scan(&datastore, &tx, t), Vec::<ProductValue>::new());
}

#[test]
fn a_dropped_index_comes_back_on_rollback() {
    let (mut datastore, t) = with_foo();
    let mut tx = datastore.begin_mut_tx();
    let index_id = datastore.index_id_from_name_mut_tx(&tx, "name_idx").unwrap().unwrap();
    datastore.drop_index_mut_tx(&mut tx, index_id).unwrap();
    datastore.insert_row_mut_tx(&mut tx, t, row(0, "Foo", 19)).unwrap();
    datastore.rollback_mut_tx(tx);
    let mut tx = datastore.begin_mut_tx();
    assert!(tx.index_listed(index_id));
    assert_eq!(
        datastore.insert_row_mut_tx(&mut tx, t, row(0, "Foo", 19)),
        Err(DBError::Index(IndexError::UniqueConstraintViolation {
            constraint_name: "name_idx".to_string(),
            table_name: "Foo".to_string(),
            col_name: "name".to_string(),
            value: AlgebraicValue::String("Foo".to_string()),
        }))
    );
}

#[test]
fn an_index_dropped_and_committed_stays_dropped() {
    let (mut datastore, t) = with_foo();
    let mut tx = datastore.begin_mut_tx();
    let index_id = datastore.index_id_from_name_mut_tx(&tx, "name_idx").unwrap().unwrap();
    datastore.drop_index_mut_tx(&mut tx, index_id).unwrap();
    datastore.commit_mut_tx(tx).unwrap();
    let mut tx = datastore.begin_mut_tx();
    assert!(!tx.index_listed(index_id));
    datastore.insert_row_mut_tx(&mut tx, t, row(0, "Foo", 19)).unwrap();
    let name = AlgebraicValue::String("Foo".to_string());
    assert_eq!(datastore.seek_mut_tx(&tx, t, ColId(1), &name).unwrap().collect().len(), 2);
}

#[test]
fn an_index_dropped_after_an_insert_is_not_committed() {
    let (mut datastore, t) = with_foo();
    let mut tx = datastore.begin_mut_tx();
    datastore.insert_row_mut_tx(&mut tx, t, row(0, "Bar", 19)).unwrap();
    let index_id = datastore.index_id_from_name_mut_tx(&tx, "name_idx").unwrap().unwrap();
    datastore.drop_index_mut_tx(&mut tx, index_id).unwrap();
    datastore.commit_mut_tx(tx).unwrap();
    let mut tx = datastore.begin_mut_tx();
    datastore.insert_row_mut_tx(&mut tx, t, row(0, "Bar", 20)).unwrap();
    datastore.insert_row_mut_tx(&mut tx, t, row(0, "Foo", 20)).unwrap();
    assert_eq!(scan(&datastore, &tx, t).len(), 4);
}

#[test]
fn a_dropped_sequence_comes_back_on_rollback() {
    let mut datastore = Locking::bootstrap().unwrap();
    let mut tx = datastore.begin_mut_tx();
    let id = datastore.create_sequence_mut_tx(&mut tx, counter("c")).unwrap();
    assert_eq!(datastore.get_next_sequence_value_mut_tx(&mut tx, id), Ok(0));
    datastore.commit_mut_tx(tx).unwrap();
    let mut tx = datastore.begin_mut_tx();
    datastore.drop_sequence_mut_tx(&mut tx, id).unwrap();
    assert!(datastore.get_next_sequence_value_mut_tx(&mut tx, id).is_err());
    datastore.rollback_mut_tx(tx);
    let mut tx = datastore.begin_mut_tx();
    assert_eq!(datastore.get_next_sequence_value_mut_tx(&mut tx, id), Ok(3));
    datastore.drop_sequence_mut_tx(&mut tx, id).unwrap();
    datastore.commit_mut_tx(tx).unwrap();
    let mut tx = datastore.begin_mut_tx();
    assert_eq!(
        datastore.get_next_sequence_value_mut_tx(&mut tx, id),
        Err(DBError::Sequence(SequenceError::NotFound(id.0)))
    );
}

#[test]
fn the_name_of_an_index_is_taken_once() {
    let (mut datastore, t) = with_foo();
    let mut tx = datastore.begin_mut_tx();
    assert_eq!(
        datastore.create_index_mut_tx(&mut tx, age_index(t, "id_idx", false)),
        Err(DBError::Index(IndexError::Exist("id_idx".to_string())))
    );
    assert_eq!(listed_for(&datastore, &tx, t), vec![1, 3, 2, 1]);
    datastore.create_index_mut_tx(&mut tx, age_index(t, "age_idx", false)).unwrap();
    assert_eq!(
        datastore.create_index_mut_tx(&mut tx, age_index(t, "age_idx", false)),
        Err(DBError::Index(IndexError::Exist("age_idx".to_string())))
    );
}

#[test]
fn the_name_of_a_sequence_is_taken_once() {
    let (mut datastore, _) = with_foo();
    let mut tx = datastore.begin_mut_tx();
    assert_eq!(
        datastore.create_sequence_mut_tx(&mut tx, counter("Foo_id_seq")),
        Err(DBError::Sequence(SequenceError::Exist("Foo_id_seq".to_string())))
    );
    let id = datastore.create_sequence_mut_tx(&mut tx, counter("c")).unwrap();
    assert_eq!(
        datastore.create_sequence_mut_tx(&mut tx, counter("c")),
        Err(DBError::Sequence(SequenceError::Exist("c".to_string())))
    );
    assert_eq!(datastore.get_next_sequence_value_mut_tx(&mut tx, id), Ok(0));
}

#[test]
fn a_unique_index_of_equal_values_is_refused() {
    let (mut datastore, t) = with_foo();
    let mut tx = datastore.begin_mut_tx();
    datastore.insert_row_mut_tx(&mut tx, t, row(0, "Bar", 18)).unwrap();
    let refused = DBError::Index(IndexError::NotUnique {
        index_name: "age_idx".to_string(),
        table_id: t.0,
        col_id: 2,
    });
    // One of the rows is committed, the other is not.
    assert_eq!(datastore.create_index_mut_tx(&mut tx, age_index(t, "age_idx", true)), Err(refused));
    datastore.rollback_mut_tx(tx);
    let mut tx = datastore.begin_mut_tx();
    datastore.insert_row_mut_tx(&mut tx, t, row(0, "Bar", 19)).unwrap();
    datastore.create_index_mut_tx(&mut tx, age_index(t, "age_idx", true)).unwrap();
    assert!(datastore.insert_row_mut_tx(&mut tx, t, row(0, "Baz", 18)).is_err());
    assert!(datastore.insert_row_mut_tx(&mut tx, t, row(0, "Baz", 19)).is_err());
    datastore.insert_row_mut_tx(&mut tx, t, row(0, "Baz", 20)).unwrap();
    for age in [18, 19, 20] {
        let found = datastore.seek_mut_tx(&tx, t, ColId(2), &AlgebraicValue::U32(age)).unwrap().collect();
        assert_eq!(found.len(), 1);
    }
}

#[test]
fn a_renamed_table_keeps_its_rows() {
    let (mut datastore, t) = with_foo();
    let mut tx = datastore.begin_mut_tx();
    datastore.rename_table_mut_tx(&mut tx, t, "Bar").unwrap();
    assert_eq!(datastore.table_id_from_name_mut_tx(&tx, "Bar"), Ok(Some(t)));
    assert_eq!(datastore.table_id_from_name_mut_tx(&tx, "Foo"), Ok(None));
    assert_eq!(datastore.table_name_from_id_mut_tx(&tx, t), Ok(Some("Bar".to_string())));
    assert_eq!(datastore.table_name_from_id_mut_tx(&tx, TableId(ST_COLUMNS_ID)), Ok(Some("st_columns".to_string())));
    assert_eq!(scan(&datastore, &tx, t), vec![row(1, "Foo", 18)]);
    assert_eq!(
        datastore.rename_table_mut_tx(&mut tx, TableId(77), "Baz"),
        Err(DBError::Table(TableError::IdNotFound(77)))
    );
    datastore.commit_mut_tx(tx).unwrap();
    let tx = datastore.begin_mut_tx();
    let tables = scan(&datastore, &tx, TableId(ST_TABLES_ID));
    assert_eq!(tables.len(), 5);
    assert!(tables.contains(&StTableRow { table_id: 4, table_name: "Bar".to_string() }.to_row()));
}

#[test]
fn the_row_type_stays_past_commit_and_goes_with_rollback() {
    let element = |t: AlgebraicType| ProductTypeElement { name: None, algebraic_type: t };
    let expected = ProductType {
        elements: vec![
            element(AlgebraicType::U32),
            element(AlgebraicType::String),
            element(AlgebraicType::U32),
        ],
    };
    let mut datastore = Locking::bootstrap().unwrap();
    let mut tx = datastore.begin_mut_tx();
    let t = datastore.create_table_mut_tx(&mut tx, foo()).unwrap();
    datastore.rollback_mut_tx(tx);
    let mut tx = datastore.begin_mut_tx();
    assert_eq!(
        datastore.row_type_for_table_mut_tx(&tx, t),
        Err(DBError::Table(TableError::IdNotFound(t.0)))
    );
    let t = datastore.create_table_mut_tx(&mut tx, foo()).unwrap();
    datastore.commit_mut_tx(tx).unwrap();
    let tx = datastore.begin_mut_tx();
    assert_eq!(datastore.row_type_for_table_mut_tx(&tx, t), Ok(expected));
}

#[test]
fn numbers_are_not_taken_back() {
    let mut datastore = Locking::bootstrap().unwrap();
    let mut tx = datastore.begin_mut_tx();
    let id = datastore.create_sequence_mut_tx(&mut tx, counter("c")).unwrap();
    let other = datastore.create_sequence_mut_tx(&mut tx, counter("d")).unwrap();
    datastore.commit_mut_tx(tx).unwrap();
    let mut tx = datastore.begin_mut_tx();
    assert_eq!(datastore.get_next_sequence_value_mut_tx(&mut tx, id), Ok(0));
    assert_eq!(datastore.get_next_sequence_value_mut_tx(&mut tx, id), Ok(3));
    datastore.rollback_mut_tx(tx);
    let mut tx = datastore.begin_mut_tx();
    for n in 2..1500 {
        assert_eq!(datastore.get_next_sequence_value_mut_tx(&mut tx, id), Ok(3 * n));
    }
    // The other sequence counts for itself.
    assert_eq!(datastore.get_next_sequence_value_mut_tx(&mut tx, other), Ok(0));
    let rows = datastore
        .seek_mut_tx(&tx, TableId(ST_SEQUENCES_ID), ColId(0), &AlgebraicValue::U32(id.0))
        .unwrap()
        .collect();
    assert_eq!(rows.len(), 1);
    // What was allocated before the rollback is not used any more.
    assert_eq!(StSequenceRow::try_from(&rows[0]).unwrap().allocated, 6 + 2 * 1024 * 3);
}

#[test]
fn known_bytes_stay_known() {
    let (mut datastore, t) = with_foo();
    let mut tx = datastore.begin_mut_tx();
    let long = |n: u32| row(n, &format!("A name that takes more than a key can hold, {}", n), 1);
    let mut bytes = Vec::new();
    long(70).encode(&mut bytes);
    let key = long(70).to_data_key();
    datastore.insert_row_mut_tx(&mut tx, t, long(70)).unwrap();
    for n in 71..75 {
        datastore.insert_row_mut_tx(&mut tx, t, long(n)).unwrap();
        assert_eq!(datastore.resolve_data_key_mut_tx(&tx, &key), Ok(Some(Arc::new(bytes.clone()))));
    }
    assert_eq!(datastore.resolve_data_key_mut_tx(&tx, &long(75).to_data_key()), Ok(None));
    assert_eq!(datastore.resolve_data_key_mut_tx(&tx, &DataKey::Hash(vec![7; 32])), Ok(None));
}

fn measure(id: u32, bits: u64) -> ProductValue {
    ProductValue { elements: vec![AlgebraicValue::U32(id), AlgebraicValue::F64(bits)] }
}

#[test]
fn equal_floats_are_one_value() {
    let zero = 0.0f64.to_bits();
    let minus_zero = (-0.0f64).to_bits();
    let nan = f64::NAN.to_bits();
    let other_nan = nan | 1;
    assert_ne!(zero, minus_zero);
    assert_ne!(nan, other_nan);
    assert_eq!(AlgebraicValue::F64(zero), AlgebraicValue::F64(minus_zero));
    assert_eq!(AlgebraicValue::F64(nan), AlgebraicValue::F64(other_nan));
    assert_ne!(AlgebraicValue::F64(zero), AlgebraicValue::F64(nan));
    assert_eq!(AlgebraicValue::F64(zero).order(&AlgebraicValue::F64(minus_zero)), KeyOrder::Same);
    assert_eq!(AlgebraicValue::F64(nan).order(&AlgebraicValue::F64(other_nan)), KeyOrder::Same);
    assert_eq!(
        AlgebraicValue::F32((-1.5f32).to_bits()).order(&AlgebraicValue::F32(0.5f32.to_bits())),
        KeyOrder::Before
    );
    assert_eq!(AlgebraicValue::F32(0), AlgebraicValue::F32(0x8000_0000));
    assert_eq!(
        AlgebraicValue::Array(vec![AlgebraicValue::F32(0x7fc0_0000)]),
        AlgebraicValue::Array(vec![AlgebraicValue::F32(0xffc0_0001)])
    );

    let mut datastore = Locking::bootstrap().unwrap();
    let mut tx = datastore.begin_mut_tx();
    let def = TableDef {
        table_name: "measures".to_string(),
        columns: vec![
            ColumnDef { col_name: "id".to_string(), col_type: AlgebraicType::U32, is_autoinc: false },
            ColumnDef { col_name: "at".to_string(), col_type: AlgebraicType::F64, is_autoinc: false },
        ],
        indexes: vec![IndexDef { table_id: 0, col_id: 1, name: "at_idx".to_string(), is_unique: true }],
    };
    let t = datastore.create_table_mut_tx(&mut tx, def).unwrap();
    datastore.insert_row_mut_tx(&mut tx, t, measure(1, zero)).unwrap();
    datastore.insert_row_mut_tx(&mut tx, t, measure(2, nan)).unwrap();
    assert!(datastore.insert_row_mut_tx(&mut tx, t, measure(3, minus_zero)).is_err());
    assert!(datastore.insert_row_mut_tx(&mut tx, t, measure(3, other_nan)).is_err());
    let found = |bits: u64| datastore.seek_mut_tx(&tx, t, ColId(1), &AlgebraicValue::F64(bits)).unwrap().collect();
    assert_eq!(found(minus_zero), vec![measure(1, zero)]);
    assert_eq!(found(other_nan), vec![measure(2, nan)]);
    // A range that ends in the one zero holds the other.
    let range = ValueRange {
        start: RangeBound::Included(AlgebraicValue::F64(minus_zero)),
        end: RangeBound::Included(AlgebraicValue::F64(minus_zero)),
    };
    let rows = datastore.range_scan_mut_tx(&tx, t, ColId(1), range).unwrap().collect();
    assert_eq!(rows, vec![measure(1, zero)]);
    // The bytes of a float are its own.
    let mut bytes = Vec::new();
    AlgebraicValue::F64(minus_zero).encode(&mut bytes);
    assert_eq!(bytes, vec![0, 0, 0, 0, 0, 0, 0, 0x80]);
    assert_ne!(RowId(measure(1, zero).to_data_key()), RowId(measure(1, minus_zero).to_data_key()));
}

/// How far sequence `id` is allocated, as the catalogue has it.
fn listed_allocation(datastore: &Locking, tx: &MutTxId, id: SequenceId) -> Vec<i128> {
    datastore
        .seek_mut_tx(tx, TableId(ST_SEQUENCES_ID), ColId(0), &AlgebraicValue::U32(id.0))
        .unwrap()
        .collect()
        .iter()
        .map(|r| StSequenceRow::try_from(r).unwrap().allocated)
        .collect()
}

#[test]
fn a_sequence_made_and_rolled_back_is_not_in_use() {
    let mut datastore = Locking::bootstrap().unwrap();
    let mut tx = datastore.begin_mut_tx();
    let id = datastore.create_sequence_mut_tx(&mut tx, counter("c")).unwrap();
    assert_eq!(datastore.get_next_sequence_value_mut_tx(&mut tx, id), Ok(0));
    datastore.rollback_mut_tx(tx);
    let mut tx = datastore.begin_mut_tx();
    assert!(!tx.sequence_listed(id));
    assert_eq!(
        datastore.get_next_sequence_value_mut_tx(&mut tx, id),
        Err(DBError::Sequence(SequenceError::NotFound(id.0)))
    );
    let next = datastore.create_sequence_mut_tx(&mut tx, counter("c")).unwrap();
    assert_eq!(datastore.get_next_sequence_value_mut_tx(&mut tx, next), Ok(0));
}

#[test]
fn a_rolled_back_allocation_is_made_again() {
    let mut datastore = Locking::bootstrap().unwrap();
    let mut tx = datastore.begin_mut_tx();
    let id = datastore.create_sequence_mut_tx(&mut tx, counter("c")).unwrap();
    datastore.commit_mut_tx(tx).unwrap();
    let mut tx = datastore.begin_mut_tx();
    assert_eq!(listed_allocation(&datastore, &tx, id), vec![0]);
    assert_eq!(datastore.get_next_sequence_value_mut_tx(&mut tx, id), Ok(0));
    assert_eq!(listed_allocation(&datastore, &tx, id), vec![3072]);
    datastore.rollback_mut_tx(tx);
    let mut tx = datastore.begin_mut_tx();
    assert_eq!(listed_allocation(&datastore, &tx, id), vec![0]);
    assert_eq!(datastore.get_next_sequence_value_mut_tx(&mut tx, id), Ok(3));
    assert_eq!(listed_allocation(&datastore, &tx, id), vec![3 + 3072]);
    datastore.commit_mut_tx(tx).unwrap();
    let mut tx = datastore.begin_mut_tx();
    assert_eq!(datastore.get_next_sequence_value_mut_tx(&mut tx, id), Ok(6));
    assert_eq!(listed_allocation(&datastore, &tx, id), vec![3 + 3072]);
}

#[test]
fn an_index_made_on_a_committed_table_is_in_its_schema() {
    let (mut datastore, t) = with_foo();
    let mut tx = datastore.begin_mut_tx();
    let id = datastore.create_index_mut_tx(&mut tx, age_index(t, "age_idx", true)).unwrap();
    datastore.commit_mut_tx(tx).unwrap();
    let mut tx = datastore.begin_mut_tx();
    let schema = datastore.schema_for_table_mut_tx(&tx, t).unwrap();
    assert_eq!(schema.indexes.len(), 3);
    assert_eq!(schema.indexes[2].index_id, id.0);
    assert_eq!(schema.indexes[2].index_name, "age_idx");
    assert_eq!(schema.indexes[2].col_id, 2);
    assert_eq!(listed_for(&datastore, &tx, t), vec![1, 3, 3, 1]);
    datastore.drop_index_mut_tx(&mut tx, id).unwrap();
    assert_eq!(datastore.schema_for_table_mut_tx(&tx, t).unwrap().indexes.len(), 2);
    datastore.rollback_mut_tx(tx);
    let tx = datastore.begin_mut_tx();
    assert_eq!(datastore.schema_for_table_mut_tx(&tx, t).unwrap().indexes.len(), 3);
}

#[test]
fn a_column_is_indexed_once() {
    let (mut datastore, t) = with_foo();
    let mut tx = datastore.begin_mut_tx();
    let def = IndexDef { table_id: t.0, col_id: 1, name: "other_idx".to_string(), is_unique: false };
    assert_eq!(
        datastore.create_index_mut_tx(&mut tx, def),
        Err(DBError::Index(IndexError::ColumnIndexed { table_id: t.0, col_id: 1 }))
    );
    datastore.rollback_mut_tx(tx);
    // Once the index is gone, the column can have another.
    let mut tx = datastore.begin_mut_tx();
    let index_id = datastore.index_id_from_name_mut_tx(&tx, "name_idx").unwrap().unwrap();
    datastore.drop_index_mut_tx(&mut tx, index_id).unwrap();
    let def = IndexDef { table_id: t.0, col_id: 1, name: "other_idx".to_string(), is_unique: true };
    datastore.create_index_mut_tx(&mut tx, def).unwrap();
    assert!(datastore.insert_row_mut_tx(&mut tx, t, row(0, "Foo", 19)).is_err());
    datastore.commit_mut_tx(tx).unwrap();
    let mut tx = datastore.begin_mut_tx();
    assert_eq!(
        datastore.insert_row_mut_tx(&mut tx, t, row(0, "Foo", 19)),
        Err(DBError::Index(IndexError::UniqueConstraintViolation {
            constraint_name: "other_idx".to_string(),
            table_name: "Foo".to_string(),
            col_name: "name".to_string(),
            value: AlgebraicValue::String("Foo".to_string()),
        }))
    );
}

#[test]
fn a_created_index_refuses() {
    let (mut datastore, t) = with_foo();
    let refused = |age: u32| {
        Err(DBError::Index(IndexError::UniqueConstraintViolation {
            constraint_name: "age_idx".to_string(),
            table_name: "Foo".to_string(),
            col_name: "age".to_string(),
            value: AlgebraicValue::U32(age),
        }))
    };
    let mut tx = datastore.begin_mut_tx();
    datastore.create_index_mut_tx(&mut tx, age_index(t, "age_idx", true)).unwrap();
    // A row that was there, and one that came later.
    assert_eq!(datastore.insert_row_mut_tx(&mut tx, t, row(7, "Bar", 18)), refused(18));
    datastore.insert_row_mut_tx(&mut tx, t, row(7, "Bar", 20)).unwrap();
    assert_eq!(datastore.insert_row_mut_tx(&mut tx, t, row(8, "Baz", 20)), refused(20));
    // The indexes that the table had refuse as well, the new rows and the old.
    assert!(datastore.insert_row_mut_tx(&mut tx, t, row(8, "Foo", 21)).is_err());
    assert!(datastore.insert_row_mut_tx(&mut tx, t, row(8, "Bar", 21)).is_err());
    assert!(datastore.insert_row_mut_tx(&mut tx, t, row(7, "Baz", 21)).is_err());
    datastore.commit_mut_tx(tx).unwrap();
    let mut tx = datastore.begin_mut_tx();
    assert_eq!(datastore.insert_row_mut_tx(&mut tx, t, row(8, "Baz", 20)), refused(20));
    assert_eq!(datastore.insert_row_mut_tx(&mut tx, t, row(8, "Baz", 18)), refused(18));
    datastore.insert_row_mut_tx(&mut tx, t, row(8, "Baz", 21)).unwrap();
}

#[test]
fn an_index_of_a_new_table_is_dropped_with_it_in_use() {
    let mut datastore = Locking::bootstrap().unwrap();
    let mut tx = datastore.begin_mut_tx();
    let t = datastore.create_table_mut_tx(&mut tx, foo()).unwrap();
    datastore.insert_row_mut_tx(&mut tx, t, row(0, "Foo", 18)).unwrap();
    assert!(datastore.insert_row_mut_tx(&mut tx, t, row(0, "Foo", 19)).is_err());
    let index_id = datastore.index_id_from_name_mut_tx(&tx, "name_idx").unwrap().unwrap();
    datastore.drop_index_mut_tx(&mut tx, index_id).unwrap();
    datastore.insert_row_mut_tx(&mut tx, t, row(0, "Foo", 19)).unwrap();
    assert_eq!(datastore.schema_for_table_mut_tx(&tx, t).unwrap().indexes.len(), 1);
    datastore.commit_mut_tx(tx).unwrap();
    let mut tx = datastore.begin_mut_tx();
    datastore.insert_row_mut_tx(&mut tx, t, row(0, "Foo", 20)).unwrap();
    assert_eq!(scan(&datastore, &tx, t).len(), 3);
}

#[test]
fn the_first_table_is_renamed() {
    let mut datastore = Locking::bootstrap().unwrap();
    let mut tx = datastore.begin_mut_tx();
    let first = TableId(ST_TABLES_ID);
    datastore.rename_table_mut_tx(&mut tx, first, "tables").unwrap();
    assert_eq!(datastore.table_id_from_name_mut_tx(&tx, "tables"), Ok(Some(first)));
    assert_eq!(datastore.table_id_from_name_mut_tx(&tx, "st_table"), Ok(None));
    assert_eq!(datastore.table_name_from_id_mut_tx(&tx, first), Ok(Some("tables".to_string())));
    assert_eq!(datastore.create_table_mut_tx(&mut tx, foo()), Ok(TableId(4)));
}

#[test]
fn the_first_sequence_is_allocated_more() {
    let mut datastore = Locking::bootstrap().unwrap();
    let mut tx = datastore.begin_mut_tx();
    let first = SequenceId(TABLE_ID_SEQUENCE_ID);
    assert_eq!(listed_allocation(&datastore, &tx, first), vec![4096]);
    for n in 4..4100 {
        assert_eq!(datastore.get_next_sequence_value_mut_tx(&mut tx, first), Ok(n));
    }
    assert_eq!(listed_allocation(&datastore, &tx, first), vec![4096 + 1024]);
    assert_eq!(datastore.create_table_mut_tx(&mut tx, foo()), Ok(TableId(4100)));
}

#[test]
fn a_created_table_is_listed_as_it_was_defined() {
    let mut datastore = Locking::bootstrap().unwrap();
    let mut tx = datastore.begin_mut_tx();
    let t = datastore.create_table_mut_tx(&mut tx, foo()).unwrap();
    let check = |datastore: &Locking, tx: &MutTxId| {
        assert_eq!(datastore.table_id_from_name_mut_tx(tx, "Foo"), Ok(Some(t)));
        assert_eq!(datastore.table_name_from_id_mut_tx(tx, t), Ok(Some("Foo".to_string())));
        let schema = datastore.schema_for_table_mut_tx(tx, t).unwrap();
        assert_eq!((schema.table_id, schema.table_name.as_str()), (t.0, "Foo"));
        let columns: Vec<_> =
            schema.columns.iter().map(|c| (c.table_id, c.col_id, c.col_name.as_str(), c.is_autoinc)).collect();
        assert_eq!(columns, vec![(t.0, 0, "id", true), (t.0, 1, "name", false), (t.0, 2, "age", false)]);
        let indexes: Vec<_> =
            schema.indexes.iter().map(|x| (x.table_id, x.col_id, x.index_name.as_str(), x.is_unique)).collect();
        assert_eq!(indexes, vec![(t.0, 0, "id_idx", true), (t.0, 1, "name_idx", true)]);
    };
    check(&datastore, &tx);
    datastore.commit_mut_tx(tx).unwrap();
    let tx = datastore.begin_mut_tx();
    check(&datastore, &tx);
}

#[test]
fn a_zero_that_is_not_filled_is_refused_twice() {
    let (mut datastore, t) = with_foo();
    let mut tx = datastore.begin_mut_tx();
    datastore.create_index_mut_tx(&mut tx, age_index(t, "age_idx", true)).unwrap();
    datastore.insert_row_mut_tx(&mut tx, t, row(0, "Bar", 0)).unwrap();
    assert_eq!(
        datastore.insert_row_mut_tx(&mut tx, t, row(0, "Baz", 0)),
        Err(DBError::Index(IndexError::UniqueConstraintViolation {
            constraint_name: "age_idx".to_string(),
            table_name: "Foo".to_string(),
            col_name: "age".to_string(),
            value: AlgebraicValue::U32(0),
        }))
    );
    assert_eq!(scan(&datastore, &tx, t).len(), 2);
}

#[test]
fn a_deleted_row_can_be_put_back_in_another_form() {
    let (mut datastore, t) = with_foo();
    let mut tx = datastore.begin_mut_tx();
    let old = row(1, "Foo", 18);
    assert_eq!(datastore.delete_row_mut_tx(&mut tx, t, RowId(old.to_data_key())), Ok(true));
    datastore.insert_row_mut_tx(&mut tx, t, row(1, "Foo", 19)).unwrap();
    assert!(datastore.insert_row_mut_tx(&mut tx, t, row(1, "Bar", 19)).is_err());
    datastore.commit_mut_tx(tx).unwrap();
    let tx = datastore.begin_mut_tx();
    assert_eq!(scan(&datastore, &tx, t), vec![row(1, "Foo", 19)]);
}

#[test]
fn an_id_that_a_table_has_is_refused() {
    let mut datastore = Locking::bootstrap().unwrap();
    let mut tx = datastore.begin_mut_tx();
    // Neither an index keeps the ids of tables apart, nor a sequence.
    datastore.drop_index_mut_tx(&mut tx, IndexId(0)).unwrap();
    datastore.drop_sequence_mut_tx(&mut tx, SequenceId(TABLE_ID_SEQUENCE_ID)).unwrap();
    let ids = SequenceDef {
        sequence_name: "ids".to_string(),
        table_id: ST_TABLES_ID,
        col_id: 0,
        increment: 1,
        start: Some(3),
        min_value: Some(1),
        max_value: Some(1_000),
    };
    datastore.create_sequence_mut_tx(&mut tx, ids).unwrap();
    let rows = scan(&datastore, &tx, TableId(3)).len();
    assert_eq!(
        datastore.create_table_mut_tx(&mut tx, foo()),
        Err(DBError::Table(TableError::IdTaken(3)))
    );
    assert_eq!(scan(&datastore, &tx, TableId(3)).len(), rows);
}
