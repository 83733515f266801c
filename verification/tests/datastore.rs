use tx_datastore::error::{DBError, IndexError};
use tx_datastore::ids::{ColId, TableId, ST_COLUMNS_ID, ST_INDEXES_ID, ST_SEQUENCES_ID, ST_TABLES_ID};
use tx_datastore::locking::Locking;
use tx_datastore::schema::{ColumnDef, ColumnSchema, IndexDef, IndexSchema, TableDef, TableSchema};
use tx_datastore::system_tables::{StColumnRow, StIndexRow, StSequenceRow, StTableRow};
use tx_datastore::types::AlgebraicType;
use tx_datastore::value::{AlgebraicValue, ProductValue};

fn get_datastore() -> Result<Locking, DBError> {
    Locking::bootstrap()
}

fn row_of(elements: Vec<AlgebraicValue>) -> ProductValue {
    ProductValue { elements }
}

fn basic_table_schema() -> TableDef {
    TableDef {
        table_name: "Foo".to_string(),
        columns: vec![
            ColumnDef { col_name: "id".to_string(), col_type: AlgebraicType::U32, is_autoinc: true },
            ColumnDef { col_name: "name".to_string(), col_type: AlgebraicType::String, is_autoinc: false },
            ColumnDef { col_name: "age".to_string(), col_type: AlgebraicType::U32, is_autoinc: false },
        ],
        indexes: vec![
            // The table id is ignored.
            IndexDef { table_id: 0, col_id: 0, name: "id_idx".to_string(), is_unique: true },
            IndexDef { table_id: 0, col_id: 1, name: "name_idx".to_string(), is_unique: true },
        ],
    }
}

#[test]
fn test_bootstrapping_sets_up_tables() -> Result<(), DBError> {
    let mut datastore = get_datastore()?;
    let tx = datastore.begin_mut_tx();
    let mut table_rows = datastore
        .scan_mut_tx(&tx, TableId(ST_TABLES_ID))?
        .collect()
        .iter()
        .map(|x| StTableRow::try_from(x).unwrap())
        .collect::<Vec<_>>();
    table_rows.sort_by_key(|x| x.table_id);
    assert_eq!(
        table_rows,
        vec![
            StTableRow { table_id: 0, table_name: "st_table".to_string() },
            StTableRow { table_id: 1, table_name: "st_columns".to_string() },
            StTableRow { table_id: 2, table_name: "st_sequence".to_string() },
            StTableRow { table_id: 3, table_name: "st_indexes".to_string() },
        ]
    );
    let mut column_rows = datastore
        .scan_mut_tx(&tx, TableId(ST_COLUMNS_ID))?
        .collect()
        .iter()
        .map(|x| StColumnRow::try_from(x).unwrap())
        .collect::<Vec<_>>();
    column_rows.sort_by_key(|x| (x.table_id, x.col_id));
    assert_eq!(
        column_rows,
        vec![
            StColumnRow { table_id: 0, col_id: 0, col_name: "table_id".to_string(), col_type: AlgebraicType::U32, is_autoinc: true },
            StColumnRow { table_id: 0, col_id: 1, col_name: "table_name".to_string(), col_type: AlgebraicType::String, is_autoinc: false },
            StColumnRow { table_id: 0, col_id: 2, col_name: "is_system_table".to_string(), col_type: AlgebraicType::Bool, is_autoinc: false },

            StColumnRow { table_id: 1, col_id: 0, col_name: "table_id".to_string(), col_type: AlgebraicType::U32, is_autoinc: false },
            StColumnRow { table_id: 1, col_id: 1, col_name: "col_id".to_string(), col_type: AlgebraicType::U32, is_autoinc: false },
            StColumnRow { table_id: 1, col_id: 2, col_name: "col_type".to_string(), col_type: AlgebraicType::make_array_type(AlgebraicType::U8), is_autoinc: false },
            StColumnRow { table_id: 1, col_id: 3, col_name: "col_name".to_string(), col_type: AlgebraicType::String, is_autoinc: false },
            StColumnRow { table_id: 1, col_id: 4, col_name: "is_autoinc".to_string(), col_type: AlgebraicType::Bool, is_autoinc: false },

            StColumnRow { table_id: 2, col_id: 0, col_name: "sequence_id".to_string(), col_type: AlgebraicType::U32, is_autoinc: true },
            StColumnRow { table_id: 2, col_id: 1, col_name: "sequence_name".to_string(), col_type: AlgebraicType::String, is_autoinc: false },
            StColumnRow { table_id: 2, col_id: 2, col_name: "table_id".to_string(), col_type: AlgebraicType::U32, is_autoinc: false },
            StColumnRow { table_id: 2, col_id: 3, col_name: "col_id".to_string(), col_type: AlgebraicType::U32, is_autoinc: false },
            StColumnRow { table_id: 2, col_id: 4, col_name: "increment".to_string(), col_type: AlgebraicType::I128, is_autoinc: false },
            StColumnRow { table_id: 2, col_id: 5, col_name: "start".to_string(), col_type: AlgebraicType::I128, is_autoinc: false },
            StColumnRow { table_id: 2, col_id: 6, col_name: "min_value".to_string(), col_type: AlgebraicType::I128, is_autoinc: false },
            StColumnRow { table_id: 2, col_id: 7, col_name: "max_malue".to_string(), col_type: AlgebraicType::I128, is_autoinc: false },
            StColumnRow { table_id: 2, col_id: 8, col_name: "allocated".to_string(), col_type: AlgebraicType::I128, is_autoinc: false },

            StColumnRow { table_id: 3, col_id: 0, col_name: "index_id".to_string(), col_type: AlgebraicType::U32, is_autoinc: true },
            StColumnRow { table_id: 3, col_id: 1, col_name: "table_id".to_string(), col_type: AlgebraicType::U32, is_autoinc: false },
            StColumnRow { table_id: 3, col_id: 2, col_name: "col_id".to_string(), col_type: AlgebraicType::U32, is_autoinc: false },
            StColumnRow { table_id: 3, col_id: 3, col_name: "index_name".to_string(), col_type: AlgebraicType::String, is_autoinc: false },
            StColumnRow { table_id: 3, col_id: 4, col_name: "is_unique".to_string(), col_type: AlgebraicType::Bool, is_autoinc: false },
        ]
    );
    let mut index_rows = datastore
        .scan_mut_tx(&tx, TableId(ST_INDEXES_ID))?
        .collect()
        .iter()
        .map(|x| StIndexRow::try_from(x).unwrap())
        .collect::<Vec<_>>();
    index_rows.sort_by_key(|x| x.index_id);
    assert_eq!(
        index_rows,
        vec![
            StIndexRow { index_id: 0, table_id: 0, col_id: 0, index_name: "table_id_idx".to_string(), is_unique: true },
            StIndexRow { index_id: 1, table_id: 3, col_id: 0, index_name: "index_id_idx".to_string(), is_unique: true },
            StIndexRow { index_id: 2, table_id: 2, col_id: 0, index_name: "sequences_id_idx".to_string(), is_unique: true },
            StIndexRow { index_id: 3, table_id: 0, col_id: 1, index_name: "table_name_idx".to_string(), is_unique: true },
        ]
    );
    let mut sequence_rows = datastore
        .scan_mut_tx(&tx, TableId(ST_SEQUENCES_ID))?
        .collect()
        .iter()
        .map(|x| StSequenceRow::try_from(x).unwrap())
        .collect::<Vec<_>>();
    sequence_rows.sort_by_key(|x| x.sequence_id);
    assert_eq!(
        sequence_rows,
        vec![
            StSequenceRow { sequence_id: 0, sequence_name: "table_id_seq".to_string(), table_id: 0, col_id: 0, increment: 1, start: 4, min_value: 1, max_value: 4294967295, allocated: 4096 },
            StSequenceRow { sequence_id: 1, sequence_name: "sequence_id_seq".to_string(), table_id: 2, col_id: 0, increment: 1, start: 3, min_value: 1, max_value: 4294967295, allocated: 4096 },
            StSequenceRow { sequence_id: 2, sequence_name: "index_id_seq".to_string(), table_id: 3, col_id: 0, increment: 1, start: 4, min_value: 1, max_value: 4294967295, allocated: 4096 },
        ]
    );
    datastore.rollback_mut_tx(tx);
    Ok(())
}

#[test]
fn test_create_table_pre_commit() -> Result<(), DBError> {
    let mut datastore = get_datastore()?;
    let mut tx = datastore.begin_mut_tx();
    let schema = basic_table_schema();
    let table_id = datastore.create_table_mut_tx(&mut tx, schema)?;
    let mut table_rows = datastore
        .seek_mut_tx(&tx, TableId(ST_TABLES_ID), ColId(0), &AlgebraicValue::U32(table_id.0))?
        .collect()
        .iter()
        .map(|x| StTableRow::try_from(x).unwrap())
        .collect::<Vec<_>>();
    table_rows.sort_by_key(|x| x.table_id);
    assert_eq!(
        table_rows,
        vec![
            StTableRow { table_id: 4, table_name: "Foo".to_string() }
        ]
    );
    let mut column_rows = datastore
        .seek_mut_tx(&tx, TableId(ST_COLUMNS_ID), ColId(0), &AlgebraicValue::U32(table_id.0))?
        .collect()
        .iter()
        .map(|x| StColumnRow::try_from(x).unwrap())
        .collect::<Vec<_>>();
    column_rows.sort_by_key(|x| (x.table_id, x.col_id));
    assert_eq!(
        column_rows,
        vec![
            StColumnRow { table_id: 4, col_id: 0, col_name: "id".to_string(), col_type: AlgebraicType::U32, is_autoinc: true },
            StColumnRow { table_id: 4, col_id: 1, col_name: "name".to_string(), col_type: AlgebraicType::String, is_autoinc: false },
            StColumnRow { table_id: 4, col_id: 2, col_name: "age".to_string(), col_type: AlgebraicType::U32, is_autoinc: false },
        ]
    );
    Ok(())
}

#[test]
fn test_create_table_post_commit() -> Result<(), DBError> {
    let mut datastore = get_datastore()?;
    let mut tx = datastore.begin_mut_tx();
    let schema = basic_table_schema();
    let table_id = datastore.create_table_mut_tx(&mut tx, schema)?;
    datastore.commit_mut_tx(tx)?;
    let tx = datastore.begin_mut_tx();
    let mut table_rows = datastore
        .seek_mut_tx(&tx, TableId(ST_TABLES_ID), ColId(0), &AlgebraicValue::U32(table_id.0))?
        .collect()
        .iter()
        .map(|x| StTableRow::try_from(x).unwrap())
        .collect::<Vec<_>>();
    table_rows.sort_by_key(|x| x.table_id);
    assert_eq!(
        table_rows,
        vec![
            StTableRow { table_id: 4, table_name: "Foo".to_string() }
        ]
    );
    let mut column_rows = datastore
        .seek_mut_tx(&tx, TableId(ST_COLUMNS_ID), ColId(0), &AlgebraicValue::U32(table_id.0))?
        .collect()
        .iter()
        .map(|x| StColumnRow::try_from(x).unwrap())
        .collect::<Vec<_>>();
    column_rows.sort_by_key(|x| (x.table_id, x.col_id));
    assert_eq!(
        column_rows,
        vec![
            StColumnRow { table_id: 4, col_id: 0, col_name: "id".to_string(), col_type: AlgebraicType::U32, is_autoinc: true },
            StColumnRow { table_id: 4, col_id: 1, col_name: "name".to_string(), col_type: AlgebraicType::String, is_autoinc: false },
            StColumnRow { table_id: 4, col_id: 2, col_name: "age".to_string(), col_type: AlgebraicType::U32, is_autoinc: false },
        ]
    );
    Ok(())
}

#[test]
fn test_create_table_post_rollback() -> Result<(), DBError> {
    let mut datastore = get_datastore()?;
    let mut tx = datastore.begin_mut_tx();
    let schema = basic_table_schema();
    let table_id = datastore.create_table_mut_tx(&mut tx, schema)?;
    datastore.rollback_mut_tx(tx);
    let tx = datastore.begin_mut_tx();
    let mut table_rows = datastore
        .seek_mut_tx(&tx, TableId(ST_TABLES_ID), ColId(0), &AlgebraicValue::U32(table_id.0))?
        .collect()
        .iter()
        .map(|x| StTableRow::try_from(x).unwrap())
        .collect::<Vec<_>>();
    table_rows.sort_by_key(|x| x.table_id);
    assert_eq!(table_rows, Vec::<StTableRow>::new());
    let mut column_rows = datastore
        .seek_mut_tx(&tx, TableId(ST_COLUMNS_ID), ColId(0), &AlgebraicValue::U32(table_id.0))?
        .collect()
        .iter()
        .map(|x| StColumnRow::try_from(x).unwrap())
        .collect::<Vec<_>>();
    column_rows.sort_by_key(|x| x.table_id);
    assert_eq!(column_rows, Vec::<StColumnRow>::new());
    Ok(())
}

#[test]
fn test_schema_for_table_pre_commit() -> Result<(), DBError> {
    let mut datastore = get_datastore()?;
    let mut tx = datastore.begin_mut_tx();
    let schema = basic_table_schema();
    let table_id = datastore.create_table_mut_tx(&mut tx, schema)?;
    let schema = datastore.schema_for_table_mut_tx(&tx, table_id)?;
    assert_eq!(schema, TableSchema {
        table_id: table_id.0,
        table_name: "Foo".into(),
        columns: vec![
            ColumnSchema { table_id: 4, col_id: 0, col_name: "id".to_string(), col_type: AlgebraicType::U32, is_autoinc: true },
            ColumnSchema { table_id: 4, col_id: 1, col_name: "name".to_string(), col_type: AlgebraicType::String, is_autoinc: false },
            ColumnSchema { table_id: 4, col_id: 2, col_name: "age".to_string(), col_type: AlgebraicType::U32, is_autoinc: false },
        ],
        indexes: vec![
            IndexSchema { index_id: 4, table_id: 4, col_id: 0, index_name: "id_idx".to_string(), is_unique: true },
            IndexSchema { index_id: 5, table_id: 4, col_id: 1, index_name: "name_idx".to_string(), is_unique: true },
        ],
    });
    Ok(())
}

#[test]
fn test_schema_for_table_post_commit() -> Result<(), DBError> {
    let mut datastore = get_datastore()?;
    let mut tx = datastore.begin_mut_tx();
    let schema = basic_table_schema();
    let table_id = datastore.create_table_mut_tx(&mut tx, schema)?;
    datastore.commit_mut_tx(tx)?;
    let tx = datastore.begin_mut_tx();
    let schema = datastore.schema_for_table_mut_tx(&tx, table_id)?;
    assert_eq!(schema, TableSchema {
        table_id: table_id.0,
        table_name: "Foo".into(),
        columns: vec![
            ColumnSchema { table_id: 4, col_id: 0, col_name: "id".to_string(), col_type: AlgebraicType::U32, is_autoinc: true },
            ColumnSchema { table_id: 4, col_id: 1, col_name: "name".to_string(), col_type: AlgebraicType::String, is_autoinc: false },
            ColumnSchema { table_id: 4, col_id: 2, col_name: "age".to_string(), col_type: AlgebraicType::U32, is_autoinc: false },
        ],
        indexes: vec![
            IndexSchema { index_id: 4, table_id: 4, col_id: 0, index_name: "id_idx".to_string(), is_unique: true },
            IndexSchema { index_id: 5, table_id: 4, col_id: 1, index_name: "name_idx".to_string(), is_unique: true },
        ],
    });
    Ok(())
}

#[test]
fn test_schema_for_table_rollback() -> Result<(), DBError> {
    let mut datastore = get_datastore()?;
    let mut tx = datastore.begin_mut_tx();
    let schema = basic_table_schema();
    let table_id = datastore.create_table_mut_tx(&mut tx, schema)?;
    datastore.rollback_mut_tx(tx);
    let tx = datastore.begin_mut_tx();
    let schema = datastore.schema_for_table_mut_tx(&tx, table_id);
    assert!(schema.is_err());
    Ok(())
}

#[test]
fn test_insert_pre_commit() -> Result<(), DBError> {
    let mut datastore = get_datastore()?;
    let mut tx = datastore.begin_mut_tx();
    let schema = basic_table_schema();
    let table_id = datastore.create_table_mut_tx(&mut tx, schema)?;
    let row = row_of(vec![
        AlgebraicValue::U32(0), // 0 will be ignored.
        AlgebraicValue::String("Foo".to_string()),
        AlgebraicValue::U32(18),
    ]);
    datastore.insert_row_mut_tx(&mut tx, table_id, row)?;
    let rows = datastore
        .scan_mut_tx(&tx, table_id)?
        .collect();
    assert_eq!(rows, vec![
        row_of(vec![
            AlgebraicValue::U32(1),
            AlgebraicValue::String("Foo".to_string()),
            AlgebraicValue::U32(18),
        ])
    ]);
    Ok(())
}

#[test]
fn test_insert_wrong_schema_pre_commit() -> Result<(), DBError> {
    let mut datastore = get_datastore()?;
    let mut tx = datastore.begin_mut_tx();
    let schema = basic_table_schema();
    let table_id = datastore.create_table_mut_tx(&mut tx, schema)?;
    let row = row_of(vec![
        AlgebraicValue::U32(0), // 0 will be ignored.
        AlgebraicValue::String("Foo".to_string()),
    ]);
    assert!(datastore.insert_row_mut_tx(&mut tx, table_id, row).is_err());
    let rows = datastore
        .scan_mut_tx(&tx, table_id)?
        .collect();
    assert_eq!(rows, Vec::<ProductValue>::new());
    Ok(())
}

#[test]
fn test_insert_post_commit() -> Result<(), DBError> {
    let mut datastore = get_datastore()?;
    let mut tx = datastore.begin_mut_tx();
    let schema = basic_table_schema();
    let table_id = datastore.create_table_mut_tx(&mut tx, schema)?;
    let row = row_of(vec![
        AlgebraicValue::U32(0), // 0 will be ignored.
        AlgebraicValue::String("Foo".to_string()),
        AlgebraicValue::U32(18),
    ]);
    datastore.insert_row_mut_tx(&mut tx, table_id, row)?;
    datastore.commit_mut_tx(tx)?;
    let tx = datastore.begin_mut_tx();
    let rows = datastore
        .scan_mut_tx(&tx, table_id)?
        .collect();
    assert_eq!(rows, vec![
        row_of(vec![
            AlgebraicValue::U32(1),
            AlgebraicValue::String("Foo".to_string()),
            AlgebraicValue::U32(18),
        ])
    ]);
    Ok(())
}

#[test]
fn test_insert_post_rollback() -> Result<(), DBError> {
    let mut datastore = get_datastore()?;
    let mut tx = datastore.begin_mut_tx();
    let schema = basic_table_schema();
    let table_id = datastore.create_table_mut_tx(&mut tx, schema)?;
    let row = row_of(vec![
        AlgebraicValue::U32(15), // A number which will be ignored.
        AlgebraicValue::String("Foo".to_string()),
        AlgebraicValue::U32(18),
    ]);
    datastore.commit_mut_tx(tx)?;
    let mut tx = datastore.begin_mut_tx();
    datastore.insert_row_mut_tx(&mut tx, table_id, row)?;
    datastore.rollback_mut_tx(tx);
    let tx = datastore.begin_mut_tx();
    let rows = datastore
        .scan_mut_tx(&tx, table_id)?
        .collect();
    assert_eq!(rows, Vec::<ProductValue>::new());
    Ok(())
}

#[test]
fn test_insert_commit_delete_insert() -> Result<(), DBError> {
    let mut datastore = get_datastore()?;
    let mut tx = datastore.begin_mut_tx();
    let schema = basic_table_schema();
    let table_id = datastore.create_table_mut_tx(&mut tx, schema)?;
    let row = row_of(vec![
        AlgebraicValue::U32(0), // 0 will be ignored.
        AlgebraicValue::String("Foo".to_string()),
        AlgebraicValue::U32(18),
    ]);
    datastore.insert_row_mut_tx(&mut tx, table_id, row)?;
    datastore.commit_mut_tx(tx)?;
    let mut tx = datastore.begin_mut_tx();
    let created_row = row_of(vec![
        AlgebraicValue::U32(1),
        AlgebraicValue::String("Foo".to_string()),
        AlgebraicValue::U32(18),
    ]);
    let num_deleted = datastore.delete_rows_in_mut_tx(&mut tx, table_id, vec![created_row])?;
    assert_eq!(num_deleted, Some(1));
    let rows = datastore
        .scan_mut_tx(&tx, table_id)?
        .collect();
    assert_eq!(rows.len(), 0);
    let created_row = row_of(vec![
        AlgebraicValue::U32(1),
        AlgebraicValue::String("Foo".to_string()),
        AlgebraicValue::U32(19),
    ]);
    datastore.insert_row_mut_tx(&mut tx, table_id, created_row)?;
    let rows = datastore
        .scan_mut_tx(&tx, table_id)?
        .collect();
    assert_eq!(rows, vec![
        row_of(vec![
            AlgebraicValue::U32(1),
            AlgebraicValue::String("Foo".to_string()),
            AlgebraicValue::U32(19),
        ])
    ]);
    Ok(())
}

#[test]
fn test_insert_delete_insert_delete_insert() -> Result<(), DBError> {
    let mut datastore = get_datastore()?;
    let mut tx = datastore.begin_mut_tx();
    let schema = basic_table_schema();
    let table_id = datastore.create_table_mut_tx(&mut tx, schema)?;
    let row = row_of(vec![
        AlgebraicValue::U32(0), // 0 will be ignored.
        AlgebraicValue::String("Foo".to_string()),
        AlgebraicValue::U32(18),
    ]);
    datastore.insert_row_mut_tx(&mut tx, table_id, row)?;
    for _ in 0..2 {
        let created_row = row_of(vec![
            AlgebraicValue::U32(1),
            AlgebraicValue::String("Foo".to_string()),
            AlgebraicValue::U32(18),
        ]);
        let num_deleted = datastore.delete_rows_in_mut_tx(&mut tx, table_id, vec![created_row.clone()])?;
        assert_eq!(num_deleted, Some(1));
        let rows = datastore
            .scan_mut_tx(&tx, table_id)?
            .collect();
        assert_eq!(rows.len(), 0);
        datastore.insert_row_mut_tx(&mut tx, table_id, created_row)?;
        let rows = datastore
            .scan_mut_tx(&tx, table_id)?
            .collect();
            assert_eq!(rows, vec![
            row_of(vec![
                AlgebraicValue::U32(1),
                AlgebraicValue::String("Foo".to_string()),
                AlgebraicValue::U32(18),
            ])
        ]);
    }
    Ok(())
}

#[test]
fn test_unique_constraint_pre_commit() -> Result<(), DBError> {
    let mut datastore = get_datastore()?;
    let mut tx = datastore.begin_mut_tx();
    let schema = basic_table_schema();
    let table_id = datastore.create_table_mut_tx(&mut tx, schema)?;
    let row = row_of(vec![
        AlgebraicValue::U32(0), // 0 will be ignored.
        AlgebraicValue::String("Foo".to_string()),
        AlgebraicValue::U32(18),
    ]);
    datastore.insert_row_mut_tx(&mut tx, table_id, row.clone())?;
    let result = datastore.insert_row_mut_tx(&mut tx, table_id, row);
    match result {
        Err(DBError::Index(IndexError::UniqueConstraintViolation {
            constraint_name: _,
            table_name: _,
            col_name: _,
            value: _,
        })) => (),
        _ => panic!("Expected an unique constraint violation error."),
    }
    let rows = datastore
        .scan_mut_tx(&tx, table_id)?
        .collect();
    assert_eq!(rows, vec![
        row_of(vec![
            AlgebraicValue::U32(1),
            AlgebraicValue::String("Foo".to_string()),
            AlgebraicValue::U32(18),
        ])
    ]);
    Ok(())
}

#[test]
fn test_unique_constraint_post_commit() -> Result<(), DBError> {
    let mut datastore = get_datastore()?;
    let mut tx = datastore.begin_mut_tx();
    let schema = basic_table_schema();
    let table_id = datastore.create_table_mut_tx(&mut tx, schema)?;
    let row = row_of(vec![
        AlgebraicValue::U32(0), // 0 will be ignored.
        AlgebraicValue::String("Foo".to_string()),
        AlgebraicValue::U32(18),
    ]);
    datastore.insert_row_mut_tx(&mut tx, table_id, row.clone())?;
    datastore.commit_mut_tx(tx)?;
    let mut tx = datastore.begin_mut_tx();
    let result = datastore.insert_row_mut_tx(&mut tx, table_id, row);
    match result {
        Err(DBError::Index(IndexError::UniqueConstraintViolation {
            constraint_name: _,
            table_name: _,
            col_name: _,
            value: _,
        })) => (),
        _ => panic!("Expected an unique constraint violation error."),
    }
    let rows = datastore
        .scan_mut_tx(&tx, table_id)?
        .collect();
    assert_eq!(rows, vec![
        row_of(vec![
            AlgebraicValue::U32(1),
            AlgebraicValue::String("Foo".to_string()),
            AlgebraicValue::U32(18),
        ])
    ]);
    Ok(())
}

#[test]
fn test_unique_constraint_post_rollback() -> Result<(), DBError> {
    let mut datastore = get_datastore()?;
    let mut tx = datastore.begin_mut_tx();
    let schema = basic_table_schema();
    let table_id = datastore.create_table_mut_tx(&mut tx, schema)?;
    datastore.commit_mut_tx(tx)?;
    let mut tx = datastore.begin_mut_tx();
    let row = row_of(vec![
        AlgebraicValue::U32(0), // 0 will be ignored.
        AlgebraicValue::String("Foo".to_string()),
        AlgebraicValue::U32(18),
    ]);
    datastore.insert_row_mut_tx(&mut tx, table_id, row.clone())?;
    datastore.rollback_mut_tx(tx);
    let mut tx = datastore.begin_mut_tx();
    datastore.insert_row_mut_tx(&mut tx, table_id, row)?;
    let rows = datastore
        .scan_mut_tx(&tx, table_id)?
        .collect();
    assert_eq!(rows, vec![
        row_of(vec![
            AlgebraicValue::U32(2),
            AlgebraicValue::String("Foo".to_string()),
            AlgebraicValue::U32(18),
        ])
    ]);
    Ok(())
}

#[test]
fn test_create_index_pre_commit() -> Result<(), DBError> {
    let mut datastore = get_datastore()?;
    let mut tx = datastore.begin_mut_tx();
    let schema = basic_table_schema();
    let table_id = datastore.create_table_mut_tx(&mut tx, schema)?;
    datastore.commit_mut_tx(tx)?;
    let mut tx = datastore.begin_mut_tx();
    let row = row_of(vec![
        AlgebraicValue::U32(0), // 0 will be ignored.
        AlgebraicValue::String("Foo".to_string()),
        AlgebraicValue::U32(18),
    ]);
    datastore.insert_row_mut_tx(&mut tx, table_id, row)?;
    datastore.commit_mut_tx(tx)?;
    let mut tx = datastore.begin_mut_tx();
    let index_def = IndexDef {
        col_id: 2,
        name: "age_idx".to_string(),
        is_unique: true,
        table_id: table_id.0,
    };
    datastore.create_index_mut_tx(&mut tx, index_def)?;
    let mut index_rows = datastore
        .scan_mut_tx(&tx, TableId(ST_INDEXES_ID))?
        .collect()
        .iter()
        .map(|x| StIndexRow::try_from(x).unwrap())
        .collect::<Vec<_>>();
    index_rows.sort_by_key(|x| x.index_id);
    assert_eq!(index_rows, vec![
        StIndexRow { index_id: 0, table_id: 0, col_id: 0, index_name: "table_id_idx".to_string(), is_unique: true },
        StIndexRow { index_id: 1, table_id: 3, col_id: 0, index_name: "index_id_idx".to_string(), is_unique: true },
        StIndexRow { index_id: 2, table_id: 2, col_id: 0, index_name: "sequences_id_idx".to_string(), is_unique: true },
        StIndexRow { index_id: 3, table_id: 0, col_id: 1, index_name: "table_name_idx".to_string(), is_unique: true },
        StIndexRow { index_id: 4, table_id: 4, col_id: 0, index_name: "id_idx".to_string(), is_unique: true },
        StIndexRow { index_id: 5, table_id: 4, col_id: 1, index_name: "name_idx".to_string(), is_unique: true },
        StIndexRow { index_id: 6, table_id: 4, col_id: 2, index_name: "age_idx".to_string(), is_unique: true },
    ]);
    let row = row_of(vec![
        AlgebraicValue::U32(0), // 0 will be ignored.
        AlgebraicValue::String("Bar".to_string()),
        AlgebraicValue::U32(18),
    ]);
    let result = datastore.insert_row_mut_tx(&mut tx, table_id, row);
    match result {
        Err(DBError::Index(IndexError::UniqueConstraintViolation {
            constraint_name: _,
            table_name: _,
            col_name: _,
            value: _,
        })) => (),
        _ => panic!("Expected an unique constraint violation error."),
    }
    let rows = datastore
        .scan_mut_tx(&tx, table_id)?
        .collect();
    assert_eq!(rows, vec![
        row_of(vec![
            AlgebraicValue::U32(1),
            AlgebraicValue::String("Foo".to_string()),
            AlgebraicValue::U32(18),
        ])
    ]);
    Ok(())
}

#[test]
fn test_create_index_post_commit() -> Result<(), DBError> {
    let mut datastore = get_datastore()?;
    let mut tx = datastore.begin_mut_tx();
    let schema = basic_table_schema();
    let table_id = datastore.create_table_mut_tx(&mut tx, schema)?;
    let row = row_of(vec![
        AlgebraicValue::U32(0), // 0 will be ignored.
        AlgebraicValue::String("Foo".to_string()),
        AlgebraicValue::U32(18),
    ]);
    datastore.insert_row_mut_tx(&mut tx, table_id, row)?;
    datastore.commit_mut_tx(tx)?;
    let mut tx = datastore.begin_mut_tx();
    let index_def = IndexDef {
        table_id: table_id.0,
        col_id: 2,
        name: "age_idx".to_string(),
        is_unique: true,
    };
    datastore.create_index_mut_tx(&mut tx, index_def)?;
    datastore.commit_mut_tx(tx)?;
    let mut tx = datastore.begin_mut_tx();
    let mut index_rows = datastore
        .scan_mut_tx(&tx, TableId(ST_INDEXES_ID))?
        .collect()
        .iter()
        .map(|x| StIndexRow::try_from(x).unwrap())
        .collect::<Vec<_>>();
    index_rows.sort_by_key(|x| x.index_id);
    assert_eq!(index_rows, vec![
        StIndexRow { index_id: 0, table_id: 0, col_id: 0, index_name: "table_id_idx".to_string(), is_unique: true },
        StIndexRow { index_id: 1, table_id: 3, col_id: 0, index_name: "index_id_idx".to_string(), is_unique: true },
        StIndexRow { index_id: 2, table_id: 2, col_id: 0, index_name: "sequences_id_idx".to_string(), is_unique: true },
        StIndexRow { index_id: 3, table_id: 0, col_id: 1, index_name: "table_name_idx".to_string(), is_unique: true },
        StIndexRow { index_id: 4, table_id: 4, col_id: 0, index_name: "id_idx".to_string(), is_unique: true },
        StIndexRow { index_id: 5, table_id: 4, col_id: 1, index_name: "name_idx".to_string(), is_unique: true },
        StIndexRow { index_id: 6, table_id: 4, col_id: 2, index_name: "age_idx".to_string(), is_unique: true },
    ]);
    let row = row_of(vec![
        AlgebraicValue::U32(0), // 0 will be ignored.
        AlgebraicValue::String("Bar".to_string()),
        AlgebraicValue::U32(18),
    ]);
    let result = datastore.insert_row_mut_tx(&mut tx, table_id, row);
    match result {
        Err(DBError::Index(IndexError::UniqueConstraintViolation {
            constraint_name: _,
            table_name: _,
            col_name: _,
            value: _,
        })) => (),
        _ => panic!("Expected an unique constraint violation error."),
    }
    let rows = datastore
        .scan_mut_tx(&tx, table_id)?
        .collect();
    assert_eq!(rows, vec![
        row_of(vec![
            AlgebraicValue::U32(1),
            AlgebraicValue::String("Foo".to_string()),
            AlgebraicValue::U32(18),
        ])
    ]);
    Ok(())
}

#[test]
fn test_create_index_post_rollback() -> Result<(), DBError> {
    let mut datastore = get_datastore()?;
    let mut tx = datastore.begin_mut_tx();
    let schema = basic_table_schema();
    let table_id = datastore.create_table_mut_tx(&mut tx, schema)?;
    let row = row_of(vec![
        AlgebraicValue::U32(0), // 0 will be ignored.
        AlgebraicValue::String("Foo".to_string()),
        AlgebraicValue::U32(18),
    ]);
    datastore.insert_row_mut_tx(&mut tx, table_id, row)?;
    datastore.commit_mut_tx(tx)?;
    let mut tx = datastore.begin_mut_tx();
    let index_def = IndexDef {
        col_id: 2,
        name: "age_idx".to_string(),
        is_unique: true,
        table_id: table_id.0,
    };
    datastore.create_index_mut_tx(&mut tx, index_def)?;
    datastore.rollback_mut_tx(tx);
    let mut tx = datastore.begin_mut_tx();
    let mut index_rows = datastore
        .scan_mut_tx(&tx, TableId(ST_INDEXES_ID))?
        .collect()
        .iter()
        .map(|x| StIndexRow::try_from(x).unwrap())
        .collect::<Vec<_>>();
    index_rows.sort_by_key(|x| x.index_id);
    assert_eq!(index_rows, vec![
        StIndexRow { index_id: 0, table_id: 0, col_id: 0, index_name: "table_id_idx".to_string(), is_unique: true },
        StIndexRow { index_id: 1, table_id: 3, col_id: 0, index_name: "index_id_idx".to_string(), is_unique: true },
        StIndexRow { index_id: 2, table_id: 2, col_id: 0, index_name: "sequences_id_idx".to_string(), is_unique: true },
        StIndexRow { index_id: 3, table_id: 0, col_id: 1, index_name: "table_name_idx".to_string(), is_unique: true },
        StIndexRow { index_id: 4, table_id: 4, col_id: 0, index_name: "id_idx".to_string(), is_unique: true },
        StIndexRow { index_id: 5, table_id: 4, col_id: 1, index_name: "name_idx".to_string(), is_unique: true },
    ]);
    let row = row_of(vec![
        AlgebraicValue::U32(0), // 0 will be ignored.
        AlgebraicValue::String("Bar".to_string()),
        AlgebraicValue::U32(18),
    ]);
    datastore.insert_row_mut_tx(&mut tx, table_id, row)?;
    let rows = datastore
        .scan_mut_tx(&tx, table_id)?
        .collect();
    assert_eq!(rows, vec![
        row_of(vec![
            AlgebraicValue::U32(1),
            AlgebraicValue::String("Foo".to_string()),
            AlgebraicValue::U32(18),
        ]),
        row_of(vec![
            AlgebraicValue::U32(2),
            AlgebraicValue::String("Bar".to_string()),
            AlgebraicValue::U32(18),
        ])
    ]);
    Ok(())
}
