use dobby::database::Database;
use dobby::schema::Schema;
use dobby::table::Table;
use dobby::types::{DataType, DbError, Query, TypedValue};

fn s(x: &str) -> String {
    x.to_string()
}

fn f(x: f64) -> TypedValue {
    TypedValue::Float(x.to_bits())
}

fn table() -> Table {
    Table {
        name: s("test"),
        columns: vec![(s("id"), DataType::Int), (s("price"), DataType::Float)],
        records: Vec::new(),
    }
}

fn row(id: i64, price: f64) -> Vec<(String, TypedValue)> {
    vec![(s("id"), TypedValue::Int(id)), (s("price"), f(price))]
}

#[test]
fn select() {
    let mut table = table();
    let row = row(1, 1.23);

    table.insert(row.clone()).unwrap();

    let rows = table.select(vec![], vec![]).unwrap();
    assert_eq!(rows.len(), 1);
    assert_eq!(rows[0], row);
}

#[test]
fn project() {
    let mut table = table();
    let mut row = row(1, 1.23);

    table.insert(row.clone()).unwrap();

    let rows = table.select(vec![s("price")], vec![]).unwrap();
    assert_eq!(rows.len(), 1);

    row.remove(0);
    assert_eq!(rows[0], row);
}

#[test]
fn filter() {
    let mut table = table();
    table.insert(row(1, 1.23)).unwrap();
    let second = row(2, 18.18);
    table.insert(second.clone()).unwrap();

    let rows = table.select(vec![], vec![(s("id"), TypedValue::Int(2))]).unwrap();
    assert_eq!(rows.len(), 1);
    assert_eq!(rows[0], second);
}

#[test]
fn update() {
    let mut table = table();
    table.insert(row(1, 1.23)).unwrap();
    table.update(vec![(s("price"), f(123.45))], vec![]).unwrap();

    let rows = table.select(vec![], vec![]).unwrap();
    assert_eq!(rows.len(), 1);
    assert_eq!(rows[0][1], (s("price"), f(123.45)));
}

#[test]
fn delete() {
    let mut table = table();
    table.insert(row(1, 1.23)).unwrap();
    table.delete(vec![]).unwrap();

    let rows = table.select(vec![], vec![]).unwrap();
    assert!(rows.is_empty());
}

#[test]
fn table_errors() {
    let mut table = table();
    assert!(matches!(
        table.insert(vec![(s("id"), TypedValue::Int(1))]),
        Err(DbError::IncompleteData(_, _))
    ));
    assert!(matches!(
        table.insert(vec![(s("id"), TypedValue::Int(1)), (s("zz"), f(0.0))]),
        Err(DbError::ColumnNotFound(_, _))
    ));
    table.insert(row(1, 1.23)).unwrap();
    assert!(matches!(
        table.select(vec![s("zz")], vec![]),
        Err(DbError::ColumnNotFound(_, _))
    ));
    assert!(matches!(
        table.select(vec![], vec![(s("zz"), TypedValue::Int(1))]),
        Err(DbError::ColumnNotFound(_, _))
    ));
    assert!(matches!(
        table.insert(vec![(s("id"), TypedValue::String(s("zz"))), (s("price"), f(1.0))]),
        Err(DbError::InvalidValue(_, DataType::Int))
    ));
}

#[test]
fn projection_is_checked_only_on_surviving_rows() {
    let mut table = table();
    // nothing matches, so a projected name that is no column is never reached
    let rows = table.select(vec![s("zz")], vec![(s("id"), TypedValue::Int(9))]).unwrap();
    assert!(rows.is_empty());
    table.insert(row(1, 1.23)).unwrap();
    let rows = table
        .select(vec![s("zz")], vec![(s("id"), TypedValue::Int(9))])
        .unwrap();
    assert!(rows.is_empty());
    assert!(matches!(
        table.select(vec![s("zz")], vec![]),
        Err(DbError::ColumnNotFound(_, _))
    ));
}

#[test]
fn update_of_equal_values_reports_nothing() {
    let mut table = table();
    table.insert(row(1, 1.23)).unwrap();
    let updated = table
        .update(vec![(s("price"), f(1.23))], vec![(s("id"), TypedValue::Int(1))])
        .unwrap();
    assert!(updated.is_empty());
    assert_eq!(table.records.len(), 1);
    assert!(table.records[0].live);
}

#[test]
fn update_appends_and_clears() {
    let mut table = table();
    table.insert(row(1, 1.23)).unwrap();
    let updated = table.update(vec![(s("price"), f(9.0))], vec![]).unwrap();
    assert_eq!(updated, vec![row(1, 9.0)]);
    assert_eq!(table.records.len(), 2);
    assert!(!table.records[0].live);
    assert!(table.records[1].live);
}

#[test]
fn file_bytes_round_trip() {
    let mut table = table();
    table.insert(row(1, 1.23)).unwrap();
    table.insert(row(2, 4.5)).unwrap();
    table.delete(vec![(s("id"), TypedValue::Int(1))]).unwrap();

    let bytes = table.to_bytes();
    let back = Table::open(s("test"), table.columns.clone(), &bytes).unwrap();
    assert_eq!(back.records.len(), 2);
    assert!(!back.records[0].live);
    assert!(back.records[1].live);
    let rows = back.select(vec![], vec![]).unwrap();
    assert_eq!(rows, vec![row(2, 4.5)]);
}

#[test]
fn open_ignores_a_torn_trailing_record() {
    let table = {
        let mut t = table();
        t.insert(row(1, 1.23)).unwrap();
        t.insert(row(2, 4.5)).unwrap();
        t
    };
    // an interrupted append leaves the last record cut short: reopening
    // keeps every complete record and drops the torn one
    let mut bytes = table.to_bytes();
    bytes.pop();
    let back = Table::open(s("test"), table.columns.clone(), &bytes).unwrap();
    let rows = back.select(vec![], vec![]).unwrap();
    assert_eq!(rows, vec![row(1, 1.23)]);
}

#[test]
fn open_rejects_bad_content() {
    // a complete record whose string payload is not UTF-8 is corruption,
    // not a torn append
    let columns = vec![(s("v"), DataType::String)];
    let mut bytes = vec![0u8];
    bytes.extend_from_slice(&2u64.to_le_bytes());
    bytes.push(0xFF);
    bytes.push(0xFE);
    assert!(matches!(
        Table::open(s("test"), columns, &bytes),
        Err(DbError::IoError(_))
    ));
}

fn fresh_db() -> Database {
    let mut db = Database::create(s("shop"));
    let r = db
        .execute(Query::Create {
            table: s("t"),
            columns: vec![(s("id"), DataType::Int), (s("price"), DataType::Float)],
        })
        .unwrap();
    assert!(r.is_empty());
    let r = db
        .execute(Query::Insert { into: s("t"), values: row(1, 1.23) })
        .unwrap();
    assert_eq!(r, vec![row(1, 1.23)]);
    db
}

#[test]
fn create_insert_select() {
    let mut db = fresh_db();
    let r = db
        .execute(Query::Select { from: s("t"), columns: vec![], conditions: vec![] })
        .unwrap();
    assert_eq!(r, vec![row(1, 1.23)]);
}

#[test]
fn projection_drops_unlisted_columns() {
    let mut db = fresh_db();
    let r = db
        .execute(Query::Select { from: s("t"), columns: vec![s("price")], conditions: vec![] })
        .unwrap();
    assert_eq!(r, vec![vec![(s("price"), f(1.23))]]);
}

#[test]
fn filter_matches_with_coercion() {
    let mut db = fresh_db();
    let r = db
        .execute(Query::Select {
            from: s("t"),
            columns: vec![],
            conditions: vec![(s("id"), TypedValue::String(s("1")))],
        })
        .unwrap();
    assert_eq!(r, vec![row(1, 1.23)]);
}

#[test]
fn update_then_select() {
    let mut db = fresh_db();
    let r = db
        .execute(Query::Update {
            table: s("t"),
            set: vec![(s("price"), f(9.0))],
            conditions: vec![(s("id"), TypedValue::Int(1))],
        })
        .unwrap();
    assert_eq!(r, vec![row(1, 9.0)]);
    let r = db
        .execute(Query::Select { from: s("t"), columns: vec![], conditions: vec![] })
        .unwrap();
    assert_eq!(r, vec![row(1, 9.0)]);
}

#[test]
fn delete_is_durable_across_reopens() {
    let mut db = fresh_db();
    let r = db
        .execute(Query::Delete {
            from: s("t"),
            conditions: vec![(s("id"), TypedValue::Int(1))],
        })
        .unwrap();
    assert_eq!(r, vec![row(1, 1.23)]);

    // shut the engine down: catalog and table files become text and bytes
    let schema_text = db.schema.dump();
    let table_bytes = db.tables[0].to_bytes();

    // reopen the same directory
    let schema = Schema::load(&schema_text).unwrap();
    let t = Table::open(schema.tables[0].0.clone(), schema.tables[0].1.clone(), &table_bytes)
        .unwrap();
    let mut db2 = Database::open(schema, vec![t]).unwrap();
    let r = db2
        .execute(Query::Select { from: s("t"), columns: vec![], conditions: vec![] })
        .unwrap();
    assert!(r.is_empty());
}

#[test]
fn alter_rename_preserves_data() {
    let mut db = Database::create(s("shop"));
    db.execute(Query::Create {
        table: s("t"),
        columns: vec![(s("id"), DataType::Int), (s("name"), DataType::String)],
    })
    .unwrap();
    db.execute(Query::Insert {
        into: s("t"),
        values: vec![(s("id"), TypedValue::Int(1)), (s("name"), TypedValue::String(s("a")))],
    })
    .unwrap();
    let r = db
        .execute(Query::Alter { table: s("t"), rename: vec![(s("name"), s("label"))] })
        .unwrap();
    assert!(r.is_empty());
    let r = db
        .execute(Query::Select { from: s("t"), columns: vec![], conditions: vec![] })
        .unwrap();
    assert_eq!(
        r,
        vec![vec![(s("id"), TypedValue::Int(1)), (s("label"), TypedValue::String(s("a")))]]
    );
}

#[test]
fn drop_removes_table_and_catalog_entry() {
    let mut db = fresh_db();
    let r = db.execute(Query::Drop { table: s("t") }).unwrap();
    assert!(r.is_empty());
    assert!(db.schema.tables.is_empty());
    assert!(db.tables.is_empty());
    let r = db.execute(Query::Select { from: s("t"), columns: vec![], conditions: vec![] });
    assert!(matches!(r, Err(DbError::TableNotFound(_))));
}

#[test]
fn open_refuses_misaligned_state() {
    let db = fresh_db();
    let schema = Schema::load(&db.schema.dump()).unwrap();
    // a table whose columns do not match the catalog entry is refused
    let wrong = Table {
        name: s("t"),
        columns: vec![(s("id"), DataType::Int)],
        records: Vec::new(),
    };
    assert!(matches!(
        Database::open(schema, vec![wrong]),
        Err(DbError::IoError(_))
    ));
}

#[test]
fn table_accessor_finds_catalog_entries() {
    let db = fresh_db();
    assert!(db.table(&s("t")).is_ok());
    assert!(matches!(db.table(&s("zz")), Err(DbError::TableNotFound(_))));
}

#[test]
fn open_refuses_duplicate_table_names() {
    // a catalog with two entries under one name violates the engine
    // invariant, even when each entry has a matching table
    let schema = Schema {
        tables: vec![
            (s("t"), vec![(s("id"), DataType::Int)]),
            (s("t"), vec![(s("id"), DataType::Int)]),
        ],
        name: s("db"),
    };
    let t1 = Table { name: s("t"), columns: vec![(s("id"), DataType::Int)], records: Vec::new() };
    let t2 = Table { name: s("t"), columns: vec![(s("id"), DataType::Int)], records: Vec::new() };
    assert!(matches!(
        Database::open(schema, vec![t1, t2]),
        Err(DbError::IoError(_))
    ));
}

#[test]
fn target_table_names_the_data_queries() {
    let q = Query::Select { from: s("t"), columns: vec![], conditions: vec![] };
    assert_eq!(Database::target_table(&q), Some(&s("t")));
    let q = Query::Create { table: s("t"), columns: vec![] };
    assert_eq!(Database::target_table(&q), None);
}
