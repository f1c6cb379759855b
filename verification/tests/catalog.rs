use dobby::schema::Schema;
use dobby::types::{DataType, DbError};

fn s(x: &str) -> String {
    x.to_string()
}

#[test]
fn create() {
    let mut schema = Schema::new(s(""));
    let table_schema = vec![(s("column"), DataType::String)];

    schema.create_table(s("test_table"), table_schema.clone()).unwrap();

    assert_eq!(schema.tables.len(), 1);
    assert_eq!(schema.tables[0].0, s("test_table"));
    assert_eq!(schema.tables[0].1, table_schema);
}

#[test]
fn drop() {
    let mut schema = Schema::new(s(""));
    let table_schema = vec![(s("column"), DataType::String)];

    schema.create_table(s("test_table"), table_schema).unwrap();
    schema.drop_table(s("test_table")).unwrap();

    assert_eq!(schema.tables.len(), 0);
}

#[test]
fn alter() {
    let mut schema = Schema::new(s(""));
    let table_schema = vec![(s("column"), DataType::String)];

    schema.create_table(s("test_table"), table_schema).unwrap();
    schema
        .alter_table(s("test_table"), vec![(s("column"), s("renamed"))])
        .unwrap();

    assert_eq!(schema.tables.len(), 1);
    assert_eq!(schema.tables[0].1, vec![(s("renamed"), DataType::String)]);
}

#[test]
fn create_sorts_columns_by_name() {
    let mut schema = Schema::new(s("db"));
    schema
        .create_table(
            s("t"),
            vec![(s("price"), DataType::Float), (s("id"), DataType::Int)],
        )
        .unwrap();
    assert_eq!(
        schema.tables[0].1,
        vec![(s("id"), DataType::Int), (s("price"), DataType::Float)]
    );
}

#[test]
fn create_rejects_bad_input() {
    let mut schema = Schema::new(s("db"));
    assert!(matches!(
        schema.create_table(s("bad name"), vec![(s("a"), DataType::Int)]),
        Err(DbError::InvalidName(_))
    ));
    assert!(matches!(
        schema.create_table(s("t"), vec![]),
        Err(DbError::NoColumns)
    ));
    assert!(matches!(
        schema.create_table(s("t"), vec![(s("a"), DataType::Int), (s("a"), DataType::Float)]),
        Err(DbError::ColumnAlreadyExists(_, _))
    ));
    schema.create_table(s("t"), vec![(s("a"), DataType::Int)]).unwrap();
    assert!(matches!(
        schema.create_table(s("t"), vec![(s("b"), DataType::Int)]),
        Err(DbError::TableAlreadyExists(_))
    ));
    assert!(matches!(
        schema.drop_table(s("missing")),
        Err(DbError::TableNotFound(_))
    ));
}

#[test]
fn alter_is_all_or_nothing() {
    let mut schema = Schema::new(s("db"));
    schema
        .create_table(s("t"), vec![(s("a"), DataType::Int), (s("b"), DataType::Float)])
        .unwrap();
    let before = schema.tables[0].1.clone();

    // renaming a onto b would duplicate a name: refused, schema untouched
    let r = schema.alter_table(s("t"), vec![(s("a"), s("b"))]);
    assert!(matches!(r, Err(DbError::ColumnAlreadyExists(_, _))));
    assert_eq!(schema.tables[0].1, before);

    // a rename of a column that does not exist is refused too
    let r = schema.alter_table(s("t"), vec![(s("zz"), s("yy"))]);
    assert!(matches!(r, Err(DbError::ColumnNotFound(_, _))));
    assert_eq!(schema.tables[0].1, before);

    let r = schema.alter_table(s("t"), vec![(s("a"), s("bad name"))]);
    assert!(matches!(r, Err(DbError::InvalidName(_))));
    assert_eq!(schema.tables[0].1, before);

    let r = schema.alter_table(s("missing"), vec![]);
    assert!(matches!(r, Err(DbError::TableNotFound(_))));
}

#[test]
fn validate_name_accepts_exactly_the_word_characters() {
    assert!(Schema::validate_name("abc_123").is_ok());
    assert!(Schema::validate_name("A1_z").is_ok());
    assert!(matches!(Schema::validate_name(""), Err(DbError::InvalidName(_))));
    assert!(matches!(Schema::validate_name("a-b"), Err(DbError::InvalidName(_))));
    assert!(matches!(Schema::validate_name("a b"), Err(DbError::InvalidName(_))));
    assert!(matches!(Schema::validate_name("é"), Err(DbError::InvalidName(_))));
}

#[test]
fn dump_then_load_gives_the_catalog_back() {
    let mut schema = Schema::new(s("my database"));
    schema
        .create_table(s("people"), vec![(s("id"), DataType::Int), (s("name"), DataType::String)])
        .unwrap();
    schema
        .create_table(s("cars"), vec![(s("model"), DataType::Char), (s("price"), DataType::Float)])
        .unwrap();
    let text = schema.dump();
    assert_eq!(
        text,
        "my database\npeople#id:int,name:string\ncars#model:char,price:float\n"
    );
    let back = Schema::load(&text).unwrap();
    assert_eq!(back.name, schema.name);
    assert_eq!(back.tables, schema.tables);
}

#[test]
fn load_rejects_malformed_text() {
    assert!(matches!(Schema::load(""), Err(DbError::IoError(_))));
    assert!(matches!(Schema::load("db\nnocolumns"), Err(DbError::IoError(_))));
    assert!(matches!(Schema::load("db\nt#a"), Err(DbError::IoError(_))));
    assert!(matches!(
        Schema::load("db\nt#a:intx"),
        Err(DbError::InvalidDataType(_))
    ));
    assert!(Schema::load("just a name").is_ok());
}

#[test]
fn empty_catalog_round_trips() {
    let schema = Schema::new("db".to_string());
    let text = schema.dump();
    assert_eq!(text, "db\n");
    let back = Schema::load(&text).unwrap();
    assert_eq!(back.name, "db".to_string());
    assert!(back.tables.is_empty());
}
