use dbseed::error::SeedError;
use dbseed::persist::{build_insert, BindValue, PkKind};
use dbseed::rows::Row;
use dbseed::schema::{ColumnSchema, TableSchema};
use dbseed::value::Value;

fn col(name: &str, ty: &str) -> ColumnSchema {
    ColumnSchema {
        name: String::from(name),
        data_type: String::from(ty),
        is_nullable: false,
        column_default: None,
    }
}

fn users_table() -> TableSchema {
    TableSchema {
        name: String::from("users"),
        columns: vec![
            col("id", "text"),
            col("age", "integer"),
            col("active", "boolean"),
            col("created", "timestamp with time zone"),
            col("meta", "jsonb"),
        ],
        primary_key_column: Some(String::from("id")),
    }
}

fn sample_row() -> Row {
    let mut row = Row::new();
    row.set(String::from("id"), Value::Str(String::from("u-1")));
    row.set(String::from("age"), Value::Str(String::from("31")));
    row.set(String::from("active"), Value::Int(1));
    row.set(String::from("created"), Value::Str(String::from("2022-01-01T00:00:00+00:00")));
    row.set(String::from("meta"), Value::Str(String::from("x")));
    row
}

#[test]
fn statement_text_is_exact() {
    let stmt = build_insert(&users_table(), &sample_row()).unwrap();
    assert_eq!(
        stmt.sql,
        "INSERT INTO \"users\" (\"id\", \"age\", \"active\", \"created\", \"meta\") \
         VALUES ($1, $2, $3, $4::timestamp, $5) RETURNING \"id\""
    );
}

#[test]
fn binds_follow_destination_types() {
    let stmt = build_insert(&users_table(), &sample_row()).unwrap();
    assert_eq!(stmt.binds.len(), 5);
    assert!(matches!(stmt.binds[0], BindValue::Text(ref s) if s == "u-1"));
    // a text value destined for an integer column is parsed
    assert!(matches!(stmt.binds[1], BindValue::Int(31)));
    // a nonzero integer destined for a boolean column reads true
    assert!(matches!(stmt.binds[2], BindValue::Bool(true)));
    assert!(matches!(stmt.binds[3], BindValue::Text(_)));
    // no rule for jsonb: bound as the generic value
    assert!(matches!(stmt.binds[4], BindValue::Other(Value::Str(_))));
}

#[test]
fn text_pk_read_back_as_text() {
    let stmt = build_insert(&users_table(), &sample_row()).unwrap();
    match stmt.pk {
        Some((name, kind)) => {
            assert_eq!(name, "id");
            assert!(matches!(kind, PkKind::Text));
        }
        None => panic!("expected a primary-key read-back"),
    }
}

#[test]
fn integer_pk_kinds() {
    let mut t = users_table();
    t.columns[0] = col("id", "integer");
    let mut row = Row::new();
    row.set(String::from("id"), Value::Int(1));
    let stmt = build_insert(&t, &row).unwrap();
    assert!(matches!(stmt.pk, Some((_, PkKind::Int32))));
    t.columns[0] = col("id", "bigint");
    let stmt2 = build_insert(&t, &row).unwrap();
    assert!(matches!(stmt2.pk, Some((_, PkKind::Int64))));
}

#[test]
fn keyless_table_gets_no_returning_clause() {
    let mut t = users_table();
    t.primary_key_column = None;
    let stmt = build_insert(&t, &sample_row()).unwrap();
    assert!(stmt.pk.is_none());
    assert!(!stmt.sql.contains("RETURNING"));
}

#[test]
fn unsupported_pk_type_is_fatal() {
    let mut t = users_table();
    t.columns[0] = col("id", "jsonb");
    let r = build_insert(&t, &sample_row());
    assert!(matches!(r, Err(SeedError::UnsupportedPkType(_))));
}

#[test]
fn unparseable_integer_binds_as_zero() {
    let t = TableSchema {
        name: String::from("t"),
        columns: vec![col("n", "integer")],
        primary_key_column: None,
    };
    let mut row = Row::new();
    row.set(String::from("n"), Value::Str(String::from("not a number")));
    let stmt = build_insert(&t, &row).unwrap();
    assert!(matches!(stmt.binds[0], BindValue::Int(0)));
}
