use dbseed::error::SeedError;
use dbseed::rows::{Pools, Row};
use dbseed::schema::{ColumnSchema, DbSchema, TableSchema};
use dbseed::value::Value;

fn col(name: &str, ty: &str) -> ColumnSchema {
    ColumnSchema {
        name: String::from(name),
        data_type: String::from(ty),
        is_nullable: true,
        column_default: None,
    }
}

fn sample_schema() -> DbSchema {
    DbSchema {
        tables: vec![
            TableSchema {
                name: String::from("users"),
                columns: vec![col("id", "uuid"), col("name", "text")],
                primary_key_column: Some(String::from("id")),
            },
            TableSchema {
                name: String::from("logs"),
                columns: vec![col("line", "text")],
                primary_key_column: None,
            },
        ],
        foreign_keys: vec![],
    }
}

#[test]
fn table_lookup() {
    let s = sample_schema();
    assert!(s.find_table(&String::from("users")).is_some());
    assert!(s.find_table(&String::from("nope")).is_none());
    assert!(s.table_has_pk(&String::from("users")));
    assert!(!s.table_has_pk(&String::from("logs")));
    assert!(!s.table_has_pk(&String::from("nope")));
}

#[test]
fn column_lookup() {
    let s = sample_schema();
    let t = s.find_table(&String::from("users")).unwrap();
    let c = t.find_column(&String::from("name")).unwrap();
    assert_eq!(c.data_type, "text");
    assert!(t.find_column(&String::from("ghost")).is_none());
}

#[test]
fn rows_keep_first_position_on_replacement() {
    let mut row = Row::new();
    row.set(String::from("a"), Value::Int(1));
    row.set(String::from("b"), Value::Int(2));
    row.set(String::from("a"), Value::Int(3));
    assert_eq!(row.len(), 2);
    assert_eq!(row.col_at(0), "a");
    assert_eq!(row.col_at(1), "b");
    assert!(matches!(row.get(&String::from("a")), Some(Value::Int(3))));
}

#[test]
fn pools_overwrite_by_name() {
    let mut pools = Pools::new();
    pools.set(String::from("users"), vec![Value::Int(1)]);
    pools.set(String::from("users"), vec![Value::Int(2), Value::Int(3)]);
    let vs = pools.get(&String::from("users")).unwrap();
    assert_eq!(vs.len(), 2);
    assert!(pools.get(&String::from("posts")).is_none());
}

#[test]
fn error_tags_and_details() {
    let e = SeedError::PoolNotFound(String::from("names"));
    assert_eq!(e.tag(), "pool not found");
    assert_eq!(e.detail().unwrap(), "names");
    let c = SeedError::CyclicDependency;
    assert_eq!(c.tag(), "cyclic dependency");
    assert!(c.detail().is_none());
}
