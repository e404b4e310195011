use jordan_db::db::name_map::NameMap;
use jordan_db::db::schema::Row;
use jordan_db::db::sql_enums::SQLOperator;
use jordan_db::db::storage_engine::{StorageEngine, StorageError};

fn row(pairs: &[(&str, &str)]) -> Row {
    let mut data = NameMap::new();
    for (column, value) in pairs {
        data.insert(column.to_string(), value.to_string());
    }
    Row { data }
}

fn users() -> StorageEngine {
    let mut engine = StorageEngine::new("jordan_db".to_string());
    engine.create_table(
        "users",
        vec!["id".to_string(), "name".to_string(), "age".to_string()],
    );
    engine
        .insert_row("users", row(&[("id", "1"), ("name", "Alice"), ("age", "25")]))
        .unwrap();
    engine
        .insert_row("users", row(&[("id", "2"), ("name", "Bob"), ("age", "30")]))
        .unwrap();
    engine
        .insert_row("users", row(&[("id", "3"), ("name", "Charlie"), ("age", "35")]))
        .unwrap();
    engine
}

#[test]
fn end_to_end_search_finds_bob() {
    let engine = users();
    let found = engine.search_by_index("users", SQLOperator::EQUALS, "age", 30);
    assert_eq!(found.len(), 1);
    assert_eq!(*found[0], row(&[("id", "2"), ("name", "Bob"), ("age", "30")]));
}

#[test]
fn text_value_is_not_indexed() {
    let mut engine = StorageEngine::new("db".to_string());
    engine.create_table(
        "users",
        vec!["id".to_string(), "name".to_string(), "age".to_string()],
    );
    let id = engine
        .insert_row("users", row(&[("id", "7"), ("name", "Dora"), ("age", "thirty")]))
        .unwrap();
    assert_eq!(id, 0);
    assert!(engine
        .search_by_index("users", SQLOperator::EQUALS, "age", 30)
        .is_empty());
    let table = engine.tables.get("users").unwrap();
    assert_eq!(table.indexes.get("age").unwrap().traverse(), Vec::<u16>::new());
    assert_eq!(table.indexes.get("id").unwrap().traverse(), vec![7]);
    assert_eq!(table.indexes.get("name").unwrap().traverse(), Vec::<u16>::new());
    let found = engine.search_by_index("users", SQLOperator::EQUALS, "id", 7);
    assert_eq!(found.len(), 1);
}

#[test]
fn missing_table_is_an_error_and_changes_nothing() {
    let mut engine = users();
    let before = users();
    let done = engine.insert_row("nobody", row(&[("id", "1")]));
    assert_eq!(done, Err(StorageError::TableNotFound));
    assert_eq!(engine, before);
    assert!(engine
        .search_by_index("nobody", SQLOperator::EQUALS, "id", 1)
        .is_empty());
}

#[test]
fn row_ids_count_up() {
    let mut engine = users();
    let id = engine.insert_row("users", row(&[("id", "4")])).unwrap();
    assert_eq!(id, 3);
}

#[test]
fn operator_is_not_applied() {
    let engine = users();
    let found = engine.search_by_index("users", SQLOperator::GREATER_THAN, "age", 30);
    assert_eq!(found.len(), 1);
    assert_eq!(found[0].data.get("name"), Some(&"Bob".to_string()));
}

#[test]
fn create_table_replaces_and_dedups() {
    let mut engine = users();
    engine.create_table("users", vec!["a".to_string(), "b".to_string(), "a".to_string()]);
    assert_eq!(engine.tables.len(), 1);
    let table = engine.tables.get("users").unwrap();
    assert_eq!(table.columns, vec!["a", "b", "a"]);
    assert!(table.rows.is_empty());
    assert_eq!(table.indexes.names, vec!["a", "b"]);
    assert!(table.indexes.values.iter().all(|tree| tree.t == 5 && tree.root.is_none()));
}
