use jordan_db::db::name_map::NameMap;
use jordan_db::db::parser::{Parser, SQLQuery};
use jordan_db::db::schema::Table;
use jordan_db::db::sql_enums::SQLKeyword;
use jordan_db::db::storage_engine::StorageEngine;

fn parser() -> Parser {
    Parser::new(StorageEngine::new("test.db".to_string()))
}

#[test]
fn test_parser() {
    let mut storage_engine = StorageEngine::new("test.db".to_string());
    storage_engine.tables = NameMap::new();
    storage_engine.tables.insert(
        "Users".to_string(),
        Table::new(vec!["id".to_string(), "name".to_string()], Vec::new(), NameMap::new()),
    );
    let parser = Parser::new(storage_engine);
    let res = parser.parse("FROM USER SELECT *".to_string());
    assert_eq!(true, true);
    assert_eq!(res, Err("Invalid SQL".to_string()));
}

#[test]
fn empty_text_is_empty_sql() {
    assert_eq!(parser().parse("".to_string()), Err("Empty SQL".to_string()));
    assert_eq!(parser().parse(" \t\n ".to_string()), Err("Empty SQL".to_string()));
}

#[test]
fn query_must_end_in_semicolon() {
    assert_eq!(parser().parse("INSERT INTO users".to_string()), Err("Invalid SQL".to_string()));
}

#[test]
fn first_keyword_decides() {
    assert_eq!(
        parser().parse("FROM users SELECT *;".to_string()),
        Err("Unsupported SQL Command".to_string())
    );
    assert_eq!(
        parser().parse("users things;".to_string()),
        Err("Unsupported SQL Command".to_string())
    );
    match parser().parse("insert INTO users;".to_string()) {
        Ok(SQLQuery::Select(query)) => {
            assert_eq!(query.table, "users;");
            assert!(query.columns.is_empty());
            assert!(query.where_clause.is_none());
        }
        other => panic!("unexpected {:?}", other),
    }
}

#[test]
fn keywords_are_read_in_any_case() {
    assert!(matches!(SQLKeyword::from_str("select"), Some(SQLKeyword::SELECT)));
    assert!(matches!(SQLKeyword::from_str("From"), Some(SQLKeyword::FROM)));
    assert!(matches!(SQLKeyword::from_str("WHERE"), Some(SQLKeyword::WHERE)));
    assert!(matches!(SQLKeyword::from_str("insert"), Some(SQLKeyword::INSERT)));
    assert!(matches!(SQLKeyword::from_str("into"), Some(SQLKeyword::INTO)));
    assert!(matches!(SQLKeyword::from_str("values"), Some(SQLKeyword::VALUES)));
    assert!(matches!(SQLKeyword::from_str("*"), Some(SQLKeyword::ALL)));
    assert!(SQLKeyword::from_str("create").is_none());
    assert!(SQLKeyword::from_str("table").is_none());
    assert!(SQLKeyword::from_upper("select").is_none());
}

#[test]
fn keywords_are_written_in_upper_case() {
    assert_eq!(SQLKeyword::SELECT.as_str(), "SELECT");
    assert_eq!(SQLKeyword::FROM.as_str(), "FROM");
    assert_eq!(SQLKeyword::WHERE.as_str(), "WHERE");
    assert_eq!(SQLKeyword::INSERT.as_str(), "INSERT");
    assert_eq!(SQLKeyword::INTO.as_str(), "INTO");
    assert_eq!(SQLKeyword::VALUES.as_str(), "VALUES");
    assert_eq!(SQLKeyword::ALL.as_str(), "*");
    assert_eq!(SQLKeyword::Create.as_str(), "CREATE");
}

#[test]
fn selection_names_the_last_word() {
    let words = vec!["a".to_string(), "b".to_string()];
    match parser().parse_select(&words) {
        Ok(SQLQuery::Select(query)) => assert_eq!(query.table, "b"),
        other => panic!("unexpected {:?}", other),
    }
    match parser().parse_select(&Vec::new()) {
        Ok(SQLQuery::Select(query)) => assert_eq!(query.table, ""),
        other => panic!("unexpected {:?}", other),
    }
    assert_eq!(
        parser().parse_words(&vec!["INSERT".to_string()]),
        Err("Invalid SQL".to_string())
    );
}
