use jordan_db::db::b_tree::BTree;
use jordan_db::db::codec::{put_tree, take_tree};
use jordan_db::db::name_map::NameMap;
use jordan_db::db::schema::Row;
use jordan_db::db::sql_enums::SQLOperator;
use jordan_db::db::storage_engine::{StorageEngine, StorageError};
use jordan_db::db::wire::{
    put_count, put_text, put_u16, put_u64, take_count, take_text, take_u16, take_u64, take_u8,
};

fn row(pairs: &[(&str, &str)]) -> Row {
    let mut data = NameMap::new();
    for (column, value) in pairs {
        data.insert(column.to_string(), value.to_string());
    }
    Row { data }
}

fn populated() -> StorageEngine {
    let mut engine = StorageEngine::new("jordan_db".to_string());
    engine.create_table(
        "users",
        vec!["id".to_string(), "name".to_string(), "age".to_string()],
    );
    for i in 0..200u32 {
        let id = i.to_string();
        let name = format!("user{}", i);
        let age = ((i * 37) % 90).to_string();
        engine
            .insert_row("users", row(&[("id", &id), ("name", &name), ("age", &age)]))
            .unwrap();
    }
    engine.create_table("empty", vec!["k".to_string()]);
    engine.create_table("päivä", vec!["määrä".to_string()]);
    engine
        .insert_row("päivä", row(&[("määrä", "12"), ("huom", "ei ole")]))
        .unwrap();
    engine
}

fn image(engine: &StorageEngine) -> Vec<u8> {
    let mut buffer = vec![1, 2, 3];
    assert_eq!(engine.serialize(&mut buffer), Ok(()));
    buffer
}

#[test]
fn empty_store_image_is_exact() {
    let engine = StorageEngine::new("db".to_string());
    let expected: Vec<u8> = vec![
        0x4a, 0x4f, 0x52, 0x44, 0x41, 0x4e, 0x44, 0x42, // magic
        1, 0, // version
        2, 0, 0, 0, 0, 0, 0, 0, b'd', b'b', // name
        0, 0, 0, 0, 0, 0, 0, 0, // tables
    ];
    assert_eq!(image(&engine), expected);
}

#[test]
fn one_table_image_is_exact() {
    let mut engine = StorageEngine::new("d".to_string());
    engine.create_table("t", vec!["c".to_string()]);
    engine.insert_row("t", row(&[("c", "258")])).unwrap();
    let mut expected: Vec<u8> = vec![0x4a, 0x4f, 0x52, 0x44, 0x41, 0x4e, 0x44, 0x42, 1, 0];
    expected.extend([1, 0, 0, 0, 0, 0, 0, 0, b'd']); // name
    expected.extend([1, 0, 0, 0, 0, 0, 0, 0]); // one table
    expected.extend([1, 0, 0, 0, 0, 0, 0, 0, b't']); // its name
    expected.extend([1, 0, 0, 0, 0, 0, 0, 0]); // one column
    expected.extend([1, 0, 0, 0, 0, 0, 0, 0, b'c']);
    expected.extend([1, 0, 0, 0, 0, 0, 0, 0]); // one row
    expected.extend([0, 0, 0, 0, 0, 0, 0, 0]); // its identifier
    expected.extend([1, 0, 0, 0, 0, 0, 0, 0]); // one column in it
    expected.extend([1, 0, 0, 0, 0, 0, 0, 0, b'c']);
    expected.extend([3, 0, 0, 0, 0, 0, 0, 0, b'2', b'5', b'8']);
    expected.extend([1, 0, 0, 0, 0, 0, 0, 0]); // one index
    expected.extend([1, 0, 0, 0, 0, 0, 0, 0, b'c']);
    expected.extend([5, 0, 0, 0, 0, 0, 0, 0]); // minimum degree
    expected.extend([1]); // a root
    expected.extend([1]); // that is a leaf
    expected.extend([1, 0, 0, 0, 0, 0, 0, 0]); // with one key
    expected.extend([2, 1]); // 258
    assert_eq!(image(&engine), expected);
}

#[test]
fn round_trip_gives_the_store_back() {
    let engine = populated();
    let bytes = image(&engine);
    let loaded = StorageEngine::deserialize(&bytes).unwrap();
    assert_eq!(loaded, engine);
    assert!(loaded.is_wf());
    assert_eq!(image(&loaded), bytes);
    let table = loaded.tables.get("users").unwrap();
    let source = engine.tables.get("users").unwrap();
    for column in ["id", "name", "age"] {
        assert_eq!(
            table.indexes.get(column).unwrap().traverse(),
            source.indexes.get(column).unwrap().traverse()
        );
    }
    let found = loaded.search_by_index("users", SQLOperator::EQUALS, "age", 37);
    let expected = engine.search_by_index("users", SQLOperator::EQUALS, "age", 37);
    assert_eq!(found, expected);
    assert!(!found.is_empty());
}

#[test]
fn loaded_store_takes_more_rows() {
    let engine = populated();
    let mut loaded = StorageEngine::deserialize(&image(&engine)).unwrap();
    let id = loaded
        .insert_row("users", row(&[("id", "900"), ("age", "33")]))
        .unwrap();
    assert_eq!(id, 200);
    assert!(loaded.is_wf());
    assert_eq!(
        loaded
            .search_by_index("users", SQLOperator::EQUALS, "id", 900)
            .len(),
        1
    );
}

#[test]
fn truncated_image_is_invalid() {
    let bytes = image(&populated());
    for cut in [0, 1, 7, 8, 9, 10, 17, 30, bytes.len() / 2, bytes.len() - 1] {
        assert_eq!(
            StorageEngine::deserialize(&bytes[..cut]),
            Err(StorageError::InvalidData)
        );
    }
}

#[test]
fn trailing_byte_is_invalid() {
    let mut bytes = image(&populated());
    bytes.push(0);
    assert_eq!(StorageEngine::deserialize(&bytes), Err(StorageError::InvalidData));
}

#[test]
fn other_version_or_magic_is_invalid() {
    let good = image(&StorageEngine::new("db".to_string()));
    let mut version = good.clone();
    version[8] = 2;
    assert_eq!(StorageEngine::deserialize(&version), Err(StorageError::InvalidData));
    let mut magic = good.clone();
    magic[0] = b'X';
    assert_eq!(StorageEngine::deserialize(&magic), Err(StorageError::InvalidData));
    assert!(StorageEngine::deserialize(&good).is_ok());
}

#[test]
fn text_that_is_not_utf8_is_invalid() {
    let mut bytes = image(&StorageEngine::new("db".to_string()));
    bytes[18] = 0xff;
    assert_eq!(StorageEngine::deserialize(&bytes), Err(StorageError::InvalidData));
}

#[test]
fn broken_structure_is_invalid() {
    let mut engine = StorageEngine::new("d".to_string());
    engine.create_table("t", vec!["c".to_string()]);
    engine.insert_row("t", row(&[("c", "1")])).unwrap();
    engine.insert_row("t", row(&[("c", "2")])).unwrap();
    let good = image(&engine);
    assert!(StorageEngine::deserialize(&good).is_ok());
    let n = good.len();
    // the two keys, 1 and 2, are the last four bytes: swap them
    let mut unsorted = good.clone();
    unsorted[n - 4] = 2;
    unsorted[n - 2] = 1;
    assert_eq!(StorageEngine::deserialize(&unsorted), Err(StorageError::InvalidData));
    // a leaf flag that is neither 0 nor 1
    let mut flag = good.clone();
    flag[n - 13] = 7;
    assert_eq!(StorageEngine::deserialize(&flag), Err(StorageError::InvalidData));
    // a minimum degree of 1
    let mut degree = good.clone();
    degree[n - 22] = 1;
    assert_eq!(StorageEngine::deserialize(&degree), Err(StorageError::InvalidData));
    // a row identifier that is not the row's place
    let mut engine2 = StorageEngine::new("d".to_string());
    engine2.create_table("t", Vec::new());
    engine2.insert_row("t", row(&[])).unwrap();
    let mut ids = image(&engine2);
    let at = ids.len() - 24;
    assert_eq!(ids[at], 0);
    ids[at] = 1;
    assert_eq!(StorageEngine::deserialize(&ids), Err(StorageError::InvalidData));
}

#[test]
fn two_tables_of_one_name_are_invalid() {
    let mut engine = StorageEngine::new("d".to_string());
    engine.create_table("a", Vec::new());
    engine.create_table("b", Vec::new());
    let mut bytes = image(&engine);
    let n = bytes.len();
    // the second table's name is 25 bytes before the end
    assert_eq!(bytes[n - 25], b'b');
    bytes[n - 25] = b'a';
    assert_eq!(StorageEngine::deserialize(&bytes), Err(StorageError::InvalidData));
}

#[test]
fn tree_round_trip_keeps_the_shape() {
    let mut tree = BTree::new(2);
    for k in [10u16, 20, 5, 6, 12, 30, 7, 17, 17, 0, 65535] {
        tree.insert(k);
    }
    let mut bytes = Vec::new();
    put_tree(&mut bytes, &tree);
    let (loaded, next) = take_tree(&bytes, 0).unwrap();
    assert_eq!(next, bytes.len());
    assert_eq!(loaded, tree);
    assert!(loaded.is_wf());
}

#[test]
fn numbers_are_written_lowest_byte_first() {
    let mut out = vec![9];
    put_u64(&mut out, 0x0102030405060708);
    assert_eq!(out, vec![9, 8, 7, 6, 5, 4, 3, 2, 1]);
    let mut out = Vec::new();
    put_u16(&mut out, 0x0102);
    assert_eq!(out, vec![2, 1]);
    let mut out = Vec::new();
    put_count(&mut out, 3);
    assert_eq!(out, vec![3, 0, 0, 0, 0, 0, 0, 0]);
}

#[test]
fn text_is_written_behind_its_length() {
    let mut out = Vec::new();
    put_text(&mut out, "é!");
    assert_eq!(out, vec![3, 0, 0, 0, 0, 0, 0, 0, 0xc3, 0xa9, b'!']);
}

#[test]
fn numbers_are_read_at_a_place() {
    let bytes = [0xff, 8, 7, 6, 5, 4, 3, 2, 1, 0xee];
    assert_eq!(take_u64(&bytes, 1), Some((0x0102030405060708, 9)));
    assert_eq!(take_u64(&bytes, 2), Some((0xee01020304050607, 10)));
    assert_eq!(take_u64(&bytes, 3), None);
    assert_eq!(take_u16(&bytes, 1), Some((0x0708, 3)));
    assert_eq!(take_u16(&bytes, 9), None);
    assert_eq!(take_u8(&bytes, 9), Some((0xee, 10)));
    assert_eq!(take_u8(&bytes, 10), None);
    assert_eq!(take_count(&[5, 0, 0, 0, 0, 0, 0, 0], 0), Some((5, 8)));
}

#[test]
fn text_is_read_at_a_place() {
    let bytes = [7, 2, 0, 0, 0, 0, 0, 0, 0, b'h', b'i', b'!'];
    assert_eq!(take_text(&bytes, 1), Some(("hi".to_string(), 11)));
    let short = [3, 0, 0, 0, 0, 0, 0, 0, b'h', b'i'];
    assert_eq!(take_text(&short, 0), None);
    let bad = [1, 0, 0, 0, 0, 0, 0, 0, 0x80];
    assert_eq!(take_text(&bad, 0), None);
    let huge = [0xff, 0xff, 0xff, 0xff, 0xff, 0xff, 0xff, 0xff, b'a'];
    assert_eq!(take_text(&huge, 0), None);
}
