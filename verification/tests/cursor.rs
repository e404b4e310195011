use jordan_db::db::b_tree::BTree;
use jordan_db::db::cursor::Cursor;

fn drain(cursor: &mut Cursor) -> Vec<u16> {
    let mut keys = Vec::new();
    while let Some(key) = cursor.next() {
        keys.push(key);
    }
    keys
}

#[test]
fn cursor_gives_the_keys_one_by_one() {
    let mut tree = BTree::new(2);
    for k in [10u16, 20, 5, 6, 12, 30, 7, 17] {
        tree.insert(k);
    }
    let mut cursor = Cursor::new(&tree);
    assert_eq!(cursor.next(), Some(5));
    assert_eq!(cursor.next(), Some(6));
    assert_eq!(cursor.next(), Some(7));
    assert_eq!(cursor.next(), Some(10));
    assert_eq!(drain(&mut cursor), vec![12, 17, 20, 30]);
    assert_eq!(cursor.next(), None);
    assert_eq!(cursor.next(), None);
}

#[test]
fn cursor_starts_anew() {
    let mut tree = BTree::new(3);
    let mut state: u32 = 7;
    for _ in 0..500 {
        state = state.wrapping_mul(1664525).wrapping_add(1013904223);
        tree.insert((state >> 16) as u16 % 300);
    }
    let first = drain(&mut Cursor::new(&tree));
    let second = drain(&mut Cursor::new(&tree));
    assert_eq!(first, tree.traverse());
    assert_eq!(second, first);
    assert_eq!(first.len(), 500);
}

#[test]
fn cursor_of_an_empty_tree_gives_nothing() {
    let tree = BTree::new(4);
    assert_eq!(Cursor::new(&tree).next(), None);
}
