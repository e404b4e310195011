use jordan_db::db::name_map::NameMap;
use jordan_db::db::text::{parse_key, str_eq};

#[test]
fn numerals_are_keys() {
    assert_eq!(parse_key("0"), Some(0));
    assert_eq!(parse_key("30"), Some(30));
    assert_eq!(parse_key("+30"), Some(30));
    assert_eq!(parse_key("007"), Some(7));
    assert_eq!(parse_key("65535"), Some(65535));
    assert_eq!(parse_key("0000000000000000000000065535"), Some(65535));
}

#[test]
fn other_text_is_no_key() {
    for text in [
        "", "+", "-", "-1", "-0", "++1", "1+", " 1", "1 ", "thirty", "3O", "1_000", "65536",
        "99999", "4294967296", "18446744073709551616", "１２", "3é", "é", "0x10", "1.0",
    ] {
        assert_eq!(parse_key(text), None, "{:?}", text);
        assert_eq!(parse_key(text), text.parse::<u16>().ok(), "{:?}", text);
    }
}

#[test]
fn keys_are_what_std_parses() {
    for n in 0..=70000u32 {
        let text = n.to_string();
        assert_eq!(parse_key(&text), text.parse::<u16>().ok());
    }
}

#[test]
fn same_text_is_equal() {
    assert!(str_eq("", ""));
    assert!(str_eq("age", "age"));
    assert!(!str_eq("age", "Age"));
    assert!(!str_eq("age", "ages"));
    assert!(!str_eq("ages", "age"));
    assert!(str_eq("määrä", "määrä"));
    assert!(!str_eq("määrä", "maara"));
}

#[test]
fn name_map_keeps_order_and_replaces() {
    let mut map: NameMap<u32> = NameMap::new();
    assert_eq!(map.len(), 0);
    assert_eq!(map.insert("b".to_string(), 1), None);
    assert_eq!(map.insert("a".to_string(), 2), None);
    assert_eq!(map.insert("b".to_string(), 3), Some(1));
    assert_eq!(map.len(), 2);
    assert_eq!(map.names, vec!["b", "a"]);
    assert_eq!(map.values, vec![3, 2]);
    assert_eq!(map.get("a"), Some(&2));
    assert_eq!(map.get("b"), Some(&3));
    assert_eq!(map.get("c"), None);
    assert_eq!(map.position("a"), Some(1));
    assert_eq!(map.position("c"), None);
    assert!(map.contains_key("a"));
    assert!(!map.contains_key(""));
    assert!(map.is_wf());
}

#[test]
fn name_map_with_a_name_twice_is_not_well_formed() {
    let twice = NameMap { names: vec!["a".to_string(), "a".to_string()], values: vec![1, 2] };
    assert!(!twice.is_wf());
    let short = NameMap { names: vec!["a".to_string()], values: Vec::<u8>::new() };
    assert!(!short.is_wf());
}
