use kv_store::pageviews::{add_page_views, parse_i64, parse_pageview_line};
use kv_store::{Key, KvError, KvStore, OwnedValue};

fn chars(s: &str) -> Vec<char> {
    s.chars().collect()
}

#[test]
fn parse_i64_matches_std() {
    for s in ["0", "42", "-17", "+8", "007", "9223372036854775807", "-9223372036854775808",
              "9223372036854775808", "-9223372036854775809", "", "-", "+", "1a", " 1", "--1", "١"] {
        assert_eq!(parse_i64(&chars(s)), s.parse::<i64>().ok(), "input {:?}", s);
    }
}

#[test]
fn parse_line_takes_three_words() {
    assert_eq!(
        parse_pageview_line("en Main_Page 42 0\n"),
        Some(("en/Main_Page".to_string(), 42))
    );
    assert_eq!(
        parse_pageview_line("  de\tWikipedia:Hauptseite   -3"),
        Some(("de/Wikipedia:Hauptseite".to_string(), -3))
    );
    assert_eq!(parse_pageview_line("en Main_Page"), None);
    assert_eq!(parse_pageview_line("en Main_Page many"), None);
    assert_eq!(parse_pageview_line(""), None);
    assert_eq!(
        parse_pageview_line("fr Éléphant 5"),
        Some(("fr/Éléphant".to_string(), 5))
    );
}

#[test]
fn add_views_first_file_then_sums() {
    let mut store = KvStore::new();
    let k = || Key::Text("en/Main_Page".to_string());
    add_page_views(&mut store, k(), 10, true).unwrap();
    add_page_views(&mut store, k(), 10, true).unwrap();
    assert_eq!(store.get_owned(&k()).unwrap(), Some(OwnedValue::Integer(10)));
    add_page_views(&mut store, k(), 5, false).unwrap();
    assert_eq!(store.get_owned(&k()).unwrap(), Some(OwnedValue::Integer(15)));
    let other = Key::Text("de/X".to_string());
    add_page_views(&mut store, other.clone(), 7, false).unwrap();
    assert_eq!(store.get_owned(&other).unwrap(), Some(OwnedValue::Integer(7)));
}

#[test]
fn add_views_leaves_other_kinds_and_reports_corruption() {
    let mut store = KvStore::new();
    let k = Key::Text("x/y".to_string());
    store.insert(k.clone(), OwnedValue::Bool(true));
    let len = store.storage_len();
    add_page_views(&mut store, k.clone(), 3, false).unwrap();
    assert_eq!(store.storage_len(), len);
    assert_eq!(store.get_owned(&k).unwrap(), Some(OwnedValue::Bool(true)));

    let off = store.test_get_offset(&k);
    store.test_corrupt_byte(off + 13);
    assert!(matches!(add_page_views(&mut store, k, 3, false), Err(KvError::Corrupted(_))));
}
