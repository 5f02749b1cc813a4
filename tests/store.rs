use clipboard_history::{contains_chars, ClipboardHistory, ClipboardItem, StoreError};

fn item(id: &str, content: &str, created_at: u64, is_favorite: bool) -> ClipboardItem {
    ClipboardItem {
        id: id.to_string(),
        content: content.to_string(),
        content_type: "text".to_string(),
        created_at,
        is_favorite,
    }
}

fn sample() -> ClipboardHistory {
    ClipboardHistory::from_items(vec![
        item("a", "Hello World", 10, false),
        item("b", "goodbye", 30, true),
        item("c", "say HELLO", 20, false),
        item("d", "other", 40, false),
    ])
}

fn ids(items: &[ClipboardItem]) -> Vec<String> {
    items.iter().map(|i| i.id.clone()).collect()
}

#[test]
fn capture_scenario_dedups_and_advances_timestamp() {
    let mut h = ClipboardHistory::new();
    let first = h.add_clipboard_item("hello".to_string(), "text".to_string(), 1000);
    assert_eq!(h.records().len(), 1);
    assert_eq!(h.records()[0].content_type, "text");
    assert_eq!(first.created_at, 1000);
    let again = h.add_clipboard_item("hello".to_string(), "text".to_string(), 1005);
    assert_eq!(h.records().len(), 1);
    assert_eq!(again.id, first.id);
    assert_eq!(h.records()[0].created_at, first.created_at + 5);
    h.add_clipboard_item("world".to_string(), "text".to_string(), 1010);
    assert_eq!(h.records().len(), 2);
}

#[test]
fn add_same_content_twice_keeps_one_record_with_second_time() {
    let mut h = sample();
    h.add_clipboard_item("x".to_string(), "image".to_string(), 100);
    h.add_clipboard_item("x".to_string(), "image".to_string(), 200);
    let hits: Vec<&ClipboardItem> = h
        .records()
        .iter()
        .filter(|i| i.content == "x" && i.content_type == "image")
        .collect();
    assert_eq!(hits.len(), 1);
    assert_eq!(hits[0].created_at, 200);
}

#[test]
fn add_same_content_of_other_kind_is_a_new_record() {
    let mut h = ClipboardHistory::new();
    h.add_clipboard_item("p".to_string(), "text".to_string(), 1);
    h.add_clipboard_item("p".to_string(), "image".to_string(), 1);
    assert_eq!(h.records().len(), 2);
    assert_ne!(h.records()[0].id, h.records()[1].id);
}

#[test]
fn add_generates_fresh_id_in_same_second() {
    let mut h = ClipboardHistory::new();
    let a = h.add_clipboard_item("one".to_string(), "text".to_string(), 7);
    let b = h.add_clipboard_item("two".to_string(), "text".to_string(), 7);
    assert_eq!(a.id, "clipboard-7");
    assert_ne!(a.id, b.id);
    assert!(b.id.starts_with("clipboard-7"));
}

#[test]
fn readding_a_favorite_keeps_the_flag() {
    let mut h = sample();
    let r = h.add_clipboard_item("goodbye".to_string(), "text".to_string(), 99);
    assert_eq!(r.id, "b");
    assert!(r.is_favorite);
    assert_eq!(r.created_at, 99);
    assert_eq!(h.records().len(), 4);
}

#[test]
fn toggle_twice_restores_flag() {
    let mut h = sample();
    let once = h.toggle_favorite_clipboard_item("a".to_string()).unwrap();
    assert!(once.is_favorite);
    let twice = h.toggle_favorite_clipboard_item("a".to_string()).unwrap();
    assert!(!twice.is_favorite);
    assert!(!h.records()[0].is_favorite);
}

#[test]
fn toggle_missing_id_is_not_found() {
    let mut h = sample();
    assert_eq!(h.toggle_favorite_clipboard_item("zz".to_string()).unwrap_err(), StoreError::NotFound);
}

#[test]
fn update_replaces_content_only() {
    let mut h = sample();
    let r = h.update_clipboard_item("b".to_string(), "new text".to_string()).unwrap();
    assert_eq!(r.content, "new text");
    assert_eq!(r.created_at, 30);
    assert!(r.is_favorite);
    assert_eq!(h.records()[1].content, "new text");
    assert_eq!(h.update_clipboard_item("q".to_string(), "x".to_string()).unwrap_err(), StoreError::NotFound);
}

#[test]
fn delete_removes_record() {
    let mut h = sample();
    assert!(h.delete_clipboard_item("c".to_string()).is_ok());
    assert_eq!(ids(h.records()), vec!["a", "b", "d"]);
}

#[test]
fn delete_missing_id_leaves_store_unchanged() {
    let mut h = sample();
    assert_eq!(h.delete_clipboard_item("nope".to_string()), Err(StoreError::NotFound));
    assert_eq!(ids(h.records()), vec!["a", "b", "c", "d"]);
}

#[test]
fn clear_keeps_only_favorites() {
    let mut h = sample();
    h.toggle_favorite_clipboard_item("d".to_string()).unwrap();
    h.clear_clipboard_history();
    assert_eq!(ids(h.records()), vec!["b", "d"]);
    assert!(h.records().iter().all(|i| i.is_favorite));
}

#[test]
fn clear_on_empty_history() {
    let mut h = ClipboardHistory::new();
    h.clear_clipboard_history();
    assert!(h.records().is_empty());
}

#[test]
fn list_is_newest_first() {
    let h = sample();
    assert_eq!(ids(&h.get_all_clipboard_items()), vec!["d", "b", "c", "a"]);
}

#[test]
fn search_empty_query_returns_everything_favorites_first() {
    let h = sample();
    assert_eq!(ids(&h.search_clipboard_items("")), vec!["b", "d", "c", "a"]);
}

#[test]
fn search_is_case_insensitive_substring() {
    let h = sample();
    assert_eq!(ids(&h.search_clipboard_items("hElLo")), vec!["c", "a"]);
    assert_eq!(ids(&h.search_clipboard_items("BYE")), vec!["b"]);
    assert!(h.search_clipboard_items("absent").is_empty());
}

#[test]
fn search_orders_favorites_before_newer_records() {
    let mut h = sample();
    h.toggle_favorite_clipboard_item("a".to_string()).unwrap();
    assert_eq!(ids(&h.search_clipboard_items("hello")), vec!["a", "c"]);
}

#[test]
fn contains_chars_finds_runs() {
    let hay: Vec<char> = "abcabd".chars().collect();
    let hit: Vec<char> = "abd".chars().collect();
    let miss: Vec<char> = "abe".chars().collect();
    let long: Vec<char> = "abcabdx".chars().collect();
    assert!(contains_chars(&hay, &hit));
    assert!(!contains_chars(&hay, &miss));
    assert!(!contains_chars(&hay, &long));
    assert!(contains_chars(&hay, &Vec::new()));
    assert!(contains_chars(&Vec::new(), &Vec::new()));
}

#[test]
fn search_query_case_does_not_matter() {
    let h = sample();
    assert_eq!(ids(&h.search_clipboard_items("HELLO")), ids(&h.search_clipboard_items("hello")));
}
