use clipboard_history::history::{History, HISTORY_CAPACITY};

fn texts(history: &History) -> Vec<String> {
    history.entries().clone()
}

fn strings(items: &[&str]) -> Vec<String> {
    items.iter().map(|s| s.to_string()).collect()
}

fn values(items: &[&str]) -> Vec<Vec<u8>> {
    items.iter().map(|s| s.as_bytes().to_vec()).collect()
}

#[test]
fn new_history_is_empty() {
    let history = History::new();
    assert_eq!(history.len(), 0);
    assert!(history.entries().is_empty());
}

#[test]
fn new_entry_goes_to_the_front() {
    let mut history = History::new();
    assert!(history.on_new_entry("first".to_string()));
    assert!(history.on_new_entry("second".to_string()));
    assert_eq!(texts(&history), strings(&["second", "first"]));
}

#[test]
fn known_entry_is_ignored_wherever_it_stands() {
    let mut history = History::new();
    for t in ["a", "b", "c"] {
        history.on_new_entry(t.to_string());
    }
    assert!(!history.on_new_entry("a".to_string()));
    assert!(!history.on_new_entry("c".to_string()));
    assert_eq!(texts(&history), strings(&["c", "b", "a"]));
}

#[test]
fn same_text_twice_in_a_row_changes_nothing() {
    let mut history = History::new();
    history.on_new_entry("x".to_string());
    assert!(history.on_new_entry("y".to_string()));
    let after_first = texts(&history);
    assert!(!history.on_new_entry("y".to_string()));
    assert_eq!(texts(&history), after_first);
}

#[test]
fn distinct_texts_leave_the_last_ten_newest_first() {
    let mut history = History::new();
    for i in 0..25 {
        assert!(history.on_new_entry(format!("text {}", i)));
        assert!(history.len() <= HISTORY_CAPACITY);
    }
    let expected: Vec<String> = (15..25).rev().map(|i| format!("text {}", i)).collect();
    assert_eq!(texts(&history), expected);
}

#[test]
fn fewer_than_ten_distinct_texts_all_stay() {
    let mut history = History::new();
    for i in 0..4 {
        history.on_new_entry(format!("t{}", i));
    }
    assert_eq!(texts(&history), strings(&["t3", "t2", "t1", "t0"]));
}

#[test]
fn eleventh_entry_evicts_exactly_the_oldest() {
    let mut history = History::new();
    for i in 1..=10 {
        history.on_new_entry(format!("e{}", i));
    }
    assert_eq!(history.len(), 10);
    assert!(history.contains("e1"));
    assert!(history.on_new_entry("e11".to_string()));
    assert_eq!(history.len(), 10);
    assert!(!history.contains("e1"));
    for i in 2..=11 {
        assert!(history.contains(&format!("e{}", i)));
    }
    assert_eq!(history.entries()[0], "e11");
    assert_eq!(history.entries()[9], "e2");
}

#[test]
fn evicted_text_may_come_back() {
    let mut history = History::new();
    for i in 0..11 {
        history.on_new_entry(format!("{}", i));
    }
    assert!(!history.contains("0"));
    assert!(history.on_new_entry("0".to_string()));
    assert_eq!(history.entries()[0], "0");
    assert!(!history.contains("1"));
}

#[test]
fn clear_empties_the_history() {
    let mut history = History::new();
    history.on_new_entry("a".to_string());
    history.on_new_entry("b".to_string());
    history.on_clear();
    assert_eq!(history.len(), 0);
    assert!(history.on_new_entry("a".to_string()));
    assert_eq!(texts(&history), strings(&["a"]));
}

#[test]
fn copy_gives_the_entry_at_the_index() {
    let mut history = History::new();
    for t in ["a", "b", "c"] {
        history.on_new_entry(t.to_string());
    }
    assert_eq!(history.on_copy(0), Some("c".to_string()));
    assert_eq!(history.on_copy(1), Some("b".to_string()));
    assert_eq!(history.on_copy(2), Some("a".to_string()));
    assert_eq!(history.on_copy(3), None);
    assert_eq!(history.on_copy(usize::MAX), None);
}

#[test]
fn copy_on_empty_history_gives_nothing() {
    let history = History::new();
    assert_eq!(history.on_copy(0), None);
}

#[test]
fn load_of_nothing_is_empty() {
    let history = History::load(&Vec::new());
    assert_eq!(history.len(), 0);
}

#[test]
fn load_reverses_to_newest_first() {
    let history = History::load(&values(&["one", "two", "three"]));
    assert_eq!(texts(&history), strings(&["three", "two", "one"]));
}

#[test]
fn load_keeps_only_first_occurrences() {
    let history = History::load(&values(&["a", "b", "a", "c", "b", "a"]));
    assert_eq!(texts(&history), strings(&["c", "b", "a"]));
}

#[test]
fn load_skips_values_that_are_not_utf8() {
    let stored = vec![
        b"ok".to_vec(),
        vec![0xff, 0xfe],
        vec![0xc3],
        "caf\u{e9}".as_bytes().to_vec(),
        vec![0xe2, 0x82],
    ];
    let history = History::load(&stored);
    assert_eq!(texts(&history), strings(&["caf\u{e9}", "ok"]));
}

#[test]
fn load_cuts_to_the_ten_newest() {
    let stored: Vec<Vec<u8>> = (0..14).map(|i| format!("v{}", i).into_bytes()).collect();
    let history = History::load(&stored);
    let expected: Vec<String> = (4..14).rev().map(|i| format!("v{}", i)).collect();
    assert_eq!(texts(&history), expected);
}

#[test]
fn load_removes_repetitions_before_it_cuts() {
    let mut stored: Vec<Vec<u8>> = Vec::new();
    for i in 0..8 {
        stored.push(format!("v{}", i).into_bytes());
        stored.push(b"again".to_vec());
    }
    let history = History::load(&stored);
    assert_eq!(
        texts(&history),
        strings(&["v7", "v6", "v5", "v4", "v3", "v2", "v1", "again", "v0"])
    );
}

#[test]
fn load_keeps_an_empty_text() {
    let history = History::load(&vec![Vec::new(), b"x".to_vec()]);
    assert_eq!(texts(&history), strings(&["x", ""]));
}

#[test]
fn loaded_history_takes_new_entries() {
    let mut history = History::load(&values(&["a", "b"]));
    assert!(!history.on_new_entry("a".to_string()));
    assert!(history.on_new_entry("c".to_string()));
    assert_eq!(texts(&history), strings(&["c", "b", "a"]));
}

#[test]
fn display_rows_follow_the_entries() {
    let mut history = History::new();
    history.on_new_entry("short".to_string());
    history.on_new_entry("x".repeat(150));
    let rows = history.display_rows();
    assert_eq!(rows.len(), 2);
    assert_eq!(rows[0], format!("{}...", "x".repeat(100)));
    assert_eq!(rows[1], "short");
}
