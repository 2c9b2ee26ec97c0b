use clipboard_history::display::{display_text, DISPLAY_LIMIT};

#[test]
fn short_text_is_shown_as_it_is() {
    assert_eq!(display_text("hello"), "hello");
    assert_eq!(display_text(""), "");
}

#[test]
fn text_of_exactly_the_limit_is_shown_in_full() {
    let text = "a".repeat(DISPLAY_LIMIT);
    assert_eq!(display_text(&text), text);
}

#[test]
fn text_one_over_the_limit_is_cut_and_marked() {
    let text = format!("{}b", "a".repeat(100));
    assert_eq!(display_text(&text), format!("{}...", "a".repeat(100)));
}

#[test]
fn long_text_shows_its_first_hundred_characters() {
    let text: String = (0..250).map(|i| char::from(b'a' + (i % 26) as u8)).collect();
    let shown = display_text(&text);
    assert_eq!(shown.len(), 103);
    assert_eq!(&shown[..100], &text[..100]);
    assert_eq!(&shown[100..], "...");
}

#[test]
fn the_limit_counts_characters_not_bytes() {
    let text = "\u{e9}".repeat(100);
    assert_eq!(text.len(), 200);
    assert_eq!(display_text(&text), text);
    let longer = "\u{e9}".repeat(101);
    assert_eq!(display_text(&longer), format!("{}...", "\u{e9}".repeat(100)));
}

#[test]
fn a_cut_never_splits_a_character() {
    let text = format!("{}{}", "a".repeat(99), "\u{1f600}\u{1f600}");
    assert_eq!(text.chars().count(), 101);
    assert_eq!(display_text(&text), format!("{}\u{1f600}...", "a".repeat(99)));
}
