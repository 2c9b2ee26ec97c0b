use clipboard_history::text::{bytes_equal, decode_text, text_equal};

#[test]
fn valid_utf8_decodes_to_its_text() {
    assert_eq!(decode_text(b"hello"), Some("hello".to_string()));
    assert_eq!(decode_text(b""), Some(String::new()));
    assert_eq!(
        decode_text(&[0x68, 0xc3, 0xa9, 0xe2, 0x82, 0xac, 0xf0, 0x9f, 0x98, 0x80]),
        Some("h\u{e9}\u{20ac}\u{1f600}".to_string())
    );
}

#[test]
fn invalid_utf8_decodes_to_nothing() {
    assert_eq!(decode_text(&[0xff]), None);
    assert_eq!(decode_text(&[0x61, 0x80]), None);
    assert_eq!(decode_text(&[0xc3]), None);
    assert_eq!(decode_text(&[0xc0, 0xaf]), None);
    assert_eq!(decode_text(&[0xed, 0xa0, 0x80]), None);
    assert_eq!(decode_text(&[0xf4, 0x90, 0x80, 0x80]), None);
}

#[test]
fn decoded_text_encodes_to_the_same_bytes() {
    let bytes = "gr\u{fc}\u{df}e \u{4e16}\u{754c}".as_bytes();
    let text = decode_text(bytes).unwrap();
    assert_eq!(text.as_bytes(), bytes);
}

#[test]
fn bytes_equal_compares_byte_for_byte() {
    assert!(bytes_equal(b"", b""));
    assert!(bytes_equal(b"abc", b"abc"));
    assert!(!bytes_equal(b"abc", b"abd"));
    assert!(!bytes_equal(b"abc", b"ab"));
    assert!(!bytes_equal(b"ab", b"abc"));
    assert!(!bytes_equal(b"", b"a"));
    assert!(!bytes_equal(b"xbc", b"abc"));
}

#[test]
fn text_equal_compares_whole_texts() {
    assert!(text_equal("", ""));
    assert!(text_equal("caf\u{e9}", "caf\u{e9}"));
    assert!(!text_equal("cafe", "caf\u{e9}"));
    assert!(!text_equal("a", "A"));
    assert!(!text_equal("a", "a "));
    assert!(!text_equal("", " "));
}
