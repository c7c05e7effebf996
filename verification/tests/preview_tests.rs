use forghetti::preview::{preview, ESCAPED_BYTES, PREVIEW_WINDOW_BYTES};
use forghetti::store::Store;

#[test]
fn preview_of_text_is_its_first_line() {
    assert_eq!(preview(b"hello\nworld"), "hello");
}

#[test]
fn preview_of_single_line_is_the_line() {
    assert_eq!(preview(b"just one line"), "just one line");
}

#[test]
fn preview_of_leading_newline_is_empty() {
    assert_eq!(preview(b"\nrest"), "");
}

#[test]
fn preview_decodes_multibyte_text() {
    assert_eq!(preview("h\u{e9}llo\nworld".as_bytes()), "h\u{e9}llo");
}

#[test]
fn preview_of_invalid_utf8_is_escaped() {
    let p = preview(&[0xff, 0xfe]);
    assert_eq!(p, "\\xff\\xfe");
    assert!(p.contains("\\xff"));
    assert!(p.contains("\\xfe"));
}

#[test]
fn preview_escapes_all_leading_bytes_of_binary_content() {
    let p = preview(&[0x61, 0xff]);
    assert_eq!(p, "\\x61\\xff");
}

#[test]
fn preview_escape_is_bounded() {
    let content = vec![0xffu8; 3 * ESCAPED_BYTES];
    let p = preview(&content);
    assert_eq!(p, "\\xff".repeat(ESCAPED_BYTES));
}

#[test]
fn preview_reads_a_bounded_window() {
    let content = vec![b'a'; PREVIEW_WINDOW_BYTES + 100];
    let p = preview(&content);
    assert_eq!(p.len(), PREVIEW_WINDOW_BYTES);
    assert!(p.chars().all(|c| c == 'a'));
}

#[test]
fn list_pairs_each_id_with_its_preview() {
    let mut s = Store::new();
    let id_text = s.add(b"hello\nworld");
    let id_bin = s.add(&[0xff, 0xfe]);
    let listing = s.list(None);
    assert_eq!(listing.len(), 2);
    assert_eq!(listing[0].0, id_bin);
    assert_eq!(listing[0].1, "\\xff\\xfe");
    assert_eq!(listing[1].0, id_text);
    assert_eq!(listing[1].1, "hello");
}
