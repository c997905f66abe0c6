use csf_reader::compose::{flatten_items, overlap_strings};
use csf_reader::index::DisplayItem;

fn item(x: i32, y: i32, z: i32, content: &str) -> DisplayItem {
    DisplayItem { x, y, z, content: content.to_string() }
}

#[test]
fn overlay_precedence() {
    // A non-space overlay character wins its column; a space never erases
    // base ink.
    assert_eq!(overlap_strings("AAAA", " B  "), "ABAA");
}

#[test]
fn overlay_longer_tail_is_appended() {
    assert_eq!(overlap_strings("AB", "  CD"), "ABCD");
}

#[test]
fn blank_overlay_keeps_base_row() {
    assert_eq!(overlap_strings("AB", "    "), "AB");
    assert_eq!(overlap_strings("AB", ""), "AB");
}

#[test]
fn blank_base_row_takes_overlay_verbatim() {
    // No leading-space corruption: the overlay replaces the blank row as-is.
    assert_eq!(overlap_strings("    ", " B "), " B ");
    assert_eq!(overlap_strings("", "xy"), "xy");
}

#[test]
fn single_item_reproduces_its_offset_block() {
    let it = item(2, 1, 0, "ab\ncd");
    let refs = vec![&it];
    assert_eq!(flatten_items(refs), "\n  ab\n  cd");
}

#[test]
fn single_item_without_offset_is_verbatim() {
    let it = item(0, 0, 0, "ab\ncd");
    let refs = vec![&it];
    assert_eq!(flatten_items(refs), "ab\ncd");
}

#[test]
fn flatten_no_items_is_empty() {
    let refs: Vec<&DisplayItem> = Vec::new();
    assert_eq!(flatten_items(refs), "");
}

#[test]
fn later_item_paints_over_earlier_where_it_has_ink() {
    let base = item(0, 0, 0, "AAAA\nAAAA");
    let over = item(1, 0, 1, "B\nB");
    let refs = vec![&base, &over];
    assert_eq!(flatten_items(refs), "ABAA\nABAA");
}

#[test]
fn rows_beyond_the_buffer_are_appended() {
    let short = item(0, 0, 0, "top");
    let tall = item(0, 1, 1, "mid\nbot");
    let refs = vec![&short, &tall];
    assert_eq!(flatten_items(refs), "top\nmid\nbot");
}

#[test]
fn offset_content_lines_layout() {
    let it = item(3, 2, 0, "x\ny");
    let lines = it.offset_content_lines();
    assert_eq!(lines, vec!["".to_string(), "".to_string(), "   x".to_string(), "   y".to_string()]);
}
