use mdrefcheck::events::create_options;
use mdrefcheck::position::{compute_line_starts, offset_to_line_col};

#[test]
fn test_compute_line_starts() {
    let text = "line1\nline2\nline3";
    let starts = compute_line_starts(text);
    assert_eq!(starts, vec![0, 6, 12]);
}

#[test]
fn test_offset_to_line_col_exact_match() {
    let text = "a\nb\nc";
    let starts = compute_line_starts(text);
    // offset 0 = line 1, col 1
    assert_eq!(offset_to_line_col(0, &starts), (1, 1));
    // offset 2 = start of line 2
    assert_eq!(offset_to_line_col(2, &starts), (2, 1));
}

#[test]
fn test_offset_to_line_col_between_lines() {
    let text = "hello\nworld";
    let starts = compute_line_starts(text);
    // "world" starts at offset 6
    assert_eq!(offset_to_line_col(7, &starts), (2, 2));
}

#[test]
fn test_offset_to_line_col_end_of_text() {
    let text = "abc";
    let starts = compute_line_starts(text);
    assert_eq!(offset_to_line_col(3, &starts), (1, 4));
}

#[test]
fn test_create_options() {
    let opts = create_options();
    assert!(opts.contains(pulldown_cmark::Options::ENABLE_FOOTNOTES));
    assert!(opts.contains(pulldown_cmark::Options::ENABLE_WIKILINKS));
}
