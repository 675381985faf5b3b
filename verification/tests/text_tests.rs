use std::rc::Rc;
use texlog::text::SourceText;

/// Position round-trip: for every offset in range, converting to (row,
/// column) and back yields the same offset.
#[test]
fn row_col_roundtrip() {
    let text = "first line\nsecond\n\nfourth line here\nno final newline";
    let source = SourceText::new(text.to_string());
    for input_index in 0..text.len() {
        let (row, col) = source.row_col(input_index);
        let output_index = source.index(row, col);
        assert_eq!(input_index, output_index);
    }
}

#[test]
fn row_col_values() {
    let source = SourceText::new("ab\ncd\n".to_string());
    assert_eq!(source.row_col(0), (1, 1));
    assert_eq!(source.row_col(1), (1, 2));
    assert_eq!(source.row_col(2), (1, 3));
    assert_eq!(source.row_col(3), (2, 1));
    assert_eq!(source.row_col(5), (2, 3));
    assert_eq!(source.row_col(6), (3, 1));
}

/// Row and column are clamped to at least 1; the column may point past the
/// row's end.
#[test]
fn index_clamps_and_overshoots() {
    let source = SourceText::new("ab\ncd\n".to_string());
    assert_eq!(source.index(0, 0), 0);
    assert_eq!(source.index(1, 1), 0);
    assert_eq!(source.index(1, 3), 2);
    assert_eq!(source.index(2, 1), 3);
    assert_eq!(source.index(2, 10), 12);
    assert_eq!(source.index(5, 1), 6);
}

#[test]
fn text_access() {
    let source = SourceText::new("hello".to_string());
    assert_eq!(source.as_str(), "hello");
    let rc: Rc<String> = source.text();
    assert_eq!(rc.as_str(), "hello");
    let copy = source.clone();
    assert_eq!(copy.as_str(), "hello");
}
