use tree_grepper::lines::LineIndex;
use tree_grepper::record::Position;
use tree_grepper::text::{
    bytes_eq, bytes_le, ends_with_extension, find_file_name, slice_str, str_eq, str_le,
};

#[test]
fn bytes_are_ordered_lexicographically() {
    assert!(bytes_le(b"", b""));
    assert!(bytes_le(b"", b"a"));
    assert!(!bytes_le(b"a", b""));
    assert!(bytes_le(b"a", b"a"));
    assert!(bytes_le(b"a", b"ab"));
    assert!(!bytes_le(b"ab", b"a"));
    assert!(bytes_le(b"ab", b"b"));
    assert!(!bytes_le(b"b", b"ab"));
    assert!(bytes_le(b"a\x00", b"a\xff"));
    assert!(!bytes_le(b"a\xff", b"a\x00z"));
}

#[test]
fn strings_are_ordered_as_str_orders_them() {
    let words = ["", "a", "A", "ab", "b", "é", "e", "z", "a/b", "a-b", "日本", "~"];
    for a in words {
        for b in words {
            assert_eq!(str_le(a, b), a <= b, "{:?} {:?}", a, b);
            assert_eq!(str_eq(a, b), a == b, "{:?} {:?}", a, b);
            assert_eq!(bytes_eq(a.as_bytes(), b.as_bytes()), a == b);
        }
    }
}

#[test]
fn file_name_starts_after_the_last_separator() {
    assert_eq!(find_file_name(b""), 0);
    assert_eq!(find_file_name(b"a.rs"), 0);
    assert_eq!(find_file_name(b"/a.rs"), 1);
    assert_eq!(find_file_name(b"src/lib/a.rs"), 8);
    assert_eq!(find_file_name(b"src/"), 4);
    assert_eq!(find_file_name(b"//"), 2);
}

#[test]
fn extension_follows_a_dot_at_the_end() {
    assert!(ends_with_extension(b"a.rs", b"rs"));
    assert!(ends_with_extension(b"a.tar.gz", b"gz"));
    assert!(ends_with_extension(b"a.tar.gz", b"tar.gz"));
    assert!(ends_with_extension(b".rs", b"rs"));
    assert!(!ends_with_extension(b"rs", b"rs"));
    assert!(!ends_with_extension(b"ars", b"rs"));
    assert!(!ends_with_extension(b"a.rs", b"r"));
    assert!(!ends_with_extension(b"a.rs", b".rs"));
    assert!(!ends_with_extension(b"a.rs", b"s"));
    assert!(!ends_with_extension(b"", b"rs"));
    assert!(ends_with_extension(b"a.", b""));
    assert!(!ends_with_extension(b"a", b""));
    assert!(!ends_with_extension(b"", b""));
}

#[test]
fn slices_lie_on_character_boundaries() {
    let source = "aé日b";
    assert_eq!(slice_str(source, 0, 0), Some(""));
    assert_eq!(slice_str(source, 0, 1), Some("a"));
    assert_eq!(slice_str(source, 1, 3), Some("é"));
    assert_eq!(slice_str(source, 3, 6), Some("日"));
    assert_eq!(slice_str(source, 0, 7), Some("aé日b"));
    assert_eq!(slice_str(source, 7, 7), Some(""));
    assert_eq!(slice_str(source, 1, 2), None);
    assert_eq!(slice_str(source, 2, 3), None);
    assert_eq!(slice_str(source, 4, 6), None);
    assert_eq!(slice_str(source, 3, 1), None);
    assert_eq!(slice_str(source, 0, 8), None);
    assert_eq!(slice_str(source, 8, 9), None);
    assert_eq!(slice_str("", 0, 0), Some(""));
    assert_eq!(slice_str("", 0, 1), None);
}

#[test]
fn positions_count_rows_and_bytes() {
    let text = "ab\ncdé\n\nx";
    let index = LineIndex::new(text.as_bytes());
    let expected = [
        (0, 0, 0),
        (1, 0, 1),
        (2, 0, 2),
        (3, 1, 0),
        (4, 1, 1),
        (5, 1, 2),
        (6, 1, 3),
        (7, 1, 4),
        (8, 2, 0),
        (9, 3, 0),
        (10, 3, 1),
    ];
    for (offset, row, column) in expected {
        assert!(index.fits(offset, Position::new(row, column)), "{}", offset);
        assert!(!index.fits(offset, Position::new(row + 1, column)));
        assert!(!index.fits(offset, Position::new(row, column + 1)));
        if row > 0 {
            assert!(!index.fits(offset, Position::new(row - 1, column)));
        }
    }
    assert!(!index.fits(11, Position::new(3, 2)));
    assert!(!index.fits(3, Position::new(0, 3)));
    let empty = LineIndex::new(b"");
    assert!(empty.fits(0, Position::new(0, 0)));
    assert!(!empty.fits(0, Position::new(0, 1)));
    assert!(!empty.fits(1, Position::new(0, 1)));
    assert!(!empty.fits(0, Position::new(usize::MAX, 0)));
}
