use tree_grepper::record::{ExtractedFile, ExtractedRecord, Position};
use tree_grepper::render::{push_file, push_line, render_lines, render_names};
use tree_grepper::text::push_decimal;

fn record(name: &str, row: usize, column: usize, text: &str) -> ExtractedRecord {
    ExtractedRecord::new(name.to_string(), Position::new(row, column), Position::new(row, column + text.len()), text.to_string())
}

#[test]
fn line_of_a_record() {
    let mut out = String::from(">");
    push_line(&mut out, "src/a.rs", &record("id", 0, 4, "x"));
    assert_eq!(out, ">src/a.rs:1:5:id:x\n");
}

#[test]
fn line_keeps_the_text_as_it_is() {
    let mut out = String::new();
    push_line(&mut out, "a b:c", &record("q:r", 9, 99, "f(\"é\",\n  1)"));
    assert_eq!(out, "a b:c:10:100:q:r:f(\"é\",\n  1)\n");
}

#[test]
fn line_at_the_end_of_the_range() {
    let mut out = String::new();
    push_line(&mut out, "f", &record("n", usize::MAX, usize::MAX - 1, ""));
    assert_eq!(out, format!("f:{}:{}:n:\n", usize::MAX as u128 + 1, usize::MAX));
}

#[test]
fn lines_of_a_file() {
    let file = ExtractedFile::new("m.js".to_string(), vec![record("a", 0, 0, "x"), record("b", 2, 7, "yz")]);
    let mut out = String::new();
    push_file(&mut out, &file);
    assert_eq!(out, "m.js:1:1:a:x\nm.js:3:8:b:yz\n");
    let mut out = String::from("kept");
    push_file(&mut out, &ExtractedFile::new("none".to_string(), vec![]));
    assert_eq!(out, "kept");
}

#[test]
fn lines_of_a_collection() {
    let files = vec![
        ExtractedFile::new("b".to_string(), vec![record("n", 1, 1, "2")]),
        ExtractedFile::new("a".to_string(), vec![record("n", 0, 0, "1"), record("m", 0, 2, "3")]),
    ];
    assert_eq!(render_lines(&files), "b:2:2:n:2\na:1:1:n:1\na:1:3:m:3\n");
    assert_eq!(render_lines(&vec![]), "");
}

#[test]
fn names_on_lines() {
    assert_eq!(render_names(&vec!["elm".to_string(), "rust".to_string()]), "elm\nrust\n");
    assert_eq!(render_names(&vec![]), "");
    assert_eq!(render_names(&vec![String::new()]), "\n");
}

#[test]
fn decimal_numerals() {
    for (n, text) in [
        (0u128, "0"),
        (7, "7"),
        (10, "10"),
        (99, "99"),
        (100, "100"),
        (1234567890, "1234567890"),
        (u64::MAX as u128, "18446744073709551615"),
        (u128::MAX, "340282366920938463463374607431768211455"),
    ] {
        let mut out = String::from("#");
        push_decimal(&mut out, n);
        assert_eq!(out, format!("#{}", text));
    }
    let mut digits = String::new();
    push_decimal(&mut digits, 1234567890);
    push_decimal(&mut digits, 9876543210);
    assert_eq!(digits, "12345678909876543210");
}
