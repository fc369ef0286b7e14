use tree_grepper::extractor::{
    extraction_from_matches, records_from_matches, union_of_patterns, Extractor, FileRead,
};
use tree_grepper::failure::FailureKind;
use tree_grepper::grammar::RawCapture;
use tree_grepper::record::{ExtractedFile, ExtractedRecord, Position};

fn javascript() -> tree_sitter::Language {
    tree_sitter::Language::new(tree_sitter_javascript::LANGUAGE)
}

fn extractor(patterns: &[&str]) -> Extractor {
    let patterns: Vec<String> = patterns.iter().map(|p| p.to_string()).collect();
    Extractor::new("javascript", &javascript(), &patterns).unwrap()
}

fn record(name: &str, start: (usize, usize), end: (usize, usize), text: &str) -> ExtractedRecord {
    ExtractedRecord::new(
        name.to_string(),
        Position::new(start.0, start.1),
        Position::new(end.0, end.1),
        text.to_string(),
    )
}

fn capture(index: u32, bytes: (usize, usize), start: (usize, usize), end: (usize, usize)) -> RawCapture {
    RawCapture::new(index, bytes.0, bytes.1, Position::new(start.0, start.1), Position::new(end.0, end.1))
}

#[test]
fn identifiers_of_a_two_line_source() {
    let found = extractor(&["(identifier)"])
        .extract_from_text("a.js", "let x = 1;\nlet y = x;")
        .unwrap()
        .unwrap();
    assert_eq!(
        found,
        ExtractedFile::new(
            "a.js".to_string(),
            vec![
                record("query", (0, 4), (0, 5), "x"),
                record("query", (1, 4), (1, 5), "y"),
                record("query", (1, 8), (1, 9), "x"),
            ]
        )
    );
}

#[test]
fn no_match_is_absence() {
    let outcome = extractor(&["(class_declaration) @class"]).extract_from_text("a.js", "let x = 1;");
    assert_eq!(outcome, Ok(None));
}

#[test]
fn extraction_is_repeatable() {
    let extractor = extractor(&["(identifier) @id", "(number) @n"]);
    let source = "let x = 1;\nlet y = x + 2;";
    let first = extractor.extract_from_text("a.js", source);
    let second = extractor.extract_from_text("a.js", source);
    assert!(first.is_ok());
    assert_eq!(first, second);
}

#[test]
fn empty_file_yields_nothing() {
    let outcome = extractor(&["(identifier)"]).extract_from_file("empty.js", FileRead::Content(Vec::new()));
    assert_eq!(outcome, Ok(None));
}

#[test]
fn file_with_syntax_errors_is_still_searched() {
    let found = extractor(&["(identifier) @id"])
        .extract_from_text("broken.js", "let = ;\nlet y = 2;")
        .unwrap()
        .unwrap();
    assert!(found.records.iter().any(|r| r.text == "y" && r.start == Position::new(1, 4)));
}

#[test]
fn unreadable_file_fails_alone() {
    let failure = extractor(&["(identifier)"])
        .extract_from_file("gone.js", FileRead::Unreadable("No such file".to_string()))
        .unwrap_err();
    assert_eq!(failure.path, "gone.js");
    assert_eq!(failure.kind, FailureKind::Unreadable);
    assert_eq!(failure.detail, "No such file");
}

#[test]
fn bytes_that_are_no_text_fail() {
    let failure = extractor(&["(identifier)"])
        .extract_from_file("latin1.js", FileRead::Content(vec![b'l', b'e', b't', b' ', 0xe9, b';']))
        .unwrap_err();
    assert_eq!(failure.path, "latin1.js");
    assert_eq!(failure.kind, FailureKind::NotUtf8);
    assert_eq!(failure.detail, "");
}

#[test]
fn file_content_is_read_as_text() {
    let found = extractor(&["(string) @s"])
        .extract_from_file("s.js", FileRead::Content("let a = \"héllo\";".as_bytes().to_vec()))
        .unwrap()
        .unwrap();
    assert_eq!(found.records, vec![record("s", (0, 8), (0, 16), "\"héllo\"")]);
}

#[test]
fn pattern_without_capture_is_captured_as_query() {
    let with_default = extractor(&["(number)"]);
    assert_eq!(with_default.pattern(), "(number)@query\n");
    assert_eq!(with_default.capture_names(), &vec!["query".to_string()]);
    let named = extractor(&["(number) @n"]);
    assert_eq!(named.pattern(), "(number) @n\n");
    assert_eq!(named.capture_names(), &vec!["n".to_string()]);
    assert_eq!(named.identifier(), "javascript");
}

#[test]
fn patterns_are_unioned() {
    let both = extractor(&["(number) @n", "(identifier)"]);
    assert_eq!(both.pattern(), "(number) @n\n(identifier)@query\n");
    assert_eq!(both.capture_names(), &vec!["n".to_string(), "query".to_string()]);
    let found = both.extract_from_text("a.js", "x = 1;").unwrap().unwrap();
    let mut texts: Vec<(String, String)> =
        found.records.iter().map(|r| (r.name.clone(), r.text.clone())).collect();
    texts.sort();
    assert_eq!(
        texts,
        vec![("n".to_string(), "1".to_string()), ("query".to_string(), "x".to_string())]
    );
}

#[test]
fn captures_of_one_match_come_in_pattern_order() {
    let found = extractor(&["(variable_declarator name: (identifier) @name value: (number) @value)"])
        .extract_from_text("a.js", "let x = 1, y = 2;")
        .unwrap()
        .unwrap();
    assert_eq!(
        found.records,
        vec![
            record("name", (0, 4), (0, 5), "x"),
            record("value", (0, 8), (0, 9), "1"),
            record("name", (0, 11), (0, 12), "y"),
            record("value", (0, 15), (0, 16), "2"),
        ]
    );
}

#[test]
fn a_node_captured_twice_gives_two_records() {
    let found = extractor(&["((number) @a) ((number) @b)"])
        .extract_from_text("a.js", "7;")
        .unwrap()
        .unwrap();
    let mut names: Vec<String> = found.records.iter().map(|r| r.name.clone()).collect();
    names.sort();
    assert_eq!(names, vec!["a".to_string(), "b".to_string()]);
    assert!(found.records.iter().all(|r| r.text == "7"));
}

#[test]
fn pattern_that_does_not_compile_is_named() {
    let patterns = vec!["(number) @n".to_string(), "(no_such_node)".to_string(), "(".to_string()];
    let fault = Extractor::new("javascript", &javascript(), &patterns).err().unwrap();
    assert_eq!(fault.pattern, 1);
    assert!(!fault.message.is_empty());
}

#[test]
fn pattern_outside_ascii_goes_to_the_engine() {
    let found = extractor(&["((string) @s (#eq? @s \"\\\"é\\\"\"))", "(number)"])
        .extract_from_text("a.js", "f(\"é\", \"e\", 1);")
        .unwrap()
        .unwrap();
    let mut texts: Vec<(String, String)> =
        found.records.iter().map(|r| (r.name.clone(), r.text.clone())).collect();
    texts.sort();
    assert_eq!(
        texts,
        vec![("query".to_string(), "1".to_string()), ("s".to_string(), "\"é\"".to_string())]
    );
}

#[test]
fn source_outside_ascii_is_searched() {
    let found = extractor(&["(identifier) @id"])
        .extract_from_text("a.js", "let é = ü;")
        .unwrap()
        .unwrap();
    let texts: Vec<&str> = found.records.iter().map(|r| r.text.as_str()).collect();
    assert_eq!(texts, vec!["é", "ü"]);
}

#[test]
fn union_gives_each_pattern_its_capture() {
    let patterns = vec!["(a)".to_string(), "(b) @b".to_string(), "(c)".to_string()];
    assert_eq!(union_of_patterns(&patterns, &vec![false, true, false]), "(a)@query\n(b) @b\n(c)@query\n");
    assert_eq!(union_of_patterns(&patterns, &vec![true, true, true]), "(a)\n(b) @b\n(c)\n");
    assert_eq!(union_of_patterns(&patterns, &vec![true]), "(a)\n(b) @b@query\n(c)@query\n");
    assert_eq!(union_of_patterns(&patterns, &vec![]), "(a)@query\n(b) @b@query\n(c)@query\n");
    assert_eq!(union_of_patterns(&vec![], &vec![true]), "");
    assert_eq!(union_of_patterns(&vec![String::new()], &vec![false]), "@query\n");
}

#[test]
fn no_pattern_gives_an_extractor_that_finds_nothing() {
    let none = extractor(&[]);
    assert_eq!(none.pattern(), "");
    assert_eq!(none.extract_from_text("a.js", "let x = 1;"), Ok(None));
}

#[test]
fn records_follow_the_matches() {
    let names = vec!["a".to_string(), "b".to_string()];
    let matches = vec![
        vec![capture(1, (4, 5), (0, 4), (0, 5)), capture(0, (0, 3), (0, 0), (0, 3))],
        vec![],
        vec![capture(0, (6, 9), (1, 0), (1, 3))],
    ];
    let records = records_from_matches(&names, "let x\nlét", &matches).unwrap();
    assert_eq!(
        records,
        vec![
            record("b", (0, 4), (0, 5), "x"),
            record("a", (0, 0), (0, 3), "let"),
            record("a", (1, 0), (1, 3), "lé"),
        ]
    );
}

#[test]
fn capture_of_an_unknown_name_fails() {
    let names = vec!["a".to_string()];
    let matches = vec![vec![capture(0, (0, 1), (0, 0), (0, 1)), capture(1, (0, 1), (0, 0), (0, 1))]];
    assert_eq!(records_from_matches(&names, "x", &matches), Err(FailureKind::UnknownCapture));
}

#[test]
fn capture_off_the_character_boundaries_fails() {
    let names = vec!["a".to_string()];
    let inside = vec![vec![capture(0, (0, 1), (0, 0), (0, 1))]];
    assert_eq!(records_from_matches(&names, "é", &inside), Err(FailureKind::BadRange));
    let beyond = vec![vec![capture(0, (0, 3), (0, 0), (0, 3))]];
    assert_eq!(records_from_matches(&names, "é", &beyond), Err(FailureKind::BadRange));
    let backwards = vec![vec![capture(0, (2, 0), (0, 2), (0, 0))]];
    assert_eq!(records_from_matches(&names, "é", &backwards), Err(FailureKind::BadRange));
    let whole = vec![vec![capture(0, (0, 2), (0, 0), (0, 2))]];
    assert_eq!(
        records_from_matches(&names, "é", &whole),
        Ok(vec![record("a", (0, 0), (0, 2), "é")])
    );
}

#[test]
fn capture_off_its_position_fails() {
    let names = vec!["a".to_string()];
    let source = "ab\ncd\n";
    let sound = vec![vec![capture(0, (1, 4), (0, 1), (1, 1))]];
    assert_eq!(
        records_from_matches(&names, source, &sound),
        Ok(vec![record("a", (0, 1), (1, 1), "b\nc")])
    );
    for (start, end) in [
        ((5, 1), (0, 1)),
        ((0, 1), (0, 4)),
        ((0, 0), (1, 1)),
        ((0, 1), (1, 2)),
        ((1, 1), (1, 1)),
        ((0, 1), (2, 0)),
    ] {
        let off = vec![vec![capture(0, (1, 4), start, end)]];
        assert_eq!(records_from_matches(&names, source, &off), Err(FailureKind::BadPosition));
    }
    let at_the_end = vec![vec![capture(0, (6, 6), (2, 0), (2, 0))]];
    assert_eq!(
        records_from_matches(&names, source, &at_the_end),
        Ok(vec![record("a", (2, 0), (2, 0), "")])
    );
}

#[test]
fn the_first_fault_decides() {
    let names = vec!["a".to_string()];
    let matches = vec![
        vec![capture(0, (0, 9), (0, 0), (0, 9))],
        vec![capture(5, (0, 1), (0, 0), (0, 1))],
    ];
    assert_eq!(records_from_matches(&names, "x", &matches), Err(FailureKind::BadRange));
}

#[test]
fn outcome_of_matches() {
    let names = vec!["a".to_string()];
    let none = extraction_from_matches("f", &names, "x", None).unwrap_err();
    assert_eq!((none.path.as_str(), none.kind, none.detail.as_str()), ("f", FailureKind::NoTree, ""));
    assert_eq!(extraction_from_matches("f", &names, "x", Some(vec![])), Ok(None));
    assert_eq!(extraction_from_matches("f", &names, "x", Some(vec![vec![], vec![]])), Ok(None));
    assert_eq!(
        extraction_from_matches("f", &names, "x", Some(vec![vec![capture(0, (0, 1), (0, 0), (0, 1))]])),
        Ok(Some(ExtractedFile::new("f".to_string(), vec![record("a", (0, 0), (0, 1), "x")])))
    );
    let bad = extraction_from_matches("f", &names, "x", Some(vec![vec![capture(3, (0, 1), (0, 0), (0, 1))]]))
        .unwrap_err();
    assert_eq!((bad.path.as_str(), bad.kind), ("f", FailureKind::UnknownCapture));
}
