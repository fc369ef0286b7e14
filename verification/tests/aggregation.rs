use tree_grepper::aggregate::aggregate;
use tree_grepper::cli::{QueryFormat, QueryOpts};
use tree_grepper::discovery::WalkPlan;
use tree_grepper::do_query;
use tree_grepper::extractor::{Extractor, FileRead};
use tree_grepper::failure::{FailureKind, FileFailure};
use tree_grepper::record::{ExtractedFile, ExtractedRecord, Position};
use tree_grepper::sorting::{reversed, sort_files};

type Outcome = Result<Option<ExtractedFile>, FileFailure>;

fn file(path: &str, texts: &[&str]) -> ExtractedFile {
    let records = texts
        .iter()
        .enumerate()
        .map(|(i, text)| {
            ExtractedRecord::new("n".to_string(), Position::new(i, 0), Position::new(i, text.len()), text.to_string())
        })
        .collect();
    ExtractedFile::new(path.to_string(), records)
}

fn failure(path: &str, kind: FailureKind) -> FileFailure {
    FileFailure { path: path.to_string(), kind, detail: String::new() }
}

fn outcomes() -> Vec<Outcome> {
    vec![
        Ok(Some(file("src/b.rs", &["1"]))),
        Err(failure("src/bad.rs", FailureKind::NotUtf8)),
        Ok(None),
        Ok(Some(file("src/a.rs", &["2", "3"]))),
        Ok(Some(file("lib.rs", &["4"]))),
        Err(failure("gone.rs", FailureKind::Unreadable)),
        Ok(Some(file("src/a.rs", &["5"]))),
    ]
}

fn opts(format: QueryFormat, sort: bool) -> QueryOpts {
    QueryOpts {
        extractors: vec![],
        walk: WalkPlan {
            first: ".".to_string(),
            rest: vec![],
            hidden: true,
            parents: true,
            ignore: true,
            git_ignore: true,
            git_exclude: true,
            git_global: true,
        },
        format,
        sort,
        overrides: vec![],
    }
}

fn tuples(files: &[ExtractedFile]) -> Vec<(String, String, Position, Position, String)> {
    let mut all = Vec::new();
    for file in files {
        for r in &file.records {
            all.push((file.path.clone(), r.name.clone(), r.start, r.end, r.text.clone()));
        }
    }
    all.sort_by(|a, b| (&a.0, &a.1, a.2.row, a.2.column, &a.4).cmp(&(&b.0, &b.1, b.2.row, b.2.column, &b.4)));
    all
}

#[test]
fn unsorted_results_keep_the_order_of_arrival() {
    let all = aggregate(outcomes(), false);
    assert_eq!(
        all.files,
        vec![file("src/b.rs", &["1"]), file("src/a.rs", &["2", "3"]), file("lib.rs", &["4"]), file("src/a.rs", &["5"])]
    );
    assert_eq!(
        all.failures,
        vec![failure("src/bad.rs", FailureKind::NotUtf8), failure("gone.rs", FailureKind::Unreadable)]
    );
}

#[test]
fn sorted_results_go_by_path_and_keep_ties_in_order() {
    let all = aggregate(outcomes(), true);
    assert_eq!(
        all.files,
        vec![file("lib.rs", &["4"]), file("src/a.rs", &["2", "3"]), file("src/a.rs", &["5"]), file("src/b.rs", &["1"])]
    );
    assert_eq!(
        all.failures,
        vec![failure("src/bad.rs", FailureKind::NotUtf8), failure("gone.rs", FailureKind::Unreadable)]
    );
}

#[test]
fn nothing_in_nothing_out() {
    let all = aggregate(vec![], true);
    assert!(all.files.is_empty() && all.failures.is_empty());
    let all = aggregate(vec![Ok(None), Ok(None)], false);
    assert!(all.files.is_empty() && all.failures.is_empty());
}

#[test]
fn paths_sort_by_their_bytes() {
    let paths = ["b", "a/b", "a-b", "a", "", "é", "z", "B", "a/", "a.rs", "ab"];
    let files: Vec<ExtractedFile> = paths.iter().map(|p| file(p, &["x"])).collect();
    let sorted: Vec<String> = sort_files(files).into_iter().map(|f| f.path).collect();
    assert_eq!(sorted, vec!["", "B", "a", "a-b", "a.rs", "a/", "a/b", "ab", "b", "z", "é"]);
    let mut expected: Vec<String> = paths.iter().map(|p| p.to_string()).collect();
    expected.sort();
    assert_eq!(sorted, expected);
}

#[test]
fn sorting_is_idempotent() {
    let once = sort_files(aggregate(outcomes(), false).files);
    let twice = sort_files(once.clone());
    assert_eq!(once, twice);
    let single = sort_files(vec![file("a", &["1"])]);
    assert_eq!(single, vec![file("a", &["1"])]);
    assert_eq!(sort_files(vec![]), Vec::<ExtractedFile>::new());
}

#[test]
fn sorting_many_files() {
    let mut files = Vec::new();
    let mut seed: u64 = 7;
    for _ in 0..500 {
        seed = seed.wrapping_mul(6364136223846793005).wrapping_add(1442695040888963407);
        files.push(file(&format!("dir{}/f{}.rs", (seed >> 33) % 7, (seed >> 40) % 50), &["x"]));
    }
    let mut expected: Vec<String> = files.iter().map(|f| f.path.clone()).collect();
    expected.sort();
    let sorted: Vec<String> = sort_files(files).into_iter().map(|f| f.path).collect();
    assert_eq!(sorted, expected);
}

#[test]
fn records_do_not_depend_on_the_order_of_arrival() {
    let forward = aggregate(outcomes(), false);
    let backward = aggregate(reversed(outcomes()), false);
    assert_ne!(forward.files, backward.files);
    assert_eq!(tuples(&forward.files), tuples(&backward.files));
    let mut paths = outcomes();
    paths.remove(6);
    let sorted_forward = aggregate(paths.clone(), true);
    let sorted_backward = aggregate(reversed(paths), true);
    assert_eq!(sorted_forward.files, sorted_backward.files);
}

#[test]
fn reversing_turns_the_order() {
    assert_eq!(reversed(vec![1, 2, 3]), vec![3, 2, 1]);
    assert_eq!(reversed(Vec::<u8>::new()), Vec::<u8>::new());
}

#[test]
fn query_run_collects_and_renders() {
    let output = do_query(&opts(QueryFormat::Lines, true), outcomes());
    assert_eq!(output.files.len(), 4);
    assert_eq!(output.failures.len(), 2);
    assert_eq!(
        output.lines,
        Some("lib.rs:1:1:n:4\nsrc/a.rs:1:1:n:2\nsrc/a.rs:2:1:n:3\nsrc/a.rs:1:1:n:5\nsrc/b.rs:1:1:n:1\n".to_string())
    );
    let unsorted = do_query(&opts(QueryFormat::Lines, false), outcomes());
    assert_eq!(
        unsorted.lines,
        Some("src/b.rs:1:1:n:1\nsrc/a.rs:1:1:n:2\nsrc/a.rs:2:1:n:3\nlib.rs:1:1:n:4\nsrc/a.rs:1:1:n:5\n".to_string())
    );
    for format in [QueryFormat::Json, QueryFormat::JsonLines, QueryFormat::PrettyJson] {
        let output = do_query(&opts(format, true), outcomes());
        assert_eq!(output.lines, None);
        assert_eq!(output.files.len(), 4);
    }
    let empty = do_query(&opts(QueryFormat::Lines, true), vec![]);
    assert_eq!(empty.lines, Some(String::new()));
}

#[test]
fn empty_file_among_valid_files() {
    let extractor = Extractor::new(
        "javascript",
        &tree_sitter::Language::new(tree_sitter_javascript::LANGUAGE),
        &vec!["(number) @n".to_string()],
    )
    .unwrap();
    let outcomes = vec![
        extractor.extract_from_file("dir/b.js", FileRead::Content(b"let b = 2;".to_vec())),
        extractor.extract_from_file("dir/empty.js", FileRead::Content(Vec::new())),
        extractor.extract_from_file("dir/a.js", FileRead::Content(b"let a = 1;".to_vec())),
    ];
    let output = do_query(&opts(QueryFormat::Lines, true), outcomes);
    assert!(output.failures.is_empty());
    assert_eq!(output.lines, Some("dir/a.js:1:9:n:1\ndir/b.js:1:9:n:2\n".to_string()));
}
