use tree_grepper::chooser::LanguageOverride;
use tree_grepper::cli::{contains_name, patterns_of, Invocation, QueryFormat, QueryRequest, Request};
use tree_grepper::discovery::RootPath;
use tree_grepper::failure::ConfigError;
use tree_grepper::registry::{GrammarRegistry, GrammarRule};
use tree_grepper::{show_languages, try_main, Step};

fn known_languages() -> GrammarRegistry {
    let mut registry = GrammarRegistry::new();
    registry.register(GrammarRule::new(
        "javascript".to_string(),
        tree_sitter::Language::new(tree_sitter_javascript::LANGUAGE),
        vec!["js".to_string()],
        vec![],
    ));
    registry.register(GrammarRule::new(
        "rust".to_string(),
        tree_sitter::Language::new(tree_sitter_rust::LANGUAGE),
        vec!["rs".to_string()],
        vec![],
    ));
    registry
}

fn query(language: &str, pattern: &str) -> QueryRequest {
    QueryRequest { language: language.to_string(), pattern: pattern.to_string() }
}

fn request(queries: Vec<QueryRequest>) -> Request {
    Request {
        show_languages: false,
        queries,
        roots: vec![RootPath { path: ".".to_string(), exists: true }],
        ignore_mode: true,
        format: "lines".to_string(),
        sort: false,
        overrides: vec![],
    }
}

fn fault_of(request: &Request) -> ConfigError {
    match try_main(request, &known_languages()) {
        Err(error) => error,
        Ok(_) => panic!("the request was accepted"),
    }
}

#[test]
fn formats_have_their_names() {
    assert_eq!(QueryFormat::from_name("lines"), Some(QueryFormat::Lines));
    assert_eq!(QueryFormat::from_name("json"), Some(QueryFormat::Json));
    assert_eq!(QueryFormat::from_name("json-lines"), Some(QueryFormat::JsonLines));
    assert_eq!(QueryFormat::from_name("pretty-json"), Some(QueryFormat::PrettyJson));
    assert_eq!(QueryFormat::from_name("Lines"), None);
    assert_eq!(QueryFormat::from_name(""), None);
    assert_eq!(QueryFormat::from_name("json-line"), None);
    for format in [QueryFormat::Lines, QueryFormat::Json, QueryFormat::JsonLines, QueryFormat::PrettyJson] {
        assert_eq!(QueryFormat::from_name(format.name()), Some(format));
    }
}

#[test]
fn languages_are_listed_one_on_a_line() {
    assert_eq!(show_languages(&known_languages()), "javascript\nrust\n");
    assert_eq!(show_languages(&GrammarRegistry::new()), "");
}

#[test]
fn request_for_the_languages_needs_nothing_else() {
    let mut asked = request(vec![]);
    asked.show_languages = true;
    asked.roots = vec![];
    asked.format = "nonsense".to_string();
    match try_main(&asked, &known_languages()) {
        Ok(Step::Print(text)) => assert_eq!(text, "javascript\nrust\n"),
        _ => panic!("no list of languages"),
    }
    match Invocation::from_request(&asked, &known_languages()) {
        Ok(Invocation::ShowLanguages) => {}
        _ => panic!("no list of languages"),
    }
}

#[test]
fn request_without_query_is_refused() {
    assert_eq!(fault_of(&request(vec![])), ConfigError::NoQuery);
}

#[test]
fn unknown_format_is_refused() {
    let mut asked = request(vec![query("rust", "(identifier)")]);
    asked.format = "xml".to_string();
    asked.roots = vec![];
    assert_eq!(fault_of(&asked), ConfigError::UnknownFormat);
}

#[test]
fn request_without_root_is_refused() {
    let mut asked = request(vec![query("cobol", "(")]);
    asked.roots = vec![];
    assert_eq!(fault_of(&asked), ConfigError::NoRoots);
}

#[test]
fn root_path_that_does_not_exist_is_a_fatal_configuration_error() {
    let mut asked = request(vec![query("cobol", "(")]);
    asked.roots = vec![
        RootPath { path: "src".to_string(), exists: true },
        RootPath { path: "does/not/exist".to_string(), exists: false },
    ];
    assert_eq!(fault_of(&asked), ConfigError::MissingRoot { root: 1 });
}

#[test]
fn unknown_language_is_refused() {
    let asked = request(vec![query("rust", "("), query("cobol", "(x)"), query("fortran", "(y)")]);
    assert_eq!(fault_of(&asked), ConfigError::UnknownLanguage { query: 1 });
}

#[test]
fn pattern_that_does_not_compile_is_refused() {
    let asked = request(vec![
        query("rust", "(identifier)"),
        query("javascript", "(identifier"),
        query("rust", "(no_such_node)"),
        query("rust", "(("),
    ]);
    match fault_of(&asked) {
        ConfigError::InvalidQuery { query, message } => {
            assert_eq!(query, 2);
            assert!(!message.is_empty());
        }
        other => panic!("{:?}", other),
    }
    let second_language = request(vec![query("rust", "(identifier)"), query("javascript", "(identifier")]);
    match fault_of(&second_language) {
        ConfigError::InvalidQuery { query, .. } => assert_eq!(query, 1),
        other => panic!("{:?}", other),
    }
}

#[test]
fn pattern_outside_ascii_is_compiled_like_any_other() {
    let asked = request(vec![
        query("javascript", "((string) @s (#eq? @s \"\\\"é\\\"\"))"),
        query("rust", "(("),
    ]);
    match fault_of(&asked) {
        ConfigError::InvalidQuery { query, .. } => assert_eq!(query, 1),
        other => panic!("{:?}", other),
    }
    let accepted = request(vec![query("javascript", "((string) @s (#eq? @s \"\\\"é\\\"\"))")]);
    let opts = match try_main(&accepted, &known_languages()) {
        Ok(Step::Query(opts)) => opts,
        _ => panic!("no query"),
    };
    assert_eq!(opts.extractors[0].pattern(), "((string) @s (#eq? @s \"\\\"é\\\"\"))\n");
    let found = opts.extractors[0].extract_from_text("a.js", "g(\"é\");").unwrap().unwrap();
    assert_eq!(found.records.len(), 1);
    assert_eq!(found.records[0].text, "\"é\"");
}

#[test]
fn query_is_made_ready() {
    let mut asked = request(vec![
        query("rust", "(identifier)"),
        query("javascript", "(number) @n"),
        query("rust", "(string_literal) @s"),
    ]);
    asked.roots = vec![
        RootPath { path: "a".to_string(), exists: true },
        RootPath { path: "b".to_string(), exists: true },
    ];
    asked.ignore_mode = false;
    asked.format = "pretty-json".to_string();
    asked.sort = true;
    asked.overrides = vec![LanguageOverride { path: "x".to_string(), language: "rust".to_string() }];
    let opts = match try_main(&asked, &known_languages()) {
        Ok(Step::Query(opts)) => opts,
        _ => panic!("no query"),
    };
    assert_eq!(opts.format, QueryFormat::PrettyJson);
    assert!(opts.sort);
    assert_eq!(opts.overrides, asked.overrides);
    assert_eq!(opts.walk.first, "a");
    assert_eq!(opts.walk.rest, vec!["b".to_string()]);
    assert_eq!((opts.walk.git_ignore, opts.walk.git_exclude, opts.walk.git_global), (false, false, false));
    assert_eq!((opts.walk.hidden, opts.walk.parents, opts.walk.ignore), (false, false, false));
    assert_eq!(opts.extractors.len(), 2);
    assert_eq!(opts.extractors[0].identifier(), "rust");
    assert_eq!(opts.extractors[0].pattern(), "(identifier)@query\n(string_literal) @s\n");
    assert_eq!(opts.extractors[0].capture_names(), &vec!["query".to_string(), "s".to_string()]);
    assert_eq!(opts.extractors[1].identifier(), "javascript");
    assert_eq!(opts.extractors[1].pattern(), "(number) @n\n");
    let found = opts.extractors[0].extract_from_text("m.rs", "fn f() { \"s\" }").unwrap().unwrap();
    let texts: Vec<&str> = found.records.iter().map(|r| r.text.as_str()).collect();
    assert_eq!(texts, vec!["f", "\"s\""]);
}

#[test]
fn patterns_are_grouped_by_language() {
    let queries = vec![query("a", "1"), query("b", "2"), query("a", "3"), query("c", "4"), query("a", "5")];
    assert_eq!(
        patterns_of(&queries, "a"),
        (vec!["1".to_string(), "3".to_string(), "5".to_string()], vec![0, 2, 4])
    );
    assert_eq!(patterns_of(&queries, "c"), (vec!["4".to_string()], vec![3]));
    assert_eq!(patterns_of(&queries, "d"), (vec![], vec![]));
    let names = vec!["a".to_string(), "b".to_string()];
    assert!(contains_name(&names, "b"));
    assert!(!contains_name(&names, "c"));
    assert!(!contains_name(&vec![], "a"));
}
