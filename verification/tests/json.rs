use serde_json::Value;
use tree_grepper::extractor::Extractor;
use tree_grepper::record::{ExtractedFile, ExtractedRecord, Position};

fn quoted(text: &str) -> String {
    serde_json::to_string(&Value::String(text.to_string())).unwrap()
}

fn position_text(position: Position) -> String {
    format!("{{\"row\":{},\"column\":{}}}", position.row, position.column)
}

// The text that the program writes for one file: the fields in the order in
// which its JSON types declare them.
fn file_text(file: &ExtractedFile) -> String {
    let matches: Vec<String> = file
        .records
        .iter()
        .map(|record| {
            format!(
                "{{\"name\":{},\"start\":{},\"end\":{},\"text\":{}}}",
                quoted(&record.name),
                position_text(record.start),
                position_text(record.end),
                quoted(&record.text)
            )
        })
        .collect();
    format!("{{\"path\":{},\"matches\":[{}]}}", quoted(&file.path), matches.join(","))
}

fn compact_text(files: &[ExtractedFile]) -> String {
    let files: Vec<String> = files.iter().map(file_text).collect();
    format!("[{}]", files.join(","))
}

fn pretty_position(position: Position) -> String {
    format!(
        "{{\n          \"row\": {},\n          \"column\": {}\n        }}",
        position.row, position.column
    )
}

fn pretty_text(files: &[ExtractedFile]) -> String {
    if files.is_empty() {
        return "[]".to_string();
    }
    let files: Vec<String> = files
        .iter()
        .map(|file| {
            let matches: Vec<String> = file
                .records
                .iter()
                .map(|record| {
                    format!(
                        "      {{\n        \"name\": {},\n        \"start\": {},\n        \"end\": {},\n        \"text\": {}\n      }}",
                        quoted(&record.name),
                        pretty_position(record.start),
                        pretty_position(record.end),
                        quoted(&record.text)
                    )
                })
                .collect();
            format!(
                "  {{\n    \"path\": {},\n    \"matches\": [\n{}\n    ]\n  }}",
                quoted(&file.path),
                matches.join(",\n")
            )
        })
        .collect();
    format!("[\n{}\n]", files.join(",\n"))
}

fn position_of(value: &Value) -> Position {
    Position::new(value["row"].as_u64().unwrap() as usize, value["column"].as_u64().unwrap() as usize)
}

fn file_of(value: &Value) -> ExtractedFile {
    let records = value["matches"]
        .as_array()
        .unwrap()
        .iter()
        .map(|m| {
            ExtractedRecord::new(
                m["name"].as_str().unwrap().to_string(),
                position_of(&m["start"]),
                position_of(&m["end"]),
                m["text"].as_str().unwrap().to_string(),
            )
        })
        .collect();
    ExtractedFile::new(value["path"].as_str().unwrap().to_string(), records)
}

fn collection() -> Vec<ExtractedFile> {
    let extractor = Extractor::new(
        "javascript",
        &tree_sitter::Language::new(tree_sitter_javascript::LANGUAGE),
        &vec!["(string) @s".to_string(), "(identifier)".to_string()],
    )
    .unwrap();
    vec![
        extractor.extract_from_text("dir/a \"b\".js", "let é = \"q\\\"\\n\\u00e9\t日\";").unwrap().unwrap(),
        extractor.extract_from_text("c.js", "x;\ny;").unwrap().unwrap(),
    ]
}

#[test]
fn collection_survives_json() {
    let files = collection();
    for text in [compact_text(&files), pretty_text(&files)] {
        let parsed: Value = serde_json::from_str(&text).unwrap();
        let back: Vec<ExtractedFile> = parsed.as_array().unwrap().iter().map(file_of).collect();
        assert_eq!(back, files);
    }
}

#[test]
fn files_survive_json_line_by_line() {
    let files = collection();
    let text: String = files.iter().map(|f| file_text(f) + "\n").collect();
    let back: Vec<ExtractedFile> =
        text.lines().map(|line| file_of(&serde_json::from_str::<Value>(line).unwrap())).collect();
    assert_eq!(back, files);
}
