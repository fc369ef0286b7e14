//! The records that a search produces, and their mathematical models.

use vstd::prelude::*;

verus! {

/// A place in a source file: a 0-based line and a 0-based column, the column
/// counted in bytes from the start of the line.
#[derive(Clone, Copy, Debug, PartialEq, Eq, Structural)]
pub struct Position {
    pub row: usize,
    pub column: usize,
}

impl Position {
    /// The position at `row` and `column`.
    pub fn new(row: usize, column: usize) -> (p: Position)
        ensures
            p.row == row,
            p.column == column,
    {
        Position { row, column }
    }
}

/// One capture of one match: its name, where it starts and ends, and the source
/// text it spans. The file it was found in is that of the `ExtractedFile` that
/// holds it.
#[derive(Clone, Debug, PartialEq, Eq)]
pub struct ExtractedRecord {
    pub name: String,
    pub start: Position,
    pub end: Position,
    pub text: String,
}

/// The model of an `ExtractedRecord`.
pub struct RecordView {
    pub name: Seq<char>,
    pub start: Position,
    pub end: Position,
    pub text: Seq<char>,
}

impl View for ExtractedRecord {
    type V = RecordView;

    open spec fn view(&self) -> RecordView {
        RecordView { name: self.name@, start: self.start, end: self.end, text: self.text@ }
    }
}

impl DeepView for ExtractedRecord {
    type V = RecordView;

    open spec fn deep_view(&self) -> RecordView {
        self@
    }
}

impl ExtractedRecord {
    /// The record of a capture called `name` that spans `text` from `start` to `end`.
    pub fn new(name: String, start: Position, end: Position, text: String) -> (r: ExtractedRecord)
        ensures
            r@ == (RecordView { name: name@, start, end, text: text@ }),
    {
        ExtractedRecord { name, start, end, text }
    }
}

/// A file and the records found in it, in the order in which they were found.
#[derive(Clone, Debug, PartialEq, Eq)]
pub struct ExtractedFile {
    pub path: String,
    pub records: Vec<ExtractedRecord>,
}

/// The model of an `ExtractedFile`.
pub struct FileView {
    pub path: Seq<char>,
    pub records: Seq<RecordView>,
}

impl View for ExtractedFile {
    type V = FileView;

    open spec fn view(&self) -> FileView {
        FileView { path: self.path@, records: self.records.deep_view() }
    }
}

impl DeepView for ExtractedFile {
    type V = FileView;

    open spec fn deep_view(&self) -> FileView {
        self@
    }
}

impl ExtractedFile {
    /// The file at `path` with its `records`.
    pub fn new(path: String, records: Vec<ExtractedRecord>) -> (f: ExtractedFile)
        ensures
            f@ == (FileView { path: path@, records: records.deep_view() }),
    {
        ExtractedFile { path, records }
    }
}

/// One line of output: a record together with the path of its file.
pub struct OutputRecord {
    pub path: Seq<char>,
    pub name: Seq<char>,
    pub start: Position,
    pub end: Position,
    pub text: Seq<char>,
}

/// The output records of one file, in order.
pub open spec fn file_output(file: FileView) -> Seq<OutputRecord> {
    Seq::new(
        file.records.len(),
        |i: int|
            OutputRecord {
                path: file.path,
                name: file.records[i].name,
                start: file.records[i].start,
                end: file.records[i].end,
                text: file.records[i].text,
            },
    )
}

/// The output records of a collection: those of its files, one file after the
/// other.
pub open spec fn collection_output(files: Seq<FileView>) -> Seq<OutputRecord>
    decreases files.len(),
{
    if files.len() == 0 {
        Seq::empty()
    } else {
        collection_output(files.drop_last()) + file_output(files.last())
    }
}

} // verus!
