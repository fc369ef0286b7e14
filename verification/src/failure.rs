//! What can go wrong: with the configuration, before any file is read, and
//! with one file, while the others go on.

use vstd::prelude::*;

verus! {

/// A fault of the configuration. It ends the run before any work begins.
#[derive(Clone, Debug, PartialEq, Eq)]
pub enum ConfigError {
    /// No query was given.
    NoQuery,
    /// The output format has no such name.
    UnknownFormat,
    /// No root path was given.
    NoRoots,
    /// The root path at this index does not exist.
    MissingRoot { root: usize },
    /// The query at this index names a language that the registry does not know.
    UnknownLanguage { query: usize },
    /// The pattern of the query at this index does not compile, or, where all
    /// patterns of its language compile one by one, their union does not.
    InvalidQuery { query: usize, message: String },
}

/// Why a list of patterns gave no extractor: the engine does not compile the
/// pattern at `pattern`, or, where `pattern` is the number of patterns, their
/// union. `message` is the engine's account of it.
#[derive(Clone, Debug, PartialEq, Eq)]
pub struct QueryFault {
    pub pattern: usize,
    pub message: String,
}

/// Why one file gave no result.
#[derive(Clone, Copy, Debug, PartialEq, Eq, Structural)]
pub enum FailureKind {
    /// The file could not be read.
    Unreadable,
    /// The file's content is not valid UTF-8.
    NotUtf8,
    /// The engine gave no tree for the file.
    NoTree,
    /// The engine reported a capture whose name the query does not have.
    UnknownCapture,
    /// The engine reported a capture that does not lie on character boundaries
    /// of the source.
    BadRange,
    /// The engine reported a capture whose positions are not those of its
    /// byte offsets in the source.
    BadPosition,
}

/// The failure of one file: which file, why, and what the reader of the file
/// said, where it was the reader that failed.
#[derive(Clone, Debug, PartialEq, Eq)]
pub struct FileFailure {
    pub path: String,
    pub kind: FailureKind,
    pub detail: String,
}

/// The model of a `FileFailure`.
pub struct FailureView {
    pub path: Seq<char>,
    pub kind: FailureKind,
    pub detail: Seq<char>,
}

impl View for FileFailure {
    type V = FailureView;

    open spec fn view(&self) -> FailureView {
        FailureView { path: self.path@, kind: self.kind, detail: self.detail@ }
    }
}

impl DeepView for FileFailure {
    type V = FailureView;

    open spec fn deep_view(&self) -> FailureView {
        self@
    }
}

} // verus!
