//! The parsing and query engine, `tree_sitter`, as this library sees it.
//!
//! But for the constructors of `RawCapture`, nothing in this file is proved. It
//! declares the engine's types, gives names to what the engine computes, and
//! wraps the calls that the library makes: what is said of them here is taken
//! on trust from the engine's source.
//!
//! The engine classifies characters with the C library, whose answers for
//! characters outside ASCII depend on the locale of the process. So the names
//! speak of ASCII texts only: what a pattern of ASCII characters compiles to,
//! and what such a query finds in a source of ASCII characters, are functions
//! of the grammar and the texts. Every pattern and every source goes to the
//! engine all the same; of the others nothing is claimed, and the library
//! accounts for whatever the engine answers. A grammar enters the names as its
//! tables: a `tree_sitter::Language` is a handle to the generated tables of
//! one language.

use crate::record::Position;
use tree_sitter::StreamingIterator;
use vstd::prelude::*;
use vstd::utf8::is_ascii_chars;

verus! {

/// `tree_sitter::Language`: a grammar, the capability to parse one language.
#[verifier::external_type_specification]
#[verifier::external_body]
pub struct ExLanguage(tree_sitter::Language);

/// `tree_sitter::Query`: a compiled query.
#[verifier::external_type_specification]
#[verifier::external_body]
pub struct ExQuery(tree_sitter::Query);

/// `tree_sitter::QueryError`: why a pattern text did not compile.
#[verifier::external_type_specification]
#[verifier::external_body]
pub struct ExQueryError(tree_sitter::QueryError);

/// One captured node as the engine reports it: the index of the capture's name
/// among the names of the query, the node's byte range in the source, and the
/// positions of its first byte and of the byte after its last.
#[derive(Clone, Copy, Debug, PartialEq, Eq, Structural)]
pub struct RawCapture {
    pub index: u32,
    pub start_byte: usize,
    pub end_byte: usize,
    pub start: Position,
    pub end: Position,
}

impl RawCapture {
    /// The capture with these parts.
    pub fn new(index: u32, start_byte: usize, end_byte: usize, start: Position, end: Position) -> (c:
        RawCapture)
        ensures
            c == (RawCapture { index, start_byte, end_byte, start, end }),
    {
        RawCapture { index, start_byte, end_byte, start, end }
    }
}

impl View for RawCapture {
    type V = RawCapture;

    open spec fn view(&self) -> RawCapture {
        *self
    }
}

impl DeepView for RawCapture {
    type V = RawCapture;

    open spec fn deep_view(&self) -> RawCapture {
        *self
    }
}

/// What a grammar holds: the tables that were generated for its language, its
/// symbols, states and node names, written out as bytes. Nothing here reads
/// them; they stand for which grammar a handle leads to.
pub uninterp spec fn grammar_tables(grammar: tree_sitter::Language) -> Seq<u8>;

/// Whether `pattern`, a text of ASCII characters, compiles to a query under the
/// grammar with the tables `grammar`.
pub uninterp spec fn query_compiles(grammar: Seq<u8>, pattern: Seq<char>) -> bool;

/// What a compiled query holds: the tables of the grammar and the pattern text
/// that it was made from.
pub uninterp spec fn query_origin(query: tree_sitter::Query) -> (Seq<u8>, Seq<char>);

/// The capture names of the query that `pattern`, a text of ASCII characters,
/// compiles to under `grammar`, in the engine's order: the name at index `i`
/// is the one that a capture of index `i` stands for.
pub uninterp spec fn pattern_capture_names(grammar: Seq<u8>, pattern: Seq<char>) -> Seq<Seq<char>>;

/// The matches of the query that `pattern` compiles to under `grammar`, run
/// over the tree that `grammar` parses from `source`, pattern and source both
/// of ASCII characters: match by match in the order in which the engine finds
/// them, each with its captures in the order in which the engine lists them.
/// `None` where the engine gives no tree.
pub uninterp spec fn pattern_matches(grammar: Seq<u8>, pattern: Seq<char>, source: Seq<u8>) -> Option<
    Seq<Seq<RawCapture>>,
>;

/// Every byte of `source` is an ASCII character.
pub open spec fn ascii_bytes(source: Seq<u8>) -> bool {
    forall|i: int| 0 <= i < source.len() ==> #[trigger] source[i] < 128
}

/// `Language::clone`: another handle to the same tables.
#[verifier::external_body]
pub(crate) fn clone_grammar(grammar: &tree_sitter::Language) -> (copy: tree_sitter::Language)
    ensures
        grammar_tables(copy) == grammar_tables(*grammar),
{
    grammar.clone()
}

/// `Query::new`: compiles `pattern` under `grammar`. A pattern of ASCII
/// characters succeeds exactly where it compiles; of another, nothing is said.
/// The query remembers what it was made from.
#[verifier::external_body]
pub(crate) fn compile_query(grammar: &tree_sitter::Language, pattern: &str) -> (compiled: Result<
    tree_sitter::Query,
    tree_sitter::QueryError,
>)
    ensures
        is_ascii_chars(pattern@) ==> (compiled is Ok <==> query_compiles(
            grammar_tables(*grammar),
            pattern@,
        )),
        compiled matches Ok(query) ==> query_origin(query) == (grammar_tables(*grammar), pattern@),
{
    tree_sitter::Query::new(grammar, pattern)
}

/// `Query::capture_names`: the capture names of a compiled query. Those of a
/// query made from ASCII characters are named.
#[verifier::external_body]
pub(crate) fn capture_names(query: &tree_sitter::Query) -> (names: Vec<String>)
    ensures
        is_ascii_chars(query_origin(*query).1) ==> names.deep_view() == pattern_capture_names(
            query_origin(*query).0,
            query_origin(*query).1,
        ),
{
    query.capture_names().iter().map(|name| name.to_string()).collect()
}

/// The `Display` text of a `QueryError`. Nothing is claimed of it.
#[verifier::external_body]
pub(crate) fn describe_query_error(error: &tree_sitter::QueryError) -> String {
    error.to_string()
}

/// Parses `source` with a parser of its own (`Parser::new`,
/// `Parser::set_language`, `Parser::parse`) and runs `query` over the whole
/// tree (`QueryCursor::new`, `QueryCursor::matches`), reading each captured
/// node's `Node::range`. `None` where the parser refuses the grammar or gives
/// no tree. What comes back is named where the query's pattern and the source
/// are both of ASCII characters; of any other, nothing is said.
#[verifier::external_body]
pub(crate) fn run_query(
    grammar: &tree_sitter::Language,
    query: &tree_sitter::Query,
    source: &[u8],
) -> (found: Option<Vec<Vec<RawCapture>>>)
    requires
        query_origin(*query).0 == grammar_tables(*grammar),
    ensures
        is_ascii_chars(query_origin(*query).1) && ascii_bytes(source@) ==> found.deep_view()
            == pattern_matches(grammar_tables(*grammar), query_origin(*query).1, source@),
{
    let mut parser = tree_sitter::Parser::new();
    parser.set_language(grammar).ok()?;
    let tree = parser.parse(source, None)?;
    let mut cursor = tree_sitter::QueryCursor::new();
    let mut matches = cursor.matches(query, tree.root_node(), source);
    let mut found = Vec::new();
    while let Some(one) = matches.next() {
        found.push(one.captures().iter().map(|c| {
            let r = c.node.range();
            RawCapture { index: c.index, start_byte: r.start_byte, end_byte: r.end_byte,
                start: Position { row: r.start_point.row, column: r.start_point.column },
                end: Position { row: r.end_point.row, column: r.end_point.column } }
        }).collect());
    }
    Some(found)
}

} // verus!
