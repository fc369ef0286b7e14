//! Structural code search: the extraction pipeline, from a request and the
//! files that a walk discovers to an ordered collection of match records.
//!
//! The library decides and computes; it reads no file and writes no output.
//! A run goes like this. `try_main` checks the request and says what to do
//! next. For a query the caller walks the file system as the plan says, hands
//! the events of the walk to `find_files`, asks `extractor_for` which extractor
//! takes each entry, reads the files that are taken, and lets the extractor
//! work on each. The outcomes, in whatever order they arrive, go to
//! `do_query`, which collects, orders and renders them.

pub mod aggregate;
pub mod chooser;
pub mod cli;
pub mod discovery;
pub mod extractor;
pub mod failure;
pub mod grammar;
pub mod lines;
pub mod record;
pub mod registry;
pub mod render;
pub mod sorting;
pub mod text;

use crate::aggregate::{aggregate, failures_of, files_of};
use crate::cli::{query_made, Invocation, QueryFormat, QueryOpts, Request};
use crate::failure::{ConfigError, FileFailure};
use crate::record::ExtractedFile;
use crate::registry::{identifiers_of, GrammarRegistry};
use crate::render::{lines_of_files, name_lines, render_lines, render_names};
use crate::sorting::sorted_by_path;
use vstd::prelude::*;

pub use crate::chooser::extractor_for;
pub use crate::discovery::find_files;

verus! {

/// What the caller of `try_main` does next.
pub enum Step {
    /// Write this text, and the run is done.
    Print(String),
    /// Run this query.
    Query(QueryOpts),
}

/// A step seen as the invocation it carries out.
pub open spec fn invocation_of(next: Result<Step, ConfigError>) -> Result<Invocation, ConfigError> {
    match next {
        Ok(Step::Print(_)) => Ok(Invocation::ShowLanguages),
        Ok(Step::Query(opts)) => Ok(Invocation::DoQuery(opts)),
        Err(error) => Err(error),
    }
}

/// The identifiers of the languages that `registry` knows, each on a line of
/// its own, in the registry's order. No identifier comes twice.
pub fn show_languages(registry: &GrammarRegistry) -> (text: String)
    ensures
        text@ == name_lines(identifiers_of(registry@)),
        identifiers_of(registry@).no_duplicates(),
{
    let names = registry.identifiers();
    render_names(&names)
}

/// Starts a run: checks `request` against `registry` and says what to do next.
/// A request for the list of languages is answered with the list. A request
/// for a query is answered with the query made ready, or with the first fault
/// of the configuration; nothing has been walked, read or written by then.
pub fn try_main(request: &Request, registry: &GrammarRegistry) -> (next: Result<Step, ConfigError>)
    ensures
        request.show_languages ==> (next matches Ok(Step::Print(text)) && text@ == name_lines(
            identifiers_of(registry@),
        )),
        !request.show_languages ==> query_made(registry@, *request, invocation_of(next)),
{
    match Invocation::from_request(request, registry) {
        Err(error) => Err(error),
        Ok(Invocation::ShowLanguages) => Ok(Step::Print(show_languages(registry))),
        Ok(Invocation::DoQuery(opts)) => Ok(Step::Query(opts)),
    }
}

/// What a query run gives: the files with matches, the files that failed, and
/// the rendered lines where the format is `Lines`. The other formats are
/// written by the caller from `files`.
pub struct QueryOutput {
    pub files: Vec<ExtractedFile>,
    pub failures: Vec<FileFailure>,
    pub lines: Option<String>,
}

/// Finishes a query run from the outcomes of its files. The files with matches
/// are collected, by path where the run is sorted and in the order of
/// `outcomes` where it is not; the failures are collected beside them and stop
/// nothing; and the lines are rendered where lines are wanted.
pub fn do_query(opts: &QueryOpts, outcomes: Vec<Result<Option<ExtractedFile>, FileFailure>>) -> (output:
    QueryOutput)
    ensures
        output.files.deep_view() == (if opts.sort {
            sorted_by_path(files_of(outcomes@))
        } else {
            files_of(outcomes@)
        }),
        output.failures.deep_view() == failures_of(outcomes@),
        output.lines.deep_view() == (if opts.format == QueryFormat::Lines {
            Some(lines_of_files(output.files.deep_view()))
        } else {
            None
        }),
{
    let all = aggregate(outcomes, opts.sort);
    let lines = match opts.format {
        QueryFormat::Lines => Some(render_lines(&all.files)),
        _ => None,
    };
    QueryOutput { files: all.files, failures: all.failures, lines }
}

} // verus!
