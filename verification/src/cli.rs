//! The run configuration: what was asked for, checked and made ready before
//! any work begins.
//!
//! A `Request` holds what the command line gave, as plain values. From it and
//! the registry an `Invocation` is made, or a `ConfigError` that says which
//! part of the request is at fault. The parts are checked in a fixed order: the
//! queries, the format, the roots, the languages, the patterns.

use crate::chooser::{configured, LanguageOverride};
use crate::discovery::{first_missing, plan_walk, planned, RootPath, WalkPlan};
use crate::extractor::{
    all_ascii, all_compile, built_possibly, may_refuse, union_pattern, Extractor, ExtractorView,
};
use crate::failure::ConfigError;
use crate::grammar::{pattern_capture_names, query_compiles};
use crate::registry::{lemma_resolved, resolved, GrammarRegistry, RuleView};
use crate::text::str_eq;
use vstd::prelude::*;
use vstd::string::*;
use vstd::utf8::is_ascii_chars;

verus! {

/// How the results are written.
#[derive(Clone, Copy, Debug, PartialEq, Eq, Structural)]
pub enum QueryFormat {
    Lines,
    Json,
    JsonLines,
    PrettyJson,
}

/// The format called `name`, where there is one.
pub open spec fn format_named(name: Seq<char>) -> Option<QueryFormat> {
    if name == "lines"@ {
        Some(QueryFormat::Lines)
    } else if name == "json"@ {
        Some(QueryFormat::Json)
    } else if name == "json-lines"@ {
        Some(QueryFormat::JsonLines)
    } else if name == "pretty-json"@ {
        Some(QueryFormat::PrettyJson)
    } else {
        None
    }
}

impl QueryFormat {
    /// The format called `name`: `lines`, `json`, `json-lines` or
    /// `pretty-json`.
    pub fn from_name(name: &str) -> (format: Option<QueryFormat>)
        ensures
            format == format_named(name@),
    {
        if str_eq(name, "lines") {
            Some(QueryFormat::Lines)
        } else if str_eq(name, "json") {
            Some(QueryFormat::Json)
        } else if str_eq(name, "json-lines") {
            Some(QueryFormat::JsonLines)
        } else if str_eq(name, "pretty-json") {
            Some(QueryFormat::PrettyJson)
        } else {
            None
        }
    }

    /// The name of the format.
    pub fn name(self) -> (name: &'static str)
        ensures
            name@ == (match self {
                QueryFormat::Lines => "lines"@,
                QueryFormat::Json => "json"@,
                QueryFormat::JsonLines => "json-lines"@,
                QueryFormat::PrettyJson => "pretty-json"@,
            }),
    {
        match self {
            QueryFormat::Lines => "lines",
            QueryFormat::Json => "json",
            QueryFormat::JsonLines => "json-lines",
            QueryFormat::PrettyJson => "pretty-json",
        }
    }
}

/// One query as it was asked for: a language and a pattern.
#[derive(Clone, Debug, PartialEq, Eq)]
pub struct QueryRequest {
    pub language: String,
    pub pattern: String,
}

/// The model of a `QueryRequest`.
pub struct QueryView {
    pub language: Seq<char>,
    pub pattern: Seq<char>,
}

impl View for QueryRequest {
    type V = QueryView;

    open spec fn view(&self) -> QueryView {
        QueryView { language: self.language@, pattern: self.pattern@ }
    }
}

impl DeepView for QueryRequest {
    type V = QueryView;

    open spec fn deep_view(&self) -> QueryView {
        self@
    }
}

/// What the command line gave.
#[derive(Clone, Debug, PartialEq, Eq)]
pub struct Request {
    /// Only the list of languages is wanted.
    pub show_languages: bool,
    /// The queries, in the order in which they were given.
    pub queries: Vec<QueryRequest>,
    /// The paths to search from.
    pub roots: Vec<RootPath>,
    /// Whether ignore files are honoured.
    pub ignore_mode: bool,
    /// The name of the output format.
    pub format: String,
    /// Whether the results are sorted.
    pub sort: bool,
    /// Languages chosen for single paths.
    pub overrides: Vec<LanguageOverride>,
}

/// A query run, ready to start: one extractor for each language asked for, in
/// the order in which the languages were first named; the walk to make; and how
/// to order and write what is found.
pub struct QueryOpts {
    pub extractors: Vec<Extractor>,
    pub walk: WalkPlan,
    pub format: QueryFormat,
    pub sort: bool,
    pub overrides: Vec<LanguageOverride>,
}

/// What a run is to do.
pub enum Invocation {
    DoQuery(QueryOpts),
    ShowLanguages,
}

/// The languages of `queries`, each once, in the order in which they are first
/// named.
pub open spec fn languages_of(queries: Seq<QueryView>) -> Seq<Seq<char>>
    decreases queries.len(),
{
    if queries.len() == 0 {
        Seq::empty()
    } else if languages_of(queries.drop_last()).contains(queries.last().language) {
        languages_of(queries.drop_last())
    } else {
        languages_of(queries.drop_last()).push(queries.last().language)
    }
}

/// The patterns that `queries` give for `language`, in their order.
pub open spec fn patterns_for(queries: Seq<QueryView>, language: Seq<char>) -> Seq<Seq<char>>
    decreases queries.len(),
{
    if queries.len() == 0 {
        Seq::empty()
    } else if queries.last().language == language {
        patterns_for(queries.drop_last(), language).push(queries.last().pattern)
    } else {
        patterns_for(queries.drop_last(), language)
    }
}

/// The index of the first query whose language the rules do not know, or the
/// number of queries where all are known.
pub open spec fn first_unknown(rules: Seq<RuleView>, queries: Seq<QueryView>) -> int
    decreases queries.len(),
{
    if queries.len() == 0 {
        0
    } else if first_unknown(rules, queries.drop_last()) < queries.len() - 1 {
        first_unknown(rules, queries.drop_last())
    } else if resolved(rules, queries.last().language) is Some {
        queries.len() as int
    } else {
        queries.len() - 1
    }
}

/// The tables of the grammar of `language` under `rules`.
pub open spec fn grammar_of(rules: Seq<RuleView>, language: Seq<char>) -> Seq<u8> {
    rules[resolved(rules, language)->0].grammar
}

/// Every pattern of `queries` is of ASCII characters.
pub open spec fn request_ascii(queries: Seq<QueryView>) -> bool {
    forall|k: int| 0 <= k < queries.len() ==> is_ascii_chars((#[trigger] queries[k]).pattern)
}

/// The extractor of `language` can be made from `queries`: each of its
/// patterns compiles, and so does their union.
pub open spec fn buildable(rules: Seq<RuleView>, queries: Seq<QueryView>, language: Seq<char>) -> bool {
    let grammar = grammar_of(rules, language);
    let patterns = patterns_for(queries, language);
    all_compile(grammar, patterns, patterns.len() as int) && query_compiles(
        grammar,
        union_pattern(grammar, patterns),
    )
}

/// The index of the first of `languages` whose extractor cannot be made, or
/// their number where all can.
pub open spec fn first_unbuildable(
    rules: Seq<RuleView>,
    queries: Seq<QueryView>,
    languages: Seq<Seq<char>>,
) -> int
    decreases languages.len(),
{
    if languages.len() == 0 {
        0
    } else if first_unbuildable(rules, queries, languages.drop_last()) < languages.len() - 1 {
        first_unbuildable(rules, queries, languages.drop_last())
    } else if buildable(rules, queries, languages.last()) {
        languages.len() as int
    } else {
        languages.len() - 1
    }
}

/// The extractor that `queries` ask for in `language`.
pub open spec fn extractor_asked(rules: Seq<RuleView>, queries: Seq<QueryView>, language: Seq<char>) -> ExtractorView {
    let grammar = grammar_of(rules, language);
    let pattern = union_pattern(grammar, patterns_for(queries, language));
    ExtractorView {
        identifier: language,
        grammar,
        pattern,
        capture_names: pattern_capture_names(grammar, pattern),
    }
}

/// The query at `query` is the one to blame for its language: it is the first
/// of that language whose pattern does not compile; or all patterns of the
/// language compile, their union does not, and it is the first query of the
/// language.
pub open spec fn to_blame(rules: Seq<RuleView>, queries: Seq<QueryView>, query: int) -> bool {
    let language = queries[query].language;
    let grammar = grammar_of(rules, language);
    let patterns = patterns_for(queries, language);
    let earlier = patterns_for(queries.subrange(0, query), language).len() as int;
    &&& 0 <= query < queries.len()
    &&& all_compile(grammar, patterns, earlier)
    &&& query_compiles(grammar, queries[query].pattern) ==> {
        &&& earlier == 0
        &&& all_compile(grammar, patterns, patterns.len() as int)
        &&& !query_compiles(grammar, union_pattern(grammar, patterns))
    }
}

/// What holds of the query that is blamed, whatever the engine answered: its
/// pattern is one that the engine may have refused, or it is the first query of
/// its language and stands for the union.
pub open spec fn blamed_possibly(rules: Seq<RuleView>, queries: Seq<QueryView>, query: int) -> bool {
    let language = queries[query].language;
    &&& 0 <= query < queries.len()
    &&& may_refuse(grammar_of(rules, language), queries[query].pattern) || patterns_for(
        queries.subrange(0, query),
        language,
    ).len() == 0
}

/// What holds of the extractor of `language`, whatever the engine answered.
pub open spec fn extractor_possible(
    rules: Seq<RuleView>,
    queries: Seq<QueryView>,
    language: Seq<char>,
    extractor: ExtractorView,
) -> bool {
    built_possibly(
        grammar_of(rules, language),
        language,
        patterns_for(queries, language),
        extractor,
    )
}

/// The run is ready as the request asks: its format, its walk, its order and
/// its overrides.
pub open spec fn ready(request: Request, opts: QueryOpts) -> bool {
    &&& Some(opts.format) == format_named(request.format@)
    &&& planned(request.roots@, request.ignore_mode, opts.walk)
    &&& opts.sort == request.sort
    &&& opts.overrides.deep_view() == request.overrides.deep_view()
    &&& configured(opts.extractors@) == languages_of(request.queries.deep_view())
}

/// What the patterns of a request give where all of them are of ASCII
/// characters: the run with the extractor of each language, or the fault of
/// the first language whose extractor cannot be made.
pub open spec fn patterns_made_exactly(
    rules: Seq<RuleView>,
    request: Request,
    made: Result<Invocation, ConfigError>,
) -> bool {
    let queries = request.queries.deep_view();
    let languages = languages_of(queries);
    if first_unbuildable(rules, queries, languages) < languages.len() {
        made matches Err(ConfigError::InvalidQuery { query, .. }) && query < queries.len()
            && queries[query as int].language == languages[first_unbuildable(
            rules,
            queries,
            languages,
        )] && to_blame(rules, queries, query as int)
    } else {
        made matches Ok(Invocation::DoQuery(opts)) && ready(request, opts) && forall|i: int|
            0 <= i < languages.len() ==> (#[trigger] opts.extractors[i])@ == extractor_asked(
                rules,
                queries,
                languages[i],
            )
    }
}

/// What the patterns of a request give, whatever the engine answered: the run
/// with an extractor for each language, or a query to blame.
pub open spec fn patterns_made_possibly(
    rules: Seq<RuleView>,
    request: Request,
    made: Result<Invocation, ConfigError>,
) -> bool {
    let queries = request.queries.deep_view();
    let languages = languages_of(queries);
    match made {
        Ok(Invocation::DoQuery(opts)) => ready(request, opts) && forall|i: int|
            0 <= i < languages.len() ==> extractor_possible(
                rules,
                queries,
                languages[i],
                (#[trigger] opts.extractors[i])@,
            ),
        Err(ConfigError::InvalidQuery { query, .. }) => blamed_possibly(
            rules,
            queries,
            query as int,
        ),
        _ => false,
    }
}

/// What `Invocation::from_request` returns for a request that asks for a
/// query: the run made ready, or the first fault in the order of the checks.
/// The last check is the engine's: for patterns of ASCII characters its
/// outcome is fixed, for others it is what holds whatever the engine answers.
pub open spec fn query_made(
    rules: Seq<RuleView>,
    request: Request,
    made: Result<Invocation, ConfigError>,
) -> bool {
    let queries = request.queries.deep_view();
    let languages = languages_of(queries);
    if queries.len() == 0 {
        made == Err::<Invocation, ConfigError>(ConfigError::NoQuery)
    } else if format_named(request.format@) is None {
        made == Err::<Invocation, ConfigError>(ConfigError::UnknownFormat)
    } else if request.roots.len() == 0 {
        made == Err::<Invocation, ConfigError>(ConfigError::NoRoots)
    } else if first_missing(request.roots@) < request.roots.len() {
        made == Err::<Invocation, ConfigError>(
            ConfigError::MissingRoot { root: first_missing(request.roots@) as usize },
        )
    } else if first_unknown(rules, queries) < queries.len() {
        made == Err::<Invocation, ConfigError>(
            ConfigError::UnknownLanguage { query: first_unknown(rules, queries) as usize },
        )
    } else {
        &&& patterns_made_possibly(rules, request, made)
        &&& request_ascii(queries) ==> patterns_made_exactly(rules, request, made)
    }
}

/// `first_unknown` is the least index of a query of an unknown language.
pub proof fn lemma_first_unknown(rules: Seq<RuleView>, queries: Seq<QueryView>)
    ensures
        0 <= first_unknown(rules, queries) <= queries.len(),
        forall|k: int|
            0 <= k < first_unknown(rules, queries) ==> resolved(
                rules,
                (#[trigger] queries[k]).language,
            ) is Some,
        first_unknown(rules, queries) < queries.len() ==> resolved(
            rules,
            queries[first_unknown(rules, queries)].language,
        ) is None,
    decreases queries.len(),
{
    if queries.len() > 0 {
        let front = queries.drop_last();
        lemma_first_unknown(rules, front);
        assert forall|k: int| 0 <= k < first_unknown(rules, queries) implies resolved(
            rules,
            (#[trigger] queries[k]).language,
        ) is Some by {
            if k < front.len() {
                assert(front[k] == queries[k]);
            }
        }
        if first_unknown(rules, queries) < front.len() {
            assert(front[first_unknown(rules, queries)] == queries[first_unknown(rules, queries)]);
        }
    }
}

/// `first_unbuildable` is the least index of a language without extractor.
pub proof fn lemma_first_unbuildable(
    rules: Seq<RuleView>,
    queries: Seq<QueryView>,
    languages: Seq<Seq<char>>,
)
    ensures
        0 <= first_unbuildable(rules, queries, languages) <= languages.len(),
        forall|k: int|
            0 <= k < first_unbuildable(rules, queries, languages) ==> buildable(
                rules,
                queries,
                #[trigger] languages[k],
            ),
        first_unbuildable(rules, queries, languages) < languages.len() ==> !buildable(
            rules,
            queries,
            languages[first_unbuildable(rules, queries, languages)],
        ),
    decreases languages.len(),
{
    if languages.len() > 0 {
        let front = languages.drop_last();
        lemma_first_unbuildable(rules, queries, front);
        let found = first_unbuildable(rules, queries, languages);
        assert forall|k: int| 0 <= k < found implies buildable(
            rules,
            queries,
            #[trigger] languages[k],
        ) by {
            if k < front.len() {
                assert(front[k] == languages[k]);
            }
        }
        if found < front.len() {
            assert(front[found] == languages[found]);
        }
    }
}

/// The least index at which a language has no extractor, while all before it
/// have one, is `first_unbuildable`.
pub proof fn lemma_first_unbuildable_is(
    rules: Seq<RuleView>,
    queries: Seq<QueryView>,
    languages: Seq<Seq<char>>,
    n: int,
)
    requires
        0 <= n <= languages.len(),
        forall|k: int| 0 <= k < n ==> buildable(rules, queries, #[trigger] languages[k]),
        n < languages.len() ==> !buildable(rules, queries, languages[n]),
    ensures
        first_unbuildable(rules, queries, languages) == n,
{
    lemma_first_unbuildable(rules, queries, languages);
    let found = first_unbuildable(rules, queries, languages);
    if found < n {
        assert(buildable(rules, queries, languages[found]));
    }
    if n < found {
        assert(buildable(rules, queries, languages[n]));
    }
}

/// The languages of the first queries open the languages of all of them.
pub proof fn lemma_languages_prefix(queries: Seq<QueryView>, n: int)
    requires
        0 <= n <= queries.len(),
    ensures
        languages_of(queries.subrange(0, n)).len() <= languages_of(queries).len(),
        languages_of(queries).subrange(0, languages_of(queries.subrange(0, n)).len() as int)
            == languages_of(queries.subrange(0, n)),
    decreases queries.len() - n,
{
    let some = languages_of(queries.subrange(0, n));
    if n < queries.len() {
        lemma_languages_prefix(queries, n + 1);
        let more = languages_of(queries.subrange(0, n + 1));
        assert(queries.subrange(0, n + 1).drop_last() =~= queries.subrange(0, n));
        assert(more.subrange(0, some.len() as int) =~= some);
        assert(languages_of(queries).subrange(0, some.len() as int) =~= languages_of(
            queries,
        ).subrange(0, more.len() as int).subrange(0, some.len() as int));
    } else {
        assert(queries.subrange(0, n) =~= queries);
        assert(languages_of(queries).subrange(0, some.len() as int) =~= languages_of(queries));
    }
}

/// A language that none of the queries names has no pattern.
pub proof fn lemma_no_language_no_pattern(queries: Seq<QueryView>, language: Seq<char>)
    requires
        !languages_of(queries).contains(language),
    ensures
        patterns_for(queries, language).len() == 0,
    decreases queries.len(),
{
    if queries.len() > 0 {
        let front = queries.drop_last();
        let some = languages_of(front);
        if some.contains(queries.last().language) {
        } else {
            assert(some.push(queries.last().language).last() == queries.last().language);
            assert forall|k: int| 0 <= k < some.len() implies some[k] != language by {
                assert(some.push(queries.last().language)[k] == some[k]);
            }
        }
        lemma_no_language_no_pattern(front, language);
    }
}

/// Whether `name` is among `names`.
pub fn contains_name(names: &Vec<String>, name: &str) -> (found: bool)
    ensures
        found == names.deep_view().contains(name@),
{
    let mut i: usize = 0;
    while i < names.len()
        invariant
            i <= names.len(),
            forall|k: int| 0 <= k < i ==> (#[trigger] names.deep_view()[k]) != name@,
        decreases names.len() - i,
    {
        assert(names.deep_view()[i as int] == names[i as int]@);
        if str_eq(names[i].as_str(), name) {
            return true;
        }
        i += 1;
    }
    false
}

/// The patterns that `queries` give for `language`, each with the index of the
/// query it came from.
pub fn patterns_of(queries: &Vec<QueryRequest>, language: &str) -> (found: (Vec<String>, Vec<usize>))
    ensures
        found.0.deep_view() == patterns_for(queries.deep_view(), language@),
        found.1.len() == found.0.len(),
        forall|k: int|
            0 <= k < found.1.len() ==> {
                let at = #[trigger] found.1[k];
                &&& at < queries.len()
                &&& queries[at as int].language@ == language@
                &&& patterns_for(queries.deep_view().subrange(0, at as int), language@).len() == k
            },
{
    let ghost all = queries.deep_view();
    let mut patterns: Vec<String> = Vec::new();
    let mut places: Vec<usize> = Vec::new();
    let mut i: usize = 0;
    proof {
        assert(all.subrange(0, 0) =~= Seq::<QueryView>::empty());
        assert(patterns.deep_view() =~= Seq::<Seq<char>>::empty());
    }
    while i < queries.len()
        invariant
            i <= queries.len(),
            all == queries.deep_view(),
            patterns.deep_view() == patterns_for(all.subrange(0, i as int), language@),
            places.len() == patterns.len(),
            forall|k: int|
                0 <= k < places.len() ==> {
                    let at = #[trigger] places[k];
                    &&& at < i
                    &&& queries[at as int].language@ == language@
                    &&& patterns_for(all.subrange(0, at as int), language@).len() == k
                },
        decreases queries.len() - i,
    {
        let ghost before = patterns.deep_view();
        proof {
            assert(all.subrange(0, i + 1).drop_last() =~= all.subrange(0, i as int));
            assert(all.subrange(0, i + 1).last() == queries[i as int]@);
        }
        if str_eq(queries[i].language.as_str(), language) {
            patterns.push(queries[i].pattern.clone());
            places.push(i);
            proof {
                assert(patterns.deep_view() =~= before.push(queries[i as int].pattern@));
                assert(before.len() == places.len() - 1);
            }
        }
        i += 1;
    }
    proof {
        assert(all.subrange(0, i as int) =~= all);
    }
    (patterns, places)
}

impl Invocation {
    /// Makes the run that `request` asks for, with the languages that
    /// `registry` knows. A request for the list of languages needs nothing
    /// else. A request for a query is checked part by part, and the first
    /// fault is reported: no query; an unknown format; no root, or a root that
    /// does not exist; a language that the registry does not know; a pattern,
    /// or the union of the patterns of a language, that the engine does not
    /// compile.
    #[verifier::loop_isolation(false)]
    pub fn from_request(request: &Request, registry: &GrammarRegistry) -> (made: Result<
        Invocation,
        ConfigError,
    >)
        ensures
            request.show_languages ==> made is Ok && made->Ok_0 is ShowLanguages,
            !request.show_languages ==> query_made(registry@, *request, made),
    {
        if request.show_languages {
            return Ok(Invocation::ShowLanguages);
        }
        let ghost rules = registry@;
        let ghost queries = request.queries.deep_view();
        let ghost languages = languages_of(queries);
        if request.queries.len() == 0 {
            return Err(ConfigError::NoQuery);
        }
        let format = match QueryFormat::from_name(request.format.as_str()) {
            None => {
                return Err(ConfigError::UnknownFormat);
            },
            Some(format) => format,
        };
        let walk = match plan_walk(&request.roots, request.ignore_mode) {
            Err(error) => {
                return Err(error);
            },
            Ok(walk) => walk,
        };
        proof {
            lemma_first_unknown(rules, queries);
        }
        let mut q: usize = 0;
        while q < request.queries.len()
            invariant
                q <= request.queries.len(),
                rules == registry@,
                queries == request.queries.deep_view(),
                q <= first_unknown(rules, queries) <= queries.len(),
                forall|k: int|
                    0 <= k < first_unknown(rules, queries) ==> resolved(
                        rules,
                        (#[trigger] queries[k]).language,
                    ) is Some,
                first_unknown(rules, queries) < queries.len() ==> resolved(
                    rules,
                    queries[first_unknown(rules, queries)].language,
                ) is None,
            decreases request.queries.len() - q,
        {
            assert(queries[q as int] == request.queries[q as int]@);
            if registry.resolve(request.queries[q].language.as_str()).is_none() {
                return Err(ConfigError::UnknownLanguage { query: q });
            }
            q += 1;
        }
        let mut extractors: Vec<Extractor> = Vec::new();
        let mut names: Vec<String> = Vec::new();
        let mut q: usize = 0;
        proof {
            assert(queries.subrange(0, 0) =~= Seq::<QueryView>::empty());
            assert(names.deep_view() =~= Seq::<Seq<char>>::empty());
        }
        while q < request.queries.len()
            invariant
                q <= request.queries.len(),
                rules == registry@,
                queries == request.queries.deep_view(),
                languages == languages_of(queries),
                first_unknown(rules, queries) == queries.len(),
                forall|k: int|
                    0 <= k < queries.len() ==> resolved(rules, (#[trigger] queries[k]).language)
                        is Some,
                names.deep_view() == languages_of(queries.subrange(0, q as int)),
                extractors.len() == names.len(),
                forall|i: int|
                    0 <= i < extractors.len() ==> extractor_possible(
                        rules,
                        queries,
                        names.deep_view()[i],
                        (#[trigger] extractors[i])@,
                    ),
                request_ascii(queries) ==> forall|i: int|
                    0 <= i < extractors.len() ==> (#[trigger] extractors[i])@ == extractor_asked(
                        rules,
                        queries,
                        names.deep_view()[i],
                    ),
                request_ascii(queries) ==> forall|i: int|
                    0 <= i < names.len() ==> buildable(rules, queries, #[trigger] names.deep_view()[i]),
            decreases request.queries.len() - q,
        {
            let language = request.queries[q].language.as_str();
            let ghost seen = names.deep_view();
            proof {
                assert(queries[q as int] == request.queries[q as int]@);
                assert(queries.subrange(0, q + 1).drop_last() =~= queries.subrange(0, q as int));
                assert(queries.subrange(0, q + 1).last() == queries[q as int]);
            }
            if !contains_name(&names, language) {
                let found = registry.resolve(language);
                let place = found.unwrap();
                let rule = registry.rule(place).unwrap();
                let (patterns, places) = patterns_of(&request.queries, language);
                proof {
                    lemma_resolved(rules, language@);
                    lemma_languages_prefix(queries, q + 1);
                    lemma_no_language_no_pattern(queries.subrange(0, q as int), language@);
                    assert(languages_of(queries.subrange(0, q + 1)) == seen.push(language@));
                    assert(languages[seen.len() as int] == languages.subrange(
                        0,
                        seen.len() as int + 1,
                    )[seen.len() as int]);
                    assert forall|k: int| 0 <= k < seen.len() implies languages[k] == seen[k] by {
                        assert(languages.subrange(0, seen.len() as int + 1)[k] == languages[k]);
                    }
                    if request_ascii(queries) {
                        lemma_patterns_ascii(queries, language@);
                    }
                }
                match Extractor::new(language, &rule.grammar, &patterns) {
                    Err(fault) => {
                        let query = if fault.pattern < places.len() {
                            places[fault.pattern]
                        } else {
                            q
                        };
                        proof {
                            let texts = patterns.deep_view();
                            let grammar = grammar_of(rules, language@);
                            lemma_pattern_at(queries, language@, query as int);
                            if fault.pattern < places.len() {
                                assert(texts[fault.pattern as int] == queries[query as int].pattern);
                            } else {
                                assert(texts[0] == queries[query as int].pattern);
                            }
                            assert(blamed_possibly(rules, queries, query as int));
                            if request_ascii(queries) {
                                lemma_first_unbuildable_is(rules, queries, languages, seen.len() as int);
                                if fault.pattern >= places.len() {
                                    assert(query_compiles(grammar, texts[0]));
                                }
                                assert(to_blame(rules, queries, query as int));
                            }
                        }
                        return Err(ConfigError::InvalidQuery { query, message: fault.message });
                    },
                    Ok(extractor) => {
                        extractors.push(extractor);
                        names.push(request.queries[q].language.clone());
                        proof {
                            assert(names.deep_view() =~= seen.push(language@));
                        }
                    },
                }
            }
            q += 1;
        }
        proof {
            assert(queries.subrange(0, q as int) =~= queries);
            assert(configured(extractors@) =~= languages) by {
                assert forall|i: int| 0 <= i < languages.len() implies configured(extractors@)[i]
                    == languages[i] by {
                    assert(extractor_possible(rules, queries, languages[i], extractors[i]@));
                }
            }
            if request_ascii(queries) {
                lemma_first_unbuildable_is(rules, queries, languages, languages.len() as int);
            }
        }
        let mut overrides: Vec<LanguageOverride> = Vec::new();
        let mut i: usize = 0;
        while i < request.overrides.len()
            invariant
                i <= request.overrides.len(),
                overrides.len() == i,
                forall|k: int|
                    0 <= k < i ==> (#[trigger] overrides[k])@ == request.overrides[k]@,
            decreases request.overrides.len() - i,
        {
            let given = &request.overrides[i];
            overrides.push(
                LanguageOverride { path: given.path.clone(), language: given.language.clone() },
            );
            i += 1;
        }
        proof {
            assert(overrides.deep_view() =~= request.overrides.deep_view());
        }
        Ok(Invocation::DoQuery(QueryOpts { extractors, walk, format, sort: request.sort, overrides }))
    }
}

/// The patterns of a language in a request of ASCII patterns are ASCII.
pub proof fn lemma_patterns_ascii(queries: Seq<QueryView>, language: Seq<char>)
    requires
        request_ascii(queries),
    ensures
        all_ascii(patterns_for(queries, language)),
    decreases queries.len(),
{
    if queries.len() > 0 {
        let front = queries.drop_last();
        assert forall|k: int| 0 <= k < front.len() implies is_ascii_chars(
            (#[trigger] front[k]).pattern,
        ) by {
            assert(front[k] == queries[k]);
        }
        lemma_patterns_ascii(front, language);
        assert(is_ascii_chars(queries[queries.len() - 1].pattern));
    }
}

/// The pattern of a query is the pattern of its language at the place that the
/// earlier queries of that language leave.
pub proof fn lemma_pattern_at(queries: Seq<QueryView>, language: Seq<char>, at: int)
    requires
        0 <= at < queries.len(),
        queries[at].language == language,
    ensures
        patterns_for(queries.subrange(0, at), language).len() < patterns_for(
            queries,
            language,
        ).len(),
        patterns_for(queries, language)[patterns_for(
            queries.subrange(0, at),
            language,
        ).len() as int] == queries[at].pattern,
    decreases queries.len(),
{
    let front = queries.drop_last();
    if at == queries.len() - 1 {
        assert(queries.subrange(0, at) =~= front);
    } else {
        lemma_pattern_at(front, language, at);
        assert(front.subrange(0, at) =~= queries.subrange(0, at));
        assert(front[at] == queries[at]);
    }
}

} // verus!
