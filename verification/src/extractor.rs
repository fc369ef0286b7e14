//! The extraction engine: one language, one compiled query, and what the query
//! finds in one file.

use crate::failure::{FailureKind, FileFailure, QueryFault};
use crate::grammar::{
    ascii_bytes, capture_names, clone_grammar, compile_query, describe_query_error,
    grammar_tables, pattern_capture_names, pattern_matches, query_compiles, query_origin,
    run_query, RawCapture,
};
use crate::lines::{lemma_positions_ordered, position_fits, position_le, LineIndex};
use crate::record::{ExtractedFile, ExtractedRecord, FileView, RecordView};
use crate::text::{slice_fits, slice_str, slice_text, string_from_utf8};
use vstd::prelude::*;
use vstd::string::*;
use vstd::utf8::*;

verus! {

/// The capture that a pattern without captures gets: its whole match, under
/// the name `query`.
pub open spec fn default_capture() -> Seq<char> {
    "@query"@
}

/// What separates the patterns of a union.
pub open spec fn pattern_end() -> Seq<char> {
    "\n"@
}

/// The pattern as it enters the union: as it is where it names a capture, and
/// with the default capture after it where it names none.
pub open spec fn effective_pattern(pattern: Seq<char>, captured: bool) -> Seq<char> {
    if captured {
        pattern
    } else {
        pattern + default_capture()
    }
}

/// Whether the pattern at `i` is marked as naming a capture. A pattern without
/// a mark counts as naming none.
pub open spec fn marked(captured: Seq<bool>, i: int) -> bool {
    0 <= i < captured.len() && captured[i]
}

/// The union of `patterns`, of which those marked in `captured` name a
/// capture: each as it enters the union, each followed by a line end, in order.
pub open spec fn union_text(patterns: Seq<Seq<char>>, captured: Seq<bool>) -> Seq<char>
    decreases patterns.len(),
{
    if patterns.len() == 0 {
        Seq::empty()
    } else {
        union_text(patterns.drop_last(), captured) + effective_pattern(
            patterns.last(),
            marked(captured, patterns.len() - 1),
        ) + pattern_end()
    }
}

/// For each of `patterns`, whether the query it compiles to under `grammar`
/// has a capture.
pub open spec fn capture_marks(grammar: Seq<u8>, patterns: Seq<Seq<char>>) -> Seq<bool> {
    Seq::new(patterns.len(), |i: int| pattern_capture_names(grammar, patterns[i]).len() > 0)
}

/// The union of `patterns` under `grammar`: a pattern gets the default capture
/// where the query it compiles to has none.
pub open spec fn union_pattern(grammar: Seq<u8>, patterns: Seq<Seq<char>>) -> Seq<char> {
    union_text(patterns, capture_marks(grammar, patterns))
}

/// What is known of a pattern that the engine compiled: where its characters
/// are ASCII, it is one that compiles under `grammar`. Of a pattern with other
/// characters the engine's answer depends on the locale, and nothing is known.
pub open spec fn may_compile(grammar: Seq<u8>, pattern: Seq<char>) -> bool {
    is_ascii_chars(pattern) ==> query_compiles(grammar, pattern)
}

/// What is known of a pattern that the engine refused: where its characters
/// are ASCII, it is one that does not compile under `grammar`.
pub open spec fn may_refuse(grammar: Seq<u8>, pattern: Seq<char>) -> bool {
    is_ascii_chars(pattern) ==> !query_compiles(grammar, pattern)
}

/// Each of the first `n` patterns is one that the engine may have compiled.
pub open spec fn all_may_compile(grammar: Seq<u8>, patterns: Seq<Seq<char>>, n: int) -> bool {
    forall|k: int| 0 <= k < n ==> may_compile(grammar, #[trigger] patterns[k])
}

/// Every one of the first `n` patterns compiles.
pub open spec fn all_compile(grammar: Seq<u8>, patterns: Seq<Seq<char>>, n: int) -> bool {
    forall|k: int| 0 <= k < n ==> query_compiles(grammar, #[trigger] patterns[k])
}

/// The marks are those of the patterns, as far as they are known: there is one
/// for each pattern, and that of an ASCII pattern says whether the query it
/// compiles to has a capture.
pub open spec fn marks_agree(grammar: Seq<u8>, patterns: Seq<Seq<char>>, marks: Seq<bool>) -> bool {
    &&& marks.len() == patterns.len()
    &&& forall|k: int|
        0 <= k < patterns.len() && is_ascii_chars(#[trigger] patterns[k]) ==> marks[k] == (
        pattern_capture_names(grammar, patterns[k]).len() > 0)
}

/// `union` is the union of `patterns` under marks that agree with them.
pub open spec fn union_possible(grammar: Seq<u8>, patterns: Seq<Seq<char>>, union: Seq<char>) -> bool {
    exists|marks: Seq<bool>|
        marks_agree(grammar, patterns, marks) && #[trigger] union_text(patterns, marks) == union
}

/// Every one of the patterns is of ASCII characters.
pub open spec fn all_ascii(patterns: Seq<Seq<char>>) -> bool {
    forall|k: int| 0 <= k < patterns.len() ==> is_ascii_chars(#[trigger] patterns[k])
}

/// The union of `patterns`, of which those marked in `captured` name a
/// capture: each pattern, with `@query` after it where it names no capture,
/// and a line end. A union of ASCII patterns is ASCII.
pub fn union_of_patterns(patterns: &Vec<String>, captured: &Vec<bool>) -> (union: String)
    ensures
        union@ == union_text(patterns.deep_view(), captured@),
        all_ascii(patterns.deep_view()) ==> is_ascii_chars(union@),
{
    let ghost texts = patterns.deep_view();
    let mut union = String::new();
    let mut i: usize = 0;
    proof {
        reveal_strlit("@query");
        reveal_strlit("\n");
        assert(is_ascii_chars("@query"@));
        assert(is_ascii_chars("\n"@));
        assert(texts.subrange(0, 0) =~= Seq::<Seq<char>>::empty());
    }
    while i < patterns.len()
        invariant
            i <= patterns.len(),
            texts == patterns.deep_view(),
            is_ascii_chars("@query"@),
            is_ascii_chars("\n"@),
            union@ == union_text(texts.subrange(0, i as int), captured@),
            all_ascii(texts) ==> is_ascii_chars(union@),
        decreases patterns.len() - i,
    {
        let pattern = patterns[i].as_str();
        let ghost before = union@;
        proof {
            assert(texts[i as int] == pattern@);
            assert(texts.subrange(0, i + 1).drop_last() =~= texts.subrange(0, i as int));
            assert(texts.subrange(0, i + 1).last() == pattern@);
        }
        union.append(pattern);
        let ghost with_pattern = union@;
        if !(i < captured.len() && captured[i]) {
            union.append("@query");
        }
        let ghost with_capture = union@;
        union.append("\n");
        proof {
            assert(union@ =~= union_text(texts.subrange(0, i + 1), captured@));
            if all_ascii(texts) {
                is_ascii_chars_concat(with_pattern, before, pattern@);
                if with_capture != with_pattern {
                    is_ascii_chars_concat(with_capture, with_pattern, "@query"@);
                }
                is_ascii_chars_concat(union@, with_capture, "\n"@);
            }
        }
        i += 1;
    }
    proof {
        assert(texts.subrange(0, i as int) =~= texts);
    }
    union
}

/// What is wrong with the capture `c` of a file whose text is `source`, under
/// a query with the capture names `names`; `None` where nothing is. A sound
/// capture has a name, lies between two character boundaries of the source,
/// and starts and ends at the positions of those two offsets.
pub open spec fn capture_fault(names: Seq<Seq<char>>, source: Seq<char>, c: RawCapture) -> Option<
    FailureKind,
> {
    if c.index >= names.len() {
        Some(FailureKind::UnknownCapture)
    } else if !slice_fits(source, c.start_byte as int, c.end_byte as int) {
        Some(FailureKind::BadRange)
    } else if !position_fits(encode_utf8(source), c.start_byte as int, c.start) || !position_fits(
        encode_utf8(source),
        c.end_byte as int,
        c.end,
    ) {
        Some(FailureKind::BadPosition)
    } else {
        None
    }
}

/// A sound capture starts where it ends or before: its start position does
/// not lie behind its end position, and both are the positions of the bytes
/// between which its text lies.
pub proof fn lemma_sound_capture(names: Seq<Seq<char>>, source: Seq<char>, c: RawCapture)
    requires
        capture_fault(names, source, c) is None,
    ensures
        position_le(c.start, c.end),
        position_fits(encode_utf8(source), c.start_byte as int, c.start),
        position_fits(encode_utf8(source), c.end_byte as int, c.end),
        c.start_byte <= c.end_byte <= encode_utf8(source).len(),
{
    lemma_positions_ordered(
        encode_utf8(source),
        c.start_byte as int,
        c.end_byte as int,
        c.start,
        c.end,
    );
}

/// The record of the sound capture `c`: the name that its index stands for, its
/// positions, and the exact slice of the source that it spans.
pub open spec fn record_of(names: Seq<Seq<char>>, source: Seq<char>, c: RawCapture) -> RecordView {
    RecordView {
        name: names[c.index as int],
        start: c.start,
        end: c.end,
        text: slice_text(source, c.start_byte as int, c.end_byte as int),
    }
}

/// The captures of all matches in one sequence: match after match, and within
/// a match in the order of its captures.
pub open spec fn flatten(matches: Seq<Seq<RawCapture>>) -> Seq<RawCapture>
    decreases matches.len(),
{
    if matches.len() == 0 {
        Seq::empty()
    } else {
        flatten(matches.drop_last()) + matches.last()
    }
}

/// The records of `captures`, one for each and in their order; or the fault of
/// the first capture that has one.
pub open spec fn records_of(names: Seq<Seq<char>>, source: Seq<char>, captures: Seq<RawCapture>) -> Result<
    Seq<RecordView>,
    FailureKind,
>
    decreases captures.len(),
{
    if captures.len() == 0 {
        Ok(Seq::empty())
    } else {
        match records_of(names, source, captures.drop_last()) {
            Err(kind) => Err(kind),
            Ok(records) => match capture_fault(names, source, captures.last()) {
                Some(kind) => Err(kind),
                None => Ok(records.push(record_of(names, source, captures.last()))),
            },
        }
    }
}

/// What one file yields, given what the engine found in it: the failure `NoTree`
/// where the engine gave nothing; the fault of the first unsound capture; no
/// file at all where there is no capture; else the file with one record for
/// each capture, in the engine's order.
pub open spec fn extraction_of(
    path: Seq<char>,
    names: Seq<Seq<char>>,
    source: Seq<char>,
    found: Option<Seq<Seq<RawCapture>>>,
) -> Result<Option<FileView>, FailureKind> {
    match found {
        None => Err(FailureKind::NoTree),
        Some(matches) => match records_of(names, source, flatten(matches)) {
            Err(kind) => Err(kind),
            Ok(records) => if records.len() == 0 {
                Ok(None)
            } else {
                Ok(Some(FileView { path, records }))
            },
        },
    }
}

/// The model of what an extraction returns: the file's model, or the kind of
/// the failure.
pub open spec fn outcome_view(outcome: Result<Option<ExtractedFile>, FileFailure>) -> Result<
    Option<FileView>,
    FailureKind,
> {
    match outcome {
        Ok(Some(file)) => Ok(Some(file@)),
        Ok(None) => Ok(None),
        Err(failure) => Err(failure.kind),
    }
}

/// A failure names the file it is about, and carries an account only where
/// the file could not be read.
pub open spec fn failure_names(outcome: Result<Option<ExtractedFile>, FileFailure>, path: Seq<char>) -> bool {
    outcome matches Err(failure) ==> failure.path@ == path && (failure.kind
        != FailureKind::Unreadable ==> failure.detail@.len() == 0)
}

/// `outcome` is what the file yields for something that the engine may report:
/// whatever the engine finds, the file's outcome is accounted for by
/// `extraction_of`.
pub open spec fn extraction_possible(
    path: Seq<char>,
    names: Seq<Seq<char>>,
    source: Seq<char>,
    outcome: Result<Option<FileView>, FailureKind>,
) -> bool {
    exists|found: Option<Seq<Seq<RawCapture>>>|
        #[trigger] extraction_of(path, names, source, found) == outcome
}

/// A file in which the query matches nothing yields no result at all, and a
/// file that yields a result has at least one record and the path asked for.
pub proof fn lemma_absence(
    path: Seq<char>,
    names: Seq<Seq<char>>,
    source: Seq<char>,
    matches: Seq<Seq<RawCapture>>,
)
    ensures
        matches.len() == 0 ==> extraction_of(path, names, source, Some(matches)) == Ok::<
            Option<FileView>,
            FailureKind,
        >(None),
        extraction_of(path, names, source, Some(matches)) matches Ok(Some(file)) ==> file.records.len()
            > 0 && file.path == path,
{
}

/// Flattening one more match appends its captures.
pub proof fn lemma_flatten_push(matches: Seq<Seq<RawCapture>>, i: int)
    requires
        0 <= i < matches.len(),
    ensures
        flatten(matches.subrange(0, i + 1)) == flatten(matches.subrange(0, i)) + matches[i],
{
    assert(matches.subrange(0, i + 1).drop_last() =~= matches.subrange(0, i));
}

/// The records of the captures that the engine reported as `matches`, read
/// against `source` under the capture names `names`.
pub fn records_from_matches(names: &Vec<String>, source: &str, matches: &Vec<Vec<RawCapture>>) -> (r:
    Result<Vec<ExtractedRecord>, FailureKind>)
    ensures
        match r {
            Ok(records) => records_of(names.deep_view(), source@, flatten(matches.deep_view()))
                == Ok::<Seq<RecordView>, FailureKind>(records.deep_view()),
            Err(kind) => records_of(names.deep_view(), source@, flatten(matches.deep_view()))
                == Err::<Seq<RecordView>, FailureKind>(kind),
        },
{
    let ghost all = matches.deep_view();
    let ghost ns = names.deep_view();
    let index = LineIndex::new(source.as_bytes());
    let mut records: Vec<ExtractedRecord> = Vec::new();
    let mut i: usize = 0;
    proof {
        assert(all.subrange(0, 0) =~= Seq::<Seq<RawCapture>>::empty());
        assert(records.deep_view() =~= Seq::<RecordView>::empty());
    }
    while i < matches.len()
        invariant
            i <= matches.len(),
            all == matches.deep_view(),
            ns == names.deep_view(),
            index.text() == encode_utf8(source@),
            records_of(ns, source@, flatten(all.subrange(0, i as int))) == Ok::<
                Seq<RecordView>,
                FailureKind,
            >(records.deep_view()),
        decreases matches.len() - i,
    {
        let one = &matches[i];
        let ghost done = flatten(all.subrange(0, i as int));
        let ghost these = all[i as int];
        proof {
            assert(these =~= one@);
            assert(done + these.subrange(0, 0) =~= done);
        }
        let mut j: usize = 0;
        while j < one.len()
            invariant
                j <= one.len(),
                i < matches.len(),
                all == matches.deep_view(),
                ns == names.deep_view(),
                these == one@,
                these == all[i as int],
                index.text() == encode_utf8(source@),
                done == flatten(all.subrange(0, i as int)),
                records_of(ns, source@, done + these.subrange(0, j as int)) == Ok::<
                    Seq<RecordView>,
                    FailureKind,
                >(records.deep_view()),
            decreases one.len() - j,
        {
            let c = one[j];
            let ghost upto = done + these.subrange(0, j + 1);
            let ghost before = records.deep_view();
            proof {
                assert(upto.drop_last() =~= done + these.subrange(0, j as int));
                assert(upto.last() == c);
                lemma_records_stay_failed(ns, source@, upto, all, i as int, j as int);
            }
            if c.index as usize >= names.len() {
                return Err(FailureKind::UnknownCapture);
            }
            match slice_str(source, c.start_byte, c.end_byte) {
                None => {
                    return Err(FailureKind::BadRange);
                },
                Some(text) => {
                    if !index.fits(c.start_byte, c.start) || !index.fits(c.end_byte, c.end) {
                        return Err(FailureKind::BadPosition);
                    }
                    let name = names[c.index as usize].clone();
                    assert(ns[c.index as int] == names[c.index as int]@);
                    records.push(
                        ExtractedRecord::new(name, c.start, c.end, text.to_owned()),
                    );
                    assert(records.deep_view() =~= before.push(record_of(ns, source@, c)));
                },
            }
            j += 1;
        }
        proof {
            assert(these.subrange(0, j as int) =~= these);
            lemma_flatten_push(all, i as int);
        }
        i += 1;
    }
    proof {
        assert(all.subrange(0, i as int) =~= all);
    }
    Ok(records)
}

/// Once the records of a prefix of the captures have failed, those of all the
/// captures have failed in the same way.
pub proof fn lemma_records_failed_prefix(
    names: Seq<Seq<char>>,
    source: Seq<char>,
    captures: Seq<RawCapture>,
    n: int,
)
    requires
        0 <= n <= captures.len(),
        records_of(names, source, captures.subrange(0, n)) is Err,
    ensures
        records_of(names, source, captures) == records_of(names, source, captures.subrange(0, n)),
    decreases captures.len() - n,
{
    if n < captures.len() {
        assert(captures.subrange(0, n + 1).drop_last() =~= captures.subrange(0, n));
        lemma_records_failed_prefix(names, source, captures, n + 1);
    } else {
        assert(captures.subrange(0, n) =~= captures);
    }
}

/// A fault in the capture `j` of the match `i` is the fault of all the matches.
pub proof fn lemma_records_stay_failed(
    names: Seq<Seq<char>>,
    source: Seq<char>,
    upto: Seq<RawCapture>,
    matches: Seq<Seq<RawCapture>>,
    i: int,
    j: int,
)
    requires
        0 <= i < matches.len(),
        0 <= j < matches[i].len(),
        upto == flatten(matches.subrange(0, i)) + matches[i].subrange(0, j + 1),
    ensures
        records_of(names, source, upto) is Err ==> records_of(names, source, flatten(matches))
            == records_of(names, source, upto),
{
    if records_of(names, source, upto) is Err {
        lemma_flatten_prefix(matches, i, j + 1);
        lemma_records_failed_prefix(names, source, flatten(matches), upto.len() as int);
    }
}

/// The captures up to capture `j` of match `i` open the flattened matches.
pub proof fn lemma_flatten_prefix(matches: Seq<Seq<RawCapture>>, i: int, j: int)
    requires
        0 <= i < matches.len(),
        0 <= j <= matches[i].len(),
    ensures
        flatten(matches.subrange(0, i)).len() + j <= flatten(matches).len(),
        flatten(matches).subrange(0, flatten(matches.subrange(0, i)).len() + j) == flatten(
            matches.subrange(0, i),
        ) + matches[i].subrange(0, j),
    decreases matches.len() - i,
{
    let head = flatten(matches.subrange(0, i));
    if i == matches.len() - 1 {
        assert(matches.subrange(0, i) =~= matches.drop_last());
        assert(matches[i] == matches.last());
        assert(flatten(matches) =~= head + matches[i]);
        assert(flatten(matches).subrange(0, head.len() + j) =~= head + matches[i].subrange(0, j));
    } else {
        lemma_flatten_push(matches, i);
        lemma_flatten_prefix(matches, i + 1, 0);
        let next = flatten(matches.subrange(0, i + 1));
        assert(next =~= head + matches[i]);
        assert(flatten(matches).subrange(0, next.len() as int) =~= next);
        assert(flatten(matches).subrange(0, head.len() + j) =~= next.subrange(
            0,
            head.len() + j,
        ));
        assert(next.subrange(0, head.len() + j) =~= head + matches[i].subrange(0, j));
    }
}

/// What the file at `path` with the text `source` yields, given what the
/// engine found in it.
pub fn extraction_from_matches(
    path: &str,
    names: &Vec<String>,
    source: &str,
    found: Option<Vec<Vec<RawCapture>>>,
) -> (outcome: Result<Option<ExtractedFile>, FileFailure>)
    ensures
        outcome_view(outcome) == extraction_of(
            path@,
            names.deep_view(),
            source@,
            found.deep_view(),
        ),
        failure_names(outcome, path@),
{
    match found {
        None => Err(FileFailure { path: path.to_owned(), kind: FailureKind::NoTree, detail: String::new() }),
        Some(matches) => match records_from_matches(names, source, &matches) {
            Err(kind) => Err(FileFailure { path: path.to_owned(), kind, detail: String::new() }),
            Ok(records) => if records.len() == 0 {
                Ok(None)
            } else {
                Ok(Some(ExtractedFile::new(path.to_owned(), records)))
            },
        },
    }
}

/// What holds of an extractor for `identifier`, whatever the engine answered:
/// it is for the grammar given; its pattern is the union of `patterns`; every
/// pattern, and the union, is one that the engine may have compiled; and its
/// capture names are those of its pattern, where that is ASCII.
pub open spec fn built_possibly(
    grammar: Seq<u8>,
    identifier: Seq<char>,
    patterns: Seq<Seq<char>>,
    extractor: ExtractorView,
) -> bool {
    &&& extractor.identifier == identifier
    &&& extractor.grammar == grammar
    &&& all_may_compile(grammar, patterns, patterns.len() as int)
    &&& union_possible(grammar, patterns, extractor.pattern)
    &&& may_compile(grammar, extractor.pattern)
    &&& is_ascii_chars(extractor.pattern) ==> extractor.capture_names == pattern_capture_names(
        grammar,
        extractor.pattern,
    )
}

/// What holds of the result of `Extractor::new`, whatever the engine answered.
/// A fault names a pattern that the engine may have refused, after patterns
/// that it may have compiled; or, past the last pattern, the union.
pub open spec fn made_possibly(
    grammar: Seq<u8>,
    identifier: Seq<char>,
    patterns: Seq<Seq<char>>,
    made: Result<Extractor, QueryFault>,
) -> bool {
    match made {
        Ok(extractor) => built_possibly(grammar, identifier, patterns, extractor@),
        Err(fault) => {
            &&& fault.pattern <= patterns.len()
            &&& all_may_compile(grammar, patterns, fault.pattern as int)
            &&& fault.pattern < patterns.len() ==> may_refuse(
                grammar,
                patterns[fault.pattern as int],
            )
            &&& fault.pattern == patterns.len() ==> exists|union: Seq<char>|
                #[trigger] union_possible(grammar, patterns, union) && may_refuse(grammar, union)
        },
    }
}

/// The result of `Extractor::new` for patterns of ASCII characters: the
/// extractor of their union where every pattern and the union compile, and
/// else the first pattern that does not compile, or the union.
pub open spec fn made_exactly(
    grammar: Seq<u8>,
    identifier: Seq<char>,
    patterns: Seq<Seq<char>>,
    made: Result<Extractor, QueryFault>,
) -> bool {
    let union = union_pattern(grammar, patterns);
    match made {
        Ok(extractor) => {
            &&& all_compile(grammar, patterns, patterns.len() as int)
            &&& query_compiles(grammar, union)
            &&& extractor@ == (ExtractorView {
                identifier,
                grammar,
                pattern: union,
                capture_names: pattern_capture_names(grammar, union),
            })
        },
        Err(fault) => {
            &&& fault.pattern <= patterns.len()
            &&& all_compile(grammar, patterns, fault.pattern as int)
            &&& fault.pattern < patterns.len() ==> !query_compiles(
                grammar,
                patterns[fault.pattern as int],
            )
            &&& fault.pattern == patterns.len() ==> !query_compiles(grammar, union)
        },
    }
}

/// A union of ASCII patterns is ASCII.
pub proof fn lemma_union_text_ascii(patterns: Seq<Seq<char>>, marks: Seq<bool>)
    requires
        all_ascii(patterns),
    ensures
        is_ascii_chars(union_text(patterns, marks)),
    decreases patterns.len(),
{
    reveal_strlit("@query");
    reveal_strlit("\n");
    if patterns.len() > 0 {
        let front = patterns.drop_last();
        assert forall|k: int| 0 <= k < front.len() implies is_ascii_chars(#[trigger] front[k]) by {
            assert(front[k] == patterns[k]);
        }
        lemma_union_text_ascii(front, marks);
        assert(is_ascii_chars(patterns[patterns.len() - 1]));
        assert(is_ascii_chars(default_capture()));
        assert(is_ascii_chars(pattern_end()));
    }
}

/// The union of ASCII patterns is one text: that of `union_pattern`.
pub proof fn lemma_union_of_ascii(grammar: Seq<u8>, patterns: Seq<Seq<char>>, union: Seq<char>)
    requires
        all_ascii(patterns),
        union_possible(grammar, patterns, union),
    ensures
        union == union_pattern(grammar, patterns),
        is_ascii_chars(union),
{
    let marks = choose|marks: Seq<bool>|
        marks_agree(grammar, patterns, marks) && #[trigger] union_text(patterns, marks) == union;
    assert(marks =~= capture_marks(grammar, patterns));
    lemma_union_text_ascii(patterns, marks);
}

/// For patterns of ASCII characters, what holds whatever the engine answered
/// is the exact account.
pub proof fn lemma_ascii_made_exactly(
    grammar: Seq<u8>,
    identifier: Seq<char>,
    patterns: Seq<Seq<char>>,
    made: Result<Extractor, QueryFault>,
)
    requires
        all_ascii(patterns),
        made_possibly(grammar, identifier, patterns, made),
    ensures
        made_exactly(grammar, identifier, patterns, made),
{
    match made {
        Ok(extractor) => {
            lemma_union_of_ascii(grammar, patterns, extractor@.pattern);
            assert forall|k: int| 0 <= k < patterns.len() implies query_compiles(
                grammar,
                #[trigger] patterns[k],
            ) by {
                assert(may_compile(grammar, patterns[k]));
            }
        },
        Err(fault) => {
            assert forall|k: int| 0 <= k < fault.pattern implies query_compiles(
                grammar,
                #[trigger] patterns[k],
            ) by {
                assert(may_compile(grammar, patterns[k]));
            }
            if fault.pattern == patterns.len() {
                let union = choose|union: Seq<char>|
                    #[trigger] union_possible(grammar, patterns, union) && may_refuse(grammar, union);
                lemma_union_of_ascii(grammar, patterns, union);
            }
        },
    }
}

/// What a reader found at a path: the file's bytes, or its account of why it
/// could not read them.
#[derive(Clone, Debug, PartialEq, Eq)]
pub enum FileRead {
    Content(Vec<u8>),
    Unreadable(String),
}

/// One language with the query to run on its files: the grammar, the union of
/// the patterns asked for, compiled once, and the names of its captures. An
/// extractor is made by `Extractor::new` alone, and nothing changes it.
pub struct Extractor {
    identifier: String,
    grammar: tree_sitter::Language,
    query: tree_sitter::Query,
    pattern: String,
    capture_names: Vec<String>,
}

/// The model of an `Extractor`. The grammar is modelled by its tables.
pub struct ExtractorView {
    pub identifier: Seq<char>,
    pub grammar: Seq<u8>,
    pub pattern: Seq<char>,
    pub capture_names: Seq<Seq<char>>,
}

impl View for Extractor {
    type V = ExtractorView;

    closed spec fn view(&self) -> ExtractorView {
        ExtractorView {
            identifier: self.identifier@,
            grammar: grammar_tables(self.grammar),
            pattern: self.pattern@,
            capture_names: self.capture_names.deep_view(),
        }
    }
}

impl Extractor {
    #[verifier::type_invariant]
    spec fn compiled(&self) -> bool {
        &&& query_origin(self.query) == (grammar_tables(self.grammar), self.pattern@)
        &&& is_ascii_chars(self.pattern@) ==> self.capture_names.deep_view()
            == pattern_capture_names(grammar_tables(self.grammar), self.pattern@)
    }

    /// Compiles the union of `patterns` for the language `identifier` with the
    /// grammar `grammar`. Each pattern is compiled alone first, to tell whether
    /// it names a capture. The first pattern that the engine refuses is the
    /// fault; where it refuses none, but the union, the union is. For patterns
    /// of ASCII characters the result is fixed by `made_exactly`.
    pub fn new(identifier: &str, grammar: &tree_sitter::Language, patterns: &Vec<String>) -> (made:
        Result<Extractor, QueryFault>)
        ensures
            made_possibly(grammar_tables(*grammar), identifier@, patterns.deep_view(), made),
            all_ascii(patterns.deep_view()) ==> made_exactly(
                grammar_tables(*grammar),
                identifier@,
                patterns.deep_view(),
                made,
            ),
    {
        let made = Extractor::compile(identifier, grammar, patterns);
        proof {
            if all_ascii(patterns.deep_view()) {
                lemma_ascii_made_exactly(
                    grammar_tables(*grammar),
                    identifier@,
                    patterns.deep_view(),
                    made,
                );
            }
        }
        made
    }

    /// Compiles each pattern, then their union.
    fn compile(identifier: &str, grammar: &tree_sitter::Language, patterns: &Vec<String>) -> (made:
        Result<Extractor, QueryFault>)
        ensures
            made_possibly(grammar_tables(*grammar), identifier@, patterns.deep_view(), made),
    {
        let ghost tables = grammar_tables(*grammar);
        let ghost texts = patterns.deep_view();
        let mut captured: Vec<bool> = Vec::new();
        let mut i: usize = 0;
        while i < patterns.len()
            invariant
                i <= patterns.len(),
                texts == patterns.deep_view(),
                tables == grammar_tables(*grammar),
                all_may_compile(tables, texts, i as int),
                captured.len() == i,
                forall|k: int|
                    0 <= k < i && is_ascii_chars(#[trigger] texts[k]) ==> captured[k] == (
                    pattern_capture_names(tables, texts[k]).len() > 0),
            decreases patterns.len() - i,
        {
            let pattern = patterns[i].as_str();
            proof {
                assert(texts[i as int] == pattern@);
            }
            match compile_query(grammar, pattern) {
                Err(error) => {
                    return Err(QueryFault { pattern: i, message: describe_query_error(&error) });
                },
                Ok(alone) => {
                    let names = capture_names(&alone);
                    proof {
                        assert(names.deep_view().len() == names.len());
                    }
                    captured.push(names.len() > 0);
                },
            }
            i += 1;
        }
        let union = union_of_patterns(patterns, &captured);
        proof {
            assert(marks_agree(tables, texts, captured@));
            assert(union_possible(tables, texts, union@));
        }
        match compile_query(grammar, union.as_str()) {
            Err(error) => Err(QueryFault { pattern: i, message: describe_query_error(&error) }),
            Ok(query) => {
                let capture_names = capture_names(&query);
                Ok(
                    Extractor {
                        identifier: identifier.to_owned(),
                        grammar: clone_grammar(grammar),
                        query,
                        pattern: union,
                        capture_names,
                    },
                )
            },
        }
    }

    /// The identifier of the extractor's language.
    pub fn identifier(&self) -> (identifier: &str)
        ensures
            identifier@ == self@.identifier,
    {
        self.identifier.as_str()
    }

    /// The pattern text that the extractor's query was compiled from.
    pub fn pattern(&self) -> (pattern: &str)
        ensures
            pattern@ == self@.pattern,
    {
        self.pattern.as_str()
    }

    /// The names of the captures of the extractor's query: where its pattern
    /// is of ASCII characters, those that the engine gives for that pattern.
    pub fn capture_names(&self) -> (names: &Vec<String>)
        ensures
            names.deep_view() == self@.capture_names,
            is_ascii_chars(self@.pattern) ==> self@.capture_names == pattern_capture_names(
                self@.grammar,
                self@.pattern,
            ),
    {
        proof {
            use_type_invariant(self);
        }
        &self.capture_names
    }

    /// Parses `source`, the text of the file at `path`, runs the query over it
    /// and gives the file's records. Whatever the engine finds, the outcome is
    /// what `extraction_of` says of it: a file that comes back has the path
    /// asked for and at least one record, and a file without a capture does
    /// not come back at all. Where the pattern and the source are both of
    /// ASCII characters, what the engine finds is a function of them, and so is
    /// the outcome.
    pub fn extract_from_text(&self, path: &str, source: &str) -> (outcome: Result<
        Option<ExtractedFile>,
        FileFailure,
    >)
        ensures
            extraction_possible(path@, self@.capture_names, source@, outcome_view(outcome)),
            is_ascii_chars(self@.pattern) && is_ascii_chars(source@) ==> outcome_view(outcome)
                == extraction_of(
                path@,
                self@.capture_names,
                source@,
                pattern_matches(self@.grammar, self@.pattern, encode_utf8(source@)),
            ),
            failure_names(outcome, path@),
            outcome matches Ok(Some(file)) ==> file@.path == path@ && file@.records.len() > 0,
            outcome matches Err(failure) ==> failure.kind != FailureKind::Unreadable && failure.kind
                != FailureKind::NotUtf8,
    {
        proof {
            use_type_invariant(self);
            if is_ascii_chars(source@) {
                is_ascii_chars_encode_utf8(source@);
                assert(ascii_bytes(encode_utf8(source@)));
            }
        }
        let found = run_query(&self.grammar, &self.query, source.as_bytes());
        let ghost reported = found.deep_view();
        let outcome = extraction_from_matches(path, &self.capture_names, source, found);
        proof {
            assert(extraction_of(path@, self@.capture_names, source@, reported) == outcome_view(
                outcome,
            ));
            lemma_never_a_reading_fault(path@, self@.capture_names, source@, reported);
        }
        outcome
    }

    /// What the file at `path` yields, given what a reader found there. A file
    /// that could not be read fails as `Unreadable`, with the reader's account;
    /// one whose bytes are not valid UTF-8 fails as `NotUtf8`; any other is
    /// extracted from its text.
    pub fn extract_from_file(&self, path: &str, read: FileRead) -> (outcome: Result<
        Option<ExtractedFile>,
        FileFailure,
    >)
        ensures
            failure_names(outcome, path@),
            outcome matches Ok(Some(file)) ==> file@.path == path@ && file@.records.len() > 0,
            match read {
                FileRead::Unreadable(detail) => outcome matches Err(failure) && failure.kind
                    == FailureKind::Unreadable && failure.detail@ == detail@,
                FileRead::Content(bytes) => if valid_utf8(bytes@) {
                    &&& extraction_possible(
                        path@,
                        self@.capture_names,
                        decode_utf8(bytes@),
                        outcome_view(outcome),
                    )
                    &&& is_ascii_chars(self@.pattern) && is_ascii_chars(decode_utf8(bytes@))
                        ==> outcome_view(outcome) == extraction_of(
                        path@,
                        self@.capture_names,
                        decode_utf8(bytes@),
                        pattern_matches(self@.grammar, self@.pattern, bytes@),
                    )
                    &&& outcome matches Err(failure) ==> failure.kind != FailureKind::Unreadable
                        && failure.kind != FailureKind::NotUtf8
                } else {
                    outcome matches Err(failure) && failure.kind == FailureKind::NotUtf8
                },
            },
    {
        match read {
            FileRead::Unreadable(detail) => Err(
                FileFailure { path: path.to_owned(), kind: FailureKind::Unreadable, detail },
            ),
            FileRead::Content(bytes) => {
                proof {
                    if valid_utf8(bytes@) {
                        decode_utf8_encode_utf8(bytes@);
                    }
                }
                match string_from_utf8(bytes) {
                    None => Err(
                        FileFailure {
                            path: path.to_owned(),
                            kind: FailureKind::NotUtf8,
                            detail: String::new(),
                        },
                    ),
                    Some(source) => self.extract_from_text(path, source.as_str()),
                }
            },
        }
    }
}

/// What a file yields from an engine's report is never a fault of reading.
pub proof fn lemma_never_a_reading_fault(
    path: Seq<char>,
    names: Seq<Seq<char>>,
    source: Seq<char>,
    found: Option<Seq<Seq<RawCapture>>>,
)
    ensures
        extraction_of(path, names, source, found) matches Err(kind) ==> kind
            != FailureKind::Unreadable && kind != FailureKind::NotUtf8,
{
    if let Some(matches) = found {
        lemma_records_fault_kind(names, source, flatten(matches));
    }
}

/// The fault of a capture is an unknown name, a bad range or a bad position.
pub proof fn lemma_records_fault_kind(
    names: Seq<Seq<char>>,
    source: Seq<char>,
    captures: Seq<RawCapture>,
)
    ensures
        records_of(names, source, captures) matches Err(kind) ==> kind
            == FailureKind::UnknownCapture || kind == FailureKind::BadRange || kind
            == FailureKind::BadPosition,
    decreases captures.len(),
{
    if captures.len() > 0 {
        lemma_records_fault_kind(names, source, captures.drop_last());
    }
}

} // verus!
