//! The result aggregator: the outcomes of the files, in whatever order they
//! arrive, become one collection of files and one list of failures.
//!
//! A file without matches leaves no trace. A failed file leaves its failure and
//! never stops the others. The collection keeps the order of arrival unless a
//! sorted one is asked for; which records it holds does not depend on that
//! order.

use crate::failure::{FailureView, FileFailure};
use crate::record::{collection_output, file_output, ExtractedFile, FileView, OutputRecord};
use crate::sorting::{
    is_sorted, lemma_sorted_independent_of_order, one_file_per_path, reversed, sort_files,
    sorted_by_path,
};
use vstd::multiset::*;
use vstd::prelude::*;

verus! {

/// The files among `outcomes`, in their order.
pub open spec fn files_of(outcomes: Seq<Result<Option<ExtractedFile>, FileFailure>>) -> Seq<
    FileView,
>
    decreases outcomes.len(),
{
    if outcomes.len() == 0 {
        Seq::empty()
    } else {
        match outcomes.last() {
            Ok(Some(file)) => files_of(outcomes.drop_last()).push(file@),
            _ => files_of(outcomes.drop_last()),
        }
    }
}

/// The failures among `outcomes`, in their order.
pub open spec fn failures_of(outcomes: Seq<Result<Option<ExtractedFile>, FileFailure>>) -> Seq<
    FailureView,
>
    decreases outcomes.len(),
{
    if outcomes.len() == 0 {
        Seq::empty()
    } else {
        match outcomes.last() {
            Err(failure) => failures_of(outcomes.drop_last()).push(failure@),
            _ => failures_of(outcomes.drop_last()),
        }
    }
}

/// The files that one outcome contributes: its file, where it has one.
pub open spec fn outcome_files(outcome: Result<Option<ExtractedFile>, FileFailure>) -> Multiset<
    FileView,
> {
    match outcome {
        Ok(Some(file)) => Multiset::singleton(file@),
        _ => Multiset::empty(),
    }
}

/// All the output records of `outcomes`, as a multiset.
pub open spec fn records_of_outcomes(outcomes: Seq<Result<Option<ExtractedFile>, FileFailure>>) -> Multiset<
    OutputRecord,
> {
    collection_output(files_of(outcomes)).to_multiset()
}

/// The aggregated results of a run.
pub struct Aggregate {
    /// The files with matches.
    pub files: Vec<ExtractedFile>,
    /// The files that failed.
    pub failures: Vec<FileFailure>,
}

/// Collects the outcomes of the files: the files that have matches, ordered by
/// path where `sort` is set and in the order of `outcomes` where it is not, and
/// the failures in the order of `outcomes`.
pub fn aggregate(outcomes: Vec<Result<Option<ExtractedFile>, FileFailure>>, sort: bool) -> (all:
    Aggregate)
    ensures
        sort ==> all.files.deep_view() == sorted_by_path(files_of(outcomes@)),
        sort ==> is_sorted(all.files.deep_view()),
        !sort ==> all.files.deep_view() == files_of(outcomes@),
        all.failures.deep_view() == failures_of(outcomes@),
        collection_output(all.files.deep_view()).to_multiset() == records_of_outcomes(outcomes@),
{
    let ghost given = outcomes@;
    let mut rest = reversed(outcomes);
    let mut files: Vec<ExtractedFile> = Vec::new();
    let mut failures: Vec<FileFailure> = Vec::new();
    let ghost mut done: int = 0;
    proof {
        assert(given.subrange(0, 0) =~= Seq::<Result<Option<ExtractedFile>, FileFailure>>::empty());
        assert(files.deep_view() =~= Seq::<FileView>::empty());
        assert(failures.deep_view() =~= Seq::<FailureView>::empty());
    }
    while rest.len() > 0
        invariant
            0 <= done <= given.len(),
            rest.len() == given.len() - done,
            forall|k: int| 0 <= k < rest.len() ==> rest@[k] == given[given.len() - 1 - k],
            files.deep_view() == files_of(given.subrange(0, done)),
            failures.deep_view() == failures_of(given.subrange(0, done)),
        decreases rest.len(),
    {
        let ghost files_before = files.deep_view();
        let ghost failures_before = failures.deep_view();
        let outcome = rest.pop().unwrap();
        proof {
            assert(outcome == given[done]);
            assert(given.subrange(0, done + 1).drop_last() =~= given.subrange(0, done));
            assert(given.subrange(0, done + 1).last() == outcome);
        }
        match outcome {
            Ok(Some(file)) => {
                files.push(file);
                assert(files.deep_view() =~= files_before.push(file@));
            },
            Ok(None) => {},
            Err(failure) => {
                failures.push(failure);
                assert(failures.deep_view() =~= failures_before.push(failure@));
            },
        }
        proof {
            done = done + 1;
        }
    }
    proof {
        assert(given.subrange(0, done) =~= given);
    }
    if sort {
        let ghost unsorted = files.deep_view();
        let sorted = sort_files(files);
        proof {
            lemma_output_follows_files(sorted.deep_view(), unsorted);
        }
        Aggregate { files: sorted, failures }
    } else {
        Aggregate { files, failures }
    }
}

/// The output records of a collection with one more file are those of the
/// collection and those of the file.
pub proof fn lemma_output_push(files: Seq<FileView>, file: FileView)
    ensures
        collection_output(files.push(file)).to_multiset() == collection_output(
            files,
        ).to_multiset().add(file_output(file).to_multiset()),
{
    assert(files.push(file).drop_last() =~= files);
    vstd::seq_lib::lemma_multiset_commutative(collection_output(files), file_output(file));
}

/// The output records of a collection without one of its files, with the
/// records of that file added, are those of the collection.
pub proof fn lemma_output_remove(files: Seq<FileView>, k: int)
    requires
        0 <= k < files.len(),
    ensures
        collection_output(files).to_multiset() == collection_output(
            files.remove(k),
        ).to_multiset().add(file_output(files[k]).to_multiset()),
    decreases files.len(),
{
    let front = files.drop_last();
    assert(files =~= front.push(files.last()));
    lemma_output_push(front, files.last());
    if k == files.len() - 1 {
        assert(files.remove(k) =~= front);
    } else {
        lemma_output_remove(front, k);
        assert(files.remove(k) =~= front.remove(k).push(files.last()));
        lemma_output_push(front.remove(k), files.last());
        assert(front[k] == files[k]);
        let rest = collection_output(front.remove(k)).to_multiset();
        let one = file_output(files[k]).to_multiset();
        let last = file_output(files.last()).to_multiset();
        assert(rest.add(one).add(last) =~= rest.add(last).add(one));
    }
}

/// Two collections of the same files, in whatever order, give the same output
/// records.
pub proof fn lemma_output_follows_files(a: Seq<FileView>, b: Seq<FileView>)
    requires
        a.to_multiset() == b.to_multiset(),
    ensures
        collection_output(a).to_multiset() == collection_output(b).to_multiset(),
    decreases a.len(),
{
    broadcast use vstd::seq_lib::group_to_multiset_ensures;

    a.to_multiset_ensures();
    b.to_multiset_ensures();
    if a.len() == 0 {
        assert(b.len() == 0);
        assert(a =~= b);
    } else {
        let last = a.last();
        let front = a.drop_last();
        assert(a =~= front.push(last));
        assert(a.contains(last));
        assert(b.to_multiset().count(last) > 0);
        assert(b.contains(last));
        let k = choose|k: int| 0 <= k < b.len() && b[k] == last;
        assert(a.remove(a.len() - 1) =~= front);
        assert(front.to_multiset() =~= a.to_multiset().remove(last));
        assert(b.remove(k).to_multiset() =~= b.to_multiset().remove(last));
        lemma_output_follows_files(front, b.remove(k));
        lemma_output_push(front, last);
        lemma_output_remove(b, k);
    }
}

/// One more outcome adds its file, where it has one.
pub proof fn lemma_files_push(
    outcomes: Seq<Result<Option<ExtractedFile>, FileFailure>>,
    outcome: Result<Option<ExtractedFile>, FileFailure>,
)
    ensures
        files_of(outcomes.push(outcome)).to_multiset() == files_of(outcomes).to_multiset().add(
            outcome_files(outcome),
        ),
{
    broadcast use vstd::seq_lib::to_multiset_build;

    assert(outcomes.push(outcome).drop_last() =~= outcomes);
    match outcome {
        Ok(Some(file)) => {
            assert(files_of(outcomes).to_multiset().insert(file@) =~= files_of(
                outcomes,
            ).to_multiset().add(Multiset::singleton(file@)));
        },
        _ => {
            assert(files_of(outcomes).to_multiset().add(Multiset::empty()) =~= files_of(
                outcomes,
            ).to_multiset());
        },
    }
}

/// The files of a list of outcomes without one of them, with the file of that
/// one added, are those of the list.
pub proof fn lemma_files_remove(outcomes: Seq<Result<Option<ExtractedFile>, FileFailure>>, k: int)
    requires
        0 <= k < outcomes.len(),
    ensures
        files_of(outcomes).to_multiset() == files_of(outcomes.remove(k)).to_multiset().add(
            outcome_files(outcomes[k]),
        ),
    decreases outcomes.len(),
{
    let front = outcomes.drop_last();
    let last = outcomes.last();
    lemma_files_push(front, last);
    assert(outcomes =~= front.push(last));
    if k == outcomes.len() - 1 {
        assert(outcomes.remove(k) =~= front);
    } else {
        lemma_files_remove(front, k);
        assert(outcomes.remove(k) =~= front.remove(k).push(last));
        lemma_files_push(front.remove(k), last);
        assert(front[k] == outcomes[k]);
        let rest = files_of(front.remove(k)).to_multiset();
        assert(rest.add(outcome_files(outcomes[k])).add(outcome_files(last)) =~= rest.add(
            outcome_files(last),
        ).add(outcome_files(outcomes[k])));
    }
}

/// The files that a run collects do not depend on the order in which the
/// outcomes arrive: two lists of the same outcomes, each as often, give the
/// same files, each as often.
pub proof fn lemma_files_independent_of_order(
    first: Seq<Result<Option<ExtractedFile>, FileFailure>>,
    second: Seq<Result<Option<ExtractedFile>, FileFailure>>,
)
    requires
        first.to_multiset() == second.to_multiset(),
    ensures
        files_of(first).to_multiset() == files_of(second).to_multiset(),
    decreases first.len(),
{
    broadcast use vstd::seq_lib::group_to_multiset_ensures;

    first.to_multiset_ensures();
    second.to_multiset_ensures();
    if first.len() == 0 {
        assert(second.len() == 0);
        assert(first =~= second);
    } else {
        let last = first.last();
        let front = first.drop_last();
        assert(first =~= front.push(last));
        assert(first.contains(last));
        assert(second.to_multiset().count(last) > 0);
        assert(second.contains(last));
        let k = choose|k: int| 0 <= k < second.len() && second[k] == last;
        assert(first.remove(first.len() - 1) =~= front);
        assert(front.to_multiset() =~= first.to_multiset().remove(last));
        assert(second.remove(k).to_multiset() =~= second.to_multiset().remove(last));
        lemma_files_independent_of_order(front, second.remove(k));
        lemma_files_push(front, last);
        lemma_files_remove(second, k);
    }
}

/// The records that a run yields do not depend on the order in which the
/// outcomes of its files arrive: two lists of the same outcomes, each as often,
/// give the same multiset of output records.
pub proof fn lemma_records_independent_of_order(
    first: Seq<Result<Option<ExtractedFile>, FileFailure>>,
    second: Seq<Result<Option<ExtractedFile>, FileFailure>>,
)
    requires
        first.to_multiset() == second.to_multiset(),
    ensures
        records_of_outcomes(first) == records_of_outcomes(second),
{
    lemma_files_independent_of_order(first, second);
    lemma_output_follows_files(files_of(first), files_of(second));
}

/// A sorted run is reproducible: two lists of the same outcomes, each as often,
/// in which no two different files have the same path, give the same sorted
/// collection, file for file and record for record.
pub proof fn lemma_sorted_run_is_reproducible(
    first: Seq<Result<Option<ExtractedFile>, FileFailure>>,
    second: Seq<Result<Option<ExtractedFile>, FileFailure>>,
)
    requires
        first.to_multiset() == second.to_multiset(),
        one_file_per_path(files_of(first)),
    ensures
        sorted_by_path(files_of(first)) == sorted_by_path(files_of(second)),
{
    lemma_files_independent_of_order(first, second);
    lemma_sorted_independent_of_order(files_of(first), files_of(second));
}

} // verus!
