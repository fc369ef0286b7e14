//! The deterministic order of a result collection: files by path, stably.
//!
//! The sorted form of a collection is defined by insertion: each file, in the
//! order of the collection, goes behind the last file whose path is not greater
//! than its own. The executable sort is a merge sort that is proved to give
//! exactly that.

use crate::record::{ExtractedFile, FileView};
use crate::text::{
    lemma_encoding_injective, lemma_lex_le_antisymmetric, lemma_lex_le_reflexive, lemma_lex_le_total,
    lemma_lex_le_transitive, path_le, str_le,
};
use vstd::prelude::*;
use vstd::utf8::*;

verus! {

/// File `a` sorts before file `b`, or with it: by the bytes of their paths.
pub open spec fn file_le(a: FileView, b: FileView) -> bool {
    path_le(a.path, b.path)
}

/// Each file sorts before, or with, every file behind it.
pub open spec fn is_sorted(files: Seq<FileView>) -> bool {
    forall|i: int, j: int| 0 <= i < j < files.len() ==> file_le(files[i], files[j])
}

/// `files` with `file` put behind the last file that does not sort after it.
pub open spec fn inserted(files: Seq<FileView>, file: FileView) -> Seq<FileView>
    decreases files.len(),
{
    if files.len() == 0 || file_le(files.last(), file) {
        files.push(file)
    } else {
        inserted(files.drop_last(), file).push(files.last())
    }
}

/// The files of `files` ordered by path; files of the same path keep the order
/// they had.
pub open spec fn sorted_by_path(files: Seq<FileView>) -> Seq<FileView>
    decreases files.len(),
{
    if files.len() == 0 {
        files
    } else {
        inserted(sorted_by_path(files.drop_last()), files.last())
    }
}

/// The two sequences in one, taken from their ends: the greater last file goes
/// last, and that of `b` where neither is greater.
pub open spec fn merged(a: Seq<FileView>, b: Seq<FileView>) -> Seq<FileView>
    decreases a.len() + b.len(),
{
    if a.len() == 0 {
        b
    } else if b.len() == 0 {
        a
    } else if file_le(a.last(), b.last()) {
        merged(a, b.drop_last()).push(b.last())
    } else {
        merged(a.drop_last(), b).push(a.last())
    }
}

/// Of two files one sorts before the other, or with it.
pub proof fn lemma_file_le_total(a: FileView, b: FileView)
    ensures
        file_le(a, b) || file_le(b, a),
{
    lemma_lex_le_total(encode_utf8(a.path), encode_utf8(b.path));
}

/// The order of files is transitive.
pub proof fn lemma_file_le_transitive(a: FileView, b: FileView, c: FileView)
    requires
        file_le(a, b),
        file_le(b, c),
    ensures
        file_le(a, c),
{
    lemma_lex_le_transitive(encode_utf8(a.path), encode_utf8(b.path), encode_utf8(c.path));
}

/// Inserting keeps the files, adds the one inserted, and puts either that one
/// or the former last file last.
pub proof fn lemma_inserted(files: Seq<FileView>, file: FileView)
    ensures
        inserted(files, file).len() == files.len() + 1,
        inserted(files, file).to_multiset() == files.to_multiset().insert(file),
        inserted(files, file).last() == file || (files.len() > 0 && inserted(files, file).last()
            == files.last()),
    decreases files.len(),
{
    broadcast use vstd::seq_lib::to_multiset_build;

    if files.len() == 0 || file_le(files.last(), file) {
    } else {
        let front = files.drop_last();
        lemma_inserted(front, file);
        assert(files =~= front.push(files.last()));
        assert(front.to_multiset().insert(file).insert(files.last()) =~= front.to_multiset().insert(
            files.last(),
        ).insert(file));
    }
}

/// Inserting into a sorted sequence gives a sorted sequence.
pub proof fn lemma_inserted_sorted(files: Seq<FileView>, file: FileView)
    requires
        is_sorted(files),
    ensures
        is_sorted(inserted(files, file)),
    decreases files.len(),
{
    let out = inserted(files, file);
    if files.len() == 0 || file_le(files.last(), file) {
        assert forall|i: int, j: int| 0 <= i < j < out.len() implies file_le(out[i], out[j]) by {
            if j == files.len() {
                assert(out[i] == files[i]);
                if i < files.len() - 1 {
                    assert(file_le(files[i], files[files.len() - 1]));
                    lemma_file_le_transitive(files[i], files.last(), file);
                }
            } else {
                assert(file_le(files[i], files[j]));
            }
        }
    } else {
        let front = files.drop_last();
        assert forall|i: int, j: int| 0 <= i < j < front.len() implies file_le(
            front[i],
            front[j],
        ) by {
            assert(file_le(files[i], files[j]));
        }
        lemma_inserted_sorted(front, file);
        lemma_inserted(front, file);
        let inner = inserted(front, file);
        lemma_file_le_total(files.last(), file);
        assert forall|i: int, j: int| 0 <= i < j < out.len() implies file_le(out[i], out[j]) by {
            if j < inner.len() {
                assert(file_le(inner[i], inner[j]));
            } else {
                // every file of `inner` is `file` or a file of `front`
                lemma_member_of_inserted(front, file, i);
                if inner[i] == file {
                } else {
                    let k = choose|k: int| 0 <= k < front.len() && front[k] == inner[i];
                    assert(file_le(files[k], files[files.len() - 1]));
                }
            }
        }
    }
}

/// Each file of an insertion is the file inserted or one that was there.
pub proof fn lemma_member_of_inserted(files: Seq<FileView>, file: FileView, i: int)
    requires
        0 <= i < inserted(files, file).len(),
    ensures
        inserted(files, file)[i] == file || exists|k: int|
            0 <= k < files.len() && files[k] == inserted(files, file)[i],
    decreases files.len(),
{
    if files.len() == 0 || file_le(files.last(), file) {
        if i < files.len() {
            assert(files[i] == inserted(files, file)[i]);
        }
    } else {
        let front = files.drop_last();
        lemma_inserted(front, file);
        if i < inserted(front, file).len() {
            lemma_member_of_inserted(front, file, i);
            if inserted(front, file)[i] != file {
                let k = choose|k: int| 0 <= k < front.len() && front[k] == inserted(front, file)[i];
                assert(files[k] == inserted(files, file)[i]);
            }
        } else {
            assert(files[files.len() - 1] == inserted(files, file)[i]);
        }
    }
}

/// The sorted form is sorted, and holds the same files, each as often.
pub proof fn lemma_sorted_by_path(files: Seq<FileView>)
    ensures
        is_sorted(sorted_by_path(files)),
        sorted_by_path(files).len() == files.len(),
        sorted_by_path(files).to_multiset() == files.to_multiset(),
    decreases files.len(),
{
    broadcast use vstd::seq_lib::to_multiset_build;

    if files.len() > 0 {
        let front = files.drop_last();
        lemma_sorted_by_path(front);
        lemma_inserted_sorted(sorted_by_path(front), files.last());
        lemma_inserted(sorted_by_path(front), files.last());
        assert(files =~= front.push(files.last()));
    }
}

/// Sorting is idempotent on what is sorted already: a sorted collection is its
/// own sorted form.
pub proof fn lemma_sorted_is_fixed(files: Seq<FileView>)
    requires
        is_sorted(files),
    ensures
        sorted_by_path(files) == files,
    decreases files.len(),
{
    if files.len() > 0 {
        let front = files.drop_last();
        assert forall|i: int, j: int| 0 <= i < j < front.len() implies file_le(
            front[i],
            front[j],
        ) by {
            assert(file_le(files[i], files[j]));
        }
        lemma_sorted_is_fixed(front);
        if front.len() > 0 {
            assert(file_le(files[front.len() - 1], files[files.len() - 1]));
        }
        assert(front.push(files.last()) =~= files);
    }
}

/// Sorting is idempotent: sorting a collection twice gives what sorting it
/// once gives.
pub proof fn lemma_sort_idempotent(files: Seq<FileView>)
    ensures
        sorted_by_path(sorted_by_path(files)) == sorted_by_path(files),
{
    lemma_sorted_by_path(files);
    lemma_sorted_is_fixed(sorted_by_path(files));
}

/// Merging with an insertion is inserting into the merge.
pub proof fn lemma_merged_inserted(a: Seq<FileView>, b: Seq<FileView>, file: FileView)
    ensures
        merged(a, inserted(b, file)) == inserted(merged(a, b), file),
    decreases a.len() + b.len(),
{
    lemma_inserted(b, file);
    if a.len() == 0 {
    } else if b.len() == 0 {
        assert(inserted(b, file) =~= seq![file]);
        assert(inserted(b, file).drop_last() =~= b);
        if file_le(a.last(), file) {
        } else {
            lemma_merged_inserted(a.drop_last(), b, file);
            assert(merged(a.drop_last(), b) == a.drop_last());
        }
    } else if file_le(b.last(), file) {
        let more = b.push(file);
        assert(more.drop_last() =~= b);
        if file_le(a.last(), file) {
        } else {
            lemma_merged_inserted(a.drop_last(), b, file);
            if file_le(a.last(), b.last()) {
                lemma_file_le_transitive(a.last(), b.last(), file);
            }
            assert(merged(a, b).drop_last() =~= merged(a.drop_last(), b));
        }
    } else {
        let more = inserted(b.drop_last(), file).push(b.last());
        assert(more.drop_last() =~= inserted(b.drop_last(), file));
        if file_le(a.last(), b.last()) {
            lemma_merged_inserted(a, b.drop_last(), file);
            assert(merged(a, b).drop_last() =~= merged(a, b.drop_last()));
        } else {
            lemma_merged_inserted(a.drop_last(), b, file);
            lemma_file_le_total(b.last(), file);
            if file_le(a.last(), file) {
                lemma_file_le_transitive(a.last(), file, b.last());
            }
            assert(merged(a, b).drop_last() =~= merged(a.drop_last(), b));
        }
    }
}

/// Merging the sorted forms of two collections sorts the one after the other.
pub proof fn lemma_merged_sorted(a: Seq<FileView>, b: Seq<FileView>)
    ensures
        merged(sorted_by_path(a), sorted_by_path(b)) == sorted_by_path(a + b),
    decreases b.len(),
{
    if b.len() == 0 {
        assert(a + b =~= a);
    } else {
        lemma_merged_sorted(a, b.drop_last());
        lemma_merged_inserted(sorted_by_path(a), sorted_by_path(b.drop_last()), b.last());
        assert((a + b).drop_last() =~= a + b.drop_last());
        assert((a + b).last() == b.last());
    }
}

/// No two different files of the collection have the same path.
pub open spec fn one_file_per_path(files: Seq<FileView>) -> bool {
    forall|f: FileView, g: FileView|
        files.contains(f) && files.contains(g) && f.path == g.path ==> f == g
}

/// Two sorted collections that hold the same files, each as often, and no two
/// different files of one path, are the same collection.
pub proof fn lemma_sorted_unique(a: Seq<FileView>, b: Seq<FileView>)
    requires
        is_sorted(a),
        is_sorted(b),
        a.to_multiset() == b.to_multiset(),
        one_file_per_path(a),
    ensures
        a == b,
    decreases a.len(),
{
    broadcast use vstd::seq_lib::group_to_multiset_ensures;

    a.to_multiset_ensures();
    b.to_multiset_ensures();
    if a.len() == 0 {
        assert(b.len() == 0);
        assert(a =~= b);
    } else {
        let last_a = a.last();
        let last_b = b.last();
        assert(a.contains(last_a));
        assert(b.contains(last_b));
        assert(b.to_multiset().count(last_a) > 0);
        assert(a.to_multiset().count(last_b) > 0);
        assert(b.contains(last_a));
        assert(a.contains(last_b));
        let i = choose|i: int| 0 <= i < b.len() && b[i] == last_a;
        let j = choose|j: int| 0 <= j < a.len() && a[j] == last_b;
        lemma_lex_le_reflexive(encode_utf8(last_a.path));
        lemma_lex_le_reflexive(encode_utf8(last_b.path));
        assert(file_le(last_a, last_b)) by {
            if i < b.len() - 1 {
                assert(file_le(b[i], b[b.len() - 1]));
            }
        }
        assert(file_le(last_b, last_a)) by {
            if j < a.len() - 1 {
                assert(file_le(a[j], a[a.len() - 1]));
            }
        }
        lemma_lex_le_antisymmetric(encode_utf8(last_a.path), encode_utf8(last_b.path));
        lemma_encoding_injective(last_a.path, last_b.path);
        assert(last_a == last_b);
        let front_a = a.drop_last();
        let front_b = b.drop_last();
        assert(a.remove(a.len() - 1) =~= front_a);
        assert(b.remove(b.len() - 1) =~= front_b);
        assert(front_a.to_multiset() =~= a.to_multiset().remove(last_a));
        assert(front_b.to_multiset() =~= b.to_multiset().remove(last_b));
        assert forall|x: int, y: int| 0 <= x < y < front_a.len() implies file_le(
            front_a[x],
            front_a[y],
        ) by {
            assert(file_le(a[x], a[y]));
        }
        assert forall|x: int, y: int| 0 <= x < y < front_b.len() implies file_le(
            front_b[x],
            front_b[y],
        ) by {
            assert(file_le(b[x], b[y]));
        }
        assert forall|f: FileView, g: FileView|
            front_a.contains(f) && front_a.contains(g) && f.path == g.path implies f == g by {
            let x = choose|x: int| 0 <= x < front_a.len() && front_a[x] == f;
            let y = choose|y: int| 0 <= y < front_a.len() && front_a[y] == g;
            assert(a[x] == f);
            assert(a[y] == g);
            assert(a.contains(f));
            assert(a.contains(g));
        }
        lemma_sorted_unique(front_a, front_b);
        assert(a =~= front_a.push(last_a));
        assert(b =~= front_b.push(last_b));
    }
}

/// The sorted order does not depend on the order of arrival: two collections
/// of the same files, each as often, with no two different files of one path,
/// have the same sorted form.
pub proof fn lemma_sorted_independent_of_order(a: Seq<FileView>, b: Seq<FileView>)
    requires
        a.to_multiset() == b.to_multiset(),
        one_file_per_path(a),
    ensures
        sorted_by_path(a) == sorted_by_path(b),
{
    broadcast use vstd::seq_lib::group_to_multiset_ensures;

    lemma_sorted_by_path(a);
    lemma_sorted_by_path(b);
    let sa = sorted_by_path(a);
    a.to_multiset_ensures();
    sa.to_multiset_ensures();
    assert forall|f: FileView, g: FileView|
        sa.contains(f) && sa.contains(g) && f.path == g.path implies f == g by {
        assert(sa.to_multiset().count(f) > 0);
        assert(sa.to_multiset().count(g) > 0);
        assert(a.contains(f));
        assert(a.contains(g));
    }
    lemma_sorted_unique(sa, sorted_by_path(b));
}

/// The same elements in the opposite order.
pub fn reversed<T>(items: Vec<T>) -> (turned: Vec<T>)
    ensures
        turned@ == items@.reverse(),
{
    let mut rest = items;
    let mut turned: Vec<T> = Vec::new();
    let ghost all = rest@;
    while rest.len() > 0
        invariant
            rest.len() + turned.len() == all.len(),
            forall|k: int| 0 <= k < rest.len() ==> rest@[k] == all[k],
            forall|k: int| 0 <= k < turned.len() ==> turned@[k] == all[all.len() - 1 - k],
        decreases rest.len(),
    {
        let item = rest.pop().unwrap();
        turned.push(item);
    }
    assert(turned@ =~= all.reverse());
    turned
}

/// Merges two sorted collections into one.
fn merge(a: Vec<ExtractedFile>, b: Vec<ExtractedFile>) -> (all: Vec<ExtractedFile>)
    ensures
        all.deep_view() == merged(a.deep_view(), b.deep_view()),
{
    let mut a = a;
    let mut b = b;
    let ghost whole = merged(a.deep_view(), b.deep_view());
    let mut tail: Vec<ExtractedFile> = Vec::new();
    proof {
        assert(tail.deep_view().reverse() =~= Seq::<FileView>::empty());
        assert(whole + tail.deep_view().reverse() =~= whole);
    }
    while a.len() > 0 && b.len() > 0
        invariant
            whole == merged(a.deep_view(), b.deep_view()) + tail.deep_view().reverse(),
        decreases a.len() + b.len(),
    {
        let ghost av = a.deep_view();
        let ghost bv = b.deep_view();
        let ghost tv = tail.deep_view();
        let take_b = str_le(a[a.len() - 1].path.as_str(), b[b.len() - 1].path.as_str());
        proof {
            assert(av.last() == a[a.len() - 1]@);
            assert(bv.last() == b[b.len() - 1]@);
        }
        if take_b {
            let file = b.pop().unwrap();
            tail.push(file);
            proof {
                assert(b.deep_view() =~= bv.drop_last());
                assert(tail.deep_view() =~= tv.push(bv.last()));
                assert(tail.deep_view().reverse() =~= seq![bv.last()] + tv.reverse());
                assert(merged(av, bv) + tv.reverse() =~= merged(av, bv.drop_last()) + (seq![
                    bv.last(),
                ] + tv.reverse()));
            }
        } else {
            let file = a.pop().unwrap();
            tail.push(file);
            proof {
                assert(a.deep_view() =~= av.drop_last());
                assert(tail.deep_view() =~= tv.push(av.last()));
                assert(tail.deep_view().reverse() =~= seq![av.last()] + tv.reverse());
                assert(merged(av, bv) + tv.reverse() =~= merged(av.drop_last(), bv) + (seq![
                    av.last(),
                ] + tv.reverse()));
            }
        }
    }
    let mut all = if a.len() == 0 {
        b
    } else {
        a
    };
    while tail.len() > 0
        invariant
            whole == all.deep_view() + tail.deep_view().reverse(),
        decreases tail.len(),
    {
        let ghost lv = all.deep_view();
        let ghost tv = tail.deep_view();
        let file = tail.pop().unwrap();
        all.push(file);
        proof {
            assert(tail.deep_view() =~= tv.drop_last());
            assert(all.deep_view() =~= lv.push(tv.last()));
            assert(tv.reverse() =~= seq![tv.last()] + tv.drop_last().reverse());
            assert(lv + tv.reverse() =~= lv.push(tv.last()) + tv.drop_last().reverse());
        }
    }
    proof {
        assert(tail.deep_view().reverse() =~= Seq::<FileView>::empty());
        assert(all.deep_view() + tail.deep_view().reverse() =~= all.deep_view());
    }
    all
}

/// Sorts a collection by path, keeping files of the same path in the order
/// they came in.
pub fn sort_files(files: Vec<ExtractedFile>) -> (sorted: Vec<ExtractedFile>)
    ensures
        sorted.deep_view() == sorted_by_path(files.deep_view()),
        is_sorted(sorted.deep_view()),
        sorted.deep_view().to_multiset() == files.deep_view().to_multiset(),
    decreases files.len(),
{
    let ghost all = files.deep_view();
    proof {
        lemma_sorted_by_path(all);
    }
    let mut left = files;
    if left.len() <= 1 {
        proof {
            lemma_sorted_is_fixed(all);
        }
        return left;
    }
    let half: usize = left.len() / 2;
    let right = left.split_off(half);
    proof {
        assert(left.deep_view() =~= all.subrange(0, half as int));
        assert(right.deep_view() =~= all.subrange(half as int, all.len() as int));
        assert(all =~= left.deep_view() + right.deep_view());
        lemma_merged_sorted(left.deep_view(), right.deep_view());
    }
    let left = sort_files(left);
    let right = sort_files(right);
    merge(left, right)
}

} // verus!
