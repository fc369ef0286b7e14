//! The line-oriented rendering of a collection: one line for each record.
//!
//! A line holds the path of the file, the line and the column at which the
//! capture starts, both counted from 1 as editors do, the name of the capture
//! and its text, with a colon between any two of them.

use crate::record::{ExtractedFile, ExtractedRecord, FileView, RecordView};
use crate::text::{decimal, push_decimal};
use vstd::prelude::*;
use vstd::string::*;

verus! {

/// What stands between the fields of a line.
pub open spec fn delimiter() -> Seq<char> {
    seq![':']
}

/// What ends a line.
pub open spec fn line_end() -> Seq<char> {
    seq!['\n']
}

/// The line of one record of the file at `path`.
pub open spec fn line_of(path: Seq<char>, record: RecordView) -> Seq<char> {
    path + delimiter() + decimal((record.start.row + 1) as nat) + delimiter() + decimal(
        (record.start.column + 1) as nat,
    ) + delimiter() + record.name + delimiter() + record.text + line_end()
}

/// The lines of `records`, all of the file at `path`, one after the other.
pub open spec fn lines_of(path: Seq<char>, records: Seq<RecordView>) -> Seq<char>
    decreases records.len(),
{
    if records.len() == 0 {
        Seq::empty()
    } else {
        lines_of(path, records.drop_last()) + line_of(path, records.last())
    }
}

/// The lines of a collection: those of its files, one file after the other.
pub open spec fn lines_of_files(files: Seq<FileView>) -> Seq<char>
    decreases files.len(),
{
    if files.len() == 0 {
        Seq::empty()
    } else {
        lines_of_files(files.drop_last()) + lines_of(files.last().path, files.last().records)
    }
}

/// Appends the line of `record`, a record of the file at `path`, to `out`.
pub fn push_line(out: &mut String, path: &str, record: &ExtractedRecord)
    ensures
        final(out)@ == old(out)@ + line_of(path@, record@),
{
    proof {
        reveal_strlit(":");
        reveal_strlit("\n");
        assert(":"@ =~= delimiter());
        assert("\n"@ =~= line_end());
    }
    out.append(path);
    out.append(":");
    push_decimal(out, record.start.row as u128 + 1);
    out.append(":");
    push_decimal(out, record.start.column as u128 + 1);
    out.append(":");
    out.append(record.name.as_str());
    out.append(":");
    out.append(record.text.as_str());
    out.append("\n");
    assert(final(out)@ =~= old(out)@ + line_of(path@, record@));
}

/// Appends the lines of `file` to `out`.
pub fn push_file(out: &mut String, file: &ExtractedFile)
    ensures
        final(out)@ == old(out)@ + lines_of(file@.path, file@.records),
{
    let ghost records = file@.records;
    let mut i: usize = 0;
    proof {
        assert(records.subrange(0, 0) =~= Seq::<RecordView>::empty());
        assert(out@ =~= old(out)@ + lines_of(file@.path, records.subrange(0, 0)));
    }
    while i < file.records.len()
        invariant
            i <= file.records.len(),
            records == file@.records,
            out@ == old(out)@ + lines_of(file@.path, records.subrange(0, i as int)),
        decreases file.records.len() - i,
    {
        let ghost before = out@;
        proof {
            assert(records.subrange(0, i + 1).drop_last() =~= records.subrange(0, i as int));
            assert(records.subrange(0, i + 1).last() == file.records[i as int]@);
        }
        push_line(out, file.path.as_str(), &file.records[i]);
        proof {
            assert(out@ =~= old(out)@ + lines_of(file@.path, records.subrange(0, i + 1)));
        }
        i += 1;
    }
    proof {
        assert(records.subrange(0, i as int) =~= records);
    }
}

/// The collection as lines: one line for each record, file after file in the
/// order of the collection, and within a file in the order of its records.
pub fn render_lines(files: &Vec<ExtractedFile>) -> (text: String)
    ensures
        text@ == lines_of_files(files.deep_view()),
{
    let ghost all = files.deep_view();
    let mut text = String::new();
    let mut i: usize = 0;
    proof {
        assert(all.subrange(0, 0) =~= Seq::<FileView>::empty());
    }
    while i < files.len()
        invariant
            i <= files.len(),
            all == files.deep_view(),
            text@ == lines_of_files(all.subrange(0, i as int)),
        decreases files.len() - i,
    {
        proof {
            assert(all.subrange(0, i + 1).drop_last() =~= all.subrange(0, i as int));
            assert(all.subrange(0, i + 1).last() == files[i as int]@);
        }
        push_file(&mut text, &files[i]);
        i += 1;
    }
    proof {
        assert(all.subrange(0, i as int) =~= all);
    }
    text
}

/// The names `names`, each on a line of its own.
pub open spec fn name_lines(names: Seq<Seq<char>>) -> Seq<char>
    decreases names.len(),
{
    if names.len() == 0 {
        Seq::empty()
    } else {
        name_lines(names.drop_last()) + names.last() + line_end()
    }
}

/// The names, each followed by a line end.
pub fn render_names(names: &Vec<String>) -> (text: String)
    ensures
        text@ == name_lines(names.deep_view()),
{
    let ghost all = names.deep_view();
    let mut text = String::new();
    let mut i: usize = 0;
    proof {
        reveal_strlit("\n");
        assert("\n"@ =~= line_end());
        assert(all.subrange(0, 0) =~= Seq::<Seq<char>>::empty());
    }
    while i < names.len()
        invariant
            i <= names.len(),
            all == names.deep_view(),
            "\n"@ == line_end(),
            text@ == name_lines(all.subrange(0, i as int)),
        decreases names.len() - i,
    {
        proof {
            assert(all.subrange(0, i + 1).drop_last() =~= all.subrange(0, i as int));
            assert(all.subrange(0, i + 1).last() == names[i as int]@);
        }
        text.append(names[i].as_str());
        text.append("\n");
        i += 1;
    }
    proof {
        assert(all.subrange(0, i as int) =~= all);
    }
    text
}

} // verus!
