//! Rows and columns: the position of a byte offset in a text.
//!
//! A text is cut into rows by its line ends. The position of an offset is the
//! number of line ends before it, and its distance, in bytes, from where its
//! row starts.

use crate::record::Position;
use vstd::prelude::*;

verus! {

/// The byte that ends a line.
pub open spec fn line_end_byte() -> u8 {
    0x0a
}

/// The row of `offset`: the number of line ends among the bytes before it.
pub open spec fn row_of(bytes: Seq<u8>, offset: int) -> int
    decreases offset,
{
    if offset <= 0 {
        0
    } else if bytes[offset - 1] == line_end_byte() {
        row_of(bytes, offset - 1) + 1
    } else {
        row_of(bytes, offset - 1)
    }
}

/// Where the row of `offset` starts: behind the last line end before `offset`,
/// or at 0.
pub open spec fn row_start(bytes: Seq<u8>, offset: int) -> int
    decreases offset,
{
    if offset <= 0 {
        0
    } else if bytes[offset - 1] == line_end_byte() {
        offset
    } else {
        row_start(bytes, offset - 1)
    }
}

/// A row starts at `offset`.
pub open spec fn starts_row(bytes: Seq<u8>, offset: int) -> bool {
    offset == 0 || (0 < offset <= bytes.len() && bytes[offset - 1] == line_end_byte())
}

/// `position` is the position of `offset` in `bytes`: its row, and its column
/// counted in bytes from the start of the row.
pub open spec fn position_fits(bytes: Seq<u8>, offset: int, position: Position) -> bool {
    &&& 0 <= offset <= bytes.len()
    &&& position.row == row_of(bytes, offset)
    &&& position.column == offset - row_start(bytes, offset)
}

/// `a` does not lie behind `b`: it is on an earlier row, or on the same row at
/// no later column.
pub open spec fn position_le(a: Position, b: Position) -> bool {
    a.row < b.row || (a.row == b.row && a.column <= b.column)
}

/// A later offset is on no earlier row.
pub proof fn lemma_row_monotone(bytes: Seq<u8>, a: int, b: int)
    requires
        a <= b,
    ensures
        row_of(bytes, a) <= row_of(bytes, b),
        0 <= row_of(bytes, a),
    decreases b,
{
    if b > 0 && a < b {
        lemma_row_monotone(bytes, a, b - 1);
    } else if a > 0 {
        lemma_row_monotone(bytes, a - 1, a - 1);
    }
}

/// The start of a row lies at or before every offset of the row, a row starts
/// there, and it is on that row.
pub proof fn lemma_row_start(bytes: Seq<u8>, offset: int)
    requires
        0 <= offset <= bytes.len(),
    ensures
        0 <= row_start(bytes, offset) <= offset,
        starts_row(bytes, row_start(bytes, offset)),
        row_of(bytes, row_start(bytes, offset)) == row_of(bytes, offset),
        row_start(bytes, row_start(bytes, offset)) == row_start(bytes, offset),
    decreases offset,
{
    if offset > 0 && bytes[offset - 1] != line_end_byte() {
        lemma_row_start(bytes, offset - 1);
    }
}

/// A row that starts behind an offset is a later row.
pub proof fn lemma_later_start(bytes: Seq<u8>, offset: int, start: int)
    requires
        0 <= offset < start,
        starts_row(bytes, start),
    ensures
        row_of(bytes, offset) < row_of(bytes, start),
{
    lemma_row_monotone(bytes, offset, start - 1);
}

/// The positions of two offsets are in the order of the offsets.
pub proof fn lemma_positions_ordered(
    bytes: Seq<u8>,
    a: int,
    b: int,
    first: Position,
    second: Position,
)
    requires
        a <= b,
        position_fits(bytes, a, first),
        position_fits(bytes, b, second),
    ensures
        position_le(first, second),
{
    lemma_row_monotone(bytes, a, b);
    lemma_row_start(bytes, a);
    lemma_row_start(bytes, b);
    if row_of(bytes, a) == row_of(bytes, b) {
        let sa = row_start(bytes, a);
        let sb = row_start(bytes, b);
        if sa < sb {
            lemma_later_start(bytes, sa, sb);
        } else if sb < sa {
            lemma_later_start(bytes, sb, sa);
        }
    }
}

/// `starts` lists where the rows of the first `length` bytes start, row by row.
pub open spec fn lists_rows(bytes: Seq<u8>, starts: Seq<usize>, length: int) -> bool {
    &&& 0 <= length <= bytes.len()
    &&& starts.len() == row_of(bytes, length) + 1
    &&& forall|r: int|
        0 <= r < starts.len() ==> {
            let start = #[trigger] starts[r];
            &&& start <= length
            &&& starts_row(bytes, start as int)
            &&& row_of(bytes, start as int) == r
        }
}

/// A list of rows holds the start of every row.
pub proof fn lemma_listed(bytes: Seq<u8>, starts: Seq<usize>, length: int, start: int)
    requires
        lists_rows(bytes, starts, length),
        0 <= start <= length,
        starts_row(bytes, start),
    ensures
        0 <= row_of(bytes, start) < starts.len(),
        starts[row_of(bytes, start)] == start,
{
    lemma_row_monotone(bytes, start, length);
    let listed = starts[row_of(bytes, start)] as int;
    if listed < start {
        lemma_later_start(bytes, listed, start);
    } else if start < listed {
        lemma_later_start(bytes, start, listed);
    }
}

/// The rows of a text, ready to tell the position of any offset.
pub struct LineIndex {
    starts: Vec<usize>,
    length: usize,
    bytes: Ghost<Seq<u8>>,
}

impl LineIndex {
    #[verifier::type_invariant]
    spec fn listed(&self) -> bool {
        self.length == self.bytes@.len() && lists_rows(self.bytes@, self.starts@, self.length as int)
    }

    /// The text whose rows these are.
    pub closed spec fn text(&self) -> Seq<u8> {
        self.bytes@
    }

    /// Finds the rows of `bytes`.
    pub fn new(bytes: &[u8]) -> (index: LineIndex)
        ensures
            index.text() == bytes@,
    {
        let mut starts: Vec<usize> = Vec::new();
        starts.push(0);
        let mut i: usize = 0;
        while i < bytes.len()
            invariant
                i <= bytes.len(),
                lists_rows(bytes@, starts@, i as int),
            decreases bytes.len() - i,
        {
            if bytes[i] == 0x0a {
                starts.push(i + 1);
            }
            i += 1;
            proof {
                assert forall|r: int| 0 <= r < starts@.len() implies ({
                    let start = #[trigger] starts@[r];
                    &&& start <= i
                    &&& starts_row(bytes@, start as int)
                    &&& row_of(bytes@, start as int) == r
                }) by {}
            }
        }
        LineIndex { starts, length: bytes.len(), bytes: Ghost(bytes@) }
    }

    /// Whether `position` is the position of `offset` in the text.
    pub fn fits(&self, offset: usize, position: Position) -> (r: bool)
        ensures
            r == position_fits(self.text(), offset as int, position),
    {
        proof {
            use_type_invariant(self);
        }
        let ghost bytes = self.bytes@;
        if offset > self.length {
            return false;
        }
        proof {
            lemma_row_start(bytes, offset as int);
            lemma_listed(bytes, self.starts@, self.length as int, row_start(bytes, offset as int));
        }
        if position.row >= self.starts.len() {
            return false;
        }
        let start = self.starts[position.row];
        if start > offset {
            proof {
                lemma_later_start(bytes, offset as int, start as int);
            }
            return false;
        }
        proof {
            lemma_row_monotone(bytes, start as int, offset as int);
        }
        if offset - start != position.column {
            return false;
        }
        if position.row + 1 < self.starts.len() {
            let next = self.starts[position.row + 1];
            proof {
                if next <= offset {
                    lemma_row_monotone(bytes, next as int, offset as int);
                } else {
                    lemma_later_start(bytes, offset as int, next as int);
                }
            }
            return next > offset;
        }
        true
    }
}

} // verus!
