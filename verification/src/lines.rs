//! Lines in a byte buffer: where each one ends and where the next begins.

use vstd::prelude::*;

verus! {

/// The byte that ends a line.
pub const NEWLINE: u8 = 0x0a;

/// The index of the first terminator at or after `from`, or the length of
/// `data` where there is none.
pub open spec fn line_end(data: Seq<u8>, from: int) -> int
    decreases data.len() - from,
{
    if from >= data.len() {
        data.len() as int
    } else if data[from] == NEWLINE {
        from
    } else {
        line_end(data, from + 1)
    }
}

/// `line_end` lies at or after `from`, no terminator lies between the two,
/// and a terminator stands at `line_end` unless the data ends there.
pub proof fn lemma_line_end(data: Seq<u8>, from: int)
    requires
        0 <= from <= data.len(),
    ensures
        from <= line_end(data, from) <= data.len(),
        forall|j: int| from <= j < line_end(data, from) ==> data[j] != NEWLINE,
        line_end(data, from) < data.len() ==> data[line_end(data, from)] == NEWLINE,
    decreases data.len() - from,
{
    if from < data.len() && data[from] != NEWLINE {
        lemma_line_end(data, from + 1);
    }
}

/// Any index with the three properties of `lemma_line_end` is `line_end`.
pub proof fn lemma_line_end_unique(data: Seq<u8>, from: int, end: int)
    requires
        0 <= from <= end <= data.len(),
        forall|j: int| from <= j < end ==> data[j] != NEWLINE,
        end < data.len() ==> data[end] == NEWLINE,
    ensures
        line_end(data, from) == end,
    decreases end - from,
{
    if from < end {
        lemma_line_end_unique(data, from + 1, end);
    }
}

/// `line_end` looks only at the bytes from `from` on.
pub proof fn lemma_line_end_skip(data: Seq<u8>, cut: int, from: int)
    requires
        0 <= cut <= from <= data.len(),
    ensures
        line_end(data.skip(cut), from - cut) == line_end(data, from) - cut,
{
    lemma_line_end(data, from);
    lemma_line_end_unique(data.skip(cut), from - cut, line_end(data, from) - cut);
}

/// Finds the end of the line that holds position `from`: the index of the
/// first terminator at or after `from`, or the length of `data` where
/// there is none.
pub fn find_line_end(data: &[u8], from: usize) -> (end: usize)
    ensures
        end == line_end(data@, from as int),
        end <= data@.len(),
        from <= data@.len() ==> from <= end,
{
    let len: usize = data.len();
    if from >= len {
        return len;
    }
    let mut i: usize = from;
    while i < len && data[i] != NEWLINE
        invariant
            len == data@.len(),
            from <= i <= len,
            forall|j: int| from <= j < i ==> data@[j] != NEWLINE,
        decreases len - i,
    {
        i += 1;
    }
    proof {
        lemma_line_end_unique(data@, from as int, i as int);
    }
    i
}

/// The first line of non-empty `data`, without its terminator.
pub open spec fn first_line(data: Seq<u8>) -> Seq<u8> {
    data.take(line_end(data, 0))
}

/// What follows the first line and its terminator.
pub open spec fn after_first_line(data: Seq<u8>) -> Seq<u8> {
    if line_end(data, 0) < data.len() {
        data.skip(line_end(data, 0) + 1)
    } else {
        Seq::empty()
    }
}

/// The lines of `data`, each without its terminator. Every terminator ends
/// a line; bytes after the last terminator form a last line.
pub open spec fn lines_of(data: Seq<u8>) -> Seq<Seq<u8>>
    decreases data.len(),
{
    if data.len() == 0 {
        Seq::empty()
    } else {
        proof {
            lemma_line_end(data, 0);
        }
        seq![first_line(data)] + lines_of(after_first_line(data))
    }
}

/// The offset at which line `i` starts, given the lines before it.
pub open spec fn line_offset(lines: Seq<Seq<u8>>, i: int) -> int
    decreases i,
{
    if i <= 0 {
        0
    } else {
        line_offset(lines, i - 1) + lines[i - 1].len() + 1
    }
}

} // verus!
