//! The engine as a whole: chunks cut at line terminators carry whole
//! records, so aggregating chunk by chunk and merging gives what
//! aggregating the undivided input gives.

use crate::aggregates::{
    chunk_fault, chunk_records, compute_chunk, is_first_fault, Aggregates,
};
use crate::error::ChunkError;
use crate::merge::merge_results;
use crate::lines::{
    after_first_line, first_line, lemma_line_end, lemma_line_end_unique, line_end, line_offset,
    lines_of, NEWLINE,
};
use crate::model::{
    aggregate, chunk_totals, lemma_aggregate_concat, lemma_aggregate_empty,
    lemma_merge_all_is_aggregate, lemma_values_for_concat, lemma_values_for_len, merge_all,
    Record, Totals,
};
use crate::record::record_of;
use crate::splitter::{
    chunks_of, full_chunk_len, full_chunks, has_full_chunk, lemma_full_chunk_shape,
    lemma_full_chunks_rejoin, remainder, views, ChunkSplitter,
};
use vstd::prelude::*;

verus! {

/// `data` is empty or ends with a terminator.
pub open spec fn line_aligned(data: Seq<u8>) -> bool {
    data.len() == 0 || data.last() == NEWLINE
}

/// Behind line-aligned data the lines start afresh: the lines of `a + b`
/// are those of `a` followed by those of `b`.
pub proof fn lemma_lines_concat(a: Seq<u8>, b: Seq<u8>)
    requires
        line_aligned(a),
    ensures
        lines_of(a + b) == lines_of(a) + lines_of(b),
    decreases a.len(),
{
    if a.len() == 0 {
        assert(a + b =~= b);
        assert(lines_of(a) + lines_of(b) =~= lines_of(b));
    } else {
        lemma_line_end(a, 0);
        let end = line_end(a, 0);
        assert(end < a.len());
        assert forall|j: int| 0 <= j < end implies (a + b)[j] != NEWLINE by {
            assert((a + b)[j] == a[j]);
        }
        assert((a + b)[end] == a[end]);
        lemma_line_end_unique(a + b, 0, end);
        assert(first_line(a + b) =~= first_line(a));
        let rest = after_first_line(a);
        assert(after_first_line(a + b) =~= rest + b);
        assert(line_aligned(rest)) by {
            if rest.len() > 0 {
                assert(rest.last() == a.last());
            }
        }
        lemma_lines_concat(rest, b);
        assert(lines_of(a + b) =~= lines_of(a) + lines_of(b));
    }
}

/// The lines of line-aligned data, each with its terminator, make up the
/// data: the offset behind the last line is the length.
pub proof fn lemma_lines_fill(data: Seq<u8>)
    requires
        line_aligned(data),
    ensures
        line_offset(lines_of(data), lines_of(data).len() as int) == data.len(),
    decreases data.len(),
{
    if data.len() > 0 {
        lemma_line_end(data, 0);
        let rest = after_first_line(data);
        assert(line_aligned(rest)) by {
            if rest.len() > 0 {
                assert(rest.last() == data.last());
            }
        }
        lemma_lines_fill(rest);
        lemma_offset_shift(seq![first_line(data)], lines_of(rest), lines_of(rest).len() as int);
        reveal_with_fuel(line_offset, 2);
    }
}

/// Offsets among the first lines do not depend on what follows them.
pub proof fn lemma_offset_prefix(front: Seq<Seq<u8>>, back: Seq<Seq<u8>>, i: int)
    requires
        0 <= i <= front.len(),
    ensures
        line_offset(front + back, i) == line_offset(front, i),
    decreases i,
{
    if i > 0 {
        lemma_offset_prefix(front, back, i - 1);
        assert((front + back)[i - 1] == front[i - 1]);
    }
}

/// Offsets behind the first lines are those among the later lines, moved
/// by the length that the first lines take up.
pub proof fn lemma_offset_shift(front: Seq<Seq<u8>>, back: Seq<Seq<u8>>, i: int)
    requires
        0 <= i <= back.len(),
    ensures
        line_offset(front + back, front.len() + i) == line_offset(front, front.len() as int)
            + line_offset(back, i),
    decreases i,
{
    if i > 0 {
        lemma_offset_shift(front, back, i - 1);
        assert((front + back)[front.len() + i - 1] == back[i - 1]);
    } else {
        lemma_offset_prefix(front, back, front.len() as int);
    }
}

/// Every line lies within the data: it starts at its offset and ends
/// before the end.
pub proof fn lemma_line_within(data: Seq<u8>, i: int)
    requires
        0 <= i < lines_of(data).len(),
    ensures
        0 <= line_offset(lines_of(data), i),
        line_offset(lines_of(data), i) + lines_of(data)[i].len() <= data.len(),
    decreases data.len(),
{
    lemma_line_end(data, 0);
    let rest = after_first_line(data);
    let head = seq![first_line(data)];
    assert(lines_of(data) =~= head + lines_of(rest));
    if i > 0 {
        lemma_line_within(rest, i - 1);
        lemma_offset_shift(head, lines_of(rest), i - 1);
        reveal_with_fuel(line_offset, 2);
    }
}

/// At most one line is the first rejected one.
pub proof fn lemma_first_fault_unique(lines: Seq<Seq<u8>>, i: int, j: int)
    requires
        is_first_fault(lines, i),
        is_first_fault(lines, j),
    ensures
        i == j,
{
    if i < j {
        assert(record_of(lines[i]) is Ok);
    }
    if j < i {
        assert(record_of(lines[j]) is Ok);
    }
}

/// The error of a chunk, moved to where the chunk starts in the stream.
pub open spec fn shifted(fault: Option<ChunkError>, by: int) -> Option<ChunkError> {
    match fault {
        Some(e) => Some(ChunkError { offset: (e.offset + by) as usize, fault: e.fault }),
        None => None,
    }
}

/// Behind line-aligned data the records go on: the records of `a + b` are
/// those of `a` followed by those of `b`.
pub proof fn lemma_records_concat(a: Seq<u8>, b: Seq<u8>)
    requires
        line_aligned(a),
    ensures
        chunk_records(a + b) == chunk_records(a) + chunk_records(b),
{
    lemma_lines_concat(a, b);
    assert(chunk_records(a + b) =~= chunk_records(a) + chunk_records(b));
}

/// The first rejected line of `a + b` is that of `a` where `a` has one,
/// and else that of `b`, at its offset in `b` moved by the length of `a`.
pub proof fn lemma_fault_concat(a: Seq<u8>, b: Seq<u8>)
    requires
        line_aligned(a),
        a.len() + b.len() <= usize::MAX,
    ensures
        chunk_fault(a + b) == if chunk_fault(a) is Some {
            chunk_fault(a)
        } else {
            shifted(chunk_fault(b), a.len() as int)
        },
{
    let la = lines_of(a);
    let lb = lines_of(b);
    let all = lines_of(a + b);
    lemma_lines_concat(a, b);
    lemma_lines_fill(a);
    if exists|i: int| is_first_fault(la, i) {
        let i = choose|i: int| is_first_fault(la, i);
        assert(is_first_fault(all, i)) by {
            assert(all[i] == la[i]);
            assert forall|j: int| 0 <= j < i implies record_of(#[trigger] all[j]) is Ok by {
                assert(all[j] == la[j]);
            }
        }
        let k = choose|k: int| is_first_fault(all, k);
        lemma_first_fault_unique(all, i, k);
        lemma_offset_prefix(la, lb, i);
    } else if exists|i: int| is_first_fault(lb, i) {
        let i = choose|i: int| is_first_fault(lb, i);
        let at = la.len() + i;
        assert(is_first_fault(all, at)) by {
            assert(all[at] == lb[i]);
            assert forall|j: int| 0 <= j < at implies record_of(#[trigger] all[j]) is Ok by {
                if j < la.len() {
                    assert(all[j] == la[j]);
                    if record_of(la[j]) is Err {
                        lemma_has_first_fault(la, j);
                    }
                } else {
                    assert(all[j] == lb[j - la.len()]);
                }
            }
        }
        let k = choose|k: int| is_first_fault(all, k);
        lemma_first_fault_unique(all, at, k);
        lemma_offset_shift(la, lb, i);
        lemma_line_within(b, i);
    } else {
        assert forall|k: int| !is_first_fault(all, k) by {
            if is_first_fault(all, k) {
                if k < la.len() {
                    assert(all[k] == la[k]);
                    lemma_has_first_fault(la, k);
                } else {
                    assert(all[k] == lb[k - la.len()]);
                    lemma_has_first_fault(lb, k - la.len());
                }
            }
        }
    }
}

/// Where some line is rejected, some line is the first such.
pub proof fn lemma_has_first_fault(lines: Seq<Seq<u8>>, i: int)
    requires
        0 <= i < lines.len(),
        record_of(lines[i]) is Err,
    ensures
        exists|k: int| is_first_fault(lines, k),
    decreases i,
{
    if forall|j: int| 0 <= j < i ==> record_of(#[trigger] lines[j]) is Ok {
        assert(is_first_fault(lines, i));
    } else {
        let j = choose|j: int| 0 <= j < i && !(record_of(#[trigger] lines[j]) is Ok);
        lemma_has_first_fault(lines, j);
    }
}

/// The records of each chunk.
pub open spec fn records_by_chunk(chunks: Seq<Seq<u8>>) -> Seq<Seq<Record>> {
    Seq::new(chunks.len(), |i: int| chunk_records(chunks[i]))
}

/// The whole chunks of a stream carry the records of the stream up to the
/// remainder, chunk by chunk.
pub proof fn lemma_full_chunks_records(data: Seq<u8>, size: nat)
    ensures
        records_by_chunk(full_chunks(data, size)).flatten() + chunk_records(remainder(data, size))
            == chunk_records(data),
    decreases data.len(),
{
    if has_full_chunk(data, size) {
        lemma_line_end(data, size as int);
        let cut = full_chunk_len(data, size);
        let head = data.take(cut);
        let rest = data.skip(cut);
        assert(head + rest =~= data);
        assert(head.last() == NEWLINE);
        lemma_records_concat(head, rest);
        lemma_full_chunks_records(rest, size);
        let by_chunk = records_by_chunk(full_chunks(data, size));
        assert(by_chunk.first() == chunk_records(head));
        assert(by_chunk.drop_first() =~= records_by_chunk(full_chunks(rest, size)));
        assert(by_chunk.flatten() + chunk_records(remainder(data, size)) =~= chunk_records(head)
            + (records_by_chunk(full_chunks(rest, size)).flatten() + chunk_records(
            remainder(rest, size),
        )));
    } else {
        assert(records_by_chunk(full_chunks(data, size)) =~= Seq::<Seq<Record>>::empty());
        assert(records_by_chunk(full_chunks(data, size)).flatten() + chunk_records(data)
            =~= chunk_records(data));
    }
}

/// No record is lost and none counted twice: the records of the chunks of
/// a stream, chunk after chunk, are the records of the stream.
pub proof fn lemma_chunks_records(data: Seq<u8>, size: nat)
    ensures
        records_by_chunk(chunks_of(data, size)).flatten() == chunk_records(data),
{
    lemma_full_chunks_records(data, size);
    let full = full_chunks(data, size);
    let rest = remainder(data, size);
    if rest.len() > 0 {
        assert(records_by_chunk(chunks_of(data, size)) =~= records_by_chunk(full).push(
            chunk_records(rest),
        ));
        records_by_chunk(full).lemma_flatten_push(chunk_records(rest));
    } else {
        assert(chunk_records(rest) =~= Seq::<Record>::empty());
        assert(records_by_chunk(full).flatten() + chunk_records(rest) =~= records_by_chunk(
            full,
        ).flatten());
    }
}

/// The aggregates of the chunks of a stream, one per chunk.
pub open spec fn totals_by_chunk(data: Seq<u8>, size: nat) -> Seq<Totals> {
    chunk_totals(records_by_chunk(chunks_of(data, size)))
}

/// Whatever the chunk size, aggregating the chunks of a stream one by one
/// and merging the results gives the aggregate of the records of the
/// stream.
pub proof fn lemma_chunked_is_whole(data: Seq<u8>, size: nat)
    ensures
        merge_all(totals_by_chunk(data, size)) == aggregate(chunk_records(data)),
{
    lemma_chunks_records(data, size);
    lemma_merge_all_is_aggregate(records_by_chunk(chunks_of(data, size)));
}

/// The result does not depend on the chunk size.
pub proof fn lemma_chunk_size_irrelevant(data: Seq<u8>, size: nat, other: nat)
    ensures
        merge_all(totals_by_chunk(data, size)) == merge_all(totals_by_chunk(data, other)),
{
    lemma_chunked_is_whole(data, size);
    lemma_chunked_is_whole(data, other);
}

/// There are no more lines than bytes.
pub proof fn lemma_lines_len(data: Seq<u8>)
    ensures
        lines_of(data).len() <= data.len(),
    decreases data.len(),
{
    if data.len() > 0 {
        lemma_line_end(data, 0);
        lemma_lines_len(after_first_line(data));
    }
}

/// Aggregates one more chunk of a stream into `result`. `consumed` is the
/// stream before the chunk, `base` its length.
fn take_chunk(
    result: &mut Aggregates,
    chunk: &[u8],
    base: usize,
    Ghost(consumed): Ghost<Seq<u8>>,
) -> (r: Result<(), ChunkError>)
    requires
        old(result).wf(),
        old(result)@ == aggregate(chunk_records(consumed)),
        chunk_fault(consumed) is None,
        line_aligned(consumed),
        base == consumed.len(),
        consumed.len() + chunk@.len() <= usize::MAX,
    ensures
        final(result).wf(),
        match r {
            Ok(()) => {
                &&& chunk_fault(consumed + chunk@) is None
                &&& final(result)@ == aggregate(chunk_records(consumed + chunk@))
            },
            Err(e) => chunk_fault(consumed + chunk@) == Some(e),
        },
{
    proof {
        lemma_fault_concat(consumed, chunk@);
        lemma_records_concat(consumed, chunk@);
    }
    match compute_chunk(chunk) {
        Err(e) => {
            proof {
                let lines = lines_of(chunk@);
                let i = choose|i: int| is_first_fault(lines, i);
                lemma_line_within(chunk@, i);
            }
            Err(ChunkError { offset: base + e.offset, fault: e.fault })
        },
        Ok(part) => {
            proof {
                let before = chunk_records(consumed);
                let added = chunk_records(chunk@);
                lemma_aggregate_concat(before, added);
                lemma_lines_len(consumed + chunk@);
                assert forall|key: Seq<u8>|
                    result@.contains_key(key) && part@.contains_key(key) implies (
                #[trigger] result@[key]).count + part@[key].count <= u64::MAX by {
                    lemma_values_for_concat(before, added, key);
                    lemma_values_for_len(before + added, key);
                }
            }
            match merge_results(result, part) {
                Ok(()) => Ok(()),
                Err(_) => {
                    proof {
                        assert(false);
                    }
                    Ok(())
                },
            }
        },
    }
}

/// Runs the engine on a stream held in memory, one chunk after the other:
/// the stream is cut into chunks of at least `chunk_size` bytes that end at
/// a line terminator, each chunk is aggregated, and the results are merged.
/// The first line that is no record ends the run with its offset in the
/// stream and its fault.
pub fn aggregate_all(data: &[u8], chunk_size: usize) -> (r: Result<Aggregates, ChunkError>)
    ensures
        match r {
            Ok(totals) => {
                &&& chunk_fault(data@) is None
                &&& totals.wf()
                &&& totals@ == aggregate(chunk_records(data@))
                &&& totals@ == merge_all(totals_by_chunk(data@, chunk_size as nat))
            },
            Err(e) => chunk_fault(data@) == Some(e),
        },
{
    let ghost size = chunk_size as nat;
    let mut splitter = ChunkSplitter::new(chunk_size);
    proof {
        assert(splitter.pending() + data@ =~= data@);
    }
    let chunks = splitter.push(data);
    let last = splitter.finish();
    let ghost full = full_chunks(data@, size);
    let ghost rest = remainder(data@, size);
    let mut result = Aggregates::new();
    let len: usize = data.len();
    let count: usize = chunks.len();
    let mut base: usize = 0;
    let mut i: usize = 0;
    let ghost mut consumed: Seq<u8> = Seq::empty();
    proof {
        lemma_full_chunks_rejoin(data@, size);
        lemma_chunked_is_whole(data@, size);
        lemma_aggregate_empty();
        assert(chunk_records(consumed) =~= Seq::<Record>::empty());
        assert(full.skip(0) =~= full);
        assert(consumed + (full.skip(0).flatten() + rest) =~= data@);
        assert forall|k: int| !is_first_fault(lines_of(consumed), k) by {}
    }
    while i < count
        invariant
            0 <= i <= count,
            count == chunks@.len(),
            len == data@.len(),
            full == views(chunks@),
            full == full_chunks(data@, size),
            data@ == consumed + (full.skip(i as int).flatten() + rest),
            base == consumed.len(),
            line_aligned(consumed),
            chunk_fault(consumed) is None,
            result.wf(),
            result@ == aggregate(chunk_records(consumed)),
        decreases count - i,
    {
        let chunk = chunks[i].as_slice();
        let ghost tail = full.skip(i + 1).flatten() + rest;
        proof {
            assert(chunk@ == full[i as int]);
            assert(full.skip(i as int).first() == chunk@);
            assert(full.skip(i as int).drop_first() =~= full.skip(i + 1));
            assert(data@ =~= (consumed + chunk@) + tail);
            lemma_full_chunk_shape(data@, size, i as int);
        }
        match take_chunk(&mut result, chunk, base, Ghost(consumed)) {
            Err(e) => {
                proof {
                    lemma_fault_concat(consumed + chunk@, tail);
                }
                return Err(e);
            },
            Ok(()) => {},
        }
        proof {
            consumed = consumed + chunk@;
        }
        base = base + chunk.len();
        i += 1;
    }
    proof {
        assert(full.skip(count as int).flatten() =~= Seq::<u8>::empty());
        assert(data@ =~= consumed + rest);
    }
    match last {
        Some(chunk) => {
            match take_chunk(&mut result, chunk.as_slice(), base, Ghost(consumed)) {
                Err(e) => {
                    return Err(e);
                },
                Ok(()) => {},
            }
        },
        None => {
            proof {
                assert(data@ =~= consumed);
            }
        },
    }
    Ok(result)
}

} // verus!
