//! The chunk splitter: it cuts a byte stream into chunks of at least a
//! target size that end at a line terminator, so that no line straddles two
//! chunks.

use crate::lines::{find_line_end, lemma_line_end, lemma_line_end_unique, line_end, NEWLINE};
use vstd::prelude::*;
use vstd::slice::slice_subrange;

verus! {

/// `data` holds a whole chunk: a terminator at or after index `size`.
pub open spec fn has_full_chunk(data: Seq<u8>, size: nat) -> bool {
    line_end(data, size as int) < data.len()
}

/// The length of the first whole chunk of `data`: `size` bytes, and what
/// follows them up to and with the next terminator.
pub open spec fn full_chunk_len(data: Seq<u8>, size: nat) -> int {
    line_end(data, size as int) + 1
}

/// The whole chunks at the front of `data`, in order.
pub open spec fn full_chunks(data: Seq<u8>, size: nat) -> Seq<Seq<u8>>
    decreases data.len(),
{
    if has_full_chunk(data, size) {
        proof {
            lemma_line_end(data, size as int);
        }
        seq![data.take(full_chunk_len(data, size))] + full_chunks(
            data.skip(full_chunk_len(data, size)),
            size,
        )
    } else {
        Seq::empty()
    }
}

/// What is left of `data` behind its whole chunks.
pub open spec fn remainder(data: Seq<u8>, size: nat) -> Seq<u8>
    decreases data.len(),
{
    if has_full_chunk(data, size) {
        proof {
            lemma_line_end(data, size as int);
        }
        remainder(data.skip(full_chunk_len(data, size)), size)
    } else {
        data
    }
}

/// All chunks of a stream that ends with `data`: the whole chunks, and the
/// remainder as a last, shorter chunk unless it is empty.
pub open spec fn chunks_of(data: Seq<u8>, size: nat) -> Seq<Seq<u8>> {
    if remainder(data, size).len() > 0 {
        full_chunks(data, size).push(remainder(data, size))
    } else {
        full_chunks(data, size)
    }
}

/// The views of a vector of byte vectors.
pub open spec fn views(chunks: Seq<Vec<u8>>) -> Seq<Seq<u8>> {
    Seq::new(chunks.len(), |i: int| chunks[i]@)
}

/// Cuts a stream that arrives block by block into line-aligned chunks.
#[derive(Debug)]
pub struct ChunkSplitter {
    size: usize,
    pending: Vec<u8>,
}

impl ChunkSplitter {
    /// The target chunk size.
    pub closed spec fn size(&self) -> nat {
        self.size as nat
    }

    /// The bytes taken in that belong to no chunk handed out yet.
    pub closed spec fn pending(&self) -> Seq<u8> {
        self.pending@
    }

    /// The pending bytes hold no whole chunk.
    pub open spec fn wf(&self) -> bool {
        !has_full_chunk(self.pending(), self.size())
    }

    /// A splitter for chunks of at least `size` bytes, with nothing pending.
    pub fn new(size: usize) -> (splitter: ChunkSplitter)
        ensures
            splitter.wf(),
            splitter.size() == size,
            splitter.pending() == Seq::<u8>::empty(),
    {
        ChunkSplitter { size, pending: Vec::new() }
    }

    /// Takes in the next block of the stream and hands out the chunks that
    /// it completes, in stream order.
    pub fn push(&mut self, block: &[u8]) -> (chunks: Vec<Vec<u8>>)
        requires
            old(self).wf(),
        ensures
            final(self).wf(),
            final(self).size() == old(self).size(),
            views(chunks@) == full_chunks(old(self).pending() + block@, old(self).size()),
            final(self).pending() == remainder(old(self).pending() + block@, old(self).size()),
    {
        let ghost stream = self.pending@ + block@;
        let ghost size = self.size as nat;
        let total: usize = block.len();
        let mut chunks: Vec<Vec<u8>> = Vec::new();
        let mut start: usize = 0;
        proof {
            assert(block@.skip(0) =~= block@);
            assert(views(chunks@) =~= Seq::<Seq<u8>>::empty());
        }
        loop
            invariant
                total == block@.len(),
                size == self.size,
                size == old(self).size(),
                stream == old(self).pending() + block@,
                0 <= start <= total,
                !has_full_chunk(self.pending@, size),
                full_chunks(stream, size) == views(chunks@) + full_chunks(
                    self.pending@ + block@.skip(start as int),
                    size,
                ),
                remainder(stream, size) == remainder(self.pending@ + block@.skip(start as int), size),
            ensures
                0 <= start <= total,
                full_chunks(stream, size) == views(chunks@),
                remainder(stream, size) == self.pending@ + block@.skip(start as int),
                !has_full_chunk(self.pending@ + block@.skip(start as int), size),
            decreases total - start,
        {
            let ghost joined = self.pending@ + block@.skip(start as int);
            let held: usize = self.pending.len();
            let skip: usize = if self.size > held { self.size - held } else { 0 };
            proof {
                lemma_line_end(self.pending@, if size <= held { size as int } else { held as int });
            }
            if skip > total - start {
                proof {
                    assert(joined.len() < size);
                    assert(full_chunks(joined, size) =~= Seq::<Seq<u8>>::empty());
                }
                break;
            }
            let from: usize = start + skip;
            let at: usize = find_line_end(block, from);
            proof {
                lemma_line_end(block@, from as int);
                let first: int = if size > held { size as int } else { held as int };
                let found: int = held + at - start;
                assert forall|j: int| size <= j < found implies joined[j] != NEWLINE by {
                    if j < held {
                        assert(joined[j] == self.pending@[j]);
                    } else {
                        assert(joined[j] == block@[j - held + start]);
                    }
                }
                if at < total {
                    assert(joined[found] == block@[at as int]);
                }
                lemma_line_end_unique(joined, size as int, found);
            }
            if at >= total {
                proof {
                    assert(full_chunks(joined, size) =~= Seq::<Seq<u8>>::empty());
                }
                break;
            }
            let ghost shown = views(chunks@);
            self.pending.extend_from_slice(slice_subrange(block, start, at + 1));
            let mut chunk: Vec<u8> = Vec::new();
            core::mem::swap(&mut self.pending, &mut chunk);
            chunks.push(chunk);
            proof {
                let cut = full_chunk_len(joined, size);
                assert(chunk@ =~= joined.take(cut));
                assert(joined.skip(cut) =~= self.pending@ + block@.skip(at + 1));
                assert(views(chunks@) =~= shown.push(chunk@));
                assert(shown + (seq![chunk@] + full_chunks(joined.skip(cut), size)) =~= shown.push(
                    chunk@,
                ) + full_chunks(joined.skip(cut), size));
            }
            start = at + 1;
        }
        self.pending.extend_from_slice(slice_subrange(block, start, total));
        proof {
            assert(self.pending@ =~= remainder(stream, size));
            assert(views(chunks@) + Seq::<Seq<u8>>::empty() =~= views(chunks@));
        }
        chunks
    }

    /// Ends the stream: the pending bytes are its last chunk, unless there
    /// are none.
    pub fn finish(self) -> (last: Option<Vec<u8>>)
        ensures
            match last {
                Some(chunk) => chunk@ == self.pending() && chunk@.len() > 0,
                None => self.pending().len() == 0,
            },
    {
        if self.pending.len() == 0 {
            None
        } else {
            Some(self.pending)
        }
    }
}

/// The whole chunks followed by the remainder are the data, byte for byte.
pub proof fn lemma_full_chunks_rejoin(data: Seq<u8>, size: nat)
    ensures
        full_chunks(data, size).flatten() + remainder(data, size) == data,
    decreases data.len(),
{
    if has_full_chunk(data, size) {
        lemma_line_end(data, size as int);
        let cut = full_chunk_len(data, size);
        let rest = data.skip(cut);
        lemma_full_chunks_rejoin(rest, size);
        let chunks = full_chunks(data, size);
        assert(chunks.drop_first() =~= full_chunks(rest, size));
        assert(chunks.first() == data.take(cut));
        assert(data.take(cut) + (full_chunks(rest, size).flatten() + remainder(rest, size))
            =~= data);
        assert(chunks.flatten() + remainder(data, size) =~= data.take(cut) + (full_chunks(
            rest,
            size,
        ).flatten() + remainder(rest, size)));
    } else {
        assert(full_chunks(data, size).flatten() + remainder(data, size) =~= data);
    }
}

/// Joined in order, the chunks of a stream are the stream, byte for byte.
pub proof fn lemma_chunks_rejoin(data: Seq<u8>, size: nat)
    ensures
        chunks_of(data, size).flatten() == data,
{
    lemma_full_chunks_rejoin(data, size);
    if remainder(data, size).len() > 0 {
        full_chunks(data, size).lemma_flatten_push(remainder(data, size));
    } else {
        assert(full_chunks(data, size).flatten() + remainder(data, size) =~= full_chunks(
            data,
            size,
        ).flatten());
    }
}

/// Every whole chunk is longer than the target size and ends with the
/// first terminator that stands at or after index `size` in it.
pub proof fn lemma_full_chunk_shape(data: Seq<u8>, size: nat, i: int)
    requires
        0 <= i < full_chunks(data, size).len(),
    ensures
        full_chunks(data, size)[i].len() > size,
        full_chunks(data, size)[i].last() == NEWLINE,
        forall|j: int|
            size <= j < full_chunks(data, size)[i].len() - 1 ==> full_chunks(data, size)[i][j]
                != NEWLINE,
    decreases data.len(),
{
    lemma_line_end(data, size as int);
    let cut = full_chunk_len(data, size);
    if i > 0 {
        lemma_full_chunk_shape(data.skip(cut), size, i - 1);
    }
}

/// No chunk ends in the middle of a line: every chunk but the last ends
/// with a terminator and is longer than the target size, and no chunk is
/// empty.
pub proof fn lemma_chunks_aligned(data: Seq<u8>, size: nat, i: int)
    requires
        0 <= i < chunks_of(data, size).len(),
    ensures
        chunks_of(data, size)[i].len() > 0,
        i < chunks_of(data, size).len() - 1 ==> chunks_of(data, size)[i].last() == NEWLINE
            && chunks_of(data, size)[i].len() > size,
{
    if i < full_chunks(data, size).len() {
        lemma_full_chunk_shape(data, size, i);
    }
}

/// A stream may arrive in blocks of any size: the whole chunks of `a + b`
/// are those of `a`, followed by those of what `a` leaves behind with `b`
/// appended, and the remainders agree.
pub proof fn lemma_split_in_blocks(a: Seq<u8>, b: Seq<u8>, size: nat)
    ensures
        full_chunks(a + b, size) == full_chunks(a, size) + full_chunks(
            remainder(a, size) + b,
            size,
        ),
        remainder(a + b, size) == remainder(remainder(a, size) + b, size),
    decreases a.len(),
{
    if has_full_chunk(a, size) {
        lemma_line_end(a, size as int);
        let cut = full_chunk_len(a, size);
        assert forall|j: int| size <= j < cut - 1 implies (a + b)[j] != NEWLINE by {
            assert((a + b)[j] == a[j]);
        }
        assert((a + b)[cut - 1] == a[cut - 1]);
        lemma_line_end_unique(a + b, size as int, cut - 1);
        assert((a + b).take(cut) =~= a.take(cut));
        assert((a + b).skip(cut) =~= a.skip(cut) + b);
        lemma_split_in_blocks(a.skip(cut), b, size);
        assert(full_chunks(a + b, size) =~= full_chunks(a, size) + full_chunks(
            remainder(a, size) + b,
            size,
        ));
    } else {
        assert(full_chunks(a, size) + full_chunks(a + b, size) =~= full_chunks(a + b, size));
    }
}

/// A stream of one line is one chunk, however long the line is: where no
/// terminator stands before the last byte, the only chunk is the data.
pub proof fn lemma_one_line_one_chunk(data: Seq<u8>, size: nat)
    requires
        data.len() > 0,
        forall|j: int| 0 <= j < data.len() - 1 ==> data[j] != NEWLINE,
    ensures
        chunks_of(data, size) == seq![data],
{
    if has_full_chunk(data, size) {
        lemma_line_end(data, size as int);
        let cut = full_chunk_len(data, size);
        assert(cut == data.len());
        assert(data.take(cut) =~= data);
        let rest = data.skip(cut);
        assert(rest.len() == 0);
        assert(!has_full_chunk(rest, size));
        reveal_with_fuel(full_chunks, 2);
        reveal_with_fuel(remainder, 2);
        assert(full_chunks(data, size) =~= seq![data]);
        assert(remainder(data, size) == rest);
    } else {
        assert(chunks_of(data, size) =~= seq![data]);
    }
}

/// The chunks handed out while `blocks` are taken in one after the other,
/// starting with `pending` bytes held.
pub open spec fn chunks_while_fed(pending: Seq<u8>, blocks: Seq<Seq<u8>>, size: nat) -> Seq<
    Seq<u8>,
>
    decreases blocks.len(),
{
    if blocks.len() == 0 {
        Seq::empty()
    } else {
        chunks_while_fed(pending, blocks.drop_last(), size) + full_chunks(
            pending_after_fed(pending, blocks.drop_last(), size) + blocks.last(),
            size,
        )
    }
}

/// The bytes held after `blocks` were taken in one after the other,
/// starting with `pending` bytes held.
pub open spec fn pending_after_fed(pending: Seq<u8>, blocks: Seq<Seq<u8>>, size: nat) -> Seq<u8>
    decreases blocks.len(),
{
    if blocks.len() == 0 {
        pending
    } else {
        remainder(pending_after_fed(pending, blocks.drop_last(), size) + blocks.last(), size)
    }
}

/// However a stream is divided into blocks, taking the blocks in one after
/// the other hands out the whole chunks of the stream and holds back its
/// remainder.
pub proof fn lemma_fed_is_whole(blocks: Seq<Seq<u8>>, size: nat)
    ensures
        chunks_while_fed(Seq::empty(), blocks, size) == full_chunks(blocks.flatten(), size),
        pending_after_fed(Seq::empty(), blocks, size) == remainder(blocks.flatten(), size),
    decreases blocks.len(),
{
    if blocks.len() == 0 {
        assert(!has_full_chunk(Seq::<u8>::empty(), size));
    } else {
        let head = blocks.drop_last();
        lemma_fed_is_whole(head, size);
        assert(blocks =~= head.push(blocks.last()));
        head.lemma_flatten_push(blocks.last());
        lemma_split_in_blocks(head.flatten(), blocks.last(), size);
    }
}

} // verus!
