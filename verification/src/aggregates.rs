//! The aggregate mapping in executable form, and the aggregation of one
//! chunk of input into such a mapping.

use crate::error::ChunkError;
use crate::lines::{
    after_first_line, find_line_end, first_line, lemma_line_end, lemma_line_end_skip, line_end,
    line_offset, lines_of,
};
use crate::model::{
    absorb, aggregate, lemma_aggregate_empty, lemma_aggregate_push, lemma_values_for_len,
    merge_one, no_totals, valid_totals, Record, Totals,
};
use crate::record::{parse_record, record_of};
use crate::stats::Stats;
use crate::table::{
    table_entries, table_get, table_insert, table_items, table_len, table_new, table_replace,
};
use rustc_hash::FxHashMap;
use vstd::prelude::*;
use vstd::slice::{slice_subrange, slice_to_vec};

verus! {

/// A mapping from key to aggregate.
#[derive(Debug)]
pub struct Aggregates {
    table: FxHashMap<Vec<u8>, Stats>,
}

impl View for Aggregates {
    type V = Totals;

    closed spec fn view(&self) -> Totals {
        table_entries(self.table).map_values(|stats: Stats| stats@)
    }
}

/// `items` names every entry of `totals` exactly once: each item is an
/// entry, no key comes twice, and no entry is left out.
pub open spec fn lists_totals(items: Seq<(&Vec<u8>, Stats)>, totals: Totals) -> bool {
    &&& forall|i: int|
        0 <= i < items.len() ==> totals.contains_key(#[trigger] items[i].0@)
            && totals[items[i].0@] == items[i].1@
    &&& forall|i: int, j: int|
        0 <= i < j < items.len() ==> (#[trigger] items[i]).0@ != (#[trigger] items[j]).0@
    &&& forall|key: Seq<u8>| #[trigger]
        totals.contains_key(key) ==> exists|i: int| 0 <= i < items.len() && items[i].0@ == key
}

/// Line `i` is rejected and no line before it is.
pub open spec fn is_first_fault(lines: Seq<Seq<u8>>, i: int) -> bool {
    &&& 0 <= i < lines.len()
    &&& record_of(lines[i]) is Err
    &&& forall|j: int| 0 <= j < i ==> record_of(#[trigger] lines[j]) is Ok
}

/// The error that a chunk gives: the first rejected line with the offset at
/// which it starts, or nothing where every line is a record.
pub open spec fn chunk_fault(data: Seq<u8>) -> Option<ChunkError> {
    let lines = lines_of(data);
    if exists|i: int| is_first_fault(lines, i) {
        let i = choose|i: int| is_first_fault(lines, i);
        Some(
            ChunkError {
                offset: line_offset(lines, i) as usize,
                fault: record_of(lines[i])->Err_0,
            },
        )
    } else {
        None
    }
}

/// The records of a chunk, line by line.
pub open spec fn chunk_records(data: Seq<u8>) -> Seq<Record> {
    let lines = lines_of(data);
    Seq::new(lines.len(), |i: int| record_of(lines[i])->Ok_0)
}

impl Aggregates {
    /// Every aggregate is valid and fits its machine integers, and the keys
    /// are finitely many.
    pub open spec fn wf(&self) -> bool {
        &&& valid_totals(self@)
        &&& forall|key: Seq<u8>|
            self@.contains_key(key) ==> (#[trigger] self@[key]).representable()
    }

    /// Well-formedness as the table shows it: finitely many entries, each a
    /// valid aggregate.
    spec fn inner_wf(&self) -> bool {
        &&& table_entries(self.table).dom().finite()
        &&& forall|key: Seq<u8>|
            table_entries(self.table).contains_key(key) ==> (#[trigger] table_entries(
                self.table,
            )[key]).wf()
    }

    /// Both statements of well-formedness agree, and the view has the keys
    /// of the table.
    proof fn lemma_wf(&self)
        ensures
            self.wf() <==> self.inner_wf(),
            self@.dom() == table_entries(self.table).dom(),
    {
        broadcast use Stats::lemma_representable;

        let entries = table_entries(self.table);
        assert(self@.dom() =~= entries.dom());
        assert forall|key: Seq<u8>| self@.contains_key(key) implies (#[trigger] self@[key])
            == entries[key]@ by {}
        if self.wf() {
            assert forall|key: Seq<u8>| entries.contains_key(key) implies (#[trigger] entries[key]).wf() by {
                assert(self@.contains_key(key));
                assert(self@[key].valid());
            }
        }
        if self.inner_wf() {
            assert forall|key: Seq<u8>| self@.contains_key(key) implies (#[trigger] self@[key]).valid()
                && self@[key].representable() by {
                assert(entries.contains_key(key));
                assert(entries[key].wf());
            }
        }
    }

    /// A mapping without keys.
    pub fn new() -> (totals: Aggregates)
        ensures
            totals.wf(),
            totals@ == no_totals(),
    {
        let totals = Aggregates { table: table_new() };
        proof {
            assert(totals@ =~= no_totals());
        }
        totals
    }

    /// The number of keys.
    pub fn len(&self) -> (n: usize)
        ensures
            n == self@.dom().len(),
    {
        proof {
            self.lemma_wf();
        }
        table_len(&self.table)
    }

    /// The aggregate of `key`, if the mapping has that key.
    pub fn get(&self, key: &[u8]) -> (r: Option<Stats>)
        requires
            self.wf(),
        ensures
            match r {
                Some(stats) => self@.contains_key(key@) && stats@ == self@[key@] && stats.wf(),
                None => !self@.contains_key(key@),
            },
    {
        proof {
            self.lemma_wf();
        }
        table_get(&self.table, key)
    }

    /// Every key with its aggregate, each once, in no particular order.
    pub fn entries(&self) -> (items: Vec<(&Vec<u8>, Stats)>)
        requires
            self.wf(),
        ensures
            lists_totals(items@, self@),
            forall|i: int| 0 <= i < items@.len() ==> (#[trigger] items@[i]).1.wf(),
    {
        let items = table_items(&self.table);
        proof {
            self.lemma_wf();
            let entries = table_entries(self.table);
            assert forall|i: int| 0 <= i < items@.len() implies (#[trigger] items@[i]).1.wf() by {
                assert(entries.contains_key(items@[i].0@));
            }
        }
        items
    }

    /// Takes the aggregate `stats` into the mapping under `key`: a new key
    /// takes it as it is, a known key combines it with what it has.
    /// Returns `false`, and changes nothing, where the count of the key
    /// would no longer fit in a `u64`.
    pub fn merge_one(&mut self, key: &[u8], stats: &Stats) -> (done: bool)
        requires
            old(self).wf(),
            stats.wf(),
        ensures
            final(self).wf(),
            done <==> !(old(self)@.contains_key(key@) && old(self)@[key@].count + stats@.count
                > u64::MAX),
            done ==> final(self)@ == merge_one(old(self)@, key@, stats@),
            !done ==> final(self)@ == old(self)@,
    {
        proof {
            self.lemma_wf();
        }
        let ghost before = *self;
        match table_get(&self.table, key) {
            Some(known) => {
                match known.combine(stats) {
                    Some(updated) => {
                        table_replace(&mut self.table, key, updated);
                        proof {
                            self.lemma_wf();
                            assert(self@ =~= merge_one(before@, key@, stats@));
                        }
                        true
                    },
                    None => false,
                }
            },
            None => {
                table_insert(&mut self.table, slice_to_vec(key), *stats);
                proof {
                    self.lemma_wf();
                    assert(self@ =~= merge_one(before@, key@, stats@));
                }
                true
            },
        }
    }

    /// Takes one more record into the mapping: a new key starts with the
    /// aggregate of the one value, a known key absorbs the value. Returns
    /// `false`, and changes nothing, where the count of the key would no
    /// longer fit in a `u64`.
    pub fn record(&mut self, key: &[u8], value: i64) -> (done: bool)
        requires
            old(self).wf(),
        ensures
            final(self).wf(),
            done <==> !(old(self)@.contains_key(key@) && old(self)@[key@].count == u64::MAX),
            done ==> final(self)@ == absorb(old(self)@, (Record { key: key@, value: value as int })),
            !done ==> final(self)@ == old(self)@,
    {
        let first = Stats::single(value);
        self.merge_one(key, &first)
    }
}

/// Aggregates one chunk: every line is split at its last separator into key
/// and value, and the value is taken into the aggregate of the key. The
/// first line that is no record ends the work with its offset and fault.
pub fn compute_chunk(data: &[u8]) -> (r: Result<Aggregates, ChunkError>)
    ensures
        match r {
            Ok(totals) => {
                &&& chunk_fault(data@) is None
                &&& totals.wf()
                &&& totals@ == aggregate(chunk_records(data@))
            },
            Err(e) => chunk_fault(data@) == Some(e),
        },
{
    let mut totals = Aggregates::new();
    let len: usize = data.len();
    let mut pos: usize = 0;
    let ghost lines = lines_of(data@);
    let ghost records = chunk_records(data@);
    let ghost mut n: int = 0;
    proof {
        assert(data@.skip(0) =~= data@);
        assert(lines.skip(0) =~= lines);
        assert(records.take(0) =~= Seq::<Record>::empty());
        lemma_aggregate_empty();
    }
    while pos < len
        invariant
            len == data@.len(),
            lines == lines_of(data@),
            records == chunk_records(data@),
            0 <= pos <= len,
            0 <= n <= lines.len(),
            n <= pos,
            lines.skip(n) == lines_of(data@.skip(pos as int)),
            pos < len ==> pos == line_offset(lines, n),
            forall|j: int| 0 <= j < n ==> record_of(#[trigger] lines[j]) is Ok,
            totals.wf(),
            totals@ == aggregate(records.take(n)),
        decreases len - pos,
    {
        let end: usize = find_line_end(data, pos);
        let line = slice_subrange(data, pos, end);
        let next: usize = if end < len { end + 1 } else { end };
        proof {
            let rest = data@.skip(pos as int);
            lemma_line_end(data@, pos as int);
            lemma_line_end_skip(data@, pos as int, pos as int);
            assert(line_end(rest, 0) == end - pos);
            assert(first_line(rest) =~= line@);
            assert(after_first_line(rest) =~= data@.skip(next as int));
            assert(lines.skip(n) == seq![line@] + lines_of(data@.skip(next as int)));
            assert(lines.skip(n).len() >= 1);
            assert(lines.skip(n)[0] == line@);
            assert(lines[n] == line@);
            assert(lines.skip(n + 1) =~= lines.skip(n).skip(1));
            assert(lines.skip(n).skip(1) =~= lines_of(data@.skip(next as int)));
        }
        match parse_record(line) {
            Err(fault) => {
                proof {
                    assert(is_first_fault(lines, n));
                    let i = choose|i: int| is_first_fault(lines, i);
                    assert(i == n) by {
                        if i < n {
                            assert(record_of(lines[i]) is Ok);
                        }
                        if n < i {
                            assert(record_of(lines[n]) is Ok);
                        }
                    }
                }
                return Err(ChunkError { offset: pos, fault });
            },
            Ok((at, value)) => {
                let key = slice_subrange(line, 0, at);
                proof {
                    assert(key@ =~= line@.take(at as int));
                    let seen = records.take(n);
                    assert(records[n] == Record { key: key@, value: value as int });
                    assert(records.take(n + 1) =~= seen.push(records[n]));
                    lemma_aggregate_push(seen, records[n]);
                    lemma_values_for_len(seen, key@);
                }
                let done = totals.record(key, value);
                assert(done);
            },
        }
        proof {
            n = n + 1;
        }
        pos = next;
    }
    proof {
        assert(data@.skip(pos as int) =~= Seq::<u8>::empty());
        assert(lines.skip(n).len() == 0);
        assert(n == lines.len());
        assert(records.take(n) =~= records);
        assert forall|i: int| !is_first_fault(lines, i) by {
            if 0 <= i < lines.len() {
                assert(record_of(lines[i]) is Ok);
            }
        }
    }
    Ok(totals)
}

} // verus!
