//! One line of input: `KEY;VALUE`, split at the last separator.

use crate::decimal::{fast_parse, parse_value};
use crate::error::RecordFault;
use crate::model::Record;
use vstd::prelude::*;
use vstd::slice::slice_subrange;
use vstd::utf8::valid_utf8;

verus! {

/// The byte between key and value.
pub const SEPARATOR: u8 = 0x3b;

/// The index of the last separator in `line`, or `-1` where it holds none.
pub open spec fn last_separator(line: Seq<u8>) -> int
    decreases line.len(),
{
    if line.len() == 0 {
        -1
    } else if line.last() == SEPARATOR {
        line.len() - 1
    } else {
        last_separator(line.drop_last())
    }
}

/// A separator stands at `last_separator` and none after it; where the
/// result is `-1`, the line holds none at all.
pub proof fn lemma_last_separator(line: Seq<u8>)
    ensures
        -1 <= last_separator(line) < line.len(),
        last_separator(line) >= 0 ==> line[last_separator(line)] == SEPARATOR,
        forall|j: int| last_separator(line) < j < line.len() ==> line[j] != SEPARATOR,
    decreases line.len(),
{
    if line.len() > 0 && line.last() != SEPARATOR {
        let head = line.drop_last();
        lemma_last_separator(head);
        assert forall|j: int| last_separator(line) < j < line.len() implies line[j]
            != SEPARATOR by {
            if j < head.len() {
                assert(head[j] == line[j]);
            }
        }
    }
}

/// What a line stands for: its record, or the reason it is rejected. The
/// key is everything before the last separator, the value what follows it.
pub open spec fn record_of(line: Seq<u8>) -> Result<Record, RecordFault> {
    let at = last_separator(line);
    if at < 0 {
        Err(RecordFault::MissingSeparator)
    } else if !valid_utf8(line.take(at)) {
        Err(RecordFault::InvalidKey)
    } else {
        match parse_value(line.skip(at + 1)) {
            Ok(value) => Ok(Record { key: line.take(at), value }),
            Err(fault) => Err(fault),
        }
    }
}

/// `core::str::from_utf8`: whether `bytes` are well-formed UTF-8, which is
/// what the conversion succeeding means.
#[verifier::external_body]
pub(crate) fn is_utf8(bytes: &[u8]) -> (ok: bool)
    ensures
        ok == valid_utf8(bytes@),
{
    core::str::from_utf8(bytes).is_ok()
}

/// Finds the last separator of `line`, if it has one.
pub fn find_last_separator(line: &[u8]) -> (at: Option<usize>)
    ensures
        match at {
            Some(i) => i == last_separator(line@) && i < line@.len(),
            None => last_separator(line@) == -1,
        },
{
    let mut i: usize = line.len();
    assert(line@.take(i as int) =~= line@);
    while i > 0
        invariant
            i <= line@.len(),
            last_separator(line@) == last_separator(line@.take(i as int)),
        decreases i,
    {
        if line[i - 1] == SEPARATOR {
            return Some(i - 1);
        }
        assert(line@.take(i as int).drop_last() =~= line@.take(i - 1));
        i -= 1;
    }
    None
}

/// Splits a line into key and value: the index of the separator that ends
/// the key, and the value in tenths.
pub fn parse_record(line: &[u8]) -> (r: Result<(usize, i64), RecordFault>)
    ensures
        match r {
            Ok((at, value)) => {
                &&& at == last_separator(line@)
                &&& at < line@.len()
                &&& record_of(line@) matches Ok(record)
                &&& record.key == line@.take(at as int)
                &&& record.value == value
            },
            Err(fault) => record_of(line@) matches Err(f) && f == fault,
        },
{
    let at: usize = match find_last_separator(line) {
        Some(i) => i,
        None => {
            return Err(RecordFault::MissingSeparator);
        },
    };
    proof {
        lemma_last_separator(line@);
        assert(at < line@.len());
        assert(line@.subrange(0, at as int) =~= line@.take(at as int));
        assert(line@.subrange(at + 1, line@.len() as int) =~= line@.skip(at + 1));
    }
    if !is_utf8(slice_subrange(line, 0, at)) {
        return Err(RecordFault::InvalidKey);
    }
    let n: usize = line.len();
    match fast_parse(slice_subrange(line, at + 1, n)) {
        Ok(value) => Ok((at, value)),
        Err(fault) => Err(fault),
    }
}

} // verus!
