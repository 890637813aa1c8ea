//! What aggregation means: the per-key summary of a sequence of records,
//! and the rule that merges two such mappings.

use crate::stats::Summary;
use vstd::prelude::*;

verus! {

/// One `key;value` record: the key bytes and the value in tenths.
pub struct Record {
    pub key: Seq<u8>,
    pub value: int,
}

/// A mapping from key to aggregate.
pub type Totals = Map<Seq<u8>, Summary>;

/// The mapping without keys.
pub open spec fn no_totals() -> Totals {
    Map::empty()
}

/// The values recorded under `key`, in the order of the records.
pub open spec fn values_for(records: Seq<Record>, key: Seq<u8>) -> Seq<int>
    decreases records.len(),
{
    if records.len() == 0 {
        Seq::empty()
    } else if records.last().key == key {
        values_for(records.drop_last(), key).push(records.last().value)
    } else {
        values_for(records.drop_last(), key)
    }
}

/// The sum of `values`.
pub open spec fn total(values: Seq<int>) -> int
    decreases values.len(),
{
    if values.len() == 0 {
        0
    } else {
        total(values.drop_last()) + values.last()
    }
}

/// Minimum, maximum, sum and number of `values`.
pub open spec fn summarize(values: Seq<int>) -> Summary {
    Summary { min: values.min(), max: values.max(), sum: total(values), count: values.len() }
}

/// The aggregate mapping of `records`: a key is present where a record
/// names it, with the summary of all values recorded under it.
pub open spec fn aggregate(records: Seq<Record>) -> Totals {
    Map::new(
        |key: Seq<u8>| values_for(records, key).len() > 0,
        |key: Seq<u8>| summarize(values_for(records, key)),
    )
}

/// The merge rule: a key of one side only keeps its aggregate, a key of
/// both sides gets the combination of the two.
pub open spec fn merge(a: Totals, b: Totals) -> Totals {
    Map::new(
        |key: Seq<u8>| a.contains_key(key) || b.contains_key(key),
        |key: Seq<u8>|
            if a.contains_key(key) && b.contains_key(key) {
                a[key].combine(b[key])
            } else if a.contains_key(key) {
                a[key]
            } else {
                b[key]
            },
    )
}

/// The mapping after the aggregate `summary` has come in under `key`: a
/// new key takes it as it is, a known key combines it with what it has.
pub open spec fn merge_one(totals: Totals, key: Seq<u8>, summary: Summary) -> Totals {
    if totals.contains_key(key) {
        totals.insert(key, totals[key].combine(summary))
    } else {
        totals.insert(key, summary)
    }
}

/// The mapping after one more record.
pub open spec fn absorb(totals: Totals, record: Record) -> Totals {
    merge_one(totals, record.key, Summary::single(record.value))
}

/// The result of merging `parts` one after the other into an empty mapping.
pub open spec fn merge_all(parts: Seq<Totals>) -> Totals
    decreases parts.len(),
{
    if parts.len() == 0 {
        Map::empty()
    } else {
        merge(merge_all(parts.drop_last()), parts.last())
    }
}

/// Every aggregate in the mapping is valid and the keys are finitely many.
pub open spec fn valid_totals(totals: Totals) -> bool {
    &&& totals.dom().finite()
    &&& forall|key: Seq<u8>| totals.contains_key(key) ==> (#[trigger] totals[key]).valid()
}

/// Merging is commutative.
pub proof fn lemma_merge_commutative(a: Totals, b: Totals)
    ensures
        merge(a, b) == merge(b, a),
{
    assert(merge(a, b) =~= merge(b, a));
}

/// Merging is associative.
pub proof fn lemma_merge_associative(a: Totals, b: Totals, c: Totals)
    ensures
        merge(merge(a, b), c) == merge(a, merge(b, c)),
{
    assert(merge(merge(a, b), c) =~= merge(a, merge(b, c)));
}

/// The empty mapping is neutral for merging.
pub proof fn lemma_merge_empty(a: Totals)
    ensures
        merge(a, Map::empty()) == a,
        merge(Map::empty(), a) == a,
{
    assert(merge(a, Map::empty()) =~= a);
    assert(merge(Map::empty(), a) =~= a);
}

/// Merging removes no key: the keys of the result are those of both sides.
pub proof fn lemma_merge_keys(a: Totals, b: Totals)
    ensures
        merge(a, b).dom() == a.dom().union(b.dom()),
{
    assert(merge(a, b).dom() =~= a.dom().union(b.dom()));
}

/// Merging valid mappings gives a valid mapping.
pub proof fn lemma_merge_valid(a: Totals, b: Totals)
    requires
        valid_totals(a),
        valid_totals(b),
    ensures
        valid_totals(merge(a, b)),
{
    let m = merge(a, b);
    lemma_merge_keys(a, b);
    vstd::set_lib::lemma_set_union_finite_iff(a.dom(), b.dom());
    assert forall|key: Seq<u8>| m.contains_key(key) implies (#[trigger] m[key]).valid() by {
        if a.contains_key(key) && b.contains_key(key) {
            crate::stats::lemma_combine_valid(a[key], b[key]);
        }
    }
}

/// The summary after one more value.
pub proof fn lemma_summarize_push(values: Seq<int>, v: int)
    ensures
        summarize(values.push(v)) == if values.len() == 0 {
            Summary::single(v)
        } else {
            summarize(values).absorb(v)
        },
{
    let more = values.push(v);
    assert(more.drop_last() =~= values);
    more.min_ensures();
    more.max_ensures();
    if values.len() == 0 {
        assert(total(values) == 0);
    } else {
        values.min_ensures();
        values.max_ensures();
        assert(more[values.len() as int] == v);
        assert forall|x: int| values.contains(x) implies more.contains(x) by {
            let i = choose|i: int| 0 <= i < values.len() && values[i] == x;
            assert(more[i] == x);
        }
        assert(more.contains(v));
        assert(more.contains(values.min()));
        assert(more.contains(values.max()));
        let i = choose|i: int| 0 <= i < more.len() && more[i] == more.min();
        assert(i < values.len() ==> values[i] == more.min());
        let j = choose|j: int| 0 <= j < more.len() && more[j] == more.max();
        assert(j < values.len() ==> values[j] == more.max());
    }
}

/// The summary of a concatenation is the combination of the summaries.
pub proof fn lemma_summarize_concat(x: Seq<int>, y: Seq<int>)
    requires
        x.len() > 0,
        y.len() > 0,
    ensures
        summarize(x + y) == summarize(x).combine(summarize(y)),
    decreases y.len(),
{
    let head = y.drop_last();
    assert(y =~= head.push(y.last()));
    assert(x + y =~= (x + head).push(y.last()));
    lemma_summarize_push(x + head, y.last());
    lemma_summarize_push(head, y.last());
    if head.len() == 0 {
        assert(x + head =~= x);
    } else {
        lemma_summarize_concat(x, head);
        crate::stats::lemma_combine_associative(
            summarize(x),
            summarize(head),
            Summary::single(y.last()),
        );
    }
}

/// The summary of one or more values is valid.
pub proof fn lemma_summarize_valid(values: Seq<int>)
    requires
        values.len() > 0,
    ensures
        summarize(values).valid(),
    decreases values.len(),
{
    let head = values.drop_last();
    assert(values =~= head.push(values.last()));
    lemma_summarize_push(head, values.last());
    if head.len() == 0 {
        assert(1 * values.last() == values.last()) by (nonlinear_arith);
    } else {
        lemma_summarize_valid(head);
        assert(1 * values.last() == values.last()) by (nonlinear_arith);
        crate::stats::lemma_combine_valid(summarize(head), Summary::single(values.last()));
    }
}

/// The values under a key in a concatenation are those of the first part
/// followed by those of the second.
pub proof fn lemma_values_for_concat(a: Seq<Record>, b: Seq<Record>, key: Seq<u8>)
    ensures
        values_for(a + b, key) == values_for(a, key) + values_for(b, key),
    decreases b.len(),
{
    if b.len() == 0 {
        assert(a + b =~= a);
        assert(values_for(a, key) + values_for(b, key) =~= values_for(a, key));
    } else {
        assert((a + b).drop_last() =~= a + b.drop_last());
        lemma_values_for_concat(a, b.drop_last(), key);
        if b.last().key == key {
            assert(values_for(a + b, key) =~= values_for(a, key) + values_for(b, key));
        }
    }
}

/// No key has more values than there are records.
pub proof fn lemma_values_for_len(records: Seq<Record>, key: Seq<u8>)
    ensures
        values_for(records, key).len() <= records.len(),
    decreases records.len(),
{
    if records.len() > 0 {
        lemma_values_for_len(records.drop_last(), key);
    }
}

/// Aggregating one more record absorbs it into the mapping.
pub proof fn lemma_aggregate_push(records: Seq<Record>, record: Record)
    ensures
        aggregate(records.push(record)) == absorb(aggregate(records), record),
{
    let more = records.push(record);
    assert(more.drop_last() =~= records);
    assert forall|key: Seq<u8>|
        aggregate(more).contains_key(key) == absorb(aggregate(records), record).contains_key(
            key,
        ) && (aggregate(more).contains_key(key) ==> aggregate(more)[key] == absorb(
            aggregate(records),
            record,
        )[key]) by {
        if key == record.key {
            lemma_summarize_push(values_for(records, key), record.value);
        }
    }
    assert(aggregate(more) =~= absorb(aggregate(records), record));
}

/// Aggregating a concatenation is merging the two aggregates.
pub proof fn lemma_aggregate_concat(a: Seq<Record>, b: Seq<Record>)
    ensures
        aggregate(a + b) == merge(aggregate(a), aggregate(b)),
{
    let whole = aggregate(a + b);
    let merged = merge(aggregate(a), aggregate(b));
    assert forall|key: Seq<u8>| #[trigger] whole.dom().contains(key) == merged.dom().contains(
        key,
    ) by {
        lemma_values_for_concat(a, b, key);
    }
    assert forall|key: Seq<u8>| #[trigger] whole.dom().contains(key) implies whole[key]
        == merged[key] by {
        lemma_values_for_concat(a, b, key);
        let x = values_for(a, key);
        let y = values_for(b, key);
        if x.len() > 0 && y.len() > 0 {
            lemma_summarize_concat(x, y);
        } else if x.len() > 0 {
            assert(x + y =~= x);
        } else {
            assert(x + y =~= y);
        }
    }
    assert(whole =~= merged);
}

/// The aggregate of no records is the empty mapping.
pub proof fn lemma_aggregate_empty()
    ensures
        aggregate(Seq::empty()) == Map::<Seq<u8>, Summary>::empty(),
{
    assert(aggregate(Seq::empty()) =~= Map::<Seq<u8>, Summary>::empty());
}

/// Every aggregate mapping is valid.
pub proof fn lemma_aggregate_valid(records: Seq<Record>)
    ensures
        valid_totals(aggregate(records)),
    decreases records.len(),
{
    let m = aggregate(records);
    if records.len() == 0 {
        assert(records =~= Seq::empty());
        lemma_aggregate_empty();
    } else {
        let head = records.drop_last();
        assert(records =~= head.push(records.last()));
        lemma_aggregate_valid(head);
        lemma_aggregate_push(head, records.last());
        assert(m.dom() =~= aggregate(head).dom().insert(records.last().key));
    }
    assert forall|key: Seq<u8>| m.contains_key(key) implies (#[trigger] m[key]).valid() by {
        lemma_summarize_valid(values_for(records, key));
    }
}

/// Absorbing two records gives the same mapping in either order.
pub proof fn lemma_absorb_commutes(totals: Totals, x: Record, y: Record)
    ensures
        absorb(absorb(totals, x), y) == absorb(absorb(totals, y), x),
{
    assert(absorb(absorb(totals, x), y) =~= absorb(absorb(totals, y), x));
}

/// The aggregate is what absorbing the records one by one builds up.
pub proof fn lemma_aggregate_is_fold(records: Seq<Record>)
    ensures
        aggregate(records) == records.fold_left(
            Map::<Seq<u8>, Summary>::empty(),
            |totals: Totals, record: Record| absorb(totals, record),
        ),
    decreases records.len(),
{
    if records.len() == 0 {
        assert(records =~= Seq::empty());
        lemma_aggregate_empty();
    } else {
        let head = records.drop_last();
        assert(records =~= head.push(records.last()));
        lemma_aggregate_is_fold(head);
        lemma_aggregate_push(head, records.last());
    }
}

/// The aggregate does not depend on the order of the records: two
/// sequences that hold the same records the same number of times have the
/// same aggregate.
pub proof fn lemma_aggregate_order_independent(a: Seq<Record>, b: Seq<Record>)
    requires
        a.to_multiset() == b.to_multiset(),
    ensures
        aggregate(a) == aggregate(b),
{
    let f = |totals: Totals, record: Record| absorb(totals, record);
    assert(vstd::seq_lib::commutative_foldl(f)) by {
        assert forall|x: Record, y: Record, v: Totals| #[trigger] f(f(v, x), y) == f(f(v, y), x) by {
            lemma_absorb_commutes(v, x, y);
        }
    }
    lemma_aggregate_is_fold(a);
    lemma_aggregate_is_fold(b);
    vstd::seq_lib::lemma_fold_left_permutation(a, b, f, Map::<Seq<u8>, Summary>::empty());
}

/// The aggregate of each chunk of records.
pub open spec fn chunk_totals(chunks: Seq<Seq<Record>>) -> Seq<Totals> {
    Seq::new(chunks.len(), |i: int| aggregate(chunks[i]))
}

/// Merging the aggregates of the chunks gives the aggregate of all their
/// records together.
pub proof fn lemma_merge_all_is_aggregate(chunks: Seq<Seq<Record>>)
    ensures
        merge_all(chunk_totals(chunks)) == aggregate(chunks.flatten()),
    decreases chunks.len(),
{
    if chunks.len() == 0 {
        lemma_aggregate_empty();
    } else {
        let head = chunks.drop_last();
        assert(chunks =~= head.push(chunks.last()));
        assert(chunk_totals(chunks).drop_last() =~= chunk_totals(head));
        lemma_merge_all_is_aggregate(head);
        head.lemma_flatten_push(chunks.last());
        lemma_aggregate_concat(head.flatten(), chunks.last());
    }
}

/// However a collection of records is cut into chunks, and in whatever
/// order the chunks are aggregated and merged, the merged result is the
/// same: two chunkings that hold the same records the same number of times
/// merge to identical mappings.
pub proof fn lemma_merge_order_independent(first: Seq<Seq<Record>>, second: Seq<Seq<Record>>)
    requires
        first.flatten().to_multiset() == second.flatten().to_multiset(),
    ensures
        merge_all(chunk_totals(first)) == merge_all(chunk_totals(second)),
{
    lemma_merge_all_is_aggregate(first);
    lemma_merge_all_is_aggregate(second);
    lemma_aggregate_order_independent(first.flatten(), second.flatten());
}

} // verus!
