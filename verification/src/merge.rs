//! The merge reducer: it folds the aggregates of one chunk into the final
//! result, key by key, under the merge rule.

use crate::aggregates::{lists_totals, Aggregates};
use crate::error::CountOverflow;
use crate::model::{merge, merge_one, Totals};
use crate::stats::Stats;
use vstd::prelude::*;

verus! {

/// No key of both mappings has counts that add up beyond a `u64`.
pub open spec fn mergeable(a: Totals, b: Totals) -> bool {
    forall|key: Seq<u8>|
        a.contains_key(key) && b.contains_key(key) ==> (#[trigger] a[key]).count + b[key].count
            <= u64::MAX
}

/// The keys of the first `upto` items.
spec fn keys_upto(items: Seq<(&Vec<u8>, Stats)>, upto: int) -> Set<Seq<u8>> {
    Set::new(|key: Seq<u8>| exists|j: int| 0 <= j < upto && (#[trigger] items[j]).0@ == key)
}

/// Merging in the first `upto + 1` items is merging in the first `upto`
/// and then the next one.
proof fn lemma_merge_step(base: Totals, part: Totals, items: Seq<(&Vec<u8>, Stats)>, upto: int)
    requires
        lists_totals(items, part),
        0 <= upto < items.len(),
    ensures
        !part.restrict(keys_upto(items, upto)).contains_key(items[upto].0@),
        merge(base, part.restrict(keys_upto(items, upto + 1))) == merge_one(
            merge(base, part.restrict(keys_upto(items, upto))),
            items[upto].0@,
            items[upto].1@,
        ),
{
    let key = items[upto].0@;
    let before = part.restrict(keys_upto(items, upto));
    let after = part.restrict(keys_upto(items, upto + 1));
    assert(!keys_upto(items, upto).contains(key)) by {
        if keys_upto(items, upto).contains(key) {
            let j = choose|j: int| 0 <= j < upto && (#[trigger] items[j]).0@ == key;
            assert(items[j].0@ != items[upto].0@);
        }
    }
    assert(keys_upto(items, upto + 1).contains(key)) by {
        assert(items[upto].0@ == key);
    }
    assert(part.contains_key(items[upto].0@));
    assert forall|k: Seq<u8>| k != key implies keys_upto(items, upto + 1).contains(k)
        == keys_upto(items, upto).contains(k) by {
        if keys_upto(items, upto + 1).contains(k) {
            let j = choose|j: int| 0 <= j < upto + 1 && (#[trigger] items[j]).0@ == k;
            assert(j < upto);
        }
        if keys_upto(items, upto).contains(k) {
            let j = choose|j: int| 0 <= j < upto && (#[trigger] items[j]).0@ == k;
            assert(0 <= j < upto + 1);
        }
    }
    assert(merge(base, after) =~= merge_one(merge(base, before), key, items[upto].1@));
}

/// Merges the aggregates of one chunk into the final result: a new key is
/// inserted with its aggregate as it is, a known key gets the minimum of
/// the minima, the maximum of the maxima, the sum of the sums and the sum
/// of the counts. Where some count would no longer fit in a `u64`, nothing
/// is merged and the final result stays as it was.
pub fn merge_results(final_result: &mut Aggregates, chunk_result: Aggregates) -> (r: Result<
    (),
    CountOverflow,
>)
    requires
        old(final_result).wf(),
        chunk_result.wf(),
    ensures
        final(final_result).wf(),
        r is Ok <==> mergeable(old(final_result)@, chunk_result@),
        r is Ok ==> final(final_result)@ == merge(old(final_result)@, chunk_result@),
        r is Err ==> final(final_result)@ == old(final_result)@,
{
    let ghost base = final_result@;
    let ghost part = chunk_result@;
    let items = chunk_result.entries();
    let count: usize = items.len();
    let mut i: usize = 0;
    while i < count
        invariant
            0 <= i <= count,
            count == items@.len(),
            final_result.wf(),
            final_result@ == base,
            base == old(final_result)@,
            part == chunk_result@,
            lists_totals(items@, part),
            forall|j: int|
                0 <= j < i && base.contains_key((#[trigger] items@[j]).0@) ==> base[items@[j].0@].count
                    + part[items@[j].0@].count <= u64::MAX,
        decreases count - i,
    {
        let (key, stats) = items[i];
        match final_result.get(key.as_slice()) {
            Some(known) => {
                if known.count() > u64::MAX - stats.count() {
                    proof {
                        let k = items@[i as int].0@;
                        assert(part.contains_key(k) && part[k] == stats@);
                        assert(base.contains_key(k) && base[k] == known@);
                        assert(base[k].count + part[k].count > u64::MAX);
                    }
                    return Err(CountOverflow);
                }
            },
            None => {},
        }
        i += 1;
    }
    proof {
        assert forall|key: Seq<u8>| base.contains_key(key) && part.contains_key(key) implies (
        #[trigger] base[key]).count + part[key].count <= u64::MAX by {
            let j = choose|j: int| 0 <= j < items@.len() && items@[j].0@ == key;
            assert(base.contains_key(items@[j].0@));
        }
        assert(part.restrict(keys_upto(items@, 0)) =~= Map::<Seq<u8>, crate::stats::Summary>::empty());
        crate::model::lemma_merge_empty(base);
    }
    i = 0;
    while i < count
        invariant
            0 <= i <= count,
            count == items@.len(),
            final_result.wf(),
            lists_totals(items@, part),
            forall|j: int| 0 <= j < items@.len() ==> (#[trigger] items@[j]).1.wf(),
            mergeable(base, part),
            final_result@ == merge(base, part.restrict(keys_upto(items@, i as int))),
        decreases count - i,
    {
        let (key, stats) = items[i];
        proof {
            lemma_merge_step(base, part, items@, i as int);
            assert(part.contains_key(items@[i as int].0@));
        }
        let done = final_result.merge_one(key.as_slice(), &stats);
        assert(done);
        i += 1;
    }
    proof {
        assert(part.restrict(keys_upto(items@, count as int)) =~= part) by {
            assert forall|key: Seq<u8>| part.contains_key(key) implies keys_upto(
                items@,
                count as int,
            ).contains(key) by {
                let j = choose|j: int| 0 <= j < items@.len() && items@[j].0@ == key;
                assert(items@[j].0@ == key);
            }
        }
    }
    Ok(())
}

} // verus!
