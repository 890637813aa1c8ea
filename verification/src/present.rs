//! The presentation of a final result: its keys in ascending order, each
//! with minimum, mean and maximum to one decimal place.

use crate::aggregates::{lists_totals, Aggregates};
use crate::decimal::{push_tenths, tenths_text};
use crate::model::Totals;
use crate::order::{
    ascending, key_before, key_less, lemma_key_less_asymmetric, lemma_key_less_total,
    lemma_key_less_transitive, lemma_sorted_keys, lists_keys, sorted_keys,
};
use crate::stats::{Stats, Summary};
use vstd::prelude::*;
use vstd::seq_lib::{lemma_multiset_commutative, to_multiset_build};

verus! {

pub const OPEN: u8 = 0x7b;

pub const CLOSE: u8 = 0x7d;

pub const EQUALS: u8 = 0x3d;

pub const SLASH: u8 = 0x2f;

pub const COMMA: u8 = 0x2c;

pub const SPACE: u8 = 0x20;

/// One key of the result: `KEY=MIN/MEAN/MAX, `.
pub open spec fn entry_text(key: Seq<u8>, summary: Summary) -> Seq<u8> {
    key + seq![EQUALS] + tenths_text(summary.min) + seq![SLASH] + tenths_text(summary.mean())
        + seq![SLASH] + tenths_text(summary.max) + seq![COMMA, SPACE]
}

/// The texts of `keys`, one after the other.
pub open spec fn entries_text(keys: Seq<Seq<u8>>, totals: Totals) -> Seq<u8>
    decreases keys.len(),
{
    if keys.len() == 0 {
        Seq::empty()
    } else {
        entries_text(keys.drop_last(), totals) + entry_text(keys.last(), totals[keys.last()])
    }
}

/// The result as one line of text: `{`, every key in ascending order with
/// its minimum, mean and maximum, and `}`.
pub open spec fn result_text(totals: Totals) -> Seq<u8> {
    seq![OPEN] + entries_text(sorted_keys(totals.dom()), totals) + seq![CLOSE]
}

/// A result without keys is presented as `{}`.
pub proof fn lemma_empty_result_text()
    ensures
        result_text(Map::empty()) == seq![OPEN, CLOSE],
{
    let none = Map::<Seq<u8>, Summary>::empty();
    let keys = Seq::<Seq<u8>>::empty();
    assert(lists_keys(keys, none.dom()));
    lemma_sorted_keys(keys, none.dom());
    assert(result_text(none) =~= seq![OPEN, CLOSE]);
}

/// The keys of `items`, in order.
pub open spec fn keys_of(items: Seq<(&Vec<u8>, Stats)>) -> Seq<Seq<u8>> {
    Seq::new(items.len(), |i: int| items[i].0@)
}

/// No item has a key that comes before the key of an item ahead of it.
spec fn non_descending(items: Seq<(&Vec<u8>, Stats)>) -> bool {
    forall|i: int, j: int|
        0 <= i < j < items.len() ==> !key_less((#[trigger] items[j]).0@, (#[trigger] items[i]).0@)
}

/// "Does not come after" is transitive.
proof fn lemma_not_after_transitive(a: Seq<u8>, b: Seq<u8>, c: Seq<u8>)
    requires
        !key_less(b, a),
        !key_less(c, b),
    ensures
        !key_less(c, a),
{
    if key_less(c, a) {
        lemma_key_less_total(a, b);
        if a != b {
            lemma_key_less_transitive(c, a, b);
        }
    }
}

/// Merges two sorted runs into one.
fn merge_runs<'a>(left: &Vec<(&'a Vec<u8>, Stats)>, right: &Vec<(&'a Vec<u8>, Stats)>) -> (out: Vec<
    (&'a Vec<u8>, Stats),
>)
    requires
        non_descending(left@),
        non_descending(right@),
    ensures
        non_descending(out@),
        out@.to_multiset() == left@.to_multiset().add(right@.to_multiset()),
{
    broadcast use vstd::seq_lib::group_to_multiset_ensures;
    broadcast use vstd::multiset::group_multiset_axioms;

    let n: usize = left.len();
    let m: usize = right.len();
    let mut out: Vec<(&'a Vec<u8>, Stats)> = Vec::new();
    let mut i: usize = 0;
    let mut j: usize = 0;
    proof {
        assert(left@.take(0) =~= Seq::empty());
        assert(right@.take(0) =~= Seq::empty());
        assert(out@.to_multiset() =~= left@.take(0).to_multiset().add(
            right@.take(0).to_multiset(),
        ));
    }
    while i < n || j < m
        invariant
            n == left@.len(),
            m == right@.len(),
            0 <= i <= n,
            0 <= j <= m,
            non_descending(left@),
            non_descending(right@),
            non_descending(out@),
            out@.to_multiset() == left@.take(i as int).to_multiset().add(
                right@.take(j as int).to_multiset(),
            ),
            forall|x: int, p: int|
                0 <= x < out@.len() && i <= p < n ==> !key_less(
                    (#[trigger] left@[p]).0@,
                    (#[trigger] out@[x]).0@,
                ),
            forall|x: int, q: int|
                0 <= x < out@.len() && j <= q < m ==> !key_less(
                    (#[trigger] right@[q]).0@,
                    (#[trigger] out@[x]).0@,
                ),
        decreases (n - i) + (m - j),
    {
        let from_left: bool = if i == n {
            false
        } else if j == m {
            true
        } else {
            !key_before(right[j].0.as_slice(), left[i].0.as_slice())
        };
        let ghost before = out@;
        if from_left {
            let item = left[i];
            out.push(item);
            proof {
                assert(out@ =~= before.push(item));
                assert(left@.take(i + 1) =~= left@.take(i as int).push(item));
                to_multiset_build(before, item);
                to_multiset_build(left@.take(i as int), item);
                assert(before.to_multiset().insert(item) =~= left@.take(
                    i as int,
                ).to_multiset().insert(item).add(right@.take(j as int).to_multiset()));
                assert(out@.to_multiset() =~= left@.take(i + 1).to_multiset().add(
                    right@.take(j as int).to_multiset(),
                ));
                assert forall|x: int, p: int| 0 <= x < out@.len() && i + 1 <= p < n implies !key_less(
                    (#[trigger] left@[p]).0@,
                    (#[trigger] out@[x]).0@,
                ) by {
                    if x < before.len() {
                        assert(out@[x] == before[x]);
                    }
                }
                assert forall|x: int, q: int| 0 <= x < out@.len() && j <= q < m implies !key_less(
                    (#[trigger] right@[q]).0@,
                    (#[trigger] out@[x]).0@,
                ) by {
                    if x < before.len() {
                        assert(out@[x] == before[x]);
                    } else {
                        if q > j {
                            assert(!key_less(right@[q].0@, right@[j as int].0@));
                        }
                        lemma_not_after_transitive(item.0@, right@[j as int].0@, right@[q].0@);
                    }
                }
                assert forall|x: int, y: int| 0 <= x < y < out@.len() implies !key_less(
                    (#[trigger] out@[y]).0@,
                    (#[trigger] out@[x]).0@,
                ) by {
                    assert(out@[x] == before[x]);
                    if y < before.len() {
                        assert(out@[y] == before[y]);
                    }
                }
            }
            i += 1;
        } else {
            let item = right[j];
            out.push(item);
            proof {
                assert(out@ =~= before.push(item));
                assert(right@.take(j + 1) =~= right@.take(j as int).push(item));
                to_multiset_build(before, item);
                to_multiset_build(right@.take(j as int), item);
                assert(before.to_multiset().insert(item) =~= left@.take(i as int).to_multiset().add(
                    right@.take(j as int).to_multiset().insert(item),
                ));
                assert(out@.to_multiset() =~= left@.take(i as int).to_multiset().add(
                    right@.take(j + 1).to_multiset(),
                ));
                assert forall|x: int, q: int| 0 <= x < out@.len() && j + 1 <= q < m implies !key_less(
                    (#[trigger] right@[q]).0@,
                    (#[trigger] out@[x]).0@,
                ) by {
                    if x < before.len() {
                        assert(out@[x] == before[x]);
                    }
                }
                assert forall|x: int, p: int| 0 <= x < out@.len() && i <= p < n implies !key_less(
                    (#[trigger] left@[p]).0@,
                    (#[trigger] out@[x]).0@,
                ) by {
                    if x < before.len() {
                        assert(out@[x] == before[x]);
                    } else {
                        lemma_key_less_asymmetric(item.0@, left@[i as int].0@);
                        if p > i {
                            assert(!key_less(left@[p].0@, left@[i as int].0@));
                        }
                        lemma_not_after_transitive(item.0@, left@[i as int].0@, left@[p].0@);
                    }
                }
                assert forall|x: int, y: int| 0 <= x < y < out@.len() implies !key_less(
                    (#[trigger] out@[y]).0@,
                    (#[trigger] out@[x]).0@,
                ) by {
                    assert(out@[x] == before[x]);
                    if y < before.len() {
                        assert(out@[y] == before[y]);
                    }
                }
            }
            j += 1;
        }
    }
    proof {
        assert(left@.take(n as int) =~= left@);
        assert(right@.take(m as int) =~= right@);
    }
    out
}

/// Sorts the items from `from` up to `to` by key.
fn sort_range<'a>(items: &Vec<(&'a Vec<u8>, Stats)>, from: usize, to: usize) -> (out: Vec<
    (&'a Vec<u8>, Stats),
>)
    requires
        from <= to <= items@.len(),
    ensures
        non_descending(out@),
        out@.to_multiset() == items@.subrange(from as int, to as int).to_multiset(),
    decreases to - from,
{
    broadcast use vstd::seq_lib::group_to_multiset_ensures;

    let mut out: Vec<(&'a Vec<u8>, Stats)> = Vec::new();
    if to - from == 0 {
        proof {
            assert(items@.subrange(from as int, to as int) =~= out@);
        }
        out
    } else if to - from == 1 {
        out.push(items[from]);
        proof {
            assert(items@.subrange(from as int, to as int) =~= out@);
        }
        out
    } else {
        let mid: usize = from + (to - from) / 2;
        let left = sort_range(items, from, mid);
        let right = sort_range(items, mid, to);
        proof {
            assert(items@.subrange(from as int, to as int) =~= items@.subrange(
                from as int,
                mid as int,
            ) + items@.subrange(mid as int, to as int));
            lemma_multiset_commutative(
                items@.subrange(from as int, mid as int),
                items@.subrange(mid as int, to as int),
            );
        }
        merge_runs(&left, &right)
    }
}

/// A rearrangement of a listing that is sorted lists the keys in ascending
/// order.
proof fn lemma_sorted_listing(
    items: Seq<(&Vec<u8>, Stats)>,
    sorted: Seq<(&Vec<u8>, Stats)>,
    totals: Totals,
)
    requires
        lists_totals(items, totals),
        non_descending(sorted),
        sorted.to_multiset() == items.to_multiset(),
    ensures
        lists_totals(sorted, totals),
        lists_keys(keys_of(sorted), totals.dom()),
{
    broadcast use vstd::seq_lib::group_to_multiset_ensures;

    assert(items.no_duplicates()) by {
        assert forall|i: int, j: int|
            0 <= i < items.len() && 0 <= j < items.len() && i != j implies items[i] != items[j] by {
            if i < j {
                assert(items[i].0@ != items[j].0@);
            } else {
                assert(items[j].0@ != items[i].0@);
            }
        }
    }
    items.lemma_multiset_has_no_duplicates();
    sorted.lemma_multiset_has_no_duplicates_conv();
    assert forall|i: int| 0 <= i < sorted.len() implies totals.contains_key(
        #[trigger] sorted[i].0@,
    ) && totals[sorted[i].0@] == sorted[i].1@ by {
        let item = sorted[i];
        assert(sorted.contains(item));
        assert(items.to_multiset().count(item) > 0);
        assert(items.contains(item));
        let p = choose|p: int| 0 <= p < items.len() && items[p] == item;
        assert(totals.contains_key(items[p].0@));
    }
    assert forall|i: int, j: int| 0 <= i < j < sorted.len() implies (#[trigger] sorted[i]).0@ != (
    #[trigger] sorted[j]).0@ by {
        assert(sorted.contains(sorted[i]));
        assert(sorted.contains(sorted[j]));
        assert(items.to_multiset().count(sorted[i]) > 0);
        assert(items.to_multiset().count(sorted[j]) > 0);
        let p = choose|p: int| 0 <= p < items.len() && items[p] == sorted[i];
        let q = choose|q: int| 0 <= q < items.len() && items[q] == sorted[j];
        assert(sorted[i] != sorted[j]);
        if p < q {
            assert(items[p].0@ != items[q].0@);
        } else {
            assert(items[q].0@ != items[p].0@);
        }
    }
    assert forall|key: Seq<u8>| #[trigger] totals.contains_key(key) implies exists|i: int|
        0 <= i < sorted.len() && sorted[i].0@ == key by {
        let p = choose|p: int| 0 <= p < items.len() && items[p].0@ == key;
        assert(items.contains(items[p]));
        assert(sorted.to_multiset().count(items[p]) > 0);
        assert(sorted.contains(items[p]));
        let i = choose|i: int| 0 <= i < sorted.len() && sorted[i] == items[p];
        assert(sorted[i].0@ == key);
    }
    let keys = keys_of(sorted);
    assert(ascending(keys)) by {
        assert forall|i: int, j: int| 0 <= i < j < keys.len() implies key_less(
            #[trigger] keys[i],
            #[trigger] keys[j],
        ) by {
            assert(!key_less(sorted[j].0@, sorted[i].0@));
            assert(sorted[i].0@ != sorted[j].0@);
            lemma_key_less_total(keys[i], keys[j]);
        }
    }
    assert forall|key: Seq<u8>| totals.dom().contains(key) <==> keys.contains(key) by {
        if totals.dom().contains(key) {
            assert(totals.contains_key(key));
            let i = choose|i: int| 0 <= i < sorted.len() && sorted[i].0@ == key;
            assert(keys[i] == key);
        }
        if keys.contains(key) {
            let i = choose|i: int| 0 <= i < keys.len() && keys[i] == key;
            assert(totals.contains_key(sorted[i].0@));
        }
    }
}

/// Every key with its aggregate, in ascending order of the keys.
pub fn sorted_entries(totals: &Aggregates) -> (items: Vec<(&Vec<u8>, Stats)>)
    requires
        totals.wf(),
    ensures
        keys_of(items@) == sorted_keys(totals@.dom()),
        forall|i: int|
            0 <= i < items@.len() ==> (#[trigger] items@[i]).1@ == totals@[items@[i].0@]
                && items@[i].1.wf(),
{
    let listed = totals.entries();
    let sorted = sort_range(&listed, 0, listed.len());
    proof {
        assert(listed@.subrange(0, listed@.len() as int) =~= listed@);
        lemma_sorted_listing(listed@, sorted@, totals@);
        lemma_sorted_keys(keys_of(sorted@), totals@.dom());
        assert forall|i: int| 0 <= i < sorted@.len() implies (#[trigger] sorted@[i]).1@
            == totals@[sorted@[i].0@] && sorted@[i].1.wf() by {
            assert(totals@.contains_key(sorted@[i].0@));
        }
    }
    sorted
}

/// Renders the final result as one line: `{`, then for every key in
/// ascending order `KEY=MIN/MEAN/MAX, ` with one decimal place each, then
/// `}`. The mean is rounded to the nearest tenth, a tie away from zero.
pub fn render_result(totals: &Aggregates) -> (text: Vec<u8>)
    requires
        totals.wf(),
    ensures
        text@ == result_text(totals@),
{
    let items = sorted_entries(totals);
    let count: usize = items.len();
    let mut text: Vec<u8> = Vec::new();
    text.push(OPEN);
    let ghost keys = keys_of(items@);
    let mut i: usize = 0;
    proof {
        assert(keys.take(0) =~= Seq::<Seq<u8>>::empty());
        assert(text@ =~= seq![OPEN] + entries_text(keys.take(0), totals@));
    }
    while i < count
        invariant
            0 <= i <= count,
            count == items@.len(),
            keys == keys_of(items@),
            forall|k: int|
                0 <= k < items@.len() ==> (#[trigger] items@[k]).1@ == totals@[items@[k].0@]
                    && items@[k].1.wf(),
            text@ == seq![OPEN] + entries_text(keys.take(i as int), totals@),
        decreases count - i,
    {
        let (key, stats) = items[i];
        let ghost before = text@;
        proof {
            assert(items@[i as int].1.wf());
        }
        text.extend_from_slice(key.as_slice());
        text.push(EQUALS);
        push_tenths(&mut text, stats.min());
        text.push(SLASH);
        push_tenths(&mut text, stats.mean());
        text.push(SLASH);
        push_tenths(&mut text, stats.max());
        text.push(COMMA);
        text.push(SPACE);
        proof {
            let done = keys.take(i + 1);
            assert(done.drop_last() =~= keys.take(i as int));
            assert(done.last() == key@);
            assert(totals@[key@] == stats@);
            assert(text@ =~= before + entry_text(key@, stats@));
            assert(text@ =~= seq![OPEN] + entries_text(done, totals@));
        }
        i += 1;
    }
    text.push(CLOSE);
    proof {
        assert(keys.take(count as int) =~= keys);
    }
    text
}

} // verus!
