//! The keyed table behind an aggregate mapping: `rustc_hash::FxHashMap`,
//! the standard hash map with the Fx hasher, from key bytes to `Stats`.
//! Verus does not look inside the map; what each operation does to its
//! contents is stated here and taken on trust.

use crate::stats::Stats;
use rustc_hash::{FxBuildHasher, FxHashMap};
use vstd::prelude::*;

verus! {

/// `rustc_hash::FxBuildHasher`, which builds the hashers of the table.
/// Nothing is said of it but that it is a type.
#[verifier::external_type_specification]
#[verifier::external_body]
pub struct ExFxBuildHasher(FxBuildHasher);

/// What a table holds: the aggregate stored under each key.
pub uninterp spec fn table_entries(t: FxHashMap<Vec<u8>, Stats>) -> Map<Seq<u8>, Stats>;

/// The contents of a table that holds nothing.
pub open spec fn no_entries() -> Map<Seq<u8>, Stats> {
    Map::empty()
}

/// `items` names every entry of `entries` exactly once: each item is an
/// entry, no key comes twice, and no entry is left out. Nothing is said of
/// the order.
pub open spec fn lists_entries(items: Seq<(&Vec<u8>, Stats)>, entries: Map<Seq<u8>, Stats>) -> bool {
    &&& forall|i: int|
        0 <= i < items.len() ==> entries.contains_key(#[trigger] items[i].0@)
            && entries[items[i].0@] == items[i].1
    &&& forall|i: int, j: int|
        0 <= i < j < items.len() ==> (#[trigger] items[i]).0@ != (#[trigger] items[j]).0@
    &&& forall|key: Seq<u8>| #[trigger]
        entries.contains_key(key) ==> exists|i: int| 0 <= i < items.len() && items[i].0@ == key
}

/// `FxHashMap::default`: a table that holds nothing.
#[verifier::external_body]
pub(crate) fn table_new() -> (table: FxHashMap<Vec<u8>, Stats>)
    ensures
        table_entries(table) == no_entries(),
{
    FxHashMap::default()
}

/// `HashMap::len`: the number of entries.
#[verifier::external_body]
pub(crate) fn table_len(t: &FxHashMap<Vec<u8>, Stats>) -> (n: usize)
    ensures
        n == table_entries(*t).dom().len(),
{
    t.len()
}

/// `HashMap::get`: the aggregate stored under `key`, if there is one.
#[verifier::external_body]
pub(crate) fn table_get(t: &FxHashMap<Vec<u8>, Stats>, key: &[u8]) -> (r: Option<Stats>)
    ensures
        r == if table_entries(*t).contains_key(key@) {
            Some(table_entries(*t)[key@])
        } else {
            None
        },
{
    t.get(key).copied()
}

/// `HashMap::insert`: afterwards the table holds `stats` under `key` and is
/// otherwise unchanged.
#[verifier::external_body]
pub(crate) fn table_insert(t: &mut FxHashMap<Vec<u8>, Stats>, key: Vec<u8>, stats: Stats)
    ensures
        table_entries(*final(t)) == table_entries(*old(t)).insert(key@, stats),
{
    t.insert(key, stats);
}

/// `HashMap::get_mut`, written through: an entry that exists under `key`
/// now holds `stats`; a table without such an entry is unchanged.
#[verifier::external_body]
pub(crate) fn table_replace(t: &mut FxHashMap<Vec<u8>, Stats>, key: &[u8], stats: Stats)
    ensures
        table_entries(*final(t)) == if table_entries(*old(t)).contains_key(key@) {
            table_entries(*old(t)).insert(key@, stats)
        } else {
            table_entries(*old(t))
        },
{
    match t.get_mut(key) {
        Some(slot) => *slot = stats,
        None => {},
    }
}

/// `HashMap::iter`, collected: every entry once, in whatever order the map
/// walks them.
#[verifier::external_body]
pub(crate) fn table_items<'a>(t: &'a FxHashMap<Vec<u8>, Stats>) -> (items: Vec<(&'a Vec<u8>, Stats)>)
    ensures
        lists_entries(items@, table_entries(*t)),
{
    t.iter().map(|(key, stats)| (key, *stats)).collect()
}

} // verus!
