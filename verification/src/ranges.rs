//! Maps from ranges of addresses to numbers, as `rangemap::RangeMap` keeps them.
//!
//! The map is modelled address by address. The ranges that it stores are the longest stretches of
//! consecutive addresses with one value.

use rangemap::RangeMap;
use vstd::prelude::*;

verus! {

/// `rangemap::RangeMap`, kept opaque.
#[verifier::external_type_specification]
#[verifier::external_body]
#[verifier::reject_recursive_types(K)]
#[verifier::reject_recursive_types(V)]
pub struct ExRangeMap<K, V>(RangeMap<K, V>);

/// The addresses that a range map covers, each with its value.
pub uninterp spec fn entries(map: RangeMap<u64, u64>) -> Map<u64, u64>;

/// `start..end` is a longest stretch of addresses that `m` maps to `value`.
pub open spec fn is_run(m: Map<u64, u64>, start: u64, end: u64, value: u64) -> bool {
    &&& start < end
    &&& forall|a: u64| start <= a < end ==> #[trigger] m.contains_key(a) && m[a] == value
    &&& !(start > 0 && m.contains_key((start - 1) as u64) && m[(start - 1) as u64] == value)
    &&& !(m.contains_key(end) && m[end] == value)
}

/// The map without any address.
pub open spec fn no_entries() -> Map<u64, u64> {
    Map::empty()
}

/// `m` with every address of `start..end` mapped to `value`.
pub open spec fn with_range(m: Map<u64, u64>, start: u64, end: u64, value: u64) -> Map<u64, u64> {
    Map::new(
        |a: u64| start <= a < end || m.contains_key(a),
        |a: u64|
            if start <= a < end {
                value
            } else {
                m[a]
            },
    )
}

/// `list` holds runs of `m`, lowest first.
pub open spec fn are_runs(m: Map<u64, u64>, list: Seq<(u64, u64, u64)>) -> bool {
    &&& forall|i: int|
        0 <= i < list.len() ==> is_run(m, (#[trigger] list[i]).0, list[i].1, list[i].2)
    &&& forall|i: int, j: int|
        0 <= i < j < list.len() ==> (#[trigger] list[i]).1 <= (#[trigger] list[j]).0
}

/// `list` holds a range that covers `a`.
pub open spec fn covers(list: Seq<(u64, u64, u64)>, a: u64) -> bool {
    exists|i: int| 0 <= i < list.len() && (#[trigger] list[i]).0 <= a < list[i].1
}

/// Of the runs of `m`, `list` holds those that end behind `start` and begin before `end`.
pub open spec fn are_overlaps(
    m: Map<u64, u64>,
    start: u64,
    end: u64,
    list: Seq<(u64, u64, u64)>,
) -> bool {
    &&& forall|i: int| 0 <= i < list.len() ==> start < (#[trigger] list[i]).1 && list[i].0 < end
    &&& forall|s: u64, e: u64, v: u64|
        #[trigger] is_run(m, s, e, v) && start < e && s < end ==> list.contains((s, e, v))
}

/// `m` has a value for every address of `start..end`.
pub open spec fn is_covered(m: Map<u64, u64>, start: u64, end: u64) -> bool {
    forall|a: u64| start <= a < end ==> #[trigger] m.contains_key(a)
}

/// `rangemap::RangeMap::new`: a map that covers nothing.
#[verifier::external_body]
pub(crate) fn new_range_map() -> (r: RangeMap<u64, u64>)
    ensures
        entries(r) == no_entries(),
{
    RangeMap::new()
}

/// `rangemap::RangeMap::insert`: gives every address of the range the value, whatever it had
/// before. The call panics on an empty range.
#[verifier::external_body]
pub(crate) fn insert_range(map: &mut RangeMap<u64, u64>, start: u64, end: u64, value: u64)
    requires
        start < end,
    ensures
        entries(*final(map)) == with_range(entries(*old(map)), start, end, value),
{
    map.insert(start..end, value)
}

/// `rangemap::RangeMap::get`: the value at an address.
#[verifier::external_body]
pub(crate) fn value_at(map: &RangeMap<u64, u64>, address: u64) -> (r: Option<u64>)
    ensures
        r == (if entries(*map).contains_key(address) {
            Some(entries(*map)[address])
        } else {
            None::<u64>
        }),
{
    map.get(&address).copied()
}

/// `rangemap::RangeMap::get_key_value`: the stored range that covers an address, which is the
/// run around it, since neighbours with one value are joined.
#[verifier::external_body]
pub(crate) fn run_at(map: &RangeMap<u64, u64>, address: u64) -> (r: Option<(u64, u64, u64)>)
    ensures
        match r {
            Some(run) => run.0 <= address < run.1 && is_run(entries(*map), run.0, run.1, run.2),
            None => !entries(*map).contains_key(address),
        },
{
    map.get_key_value(&address).map(|(range, value)| (range.start, range.end, *value))
}

/// `rangemap::RangeMap::gaps`: whether the iterator over the parts of `start..end` that are not
/// covered yields anything.
#[verifier::external_body]
pub(crate) fn has_gap(map: &RangeMap<u64, u64>, start: u64, end: u64) -> (r: bool)
    requires
        start < end,
    ensures
        r == !is_covered(entries(*map), start, end),
{
    map.gaps(&(start..end)).next().is_some()
}

/// `rangemap::RangeMap::overlapping`: the stored ranges that end behind `start` and begin before
/// `end`, lowest first.
#[verifier::external_body]
pub(crate) fn runs_overlapping(map: &RangeMap<u64, u64>, start: u64, end: u64) -> (r: Vec<
    (u64, u64, u64),
>)
    ensures
        are_runs(entries(*map), r@),
        are_overlaps(entries(*map), start, end, r@),
{
    map.overlapping(start..end).map(|(range, value)| (range.start, range.end, *value)).collect()
}

/// `rangemap::RangeMap::iter`: all stored ranges, lowest first.
#[verifier::external_body]
pub(crate) fn all_runs(map: &RangeMap<u64, u64>) -> (r: Vec<(u64, u64, u64)>)
    ensures
        are_runs(entries(*map), r@),
        forall|a: u64| #[trigger] entries(*map).contains_key(a) ==> covers(r@, a),
{
    map.iter().map(|(range, value)| (range.start, range.end, *value)).collect()
}

} // verus!
