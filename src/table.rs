//! A hash table from key bytes to statistics, backed by rustc_hash's FxHashMap.
use crate::stats::{CityStats, Summary};
use rustc_hash::FxHashMap;
use vstd::prelude::*;

verus! {

/// Key bytes to statistics, each key held once: a `rustc_hash::FxHashMap`
/// (std's `HashMap` with the Fx hasher), seen through `table_contents` and the
/// wrappers below.
#[verifier::external_body]
pub struct StatsTable {
    inner: FxHashMap<Vec<u8>, CityStats>,
}

/// What a table holds.
pub uninterp spec fn table_contents(t: StatsTable) -> Map<Seq<u8>, CityStats>;

impl View for StatsTable {
    type V = Map<Seq<u8>, Summary>;

    open spec fn view(&self) -> Map<Seq<u8>, Summary> {
        Map::new(
            |k: Seq<u8>| table_contents(*self).contains_key(k),
            |k: Seq<u8>| table_contents(*self)[k]@,
        )
    }
}

pub open spec fn empty_contents() -> Map<Seq<u8>, CityStats> {
    Map::empty()
}

/// Relies on `HashMap::default` (with `FxBuildHasher`): a map with no entries.
#[verifier::external_body]
pub(crate) fn new_table() -> (r: StatsTable)
    ensures
        table_contents(r) =~= empty_contents(),
{
    StatsTable { inner: FxHashMap::default() }
}

/// Relies on `HashMap::get`: the value stored under `key`, if there is one.
#[verifier::external_body]
pub(crate) fn lookup(t: &StatsTable, key: &[u8]) -> (r: Option<CityStats>)
    ensures
        r == (if table_contents(*t).contains_key(key@) {
            Some(table_contents(*t)[key@])
        } else {
            None
        }),
{
    t.inner.get(key).copied()
}

/// Relies on `HashMap::insert`: `key` maps to `s` afterwards, other keys keep
/// their values.
#[verifier::external_body]
pub(crate) fn store(t: &mut StatsTable, key: &[u8], s: CityStats)
    ensures
        table_contents(*final(t)) == table_contents(*old(t)).insert(key@, s),
{
    t.inner.insert(key.to_vec(), s);
}

/// Relies on `HashMap::iter`: every entry once, in an unspecified order.
#[verifier::external_body]
pub(crate) fn entries(t: &StatsTable) -> (r: Vec<(Vec<u8>, CityStats)>)
    ensures
        forall|i: int|
            0 <= i < r@.len() ==> table_contents(*t).contains_key(#[trigger] r@[i].0@)
                && table_contents(*t)[r@[i].0@] == r@[i].1,
        forall|i: int, j: int| 0 <= i < j < r@.len() ==> r@[i].0@ != r@[j].0@,
        forall|k: Seq<u8>|
            table_contents(*t).contains_key(k) ==> exists|i: int|
                0 <= i < r@.len() && (#[trigger] r@[i].0@) == k,
{
    t.inner.iter().map(|(k, s)| (k.clone(), *s)).collect()
}

} // verus!
