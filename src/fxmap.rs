//! The hash maps of this library are `rustc_hash::FxHashMap`s: std's
//! `HashMap` with the deterministic Fx hasher. Verus has no model of that
//! hasher, so each map operation the library uses is stated here over the
//! map's view, a `Map` from keys to values.
use rustc_hash::{FxBuildHasher, FxHashMap};
use vstd::prelude::*;

verus! {

/// The hasher builder of `FxHashMap`; a unit struct.
#[verifier::external_type_specification]
#[verifier::external_body]
pub struct ExFxBuildHasher(FxBuildHasher);

/// A map keyed by grid cell.
pub type CellMap<V> = FxHashMap<(i16, i16), V>;

/// An empty map keyed by grid cell.
pub(crate) fn cell_map_new<V>() -> (m: CellMap<V>)
    ensures
        m@ == Map::<(i16, i16), V>::empty(),
{
    FxHashMap::default()
}

/// Relies on `HashMap::get`: the value stored under `k`, if any. The key
/// type `(i16, i16)` has std's structural `Eq` and `Hash`.
#[verifier::external_body]
pub(crate) fn cell_get<V>(m: &CellMap<V>, k: (i16, i16)) -> (r: Option<&V>)
    ensures
        match r {
            Some(v) => m@.contains_key(k) && m@[k] == *v,
            None => !m@.contains_key(k),
        },
{
    m.get(&k)
}

/// Relies on `HashMap::insert`: afterwards `k` maps to `v`, the rest is kept.
#[verifier::external_body]
pub(crate) fn cell_insert<V>(m: &mut CellMap<V>, k: (i16, i16), v: V)
    ensures
        final(m)@ == old(m)@.insert(k, v),
{
    m.insert(k, v);
}

/// Relies on `HashMap::remove`: takes the value under `k` out of the map.
#[verifier::external_body]
pub(crate) fn cell_remove<V>(m: &mut CellMap<V>, k: (i16, i16)) -> (r: Option<V>)
    ensures
        final(m)@ == old(m)@.remove(k),
        match r {
            Some(v) => old(m)@.contains_key(k) && old(m)@[k] == v,
            None => !old(m)@.contains_key(k),
        },
{
    m.remove(&k)
}

/// Every key of a map listed once, each with a copy of its id list.
pub open spec fn lists_cells(
    cells: Seq<((i16, i16), Seq<u32>)>,
    m: Map<(i16, i16), Seq<u32>>,
) -> bool {
    &&& cells.len() == m.dom().len()
    &&& forall|i: int, j: int| 0 <= i < j < cells.len() ==> cells[i].0 != cells[j].0
    &&& forall|i: int| 0 <= i < cells.len() ==> #[trigger] m.contains_key(cells[i].0) && m[cells[i].0]
        == cells[i].1
    &&& forall|k: (i16, i16)| #[trigger] m.contains_key(k) ==> exists|i: int|
        0 <= i < cells.len() && cells[i].0 == k
}

/// The id lists of a grid map, as sequences.
pub open spec fn cells_view(m: Map<(i16, i16), Vec<u32>>) -> Map<(i16, i16), Seq<u32>> {
    m.map_values(|v: Vec<u32>| v@)
}

/// Relies on `HashMap::iter`: visits every entry exactly once, in an order
/// that the map chooses. The entries are copied out.
#[verifier::external_body]
pub(crate) fn cell_entries(m: &CellMap<Vec<u32>>) -> (r: Vec<((i16, i16), Vec<u32>)>)
    ensures
        lists_cells(r@.map_values(|e: ((i16, i16), Vec<u32>)| (e.0, e.1@)), cells_view(m@)),
{
    m.iter().map(|(k, v)| (*k, v.clone())).collect()
}

/// A map keyed by text.
pub type TextMap<V> = FxHashMap<String, V>;

/// An empty map keyed by text.
pub(crate) fn text_map_new<V>() -> (m: TextMap<V>)
    ensures
        m@ == Map::<String, V>::empty(),
{
    FxHashMap::default()
}

/// The value stored under a key whose text is `k`, if any.
pub open spec fn text_lookup<V>(m: Map<String, V>, k: Seq<char>) -> Option<V> {
    if exists|key: String| #[trigger] m.contains_key(key) && key@ == k {
        Some(m[choose|key: String| #[trigger] m.contains_key(key) && key@ == k])
    } else {
        None
    }
}

/// Relies on `HashMap::get` with a `&str` key: `String`'s `Eq` and `Hash`
/// agree with those of its text, so the map holds at most one key with the
/// text `k`, and `get` returns its value.
#[verifier::external_body]
pub(crate) fn text_get<'a, V>(m: &'a TextMap<V>, k: &str) -> (r: Option<&'a V>)
    ensures
        match r {
            Some(v) => text_lookup(m@, k@) == Some(*v),
            None => text_lookup(m@, k@) is None,
        },
{
    m.get(k)
}

/// The map after inserting `v` under `k`: when a key with the same text is
/// already present, that key stays and only its value changes.
pub open spec fn text_put<V>(m: Map<String, V>, k: String, v: V) -> Map<String, V> {
    if exists|key: String| #[trigger] m.contains_key(key) && key@ == k@ {
        m.insert(choose|key: String| #[trigger] m.contains_key(key) && key@ == k@, v)
    } else {
        m.insert(k, v)
    }
}

/// Relies on `HashMap::insert`: the value under `k` becomes `v`; a key
/// equal to `k` (same text) that is already present is kept, not replaced.
#[verifier::external_body]
pub(crate) fn text_insert<V>(m: &mut TextMap<V>, k: String, v: V)
    ensures
        final(m)@ == text_put(old(m)@, k, v),
{
    m.insert(k, v);
}

/// A map keyed by a 32-bit id.
pub type IdMap<V> = FxHashMap<u32, V>;

/// An empty map keyed by id.
pub(crate) fn id_map_new<V>() -> (m: IdMap<V>)
    ensures
        m@ == Map::<u32, V>::empty(),
{
    FxHashMap::default()
}

/// Relies on `HashMap::get`: the value stored under `k`, if any. The key
/// type `u32` has std's `Eq` and `Hash`.
#[verifier::external_body]
pub(crate) fn id_get<V>(m: &IdMap<V>, k: u32) -> (r: Option<&V>)
    ensures
        match r {
            Some(v) => m@.contains_key(k) && m@[k] == *v,
            None => !m@.contains_key(k),
        },
{
    m.get(&k)
}

/// Relies on `HashMap::insert`: afterwards `k` maps to `v`, the rest is kept.
#[verifier::external_body]
pub(crate) fn id_insert<V>(m: &mut IdMap<V>, k: u32, v: V)
    ensures
        final(m)@ == old(m)@.insert(k, v),
{
    m.insert(k, v);
}

} // verus!
