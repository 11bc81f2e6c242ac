//! Trusted declarations for the outside collections the search uses.
use fxhash::{FxHashMap, FxHasher};
use smallvec::SmallVec;
use std::hash::BuildHasherDefault;
use vstd::prelude::*;

verus! {

/// A short list of cell indices, kept inline in a `SmallVec` of eight.
#[verifier::external_body]
pub struct CellList {
    items: SmallVec<[u32; 8]>,
}

/// The cell indices that a list holds, in order.
pub uninterp spec fn small_items(v: CellList) -> Seq<u32>;

/// Relies on `SmallVec::new`: a new vector holds no items.
#[verifier::external_body]
pub(crate) fn small_new() -> (r: CellList)
    ensures
        small_items(r) == Seq::<u32>::empty(),
{
    CellList { items: SmallVec::new() }
}

/// Relies on `SmallVec::push`: the item is appended at the end; it panics
/// only when the length would overflow `usize`.
#[verifier::external_body]
pub(crate) fn small_push(v: &mut CellList, x: u32)
    requires
        small_items(*old(v)).len() < usize::MAX,
    ensures
        small_items(*final(v)) == small_items(*old(v)).push(x),
{
    v.items.push(x)
}

/// Relies on `SmallVec::len`: the number of items held.
#[verifier::external_body]
pub(crate) fn small_len(v: &CellList) -> (r: usize)
    ensures
        r == small_items(*v).len(),
{
    v.items.len()
}

/// Relies on indexing a `SmallVec`: the item at position `i`, which panics
/// only out of bounds.
#[verifier::external_body]
pub(crate) fn small_get(v: &CellList, i: usize) -> (r: u32)
    requires
        i < small_items(*v).len(),
    ensures
        r == small_items(*v)[i as int],
{
    v.items[i]
}

#[verifier::external_type_specification]
#[verifier::external_body]
pub struct ExFxHasher(FxHasher);

#[verifier::external_type_specification]
#[verifier::external_body]
#[verifier::reject_recursive_types(H)]
pub struct ExBuildHasherDefault<H>(BuildHasherDefault<H>);

/// Relies on `HashMap::insert` under fxhash's hasher, which hashes a key the
/// same way every time: afterwards `k` maps to `v` and every other key is kept.
#[verifier::external_body]
pub(crate) fn map_insert<V>(m: &mut FxHashMap<u32, V>, k: u32, v: V)
    ensures
        final(m)@ == old(m)@.insert(k, v),
{
    m.insert(k, v);
}

/// Relies on `HashMap::get` under fxhash's hasher: the value stored for `k`,
/// if any.
#[verifier::external_body]
pub(crate) fn map_get<V: Copy>(m: &FxHashMap<u32, V>, k: u32) -> (r: Option<V>)
    ensures
        m@.contains_key(k) ==> r == Some(m@[k]),
        !m@.contains_key(k) ==> r is None,
{
    m.get(&k).copied()
}

} // verus!
