//! Partition keys and where their state is kept.

use dashmap::DashMap;
use vstd::prelude::*;

verus! {

/// The concurrent map of `dashmap`.
#[verifier::external_type_specification]
#[verifier::external_body]
#[verifier::reject_recursive_types(K)]
#[verifier::reject_recursive_types(V)]
#[verifier::reject_recursive_types(S)]
pub struct ExDashMap<K, V, S>(DashMap<K, V, S>);

/// What a map of keys to places holds.
pub uninterp spec fn slots(m: DashMap<u64, usize>) -> Map<u64, usize>;

/// A map that holds nothing.
pub open spec fn no_slots() -> Map<u64, usize> {
    Map::empty()
}

/// `DashMap::new`: a map that holds nothing.
#[verifier::external_body]
pub(crate) fn new_slots() -> (m: DashMap<u64, usize>)
    ensures
        slots(m) == no_slots(),
{
    DashMap::new()
}

/// `DashMap::get`: the value of a key, if the map holds it.
#[verifier::external_body]
pub(crate) fn slot_of(m: &DashMap<u64, usize>, key: u64) -> (out: Option<usize>)
    ensures
        (out is Some) == slots(*m).dom().contains(key),
        out is Some ==> out->Some_0 == slots(*m)[key],
{
    m.get(&key).map(|r| *r)
}

/// `DashMap::insert`: gives a key a value, and leaves every other key alone.
#[verifier::external_body]
pub(crate) fn set_slot(m: &mut DashMap<u64, usize>, key: u64, value: usize)
    ensures
        slots(*final(m)) == slots(*old(m)).insert(key, value),
{
    m.insert(key, value);
}

/// `DashMap::iter`: every key once, in an order that is left open.
#[verifier::external_body]
pub(crate) fn slot_keys(m: &DashMap<u64, usize>) -> (out: Vec<u64>)
    ensures
        out@.no_duplicates(),
        forall|k: u64| #[trigger] out@.contains(k) <==> slots(*m).dom().contains(k),
{
    m.iter().map(|e| *e.key()).collect()
}

} // verus!
