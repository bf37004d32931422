use vstd::prelude::*;
use crate::types::Addr;

verus! {

// The per-session shard table is kept in an `indexmap::IndexMap`, which
// preserves insertion order; the round-robin cursor walks that order.
// Verus sees the map through `shard_entries`, the ordered sequence of
// (shard id, address) pairs it holds, and through the wrappers below.

#[verifier::external_type_specification]
#[verifier::external_body]
#[verifier::reject_recursive_types(K)]
#[verifier::reject_recursive_types(V)]
#[verifier::reject_recursive_types(S)]
pub struct ExIndexMap<K, V, S>(indexmap::IndexMap<K, V, S>);

/// The (shard id, address) pairs a map holds, in insertion order.
pub uninterp spec fn shard_entries(m: indexmap::IndexMap<u8, Addr>) -> Seq<(u8, Addr)>;

/// Relies on indexmap::IndexMap::new: creates an empty map.
#[verifier::external_body]
pub(crate) fn imap_new() -> (m: indexmap::IndexMap<u8, Addr>)
    ensures
        shard_entries(m) == Seq::<(u8, Addr)>::empty(),
{
    indexmap::IndexMap::new()
}

/// Relies on indexmap::IndexMap::len: the number of pairs.
#[verifier::external_body]
pub(crate) fn imap_len(m: &indexmap::IndexMap<u8, Addr>) -> (n: usize)
    ensures
        n == shard_entries(*m).len(),
{
    m.len()
}

/// Relies on indexmap::IndexMap::get_index: the pair at a position of the
/// insertion order, or `None` past the end.
#[verifier::external_body]
pub(crate) fn imap_get_index(m: &indexmap::IndexMap<u8, Addr>, i: usize) -> (r: Option<(u8, Addr)>)
    ensures
        i < shard_entries(*m).len() ==> r == Some(shard_entries(*m)[i as int]),
        i >= shard_entries(*m).len() ==> r is None,
{
    m.get_index(i).map(|(k, v)| (*k, *v))
}

/// Relies on indexmap::IndexMap::get_index_of: the position of a key in the
/// insertion order, or `None` if the key is absent.
#[verifier::external_body]
pub(crate) fn imap_get_index_of(m: &indexmap::IndexMap<u8, Addr>, k: u8) -> (r: Option<usize>)
    ensures
        match r {
            Some(i) => i < shard_entries(*m).len() && shard_entries(*m)[i as int].0 == k,
            None => forall|j: int|
                0 <= j < shard_entries(*m).len() ==> shard_entries(*m)[j].0 != k,
        },
{
    m.get_index_of(&k)
}

/// Relies on indexmap::IndexMap::insert: an existing key keeps its place in
/// the order and only its value is replaced (the old value is returned); a
/// new key is appended last.
#[verifier::external_body]
pub(crate) fn imap_insert(m: &mut indexmap::IndexMap<u8, Addr>, k: u8, v: Addr) -> (prev: Option<Addr>)
    ensures
        (forall|j: int|
            0 <= j < shard_entries(*old(m)).len() ==> shard_entries(*old(m))[j].0 != k) ==> (
        shard_entries(*final(m)) == shard_entries(*old(m)).push((k, v)) && prev is None),
        forall|i: int|
            0 <= i < shard_entries(*old(m)).len() && shard_entries(*old(m))[i].0 == k ==> (
            shard_entries(*final(m)) == shard_entries(*old(m)).update(i, (k, v)) && prev == Some(
                shard_entries(*old(m))[i].1,
            )),
{
    m.insert(k, v)
}

/// Relies on indexmap::IndexMap::shift_remove: removes the key's pair and
/// shifts the pairs after it down, preserving their relative order; returns
/// `None` and leaves the map as it was if the key is absent.
#[verifier::external_body]
pub(crate) fn imap_shift_remove(m: &mut indexmap::IndexMap<u8, Addr>, k: u8) -> (prev: Option<Addr>)
    ensures
        (forall|j: int|
            0 <= j < shard_entries(*old(m)).len() ==> shard_entries(*old(m))[j].0 != k) ==> (
        shard_entries(*final(m)) == shard_entries(*old(m)) && prev is None),
        forall|i: int|
            0 <= i < shard_entries(*old(m)).len() && shard_entries(*old(m))[i].0 == k ==> (
            shard_entries(*final(m)) == shard_entries(*old(m)).remove(i) && prev == Some(
                shard_entries(*old(m))[i].1,
            )),
{
    m.shift_remove(&k)
}

/// Relies on indexmap::IndexMap::iter: yields the pairs in insertion order.
#[verifier::external_body]
pub(crate) fn imap_pairs(m: &indexmap::IndexMap<u8, Addr>) -> (v: Vec<(u8, Addr)>)
    ensures
        v@ == shard_entries(*m),
{
    m.iter().map(|(k, v)| (*k, *v)).collect()
}

} // verus!
