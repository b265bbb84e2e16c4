//! The keyed, position-addressable container that stores the items of one level.
//!
//! The container itself is `indexmap::IndexMap`. Its behaviour is not proved here: the
//! functions of this module state, over the sequence of pairs that a map holds, what the
//! methods of `IndexMap` do, and the rest of the library is verified against those statements.
use indexmap::IndexMap;
use vstd::prelude::*;

verus! {

/// `indexmap::IndexMap`, made known to the verifier as an opaque type.
#[verifier::external_type_specification]
#[verifier::external_body]
#[verifier::reject_recursive_types(K)]
#[verifier::reject_recursive_types(V)]
#[verifier::reject_recursive_types(S)]
pub struct ExIndexMap<K, V, S>(IndexMap<K, V, S>);

/// The key-value pairs that a map holds, listed by position: the pair at position `i` of
/// the map is `pairs(m)[i]`.
pub uninterp spec fn pairs(m: IndexMap<u64, u64>) -> Seq<(u64, u64)>;

/// Whether some pair of `s` has the key `key`.
pub open spec fn has_key(s: Seq<(u64, u64)>, key: u64) -> bool {
    exists|i: int| 0 <= i < s.len() && (#[trigger] s[i]).0 == key
}

/// Whether no two pairs of `s` share a key.
pub open spec fn distinct_keys(s: Seq<(u64, u64)>) -> bool {
    forall|i: int, j: int|
        0 <= i < s.len() && 0 <= j < s.len() && i != j ==> (#[trigger] s[i]).0 != (#[trigger] s[j]).0
}

/// `s` after the pair at position `i` has been removed by moving the last pair into its place.
pub open spec fn swap_removed(s: Seq<(u64, u64)>, i: int) -> Seq<(u64, u64)>
    recommends
        0 <= i < s.len(),
{
    s.update(i, s.last()).drop_last()
}

/// Calls `IndexMap::new`. Claims that the new map holds no pair.
#[verifier::external_body]
pub(crate) fn items_new() -> (m: IndexMap<u64, u64>)
    ensures
        pairs(m) == Seq::<(u64, u64)>::empty(),
{
    IndexMap::new()
}

/// Calls `IndexMap::len`. Claims that it returns the number of pairs held.
#[verifier::external_body]
pub(crate) fn items_len(m: &IndexMap<u64, u64>) -> (n: usize)
    ensures
        n == pairs(*m).len(),
{
    m.len()
}

/// Calls `IndexMap::get_index_of`. Claims that it returns a position at which the key
/// stands, and `None` exactly when no pair has the key.
#[verifier::external_body]
pub(crate) fn items_index_of(m: &IndexMap<u64, u64>, key: u64) -> (r: Option<usize>)
    ensures
        match r {
            Some(i) => i < pairs(*m).len() && pairs(*m)[i as int].0 == key,
            None => !has_key(pairs(*m), key),
        },
{
    m.get_index_of(&key)
}

/// Calls `IndexMap::get_index`. Claims that it returns the pair at position `i`, and
/// `None` exactly when `i` is not below the number of pairs.
#[verifier::external_body]
pub(crate) fn items_get_index(m: &IndexMap<u64, u64>, i: usize) -> (r: Option<(&u64, &u64)>)
    ensures
        match r {
            Some((k, v)) => i < pairs(*m).len() && (*k, *v) == pairs(*m)[i as int],
            None => i >= pairs(*m).len(),
        },
{
    m.get_index(i)
}

/// Calls `IndexMap::get_index_mut`, and hands out the key as a shared reference. Claims
/// that the references point at the key and the value at position `i`, that what is
/// written through the second becomes the value at that position while the key and all
/// other pairs stay, and that `None` comes back, with nothing changed, exactly when `i` is
/// not below the number of pairs.
#[verifier::external_body]
pub(crate) fn items_pair_mut(m: &mut IndexMap<u64, u64>, i: usize) -> (r: Option<(&u64, &mut u64)>)
    ensures
        match r {
            Some((k, v)) => i < pairs(*old(m)).len() && (*k, *v) == pairs(*old(m))[i as int]
                && pairs(*final(m)) == pairs(*old(m)).update(i as int, (*k, *final(v))),
            None => i >= pairs(*old(m)).len() && pairs(*final(m)) == pairs(*old(m)),
        },
{
    m.get_index_mut(i).map(|(k, v)| (&*k, v))
}

/// Calls `IndexMap::iter_mut` and collects what it yields. Claims that the pairs come in
/// the order of their positions, each as a shared reference to the key and a reference for
/// writing to the value, and that what is written through the latter becomes the value at
/// that position, while the keys and the number of pairs stay.
#[verifier::external_body]
pub(crate) fn items_each_mut(m: &mut IndexMap<u64, u64>) -> (r: Vec<(&u64, &mut u64)>)
    ensures
        r@.len() == pairs(*old(m)).len(),
        forall|i: int| 0 <= i < r@.len() ==> (*r@[i].0, *r@[i].1) == pairs(*old(m))[i],
        pairs(*final(m)) == Seq::new(r@.len(), |i: int| (*r@[i].0, *final(r@[i].1))),
{
    m.iter_mut().collect()
}

/// Calls `IndexMap::insert_full`. Claims that, where a pair with the key is held, its value
/// is replaced in place and the position and the former value are returned; and that
/// otherwise the pair is appended as the last one, and its position and `None` are returned.
#[verifier::external_body]
pub(crate) fn items_insert(m: &mut IndexMap<u64, u64>, key: u64, value: u64) -> (r: (
    usize,
    Option<u64>,
))
    ensures
        has_key(pairs(*old(m)), key) ==> r.0 < pairs(*old(m)).len() && pairs(*old(m))[r.0 as int].0
            == key && r.1 == Some(pairs(*old(m))[r.0 as int].1) && pairs(*final(m)) == pairs(
            *old(m),
        ).update(r.0 as int, (key, value)),
        !has_key(pairs(*old(m)), key) ==> r.0 == pairs(*old(m)).len() && r.1 is None && pairs(
            *final(m),
        ) == pairs(*old(m)).push((key, value)),
{
    m.insert_full(key, value)
}

/// Calls `IndexMap::swap_remove_index`. Claims that, for a position below the number of
/// pairs, the pair there is returned and the last pair takes its place; and that otherwise
/// `None` is returned and nothing changes.
#[verifier::external_body]
pub(crate) fn items_swap_remove(m: &mut IndexMap<u64, u64>, i: usize) -> (r: Option<(u64, u64)>)
    ensures
        i < pairs(*old(m)).len() ==> r == Some(pairs(*old(m))[i as int]) && pairs(*final(m))
            == swap_removed(pairs(*old(m)), i as int),
        i >= pairs(*old(m)).len() ==> r is None && pairs(*final(m)) == pairs(*old(m)),
{
    m.swap_remove_index(i)
}

} // verus!
