//! Trusted interface to `btreemultimap::BTreeMultiMap`, the price-level map
//! that stores a book side's resting orders.
//!
//! The map's contents are named by the uninterpreted function `level_pairs`:
//! the flattened sequence of `(key, value)` pairs in iteration order, i.e.
//! ascending key, and a key's values in insertion order.  Each wrapper's
//! contract states, over that name, what the crate's source shows of the one
//! method it calls.

use vstd::prelude::*;
use btreemultimap::BTreeMultiMap;
use crate::book_model::{count_le, count_lt, has_key, pairs_sorted, ticks_ascending, ticks_cover, vals};
use crate::order_data::OrderData;

verus! {

#[verifier::external_type_specification]
#[verifier::external_body]
#[verifier::reject_recursive_types(K)]
#[verifier::reject_recursive_types(V)]
pub struct ExBTreeMultiMap<K, V>(BTreeMultiMap<K, V>);

/// The resting contents of a price-level map: the flattened sequence of
/// `(key, value)` pairs in iteration order.
pub uninterp spec fn level_pairs(m: BTreeMultiMap<i32, OrderData>) -> Seq<(i32, OrderData)>;

/// Relies on `BTreeMultiMap::new`: creates an empty map.
#[verifier::external_body]
pub(crate) fn level_map_new() -> (m: BTreeMultiMap<i32, OrderData>)
    ensures
        level_pairs(m) == Seq::<(i32, OrderData)>::empty(),
{
    BTreeMultiMap::new()
}

/// Relies on `BTreeMultiMap::insert`: pushes the value at the end of the
/// key's vector, creating the vector if the key is absent.  In iteration
/// order the new pair therefore lands right after every pair whose key is at
/// most `key`, and the underlying `BTreeMap` keeps the keys sorted.
#[verifier::external_body]
pub(crate) fn level_map_insert(m: &mut BTreeMultiMap<i32, OrderData>, key: i32, value: OrderData)
    ensures
        pairs_sorted(level_pairs(*old(m))) ==> level_pairs(*final(m)) == level_pairs(
            *old(m),
        ).insert(count_le(level_pairs(*old(m)), key), (key, value)),
        pairs_sorted(level_pairs(*old(m))) ==> pairs_sorted(level_pairs(*final(m))),
{
    m.insert(key, value);
}

/// Relies on `BTreeMultiMap::remove`: removes the key's whole vector and
/// returns it.  In iteration order that vector is the contiguous run of
/// pairs carrying `key`, so the remaining contents are the pairs on either
/// side of that run.
#[verifier::external_body]
pub(crate) fn level_map_remove(m: &mut BTreeMultiMap<i32, OrderData>, key: i32) -> (r: Option<
    Vec<OrderData>,
>)
    ensures
        pairs_sorted(level_pairs(*old(m))) ==> {
            let s = level_pairs(*old(m));
            &&& level_pairs(*final(m)) == s.take(count_lt(s, key)) + s.skip(count_le(s, key))
            &&& pairs_sorted(level_pairs(*final(m)))
            &&& match r {
                Some(v) => v@ == vals(s.subrange(count_lt(s, key), count_le(s, key))),
                None => count_lt(s, key) == count_le(s, key),
            }
        },
        has_key(level_pairs(*old(m)), key) ==> r is Some,
{
    m.remove(&key)
}

/// Relies on `BTreeMultiMap::get_vec`: borrows the key's vector, which in
/// iteration order is the contiguous run of pairs carrying `key`.
#[verifier::external_body]
pub(crate) fn level_map_get_vec<'a>(m: &'a BTreeMultiMap<i32, OrderData>, key: i32) -> (r: Option<
    &'a Vec<OrderData>,
>)
    ensures
        pairs_sorted(level_pairs(*m)) ==> match r {
            Some(v) => v@ == vals(
                level_pairs(*m).subrange(
                    count_lt(level_pairs(*m), key),
                    count_le(level_pairs(*m), key),
                ),
            ),
            None => count_lt(level_pairs(*m), key) == count_le(level_pairs(*m), key),
        },
        has_key(level_pairs(*m), key) ==> r is Some,
{
    m.get_vec(&key)
}

/// Relies on `BTreeMultiMap::iter`: pairs are yielded in ascending key order
/// with a key's values in insertion order, so the first pair yielded is the
/// head of the flattened contents.
#[verifier::external_body]
pub(crate) fn level_map_first_key(m: &BTreeMultiMap<i32, OrderData>) -> (r: Option<i32>)
    ensures
        (r is Some) <==> level_pairs(*m).len() > 0,
        match r {
            Some(k) => level_pairs(*m).len() > 0 && k == level_pairs(*m).first().0,
            None => level_pairs(*m).len() == 0,
        },
{
    match m.iter().next() {
        Some((k, _)) => Some(*k),
        None => None,
    }
}

/// Relies on `BTreeMultiMap::iter` (from the back): the last pair yielded is
/// the tail of the flattened contents.
#[verifier::external_body]
pub(crate) fn level_map_last_key(m: &BTreeMultiMap<i32, OrderData>) -> (r: Option<i32>)
    ensures
        (r is Some) <==> level_pairs(*m).len() > 0,
        match r {
            Some(k) => level_pairs(*m).len() > 0 && k == level_pairs(*m).last().0,
            None => level_pairs(*m).len() == 0,
        },
{
    match m.iter().next_back() {
        Some((k, _)) => Some(*k),
        None => None,
    }
}


/// Relies on `BTreeMultiMap::keys`: the underlying `BTreeMap`'s keys, in
/// strictly ascending order.  Every key that carries a pair is among them
/// (a key left with an empty vector would also be listed, so the converse
/// is not stated).
#[verifier::external_body]
pub(crate) fn level_map_keys(m: &BTreeMultiMap<i32, OrderData>) -> (r: Vec<i32>)
    ensures
        ticks_ascending(r@),
        ticks_cover(r@, level_pairs(*m)),
{
    m.keys().copied().collect()
}

} // verus!
