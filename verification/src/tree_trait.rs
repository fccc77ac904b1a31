//! The interface an ordered map with order statistics offers.

use crate::sorted_seq::num_below;
use vstd::prelude::*;

verus! {

/// An ordered key-value container with rank and selection queries.
///
/// An implementor exposes its contents in two spec views: `bst_map`, the
/// key-value association, and `bst_entries`, the same entries in ascending
/// key order. `bst_inv` is the implementor's structural invariant; every
/// operation preserves it and every contract assumes it.
pub trait BinarySearchTree: Sized {
    /// The contents as a map from keys to values.
    spec fn bst_map(&self) -> Map<i64, i64>;

    /// The contents as a sequence of entries in ascending key order.
    spec fn bst_entries(&self) -> Seq<(i64, i64)>;

    /// The implementor's structural invariant.
    spec fn bst_inv(&self) -> bool;

    /// Binds `key` to `value`; returns whether the key was absent.
    fn insert(&mut self, key: i64, value: i64) -> (r: bool)
        requires
            old(self).bst_inv(),
            old(self).bst_entries().len() < usize::MAX,
        ensures
            final(self).bst_inv(),
            final(self).bst_map() == old(self).bst_map().insert(key, value),
            r == !old(self).bst_map().dom().contains(key),
    ;

    /// Removes `key`, returning the value it was bound to.
    fn remove(&mut self, key: i64) -> (r: Option<i64>)
        requires
            old(self).bst_inv(),
        ensures
            final(self).bst_inv(),
            final(self).bst_map() == old(self).bst_map().remove(key),
            r == (if old(self).bst_map().dom().contains(key) {
                Some(old(self).bst_map()[key])
            } else {
                None::<i64>
            }),
    ;

    /// Looks up the value bound to `key`.
    fn search(&self, key: i64) -> (r: Option<i64>)
        requires
            self.bst_inv(),
        ensures
            r == (if self.bst_map().dom().contains(key) {
                Some(self.bst_map()[key])
            } else {
                None::<i64>
            }),
    ;

    /// Hands out a mutable borrow of the value bound to `key`; the set of
    /// keys stays as it was, whatever the caller writes through it.
    fn search_mut(&mut self, key: i64) -> (r: Option<&mut i64>)
        requires
            old(self).bst_inv(),
        ensures
            final(self).bst_inv(),
            !old(self).bst_map().dom().contains(key) ==> r is None && *final(self) == *old(self),
            old(self).bst_map().dom().contains(key) ==> {
                &&& r is Some
                &&& *r.unwrap() == old(self).bst_map()[key]
                &&& final(self).bst_map() == old(self).bst_map().insert(key, *final(r.unwrap()))
            },
    ;

    /// The entry with the least key, or nothing when the container is
    /// empty.
    fn min(&self) -> (r: Option<(i64, i64)>)
        requires
            self.bst_inv(),
        ensures
            self.bst_entries().len() == 0 ==> r is None,
            self.bst_entries().len() > 0 ==> r == Some(self.bst_entries()[0]),
    ;

    /// The entry with the greatest key, or nothing when the container is
    /// empty.
    fn max(&self) -> (r: Option<(i64, i64)>)
        requires
            self.bst_inv(),
        ensures
            self.bst_entries().len() == 0 ==> r is None,
            self.bst_entries().len() > 0 ==> r == Some(self.bst_entries().last()),
    ;

    /// How many entries the container holds.
    fn size(&self) -> (r: usize)
        requires
            self.bst_inv(),
        ensures
            r == self.bst_entries().len(),
    ;

    /// Whether the container holds no entry.
    fn is_empty(&self) -> (r: bool)
        requires
            self.bst_inv(),
        ensures
            r == (self.bst_entries().len() == 0),
    {
        self.size() == 0
    }

    /// Selects the zero-indexed `order`-th smallest entry.
    fn find_by_order(&self, order: usize) -> (r: Option<(i64, i64)>)
        requires
            self.bst_inv(),
        ensures
            order < self.bst_entries().len() ==> r == Some(self.bst_entries()[order as int]),
            order >= self.bst_entries().len() ==> r is None,
    ;

    /// Counts the keys strictly below `key`.
    fn order_of_key(&self, key: i64) -> (r: usize)
        requires
            self.bst_inv(),
        ensures
            r == num_below(self.bst_entries(), key),
    ;
}

} // verus!
