//! A set-only facade over the AVL tree engine.
//!
//! Carries keys with no associated value and mirrors the map's operations,
//! minus the value-returning variants. Contracts speak of `self@`, the set
//! of keys, and `self.ascending()`, the keys in ascending order.

use crate::avl_tree::AVLTreeMap;
use crate::sorted_seq::{has_elem, num_elems_below, sorted_ascending};
use vstd::prelude::*;

verus! {

/// An ordered set of `i64` keys with logarithmic insertion, removal,
/// membership, and order-statistics queries.
pub struct AVLTreeSet {
    map: AVLTreeMap,
}

impl View for AVLTreeSet {
    type V = Set<i64>;

    closed spec fn view(&self) -> Set<i64> {
        self.map@.dom()
    }
}

impl AVLTreeSet {
    /// The underlying tree's invariant.
    pub closed spec fn well_formed(self) -> bool {
        self.map.well_formed()
    }

    /// The keys in ascending order.
    pub closed spec fn ascending(self) -> Seq<i64> {
        self.map.inorder().map_values(|p: (i64, i64)| p.0)
    }

    /// Creates an empty set.
    pub fn new() -> (r: Self)
        ensures
            r.well_formed(),
            r@ == Set::<i64>::empty(),
            r.ascending() == Seq::<i64>::empty(),
    {
        let r = AVLTreeSet { map: AVLTreeMap::new() };
        proof {
            assert(r@ =~= Set::<i64>::empty());
            assert(r.ascending() =~= Seq::<i64>::empty());
        }
        r
    }

    /// Adds `key`; returns whether it was absent.
    pub fn insert(&mut self, key: i64) -> (r: bool)
        requires
            old(self).well_formed(),
            old(self).ascending().len() < usize::MAX,
        ensures
            final(self).well_formed(),
            final(self)@ == old(self)@.insert(key),
            r == !old(self)@.contains(key),
            r ==> final(self).ascending().len() == old(self).ascending().len() + 1,
            !r ==> final(self).ascending().len() == old(self).ascending().len(),
    {
        let r = self.map.insert(key, 0);
        proof {
            assert(self@ =~= old(self)@.insert(key));
        }
        r
    }

    /// Removes `key`; returns whether it was present. An absent key leaves
    /// the set untouched.
    pub fn remove(&mut self, key: i64) -> (r: bool)
        requires
            old(self).well_formed(),
        ensures
            final(self).well_formed(),
            final(self)@ == old(self)@.remove(key),
            r == old(self)@.contains(key),
            !r ==> *final(self) == *old(self),
            r ==> final(self).ascending().len() + 1 == old(self).ascending().len(),
            !r ==> final(self).ascending() == old(self).ascending(),
    {
        let r = self.map.remove(key);
        proof {
            assert(self@ =~= old(self)@.remove(key));
        }
        r.is_some()
    }

    /// Whether `key` is an element.
    pub fn contains(&self, key: i64) -> (r: bool)
        requires
            self.well_formed(),
        ensures
            r == self@.contains(key),
    {
        self.map.contains(key)
    }

    /// The least element, or nothing when the set is empty.
    pub fn min(&self) -> (r: Option<i64>)
        requires
            self.well_formed(),
        ensures
            self.ascending().len() == 0 ==> r is None,
            self.ascending().len() > 0 ==> r == Some(self.ascending()[0]),
    {
        match self.map.min() {
            Some(kv) => Some(kv.0),
            None => None,
        }
    }

    /// The greatest element, or nothing when the set is empty.
    pub fn max(&self) -> (r: Option<i64>)
        requires
            self.well_formed(),
        ensures
            self.ascending().len() == 0 ==> r is None,
            self.ascending().len() > 0 ==> r == Some(self.ascending().last()),
    {
        match self.map.max() {
            Some(kv) => Some(kv.0),
            None => None,
        }
    }

    /// How many elements the set holds.
    pub fn size(&self) -> (r: usize)
        requires
            self.well_formed(),
        ensures
            r == self.ascending().len(),
            r == self@.len(),
    {
        proof {
            self.map.lemma_inorder_entries();
        }
        self.map.size()
    }

    /// Whether the set holds no element.
    pub fn is_empty(&self) -> (r: bool)
        requires
            self.well_formed(),
        ensures
            r == (self.ascending().len() == 0),
    {
        self.map.is_empty()
    }

    /// Selects the zero-indexed `order`-th smallest element.
    pub fn find_by_order(&self, order: usize) -> (r: Option<i64>)
        requires
            self.well_formed(),
        ensures
            order < self.ascending().len() ==> r == Some(self.ascending()[order as int]),
            order >= self.ascending().len() ==> r is None,
    {
        match self.map.find_by_order(order) {
            Some(kv) => Some(kv.0),
            None => None,
        }
    }

    /// Counts the elements strictly below `key`. Well defined whether or
    /// not `key` is an element.
    pub fn order_of_key(&self, key: i64) -> (r: usize)
        requires
            self.well_formed(),
        ensures
            r == num_elems_below(self.ascending(), key),
    {
        let r = self.map.order_of_key(key);
        proof {
            crate::sorted_seq::lemma_num_elems_below_keys(self.map.inorder(), key);
        }
        r
    }

    /// The elements in ascending order.
    pub fn elements(&self) -> (r: Vec<i64>)
        requires
            self.well_formed(),
        ensures
            r@ == self.ascending(),
    {
        let r = self.map.keys();
        proof {
            assert(r@ =~= self.ascending());
        }
        r
    }

    /// The ascending view is strictly increasing, holds exactly the set's
    /// elements, and is empty exactly when the set is.
    pub proof fn lemma_ascending_elements(&self)
        requires
            self.well_formed(),
        ensures
            sorted_ascending(self.ascending()),
            forall|i: int|
                0 <= i < self.ascending().len() ==> self@.contains(#[trigger] self.ascending()[i]),
            forall|k: i64| self@.contains(k) ==> has_elem(self.ascending(), k),
            (self.ascending().len() == 0 <==> self@ =~= Set::<i64>::empty()),
            self@.finite(),
            self.ascending().len() == self@.len(),
    {
        self.map.lemma_inorder_entries();
        let s = self.map.inorder();
        let a = self.ascending();
        assert forall|i: int| 0 <= i < a.len() implies self@.contains(#[trigger] a[i]) by {
            assert(self.map@.contains_pair(s[i].0, s[i].1));
        }
        assert forall|k: i64| self@.contains(k) implies has_elem(a, k) by {
            assert(crate::sorted_seq::seq_has_key(s, k));
            let i = choose|i: int| 0 <= i < s.len() && s[i].0 == k;
            assert(a[i] == k);
        }
        if a.len() == 0 {
            assert(self@ =~= Set::<i64>::empty());
        } else {
            assert(self@.contains(a[0]));
        }
    }

    /// Rank and selection round-trip: a present element is found again at
    /// the index `order_of_key` gives for it.
    pub proof fn lemma_order_find_roundtrip(&self, key: i64)
        requires
            self.well_formed(),
            self@.contains(key),
        ensures
            num_elems_below(self.ascending(), key) < self.ascending().len(),
            self.ascending()[num_elems_below(self.ascending(), key) as int] == key,
    {
        self.lemma_ascending_elements();
        crate::sorted_seq::lemma_sorted_elem_at_rank(self.ascending(), key);
    }
}

impl Default for AVLTreeSet {
    /// The empty set.
    fn default() -> (r: Self)
        ensures
            r.well_formed(),
            r@ == Set::<i64>::empty(),
            r.ascending() == Seq::<i64>::empty(),
    {
        AVLTreeSet::new()
    }
}

} // verus!
