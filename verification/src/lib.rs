//! In-memory ordered containers backed by a size-augmented AVL tree.
//!
//! `avl_tree` holds the tree engine and the key-value map facade;
//! `avl_set` a key-only facade over the same engine. Besides the usual
//! map and set operations, both answer order-statistics queries in
//! logarithmic time: `find_by_order` (k-th smallest entry) and
//! `order_of_key` (number of keys strictly below a given key).
//! `tree_trait` states the shared interface; `sorted_seq` holds the
//! specification vocabulary the contracts are written in.

pub mod avl_set;
pub mod avl_tree;
pub mod sorted_seq;
pub mod tree_trait;
