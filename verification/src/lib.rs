//! Self-balancing ordered-set containers over `u64` values.
//!
//! The `avl` module holds the main container: a height-balanced binary
//! search tree whose insert, delete and membership operations keep, and are
//! proved to keep, both the search-order invariant and the AVL balance
//! invariant.  The `bst` module holds the plain, unbalanced variant of the
//! same container: the same operations without any rebalancing.

pub mod avl;
pub mod bst;
mod node;
