//! Verified collection of classic data structures.
//!
//! The centerpiece is a pair of self-balancing ordered binary search trees —
//! an AVL tree (`Avl`) and a red-black tree (`Rbt`) — both exposing an
//! ordered-set container over `i64` keys, with search, insert, remove and
//! in-order iteration.  The surrounding modules hold independent, simpler
//! companions: a binary min-heap, a disjoint-set structure, a segment tree,
//! a digit trie and binary-search helpers.

pub mod avl;
pub use avl::{Avl, AvlNode, IterDfs};

pub mod keyorder;

pub mod rbt;
pub use rbt::{Color, Rbt, RbtNode};

pub mod bisect;
pub use bisect::Bisect;

pub mod heap;
pub use heap::Heap;

pub mod disjointset;
pub use disjointset::DisjointSet;

pub mod trie;
pub use trie::Trie;

pub mod segmenttree;
pub use segmenttree::SegmentTree;

pub mod laws;
