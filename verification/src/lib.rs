//! A left-leaning red-black binary search tree (Sedgewick's LLRB), with its
//! ordering, content and balance properties proved.
//!
//! The tree keeps these invariants, which `tree::RedBlackTree::well_formed`
//! holds and `lemma_red_black_shape` states:
//! 1. the root is black;
//! 2. no red link leans right;
//! 3. no two red links follow each other on any path;
//! 4. all paths down to an empty subtree cross the same number of black links.
//!
//! New keys enter the tree in red leaves, as the contract of the recursive
//! insertion states.

pub mod order;
pub mod sorted;
mod node;
mod insert;
mod delete;
mod query;
pub mod tree;

pub use tree::RedBlackTree;
