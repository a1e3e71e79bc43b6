# llrb

A left-leaning red-black binary search tree (Sedgewick's LLRB) written in
Verus. The tree stores a set of keys of any type `T: Ord` and offers insertion,
deletion, membership, the keys in order, rank, selection by rank, minimum and
maximum.

What is proved:

- every operation does what its contract says of the tree's keys, seen as an
  ascending sequence (`RedBlackTree@`);
- every tree the operations build keeps the red-black invariants: black root,
  no right-leaning red link, no two red links in a row, and the same number of
  black links on every path (`RedBlackTree::lemma_red_black_shape`);
- the recorded subtree sizes stay exact and never overflow.

The proofs assume only that `T`'s comparison operators form the total order
that the documentation of `Ord` asks for (`order::obeys_key_order`). Equal keys
need not be identical values: the contracts speak of keys equal to a given key
(`order::key_eq`, `sorted::holds_key`). vstd proves the assumption for the
primitive integer types.

The tree's height is at most `2 * log2(len + 1)` (`lemma_height_logarithmic`).

Layout of `src/`:

- `order.rs`: the order on keys and its basic facts;
- `sorted.rs`: ascending sequences, rank, and the laws about them;
- `node.rs`: nodes, shape predicates, rotations, colour flips, rebalancing;
- `insert.rs`, `delete.rs`, `query.rs`: the recursive operations;
- `tree.rs`: the public `RedBlackTree` type and its laws.
