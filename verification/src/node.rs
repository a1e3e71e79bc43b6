//! Nodes of the tree, the shape predicates of a left-leaning red-black tree,
//! and the local restructurings (rotations, colour flips, rebalancing).

use vstd::prelude::*;
use vstd::arithmetic::power2::{pow2, lemma_pow2_unfold, lemma_pow2_pos};

verus! {

/// The colour of the link from a node's parent to the node.
#[derive(Clone, Copy, PartialEq, Eq, Structural, Debug)]
pub enum Color {
    Red,
    Black,
}

/// A possibly empty subtree.
pub type Link<T> = Option<Box<Node<T>>>;

/// One node: a key, the colour of the link above it, two subtrees and the
/// number of keys in the subtree rooted here.
pub struct Node<T: Ord> {
    pub key: T,
    pub color: Color,
    pub left: Link<T>,
    pub right: Link<T>,
    pub size: usize,
}

// ---------------------------------------------------------------------------
// Models and shape predicates.

/// The keys of a subtree, in order (left subtree, node, right subtree).
pub open spec fn keys<T: Ord>(l: Link<T>) -> Seq<T>
    decreases l,
{
    match l {
        None => Seq::empty(),
        Some(n) => keys(n.left) + seq![n.key] + keys(n.right),
    }
}

/// The root of the subtree is red.
pub open spec fn red<T: Ord>(l: Link<T>) -> bool {
    match l {
        None => false,
        Some(n) => n.color == Color::Red,
    }
}

/// The left subtree of a subtree's root (empty for an empty subtree).
pub open spec fn left_of<T: Ord>(l: Link<T>) -> Link<T> {
    match l {
        None => None,
        Some(n) => n.left,
    }
}

/// The right subtree of a subtree's root (empty for an empty subtree).
pub open spec fn right_of<T: Ord>(l: Link<T>) -> Link<T> {
    match l {
        None => None,
        Some(n) => n.right,
    }
}

/// The size recorded at the root of a subtree (0 for an empty subtree).
pub open spec fn size_of<T: Ord>(l: Link<T>) -> nat {
    match l {
        None => 0,
        Some(n) => n.size as nat,
    }
}

/// Number of black links on the leftmost path below the top of a subtree,
/// the root's own link included.
pub open spec fn bh<T: Ord>(l: Link<T>) -> nat
    decreases l,
{
    match l {
        None => 0,
        Some(n) => bh(n.left) + if n.color == Color::Black { 1nat } else { 0nat },
    }
}

/// Every recorded size counts the keys below it.
pub open spec fn sized<T: Ord>(l: Link<T>) -> bool
    decreases l,
{
    match l {
        None => true,
        Some(n) => {
            &&& n.size as nat == keys(n.left).len() + 1 + keys(n.right).len()
            &&& sized(n.left)
            &&& sized(n.right)
        },
    }
}

/// A left-leaning red-black subtree: every node has the same number of black
/// links on both sides, no red link leans right, and no red node has a red
/// left child. The root itself may be red.
pub open spec fn valid<T: Ord>(l: Link<T>) -> bool
    decreases l,
{
    match l {
        None => true,
        Some(n) => {
            &&& valid(n.left)
            &&& valid(n.right)
            &&& bh(n.left) == bh(n.right)
            &&& !red(n.right)
            &&& (n.color == Color::Red ==> !red(n.left))
        },
    }
}

/// A subtree that is valid except that its red root may have a red left
/// child.
pub open spec fn almost<T: Ord>(l: Link<T>) -> bool {
    match l {
        None => true,
        Some(n) => {
            &&& valid(n.left)
            &&& valid(n.right)
            &&& bh(n.left) == bh(n.right)
            &&& !red(n.right)
        },
    }
}

/// A black node whose left child is black and whose right link is red, both
/// children valid and of equal black height: the shape that the deletion
/// meets right after borrowing on the right.
pub open spec fn leans_right<T: Ord>(l: Link<T>) -> bool {
    match l {
        None => false,
        Some(n) => {
            &&& n.color == Color::Black
            &&& valid(n.left)
            &&& !red(n.left)
            &&& valid(n.right)
            &&& red(n.right)
            &&& bh(n.left) == bh(n.right)
        },
    }
}

/// No red link leans right anywhere in the subtree.
pub open spec fn no_red_right<T: Ord>(l: Link<T>) -> bool
    decreases l,
{
    match l {
        None => true,
        Some(n) => !red(n.right) && no_red_right(n.left) && no_red_right(n.right),
    }
}

/// No red node of the subtree has a red child.
pub open spec fn no_red_run<T: Ord>(l: Link<T>) -> bool
    decreases l,
{
    match l {
        None => true,
        Some(n) => {
            &&& (n.color == Color::Red ==> !red(n.left) && !red(n.right))
            &&& no_red_run(n.left)
            &&& no_red_run(n.right)
        },
    }
}

/// Every path from the top of the subtree down to an empty subtree crosses
/// exactly `d` black links.
pub open spec fn black_depth<T: Ord>(l: Link<T>, d: nat) -> bool
    decreases l,
{
    match l {
        None => d == 0,
        Some(n) => {
            let b: nat = if n.color == Color::Black { 1 } else { 0 };
            &&& d >= b
            &&& black_depth(n.left, (d - b) as nat)
            &&& black_depth(n.right, (d - b) as nat)
        },
    }
}

/// A valid subtree has no right-leaning red link, no two red links in a row,
/// and the same number of black links on every path down to an empty
/// subtree.
pub proof fn lemma_valid_shape<T: Ord>(l: Link<T>)
    requires
        valid(l),
    ensures
        no_red_right(l),
        no_red_run(l),
        black_depth(l, bh(l)),
    decreases l,
{
    if let Some(n) = l {
        lemma_valid_shape(n.left);
        lemma_valid_shape(n.right);
    }
}

/// Number of nodes on the longest path from the top of the subtree down to an
/// empty subtree.
pub open spec fn height<T: Ord>(l: Link<T>) -> nat
    decreases l,
{
    match l {
        None => 0,
        Some(n) => 1 + if height(n.left) >= height(n.right) {
            height(n.left)
        } else {
            height(n.right)
        },
    }
}

/// A valid subtree is at most about twice as high as its black height: red
/// links never follow each other.
pub proof fn lemma_valid_height<T: Ord>(l: Link<T>)
    requires
        valid(l),
    ensures
        height(l) <= 2 * bh(l) + if red(l) { 1nat } else { 0nat },
    decreases l,
{
    if let Some(n) = l {
        lemma_valid_height(n.left);
        lemma_valid_height(n.right);
    }
}

/// A valid subtree of black height `b` holds at least `2^b - 1` keys.
pub proof fn lemma_valid_count<T: Ord>(l: Link<T>)
    requires
        valid(l),
    ensures
        pow2(bh(l)) <= keys(l).len() + 1,
    decreases l,
{
    if let Some(n) = l {
        lemma_valid_count(n.left);
        lemma_valid_count(n.right);
        let c = bh(n.left);
        lemma_pow2_unfold(c + 1);
        lemma_pow2_pos(c);
    } else {
        lemma_pow2_pos(0);
        assert(pow2(0) == 1) by {
            vstd::arithmetic::power2::lemma2_to64();
        }
    }
}

/// No node of the subtree has a right child without a left child.
pub open spec fn no_lone_right<T: Ord>(l: Link<T>) -> bool
    decreases l,
{
    match l {
        None => true,
        Some(n) => {
            &&& (n.left is None ==> n.right is None)
            &&& no_lone_right(n.left)
            &&& no_lone_right(n.right)
        },
    }
}

/// In a valid subtree no node has a right child without a left child.
pub proof fn lemma_valid_no_lone_right<T: Ord>(l: Link<T>)
    requires
        valid(l),
    ensures
        no_lone_right(l),
    decreases l,
{
    if let Some(n) = l {
        lemma_valid_no_lone_right(n.left);
        lemma_valid_no_lone_right(n.right);
        if n.left is None {
            lemma_black_height_zero(n.right);
        }
    }
}

/// A valid subtree of black height 0 whose root is not red is empty.
pub proof fn lemma_black_height_zero<T: Ord>(l: Link<T>)
    requires
        valid(l),
        bh(l) == 0,
        !red(l),
    ensures
        l is None,
{
}

/// A subtree that is almost valid and has no red link followed by a red left
/// link at its top is valid; a valid subtree is almost valid.
pub proof fn lemma_almost_valid<T: Ord>(l: Link<T>)
    ensures
        almost(l) && !(red(l) && red(left_of(l))) ==> valid(l),
        valid(l) ==> almost(l),
{
}

/// The size recorded at the root of a sized subtree is its number of keys.
pub proof fn lemma_sized_len<T: Ord>(l: Link<T>)
    requires
        sized(l),
    ensures
        size_of(l) == keys(l).len(),
{
}

// ---------------------------------------------------------------------------
// Executable helpers.

impl<T: Ord> Node<T> {
    /// A single node with no children.
    pub fn new(key: T, color: Color) -> (n: Box<Self>)
        ensures
            n.key == key,
            n.color == color,
            n.left is None,
            n.right is None,
            n.size == 1,
    {
        Box::new(Node { key, color, left: None, right: None, size: 1 })
    }
}

/// Whether the subtree's root is red.
pub fn is_red<T: Ord>(link: &Link<T>) -> (r: bool)
    ensures
        r == red(*link),
{
    match link {
        Some(n) => n.color == Color::Red,
        None => false,
    }
}

/// The size recorded at the subtree's root.
pub fn node_size<T: Ord>(link: &Link<T>) -> (r: usize)
    ensures
        r == size_of(*link),
{
    match link {
        Some(n) => n.size,
        None => 0,
    }
}

/// Recomputes a node's size from its children's.
pub fn update_size<T: Ord>(n: &mut Node<T>)
    requires
        1 + size_of(old(n).left) + size_of(old(n).right) <= usize::MAX,
    ensures
        final(n).size == 1 + size_of(old(n).left) + size_of(old(n).right),
        final(n).key == old(n).key,
        final(n).color == old(n).color,
        final(n).left == old(n).left,
        final(n).right == old(n).right,
{
    n.size = 1 + node_size(&n.left) + node_size(&n.right);
}

/// The other colour.
pub open spec fn toggled(c: Color) -> Color {
    match c {
        Color::Red => Color::Black,
        Color::Black => Color::Red,
    }
}

/// The same subtree with the colour of its root switched.
pub open spec fn recolored<T: Ord>(l: Link<T>) -> Link<T> {
    match l {
        None => None,
        Some(n) => Some(
            Box::new(
                Node {
                    key: n.key,
                    color: toggled(n.color),
                    left: n.left,
                    right: n.right,
                    size: n.size,
                },
            ),
        ),
    }
}

/// Switching the colour of a subtree's root keeps its keys, sizes and
/// children, moves its black height by one, and keeps it valid when no red
/// run appears at the top.
pub proof fn lemma_recolored<T: Ord>(l: Link<T>)
    ensures
        keys(recolored(l)) == keys(l),
        sized(recolored(l)) == sized(l),
        left_of(recolored(l)) == left_of(l),
        right_of(recolored(l)) == right_of(l),
        red(recolored(l)) == (l is Some && !red(l)),
        red(l) ==> bh(recolored(l)) == bh(l) + 1,
        l is Some && !red(l) ==> bh(recolored(l)) + 1 == bh(l),
        valid(l) && (red(l) || !red(left_of(l))) ==> valid(recolored(l)),
        no_lone_right(recolored(l)) == no_lone_right(l),
{
}

/// The other colour.
pub fn toggle_color(c: Color) -> (r: Color)
    ensures
        r == toggled(c),
{
    match c {
        Color::Red => Color::Black,
        Color::Black => Color::Red,
    }
}

/// Turns a right-leaning link into a left-leaning one: the right child
/// becomes the root, takes the old root's colour, and the old root becomes
/// its red left child.
pub fn rotate_left<T: Ord>(mut h: Box<Node<T>>) -> (x: Box<Node<T>>)
    requires
        h.right is Some,
        sized(h.left),
        sized(h.right),
        keys(Some(h)).len() <= usize::MAX,
    ensures
        keys(Some(x)) == keys(Some(h)),
        sized(Some(x)),
        x.key == h.right.unwrap().key,
        x.color == h.color,
        x.right == h.right.unwrap().right,
        x.left is Some,
        x.left.unwrap().key == h.key,
        x.left.unwrap().color == Color::Red,
        x.left.unwrap().left == h.left,
        x.left.unwrap().right == h.right.unwrap().left,
{
    let ghost h0 = h;
    let mut x = h.right.take().unwrap();
    let ghost x0 = x;
    proof {
        lemma_sized_len(h0.left);
        lemma_sized_len(x0.left);
        lemma_sized_len(x0.right);
        assert(h0.right == Some(x0));
        assert(keys(h0.right) == keys(x0.left) + seq![x0.key] + keys(x0.right));
    }
    h.right = x.left.take();
    x.color = h.color;
    h.color = Color::Red;
    update_size(&mut *h);
    let ghost hl = h;
    assert(keys(Some(hl)) == keys(h0.left) + seq![h0.key] + keys(x0.left));
    assert(sized(Some(hl)));
    x.left = Some(h);
    update_size(&mut *x);
    assert(keys(x.left) == keys(Some(hl)));
    assert(keys(Some(x)) =~= keys(Some(h0)));
    x
}

/// Turns a left-leaning link into a right-leaning one: the left child
/// becomes the root, takes the old root's colour, and the old root becomes
/// its red right child.
pub fn rotate_right<T: Ord>(mut h: Box<Node<T>>) -> (x: Box<Node<T>>)
    requires
        h.left is Some,
        sized(h.left),
        sized(h.right),
        keys(Some(h)).len() <= usize::MAX,
    ensures
        keys(Some(x)) == keys(Some(h)),
        sized(Some(x)),
        x.key == h.left.unwrap().key,
        x.color == h.color,
        x.left == h.left.unwrap().left,
        x.right is Some,
        x.right.unwrap().key == h.key,
        x.right.unwrap().color == Color::Red,
        x.right.unwrap().left == h.left.unwrap().right,
        x.right.unwrap().right == h.right,
{
    let ghost h0 = h;
    let mut x = h.left.take().unwrap();
    let ghost x0 = x;
    proof {
        lemma_sized_len(h0.right);
        lemma_sized_len(x0.left);
        lemma_sized_len(x0.right);
        assert(h0.left == Some(x0));
        assert(keys(h0.left) == keys(x0.left) + seq![x0.key] + keys(x0.right));
    }
    h.left = x.right.take();
    x.color = h.color;
    h.color = Color::Red;
    update_size(&mut *h);
    let ghost hr = h;
    assert(keys(Some(hr)) == keys(x0.right) + seq![h0.key] + keys(h0.right));
    assert(sized(Some(hr)));
    x.right = Some(h);
    update_size(&mut *x);
    assert(keys(x.right) == keys(Some(hr)));
    assert(keys(Some(x)) =~= keys(Some(h0)));
    x
}

/// Switches the colours of a node and of both its children.
pub fn flip_colors<T: Ord>(h: &mut Node<T>)
    ensures
        final(h).key == old(h).key,
        final(h).size == old(h).size,
        final(h).color == toggled(old(h).color),
        final(h).left == recolored(old(h).left),
        final(h).right == recolored(old(h).right),
{
    h.color = toggle_color(h.color);
    if let Some(ref mut l) = h.left {
        l.color = toggle_color(l.color);
    }
    if let Some(ref mut r) = h.right {
        r.color = toggle_color(r.color);
    }
}

/// The colour conditions under which `fix_up` restores the red-black shape:
/// the left child may carry one red run at its top, the right child is
/// valid, both have the same black height, and no run of three red links
/// meets at the node.
pub open spec fn fixable<T: Ord>(h: Box<Node<T>>) -> bool {
    &&& almost(h.left)
    &&& valid(h.right)
    &&& bh(h.left) == bh(h.right)
    &&& !(red(h.left) && red(left_of(h.left)) && red(h.right))
    &&& (h.color == Color::Red ==> !(red(h.left) && red(left_of(h.left))))
}

/// Restores the local shape after a child changed: leans a lone red right
/// link left, rotates a run of two red left links, and splits a node whose
/// two children are red; then recomputes the size.
#[verifier::rlimit(60)]
#[verifier::spinoff_prover]
pub fn fix_up<T: Ord>(mut h: Box<Node<T>>) -> (x: Box<Node<T>>)
    requires
        sized(h.left),
        sized(h.right),
        keys(Some(h)).len() <= usize::MAX,
    ensures
        keys(Some(x)) == keys(Some(h)),
        sized(Some(x)),
        !red(x.right),
        valid(Some(h)) && sized(Some(h)) ==> x == h,
        fixable(h) ==> {
            &&& almost(Some(x))
            &&& bh(Some(x)) == if h.color == Color::Red && red(h.left) && red(h.right) {
                bh(h.left) + 2
            } else {
                bh(Some(h))
            }
            &&& (h.color == Color::Black || red(h.left) == red(h.right) ==> valid(Some(x)))
            &&& (red(Some(x)) <==> (h.color == Color::Red && !(red(h.left) && red(h.right))) || (
            h.color == Color::Black && red(h.left) && (red(h.right) || red(left_of(h.left)))))
        },
{
    let ghost h0 = h;
    proof {
        lemma_almost_valid(h0.left);
        lemma_almost_valid(h0.right);
        if valid(Some(h0)) && red(h0.left) {
            let l = h0.left.unwrap();
            assert(h0.left == Some(l));
            assert(valid(h0.left));
            assert(valid(Some(l)));
            assert(!red(l.left));
        }
    }
    if is_red(&h.right) && !is_red(&h.left) {
        proof {
            if fixable(h0) {
                let r = h0.right.unwrap();
                assert(h0.right == Some(r));
                assert(valid(r.left) && valid(r.right) && !red(r.left) && !red(r.right));
                assert(bh(r.left) == bh(h0.left));
            }
        }
        h = rotate_left(h);
        proof {
            if fixable(h0) {
                let hl = h.left.unwrap();
                assert(h.left == Some(hl));
                assert(valid(Some(hl)));
                assert(bh(Some(hl)) == bh(h0.left));
                assert(bh(h.right) == bh(h0.left));
            }
        }
    }
    let ghost h1 = h;
    let left_left_red = match &h.left {
        Some(l) => is_red(&l.left),
        None => false,
    };
    if is_red(&h.left) && left_left_red {
        proof {
            if fixable(h0) {
                let l = h1.left.unwrap();
                assert(h1.left == Some(l));
                assert(valid(l.left) && valid(l.right) && !red(l.right));
                assert(bh(l.left) == bh(l.right));
            }
        }
        h = rotate_right(h);
        proof {
            if fixable(h0) {
                let l = h1.left.unwrap();
                let hr = h.right.unwrap();
                assert(h.right == Some(hr));
                assert(valid(Some(hr)));
                assert(bh(Some(hr)) == bh(l.right));
                assert(bh(h.left) == bh(l.right));
            }
        }
    }
    let ghost h2 = h;
    if is_red(&h.left) && is_red(&h.right) {
        proof {
            lemma_almost_valid(h2.left);
            lemma_recolored(h2.left);
            lemma_recolored(h2.right);
        }
        flip_colors(&mut *h);
    }
    proof {
        lemma_sized_len(h.left);
        lemma_sized_len(h.right);
        if sized(Some(h0)) {
            lemma_sized_len(Some(h0));
        }
        if valid(Some(h0)) {
            assert(h2 == h0);
        }
    }
    update_size(&mut *h);
    proof {
        if valid(Some(h0)) && sized(Some(h0)) {
            assert(h.key == h0.key && h.color == h0.color && h.left == h0.left && h.right == h0.right);
            assert(h.size == h0.size);
            assert(*h == *h0);
        }
    }
    h
}

/// The shape in which the deletion borrows on the left: valid children of
/// equal black height, a black left child with a black left child, and a
/// black right child.
pub open spec fn ready_to_borrow_left<T: Ord>(h: Box<Node<T>>) -> bool {
    &&& valid(h.left)
    &&& valid(h.right)
    &&& bh(h.left) == bh(h.right)
    &&& h.left is Some
    &&& !red(h.left)
    &&& !red(left_of(h.left))
    &&& !red(h.right)
}

/// The shape in which the deletion borrows on the right: valid children of
/// equal black height, a black right child with a black left child, and a
/// black left child.
pub open spec fn ready_to_borrow_right<T: Ord>(h: Box<Node<T>>) -> bool {
    &&& valid(h.left)
    &&& valid(h.right)
    &&& bh(h.left) == bh(h.right)
    &&& h.right is Some
    &&& !red(h.right)
    &&& !red(left_of(h.right))
    &&& !red(h.left)
}

/// Makes the left child or one of its children red before the deletion
/// descends into a left child that is a 2-node: flips the colours, and when
/// the right child has a red left child, borrows it with a double rotation.
pub fn move_red_left<T: Ord>(mut h: Box<Node<T>>) -> (x: Box<Node<T>>)
    requires
        sized(Some(h)),
    ensures
        keys(Some(x)) == keys(Some(h)),
        sized(Some(x)),
        keys(x.left).len() >= keys(h.left).len(),
        h.left is Some ==> x.left is Some,
        h.left is Some && !red(h.left) ==> red(x.left) || red(left_of(x.left)),
        h.left is Some && no_lone_right(Some(h)) ==> no_lone_right(x.left),
        ready_to_borrow_left(h) ==> {
            &&& valid(x.left)
            &&& valid(x.right)
            &&& bh(x.left) == bh(x.right)
        },
        ready_to_borrow_left(h) && red(left_of(h.right)) ==> {
            &&& x.color == h.color
            &&& !red(x.left)
            &&& red(left_of(x.left))
            &&& !red(x.right)
            &&& bh(Some(x)) == bh(Some(h))
        },
        ready_to_borrow_left(h) && !red(left_of(h.right)) ==> {
            &&& x.color == toggled(h.color)
            &&& red(x.left)
            &&& red(x.right)
            &&& bh(x.left) + 1 == bh(h.left)
            &&& keys(x.left) == keys(h.left)
        },
{
    let ghost h0 = h;
    proof {
        lemma_recolored(h0.left);
        lemma_recolored(h0.right);
        lemma_sized_len(Some(h0));
        if ready_to_borrow_left(h0) {
            assert(bh(h0.left) >= 1);
            assert(h0.right is Some);
        }
    }
    flip_colors(&mut *h);
    proof {
        assert(keys(Some(h)) == keys(Some(h0)));
        assert(sized(Some(h)));
    }
    let right_has_red_left = match &h.right {
        Some(r) => is_red(&r.left),
        None => false,
    };
    if right_has_red_left {
        let ghost h1 = h;
        let r = h.right.take().unwrap();
        proof {
            assert(h1.right == Some(r));
            assert(keys(Some(h1)) == keys(h1.left) + seq![h1.key] + keys(Some(r)));
        }
        h.right = Some(rotate_right(r));
        let ghost h2 = h;
        proof {
            let y = h2.right.unwrap();
            assert(h2.right == Some(y));
            assert(keys(Some(h2)) == keys(Some(h1)));
        }
        h = rotate_left(h);
        let ghost h3 = h;
        proof {
            let r0 = h0.right.unwrap();
            assert(h0.right == Some(r0));
            assert(r.left == r0.left);
            let rr = r.left.unwrap();
            assert(r.left == Some(rr));
            lemma_recolored(h3.left);
            lemma_recolored(h3.right);
            let a = h3.left.unwrap();
            let b = h3.right.unwrap();
            assert(h3.left == Some(a));
            assert(h3.right == Some(b));
            assert(a.left == h1.left);
            if h0.left is Some && no_lone_right(Some(h0)) {
                assert(no_lone_right(h0.right));
                assert(no_lone_right(r0.left));
                assert(no_lone_right(rr.left));
                assert(no_lone_right(Some(a)));
            }
            if ready_to_borrow_left(h0) {
                assert(valid(r0.left) && valid(r0.right) && bh(r0.left) == bh(r0.right));
                assert(valid(Some(rr)));
                assert(valid(rr.left) && valid(rr.right) && !red(rr.left) && !red(rr.right));
                assert(valid(a.left) && valid(a.right) && bh(a.left) == bh(a.right));
                assert(valid(b.left) && valid(b.right) && bh(b.left) == bh(b.right));
                assert(valid(recolored(h3.left)));
                assert(valid(recolored(h3.right)));
            }
        }
        flip_colors(&mut *h);
    }
    h
}

/// Makes the right child or one of its children red before the deletion
/// descends into a right child that is a 2-node: flips the colours, and when
/// the left child has a red left child, rotates it up.
pub fn move_red_right<T: Ord>(mut h: Box<Node<T>>) -> (x: Box<Node<T>>)
    requires
        sized(Some(h)),
    ensures
        keys(Some(x)) == keys(Some(h)),
        sized(Some(x)),
        keys(x.left).len() <= keys(h.left).len(),
        h.right is Some ==> x.right is Some,
        ready_to_borrow_right(h) ==> {
            &&& valid(x.left)
            &&& bh(x.left) == bh(x.right)
        },
        ready_to_borrow_right(h) && red(left_of(h.left)) ==> {
            &&& x.color == h.color
            &&& !red(x.left)
            &&& leans_right(x.right)
            &&& x.right.unwrap().key == h.key
            &&& keys(x.left).len() < keys(h.left).len()
            &&& bh(Some(x)) == bh(Some(h))
        },
        ready_to_borrow_right(h) && !red(left_of(h.left)) ==> {
            &&& x.color == toggled(h.color)
            &&& red(x.left)
            &&& red(x.right)
            &&& valid(x.right)
            &&& bh(x.left) + 1 == bh(h.left)
            &&& keys(x.left) == keys(h.left)
        },
{
    let ghost h0 = h;
    proof {
        lemma_recolored(h0.left);
        lemma_recolored(h0.right);
        lemma_sized_len(Some(h0));
        if ready_to_borrow_right(h0) {
            assert(bh(h0.right) >= 1);
            assert(h0.left is Some);
        }
    }
    flip_colors(&mut *h);
    proof {
        assert(keys(Some(h)) == keys(Some(h0)));
        assert(sized(Some(h)));
    }
    let left_has_red_left = match &h.left {
        Some(l) => is_red(&l.left),
        None => false,
    };
    if left_has_red_left {
        let ghost h1 = h;
        h = rotate_right(h);
        let ghost h2 = h;
        proof {
            lemma_recolored(h2.left);
            lemma_recolored(h2.right);
            let l0 = h0.left.unwrap();
            assert(h0.left == Some(l0));
            if ready_to_borrow_right(h0) {
            assert(valid(l0.left) && valid(l0.right) && bh(l0.left) == bh(l0.right));
            assert(left_of(h1.left) == l0.left);
            lemma_recolored(l0.left);
            lemma_recolored(h2.right);
            let b = h2.right.unwrap();
            assert(h2.right == Some(b));
            assert(b.left == l0.right);
            assert(valid(b.left) && valid(b.right) && bh(b.left) == bh(b.right));
            assert(leans_right(recolored(h2.right)));
            }
        }
        flip_colors(&mut *h);
    }
    h
}

} // verus!
