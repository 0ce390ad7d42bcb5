//! The recursive tree cell shared by both search-tree containers, the
//! specification functions that describe a subtree, and the two rotation
//! primitives.

use vstd::prelude::*;

verus! {

/// One cell of a binary search tree: one value and two optional, exclusively
/// owned subtrees.
#[derive(Debug)]
pub(crate) struct Node {
    pub(crate) left: Option<Box<Node>>,
    pub(crate) right: Option<Box<Node>>,
    pub(crate) value: u64,
}

/// The set of values held in a subtree.
pub(crate) open spec fn tset(t: Option<Box<Node>>) -> Set<u64>
    decreases t,
{
    match t {
        None => Set::empty(),
        Some(n) => tset(n.left).union(tset(n.right)).insert(n.value),
    }
}

/// The height of a subtree: 0 for an absent subtree, otherwise one more than
/// the taller child.
pub(crate) open spec fn height_of(t: Option<Box<Node>>) -> nat
    decreases t,
{
    match t {
        None => 0,
        Some(n) => 1 + if height_of(n.left) >= height_of(n.right) {
            height_of(n.left)
        } else {
            height_of(n.right)
        },
    }
}

/// The number of cells in a subtree.
pub(crate) open spec fn size_of(t: Option<Box<Node>>) -> nat
    decreases t,
{
    match t {
        None => 0,
        Some(n) => 1 + size_of(n.left) + size_of(n.right),
    }
}

/// The search-order invariant: at every cell, every value to the left is
/// strictly smaller and every value to the right strictly greater.
pub(crate) open spec fn ordered(t: Option<Box<Node>>) -> bool
    decreases t,
{
    match t {
        None => true,
        Some(n) => {
            &&& ordered(n.left)
            &&& ordered(n.right)
            &&& (forall|x: u64| tset(n.left).contains(x) ==> x < n.value)
            &&& (forall|x: u64| tset(n.right).contains(x) ==> x > n.value)
        },
    }
}

/// The set of values of a subtree is finite.
pub(crate) proof fn lemma_tset_finite(t: Option<Box<Node>>)
    ensures
        tset(t).finite(),
    decreases t,
{
    match t {
        None => {}
        Some(n) => {
            lemma_tset_finite(n.left);
            lemma_tset_finite(n.right);
        }
    }
}

/// Two sets with no common element have the cardinality of their union equal
/// to the sum of their cardinalities.
proof fn lemma_len_disjoint_union<A>(s1: Set<A>, s2: Set<A>)
    requires
        s1.finite(),
        s2.finite(),
        forall|x: A| s1.contains(x) ==> !s2.contains(x),
    ensures
        s1.union(s2).len() == s1.len() + s2.len(),
    decreases s1.len(),
{
    if s1.len() == 0 {
        s1.lemma_len0_is_empty();
        assert(s1.union(s2) =~= s2);
    } else {
        let a = s1.choose();
        assert(s1.contains(a));
        assert(s1.union(s2).remove(a) =~= s1.remove(a).union(s2));
        lemma_len_disjoint_union(s1.remove(a), s2);
        assert(s1.union(s2).contains(a));
    }
}

/// On an ordered subtree, the number of cells equals the cardinality of the
/// set of values: no value is stored twice.
pub(crate) proof fn lemma_size_is_len(t: Option<Box<Node>>)
    requires
        ordered(t),
    ensures
        tset(t).finite(),
        tset(t).len() == size_of(t),
    decreases t,
{
    lemma_tset_finite(t);
    match t {
        None => {
            assert(tset(t) =~= Set::<u64>::empty());
        }
        Some(n) => {
            lemma_size_is_len(n.left);
            lemma_size_is_len(n.right);
            lemma_len_disjoint_union(tset(n.left), tset(n.right));
            let u = tset(n.left).union(tset(n.right));
            assert(!u.contains(n.value));
            assert(tset(t) == u.insert(n.value));
        }
    }
}

/// Membership query by order-guided descent; no mutation.
pub(crate) fn contains_at(t: &Option<Box<Node>>, value: u64) -> (found: bool)
    requires
        ordered(*t),
    ensures
        found == tset(*t).contains(value),
    decreases *t,
{
    match t {
        None => false,
        Some(n) => {
            if value == n.value {
                true
            } else if value < n.value {
                proof {
                    assert(!tset(n.right).contains(value));
                }
                contains_at(&n.left, value)
            } else {
                proof {
                    assert(!tset(n.left).contains(value));
                }
                contains_at(&n.right, value)
            }
        }
    }
}

/// Left rotation.  When the subtree has a root and the root has a right
/// child, that child is promoted to the root of the subtree: the old root
/// becomes its left child and inherits the promoted cell's former left
/// subtree.  Otherwise the subtree is left unchanged.  Values are only
/// re-linked, never changed, so the set of values and the search order are
/// preserved.
pub(crate) fn rotate_left(root: &mut Option<Box<Node>>)
    ensures
        tset(*final(root)) == tset(*old(root)),
        ordered(*old(root)) ==> ordered(*final(root)),
        old(root).is_some() && old(root).unwrap().right.is_some() ==> ({
            let n = old(root).unwrap();
            let p = n.right.unwrap();
            &&& final(root).is_some()
            &&& final(root).unwrap().value == p.value
            &&& final(root).unwrap().right == p.right
            &&& final(root).unwrap().left.is_some()
            &&& final(root).unwrap().left.unwrap().value == n.value
            &&& final(root).unwrap().left.unwrap().left == n.left
            &&& final(root).unwrap().left.unwrap().right == p.left
        }),
        !(old(root).is_some() && old(root).unwrap().right.is_some()) ==> *final(root) == *old(root),
{
    match root.take() {
        None => {}
        Some(mut n) => {
            let ghost r0 = n.right;
            match n.right.take() {
                None => {
                    *root = Some(n);
                }
                Some(mut p) => {
                    let ghost a = n.left;
                    let ghost b = p.left;
                    let ghost c = p.right;
                    let ghost xv = n.value;
                    let ghost yv = p.value;
                    n.right = p.left.take();
                    p.left = Some(n);
                    *root = Some(p);
                    proof {
                        let t0 = *old(root);
                        let t1 = *root;
                        let tl = t1.unwrap().left;
                        assert(tset(r0) == tset(b).union(tset(c)).insert(yv));
                        assert(tset(t0) == tset(a).union(tset(r0)).insert(xv));
                        assert(tset(tl) == tset(a).union(tset(b)).insert(xv));
                        assert(tset(t1) == tset(tl).union(tset(c)).insert(yv));
                        assert(tset(t1) =~= tset(t0));
                        if ordered(t0) {
                            assert(ordered(r0));
                            assert(tset(r0).contains(yv));
                            assert(xv < yv);
                            assert forall|x: u64| tset(b).contains(x) implies xv < x < yv by {
                                assert(tset(r0).contains(x));
                            }
                            assert forall|x: u64| tset(c).contains(x) implies x > yv by {
                                assert(tset(r0).contains(x));
                            }
                            assert(ordered(tl));
                            assert forall|x: u64| tset(tl).contains(x) implies x < yv by {
                                if tset(a).contains(x) {
                                    assert(x < xv);
                                }
                            }
                            assert(ordered(t1));
                        }
                    }
                }
            }
        }
    }
}

/// Right rotation: the mirror image of `rotate_left`, promoting the left
/// child when it is present and leaving the subtree unchanged otherwise.
pub(crate) fn rotate_right(root: &mut Option<Box<Node>>)
    ensures
        tset(*final(root)) == tset(*old(root)),
        ordered(*old(root)) ==> ordered(*final(root)),
        old(root).is_some() && old(root).unwrap().left.is_some() ==> ({
            let n = old(root).unwrap();
            let p = n.left.unwrap();
            &&& final(root).is_some()
            &&& final(root).unwrap().value == p.value
            &&& final(root).unwrap().left == p.left
            &&& final(root).unwrap().right.is_some()
            &&& final(root).unwrap().right.unwrap().value == n.value
            &&& final(root).unwrap().right.unwrap().right == n.right
            &&& final(root).unwrap().right.unwrap().left == p.right
        }),
        !(old(root).is_some() && old(root).unwrap().left.is_some()) ==> *final(root) == *old(root),
{
    match root.take() {
        None => {}
        Some(mut n) => {
            let ghost l0 = n.left;
            match n.left.take() {
                None => {
                    *root = Some(n);
                }
                Some(mut p) => {
                    let ghost a = p.left;
                    let ghost b = p.right;
                    let ghost c = n.right;
                    let ghost xv = n.value;
                    let ghost yv = p.value;
                    n.left = p.right.take();
                    p.right = Some(n);
                    *root = Some(p);
                    proof {
                        let t0 = *old(root);
                        let t1 = *root;
                        let tr = t1.unwrap().right;
                        assert(tset(l0) == tset(a).union(tset(b)).insert(yv));
                        assert(tset(t0) == tset(l0).union(tset(c)).insert(xv));
                        assert(tset(tr) == tset(b).union(tset(c)).insert(xv));
                        assert(tset(t1) == tset(a).union(tset(tr)).insert(yv));
                        assert(tset(t1) =~= tset(t0));
                        if ordered(t0) {
                            assert(ordered(l0));
                            assert(tset(l0).contains(yv));
                            assert(yv < xv);
                            assert forall|x: u64| tset(b).contains(x) implies yv < x < xv by {
                                assert(tset(l0).contains(x));
                            }
                            assert forall|x: u64| tset(a).contains(x) implies x < yv by {
                                assert(tset(l0).contains(x));
                            }
                            assert(ordered(tr));
                            assert forall|x: u64| tset(tr).contains(x) implies x > yv by {
                                if tset(c).contains(x) {
                                    assert(x > xv);
                                }
                            }
                            assert(ordered(t1));
                        }
                    }
                }
            }
        }
    }
}

} // verus!
