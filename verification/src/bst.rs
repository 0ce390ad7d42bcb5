//! The plain, unbalanced binary search tree: the same operations as the
//! balanced container — insertion, deletion, membership query, and the two
//! rotation primitives exposed at the root — without any rebalancing.  Only
//! the search-order invariant is maintained.

use vstd::prelude::*;

use crate::node::{Node, contains_at, ordered, rotate_left, rotate_right, tset};

verus! {

/// Insert `value` into an ordered subtree by order-guided descent, adding
/// one leaf where the recursion finds an absent slot.  Inserting a value
/// that is already present leaves the subtree unchanged.
fn insert_plain(node: &mut Option<Box<Node>>, value: u64)
    requires
        ordered(*old(node)),
    ensures
        ordered(*final(node)),
        tset(*final(node)) == tset(*old(node)).insert(value),
        tset(*old(node)).contains(value) ==> *final(node) == *old(node),
    decreases *old(node),
{
    match node.take() {
        None => {
            *node = Some(Box::new(Node { left: None, right: None, value }));
            proof {
                assert(tset(*node) =~= tset(*old(node)).insert(value));
            }
        }
        Some(mut n) => {
            let ghost t0 = *old(node);
            let ghost a = n.left;
            let ghost c = n.right;
            let ghost xv = n.value;
            if value > n.value {
                insert_plain(&mut n.right, value);
                let ghost c1 = n.right;
                *node = Some(n);
                proof {
                    assert(!tset(a).contains(value));
                    assert forall|x: u64| tset(c1).contains(x) implies x > xv by {
                        if tset(c).contains(x) {
                        } else {
                            assert(x == value);
                        }
                    }
                    assert(ordered(*node));
                    assert(tset(*node) =~= tset(t0).insert(value));
                    if tset(t0).contains(value) {
                        assert(tset(c).contains(value));
                        assert(*node == t0);
                    }
                }
            } else if value < n.value {
                insert_plain(&mut n.left, value);
                let ghost a1 = n.left;
                *node = Some(n);
                proof {
                    assert(!tset(c).contains(value));
                    assert forall|x: u64| tset(a1).contains(x) implies x < xv by {
                        if tset(a).contains(x) {
                        } else {
                            assert(x == value);
                        }
                    }
                    assert(ordered(*node));
                    assert(tset(*node) =~= tset(t0).insert(value));
                    if tset(t0).contains(value) {
                        assert(tset(a).contains(value));
                        assert(*node == t0);
                    }
                }
            } else {
                *node = Some(n);
                proof {
                    assert(tset(t0).contains(value));
                    assert(tset(*node) =~= tset(t0).insert(value));
                }
            }
        }
    }
}

/// Detach the smallest value of an ordered subtree: descend along left
/// children to the minimum and splice its right subtree into the gap.
/// Returns `None` exactly on the empty subtree.
fn take_smallest_plain(node: &mut Option<Box<Node>>) -> (res: Option<u64>)
    requires
        ordered(*old(node)),
    ensures
        ordered(*final(node)),
        old(node).is_none() ==> res.is_none() && *final(node) == *old(node),
        old(node).is_some() ==> ({
            &&& res.is_some()
            &&& tset(*old(node)).contains(res.unwrap())
            &&& (forall|x: u64| tset(*old(node)).contains(x) ==> res.unwrap() <= x)
            &&& tset(*final(node)) == tset(*old(node)).remove(res.unwrap())
        }),
    decreases *old(node),
{
    match node.take() {
        None => None,
        Some(mut n) => {
            let ghost t0 = *old(node);
            let ghost a = n.left;
            let ghost c = n.right;
            let ghost xv = n.value;
            if n.left.is_none() {
                let result = n.value;
                *node = n.right;
                proof {
                    assert(tset(t0).contains(result));
                    assert(tset(a) =~= Set::<u64>::empty());
                    assert(tset(t0) == tset(a).union(tset(c)).insert(xv));
                    assert forall|x: u64|
                        tset(*node).contains(x) == tset(t0).remove(result).contains(x) by {
                        if tset(c).contains(x) {
                            assert(x > xv);
                        }
                    }
                    assert(tset(*node) =~= tset(t0).remove(result));
                }
                Some(result)
            } else {
                let r = take_smallest_plain(&mut n.left);
                let ghost a1 = n.left;
                let rv = r.unwrap();
                *node = Some(n);
                proof {
                    assert(tset(a).contains(rv));
                    assert(rv < xv);
                    assert forall|x: u64| tset(a1).contains(x) implies x < xv by {
                        assert(tset(a).contains(x));
                    }
                    assert(ordered(*node));
                    assert(tset(*node) == tset(a1).union(tset(c)).insert(xv));
                    assert forall|x: u64|
                        tset(*node).contains(x) == tset(t0).remove(rv).contains(x) by {
                        if tset(c).contains(x) {
                            assert(x > xv);
                        }
                        if tset(a).contains(x) {
                            assert(x < xv);
                        }
                    }
                    assert(tset(*node) =~= tset(t0).remove(rv));
                    assert forall|x: u64| tset(t0).contains(x) implies rv <= x by {
                        if tset(a).contains(x) {
                        } else if tset(c).contains(x) {
                            assert(x > xv);
                        } else {
                            assert(x == xv);
                        }
                    }
                }
                Some(rv)
            }
        }
    }
}

/// Delete `value` from an ordered subtree: locate it by order-guided
/// descent; a cell with at most one child is dropped or replaced by that
/// child, while a cell with two children has its value replaced by its
/// in-order successor, detached from the right subtree.  Deleting an absent
/// value leaves the subtree unchanged.
fn delete_plain(node: &mut Option<Box<Node>>, value: u64)
    requires
        ordered(*old(node)),
    ensures
        ordered(*final(node)),
        tset(*final(node)) == tset(*old(node)).remove(value),
        !tset(*old(node)).contains(value) ==> *final(node) == *old(node),
    decreases *old(node),
{
    match node.take() {
        None => {
            proof {
                assert(tset(*node) =~= tset(*old(node)).remove(value));
            }
        }
        Some(mut n) => {
            let ghost t0 = *old(node);
            let ghost a = n.left;
            let ghost c = n.right;
            let ghost xv = n.value;
            if value == n.value {
                let succ = take_smallest_plain(&mut n.right);
                match succ {
                    None => {
                        *node = n.left;
                        proof {
                            assert(!tset(a).contains(value));
                            assert(tset(c) =~= Set::<u64>::empty());
                            assert(tset(t0) == tset(a).union(tset(c)).insert(xv));
                            assert(tset(*node) =~= tset(t0).remove(value));
                        }
                    }
                    Some(sv) => {
                        let ghost c1 = n.right;
                        n.value = sv;
                        *node = Some(n);
                        proof {
                            assert(tset(c).contains(sv));
                            assert(sv > xv);
                            assert forall|x: u64| tset(a).contains(x) implies x < sv by {
                                assert(x < xv);
                            }
                            assert forall|x: u64| tset(c1).contains(x) implies x > sv by {
                                assert(tset(c).contains(x));
                            }
                            assert(ordered(*node));
                            assert(tset(*node) == tset(a).union(tset(c1)).insert(sv));
                            assert forall|x: u64|
                                tset(*node).contains(x) == tset(t0).remove(value).contains(
                                x,
                            ) by {
                                if tset(a).contains(x) {
                                    assert(x < xv);
                                }
                                if tset(c).contains(x) {
                                    assert(x > xv);
                                }
                            }
                            assert(tset(*node) =~= tset(t0).remove(value));
                        }
                    }
                }
            } else if value < n.value {
                delete_plain(&mut n.left, value);
                let ghost a1 = n.left;
                *node = Some(n);
                proof {
                    assert forall|x: u64| tset(a1).contains(x) implies x < xv by {
                        assert(tset(a).contains(x));
                    }
                    assert(ordered(*node));
                    assert(!tset(c).contains(value));
                    assert(tset(*node) =~= tset(t0).remove(value));
                    if !tset(t0).contains(value) {
                        assert(!tset(a).contains(value));
                        assert(*node == t0);
                    }
                }
            } else {
                delete_plain(&mut n.right, value);
                let ghost c1 = n.right;
                *node = Some(n);
                proof {
                    assert forall|x: u64| tset(c1).contains(x) implies x > xv by {
                        assert(tset(c).contains(x));
                    }
                    assert(ordered(*node));
                    assert(!tset(a).contains(value));
                    assert(tset(*node) =~= tset(t0).remove(value));
                    if !tset(t0).contains(value) {
                        assert(!tset(c).contains(value));
                        assert(*node == t0);
                    }
                }
            }
        }
    }
}

/// An unbalanced binary-search-tree set of `u64` values.
#[derive(Debug)]
pub struct Tree {
    root: Option<Box<Node>>,
}

impl View for Tree {
    type V = Set<u64>;

    closed spec fn view(&self) -> Set<u64> {
        tset(self.root)
    }
}

impl Tree {
    /// The search-order invariant holds of every cell.
    pub closed spec fn well_formed(self) -> bool {
        ordered(self.root)
    }

    /// The value at the root, if any.
    pub closed spec fn root_val(self) -> Option<u64> {
        match self.root {
            None => None::<u64>,
            Some(n) => Some(n.value),
        }
    }

    /// The value at the root of the left subtree of the root, if any.
    pub closed spec fn left_val(self) -> Option<u64> {
        match self.root {
            None => None::<u64>,
            Some(n) => match n.left {
                None => None::<u64>,
                Some(l) => Some(l.value),
            },
        }
    }

    /// The value at the root of the right subtree of the root, if any.
    pub closed spec fn right_val(self) -> Option<u64> {
        match self.root {
            None => None::<u64>,
            Some(n) => match n.right {
                None => None::<u64>,
                Some(r) => Some(r.value),
            },
        }
    }

    /// An empty tree.
    pub fn new() -> (tree: Tree)
        ensures
            tree.well_formed(),
            tree@ == Set::<u64>::empty(),
    {
        Tree { root: None }
    }

    /// Whether `value` is in the set.
    pub fn contains(&self, value: u64) -> (found: bool)
        requires
            self.well_formed(),
        ensures
            found == self@.contains(value),
    {
        contains_at(&self.root, value)
    }

    /// Add `value` to the set.  Inserting a value that is already present is
    /// a no-op that leaves the tree unchanged, cell for cell.
    pub fn insert(&mut self, value: u64)
        requires
            old(self).well_formed(),
        ensures
            final(self).well_formed(),
            final(self)@ == old(self)@.insert(value),
            old(self)@.contains(value) ==> *final(self) == *old(self),
    {
        insert_plain(&mut self.root, value);
    }

    /// Remove `value` from the set.  Deleting an absent value is a no-op
    /// that leaves the tree unchanged, cell for cell.
    pub fn delete(&mut self, value: u64)
        requires
            old(self).well_formed(),
        ensures
            final(self).well_formed(),
            final(self)@ == old(self)@.remove(value),
            !old(self)@.contains(value) ==> *final(self) == *old(self),
    {
        delete_plain(&mut self.root, value);
    }

    /// Left rotation at the root: when the root has a right child, that
    /// child is promoted to the root and the old root becomes its left
    /// child.  The set of values and the search order are preserved.
    pub fn rotate_left(&mut self)
        requires
            old(self).well_formed(),
        ensures
            final(self).well_formed(),
            final(self)@ == old(self)@,
            old(self).right_val().is_some() ==> final(self).root_val() == old(self).right_val()
                && final(self).left_val() == old(self).root_val(),
            old(self).right_val().is_none() ==> *final(self) == *old(self),
    {
        rotate_left(&mut self.root);
    }

    /// Right rotation at the root: the mirror image of `rotate_left`.
    pub fn rotate_right(&mut self)
        requires
            old(self).well_formed(),
        ensures
            final(self).well_formed(),
            final(self)@ == old(self)@,
            old(self).left_val().is_some() ==> final(self).root_val() == old(self).left_val()
                && final(self).right_val() == old(self).root_val(),
            old(self).left_val().is_none() ==> *final(self) == *old(self),
    {
        rotate_right(&mut self.root);
    }
}

} // verus!
