//! The height-balanced (AVL) binary search tree: insertion, deletion and
//! membership query over `u64` values, with the search-order and balance
//! invariants restored by rotations after every structural mutation.

use vstd::prelude::*;

use crate::node::{
    Node, contains_at, height_of, lemma_size_is_len, ordered, rotate_left, rotate_right, size_of,
    tset,
};

verus! {

/// The balance invariant: at every cell the heights of the two subtrees
/// differ by at most one.
pub(crate) open spec fn balanced(t: Option<Box<Node>>) -> bool
    decreases t,
{
    match t {
        None => true,
        Some(n) => {
            &&& balanced(n.left)
            &&& balanced(n.right)
            &&& height_of(n.left) <= height_of(n.right) + 1
            &&& height_of(n.right) <= height_of(n.left) + 1
        },
    }
}

/// The balance factor of a subtree: height of the right subtree minus height
/// of the left subtree, 0 for an absent subtree.
pub(crate) open spec fn bal(t: Option<Box<Node>>) -> int {
    match t {
        None => 0,
        Some(n) => height_of(n.right) - height_of(n.left),
    }
}

/// A well-formed subtree: ordered and balanced everywhere.
pub(crate) open spec fn wf(t: Option<Box<Node>>) -> bool {
    ordered(t) && balanced(t)
}

/// The Fibonacci sequence, used to state the classic AVL height bound: a
/// balanced tree of height `h` holds at least `fib(h + 2) - 1` values.
pub open spec fn fib(n: nat) -> nat
    decreases n,
{
    if n == 0 {
        0
    } else if n == 1 {
        1
    } else {
        fib((n - 2) as nat) + fib((n - 1) as nat)
    }
}

spec fn pow2(k: nat) -> nat
    decreases k,
{
    if k == 0 {
        1
    } else {
        2 * pow2((k - 1) as nat)
    }
}

/// The Fibonacci sequence never decreases.
proof fn lemma_fib_mono(i: nat, j: nat)
    requires
        i <= j,
    ensures
        fib(i) <= fib(j),
    decreases j,
{
    if i < j {
        lemma_fib_mono(i, (j - 1) as nat);
        if j >= 2 {
            assert(fib(j) == fib((j - 2) as nat) + fib((j - 1) as nat));
        }
    }
}

/// A balanced subtree of height `h` holds at least `fib(h + 2) - 1` values:
/// the minimal balanced shape of height `h` is a root over the minimal shapes
/// of heights `h - 1` and `h - 2`, which is the Fibonacci recurrence.
proof fn lemma_balanced_size(t: Option<Box<Node>>)
    requires
        balanced(t),
    ensures
        size_of(t) + 1 >= fib(height_of(t) + 2),
    decreases t,
{
    match t {
        None => {
            assert(fib(2) == fib(0) + fib(1)) by {
                reveal_with_fuel(fib, 3);
            }
        }
        Some(n) => {
            lemma_balanced_size(n.left);
            lemma_balanced_size(n.right);
            let hl = height_of(n.left);
            let hr = height_of(n.right);
            let h = height_of(t);
            assert(fib(h + 2) == fib(h) + fib(h + 1));
            if hl >= hr {
                lemma_fib_mono(h, hr + 2);
            } else {
                lemma_fib_mono(h, hl + 2);
            }
        }
    }
}

/// Every other step, the Fibonacci sequence at least doubles.
proof fn lemma_fib_pow2(k: nat)
    ensures
        fib(2 * k + 2) >= pow2(k),
    decreases k,
{
    if k == 0 {
        assert(fib(2) == fib(0) + fib(1));
    } else {
        lemma_fib_pow2((k - 1) as nat);
        lemma_fib_mono(2 * k, 2 * k + 1);
        assert(fib(2 * k + 2) == fib(2 * k) + fib(2 * k + 1));
    }
}

/// An ordered subtree whose values all lie between `lo` and `hi` inclusive
/// holds at most `hi - lo + 1` of them.
proof fn lemma_size_in_range(t: Option<Box<Node>>, lo: int, hi: int)
    requires
        ordered(t),
        forall|x: u64| tset(t).contains(x) ==> lo <= x <= hi,
    ensures
        size_of(t) <= if hi + 1 - lo >= 0 {
            hi + 1 - lo
        } else {
            0
        },
    decreases t,
{
    match t {
        None => {}
        Some(n) => {
            let v = n.value;
            assert(tset(t).contains(v));
            assert forall|x: u64| tset(n.left).contains(x) implies lo <= x <= v - 1 by {
                assert(tset(t).contains(x));
            }
            assert forall|x: u64| tset(n.right).contains(x) implies v + 1 <= x <= hi by {
                assert(tset(t).contains(x));
            }
            lemma_size_in_range(n.left, lo, v - 1);
            lemma_size_in_range(n.right, v + 1, hi);
        }
    }
}

/// Every value is a `u64`, so an ordered subtree holds at most `2^64` values.
proof fn lemma_size_bound(t: Option<Box<Node>>)
    requires
        ordered(t),
    ensures
        size_of(t) <= 0x1_0000_0000_0000_0000,
{
    lemma_size_in_range(t, 0, 0xffff_ffff_ffff_ffff);
}

/// A well-formed subtree is shallow: at most `2^64` distinct `u64` values fit
/// in it, and balance then forces the height below 132.
pub(crate) proof fn lemma_height_small(t: Option<Box<Node>>)
    requires
        wf(t),
    ensures
        height_of(t) <= 131,
{
    let h = height_of(t);
    if h > 131 {
        lemma_balanced_size(t);
        lemma_fib_mono(134, h + 2);
        lemma_fib_pow2(66);
        lemma_size_bound(t);
        assert(pow2(66) == 0x4_0000_0000_0000_0000) by {
            reveal_with_fuel(pow2, 67);
        }
        assert(false);
    }
}

/// The height of a subtree, computed by full recursive traversal.
pub(crate) fn subtree_height(t: &Option<Box<Node>>) -> (h: u64)
    requires
        wf(*t),
    ensures
        h == height_of(*t),
    decreases *t,
{
    match t {
        None => 0,
        Some(n) => {
            proof {
                lemma_height_small(*t);
            }
            let hl = subtree_height(&n.left);
            let hr = subtree_height(&n.right);
            if hl >= hr {
                hl + 1
            } else {
                hr + 1
            }
        }
    }
}

/// The balance factor of a subtree whose children are well-formed.
pub(crate) fn balance_factor(t: &Option<Box<Node>>) -> (b: i64)
    requires
        (match *t {
            None => true,
            Some(n) => wf(n.left) && wf(n.right),
        }),
    ensures
        b == bal(*t),
{
    match t {
        None => 0,
        Some(n) => {
            proof {
                lemma_height_small(n.left);
                lemma_height_small(n.right);
            }
            let hl = subtree_height(&n.left);
            let hr = subtree_height(&n.right);
            (hr as i64) - (hl as i64)
        }
    }
}

/// Restore the balance invariant at the root of a subtree whose children are
/// already balanced and whose own balance factor has drifted to at most 2 in
/// magnitude, using at most two rotations; the set of values, the search
/// order, and all but the top of the height are preserved.  A subtree that is
/// already in balance is returned unchanged.
///
/// The height bookkeeping in the postconditions records the classic facts:
/// a rotation triggered by a drift of 2 lowers the height by exactly one,
/// except in the case where the taller child is itself perfectly level (a
/// case that only deletion can produce), where the height is kept.
pub(crate) fn rebalance(node: &mut Option<Box<Node>>)
    requires
        ordered(*old(node)),
        (match *old(node) {
            None => true,
            Some(n) => balanced(n.left) && balanced(n.right),
        }),
        -2 <= bal(*old(node)) <= 2,
    ensures
        tset(*final(node)) == tset(*old(node)),
        wf(*final(node)),
        -1 <= bal(*old(node)) <= 1 ==> *final(node) == *old(node),
        height_of(*final(node)) <= height_of(*old(node)),
        height_of(*old(node)) <= height_of(*final(node)) + 1,
        bal(*old(node)) == 2 ==> (if bal(old(node).unwrap().right) == 0 {
            height_of(*final(node)) == height_of(*old(node))
        } else {
            height_of(*final(node)) + 1 == height_of(*old(node))
        }),
        bal(*old(node)) == -2 ==> (if bal(old(node).unwrap().left) == 0 {
            height_of(*final(node)) == height_of(*old(node))
        } else {
            height_of(*final(node)) + 1 == height_of(*old(node))
        }),
{
    let bf = balance_factor(node);
    if bf > 1 {
        proof {
            assert(old(node).is_some());
        }
        let mut n = node.take().unwrap();
        let ghost a = n.left;
        let ghost r0 = n.right;
        let ghost hl = height_of(a);
        proof {
            assert(height_of(r0) == hl + 2);
            assert(r0.is_some());
            assert(balanced(r0) && ordered(r0));
            assert(wf(r0.unwrap().left) && wf(r0.unwrap().right));
            assert(height_of(*old(node)) == hl + 3);
        }
        let rbf = balance_factor(&n.right);
        let ghost b = r0.unwrap().left;
        let ghost c = r0.unwrap().right;
        if rbf == -1 {
            proof {
                assert(height_of(b) == hl + 1 && height_of(c) == hl);
                assert(b.is_some());
            }
            rotate_right(&mut n.right);
            proof {
                let ghost d = b.unwrap().left;
                let ghost e = b.unwrap().right;
                assert(height_of(b) == 1 + if height_of(d) >= height_of(e) {
                    height_of(d)
                } else {
                    height_of(e)
                });
                let r1 = n.right;
                assert(r1.is_some());
                assert(r1.unwrap().left == d);
                assert(r1.unwrap().right.is_some());
                assert(r1.unwrap().right.unwrap().left == e);
                assert(r1.unwrap().right.unwrap().right == c);
                assert(ordered(r0));
                assert(ordered(r1));
                assert(tset(r1) == tset(r0));
            }
        }
        *node = Some(n);
        proof {
            let tm = *node;
            assert(tm.unwrap().left == a);
            assert(ordered(r0) && balanced(r0));
            if rbf != -1 {
                assert(n.right == r0);
                assert(ordered(tm));
            } else {
                let r1 = n.right;
                assert forall|x: u64| tset(r1).contains(x) implies x > tm.unwrap().value by {
                    assert(tset(r0).contains(x));
                }
                assert(ordered(tm));
            }
        }
        rotate_left(node);
        proof {
            let t0 = *old(node);
            let t1 = *node;
            let tl = t1.unwrap().left;
            let tr = t1.unwrap().right;
            assert(tl.is_some());
            assert(tl.unwrap().left == a);
            if rbf == -1 {
                let d = b.unwrap().left;
                let e = b.unwrap().right;
                assert(height_of(d) <= hl && height_of(e) <= hl);
                assert(tl.unwrap().right == d);
                assert(height_of(tl) == hl + 1);
                assert(tr.is_some());
                assert(tr.unwrap().left == e && tr.unwrap().right == c);
                assert(height_of(tr) == hl + 1);
                assert(balanced(b));
                assert(balanced(tl) && balanced(tr));
                assert(balanced(t1));
                assert(height_of(t1) == hl + 2);
            } else {
                assert(height_of(b) <= hl + 1 && height_of(c) <= hl + 1);
                assert(tl.unwrap().right == b);
                assert(tr == c);
                assert(height_of(tl) == 1 + if hl >= height_of(b) {
                    hl
                } else {
                    height_of(b)
                });
                assert(balanced(tl) && balanced(tr));
                if rbf == 0 {
                    assert(height_of(b) == hl + 1 && height_of(c) == hl + 1);
                    assert(height_of(t1) == hl + 3);
                } else {
                    assert(bal(r0) == rbf as int);
                    assert(height_of(c) == hl + 1 && height_of(b) == hl);
                    assert(height_of(t1) == hl + 2);
                }
                assert(balanced(t1));
            }
            assert(tset(t1) == tset(t0));
        }
    } else if bf < -1 {
        proof {
            assert(old(node).is_some());
        }
        let mut n = node.take().unwrap();
        let ghost c = n.right;
        let ghost l0 = n.left;
        let ghost hr = height_of(c);
        proof {
            assert(height_of(l0) == hr + 2);
            assert(l0.is_some());
            assert(balanced(l0) && ordered(l0));
            assert(wf(l0.unwrap().left) && wf(l0.unwrap().right));
            assert(height_of(*old(node)) == hr + 3);
        }
        let lbf = balance_factor(&n.left);
        let ghost a = l0.unwrap().left;
        let ghost b = l0.unwrap().right;
        if lbf == 1 {
            proof {
                assert(height_of(b) == hr + 1 && height_of(a) == hr);
                assert(b.is_some());
            }
            rotate_left(&mut n.left);
            proof {
                let ghost d = b.unwrap().left;
                let ghost e = b.unwrap().right;
                assert(height_of(b) == 1 + if height_of(d) >= height_of(e) {
                    height_of(d)
                } else {
                    height_of(e)
                });
                let l1 = n.left;
                assert(l1.is_some());
                assert(l1.unwrap().right == e);
                assert(l1.unwrap().left.is_some());
                assert(l1.unwrap().left.unwrap().right == d);
                assert(l1.unwrap().left.unwrap().left == a);
                assert(ordered(l0));
                assert(ordered(l1));
                assert(tset(l1) == tset(l0));
            }
        }
        *node = Some(n);
        proof {
            let tm = *node;
            assert(tm.unwrap().right == c);
            assert(ordered(l0) && balanced(l0));
            if lbf != 1 {
                assert(n.left == l0);
                assert(ordered(tm));
            } else {
                let l1 = n.left;
                assert forall|x: u64| tset(l1).contains(x) implies x < tm.unwrap().value by {
                    assert(tset(l0).contains(x));
                }
                assert(ordered(tm));
            }
        }
        rotate_right(node);
        proof {
            let t0 = *old(node);
            let t1 = *node;
            let tl = t1.unwrap().left;
            let tr = t1.unwrap().right;
            assert(tr.is_some());
            assert(tr.unwrap().right == c);
            if lbf == 1 {
                let d = b.unwrap().left;
                let e = b.unwrap().right;
                assert(height_of(d) <= hr && height_of(e) <= hr);
                assert(tr.unwrap().left == e);
                assert(height_of(tr) == hr + 1);
                assert(tl.is_some());
                assert(tl.unwrap().right == d && tl.unwrap().left == a);
                assert(height_of(tl) == hr + 1);
                assert(balanced(b));
                assert(balanced(tl) && balanced(tr));
                assert(balanced(t1));
                assert(height_of(t1) == hr + 2);
            } else {
                assert(height_of(b) <= hr + 1 && height_of(a) <= hr + 1);
                assert(tr.unwrap().left == b);
                assert(tl == a);
                assert(height_of(tr) == 1 + if height_of(b) >= hr {
                    height_of(b)
                } else {
                    hr
                });
                assert(balanced(tl) && balanced(tr));
                if lbf == 0 {
                    assert(height_of(b) == hr + 1 && height_of(a) == hr + 1);
                    assert(height_of(t1) == hr + 3);
                } else {
                    assert(bal(l0) == lbf as int);
                    assert(height_of(a) == hr + 1 && height_of(b) == hr);
                    assert(height_of(t1) == hr + 2);
                }
                assert(balanced(t1));
            }
            assert(tset(t1) == tset(t0));
        }
    }
}

/// Insert `value` into a well-formed subtree: descend along the search
/// order, add one leaf where the recursion finds an absent slot, and restore
/// balance at every level on the way back up.  Inserting a value that is
/// already present leaves the subtree unchanged.  The height grows by at most
/// one, and whenever it grows past one the subtree cannot be level, a fact
/// the rebalancing step of the caller depends on.
pub(crate) fn insert_at(node: &mut Option<Box<Node>>, value: u64)
    requires
        wf(*old(node)),
    ensures
        wf(*final(node)),
        tset(*final(node)) == tset(*old(node)).insert(value),
        tset(*old(node)).contains(value) ==> *final(node) == *old(node),
        height_of(*old(node)) <= height_of(*final(node)),
        height_of(*final(node)) <= height_of(*old(node)) + 1,
        height_of(*final(node)) > height_of(*old(node)) && height_of(*final(node)) >= 2
            ==> bal(*final(node)) != 0,
    decreases *old(node),
{
    match node.take() {
        None => {
            *node = Some(Box::new(Node { left: None, right: None, value }));
            proof {
                assert(tset(*node) =~= tset(*old(node)).insert(value));
                assert(height_of(*node) == 1);
            }
        }
        Some(mut n) => {
            let ghost t0 = *old(node);
            let ghost a = n.left;
            let ghost c = n.right;
            let ghost xv = n.value;
            if value < n.value {
                insert_at(&mut n.left, value);
                let ghost a1 = n.left;
                *node = Some(n);
                proof {
                    let tm = *node;
                    assert(!tset(c).contains(value));
                    assert forall|x: u64| tset(a1).contains(x) implies x < xv by {
                        if tset(a).contains(x) {
                        } else {
                            assert(x == value);
                        }
                    }
                    assert(ordered(tm));
                    assert(height_of(tm) <= height_of(t0) + 1);
                    assert(bal(tm) <= bal(t0) <= bal(tm) + 1);
                    if bal(tm) == -2 {
                        assert(height_of(a1) == height_of(c) + 2);
                        assert(height_of(a1) == height_of(a) + 1);
                        assert(bal(a1) != 0);
                    }
                }
                rebalance(node);
                proof {
                    let t1 = *node;
                    let tm = Some(n);
                    assert(tset(t1) =~= tset(t0).insert(value));
                    if tset(t0).contains(value) {
                        assert(tset(a).contains(value));
                        assert(n.left == a);
                        assert(tm == t0);
                        assert(t1 == t0);
                    }
                    assert(height_of(t0) <= height_of(t1));
                    if height_of(t1) > height_of(t0) {
                        assert(t1 == tm);
                        assert(height_of(n.left) > height_of(c));
                        assert(bal(t1) != 0);
                    }
                }
            } else if value > n.value {
                insert_at(&mut n.right, value);
                let ghost c1 = n.right;
                *node = Some(n);
                proof {
                    let tm = *node;
                    assert(!tset(a).contains(value));
                    assert forall|x: u64| tset(c1).contains(x) implies x > xv by {
                        if tset(c).contains(x) {
                        } else {
                            assert(x == value);
                        }
                    }
                    assert(ordered(tm));
                    assert(height_of(tm) <= height_of(t0) + 1);
                    assert(bal(tm) - 1 <= bal(t0) <= bal(tm));
                    if bal(tm) == 2 {
                        assert(height_of(c1) == height_of(a) + 2);
                        assert(height_of(c1) == height_of(c) + 1);
                        assert(bal(c1) != 0);
                    }
                }
                rebalance(node);
                proof {
                    let t1 = *node;
                    let tm = Some(n);
                    assert(tset(t1) =~= tset(t0).insert(value));
                    if tset(t0).contains(value) {
                        assert(tset(c).contains(value));
                        assert(n.right == c);
                        assert(tm == t0);
                        assert(t1 == t0);
                    }
                    assert(height_of(t0) <= height_of(t1));
                    if height_of(t1) > height_of(t0) {
                        assert(t1 == tm);
                        assert(height_of(n.right) > height_of(a));
                        assert(bal(t1) != 0);
                    }
                }
            } else {
                *node = Some(n);
                proof {
                    assert(tset(t0).contains(value));
                    assert(tset(*node) =~= tset(t0).insert(value));
                }
            }
        }
    }
}

/// Detach the smallest value of a well-formed subtree: descend along left
/// children to the minimum, splice that cell's right subtree into the gap it
/// leaves, and restore balance at every level on the way back up.  Returns
/// `None` exactly on the empty subtree.  The height shrinks by at most one.
pub(crate) fn take_smallest(node: &mut Option<Box<Node>>) -> (res: Option<u64>)
    requires
        wf(*old(node)),
    ensures
        wf(*final(node)),
        old(node).is_none() ==> res.is_none() && *final(node) == *old(node),
        old(node).is_some() ==> ({
            &&& res.is_some()
            &&& tset(*old(node)).contains(res.unwrap())
            &&& (forall|x: u64| tset(*old(node)).contains(x) ==> res.unwrap() <= x)
            &&& tset(*final(node)) == tset(*old(node)).remove(res.unwrap())
            &&& height_of(*final(node)) <= height_of(*old(node))
            &&& height_of(*old(node)) <= height_of(*final(node)) + 1
        }),
    decreases *old(node),
{
    match node.take() {
        None => None,
        Some(mut n) => {
            let ghost t0 = *old(node);
            let ghost a = n.left;
            let ghost c = n.right;
            let ghost xv = n.value;
            if n.left.is_none() {
                let result = n.value;
                *node = n.right;
                proof {
                    assert(tset(t0).contains(result));
                    assert(tset(a) =~= Set::<u64>::empty());
                    assert(tset(t0) == tset(a).union(tset(c)).insert(xv));
                    assert forall|x: u64|
                        tset(*node).contains(x) == tset(t0).remove(result).contains(x) by {
                        if tset(c).contains(x) {
                            assert(x > xv);
                        }
                    }
                    assert(tset(*node) =~= tset(t0).remove(result));
                    assert(height_of(t0) == height_of(c) + 1);
                }
                Some(result)
            } else {
                let r = take_smallest(&mut n.left);
                let ghost a1 = n.left;
                let rv = r.unwrap();
                *node = Some(n);
                proof {
                    let tm = *node;
                    assert(tset(a).contains(rv));
                    assert(rv < xv);
                    assert forall|x: u64| tset(a1).contains(x) implies x < xv by {
                        assert(tset(a).contains(x));
                    }
                    assert(ordered(tm));
                    assert(bal(t0) - 1 <= bal(tm) <= bal(t0) + 1);
                    assert(height_of(t0) - 1 <= height_of(tm) <= height_of(t0));
                    if bal(tm) == 2 {
                        assert(height_of(c) == height_of(a1) + 2);
                        assert(height_of(a1) + 1 == height_of(a));
                        assert(height_of(t0) == height_of(c) + 1);
                        assert(height_of(tm) == height_of(t0));
                    }
                    assert(tset(tm) == tset(a1).union(tset(c)).insert(xv));
                    assert forall|x: u64|
                        tset(tm).contains(x) == tset(t0).remove(rv).contains(x) by {
                        if tset(c).contains(x) {
                            assert(x > xv);
                        }
                        if tset(a).contains(x) {
                            assert(x < xv);
                        }
                    }
                    assert(tset(tm) =~= tset(t0).remove(rv));
                }
                rebalance(node);
                proof {
                    assert(tset(t0).contains(rv));
                    assert forall|x: u64| tset(t0).contains(x) implies rv <= x by {
                        if tset(a).contains(x) {
                        } else if tset(c).contains(x) {
                            assert(x > xv);
                        } else {
                            assert(x == xv);
                        }
                    }
                }
                Some(rv)
            }
        }
    }
}

/// Delete `value` from a well-formed subtree: locate it by order-guided
/// descent; a cell with at most one child is dropped or replaced by that
/// child, while a cell with two children has its value replaced by its
/// in-order successor, the smallest value of the right subtree, which is
/// detached from there.  Balance is restored at every level on the way back
/// up.  Deleting an absent value leaves the subtree unchanged, and the height
/// shrinks by at most one.
pub(crate) fn delete_at(node: &mut Option<Box<Node>>, value: u64)
    requires
        wf(*old(node)),
    ensures
        wf(*final(node)),
        tset(*final(node)) == tset(*old(node)).remove(value),
        !tset(*old(node)).contains(value) ==> *final(node) == *old(node),
        height_of(*final(node)) <= height_of(*old(node)),
        height_of(*old(node)) <= height_of(*final(node)) + 1,
    decreases *old(node),
{
    match node.take() {
        None => {
            proof {
                assert(tset(*node) =~= tset(*old(node)).remove(value));
            }
        }
        Some(mut n) => {
            let ghost t0 = *old(node);
            let ghost a = n.left;
            let ghost c = n.right;
            let ghost xv = n.value;
            if value == n.value {
                let succ = take_smallest(&mut n.right);
                match succ {
                    None => {
                        *node = n.left;
                        proof {
                            assert(!tset(a).contains(value));
                            assert(tset(c) =~= Set::<u64>::empty());
                            assert(tset(t0) == tset(a).union(tset(c)).insert(xv));
                            assert(tset(*node) =~= tset(t0).remove(value));
                            assert(height_of(t0) == height_of(a) + 1);
                            assert(balanced(a) && ordered(a));
                            assert((match a {
                                None => true,
                                Some(m) => balanced(m.left) && balanced(m.right),
                            }));
                            assert(-1 <= bal(a) <= 1);
                        }
                    }
                    Some(sv) => {
                        let ghost c1 = n.right;
                        n.value = sv;
                        *node = Some(n);
                        proof {
                            let tm = *node;
                            assert(tset(c).contains(sv));
                            assert(sv > xv);
                            assert forall|x: u64| tset(a).contains(x) implies x < sv by {
                                assert(x < xv);
                            }
                            assert forall|x: u64| tset(c1).contains(x) implies x > sv by {
                                assert(tset(c).contains(x));
                            }
                            assert(ordered(tm));
                            assert(bal(t0) - 1 <= bal(tm) <= bal(t0));
                            assert(height_of(t0) - 1 <= height_of(tm) <= height_of(t0));
                            if bal(tm) == -2 {
                                assert(height_of(a) == height_of(c1) + 2);
                                assert(height_of(c1) + 1 == height_of(c));
                                assert(height_of(t0) == height_of(a) + 1);
                                assert(height_of(tm) == height_of(t0));
                            }
                            assert(tset(tm) == tset(a).union(tset(c1)).insert(sv));
                            assert forall|x: u64|
                                tset(tm).contains(x) == tset(t0).remove(value).contains(x) by {
                                if tset(a).contains(x) {
                                    assert(x < xv);
                                }
                                if tset(c).contains(x) {
                                    assert(x > xv);
                                }
                            }
                            assert(tset(tm) =~= tset(t0).remove(value));
                        }
                    }
                }
                rebalance(node);
            } else if value < n.value {
                delete_at(&mut n.left, value);
                let ghost a1 = n.left;
                *node = Some(n);
                proof {
                    let tm = *node;
                    assert forall|x: u64| tset(a1).contains(x) implies x < xv by {
                        assert(tset(a).contains(x));
                    }
                    assert(ordered(tm));
                    assert(bal(t0) <= bal(tm) <= bal(t0) + 1);
                    assert(height_of(t0) - 1 <= height_of(tm) <= height_of(t0));
                    if bal(tm) == 2 {
                        assert(height_of(c) == height_of(a1) + 2);
                        assert(height_of(a1) + 1 == height_of(a));
                        assert(height_of(t0) == height_of(c) + 1);
                        assert(height_of(tm) == height_of(t0));
                    }
                }
                rebalance(node);
                proof {
                    let t1 = *node;
                    assert(!tset(c).contains(value));
                    assert(tset(t1) =~= tset(t0).remove(value));
                    if !tset(t0).contains(value) {
                        assert(!tset(a).contains(value));
                        assert(n.left == a);
                        assert(t1 == t0);
                    }
                }
            } else {
                delete_at(&mut n.right, value);
                let ghost c1 = n.right;
                *node = Some(n);
                proof {
                    let tm = *node;
                    assert forall|x: u64| tset(c1).contains(x) implies x > xv by {
                        assert(tset(c).contains(x));
                    }
                    assert(ordered(tm));
                    assert(bal(t0) - 1 <= bal(tm) <= bal(t0));
                    assert(height_of(t0) - 1 <= height_of(tm) <= height_of(t0));
                    if bal(tm) == -2 {
                        assert(height_of(a) == height_of(c1) + 2);
                        assert(height_of(c1) + 1 == height_of(c));
                        assert(height_of(t0) == height_of(a) + 1);
                        assert(height_of(tm) == height_of(t0));
                    }
                }
                rebalance(node);
                proof {
                    let t1 = *node;
                    assert(!tset(a).contains(value));
                    assert(tset(t1) =~= tset(t0).remove(value));
                    if !tset(t0).contains(value) {
                        assert(!tset(c).contains(value));
                        assert(n.right == c);
                        assert(t1 == t0);
                    }
                }
            }
        }
    }
}

/// `lo`, when given, as an exclusive lower bound on every value of a subtree.
spec fn above(t: Option<Box<Node>>, lo: Option<u64>) -> bool {
    match lo {
        None => true,
        Some(l) => forall|x: u64| tset(t).contains(x) ==> x > l,
    }
}

/// `hi`, when given, as an exclusive upper bound on every value of a subtree.
spec fn below(t: Option<Box<Node>>, hi: Option<u64>) -> bool {
    match hi {
        None => true,
        Some(h) => forall|x: u64| tset(t).contains(x) ==> x < h,
    }
}

/// Recursive runtime check of both invariants on a subtree whose values must
/// lie strictly between `lo` and `hi` where those bounds are given.  Returns
/// whether the check passed and, when it did, the height of the subtree.
fn check_at(t: &Option<Box<Node>>, lo: Option<u64>, hi: Option<u64>) -> (r: (bool, u64))
    ensures
        r.0 == (wf(*t) && above(*t, lo) && below(*t, hi)),
        r.0 ==> r.1 == height_of(*t),
    decreases *t,
{
    match t {
        None => (true, 0),
        Some(n) => {
            let in_lo = match lo {
                None => true,
                Some(l) => n.value > l,
            };
            let in_hi = match hi {
                None => true,
                Some(h) => n.value < h,
            };
            if !in_lo || !in_hi {
                proof {
                    assert(tset(*t).contains(n.value));
                }
                return (false, 0);
            }
            let (okl, hl) = check_at(&n.left, lo, Some(n.value));
            if !okl {
                proof {
                    if wf(*t) && above(*t, lo) && below(*t, hi) {
                        if lo.is_some() {
                            assert forall|x: u64| tset(n.left).contains(x) implies x
                                > lo.unwrap() by {
                                assert(tset(*t).contains(x));
                            }
                        }
                        assert(above(n.left, lo) && below(n.left, Some(n.value)));
                        assert(false);
                    }
                }
                return (false, 0);
            }
            let (okr, hr) = check_at(&n.right, Some(n.value), hi);
            if !okr {
                proof {
                    if wf(*t) && above(*t, lo) && below(*t, hi) {
                        if hi.is_some() {
                            assert forall|x: u64| tset(n.right).contains(x) implies x
                                < hi.unwrap() by {
                                assert(tset(*t).contains(x));
                            }
                        }
                        assert(above(n.right, Some(n.value)) && below(n.right, hi));
                        assert(false);
                    }
                }
                return (false, 0);
            }
            proof {
                lemma_height_small(n.left);
                lemma_height_small(n.right);
            }
            if hl + 1 < hr || hr + 1 < hl {
                proof {
                    assert(!balanced(*t));
                }
                return (false, 0);
            }
            proof {
                if lo.is_some() {
                    assert forall|x: u64| tset(*t).contains(x) implies x > lo.unwrap() by {
                        if tset(n.left).contains(x) {
                        } else if tset(n.right).contains(x) {
                            assert(x > n.value);
                        } else {
                            assert(x == n.value);
                        }
                    }
                }
                if hi.is_some() {
                    assert forall|x: u64| tset(*t).contains(x) implies x < hi.unwrap() by {
                        if tset(n.right).contains(x) {
                        } else if tset(n.left).contains(x) {
                            assert(x < n.value);
                        } else {
                            assert(x == n.value);
                        }
                    }
                }
                assert(wf(*t));
            }
            let h = if hl >= hr {
                hl
            } else {
                hr
            };
            (true, h + 1)
        }
    }
}

/// A height-balanced binary-search-tree set of `u64` values.  Every public
/// operation keeps both invariants: search order and balance.
#[derive(Debug)]
pub struct Tree {
    root: Option<Box<Node>>,
}

impl View for Tree {
    type V = Set<u64>;

    closed spec fn view(&self) -> Set<u64> {
        tset(self.root)
    }
}

impl Tree {
    /// Both invariants hold of every cell: search order and balance.
    pub closed spec fn well_formed(self) -> bool {
        wf(self.root)
    }

    /// The search-order invariant alone; rotations preserve it even where
    /// they disturb the balance.
    pub closed spec fn search_ordered(self) -> bool {
        ordered(self.root)
    }

    /// The height of the tree: 0 when empty, otherwise one more than the
    /// taller subtree of the root.
    pub closed spec fn spec_height(self) -> nat {
        height_of(self.root)
    }

    /// The value at the root, if any.
    pub closed spec fn root_val(self) -> Option<u64> {
        match self.root {
            None => None::<u64>,
            Some(n) => Some(n.value),
        }
    }

    /// The value at the root of the left subtree of the root, if any.
    pub closed spec fn left_val(self) -> Option<u64> {
        match self.root {
            None => None::<u64>,
            Some(n) => match n.left {
                None => None::<u64>,
                Some(l) => Some(l.value),
            },
        }
    }

    /// The value at the root of the right subtree of the root, if any.
    pub closed spec fn right_val(self) -> Option<u64> {
        match self.root {
            None => None::<u64>,
            Some(n) => match n.right {
                None => None::<u64>,
                Some(r) => Some(r.value),
            },
        }
    }

    /// An empty tree.
    pub fn new() -> (tree: Tree)
        ensures
            tree.well_formed(),
            tree@ == Set::<u64>::empty(),
            tree.spec_height() == 0,
    {
        Tree { root: None }
    }

    /// Add `value` to the set.  Inserting a value that is already present is
    /// a no-op that leaves the tree unchanged, cell for cell; so inserting
    /// the same value twice yields the very tree that inserting it once
    /// yields.  The height grows by at most one.
    pub fn insert(&mut self, value: u64)
        requires
            old(self).well_formed(),
        ensures
            final(self).well_formed(),
            final(self)@ == old(self)@.insert(value),
            old(self)@.contains(value) ==> *final(self) == *old(self),
            old(self).spec_height() <= final(self).spec_height() <= old(self).spec_height()
                + 1,
    {
        insert_at(&mut self.root, value);
    }

    /// Whether `value` is in the set; read-only, order-guided descent.
    pub fn contains(&self, value: u64) -> (found: bool)
        requires
            self.well_formed(),
        ensures
            found == self@.contains(value),
    {
        contains_at(&self.root, value)
    }

    /// Remove `value` from the set.  Deleting an absent value is a no-op
    /// that leaves the tree unchanged, cell for cell.  The height shrinks by
    /// at most one.
    pub fn delete(&mut self, value: u64)
        requires
            old(self).well_formed(),
        ensures
            final(self).well_formed(),
            final(self)@ == old(self)@.remove(value),
            !old(self)@.contains(value) ==> *final(self) == *old(self),
            final(self).spec_height() <= old(self).spec_height() <= final(self).spec_height()
                + 1,
    {
        delete_at(&mut self.root, value);
    }

    /// The height of the tree, computed by full recursive traversal.
    pub fn height(&self) -> (h: u64)
        requires
            self.well_formed(),
        ensures
            h == self.spec_height(),
    {
        subtree_height(&self.root)
    }

    /// The value at the root, if any; `None` exactly on the empty set.
    pub fn root_value(&self) -> (v: Option<u64>)
        ensures
            v == self.root_val(),
            v.is_none() <==> self@ == Set::<u64>::empty(),
            v.is_some() ==> self@.contains(v.unwrap()),
    {
        match &self.root {
            None => {
                proof {
                    assert(self@ =~= Set::<u64>::empty());
                }
                None
            }
            Some(n) => {
                proof {
                    assert(self@.contains(n.value));
                }
                Some(n.value)
            }
        }
    }

    /// Left rotation at the root, exposed for demonstrating the rotation
    /// primitive on its own: when the root has a right child, that child is
    /// promoted to the root and the old root becomes its left child.  The
    /// set of values and the search order are preserved; the balance
    /// invariant is not, in general.
    pub fn rotate_left(&mut self)
        ensures
            final(self)@ == old(self)@,
            old(self).search_ordered() ==> final(self).search_ordered(),
            old(self).right_val().is_some() ==> final(self).root_val() == old(self).right_val()
                && final(self).left_val() == old(self).root_val(),
            old(self).right_val().is_none() ==> *final(self) == *old(self),
    {
        rotate_left(&mut self.root);
    }

    /// Right rotation at the root: the mirror image of `rotate_left`.
    pub fn rotate_right(&mut self)
        ensures
            final(self)@ == old(self)@,
            old(self).search_ordered() ==> final(self).search_ordered(),
            old(self).left_val().is_some() ==> final(self).root_val() == old(self).left_val()
                && final(self).right_val() == old(self).root_val(),
            old(self).left_val().is_none() ==> *final(self) == *old(self),
    {
        rotate_right(&mut self.root);
    }

    /// Recursive runtime check of the invariants on every cell of the tree,
    /// a diagnostic mirror of what `well_formed` states: it returns `true`
    /// exactly when the tree is well-formed, which every operation of this
    /// container preserves.
    pub fn check_invariants(&self) -> (ok: bool)
        ensures
            ok == self.well_formed(),
    {
        let r = check_at(&self.root, None, None);
        r.0
    }
}

/// The height bound that balance buys: a well-formed tree of height `h`
/// holds at least `fib(h + 2) - 1` values, so the height is logarithmic in
/// the number of values (at most `log(n + 2) / log phi`, about
/// `1.44 log2(n + 2)`, where `phi` is the golden ratio).
pub proof fn lemma_height_bound(tree: Tree)
    requires
        tree.well_formed(),
    ensures
        tree@.finite(),
        fib(tree.spec_height() + 2) <= tree@.len() + 1,
{
    lemma_size_is_len(tree.root);
    lemma_balanced_size(tree.root);
}

/// The set reached from `acc` by inserting every value of `values` in turn:
/// the view that a run of `insert` calls builds, one `Set::insert` per call.
pub open spec fn insert_all(acc: Set<u64>, values: Seq<u64>) -> Set<u64>
    decreases values.len(),
{
    if values.len() == 0 {
        acc
    } else {
        insert_all(acc.insert(values[0]), values.drop_first())
    }
}

proof fn lemma_insert_all_contains(acc: Set<u64>, values: Seq<u64>, x: u64)
    ensures
        insert_all(acc, values).contains(x) == (acc.contains(x) || values.contains(x)),
    decreases values.len(),
{
    if values.len() == 0 {
        assert(!values.contains(x));
    } else {
        let rest = values.drop_first();
        lemma_insert_all_contains(acc.insert(values[0]), rest, x);
        if x != values[0] {
            if rest.contains(x) {
                let i = choose|i: int| 0 <= i < rest.len() && rest[i] == x;
                assert(values[i + 1] == x);
            }
            if values.contains(x) {
                let i = choose|i: int| 0 <= i < values.len() && values[i] == x;
                assert(i != 0);
                assert(rest[i - 1] == x);
            }
        }
    }
}

/// The membership law: after inserting any sequence of values into an empty
/// tree, exactly the values of the sequence are contained; after then
/// deleting one value `y`, `y` is no longer contained while every other
/// inserted value still is.  Stated over the views that the contracts of
/// `Tree::insert`, `Tree::delete` and `Tree::contains` speak of.
pub proof fn lemma_membership(values: Seq<u64>, x: u64, y: u64)
    ensures
        insert_all(Set::<u64>::empty(), values).contains(x) == values.contains(x),
        !insert_all(Set::<u64>::empty(), values).remove(y).contains(y),
        x != y ==> insert_all(Set::<u64>::empty(), values).remove(y).contains(x)
            == values.contains(x),
{
    lemma_insert_all_contains(Set::<u64>::empty(), values, x);
    lemma_insert_all_contains(Set::<u64>::empty(), values, y);
}

} // verus!
