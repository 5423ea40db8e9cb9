//! A height-balanced (AVL) binary search tree with rotation-based rebalancing.
use vstd::prelude::*;

verus! {

/// One vertex of an AVL tree. `height` caches the height of the subtree rooted here.
#[derive(Debug)]
pub struct AVLNode {
    pub value: i32,
    pub left: Option<Box<AVLNode>>,
    pub right: Option<Box<AVLNode>>,
    pub height: i32,
}

/// Keys held by a subtree.
pub open spec fn keys(t: Option<Box<AVLNode>>) -> Set<i32>
    decreases t,
{
    match t {
        None => Set::empty(),
        Some(n) => keys(n.left).union(keys(n.right)).insert(n.value),
    }
}

/// The larger of two integers.
pub open spec fn larger(a: int, b: int) -> int {
    if a >= b { a } else { b }
}

/// Height of a subtree by its shape: 0 when absent, 1 for a leaf.
pub open spec fn depth(t: Option<Box<AVLNode>>) -> nat
    decreases t,
{
    match t {
        None => 0,
        Some(n) => (1 + larger(depth(n.left) as int, depth(n.right) as int)) as nat,
    }
}

/// The cached height of a subtree, 0 when absent.
pub open spec fn stored(t: Option<Box<AVLNode>>) -> int {
    match t {
        None => 0,
        Some(n) => n.height as int,
    }
}

/// Search-tree order: smaller keys on the left, greater keys on the right, at every node.
pub open spec fn is_bst(t: Option<Box<AVLNode>>) -> bool
    decreases t,
{
    match t {
        None => true,
        Some(n) => {
            &&& forall|k: i32| #[trigger] keys(n.left).contains(k) ==> k < n.value
            &&& forall|k: i32| #[trigger] keys(n.right).contains(k) ==> n.value < k
            &&& is_bst(n.left)
            &&& is_bst(n.right)
        },
    }
}

/// Every cached height equals the height of the subtree by its shape.
pub open spec fn heights_ok(t: Option<Box<AVLNode>>) -> bool
    decreases t,
{
    match t {
        None => true,
        Some(n) => n.height as int == depth(t) && heights_ok(n.left) && heights_ok(n.right),
    }
}

/// At every node the heights of the two children differ by at most one.
pub open spec fn is_balanced(t: Option<Box<AVLNode>>) -> bool
    decreases t,
{
    match t {
        None => true,
        Some(n) => {
            &&& -1 <= depth(n.left) - depth(n.right) <= 1
            &&& is_balanced(n.left)
            &&& is_balanced(n.right)
        },
    }
}

/// The three AVL invariants: order, balance and correct cached heights.
pub open spec fn is_avl(t: Option<Box<AVLNode>>) -> bool {
    is_bst(t) && is_balanced(t) && heights_ok(t)
}

/// A node with key `v` over `l` and `r`, its height computed from the children's cached heights.
pub open spec fn join(l: Option<Box<AVLNode>>, v: i32, r: Option<Box<AVLNode>>) -> AVLNode {
    AVLNode { value: v, left: l, right: r, height: (1 + larger(stored(l), stored(r))) as i32 }
}

/// Promotes the left child of `y` to the root of the subtree.
pub open spec fn rot_right(y: AVLNode) -> AVLNode {
    let x = y.left.unwrap();
    join(x.left, x.value, Some(Box::new(join(x.right, y.value, y.right))))
}

/// Promotes the right child of `x` to the root of the subtree.
pub open spec fn rot_left(x: AVLNode) -> AVLNode {
    let y = x.right.unwrap();
    join(Some(Box::new(join(x.left, x.value, y.left))), y.value, y.right)
}

/// Height difference of a node's children, by their cached heights.
pub open spec fn skew(n: AVLNode) -> int {
    stored(n.left) - stored(n.right)
}

/// Restores balance at `n` after `k` was inserted below it, choosing the case by
/// comparing `k` with the key of the heavier child.
pub open spec fn rebalance(n: AVLNode, k: i32) -> AVLNode {
    if skew(n) > 1 && n.left.is_some() && k < n.left.unwrap().value {
        rot_right(n)
    } else if skew(n) < -1 && n.right.is_some() && k > n.right.unwrap().value {
        rot_left(n)
    } else if skew(n) > 1 && n.left.is_some() && k > n.left.unwrap().value {
        rot_right(AVLNode { left: Some(Box::new(rot_left(*n.left.unwrap()))), ..n })
    } else if skew(n) < -1 && n.right.is_some() && k < n.right.unwrap().value {
        rot_left(AVLNode { right: Some(Box::new(rot_right(*n.right.unwrap()))), ..n })
    } else {
        n
    }
}

/// The subtree that inserting `k` into `t` gives: a new leaf in place of an absent
/// subtree, no change when `k` is already the node's key, and otherwise insertion on
/// the side that `k` belongs to followed by rebalancing.
pub open spec fn inserted(t: Option<Box<AVLNode>>, k: i32) -> Option<Box<AVLNode>>
    decreases t,
{
    match t {
        None => Some(Box::new(join(None, k, None))),
        Some(n) => if k < n.value {
            Some(Box::new(rebalance(join(inserted(n.left, k), n.value, n.right), k)))
        } else if k > n.value {
            Some(Box::new(rebalance(join(n.left, n.value, inserted(n.right, k)), k)))
        } else {
            t
        },
    }
}

/// `k` went below `n` on the side that is now taller by exactly one.
pub open spec fn grown_toward(n: AVLNode, k: i32) -> bool {
    ||| k < n.value && depth(n.left) == depth(n.right) + 1
    ||| k > n.value && depth(n.right) == depth(n.left) + 1
}

/// A subtree with correct cached heights caches its own height at the root.
pub proof fn lemma_stored_is_depth(t: Option<Box<AVLNode>>)
    requires
        heights_ok(t),
    ensures
        stored(t) == depth(t),
{
}

/// Joining two AVL subtrees that are ordered around `v` and differ in height by at
/// most one gives an AVL subtree.
pub proof fn lemma_join(l: Option<Box<AVLNode>>, v: i32, r: Option<Box<AVLNode>>)
    requires
        is_avl(l),
        is_avl(r),
        forall|x: i32| #[trigger] keys(l).contains(x) ==> x < v,
        forall|x: i32| #[trigger] keys(r).contains(x) ==> v < x,
        -1 <= depth(l) - depth(r) <= 1,
        depth(l) < i32::MAX,
        depth(r) < i32::MAX,
    ensures
        is_avl(Some(Box::new(join(l, v, r)))),
        depth(Some(Box::new(join(l, v, r)))) == 1 + larger(depth(l) as int, depth(r) as int),
        stored(Some(Box::new(join(l, v, r)))) == depth(Some(Box::new(join(l, v, r)))),
        keys(Some(Box::new(join(l, v, r)))) == keys(l).union(keys(r)).insert(v),
{
    lemma_stored_is_depth(l);
    lemma_stored_is_depth(r);
}

/// Right rotation keeps the keys and the order, and caches correct heights.
pub proof fn lemma_rot_right(y: AVLNode)
    requires
        y.left.is_some(),
        heights_ok(y.left),
        heights_ok(y.right),
        depth(Some(Box::new(rot_right(y)))) <= i32::MAX,
    ensures
        heights_ok(Some(Box::new(rot_right(y)))),
        keys(Some(Box::new(rot_right(y)))) == keys(Some(Box::new(y))),
        is_bst(Some(Box::new(y))) ==> is_bst(Some(Box::new(rot_right(y)))),
        depth(y.left.unwrap().left) < i32::MAX,
        1 + larger(depth(y.left.unwrap().right) as int, depth(y.right) as int) < i32::MAX,
{
    let x = *y.left.unwrap();
    assert(heights_ok(x.left) && heights_ok(x.right));
    lemma_stored_is_depth(x.left);
    lemma_stored_is_depth(x.right);
    lemma_stored_is_depth(y.right);
    let inner = Some(Box::new(join(x.right, y.value, y.right)));
    assert(depth(inner) == 1 + larger(depth(x.right) as int, depth(y.right) as int));
    assert(heights_ok(inner));
    lemma_stored_is_depth(inner);
    let out = Some(Box::new(rot_right(y)));
    assert(depth(out) == 1 + larger(depth(x.left) as int, depth(inner) as int));
    assert(heights_ok(out));
    assert(keys(inner) == keys(x.right).union(keys(y.right)).insert(y.value));
    assert(keys(out) == keys(x.left).union(keys(inner)).insert(x.value));
    assert(keys(y.left) == keys(x.left).union(keys(x.right)).insert(x.value));
    assert(keys(out) =~= keys(Some(Box::new(y))));
    if is_bst(Some(Box::new(y))) {
        assert(is_bst(y.left));
        assert forall|k: i32| #[trigger] keys(x.right).contains(k) implies k < y.value by {
            assert(keys(y.left).contains(k));
        }
        assert(is_bst(inner));
        assert(keys(y.left).contains(x.value));
        assert forall|k: i32| #[trigger] keys(inner).contains(k) implies x.value < k by {
            if keys(y.right).contains(k) {
            }
        }
    }
}

/// Left rotation keeps the keys and the order, and caches correct heights.
pub proof fn lemma_rot_left(x: AVLNode)
    requires
        x.right.is_some(),
        heights_ok(x.left),
        heights_ok(x.right),
        depth(Some(Box::new(rot_left(x)))) <= i32::MAX,
    ensures
        heights_ok(Some(Box::new(rot_left(x)))),
        keys(Some(Box::new(rot_left(x)))) == keys(Some(Box::new(x))),
        is_bst(Some(Box::new(x))) ==> is_bst(Some(Box::new(rot_left(x)))),
        depth(x.right.unwrap().right) < i32::MAX,
        1 + larger(depth(x.left) as int, depth(x.right.unwrap().left) as int) < i32::MAX,
{
    let y = *x.right.unwrap();
    assert(heights_ok(y.left) && heights_ok(y.right));
    lemma_stored_is_depth(y.left);
    lemma_stored_is_depth(y.right);
    lemma_stored_is_depth(x.left);
    let inner = Some(Box::new(join(x.left, x.value, y.left)));
    assert(depth(inner) == 1 + larger(depth(x.left) as int, depth(y.left) as int));
    assert(heights_ok(inner));
    lemma_stored_is_depth(inner);
    let out = Some(Box::new(rot_left(x)));
    assert(depth(out) == 1 + larger(depth(inner) as int, depth(y.right) as int));
    assert(heights_ok(out));
    assert(keys(inner) == keys(x.left).union(keys(y.left)).insert(x.value));
    assert(keys(out) == keys(inner).union(keys(y.right)).insert(y.value));
    assert(keys(x.right) == keys(y.left).union(keys(y.right)).insert(y.value));
    assert(keys(out) =~= keys(Some(Box::new(x))));
    if is_bst(Some(Box::new(x))) {
        assert(is_bst(x.right));
        assert forall|k: i32| #[trigger] keys(y.left).contains(k) implies x.value < k by {
            assert(keys(x.right).contains(k));
        }
        assert(is_bst(inner));
        assert(keys(x.right).contains(y.value));
        assert forall|k: i32| #[trigger] keys(inner).contains(k) implies k < y.value by {
            if keys(x.left).contains(k) {
            }
        }
    }
}

/// What inserting `k` into `t` must give: an AVL subtree holding the old keys and
/// `k`, at most one level taller, taller on the side of `k` when it grew, and the
/// same subtree when `k` was already there.
spec fn insert_post(t: Option<Box<AVLNode>>, k: i32, r: Option<Box<AVLNode>>) -> bool {
    &&& is_avl(r)
    &&& r.is_some()
    &&& keys(r) == keys(t).insert(k)
    &&& depth(t) <= depth(r) <= depth(t) + 1
    &&& (depth(r) == depth(t) + 1 && depth(r) > 1 ==> grown_toward(*r.unwrap(), k))
    &&& (keys(t).contains(k) ==> r == t)
}

/// Keys of a subtree all lie strictly between `lo` and `hi`.
spec fn within(t: Option<Box<AVLNode>>, lo: int, hi: int) -> bool {
    forall|x: i32| #[trigger] keys(t).contains(x) ==> lo < x < hi
}

/// A single rotation over three ordered AVL subtrees `a < u < b < w < c`: the
/// outer one that is one level taller than the other two ends up beside a new
/// node over the other two, and the result is an AVL subtree.
proof fn lemma_single_rotation(
    a: Option<Box<AVLNode>>,
    u: i32,
    b: Option<Box<AVLNode>>,
    w: i32,
    c: Option<Box<AVLNode>>,
)
    requires
        is_avl(a),
        is_avl(b),
        is_avl(c),
        within(a, i32::MIN - 1, u as int),
        within(b, u as int, w as int),
        within(c, w as int, i32::MAX + 1),
        u < w,
        larger(depth(a) as int, larger(depth(b) as int, depth(c) as int)) + 1 < i32::MAX,
    ensures
        depth(a) == depth(b) + 1 && depth(b) == depth(c) ==> {
            let res = Some(Box::new(join(a, u, Some(Box::new(join(b, w, c))))));
            &&& is_avl(res)
            &&& keys(res) == keys(a).union(keys(b)).union(keys(c)).insert(u).insert(w)
            &&& depth(res) == depth(a) + 1
        },
        depth(c) == depth(b) + 1 && depth(b) == depth(a) ==> {
            let res = Some(Box::new(join(Some(Box::new(join(a, u, b))), w, c)));
            &&& is_avl(res)
            &&& keys(res) == keys(a).union(keys(b)).union(keys(c)).insert(u).insert(w)
            &&& depth(res) == depth(c) + 1
        },
{
    let all = keys(a).union(keys(b)).union(keys(c)).insert(u).insert(w);
    if depth(a) == depth(b) + 1 && depth(b) == depth(c) {
        lemma_join(b, w, c);
        let tbc = Some(Box::new(join(b, w, c)));
        assert forall|x: i32| #[trigger] keys(tbc).contains(x) implies u < x by {
            if keys(c).contains(x) {
            }
        }
        lemma_join(a, u, tbc);
        assert(keys(Some(Box::new(join(a, u, tbc)))) =~= all);
    }
    if depth(c) == depth(b) + 1 && depth(b) == depth(a) {
        lemma_join(a, u, b);
        let tab = Some(Box::new(join(a, u, b)));
        assert forall|x: i32| #[trigger] keys(tab).contains(x) implies x < w by {
            if keys(a).contains(x) {
            }
        }
        lemma_join(tab, w, c);
        assert(keys(Some(Box::new(join(tab, w, c)))) =~= all);
    }
}

/// Rebalancing after an insertion into the left subtree.
proof fn lemma_rebalance_left(n: AVLNode, k: i32)
    requires
        is_avl(Some(Box::new(n))),
        depth(Some(Box::new(n))) < i32::MAX,
        k < n.value,
        insert_post(n.left, k, inserted(n.left, k)),
    ensures
        insert_post(Some(Box::new(n)), k, inserted(Some(Box::new(n)), k)),
        ({
            let l2 = inserted(n.left, k);
            skew(join(l2, n.value, n.right)) > 1 ==> {
                &&& l2.is_some()
                &&& k > l2.unwrap().value ==> l2.unwrap().right.is_some() && depth(
                    Some(Box::new(rot_left(*l2.unwrap()))),
                ) <= depth(inserted(Some(Box::new(n)), k))
            }
        }),
{
    let t = Some(Box::new(n));
    let (l, r, v) = (n.left, n.right, n.value);
    let l2 = inserted(l, k);
    lemma_stored_is_depth(l);
    lemma_stored_is_depth(r);
    lemma_stored_is_depth(l2);
    let m = join(l2, v, r);
    assert(inserted(t, k) == Some(Box::new(rebalance(m, k))));
    assert forall|x: i32| #[trigger] keys(l2).contains(x) implies x < v by {
        if x != k {
            assert(keys(l).contains(x));
        }
    }
    assert(!keys(r).contains(k));
    assert(keys(t).contains(k) ==> keys(l).contains(k));
    let goal = keys(t).insert(k);
    assert(goal =~= keys(l2).union(keys(r)).insert(v));
    if depth(l2) - depth(r) <= 1 {
        lemma_join(l2, v, r);
        assert(rebalance(m, k) == m);
        if keys(t).contains(k) {
            assert(m == n);
        }
    } else {
        assert(depth(l2) == depth(r) + 2);
        let p = *l2.unwrap();
        assert(grown_toward(p, k));
        assert(is_avl(p.left) && is_avl(p.right));
        assert(keys(l2) == keys(p.left).union(keys(p.right)).insert(p.value));
        assert(keys(l2).contains(p.value));
        assert(within(r, v as int, i32::MAX + 1));
        if k < p.value {
            assert(within(p.left, i32::MIN - 1, p.value as int));
            assert forall|x: i32| #[trigger] keys(p.right).contains(x) implies p.value < x < v by {
                assert(keys(l2).contains(x));
            }
            lemma_single_rotation(p.left, p.value, p.right, v, r);
            assert(rebalance(m, k) == join(p.left, p.value, Some(Box::new(join(p.right, v, r)))));
            assert(goal =~= keys(p.left).union(keys(p.right)).union(keys(r)).insert(p.value).insert(v));
        } else {
            lemma_rebalance_left_right(p, v, r, k);
            assert(rebalance(m, k) == rot_right(AVLNode { left: Some(Box::new(rot_left(p))), ..m }));
        }
    }
}

/// The double rotation that the left-right case takes.
proof fn lemma_rebalance_left_right(p: AVLNode, v: i32, r: Option<Box<AVLNode>>, k: i32)
    requires
        is_avl(Some(Box::new(p))),
        is_avl(r),
        within(Some(Box::new(p)), i32::MIN - 1, v as int),
        within(r, v as int, i32::MAX + 1),
        depth(Some(Box::new(p))) == depth(r) + 2,
        depth(p.right) == depth(p.left) + 1,
        depth(r) + 2 < i32::MAX,
    ensures ({
        let m = AVLNode { value: v, left: Some(Box::new(rot_left(p))), right: r, height: 0 };
        &&& is_avl(Some(Box::new(rot_right(m))))
        &&& keys(Some(Box::new(rot_right(m)))) == keys(Some(Box::new(p))).union(keys(r)).insert(v)
        &&& depth(Some(Box::new(rot_right(m)))) == depth(r) + 2
        &&& p.right.is_some()
        &&& depth(Some(Box::new(rot_left(p)))) == depth(r) + 2
    }),
{
    let tp = Some(Box::new(p));
    let z = *p.right.unwrap();
    assert(is_avl(p.left) && is_avl(p.right));
    assert(is_avl(z.left) && is_avl(z.right));
    assert(keys(tp) == keys(p.left).union(keys(p.right)).insert(p.value));
    assert(keys(p.right) == keys(z.left).union(keys(z.right)).insert(z.value));
    assert(keys(tp).contains(p.value));
    assert(keys(tp).contains(z.value));
    assert(keys(p.right).contains(z.value));
    assert(within(p.left, i32::MIN - 1, p.value as int));
    assert forall|x: i32| #[trigger] keys(z.left).contains(x) implies p.value < x < z.value by {
        assert(keys(p.right).contains(x));
    }
    assert forall|x: i32| #[trigger] keys(z.right).contains(x) implies z.value < x < v by {
        assert(keys(p.right).contains(x));
        assert(keys(tp).contains(x));
    }
    let a = join(p.left, p.value, z.left);
    lemma_join(p.left, p.value, z.left);
    let b = join(z.right, v, r);
    lemma_join(z.right, v, r);
    let (ta, tb) = (Some(Box::new(a)), Some(Box::new(b)));
    assert forall|x: i32| #[trigger] keys(ta).contains(x) implies x < z.value by {
        if keys(p.left).contains(x) {
        }
    }
    assert forall|x: i32| #[trigger] keys(tb).contains(x) implies z.value < x by {
        if keys(r).contains(x) {
        }
    }
    lemma_join(ta, z.value, tb);
    let m = AVLNode { value: v, left: Some(Box::new(rot_left(p))), right: r, height: 0 };
    assert(rot_right(m) == join(ta, z.value, tb));
    assert(keys(Some(Box::new(join(ta, z.value, tb)))) =~= keys(tp).union(keys(r)).insert(v));
}

/// Rebalancing after an insertion into the right subtree.
proof fn lemma_rebalance_right(n: AVLNode, k: i32)
    requires
        is_avl(Some(Box::new(n))),
        depth(Some(Box::new(n))) < i32::MAX,
        k > n.value,
        insert_post(n.right, k, inserted(n.right, k)),
    ensures
        insert_post(Some(Box::new(n)), k, inserted(Some(Box::new(n)), k)),
        ({
            let r2 = inserted(n.right, k);
            skew(join(n.left, n.value, r2)) < -1 ==> {
                &&& r2.is_some()
                &&& k < r2.unwrap().value ==> r2.unwrap().left.is_some() && depth(
                    Some(Box::new(rot_right(*r2.unwrap()))),
                ) <= depth(inserted(Some(Box::new(n)), k))
            }
        }),
{
    let t = Some(Box::new(n));
    let (l, r, v) = (n.left, n.right, n.value);
    let r2 = inserted(r, k);
    lemma_stored_is_depth(l);
    lemma_stored_is_depth(r);
    lemma_stored_is_depth(r2);
    let m = join(l, v, r2);
    assert(inserted(t, k) == Some(Box::new(rebalance(m, k))));
    assert forall|x: i32| #[trigger] keys(r2).contains(x) implies v < x by {
        if x != k {
            assert(keys(r).contains(x));
        }
    }
    assert(!keys(l).contains(k));
    assert(keys(t).contains(k) ==> keys(r).contains(k));
    let goal = keys(t).insert(k);
    assert(goal =~= keys(l).union(keys(r2)).insert(v));
    if depth(r2) - depth(l) <= 1 {
        lemma_join(l, v, r2);
        assert(rebalance(m, k) == m);
        if keys(t).contains(k) {
            assert(m == n);
        }
    } else {
        assert(depth(r2) == depth(l) + 2);
        let q = *r2.unwrap();
        assert(grown_toward(q, k));
        assert(is_avl(q.left) && is_avl(q.right));
        assert(keys(r2) == keys(q.left).union(keys(q.right)).insert(q.value));
        assert(keys(r2).contains(q.value));
        assert(within(l, i32::MIN - 1, v as int));
        if k > q.value {
            assert(within(q.right, q.value as int, i32::MAX + 1));
            assert forall|x: i32| #[trigger] keys(q.left).contains(x) implies v < x < q.value by {
                assert(keys(r2).contains(x));
            }
            lemma_single_rotation(l, v, q.left, q.value, q.right);
            assert(rebalance(m, k) == join(Some(Box::new(join(l, v, q.left))), q.value, q.right));
            assert(goal =~= keys(l).union(keys(q.left)).union(keys(q.right)).insert(v).insert(q.value));
        } else {
            lemma_rebalance_right_left(l, v, q, k);
            assert(rebalance(m, k) == rot_left(AVLNode { right: Some(Box::new(rot_right(q))), ..m }));
        }
    }
}

/// The double rotation that the right-left case takes.
proof fn lemma_rebalance_right_left(l: Option<Box<AVLNode>>, v: i32, q: AVLNode, k: i32)
    requires
        is_avl(Some(Box::new(q))),
        is_avl(l),
        within(Some(Box::new(q)), v as int, i32::MAX + 1),
        within(l, i32::MIN - 1, v as int),
        depth(Some(Box::new(q))) == depth(l) + 2,
        depth(q.left) == depth(q.right) + 1,
        depth(l) + 2 < i32::MAX,
    ensures ({
        let m = AVLNode { value: v, left: l, right: Some(Box::new(rot_right(q))), height: 0 };
        &&& is_avl(Some(Box::new(rot_left(m))))
        &&& keys(Some(Box::new(rot_left(m)))) == keys(l).union(keys(Some(Box::new(q)))).insert(v)
        &&& depth(Some(Box::new(rot_left(m)))) == depth(l) + 2
        &&& q.left.is_some()
        &&& depth(Some(Box::new(rot_right(q)))) == depth(l) + 2
    }),
{
    let tq = Some(Box::new(q));
    let z = *q.left.unwrap();
    assert(is_avl(q.left) && is_avl(q.right));
    assert(is_avl(z.left) && is_avl(z.right));
    assert(keys(tq) == keys(q.left).union(keys(q.right)).insert(q.value));
    assert(keys(q.left) == keys(z.left).union(keys(z.right)).insert(z.value));
    assert(keys(tq).contains(q.value));
    assert(keys(tq).contains(z.value));
    assert(keys(q.left).contains(z.value));
    assert(within(q.right, q.value as int, i32::MAX + 1));
    assert forall|x: i32| #[trigger] keys(z.right).contains(x) implies z.value < x < q.value by {
        assert(keys(q.left).contains(x));
    }
    assert forall|x: i32| #[trigger] keys(z.left).contains(x) implies v < x < z.value by {
        assert(keys(q.left).contains(x));
        assert(keys(tq).contains(x));
    }
    let a = join(l, v, z.left);
    lemma_join(l, v, z.left);
    let b = join(z.right, q.value, q.right);
    lemma_join(z.right, q.value, q.right);
    let (ta, tb) = (Some(Box::new(a)), Some(Box::new(b)));
    assert forall|x: i32| #[trigger] keys(ta).contains(x) implies x < z.value by {
        if keys(l).contains(x) {
        }
    }
    assert forall|x: i32| #[trigger] keys(tb).contains(x) implies z.value < x by {
        if keys(q.right).contains(x) {
        }
    }
    lemma_join(ta, z.value, tb);
    let m = AVLNode { value: v, left: l, right: Some(Box::new(rot_right(q))), height: 0 };
    assert(rot_left(m) == join(ta, z.value, tb));
    assert(keys(Some(Box::new(join(ta, z.value, tb)))) =~= keys(l).union(keys(tq)).insert(v));
}

/// Inserting `k` into an AVL subtree gives an AVL subtree that holds exactly the old
/// keys and `k`, is at most one level taller, and is the same subtree when `k` was
/// already there.
pub proof fn lemma_inserted(t: Option<Box<AVLNode>>, k: i32)
    requires
        is_avl(t),
        depth(t) < i32::MAX,
    ensures
        is_avl(inserted(t, k)),
        inserted(t, k).is_some(),
        keys(inserted(t, k)) == keys(t).insert(k),
        depth(t) <= depth(inserted(t, k)) <= depth(t) + 1,
        depth(inserted(t, k)) == depth(t) + 1 && depth(inserted(t, k)) > 1 ==> grown_toward(
            *inserted(t, k).unwrap(),
            k,
        ),
        keys(t).contains(k) ==> inserted(t, k) == t,
    decreases t,
{
    match t {
        None => {
            assert(keys(inserted(t, k)) =~= keys(t).insert(k));
        },
        Some(n) => {
            if k < n.value {
                lemma_inserted(n.left, k);
                lemma_rebalance_left(*n, k);
            } else if k > n.value {
                lemma_inserted(n.right, k);
                lemma_rebalance_right(*n, k);
            } else {
                assert(keys(t).insert(k) =~= keys(t));
            }
        },
    }
}

/// Inserting a key that the subtree already holds changes nothing.
pub proof fn lemma_insert_present(t: Option<Box<AVLNode>>, k: i32)
    requires
        is_avl(t),
        keys(t).contains(k),
    ensures
        inserted(t, k) == t,
    decreases t,
{
    let n = *t.unwrap();
    lemma_stored_is_depth(n.left);
    lemma_stored_is_depth(n.right);
    if k < n.value {
        assert(!keys(n.right).contains(k));
        lemma_insert_present(n.left, k);
        assert(join(n.left, n.value, n.right) == n);
    } else if k > n.value {
        assert(!keys(n.left).contains(k));
        lemma_insert_present(n.right, k);
        assert(join(n.left, n.value, n.right) == n);
    }
}

/// Inserting the same key twice gives the very tree, shape and cached heights alike,
/// that inserting it once gives.
pub proof fn lemma_insert_twice(t: Option<Box<AVLNode>>, k: i32)
    requires
        is_avl(t),
        depth(t) < i32::MAX,
    ensures
        inserted(inserted(t, k), k) == inserted(t, k),
{
    lemma_inserted(t, k);
    lemma_insert_present(inserted(t, k), k);
}

/// The subtree that inserting the keys of `ks` into `t` one after another gives.
pub open spec fn inserted_all(t: Option<Box<AVLNode>>, ks: Seq<i32>) -> Option<Box<AVLNode>>
    decreases ks.len(),
{
    if ks.len() == 0 {
        t
    } else {
        inserted(inserted_all(t, ks.drop_last()), ks.last())
    }
}

/// Any sequence of insertions into an empty tree gives a tree that is ordered,
/// balanced and caches correct heights, and that holds exactly the inserted keys.
/// Every prefix of `ks` is such a sequence too, so this holds after each insertion.
pub proof fn lemma_insertions_keep_avl(ks: Seq<i32>)
    requires
        ks.len() < i32::MAX,
    ensures
        is_avl(inserted_all(None, ks)),
        keys(inserted_all(None, ks)) == ks.to_set(),
        depth(inserted_all(None, ks)) <= ks.len(),
    decreases ks.len(),
{
    if ks.len() == 0 {
        assert(ks.to_set() =~= Set::<i32>::empty());
    } else {
        let front = ks.drop_last();
        lemma_insertions_keep_avl(front);
        lemma_inserted(inserted_all(None, front), ks.last());
        assert forall|x: i32| #[trigger] ks.contains(x) <==> front.contains(x) || x == ks.last() by {
            if ks.contains(x) && x != ks.last() {
                let i = choose|i: int| 0 <= i < ks.len() && ks[i] == x;
                assert(front[i] == x);
            }
            if front.contains(x) {
                let i = choose|i: int| 0 <= i < front.len() && front[i] == x;
                assert(ks[i] == x);
            }
            if x == ks.last() {
                assert(ks[ks.len() - 1] == x);
            }
        }
        assert(ks.to_set() =~= front.to_set().insert(ks.last()));
    }
}

/// After any sequence of insertions into an empty tree, a key is in the tree exactly
/// when it was inserted; `AVL::search` answers by this membership.
pub proof fn lemma_membership(ks: Seq<i32>, k: i32)
    requires
        ks.len() < i32::MAX,
    ensures
        keys(inserted_all(None, ks)).contains(k) <==> ks.contains(k),
{
    lemma_insertions_keep_avl(ks);
}

/// The empty tree holds no key, so a search in it finds nothing.
pub proof fn lemma_empty_holds_nothing(k: i32)
    ensures
        !keys(None).contains(k),
{
}

/// A self-balancing binary search tree over `i32` keys.
#[derive(Debug)]
pub struct AVL {
    root: Option<Box<AVLNode>>,
}

impl View for AVL {
    type V = Set<i32>;

    /// The set of keys in the tree.
    open spec fn view(&self) -> Set<i32> {
        keys(self.tree())
    }
}

impl AVL {
    /// The root subtree.
    pub closed spec fn tree(self) -> Option<Box<AVLNode>> {
        self.root
    }

    #[verifier::type_invariant]
    spec fn well_formed(self) -> bool {
        is_avl(self.root)
    }

    /// An empty tree.
    pub fn new() -> (r: Self)
        ensures
            r.tree() == None::<Box<AVLNode>>,
            r@ == Set::<i32>::empty(),
    {
        AVL { root: None }
    }

    /// The root subtree, for inspecting the tree's shape; it satisfies the AVL
    /// invariants, so its cached height is its height.
    pub fn root(&self) -> (r: &Option<Box<AVLNode>>)
        ensures
            *r == self.tree(),
            is_avl(*r),
    {
        proof {
            use_type_invariant(self);
        }
        &self.root
    }

    /// Inserts `value`, rebalancing as needed; a key already present is ignored.
    pub fn insert(&mut self, value: i32)
        requires
            depth(old(self).tree()) < i32::MAX,
        ensures
            final(self).tree() == inserted(old(self).tree(), value),
            final(self)@ == old(self)@.insert(value),
            is_avl(final(self).tree()),
            depth(old(self).tree()) <= depth(final(self).tree()) <= depth(old(self).tree()) + 1,
            old(self)@.contains(value) ==> final(self).tree() == old(self).tree(),
    {
        proof {
            use_type_invariant(&*self);
        }
        let mut root = None;
        std::mem::swap(&mut root, &mut self.root);
        self.root = Self::insert_at(root, value);
    }

    /// Whether `key` is in the tree.
    pub fn search(&self, key: i32) -> (r: bool)
        ensures
            r == self@.contains(key),
    {
        proof {
            use_type_invariant(self);
        }
        Self::search_at(&self.root, key)
    }

    /// Whether `key` is in the subtree, found by descending from its root.
    pub fn search_at(node: &Option<Box<AVLNode>>, key: i32) -> (r: bool)
        requires
            is_bst(*node),
        ensures
            r == keys(*node).contains(key),
        decreases *node,
    {
        match node {
            None => false,
            Some(n) => {
                if key == n.value {
                    true
                } else if key < n.value {
                    proof {
                        assert(!keys(n.right).contains(key));
                    }
                    Self::search_at(&n.left, key)
                } else {
                    proof {
                        assert(!keys(n.left).contains(key));
                    }
                    Self::search_at(&n.right, key)
                }
            },
        }
    }

    /// Cached height of a subtree, 0 when absent.
    pub fn height(node: &Option<Box<AVLNode>>) -> (r: i32)
        ensures
            r as int == stored(*node),
    {
        match node {
            None => 0,
            Some(n) => n.height,
        }
    }

    /// Height of the left child minus height of the right child, by cached heights;
    /// 0 for an absent subtree.
    pub fn balance(node: &Option<Box<AVLNode>>) -> (r: i32)
        requires
            node.is_some() ==> i32::MIN <= skew(*node.unwrap()) <= i32::MAX,
        ensures
            r as int == match *node {
                None => 0,
                Some(n) => skew(*n),
            },
    {
        match node {
            None => 0,
            Some(n) => Self::height(&n.left) - Self::height(&n.right),
        }
    }

    /// Promotes the left child of `y` to the root of the subtree and recomputes the
    /// cached heights of the two nodes that moved, lower one first.
    pub fn rotate_right(y: Box<AVLNode>) -> (r: Box<AVLNode>)
        requires
            y.left.is_some(),
            heights_ok(y.left),
            heights_ok(y.right),
            depth(Some(Box::new(rot_right(*y)))) <= i32::MAX,
        ensures
            *r == rot_right(*y),
            heights_ok(Some(r)),
            keys(Some(r)) == keys(Some(y)),
            is_bst(Some(y)) ==> is_bst(Some(r)),
    {
        proof {
            lemma_rot_right(*y);
            let xn = *y.left.unwrap();
            lemma_stored_is_depth(xn.left);
            lemma_stored_is_depth(xn.right);
            lemma_stored_is_depth(y.right);
        }
        let mut y = y;
        let mut x = y.left.take().unwrap();
        y.left = x.right.take();
        let (hl, hr) = (Self::height(&y.left), Self::height(&y.right));
        y.height = 1 + if hl >= hr { hl } else { hr };
        x.right = Some(y);
        let (hl, hr) = (Self::height(&x.left), Self::height(&x.right));
        x.height = 1 + if hl >= hr { hl } else { hr };
        x
    }

    /// Promotes the right child of `x` to the root of the subtree and recomputes the
    /// cached heights of the two nodes that moved, lower one first.
    pub fn rotate_left(x: Box<AVLNode>) -> (r: Box<AVLNode>)
        requires
            x.right.is_some(),
            heights_ok(x.left),
            heights_ok(x.right),
            depth(Some(Box::new(rot_left(*x)))) <= i32::MAX,
        ensures
            *r == rot_left(*x),
            heights_ok(Some(r)),
            keys(Some(r)) == keys(Some(x)),
            is_bst(Some(x)) ==> is_bst(Some(r)),
    {
        proof {
            lemma_rot_left(*x);
            let yn = *x.right.unwrap();
            lemma_stored_is_depth(yn.left);
            lemma_stored_is_depth(yn.right);
            lemma_stored_is_depth(x.left);
        }
        let mut x = x;
        let mut y = x.right.take().unwrap();
        x.right = y.left.take();
        let (hl, hr) = (Self::height(&x.left), Self::height(&x.right));
        x.height = 1 + if hl >= hr { hl } else { hr };
        y.left = Some(x);
        let (hl, hr) = (Self::height(&y.left), Self::height(&y.right));
        y.height = 1 + if hl >= hr { hl } else { hr };
        y
    }

    /// Inserts `value` below `node` and rebalances on the way back up; a key that is
    /// already there leaves the subtree unchanged.
    #[verifier::rlimit(60)]
    pub fn insert_at(node: Option<Box<AVLNode>>, value: i32) -> (r: Option<Box<AVLNode>>)
        requires
            is_avl(node),
            depth(node) < i32::MAX,
        ensures
            r == inserted(node, value),
            is_avl(r),
            keys(r) == keys(node).insert(value),
            depth(node) <= depth(r) <= depth(node) + 1,
            keys(node).contains(value) ==> r == node,
        decreases node,
    {
        proof {
            lemma_inserted(node, value);
            lemma_stored_is_depth(node);
        }
        if node.is_none() {
            return Some(Box::new(AVLNode { value, left: None, right: None, height: 1 }));
        }
        let ghost t = node;
        let mut node = node.unwrap();
        if value < node.value {
            node.left = Self::insert_at(node.left.take(), value);
            proof {
                lemma_inserted(t.unwrap().left, value);
                lemma_rebalance_left(*t.unwrap(), value);
            }
        } else if value > node.value {
            node.right = Self::insert_at(node.right.take(), value);
            proof {
                lemma_inserted(t.unwrap().right, value);
                lemma_rebalance_right(*t.unwrap(), value);
            }
        } else {
            return Some(node);
        }
        proof {
            lemma_stored_is_depth(node.left);
            lemma_stored_is_depth(node.right);
        }
        let (hl, hr) = (Self::height(&node.left), Self::height(&node.right));
        node.height = 1 + if hl >= hr { hl } else { hr };
        let ghost m = *node;
        assert(inserted(t, value) == Some(Box::new(rebalance(m, value))));
        let node = Some(node);
        let balance = Self::balance(&node);
        let mut node = node.unwrap();
        if balance > 1 && node.left.is_some() && value < node.left.as_ref().unwrap().value {
            assert(rebalance(m, value) == rot_right(m));
            return Some(Self::rotate_right(node));
        }
        if balance < -1 && node.right.is_some() && value > node.right.as_ref().unwrap().value {
            assert(rebalance(m, value) == rot_left(m));
            return Some(Self::rotate_left(node));
        }
        if balance > 1 && node.left.is_some() && value > node.left.as_ref().unwrap().value {
            let left = node.left.take().unwrap();
            node.left = Some(Self::rotate_left(left));
            assert(rebalance(m, value) == rot_right(*node));
            return Some(Self::rotate_right(node));
        }
        if balance < -1 && node.right.is_some() && value < node.right.as_ref().unwrap().value {
            let right = node.right.take().unwrap();
            node.right = Some(Self::rotate_right(right));
            assert(rebalance(m, value) == rot_left(*node));
            return Some(Self::rotate_left(node));
        }
        assert(rebalance(m, value) == m);
        Some(node)
    }
}

} // verus!
