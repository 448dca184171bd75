//! An implicit-key randomized balanced search tree (treap).
//!
//! The in-order traversal of the tree is a 0-indexed sequence of
//! `i64` values; every public operation speaks about positions in
//! that sequence, never about the stored values themselves.  All
//! mutations are derived from the split/merge algebra, so the
//! per-node count and sum aggregates stay consistent bottom-up.
//!
//! Node priorities are drawn once from a [`Xorshift`] generator and
//! only shape the tree for expected logarithmic depth; they play no
//! part in the functional contracts.

use crate::xorshift::Xorshift;
use vstd::prelude::*;

verus! {

/// One stored element together with the subtree it roots.
#[derive(Debug)]
pub struct Node {
    /// The payload of this element.
    pub v: i64,
    pri: u64,
    lch: Option<Box<Node>>,
    rch: Option<Box<Node>>,
    cnt: usize,
    sum: i64,
}

/// The in-order value sequence of an optional subtree.
pub closed spec fn tree_seq(t: Option<Box<Node>>) -> Seq<i64>
    decreases t,
{
    match t {
        None => Seq::empty(),
        Some(n) => tree_seq(n.lch) + seq![n.v] + tree_seq(n.rch),
    }
}

/// The in-order value sequence of a single node's subtree.
pub closed spec fn node_seq(n: Node) -> Seq<i64> {
    tree_seq(n.lch) + seq![n.v] + tree_seq(n.rch)
}

/// The mathematical sum of a sequence of values.
pub open spec fn sum_of(s: Seq<i64>) -> int
    decreases s.len(),
{
    if s.len() == 0 {
        0
    } else {
        sum_of(s.drop_last()) + s.last()
    }
}

/// Every contiguous range of `s` has a sum representable in `i64`.
/// This is the machine limit under which the stored aggregates of a
/// tree over `s`, and of every tree split off from it, cannot
/// overflow.
pub open spec fn sum_fits(s: Seq<i64>) -> bool {
    forall|i: int, j: int|
        0 <= i <= j <= s.len() ==> i64::MIN <= sum_of(#[trigger] s.subrange(i, j)) <= i64::MAX
}

/// Aggregate consistency: every node caches the size and the value
/// sum of its subtree.
pub closed spec fn tree_wf(t: Option<Box<Node>>) -> bool
    decreases t,
{
    match t {
        None => true,
        Some(n) => {
            &&& tree_wf(n.lch)
            &&& tree_wf(n.rch)
            &&& n.cnt == 1 + tree_seq(n.lch).len() + tree_seq(n.rch).len()
            &&& n.sum == sum_of(tree_seq(n.lch)) + n.v + sum_of(tree_seq(n.rch))
        },
    }
}

/// Aggregate consistency of a single node's subtree.
pub closed spec fn node_wf(n: Node) -> bool {
    &&& tree_wf(n.lch)
    &&& tree_wf(n.rch)
    &&& n.cnt == 1 + tree_seq(n.lch).len() + tree_seq(n.rch).len()
    &&& n.sum == sum_of(tree_seq(n.lch)) + n.v + sum_of(tree_seq(n.rch))
}

/// The root priority of `t`, if any, is at most `p`.
pub closed spec fn pri_bounded(t: Option<Box<Node>>, p: u64) -> bool {
    match t {
        None => true,
        Some(n) => n.pri <= p,
    }
}

/// Max-heap order by priority: every node's priority is at least
/// both children's priorities.
pub closed spec fn heap_wf(t: Option<Box<Node>>) -> bool
    decreases t,
{
    match t {
        None => true,
        Some(n) => {
            &&& heap_wf(n.lch)
            &&& heap_wf(n.rch)
            &&& pri_bounded(n.lch, n.pri)
            &&& pri_bounded(n.rch, n.pri)
        },
    }
}

/// Max-heap order within a single node's subtree.
pub closed spec fn node_heap(n: Node) -> bool {
    &&& heap_wf(n.lch)
    &&& heap_wf(n.rch)
    &&& pri_bounded(n.lch, n.pri)
    &&& pri_bounded(n.rch, n.pri)
}

/// The sequence is ascending.
pub open spec fn sorted_asc(s: Seq<i64>) -> bool {
    forall|i: int, j: int| 0 <= i <= j < s.len() ==> s[i] <= s[j]
}

/// How many elements of `s` are strictly below `v`; for an ascending
/// `s` this is the lower-bound insertion rank of `v`.
pub open spec fn count_lt(s: Seq<i64>, v: i64) -> int
    decreases s.len(),
{
    if s.len() == 0 {
        0
    } else {
        count_lt(s.drop_last(), v) + (if s.last() < v {
            1int
        } else {
            0int
        })
    }
}

/// Sums distribute over concatenation.
pub proof fn lemma_sum_concat(a: Seq<i64>, b: Seq<i64>)
    ensures
        sum_of(a + b) == sum_of(a) + sum_of(b),
    decreases b.len(),
{
    if b.len() == 0 {
        assert(a + b =~= a);
    } else {
        assert((a + b).drop_last() =~= a + b.drop_last());
        assert((a + b).last() == b.last());
        lemma_sum_concat(a, b.drop_last());
    }
}

/// The sum of a singleton is its element.
pub proof fn lemma_sum_single(x: i64)
    ensures
        sum_of(seq![x]) == x,
{
    let s = seq![x];
    assert(s.len() == 1);
    assert(s.drop_last() =~= Seq::<i64>::empty());
    assert(sum_of(Seq::<i64>::empty()) == 0);
    assert(s.last() == x);
    assert(sum_of(s) == sum_of(s.drop_last()) + s.last());
}

/// The sum of a three-part in-order decomposition.
proof fn lemma_sum_parts(l: Seq<i64>, v: i64, r: Seq<i64>)
    ensures
        sum_of(l + seq![v] + r) == sum_of(l) + v + sum_of(r),
{
    lemma_sum_concat(l + seq![v], r);
    lemma_sum_concat(l, seq![v]);
    lemma_sum_single(v);
}

/// The whole sequence is one of its own contiguous ranges.
proof fn lemma_sum_fits_whole(s: Seq<i64>)
    requires
        sum_fits(s),
    ensures
        i64::MIN <= sum_of(s) <= i64::MAX,
{
    assert(s.subrange(0, s.len() as int) =~= s);
}

/// `sum_fits` passes to every contiguous range.
proof fn lemma_sum_fits_subrange(s: Seq<i64>, i: int, j: int)
    requires
        sum_fits(s),
        0 <= i <= j <= s.len(),
    ensures
        sum_fits(s.subrange(i, j)),
{
    let sub = s.subrange(i, j);
    assert forall|a: int, b: int| 0 <= a <= b <= sub.len() implies i64::MIN <= sum_of(
        #[trigger] sub.subrange(a, b),
    ) <= i64::MAX by {
        assert(sub.subrange(a, b) =~= s.subrange(i + a, i + b));
    }
}

/// An index below which everything is `< v` and from which on
/// everything is `>= v` equals the count of elements `< v`.
proof fn lemma_count_lt_split(s: Seq<i64>, v: i64, idx: int)
    requires
        0 <= idx <= s.len(),
        forall|i: int| 0 <= i < idx ==> s[i] < v,
        forall|i: int| idx <= i < s.len() ==> s[i] >= v,
    ensures
        count_lt(s, v) == idx,
    decreases s.len(),
{
    if s.len() == 0 {
    } else {
        if idx == s.len() {
            lemma_count_lt_split(s.drop_last(), v, idx - 1);
        } else {
            lemma_count_lt_split(s.drop_last(), v, idx);
        }
    }
}

/// An ascending sequence stays ascending on every contiguous range.
proof fn lemma_sorted_subrange(s: Seq<i64>, i: int, j: int)
    requires
        sorted_asc(s),
        0 <= i <= j <= s.len(),
    ensures
        sorted_asc(s.subrange(i, j)),
{
}

/// Inserting `v` at its lower-bound rank keeps the sequence
/// ascending.
proof fn lemma_sorted_insert(s: Seq<i64>, v: i64, idx: int)
    requires
        sorted_asc(s),
        0 <= idx <= s.len(),
        forall|i: int| 0 <= i < idx ==> s[i] < v,
        forall|i: int| idx <= i < s.len() ==> s[i] >= v,
    ensures
        sorted_asc(s.insert(idx, v)),
{
    let t = s.insert(idx, v);
    s.insert_ensures(idx, v);
    assert forall|i: int, j: int| 0 <= i <= j < t.len() implies t[i] <= t[j] by {
        if i < idx {
            assert(t[i] == s[i]);
        } else if i == idx {
            assert(t[i] == v);
        } else {
            assert(t[i] == s[i - 1]);
        }
        if j < idx {
            assert(t[j] == s[j]);
        } else if j == idx {
            assert(t[j] == v);
        } else {
            assert(t[j] == s[j - 1]);
        }
    }
}

/// Inserting a value anywhere adds exactly that value to the
/// sequence's multiset of values.
proof fn lemma_insert_multiset(s: Seq<i64>, idx: int, v: i64)
    requires
        0 <= idx <= s.len(),
    ensures
        s.insert(idx, v).to_multiset() == s.to_multiset().insert(v),
{
    broadcast use vstd::seq_lib::group_to_multiset_ensures;
    broadcast use vstd::multiset::group_multiset_axioms;

    let a = s.subrange(0, idx);
    let b = s.subrange(idx, s.len() as int);
    assert(s =~= a + b);
    vstd::seq_lib::lemma_multiset_commutative(a, b);
    vstd::seq_lib::lemma_multiset_commutative(a.push(v), b);
    assert(a.push(v).to_multiset() =~= a.to_multiset().insert(v));
    assert(s.insert(idx, v) == a.push(v) + b);
    assert(a.to_multiset().insert(v).add(b.to_multiset()) =~= a.to_multiset().add(
        b.to_multiset(),
    ).insert(v));
}

/// Law: an ascending sequence is determined by the multiset of its
/// values — two ascending sequences holding the same values with
/// the same multiplicities are equal.  With `orderd_insert`'s
/// contract, which keeps the sequence ascending and adds exactly the
/// inserted value to its multiset, this says a container built
/// purely through `orderd_insert` holds, after every insertion, the
/// one ascending arrangement of the values inserted so far.
pub proof fn lemma_sorted_seqs_equal(a: Seq<i64>, b: Seq<i64>)
    requires
        sorted_asc(a),
        sorted_asc(b),
        a.to_multiset() == b.to_multiset(),
    ensures
        a == b,
{
    let leq = (|x: i64, y: i64| x <= y);
    assert(vstd::relations::total_ordering(leq)) by {
        assert forall|x: i64| #[trigger] leq(x, x) by {}
        assert forall|x: i64, y: i64| #[trigger] leq(x, y) && #[trigger] leq(y, x) implies x
            == y by {}
        assert forall|x: i64, y: i64, z: i64| #[trigger] leq(x, y) && #[trigger] leq(
            y,
            z,
        ) implies leq(x, z) by {}
        assert forall|x: i64, y: i64| #[trigger] leq(x, y) || #[trigger] leq(y, x) by {}
    }
    assert(vstd::relations::sorted_by(a, leq)) by {
        assert forall|i: int, j: int| 0 <= i < j < a.len() implies #[trigger] leq(a[i], a[j]) by {
            assert(a[i] <= a[j]);
        }
    }
    assert(vstd::relations::sorted_by(b, leq)) by {
        assert forall|i: int, j: int| 0 <= i < j < b.len() implies #[trigger] leq(b[i], b[j]) by {
            assert(b[i] <= b[j]);
        }
    }
    vstd::seq_lib::lemma_sorted_unique(a, b, leq);
}

/// A fresh leaf holding `v` with priority `rand`.
pub fn new_node(v: i64, rand: u64) -> (n: Node)
    ensures
        node_wf(n),
        node_heap(n),
        node_seq(n) == seq![v],
{
    proof {
        lemma_sum_single(v);
        assert(Seq::<i64>::empty() + seq![v] + Seq::<i64>::empty() =~= seq![v]);
    }
    Node { v, pri: rand, lch: None, rch: None, cnt: 1, sum: v }
}

/// The number of elements of the subtree, read from the cached
/// aggregate.
pub fn count(t: &Option<Box<Node>>) -> (r: usize)
    requires
        tree_wf(*t),
    ensures
        r == tree_seq(*t).len(),
{
    match t {
        Some(x) => x.cnt,
        None => 0,
    }
}

/// The sum of the subtree's elements, read from the cached
/// aggregate.
pub fn sum(t: &Option<Box<Node>>) -> (r: i64)
    requires
        tree_wf(*t),
    ensures
        r == sum_of(tree_seq(*t)),
{
    match t {
        Some(x) => {
            proof {
                lemma_sum_parts(tree_seq(x.lch), x.v, tree_seq(x.rch));
            }
            x.sum
        },
        None => 0,
    }
}

/// Recomputes the aggregates of `t` from its current children.
fn update(t: Box<Node>) -> (r: Box<Node>)
    requires
        tree_wf(t.lch),
        tree_wf(t.rch),
        1 + tree_seq(t.lch).len() + tree_seq(t.rch).len() <= usize::MAX,
        i64::MIN <= sum_of(tree_seq(t.lch)) + t.v <= i64::MAX,
        i64::MIN <= sum_of(tree_seq(t.lch)) + t.v + sum_of(tree_seq(t.rch)) <= i64::MAX,
    ensures
        tree_wf(Some(r)),
        tree_seq(Some(r)) == tree_seq(t.lch) + seq![t.v] + tree_seq(t.rch),
        r.v == t.v,
        r.pri == t.pri,
        r.lch == t.lch,
        r.rch == t.rch,
{
    let mut t = t;
    let cl = count(&t.lch);
    let cr = count(&t.rch);
    let sl = sum(&t.lch);
    let sr = sum(&t.rch);
    t.cnt = cl + cr + 1;
    t.sum = sl + t.v + sr;
    t
}

/// Concatenates two independent subtrees: every element of `l`
/// precedes every element of `r` in the result.  The root with the
/// larger priority wins, which keeps the expected depth logarithmic;
/// the value sequence is the same whichever root wins.
#[verifier::rlimit(60)]
pub fn merge(l: Option<Box<Node>>, r: Option<Box<Node>>) -> (t: Option<Box<Node>>)
    requires
        tree_wf(l),
        tree_wf(r),
        heap_wf(l),
        heap_wf(r),
        tree_seq(l).len() + tree_seq(r).len() <= usize::MAX,
        sum_fits(tree_seq(l) + tree_seq(r)),
    ensures
        tree_wf(t),
        heap_wf(t),
        tree_seq(t) == tree_seq(l) + tree_seq(r),
        forall|p: u64| pri_bounded(l, p) && pri_bounded(r, p) ==> pri_bounded(t, p),
    decreases l, r,
{
    let ghost lsq = tree_seq(l);
    let ghost rsq = tree_seq(r);
    if l.is_none() {
        proof {
            assert(lsq + rsq =~= rsq);
        }
        return r;
    }
    if r.is_none() {
        proof {
            assert(lsq + rsq =~= lsq);
        }
        return l;
    }
    let lb = l.unwrap();
    let rb = r.unwrap();
    if lb.pri > rb.pri {
        let mut lb = lb;
        let ghost la = tree_seq(lb.lch);
        let ghost lc = tree_seq(lb.rch);
        let old_rch = lb.rch.take();
        proof {
            assert(tree_seq(old_rch) + rsq =~= (lsq + rsq).subrange(
                la.len() as int + 1,
                (lsq + rsq).len() as int,
            ));
            lemma_sum_fits_subrange(lsq + rsq, la.len() as int + 1, (lsq + rsq).len() as int);
        }
        let merged = merge(old_rch, Some(rb));
        lb.rch = merged;
        proof {
            lemma_sum_concat(lc, rsq);
            lemma_sum_parts(la, lb.v, lc + rsq);
            assert(la + seq![lb.v] =~= (lsq + rsq).subrange(0, la.len() as int + 1));
            lemma_sum_concat(la, seq![lb.v]);
            lemma_sum_single(lb.v);
            assert(la + seq![lb.v] + (lc + rsq) =~= lsq + rsq);
            lemma_sum_fits_whole(lsq + rsq);
        }
        let nn = update(lb);
        proof {
            assert(tree_seq(Some(nn)) =~= lsq + rsq);
        }
        Some(nn)
    } else {
        let mut rb = rb;
        let ghost ra = tree_seq(rb.lch);
        let ghost rc = tree_seq(rb.rch);
        let old_lch = rb.lch.take();
        proof {
            assert(lsq + tree_seq(old_lch) =~= (lsq + rsq).subrange(0, lsq.len() as int + ra.len()));
            lemma_sum_fits_subrange(lsq + rsq, 0, lsq.len() as int + ra.len());
        }
        let merged = merge(Some(lb), old_lch);
        rb.lch = merged;
        proof {
            lemma_sum_concat(lsq, ra);
            assert((lsq + ra) + seq![rb.v] =~= (lsq + rsq).subrange(0, lsq.len() as int + ra.len() + 1));
            lemma_sum_concat(lsq + ra, seq![rb.v]);
            lemma_sum_single(rb.v);
            lemma_sum_fits_subrange(lsq + rsq, 0, lsq.len() as int + ra.len() + 1);
            lemma_sum_fits_whole((lsq + rsq).subrange(0, lsq.len() as int + ra.len() + 1));
            lemma_sum_parts(lsq + ra, rb.v, rc);
            assert((lsq + ra) + seq![rb.v] + rc =~= lsq + rsq);
            lemma_sum_fits_whole(lsq + rsq);
        }
        let nn = update(rb);
        proof {
            assert(tree_seq(Some(nn)) =~= lsq + rsq);
        }
        Some(nn)
    }
}

/// Partitions `t` into its first `k` elements and the rest.
#[verifier::rlimit(60)]
pub fn split(t: Option<Box<Node>>, k: usize) -> (r: (Option<Box<Node>>, Option<Box<Node>>))
    requires
        tree_wf(t),
        heap_wf(t),
        k <= tree_seq(t).len(),
        sum_fits(tree_seq(t)),
    ensures
        tree_wf(r.0),
        tree_wf(r.1),
        heap_wf(r.0),
        heap_wf(r.1),
        tree_seq(r.0) == tree_seq(t).subrange(0, k as int),
        tree_seq(r.1) == tree_seq(t).subrange(k as int, tree_seq(t).len() as int),
        sum_fits(tree_seq(r.0)),
        sum_fits(tree_seq(r.1)),
        forall|p: u64| pri_bounded(t, p) ==> pri_bounded(r.0, p) && pri_bounded(r.1, p),
    decreases t,
{
    let ghost tsq = tree_seq(t);
    if t.is_none() {
        proof {
            assert(tsq.subrange(0, 0) =~= tsq);
        }
        return (None, None);
    }
    let mut b = t.unwrap();
    let ghost la = tree_seq(b.lch);
    let ghost rc = tree_seq(b.rch);
    let lcnt = count(&b.lch);
    proof {
        lemma_sum_fits_subrange(tsq, 0, k as int);
        lemma_sum_fits_subrange(tsq, k as int, tsq.len() as int);
    }
    if k <= lcnt {
        let old_lch = b.lch.take();
        proof {
            assert(la =~= tsq.subrange(0, la.len() as int));
            lemma_sum_fits_subrange(tsq, 0, la.len() as int);
        }
        let (s0, s1) = split(old_lch, k);
        b.lch = s1;
        proof {
            let s1sq = la.subrange(k as int, la.len() as int);
            assert(s1sq + seq![b.v] =~= tsq.subrange(k as int, la.len() as int + 1));
            lemma_sum_concat(s1sq, seq![b.v]);
            lemma_sum_single(b.v);
            lemma_sum_fits_subrange(tsq, k as int, la.len() as int + 1);
            lemma_sum_fits_whole(tsq.subrange(k as int, la.len() as int + 1));
            assert(s1sq + seq![b.v] + rc =~= tsq.subrange(k as int, tsq.len() as int));
            lemma_sum_parts(s1sq, b.v, rc);
            lemma_sum_fits_whole(tsq.subrange(k as int, tsq.len() as int));
        }
        let nn = update(b);
        proof {
            assert(tree_seq(Some(nn)) =~= tsq.subrange(k as int, tsq.len() as int));
            assert(la.subrange(0, k as int) =~= tsq.subrange(0, k as int));
        }
        (s0, Some(nn))
    } else {
        let old_rch = b.rch.take();
        proof {
            assert(rc =~= tsq.subrange(la.len() as int + 1, tsq.len() as int));
            lemma_sum_fits_subrange(tsq, la.len() as int + 1, tsq.len() as int);
        }
        let (s0, s1) = split(old_rch, k - lcnt - 1);
        b.rch = s0;
        proof {
            let s0sq = rc.subrange(0, k - la.len() - 1);
            assert(la + seq![b.v] =~= tsq.subrange(0, la.len() as int + 1));
            lemma_sum_concat(la, seq![b.v]);
            lemma_sum_single(b.v);
            lemma_sum_fits_subrange(tsq, 0, la.len() as int + 1);
            lemma_sum_fits_whole(tsq.subrange(0, la.len() as int + 1));
            assert(la + seq![b.v] + s0sq =~= tsq.subrange(0, k as int));
            lemma_sum_parts(la, b.v, s0sq);
            lemma_sum_fits_whole(tsq.subrange(0, k as int));
        }
        let nn = update(b);
        proof {
            assert(tree_seq(Some(nn)) =~= tsq.subrange(0, k as int));
            assert(rc.subrange(k - la.len() - 1, rc.len() as int) =~= tsq.subrange(
                k as int,
                tsq.len() as int,
            ));
        }
        (Some(nn), s1)
    }
}

/// Positional insertion: split at `k`, then merge prefix, a fresh
/// singleton and suffix, in that order.
pub fn insert(t: Box<Node>, k: usize, v: i64, rand: u64) -> (r: Option<Box<Node>>)
    requires
        node_wf(*t),
        node_heap(*t),
        k <= node_seq(*t).len(),
        node_seq(*t).len() < usize::MAX,
        sum_fits(node_seq(*t)),
        sum_fits(node_seq(*t).insert(k as int, v)),
    ensures
        tree_wf(r),
        heap_wf(r),
        tree_seq(r) == node_seq(*t).insert(k as int, v),
        sum_fits(tree_seq(r)),
{
    let ghost tsq = node_seq(*t);
    let ghost isq = tsq.insert(k as int, v);
    proof {
        assert(tree_seq(Some(t)) == tsq);
        assert(tsq.subrange(0, k as int) + seq![v] =~= isq.subrange(0, k + 1));
        assert(isq.subrange(0, k + 1) + tsq.subrange(k as int, tsq.len() as int) =~= isq);
        lemma_sum_fits_subrange(isq, 0, k + 1);
    }
    let (l, rr) = split(Some(t), k);
    let node = Box::new(new_node(v, rand));
    proof {
        assert(tree_seq(Some(node)) == seq![v]);
    }
    let nt = merge(l, Some(node));
    let res = merge(nt, rr);
    proof {
        assert(tree_seq(res) =~= isq);
        lemma_sum_fits_subrange(isq, 0, isq.len() as int);
        assert(isq.subrange(0, isq.len() as int) =~= isq);
    }
    res
}

/// Positional removal: isolate position `k` with two splits, drop
/// the singleton and merge the outer parts.
pub fn erase(t: Box<Node>, k: usize) -> (r: Option<Box<Node>>)
    requires
        node_wf(*t),
        node_heap(*t),
        k < node_seq(*t).len(),
        sum_fits(node_seq(*t)),
        sum_fits(node_seq(*t).remove(k as int)),
    ensures
        tree_wf(r),
        heap_wf(r),
        tree_seq(r) == node_seq(*t).remove(k as int),
        sum_fits(tree_seq(r)),
{
    let ghost tsq = node_seq(*t);
    let ghost rsq = tsq.remove(k as int);
    proof {
        assert(tree_seq(Some(t)) == tsq);
    }
    let (t1, rest) = split(Some(t), k);
    let (_mid, t3) = split(rest, 1);
    proof {
        assert(tree_seq(t3) =~= tsq.subrange(k + 1, tsq.len() as int));
        assert(tree_seq(t1) + tree_seq(t3) =~= rsq);
    }
    let res = merge(t1, t3);
    proof {
        lemma_sum_fits_subrange(rsq, 0, rsq.len() as int);
        assert(rsq.subrange(0, rsq.len() as int) =~= rsq);
    }
    res
}

/// On an ascending subtree, the number of elements strictly below
/// `v` — the lower-bound rank of `v`.
pub fn bisect(t: &Option<Box<Node>>, v: i64) -> (r: usize)
    requires
        tree_wf(*t),
        sorted_asc(tree_seq(*t)),
    ensures
        r <= tree_seq(*t).len(),
        forall|i: int| 0 <= i < r ==> tree_seq(*t)[i] < v,
        forall|i: int| r <= i < tree_seq(*t).len() ==> tree_seq(*t)[i] >= v,
    decreases *t,
{
    match t {
        None => 0,
        Some(n) => {
            let ghost tsq = tree_seq(*t);
            let ghost la = tree_seq(n.lch);
            let ghost rc = tree_seq(n.rch);
            if v <= n.v {
                proof {
                    assert(la =~= tsq.subrange(0, la.len() as int));
                    lemma_sorted_subrange(tsq, 0, la.len() as int);
                }
                let r = bisect(&n.lch, v);
                proof {
                    assert forall|i: int| r <= i < tsq.len() implies tsq[i] >= v by {
                        if i < la.len() {
                            assert(tsq[i] == la[i]);
                        } else if i == la.len() {
                            assert(tsq[i] == n.v);
                        } else {
                            assert(tsq[la.len() as int] <= tsq[i]);
                            assert(tsq[la.len() as int] == n.v);
                        }
                    }
                    assert forall|i: int| 0 <= i < r implies tsq[i] < v by {
                        assert(tsq[i] == la[i]);
                    }
                }
                r
            } else {
                let lcnt = count(&n.lch);
                proof {
                    assert(rc =~= tsq.subrange(la.len() as int + 1, tsq.len() as int));
                    lemma_sorted_subrange(tsq, la.len() as int + 1, tsq.len() as int);
                }
                let r2 = bisect(&n.rch, v);
                proof {
                    assert forall|i: int| 0 <= i < lcnt + 1 + r2 implies tsq[i] < v by {
                        if i < la.len() {
                            assert(tsq[i] <= tsq[la.len() as int]);
                            assert(tsq[la.len() as int] == n.v);
                        } else if i == la.len() {
                            assert(tsq[i] == n.v);
                        } else {
                            assert(tsq[i] == rc[i - la.len() - 1]);
                        }
                    }
                    assert forall|i: int| lcnt + 1 + r2 <= i < tsq.len() implies tsq[i] >= v by {
                        assert(tsq[i] == rc[i - la.len() - 1]);
                    }
                }
                lcnt + 1 + r2
            }
        },
    }
}

/// The errors a [`Treap`] operation can report: an index or range
/// endpoint beyond the current length, or an inverted range.
#[derive(Clone, Copy, Debug, PartialEq, Eq, Structural)]
pub enum TreapError {
    /// An index or range endpoint exceeds the stated bound.
    IndexOutOfRange,
    /// A range with `l > r`.
    InvalidRange,
}

/// A container owning one treap root and the generator that supplies
/// fresh node priorities.
#[derive(Debug)]
pub struct Treap {
    rng: Xorshift,
    t: Option<Box<Node>>,
}

impl View for Treap {
    type V = Seq<i64>;

    /// The in-order value sequence held by the container.
    closed spec fn view(&self) -> Seq<i64> {
        tree_seq(self.t)
    }
}

impl Treap {
    /// Structural well-formedness: consistent aggregates, max-heap
    /// priorities, and every contiguous range sum representable in
    /// `i64`.
    pub closed spec fn well_formed(&self) -> bool {
        &&& tree_wf(self.t)
        &&& heap_wf(self.t)
        &&& sum_fits(tree_seq(self.t))
    }

    /// An empty container.
    pub fn new() -> (t: Treap)
        ensures
            t.well_formed(),
            t@ == Seq::<i64>::empty(),
    {
        proof {
            assert forall|i: int, j: int| 0 <= i <= j <= 0 implies i64::MIN <= sum_of(
                #[trigger] Seq::<i64>::empty().subrange(i, j),
            ) <= i64::MAX by {
                assert(Seq::<i64>::empty().subrange(i, j) =~= Seq::<i64>::empty());
            }
        }
        Treap { rng: Xorshift::new(), t: None }
    }

    /// The number of stored elements.
    pub fn len(&self) -> (n: usize)
        requires
            self.well_formed(),
        ensures
            n == self@.len(),
    {
        count(&self.t)
    }

    /// Inserts `v` at position `k`, shifting the suffix right.
    /// Reports `IndexOutOfRange` when `k` exceeds the length, and
    /// changes nothing in that case.
    pub fn insert(&mut self, k: usize, v: i64) -> (res: Result<(), TreapError>)
        requires
            old(self).well_formed(),
            k <= old(self)@.len() ==> old(self)@.len() < usize::MAX && sum_fits(
                old(self)@.insert(k as int, v),
            ),
        ensures
            final(self).well_formed(),
            k <= old(self)@.len() ==> res == Ok::<(), TreapError>(()) && final(self)@ == old(
                self,
            )@.insert(k as int, v),
            k > old(self)@.len() ==> res == Err::<(), TreapError>(TreapError::IndexOutOfRange)
                && final(self)@ == old(self)@,
    {
        let len = count(&self.t);
        if k > len {
            return Err(TreapError::IndexOutOfRange);
        }
        let pri = self.rng.next();
        let ghost s0 = tree_seq(self.t);
        match self.t.take() {
            None => {
                let node = Box::new(new_node(v, pri));
                proof {
                    assert(s0.insert(k as int, v) =~= seq![v]);
                    assert(tree_seq(Some(node)) == seq![v]);
                }
                self.t = Some(node);
            },
            Some(b) => {
                self.t = insert(b, k, v, pri);
            },
        }
        Ok(())
    }

    /// Removes the element at position `k`, shifting the suffix
    /// left.  Reports `IndexOutOfRange` when `k >= len()`, and
    /// changes nothing in that case.
    pub fn erase(&mut self, k: usize) -> (res: Result<(), TreapError>)
        requires
            old(self).well_formed(),
            k < old(self)@.len() ==> sum_fits(old(self)@.remove(k as int)),
        ensures
            final(self).well_formed(),
            k < old(self)@.len() ==> res == Ok::<(), TreapError>(()) && final(self)@ == old(
                self,
            )@.remove(k as int),
            k >= old(self)@.len() ==> res == Err::<(), TreapError>(TreapError::IndexOutOfRange)
                && final(self)@ == old(self)@,
    {
        let len = count(&self.t);
        if k >= len {
            return Err(TreapError::IndexOutOfRange);
        }
        match self.t.take() {
            None => {
                proof {
                    assert(false);
                }
            },
            Some(b) => {
                self.t = erase(b, k);
            },
        }
        Ok(())
    }

    /// The lower-bound rank of `v` within the window of positions
    /// `[l, r)`, counted from position 0: assuming that window is
    /// ascending, the first position in it whose element is `>= v`,
    /// or `r` if there is none.  The tree is fully reassembled before
    /// returning.
    #[verifier::rlimit(60)]
    pub fn lower_bound(&mut self, l: usize, r: usize, v: i64) -> (res: Result<
        usize,
        TreapError,
    >)
        requires
            old(self).well_formed(),
            l <= r <= old(self)@.len() ==> sorted_asc(old(self)@.subrange(l as int, r as int)),
        ensures
            final(self).well_formed(),
            final(self)@ == old(self)@,
            l > r ==> res == Err::<usize, TreapError>(TreapError::InvalidRange),
            l <= r && r > old(self)@.len() ==> res == Err::<usize, TreapError>(
                TreapError::IndexOutOfRange,
            ),
            l <= r <= old(self)@.len() ==> (res matches Ok(idx) && l <= idx <= r && (forall|
                i: int,
            |
                l <= i < idx ==> old(self)@[i] < v) && (forall|i: int|
                idx <= i < r ==> old(self)@[i] >= v)),
    {
        if l > r {
            return Err(TreapError::InvalidRange);
        }
        let len = count(&self.t);
        if r > len {
            return Err(TreapError::IndexOutOfRange);
        }
        let ghost s = tree_seq(self.t);
        let t = self.t.take();
        let (lt, rest) = split(t, l);
        proof {
            assert(tree_seq(rest).subrange(0, r - l) =~= s.subrange(l as int, r as int));
        }
        let (mid, rt) = split(rest, r - l);
        let lcnt = count(&lt);
        let b = bisect(&mid, v);
        let idx = lcnt + b;
        proof {
            assert(tree_seq(mid) + tree_seq(rt) =~= s.subrange(l as int, s.len() as int));
            lemma_sum_fits_subrange(s, l as int, s.len() as int);
        }
        let m2 = merge(mid, rt);
        proof {
            assert(tree_seq(lt) + tree_seq(m2) =~= s);
        }
        self.t = merge(lt, m2);
        proof {
            assert forall|i: int| l <= i < idx implies s[i] < v by {
                assert(s.subrange(l as int, r as int)[i - l] == s[i]);
            }
            assert forall|i: int| idx <= i < r implies s[i] >= v by {
                assert(s.subrange(l as int, r as int)[i - l] == s[i]);
            }
        }
        Ok(idx)
    }

    /// Inserts `v` at its lower-bound rank, keeping the sequence
    /// ascending.  This is the sole sanctioned way to build a sorted
    /// container.
    pub fn orderd_insert(&mut self, v: i64)
        requires
            old(self).well_formed(),
            sorted_asc(old(self)@),
            old(self)@.len() < usize::MAX,
            sum_fits(old(self)@.insert(count_lt(old(self)@, v), v)),
        ensures
            final(self).well_formed(),
            final(self)@ == old(self)@.insert(count_lt(old(self)@, v), v),
            sorted_asc(final(self)@),
            final(self)@.to_multiset() == old(self)@.to_multiset().insert(v),
    {
        let ghost s0 = tree_seq(self.t);
        let n = self.len();
        proof {
            assert(s0.subrange(0, n as int) =~= s0);
        }
        let pos = match self.lower_bound(0, n, v) {
            Ok(p) => p,
            Err(_) => {
                proof {
                    assert(false);
                }
                0
            },
        };
        proof {
            lemma_count_lt_split(s0, v, pos as int);
            lemma_sorted_insert(s0, v, pos as int);
            lemma_insert_multiset(s0, pos as int, v);
        }
        let _ = self.insert(pos, v);
    }

    /// The sum of the elements at positions `[l, r)`.  The tree is
    /// fully reassembled before returning.  Reports `InvalidRange`
    /// when `l > r` and `IndexOutOfRange` when `r` exceeds the
    /// length; nothing is changed in either case.
    #[verifier::rlimit(60)]
    pub fn sum(&mut self, l: usize, r: usize) -> (res: Result<i64, TreapError>)
        requires
            old(self).well_formed(),
        ensures
            final(self).well_formed(),
            final(self)@ == old(self)@,
            l > r ==> res == Err::<i64, TreapError>(TreapError::InvalidRange),
            l <= r && r > old(self)@.len() ==> res == Err::<i64, TreapError>(
                TreapError::IndexOutOfRange,
            ),
            l <= r <= old(self)@.len() ==> (res matches Ok(x) && x == sum_of(
                old(self)@.subrange(l as int, r as int),
            )),
    {
        if l > r {
            return Err(TreapError::InvalidRange);
        }
        let len = count(&self.t);
        if r > len {
            return Err(TreapError::IndexOutOfRange);
        }
        let ghost s = tree_seq(self.t);
        let t = self.t.take();
        let (a1, a2) = split(t, l);
        proof {
            assert(tree_seq(a2).subrange(0, r - l) =~= s.subrange(l as int, r as int));
        }
        let (b1, b2) = split(a2, r - l);
        let res = sum(&b1);
        proof {
            assert(tree_seq(b1) + tree_seq(b2) =~= s.subrange(l as int, s.len() as int));
            lemma_sum_fits_subrange(s, l as int, s.len() as int);
        }
        let m2 = merge(b1, b2);
        proof {
            assert(tree_seq(a1) + tree_seq(m2) =~= s);
        }
        self.t = merge(a1, m2);
        Ok(res)
    }

    /// The element at position `k`, as the one-element range sum
    /// `sum(k, k + 1)`.
    pub fn get(&mut self, k: usize) -> (res: Result<i64, TreapError>)
        requires
            old(self).well_formed(),
        ensures
            final(self).well_formed(),
            final(self)@ == old(self)@,
            k < old(self)@.len() ==> (res matches Ok(x) && x == old(self)@[k as int]),
            k >= old(self)@.len() ==> res == Err::<i64, TreapError>(TreapError::IndexOutOfRange),
    {
        let len = count(&self.t);
        if k >= len {
            return Err(TreapError::IndexOutOfRange);
        }
        let ghost s = tree_seq(self.t);
        let res = self.sum(k, k + 1);
        proof {
            assert(s.subrange(k as int, k + 1) =~= seq![s[k as int]]);
            lemma_sum_single(s[k as int]);
        }
        res
    }

    /// Consumes the container and parts it at position `k` into the
    /// prefix `[0, k)` and the suffix `[k, len())`; both halves carry
    /// a copy of the generator's current state.  Reports
    /// `IndexOutOfRange` when `k` exceeds the length.
    pub fn split(self, k: usize) -> (res: Result<(Treap, Treap), TreapError>)
        requires
            self.well_formed(),
        ensures
            k <= self@.len() ==> (res matches Ok(p) && p.0.well_formed() && p.1.well_formed()
                && p.0@ == self@.subrange(0, k as int) && p.1@ == self@.subrange(
                k as int,
                self@.len() as int,
            )),
            k > self@.len() ==> res == Err::<(Treap, Treap), TreapError>(
                TreapError::IndexOutOfRange,
            ),
    {
        let Treap { rng, t } = self;
        let len = count(&t);
        if k > len {
            return Err(TreapError::IndexOutOfRange);
        }
        let (a, b) = split(t, k);
        Ok((Treap { rng: rng.clone(), t: a }, Treap { rng: rng.clone(), t: b }))
    }
}

/// The empty tree is well-formed in every respect and holds the
/// empty sequence; callers can start the split/merge algebra from
/// it.
pub proof fn lemma_empty_tree()
    ensures
        tree_wf(Option::<Box<Node>>::None),
        heap_wf(Option::<Box<Node>>::None),
        tree_seq(Option::<Box<Node>>::None) == Seq::<i64>::empty(),
        sum_fits(Seq::<i64>::empty()),
{
    assert forall|i: int, j: int| 0 <= i <= j <= 0 implies i64::MIN <= sum_of(
        #[trigger] Seq::<i64>::empty().subrange(i, j),
    ) <= i64::MAX by {
        assert(Seq::<i64>::empty().subrange(i, j) =~= Seq::<i64>::empty());
    }
}

/// A nonempty tree and its root node describe the same subtree;
/// this turns what `merge` or `split` return into what `insert` and
/// `erase` require, and back.
pub proof fn lemma_root_node(b: Box<Node>)
    ensures
        tree_wf(Some(b)) <==> node_wf(*b),
        heap_wf(Some(b)) <==> node_heap(*b),
        tree_seq(Some(b)) == node_seq(*b),
{
}

/// Law: splitting a sequence at `k` yields parts whose lengths add
/// back to the whole, and whose concatenation is the whole — the
/// model-level counterpart of `split` followed by `merge`.
pub proof fn lemma_split_merge_roundtrip(s: Seq<i64>, k: int)
    requires
        0 <= k <= s.len(),
    ensures
        s.subrange(0, k).len() + s.subrange(k, s.len() as int).len() == s.len(),
        s.subrange(0, k) + s.subrange(k, s.len() as int) == s,
{
    assert(s.subrange(0, k) + s.subrange(k, s.len() as int) =~= s);
}

} // verus!
