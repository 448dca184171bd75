//! Augmenting-path matching on a two-colorable adjacency-list
//! graph: the result is a pairwise-disjoint set of edges that is
//! maximal by inclusion — no edge of the graph joins two vertices
//! that both stay unmatched.

use vstd::prelude::*;

verus! {

/// Every adjacency entry is a vertex of the graph.
pub open spec fn graph_ok(g: Seq<Vec<usize>>) -> bool {
    forall|a: int, e: int|
        0 <= a < g.len() && 0 <= e < g[a]@.len() ==> #[trigger] g[a]@[e] < g.len()
}

/// `b` appears in the adjacency list of `a`.
pub open spec fn is_edge(g: Seq<Vec<usize>>, a: int, b: int) -> bool {
    &&& 0 <= a < g.len()
    &&& exists|e: int| 0 <= e < g[a]@.len() && #[trigger] g[a]@[e] == b
}

/// `side` two-colors the graph: every adjacency entry lies on the
/// other side of its list's owner.
pub open spec fn colors_ok(g: Seq<Vec<usize>>, side: Seq<bool>) -> bool {
    forall|a: int, e: int|
        0 <= a < g.len() && 0 <= e < g[a]@.len() ==> side[#[trigger] g[a]@[e] as int] != side[a]
}

/// The graph admits a two-coloring (it is bipartite, with no
/// self-loops).
pub open spec fn two_colorable(g: Seq<Vec<usize>>) -> bool {
    exists|side: Seq<bool>| side.len() == g.len() && #[trigger] colors_ok(g, side)
}

/// Every matched vertex is matched along an edge of the graph.
pub open spec fn edges_ok(g: Seq<Vec<usize>>, m: Seq<Option<usize>>) -> bool {
    forall|a: int|
        0 <= a < m.len() && (#[trigger] m[a]) is Some ==> is_edge(g, a, m[a].unwrap() as int)
            || is_edge(g, m[a].unwrap() as int, a)
}

/// Every match entry names a vertex.
pub open spec fn m_in_range(m: Seq<Option<usize>>, n: int) -> bool {
    forall|a: int| 0 <= a < m.len() && (#[trigger] m[a]) is Some ==> m[a].unwrap() < n
}

/// The match array is symmetric: partners point at each other.
pub open spec fn sym_ok(m: Seq<Option<usize>>) -> bool {
    forall|a: int|
        0 <= a < m.len() && (#[trigger] m[a]) is Some ==> m[a].unwrap() < m.len()
            && m[m[a].unwrap() as int] == Some(a as usize)
}

/// The number of `false` entries.
spec fn count_false(u: Seq<bool>) -> int
    decreases u.len(),
{
    if u.len() == 0 {
        0
    } else {
        count_false(u.drop_last()) + (if u.last() {
            0int
        } else {
            1int
        })
    }
}

proof fn lemma_count_false_nonneg(u: Seq<bool>)
    ensures
        count_false(u) >= 0,
    decreases u.len(),
{
    if u.len() > 0 {
        lemma_count_false_nonneg(u.drop_last());
    }
}

proof fn lemma_count_false_update(u: Seq<bool>, v: int)
    requires
        0 <= v < u.len(),
        !u[v],
    ensures
        count_false(u.update(v, true)) == count_false(u) - 1,
    decreases u.len(),
{
    let w = u.update(v, true);
    if v == u.len() - 1 {
        assert(w.drop_last() =~= u.drop_last());
        assert(w.last());
    } else {
        assert(w.drop_last() =~= u.drop_last().update(v, true));
        lemma_count_false_update(u.drop_last(), v);
        assert(w.last() == u.last());
    }
}

proof fn lemma_count_false_mono(u1: Seq<bool>, u2: Seq<bool>)
    requires
        u1.len() == u2.len(),
        forall|x: int| 0 <= x < u1.len() && u1[x] ==> u2[x],
    ensures
        count_false(u2) <= count_false(u1),
    decreases u1.len(),
{
    if u1.len() > 0 {
        assert forall|x: int|
            0 <= x < u1.drop_last().len() && u1.drop_last()[x] implies u2.drop_last()[x] by {
            assert(u1[x] ==> u2[x]);
        }
        lemma_count_false_mono(u1.drop_last(), u2.drop_last());
    }
}

/// A matched pair crosses the two-coloring.
proof fn lemma_pair_crosses(
    g: Seq<Vec<usize>>,
    side: Seq<bool>,
    m: Seq<Option<usize>>,
    a: int,
)
    requires
        graph_ok(g),
        side.len() == g.len(),
        colors_ok(g, side),
        edges_ok(g, m),
        m.len() == g.len(),
        m_in_range(m, g.len() as int),
        0 <= a < m.len(),
        m[a] is Some,
    ensures
        side[m[a].unwrap() as int] != side[a],
        m[a].unwrap() != a,
{
    let b = m[a].unwrap() as int;
    if is_edge(g, a, b) {
        let e = choose|e: int| 0 <= e < g[a]@.len() && #[trigger] g[a]@[e] == b;
        assert(side[g[a]@[e] as int] != side[a]);
    } else {
        let e = choose|e: int| 0 <= e < g[b]@.len() && #[trigger] g[b]@[e] == a;
        assert(side[g[b]@[e] as int] != side[b]);
    }
}

/// One augmenting-path search from `v`: tries to match `v`, possibly
/// rematching already-matched vertices on `v`'s side along the way.
/// Marks every vertex it visits in `used`.  On success the array is
/// symmetric again except at vertices that were already pointing at
/// `v`, which the caller redirects.
fn dfs(
    v: usize,
    g_list: &Vec<Vec<usize>>,
    used: &mut Vec<bool>,
    matching: &mut Vec<Option<usize>>,
    side: Ghost<Seq<bool>>,
) -> (found: bool)
    requires
        graph_ok(g_list@),
        g_list@.len() <= usize::MAX,
        side@.len() == g_list@.len(),
        colors_ok(g_list@, side@),
        old(used)@.len() == g_list@.len(),
        old(matching)@.len() == g_list@.len(),
        v < g_list@.len(),
        !old(used)@[v as int],
        edges_ok(g_list@, old(matching)@),
        m_in_range(old(matching)@, g_list@.len() as int),
        sym_ok(old(matching)@),
    ensures
        final(used)@.len() == g_list@.len(),
        final(matching)@.len() == g_list@.len(),
        forall|x: int| 0 <= x < g_list@.len() && old(used)@[x] ==> final(used)@[x],
        final(used)@[v as int],
        edges_ok(g_list@, final(matching)@),
        m_in_range(final(matching)@, g_list@.len() as int),
        forall|x: int|
            0 <= x < g_list@.len() && (#[trigger] old(matching)@[x]) is Some ==> final(matching)@[x] is Some,
        !found ==> final(matching)@ == old(matching)@,
        !found ==> forall|e: int|
            0 <= e < g_list@[v as int]@.len() ==> (#[trigger] old(matching)@[g_list@[v as int]@[e]
                as int]) is Some,
        found ==> final(matching)@[v as int] is Some,
        found ==> final(matching)@[final(matching)@[v as int].unwrap() as int] == Some(v),
        found ==> forall|a: int|
            0 <= a < g_list@.len() && (#[trigger] final(matching)@[a]) is Some && final(matching)@[final(matching)@[a].unwrap() as int] != Some(a as usize) ==> old(matching)@[a]
                == Some(v) && final(matching)@[a] == Some(v),
        found ==> forall|a: int|
            0 <= a < g_list@.len() && (#[trigger] old(matching)@[a]) == Some(v) ==> final(matching)@[v as int] != Some(a as usize),
        found ==> forall|a: int|
            0 <= a < g_list@.len() && a != v && side@[a] == side@[v as int] && (#[trigger] final(matching)@[a]) != old(matching)@[a] ==> !old(used)@[a],
        found ==> forall|a: int|
            0 <= a < g_list@.len() && side@[a] != side@[v as int] && (#[trigger] final(matching)@[a]) != old(matching)@[a] ==> (old(matching)@[a] is None || (old(matching)@[a].unwrap() != v && !old(used)@[old(matching)@[a].unwrap() as int])),
    decreases count_false(old(used)@),
{
    let ghost n = g_list@.len() as int;
    used.set(v, true);
    proof {
        lemma_count_false_update(old(used)@, v as int);
    }
    let deg = g_list[v].len();
    let mut i: usize = 0;
    while i < deg
        invariant
            graph_ok(g_list@),
            g_list@.len() <= usize::MAX,
            side@.len() == g_list@.len(),
            colors_ok(g_list@, side@),
            v < g_list@.len(),
            n == g_list@.len(),
            deg == g_list@[v as int]@.len(),
            used@.len() == g_list@.len(),
            matching@.len() == g_list@.len(),
            used@[v as int],
            forall|x: int| 0 <= x < g_list@.len() && old(used)@[x] ==> used@[x],
            count_false(used@) <= count_false(old(used)@) - 1,
            edges_ok(g_list@, matching@),
            m_in_range(matching@, n),
            sym_ok(matching@),
            matching@ == old(matching)@,
            forall|e: int|
                0 <= e < i ==> (#[trigger] matching@[g_list@[v as int]@[e] as int]) is Some,
        decreases deg - i,
    {
        let u = g_list[v][i];
        let w = matching[u];
        let mut take = false;
        let ghost used_at_call = used@;
        match w {
            None => {
                take = true;
            },
            Some(wv) => {
                if !used[wv] {
                    proof {
                        lemma_count_false_nonneg(used@);
                    }
                    take = dfs(wv, g_list, used, matching, side);
                    proof {
                        lemma_count_false_mono(used_at_call, used@);
                    }
                }
            },
        }
        if take {
            let ghost m0 = old(matching)@;
            let ghost m1 = matching@;
            matching.set(v, Some(u));
            matching.set(u, Some(v));
            proof {
                let gv = v as int;
                let gu = u as int;
                let m2 = matching@;
                assert(side@[gu] != side@[gv]);
                assert(gu != gv);
                match w {
                    None => {
                        assert(m1 == m0);
                        assert forall|a: int|
                            0 <= a < n && (#[trigger] m2[a]) is Some && m2[m2[a].unwrap() as int]
                                != Some(a as usize) implies m0[a] == Some(v) && m2[a] == Some(
                            v,
                        ) by {
                            if a != gv && a != gu {
                                let b = m0[a].unwrap() as int;
                                assert(m0[b] == Some(a as usize));
                                if b == gu {
                                    assert(false);
                                }
                            }
                        }
                    },
                    Some(wv) => {
                        let gw = wv as int;
                        // the rematched head sits on v's side
                        lemma_pair_crosses(g_list@, side@, m0, gu);
                        assert(side@[gw] == side@[gv]);
                        assert(m0[gw] == Some(u));
                        // v's own entry and u's entry survived the
                        // recursive rematch
                        assert(used_at_call[gv]);
                        assert(m1[gv] == m0[gv]) by {
                            if m1[gv] != m0[gv] {
                                assert(!used_at_call[gv]);
                            }
                        }
                        assert(m1[gu] == m0[gu]) by {
                            if m1[gu] != m0[gu] {
                                assert(m0[gu].unwrap() != wv);
                            }
                        }
                        assert(m1[gw] != Some(u));
                        assert forall|a: int|
                            0 <= a < n && (#[trigger] m2[a]) is Some && m2[m2[a].unwrap() as int]
                                != Some(a as usize) implies m0[a] == Some(v) && m2[a] == Some(
                            v,
                        ) by {
                            if a != gv && a != gu {
                                assert(m2[a] == m1[a]);
                                let b = m1[a].unwrap() as int;
                                if m1[b] != Some(a as usize) {
                                    // broken already in the callee's
                                    // result: only stale pointers at wv
                                    assert(m0[a] == Some(wv) && m1[a] == Some(wv));
                                    assert(m0[gw] == Some(a as usize));
                                    assert(false);
                                } else {
                                    if b == gv {
                                        // a is v's old partner; its
                                        // entry was never touched
                                        assert(m0[gv] == Some(a as usize));
                                        assert(m0[a] == Some(v));
                                        lemma_pair_crosses(g_list@, side@, m0, a);
                                        assert(m1[a] == m0[a]) by {
                                            if m1[a] != m0[a] {
                                                assert(!used_at_call[gv]);
                                            }
                                        }
                                    } else if b == gu {
                                        assert(m1[gu] == Some(a as usize));
                                        assert(a == gw);
                                        assert(false);
                                    } else {
                                        assert(m2[b] == m1[b]);
                                        assert(false);
                                    }
                                }
                            }
                        }
                        assert forall|a: int|
                            0 <= a < n && a != gv && side@[a] == side@[gv] && (#[trigger] m2[a])
                                != m0[a] implies !old(used)@[a] by {
                            if a != gu {
                                assert(m1[a] != m0[a]);
                                assert(!used_at_call[a]);
                            } else {
                                assert(side@[gu] != side@[gv]);
                            }
                        }
                        assert forall|a: int|
                            0 <= a < n && side@[a] != side@[gv] && (#[trigger] m2[a]) != m0[a]
                                implies (m0[a] is None || (m0[a].unwrap() != v && !old(used)@[m0[a].unwrap() as int])) by {
                            if a == gu {
                                assert(m0[gu].unwrap() == wv);
                                assert(!used_at_call[gw]);
                            } else if a != gv {
                                assert(m1[a] != m0[a]);
                                if m0[a] is Some {
                                    assert(m0[a].unwrap() != wv);
                                    assert(!used_at_call[m0[a].unwrap() as int]);
                                    assert(used_at_call[gv]);
                                }
                            }
                        }
                    },
                }
            }
            return true;
        }
        i = i + 1;
    }
    false
}

/// A maximal matching of a two-colorable graph, found by repeated
/// augmenting-path searches.  Each returned pair `(a, b)` has
/// `a < b` and is an edge of the graph; the pairs are pairwise
/// vertex-disjoint; and every edge of the graph touches some
/// returned pair, so no further edge could be added.
pub fn bipartite_matching(g_list: &Vec<Vec<usize>>) -> (res: Vec<(usize, usize)>)
    requires
        graph_ok(g_list@),
        two_colorable(g_list@),
    ensures
        forall|p: int|
            0 <= p < res@.len() ==> ((#[trigger] res@[p]).0 < res@[p].1 && res@[p].1
                < g_list@.len() && (is_edge(g_list@, res@[p].0 as int, res@[p].1 as int)
                || is_edge(g_list@, res@[p].1 as int, res@[p].0 as int))),
        forall|p: int, q: int|
            0 <= p < q < res@.len() ==> ((#[trigger] res@[p]).0 != (#[trigger] res@[q]).0
                && res@[p].0 != res@[q].1 && res@[p].1 != res@[q].0 && res@[p].1 != res@[q].1),
        forall|a: int, b: int|
            #[trigger] is_edge(g_list@, a, b) && 0 <= b < g_list@.len() ==> exists|p: int|
                0 <= p < res@.len() && ((#[trigger] res@[p]).0 == a || res@[p].1 == a
                || res@[p].0 == b || res@[p].1 == b),
{
    let ghost side = choose|side: Seq<bool>|
        side.len() == g_list@.len() && #[trigger] colors_ok(g_list@, side);
    let n = g_list.len();
    let mut matching: Vec<Option<usize>> = Vec::new();
    let mut t: usize = 0;
    while t < n
        invariant
            t <= n,
            matching@.len() == t,
            forall|x: int| 0 <= x < t ==> matching@[x] is None,
        decreases n - t,
    {
        matching.push(None);
        t = t + 1;
    }
    let mut v: usize = 0;
    while v < n
        invariant
            v <= n,
            n == g_list@.len(),
            graph_ok(g_list@),
            side.len() == n,
            colors_ok(g_list@, side),
            matching@.len() == n,
            edges_ok(g_list@, matching@),
            m_in_range(matching@, n as int),
            sym_ok(matching@),
            forall|x: int|
                0 <= x < v ==> ((#[trigger] matching@[x]) is Some || (forall|e: int|
                    0 <= e < g_list@[x]@.len() ==> (#[trigger] matching@[g_list@[x]@[e] as int])
                        is Some)),
        decreases n - v,
    {
        let ghost m_pre = matching@;
        let is_free = matching[v].is_none();
        if is_free {
            let mut used: Vec<bool> = Vec::new();
            let mut t2: usize = 0;
            while t2 < n
                invariant
                    t2 <= n,
                    used@.len() == t2,
                    forall|x: int| 0 <= x < t2 ==> !used@[x],
                decreases n - t2,
            {
                used.push(false);
                t2 = t2 + 1;
            }
            let found = dfs(v, g_list, &mut used, &mut matching, Ghost(side));
            proof {
                if found {
                    assert forall|a: int|
                        0 <= a < n && (#[trigger] matching@[a]) is Some implies matching@[matching@[a].unwrap() as int]
                        == Some(a as usize) by {
                        if matching@[matching@[a].unwrap() as int] != Some(a as usize) {
                            assert(m_pre[a] == Some(v));
                            assert(m_pre[v as int] == Some(a as usize));
                        }
                    }
                }
            }
        }
        v = v + 1;
    }
    let mut res: Vec<(usize, usize)> = Vec::new();
    let mut u: usize = 0;
    while u < n
        invariant
            u <= n,
            n == g_list@.len(),
            graph_ok(g_list@),
            side.len() == n,
            colors_ok(g_list@, side),
            matching@.len() == n,
            edges_ok(g_list@, matching@),
            m_in_range(matching@, n as int),
            sym_ok(matching@),
            forall|x: int|
                0 <= x < n ==> ((#[trigger] matching@[x]) is Some || (forall|e: int|
                    0 <= e < g_list@[x]@.len() ==> (#[trigger] matching@[g_list@[x]@[e] as int])
                        is Some)),
            forall|p: int|
                0 <= p < res@.len() ==> ((#[trigger] res@[p]).0 < res@[p].1 && res@[p].1 < n
                    && res@[p].0 < u && matching@[res@[p].0 as int] == Some(res@[p].1)
                    && matching@[res@[p].1 as int] == Some(res@[p].0) && (is_edge(
                    g_list@,
                    res@[p].0 as int,
                    res@[p].1 as int,
                ) || is_edge(g_list@, res@[p].1 as int, res@[p].0 as int))),
            forall|p: int, q: int|
                0 <= p < q < res@.len() ==> (#[trigger] res@[p]).0 < (#[trigger] res@[q]).0,
            forall|y: int|
                0 <= y < u && (#[trigger] matching@[y]) is Some && y < matching@[y].unwrap()
                    ==> exists|p: int|
                    0 <= p < res@.len() && (#[trigger] res@[p]).0 == y && res@[p].1
                        == matching@[y].unwrap(),
            forall|y: int|
                0 <= y < u && (#[trigger] matching@[y]) is Some ==> exists|p: int|
                    0 <= p < res@.len() && ((#[trigger] res@[p]).0 == y || res@[p].1 == y),
        decreases n - u,
    {
        let ghost res0 = res@;
        let v0 = matching[u];
        match v0 {
            Some(v1) => {
                proof {
                    assert(matching@[u as int] is Some);
                    lemma_pair_crosses(g_list@, side, matching@, u as int);
                    assert(v1 != u);
                    assert(matching@[v1 as int] == Some(u));
                }
                if u < v1 {
                    let back = matching[v1];
                    match back {
                        Some(b) => {
                            if b == u {
                                res.push((u, v1));
                            }
                        },
                        None => {},
                    }
                }
            },
            None => {},
        }
        proof {
            assert forall|y: int|
                0 <= y < u + 1 && (#[trigger] matching@[y]) is Some && y < matching@[y].unwrap()
                implies exists|p: int|
                0 <= p < res@.len() && (#[trigger] res@[p]).0 == y && res@[p].1
                    == matching@[y].unwrap() by {
                if y < u {
                    let p = choose|p: int|
                        0 <= p < res0.len() && (#[trigger] res0[p]).0 == y && res0[p].1
                            == matching@[y].unwrap();
                    assert(res@[p].0 == y && res@[p].1 == matching@[y].unwrap());
                } else {
                    assert(matching@[u as int].unwrap() < n);
                    assert(res@[res@.len() - 1].0 == y);
                }
            }
            assert forall|y: int|
                0 <= y < u + 1 && (#[trigger] matching@[y]) is Some implies exists|p: int|
                0 <= p < res@.len() && ((#[trigger] res@[p]).0 == y || res@[p].1 == y) by {
                if y < u {
                    let p = choose|p: int|
                        0 <= p < res0.len() && ((#[trigger] res0[p]).0 == y || res0[p].1 == y);
                    assert(res@[p].0 == y || res@[p].1 == y);
                } else {
                    let w1 = matching@[y].unwrap() as int;
                    lemma_pair_crosses(g_list@, side, matching@, y);
                    if y < w1 {
                        assert(res@[res@.len() - 1].0 == y);
                    } else {
                        // the mutual pair was pushed when its lower
                        // endpoint was scanned
                        assert(matching@[w1] == Some(u));
                        assert(w1 < u && w1 < matching@[w1].unwrap());
                        let p = choose|p: int|
                            0 <= p < res0.len() && (#[trigger] res0[p]).0 == w1 && res0[p].1
                                == matching@[w1].unwrap();
                        assert(res@[p].1 == y);
                    }
                }
            }
        }
        u = u + 1;
    }
    proof {
        assert forall|p: int, q: int| 0 <= p < q < res@.len() implies ((#[trigger] res@[p]).0
            != (#[trigger] res@[q]).0 && res@[p].0 != res@[q].1 && res@[p].1 != res@[q].0
            && res@[p].1 != res@[q].1) by {
            assert(res@[p].0 < res@[q].0);
            if res@[p].0 == res@[q].1 {
                assert(matching@[res@[p].0 as int] == Some(res@[p].1));
                assert(matching@[res@[q].1 as int] == Some(res@[q].0));
            }
            if res@[p].1 == res@[q].0 {
                assert(matching@[res@[p].1 as int] == Some(res@[p].0));
                assert(matching@[res@[q].0 as int] == Some(res@[q].1));
            }
            if res@[p].1 == res@[q].1 {
                assert(matching@[res@[p].1 as int] == Some(res@[p].0));
                assert(matching@[res@[q].1 as int] == Some(res@[q].0));
            }
        }
        assert forall|a: int, b: int|
            #[trigger] is_edge(g_list@, a, b) && 0 <= b < g_list@.len() implies exists|p: int|
            0 <= p < res@.len() && ((#[trigger] res@[p]).0 == a || res@[p].1 == a || res@[p].0
                == b || res@[p].1 == b) by {
            if matching@[a] is Some {
                let p = choose|p: int|
                    0 <= p < res@.len() && ((#[trigger] res@[p]).0 == a || res@[p].1 == a);
                assert(0 <= p < res@.len() && (res@[p].0 == a || res@[p].1 == a));
            } else {
                let e = choose|e: int| 0 <= e < g_list@[a]@.len() && #[trigger] g_list@[a]@[e]
                    == b;
                assert(matching@[b] is Some);
                let p = choose|p: int|
                    0 <= p < res@.len() && ((#[trigger] res@[p]).0 == b || res@[p].1 == b);
                assert(0 <= p < res@.len() && (res@[p].0 == b || res@[p].1 == b));
            }
        }
    }
    res
}

/// An undirected graph under construction, and the matching search
/// over it.
pub struct BipartiteMatching {
    g: Vec<Vec<usize>>,
}

impl BipartiteMatching {
    /// The adjacency lists.
    pub closed spec fn adj(&self) -> Seq<Vec<usize>> {
        self.g@
    }

    /// A graph on `n` vertices with no edges yet.
    pub fn new(n: usize) -> (b: BipartiteMatching)
        ensures
            b.adj().len() == n,
            graph_ok(b.adj()),
    {
        let mut g: Vec<Vec<usize>> = Vec::new();
        let mut t: usize = 0;
        while t < n
            invariant
                t <= n,
                g@.len() == t,
                forall|x: int| 0 <= x < t ==> #[trigger] g@[x]@.len() == 0,
            decreases n - t,
        {
            g.push(Vec::new());
            t = t + 1;
        }
        BipartiteMatching { g }
    }

    /// Records the undirected edge `u - v` by adding each endpoint
    /// to the other's adjacency list.
    pub fn connect(&mut self, u: usize, v: usize)
        requires
            u < old(self).adj().len(),
            v < old(self).adj().len(),
            u != v,
        ensures
            final(self).adj().len() == old(self).adj().len(),
            final(self).adj()[u as int]@ == old(self).adj()[u as int]@.push(v),
            final(self).adj()[v as int]@ == old(self).adj()[v as int]@.push(u),
            forall|x: int|
                0 <= x < old(self).adj().len() && x != u && x != v ==> final(self).adj()[x]
                    == old(self).adj()[x],
            graph_ok(old(self).adj()) ==> graph_ok(final(self).adj()),
    {
        self.g[u].push(v);
        self.g[v].push(u);
        proof {
            assert forall|a: int, e: int|
                0 <= a < old(self).adj().len() && graph_ok(old(self).adj()) && 0 <= e
                    < self.g@[a]@.len() implies #[trigger] self.g@[a]@[e] < self.g@.len() by {
                if a == u || a == v {
                    if e < old(self).g@[a]@.len() {
                        assert(old(self).g@[a]@[e] < old(self).g@.len());
                    }
                } else {
                    assert(old(self).g@[a]@[e] < old(self).g@.len());
                }
            }
        }
    }

    /// Runs the matching search over the recorded edges; the graph
    /// must be two-colorable.
    pub fn run(&self) -> (res: Vec<(usize, usize)>)
        requires
            graph_ok(self.adj()),
            two_colorable(self.adj()),
        ensures
            forall|p: int|
                0 <= p < res@.len() ==> ((#[trigger] res@[p]).0 < res@[p].1 && res@[p].1
                    < self.adj().len() && (is_edge(self.adj(), res@[p].0 as int, res@[p].1 as int)
                    || is_edge(self.adj(), res@[p].1 as int, res@[p].0 as int))),
            forall|p: int, q: int|
                0 <= p < q < res@.len() ==> ((#[trigger] res@[p]).0 != (#[trigger] res@[q]).0
                    && res@[p].0 != res@[q].1 && res@[p].1 != res@[q].0 && res@[p].1
                    != res@[q].1),
            forall|a: int, b: int|
                #[trigger] is_edge(self.adj(), a, b) && 0 <= b < self.adj().len() ==> exists|
                    p: int,
                |
                    0 <= p < res@.len() && ((#[trigger] res@[p]).0 == a || res@[p].1 == a
                    || res@[p].0 == b || res@[p].1 == b),
    {
        bipartite_matching(&self.g)
    }
}

} // verus!
