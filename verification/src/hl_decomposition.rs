//! Heavy-light decomposition of a rooted tree: subtree sizes, depths
//! and parents, a heavy child per vertex, and a renumbering that
//! lays every heavy path out contiguously.

use vstd::prelude::*;

verus! {

/// The number of `false` entries.
spec fn count_unvisited(u: Seq<bool>) -> int
    decreases u.len(),
{
    if u.len() == 0 {
        0
    } else {
        count_unvisited(u.drop_last()) + (if u.last() {
            0int
        } else {
            1int
        })
    }
}

proof fn lemma_count_unvisited_bounds(u: Seq<bool>)
    ensures
        0 <= count_unvisited(u) <= u.len(),
    decreases u.len(),
{
    if u.len() > 0 {
        lemma_count_unvisited_bounds(u.drop_last());
    }
}

proof fn lemma_count_unvisited_update(u: Seq<bool>, v: int)
    requires
        0 <= v < u.len(),
        !u[v],
    ensures
        count_unvisited(u.update(v, true)) == count_unvisited(u) - 1,
    decreases u.len(),
{
    let w = u.update(v, true);
    if v == u.len() - 1 {
        assert(w.drop_last() =~= u.drop_last());
        assert(w.last());
    } else {
        assert(w.drop_last() =~= u.drop_last().update(v, true));
        lemma_count_unvisited_update(u.drop_last(), v);
        assert(w.last() == u.last());
    }
}

/// The heavy choice recorded in `hnx[u]`, when there is one, is an
/// adjacency entry of `u`, and no entry other than `u`'s parent
/// roots a larger subtree.
pub open spec fn heavy_seq_ok(
    g: Seq<Vec<usize>>,
    par: Seq<Option<usize>>,
    sub: Seq<usize>,
    hnx: Seq<Option<usize>>,
    u: int,
) -> bool {
    match hnx[u] {
        None => forall|e: int|
            0 <= e < g[u]@.len() ==> par[u] == Some(#[trigger] g[u]@[e]) || sub[g[u]@[e] as int]
                == 0,
        Some(v) => {
            &&& v < sub.len()
            &&& exists|e: int|
                0 <= e < g[u]@.len() && #[trigger] g[u]@[e] == v && (forall|e2: int|
                    0 <= e2 < e ==> par[u] == Some(#[trigger] g[u]@[e2]) || sub[g[u]@[e2] as int]
                        < sub[v as int])
            &&& forall|e: int|
                0 <= e < g[u]@.len() ==> (par[u] == Some(#[trigger] g[u]@[e]) || sub[g[u]@[e] as int]
                    <= sub[v as int])
        },
    }
}

/// `x` can be reached from `root` along recorded adjacency entries
/// in at most `fuel` steps.
pub open spec fn reaches(g: Seq<Vec<usize>>, root: int, x: int, fuel: nat) -> bool
    decreases fuel,
{
    x == root || (fuel > 0 && exists|p: int, e: int|
        0 <= p < g.len() && 0 <= e < g[p]@.len() && #[trigger] g[p]@[e] == x && reaches(
            g,
            root,
            p,
            (fuel - 1) as nat,
        ))
}

/// `x` can be reached from `root` along recorded adjacency entries.
pub open spec fn reachable(g: Seq<Vec<usize>>, root: int, x: int) -> bool {
    exists|fuel: nat| #[trigger] reaches(g, root, x, fuel)
}

/// What the traversal records: the root is seen, every other seen
/// vertex has a parent, parents are seen and in range, and the seen
/// set is closed under recorded edges.
pub open spec fn traversal_ok(
    g: Seq<Vec<usize>>,
    par: Seq<Option<usize>>,
    vis: Seq<bool>,
    n: int,
    root: int,
) -> bool {
    &&& 0 <= root < n
    &&& vis[root]
    &&& forall|x: int| 0 <= x < n && vis[x] && x != root ==> (#[trigger] par[x]) is Some
    &&& forall|x: int|
        0 <= x < n && (#[trigger] par[x]) is Some ==> vis[x] && par[x].unwrap() < n
            && vis[par[x].unwrap() as int]
    &&& forall|x: int, e: int|
        0 <= x < n && vis[x] && 0 <= e < g[x]@.len() ==> vis[#[trigger] g[x]@[e] as int]
}

/// The number of entries still holding the sentinel `n`.
spec fn count_unassigned(rtv: Seq<usize>, n: usize) -> int
    decreases rtv.len(),
{
    if rtv.len() == 0 {
        0
    } else {
        count_unassigned(rtv.drop_last(), n) + (if rtv.last() == n {
            1int
        } else {
            0int
        })
    }
}

proof fn lemma_count_unassigned_bounds(rtv: Seq<usize>, n: usize)
    ensures
        0 <= count_unassigned(rtv, n) <= rtv.len(),
    decreases rtv.len(),
{
    if rtv.len() > 0 {
        lemma_count_unassigned_bounds(rtv.drop_last(), n);
    }
}

proof fn lemma_count_unassigned_update(rtv: Seq<usize>, n: usize, v: int, id: usize)
    requires
        0 <= v < rtv.len(),
        rtv[v] == n,
        id != n,
    ensures
        count_unassigned(rtv.update(v, id), n) == count_unassigned(rtv, n) - 1,
    decreases rtv.len(),
{
    let w = rtv.update(v, id);
    if v == rtv.len() - 1 {
        assert(w.drop_last() =~= rtv.drop_last());
    } else {
        assert(w.drop_last() =~= rtv.drop_last().update(v, id));
        lemma_count_unassigned_update(rtv.drop_last(), n, v, id);
        assert(w.last() == rtv.last());
    }
}

proof fn lemma_count_unassigned_full(rtv: Seq<usize>, n: usize)
    requires
        forall|x: int| 0 <= x < rtv.len() ==> rtv[x] == n,
    ensures
        count_unassigned(rtv, n) == rtv.len(),
    decreases rtv.len(),
{
    if rtv.len() > 0 {
        lemma_count_unassigned_full(rtv.drop_last(), n);
    }
}

proof fn lemma_count_unassigned_zero(rtv: Seq<usize>, n: usize)
    requires
        count_unassigned(rtv, n) == 0,
    ensures
        forall|x: int| 0 <= x < rtv.len() ==> rtv[x] != n,
    decreases rtv.len(),
{
    if rtv.len() > 0 {
        lemma_count_unassigned_bounds(rtv.drop_last(), n);
        lemma_count_unassigned_zero(rtv.drop_last(), n);
        assert forall|x: int| 0 <= x < rtv.len() implies rtv[x] != n by {
            if x < rtv.len() - 1 {
                assert(rtv.drop_last()[x] != n);
            }
        }
    }
}

/// Seen vertices reach back: anything reachable from the root is
/// seen, because the seen set contains the root and is edge-closed.
proof fn lemma_reaches_visited(
    g: Seq<Vec<usize>>,
    par: Seq<Option<usize>>,
    vis: Seq<bool>,
    n: int,
    root: int,
    x: int,
    fuel: nat,
)
    requires
        g.len() == n,
        vis.len() == n,
        traversal_ok(g, par, vis, n, root),
        0 <= x < n,
        reaches(g, root, x, fuel),
    ensures
        vis[x],
    decreases fuel,
{
    if x != root {
        let (p, e) = choose|p: int, e: int|
            0 <= p < g.len() && 0 <= e < g[p]@.len() && #[trigger] g[p]@[e] == x && reaches(
                g,
                root,
                p,
                (fuel - 1) as nat,
            );
        lemma_reaches_visited(g, par, vis, n, root, p, (fuel - 1) as nat);
    }
}

/// The parent chain of `x` passes through `u` within `fuel` steps.
pub open spec fn chain_hits(par: Seq<Option<usize>>, x: int, u: int, fuel: nat) -> bool
    decreases fuel,
{
    x == u || (fuel > 0 && match par[x] {
        Some(p) => chain_hits(par, p as int, u, (fuel - 1) as nat),
        None => false,
    })
}

/// Which vertices carry a number: entry `x` is true when
/// `rtv[x] != n`.
pub open spec fn assigned_set(rtv: Seq<usize>, n: usize) -> Seq<bool> {
    Seq::new(rtv.len(), |x: int| rtv[x] != n)
}

/// How many members of `mem` below `i` have a parent chain through
/// `u`, with chains cut off at `fuel` steps.
pub open spec fn subtree_size(
    par: Seq<Option<usize>>,
    mem: Seq<bool>,
    u: int,
    i: int,
    fuel: nat,
) -> int
    decreases i,
{
    if i <= 0 {
        0
    } else {
        subtree_size(par, mem, u, i - 1, fuel) + (if mem[i - 1] && chain_hits(par, i - 1, u, fuel) {
            1int
        } else {
            0int
        })
    }
}

proof fn lemma_subtree_size_bound(par: Seq<Option<usize>>, mem: Seq<bool>, u: int, i: int, fuel: nat)
    requires
        i >= 0,
    ensures
        0 <= subtree_size(par, mem, u, i, fuel) <= i,
    decreases i,
{
    if i > 0 {
        lemma_subtree_size_bound(par, mem, u, i - 1, fuel);
    }
}

/// More fuel never hides a chain.
proof fn lemma_chain_fuel_mono(par: Seq<Option<usize>>, x: int, u: int, f1: nat, f2: nat)
    requires
        f1 <= f2,
        chain_hits(par, x, u, f1),
    ensures
        chain_hits(par, x, u, f2),
    decreases f1,
{
    if x != u {
        let p = par[x].unwrap() as int;
        lemma_chain_fuel_mono(par, p, u, (f1 - 1) as nat, (f2 - 1) as nat);
    }
}

/// A chain that exists at all fits in the depth of its start.
proof fn lemma_chain_fuel_suffices(
    g: Seq<Vec<usize>>,
    par: Seq<Option<usize>>,
    depth: Seq<usize>,
    n: usize,
    x: int,
    u: int,
    fuel: nat,
)
    requires
        g.len() == n,
        par.len() == n,
        depth.len() == n,
        forall|w: int| 0 <= w < n ==> parent_ok(g, par, depth, w),
        0 <= x < n,
        chain_hits(par, x, u, fuel),
    ensures
        chain_hits(par, x, u, (depth[x] + 1) as nat),
    decreases fuel,
{
    if x != u {
        let p = par[x].unwrap() as int;
        assert(parent_ok(g, par, depth, x));
        lemma_chain_fuel_suffices(g, par, depth, n, p, u, (fuel - 1) as nat);
        lemma_chain_fuel_mono(par, p, u, (depth[p] + 1) as nat, depth[x] as nat);
    }
}

/// Chains climb: a chain target sits no deeper than its start.
proof fn lemma_chain_depth(
    g: Seq<Vec<usize>>,
    par: Seq<Option<usize>>,
    depth: Seq<usize>,
    n: usize,
    x: int,
    u: int,
    fuel: nat,
)
    requires
        g.len() == n,
        par.len() == n,
        depth.len() == n,
        forall|w: int| 0 <= w < n ==> parent_ok(g, par, depth, w),
        0 <= x < n,
        chain_hits(par, x, u, fuel),
    ensures
        0 <= u < n ==> depth[u] <= depth[x],
        x != u ==> 0 <= u < n && depth[u] < depth[x],
    decreases fuel,
{
    if x != u {
        let p = par[x].unwrap() as int;
        assert(parent_ok(g, par, depth, x));
        lemma_chain_depth(g, par, depth, n, p, u, (fuel - 1) as nat);
        if u == p {
        }
    }
}

/// A chain extends by one step through the parent of its target.
proof fn lemma_chain_extend(par: Seq<Option<usize>>, x: int, c: int, p: usize, fuel: nat)
    requires
        chain_hits(par, x, c, fuel),
        par[c] == Some(p),
    ensures
        chain_hits(par, x, p as int, (fuel + 1) as nat),
    decreases fuel,
{
    if x == c {
        assert(chain_hits(par, p as int, p as int, fuel));
    } else {
        let q = par[x].unwrap() as int;
        lemma_chain_extend(par, q, c, p, (fuel - 1) as nat);
        assert(chain_hits(par, q, p as int, fuel));
    }
}

/// Seen vertices are numbered: walking the parent chain toward the
/// root, a seen vertex whose parent is numbered is numbered too,
/// because the numbering is closed under recorded edges except back
/// toward parents.
proof fn lemma_visited_assigned(
    g: Seq<Vec<usize>>,
    par: Seq<Option<usize>>,
    depth: Seq<usize>,
    vis: Seq<bool>,
    rtv: Seq<usize>,
    n: usize,
    root: usize,
    x: int,
)
    requires
        g.len() == n,
        par.len() == n,
        depth.len() == n,
        vis.len() == n,
        rtv.len() == n,
        root < n,
        traversal_ok(g, par, vis, n as int, root as int),
        forall|u: int| 0 <= u < n ==> parent_ok(g, par, depth, u),
        rtv[root as int] != n,
        forall|u2: int, e2: int|
            0 <= u2 < n && rtv[u2] != n && 0 <= e2 < g[u2]@.len() ==> (rtv[#[trigger] g[u2]@[e2]
                as int] != n || par[u2] == Some(g[u2]@[e2])),
        0 <= x < n,
        vis[x],
    ensures
        rtv[x] != n,
    decreases depth[x],
{
    if x != root as int {
        let p = par[x].unwrap() as int;
        assert(parent_ok(g, par, depth, x));
        lemma_visited_assigned(g, par, depth, vis, rtv, n, root, p);
        let e = choose|e: int| 0 <= e < g[p]@.len() && #[trigger] g[p]@[e] == x;
        if par[p] == Some(g[p]@[e]) {
            assert(parent_ok(g, par, depth, p));
            assert(false);
        }
    }
}

/// Every assigned vertex's heavy-path head is itself assigned and
/// is its own head.
pub open spec fn heads_ok(rtv: Seq<usize>, hh: Seq<usize>, n: int) -> bool {
    forall|x: int|
        0 <= x < n && #[trigger] rtv[x] != n ==> hh[x] < n && rtv[hh[x] as int] != n
            && hh[hh[x] as int] == hh[x]
}

/// Assigned heavy links are renumbered consecutively: when an
/// assigned vertex's heavy child is assigned too, the child either
/// carries the next id and the same head, or was assigned earlier.
pub open spec fn chain_ok(
    rtv: Seq<usize>,
    hh: Seq<usize>,
    hnx: Seq<Option<usize>>,
    n: int,
) -> bool {
    forall|x: int|
        0 <= x < n && #[trigger] rtv[x] != n && hnx[x] is Some && hnx[x].unwrap() != x
            && rtv[hnx[x].unwrap() as int] != n ==> ((rtv[hnx[x].unwrap() as int] == rtv[x] + 1
            && hh[hnx[x].unwrap() as int] == hh[x]) || rtv[hnx[x].unwrap() as int] < rtv[x])
}

/// Outside a walk, a dangling heavy link out of an assigned vertex
/// can only mean the numbering ran out of ids.
spec fn pending_ok(rtv: Seq<usize>, hnx: Seq<Option<usize>>, n: int, cvid: int) -> bool {
    forall|x: int|
        0 <= x < n && #[trigger] rtv[x] != n && hnx[x] is Some && hnx[x].unwrap() != x
            && rtv[hnx[x].unwrap() as int] == n ==> cvid == n
}

/// During a walk, the only other dangling heavy link is the one the
/// walk is about to complete.
spec fn pending_walk_ok(
    rtv: Seq<usize>,
    hh: Seq<usize>,
    hnx: Seq<Option<usize>>,
    n: int,
    cvid: int,
    walking: bool,
    cur: int,
    h: int,
) -> bool {
    forall|x: int|
        0 <= x < n && #[trigger] rtv[x] != n && hnx[x] is Some && hnx[x].unwrap() != x
            && rtv[hnx[x].unwrap() as int] == n ==> (cvid == n || (walking && hnx[x].unwrap()
            == cur && rtv[x] == cvid - 1 && hh[x] == h))
}

/// The recorded parent of `u`, when there is one, owns an adjacency
/// entry naming `u` and sits one level shallower.
pub open spec fn parent_ok(
    g: Seq<Vec<usize>>,
    par: Seq<Option<usize>>,
    depth: Seq<usize>,
    u: int,
) -> bool {
    match par[u] {
        None => true,
        Some(p) => {
            &&& p < g.len()
            &&& exists|e: int| 0 <= e < g[p as int]@.len() && #[trigger] g[p as int]@[e] == u
            &&& depth[u] == depth[p as int] + 1
        },
    }
}

/// A heavy-light decomposition under construction.  After `build`,
/// `real_to_virt` renumbers the vertices reachable from the root so
/// that each heavy path is contiguous, and `virt_to_real` inverts
/// that renumbering; unreached vertices keep the sentinel `n`.
pub struct HLDecomposition {
    /// The number of vertices.
    pub n: usize,
    /// Adjacency lists; `connect` fills them.
    pub g: Vec<Vec<usize>>,
    /// Subtree sizes of reached vertices.
    pub subcnt: Vec<usize>,
    /// Depths of reached vertices, zero at the root.
    pub depth: Vec<usize>,
    /// Parents of reached vertices; `None` at the root.
    pub par: Vec<Option<usize>>,
    /// The child continuing the heavy path, if any.
    pub heavy_next: Vec<Option<usize>>,
    /// The first vertex of each reached vertex's heavy path.
    pub heavy_head: Vec<usize>,
    /// Vertex to renumbered id; `n` while unassigned.
    pub real_to_virt: Vec<usize>,
    /// Renumbered id to vertex; `n` while unassigned.
    pub virt_to_real: Vec<usize>,
}

impl HLDecomposition {
    /// All tables sized to `n`, and every recorded edge in range.
    pub open spec fn wf(&self) -> bool {
        &&& self.g@.len() == self.n
        &&& self.subcnt@.len() == self.n
        &&& self.depth@.len() == self.n
        &&& self.par@.len() == self.n
        &&& self.heavy_next@.len() == self.n
        &&& self.heavy_head@.len() == self.n
        &&& self.real_to_virt@.len() == self.n
        &&& self.virt_to_real@.len() == self.n
        &&& forall|u: int, e: int|
            0 <= u < self.n && 0 <= e < self.g@[u]@.len() ==> #[trigger] self.g@[u]@[e] < self.n
        &&& forall|x: int|
            0 <= x < self.n && (#[trigger] self.par@[x]) is Some ==> self.par@[x].unwrap() < self.n
        &&& forall|x: int|
            0 <= x < self.n && (#[trigger] self.heavy_next@[x]) is Some
                ==> self.heavy_next@[x].unwrap() < self.n
    }

    /// The recorded heavy child of `u`, when there is one, is one of
    /// `u`'s adjacency entries, and no entry other than `u`'s parent
    /// roots a larger subtree.
    pub open spec fn heavy_choice_ok(&self, u: int) -> bool {
        heavy_seq_ok(self.g@, self.par@, self.subcnt@, self.heavy_next@, u)
    }

    /// An edgeless decomposition over `n` vertices.
    pub fn new(n: usize) -> (h: HLDecomposition)
        ensures
            h.wf(),
            h.n == n,
            forall|u: int| 0 <= u < n ==> #[trigger] h.g@[u]@.len() == 0,
    {
        let mut g: Vec<Vec<usize>> = Vec::new();
        let mut subcnt: Vec<usize> = Vec::new();
        let mut depth: Vec<usize> = Vec::new();
        let mut par: Vec<Option<usize>> = Vec::new();
        let mut heavy_next: Vec<Option<usize>> = Vec::new();
        let mut heavy_head: Vec<usize> = Vec::new();
        let mut real_to_virt: Vec<usize> = Vec::new();
        let mut virt_to_real: Vec<usize> = Vec::new();
        let mut i: usize = 0;
        while i < n
            invariant
                i <= n,
                g@.len() == i,
                subcnt@.len() == i,
                depth@.len() == i,
                par@.len() == i,
                heavy_next@.len() == i,
                heavy_head@.len() == i,
                real_to_virt@.len() == i,
                virt_to_real@.len() == i,
                forall|u: int| 0 <= u < i ==> #[trigger] g@[u]@.len() == 0,
                forall|x: int| 0 <= x < i ==> (#[trigger] par@[x]) is None,
                forall|x: int| 0 <= x < i ==> (#[trigger] heavy_next@[x]) is None,
            decreases n - i,
        {
            g.push(Vec::new());
            subcnt.push(0);
            depth.push(0);
            par.push(None);
            heavy_next.push(None);
            heavy_head.push(n);
            real_to_virt.push(n);
            virt_to_real.push(n);
            i = i + 1;
        }
        HLDecomposition { n, g, subcnt, depth, par, heavy_next, heavy_head, real_to_virt, virt_to_real }
    }

    /// Records the directed edge `u -> v`.
    pub fn connect(&mut self, u: usize, v: usize)
        requires
            old(self).wf(),
            u < old(self).n,
            v < old(self).n,
        ensures
            final(self).wf(),
            final(self).n == old(self).n,
            final(self).g@[u as int]@ == old(self).g@[u as int]@.push(v),
            forall|x: int|
                0 <= x < old(self).n && x != u ==> final(self).g@[x] == old(self).g@[x],
    {
        self.g[u].push(v);
    }

    /// Computes parents, depths and subtree sizes of everything
    /// reachable from `root`, the heavy child of every vertex, and
    /// the heavy-path renumbering.  After the call: every vertex
    /// reachable from `root` carries an id, and `virt_to_real`
    /// inverts `real_to_virt` on each; parents sit one level
    /// shallower along recorded adjacency entries; `subcnt[u]`
    /// counts the numbered vertices whose parent chain passes
    /// through `u`; each heavy child is the first child of maximal
    /// subtree count; and assigned heavy links carry consecutive
    /// ids with a shared head.
    #[verifier::rlimit(100)]
    pub fn build(&mut self, root: usize)
        requires
            old(self).wf(),
            root < old(self).n,
        ensures
            final(self).wf(),
            final(self).n == old(self).n,
            final(self).g@ == old(self).g@,
            forall|x: int|
                0 <= x < final(self).n && #[trigger] final(self).real_to_virt@[x] != final(self).n
                    ==> final(self).real_to_virt@[x] < final(self).n
                    && final(self).virt_to_real@[final(self).real_to_virt@[x] as int] == x,
            forall|u: int| 0 <= u < final(self).n ==> final(self).heavy_choice_ok(u),
            final(self).par@[root as int] is None,
            final(self).depth@[root as int] == 0,
            forall|u: int|
                0 <= u < final(self).n ==> parent_ok(
                    final(self).g@,
                    final(self).par@,
                    final(self).depth@,
                    u,
                ),
            forall|x: int|
                0 <= x < final(self).n && reachable(final(self).g@, root as int, x)
                    ==> final(self).real_to_virt@[x] != final(self).n,
            forall|u: int|
                0 <= u < final(self).n ==> #[trigger] final(self).subcnt@[u] == subtree_size(
                    final(self).par@,
                    assigned_set(final(self).real_to_virt@, final(self).n),
                    u,
                    final(self).n as int,
                    final(self).n as nat,
                ),
            heads_ok(final(self).real_to_virt@, final(self).heavy_head@, final(self).n as int),
            chain_ok(
                final(self).real_to_virt@,
                final(self).heavy_head@,
                final(self).heavy_next@,
                final(self).n as int,
            ),
    {
        let n = self.n;
        // reachability pass: parents and depths of everything the
        // root can reach
        let mut visited: Vec<bool> = Vec::new();
        let mut t: usize = 0;
        while t < n
            invariant
                t <= n,
                self.wf(),
                self.n == n,
                self.g@ == old(self).g@,
                visited@.len() == t,
                forall|x: int| 0 <= x < t ==> !visited@[x],
                forall|x: int| 0 <= x < t ==> (#[trigger] self.par@[x]) is None,
                forall|x: int| 0 <= x < t ==> #[trigger] self.depth@[x] == 0,
            decreases n - t,
        {
            visited.push(false);
            self.par.set(t, None);
            self.depth.set(t, 0);
            t = t + 1;
        }
        let mut stack: Vec<usize> = Vec::new();
        proof {
            lemma_count_unvisited_bounds(visited@);
            lemma_count_unvisited_update(visited@, root as int);
        }
        visited.set(root, true);
        self.depth.set(root, 0);
        self.par.set(root, None);
        stack.push(root);
        proof {
            lemma_count_unvisited_bounds(visited@);
            assert(stack@[0] == root);
        }
        while stack.len() > 0
            invariant
                self.wf(),
                self.n == n,
                root < n,
                self.g@ == old(self).g@,
                visited@.len() == n,
                forall|k: int| 0 <= k < stack@.len() ==> #[trigger] stack@[k] < n,
                forall|k: int| 0 <= k < stack@.len() ==> visited@[#[trigger] stack@[k] as int],
                forall|x: int|
                    0 <= x < n && visited@[x] ==> (#[trigger] self.depth@[x]) + count_unvisited(
                        visited@,
                    ) < n,
                0 <= count_unvisited(visited@) <= n,
                visited@[root as int],
                forall|x: int|
                    0 <= x < n && visited@[x] && x != root ==> (#[trigger] self.par@[x]) is Some,
                forall|x: int|
                    0 <= x < n && visited@[x] ==> ((exists|k: int|
                        0 <= k < stack@.len() && #[trigger] stack@[k] == x) || (forall|e: int|
                        0 <= e < self.g@[x]@.len() ==> visited@[#[trigger] self.g@[x]@[e] as int])),
                self.par@[root as int] is None,
                self.depth@[root as int] == 0,
                forall|x: int|
                    0 <= x < n && (#[trigger] self.par@[x]) is Some ==> visited@[x]
                        && visited@[self.par@[x].unwrap() as int],
                forall|x: int| 0 <= x < n ==> parent_ok(self.g@, self.par@, self.depth@, x),
            decreases count_unvisited(visited@), stack@.len(),
        {
            let ghost stack_pre = stack@;
            let u = stack.pop().unwrap();
            proof {
                assert forall|x: int|
                    0 <= x < n && visited@[x] && x != u as int implies ((exists|k: int|
                    0 <= k < stack@.len() && #[trigger] stack@[k] == x) || (forall|e: int|
                    0 <= e < self.g@[x]@.len() ==> visited@[#[trigger] self.g@[x]@[e]
                        as int])) by {
                    if exists|k: int| 0 <= k < stack_pre.len() && #[trigger] stack_pre[k] == x {
                        let k = choose|k: int|
                            0 <= k < stack_pre.len() && #[trigger] stack_pre[k] == x;
                        if k < stack_pre.len() - 1 {
                            assert(stack@[k] == x);
                        } else {
                            assert(x == u as int);
                        }
                    }
                }
            }
            let ghost unv0 = count_unvisited(visited@);
            let ghost slen0 = stack@.len() as int;
            let deg = self.g[u].len();
            let du = self.depth[u];
            let mut e: usize = 0;
            while e < deg
                invariant
                    self.wf(),
                    self.n == n,
                    root < n,
                    self.g@ == old(self).g@,
                    u < n,
                    deg == self.g@[u as int]@.len(),
                    visited@.len() == n,
                    forall|k: int| 0 <= k < stack@.len() ==> #[trigger] stack@[k] < n,
                    forall|k: int| 0 <= k < stack@.len() ==> visited@[#[trigger] stack@[k] as int],
                        du + count_unvisited(visited@) < n,
                    du == self.depth@[u as int],
                    visited@[root as int],
                    visited@[u as int],
                    forall|x: int|
                        0 <= x < n && visited@[x] && x != root ==> (#[trigger] self.par@[x])
                            is Some,
                    forall|x: int|
                        0 <= x < n && visited@[x] && x != u ==> ((exists|k: int|
                            0 <= k < stack@.len() && #[trigger] stack@[k] == x) || (forall|e: int|
                            0 <= e < self.g@[x]@.len() ==> visited@[#[trigger] self.g@[x]@[e]
                                as int])),
                    forall|e2: int|
                        0 <= e2 < e ==> visited@[#[trigger] self.g@[u as int]@[e2] as int],
                    forall|x: int|
                        0 <= x < n && visited@[x] ==> (#[trigger] self.depth@[x])
                            + count_unvisited(visited@) < n,
                    self.par@[root as int] is None,
                    self.depth@[root as int] == 0,
                    forall|x: int|
                        0 <= x < n && (#[trigger] self.par@[x]) is Some ==> visited@[x]
                            && visited@[self.par@[x].unwrap() as int],
                    forall|x: int| 0 <= x < n ==> parent_ok(self.g@, self.par@, self.depth@, x),
                    stack@.len() + count_unvisited(visited@) <= slen0 + unv0,
                    count_unvisited(visited@) <= unv0,
                    0 <= count_unvisited(visited@) <= n,
                decreases deg - e,
            {
                let v = self.g[u][e];
                if !visited[v] {
                    proof {
                        lemma_count_unvisited_update(visited@, v as int);
                        assert(self.par@[v as int] is None);
                        assert(v != root);
                        assert(v != u);
                    }
                    let ghost vis_b = visited@;
                    let ghost par_b = self.par@;
                    let ghost depth_b = self.depth@;
                    let ghost stack_bw = stack@;
                    self.depth.set(v, du + 1);
                    self.par.set(v, Some(u));
                    visited.set(v, true);
                    stack.push(v);
                    proof {
                        assert forall|x: int|
                            0 <= x < n && visited@[x] && x != u as int implies ((exists|k: int|
                            0 <= k < stack@.len() && #[trigger] stack@[k] == x) || (forall|e2: int|
                            0 <= e2 < self.g@[x]@.len() ==> visited@[#[trigger] self.g@[x]@[e2]
                                as int])) by {
                            if x == v as int {
                                assert(stack@[stack@.len() - 1] == x);
                            } else if exists|k: int|
                                0 <= k < stack_bw.len() && #[trigger] stack_bw[k] == x {
                                let k = choose|k: int|
                                    0 <= k < stack_bw.len() && #[trigger] stack_bw[k] == x;
                                assert(stack@[k] == x);
                            }
                        }
                        lemma_count_unvisited_bounds(visited@);
                        assert forall|x: int|
                            0 <= x < n implies parent_ok(
                            self.g@,
                            self.par@,
                            self.depth@,
                            x,
                        ) by {
                            if x == v as int {
                                assert(self.g@[u as int]@[e as int] == v);
                                assert(self.depth@[v as int] == self.depth@[u as int] + 1);
                            } else {
                                assert(self.par@[x] == par_b[x]);
                                assert(parent_ok(self.g@, par_b, depth_b, x));
                                if par_b[x] is Some {
                                    let p = par_b[x].unwrap() as int;
                                    assert(vis_b[p]);
                                    assert(p != v as int);
                                    assert(self.depth@[p] == depth_b[p]);
                                    assert(self.depth@[x] == depth_b[x]);
                                }
                            }
                        }
                    }
                }
                e = e + 1;
            }
            proof {
                lemma_count_unvisited_bounds(visited@);
            }
        }
        let ghost g_p1 = self.g@;
        let ghost par_p1 = self.par@;
        let ghost depth_p1 = self.depth@;
        let ghost vis_p1 = visited@;
        proof {
            assert(traversal_ok(g_p1, par_p1, vis_p1, n as int, root as int));
            assert(forall|x: int|
                0 <= x < n && vis_p1[x] ==> (#[trigger] depth_p1[x]) < n);
        }
        // subtree sizes: every reached vertex adds one to itself and
        // each of its ancestors, walking parent links upward
        let mut z: usize = 0;
        while z < n
            invariant
                z <= n,
                self.wf(),
                self.n == n,
                self.g@ == old(self).g@,
                self.par@ == par_p1,
                self.depth@ == depth_p1,
                par_p1[root as int] is None,
                depth_p1[root as int] == 0,
                forall|x: int| 0 <= x < n ==> parent_ok(g_p1, par_p1, depth_p1, x),
                forall|x: int| 0 <= x < z ==> #[trigger] self.subcnt@[x] == 0,
            decreases n - z,
        {
            self.subcnt.set(z, 0);
            z = z + 1;
        }
        let ghost nfuel = n as nat;
        let mut xv: usize = 0;
        while xv < n
            invariant
                xv <= n,
                self.wf(),
                self.n == n,
                self.g@ == old(self).g@,
                self.par@ == par_p1,
                self.depth@ == depth_p1,
                par_p1[root as int] is None,
                depth_p1[root as int] == 0,
                forall|x: int| 0 <= x < n ==> parent_ok(g_p1, par_p1, depth_p1, x),
                g_p1 == self.g@,
                nfuel == n as nat,
                visited@.len() == n,
                vis_p1 == visited@,
                forall|x: int| 0 <= x < n && vis_p1[x] ==> (#[trigger] depth_p1[x]) < n,
                forall|x: int|
                    0 <= x < n && (#[trigger] par_p1[x]) is Some ==> vis_p1[x]
                        && vis_p1[par_p1[x].unwrap() as int],
                forall|y: int|
                    0 <= y < n ==> #[trigger] self.subcnt@[y] == subtree_size(
                        par_p1,
                        vis_p1,
                        y,
                        xv as int,
                        nfuel,
                    ),
            decreases n - xv,
        {
            if visited[xv] {
                let ghost base = self.subcnt@;
                let mut cur = xv;
                let mut climbing = true;
                let mut steps: usize = 0;
                while climbing
                    invariant
                        self.wf(),
                        self.n == n,
                        self.g@ == old(self).g@,
                        self.par@ == par_p1,
                        self.depth@ == depth_p1,
                        forall|x: int| 0 <= x < n ==> parent_ok(g_p1, par_p1, depth_p1, x),
                        nfuel == n as nat,
                        g_p1 == self.g@,
                        forall|x: int|
                            0 <= x < n && vis_p1[x] ==> (#[trigger] depth_p1[x]) < n,
                        forall|x: int|
                            0 <= x < n && (#[trigger] par_p1[x]) is Some ==> vis_p1[x]
                                && vis_p1[par_p1[x].unwrap() as int],
                        xv < n,
                        cur < n,
                        vis_p1[xv as int],
                        vis_p1[cur as int],
                        chain_hits(par_p1, xv as int, cur as int, nfuel),
                        depth_p1[cur as int] <= depth_p1[xv as int],
                        climbing ==> steps == depth_p1[xv as int] - depth_p1[cur as int],
                        base.len() == n,
                        forall|y: int|
                            0 <= y < n ==> #[trigger] base[y] == subtree_size(
                                par_p1,
                                vis_p1,
                                y,
                                xv as int,
                                nfuel,
                            ),
                        climbing ==> (forall|y: int|
                            0 <= y < n ==> #[trigger] self.subcnt@[y] == base[y] + (
                            if chain_hits(par_p1, xv as int, y, nfuel) && !chain_hits(
                                par_p1,
                                cur as int,
                                y,
                                nfuel,
                            ) {
                                1int
                            } else {
                                0int
                            })),
                        !climbing ==> (forall|y: int|
                            0 <= y < n ==> #[trigger] self.subcnt@[y] == base[y] + (
                            if chain_hits(par_p1, xv as int, y, nfuel) {
                                1int
                            } else {
                                0int
                            })),
                    decreases n - steps + (if climbing {
                        1int
                    } else {
                        0int
                    }),
                {
                    let sc = self.subcnt[cur];
                    proof {
                        lemma_subtree_size_bound(par_p1, vis_p1, cur as int, xv as int, nfuel);
                        assert(chain_hits(par_p1, cur as int, cur as int, nfuel));
                        assert(sc == base[cur as int]);
                        assert(sc < n);
                    }
                    self.subcnt.set(cur, sc + 1);
                    match self.par[cur] {
                        Some(p) => {
                            proof {
                                let gc = cur as int;
                                let gp = p as int;
                                assert(parent_ok(g_p1, par_p1, depth_p1, gc));
                                lemma_chain_extend(par_p1, xv as int, gc, p, nfuel);
                                lemma_chain_fuel_suffices(
                                    g_p1,
                                    par_p1,
                                    depth_p1,
                                    n,
                                    xv as int,
                                    gp,
                                    (nfuel + 1) as nat,
                                );
                                lemma_chain_fuel_mono(
                                    par_p1,
                                    xv as int,
                                    gp,
                                    (depth_p1[xv as int] + 1) as nat,
                                    nfuel,
                                );
                                // the increment at cur moves the cut
                                // from cur to its parent
                                assert forall|y: int|
                                    0 <= y < n implies (chain_hits(par_p1, gc, y, nfuel) <==> (y
                                    == gc || chain_hits(par_p1, gp, y, nfuel))) by {
                                    if chain_hits(par_p1, gc, y, nfuel) && y != gc {
                                        lemma_chain_fuel_mono(
                                            par_p1,
                                            gp,
                                            y,
                                            (nfuel - 1) as nat,
                                            nfuel,
                                        );
                                    }
                                    if y != gc && chain_hits(par_p1, gp, y, nfuel) {
                                        lemma_chain_fuel_suffices(
                                            g_p1,
                                            par_p1,
                                            depth_p1,
                                            n,
                                            gp,
                                            y,
                                            nfuel,
                                        );
                                        assert(chain_hits(
                                            par_p1,
                                            gc,
                                            y,
                                            (depth_p1[gp] + 2) as nat,
                                        ));
                                        lemma_chain_fuel_mono(
                                            par_p1,
                                            gc,
                                            y,
                                            (depth_p1[gp] + 2) as nat,
                                            nfuel,
                                        );
                                    }
                                }
                                if chain_hits(par_p1, gp, gc, nfuel) {
                                    lemma_chain_depth(g_p1, par_p1, depth_p1, n, gp, gc, nfuel);
                                    assert(false);
                                }
                            }
                            cur = p;
                            steps = steps + 1;
                        },
                        None => {
                            proof {
                                let gc = cur as int;
                                assert forall|y: int|
                                    0 <= y < n implies (chain_hits(par_p1, gc, y, nfuel) <==> y
                                    == gc) by {}
                            }
                            climbing = false;
                        },
                    }
                }
                proof {
                    assert forall|y: int|
                        0 <= y < n implies #[trigger] self.subcnt@[y] == subtree_size(
                        par_p1,
                        vis_p1,
                        y,
                        xv as int + 1,
                        nfuel,
                    ) by {}
                }
            } else {
                proof {
                    assert forall|y: int|
                        0 <= y < n implies #[trigger] self.subcnt@[y] == subtree_size(
                        par_p1,
                        vis_p1,
                        y,
                        xv as int + 1,
                        nfuel,
                    ) by {}
                }
            }
            xv = xv + 1;
        }
        // heavy children: the child with the largest subtree
        let mut z2: usize = 0;
        while z2 < n
            invariant
                z2 <= n,
                self.wf(),
                self.n == n,
                self.g@ == old(self).g@,
                self.par@ == par_p1,
                self.depth@ == depth_p1,
                par_p1[root as int] is None,
                depth_p1[root as int] == 0,
                forall|x: int| 0 <= x < n ==> parent_ok(g_p1, par_p1, depth_p1, x),
                forall|y: int|
                    0 <= y < n ==> #[trigger] self.subcnt@[y] == subtree_size(
                        par_p1,
                        vis_p1,
                        y,
                        n as int,
                        n as nat,
                    ),
                forall|x: int| 0 <= x < z2 ==> (#[trigger] self.heavy_next@[x]) is None,
            decreases n - z2,
        {
            self.heavy_next.set(z2, None);
            z2 = z2 + 1;
        }
        let mut uu: usize = 0;
        while uu < n
            invariant
                uu <= n,
                self.wf(),
                self.n == n,
                self.g@ == old(self).g@,
                self.par@ == par_p1,
                self.depth@ == depth_p1,
                par_p1[root as int] is None,
                depth_p1[root as int] == 0,
                forall|x: int| 0 <= x < n ==> parent_ok(g_p1, par_p1, depth_p1, x),
                forall|u: int|
                    0 <= u < uu ==> heavy_seq_ok(
                        self.g@,
                        self.par@,
                        self.subcnt@,
                        self.heavy_next@,
                        u,
                    ),
                forall|y: int|
                    0 <= y < n ==> #[trigger] self.subcnt@[y] == subtree_size(
                        par_p1,
                        vis_p1,
                        y,
                        n as int,
                        n as nat,
                    ),
                forall|u: int| uu <= u < n ==> (#[trigger] self.heavy_next@[u]) is None,
            decreases n - uu,
        {
            let u = uu;
            let deg = self.g[u].len();
            let mut maxv: usize = 0;
            let mut hn: Option<usize> = None;
            let mut e: usize = 0;
            while e < deg
                invariant
                    self.wf(),
                    self.n == n,
                    self.g@ == old(self).g@,
                    u < n,
                    e <= deg,
                    deg == self.g@[u as int]@.len(),
                    hn matches Some(vb) ==> (vb < n && maxv == self.subcnt@[vb as int] && exists|
                        e2: int,
                    |
                        0 <= e2 < e && #[trigger] self.g@[u as int]@[e2] == vb && (forall|e3: int|
                            0 <= e3 < e2 ==> self.par@[u as int] == Some(
                                #[trigger] self.g@[u as int]@[e3],
                            ) || self.subcnt@[self.g@[u as int]@[e3] as int] < maxv)),
                    hn is None ==> maxv == 0,
                    forall|e2: int|
                        0 <= e2 < e ==> (self.par@[u as int] == Some(
                            #[trigger] self.g@[u as int]@[e2],
                        ) || self.subcnt@[self.g@[u as int]@[e2] as int] <= maxv),
                decreases deg - e,
            {
                let v = self.g[u][e];
                let is_par = match self.par[u] {
                    Some(p) => p == v,
                    None => false,
                };
                if !is_par {
                    let sv = self.subcnt[v];
                    if sv > maxv {
                        maxv = sv;
                        hn = Some(v);
                    }
                }
                e = e + 1;
            }
            let ghost hn_pre2 = self.heavy_next@;
            self.heavy_next.set(u, hn);
            proof {
                assert forall|w: int|
                    0 <= w < uu + 1 implies heavy_seq_ok(
                    self.g@,
                    self.par@,
                    self.subcnt@,
                    self.heavy_next@,
                    w,
                ) by {
                    if w != u as int {
                        assert(self.heavy_next@[w] == hn_pre2[w]);
                        assert(heavy_seq_ok(self.g@, self.par@, self.subcnt@, hn_pre2, w));
                    }
                }
            }
            uu = uu + 1;
        }
        // heavy-path renumbering: walk each path from its head,
        // queueing the light children as new heads
        let ghost hn_pre = self.heavy_next@;
        let ghost sc_pre = self.subcnt@;
        let ghost par_pre = self.par@;
        let ghost g_pre = self.g@;
        let mut z: usize = 0;
        while z < n
            invariant
                z <= n,
                self.wf(),
                self.n == n,
                self.g@ == old(self).g@,
                self.heavy_next@ == hn_pre,
                self.subcnt@ == sc_pre,
                self.par@ == par_pre,
                forall|u: int| 0 <= u < n ==> heavy_seq_ok(g_pre, par_pre, sc_pre, hn_pre, u),
                forall|y: int|
                    0 <= y < n ==> #[trigger] self.subcnt@[y] == subtree_size(
                        par_p1,
                        vis_p1,
                        y,
                        n as int,
                        n as nat,
                    ),
                forall|x: int| 0 <= x < z ==> #[trigger] self.real_to_virt@[x] == n,
                self.par@ == par_p1,
                self.depth@ == depth_p1,
                par_p1[root as int] is None,
                depth_p1[root as int] == 0,
                forall|x: int| 0 <= x < n ==> parent_ok(g_p1, par_p1, depth_p1, x),
                forall|x: int| 0 <= x < z ==> #[trigger] self.virt_to_real@[x] == n,
            decreases n - z,
        {
            self.real_to_virt.set(z, n);
            self.virt_to_real.set(z, n);
            z = z + 1;
        }
        let ghost hn_done = self.heavy_next@;
        let ghost sc_done = self.subcnt@;
        let ghost par_done = self.par@;
        let ghost g_done = self.g@;
        let mut q: Vec<usize> = Vec::new();
        q.push(root);
        proof {
            lemma_count_unassigned_full(self.real_to_virt@, n);
            assert(q@[0] == root);
            assert(vis_p1[root as int]);
        }
        let mut qi: usize = 0;
        let mut cur_virt_id: usize = 0;
        while qi < q.len()
            invariant
                self.wf(),
                self.n == n,
                self.g@ == old(self).g@,
                self.heavy_next@ == hn_done,
                self.subcnt@ == sc_done,
                self.par@ == par_done,
                self.par@ == par_p1,
                self.depth@ == depth_p1,
                par_p1[root as int] is None,
                depth_p1[root as int] == 0,
                forall|x: int| 0 <= x < n ==> parent_ok(g_p1, par_p1, depth_p1, x),
                forall|u: int| 0 <= u < n ==> heavy_seq_ok(g_done, par_done, sc_done, hn_done, u),
                qi <= q@.len(),
                forall|k: int| 0 <= k < q@.len() ==> #[trigger] q@[k] < n,
                cur_virt_id <= n,
                forall|x: int|
                    0 <= x < n && #[trigger] self.real_to_virt@[x] != n ==> self.real_to_virt@[x]
                        < cur_virt_id && self.virt_to_real@[self.real_to_virt@[x] as int] == x,
                forall|j: int| cur_virt_id <= j < n ==> #[trigger] self.virt_to_real@[j] == n,
                heads_ok(self.real_to_virt@, self.heavy_head@, n as int),
                chain_ok(self.real_to_virt@, self.heavy_head@, hn_done, n as int),
                pending_ok(self.real_to_virt@, hn_done, n as int, cur_virt_id as int),
                vis_p1.len() == n,
                g_p1 == self.g@,
                g_done == self.g@,
                forall|y: int|
                    0 <= y < n ==> #[trigger] self.subcnt@[y] == subtree_size(
                        par_p1,
                        vis_p1,
                        y,
                        n as int,
                        n as nat,
                    ),
                traversal_ok(g_p1, par_p1, vis_p1, n as int, root as int),
                cur_virt_id + count_unassigned(self.real_to_virt@, n) == n,
                forall|x: int|
                    0 <= x < n && #[trigger] self.real_to_virt@[x] != n ==> vis_p1[x],
                forall|k: int| 0 <= k < q@.len() ==> vis_p1[#[trigger] q@[k] as int],
                q@.len() >= 1 && q@[0] == root,
                qi >= 1 ==> self.real_to_virt@[root as int] != n,
                forall|k: int|
                    0 <= k < qi ==> (self.real_to_virt@[#[trigger] q@[k] as int] != n
                        || cur_virt_id == n),
                forall|u2: int, e2: int|
                    0 <= u2 < n && self.real_to_virt@[u2] != n && 0 <= e2 < self.g@[u2]@.len()
                        ==> (self.real_to_virt@[#[trigger] self.g@[u2]@[e2] as int] != n || (
                    exists|k: int| 0 <= k < q@.len() && #[trigger] q@[k] == self.g@[u2]@[e2])
                        || par_p1[u2] == Some(self.g@[u2]@[e2]) || hn_done[u2] == Some(
                        self.g@[u2]@[e2],
                    )),
            decreases n - cur_virt_id, q@.len() - qi,
        {
            let h = q[qi];
            qi = qi + 1;
            let mut cur = h;
            let mut walking = self.real_to_virt[cur] == n && cur_virt_id < n;
            let ghost winit = walking;
            let ghost rtv_pre = self.real_to_virt@;
            let ghost id0 = cur_virt_id;
            let ghost qlen0 = q@.len();
            while walking
                invariant
                    self.wf(),
                    self.n == n,
                    self.g@ == old(self).g@,
                    self.heavy_next@ == hn_done,
                    self.subcnt@ == sc_done,
                    self.par@ == par_done,
                    self.par@ == par_p1,
                    self.depth@ == depth_p1,
                    par_p1[root as int] is None,
                    depth_p1[root as int] == 0,
                    forall|x: int| 0 <= x < n ==> parent_ok(g_p1, par_p1, depth_p1, x),
                    forall|u: int|
                        0 <= u < n ==> heavy_seq_ok(g_done, par_done, sc_done, hn_done, u),
                    cur < n,
                    h < n,
                    cur_virt_id >= id0,
                    cur_virt_id == id0 ==> q@.len() == qlen0,
                    qi <= q@.len(),
                    forall|k: int| 0 <= k < q@.len() ==> #[trigger] q@[k] < n,
                    cur_virt_id <= n,
                    walking ==> self.real_to_virt@[cur as int] == n && cur_virt_id < n,
                    forall|x: int|
                        0 <= x < n && #[trigger] self.real_to_virt@[x] != n
                            ==> self.real_to_virt@[x] < cur_virt_id
                            && self.virt_to_real@[self.real_to_virt@[x] as int] == x,
                    forall|j: int| cur_virt_id <= j < n ==> #[trigger] self.virt_to_real@[j] == n,
                    vis_p1.len() == n,
                    g_p1 == self.g@,
                    g_done == self.g@,
                    forall|y: int|
                        0 <= y < n ==> #[trigger] self.subcnt@[y] == subtree_size(
                            par_p1,
                            vis_p1,
                            y,
                            n as int,
                            n as nat,
                        ),
                    traversal_ok(g_p1, par_p1, vis_p1, n as int, root as int),
                    vis_p1[cur as int],
                    cur_virt_id + count_unassigned(self.real_to_virt@, n) == n,
                    forall|x: int|
                        0 <= x < n && #[trigger] self.real_to_virt@[x] != n ==> vis_p1[x],
                    forall|k: int| 0 <= k < q@.len() ==> vis_p1[#[trigger] q@[k] as int],
                    q@.len() >= 1 && q@[0] == root,
                    qi >= 1 && qi <= q@.len() && q@[qi - 1] == h,
                    cur_virt_id == id0 ==> walking == winit,
                    forall|x: int|
                        0 <= x < n && rtv_pre[x] != n ==> #[trigger] self.real_to_virt@[x] != n,
                    cur_virt_id > id0 ==> self.real_to_virt@[h as int] != n,
                    forall|k: int|
                        0 <= k < qi - 1 ==> (self.real_to_virt@[#[trigger] q@[k] as int] != n
                            || cur_virt_id == n),
                    forall|u2: int, e2: int|
                        0 <= u2 < n && self.real_to_virt@[u2] != n && 0 <= e2
                            < self.g@[u2]@.len() ==> (self.real_to_virt@[#[trigger] self.g@[u2]@[
                        e2] as int] != n || (exists|k: int|
                            0 <= k < q@.len() && #[trigger] q@[k] == self.g@[u2]@[e2])
                            || par_p1[u2] == Some(self.g@[u2]@[e2]) || hn_done[u2] == Some(
                            self.g@[u2]@[e2],
                        )),
                    heads_ok(self.real_to_virt@, self.heavy_head@, n as int),
                    chain_ok(self.real_to_virt@, self.heavy_head@, hn_done, n as int),
                    pending_walk_ok(
                        self.real_to_virt@,
                        self.heavy_head@,
                        hn_done,
                        n as int,
                        cur_virt_id as int,
                        walking,
                        cur as int,
                        h as int,
                    ),
                    walking ==> ((cur == h && self.real_to_virt@[h as int] == n) || (
                    self.real_to_virt@[h as int] != n && self.heavy_head@[h as int] == h)),
                decreases n - cur_virt_id,
            {
                let ghost rtv_b = self.real_to_virt@;
                let ghost hh_b = self.heavy_head@;
                let ghost cvid_b = cur_virt_id as int;
                proof {
                    lemma_count_unassigned_update(rtv_b, n, cur as int, cur_virt_id);
                }
                self.real_to_virt.set(cur, cur_virt_id);
                self.virt_to_real.set(cur_virt_id, cur);
                self.heavy_head.set(cur, h);
                cur_virt_id = cur_virt_id + 1;
                proof {
                    let gc = cur as int;
                    let rtv2 = self.real_to_virt@;
                    let hh2 = self.heavy_head@;
                    assert forall|x: int|
                        0 <= x < n && #[trigger] rtv2[x] != n implies hh2[x] < n && rtv2[hh2[x]
                        as int] != n && hh2[hh2[x] as int] == hh2[x] by {
                        if x == gc {
                            if cur != h {
                                assert(rtv_b[h as int] != n && hh_b[h as int] == h);
                            }
                        } else {
                            assert(rtv_b[x] != n);
                            assert(hh_b[x] != cur);
                        }
                    }
                    assert forall|x: int|
                        0 <= x < n && #[trigger] rtv2[x] != n && hn_done[x] is Some
                            && hn_done[x].unwrap() != x && rtv2[hn_done[x].unwrap() as int] != n
                        implies ((rtv2[hn_done[x].unwrap() as int] == rtv2[x] + 1
                        && hh2[hn_done[x].unwrap() as int] == hh2[x]) || rtv2[hn_done[x].unwrap()
                        as int] < rtv2[x]) by {
                        let y = hn_done[x].unwrap() as int;
                        if x == gc {
                            if rtv_b[y] != n {
                                assert(rtv_b[y] < cvid_b);
                            }
                        } else {
                            assert(rtv_b[x] != n);
                            if y == gc {
                                // the pending link this walk step completes
                                assert(rtv_b[gc] == n);
                                assert(rtv_b[x] == cvid_b - 1 && hh_b[x] == h);
                            }
                        }
                    }
                    // after this assignment the only dangling link
                    // out of an assigned vertex starts at cur itself
                    assert forall|x: int|
                        0 <= x < n && #[trigger] rtv2[x] != n && hn_done[x] is Some
                            && hn_done[x].unwrap() != x && rtv2[hn_done[x].unwrap() as int] == n
                        implies x == gc by {
                        if x != gc {
                            assert(rtv_b[x] != n);
                        }
                    }
                }
                let deg = self.g[cur].len();
                let mut e: usize = 0;
                while e < deg
                    invariant
                        self.wf(),
                        self.n == n,
                        self.g@ == old(self).g@,
                        self.heavy_next@ == hn_done,
                        self.subcnt@ == sc_done,
                        self.par@ == par_done,
                        self.par@ == par_p1,
                        self.depth@ == depth_p1,
                        par_p1[root as int] is None,
                        depth_p1[root as int] == 0,
                        forall|x: int| 0 <= x < n ==> parent_ok(g_p1, par_p1, depth_p1, x),
                        forall|u: int|
                            0 <= u < n ==> heavy_seq_ok(g_done, par_done, sc_done, hn_done, u),
                        vis_p1.len() == n,
                        g_p1 == self.g@,
                        g_done == self.g@,
                        forall|y: int|
                            0 <= y < n ==> #[trigger] self.subcnt@[y] == subtree_size(
                                par_p1,
                                vis_p1,
                                y,
                                n as int,
                                n as nat,
                            ),
                        traversal_ok(g_p1, par_p1, vis_p1, n as int, root as int),
                        vis_p1[cur as int],
                        forall|x: int|
                            0 <= x < n && #[trigger] self.real_to_virt@[x] != n ==> vis_p1[x],
                        forall|k: int| 0 <= k < q@.len() ==> vis_p1[#[trigger] q@[k] as int],
                        q@.len() >= 1 && q@[0] == root,
                        qi >= 1 && qi <= q@.len() && q@[qi - 1] == h,
                        forall|k: int|
                            0 <= k < qi - 1 ==> (self.real_to_virt@[#[trigger] q@[k] as int] != n
                                || cur_virt_id == n),
                        self.real_to_virt@[cur as int] != n,
                        forall|u2: int, e2: int|
                            0 <= u2 < n && u2 != cur && self.real_to_virt@[u2] != n && 0 <= e2
                                < self.g@[u2]@.len() ==> (self.real_to_virt@[
                        #[trigger] self.g@[u2]@[e2] as int] != n || (exists|k: int|
                                0 <= k < q@.len() && #[trigger] q@[k] == self.g@[u2]@[e2])
                                || par_p1[u2] == Some(self.g@[u2]@[e2]) || hn_done[u2] == Some(
                                self.g@[u2]@[e2],
                            )),
                        forall|e2: int|
                            0 <= e2 < e ==> (self.real_to_virt@[#[trigger] self.g@[cur as int]@[
                        e2] as int] != n || (exists|k: int|
                                0 <= k < q@.len() && #[trigger] q@[k] == self.g@[cur as int]@[e2])
                                || par_p1[cur as int] == Some(self.g@[cur as int]@[e2])
                                || hn_done[cur as int] == Some(self.g@[cur as int]@[e2])),
                        cur < n,
                        h < n,
                        cur_virt_id > id0,
                        deg == self.g@[cur as int]@.len(),
                        qi <= q@.len(),
                        forall|k: int| 0 <= k < q@.len() ==> #[trigger] q@[k] < n,
                        cur_virt_id <= n,
                        forall|x: int|
                            0 <= x < n && #[trigger] self.real_to_virt@[x] != n
                                ==> self.real_to_virt@[x] < cur_virt_id
                                && self.virt_to_real@[self.real_to_virt@[x] as int] == x,
                        forall|j: int|
                            cur_virt_id <= j < n ==> #[trigger] self.virt_to_real@[j] == n,
                    decreases deg - e,
                {
                    let v = self.g[cur][e];
                    let is_par = match self.par[cur] {
                        Some(p) => p == v,
                        None => false,
                    };
                    let is_heavy = match self.heavy_next[cur] {
                        Some(x) => x == v,
                        None => false,
                    };
                    if !is_par && !is_heavy {
                        let ghost q_bw = q@;
                        q.push(v);
                        proof {
                            assert(q@[q@.len() - 1] == v);
                            assert(vis_p1[g_p1[cur as int]@[e as int] as int]);
                            assert forall|u2: int, e2: int|
                                0 <= u2 < n && u2 != cur && self.real_to_virt@[u2] != n && 0 <= e2
                                    < self.g@[u2]@.len() implies (self.real_to_virt@[
                            #[trigger] self.g@[u2]@[e2] as int] != n || (exists|k: int|
                                    0 <= k < q@.len() && #[trigger] q@[k] == self.g@[u2]@[e2])
                                    || par_p1[u2] == Some(self.g@[u2]@[e2]) || hn_done[u2]
                                    == Some(self.g@[u2]@[e2])) by {
                                if exists|k: int|
                                    0 <= k < q_bw.len() && #[trigger] q_bw[k] == self.g@[u2]@[e2] {
                                    let k = choose|k: int|
                                        0 <= k < q_bw.len() && #[trigger] q_bw[k]
                                            == self.g@[u2]@[e2];
                                    assert(q@[k] == self.g@[u2]@[e2]);
                                }
                            }
                            assert forall|e2: int|
                                0 <= e2 < e + 1 implies (self.real_to_virt@[
                            #[trigger] self.g@[cur as int]@[e2] as int] != n || (exists|k: int|
                                    0 <= k < q@.len() && #[trigger] q@[k] == self.g@[cur as int]@[
                            e2]) || par_p1[cur as int] == Some(self.g@[cur as int]@[e2])
                                    || hn_done[cur as int] == Some(self.g@[cur as int]@[e2])) by {
                                if e2 < e {
                                    if exists|k: int|
                                        0 <= k < q_bw.len() && #[trigger] q_bw[k]
                                            == self.g@[cur as int]@[e2] {
                                        let k = choose|k: int|
                                            0 <= k < q_bw.len() && #[trigger] q_bw[k]
                                                == self.g@[cur as int]@[e2];
                                        assert(q@[k] == self.g@[cur as int]@[e2]);
                                    }
                                }
                            }
                        }
                    }
                    e = e + 1;
                }
                match self.heavy_next[cur] {
                    Some(nx) => {
                        proof {
                            assert(heavy_seq_ok(g_done, par_done, sc_done, hn_done, cur as int));
                            let e2 = choose|e2: int|
                                0 <= e2 < g_done[cur as int]@.len() && #[trigger] g_done[
                            cur as int]@[e2] == nx;
                            assert(vis_p1[g_p1[cur as int]@[e2] as int]);
                        }
                        cur = nx;
                        walking = self.real_to_virt[cur] == n && cur_virt_id < n;
                        proof {
                            if walking {
                                assert(self.real_to_virt@[h as int] != n
                                    && self.heavy_head@[h as int] == h);
                            }
                        }
                    },
                    None => {
                        walking = false;
                    },
                }
            }
            proof {
                if cur_virt_id == id0 {
                    // the walk never ran, so the popped head was
                    // already numbered or the numbering is full
                    assert(!winit);
                    assert(rtv_pre[h as int] != n || id0 >= n);
                }
                assert forall|k: int|
                    0 <= k < qi implies (self.real_to_virt@[#[trigger] q@[k] as int] != n
                    || cur_virt_id == n) by {
                    if k == qi - 1 {
                        assert(q@[k] == h);
                    }
                }
                if qi >= 2 {
                    assert(rtv_pre[root as int] != n);
                }
                if qi == 1 {
                    assert(self.real_to_virt@[root as int] != n || cur_virt_id == n);
                    if cur_virt_id == n {
                        lemma_count_unassigned_zero(self.real_to_virt@, n);
                    }
                }
            }
        }
        proof {
            assert forall|u: int| 0 <= u < n implies self.heavy_choice_ok(u) by {
                assert(heavy_seq_ok(g_done, par_done, sc_done, hn_done, u));
            }
            assert forall|u: int|
                0 <= u < n implies parent_ok(self.g@, self.par@, self.depth@, u) by {
                assert(parent_ok(g_p1, par_p1, depth_p1, u));
            }
            let rtv = self.real_to_virt@;
            if cur_virt_id == n {
                lemma_count_unassigned_zero(rtv, n);
            }
            assert forall|u2: int, e2: int|
                0 <= u2 < n && rtv[u2] != n && 0 <= e2 < g_p1[u2]@.len() implies (rtv[
            #[trigger] g_p1[u2]@[e2] as int] != n || par_p1[u2] == Some(g_p1[u2]@[e2])) by {
                let c = g_p1[u2]@[e2] as int;
                if rtv[c] == n && par_p1[u2] != Some(g_p1[u2]@[e2]) {
                    if exists|k: int| 0 <= k < q@.len() && #[trigger] q@[k] == g_p1[u2]@[e2] {
                        let k = choose|k: int|
                            0 <= k < q@.len() && #[trigger] q@[k] == g_p1[u2]@[e2];
                        assert(rtv[q@[k] as int] != n || cur_virt_id == n);
                        assert(cur_virt_id == n);
                        assert(false);
                    } else {
                        assert(hn_done[u2] == Some(g_p1[u2]@[e2]));
                        if c != u2 {
                            assert(cur_virt_id == n);
                            assert(false);
                        }
                    }
                }
            }
            assert forall|x: int|
                0 <= x < n && reachable(self.g@, root as int, x) implies self.real_to_virt@[x]
                != n by {
                let fuel = choose|fuel: nat| #[trigger] reaches(self.g@, root as int, x, fuel);
                lemma_reaches_visited(g_p1, par_p1, vis_p1, n as int, root as int, x, fuel);
                lemma_visited_assigned(g_p1, par_p1, depth_p1, vis_p1, rtv, n, root, x);
            }
            // the numbering marks exactly the traversal's seen set
            assert forall|x: int| 0 <= x < n implies vis_p1[x] == (rtv[x] != n) by {
                if vis_p1[x] {
                    lemma_visited_assigned(g_p1, par_p1, depth_p1, vis_p1, rtv, n, root, x);
                }
            }
            assert(vis_p1 =~= assigned_set(rtv, n));
            assert forall|u: int|
                0 <= u < n implies #[trigger] self.subcnt@[u] == subtree_size(
                self.par@,
                assigned_set(self.real_to_virt@, n),
                u,
                n as int,
                n as nat,
            ) by {
                assert(self.subcnt@[u] == subtree_size(par_p1, vis_p1, u, n as int, n as nat));
            }
        }
    }
}

} // verus!
