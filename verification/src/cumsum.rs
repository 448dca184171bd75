//! Prefix-sum tables: a one-dimensional cumulative array, a
//! two-dimensional cumulative table, and a two-dimensional
//! difference array that is swept into point values.

use crate::treap::sum_of;
use vstd::prelude::*;

verus! {

/// Every prefix of `s` has a sum representable in `i64`.
pub open spec fn prefix_sums_fit(s: Seq<i64>) -> bool {
    forall|j: int|
        0 <= j <= s.len() ==> i64::MIN <= sum_of(#[trigger] s.subrange(0, j)) <= i64::MAX
}

/// The element sequences of a table's rows.
pub open spec fn grid_view(g: Seq<Vec<i64>>) -> Seq<Seq<i64>> {
    g.map_values(|r: Vec<i64>| r@)
}

/// Every row of `g` has exactly `m` entries.
pub open spec fn grid_wf(g: Seq<Seq<i64>>, m: int) -> bool {
    forall|i: int| 0 <= i < g.len() ==> #[trigger] g[i].len() == m
}

/// The sum of the rectangle of `g` with rows `[i0, i1)` and columns
/// `[j0, j1)`.
pub open spec fn rect2(g: Seq<Seq<i64>>, i0: int, i1: int, j0: int, j1: int) -> int
    decreases i1 - i0,
{
    if i1 <= i0 {
        0
    } else {
        rect2(g, i0, i1 - 1, j0, j1) + sum_of(g[i1 - 1].subrange(j0, j1))
    }
}

/// Every rectangle of `g` anchored at the top row has a sum
/// representable in `i64`.
pub open spec fn top_rects_fit(g: Seq<Seq<i64>>, m: int) -> bool {
    forall|i: int, j0: int, j1: int|
        0 <= i <= g.len() && 0 <= j0 <= j1 <= m ==> i64::MIN <= #[trigger] rect2(g, 0, i, j0, j1)
            <= i64::MAX
}

/// A vector of `n` zeros.
fn zeros(n: usize) -> (v: Vec<i64>)
    ensures
        v@.len() == n,
        forall|i: int| 0 <= i < n ==> v@[i] == 0,
{
    let mut v: Vec<i64> = Vec::new();
    let mut i: usize = 0;
    while i < n
        invariant
            i <= n,
            v@.len() == i,
            forall|k: int| 0 <= k < i ==> v@[k] == 0,
        decreases n - i,
    {
        v.push(0);
        i = i + 1;
    }
    v
}

/// A table of `n` rows of `m` zeros each.
fn zero_grid(n: usize, m: usize) -> (g: Vec<Vec<i64>>)
    ensures
        g@.len() == n,
        forall|i: int| 0 <= i < n ==> #[trigger] g@[i]@.len() == m,
        forall|i: int, j: int| 0 <= i < n && 0 <= j < m ==> g@[i]@[j] == 0,
{
    let mut g: Vec<Vec<i64>> = Vec::new();
    let mut i: usize = 0;
    while i < n
        invariant
            i <= n,
            g@.len() == i,
            forall|k: int| 0 <= k < i ==> #[trigger] g@[k]@.len() == m,
            forall|k: int, j: int| 0 <= k < i && 0 <= j < m ==> g@[k]@[j] == 0,
        decreases n - i,
    {
        g.push(zeros(m));
        i = i + 1;
    }
    g
}

/// A one-dimensional cumulative-sum array: point updates into a
/// base array, then `build` freezes prefix sums for O(1) range
/// queries.
pub struct CumSum1 {
    base: Vec<i64>,
    dp: Vec<i64>,
}

impl CumSum1 {
    /// The current base array.
    pub closed spec fn base_seq(&self) -> Seq<i64> {
        self.base@
    }

    /// The prefix table matches the current base array.
    pub closed spec fn built(&self) -> bool {
        &&& self.dp@.len() == self.base@.len() + 1
        &&& forall|j: int|
            0 <= j <= self.base@.len() ==> self.dp@[j] == sum_of(self.base@.subrange(0, j))
    }

    /// An array of `n` zeros with no prefix table yet.
    pub fn new(n: usize) -> (c: CumSum1)
        ensures
            c.base_seq().len() == n,
            forall|i: int| 0 <= i < n ==> c.base_seq()[i] == 0,
    {
        CumSum1 { base: zeros(n), dp: Vec::new() }
    }

    /// Adds `x` to entry `i` of the base array.
    pub fn add(&mut self, i: usize, x: i64)
        requires
            i < old(self).base_seq().len(),
            i64::MIN <= old(self).base_seq()[i as int] + x <= i64::MAX,
        ensures
            final(self).base_seq() == old(self).base_seq().update(
                i as int,
                (old(self).base_seq()[i as int] + x) as i64,
            ),
    {
        let b = self.base[i];
        self.base.set(i, b + x);
    }

    /// Overwrites entry `i` of the base array with `x`.
    pub fn set(&mut self, i: usize, x: i64)
        requires
            i < old(self).base_seq().len(),
        ensures
            final(self).base_seq() == old(self).base_seq().update(i as int, x),
    {
        self.base.set(i, x);
    }

    /// Freezes the prefix-sum table of the current base array.
    pub fn build(&mut self)
        requires
            prefix_sums_fit(old(self).base_seq()),
        ensures
            final(self).base_seq() == old(self).base_seq(),
            final(self).built(),
    {
        let ghost b0 = self.base@;
        let n = self.base.len();
        let mut dp: Vec<i64> = Vec::new();
        dp.push(0);
        proof {
            assert(b0.subrange(0, 0) =~= Seq::<i64>::empty());
        }
        let mut acc: i64 = 0;
        let mut i: usize = 0;
        while i < n
            invariant
                i <= n,
                n == b0.len(),
                self.base@ == b0,
                prefix_sums_fit(b0),
                dp@.len() == i + 1,
                acc == sum_of(b0.subrange(0, i as int)),
                forall|j: int| 0 <= j <= i ==> dp@[j] == sum_of(b0.subrange(0, j)),
            decreases n - i,
        {
            let x = self.base[i];
            proof {
                assert(b0.subrange(0, i + 1).drop_last() =~= b0.subrange(0, i as int));
                assert(b0.subrange(0, i + 1).last() == b0[i as int]);
                assert(sum_of(b0.subrange(0, i + 1)) == acc + x);
            }
            acc = acc + x;
            dp.push(acc);
            i = i + 1;
        }
        self.dp = dp;
    }

    /// The sum of base entries at positions `[i, j)`, read from the
    /// frozen prefix table.
    pub fn query(&self, i: usize, j: usize) -> (r: i64)
        requires
            self.built(),
            i <= j <= self.base_seq().len(),
            i64::MIN <= sum_of(self.base_seq().subrange(i as int, j as int)) <= i64::MAX,
        ensures
            r == sum_of(self.base_seq().subrange(i as int, j as int)),
    {
        proof {
            assert(self.base@.subrange(0, j as int) =~= self.base@.subrange(0, i as int)
                + self.base@.subrange(i as int, j as int));
            crate::treap::lemma_sum_concat(
                self.base@.subrange(0, i as int),
                self.base@.subrange(i as int, j as int),
            );
        }
        self.dp[j] - self.dp[i]
    }
}

/// A rectangle sum over an empty column range is zero.
proof fn lemma_rect2_empty_cols(g: Seq<Seq<i64>>, i0: int, i1: int, j: int)
    requires
        i0 <= i1,
        0 <= j,
        forall|r: int| i0 <= r < i1 ==> j <= #[trigger] g[r].len(),
    ensures
        rect2(g, i0, i1, j, j) == 0,
    decreases i1 - i0,
{
    if i1 <= i0 {
    } else {
        lemma_rect2_empty_cols(g, i0, i1 - 1, j);
        assert(0 <= j <= g[i1 - 1].len());
        assert(g[i1 - 1].subrange(j, j) =~= Seq::<i64>::empty());
    }
}

/// Rectangle sums split along a column boundary.
proof fn lemma_rect2_col_split(g: Seq<Seq<i64>>, i0: int, i1: int, j0: int, j1: int, j2: int)
    requires
        i0 <= i1,
        0 <= j0 <= j1 <= j2,
        forall|r: int| i0 <= r < i1 ==> j2 <= #[trigger] g[r].len(),
    ensures
        rect2(g, i0, i1, j0, j2) == rect2(g, i0, i1, j0, j1) + rect2(g, i0, i1, j1, j2),
    decreases i1 - i0,
{
    if i1 <= i0 {
    } else {
        lemma_rect2_col_split(g, i0, i1 - 1, j0, j1, j2);
        let row = g[i1 - 1];
        assert(j2 <= g[i1 - 1].len());
        assert(row.subrange(j0, j2) =~= row.subrange(j0, j1) + row.subrange(j1, j2));
        crate::treap::lemma_sum_concat(row.subrange(j0, j1), row.subrange(j1, j2));
    }
}

/// Rectangle sums split along a row boundary.
proof fn lemma_rect2_row_split(g: Seq<Seq<i64>>, i0: int, i1: int, i2: int, j0: int, j1: int)
    requires
        i0 <= i1 <= i2,
    ensures
        rect2(g, i0, i2, j0, j1) == rect2(g, i0, i1, j0, j1) + rect2(g, i1, i2, j0, j1),
    decreases i2 - i1,
{
    if i2 <= i1 {
    } else {
        lemma_rect2_row_split(g, i0, i1, i2 - 1, j0, j1);
    }
}

/// The sum of a one-column rectangle row is that single entry.
proof fn lemma_single_cell(row: Seq<i64>, j: int)
    requires
        0 <= j < row.len(),
    ensures
        sum_of(row.subrange(j, j + 1)) == row[j],
{
    assert(row.subrange(j, j + 1) =~= seq![row[j]]);
    crate::treap::lemma_sum_single(row[j]);
}

/// A two-dimensional cumulative-sum table: point updates into a
/// base table, then `build` freezes rectangle sums for O(1)
/// rectangle queries.
pub struct CumSum2 {
    base: Vec<Vec<i64>>,
    dp: Vec<Vec<i64>>,
}

impl CumSum2 {
    /// The current base table, row by row.
    pub closed spec fn base_grid(&self) -> Seq<Seq<i64>> {
        grid_view(self.base@)
    }

    /// The number of rows.
    pub closed spec fn rows(&self) -> int {
        self.base@.len() as int
    }

    /// The number of columns.
    pub closed spec fn cols(&self) -> int {
        if self.base@.len() == 0 {
            0
        } else {
            self.base@[0]@.len() as int
        }
    }

    /// All rows have the same width.
    pub closed spec fn base_wf(&self) -> bool {
        grid_wf(self.base_grid(), self.cols())
    }

    /// The cumulative table matches the current base table:
    /// `dp[i][j]` is the sum of the rectangle `[0,i) x [0,j)`.
    pub closed spec fn built(&self) -> bool {
        &&& self.dp@.len() == self.rows() + 1
        &&& forall|r: int|
            0 <= r <= self.rows() ==> #[trigger] self.dp@[r]@.len() == self.cols() + 1
        &&& forall|i: int, j: int|
            0 <= i <= self.rows() && 0 <= j <= self.cols() ==> #[trigger] self.dp@[i]@[j]
                == rect2(self.base_grid(), 0, i, 0, j)
    }

    /// An `n` by `m` table of zeros with no cumulative table yet.
    pub fn new(n: usize, m: usize) -> (c: CumSum2)
        ensures
            c.rows() == n,
            n > 0 ==> c.cols() == m,
            c.base_wf(),
            forall|i: int, j: int| 0 <= i < n && 0 <= j < m ==> c.base_grid()[i][j] == 0,
    {
        CumSum2 { base: zero_grid(n, m), dp: Vec::new() }
    }

    /// Adds `x` to the base entry in row `i`, column `j`.
    pub fn add(&mut self, i: usize, j: usize, x: i64)
        requires
            old(self).base_wf(),
            i < old(self).rows(),
            j < old(self).cols(),
            i64::MIN <= old(self).base_grid()[i as int][j as int] + x <= i64::MAX,
        ensures
            final(self).base_wf(),
            final(self).rows() == old(self).rows(),
            final(self).cols() == old(self).cols(),
            final(self).base_grid() == old(self).base_grid().update(
                i as int,
                old(self).base_grid()[i as int].update(
                    j as int,
                    (old(self).base_grid()[i as int][j as int] + x) as i64,
                ),
            ),
    {
        proof {
            assert(self.base_grid()[i as int] == self.base@[i as int]@);
            assert(self.base_grid()[i as int].len() == self.cols());
        }
        let b = self.base[i][j];
        self.base[i][j] = b + x;
        proof {
            assert(grid_view(self.base@) =~= grid_view(old(self).base@).update(
                i as int,
                grid_view(old(self).base@)[i as int].update(j as int, (b + x) as i64),
            ));
        }
    }

    /// Overwrites the base entry in row `i`, column `j` with `x`.
    pub fn set(&mut self, i: usize, j: usize, x: i64)
        requires
            old(self).base_wf(),
            i < old(self).rows(),
            j < old(self).cols(),
        ensures
            final(self).base_wf(),
            final(self).rows() == old(self).rows(),
            final(self).cols() == old(self).cols(),
            final(self).base_grid() == old(self).base_grid().update(
                i as int,
                old(self).base_grid()[i as int].update(j as int, x),
            ),
    {
        proof {
            assert(self.base_grid()[i as int] == self.base@[i as int]@);
            assert(self.base_grid()[i as int].len() == self.cols());
        }
        self.base[i][j] = x;
        proof {
            assert(grid_view(self.base@) =~= grid_view(old(self).base@).update(
                i as int,
                grid_view(old(self).base@)[i as int].update(j as int, x),
            ));
        }
    }

    /// Freezes the rectangle-sum table of the current base table.
    #[verifier::rlimit(100)]
    pub fn build(&mut self)
        requires
            old(self).base_wf(),
            old(self).rows() >= 1,
            old(self).rows() < usize::MAX,
            old(self).cols() < usize::MAX,
            top_rects_fit(old(self).base_grid(), old(self).cols()),
        ensures
            final(self).base_grid() == old(self).base_grid(),
            final(self).rows() == old(self).rows(),
            final(self).cols() == old(self).cols(),
            final(self).base_wf(),
            final(self).built(),
    {
        let ghost b = grid_view(self.base@);
        let n = self.base.len();
        let m = self.base[0].len();
        let mut dp = zero_grid(n + 1, m + 1);
        let mut i: usize = 0;
        while i < n
            invariant
                i <= n,
                n == b.len(),
                m == self.cols(),
                self.base@.len() == n,
                b == grid_view(self.base@),
                grid_wf(b, m as int),
                dp@.len() == n + 1,
                forall|r: int| 0 <= r <= n ==> #[trigger] dp@[r]@.len() == m + 1,
                forall|r: int, c: int|
                    1 <= r <= i && 1 <= c <= m ==> #[trigger] dp@[r]@[c] == b[r - 1][c - 1],
                forall|r: int, c: int|
                    0 <= r <= n && 0 <= c <= m && (r == 0 || c == 0) ==> #[trigger] dp@[r]@[c]
                        == 0,
                forall|r: int, c: int|
                    i < r <= n && 1 <= c <= m ==> #[trigger] dp@[r]@[c] == 0,
            decreases n - i,
        {
            let mut j: usize = 0;
            while j < m
                invariant
                    i < n,
                    j <= m,
                    n == b.len(),
                    m == self.cols(),
                    self.base@.len() == n,
                    b == grid_view(self.base@),
                    grid_wf(b, m as int),
                    dp@.len() == n + 1,
                    forall|r: int| 0 <= r <= n ==> #[trigger] dp@[r]@.len() == m + 1,
                    forall|r: int, c: int|
                        1 <= r <= i && 1 <= c <= m ==> #[trigger] dp@[r]@[c] == b[r - 1][c - 1],
                    forall|c: int| 1 <= c <= j ==> #[trigger] dp@[i + 1]@[c] == b[i as int][c - 1],
                    forall|r: int, c: int|
                        0 <= r <= n && 0 <= c <= m && (r == 0 || c == 0) ==> #[trigger] dp@[r]@[c]
                            == 0,
                    forall|c: int| j < c <= m ==> #[trigger] dp@[i + 1]@[c] == 0,
                    forall|r: int, c: int|
                        i + 1 < r <= n && 1 <= c <= m ==> #[trigger] dp@[r]@[c] == 0,
                decreases m - j,
            {
                proof {
                    assert(b[i as int] == self.base@[i as int]@);
                    assert(b[i as int].len() == m);
                }
                let x = self.base[i][j];
                dp[i + 1][j + 1] = x;
                proof {
                    assert(dp@[i + 1]@[j + 1] == x);
                    assert(x == b[i as int][j as int]);
                }
                j = j + 1;
            }
            i = i + 1;
        }
        let mut i: usize = 1;
        while i <= n
            invariant
                1 <= i <= n + 1,
                n < usize::MAX,
                m < usize::MAX,
                n == b.len(),
                m == self.cols(),
                grid_wf(b, m as int),
                top_rects_fit(b, m as int),
                dp@.len() == n + 1,
                forall|r: int| 0 <= r <= n ==> #[trigger] dp@[r]@.len() == m + 1,
                forall|r: int, c: int|
                    1 <= r < i && 1 <= c <= m ==> #[trigger] dp@[r]@[c] == rect2(b, 0, r, 0, c),
                forall|r: int, c: int|
                    i <= r <= n && 1 <= c <= m ==> #[trigger] dp@[r]@[c] == b[r - 1][c - 1],
                forall|r: int, c: int|
                    0 <= r <= n && 0 <= c <= m && (r == 0 || c == 0) ==> #[trigger] dp@[r]@[c]
                        == 0,
            decreases n + 1 - i,
        {
            let mut j: usize = 1;
            while j <= m
                invariant
                    1 <= i <= n,
                    1 <= j <= m + 1,
                    n < usize::MAX,
                    m < usize::MAX,
                    n == b.len(),
                    m == self.cols(),
                    grid_wf(b, m as int),
                    top_rects_fit(b, m as int),
                    dp@.len() == n + 1,
                    forall|r: int| 0 <= r <= n ==> #[trigger] dp@[r]@.len() == m + 1,
                    forall|r: int, c: int|
                        1 <= r < i && 1 <= c <= m ==> #[trigger] dp@[r]@[c] == rect2(b, 0, r, 0, c),
                    forall|c: int|
                        1 <= c < j ==> #[trigger] dp@[i as int]@[c] == rect2(b, 0, i as int, 0, c),
                    forall|c: int| j <= c <= m ==> #[trigger] dp@[i as int]@[c] == b[i - 1][c - 1],
                    forall|r: int, c: int|
                        i < r <= n && 1 <= c <= m ==> #[trigger] dp@[r]@[c] == b[r - 1][c - 1],
                    forall|r: int, c: int|
                        0 <= r <= n && 0 <= c <= m && (r == 0 || c == 0) ==> #[trigger] dp@[r]@[c]
                            == 0,
                decreases m + 1 - j,
            {
                let ghost gi = i as int;
                let ghost gj = j as int;
                let up = dp[i - 1][j];
                let diag = dp[i - 1][j - 1];
                proof {
                    if j == 1 {
                        lemma_rect2_empty_cols(b, 0, gi - 1, 0);
                    }
                    assert(up == rect2(b, 0, gi - 1, 0, gj));
                    assert(diag == rect2(b, 0, gi - 1, 0, gj - 1));
                    lemma_rect2_col_split(b, 0, gi - 1, 0, gj - 1, gj);
                    assert(rect2(b, 0, gi - 1, gj - 1, gj) == up - diag);
                    assert(i64::MIN <= rect2(b, 0, gi - 1, gj - 1, gj) <= i64::MAX);
                }
                let a = up - diag;
                let cur = dp[i][j];
                proof {
                    assert(cur == b[gi - 1][gj - 1]);
                    lemma_single_cell(b[gi - 1], gj - 1);
                    assert(rect2(b, 0, gi, gj - 1, gj) == rect2(b, 0, gi - 1, gj - 1, gj)
                        + sum_of(b[gi - 1].subrange(gj - 1, gj)));
                    assert(rect2(b, 0, gi, gj - 1, gj) == cur + a);
                    assert(i64::MIN <= rect2(b, 0, gi, gj - 1, gj) <= i64::MAX);
                }
                let bb = cur + a;
                let left = dp[i][j - 1];
                proof {
                    if j == 1 {
                        lemma_rect2_empty_cols(b, 0, gi, 0);
                    }
                    assert(left == rect2(b, 0, gi, 0, gj - 1));
                    lemma_rect2_col_split(b, 0, gi, 0, gj - 1, gj);
                    assert(rect2(b, 0, gi, 0, gj) == left + bb);
                    assert(i64::MIN <= rect2(b, 0, gi, 0, gj) <= i64::MAX);
                }
                let c = bb + left;
                dp[i][j] = c;
                proof {
                    assert(dp@[gi]@[gj] == rect2(b, 0, gi, 0, gj));
                }
                j = j + 1;
            }
            i = i + 1;
        }
        proof {
            assert forall|r: int, c: int|
                0 <= r <= n && 0 <= c <= m && (r == 0 || c == 0) implies rect2(b, 0, r, 0, c)
                == 0 by {
                if c == 0 {
                    lemma_rect2_empty_cols(b, 0, r, 0);
                }
            }
        }
        self.dp = dp;
    }

    /// The sum of base entries in rows `[i0, i1)` and columns
    /// `[j0, j1)`, read from the frozen cumulative table.
    pub fn query(&self, i0: usize, i1_: usize, j0: usize, j1_: usize) -> (r: i64)
        requires
            self.built(),
            i0 <= i1_ <= self.rows(),
            j0 <= j1_ <= self.cols(),
            i64::MIN <= rect2(self.base_grid(), i0 as int, i1_ as int, 0, j1_ as int) <= i64::MAX,
            i64::MIN <= rect2(self.base_grid(), i0 as int, i1_ as int, 0, j0 as int) <= i64::MAX,
            i64::MIN <= rect2(self.base_grid(), i0 as int, i1_ as int, j0 as int, j1_ as int)
                <= i64::MAX,
            self.base_wf(),
        ensures
            r == rect2(self.base_grid(), i0 as int, i1_ as int, j0 as int, j1_ as int),
    {
        proof {
            let g = self.base_grid();
            lemma_rect2_row_split(g, 0, i0 as int, i1_ as int, 0, j1_ as int);
            lemma_rect2_row_split(g, 0, i0 as int, i1_ as int, 0, j0 as int);
            lemma_rect2_col_split(g, i0 as int, i1_ as int, 0, j0 as int, j1_ as int);
        }
        let a = self.dp[i1_][j1_] - self.dp[i0][j1_];
        let b = self.dp[i1_][j0] - self.dp[i0][j0];
        a - b
    }
}

/// One cell of `g` with `x` added into it.
pub open spec fn acc2(g: Seq<Seq<i64>>, i: int, j: int, x: int) -> Seq<Seq<i64>> {
    g.update(i, g[i].update(j, (g[i][j] + x) as i64))
}

/// The inclusive down-column prefix over inclusive row prefixes:
/// the sum of `g[r][c]` over `r <= i`, `c <= j`.
pub open spec fn down_sum(g: Seq<Seq<i64>>, i: int, j: int) -> int
    decreases i + 1,
{
    if i < 0 {
        0
    } else {
        down_sum(g, i - 1, j) + sum_of(g[i].subrange(0, j + 1))
    }
}

/// A two-dimensional difference array: rectangle corner marks are
/// written into an `(n+1) x (m+1)` table, then `build` sweeps the
/// table right and down so that each cell holds its inclusive
/// two-dimensional prefix sum.
pub struct Imosu {
    n: usize,
    m: usize,
    dp: Vec<Vec<i64>>,
}

impl Imosu {
    /// The current table, row by row.
    pub closed spec fn table(&self) -> Seq<Seq<i64>> {
        grid_view(self.dp@)
    }

    /// The row-index bound `n`.
    pub closed spec fn n_val(&self) -> int {
        self.n as int
    }

    /// The column-index bound `m`.
    pub closed spec fn m_val(&self) -> int {
        self.m as int
    }

    /// The table has `n + 1` rows of `m + 1` entries each.
    pub closed spec fn wf(&self) -> bool {
        &&& self.n < usize::MAX
        &&& self.m < usize::MAX
        &&& self.dp@.len() == self.n + 1
        &&& forall|r: int| 0 <= r <= self.n ==> #[trigger] self.dp@[r]@.len() == self.m + 1
    }

    /// An `(n+1) x (m+1)` table of zeros.
    pub fn new(n: usize, m: usize) -> (c: Imosu)
        requires
            n < usize::MAX,
            m < usize::MAX,
        ensures
            c.wf(),
            c.n_val() == n,
            c.m_val() == m,
            forall|i: int, j: int| 0 <= i <= n && 0 <= j <= m ==> c.table()[i][j] == 0,
    {
        Imosu { n, m, dp: zero_grid(n + 1, m + 1) }
    }

    /// Marks the rectangle `[i0,i1) x [j0,j1)` with weight `x` by
    /// adding into its four corner cells, in this order: `+x` at
    /// `(i0,j0)`, `-x` at `(i0,j1)`, `-x` at `(i1,j0)`, `+x` at
    /// `(i1,j1)`.  Marks of several calls accumulate, corners the
    /// calls share included.
    pub fn add(&mut self, i0: usize, i1: usize, j0: usize, j1: usize, x: i64)
        requires
            old(self).wf(),
            i0 <= old(self).n_val(),
            i1 <= old(self).n_val(),
            j0 <= old(self).m_val(),
            j1 <= old(self).m_val(),
            i64::MIN <= old(self).table()[i0 as int][j0 as int] + x <= i64::MAX,
            i64::MIN <= acc2(old(self).table(), i0 as int, j0 as int, x as int)[i0 as int][j1 as int]
                - x <= i64::MAX,
            i64::MIN <= acc2(
                acc2(old(self).table(), i0 as int, j0 as int, x as int),
                i0 as int,
                j1 as int,
                -(x as int),
            )[i1 as int][j0 as int] - x <= i64::MAX,
            i64::MIN <= acc2(
                acc2(
                    acc2(old(self).table(), i0 as int, j0 as int, x as int),
                    i0 as int,
                    j1 as int,
                    -(x as int),
                ),
                i1 as int,
                j0 as int,
                -(x as int),
            )[i1 as int][j1 as int] + x <= i64::MAX,
        ensures
            final(self).wf(),
            final(self).n_val() == old(self).n_val(),
            final(self).m_val() == old(self).m_val(),
            final(self).table() == acc2(
                acc2(
                    acc2(
                        acc2(old(self).table(), i0 as int, j0 as int, x as int),
                        i0 as int,
                        j1 as int,
                        -(x as int),
                    ),
                    i1 as int,
                    j0 as int,
                    -(x as int),
                ),
                i1 as int,
                j1 as int,
                x as int,
            ),
    {
        let ghost g0 = grid_view(self.dp@);
        let a = self.dp[i0][j0];
        self.dp[i0][j0] = a + x;
        let ghost g1 = grid_view(self.dp@);
        proof {
            assert(g1 =~= acc2(g0, i0 as int, j0 as int, x as int));
        }
        let b = self.dp[i0][j1];
        self.dp[i0][j1] = b - x;
        let ghost g2 = grid_view(self.dp@);
        proof {
            assert(g2 =~= acc2(g1, i0 as int, j1 as int, -(x as int)));
        }
        let c = self.dp[i1][j0];
        self.dp[i1][j0] = c - x;
        let ghost g3 = grid_view(self.dp@);
        proof {
            assert(g3 =~= acc2(g2, i1 as int, j0 as int, -(x as int)));
        }
        let d = self.dp[i1][j1];
        self.dp[i1][j1] = d + x;
        proof {
            assert(grid_view(self.dp@) =~= acc2(g3, i1 as int, j1 as int, x as int));
        }
    }

    /// Sweeps the table right and then down, so that each cell ends
    /// up holding the sum of all marks above and to the left of it,
    /// inclusively.
    #[verifier::rlimit(100)]
    pub fn build(&mut self)
        requires
            old(self).wf(),
            forall|i: int, j: int|
                0 <= i <= old(self).n_val() && 0 <= j <= old(self).m_val() + 1 ==> i64::MIN
                    <= sum_of(#[trigger] old(self).table()[i].subrange(0, j)) <= i64::MAX,
            forall|i: int, j: int|
                0 <= i <= old(self).n_val() && 0 <= j <= old(self).m_val() ==> i64::MIN
                    <= #[trigger] down_sum(old(self).table(), i, j) <= i64::MAX,
        ensures
            final(self).wf(),
            final(self).n_val() == old(self).n_val(),
            final(self).m_val() == old(self).m_val(),
            forall|i: int, j: int|
                0 <= i <= old(self).n_val() && 0 <= j <= old(self).m_val()
                    ==> #[trigger] final(self).table()[i][j] == down_sum(old(self).table(), i, j),
    {
        let ghost g0 = grid_view(self.dp@);
        let n = self.n;
        let m = self.m;
        proof {
            assert(g0 == old(self).table());
            assert forall|r: int, c: int|
                0 <= r <= n && 0 <= c <= m + 1 implies i64::MIN <= sum_of(
                #[trigger] g0[r].subrange(0, c),
            ) <= i64::MAX by {
                assert(i64::MIN <= sum_of(old(self).table()[r].subrange(0, c)) <= i64::MAX);
            }
            assert forall|r: int, c: int|
                0 <= r <= n && 0 <= c <= m implies i64::MIN <= #[trigger] down_sum(g0, r, c)
                <= i64::MAX by {
                assert(i64::MIN <= down_sum(old(self).table(), r, c) <= i64::MAX);
            }
        }
        let mut i: usize = 0;
        while i < n + 1
            invariant
                i <= n + 1,
                self.n == n,
                self.m == m,
                n < usize::MAX,
                m < usize::MAX,
                g0.len() == n + 1,
                forall|r: int| 0 <= r <= n ==> #[trigger] g0[r].len() == m + 1,
                self.dp@.len() == n + 1,
                forall|r: int| 0 <= r <= n ==> #[trigger] self.dp@[r]@.len() == m + 1,
                forall|r: int, c: int|
                    0 <= r <= n && 0 <= c <= m + 1 ==> i64::MIN <= sum_of(
                        #[trigger] g0[r].subrange(0, c),
                    ) <= i64::MAX,
                forall|r: int, c: int|
                    0 <= r < i && 0 <= c <= m ==> #[trigger] self.dp@[r]@[c] == sum_of(
                        g0[r].subrange(0, c + 1),
                    ),
                forall|r: int, c: int|
                    i <= r <= n && 0 <= c <= m ==> #[trigger] self.dp@[r]@[c] == g0[r][c],
            decreases n + 1 - i,
        {
            proof {
                let row = g0[i as int];
                assert(row.len() == m + 1);
                assert(row.subrange(0, 1) =~= seq![row[0]]);
                crate::treap::lemma_sum_single(row[0]);
            }
            let mut j: usize = 0;
            while j < m
                invariant
                    i <= n,
                    j <= m,
                    self.n == n,
                    self.m == m,
                    n < usize::MAX,
                    m < usize::MAX,
                    g0.len() == n + 1,
                    forall|r: int| 0 <= r <= n ==> #[trigger] g0[r].len() == m + 1,
                    self.dp@.len() == n + 1,
                    forall|r: int| 0 <= r <= n ==> #[trigger] self.dp@[r]@.len() == m + 1,
                    forall|r: int, c: int|
                        0 <= r <= n && 0 <= c <= m + 1 ==> i64::MIN <= sum_of(
                            #[trigger] g0[r].subrange(0, c),
                        ) <= i64::MAX,
                    forall|r: int, c: int|
                        0 <= r < i && 0 <= c <= m ==> #[trigger] self.dp@[r]@[c] == sum_of(
                            g0[r].subrange(0, c + 1),
                        ),
                    forall|c: int|
                        0 <= c <= j ==> #[trigger] self.dp@[i as int]@[c] == sum_of(
                            g0[i as int].subrange(0, c + 1),
                        ),
                    forall|c: int|
                        j < c <= m ==> #[trigger] self.dp@[i as int]@[c] == g0[i as int][c],
                    forall|r: int, c: int|
                        i < r <= n && 0 <= c <= m ==> #[trigger] self.dp@[r]@[c] == g0[r][c],
                decreases m - j,
            {
                let cur = self.dp[i][j + 1];
                let pref = self.dp[i][j];
                proof {
                    let row = g0[i as int];
                    assert(row.len() == m + 1);
                    assert(row.subrange(0, j + 2).drop_last() =~= row.subrange(0, j + 1));
                    assert(row.subrange(0, j + 2).last() == row[j + 1]);
                    assert(sum_of(row.subrange(0, j + 2)) == pref + cur);
                }
                self.dp[i][j + 1] = cur + pref;
                j = j + 1;
            }
            i = i + 1;
        }
        let ghost mid = grid_view(self.dp@);
        proof {
            assert(mid.len() == self.dp@.len());
            assert forall|r: int, c: int| 0 <= r <= n && 0 <= c <= m implies #[trigger] mid[r][c]
                == sum_of(g0[r].subrange(0, c + 1)) by {
                assert(mid[r] == self.dp@[r]@);
                assert(self.dp@[r]@[c] == sum_of(g0[r].subrange(0, c + 1)));
            }
            assert forall|r: int, c: int|
                0 <= r <= n && 0 <= c <= m implies #[trigger] self.dp@[r]@[c] == mid[r][c] by {
                assert(mid[r] == self.dp@[r]@);
            }
        }
        let mut j: usize = 0;
        while j < m + 1
            invariant
                j <= m + 1,
                self.n == n,
                self.m == m,
                n < usize::MAX,
                m < usize::MAX,
                g0.len() == n + 1,
                forall|r: int| 0 <= r <= n ==> #[trigger] g0[r].len() == m + 1,
                mid.len() == n + 1,
                self.dp@.len() == n + 1,
                forall|r: int| 0 <= r <= n ==> #[trigger] self.dp@[r]@.len() == m + 1,
                forall|r: int, c: int|
                    0 <= r <= n && 0 <= c <= m ==> #[trigger] mid[r][c] == sum_of(
                        g0[r].subrange(0, c + 1),
                    ),
                forall|r: int, c: int|
                    0 <= r <= n && 0 <= c <= m ==> i64::MIN <= #[trigger] down_sum(g0, r, c)
                        <= i64::MAX,
                forall|r: int, c: int|
                    0 <= r <= n && 0 <= c < j ==> #[trigger] self.dp@[r]@[c] == down_sum(g0, r, c),
                forall|r: int, c: int|
                    0 <= r <= n && j <= c <= m ==> #[trigger] self.dp@[r]@[c] == mid[r][c],
            decreases m + 1 - j,
        {
            proof {
                assert(down_sum(g0, -1, j as int) == 0);
                assert(down_sum(g0, 0, j as int) == sum_of(g0[0].subrange(0, j + 1)));
                assert(self.dp@[0]@[j as int] == mid[0][j as int]);
            }
            let mut i: usize = 0;
            while i < n
                invariant
                    i <= n,
                    j <= m,
                    self.n == n,
                    self.m == m,
                    n < usize::MAX,
                    m < usize::MAX,
                    g0.len() == n + 1,
                    forall|r: int| 0 <= r <= n ==> #[trigger] g0[r].len() == m + 1,
                    mid.len() == n + 1,
                    self.dp@.len() == n + 1,
                    forall|r: int| 0 <= r <= n ==> #[trigger] self.dp@[r]@.len() == m + 1,
                    forall|r: int, c: int|
                        0 <= r <= n && 0 <= c <= m ==> #[trigger] mid[r][c] == sum_of(
                            g0[r].subrange(0, c + 1),
                        ),
                    forall|r: int, c: int|
                        0 <= r <= n && 0 <= c <= m ==> i64::MIN <= #[trigger] down_sum(g0, r, c)
                            <= i64::MAX,
                    forall|r: int, c: int|
                        0 <= r <= n && 0 <= c < j ==> #[trigger] self.dp@[r]@[c] == down_sum(
                            g0,
                            r,
                            c,
                        ),
                    forall|r: int|
                        0 <= r <= i ==> #[trigger] self.dp@[r]@[j as int] == down_sum(
                            g0,
                            r,
                            j as int,
                        ),
                    forall|r: int|
                        i < r <= n ==> #[trigger] self.dp@[r]@[j as int] == mid[r][j as int],
                    forall|r: int, c: int|
                        0 <= r <= n && j < c <= m ==> #[trigger] self.dp@[r]@[c] == mid[r][c],
                decreases n - i,
            {
                let below = self.dp[i + 1][j];
                let acc = self.dp[i][j];
                proof {
                    assert(below == mid[i + 1][j as int]);
                    assert(acc == down_sum(g0, i as int, j as int));
                    assert(down_sum(g0, i + 1, j as int) == down_sum(g0, i as int, j as int)
                        + sum_of(g0[i + 1].subrange(0, j + 1)));
                }
                self.dp[i + 1][j] = below + acc;
                i = i + 1;
            }
            j = j + 1;
        }
    }

    /// The table entry in row `i`, column `j`.
    pub fn get(&self, i: usize, j: usize) -> (r: i64)
        requires
            self.wf(),
            i <= self.n_val(),
            j <= self.m_val(),
        ensures
            r == self.table()[i as int][j as int],
    {
        self.dp[i][j]
    }
}

} // verus!
