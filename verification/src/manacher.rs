//! Manacher's algorithm: the maximal odd palindrome radius around
//! every position of a sequence, in linear time.

use vstd::prelude::*;

verus! {

/// The `r` positions around `c` match pairwise: `s[c-d] == s[c+d]`
/// for every `d < r`.
pub open spec fn pal_at(s: Seq<usize>, c: int, r: int) -> bool {
    forall|d: int| 0 <= d < r ==> #[trigger] s[c - d] == s[c + d]
}

/// `r` is the exact palindrome radius at `c`: the window of width
/// `r` matches, and it can be pushed no further — it hits an end of
/// the sequence or a mismatch.
pub open spec fn radius_ok(s: Seq<usize>, c: int, r: int) -> bool {
    &&& 1 <= r <= c + 1
    &&& c + r <= s.len()
    &&& pal_at(s, c, r)
    &&& (r == c + 1 || c + r == s.len() || s[c - r] != s[c + r])
}

/// A shorter match window still matches.
proof fn lemma_pal_weaken(s: Seq<usize>, c: int, r1: int, r2: int)
    requires
        pal_at(s, c, r1),
        r2 <= r1,
    ensures
        pal_at(s, c, r2),
{
}

/// Mirroring inside a palindrome: a window matching around `i - k`
/// also matches around `i + k`, as long as it stays strictly inside
/// the window matching around `i`.
proof fn lemma_mirror_pal(s: Seq<usize>, i: int, j: int, k: int, r: int)
    requires
        1 <= k <= i,
        0 <= j <= i + 1,
        i + j <= s.len(),
        pal_at(s, i, j),
        pal_at(s, i - k, r),
        0 <= r,
        k + r <= j,
    ensures
        pal_at(s, i + k, r),
{
    assert forall|d: int| 0 <= d < r implies #[trigger] s[(i + k) - d] == s[(i + k) + d] by {
        if d == 0 {
        } else {
            assert(s[i - (k + d)] == s[i + (k + d)]);
            assert(s[(i - k) - d] == s[(i - k) + d]);
            if d <= k {
                assert(s[i - (k - d)] == s[i + (k - d)]);
            } else {
                assert(s[i - (d - k)] == s[i + (d - k)]);
            }
        }
    }
}

/// Mirroring a blocker: if the window around `i - k` is stopped by a
/// mismatch, and it sits strictly inside the window around `i`, the
/// mirrored window around `i + k` is stopped by the mirrored
/// mismatch.
proof fn lemma_mirror_blocker(s: Seq<usize>, i: int, j: int, k: int, r: int)
    requires
        1 <= k <= i,
        0 <= j <= i + 1,
        i + j <= s.len(),
        pal_at(s, i, j),
        1 <= r,
        k + r < j,
        (i - k) - r >= 0,
        (i - k) + r < s.len(),
        s[(i - k) - r] != s[(i - k) + r],
    ensures
        s[(i + k) - r] != s[(i + k) + r],
        (i + k) - r >= 0,
        (i + k) + r < s.len(),
{
    assert(s[i - (k + r)] == s[i + (k + r)]);
    if r < k {
        assert(s[i - (k - r)] == s[i + (k - r)]);
    } else if r > k {
        assert(s[i - (r - k)] == s[i + (r - k)]);
    }
}

/// The maximal odd palindrome radius at every position: `r[c]` is
/// the largest width such that the `r[c]` pairs of positions around
/// `c` match, and it is maximal — blocked by a sequence end or a
/// mismatch.
pub fn manacher(s: &Vec<usize>) -> (res: Vec<usize>)
    ensures
        res@.len() == s@.len(),
        forall|c: int| 0 <= c < s@.len() ==> radius_ok(s@, c, #[trigger] res@[c] as int),
{
    let n = s.len();
    let mut res: Vec<usize> = Vec::new();
    let mut t: usize = 0;
    while t < n
        invariant
            t <= n,
            res@.len() == t,
        decreases n - t,
    {
        res.push(0);
        t = t + 1;
    }
    let mut i: usize = 0;
    let mut j: usize = 0;
    while i < n
        invariant
            n == s@.len(),
            res@.len() == n,
            i + j <= n,
            i < n ==> j <= i + 1,
            i < n ==> pal_at(s@, i as int, j as int),
            forall|c: int| 0 <= c < i && c < n ==> radius_ok(s@, c, #[trigger] res@[c] as int),
        decreases n - i,
    {
        while i >= j && i + j < n && s[i - j] == s[i + j]
            invariant
                n == s@.len(),
                res@.len() == n,
                i < n,
                j <= i + 1,
                i + j <= n,
                pal_at(s@, i as int, j as int),
                forall|c: int| 0 <= c < i ==> radius_ok(s@, c, #[trigger] res@[c] as int),
            decreases n - i - j,
        {
            proof {
                assert forall|d: int| 0 <= d < j + 1 implies #[trigger] s@[i as int - d] == s@[i as int + d] by {
                    if d < j {
                        assert(s@[i as int - d] == s@[i as int + d]);
                    }
                }
            }
            j = j + 1;
        }
        proof {
            if j == 0 {
                assert(i >= 0 && i + 0 < n && s@[i as int] == s@[i as int]);
                assert(false);
            }
        }
        res.set(i, j);
        let ghost blocked = (j == i + 1 || i + j == n || s@[i as int - j as int] != s@[i as int
            + j as int]);
        proof {
            assert(blocked);
            assert(radius_ok(s@, i as int, j as int));
        }
        let mut k: usize = 1;
        while i >= k && i + k < n && k + res[i - k] < j
            invariant
                n == s@.len(),
                res@.len() == n,
                i < n,
                1 <= j <= i + 1,
                i + j <= n,
                1 <= k <= j,
                pal_at(s@, i as int, j as int),
                res@[i as int] == j,
                forall|c: int|
                    0 <= c < i + k && c < n ==> radius_ok(s@, c, #[trigger] res@[c] as int),
            decreases j - k,
        {
            let rv = res[i - k];
            proof {
                let gi = i as int;
                let gk = k as int;
                let gr = rv as int;
                assert(radius_ok(s@, gi - gk, gr));
                lemma_mirror_pal(s@, gi, j as int, gk, gr);
                assert((gi - gk) - gr > gi - j as int);
                assert((gi - gk) + gr < gi + j as int);
                assert(s@[(gi - gk) - gr] != s@[(gi - gk) + gr]);
                lemma_mirror_blocker(s@, gi, j as int, gk, gr);
                assert(radius_ok(s@, gi + gk, gr));
            }
            res.set(i + k, rv);
            proof {
                assert(k + rv < j);
                assert(k + 1 <= j);
            }
            k = k + 1;
        }
        proof {
            let gi = i as int;
            let gj = j as int;
            let gk = k as int;
            if i + k < n {
                if i >= k {
                    // the copy loop stopped because the mirrored
                    // radius reaches the window edge
                    let gr = res@[gi - gk] as int;
                    assert(radius_ok(s@, gi - gk, gr));
                    assert(gk + gr >= gj);
                    if gj - gk > 0 {
                        lemma_pal_weaken(s@, gi - gk, gr, gj - gk);
                        lemma_mirror_pal(s@, gi, gj, gk, gj - gk);
                    }
                } else {
                    assert(gk == gi + 1);
                    assert(gj == gi + 1);
                }
            }
        }
        i = i + k;
        j = j - k;
    }
    res
}

} // verus!
