//! Rolling hashes over sequences of 64-bit words: a multi-modulus
//! polynomial hash with precomputed prefix tables, and a single
//! fixed-modulus variant over the Mersenne prime `2^61 - 1`.

use crate::xorshift::Xorshift;
use vstd::prelude::*;

verus! {

/// The polynomial prefix hash after `i` elements:
/// `h(0) = 0`, `h(i+1) = (h(i) + s[i]) * b mod m`.
pub open spec fn ph(s: Seq<u64>, b: int, m: int, i: int) -> int
    decreases i,
{
    if i <= 0 {
        0
    } else {
        ((ph(s, b, m, i - 1) + s[i - 1]) * b) % m
    }
}

/// The stored power table: `p(0) = 1`, `p(i+1) = p(i) * b mod m`.
pub open spec fn pw(b: int, m: int, i: int) -> int
    decreases i,
{
    if i <= 0 {
        1
    } else {
        (pw(b, m, i - 1) * b) % m
    }
}

/// The window hash one base/modulus pair contributes for `[l, r)`.
pub open spec fn pair_term(s: Seq<u64>, b: int, m: int, l: int, r: int) -> int {
    (ph(s, b, m, r) + m - (ph(s, b, m, l) * pw(b, m, r - l)) % m) % m
}

/// The exclusive-or of the window hashes of the first `k` pairs.
pub open spec fn combined(s: Seq<u64>, ps: Seq<(u64, u64)>, l: int, r: int, k: int) -> u64
    decreases k,
{
    if k <= 0 {
        0u64
    } else {
        combined(s, ps, l, r, k - 1) ^ (pair_term(s, ps[k - 1].0 as int, ps[k - 1].1 as int, l, r)
            as u64)
    }
}

/// The machine limits under which one base/modulus pair can be
/// tabulated over `s` without overflow.
pub open spec fn pair_ok(b: u64, m: u64, s: Seq<u64>) -> bool {
    &&& 1 <= m
    &&& 2 * (m as int) - 1 <= u64::MAX
    &&& (m as int - 1) * (m as int - 1) <= u64::MAX
    &&& b as int * 1 <= u64::MAX
    &&& (m as int - 1) * (b as int) <= u64::MAX
    &&& forall|i: int|
        0 <= i < s.len() ==> (m as int - 1) + (#[trigger] s[i]) <= u64::MAX && ((m as int - 1) + (
        s[i] as int)) * (b as int) <= u64::MAX
}

/// Prefix hashes lie below the modulus; powers do from step one on.
proof fn lemma_ph_pw_bounds(s: Seq<u64>, b: int, m: int, i: int)
    requires
        m >= 1,
        i >= 0,
    ensures
        0 <= ph(s, b, m, i) < m,
        0 <= pw(b, m, i),
        i == 0 ==> pw(b, m, i) == 1,
        i >= 1 ==> pw(b, m, i) < m,
    decreases i,
{
    if i > 0 {
        lemma_ph_pw_bounds(s, b, m, i - 1);
    }
}

/// The prefix hash reads only the first `i` elements.
proof fn lemma_ph_prefix(u1: Seq<u64>, u2: Seq<u64>, b: int, m: int, i: int)
    requires
        i <= u1.len(),
        i <= u2.len(),
        forall|k: int| 0 <= k < i ==> u1[k] == u2[k],
    ensures
        ph(u1, b, m, i) == ph(u2, b, m, i),
    decreases i,
{
    if i > 0 {
        lemma_ph_prefix(u1, u2, b, m, i - 1);
    }
}

/// Telescoping: the prefix hash at `i >= l` combines the hash of
/// the suffix window `[l, i)` with the prefix hash at `l`, scaled by
/// the matching power of the base.
proof fn lemma_ph_decompose(s: Seq<u64>, b: int, m: int, l: int, i: int)
    requires
        m >= 1,
        0 <= l <= i <= s.len(),
    ensures
        ph(s, b, m, i) == (ph(s.subrange(l, s.len() as int), b, m, i - l) + ph(s, b, m, l) * pw(
            b,
            m,
            i - l,
        )) % m,
    decreases i - l,
{
    let sub = s.subrange(l, s.len() as int);
    let a = ph(s, b, m, l);
    if i == l {
        lemma_ph_pw_bounds(s, b, m, l);
        vstd::arithmetic::div_mod::lemma_small_mod(a as nat, m as nat);
    } else {
        lemma_ph_decompose(s, b, m, l, i - 1);
        let hi = ph(sub, b, m, i - 1 - l);
        let pi = pw(b, m, i - 1 - l);
        let x = hi + a * pi;
        let xi = s[i - 1];
        assert(sub[i - 1 - l] == s[i - 1]);
        // peel the reduction off the accumulator before multiplying
        vstd::arithmetic::div_mod::lemma_add_mod_noop_right(xi as int, x, m);
        assert((x % m + xi) % m == (x + xi) % m);
        vstd::arithmetic::div_mod::lemma_mul_mod_noop_left(x % m + xi, b, m);
        vstd::arithmetic::div_mod::lemma_mul_mod_noop_left(x + xi, b, m);
        assert(((x % m + xi) * b) % m == ((x + xi) * b) % m);
        assert(ph(s, b, m, i) == ((x + xi) * b) % m);
        // regroup the product
        assert((x + xi) * b == (hi + xi) * b + a * (pi * b)) by (nonlinear_arith)
            requires
                x == hi + a * pi,
        ;
        // reduce each summand
        let u = (hi + xi) * b;
        let w = pi * b;
        vstd::arithmetic::div_mod::lemma_mul_mod_noop_right(a, w, m);
        vstd::arithmetic::div_mod::lemma_add_mod_noop(u, a * w, m);
        vstd::arithmetic::div_mod::lemma_add_mod_noop(u % m, (a * w) % m, m);
        vstd::arithmetic::div_mod::lemma_mul_mod_noop_right(a, w % m, m);
        vstd::arithmetic::div_mod::lemma_add_mod_noop_right(u % m, a * (w % m), m);
        assert(ph(sub, b, m, i - l) == u % m);
        assert(pw(b, m, i - l) == w % m);
        assert((u + a * w) % m == (u % m + a * (w % m)) % m) by {
            assert((u % m + (a * w) % m) % m == (u + a * w) % m);
            assert(((a * (w % m)) % m) == (a * w) % m);
            vstd::arithmetic::div_mod::lemma_add_mod_noop_right(u % m, a * (w % m), m);
            vstd::arithmetic::div_mod::lemma_add_mod_noop_right(u % m, (a * w) % m, m);
        }
    }
}

/// One pair's window hash is the fresh hash of the window's own
/// contents.
proof fn lemma_pair_term_window(s: Seq<u64>, b: int, m: int, l: int, r: int)
    requires
        m >= 1,
        0 <= l <= r <= s.len(),
    ensures
        pair_term(s, b, m, l, r) == ph(s.subrange(l, r), b, m, r - l),
    decreases r - l,
{
    let sub = s.subrange(l, s.len() as int);
    let win = s.subrange(l, r);
    lemma_ph_decompose(s, b, m, l, r);
    assert forall|k: int| 0 <= k < r - l implies win[k] == sub[k] by {}
    lemma_ph_prefix(win, sub, b, m, r - l);
    let h = ph(win, b, m, r - l);
    let a = ph(s, b, m, l);
    let p = pw(b, m, r - l);
    let q = (a * p) % m;
    lemma_ph_pw_bounds(win, b, m, r - l);
    vstd::arithmetic::div_mod::lemma_mod_bound(a * p, m);
    // ph(s, r) == (h + a * p) % m == (h + q) % m
    vstd::arithmetic::div_mod::lemma_add_mod_noop_right(h, a * p, m);
    assert(ph(s, b, m, r) == (h + q) % m);
    // pair_term == ((h + q) % m + (m - q)) % m == (h + m) % m == h
    vstd::arithmetic::div_mod::lemma_add_mod_noop(h + q, m - q, m);
    vstd::arithmetic::div_mod::lemma_add_mod_noop((h + q) % m, (m - q) % m, m);
    vstd::arithmetic::div_mod::lemma_mod_multiples_vanish(1, h, m);
    vstd::arithmetic::div_mod::lemma_small_mod(h as nat, m as nat);
    assert(((h + q) % m + (m - q)) % m == (h + q + (m - q)) % m) by {
        vstd::arithmetic::div_mod::lemma_add_mod_noop((h + q), (m - q), m);
        assert(((h + q) % m + (m - q) % m) % m == (h + q + (m - q)) % m);
        vstd::arithmetic::div_mod::lemma_add_mod_noop_right((h + q) % m, m - q, m);
        vstd::arithmetic::div_mod::lemma_add_mod_noop_right((h + q) % m, (m - q) % m, m);
    }
}

/// Law: the combined window hash reads only the window's contents —
/// two windows holding the same values, against the same pair list,
/// hash to the same word.
pub proof fn lemma_window_hash_extensional(
    s1: Seq<u64>,
    s2: Seq<u64>,
    ps: Seq<(u64, u64)>,
    l1: int,
    r1: int,
    l2: int,
    r2: int,
)
    requires
        0 <= l1 <= r1 <= s1.len(),
        0 <= l2 <= r2 <= s2.len(),
        s1.subrange(l1, r1) == s2.subrange(l2, r2),
        forall|p: int| 0 <= p < ps.len() ==> (#[trigger] ps[p]).1 >= 1,
    ensures
        combined(s1, ps, l1, r1, ps.len() as int) == combined(s2, ps, l2, r2, ps.len() as int),
{
    assert forall|k: int| 0 <= k <= ps.len() implies combined(s1, ps, l1, r1, k) == combined(
        s2,
        ps,
        l2,
        r2,
        k,
    ) by {
        lemma_combined_extensional_upto(s1, s2, ps, l1, r1, l2, r2, k);
    }
}

proof fn lemma_combined_extensional_upto(
    s1: Seq<u64>,
    s2: Seq<u64>,
    ps: Seq<(u64, u64)>,
    l1: int,
    r1: int,
    l2: int,
    r2: int,
    k: int,
)
    requires
        0 <= l1 <= r1 <= s1.len(),
        0 <= l2 <= r2 <= s2.len(),
        s1.subrange(l1, r1) == s2.subrange(l2, r2),
        forall|p: int| 0 <= p < ps.len() ==> (#[trigger] ps[p]).1 >= 1,
        k <= ps.len(),
    ensures
        combined(s1, ps, l1, r1, k) == combined(s2, ps, l2, r2, k),
    decreases k,
{
    if k > 0 {
        lemma_combined_extensional_upto(s1, s2, ps, l1, r1, l2, r2, k - 1);
        let b = ps[k - 1].0 as int;
        let m = ps[k - 1].1 as int;
        lemma_pair_term_window(s1, b, m, l1, r1);
        lemma_pair_term_window(s2, b, m, l2, r2);
        lemma_ph_prefix(s1.subrange(l1, r1), s2.subrange(l2, r2), b, m, r1 - l1);
    }
}

/// A multi-modulus rolling hash: for each base/modulus pair, a table
/// of prefix hashes and powers, from which any window hash is read
/// in constant time.
pub struct RollingHash {
    hash_pow_list: Vec<(u64, Vec<(u64, u64)>)>,
    words: Ghost<Seq<u64>>,
    bases: Ghost<Seq<(u64, u64)>>,
}

impl RollingHash {
    /// The hashed sequence.
    pub closed spec fn contents(&self) -> Seq<u64> {
        self.words@
    }

    /// The base/modulus pairs in use.
    pub closed spec fn pair_list(&self) -> Seq<(u64, u64)> {
        self.bases@
    }

    /// The tables match the hashed sequence and the pairs.
    pub closed spec fn wf(&self) -> bool {
        &&& self.hash_pow_list@.len() == self.bases@.len()
        &&& forall|p: int|
            0 <= p < self.bases@.len() ==> pair_ok(
                self.bases@[p].0,
                (#[trigger] self.bases@[p]).1,
                self.words@,
            )
        &&& forall|p: int|
            0 <= p < self.bases@.len() ==> (#[trigger] self.hash_pow_list@[p]).0
                == self.bases@[p].1
        &&& forall|p: int|
            0 <= p < self.bases@.len() ==> (#[trigger] self.hash_pow_list@[p]).1@.len()
                == self.words@.len() + 1
        &&& forall|p: int, i: int|
            0 <= p < self.bases@.len() && 0 <= i <= self.words@.len()
                ==> ((#[trigger] self.hash_pow_list@[p].1@[i]).0 == ph(
                self.words@,
                self.bases@[p].0 as int,
                self.bases@[p].1 as int,
                i,
            ) && self.hash_pow_list@[p].1@[i].1 == pw(
                self.bases@[p].0 as int,
                self.bases@[p].1 as int,
                i,
            ))
    }

    /// Tables over `s` for the library's two fixed base/modulus
    /// pairs.
    pub fn new(s: &Vec<u64>) -> (r: RollingHash)
        requires
            pair_ok(1009, 1_000_000_007, s@),
            pair_ok(9973, 999_999_937, s@),
        ensures
            r.wf(),
            r.contents() == s@,
            r.pair_list() == seq![(1009u64, 1_000_000_007u64), (9973u64, 999_999_937u64)],
    {
        let mut pairs: Vec<(u64, u64)> = Vec::new();
        pairs.push((1009, 1_000_000_007));
        pairs.push((9973, 999_999_937));
        proof {
            assert(pairs@ =~= seq![(1009u64, 1_000_000_007u64), (9973u64, 999_999_937u64)]);
        }
        RollingHash::with_base_mod_pairs(s, &pairs)
    }

    /// Tables over `s` for caller-chosen base/modulus pairs.
    pub fn with_base_mod_pairs(s: &Vec<u64>, base_mod_pairs: &Vec<(u64, u64)>) -> (r: RollingHash)
        requires
            forall|p: int|
                0 <= p < base_mod_pairs@.len() ==> pair_ok(
                    (#[trigger] base_mod_pairs@[p]).0,
                    base_mod_pairs@[p].1,
                    s@,
                ),
        ensures
            r.wf(),
            r.contents() == s@,
            r.pair_list() == base_mod_pairs@,
    {
        let np = base_mod_pairs.len();
        let n = s.len();
        let mut hp_list: Vec<(u64, Vec<(u64, u64)>)> = Vec::new();
        let mut p: usize = 0;
        while p < np
            invariant
                p <= np,
                np == base_mod_pairs@.len(),
                n == s@.len(),
                forall|q: int|
                    0 <= q < np ==> pair_ok(
                        (#[trigger] base_mod_pairs@[q]).0,
                        base_mod_pairs@[q].1,
                        s@,
                    ),
                hp_list@.len() == p,
                forall|q: int|
                    0 <= q < p ==> (#[trigger] hp_list@[q]).0 == base_mod_pairs@[q].1,
                forall|q: int| 0 <= q < p ==> (#[trigger] hp_list@[q]).1@.len() == n + 1,
                forall|q: int, i: int|
                    0 <= q < p && 0 <= i <= n ==> ((#[trigger] hp_list@[q].1@[i]).0 == ph(
                        s@,
                        base_mod_pairs@[q].0 as int,
                        base_mod_pairs@[q].1 as int,
                        i,
                    ) && hp_list@[q].1@[i].1 == pw(
                        base_mod_pairs@[q].0 as int,
                        base_mod_pairs@[q].1 as int,
                        i,
                    )),
            decreases np - p,
        {
            let base = base_mod_pairs[p].0;
            let m = base_mod_pairs[p].1;
            let mut hp: Vec<(u64, u64)> = Vec::new();
            hp.push((0, 1));
            let mut i: usize = 0;
            while i < n
                invariant
                    i <= n,
                    n == s@.len(),
                    base == base_mod_pairs@[p as int].0,
                    m == base_mod_pairs@[p as int].1,
                    p < base_mod_pairs@.len(),
                    pair_ok(base, m, s@),
                    hp@.len() == i + 1,
                    forall|k: int|
                        0 <= k <= i ==> ((#[trigger] hp@[k]).0 == ph(s@, base as int, m as int, k)
                            && hp@[k].1 == pw(base as int, m as int, k)),
                decreases n - i,
            {
                let x = s[i];
                let h = hp[i].0;
                let pv = hp[i].1;
                proof {
                    lemma_ph_pw_bounds(s@, base as int, m as int, i as int);
                    assert((m as int - 1) + (s@[i as int] as int) <= u64::MAX);
                    assert(((m as int - 1) + (s@[i as int] as int)) * (base as int) <= u64::MAX);
                    assert((h + x) * base <= ((m as int - 1) + (s@[i as int] as int)) * (
                    base as int)) by (nonlinear_arith)
                        requires
                            0 <= h < m as int,
                            x == s@[i as int],
                            0 <= base,
                    ;
                    if i == 0 {
                        assert(pv == 1);
                        assert(pv * base <= u64::MAX);
                    } else {
                        assert(pv < m);
                        assert(pv * base <= (m as int - 1) * (base as int)) by (nonlinear_arith)
                            requires
                                0 <= pv <= m as int - 1,
                                0 <= base,
                        ;
                    }
                }
                let nh = (h + x) * base % m;
                let npv = pv * base % m;
                hp.push((nh, npv));
                i = i + 1;
            }
            hp_list.push((m, hp));
            p = p + 1;
        }
        RollingHash { hash_pow_list: hp_list, words: Ghost(s@), bases: Ghost(base_mod_pairs@) }
    }

    /// The combined window hash of positions `[l, r)`: the
    /// exclusive-or, over all pairs, of
    /// `(h(r) + m - h(l) * p(r - l) mod m) mod m`.
    pub fn get(&self, l: usize, r: usize) -> (res: u64)
        requires
            self.wf(),
            l <= r <= self.contents().len(),
        ensures
            res == combined(
                self.contents(),
                self.pair_list(),
                l as int,
                r as int,
                self.pair_list().len() as int,
            ),
    {
        let np = self.hash_pow_list.len();
        let mut acc: u64 = 0;
        let mut p: usize = 0;
        while p < np
            invariant
                p <= np,
                self.wf(),
                l <= r <= self.contents().len(),
                np == self.hash_pow_list@.len(),
                acc == combined(self.contents(), self.pair_list(), l as int, r as int, p as int),
            decreases np - p,
        {
            let m = self.hash_pow_list[p].0;
            let hr = self.hash_pow_list[p].1[r].0;
            let hl = self.hash_pow_list[p].1[l].0;
            let pd = self.hash_pow_list[p].1[r - l].1;
            proof {
                let b = self.pair_list()[p as int].0 as int;
                let mi = self.pair_list()[p as int].1 as int;
                lemma_ph_pw_bounds(self.contents(), b, mi, l as int);
                lemma_ph_pw_bounds(self.contents(), b, mi, r as int);
                lemma_ph_pw_bounds(self.contents(), b, mi, r as int - l as int);
                if r == l {
                    assert(pd == 1);
                    assert(hl * pd <= (mi - 1) * 1) by (nonlinear_arith)
                        requires
                            0 <= hl <= mi - 1,
                            pd == 1,
                    ;
                } else {
                    assert(hl * pd <= (mi - 1) * (mi - 1)) by (nonlinear_arith)
                        requires
                            0 <= hl <= mi - 1,
                            0 <= pd <= mi - 1,
                    ;
                }
            }
            let term = (hr + m - hl * pd % m) % m;
            acc = acc ^ term;
            p = p + 1;
        }
        acc
    }

    /// The number of hashed words, read from the first table; zero
    /// when no base/modulus pair is in use.
    pub fn len(&self) -> (n: usize)
        requires
            self.wf(),
        ensures
            self.pair_list().len() > 0 ==> n == self.contents().len(),
            self.pair_list().len() == 0 ==> n == 0,
    {
        if self.hash_pow_list.len() == 0 {
            0
        } else {
            self.hash_pow_list[0].1.len() - 1
        }
    }
}

/// The low 30-bit mask.
pub const ROLIHA_MASK30: u64 = 0x3FFF_FFFF;

/// The low 31-bit mask.
pub const ROLIHA_MASK31: u64 = 0x7FFF_FFFF;

/// The Mersenne prime `2^61 - 1`.
pub const ROLIHA_MOD: u64 = 0x1FFF_FFFF_FFFF_FFFF;

/// A positive multiple of the modulus large enough to keep the
/// window subtraction above zero.
pub const ROLIHA_P: u64 = ROLIHA_MOD * 7;

/// The prefix hash modulo `2^61 - 1`:
/// `h(0) = 0`, `h(i+1) = (h(i) * b + s[i]) mod (2^61 - 1)`.
pub open spec fn rh61(s: Seq<u64>, b: int, i: int) -> int
    decreases i,
{
    if i <= 0 {
        0
    } else {
        (rh61(s, b, i - 1) * b + s[i - 1]) % (ROLIHA_MOD as int)
    }
}

/// `b^i mod (2^61 - 1)`, with `pow61(b, 0) = 1`.
pub open spec fn pow61(b: int, i: int) -> int
    decreases i,
{
    if i <= 0 {
        1
    } else {
        (pow61(b, i - 1) * b) % (ROLIHA_MOD as int)
    }
}

/// The canonical window hash of `[l, r)` modulo `2^61 - 1`.
pub open spec fn win61(s: Seq<u64>, b: int, l: int, r: int) -> int {
    (rh61(s, b, r) + ROLIHA_MOD - (rh61(s, b, l) * pow61(b, r - l)) % (ROLIHA_MOD as int)) % (
    ROLIHA_MOD as int)
}

proof fn lemma_rh61_bounds(s: Seq<u64>, b: int, i: int)
    ensures
        0 <= rh61(s, b, i) < ROLIHA_MOD,
        0 <= pow61(b, i),
        i == 0 ==> pow61(b, i) == 1,
        i >= 1 ==> pow61(b, i) < ROLIHA_MOD,
    decreases i,
{
    if i > 0 {
        lemma_rh61_bounds(s, b, i - 1);
    }
}

/// The prefix hash reads only the first `i` elements.
proof fn lemma_rh61_prefix(u1: Seq<u64>, u2: Seq<u64>, b: int, i: int)
    requires
        i <= u1.len(),
        i <= u2.len(),
        forall|k: int| 0 <= k < i ==> u1[k] == u2[k],
    ensures
        rh61(u1, b, i) == rh61(u2, b, i),
    decreases i,
{
    if i > 0 {
        lemma_rh61_prefix(u1, u2, b, i - 1);
    }
}

/// Telescoping for the Mersenne-prime hash: the prefix hash at
/// `i >= l` combines the hash of the window `[l, i)` with the prefix
/// hash at `l`, scaled by the matching power of the base.
proof fn lemma_rh61_decompose(s: Seq<u64>, b: int, l: int, i: int)
    requires
        0 <= l <= i <= s.len(),
    ensures
        rh61(s, b, i) == (rh61(s.subrange(l, s.len() as int), b, i - l) + rh61(s, b, l) * pow61(
            b,
            i - l,
        )) % (ROLIHA_MOD as int),
    decreases i - l,
{
    let m = ROLIHA_MOD as int;
    let sub = s.subrange(l, s.len() as int);
    let a = rh61(s, b, l);
    if i == l {
        lemma_rh61_bounds(s, b, l);
        vstd::arithmetic::div_mod::lemma_small_mod(a as nat, m as nat);
        assert(rh61(sub, b, 0) == 0);
        assert(pow61(b, 0) == 1);
        assert(rh61(s, b, i) == (rh61(sub, b, i - l) + a * pow61(b, i - l)) % m);
    } else {
        lemma_rh61_decompose(s, b, l, i - 1);
        let hi = rh61(sub, b, i - 1 - l);
        let pi = pow61(b, i - 1 - l);
        let x = hi + a * pi;
        let xi = s[i - 1];
        assert(sub[i - 1 - l] == s[i - 1]);
        vstd::arithmetic::div_mod::lemma_mul_mod_noop_left(x, b, m);
        vstd::arithmetic::div_mod::lemma_add_mod_noop_right(xi as int, (x % m) * b, m);
        vstd::arithmetic::div_mod::lemma_add_mod_noop_right(xi as int, x * b, m);
        assert(((x % m) * b + xi) % m == (x * b + xi) % m);
        assert(rh61(s, b, i) == (x * b + xi) % m);
        assert(x * b + xi == (hi * b + xi) + a * (pi * b)) by (nonlinear_arith)
            requires
                x == hi + a * pi,
        ;
        let u = hi * b + xi;
        let w = pi * b;
        vstd::arithmetic::div_mod::lemma_mul_mod_noop_right(a, w, m);
        vstd::arithmetic::div_mod::lemma_add_mod_noop(u, a * w, m);
        vstd::arithmetic::div_mod::lemma_add_mod_noop(u % m, (a * w) % m, m);
        vstd::arithmetic::div_mod::lemma_mul_mod_noop_right(a, w % m, m);
        assert(rh61(sub, b, i - l) == u % m);
        assert(pow61(b, i - l) == w % m);
        assert((u + a * w) % m == (u % m + a * (w % m)) % m) by {
            assert((u % m + (a * w) % m) % m == (u + a * w) % m);
            assert(((a * (w % m)) % m) == (a * w) % m);
            vstd::arithmetic::div_mod::lemma_add_mod_noop_right(u % m, a * (w % m), m);
            vstd::arithmetic::div_mod::lemma_add_mod_noop_right(u % m, (a * w) % m, m);
        }
        assert(rh61(s, b, i) == ((x % m) * b + xi) % m);
        assert(rh61(s, b, i) == (x * b + xi) % m);
        assert(rh61(s, b, i) == (u + a * w) % m);
        assert(rh61(s, b, i) == (rh61(sub, b, i - l) + a * pow61(b, i - l)) % m);
    }
}

/// Law: the canonical window hash modulo `2^61 - 1` reads only the
/// window's contents — two windows holding the same values, under
/// the same base, have the same canonical hash.  `get` returns a
/// value congruent to it, so equal windows always hash congruently.
pub proof fn lemma_win61_extensional(
    s1: Seq<u64>,
    s2: Seq<u64>,
    b: int,
    l1: int,
    r1: int,
    l2: int,
    r2: int,
)
    requires
        0 <= l1 <= r1 <= s1.len(),
        0 <= l2 <= r2 <= s2.len(),
        s1.subrange(l1, r1) == s2.subrange(l2, r2),
    ensures
        win61(s1, b, l1, r1) == win61(s2, b, l2, r2),
{
    lemma_win61_is_window_hash(s1, b, l1, r1);
    lemma_win61_is_window_hash(s2, b, l2, r2);
    assert(s1.subrange(l1, r1).len() == r1 - l1);
    assert(s2.subrange(l2, r2).len() == r2 - l2);
    assert(r1 - l1 == r2 - l2);
    lemma_rh61_prefix(s1.subrange(l1, r1), s2.subrange(l2, r2), b, r1 - l1);
    assert(rh61(s1.subrange(l1, r1), b, r1 - l1) == rh61(s2.subrange(l2, r2), b, r2 - l2));
}

/// The canonical window hash equals the fresh hash of the window's
/// own contents.
proof fn lemma_win61_is_window_hash(s: Seq<u64>, b: int, l: int, r: int)
    requires
        0 <= l <= r <= s.len(),
    ensures
        win61(s, b, l, r) == rh61(s.subrange(l, r), b, r - l),
{
    let m = ROLIHA_MOD as int;
    let sub = s.subrange(l, s.len() as int);
    let win = s.subrange(l, r);
    lemma_rh61_decompose(s, b, l, r);
    assert forall|k: int| 0 <= k < r - l implies win[k] == sub[k] by {}
    lemma_rh61_prefix(win, sub, b, r - l);
    let h = rh61(win, b, r - l);
    let a = rh61(s, b, l);
    let p = pow61(b, r - l);
    let q = (a * p) % m;
    lemma_rh61_bounds(win, b, r - l);
    vstd::arithmetic::div_mod::lemma_mod_bound(a * p, m);
    vstd::arithmetic::div_mod::lemma_add_mod_noop_right(h, a * p, m);
    assert(rh61(s, b, r) == (h + q) % m);
    vstd::arithmetic::div_mod::lemma_small_mod(h as nat, m as nat);
    assert(((h + q) % m + (m - q)) % m == (h + q + (m - q)) % m) by {
        vstd::arithmetic::div_mod::lemma_add_mod_noop((h + q), (m - q), m);
        assert(((h + q) % m + (m - q) % m) % m == (h + q + (m - q)) % m);
        vstd::arithmetic::div_mod::lemma_add_mod_noop_right((h + q) % m, m - q, m);
        vstd::arithmetic::div_mod::lemma_add_mod_noop_right((h + q) % m, (m - q) % m, m);
    }
    vstd::arithmetic::div_mod::lemma_mod_multiples_vanish(1, h, m);
}

/// A single-modulus rolling hash over the Mersenne prime
/// `2^61 - 1`, with a base drawn once from the default generator.
pub struct RoLiHa {
    pow_memo: Vec<u64>,
    hash: Vec<u64>,
    words: Ghost<Seq<u64>>,
    base: Ghost<u64>,
}

impl RoLiHa {
    /// The hashed sequence.
    pub closed spec fn contents(&self) -> Seq<u64> {
        self.words@
    }

    /// The base the tables were built with.
    pub closed spec fn base_val(&self) -> int {
        self.base@ as int
    }

    /// The tables hold the modular prefix hashes and powers of the
    /// base, each stored in `[0, 2^61 - 1]`.
    pub closed spec fn wf(&self) -> bool {
        let n = self.words@.len() as int;
        let m = ROLIHA_MOD as int;
        &&& self.base@ <= 0x8000_0000_0000_0080
        &&& self.pow_memo@.len() == n + 1
        &&& self.hash@.len() == n + 1
        &&& forall|i: int|
            0 <= i <= n ==> (#[trigger] self.pow_memo@[i]) <= ROLIHA_MOD && self.pow_memo@[i]
                as int % m == pow61(self.base@ as int, i)
        &&& forall|i: int|
            0 <= i <= n ==> (#[trigger] self.hash@[i]) <= ROLIHA_MOD && self.hash@[i] as int % m
                == rh61(self.words@, self.base@ as int, i)
    }

    /// The split multiplication modulo `2^61 - 1`: congruent to the
    /// full product, and bounded by seven times the modulus.
    fn mul(l: u64, r: u64) -> (res: u64)
        requires
            l <= ROLIHA_MOD,
            r <= 0x8000_0000_0000_0080,
        ensures
            (res as int) % (ROLIHA_MOD as int) == ((l as int) * (r as int)) % (ROLIHA_MOD as int),
            res as int <= 7 * (ROLIHA_MOD as int),
    {
        let lu = l >> 31;
        let ld = l & ROLIHA_MASK31;
        let ru = r >> 31;
        let rd = r & ROLIHA_MASK31;
        proof {
            assert(l >> 31 == l / 0x8000_0000 && (l & 0x7FFF_FFFF) == l % 0x8000_0000
                && (l <= 0x1FFF_FFFF_FFFF_FFFF ==> (l >> 31) <= 0x3FFF_FFFF)) by (bit_vector);
            assert(r >> 31 == r / 0x8000_0000 && (r & 0x7FFF_FFFF) == r % 0x8000_0000 && (r
                <= 0x8000_0000_0000_0080 ==> (r >> 31) <= 0x1_0000_0000)) by (bit_vector);
            assert(lu * ru <= 0x3FFF_FFFF * 0x1_0000_0000) by (nonlinear_arith)
                requires
                    0 <= lu <= 0x3FFF_FFFF,
                    0 <= ru <= 0x1_0000_0000,
            ;
            assert(ld * ru <= 0x7FFF_FFFF * 0x1_0000_0000) by (nonlinear_arith)
                requires
                    0 <= ld <= 0x7FFF_FFFF,
                    0 <= ru <= 0x1_0000_0000,
            ;
            assert(lu * rd <= 0x3FFF_FFFF * 0x7FFF_FFFF) by (nonlinear_arith)
                requires
                    0 <= lu <= 0x3FFF_FFFF,
                    0 <= rd <= 0x7FFF_FFFF,
            ;
            assert(ld * rd <= 0x7FFF_FFFF * 0x7FFF_FFFF) by (nonlinear_arith)
                requires
                    0 <= ld <= 0x7FFF_FFFF,
                    0 <= rd <= 0x7FFF_FFFF,
            ;
        }
        let high = lu * ru;
        let middle_bit = ld * ru + lu * rd;
        let mlow = middle_bit & ROLIHA_MASK30;
        let mhigh = middle_bit >> 30;
        proof {
            let t = high;
            assert(t <= 0x3FFF_FFFF_0000_0000 ==> ((t << 1) == t * 2)) by (bit_vector);
            let mb = middle_bit;
            assert((mb & 0x3FFF_FFFF) == mb % 0x4000_0000 && (mb >> 30) == mb / 0x4000_0000
                && ((mb & 0x3FFF_FFFF) << 31) == (mb & 0x3FFF_FFFF) * 0x8000_0000) by (bit_vector);
        }
        let res = (high << 1) + ld * rd + (mlow << 31) + mhigh;
        proof {
            let m = ROLIHA_MOD as int;
            vstd::arithmetic::div_mod::lemma_fundamental_div_mod(l as int, 0x8000_0000);
            vstd::arithmetic::div_mod::lemma_fundamental_div_mod(r as int, 0x8000_0000);
            vstd::arithmetic::div_mod::lemma_fundamental_div_mod(middle_bit as int, 0x4000_0000);
            assert((l as int) * (r as int) == res as int + m * (2 * (lu as int) * (ru as int)
                + mhigh as int)) by (nonlinear_arith)
                requires
                    m == 0x1FFF_FFFF_FFFF_FFFF,
                    l as int == (lu as int) * 0x8000_0000 + ld as int,
                    r as int == (ru as int) * 0x8000_0000 + rd as int,
                    middle_bit as int == (ld as int) * (ru as int) + (lu as int) * (rd as int),
                    middle_bit as int == (mhigh as int) * 0x4000_0000 + mlow as int,
                    res as int == (high as int) * 2 + (ld as int) * (rd as int) + (mlow as int)
                        * 0x8000_0000 + mhigh as int,
                    high as int == (lu as int) * (ru as int),
            ;
            vstd::arithmetic::div_mod::lemma_mod_multiples_vanish(
                2 * (lu as int) * (ru as int) + mhigh as int,
                res as int,
                m,
            );
        }
        res
    }

    /// Reduction into `[0, 2^61 - 1]`, congruent to the argument.
    fn calcmod(x: u64) -> (res: u64)
        ensures
            res <= ROLIHA_MOD,
            (res as int) % (ROLIHA_MOD as int) == (x as int) % (ROLIHA_MOD as int),
    {
        let lo = x & ROLIHA_MOD;
        let hi = x >> 61;
        proof {
            assert((x & 0x1FFF_FFFF_FFFF_FFFF) == x % 0x2000_0000_0000_0000 && (x >> 61) == x
                / 0x2000_0000_0000_0000 && (x >> 61) <= 7) by (bit_vector);
            vstd::arithmetic::div_mod::lemma_fundamental_div_mod(x as int, 0x2000_0000_0000_0000);
            vstd::arithmetic::div_mod::lemma_mod_multiples_vanish(
                hi as int,
                lo as int + hi as int,
                ROLIHA_MOD as int,
            );
        }
        let mut y = lo + hi;
        if y > ROLIHA_MOD {
            proof {
                vstd::arithmetic::div_mod::lemma_mod_multiples_vanish(
                    -1,
                    y as int,
                    ROLIHA_MOD as int,
                );
            }
            y = y - ROLIHA_MOD;
        }
        y
    }

    /// Tables over `s`, with a base drawn from the default
    /// generator; every element must lie below the modulus.
    pub fn new(s: &Vec<u64>) -> (r: RoLiHa)
        requires
            s@.len() < usize::MAX,
            forall|i: int| 0 <= i < s@.len() ==> (#[trigger] s@[i]) <= ROLIHA_MOD,
        ensures
            r.wf(),
            r.contents() == s@,
            r.base_val() == crate::xorshift::xorshift_step(crate::xorshift::DEFAULT_SEED)
                % 0x7FFF_FFFF_FFFF_FFFF + 129,
    {
        let mut randgen = Xorshift::new();
        let rand = randgen.rand(0x7FFF_FFFF_FFFF_FFFF);
        let base = rand + 129;
        let ghost gb = base as int;
        let ghost m = ROLIHA_MOD as int;
        let n = s.len();
        let mut pow_memo: Vec<u64> = Vec::new();
        pow_memo.push(1);
        let mut i: usize = 1;
        while i <= n
            invariant
                1 <= i <= n + 1,
                n == s@.len(),
                n < usize::MAX,
                m == ROLIHA_MOD as int,
                gb == base as int,
                base <= 0x8000_0000_0000_0080,
                pow_memo@.len() == i,
                forall|k: int|
                    0 <= k < i ==> (#[trigger] pow_memo@[k]) <= ROLIHA_MOD && pow_memo@[k] as int
                        % m == pow61(gb, k),
            decreases n + 1 - i,
        {
            let prev = pow_memo[i - 1];
            let mr = Self::mul(prev, base);
            let v = Self::calcmod(mr);
            proof {
                lemma_rh61_bounds(s@, gb, i - 1);
                vstd::arithmetic::div_mod::lemma_mul_mod_noop_left(prev as int, gb, m);
                vstd::arithmetic::div_mod::lemma_mul_mod_noop_left(pow61(gb, i as int - 1), gb, m);
                lemma_rh61_bounds(s@, gb, i as int);
            }
            pow_memo.push(v);
            i = i + 1;
        }
        let mut hash: Vec<u64> = Vec::new();
        hash.push(0);
        let mut i: usize = 0;
        while i < n
            invariant
                i <= n,
                n == s@.len(),
                m == ROLIHA_MOD as int,
                gb == base as int,
                base <= 0x8000_0000_0000_0080,
                forall|k: int| 0 <= k < n ==> (#[trigger] s@[k]) <= ROLIHA_MOD,
                hash@.len() == i + 1,
                forall|k: int|
                    0 <= k <= i ==> (#[trigger] hash@[k]) <= ROLIHA_MOD && hash@[k] as int % m
                        == rh61(s@, gb, k),
            decreases n - i,
        {
            let prev = hash[i];
            let x = s[i];
            let mr = Self::mul(prev, base);
            let v = Self::calcmod(mr + x);
            proof {
                lemma_rh61_bounds(s@, gb, i as int);
                vstd::arithmetic::div_mod::lemma_mul_mod_noop_left(prev as int, gb, m);
                vstd::arithmetic::div_mod::lemma_mul_mod_noop_left(rh61(s@, gb, i as int), gb, m);
                vstd::arithmetic::div_mod::lemma_add_mod_noop(
                    (prev as int) * gb,
                    x as int,
                    m,
                );
                vstd::arithmetic::div_mod::lemma_add_mod_noop(
                    rh61(s@, gb, i as int) * gb,
                    x as int,
                    m,
                );
                assert((mr as int + x as int) % m == (prev as int * gb + x as int) % m) by {
                    vstd::arithmetic::div_mod::lemma_add_mod_noop(mr as int, x as int, m);
                }
                lemma_rh61_bounds(s@, gb, i as int + 1);
            }
            hash.push(v);
            i = i + 1;
        }
        RoLiHa { pow_memo, hash, words: Ghost(s@), base: Ghost(base) }
    }

    /// The window hash of positions `[l, r)`: a value in
    /// `[0, 2^61 - 1]` congruent to the canonical window hash.
    pub fn get(&self, l: usize, r: usize) -> (res: u64)
        requires
            self.wf(),
            l <= r <= self.contents().len(),
        ensures
            res <= ROLIHA_MOD,
            (res as int) % (ROLIHA_MOD as int) == win61(
                self.contents(),
                self.base_val(),
                l as int,
                r as int,
            ),
    {
        let ghost m = ROLIHA_MOD as int;
        let ghost gb = self.base_val();
        let hr = self.hash[r];
        let hl = self.hash[l];
        let pd = self.pow_memo[r - l];
        let m1 = Self::mul(hl, pd);
        let arg = hr + ROLIHA_P - m1;
        let res = Self::calcmod(arg);
        proof {
            lemma_rh61_bounds(self.words@, gb, l as int);
            lemma_rh61_bounds(self.words@, gb, r as int);
            lemma_rh61_bounds(self.words@, gb, r as int - l as int);
            vstd::arithmetic::div_mod::lemma_mul_mod_noop_general(hl as int, pd as int, m);
            vstd::arithmetic::div_mod::lemma_mul_mod_noop_general(
                rh61(self.words@, gb, l as int),
                pow61(gb, r as int - l as int),
                m,
            );
            vstd::arithmetic::div_mod::lemma_mod_multiples_vanish(
                7,
                hr as int - m1 as int,
                m,
            );
            vstd::arithmetic::div_mod::lemma_sub_mod_noop(hr as int, m1 as int, m);
            vstd::arithmetic::div_mod::lemma_sub_mod_noop(
                rh61(self.words@, gb, r as int),
                (rh61(self.words@, gb, l as int) * pow61(gb, r as int - l as int)) % m,
                m,
            );
            vstd::arithmetic::div_mod::lemma_mod_multiples_vanish(
                1,
                rh61(self.words@, gb, r as int) - (rh61(self.words@, gb, l as int) * pow61(
                    gb,
                    r as int - l as int,
                )) % m,
                m,
            );
        }
        res
    }
}


/// A reproducible sequence of `n` small words, drawn from the
/// default generator; every entry lies below 52.
pub fn mk_str(n: usize) -> (r: Vec<u64>)
    ensures
        r@.len() == n,
        forall|i: int| 0 <= i < n ==> (#[trigger] r@[i]) < 52,
{
    let mut rng = Xorshift::new();
    let mut r: Vec<u64> = Vec::new();
    let mut i: usize = 0;
    while i < n
        invariant
            i <= n,
            r@.len() == i,
            forall|k: int| 0 <= k < i ==> (#[trigger] r@[k]) < 52,
        decreases n - i,
    {
        r.push(rng.rand(52));
        i = i + 1;
    }
    r
}

/// `n` reproducible ordered index pairs over `[0, n)`, for querying
/// a hash of length `n`.
pub fn mk_queries(n: usize) -> (v: Vec<(usize, usize)>)
    requires
        n >= 1,
    ensures
        v@.len() == n,
        forall|i: int| 0 <= i < n ==> (#[trigger] v@[i]).0 <= v@[i].1 && v@[i].1 < n,
{
    let mut rng = Xorshift::new();
    let mut v: Vec<(usize, usize)> = Vec::new();
    let mut i: usize = 0;
    while i < n
        invariant
            n >= 1,
            i <= n,
            v@.len() == i,
            forall|k: int| 0 <= k < i ==> (#[trigger] v@[k]).0 <= v@[k].1 && v@[k].1 < n,
        decreases n - i,
    {
        let l = rng.rand(n as u64) as usize;
        let r = rng.rand(n as u64) as usize;
        if l <= r {
            v.push((l, r));
        } else {
            v.push((r, l));
        }
        i = i + 1;
    }
    v
}

} // verus!
