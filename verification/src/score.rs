//! Comparison and scoring of bicluster collections: best-overlap matching,
//! edge-coverage accuracy, and row-overlap structure. All scores are fixed
//! point: `SCALE` means 1.0 and 0 means no agreement at all.

use vstd::prelude::*;
use crate::biclust::{Bicluster, Biclust, contains_index};
use crate::{MAX_DIM, SCALE};
use vstd::arithmetic::div_mod::{lemma_div_is_ordered, lemma_div_multiples_vanish,
    lemma_div_pos_is_pos};
use vstd::arithmetic::mul::lemma_mul_inequality;

verus! {

/// How many of the first `k` entries of `s` occur in `t`.
pub open spec fn count_in(s: Seq<usize>, t: Seq<usize>, k: int) -> int
    decreases k,
{
    if k <= 0 {
        0
    } else {
        count_in(s, t, k - 1) + if t.contains(s[k - 1]) {
            1int
        } else {
            0int
        }
    }
}

/// The size of the intersection of two biclusters, over rows and columns
/// together (row and column indices never mix).
pub open spec fn inter_size(a: Bicluster, b: Bicluster) -> int {
    count_in(a.rows@, b.rows@, a.rows@.len() as int) + count_in(
        a.cols@,
        b.cols@,
        a.cols@.len() as int,
    )
}

/// The size of the union of two biclusters over rows and columns together:
/// all of `a` plus the part of `b` missing from `a`.
pub open spec fn union_size(a: Bicluster, b: Bicluster) -> int {
    a.rows@.len() + b.rows@.len() - count_in(b.rows@, a.rows@, b.rows@.len() as int)
        + a.cols@.len() + b.cols@.len() - count_in(b.cols@, a.cols@, b.cols@.len() as int)
}

/// Jaccard-style overlap of two biclusters in fixed point: intersection
/// size over union size, `SCALE` meaning identical membership.
pub open spec fn spec_jaccard(a: Bicluster, b: Bicluster) -> int {
    if union_size(a, b) <= 0 {
        0int
    } else {
        inter_size(a, b) * SCALE / union_size(a, b)
    }
}

/// The best overlap of `c` against the first `k` clusters of `ys`; zero
/// when there is no counterpart at all.
pub open spec fn best_match(c: Bicluster, ys: Seq<Bicluster>, k: int) -> int
    decreases k,
{
    if k <= 0 {
        0
    } else {
        let prev = best_match(c, ys, k - 1);
        if spec_jaccard(c, ys[k - 1]) > prev {
            spec_jaccard(c, ys[k - 1])
        } else {
            prev
        }
    }
}

/// The total of the best-match scores of the first `k` clusters of `xs`
/// against all of `ys`.
pub open spec fn sum_best(xs: Seq<Bicluster>, ys: Seq<Bicluster>, k: int) -> int
    decreases k,
{
    if k <= 0 {
        0
    } else {
        sum_best(xs, ys, k - 1) + best_match(xs[k - 1], ys, ys.len() as int)
    }
}

/// The matching score of `xs` against `ys`: the average, over the clusters
/// of `xs`, of the best overlap each finds in `ys`. Unmatched clusters
/// contribute zero; an empty `xs` scores zero.
pub open spec fn spec_matching_score(xs: Seq<Bicluster>, ys: Seq<Bicluster>) -> int {
    if xs.len() == 0 {
        0int
    } else {
        sum_best(xs, ys, xs.len() as int) / (xs.len() as int)
    }
}

proof fn lemma_count_in_bounds(s: Seq<usize>, t: Seq<usize>, k: int)
    requires
        0 <= k <= s.len(),
    ensures
        0 <= count_in(s, t, k) <= k,
    decreases k,
{
    if k > 0 {
        lemma_count_in_bounds(s, t, k - 1);
    }
}

proof fn lemma_count_in_all(s: Seq<usize>, k: int)
    requires
        0 <= k <= s.len(),
    ensures
        count_in(s, s, k) == k,
    decreases k,
{
    if k > 0 {
        lemma_count_in_all(s, k - 1);
        assert(s.contains(s[k - 1]));
    }
}

/// An overlap score always lies between zero and `SCALE`.
pub proof fn lemma_jaccard_bounds(a: Bicluster, b: Bicluster)
    ensures
        0 <= spec_jaccard(a, b) <= SCALE,
        inter_size(a, b) <= union_size(a, b),
{
    lemma_count_in_bounds(a.rows@, b.rows@, a.rows@.len() as int);
    lemma_count_in_bounds(a.cols@, b.cols@, a.cols@.len() as int);
    lemma_count_in_bounds(b.rows@, a.rows@, b.rows@.len() as int);
    lemma_count_in_bounds(b.cols@, a.cols@, b.cols@.len() as int);
    if union_size(a, b) > 0 {
        lemma_mul_inequality(inter_size(a, b), union_size(a, b), SCALE as int);
        lemma_div_is_ordered(
            inter_size(a, b) * SCALE,
            union_size(a, b) * SCALE,
            union_size(a, b),
        );
        lemma_div_multiples_vanish(SCALE as int, union_size(a, b));
        lemma_div_pos_is_pos(inter_size(a, b) * SCALE, union_size(a, b));
        vstd::arithmetic::mul::lemma_mul_nonnegative(inter_size(a, b), SCALE as int);
    }
}

/// A well-formed bicluster overlaps itself completely.
pub proof fn lemma_jaccard_self(a: Bicluster)
    requires
        a.wf(),
    ensures
        spec_jaccard(a, a) == SCALE,
{
    lemma_count_in_all(a.rows@, a.rows@.len() as int);
    lemma_count_in_all(a.cols@, a.cols@.len() as int);
    let u = union_size(a, a);
    assert(u == a.rows@.len() + a.cols@.len());
    assert(inter_size(a, a) == u);
    lemma_div_multiples_vanish(SCALE as int, u);
    assert(u * SCALE == inter_size(a, a) * SCALE);
}

proof fn lemma_best_ge(c: Bicluster, ys: Seq<Bicluster>, k: int, i: int)
    requires
        0 <= i < k <= ys.len(),
    ensures
        best_match(c, ys, k) >= spec_jaccard(c, ys[i]),
    decreases k,
{
    if i < k - 1 {
        lemma_best_ge(c, ys, k - 1, i);
    }
}

proof fn lemma_best_bounds(c: Bicluster, ys: Seq<Bicluster>, k: int)
    requires
        0 <= k <= ys.len(),
    ensures
        0 <= best_match(c, ys, k) <= SCALE,
    decreases k,
{
    if k > 0 {
        lemma_best_bounds(c, ys, k - 1);
        lemma_jaccard_bounds(c, ys[k - 1]);
    }
}

proof fn lemma_sum_best_bounds(xs: Seq<Bicluster>, ys: Seq<Bicluster>, k: int)
    requires
        0 <= k <= xs.len(),
    ensures
        0 <= sum_best(xs, ys, k) <= k * SCALE,
    decreases k,
{
    if k > 0 {
        lemma_sum_best_bounds(xs, ys, k - 1);
        lemma_best_bounds(xs[k - 1], ys, ys.len() as int);
        vstd::arithmetic::mul::lemma_mul_is_distributive_add_other_way(
            SCALE as int, k - 1, 1);
    }
}

proof fn lemma_sum_best_all_scale(xs: Seq<Bicluster>, ys: Seq<Bicluster>, k: int)
    requires
        0 <= k <= xs.len(),
        forall|t: int| 0 <= t < k ==> best_match(xs[t], ys, ys.len() as int) == SCALE,
    ensures
        sum_best(xs, ys, k) == k * SCALE,
    decreases k,
{
    if k > 0 {
        lemma_sum_best_all_scale(xs, ys, k - 1);
        vstd::arithmetic::mul::lemma_mul_is_distributive_add_other_way(
            SCALE as int, k - 1, 1);
    } else {
        assert(0int * SCALE == 0) by (nonlinear_arith);
    }
}

/// A matching score always lies between zero and `SCALE`.
pub proof fn lemma_matching_score_bounds(xs: Seq<Bicluster>, ys: Seq<Bicluster>)
    ensures
        0 <= spec_matching_score(xs, ys) <= SCALE,
{
    if xs.len() > 0 {
        let k = xs.len() as int;
        lemma_sum_best_bounds(xs, ys, k);
        lemma_div_is_ordered(sum_best(xs, ys, k), k * SCALE, k);
        lemma_div_multiples_vanish(SCALE as int, k);
        lemma_div_pos_is_pos(sum_best(xs, ys, k), k);
    }
}

/// A non-empty well-formed collection matched against an identical copy
/// scores exactly `SCALE`: every cluster finds itself as best counterpart.
pub proof fn lemma_matching_score_self(x: Biclust)
    requires
        x.wf(),
        x.clusters@.len() > 0,
    ensures
        spec_matching_score(x.clusters@, x.clusters@) == SCALE,
{
    let s = x.clusters@;
    let k = s.len() as int;
    assert forall|t: int| 0 <= t < k implies best_match(s[t], s, k) == SCALE by {
        lemma_jaccard_self(s[t]);
        lemma_best_ge(s[t], s, k, t);
        lemma_best_bounds(s[t], s, k);
    }
    lemma_sum_best_all_scale(s, s, k);
    lemma_div_multiples_vanish(SCALE as int, k);
    assert(k * SCALE == sum_best(s, s, k));
}

/// Matched against an empty collection, any collection scores zero: no
/// cluster has a counterpart, so every best match is zero.
pub proof fn lemma_matching_score_empty(xs: Seq<Bicluster>, ys: Seq<Bicluster>)
    requires
        ys.len() == 0,
    ensures
        spec_matching_score(xs, ys) == 0,
{
    if xs.len() > 0 {
        let k = xs.len() as int;
        assert forall|t: int| 0 <= t < k implies best_match(xs[t], ys, ys.len() as int)
            == 0 by {}
        lemma_sum_best_zero(xs, ys, k);
        lemma_div_multiples_vanish(0int, k);
        assert(k * 0 == 0) by (nonlinear_arith);
    }
}

proof fn lemma_sum_best_zero(xs: Seq<Bicluster>, ys: Seq<Bicluster>, k: int)
    requires
        0 <= k <= xs.len(),
        ys.len() == 0,
    ensures
        sum_best(xs, ys, k) == 0,
    decreases k,
{
    if k > 0 {
        lemma_sum_best_zero(xs, ys, k - 1);
    }
}

/// Some cluster among the first `len` of `s` covers the cell `(i, j)`.
pub open spec fn covered_seq(s: Seq<Bicluster>, i: int, j: int) -> bool {
    exists|k: int| 0 <= k < s.len() && s[k].covers(i, j)
}

/// How many cells of row `i` before column `c` the collection covers.
pub open spec fn cov_row_count(s: Seq<Bicluster>, i: int, c: int) -> int
    decreases c,
{
    if c <= 0 {
        0
    } else {
        cov_row_count(s, i, c - 1) + if covered_seq(s, i, c - 1) {
            1int
        } else {
            0int
        }
    }
}

/// How many cells of the `r` by `c` grid the collection covers.
pub open spec fn cov_grid_count(s: Seq<Bicluster>, r: int, c: int) -> int
    decreases r,
{
    if r <= 0 {
        0
    } else {
        cov_grid_count(s, r - 1, c) + cov_row_count(s, r - 1, c)
    }
}

/// How many cells of row `i` before column `c` both collections cover.
pub open spec fn both_row_count(gt: Seq<Bicluster>, oth: Seq<Bicluster>, i: int, c: int) -> int
    decreases c,
{
    if c <= 0 {
        0
    } else {
        both_row_count(gt, oth, i, c - 1) + if covered_seq(gt, i, c - 1) && covered_seq(
            oth,
            i,
            c - 1,
        ) {
            1int
        } else {
            0int
        }
    }
}

/// How many cells of the grid both collections cover.
pub open spec fn both_grid_count(gt: Seq<Bicluster>, oth: Seq<Bicluster>, r: int, c: int) -> int
    decreases r,
{
    if r <= 0 {
        0
    } else {
        both_grid_count(gt, oth, r - 1, c) + both_row_count(gt, oth, r - 1, c)
    }
}

/// The accuracy of `oth` against the reference `gt` over an `n` by `m`
/// grid: the fraction of reference-covered cells that `oth` also covers,
/// in fixed point. Zero when the reference covers nothing.
pub open spec fn spec_accuracy(gt: Seq<Bicluster>, oth: Seq<Bicluster>, n: int, m: int) -> int {
    let d = cov_grid_count(gt, n, m);
    if d <= 0 {
        0int
    } else {
        both_grid_count(gt, oth, n, m) * SCALE / d
    }
}

proof fn lemma_both_row_mono(gt: Seq<Bicluster>, o1: Seq<Bicluster>, o2: Seq<Bicluster>, i: int,
    c: int)
    requires
        forall|p: int, q: int| covered_seq(o1, p, q) ==> covered_seq(o2, p, q),
    ensures
        both_row_count(gt, o1, i, c) <= both_row_count(gt, o2, i, c),
    decreases c,
{
    if c > 0 {
        lemma_both_row_mono(gt, o1, o2, i, c - 1);
    }
}

proof fn lemma_both_grid_mono(gt: Seq<Bicluster>, o1: Seq<Bicluster>, o2: Seq<Bicluster>,
    r: int, c: int)
    requires
        forall|p: int, q: int| covered_seq(o1, p, q) ==> covered_seq(o2, p, q),
    ensures
        both_grid_count(gt, o1, r, c) <= both_grid_count(gt, o2, r, c),
    decreases r,
{
    if r > 0 {
        lemma_both_grid_mono(gt, o1, o2, r - 1, c);
        lemma_both_row_mono(gt, o1, o2, r - 1, c);
    }
}

proof fn lemma_both_le_cov_row(gt: Seq<Bicluster>, oth: Seq<Bicluster>, i: int, c: int)
    ensures
        0 <= both_row_count(gt, oth, i, c),
        both_row_count(gt, oth, i, c) <= cov_row_count(gt, i, c),
        0 <= cov_row_count(gt, i, c),
    decreases c,
{
    if c > 0 {
        lemma_both_le_cov_row(gt, oth, i, c - 1);
    }
}

proof fn lemma_both_le_cov_grid(gt: Seq<Bicluster>, oth: Seq<Bicluster>, r: int, c: int)
    ensures
        0 <= both_grid_count(gt, oth, r, c),
        both_grid_count(gt, oth, r, c) <= cov_grid_count(gt, r, c),
        0 <= cov_grid_count(gt, r, c),
    decreases r,
{
    if r > 0 {
        lemma_both_le_cov_grid(gt, oth, r - 1, c);
        lemma_both_le_cov_row(gt, oth, r - 1, c);
    }
}

/// An accuracy score always lies between zero and `SCALE`.
pub proof fn lemma_accuracy_bounds(gt: Seq<Bicluster>, oth: Seq<Bicluster>, n: int, m: int)
    ensures
        0 <= spec_accuracy(gt, oth, n, m) <= SCALE,
{
    let d = cov_grid_count(gt, n, m);
    if d > 0 {
        lemma_both_le_cov_grid(gt, oth, n, m);
        lemma_mul_inequality(both_grid_count(gt, oth, n, m), d, SCALE as int);
        lemma_div_is_ordered(both_grid_count(gt, oth, n, m) * SCALE, d * SCALE, d);
        lemma_div_multiples_vanish(SCALE as int, d);
        vstd::arithmetic::mul::lemma_mul_nonnegative(both_grid_count(gt, oth, n, m),
            SCALE as int);
        lemma_div_pos_is_pos(both_grid_count(gt, oth, n, m) * SCALE, d);
    }
}

/// Accuracy is monotone under adding a cluster to the compared collection:
/// whatever a discovered set already captures of the reference, one more
/// cluster can only capture more, never less.
pub proof fn lemma_accuracy_monotone(
    gt: Seq<Bicluster>,
    oth: Seq<Bicluster>,
    extra: Bicluster,
    n: int,
    m: int,
)
    ensures
        spec_accuracy(gt, oth, n, m) <= spec_accuracy(gt, oth.push(extra), n, m),
{
    let o2 = oth.push(extra);
    assert forall|p: int, q: int| covered_seq(oth, p, q) implies covered_seq(o2, p, q) by {
        let k = choose|k: int| 0 <= k < oth.len() && oth[k].covers(p, q);
        assert(o2[k] == oth[k]);
        assert(0 <= k < o2.len() && o2[k].covers(p, q));
    }
    let d = cov_grid_count(gt, n, m);
    if d > 0 {
        lemma_both_grid_mono(gt, oth, o2, n, m);
        lemma_both_le_cov_grid(gt, oth, n, m);
        lemma_mul_inequality(both_grid_count(gt, oth, n, m), both_grid_count(gt, o2, n, m),
            SCALE as int);
        lemma_div_is_ordered(
            both_grid_count(gt, oth, n, m) * SCALE,
            both_grid_count(gt, o2, n, m) * SCALE,
            d,
        );
    }
}

/// How many of the first `k` entries of `s` occur in `t`, executable form.
fn count_in_exec(s: &Vec<usize>, t: &Vec<usize>) -> (r: u64)
    requires
        s@.len() <= MAX_DIM,
    ensures
        r == count_in(s@, t@, s@.len() as int),
        r <= s@.len(),
{
    let mut r: u64 = 0;
    let mut k: usize = 0;
    while k < s.len()
        invariant
            k <= s@.len(),
            s@.len() <= MAX_DIM,
            r == count_in(s@, t@, k as int),
            r <= k,
        decreases s@.len() - k,
    {
        if contains_index(t, s[k]) {
            r += 1;
        }
        k += 1;
    }
    r
}

impl Biclust {
    /// The overlap of two biclusters in fixed point.
    pub fn jaccard(a: &Bicluster, b: &Bicluster) -> (r: u64)
        requires
            a.wf(),
            b.wf(),
        ensures
            r == spec_jaccard(*a, *b),
            r <= SCALE,
    {
        proof {
            lemma_count_in_bounds(a.rows@, b.rows@, a.rows@.len() as int);
            lemma_count_in_bounds(a.cols@, b.cols@, a.cols@.len() as int);
            lemma_count_in_bounds(b.rows@, a.rows@, b.rows@.len() as int);
            lemma_count_in_bounds(b.cols@, a.cols@, b.cols@.len() as int);
            lemma_jaccard_bounds(*a, *b);
        }
        let ir = count_in_exec(&a.rows, &b.rows) + count_in_exec(&a.cols, &b.cols);
        let ur = (a.rows.len() as u64) + (b.rows.len() as u64) - count_in_exec(&b.rows, &a.rows)
            + (a.cols.len() as u64) + (b.cols.len() as u64) - count_in_exec(&b.cols, &a.cols);
        if ur == 0 {
            0
        } else {
            ir * SCALE / ur
        }
    }

    /// The best overlap `c` finds among the clusters of `self`.
    pub fn best_match_of(&self, c: &Bicluster) -> (r: u64)
        requires
            self.wf(),
            c.wf(),
        ensures
            r == best_match(*c, self.clusters@, self.clusters@.len() as int),
            r <= SCALE,
    {
        let mut r: u64 = 0;
        let mut k: usize = 0;
        while k < self.clusters.len()
            invariant
                k <= self.clusters@.len(),
                self.wf(),
                c.wf(),
                r == best_match(*c, self.clusters@, k as int),
                r <= SCALE,
            decreases self.clusters@.len() - k,
        {
            let j = Biclust::jaccard(c, &self.clusters[k]);
            if j > r {
                r = j;
            }
            k += 1;
        }
        r
    }

    /// The matching score of `self` against `other`: for each cluster of
    /// `self` the best Jaccard-style overlap found in `other`, averaged
    /// over the clusters of `self`. `SCALE` against an identical copy,
    /// zero against an empty collection, zero for an empty `self`.
    pub fn matching_score(&self, other: &Biclust) -> (r: u64)
        requires
            self.wf(),
            other.wf(),
        ensures
            r == spec_matching_score(self.clusters@, other.clusters@),
            r <= SCALE,
    {
        proof {
            lemma_matching_score_bounds(self.clusters@, other.clusters@);
        }
        if self.clusters.len() == 0 {
            return 0;
        }
        let mut sum: u64 = 0;
        let mut k: usize = 0;
        while k < self.clusters.len()
            invariant
                k <= self.clusters@.len(),
                self.wf(),
                other.wf(),
                sum == sum_best(self.clusters@, other.clusters@, k as int),
                sum <= k * SCALE,
        decreases self.clusters@.len() - k,
        {
            let b = other.best_match_of(&self.clusters[k]);
            proof {
                vstd::arithmetic::mul::lemma_mul_is_distributive_add_other_way(
                    SCALE as int, k as int, 1);
                lemma_mul_inequality(k as int + 1, MAX_DIM as int, SCALE as int);
            }
            sum = sum + b;
            k += 1;
        }
        proof {
            lemma_sum_best_bounds(self.clusters@, other.clusters@, self.clusters@.len() as int);
        }
        sum / (self.clusters.len() as u64)
    }

    /// Does some cluster of `self` cover the cell `(i, j)`?
    pub fn covers_cell(&self, i: usize, j: usize) -> (r: bool)
        ensures
            r == covered_seq(self.clusters@, i as int, j as int),
    {
        let mut k: usize = 0;
        while k < self.clusters.len()
            invariant
                k <= self.clusters@.len(),
                forall|t: int| 0 <= t < k ==> !self.clusters@[t].covers(i as int, j as int),
            decreases self.clusters@.len() - k,
        {
            let c = &self.clusters[k];
            if contains_index(&c.rows, i) && contains_index(&c.cols, j) {
                proof {
                    assert(self.clusters@[k as int].covers(i as int, j as int));
                }
                return true;
            }
            k += 1;
        }
        false
    }

    /// The accuracy of `other` against the reference `self` over an `n` by
    /// `m` grid: what fraction of the cells the reference covers is also
    /// covered by `other`, in fixed point. Zero when `other` covers none
    /// of it (in particular when `other` is empty), `SCALE` when it covers
    /// all of it.
    pub fn accuracy(&self, other: &Biclust, n: usize, m: usize) -> (r: u64)
        requires
            n <= MAX_DIM,
            m <= MAX_DIM,
        ensures
            r == spec_accuracy(self.clusters@, other.clusters@, n as int, m as int),
            r <= SCALE,
    {
        let mut denom: u64 = 0;
        let mut num: u64 = 0;
        let mut i: usize = 0;
        while i < n
            invariant
                i <= n,
                n <= MAX_DIM,
                m <= MAX_DIM,
                denom == cov_grid_count(self.clusters@, i as int, m as int),
                num == both_grid_count(self.clusters@, other.clusters@, i as int, m as int),
                num <= denom,
                denom <= i * m,
            decreases n - i,
        {
            let mut j: usize = 0;
            let ghost d0 = denom as int;
            let ghost n0 = num as int;
            while j < m
                invariant
                    i < n,
                    j <= m,
                    n <= MAX_DIM,
                    m <= MAX_DIM,
                    denom == d0 + cov_row_count(self.clusters@, i as int, j as int),
                    num == n0 + both_row_count(self.clusters@, other.clusters@, i as int,
                        j as int),
                    num <= denom,
                    d0 <= i * m,
                    denom <= i * m + j,
                decreases m - j,
            {
                if self.covers_cell(i, j) {
                    proof {
                        crate::graph::lemma_dims_product(i as int, j as int, n as int, m as int);
                        lemma_mul_inequality(n as int, MAX_DIM as int, m as int);
                    }
                    denom += 1;
                    if other.covers_cell(i, j) {
                        num += 1;
                    }
                }
                j += 1;
            }
            proof {
                vstd::arithmetic::mul::lemma_mul_is_distributive_add_other_way(
                    m as int, i as int, 1);
            }
            i += 1;
        }
        proof {
            lemma_accuracy_bounds(self.clusters@, other.clusters@, n as int, m as int);
        }
        if denom == 0 {
            0
        } else {
            proof {
                vstd::arithmetic::mul::lemma_mul_upper_bound(
                    n as int, MAX_DIM as int, m as int, MAX_DIM as int);
                lemma_mul_inequality(num as int, denom as int, SCALE as int);
                vstd::arithmetic::mul::lemma_mul_upper_bound(
                    num as int, 100000000int, SCALE as int, SCALE as int);
            }
            num * SCALE / denom
        }
    }
}


/// How many of the first `k` clusters of `s` hold row `i`.
pub open spec fn row_in_count(s: Seq<Bicluster>, i: int, k: int) -> int
    decreases k,
{
    if k <= 0 {
        0
    } else {
        row_in_count(s, i, k - 1) + if exists|t: int|
            0 <= t < s[k - 1].rows@.len() && #[trigger] (s[k - 1].rows@[t]) == i {
            1int
        } else {
            0int
        }
    }
}

/// How many rows below `n` belong to at least one cluster.
pub open spec fn rows_any_count(s: Seq<Bicluster>, n: int) -> int
    decreases n,
{
    if n <= 0 {
        0
    } else {
        rows_any_count(s, n - 1) + if row_in_count(s, n - 1, s.len() as int) >= 1 {
            1int
        } else {
            0int
        }
    }
}

/// How many rows below `n` belong to more than one cluster.
pub open spec fn rows_multi_count(s: Seq<Bicluster>, n: int) -> int
    decreases n,
{
    if n <= 0 {
        0
    } else {
        rows_multi_count(s, n - 1) + if row_in_count(s, n - 1, s.len() as int) >= 2 {
            1int
        } else {
            0int
        }
    }
}

/// The overlap structure of a collection over `n` rows: of the rows that
/// belong to some cluster, the fraction belonging to more than one, in
/// fixed point. Zero when no row is clustered.
pub open spec fn spec_rows_overlapping(s: Seq<Bicluster>, n: int) -> int {
    let any = rows_any_count(s, n);
    if any <= 0 {
        0int
    } else {
        rows_multi_count(s, n) * SCALE / any
    }
}

proof fn lemma_rows_counts(s: Seq<Bicluster>, n: int)
    ensures
        0 <= rows_multi_count(s, n) <= rows_any_count(s, n),
        rows_any_count(s, n) <= (if n >= 0 { n } else { 0 }),
    decreases n,
{
    if n > 0 {
        lemma_rows_counts(s, n - 1);
    }
}

impl Biclust {
    /// How many clusters of `self` hold row `i`.
    fn count_clusters_with_row(&self, i: usize) -> (r: u64)
        requires
            self.clusters@.len() <= MAX_DIM,
        ensures
            r == row_in_count(self.clusters@, i as int, self.clusters@.len() as int),
            r <= self.clusters@.len(),
    {
        let mut r: u64 = 0;
        let mut k: usize = 0;
        while k < self.clusters.len()
            invariant
                k <= self.clusters@.len(),
                self.clusters@.len() <= MAX_DIM,
                r == row_in_count(self.clusters@, i as int, k as int),
                r <= k,
            decreases self.clusters@.len() - k,
        {
            if contains_index(&self.clusters[k].rows, i) {
                r += 1;
            }
            k += 1;
        }
        r
    }

    /// The fraction of clustered rows (below `n`) that belong to more than
    /// one cluster of `self`, in fixed point; zero when no row is
    /// clustered. Characterizes how much ground-truth structure overlaps.
    pub fn get_rows_overlapping(&self, n: usize) -> (r: u64)
        requires
            self.wf(),
            n <= MAX_DIM,
        ensures
            r == spec_rows_overlapping(self.clusters@, n as int),
            r <= SCALE,
    {
        let mut any: u64 = 0;
        let mut multi: u64 = 0;
        let mut i: usize = 0;
        while i < n
            invariant
                i <= n,
                n <= MAX_DIM,
                self.wf(),
                any == rows_any_count(self.clusters@, i as int),
                multi == rows_multi_count(self.clusters@, i as int),
                multi <= any,
                any <= i,
            decreases n - i,
        {
            let cnt = self.count_clusters_with_row(i);
            if cnt >= 1 {
                any += 1;
            }
            if cnt >= 2 {
                multi += 1;
            }
            i += 1;
        }
        if any == 0 {
            0
        } else {
            proof {
                lemma_mul_inequality(multi as int, any as int, SCALE as int);
                lemma_div_is_ordered(multi as int * SCALE, any as int * SCALE, any as int);
                lemma_div_multiples_vanish(SCALE as int, any as int);
                vstd::arithmetic::mul::lemma_mul_upper_bound(
                    multi as int, MAX_DIM as int, SCALE as int, SCALE as int);
            }
            multi * SCALE / any
        }
    }
}

} // verus!
