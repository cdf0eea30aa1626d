//! The partitioning engine: worklist-driven extraction of dense sub-blocks.
//!
//! A worklist of active regions starts with the full node sets. Each region
//! is narrowed to its occupied rows and columns, a dominant row direction is
//! estimated by fixed-point power iteration, the rows split into a
//! high-affinity part and a remainder, and the high part is accepted as a
//! bicluster when its density contrast against the region clears the split
//! threshold and its size clears the floor implied by the size sensitivity.
//! Accepted clusters are consumed: their edges are removed from the graph,
//! so no later region can claim them again.

use vstd::prelude::*;
use crate::biclust::{Bicluster, Biclust, strictly_increasing};
use crate::score::covered_seq;
use crate::errors::ConfigError;
use crate::graph::WeightedBiAdjacency;
use crate::{MAX_DIM, MAX_PARAM, MAX_WEIGHT, SCALE};

verus! {

/// Numeric metadata about one discovery run: how many regions were taken
/// from the worklist, how many accepted splits were performed, and how many
/// regions were discarded as residual noise.
#[derive(Debug)]
pub struct AlgoStats {
    pub regions: usize,
    pub splits: usize,
    pub discarded: usize,
}

/// One active region of the search: a row subset and a column subset.
struct Region {
    rows: Vec<usize>,
    cols: Vec<usize>,
}

/// A valid region for an `n` by `m` graph.
spec fn region_wf(r: Region, n: int, m: int) -> bool {
    &&& strictly_increasing(r.rows@)
    &&& strictly_increasing(r.cols@)
    &&& r.rows@.len() <= MAX_DIM
    &&& r.cols@.len() <= MAX_DIM
    &&& forall|k: int| 0 <= k < r.rows@.len() ==> r.rows@[k] < n
    &&& forall|k: int| 0 <= k < r.cols@.len() ==> r.cols@[k] < m
}

/// Termination measure of the worklist: one per region plus one per row.
spec fn worklist_weight(s: Seq<Region>) -> int
    decreases s.len(),
{
    if s.len() == 0 {
        0
    } else {
        worklist_weight(s.drop_last()) + s.last().rows@.len() + 1
    }
}

/// How many rows the worklist still holds in total.
spec fn row_weight(s: Seq<Region>) -> int
    decreases s.len(),
{
    if s.len() == 0 {
        0
    } else {
        row_weight(s.drop_last()) + s.last().rows@.len()
    }
}

proof fn lemma_weights_nonneg(s: Seq<Region>)
    ensures
        worklist_weight(s) >= s.len(),
        row_weight(s) >= 0,
    decreases s.len(),
{
    if s.len() > 0 {
        lemma_weights_nonneg(s.drop_last());
    }
}

proof fn lemma_weights_push(s: Seq<Region>, x: Region)
    ensures
        worklist_weight(s.push(x)) == worklist_weight(s) + x.rows@.len() + 1,
        row_weight(s.push(x)) == row_weight(s) + x.rows@.len(),
{
    assert(s.push(x).drop_last() =~= s);
    assert(s.push(x).last() == x);
}

/// The indices `0 .. n` in order.
fn range_vec(n: usize) -> (r: Vec<usize>)
    ensures
        r@.len() == n,
        forall|k: int| 0 <= k < n ==> r@[k] == k,
        strictly_increasing(r@),
{
    let mut r: Vec<usize> = Vec::new();
    let mut k: usize = 0;
    while k < n
        invariant
            k <= n,
            r@.len() == k,
            forall|t: int| 0 <= t < k ==> r@[t] == t,
        decreases n - k,
    {
        r.push(k);
        k += 1;
    }
    r
}

/// Does row `i` carry an edge toward some column of `cols`?
fn row_has_edge(g: &WeightedBiAdjacency, i: usize, cols: &Vec<usize>) -> (r: bool)
    requires
        g.wf(),
        i < g.n,
        forall|k: int| 0 <= k < cols@.len() ==> cols@[k] < g.m,
    ensures
        r == exists|t: int| 0 <= t < cols@.len() && g.weight(i as int, cols@[t] as int) > 0,
{
    let mut t: usize = 0;
    while t < cols.len()
        invariant
            t <= cols@.len(),
            g.wf(),
            i < g.n,
            forall|k: int| 0 <= k < cols@.len() ==> cols@[k] < g.m,
            forall|k: int| 0 <= k < t ==> g.weight(i as int, cols@[k] as int) == 0,
        decreases cols@.len() - t,
    {
        if g.get_weight(i, cols[t]) > 0 {
            return true;
        }
        t += 1;
    }
    false
}

/// Does column `j` carry an edge from some row of `rows`?
fn col_has_edge(g: &WeightedBiAdjacency, rows: &Vec<usize>, j: usize) -> (r: bool)
    requires
        g.wf(),
        j < g.m,
        forall|k: int| 0 <= k < rows@.len() ==> rows@[k] < g.n,
    ensures
        r == exists|t: int| 0 <= t < rows@.len() && g.weight(rows@[t] as int, j as int) > 0,
{
    let mut t: usize = 0;
    while t < rows.len()
        invariant
            t <= rows@.len(),
            g.wf(),
            j < g.m,
            forall|k: int| 0 <= k < rows@.len() ==> rows@[k] < g.n,
            forall|k: int| 0 <= k < t ==> g.weight(rows@[k] as int, j as int) == 0,
        decreases rows@.len() - t,
    {
        if g.get_weight(rows[t], j) > 0 {
            return true;
        }
        t += 1;
    }
    false
}

/// An ordered subsequence of `src` (kept entries answer `true` to the
/// caller's test); used through the two occupied-filter functions below.
fn filter_rows_with_edge(g: &WeightedBiAdjacency, rows: &Vec<usize>, cols: &Vec<usize>) -> (r:
    Vec<usize>)
    requires
        g.wf(),
        strictly_increasing(rows@),
        forall|k: int| 0 <= k < rows@.len() ==> rows@[k] < g.n,
        forall|k: int| 0 <= k < cols@.len() ==> cols@[k] < g.m,
    ensures
        strictly_increasing(r@),
        r@.len() <= rows@.len(),
        forall|k: int| 0 <= k < r@.len() ==> rows@.contains(r@[k]),
        forall|k: int| 0 <= k < r@.len() ==> r@[k] < g.n,
{
    let mut r: Vec<usize> = Vec::new();
    let mut k: usize = 0;
    let ghost mut last_src: int = 0int;
    while k < rows.len()
        invariant
            k <= rows@.len(),
            g.wf(),
            strictly_increasing(rows@),
            forall|u: int| 0 <= u < rows@.len() ==> rows@[u] < g.n,
            forall|u: int| 0 <= u < cols@.len() ==> cols@[u] < g.m,
            r@.len() <= k,
            strictly_increasing(r@),
            forall|u: int| 0 <= u < r@.len() ==> rows@.contains(r@[u]),
            forall|u: int| 0 <= u < r@.len() ==> r@[u] < g.n,
            r@.len() > 0 ==> 0 <= last_src < k && rows@[last_src] == r@[r@.len() - 1],
        decreases rows@.len() - k,
    {
        let i = rows[k];
        if row_has_edge(g, i, cols) {
            proof {
                if r@.len() > 0 {
                    assert(rows@[last_src] < rows@[k as int]);
                }
                assert(rows@.contains(rows@[k as int]));
            }
            let ghost old_r = r@;
            r.push(i);
            proof {
                assert forall|u: int, v: int| 0 <= u < v < r@.len() implies r@[u] < r@[v] by {
                    if v < r@.len() - 1 {
                        assert(old_r[u] < old_r[v]);
                    } else {
                        if u < r@.len() - 1 {
                            if u < old_r.len() - 1 {
                                assert(old_r[u] < old_r[old_r.len() - 1]);
                            }
                        }
                    }
                }
                last_src = k as int;
            }
        }
        k += 1;
    }
    r
}

/// The columns of `cols` that carry an edge from some row of `rows`.
fn filter_cols_with_edge(g: &WeightedBiAdjacency, rows: &Vec<usize>, cols: &Vec<usize>) -> (r:
    Vec<usize>)
    requires
        g.wf(),
        strictly_increasing(cols@),
        forall|k: int| 0 <= k < rows@.len() ==> rows@[k] < g.n,
        forall|k: int| 0 <= k < cols@.len() ==> cols@[k] < g.m,
    ensures
        strictly_increasing(r@),
        r@.len() <= cols@.len(),
        forall|k: int| 0 <= k < r@.len() ==> cols@.contains(r@[k]),
        forall|k: int| 0 <= k < r@.len() ==> r@[k] < g.m,
{
    let mut r: Vec<usize> = Vec::new();
    let mut k: usize = 0;
    let ghost mut last_src: int = 0int;
    while k < cols.len()
        invariant
            k <= cols@.len(),
            g.wf(),
            strictly_increasing(cols@),
            forall|u: int| 0 <= u < rows@.len() ==> rows@[u] < g.n,
            forall|u: int| 0 <= u < cols@.len() ==> cols@[u] < g.m,
            r@.len() <= k,
            strictly_increasing(r@),
            forall|u: int| 0 <= u < r@.len() ==> cols@.contains(r@[u]),
            forall|u: int| 0 <= u < r@.len() ==> r@[u] < g.m,
            r@.len() > 0 ==> 0 <= last_src < k && cols@[last_src] == r@[r@.len() - 1],
        decreases cols@.len() - k,
    {
        let j = cols[k];
        if col_has_edge(g, rows, j) {
            proof {
                if r@.len() > 0 {
                    assert(cols@[last_src] < cols@[k as int]);
                }
                assert(cols@.contains(cols@[k as int]));
            }
            let ghost old_r = r@;
            r.push(j);
            proof {
                assert forall|u: int, v: int| 0 <= u < v < r@.len() implies r@[u] < r@[v] by {
                    if v < r@.len() - 1 {
                        assert(old_r[u] < old_r[v]);
                    } else {
                        if u < r@.len() - 1 {
                            if u < old_r.len() - 1 {
                                assert(old_r[u] < old_r[old_r.len() - 1]);
                            }
                        }
                    }
                }
                last_src = k as int;
            }
        }
        k += 1;
    }
    r
}

/// The largest entry of a score vector, zero when it is empty.
fn max_of(vals: &Vec<u64>) -> (r: u64)
    ensures
        forall|k: int| 0 <= k < vals@.len() ==> vals@[k] <= r,
        vals@.len() > 0 ==> exists|k: int| 0 <= k < vals@.len() && vals@[k] == r,
        vals@.len() == 0 ==> r == 0,
{
    let mut r: u64 = 0;
    let ghost mut witness: int = 0int;
    let mut k: usize = 0;
    while k < vals.len()
        invariant
            k <= vals@.len(),
            forall|t: int| 0 <= t < k ==> vals@[t] <= r,
            k > 0 ==> 0 <= witness < k && vals@[witness] == r,
            k == 0 ==> r == 0,
        decreases vals@.len() - k,
    {
        if vals[k] > r || k == 0 {
            r = vals[k];
            proof {
                witness = k as int;
            }
        }
        k += 1;
    }
    r
}

/// Normalize a score vector so its largest entry becomes `SCALE`; an
/// all-zero vector stays zero.
fn normalize_scores(vals: &mut Vec<u64>)
    ensures
        final (vals)@.len() == old(vals)@.len(),
        forall|k: int| 0 <= k < final (vals)@.len() ==> final (vals)@[k] <= SCALE,
{
    let top = max_of(vals);
    if top == 0 {
        return ;
    }
    let mut k: usize = 0;
    while k < vals.len()
        invariant
            k <= vals@.len(),
            vals@.len() == old(vals)@.len(),
            top > 0,
            forall|t: int| k <= t < vals@.len() ==> vals@[t] <= top,
            forall|t: int| 0 <= t < k ==> vals@[t] <= SCALE,
        decreases vals@.len() - k,
    {
        let v = vals[k];
        proof {
            vstd::arithmetic::mul::lemma_mul_upper_bound(
                v as int, u64::MAX as int, SCALE as int, SCALE as int);
            vstd::arithmetic::mul::lemma_mul_inequality(v as int, top as int, SCALE as int);
            vstd::arithmetic::div_mod::lemma_div_is_ordered(
                (v * SCALE) as int, (top * SCALE) as int, top as int);
            vstd::arithmetic::div_mod::lemma_div_multiples_vanish(SCALE as int, top as int);
        }
        let scaled = (((v as u128) * (SCALE as u128)) / (top as u128)) as u64;
        vals[k] = scaled;
        k += 1;
    }
}

/// Fixed-point power iteration on the sub-adjacency of the region: returns
/// one affinity score per region row, normalized to at most `SCALE`. The
/// initial direction is the all-ones vector, so the estimate is
/// deterministic.
fn power_scores(
    g: &WeightedBiAdjacency,
    rows: &Vec<usize>,
    cols: &Vec<usize>,
    iters: usize,
) -> (r: Vec<u64>)
    requires
        g.wf(),
        iters >= 1,
        rows@.len() <= MAX_DIM,
        cols@.len() <= MAX_DIM,
        forall|k: int| 0 <= k < rows@.len() ==> rows@[k] < g.n,
        forall|k: int| 0 <= k < cols@.len() ==> cols@[k] < g.m,
    ensures
        r@.len() == rows@.len(),
        forall|k: int| 0 <= k < r@.len() ==> r@[k] <= SCALE,
{
    let mut u: Vec<u64> = Vec::new();
    let mut k: usize = 0;
    while k < rows.len()
        invariant
            k <= rows@.len(),
            u@.len() == k,
            forall|t: int| 0 <= t < k ==> u@[t] <= SCALE,
        decreases rows@.len() - k,
    {
        u.push(SCALE);
        k += 1;
    }
    let mut it: usize = 0;
    while it < iters
        invariant
            it <= iters,
            g.wf(),
            rows@.len() <= MAX_DIM,
            cols@.len() <= MAX_DIM,
            forall|t: int| 0 <= t < rows@.len() ==> rows@[t] < g.n,
            forall|t: int| 0 <= t < cols@.len() ==> cols@[t] < g.m,
            u@.len() == rows@.len(),
            forall|t: int| 0 <= t < u@.len() ==> u@[t] <= SCALE,
        decreases iters - it,
    {
        let mut v = project_scores(g, rows, cols, &u, false);
        normalize_scores(&mut v);
        let mut u2 = project_scores(g, cols, rows, &v, true);
        normalize_scores(&mut u2);
        u = u2;
        it += 1;
    }
    u
}

/// One half-step of power iteration: for each target index, the weighted
/// sum of the current direction over the source indices. `transpose`
/// selects whether sources index columns (`false`) or rows (`true`).
fn project_scores(
    g: &WeightedBiAdjacency,
    src: &Vec<usize>,
    dst: &Vec<usize>,
    dir: &Vec<u64>,
    transpose: bool,
) -> (r: Vec<u64>)
    requires
        g.wf(),
        src@.len() <= MAX_DIM,
        dst@.len() <= MAX_DIM,
        dir@.len() == src@.len(),
        forall|k: int| 0 <= k < dir@.len() ==> dir@[k] <= SCALE,
        !transpose ==> (forall|k: int| 0 <= k < src@.len() ==> src@[k] < g.n),
        !transpose ==> (forall|k: int| 0 <= k < dst@.len() ==> dst@[k] < g.m),
        transpose ==> (forall|k: int| 0 <= k < src@.len() ==> src@[k] < g.m),
        transpose ==> (forall|k: int| 0 <= k < dst@.len() ==> dst@[k] < g.n),
    ensures
        r@.len() == dst@.len(),
{
    let mut r: Vec<u64> = Vec::new();
    let mut d: usize = 0;
    while d < dst.len()
        invariant
            d <= dst@.len(),
            g.wf(),
            src@.len() <= MAX_DIM,
            dir@.len() == src@.len(),
            forall|k: int| 0 <= k < dir@.len() ==> dir@[k] <= SCALE,
            !transpose ==> (forall|k: int| 0 <= k < src@.len() ==> src@[k] < g.n),
            !transpose ==> (forall|k: int| 0 <= k < dst@.len() ==> dst@[k] < g.m),
            transpose ==> (forall|k: int| 0 <= k < src@.len() ==> src@[k] < g.m),
            transpose ==> (forall|k: int| 0 <= k < dst@.len() ==> dst@[k] < g.n),
            r@.len() == d,
        decreases dst@.len() - d,
    {
        let mut acc: u64 = 0;
        let mut s: usize = 0;
        while s < src.len()
            invariant
                s <= src@.len(),
                d < dst@.len(),
                g.wf(),
                src@.len() <= MAX_DIM,
                dir@.len() == src@.len(),
                forall|k: int| 0 <= k < dir@.len() ==> dir@[k] <= SCALE,
                !transpose ==> (forall|k: int| 0 <= k < src@.len() ==> src@[k] < g.n),
                !transpose ==> (forall|k: int| 0 <= k < dst@.len() ==> dst@[k] < g.m),
                transpose ==> (forall|k: int| 0 <= k < src@.len() ==> src@[k] < g.m),
                transpose ==> (forall|k: int| 0 <= k < dst@.len() ==> dst@[k] < g.n),
                acc <= s * 1000000000000,
            decreases src@.len() - s,
        {
            let w = if transpose {
                g.get_weight(dst[d], src[s])
            } else {
                g.get_weight(src[s], dst[d])
            };
            proof {
                vstd::arithmetic::mul::lemma_mul_upper_bound(
                    w as int, MAX_WEIGHT as int, dir@[s as int] as int, SCALE as int);
                vstd::arithmetic::mul::lemma_mul_inequality(
                    s as int, MAX_DIM as int, 1000000000000int);
                vstd::arithmetic::mul::lemma_mul_is_distributive_add_other_way(
                    1000000000000int, s as int, 1);
            }
            acc = acc + w * dir[s];
            s += 1;
        }
        r.push(acc);
        d += 1;
    }
    r
}

/// Split `src` into the entries whose score doubles to at least the cut
/// and the remainder, both keeping their order.
fn partition_by_score(src: &Vec<usize>, scores: &Vec<u64>, cut: u64) -> (r: (Vec<usize>, Vec<
    usize>))
    requires
        strictly_increasing(src@),
        scores@.len() == src@.len(),
        forall|k: int| 0 <= k < scores@.len() ==> scores@[k] <= SCALE,
    ensures
        strictly_increasing(r.0@),
        strictly_increasing(r.1@),
        r.0@.len() + r.1@.len() == src@.len(),
        forall|k: int| 0 <= k < r.0@.len() ==> src@.contains(r.0@[k]),
        forall|k: int| 0 <= k < r.1@.len() ==> src@.contains(r.1@[k]),
{
    let mut high: Vec<usize> = Vec::new();
    let mut rest: Vec<usize> = Vec::new();
    let ghost mut last_high: int = 0int;
    let ghost mut last_rest: int = 0int;
    let mut k: usize = 0;
    while k < src.len()
        invariant
            k <= src@.len(),
            strictly_increasing(src@),
            scores@.len() == src@.len(),
            forall|u: int| 0 <= u < scores@.len() ==> scores@[u] <= SCALE,
            high@.len() + rest@.len() == k,
            strictly_increasing(high@),
            strictly_increasing(rest@),
            forall|u: int| 0 <= u < high@.len() ==> src@.contains(high@[u]),
            forall|u: int| 0 <= u < rest@.len() ==> src@.contains(rest@[u]),
            high@.len() > 0 ==> 0 <= last_high < k && src@[last_high] == high@[high@.len() - 1],
            rest@.len() > 0 ==> 0 <= last_rest < k && src@[last_rest] == rest@[rest@.len() - 1],
        decreases src@.len() - k,
    {
        let x = src[k];
        proof {
            assert(src@.contains(src@[k as int]));
        }
        if scores[k] * 2 >= cut {
            proof {
                if high@.len() > 0 {
                    assert(src@[last_high] < src@[k as int]);
                }
            }
            let ghost old_h = high@;
            high.push(x);
            proof {
                assert forall|u: int, v: int| 0 <= u < v < high@.len() implies high@[u]
                    < high@[v] by {
                    if v < high@.len() - 1 {
                        assert(old_h[u] < old_h[v]);
                    } else if u < high@.len() - 1 && u < old_h.len() - 1 {
                        assert(old_h[u] < old_h[old_h.len() - 1]);
                    }
                }
                last_high = k as int;
            }
        } else {
            proof {
                if rest@.len() > 0 {
                    assert(src@[last_rest] < src@[k as int]);
                }
            }
            let ghost old_r = rest@;
            rest.push(x);
            proof {
                assert forall|u: int, v: int| 0 <= u < v < rest@.len() implies rest@[u]
                    < rest@[v] by {
                    if v < rest@.len() - 1 {
                        assert(old_r[u] < old_r[v]);
                    } else if u < rest@.len() - 1 && u < old_r.len() - 1 {
                        assert(old_r[u] < old_r[old_r.len() - 1]);
                    }
                }
                last_rest = k as int;
            }
        }
        k += 1;
    }
    (high, rest)
}

/// Total weight over the cells of a region.
fn region_weight(g: &WeightedBiAdjacency, rows: &Vec<usize>, cols: &Vec<usize>) -> (r: u64)
    requires
        g.wf(),
        rows@.len() <= MAX_DIM,
        cols@.len() <= MAX_DIM,
        forall|k: int| 0 <= k < rows@.len() ==> rows@[k] < g.n,
        forall|k: int| 0 <= k < cols@.len() ==> cols@[k] < g.m,
    ensures
        r <= 100000000000000000u64,
{
    let mut total: u64 = 0;
    let mut a: usize = 0;
    while a < rows.len()
        invariant
            a <= rows@.len(),
            g.wf(),
            rows@.len() <= MAX_DIM,
            cols@.len() <= MAX_DIM,
            forall|k: int| 0 <= k < rows@.len() ==> rows@[k] < g.n,
            forall|k: int| 0 <= k < cols@.len() ==> cols@[k] < g.m,
            total <= a * cols@.len() * MAX_WEIGHT,
            total <= 100000000000000000u64,
        decreases rows@.len() - a,
    {
        let mut b: usize = 0;
        let ghost t0 = total as int;
        while b < cols.len()
            invariant
                a < rows@.len(),
                b <= cols@.len(),
                g.wf(),
                rows@.len() <= MAX_DIM,
                cols@.len() <= MAX_DIM,
                forall|k: int| 0 <= k < rows@.len() ==> rows@[k] < g.n,
                forall|k: int| 0 <= k < cols@.len() ==> cols@[k] < g.m,
                0 <= t0,
                t0 <= a * cols@.len() * MAX_WEIGHT,
                total <= t0 + b * MAX_WEIGHT,
                total <= 100000000000000000u64,
            decreases cols@.len() - b,
        {
            let w = g.get_weight(rows[a], cols[b]);
            proof {
                lemma_region_weight_step(
                    a as int, b as int, rows@.len() as int, cols@.len() as int, t0,
                    total as int, w as int);
            }
            total = total + w;
            b += 1;
        }
        proof {
            lemma_region_weight_row(a as int, rows@.len() as int, cols@.len() as int, t0,
                total as int);
        }
        a += 1;
    }
    total
}

/// Bound bookkeeping for one cell added to a region weight sum.
proof fn lemma_region_weight_step(a: int, b: int, nr: int, nc: int, t0: int, total: int, w: int)
    by (nonlinear_arith)
    requires
        0 <= a < nr,
        0 <= b < nc,
        nr <= MAX_DIM,
        nc <= MAX_DIM,
        0 <= w <= MAX_WEIGHT,
        0 <= t0 <= a * nc * MAX_WEIGHT,
        total <= t0 + b * MAX_WEIGHT,
        0 <= total,
    ensures
        total + w <= t0 + (b + 1) * MAX_WEIGHT,
        total + w <= 100000000000000000int,
{
}

/// Bound bookkeeping for one finished row of a region weight sum.
proof fn lemma_region_weight_row(a: int, nr: int, nc: int, t0: int, total: int)
    by (nonlinear_arith)
    requires
        0 <= a < nr,
        nr <= MAX_DIM,
        nc <= MAX_DIM,
        0 <= t0 <= a * nc * MAX_WEIGHT,
        total <= t0 + nc * MAX_WEIGHT,
        0 <= total,
    ensures
        total <= (a + 1) * nc * MAX_WEIGHT,
        total <= 100000000000000000int,
{
}

/// Does the candidate block clear the density-contrast threshold? The
/// contrast is the block's average cell weight against the region's
/// average cell weight, compared in fixed point by cross-multiplication.
fn density_accept(
    tot_high: u64,
    cells_high: u64,
    tot_reg: u64,
    cells_reg: u64,
    threshold: u64,
) -> (r: bool)
    requires
        tot_high <= 100000000000000000u64,
        tot_reg <= 100000000000000000u64,
        cells_high <= 100000000u64,
        cells_reg <= 100000000u64,
        threshold <= MAX_PARAM,
    ensures
        r == (tot_high * cells_reg * SCALE >= threshold * cells_high * tot_reg),
{
    proof {
        lemma_density_products_fit(
            tot_high as int, cells_high as int, tot_reg as int, cells_reg as int,
            threshold as int);
    }
    let lhs = (tot_high as u128) * (cells_reg as u128) * (SCALE as u128);
    let rhs = (threshold as u128) * (cells_high as u128) * (tot_reg as u128);
    lhs >= rhs
}

/// The cross-multiplied density comparison stays inside 128 bits.
proof fn lemma_density_products_fit(th: int, ch: int, tr: int, cr: int, thr: int)
    by (nonlinear_arith)
    requires
        0 <= th <= 100000000000000000int,
        0 <= tr <= 100000000000000000int,
        0 <= ch <= 100000000int,
        0 <= cr <= 100000000int,
        0 <= thr <= MAX_PARAM,
    ensures
        th * cr <= 10000000000000000000000000int,
        th * cr * SCALE <= u128::MAX,
        thr * ch <= 100000000000000000int,
        thr * ch * tr <= u128::MAX,
{
}

/// The size floor a candidate block must reach, derived from the size
/// sensitivity: at least one, twice the sensitivity in fixed point.
pub open spec fn spec_min_size(s: u64) -> int {
    if 2 * s / (SCALE as int) < 1 {
        1int
    } else {
        2 * s / (SCALE as int)
    }
}

fn compute_min_size(s: u64) -> (r: usize)
    requires
        s <= MAX_PARAM,
    ensures
        r == spec_min_size(s),
        r >= 1,
{
    let floor = 2 * s / SCALE;
    if floor < 1 {
        1
    } else {
        floor as usize
    }
}

/// Run the discovery algorithm on `wadj`, consuming the edges of every
/// emitted bicluster.
///
/// On success the returned collection is well-formed — in particular no
/// emitted bicluster has empty rows or empty columns — all its indices are
/// in range for the graph, the graph keeps its dimensions, labels and
/// ground truth, weights are only ever removed (each cell keeps its old
/// weight or drops to zero), and every cell covered by an emitted cluster
/// is zero afterwards, so a rerun on the residual graph can never claim a
/// consumed edge again. Invalid parameters are rejected before any
/// mutation: a split threshold below one (`SCALE` in fixed point) or a
/// zero power-iteration count. `verbose` controls diagnostics volume only
/// and has no effect on the result.
pub fn bicluster(
    wadj: &mut WeightedBiAdjacency,
    size_sensitivity: u64,
    split_threshold: u64,
    power_iterations: usize,
    verbose: usize,
) -> (r: Result<(Biclust, AlgoStats), ConfigError>)
    requires
        old(wadj).wf(),
        size_sensitivity <= MAX_PARAM,
        split_threshold <= MAX_PARAM,
    ensures
        (r matches Err(_)) <==> (split_threshold < SCALE || power_iterations == 0),
        r matches Err(e) ==> {
            &&& *final (wadj) == *old(wadj)
            &&& e == (if split_threshold < SCALE {
                ConfigError::SplitThresholdTooLow
            } else {
                ConfigError::NoPowerIterations
            })
        },
        r matches Ok(pair) ==> {
            &&& pair.1.splits <= pair.1.regions
            &&& pair.1.discarded <= pair.1.regions
            &&& pair.1.regions <= old(wadj).n + 1
            &&& pair.0.clusters@.len() <= old(wadj).n
            &&& pair.1.splits <= pair.0.clusters@.len()
            &&& split_threshold > SCALE ==> pair.0.clusters@.len() == pair.1.splits
            &&& pair.0.wf()
            &&& pair.0.in_range(old(wadj).n as int, old(wadj).m as int)
            &&& final (wadj).wf()
            &&& final (wadj).same_shape(*old(wadj))
            &&& forall|p: int, q: int|
                0 <= p < old(wadj).n && 0 <= q < old(wadj).m ==> (final (wadj).weight(p, q)
                    == old(wadj).weight(p, q) || final (wadj).weight(p, q) == 0)
            &&& forall|p: int, q: int|
                0 <= p < old(wadj).n && 0 <= q < old(wadj).m && !pair.0.covered(p, q)
                    ==> final (wadj).weight(p, q) == old(wadj).weight(p, q)
            &&& forall|k: int, p: int, q: int|
                0 <= k < pair.0.clusters@.len() && 0 <= p < old(wadj).n && 0 <= q < old(
                wadj,
                ).m && pair.0.clusters@[k].covers(p, q) ==> final (wadj).weight(p, q) == 0
        },
{
    if split_threshold < SCALE {
        return Err(ConfigError::SplitThresholdTooLow);
    }
    if power_iterations == 0 {
        return Err(ConfigError::NoPowerIterations);
    }
    let min_size = compute_min_size(size_sensitivity);
    let mut result: Vec<Bicluster> = Vec::new();
    let mut stats = AlgoStats { regions: 0, splits: 0, discarded: 0 };
    let mut worklist: Vec<Region> = Vec::new();
    let all_rows = range_vec(wadj.n);
    let all_cols = range_vec(wadj.m);
    worklist.push(Region { rows: all_rows, cols: all_cols });
    proof {
        lemma_weights_push(Seq::<Region>::empty(), worklist@[0]);
    }
    let ghost n0 = wadj.n as int;
    let ghost m0 = wadj.m as int;
    while worklist.len() > 0
        invariant
            wadj.wf(),
            wadj.same_shape(*old(wadj)),
            wadj.n == n0,
            wadj.m == m0,
            min_size >= 1,
            forall|k: int| 0 <= k < worklist@.len() ==> region_wf(worklist@[k], n0, m0),
            forall|p: int, q: int|
                0 <= p < n0 && 0 <= q < m0 ==> (wadj.weight(p, q) == old(wadj).weight(p, q)
                    || wadj.weight(p, q) == 0),
            forall|k: int| 0 <= k < result@.len() ==> result@[k].wf(),
            forall|k: int| 0 <= k < result@.len() ==> result@[k].in_range(n0, m0),
            forall|k: int, p: int, q: int|
                0 <= k < result@.len() && 0 <= p < n0 && 0 <= q < m0 && result@[k].covers(p, q)
                    ==> wadj.weight(p, q) == 0,
            forall|p: int, q: int|
                0 <= p < n0 && 0 <= q < m0 && !covered_seq(result@, p, q) ==> wadj.weight(p, q)
                    == old(wadj).weight(p, q),
            stats.regions + worklist_weight(worklist@) <= n0 + 1,
            stats.splits <= result@.len(),
            split_threshold > SCALE ==> result@.len() == stats.splits,
            stats.splits <= stats.regions,
            stats.discarded <= stats.regions,
            power_iterations >= 1,
            split_threshold <= MAX_PARAM,
            result@.len() + row_weight(worklist@) <= n0,
            worklist_weight(worklist@) >= 0,
            row_weight(worklist@) >= 0,
        decreases worklist_weight(worklist@),
    {
        proof {
            lemma_weights_nonneg(worklist@);
            lemma_weights_nonneg(worklist@.drop_last());
        }
        let region = worklist.pop().unwrap();
        stats.regions += 1;
        let rp = filter_rows_with_edge(wadj, &region.rows, &region.cols);
        let cp = filter_cols_with_edge(wadj, &rp, &region.cols);
        proof {
            lemma_member_bound(rp@, region.rows@, n0);
            lemma_member_bound(cp@, region.cols@, m0);
        }
        if rp.len() == 0 || cp.len() == 0 || rp.len() < min_size || cp.len() < min_size {
            // Sparse or undersized region: residual noise, not a cluster.
            stats.discarded += 1;
        } else {
            let scores = power_scores(wadj, &rp, &cp, power_iterations);
            let top = max_of(&scores);
            let (high, rest) = partition_by_score(&rp, &scores, top);
            proof {
                lemma_member_bound(high@, rp@, n0);
                lemma_member_bound(rest@, rp@, n0);
            }
            if high.len() == 0 || rest.len() == 0 {
                // Degenerate direction: the region cannot be split further.
                // Its contrast against itself is exactly one, so it is
                // emitted whole when the threshold asks for no more.
                if split_threshold <= SCALE {
                    let ghost pre = *wadj;
                    wadj.remove_edges(&rp, &cp);
                    proof {
                        lemma_consume_preserved(pre, *wadj, *old(wadj), result@, n0, m0, rp@, cp@);
                    }
                    let ghost old_result = result@;
                    result.push(Bicluster { rows: rp, cols: cp });
                    proof {
                        lemma_exact_removal_step(
                            pre, *wadj, *old(wadj), old_result, result@, n0, m0);
                    }
                } else {
                    stats.discarded += 1;
                }
            } else {
                let ch = filter_cols_with_edge(wadj, &high, &cp);
                proof {
                    lemma_member_trans_bound(ch@, cp@, region.cols@);
                    vstd::arithmetic::mul::lemma_mul_upper_bound(
                        high@.len() as int, MAX_DIM as int, ch@.len() as int, MAX_DIM as int);
                    vstd::arithmetic::mul::lemma_mul_upper_bound(
                        rp@.len() as int, MAX_DIM as int, cp@.len() as int, MAX_DIM as int);
                }
                let cells_high = (high.len() as u64) * (ch.len() as u64);
                let cells_reg = (rp.len() as u64) * (cp.len() as u64);
                let tot_high = region_weight(wadj, &high, &ch);
                let tot_reg = region_weight(wadj, &rp, &cp);
                if ch.len() >= 1 && high.len() >= min_size && ch.len() >= min_size
                    && density_accept(tot_high, cells_high, tot_reg, cells_reg, split_threshold) {
                    // Accepted split: consume the block, keep refining the rest.
                    stats.splits += 1;
                    let ghost pre = *wadj;
                    wadj.remove_edges(&high, &ch);
                    proof {
                        lemma_consume_preserved(
                            pre, *wadj, *old(wadj), result@, n0, m0, high@, ch@);
                    }
                    let ghost old_result = result@;
                    result.push(Bicluster { rows: high, cols: ch });
                    proof {
                        lemma_exact_removal_step(
                            pre, *wadj, *old(wadj), old_result, result@, n0, m0);
                    }
                    let ghost wl_before = worklist@;
                    worklist.push(Region { rows: rest, cols: cp });
                    proof {
                        lemma_weights_push(wl_before, worklist@[worklist@.len() - 1]);
                    }
                } else {
                    // Rejected split: the whole region is terminal noise.
                    stats.discarded += 1;
                }
            }
        }
    }
    let found = Biclust { clusters: result };
    Ok((found, stats))
}

/// Entries drawn from a bounded, in-range sequence stay bounded.
proof fn lemma_member_bound(sub: Seq<usize>, sup: Seq<usize>, b: int)
    requires
        forall|k: int| 0 <= k < sub.len() ==> sup.contains(sub[k]),
        forall|t: int| 0 <= t < sup.len() ==> sup[t] < b,
    ensures
        forall|k: int| 0 <= k < sub.len() ==> sub[k] < b,
{
    assert forall|k: int| 0 <= k < sub.len() implies sub[k] < b by {
        let t = choose|t: int| 0 <= t < sup.len() && sup[t] == sub[k];
    }
}

/// Membership composed over two subsequence steps.
proof fn lemma_member_trans_bound(sub: Seq<usize>, mid: Seq<usize>, sup: Seq<usize>)
    requires
        forall|k: int| 0 <= k < sub.len() ==> mid.contains(sub[k]),
        forall|k: int| 0 <= k < mid.len() ==> sup.contains(mid[k]),
    ensures
        forall|k: int| 0 <= k < sub.len() ==> sup.contains(sub[k]),
{
    assert forall|k: int| 0 <= k < sub.len() implies sup.contains(sub[k]) by {
        let t = choose|t: int| 0 <= t < mid.len() && mid[t] == sub[k];
        assert(sup.contains(mid[t]));
    }
}

/// A cell no emitted cluster covers keeps its original weight: removing
/// the newly emitted block touches only that block's cells, and earlier
/// untouched cells were already original by the loop's own invariant.
proof fn lemma_exact_removal_step(
    pre: WeightedBiAdjacency,
    post: WeightedBiAdjacency,
    orig: WeightedBiAdjacency,
    before: Seq<Bicluster>,
    after: Seq<Bicluster>,
    n0: int,
    m0: int,
)
    requires
        0 <= n0 <= MAX_DIM,
        0 <= m0 <= MAX_DIM,
        after.len() == before.len() + 1,
        forall|k: int| 0 <= k < before.len() ==> after[k] == before[k],
        forall|p: int, q: int|
            0 <= p < n0 && 0 <= q < m0 ==> post.weight(p, q) == (
                if after.last().rows@.contains(p as usize) && after.last().cols@.contains(
                    q as usize,
                ) {
                    0u64
                } else {
                    pre.weight(p, q)
                }
            ),
        forall|p: int, q: int|
            0 <= p < n0 && 0 <= q < m0 && !covered_seq(before, p, q) ==> pre.weight(p, q)
                == orig.weight(p, q),
    ensures
        forall|p: int, q: int|
            0 <= p < n0 && 0 <= q < m0 && !covered_seq(after, p, q) ==> post.weight(p, q)
                == orig.weight(p, q),
{
    assert forall|p: int, q: int|
        0 <= p < n0 && 0 <= q < m0 && !covered_seq(after, p, q) implies post.weight(p, q)
        == orig.weight(p, q) by {
        if covered_seq(before, p, q) {
            let k = choose|k: int| 0 <= k < before.len() && before[k].covers(p, q);
            assert(after[k].covers(p, q));
            assert(false);
        }
        if after.last().rows@.contains(p as usize) && after.last().cols@.contains(q as usize) {
            assert(exists|k: int|
                0 <= k < after.last().rows@.len() && after.last().rows@[k] == p as usize);
            let kr = choose|k: int|
                0 <= k < after.last().rows@.len() && after.last().rows@[k] == p as usize;
            assert(exists|k: int|
                0 <= k < after.last().cols@.len() && after.last().cols@[k] == q as usize);
            let kc = choose|k: int|
                0 <= k < after.last().cols@.len() && after.last().cols@[k] == q as usize;
            assert(after.last().rows@[kr] == p as usize && p as usize as int == p);
            assert(after.last().cols@[kc] == q as usize && q as usize as int == q);
            assert(after.last().covers(p, q));
            assert(0 <= after.len() - 1 < after.len() && after[after.len() - 1].covers(p, q));
            assert(false);
        }
    }
}

/// Removing one more block keeps every earlier cluster consumed and keeps
/// the graph a pure weight-removal of the original.
proof fn lemma_consume_preserved(
    pre: WeightedBiAdjacency,
    post: WeightedBiAdjacency,
    orig: WeightedBiAdjacency,
    emitted: Seq<Bicluster>,
    n0: int,
    m0: int,
    rows: Seq<usize>,
    cols: Seq<usize>,
)
    requires
        pre.n == n0,
        pre.m == m0,
        post.n == n0,
        post.m == m0,
        orig.n == n0,
        orig.m == m0,
        forall|p: int, q: int|
            0 <= p < n0 && 0 <= q < m0 ==> post.weight(p, q) == (
                if rows.contains(p as usize) && cols.contains(q as usize) {
                    0u64
                } else {
                    pre.weight(p, q)
                }
            ),
        forall|p: int, q: int|
            0 <= p < n0 && 0 <= q < m0 ==> (pre.weight(p, q) == orig.weight(p, q)
                || pre.weight(p, q) == 0),
        forall|k: int, p: int, q: int|
            0 <= k < emitted.len() && 0 <= p < n0 && 0 <= q < m0 && emitted[k].covers(p, q)
                ==> pre.weight(p, q) == 0,
    ensures
        forall|p: int, q: int|
            0 <= p < n0 && 0 <= q < m0 ==> (post.weight(p, q) == orig.weight(p, q)
                || post.weight(p, q) == 0),
        forall|k: int, p: int, q: int|
            0 <= k < emitted.len() && 0 <= p < n0 && 0 <= q < m0 && emitted[k].covers(p, q)
                ==> post.weight(p, q) == 0,
        forall|p: int, q: int|
            0 <= p < n0 && 0 <= q < m0 && rows.contains(p as usize) && cols.contains(q as usize)
                ==> post.weight(p, q) == 0,
{
}

/// After a discovery run, every cell of an emitted cluster is edge-free in
/// the residual graph, and stays edge-free through any further run, since
/// runs only ever remove weight: rerunning discovery on the residual graph
/// can never emit a previously consumed cluster's edges again.
pub proof fn lemma_residual_never_reclaims(
    g1: WeightedBiAdjacency,
    bs1: Biclust,
    g2: WeightedBiAdjacency,
)
    requires
        g1.n == g2.n,
        g1.m == g2.m,
        forall|k: int, p: int, q: int|
            0 <= k < bs1.clusters@.len() && 0 <= p < g1.n && 0 <= q < g1.m
                && bs1.clusters@[k].covers(p, q) ==> g1.weight(p, q) == 0,
        forall|p: int, q: int|
            0 <= p < g1.n && 0 <= q < g1.m ==> (g2.weight(p, q) == g1.weight(p, q)
                || g2.weight(p, q) == 0),
    ensures
        forall|k: int, p: int, q: int|
            0 <= k < bs1.clusters@.len() && 0 <= p < g1.n && 0 <= q < g1.m
                && bs1.clusters@[k].covers(p, q) ==> !g1.is_edge(p, q) && !g2.is_edge(p, q),
{
}

} // verus!
