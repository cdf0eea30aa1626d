//! Synthetic graph generation with planted ground truth, and the noise
//! estimate that compares a graph against its planted structure.
//!
//! Blocks of ten rows by ten columns are planted on a stride of twenty, so
//! every planted block is surrounded by background cells. Inside a block a
//! cell carries the full signal weight (`SCALE`) minus a random perturbation
//! bounded by `noise`; outside, it carries background weight bounded by
//! `noise` plus the separation shortfall `SCALE - row_separation`. With an
//! overlap factor above one, each row of a block may also join the next
//! block, with probability proportional to the excess.

use vstd::prelude::*;
use crate::biclust::{Bicluster, Biclust};
use crate::graph::WeightedBiAdjacency;
use crate::{MAX_DIM, MAX_WEIGHT, SCALE};

verus! {

/// Relies on rand's `Rng::gen_range` on `rand::thread_rng`: it returns a
/// value inside the given inclusive range, and panics only on an empty
/// range, which the precondition rules out. Nothing more is assumed: the
/// result may differ between two calls on the same arguments.
#[verifier::external_body]
fn draw_u64(lo: u64, hi: u64) -> (r: u64)
    requires
        lo <= hi,
    ensures
        lo <= r <= hi,
{
    let mut rng = rand::thread_rng();
    rand::Rng::gen_range(&mut rng, lo..=hi)
}

/// How many blocks are planted into an `n` by `m` graph.
pub open spec fn spec_block_count(n: usize, m: usize) -> int {
    (if n < m {
        n as int
    } else {
        m as int
    }) / 20
}

/// The planted block `b` exactly: rows and columns `b*20 .. b*20+10`.
pub open spec fn exact_block(c: Bicluster, b: int) -> bool {
    &&& c.rows@.len() == 10
    &&& c.cols@.len() == 10
    &&& forall|t: int| 0 <= t < 10 ==> c.rows@[t] == b * 20 + t
    &&& forall|t: int| 0 <= t < 10 ==> c.cols@[t] == b * 20 + t
}

/// The shape every planted cluster has, whatever the overlap draws gave:
/// the columns are exactly the strided ten-column block, the last ten rows
/// are exactly the strided ten-row block, and any rows before them came
/// from the preceding block (so the first block is never extended).
pub open spec fn planted_block_shape(c: Bicluster, b: int) -> bool {
    &&& c.cols@.len() == 10
    &&& forall|t: int| 0 <= t < 10 ==> c.cols@[t] == b * 20 + t
    &&& 10 <= c.rows@.len() <= 20
    &&& forall|t: int|
        c.rows@.len() - 10 <= t < c.rows@.len() ==> c.rows@[t] == b * 20 + (t - (c.rows@.len()
            - 10))
    &&& forall|t: int|
        0 <= t < c.rows@.len() - 10 ==> b >= 1 && (b - 1) * 20 <= #[trigger] (c.rows@[t]) && c.rows@[t]
            < (b - 1) * 20 + 10
}

/// What generation guarantees of one cell, whatever the random source
/// returned: full signal minus at most `noise` inside a planted block, at
/// most `noise` plus the separation shortfall outside.
pub open spec fn gen_cell_ok(cov: bool, w: u64, noise: u64, sep: u64) -> bool {
    if cov {
        SCALE - noise <= w <= SCALE
    } else {
        w <= noise + (SCALE - sep)
    }
}

/// The ideal planted weight of a cell: full signal inside the ground
/// truth, nothing outside.
pub open spec fn ideal_weight(gt: Biclust, i: int, j: int) -> u64 {
    if gt.covered(i, j) {
        SCALE
    } else {
        0u64
    }
}

/// The absolute difference of a realized and an ideal weight.
pub open spec fn weight_dev(w: u64, v: u64) -> int {
    if w >= v {
        w - v
    } else {
        v - w
    }
}

/// Total deviation of row `i` before column `c`.
pub open spec fn dev_row(g: WeightedBiAdjacency, gt: Biclust, i: int, c: int) -> int
    decreases c,
{
    if c <= 0 {
        0
    } else {
        dev_row(g, gt, i, c - 1) + weight_dev(g.weight(i, c - 1), ideal_weight(gt, i, c - 1))
    }
}

/// Total deviation over the rows before `r`.
pub open spec fn dev_grid(g: WeightedBiAdjacency, gt: Biclust, r: int, c: int) -> int
    decreases r,
{
    if r <= 0 {
        0
    } else {
        dev_grid(g, gt, r - 1, c) + dev_row(g, gt, r - 1, c)
    }
}

/// A graph that realizes its planted ideal exactly deviates by nothing:
/// generation with zero noise and full separation yields noise zero
/// against its own ground truth.
pub proof fn lemma_zero_noise_zero_deviation(g: WeightedBiAdjacency, gt: Biclust, r: int, c: int)
    requires
        forall|p: int, q: int|
            0 <= p < r && 0 <= q < c ==> gen_cell_ok(gt.covered(p, q), g.weight(p, q), 0, SCALE),
    ensures
        dev_grid(g, gt, r, c) == 0,
    decreases r,
{
    if r > 0 {
        lemma_zero_noise_zero_deviation(g, gt, r - 1, c);
        lemma_zero_noise_zero_dev_row(g, gt, r - 1, c);
    }
}

proof fn lemma_zero_noise_zero_dev_row(g: WeightedBiAdjacency, gt: Biclust, i: int, c: int)
    requires
        forall|q: int| 0 <= q < c ==> gen_cell_ok(gt.covered(i, q), g.weight(i, q), 0, SCALE),
    ensures
        dev_row(g, gt, i, c) == 0,
    decreases c,
{
    if c > 0 {
        lemma_zero_noise_zero_dev_row(g, gt, i, c - 1);
    }
}

/// Bound bookkeeping for one cell added to the deviation sum.
proof fn lemma_dev_step(i: int, j: int, n: int, m: int, t0: int, total: int, d: int)
    by (nonlinear_arith)
    requires
        0 <= i < n,
        0 <= j < m,
        n <= MAX_DIM,
        m <= MAX_DIM,
        0 <= d <= MAX_WEIGHT,
        0 <= t0 <= i * m * MAX_WEIGHT,
        total <= t0 + j * MAX_WEIGHT,
        0 <= total,
    ensures
        total + d <= t0 + (j + 1) * MAX_WEIGHT,
        total + d <= 100000000000000000int,
{
}

/// Bound bookkeeping for one finished row of the deviation sum.
proof fn lemma_dev_row_done(i: int, n: int, m: int, t0: int, total: int)
    by (nonlinear_arith)
    requires
        0 <= i < n,
        n <= MAX_DIM,
        m <= MAX_DIM,
        0 <= t0 <= i * m * MAX_WEIGHT,
        total <= t0 + m * MAX_WEIGHT,
        0 <= total,
    ensures
        total <= (i + 1) * m * MAX_WEIGHT,
        total <= 100000000000000000int,
{
}

impl WeightedBiAdjacency {
    /// The planted ground truth, if this graph was generated with one.
    pub fn get_ground_truth(&self) -> (r: &Option<Biclust>)
        ensures
            *r == self.ground_truth,
    {
        &self.ground_truth
    }

    /// How far the realized weights deviate from the ideal planted-block
    /// weights of the given ground truth, as a total absolute difference.
    /// Zero exactly when every cell realizes its ideal.
    pub fn compute_noise(&self, gt: &Biclust) -> (r: u64)
        requires
            self.wf(),
        ensures
            r == dev_grid(*self, *gt, self.n as int, self.m as int),
    {
        let mut total: u64 = 0;
        let mut i: usize = 0;
        while i < self.n
            invariant
                i <= self.n,
                self.wf(),
                total == dev_grid(*self, *gt, i as int, self.m as int),
                total <= i * self.m * MAX_WEIGHT,
                total <= 100000000000000000u64,
            decreases self.n - i,
        {
            let mut j: usize = 0;
            let ghost t0 = total as int;
            while j < self.m
                invariant
                    i < self.n,
                    j <= self.m,
                    self.wf(),
                    total == t0 + dev_row(*self, *gt, i as int, j as int),
                    0 <= t0,
                    t0 <= i * self.m * MAX_WEIGHT,
                    total <= t0 + j * MAX_WEIGHT,
                    total <= 100000000000000000u64,
                decreases self.m - j,
            {
                let w = self.get_weight(i, j);
                let cov = gt.covers_cell(i, j);
                let ideal: u64 = if cov {
                    SCALE
                } else {
                    0
                };
                proof {
                    assert(gt.covered(i as int, j as int) == crate::score::covered_seq(
                        gt.clusters@, i as int, j as int));
                }
                let d = if w >= ideal {
                    w - ideal
                } else {
                    ideal - w
                };
                proof {
                    lemma_dev_step(i as int, j as int, self.n as int, self.m as int, t0,
                        total as int, d as int);
                }
                total = total + d;
                j += 1;
            }
            proof {
                lemma_dev_row_done(i as int, self.n as int, self.m as int, t0, total as int);
            }
            i += 1;
        }
        total
    }

    /// Generate an `n` by `m` graph with planted ground-truth blocks.
    ///
    /// Blocks of ten by ten are planted on a stride of twenty, so a graph
    /// needs both dimensions at least twenty to receive a ground truth;
    /// smaller graphs legitimately get none. Inside a block every cell
    /// carries between `SCALE - noise` and `SCALE`; outside, at most
    /// `noise + (SCALE - row_separation)`. With `noise` zero and
    /// `row_separation` full, the graph realizes its ideal exactly. With
    /// `row_overlap` equal to `SCALE` the blocks are exactly the strided
    /// ten-by-ten squares; above it, rows of one block may also join the
    /// following block.
    pub fn rand_graph(n: usize, m: usize, noise: u64, row_overlap: u64, row_separation: u64) -> (r:
        Self)
        requires
            n <= MAX_DIM,
            m <= MAX_DIM,
            noise <= SCALE,
            SCALE <= row_overlap <= 2 * SCALE,
            row_separation <= SCALE,
        ensures
            r.wf(),
            r.n == n,
            r.m == m,
            (r.ground_truth is Some) <==> (n >= 20 && m >= 20),
            r.ground_truth matches Some(gt) ==> {
                &&& gt.clusters@.len() == spec_block_count(n, m)
                &&& gt.clusters@.len() >= 1
                &&& forall|p: int, q: int|
                    0 <= p < n && 0 <= q < m ==> gen_cell_ok(gt.covered(p, q), r.weight(p, q),
                        noise, row_separation)
                &&& forall|b: int|
                    0 <= b < gt.clusters@.len() ==> planted_block_shape(gt.clusters@[b], b)
                &&& row_overlap == SCALE ==> forall|b: int|
                    0 <= b < gt.clusters@.len() ==> exact_block(gt.clusters@[b], b)
            },
            r.ground_truth is None ==> forall|p: int, q: int|
                0 <= p < n && 0 <= q < m ==> gen_cell_ok(false, r.weight(p, q), noise,
                    row_separation),
    {
        let mut g = WeightedBiAdjacency::new(n, m);
        let mn = if n < m {
            n
        } else {
            m
        };
        let k = mn / 20;
        proof {
            vstd::arithmetic::div_mod::lemma_fundamental_div_mod(mn as int, 20);
            vstd::arithmetic::div_mod::lemma_div_pos_is_pos(mn as int, 20);
        }
        let mut gt = Biclust { clusters: Vec::new() };
        let mut b: usize = 0;
        while b < k
            invariant
                b <= k,
                k == spec_block_count(n, m),
                20 * k <= n,
                20 * k <= m,
                n <= MAX_DIM,
                m <= MAX_DIM,
                SCALE <= row_overlap <= 2 * SCALE,
                gt.clusters@.len() == b,
                forall|t: int| 0 <= t < b ==> gt.clusters@[t].wf(),
                forall|t: int| 0 <= t < b ==> gt.clusters@[t].in_range(n as int, m as int),
                forall|t: int| 0 <= t < b ==> planted_block_shape(gt.clusters@[t], t),
                row_overlap == SCALE ==> forall|t: int|
                    0 <= t < b ==> exact_block(gt.clusters@[t], t),
            decreases k - b,
        {
            let mut rows: Vec<usize> = Vec::new();
            if b >= 1 && row_overlap > SCALE {
                let mut t: usize = 0;
                while t < 10
                    invariant
                        t <= 10,
                        b >= 1,
                        b < k,
                        20 * k <= n,
                        SCALE <= row_overlap,
                        rows@.len() <= t,
                        forall|u: int, v: int| 0 <= u < v < rows@.len() ==> rows@[u] < rows@[v],
                        forall|u: int| 0 <= u < rows@.len()
                            ==> (b - 1) * 20 <= #[trigger] (rows@[u]) && rows@[u] < (b - 1) * 20
                                + t,
                    decreases 10 - t,
                {
                    let d = draw_u64(0, SCALE - 1);
                    if d < row_overlap - SCALE {
                        proof {
                            lemma_block_index_fits(b as int - 1, t as int, k as int, n as int);
                        }
                        rows.push((b - 1) * 20 + t);
                    }
                    t += 1;
                }
            }
            let ghost extras = rows@;
            let mut t: usize = 0;
            while t < 10
                invariant
                    t <= 10,
                    b < k,
                    20 * k <= n,
                    rows@.len() == extras.len() + t,
                    forall|u: int| 0 <= u < extras.len() ==> rows@[u] == extras[u],
                    forall|u: int, v: int| 0 <= u < v < rows@.len() ==> rows@[u] < rows@[v],
                    forall|u: int| 0 <= u < extras.len() ==> extras[u] < b * 20,
                    forall|u: int| extras.len() <= u < rows@.len()
                        ==> rows@[u] == b * 20 + (u - extras.len()),
                    forall|u: int| 0 <= u < rows@.len() ==> rows@[u] < b * 20 + t || u < extras.len(),
                decreases 10 - t,
            {
                proof {
                    lemma_block_index_fits(b as int, t as int, k as int, n as int);
                }
                let ghost old_r = rows@;
                rows.push(b * 20 + t);
                proof {
                    assert forall|u: int, v: int| 0 <= u < v < rows@.len() implies rows@[u]
                        < rows@[v] by {
                        if v == rows@.len() - 1 {
                            if u < extras.len() {
                                assert(rows@[u] == extras[u]);
                                assert(extras[u] < b * 20);
                            } else {
                                assert(rows@[u] == b * 20 + (u - extras.len()));
                            }
                        } else {
                            assert(old_r[u] < old_r[v]);
                        }
                    }
                }
                t += 1;
            }
            let mut cols: Vec<usize> = Vec::new();
            let mut t2: usize = 0;
            while t2 < 10
                invariant
                    t2 <= 10,
                    b < k,
                    20 * k <= m,
                    cols@.len() == t2,
                    forall|u: int| 0 <= u < t2 ==> cols@[u] == b * 20 + u,
                decreases 10 - t2,
            {
                proof {
                    lemma_block_index_fits(b as int, t2 as int, k as int, m as int);
                }
                cols.push(b * 20 + t2);
                t2 += 1;
            }
            proof {
                assert forall|u: int, v: int| 0 <= u < v < cols@.len() implies cols@[u]
                    < cols@[v] by {}
                assert forall|u: int| 0 <= u < rows@.len() implies rows@[u] < n by {
                    lemma_block_index_fits(b as int, 9, k as int, n as int);
                    if u < extras.len() {
                        assert(rows@[u] == extras[u]);
                        assert(extras[u] < b * 20);
                    } else {
                        assert(rows@[u] == b * 20 + (u - extras.len()));
                    }
                }
                assert forall|u: int| 0 <= u < cols@.len() implies cols@[u] < m by {
                    lemma_block_index_fits(b as int, 9, k as int, m as int);
                }
            }
            proof {
                let c = (Bicluster { rows, cols });
                assert(c.rows@.len() == extras.len() + 10);
                assert forall|t: int|
                    c.rows@.len() - 10 <= t < c.rows@.len() implies c.rows@[t] == b * 20 + (t - (
                c.rows@.len() - 10)) by {
                    assert(c.rows@[t] == b * 20 + (t - extras.len()));
                }
                assert forall|t: int|
                    0 <= t < c.rows@.len() - 10 implies b >= 1 && (b - 1) * 20 <= #[trigger] (
                c.rows@[t]) && c.rows@[t] < (b - 1) * 20 + 10 by {
                    assert(c.rows@[t] == extras[t]);
                }
                assert(planted_block_shape(c, b as int));
            }
            gt.clusters.push(Bicluster { rows, cols });
            b += 1;
        }
        // Fill every cell according to whether the ground truth covers it.
        let mut i: usize = 0;
        while i < n
            invariant
                i <= n,
                g.wf(),
                g.n == n,
                g.m == m,
                g.ground_truth is None,
                noise <= SCALE,
                row_separation <= SCALE,
                forall|p: int, q: int|
                    0 <= p < i && 0 <= q < m ==> gen_cell_ok(
                        crate::score::covered_seq(gt.clusters@, p, q), g.weight(p, q), noise,
                        row_separation),
            decreases n - i,
        {
            let mut j: usize = 0;
            while j < m
                invariant
                    i < n,
                    j <= m,
                    g.wf(),
                    g.n == n,
                    g.m == m,
                    g.ground_truth is None,
                    noise <= SCALE,
                    row_separation <= SCALE,
                    forall|p: int, q: int|
                        0 <= p < i && 0 <= q < m ==> gen_cell_ok(
                            crate::score::covered_seq(gt.clusters@, p, q), g.weight(p, q), noise,
                            row_separation),
                    forall|q: int|
                        0 <= q < j ==> gen_cell_ok(
                            crate::score::covered_seq(gt.clusters@, i as int, q),
                            g.weight(i as int, q), noise, row_separation),
                decreases m - j,
            {
                let cov = gt.covers_cell(i, j);
                let w: u64 = if cov {
                    SCALE - draw_u64(0, noise)
                } else {
                    draw_u64(0, noise) + draw_u64(0, SCALE - row_separation)
                };
                let ghost before = g;
                g.set_weight(i, j, w);
                proof {
                    assert forall|p: int, q: int|
                        0 <= p < i && 0 <= q < m implies gen_cell_ok(
                        crate::score::covered_seq(gt.clusters@, p, q), g.weight(p, q), noise,
                        row_separation) by {
                        assert(g.weight(p, q) == before.weight(p, q));
                    }
                    assert forall|q: int|
                        0 <= q < j + 1 implies gen_cell_ok(
                        crate::score::covered_seq(gt.clusters@, i as int, q),
                        g.weight(i as int, q), noise, row_separation) by {
                        if q < j {
                            assert(g.weight(i as int, q) == before.weight(i as int, q));
                        }
                    }
                }
                j += 1;
            }
            i += 1;
        }
        if k >= 1 {
            let ghost gt_snap = gt;
            let ghost gfill = g;
            g.set_ground_truth(gt);
            proof {
                assert forall|p: int, q: int| 0 <= p < n && 0 <= q < m implies gen_cell_ok(
                    g.ground_truth->Some_0.covered(p, q), g.weight(p, q), noise,
                    row_separation) by {
                    assert(gen_cell_ok(crate::score::covered_seq(gt_snap.clusters@, p, q),
                        gfill.weight(p, q), noise, row_separation));
                    assert(g.weights@ == gfill.weights@);
                    assert(g.weight(p, q) == gfill.weight(p, q));
                    assert(g.ground_truth->Some_0 == gt_snap);
                    assert(g.ground_truth->Some_0.covered(p, q)
                        == crate::score::covered_seq(gt_snap.clusters@, p, q));
                }
            }
        }
        g
    }
}

/// A block index stays inside the graph dimension it was derived from.
proof fn lemma_block_index_fits(b: int, t: int, k: int, dim: int)
    by (nonlinear_arith)
    requires
        0 <= b < k,
        0 <= t < 10,
        20 * k <= dim,
    ensures
        b * 20 + t < dim,
        (b + 1) * 20 > b * 20 + t,
{
}

} // verus!
