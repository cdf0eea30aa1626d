//! The weighted bipartite graph: dense weight storage over node sets A and B,
//! label tables for I/O, an optional planted ground truth, and the
//! destructive edge removal the discovery engine relies on.

use vstd::prelude::*;
use crate::biclust::{Biclust, in_prefix, lemma_in_prefix_full};
use crate::{MAX_DIM, MAX_WEIGHT, SCALE};

verus! {

/// A weighted bipartite graph with `n` row nodes and `m` column nodes.
/// A weight of zero means the edge is absent.
#[derive(Debug)]
pub struct WeightedBiAdjacency {
    pub n: usize,
    pub m: usize,
    pub weights: Vec<Vec<u64>>,
    pub labels_a: Vec<Vec<u8>>,
    pub labels_b: Vec<Vec<u8>>,
    pub ground_truth: Option<Biclust>,
}

impl WeightedBiAdjacency {
    /// The weight of the cell `(i, j)`.
    pub open spec fn weight(self, i: int, j: int) -> u64 {
        self.weights@[i]@[j]
    }

    /// The cell `(i, j)` carries an edge.
    pub open spec fn is_edge(self, i: int, j: int) -> bool {
        0 <= i < self.n && 0 <= j < self.m && self.weight(i, j) > 0
    }

    /// Well-formed graph: dense index ranges, bounded dimensions and
    /// weights, one label per node, and a valid ground truth if present.
    pub open spec fn wf(self) -> bool {
        &&& self.n <= MAX_DIM
        &&& self.m <= MAX_DIM
        &&& self.weights@.len() == self.n
        &&& forall|i: int| 0 <= i < self.n ==> self.weights@[i]@.len() == self.m
        &&& forall|i: int, j: int|
            0 <= i < self.n && 0 <= j < self.m ==> self.weight(i, j) <= MAX_WEIGHT
        &&& self.labels_a@.len() == self.n
        &&& self.labels_b@.len() == self.m
        &&& match self.ground_truth {
            Some(gt) => gt.wf() && gt.in_range(self.n as int, self.m as int),
            None => true,
        }
    }

    /// The two graphs agree on everything but the weights.
    pub open spec fn same_shape(self, other: Self) -> bool {
        &&& self.n == other.n
        &&& self.m == other.m
        &&& self.labels_a@ == other.labels_a@
        &&& self.labels_b@ == other.labels_b@
        &&& self.ground_truth == other.ground_truth
    }

    /// The two graphs hold the same content: dimensions, weights, label
    /// text, and ground-truth clusters.
    pub open spec fn same_content(self, other: Self) -> bool {
        &&& self.n == other.n
        &&& self.m == other.m
        &&& forall|p: int, q: int|
            0 <= p < self.n && 0 <= q < self.m ==> self.weight(p, q) == other.weight(p, q)
        &&& self.labels_a@.len() == other.labels_a@.len()
        &&& forall|k: int| 0 <= k < self.labels_a@.len()
            ==> self.labels_a@[k]@ == other.labels_a@[k]@
        &&& self.labels_b@.len() == other.labels_b@.len()
        &&& forall|k: int| 0 <= k < self.labels_b@.len()
            ==> self.labels_b@[k]@ == other.labels_b@[k]@
        &&& match (self.ground_truth, other.ground_truth) {
            (Some(g1), Some(g2)) => g1.equiv(g2),
            (None, None) => true,
            _ => false,
        }
    }

    /// A fresh graph with no edges, empty labels and no ground truth.
    pub fn new(n: usize, m: usize) -> (r: Self)
        requires
            n <= MAX_DIM,
            m <= MAX_DIM,
        ensures
            r.wf(),
            r.n == n,
            r.m == m,
            forall|i: int, j: int| 0 <= i < n && 0 <= j < m ==> r.weight(i, j) == 0,
            forall|i: int| 0 <= i < n ==> r.labels_a@[i]@ == Seq::<u8>::empty(),
            forall|j: int| 0 <= j < m ==> r.labels_b@[j]@ == Seq::<u8>::empty(),
            r.ground_truth is None,
    {
        let mut weights: Vec<Vec<u64>> = Vec::new();
        let mut i: usize = 0;
        while i < n
            invariant
                i <= n,
                weights@.len() == i,
                forall|p: int| 0 <= p < i ==> weights@[p]@.len() == m,
                forall|p: int, q: int| 0 <= p < i && 0 <= q < m ==> weights@[p]@[q] == 0,
            decreases n - i,
        {
            let mut row: Vec<u64> = Vec::new();
            let mut j: usize = 0;
            while j < m
                invariant
                    j <= m,
                    row@.len() == j,
                    forall|q: int| 0 <= q < j ==> row@[q] == 0,
                decreases m - j,
            {
                row.push(0);
                j += 1;
            }
            weights.push(row);
            i += 1;
        }
        let mut labels_a: Vec<Vec<u8>> = Vec::new();
        let mut k: usize = 0;
        while k < n
            invariant
                k <= n,
                labels_a@.len() == k,
                forall|p: int| 0 <= p < k ==> labels_a@[p]@ == Seq::<u8>::empty(),
            decreases n - k,
        {
            labels_a.push(Vec::new());
            k += 1;
        }
        let mut labels_b: Vec<Vec<u8>> = Vec::new();
        let mut t: usize = 0;
        while t < m
            invariant
                t <= m,
                labels_b@.len() == t,
                forall|p: int| 0 <= p < t ==> labels_b@[p]@ == Seq::<u8>::empty(),
            decreases m - t,
        {
            labels_b.push(Vec::new());
            t += 1;
        }
        WeightedBiAdjacency { n, m, weights, labels_a, labels_b, ground_truth: None }
    }

    /// Read the weight of one cell.
    pub fn get_weight(&self, i: usize, j: usize) -> (r: u64)
        requires
            self.wf(),
            i < self.n,
            j < self.m,
        ensures
            r == self.weight(i as int, j as int),
    {
        self.weights[i][j]
    }

    /// Write the weight of one cell; every other cell and all metadata stay.
    pub fn set_weight(&mut self, i: usize, j: usize, w: u64)
        requires
            old(self).wf(),
            i < old(self).n,
            j < old(self).m,
            w <= MAX_WEIGHT,
        ensures
            final(self).wf(),
            final(self).same_shape(*old(self)),
            final(self).weight(i as int, j as int) == w,
            forall|p: int, q: int|
                0 <= p < old(self).n && 0 <= q < old(self).m && !(p == i && q == j)
                    ==> final(self).weight(p, q) == old(self).weight(p, q),
    {
        self.weights[i][j] = w;
        proof {
            assert forall|p: int, q: int| 0 <= p < self.n && 0 <= q < self.m
                implies self.weight(p, q) <= MAX_WEIGHT by {
                if !(p == i && q == j) {
                    assert(self.weight(p, q) == old(self).weight(p, q));
                    assert(old(self).weight(p, q) <= MAX_WEIGHT);
                }
            }
        }
    }

    /// Attach a row label.
    pub fn set_label_a(&mut self, i: usize, label: Vec<u8>)
        requires
            old(self).wf(),
            i < old(self).n,
        ensures
            final(self).wf(),
            final(self).n == old(self).n,
            final(self).m == old(self).m,
            final(self).weights@ == old(self).weights@,
            final(self).ground_truth == old(self).ground_truth,
            final(self).labels_b@ == old(self).labels_b@,
            final(self).labels_a@ == old(self).labels_a@.update(i as int, label),
    {
        self.labels_a[i] = label;
        proof {
            lemma_weight_bound_transfer(*old(self), *self);
        }
    }

    /// Attach a column label.
    pub fn set_label_b(&mut self, j: usize, label: Vec<u8>)
        requires
            old(self).wf(),
            j < old(self).m,
        ensures
            final(self).wf(),
            final(self).n == old(self).n,
            final(self).m == old(self).m,
            final(self).weights@ == old(self).weights@,
            final(self).ground_truth == old(self).ground_truth,
            final(self).labels_a@ == old(self).labels_a@,
            final(self).labels_b@ == old(self).labels_b@.update(j as int, label),
    {
        self.labels_b[j] = label;
        proof {
            lemma_weight_bound_transfer(*old(self), *self);
        }
    }

    /// Attach a planted ground truth.
    pub fn set_ground_truth(&mut self, gt: Biclust)
        requires
            old(self).wf(),
            gt.wf(),
            gt.in_range(old(self).n as int, old(self).m as int),
        ensures
            final(self).wf(),
            final(self).n == old(self).n,
            final(self).m == old(self).m,
            final(self).weights@ == old(self).weights@,
            final(self).labels_a@ == old(self).labels_a@,
            final(self).labels_b@ == old(self).labels_b@,
            final(self).ground_truth == Some(gt),
    {
        self.ground_truth = Some(gt);
        proof {
            lemma_weight_bound_transfer(*old(self), *self);
        }
    }

    /// Delete every edge whose endpoints lie in the given row and column
    /// index sets: the engine uses this to consume an extracted cluster.
    pub fn remove_edges(&mut self, rows: &Vec<usize>, cols: &Vec<usize>)
        requires
            old(self).wf(),
            forall|k: int| 0 <= k < rows@.len() ==> rows@[k] < old(self).n,
            forall|k: int| 0 <= k < cols@.len() ==> cols@[k] < old(self).m,
        ensures
            final(self).wf(),
            final(self).same_shape(*old(self)),
            forall|p: int, q: int|
                0 <= p < old(self).n && 0 <= q < old(self).m ==> final(self).weight(p, q) == (
                    if rows@.contains(p as usize) && cols@.contains(q as usize) {
                        0u64
                    } else {
                        old(self).weight(p, q)
                    }
                ),
    {
        let ghost g0 = *self;
        let mut a: usize = 0;
        while a < rows.len()
            invariant
                a <= rows@.len(),
                self.wf(),
                self.same_shape(g0),
                g0.wf(),
                forall|k: int| 0 <= k < rows@.len() ==> rows@[k] < g0.n,
                forall|k: int| 0 <= k < cols@.len() ==> cols@[k] < g0.m,
                forall|p: int, q: int|
                    0 <= p < g0.n && 0 <= q < g0.m ==> self.weight(p, q) == (
                        if in_prefix(rows@, p as usize, a as int) && cols@.contains(q as usize) {
                            0u64
                        } else {
                            g0.weight(p, q)
                        }
                    ),
            decreases rows@.len() - a,
        {
            let i = rows[a];
            let ghost g1 = *self;
            let mut b: usize = 0;
            while b < cols.len()
                invariant
                    b <= cols@.len(),
                    a < rows@.len(),
                    i == rows@[a as int],
                    self.wf(),
                    self.same_shape(g1),
                    g1.wf(),
                    i < g1.n,
                    forall|k: int| 0 <= k < cols@.len() ==> cols@[k] < g1.m,
                    forall|p: int, q: int|
                        0 <= p < g1.n && 0 <= q < g1.m ==> self.weight(p, q) == (
                            if p == i && in_prefix(cols@, q as usize, b as int) {
                                0u64
                            } else {
                                g1.weight(p, q)
                            }
                        ),
                decreases cols@.len() - b,
            {
                let j = cols[b];
                let ghost prev = *self;
                self.weights[i][j] = 0;
                proof {
                    assert forall|p: int, q: int| 0 <= p < g1.n && 0 <= q < g1.m implies
                        self.weight(p, q) == (
                            if p == i && in_prefix(cols@, q as usize, b as int + 1) {
                                0u64
                            } else {
                                g1.weight(p, q)
                            }
                        ) by {
                        if p == i && q == j {
                            assert(in_prefix(cols@, q as usize, b as int + 1));
                        } else {
                            assert(self.weight(p, q) == prev.weight(p, q));
                            if p == i && in_prefix(cols@, q as usize, b as int + 1) {
                                let t = choose|t: int|
                                    0 <= t < b + 1 && cols@[t] == q as usize;
                                assert(t < b);
                                assert(in_prefix(cols@, q as usize, b as int));
                            } else if p == i && in_prefix(cols@, q as usize, b as int) {
                                assert(in_prefix(cols@, q as usize, b as int + 1));
                            }
                        }
                    }
                    assert forall|p: int, q: int| 0 <= p < self.n && 0 <= q < self.m
                        implies self.weight(p, q) <= MAX_WEIGHT by {
                        if !(p == i && q == j) {
                            assert(self.weight(p, q) == prev.weight(p, q));
                            assert(prev.weight(p, q) <= MAX_WEIGHT);
                        }
                    }
                }
                b += 1;
            }
            proof {
                assert forall|p: int, q: int| 0 <= p < g0.n && 0 <= q < g0.m implies
                    self.weight(p, q) == (
                        if in_prefix(rows@, p as usize, a as int + 1) && cols@.contains(q as usize)
                        {
                            0u64
                        } else {
                            g0.weight(p, q)
                        }
                    ) by {
                    lemma_in_prefix_full(cols@, q as usize);
                    if in_prefix(rows@, p as usize, a as int + 1) && cols@.contains(q as usize) {
                        if p == i {
                            assert(self.weight(p, q) == 0);
                        } else {
                            let t = choose|t: int| 0 <= t < a + 1 && rows@[t] == p as usize;
                            assert(t < a);
                            assert(in_prefix(rows@, p as usize, a as int));
                            assert(g1.weight(p, q) == 0);
                        }
                    } else {
                        if !(in_prefix(rows@, p as usize, a as int) && cols@.contains(q as usize)) {
                            assert(g1.weight(p, q) == g0.weight(p, q));
                            if !(p == i && cols@.contains(q as usize)) {
                                assert(self.weight(p, q) == g1.weight(p, q));
                            }
                        } else {
                            assert(in_prefix(rows@, p as usize, a as int + 1));
                        }
                    }
                }
            }
            a += 1;
        }
        proof {
            assert forall|p: int, q: int| 0 <= p < g0.n && 0 <= q < g0.m implies
                self.weight(p, q) == (
                    if rows@.contains(p as usize) && cols@.contains(q as usize) {
                        0u64
                    } else {
                        g0.weight(p, q)
                    }
                ) by {
                lemma_in_prefix_full(rows@, p as usize);
            }
        }
    }

    /// An independent deep copy: same dimensions, weights, labels and ground
    /// truth, sharing no mutable storage — the discovery engine destroys its
    /// input, so callers keep the original through this copy.
    pub fn duplicate(&self) -> (r: Self)
        requires
            self.wf(),
        ensures
            r.wf(),
            r.same_content(*self),
    {
        let mut weights: Vec<Vec<u64>> = Vec::new();
        let mut i: usize = 0;
        while i < self.n
            invariant
                i <= self.n,
                self.wf(),
                weights@.len() == i,
                forall|p: int| 0 <= p < i ==> weights@[p]@.len() == self.m,
                forall|p: int, q: int|
                    0 <= p < i && 0 <= q < self.m ==> weights@[p]@[q] == self.weight(p, q),
            decreases self.n - i,
        {
            let mut row: Vec<u64> = Vec::new();
            let mut j: usize = 0;
            while j < self.m
                invariant
                    i < self.n,
                    j <= self.m,
                    self.wf(),
                    row@.len() == j,
                    forall|q: int| 0 <= q < j ==> row@[q] == self.weight(i as int, q),
                decreases self.m - j,
            {
                row.push(self.weights[i][j]);
                j += 1;
            }
            weights.push(row);
            i += 1;
        }
        let labels_a = copy_byte_table(&self.labels_a);
        let labels_b = copy_byte_table(&self.labels_b);
        let ground_truth = match &self.ground_truth {
            Some(gt) => Some(copy_biclust(gt)),
            None => None,
        };
        let r = WeightedBiAdjacency {
            n: self.n,
            m: self.m,
            weights,
            labels_a,
            labels_b,
            ground_truth,
        };
        proof {
            assert forall|p: int, q: int| 0 <= p < r.n && 0 <= q < r.m
                implies r.weight(p, q) <= MAX_WEIGHT by {
                assert(r.weight(p, q) == self.weight(p, q));
            }
            let ghost pair = (r.ground_truth, self.ground_truth);
            match pair {
                (Some(g1), Some(g2)) => {
                    crate::biclust::lemma_equiv_wf(g1, g2);
                    crate::biclust::lemma_equiv_in_range(g1, g2, r.n as int, r.m as int);
                },
                _ => {},
            }
        }
        r
    }

    /// How many edges the graph holds.
    pub fn nb_edges(&self) -> (r: u64)
        requires
            self.wf(),
        ensures
            r == count_edges_grid(*self, self.n as int, self.m as int),
            r <= self.n * self.m,
    {
        let mut total: u64 = 0;
        let mut i: usize = 0;
        while i < self.n
            invariant
                i <= self.n,
                self.wf(),
                total == count_edges_grid(*self, i as int, self.m as int),
                total <= i * self.m,
            decreases self.n - i,
        {
            let mut j: usize = 0;
            let ghost t0 = total as int;
            while j < self.m
                invariant
                    i < self.n,
                    j <= self.m,
                    self.wf(),
                    total == t0 + count_edges_row(*self, i as int, j as int),
                    t0 <= i * self.m,
                    total <= i * self.m + j,
                decreases self.m - j,
            {
                if self.weights[i][j] > 0 {
                    proof {
                        lemma_dims_product(i as int, j as int, self.n as int, self.m as int);
                        vstd::arithmetic::mul::lemma_mul_upper_bound(
                            self.n as int, MAX_DIM as int, self.m as int, MAX_DIM as int);
                    }
                    total += 1;
                }
                j += 1;
            }
            proof {
                vstd::arithmetic::mul::lemma_mul_is_distributive_add_other_way(
                    self.m as int, i as int, 1);
            }
            i += 1;
        }
        proof {
            vstd::arithmetic::mul::lemma_mul_inequality(i as int, self.n as int, self.m as int);
        }
        total
    }

    /// Summary of the graph: dimensions, edge count, and edge density in
    /// fixed point (`SCALE` means every cell carries an edge).
    pub fn stats(&self) -> (r: (usize, usize, u64, u64))
        requires
            self.wf(),
        ensures
            r.0 == self.n,
            r.1 == self.m,
            r.2 == count_edges_grid(*self, self.n as int, self.m as int),
            r.3 == (if self.n * self.m == 0 {
                0int
            } else {
                r.2 * SCALE / (self.n * self.m)
            }),
    {
        let edges = self.nb_edges();
        proof {
            vstd::arithmetic::mul::lemma_mul_upper_bound(
                self.n as int, MAX_DIM as int, self.m as int, MAX_DIM as int);
            vstd::arithmetic::mul::lemma_mul_nonnegative(self.n as int, self.m as int);
        }
        let cells = (self.n as u64) * (self.m as u64);
        let density = if cells == 0 {
            0
        } else {
            proof {
                vstd::arithmetic::mul::lemma_mul_inequality(
                    edges as int, (self.n * self.m) as int, SCALE as int);
                vstd::arithmetic::mul::lemma_mul_upper_bound(
                    self.n as int, MAX_DIM as int, self.m as int, MAX_DIM as int);
            }
            edges * SCALE / cells
        };
        (self.n, self.m, edges, density)
    }
}

/// Two graphs with the same weight storage bound their weights alike.
pub proof fn lemma_weight_bound_transfer(a: WeightedBiAdjacency, b: WeightedBiAdjacency)
    requires
        a.wf(),
        b.n == a.n,
        b.m == a.m,
        b.weights@ == a.weights@,
    ensures
        forall|p: int, q: int|
            0 <= p < b.n && 0 <= q < b.m ==> b.weight(p, q) <= MAX_WEIGHT,
{
    assert forall|p: int, q: int| 0 <= p < b.n && 0 <= q < b.m
        implies b.weight(p, q) <= MAX_WEIGHT by {
        assert(a.weight(p, q) <= MAX_WEIGHT);
    }
}

/// How many cells of row `i` before column `j` carry an edge.
pub open spec fn count_edges_row(g: WeightedBiAdjacency, i: int, j: int) -> int
    decreases j,
{
    if j <= 0 {
        0
    } else {
        count_edges_row(g, i, j - 1) + if g.weight(i, j - 1) > 0 { 1int } else { 0int }
    }
}

/// How many cells in rows before `i` (over `m` columns) carry an edge.
pub open spec fn count_edges_grid(g: WeightedBiAdjacency, i: int, m: int) -> int
    decreases i,
{
    if i <= 0 {
        0
    } else {
        count_edges_grid(g, i - 1, m) + count_edges_row(g, i - 1, m)
    }
}

/// The running edge count stays below the number of visited cells.
pub proof fn lemma_dims_product(i: int, j: int, n: int, m: int)
    requires
        0 <= i < n,
        0 <= j < m,
    ensures
        i * m + j + 1 <= n * m,
{
    vstd::arithmetic::mul::lemma_mul_inequality(i + 1, n, m);
    vstd::arithmetic::mul::lemma_mul_is_distributive_add_other_way(m, i, 1);
}

/// Deep copy of a label table.
fn copy_byte_table(src: &Vec<Vec<u8>>) -> (r: Vec<Vec<u8>>)
    ensures
        r@.len() == src@.len(),
        forall|k: int| 0 <= k < src@.len() ==> r@[k]@ == src@[k]@,
    {
    let mut r: Vec<Vec<u8>> = Vec::new();
    let mut k: usize = 0;
    while k < src.len()
        invariant
            k <= src@.len(),
            r@.len() == k,
            forall|t: int| 0 <= t < k ==> r@[t]@ == src@[t]@,
        decreases src@.len() - k,
    {
        r.push(copy_bytes(&src[k]));
        k += 1;
    }
    r
}

/// Deep copy of a byte string.
pub fn copy_bytes(src: &Vec<u8>) -> (r: Vec<u8>)
    ensures
        r@ == src@,
{
    let mut r: Vec<u8> = Vec::new();
    let mut k: usize = 0;
    while k < src.len()
        invariant
            k <= src@.len(),
            r@ == src@.take(k as int),
        decreases src@.len() - k,
    {
        let b = src[k];
        r.push(b);
        proof {
            assert(src@.take(k as int + 1) == src@.take(k as int).push(src@[k as int]));
        }
        k += 1;
    }
    proof {
        assert(src@.take(src@.len() as int) == src@);
    }
    r
}

/// Deep copy of an index vector.
pub fn copy_indices(src: &Vec<usize>) -> (r: Vec<usize>)
    ensures
        r@ == src@,
{
    let mut r: Vec<usize> = Vec::new();
    let mut k: usize = 0;
    while k < src.len()
        invariant
            k <= src@.len(),
            r@ == src@.take(k as int),
        decreases src@.len() - k,
    {
        let v = src[k];
        r.push(v);
        proof {
            assert(src@.take(k as int + 1) == src@.take(k as int).push(src@[k as int]));
        }
        k += 1;
    }
    proof {
        assert(src@.take(src@.len() as int) == src@);
    }
    r
}

/// Deep copy of one bicluster.
pub fn copy_bicluster(src: &crate::biclust::Bicluster) -> (r: crate::biclust::Bicluster)
    ensures
        r.rows@ == src.rows@,
        r.cols@ == src.cols@,
{
    crate::biclust::Bicluster { rows: copy_indices(&src.rows), cols: copy_indices(&src.cols) }
}

/// Deep copy of a bicluster collection.
pub fn copy_biclust(src: &Biclust) -> (r: Biclust)
    ensures
        r.equiv(*src),
{
    let mut clusters: Vec<crate::biclust::Bicluster> = Vec::new();
    let mut k: usize = 0;
    while k < src.clusters.len()
        invariant
            k <= src.clusters@.len(),
            clusters@.len() == k,
            forall|t: int| 0 <= t < k ==> clusters@[t].rows@ == src.clusters@[t].rows@
                && clusters@[t].cols@ == src.clusters@[t].cols@,
        decreases src.clusters@.len() - k,
    {
        let c = copy_bicluster(&src.clusters[k]);
        clusters.push(c);
        k += 1;
    }
    Biclust { clusters }
}

} // verus!
