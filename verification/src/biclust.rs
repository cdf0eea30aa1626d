//! Biclusters and ordered collections of them.

use vstd::prelude::*;
use crate::MAX_DIM;

verus! {

/// An index sequence sorted strictly upward; it represents a set of node
/// indices, so its length is the cardinality of that set.
pub open spec fn strictly_increasing(s: Seq<usize>) -> bool {
    forall|p: int, q: int| 0 <= p < q < s.len() ==> s[p] < s[q]
}

/// One discovered or planted dense block: a set of row indices of node set A
/// and a set of column indices of node set B. It references a graph only
/// through indices and owns nothing of it.
#[derive(Debug)]
pub struct Bicluster {
    pub rows: Vec<usize>,
    pub cols: Vec<usize>,
}

impl Bicluster {
    /// A valid bicluster: non-empty ordered row and column index sets,
    /// each bounded by the dimension cap.
    pub open spec fn wf(self) -> bool {
        &&& strictly_increasing(self.rows@)
        &&& strictly_increasing(self.cols@)
        &&& 0 < self.rows@.len() <= MAX_DIM
        &&& 0 < self.cols@.len() <= MAX_DIM
    }

    /// Every index references a node of a graph with `n` rows and `m` columns.
    pub open spec fn in_range(self, n: int, m: int) -> bool {
        &&& forall|k: int| 0 <= k < self.rows@.len() ==> self.rows@[k] < n
        &&& forall|k: int| 0 <= k < self.cols@.len() ==> self.cols@[k] < m
    }

    /// The cell `(i, j)` lies inside this block.
    pub open spec fn covers(self, i: int, j: int) -> bool {
        &&& exists|k: int| 0 <= k < self.rows@.len() && self.rows@[k] == i
        &&& exists|k: int| 0 <= k < self.cols@.len() && self.cols@[k] == j
    }
}

/// An ordered collection of biclusters produced by one run: algorithm
/// output, planted ground truth, or adapted external output. The order is
/// discovery order; clusters may overlap.
#[derive(Debug)]
pub struct Biclust {
    pub clusters: Vec<Bicluster>,
}

impl Biclust {
    /// Every cluster is valid and the collection is bounded.
    pub open spec fn wf(self) -> bool {
        &&& forall|k: int| 0 <= k < self.clusters@.len() ==> self.clusters@[k].wf()
        &&& self.clusters@.len() <= MAX_DIM
    }

    /// Every cluster references only nodes of an `n` by `m` graph.
    pub open spec fn in_range(self, n: int, m: int) -> bool {
        forall|k: int| 0 <= k < self.clusters@.len() ==> self.clusters@[k].in_range(n, m)
    }

    /// Some cluster of this collection covers the cell `(i, j)`.
    pub open spec fn covered(self, i: int, j: int) -> bool {
        exists|k: int| 0 <= k < self.clusters@.len() && self.clusters@[k].covers(i, j)
    }

    /// The two collections hold the same clusters in the same order.
    pub open spec fn equiv(self, other: Self) -> bool {
        &&& self.clusters@.len() == other.clusters@.len()
        &&& forall|k: int| 0 <= k < self.clusters@.len()
            ==> self.clusters@[k].rows@ == other.clusters@[k].rows@
                && self.clusters@[k].cols@ == other.clusters@[k].cols@
    }

    /// The empty collection.
    pub fn new() -> (r: Biclust)
        ensures
            r.clusters@.len() == 0,
            r.wf(),
    {
        Biclust { clusters: Vec::new() }
    }

    /// How many clusters the collection holds.
    pub fn len(&self) -> (r: usize)
        ensures
            r == self.clusters@.len(),
    {
        self.clusters.len()
    }
}

/// `x` occurs among the first `k` entries of `s`.
pub open spec fn in_prefix(s: Seq<usize>, x: usize, k: int) -> bool {
    exists|t: int| 0 <= t < k && s[t] == x
}

/// Membership in a full sequence is membership in its full prefix.
pub proof fn lemma_in_prefix_full(s: Seq<usize>, x: usize)
    ensures
        in_prefix(s, x, s.len() as int) == s.contains(x),
{
}

/// A collection equal to a well-formed one in content is well-formed.
pub proof fn lemma_equiv_wf(a: Biclust, b: Biclust)
    requires
        a.equiv(b),
        b.wf(),
    ensures
        a.wf(),
{
    assert forall|k: int| 0 <= k < a.clusters@.len() implies a.clusters@[k].wf() by {
        assert(b.clusters@[k].wf());
        assert(a.clusters@[k].rows@ == b.clusters@[k].rows@);
        assert(a.clusters@[k].cols@ == b.clusters@[k].cols@);
    }
}

/// A collection equal to an in-range one in content is in range.
pub proof fn lemma_equiv_in_range(a: Biclust, b: Biclust, n: int, m: int)
    requires
        a.equiv(b),
        b.in_range(n, m),
    ensures
        a.in_range(n, m),
{
    assert forall|k: int| 0 <= k < a.clusters@.len() implies a.clusters@[k].in_range(n, m) by {
        assert(b.clusters@[k].in_range(n, m));
        assert(a.clusters@[k].rows@ == b.clusters@[k].rows@);
        assert(a.clusters@[k].cols@ == b.clusters@[k].cols@);
    }
}

/// Linear membership test on an index vector.
pub fn contains_index(v: &Vec<usize>, x: usize) -> (r: bool)
    ensures
        r == v@.contains(x),
{
    let mut k: usize = 0;
    while k < v.len()
        invariant
            0 <= k <= v@.len(),
            forall|t: int| 0 <= t < k ==> v@[t] != x,
        decreases v@.len() - k,
    {
        if v[k] == x {
            return true;
        }
        k += 1;
    }
    false
}

} // verus!
