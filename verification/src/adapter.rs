//! Adapter for cluster listings produced by external reference tools: a
//! pure transformation from label-indexed text to the crate's bicluster
//! representation, resolved against the label tables of the graph the
//! listing was computed over. An unresolvable label means the two sides
//! are desynchronized and is reported, never repaired.

use vstd::prelude::*;
use crate::biclust::{Bicluster, Biclust, strictly_increasing};
use crate::codec::{eq_bytes, find_byte, find_from, find_label, label_views};
use crate::errors::{MappingError, ParseError};
use crate::MAX_DIM;

verus! {

/// One cluster of an external listing: row labels and column labels.
#[derive(Debug)]
pub struct ExternalCluster {
    pub rows: Vec<Vec<u8>>,
    pub cols: Vec<Vec<u8>>,
}

/// The label occurs in the table.
pub open spec fn has_label(table: Seq<Vec<u8>>, l: Seq<u8>) -> bool {
    exists|t: int| 0 <= t < table.len() && table[t]@ == l
}

/// Every label of the cluster resolves against the two tables.
pub open spec fn cluster_resolvable(c: ExternalCluster, la: Seq<Vec<u8>>, lb: Seq<Vec<u8>>)
    -> bool {
    &&& forall|t: int| 0 <= t < c.rows@.len() ==> has_label(la, c.rows@[t]@)
    &&& forall|t: int| 0 <= t < c.cols@.len() ==> has_label(lb, c.cols@[t]@)
}

/// Every cluster of the listing resolves against the two tables.
pub open spec fn all_resolvable(cs: Seq<ExternalCluster>, la: Seq<Vec<u8>>, lb: Seq<Vec<u8>>)
    -> bool {
    forall|k: int| 0 <= k < cs.len() ==> cluster_resolvable(cs[k], la, lb)
}

/// Does the label list hold this label?
fn label_in_list(list: &Vec<Vec<u8>>, x: &Vec<u8>) -> (r: bool)
    ensures
        r == has_label(list@, x@),
{
    let mut k: usize = 0;
    while k < list.len()
        invariant
            k <= list@.len(),
            forall|t: int| 0 <= t < k ==> list@[t]@ != x@,
        decreases list@.len() - k,
    {
        if eq_bytes(&list[k], x) {
            return true;
        }
        k += 1;
    }
    false
}

/// The table indices whose labels occur in the list, in index order.
fn resolve_side(list: &Vec<Vec<u8>>, table: &Vec<Vec<u8>>) -> (r: Vec<usize>)
    ensures
        strictly_increasing(r@),
        r@.len() <= table@.len(),
        forall|i: int|
            0 <= i < table@.len() ==> (r@.contains(i as usize) <==> has_label(list@,
                table@[i]@)),
        forall|t: int| 0 <= t < r@.len() ==> r@[t] < table@.len(),
{
    let mut r: Vec<usize> = Vec::new();
    let mut i: usize = 0;
    while i < table.len()
        invariant
            i <= table@.len(),
            r@.len() <= i,
            strictly_increasing(r@),
            forall|t: int| 0 <= t < r@.len() ==> r@[t] < i,
            forall|p: int|
                0 <= p < i ==> (r@.contains(p as usize) <==> has_label(list@, table@[p]@)),
        decreases table@.len() - i,
    {
        if label_in_list(list, &table[i]) {
            let ghost old_r = r@;
            r.push(i);
            proof {
                assert forall|u: int, v: int| 0 <= u < v < r@.len() implies r@[u] < r@[v] by {
                    if v < r@.len() - 1 {
                        assert(old_r[u] < old_r[v]);
                    } else {
                        assert(r@[u] == old_r[u]);
                    }
                }
                assert forall|p: int|
                    0 <= p < i + 1 implies (r@.contains(p as usize) <==> has_label(list@,
                    table@[p]@)) by {
                    if p == i {
                        assert(r@[r@.len() - 1] == i as usize);
                        assert(r@.contains(i as usize));
                    } else {
                        if old_r.contains(p as usize) {
                            let t = choose|t: int|
                                0 <= t < old_r.len() && old_r[t] == p as usize;
                            assert(r@[t] == p as usize);
                            assert(r@.contains(p as usize));
                        }
                        if r@.contains(p as usize) {
                            let t = choose|t: int| 0 <= t < r@.len() && r@[t] == p as usize;
                            assert(t < r@.len() - 1);
                            assert(old_r[t] == p as usize);
                            assert(old_r.contains(p as usize));
                        }
                    }
                }
            }
        } else {
            let ghost old_r = r@;
            proof {
                assert forall|p: int|
                    0 <= p < i + 1 implies (r@.contains(p as usize) <==> has_label(list@,
                    table@[p]@)) by {
                    if p == i {
                        if r@.contains(i as usize) {
                            let t = choose|t: int| 0 <= t < r@.len() && r@[t] == i as usize;
                            assert(r@[t] < i);
                        }
                    }
                }
            }
        }
        i += 1;
    }
    r
}

/// Convert an external listing into a bicluster collection over the graph
/// whose label tables are given. Succeeds exactly when every listed label
/// resolves; the resulting collection holds, for each listed cluster, the
/// table indices whose labels the listing names, in index order.
pub fn resolve_external(
    clusters: &Vec<ExternalCluster>,
    labels_a: &Vec<Vec<u8>>,
    labels_b: &Vec<Vec<u8>>,
) -> (r: Result<Biclust, MappingError>)
    requires
        labels_a@.len() <= MAX_DIM,
        labels_b@.len() <= MAX_DIM,
        clusters@.len() <= MAX_DIM,
        forall|k: int|
            0 <= k < clusters@.len() ==> clusters@[k].rows@.len() >= 1
                && clusters@[k].cols@.len() >= 1,
    ensures
        (r is Ok) <==> all_resolvable(clusters@, labels_a@, labels_b@),
        r matches Ok(bs) ==> {
            &&& bs.wf()
            &&& bs.in_range(labels_a@.len() as int, labels_b@.len() as int)
            &&& bs.clusters@.len() == clusters@.len()
            &&& forall|k: int, i: int|
                0 <= k < clusters@.len() && 0 <= i < labels_a@.len() ==> ((exists|t: int|
                    0 <= t < bs.clusters@[k].rows@.len() && bs.clusters@[k].rows@[t] == i)
                    <==> has_label(clusters@[k].rows@, labels_a@[i]@))
            &&& forall|k: int, j: int|
                0 <= k < clusters@.len() && 0 <= j < labels_b@.len() ==> ((exists|t: int|
                    0 <= t < bs.clusters@[k].cols@.len() && bs.clusters@[k].cols@[t] == j)
                    <==> has_label(clusters@[k].cols@, labels_b@[j]@))
        },
        r matches Err(e) ==> e == MappingError::UnknownRowLabel || e
            == MappingError::UnknownColLabel,
{
    let mut out: Vec<Bicluster> = Vec::new();
    let mut k: usize = 0;
    while k < clusters.len()
        invariant
            k <= clusters@.len(),
            clusters@.len() <= MAX_DIM,
            labels_a@.len() <= MAX_DIM,
            labels_b@.len() <= MAX_DIM,
            forall|t: int|
                0 <= t < clusters@.len() ==> clusters@[t].rows@.len() >= 1
                    && clusters@[t].cols@.len() >= 1,
            out@.len() == k,
            forall|t: int| 0 <= t < k ==> cluster_resolvable(clusters@[t], labels_a@, labels_b@),
            forall|t: int| 0 <= t < k ==> out@[t].wf(),
            forall|t: int|
                0 <= t < k ==> out@[t].in_range(labels_a@.len() as int, labels_b@.len() as int),
            forall|t: int, i: int|
                0 <= t < k && 0 <= i < labels_a@.len() ==> ((exists|u: int|
                    0 <= u < out@[t].rows@.len() && out@[t].rows@[u] == i) <==> has_label(
                    clusters@[t].rows@, labels_a@[i]@)),
            forall|t: int, j: int|
                0 <= t < k && 0 <= j < labels_b@.len() ==> ((exists|u: int|
                    0 <= u < out@[t].cols@.len() && out@[t].cols@[u] == j) <==> has_label(
                    clusters@[t].cols@, labels_b@[j]@)),
        decreases clusters@.len() - k,
    {
        let c = &clusters[k];
        // Validate every listed label before building anything.
        let mut t: usize = 0;
        let ghost mut first_row_idx: int = 0int;
        while t < c.rows.len()
            invariant
                t <= c.rows@.len(),
                k < clusters@.len(),
                *c == clusters@[k as int],
                forall|u: int| 0 <= u < t ==> has_label(labels_a@, c.rows@[u]@),
                t > 0 && c.rows@.len() > 0 ==> 0 <= first_row_idx < labels_a@.len()
                    && labels_a@[first_row_idx]@ == c.rows@[0]@,
            decreases c.rows@.len() - t,
        {
            match find_label(labels_a, &c.rows[t]) {
                Some(i) => {
                    proof {
                        if t == 0 {
                            first_row_idx = i as int;
                        }
                    }
                },
                None => {
                    proof {
                        assert(!has_label(labels_a@, c.rows@[t as int]@));
                        assert(!cluster_resolvable(clusters@[k as int], labels_a@, labels_b@));
                    }
                    return Err(MappingError::UnknownRowLabel);
                },
            }
            t += 1;
        }
        let mut t2: usize = 0;
        let ghost mut first_col_idx: int = 0int;
        while t2 < c.cols.len()
            invariant
                t2 <= c.cols@.len(),
                k < clusters@.len(),
                *c == clusters@[k as int],
                forall|u: int| 0 <= u < t2 ==> has_label(labels_b@, c.cols@[u]@),
                t2 > 0 && c.cols@.len() > 0 ==> 0 <= first_col_idx < labels_b@.len()
                    && labels_b@[first_col_idx]@ == c.cols@[0]@,
            decreases c.cols@.len() - t2,
        {
            match find_label(labels_b, &c.cols[t2]) {
                Some(i) => {
                    proof {
                        if t2 == 0 {
                            first_col_idx = i as int;
                        }
                    }
                },
                None => {
                    proof {
                        assert(!has_label(labels_b@, c.cols@[t2 as int]@));
                        assert(!cluster_resolvable(clusters@[k as int], labels_a@, labels_b@));
                    }
                    return Err(MappingError::UnknownColLabel);
                },
            }
            t2 += 1;
        }
        let rows = resolve_side(&c.rows, labels_a);
        let cols = resolve_side(&c.cols, labels_b);
        let ghost grows = rows@;
        let ghost gcols = cols@;
        proof {
            assert(has_label(c.rows@, labels_a@[first_row_idx]@));
            assert(rows@.contains(first_row_idx as usize));
            let u0 = choose|u: int| 0 <= u < grows.len() && grows[u] == first_row_idx as usize;
            assert(grows.len() > 0);
            assert(has_label(c.cols@, labels_b@[first_col_idx]@));
            assert(cols@.contains(first_col_idx as usize));
            let v0 = choose|v: int| 0 <= v < gcols.len() && gcols[v] == first_col_idx as usize;
            assert(gcols.len() > 0);
        }
        let ghost old_out = out@;
        out.push(Bicluster { rows, cols });
        proof {
            assert(out@[k as int].rows@ == grows);
            assert(out@[k as int].cols@ == gcols);
            assert forall|t: int, i: int|
                0 <= t < k + 1 && 0 <= i < labels_a@.len() implies ((exists|u: int|
                0 <= u < out@[t].rows@.len() && out@[t].rows@[u] == i) <==> has_label(
                clusters@[t].rows@, labels_a@[i]@)) by {
                if t < k {
                    assert(out@[t] == old_out[t]);
                } else {
                    assert(out@[t].rows@ == grows);
                    if grows.contains(i as usize) {
                        let u = choose|u: int| 0 <= u < grows.len() && grows[u] == i as usize;
                        assert(0 <= u < out@[t].rows@.len() && out@[t].rows@[u] == i);
                    }
                    if exists|u: int| 0 <= u < out@[t].rows@.len() && out@[t].rows@[u] == i {
                        let u = choose|u: int|
                            0 <= u < out@[t].rows@.len() && out@[t].rows@[u] == i;
                        assert(grows[u] == i as usize);
                        assert(grows.contains(i as usize));
                    }
                }
            }
            assert forall|t: int, j: int|
                0 <= t < k + 1 && 0 <= j < labels_b@.len() implies ((exists|u: int|
                0 <= u < out@[t].cols@.len() && out@[t].cols@[u] == j) <==> has_label(
                clusters@[t].cols@, labels_b@[j]@)) by {
                if t < k {
                    assert(out@[t] == old_out[t]);
                } else {
                    assert(out@[t].cols@ == gcols);
                    if gcols.contains(j as usize) {
                        let u = choose|u: int| 0 <= u < gcols.len() && gcols[u] == j as usize;
                        assert(0 <= u < out@[t].cols@.len() && out@[t].cols@[u] == j);
                    }
                    if exists|u: int| 0 <= u < out@[t].cols@.len() && out@[t].cols@[u] == j {
                        let u = choose|u: int|
                            0 <= u < out@[t].cols@.len() && out@[t].cols@[u] == j;
                        assert(gcols[u] == j as usize);
                        assert(gcols.contains(j as usize));
                    }
                }
            }
            assert forall|t: int| 0 <= t < k + 1 implies out@[t].wf() by {
                if t < k {
                    assert(out@[t] == old_out[t]);
                }
            }
            assert forall|t: int|
                0 <= t < k + 1 implies out@[t].in_range(labels_a@.len() as int,
                labels_b@.len() as int) by {
                if t < k {
                    assert(out@[t] == old_out[t]);
                }
            }
        }
        k += 1;
    }
    Ok(Biclust { clusters: out })
}

/// The fields accumulated while splitting a line at a delimiter.
pub open spec fn split_acc(line: Seq<u8>, d: u8, k: int, fields: Seq<Seq<u8>>, cur: Seq<u8>)
    -> Seq<Seq<u8>>
    decreases line.len() - k,
{
    if !(0 <= k < line.len()) {
        fields.push(cur)
    } else if line[k] == d {
        split_acc(line, d, k + 1, fields.push(cur), Seq::empty())
    } else {
        split_acc(line, d, k + 1, fields, cur.push(line[k]))
    }
}

/// A line split into fields at every occurrence of the delimiter; always
/// at least one field.
pub open spec fn spec_fields(line: Seq<u8>, d: u8) -> Seq<Seq<u8>> {
    split_acc(line, d, 0, Seq::empty(), Seq::empty())
}

proof fn lemma_split_acc_len(line: Seq<u8>, d: u8, k: int, fields: Seq<Seq<u8>>, cur: Seq<u8>)
    ensures
        split_acc(line, d, k, fields, cur).len() >= fields.len() + 1,
    decreases line.len() - k,
{
    if 0 <= k < line.len() {
        if line[k] == d {
            lemma_split_acc_len(line, d, k + 1, fields.push(cur), Seq::empty());
        } else {
            lemma_split_acc_len(line, d, k + 1, fields, cur.push(line[k]));
        }
    }
}

/// Split a line into fields at every occurrence of the delimiter.
fn split_fields(s: &[u8], d: u8) -> (r: Vec<Vec<u8>>)
    ensures
        label_views(r@) == spec_fields(s@, d),
        r@.len() >= 1,
{
    let mut r: Vec<Vec<u8>> = Vec::new();
    let mut cur: Vec<u8> = Vec::new();
    proof {
        assert(label_views(r@) =~= Seq::<Seq<u8>>::empty());
        assert(cur@ =~= Seq::<u8>::empty());
    }
    let mut k: usize = 0;
    while k < s.len()
        invariant
            k <= s@.len(),
            spec_fields(s@, d) == split_acc(s@, d, k as int, label_views(r@), cur@),
        decreases s@.len() - k,
    {
        let b = s[k];
        if b == d {
            let ghost old_r = r@;
            let ghost old_cur = cur@;
            r.push(cur);
            cur = Vec::new();
            proof {
                assert(label_views(r@) =~= label_views(old_r).push(old_cur));
                assert(cur@ =~= Seq::<u8>::empty());
            }
        } else {
            cur.push(b);
        }
        k += 1;
    }
    let ghost old_r = r@;
    let ghost old_cur = cur@;
    r.push(cur);
    proof {
        assert(label_views(r@) =~= label_views(old_r).push(old_cur));
        lemma_split_acc_len(s@, d, s@.len() as int, label_views(old_r), old_cur);
    }
    r
}

/// The field lists of the listing's data lines, in order: lines cut at
/// newlines, comment and empty lines skipped, every other line split at
/// the delimiter.
pub open spec fn spec_listing(bytes: Seq<u8>, d: u8, start: int, acc: Seq<Seq<Seq<u8>>>) -> Seq<
    Seq<Seq<u8>>,
>
    decreases bytes.len() - start,
{
    if !(0 <= start < bytes.len()) {
        acc
    } else {
        let e = find_from(bytes, 10, start);
        let stop = if e < start || e > bytes.len() {
            bytes.len() as int
        } else {
            e
        };
        let line = bytes.subrange(start, stop);
        let next = if stop < bytes.len() {
            stop + 1
        } else {
            bytes.len() as int
        };
        if line.len() == 0 || line[0] == 35 {
            spec_listing(bytes, d, next, acc)
        } else {
            spec_listing(bytes, d, next, acc.push(spec_fields(line, d)))
        }
    }
}

/// The views of a collected list of field lists.
pub open spec fn lines_views(lines: Seq<Vec<Vec<u8>>>) -> Seq<Seq<Seq<u8>>> {
    Seq::new(lines.len(), |k: int| label_views(lines[k]@))
}

/// Parse an external listing: lines in pairs, the row labels of a cluster
/// then its column labels, fields separated by the delimiter; `#` comment
/// lines and empty lines are skipped. An unpaired data line is malformed;
/// otherwise the k-th cluster holds exactly the fields of the 2k-th and
/// (2k+1)-th data line.
pub fn parse_external_listing(bytes: &[u8], d: u8) -> (r: Result<Vec<ExternalCluster>,
    ParseError>)
    ensures
        ({
            let ls = spec_listing(bytes@, d, 0, Seq::empty());
            &&& ((r is Ok) <==> ls.len() % 2 == 0)
            &&& (r matches Err(e) ==> e == ParseError::BadLine && ls.len() % 2 != 0)
            &&& (r matches Ok(cs) ==> {
                &&& cs@.len() == ls.len() / 2
                &&& forall|k: int|
                    0 <= k < cs@.len() ==> label_views(cs@[k].rows@) == ls[2 * k] && label_views(
                        cs@[k].cols@,
                    ) == ls[2 * k + 1]
                &&& forall|k: int|
                    0 <= k < cs@.len() ==> cs@[k].rows@.len() >= 1 && cs@[k].cols@.len() >= 1
            })
        }),
{
    let mut lines: Vec<Vec<Vec<u8>>> = Vec::new();
    proof {
        assert(lines_views(lines@) =~= Seq::<Seq<Seq<u8>>>::empty());
    }
    let mut start: usize = 0;
    while start < bytes.len()
        invariant
            start <= bytes@.len(),
            forall|k: int| 0 <= k < lines@.len() ==> lines@[k]@.len() >= 1,
            spec_listing(bytes@, d, 0, Seq::empty()) == spec_listing(bytes@, d, start as int,
                lines_views(lines@)),
        decreases bytes@.len() - start,
    {
        let ghost acc0 = lines_views(lines@);
        let line_end = match find_byte(bytes, 10, start) {
            Some(e) => e,
            None => bytes.len(),
        };
        let line = crate::codec::copy_range(bytes, start, line_end);
        let next = if line_end < bytes.len() {
            line_end + 1
        } else {
            bytes.len()
        };
        if line.len() > 0 && line[0] != 35 {
            let fields = split_fields(line.as_slice(), d);
            lines.push(fields);
            proof {
                assert(lines_views(lines@) =~= acc0.push(spec_fields(line@, d)));
                assert(spec_listing(bytes@, d, start as int, acc0) == spec_listing(bytes@, d,
                    next as int, lines_views(lines@)));
            }
        } else {
            proof {
                assert(spec_listing(bytes@, d, start as int, acc0) == spec_listing(bytes@, d,
                    next as int, acc0));
            }
        }
        start = next;
    }
    proof {
        assert(spec_listing(bytes@, d, start as int, lines_views(lines@)) == lines_views(
            lines@,
        ));
    }
    let ghost ls = lines_views(lines@);
    if lines.len() % 2 != 0 {
        return Err(ParseError::BadLine);
    }
    let mut out: Vec<ExternalCluster> = Vec::new();
    let mut k: usize = 0;
    while k + 1 < lines.len()
        invariant
            lines@.len() % 2 == 0,
            k % 2 == 0,
            k <= lines@.len(),
            ls == lines_views(lines@),
            forall|t: int| 0 <= t < lines@.len() ==> lines@[t]@.len() >= 1,
            out@.len() * 2 == k,
            forall|t: int|
                0 <= t < out@.len() ==> label_views(out@[t].rows@) == ls[2 * t] && label_views(
                    out@[t].cols@,
                ) == ls[2 * t + 1],
            forall|t: int|
                0 <= t < out@.len() ==> out@[t].rows@.len() >= 1 && out@[t].cols@.len() >= 1,
        decreases lines@.len() - k,
    {
        let rows = copy_label_list(&lines[k]);
        let cols = copy_label_list(&lines[k + 1]);
        let ghost old_out = out@;
        out.push(ExternalCluster { rows, cols });
        proof {
            assert(label_views(out@[out@.len() - 1].rows@) =~= label_views(
                lines@[k as int]@,
            ));
            assert(label_views(out@[out@.len() - 1].cols@) =~= label_views(
                lines@[k as int + 1]@,
            ));
            assert(ls[k as int] == label_views(lines@[k as int]@));
            assert(ls[k as int + 1] == label_views(lines@[k as int + 1]@));
            assert forall|t: int|
                0 <= t < out@.len() implies label_views(out@[t].rows@) == ls[2 * t]
                && label_views(out@[t].cols@) == ls[2 * t + 1] && out@[t].rows@.len() >= 1
                && out@[t].cols@.len() >= 1 by {
                if t < out@.len() - 1 {
                    assert(out@[t] == old_out[t]);
                } else {
                    assert(2 * t == k as int);
                }
            }
        }
        k += 2;
    }
    proof {
        assert(k == lines@.len());
    }
    Ok(out)
}

/// Deep copy of a list of labels.
fn copy_label_list(src: &Vec<Vec<u8>>) -> (r: Vec<Vec<u8>>)
    ensures
        r@.len() == src@.len(),
        forall|k: int| 0 <= k < src@.len() ==> r@[k]@ == src@[k]@,
{
    let mut r: Vec<Vec<u8>> = Vec::new();
    let mut k: usize = 0;
    while k < src.len()
        invariant
            k <= src@.len(),
            r@.len() == k,
            forall|t: int| 0 <= t < k ==> r@[t]@ == src@[t]@,
        decreases src@.len() - k,
    {
        r.push(crate::graph::copy_bytes(&src[k]));
        k += 1;
    }
    r
}

} // verus!
