use biclust::algo::bicluster;
use biclust::biclust::{Bicluster, Biclust};
use biclust::errors::ConfigError;
use biclust::graph::{copy_biclust, WeightedBiAdjacency};

fn block_graph_20() -> WeightedBiAdjacency {
    // n = m = 20, zero noise, no overlap, full separation: one planted
    // 10x10 block of full weight on a zero background.
    WeightedBiAdjacency::rand_graph(20, 20, 0, 1000, 1000)
}

#[test]
fn generated_graph_has_requested_shape() {
    let g = block_graph_20();
    let (n, m, edges, density) = g.stats();
    assert_eq!(n, 20);
    assert_eq!(m, 20);
    assert_eq!(edges, 100);
    assert_eq!(density, 100 * 1000 / 400);
    for i in 0..20 {
        for j in 0..20 {
            let w = g.get_weight(i, j);
            let inside = i < 10 && j < 10;
            assert_eq!(w, if inside { 1000 } else { 0 });
        }
    }
}

#[test]
fn generated_ground_truth_is_in_range() {
    let g = WeightedBiAdjacency::rand_graph(45, 67, 100, 1500, 800);
    let gt = match g.get_ground_truth() {
        Some(gt) => copy_biclust(gt),
        None => panic!("a 45x67 graph must carry a ground truth"),
    };
    assert!(gt.len() >= 1);
    for c in gt.clusters.iter() {
        assert!(!c.rows.is_empty());
        assert!(!c.cols.is_empty());
        for &i in c.rows.iter() {
            assert!(i < 45);
        }
        for &j in c.cols.iter() {
            assert!(j < 67);
        }
    }
}

#[test]
fn zero_noise_graph_has_zero_computed_noise() {
    let g = block_graph_20();
    let gt = copy_biclust(g.get_ground_truth().as_ref().unwrap());
    assert_eq!(g.compute_noise(&gt), 0);
}

#[test]
fn small_graph_gets_no_ground_truth() {
    let g = WeightedBiAdjacency::rand_graph(10, 10, 0, 1000, 1000);
    assert!(g.get_ground_truth().is_none());
}

#[test]
fn planted_block_is_recovered_exactly() {
    let mut work = block_graph_20();
    let gt = copy_biclust(work.get_ground_truth().as_ref().unwrap());
    let (found, _stats) = bicluster(&mut work, 1000, 1000, 3, 0).unwrap();
    assert_eq!(found.len(), 1);
    let c = &found.clusters[0];
    assert_eq!(c.rows, (0..10).collect::<Vec<usize>>());
    assert_eq!(c.cols, (0..10).collect::<Vec<usize>>());
    let score = gt.matching_score(&found);
    assert!(score >= 950);
    assert_eq!(score, 1000);
}

#[test]
fn discovered_clusters_are_never_empty() {
    let mut work = WeightedBiAdjacency::rand_graph(60, 44, 150, 1400, 900);
    let (found, _stats) = bicluster(&mut work, 1000, 1000, 3, 0).unwrap();
    for c in found.clusters.iter() {
        assert!(!c.rows.is_empty());
        assert!(!c.cols.is_empty());
    }
}

#[test]
fn residual_rerun_reclaims_no_consumed_edge() {
    let mut work = block_graph_20();
    let (first, _stats) = bicluster(&mut work, 1000, 1000, 3, 0).unwrap();
    // Every cell of an emitted cluster has been consumed.
    for c in first.clusters.iter() {
        for &i in c.rows.iter() {
            for &j in c.cols.iter() {
                assert_eq!(work.get_weight(i, j), 0);
            }
        }
    }
    // Rerunning on the residual graph cannot touch those cells again: they
    // stay weightless, and the rerun emits nothing made of them.
    let (second, _stats2) = bicluster(&mut work, 1000, 1000, 3, 0).unwrap();
    for c in second.clusters.iter() {
        for &i in c.rows.iter() {
            for &j in c.cols.iter() {
                for c1 in first.clusters.iter() {
                    if c1.rows.contains(&i) && c1.cols.contains(&j) {
                        assert_eq!(work.get_weight(i, j), 0);
                    }
                }
            }
        }
    }
}

#[test]
fn invalid_split_threshold_is_rejected_before_mutation() {
    let mut work = block_graph_20();
    let r = bicluster(&mut work, 1000, 999, 3, 0);
    assert_eq!(r.unwrap_err(), ConfigError::SplitThresholdTooLow);
    assert_eq!(work.get_weight(0, 0), 1000);
}

#[test]
fn zero_power_iterations_are_rejected_before_mutation() {
    let mut work = block_graph_20();
    let r = bicluster(&mut work, 1000, 1000, 0, 0);
    assert_eq!(r.unwrap_err(), ConfigError::NoPowerIterations);
    assert_eq!(work.get_weight(5, 5), 1000);
}

#[test]
fn huge_split_threshold_yields_empty_result() {
    let mut work = WeightedBiAdjacency::rand_graph(30, 30, 200, 1500, 800);
    // A threshold of 1000.0 in fixed point: no split can ever be accepted.
    let (found, _stats) = bicluster(&mut work, 1000, 1000 * 1000, 3, 0).unwrap();
    assert_eq!(found.len(), 0);
}

#[test]
fn more_power_iterations_never_score_worse_here() {
    // Two clearly separated zero-noise blocks; generation is deterministic
    // for these parameters.
    let g = WeightedBiAdjacency::rand_graph(40, 40, 0, 1000, 1000);
    let gt = copy_biclust(g.get_ground_truth().as_ref().unwrap());
    let mut w1 = g.duplicate();
    let mut w10 = g.duplicate();
    let (f1, _s1) = bicluster(&mut w1, 1000, 1000, 1, 0).unwrap();
    let (f10, _s10) = bicluster(&mut w10, 1000, 1000, 10, 0).unwrap();
    let m1 = gt.matching_score(&f1);
    let m10 = gt.matching_score(&f10);
    assert!(m10 >= m1);
}

fn cluster(rows: &[usize], cols: &[usize]) -> Bicluster {
    Bicluster { rows: rows.to_vec(), cols: cols.to_vec() }
}

#[test]
fn matching_score_of_identical_copies_is_one() {
    let x = Biclust {
        clusters: vec![cluster(&[0, 2, 5], &[1, 3]), cluster(&[1, 4], &[0, 2, 4])],
    };
    let y = copy_biclust(&x);
    assert_eq!(x.matching_score(&y), 1000);
}

#[test]
fn matching_score_against_empty_is_zero() {
    let x = Biclust { clusters: vec![cluster(&[0, 1], &[0, 1])] };
    let empty = Biclust::new();
    assert_eq!(x.matching_score(&empty), 0);
    assert_eq!(empty.len(), 0);
}

#[test]
fn accuracy_grows_when_a_correct_cluster_is_added() {
    let gt = Biclust { clusters: vec![cluster(&[0, 1], &[0, 1])] };
    let d1 = Biclust { clusters: vec![cluster(&[0], &[0])] };
    let a1 = gt.accuracy(&d1, 5, 5);
    assert_eq!(a1, 250);
    let d2 = Biclust { clusters: vec![cluster(&[0], &[0]), cluster(&[1], &[1])] };
    let a2 = gt.accuracy(&d2, 5, 5);
    assert_eq!(a2, 500);
    assert!(a2 >= a1);
    let exact = Biclust { clusters: vec![cluster(&[0, 1], &[0, 1])] };
    assert_eq!(gt.accuracy(&exact, 5, 5), 1000);
    assert_eq!(gt.accuracy(&Biclust::new(), 5, 5), 0);
}

#[test]
fn rows_overlapping_measures_shared_rows() {
    let gt = Biclust {
        clusters: vec![cluster(&[0, 1], &[0]), cluster(&[1, 2], &[1])],
    };
    // Rows 0, 1, 2 are clustered; only row 1 belongs to two clusters.
    assert_eq!(gt.get_rows_overlapping(5), 1 * 1000 / 3);
    let flat = Biclust { clusters: vec![cluster(&[0, 1], &[0])] };
    assert_eq!(flat.get_rows_overlapping(5), 0);
    assert_eq!(Biclust::new().get_rows_overlapping(5), 0);
}

#[test]
fn remove_edges_deletes_exactly_the_named_cells() {
    let mut g = WeightedBiAdjacency::new(3, 3);
    for i in 0..3 {
        for j in 0..3 {
            g.set_weight(i, j, (i * 3 + j + 1) as u64);
        }
    }
    g.remove_edges(&vec![0, 2], &vec![1]);
    for i in 0..3 {
        for j in 0..3 {
            let expected = if (i == 0 || i == 2) && j == 1 {
                0
            } else {
                (i * 3 + j + 1) as u64
            };
            assert_eq!(g.get_weight(i, j), expected);
        }
    }
}

#[test]
fn duplicate_is_a_deep_copy() {
    let mut g = WeightedBiAdjacency::new(2, 2);
    g.set_weight(0, 1, 7);
    g.set_label_a(0, b"left".to_vec());
    let mut h = g.duplicate();
    assert_eq!(h.get_weight(0, 1), 7);
    h.set_weight(0, 1, 9);
    assert_eq!(g.get_weight(0, 1), 7);
    assert_eq!(h.labels_a[0], b"left".to_vec());
}
