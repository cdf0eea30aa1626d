use biclust::adapter::{parse_external_listing, resolve_external, ExternalCluster};
use biclust::codec::{load_graph, parse_line, parse_u64, render_u64, write_graph};
use biclust::errors::{ConfigError, MappingError, ParseError};
use biclust::graph::WeightedBiAdjacency;

#[test]
fn weights_render_and_parse_back() {
    for w in [0u64, 1, 9, 10, 42, 999, 1000000000, u64::MAX] {
        let digits = render_u64(w);
        assert_eq!(parse_u64(digits.as_slice()), Some(w));
    }
    assert_eq!(render_u64(0), b"0".to_vec());
    assert_eq!(render_u64(1234), b"1234".to_vec());
}

#[test]
fn bad_numbers_do_not_parse() {
    assert_eq!(parse_u64(b""), None);
    assert_eq!(parse_u64(b"12a"), None);
    assert_eq!(parse_u64(b"-4"), None);
    // One past the largest value that fits.
    assert_eq!(parse_u64(b"18446744073709551616"), None);
    assert_eq!(parse_u64(b"18446744073709551615"), Some(u64::MAX));
}

#[test]
fn edge_lines_split_into_labels_and_weight() {
    let parsed = parse_line(b"geneA condition7 42", b' ').unwrap();
    assert_eq!(parsed.0, b"geneA".to_vec());
    assert_eq!(parsed.1, b"condition7".to_vec());
    assert_eq!(parsed.2, 42);
    assert_eq!(parse_line(b"nodelimiter", b' '), None);
    assert_eq!(parse_line(b"a b notanumber", b' '), None);
}

#[test]
fn graph_survives_a_write_and_load_round_trip() {
    let mut g = WeightedBiAdjacency::new(2, 3);
    g.set_label_a(0, b"r0".to_vec());
    g.set_label_a(1, b"r1".to_vec());
    g.set_label_b(0, b"c0".to_vec());
    g.set_label_b(1, b"c1".to_vec());
    g.set_label_b(2, b"c2".to_vec());
    g.set_weight(0, 0, 5);
    g.set_weight(0, 1, 11);
    g.set_weight(1, 1, 7);
    g.set_weight(1, 2, 1000);
    let bytes = write_graph(&g, b' ', &b" synthetic".to_vec());
    let h = load_graph(bytes.as_slice(), b' ', true).unwrap();
    let (hn, hm, hedges, _d) = h.stats();
    assert_eq!((hn, hm, hedges), (2, 3, 4));
    // Same labeled edges with the same weights.
    for i in 0..2 {
        for j in 0..3 {
            let la = &g.labels_a[i];
            let lb = &g.labels_b[j];
            let hi = h.labels_a.iter().position(|l| l == la).unwrap();
            let hj = h.labels_b.iter().position(|l| l == lb).unwrap();
            assert_eq!(h.get_weight(hi, hj), g.get_weight(i, j));
        }
    }
}

#[test]
fn malformed_lines_are_rejected_on_load() {
    assert_eq!(load_graph(b"# header\nnodelim\n", b' ', true).unwrap_err(), ParseError::BadLine);
    assert_eq!(
        load_graph(b"a b 1000000001\n", b' ', true).unwrap_err(),
        ParseError::WeightTooLarge
    );
    // Comments and blank lines alone give an empty graph.
    let g = load_graph(b"# only a comment\n\n", b' ', true).unwrap();
    assert_eq!(g.stats().2, 0);
}

#[test]
fn external_listing_parses_in_line_pairs() {
    let cs = parse_external_listing(b"# tool output\nr0 r1\nc0\nr2\nc1 c2\n", b' ').unwrap();
    assert_eq!(cs.len(), 2);
    assert_eq!(cs[0].rows, vec![b"r0".to_vec(), b"r1".to_vec()]);
    assert_eq!(cs[0].cols, vec![b"c0".to_vec()]);
    assert_eq!(cs[1].rows, vec![b"r2".to_vec()]);
    assert_eq!(cs[1].cols, vec![b"c1".to_vec(), b"c2".to_vec()]);
    assert_eq!(
        parse_external_listing(b"r0\n", b' ').unwrap_err(),
        ParseError::BadLine
    );
}

#[test]
fn external_labels_resolve_to_indices() {
    let labels_a = vec![b"r0".to_vec(), b"r1".to_vec(), b"r2".to_vec()];
    let labels_b = vec![b"c0".to_vec(), b"c1".to_vec()];
    let listing = vec![ExternalCluster {
        rows: vec![b"r2".to_vec(), b"r0".to_vec()],
        cols: vec![b"c1".to_vec()],
    }];
    let bs = resolve_external(&listing, &labels_a, &labels_b).unwrap();
    assert_eq!(bs.len(), 1);
    assert_eq!(bs.clusters[0].rows, vec![0, 2]);
    assert_eq!(bs.clusters[0].cols, vec![1]);
}

#[test]
fn unknown_labels_fail_resolution() {
    let labels_a = vec![b"r0".to_vec()];
    let labels_b = vec![b"c0".to_vec()];
    let bad_row = vec![ExternalCluster {
        rows: vec![b"stranger".to_vec()],
        cols: vec![b"c0".to_vec()],
    }];
    assert_eq!(
        resolve_external(&bad_row, &labels_a, &labels_b).unwrap_err(),
        MappingError::UnknownRowLabel
    );
    let bad_col = vec![ExternalCluster {
        rows: vec![b"r0".to_vec()],
        cols: vec![b"stranger".to_vec()],
    }];
    assert_eq!(
        resolve_external(&bad_col, &labels_a, &labels_b).unwrap_err(),
        MappingError::UnknownColLabel
    );
}

#[test]
fn written_bytes_match_the_format_exactly() {
    let mut g = WeightedBiAdjacency::new(1, 1);
    g.set_label_a(0, b"a".to_vec());
    g.set_label_b(0, b"b".to_vec());
    g.set_weight(0, 0, 5);
    let bytes = write_graph(&g, b' ', &b"h".to_vec());
    assert_eq!(bytes, b"#h\na b 5\n".to_vec());
}

#[test]
fn config_errors_describe_themselves() {
    assert!(ConfigError::SplitThresholdTooLow.describe().contains("threshold"));
    assert!(ConfigError::NoPowerIterations.describe().contains("power"));
}

#[test]
fn orientation_flag_swaps_the_axes() {
    let g = load_graph(b"x y 3\n", b' ', true).unwrap();
    assert_eq!(g.labels_a[0], b"x".to_vec());
    assert_eq!(g.labels_b[0], b"y".to_vec());
    let t = load_graph(b"x y 3\n", b' ', false).unwrap();
    assert_eq!(t.labels_a[0], b"y".to_vec());
    assert_eq!(t.labels_b[0], b"x".to_vec());
    assert_eq!(t.get_weight(0, 0), 3);
}
