use rustgraphs::{
    parse_edge_line, parse_edge_lines, Csr, Graph, GraphError, StaticDiGraph, StaticGraph,
};

fn lines(text: &str) -> Vec<Vec<u8>> {
    text.lines().map(|l| l.as_bytes().to_vec()).collect()
}

#[test]
fn neighbours_are_sorted_and_deduplicated() {
    let g = StaticGraph::from_edges(vec![(3, 0), (0, 2), (0, 1), (2, 0), (0, 3), (1, 0)]).unwrap();
    assert_eq!(g.nv(), 4);
    assert_eq!(g.out_neighbors(0), &[1, 2, 3]);
    assert_eq!(g.out_neighbors(3), &[0]);
    for u in g.vertices() {
        let row = g.out_neighbors(u);
        assert!(row.windows(2).all(|w| w[0] < w[1]));
        assert_eq!(g.out_degree(u) as usize, row.len());
    }
}

#[test]
fn undirected_rows_are_symmetric() {
    let g = StaticGraph::from_edges(vec![(0, 1), (1, 2), (4, 2), (3, 3)]).unwrap();
    for u in g.vertices() {
        for v in g.vertices() {
            assert_eq!(g.out_neighbors(u).contains(&v), g.out_neighbors(v).contains(&u));
        }
    }
    assert_eq!(g.ne(), 7);
    assert_eq!(g.in_degree(2), 2);
}

#[test]
fn directed_rows_transpose() {
    let g = StaticDiGraph::from_edges(vec![(0, 1), (0, 2), (2, 1), (3, 0), (0, 1)]).unwrap();
    assert_eq!(g.nv(), 4);
    assert_eq!(g.ne(), 4);
    assert_eq!(g.out_neighbors(0), &[1, 2]);
    assert_eq!(g.in_neighbors(1), &[0, 2]);
    assert_eq!(g.in_degree(0), 1);
    assert_eq!(g.out_degree(1), 0);
    for u in g.vertices() {
        for v in g.vertices() {
            assert_eq!(g.out_neighbors(u).contains(&v), g.in_neighbors(v).contains(&u));
        }
    }
}

#[test]
fn has_edge_agrees_with_neighbour_lists() {
    let g = StaticDiGraph::from_edges(vec![(0, 1), (0, 2), (0, 3), (2, 1), (3, 0)]).unwrap();
    for u in g.vertices() {
        for v in g.vertices() {
            assert_eq!(g.has_edge(u, v), g.out_neighbors(u).contains(&v));
        }
    }
    assert!(g.has_edge(3, 0));
    assert!(!g.has_edge(1, 0));
    let h = StaticGraph::from_edges(vec![(0, 1), (0, 2), (0, 3), (2, 1)]).unwrap();
    for u in h.vertices() {
        for v in h.vertices() {
            assert_eq!(h.has_edge(u, v), h.out_neighbors(u).contains(&v));
        }
    }
}

#[test]
fn vertices_cover_all_ids() {
    let g = StaticGraph::from_edges(vec![(5, 2)]).unwrap();
    assert_eq!(g.vertices().collect::<Vec<u32>>(), vec![0, 1, 2, 3, 4, 5]);
    assert_eq!(g.out_degree(0), 0);
}

#[test]
fn empty_edge_list_gives_empty_graph() {
    let g = StaticGraph::from_edges(vec![]).unwrap();
    assert_eq!(g.nv(), 0);
    assert_eq!(g.ne(), 0);
}

#[test]
fn sentinel_id_is_rejected() {
    assert_eq!(
        StaticGraph::from_edges(vec![(0, u32::MAX)]).err(),
        Some(GraphError::Malformed)
    );
    assert_eq!(
        StaticDiGraph::from_edges(vec![(1, 2), (u32::MAX, 0)]).err(),
        Some(GraphError::Malformed)
    );
}

#[test]
fn csr_from_arrays_is_checked() {
    let m = Csr::new(vec![0, 2, 3, 3], vec![1, 2, 0]).unwrap();
    assert_eq!(m.dim(), 3);
    assert_eq!(m.n(), 3);
    assert_eq!(m.row(0), &[1, 2]);
    assert_eq!(m.row_len(1), 1);
    assert!(m.has_index(0, 2));
    assert!(!m.has_index(1, 2));
    assert_eq!(Csr::new(vec![0, 2, 1], vec![0, 1]).err(), Some(GraphError::Malformed));
    assert_eq!(Csr::new(vec![0, 2], vec![1, 1]).err(), Some(GraphError::Malformed));
    assert_eq!(Csr::new(vec![0, 1], vec![5]).err(), Some(GraphError::Malformed));
    assert_eq!(Csr::new(vec![0, 1], vec![0, 0]).err(), Some(GraphError::Malformed));
    assert_eq!(Csr::new(vec![], vec![]).err(), Some(GraphError::Malformed));
}

#[test]
fn csr_from_edges_buckets_by_source() {
    let m = Csr::from_edges(vec![(2, 0), (0, 2), (0, 1), (0, 2)]).unwrap();
    assert_eq!(m.dim(), 3);
    assert_eq!(m.row(0), &[1, 2]);
    assert_eq!(m.row(1), &[] as &[u32]);
    assert_eq!(m.row(2), &[0]);
}

#[test]
fn edge_lines_parse() {
    assert_eq!(parse_edge_line(b"0 1"), Ok(Some((0, 1))));
    assert_eq!(parse_edge_line(b"  12\t7  "), Ok(Some((12, 7))));
    assert_eq!(parse_edge_line(b"+5 7"), Ok(Some((5, 7))));
    assert_eq!(parse_edge_line(b"# a comment"), Ok(None));
    assert_eq!(parse_edge_line(b"   #x"), Ok(None));
    assert_eq!(parse_edge_line(b"4294967295 0"), Ok(Some((u32::MAX, 0))));
}

#[test]
fn bad_edge_lines_are_rejected() {
    for bad in [&b""[..], b"   ", b"3", b"1 2 3", b"a 1", b"1 -2", b"4294967296 1", b"+ 1"] {
        assert_eq!(parse_edge_line(bad), Err(GraphError::Parse(bad.to_vec())));
    }
}

#[test]
fn edge_list_builds_graphs() {
    let text = "# K3 plus a tail\n0 1\n1 2\n2 0\n2 3\n";
    let g = StaticGraph::from_edge_lines(&lines(text)).unwrap();
    assert_eq!(g.nv(), 4);
    assert_eq!(g.out_neighbors(2), &[0, 1, 3]);
    let d = StaticDiGraph::from_edge_lines(&lines(text)).unwrap();
    assert_eq!(d.out_neighbors(2), &[0, 3]);
    assert_eq!(d.in_neighbors(0), &[2]);
}

#[test]
fn edge_list_reports_first_bad_line() {
    let text = "0 1\nbad line\n1 2 3\n";
    assert_eq!(
        parse_edge_lines(&lines(text)),
        Err(GraphError::Parse(b"bad line".to_vec()))
    );
    assert!(StaticGraph::from_edge_lines(&lines(text)).is_err());
}
