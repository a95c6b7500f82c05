use rustgraphs::{
    bfs, optimal_contiguous_partition, threaded_triangles, threaded_triangles_csr, triangles,
    Graph, StaticDiGraph, StaticGraph, UNREACHED,
};

fn undirected(edges: &[(u32, u32)]) -> StaticGraph {
    StaticGraph::from_edges(edges.to_vec()).unwrap()
}

fn directed(edges: &[(u32, u32)]) -> StaticDiGraph {
    StaticDiGraph::from_edges(edges.to_vec()).unwrap()
}

const K4: [(u32, u32); 6] = [(0, 1), (0, 2), (0, 3), (1, 2), (1, 3), (2, 3)];
const K23: [(u32, u32); 6] = [(0, 2), (0, 3), (0, 4), (1, 2), (1, 3), (1, 4)];
const PATH: [(u32, u32); 4] = [(0, 1), (1, 2), (2, 3), (3, 4)];

#[test]
fn k4_triangles_and_wedges() {
    let g = undirected(&K4);
    let (ntri, nwedge) = triangles(&g);
    assert_eq!(ntri, 4);
    // pivot 0 has three oriented neighbours, pivot 1 has two
    assert_eq!(nwedge, 4);
}

#[test]
fn bipartite_has_no_triangles() {
    let g = undirected(&K23);
    let (ntri, nwedge) = triangles(&g);
    assert_eq!(ntri, 0);
    assert!(nwedge > 0);
}

#[test]
fn bfs_on_path() {
    let g = directed(&PATH);
    assert_eq!(bfs(&g, 0), vec![0, 1, 2, 3, 4]);
    let h = undirected(&PATH);
    assert_eq!(bfs(&h, 0), vec![0, 1, 2, 3, 4]);
    assert_eq!(bfs(&h, 2), vec![2, 1, 0, 1, 2]);
}

#[test]
fn bfs_on_disconnected_graph() {
    let g = undirected(&[(0, 1), (2, 3)]);
    assert_eq!(bfs(&g, 0), vec![0, 1, UNREACHED, UNREACHED]);
}

#[test]
fn bfs_follows_direction() {
    let g = directed(&[(1, 0), (1, 2), (2, 3)]);
    assert_eq!(bfs(&g, 0), vec![0, UNREACHED, UNREACHED, UNREACHED]);
    assert_eq!(bfs(&g, 1), vec![1, 0, 1, 2]);
}

#[test]
fn bfs_takes_shortest_route() {
    // a long way round 0-1-2-3-4 and a shortcut 0-4
    let g = undirected(&[(0, 1), (1, 2), (2, 3), (3, 4), (0, 4), (4, 5)]);
    assert_eq!(bfs(&g, 0), vec![0, 1, 2, 2, 1, 2]);
}

#[test]
fn bfs_levels_have_a_parent_one_level_up() {
    let g = undirected(&[(0, 1), (0, 2), (1, 3), (2, 3), (3, 4), (5, 6)]);
    let levels = bfs(&g, 0);
    assert_eq!(levels[0], 0);
    for u in 1..g.nv() {
        if levels[u as usize] != UNREACHED {
            let found = g
                .in_neighbors(u)
                .iter()
                .any(|&p| levels[p as usize] != UNREACHED && levels[p as usize] + 1 == levels[u as usize]);
            assert!(found);
        }
    }
    assert_eq!(levels, vec![0, 1, 1, 2, 3, UNREACHED, UNREACHED]);
}

#[test]
fn parallel_counts_match_serial() {
    let graphs: Vec<Vec<(u32, u32)>> = vec![
        K4.to_vec(),
        K23.to_vec(),
        PATH.to_vec(),
        vec![(0, 1), (1, 2), (2, 0), (2, 3), (3, 4), (4, 2), (0, 4), (5, 5)],
        vec![],
    ];
    for edges in graphs {
        let g = undirected(&edges);
        let serial = triangles(&g).0;
        assert_eq!(threaded_triangles(&g), serial);
        assert_eq!(threaded_triangles_csr(&g), serial);
    }
}

#[test]
fn many_partitions_count_every_triangle() {
    // a wheel: hub 0 and a rim of 30 vertices, one triangle per rim edge
    let mut edges = Vec::new();
    for i in 1..=30u32 {
        edges.push((0, i));
        edges.push((i, if i == 30 { 1 } else { i + 1 }));
    }
    let g = undirected(&edges);
    assert_eq!(triangles(&g).0, 30);
    assert_eq!(threaded_triangles(&g), 30);
    assert_eq!(threaded_triangles_csr(&g), 30);
}

#[test]
fn self_loop_adds_no_triangle() {
    let g = undirected(&[(0, 1), (1, 2), (2, 0), (0, 0)]);
    assert_eq!(triangles(&g).0, 1);
    assert_eq!(threaded_triangles(&g), 1);
}

#[test]
fn relabelled_graph_has_same_count() {
    let edges = vec![(0, 1), (1, 2), (2, 0), (2, 3), (3, 4), (4, 2), (0, 4)];
    let relabel = |x: u32| 4 - x;
    let moved: Vec<(u32, u32)> = edges.iter().map(|&(a, b)| (relabel(a), relabel(b))).collect();
    assert_eq!(triangles(&undirected(&edges)).0, triangles(&undirected(&moved)).0);
    assert_eq!(triangles(&undirected(&edges)).0, 3);
}

#[test]
fn partition_splits_evenly() {
    let parts = optimal_contiguous_partition(vec![1, 1, 1, 1], 2);
    assert_eq!(parts, vec![0..2, 2..4]);
}

#[test]
fn partition_single_part_covers_all() {
    let parts = optimal_contiguous_partition(vec![3, 1, 4, 1, 5], 1);
    assert_eq!(parts, vec![0..5]);
}

#[test]
fn partition_of_nothing_is_empty() {
    assert!(optimal_contiguous_partition(vec![], 4).is_empty());
    assert!(optimal_contiguous_partition(vec![1, 2], 0).is_empty());
}

#[test]
fn partition_with_zero_weights_is_one_range() {
    assert_eq!(optimal_contiguous_partition(vec![0, 0, 0], 3), vec![0..3]);
}

#[test]
fn partition_heavy_first_item() {
    assert_eq!(optimal_contiguous_partition(vec![10], 2), vec![0..0, 0..1]);
}

#[test]
fn partition_respects_the_limit_and_balance() {
    let weights: Vec<usize> = vec![5, 1, 1, 1, 9, 2, 2, 2, 2, 7, 1, 3];
    let total: usize = weights.iter().sum();
    for p in 1..=15usize {
        let parts = optimal_contiguous_partition(weights.clone(), p);
        assert!(parts.len() <= p);
        assert_eq!(parts[0].start, 0);
        assert_eq!(parts[parts.len() - 1].end, weights.len());
        for k in 1..parts.len() {
            assert_eq!(parts[k - 1].end, parts[k].start);
            assert!(parts[k].start < parts[k].end);
        }
        let largest = weights.iter().copied().max().unwrap();
        let bound = std::cmp::max(largest, (total + p - 1) / p);
        let worst = parts.iter().map(|r| weights[r.clone()].iter().sum::<usize>()).max().unwrap();
        assert!(worst <= 2 * bound);
    }
}
