use team_centrality::TeamGraph;
use team_centrality::find_shortest_paths;

fn diamond() -> TeamGraph {
    // 0 -> 1 (2), 0 -> 2 (1), 2 -> 1 (0), 1 -> 3 (4)
    let mut g = TeamGraph::new();
    for i in 0..4u32 {
        g.add_node(format!("n{}", i));
    }
    g.add_edge(0, 1, 2);
    g.add_edge(0, 2, 1);
    g.add_edge(2, 1, 0);
    g.add_edge(1, 3, 4);
    g
}

#[test]
fn source_distance_is_zero() {
    let g = diamond();
    for s in 0..4 {
        let d = find_shortest_paths(&g, s);
        assert_eq!(d[s], Some(0));
    }
}

#[test]
fn shortest_costs_are_exact() {
    let g = diamond();
    let d = find_shortest_paths(&g, 0);
    // 0 -> 2 -> 1 costs 1, beating the direct edge of weight 2.
    assert_eq!(d, vec![Some(0), Some(1), Some(1), Some(5)]);
}

#[test]
fn no_edge_can_improve_any_entry() {
    let g = diamond();
    let d = find_shortest_paths(&g, 0);
    let edges = [(0usize, 1usize, 2i64), (0, 2, 1), (2, 1, 0), (1, 3, 4)];
    for (a, b, w) in edges {
        if let Some(da) = d[a] {
            assert!(d[b].is_some());
            assert!(d[b].unwrap() <= da + w);
        }
    }
}

#[test]
fn repeated_runs_agree() {
    let g = diamond();
    assert_eq!(find_shortest_paths(&g, 0), find_shortest_paths(&g, 0));
    assert_eq!(find_shortest_paths(&g, 2), find_shortest_paths(&g, 2));
}

#[test]
fn source_without_outgoing_edges_knows_only_itself() {
    let g = diamond();
    let d = find_shortest_paths(&g, 3);
    assert_eq!(d, vec![None, None, None, Some(0)]);
}

#[test]
fn zero_weight_edges_reach_everything_at_zero() {
    let mut g = TeamGraph::new();
    for i in 0..3u32 {
        g.add_node(format!("z{}", i));
    }
    g.add_edge(0, 1, 0);
    g.add_edge(1, 2, 0);
    let d = find_shortest_paths(&g, 0);
    assert_eq!(d, vec![Some(0), Some(0), Some(0)]);
}
