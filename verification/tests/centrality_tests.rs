use team_centrality::TeamGraph;
use team_centrality::calculate_betweenness_centrality;
use team_centrality::find_shortest_paths;
use team_centrality::centrality_contribution;
use team_centrality::Rational;

fn as_f64(r: Rational) -> f64 {
    r.num as f64 / r.den as f64
}

fn five_node_graph(weight: i32) -> (TeamGraph, Vec<usize>) {
    let mut graph = TeamGraph::new();
    let mut nodes = Vec::new();
    for i in 1..=5u32 {
        nodes.push(graph.add_node(i.to_string()));
    }
    let edge_list = [(0, 1), (1, 2), (2, 3), (3, 4), (0, 2), (0, 3), (1, 3), (2, 4)];
    for (a, b) in edge_list {
        graph.add_edge(nodes[a], nodes[b], weight);
    }
    (graph, nodes)
}

#[test]
fn test_centrality_calculation() {
    let (graph, nodes) = five_node_graph(0);
    let expected_scores = vec![2.5, 2.0, 2.0, 1.0, 0.0];
    for (i, &node) in nodes.iter().enumerate() {
        let centrality_scores = calculate_betweenness_centrality(&graph, node).unwrap();
        assert_eq!(as_f64(centrality_scores[i]), expected_scores[i]);
    }
}

#[test]
fn chain_with_shortcuts_full_vector() {
    // Uniform zero-weight edges, source is node "1": the full contribution vector.
    let (graph, _) = five_node_graph(0);
    let c = calculate_betweenness_centrality(&graph, 0).unwrap();
    let got: Vec<f64> = c.into_iter().map(as_f64).collect();
    assert_eq!(got, vec![2.5, 1.5, 4.0 / 3.0, 0.5, 0.0]);
}

#[test]
fn chain_with_shortcuts_unit_weights() {
    // The same structure with every edge of weight one, source node "1".
    let (graph, _) = five_node_graph(1);
    let d = find_shortest_paths(&graph, 0);
    assert_eq!(d, vec![Some(0), Some(1), Some(1), Some(1), Some(2)]);
    let c = calculate_betweenness_centrality(&graph, 0).unwrap();
    let got: Vec<f64> = c.into_iter().map(as_f64).collect();
    assert_eq!(got, vec![3.0, 0.0, 1.0, 0.5, 0.0]);
}

#[test]
fn centrality_is_deterministic() {
    let (graph, _) = five_node_graph(1);
    let c1 = calculate_betweenness_centrality(&graph, 1).unwrap();
    let c2 = calculate_betweenness_centrality(&graph, 1).unwrap();
    assert_eq!(c1, c2);
}

#[test]
fn single_node_graph_zero_centrality() {
    let mut graph = TeamGraph::new();
    let only = graph.add_node("solo".to_string());
    let c = calculate_betweenness_centrality(&graph, only).unwrap();
    assert_eq!(c.len(), 1);
    assert_eq!(c[0].num, 0);
    assert_eq!(c[0].den, 1);
}

#[test]
fn disconnected_node_contributes_nothing() {
    // Nodes 0 -> 1 -> 2 with node 3 isolated.
    let mut graph = TeamGraph::new();
    for i in 0..4u32 {
        graph.add_node(format!("t{}", i));
    }
    graph.add_edge(0, 1, 1);
    graph.add_edge(1, 2, 1);

    // As a source the isolated node reaches nothing.
    let d = find_shortest_paths(&graph, 3);
    assert_eq!(d, vec![None, None, None, Some(0)]);
    let c = calculate_betweenness_centrality(&graph, 3).unwrap();
    assert!(c.iter().all(|r| r.num == 0));

    // As a target it stays unknown and scores zero.
    let d = find_shortest_paths(&graph, 0);
    assert_eq!(d, vec![Some(0), Some(1), Some(2), None]);
    let c = calculate_betweenness_centrality(&graph, 0).unwrap();
    let got: Vec<f64> = c.into_iter().map(as_f64).collect();
    assert_eq!(got, vec![1.0, 1.0, 0.0, 0.0]);
}

#[test]
fn contribution_from_precomputed_table() {
    let (graph, _) = five_node_graph(0);
    let d = find_shortest_paths(&graph, 2);
    let c = centrality_contribution(&graph, 2, &d).unwrap();
    let whole = calculate_betweenness_centrality(&graph, 2).unwrap();
    assert_eq!(c, whole);
    assert_eq!(as_f64(c[2]), 2.0);
}
