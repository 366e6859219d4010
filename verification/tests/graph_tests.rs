use team_centrality::MatchOutcome;
use team_centrality::MatchRecord;
use team_centrality::TeamGraph;
use team_centrality::construct_graph;
use team_centrality::match_weight;

fn sample_records() -> Vec<MatchRecord> {
    vec![
        MatchRecord {
            home_team: "TeamA".to_string(),
            away_team: "TeamB".to_string(),
            home_goals: 2,
            away_goals: 1,
            result: MatchOutcome::HomeWin,
        },
        MatchRecord {
            home_team: "TeamB".to_string(),
            away_team: "TeamC".to_string(),
            home_goals: 0,
            away_goals: 3,
            result: MatchOutcome::AwayWin,
        },
    ]
}

#[test]
fn test_graph_construction() {
    let graph = construct_graph(sample_records());
    assert_eq!(graph.node_count(), 3); // Number of unique teams
    assert_eq!(graph.edge_count(), 2); // Number of matches
}

#[test]
fn constructed_edges_carry_match_weights() {
    let graph = construct_graph(sample_records());
    assert_eq!(graph.label(0), "TeamA");
    assert_eq!(graph.label(1), "TeamB");
    assert_eq!(graph.label(2), "TeamC");
    // TeamA beat TeamB by one goal; TeamB lost to TeamC by three.
    assert_eq!(graph.edge_at(0), (0, 1, 1));
    assert_eq!(graph.edge_at(1), (1, 2, 3));
}

#[test]
fn add_node_is_idempotent() {
    let mut g = TeamGraph::new();
    let a = g.add_node("alpha".to_string());
    let b = g.add_node("beta".to_string());
    let again = g.add_node("alpha".to_string());
    assert_eq!(a, 0);
    assert_eq!(b, 1);
    assert_eq!(again, a);
    assert_eq!(g.node_count(), 2);
}

#[test]
fn find_node_looks_labels_up() {
    let mut g = TeamGraph::new();
    g.add_node("alpha".to_string());
    g.add_node("beta".to_string());
    assert_eq!(g.find_node(&"beta".to_string()), Some(1));
    assert_eq!(g.find_node(&"gamma".to_string()), None);
}

#[test]
fn neighbors_listed_most_recent_first() {
    let mut g = TeamGraph::new();
    for i in 0..4u32 {
        g.add_node(format!("n{}", i));
    }
    g.add_edge(0, 1, 1);
    g.add_edge(0, 2, 1);
    g.add_edge(0, 3, 1);
    g.add_edge(2, 3, 1);
    assert_eq!(g.neighbors_outgoing(0), vec![3, 2, 1]);
    assert_eq!(g.neighbors_incoming(3), vec![2, 0]);
    assert_eq!(g.neighbors_outgoing(1), Vec::<usize>::new());
}

#[test]
fn edge_weight_prefers_last_inserted() {
    let mut g = TeamGraph::new();
    g.add_node("x".to_string());
    g.add_node("y".to_string());
    g.add_edge(0, 1, 5);
    g.add_edge(0, 1, 7);
    assert_eq!(g.edge_weight(0, 1), Some(7));
    assert_eq!(g.edge_weight(1, 0), None);
}

#[test]
fn match_weight_by_outcome() {
    // A home win counts the goal difference, floored at one.
    assert_eq!(match_weight(2, 1, MatchOutcome::HomeWin), 1);
    assert_eq!(match_weight(5, 1, MatchOutcome::HomeWin), 4);
    assert_eq!(match_weight(1, 3, MatchOutcome::HomeWin), 1);
    // An away win counts the difference the other way, floored at one.
    assert_eq!(match_weight(0, 3, MatchOutcome::AwayWin), 3);
    assert_eq!(match_weight(2, 1, MatchOutcome::AwayWin), 1);
    // Draws and unknown markers weigh zero.
    assert_eq!(match_weight(2, 2, MatchOutcome::Draw), 0);
    assert_eq!(match_weight(4, 0, MatchOutcome::Other), 0);
    // Extreme goal counts stay clamped in the i32 range.
    assert_eq!(match_weight(i64::MAX, i64::MIN, MatchOutcome::HomeWin), i32::MAX);
    assert_eq!(match_weight(i64::MAX, i64::MIN, MatchOutcome::AwayWin), 1);
    assert_eq!(match_weight(i64::MIN, i64::MAX, MatchOutcome::AwayWin), i32::MAX);
}
