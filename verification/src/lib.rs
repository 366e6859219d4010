pub mod centrality;
pub mod graph;
pub mod rational;
pub mod records;
pub mod shortest;

pub use centrality::calculate_betweenness_centrality;
pub use centrality::centrality_contribution;
pub use graph::TeamGraph;
pub use rational::Rational;
pub use records::MatchOutcome;
pub use records::MatchRecord;
pub use records::construct_graph;
pub use records::match_weight;
pub use shortest::Distance;
pub use shortest::find_shortest_paths;
