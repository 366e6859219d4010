use crate::graph::TeamGraph;
use crate::shortest::nonneg_weights;
use vstd::prelude::*;

verus! {

/// The result marker of one match row.
#[derive(Clone, Copy, Debug, PartialEq, Eq, Structural)]
pub enum MatchOutcome {
    HomeWin,
    AwayWin,
    Draw,
    /// Any marker other than a home win, an away win or a draw; weighted like a draw.
    Other,
}

/// One parsed match row: team labels, integer goal counts, and the outcome marker.
pub struct MatchRecord {
    pub home_team: String,
    pub away_team: String,
    pub home_goals: i64,
    pub away_goals: i64,
    pub result: MatchOutcome,
}

/// `x` clamped into the i32 range.
pub open spec fn clamp_i32(x: int) -> int {
    if x > i32::MAX {
        i32::MAX as int
    } else if x < i32::MIN {
        i32::MIN as int
    } else {
        x
    }
}

/// The edge weight a match yields: the winner's goal difference (clamped into
/// the i32 range) with a floor of one, and zero for a draw or an unknown marker.
pub open spec fn match_weight_spec(home_goals: int, away_goals: int, result: MatchOutcome) -> int {
    match result {
        MatchOutcome::HomeWin => {
            let gd = clamp_i32(home_goals - away_goals);
            if gd > 1 {
                gd
            } else {
                1
            }
        },
        MatchOutcome::AwayWin => {
            let gd = clamp_i32(0 - clamp_i32(home_goals - away_goals));
            if gd > 1 {
                gd
            } else {
                1
            }
        },
        MatchOutcome::Draw => 0,
        MatchOutcome::Other => 0,
    }
}

/// The weight of the directed edge from the home team to the away team that one
/// match contributes. A win counts the goal difference, at least one; a draw
/// counts zero.
pub fn match_weight(home_goals: i64, away_goals: i64, result: MatchOutcome) -> (w: i32)
    ensures
        w as int == match_weight_spec(home_goals as int, away_goals as int, result),
        w >= 0,
{
    let diff: i128 = home_goals as i128 - away_goals as i128;
    let gd: i32 = if diff > i32::MAX as i128 {
        i32::MAX
    } else if diff < i32::MIN as i128 {
        i32::MIN
    } else {
        diff as i32
    };
    match result {
        MatchOutcome::HomeWin => if gd > 1 {
            gd
        } else {
            1
        },
        MatchOutcome::AwayWin => {
            let neg: i128 = -(gd as i128);
            let negc: i32 = if neg > i32::MAX as i128 {
                i32::MAX
            } else {
                neg as i32
            };
            if negc > 1 {
                negc
            } else {
                1
            }
        },
        MatchOutcome::Draw => 0,
        MatchOutcome::Other => 0,
    }
}

/// Label `l` names the home or away team of one of the first `upto` records.
pub open spec fn label_from_records(l: Seq<char>, records: Seq<MatchRecord>, upto: int) -> bool {
    exists|r: int|
        0 <= r < upto && ((#[trigger] records[r]).home_team@ == l || records[r].away_team@ == l)
}

/// Builds the team graph of a batch of match rows: one node per distinct team
/// label (the home side inserted first), and one directed edge per row from the
/// home team to the away team, weighted by `match_weight`.
pub fn construct_graph(records: Vec<MatchRecord>) -> (g: TeamGraph)
    requires
        records@.len() < 0x7FFF_FFFF,
    ensures
        g.wf(),
        nonneg_weights(g.edges()),
        g.edges().len() == records@.len(),
        forall|r: int|
            0 <= r < records@.len() ==> {
                let e = #[trigger] g.edges()[r];
                &&& e.2 as int == match_weight_spec(
                    records@[r].home_goals as int,
                    records@[r].away_goals as int,
                    records@[r].result,
                )
                &&& e.0 < g.labels().len()
                &&& e.1 < g.labels().len()
                &&& g.labels()[e.0 as int] == records@[r].home_team@
                &&& g.labels()[e.1 as int] == records@[r].away_team@
            },
        forall|l: int|
            0 <= l < g.labels().len() ==> label_from_records(
                #[trigger] g.labels()[l],
                records@,
                records@.len() as int,
            ),
{
    let total = records.len();
    let mut g = TeamGraph::new();
    let mut idx: usize = 0;
    while idx < total
        invariant
            total == records@.len(),
            total < 0x7FFF_FFFF,
            idx <= total,
            g.wf(),
            nonneg_weights(g.edges()),
            g.edges().len() == idx,
            g.labels().len() <= 2 * idx,
            forall|r: int|
                0 <= r < idx ==> {
                    let e = #[trigger] g.edges()[r];
                    &&& e.2 as int == match_weight_spec(
                        records@[r].home_goals as int,
                        records@[r].away_goals as int,
                        records@[r].result,
                    )
                    &&& e.0 < g.labels().len()
                    &&& e.1 < g.labels().len()
                    &&& g.labels()[e.0 as int] == records@[r].home_team@
                    &&& g.labels()[e.1 as int] == records@[r].away_team@
                },
            forall|l: int|
                0 <= l < g.labels().len() ==> label_from_records(
                    #[trigger] g.labels()[l],
                    records@,
                    idx as int,
                ),
        decreases total - idx,
    {
        let h = g.add_node(records[idx].home_team.clone());
        let a = g.add_node(records[idx].away_team.clone());
        let w = match_weight(records[idx].home_goals, records[idx].away_goals, records[idx].result);
        g.add_edge(h, a, w);
        idx += 1;
    }
    proof {
        assert forall|l: int| 0 <= l < g.labels().len() implies label_from_records(
            #[trigger] g.labels()[l],
            records@,
            records@.len() as int,
        ) by {
            let lab = g.labels()[l];
            assert(label_from_records(lab, records@, idx as int));
            let r0 = choose|r: int|
                0 <= r < idx as int && ((#[trigger] records@[r]).home_team@ == lab
                    || records@[r].away_team@ == lab);
            assert(0 <= r0 < records@.len() && (records@[r0].home_team@ == lab
                || records@[r0].away_team@ == lab));
        }
    }
    g
}

} // verus!
