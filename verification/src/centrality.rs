use crate::graph::EdgeModel;
use crate::graph::TeamGraph;
use crate::rational::Rational;
use crate::rational::rat_add;
use crate::rational::rat_div;
use crate::rational::rat_half;
use crate::rational::rat_one_plus;
use crate::rational::add_exec;
use crate::rational::div_exec;
use crate::rational::half_exec;
use crate::rational::one_plus_exec;
use crate::shortest::Distance;
use crate::shortest::edges_bounded;
use crate::shortest::find_shortest_paths;
use crate::shortest::is_path;
use crate::shortest::lemma_distance_table_unique;
use crate::shortest::path_cost;
use crate::shortest::table_consistent;
use crate::shortest::table_sound;
use crate::shortest::nonneg_weights;
use crate::shortest::valid_distance_table;
use vstd::prelude::*;

verus! {

/// The values of a vector of fractions.
pub open spec fn rat_views(v: Seq<Rational>) -> Seq<(nat, nat)> {
    v.map_values(|r: Rational| r@)
}

/// The all-zero accumulator state over `n` nodes.
pub open spec fn cent_init(n: nat) -> Seq<(nat, nat)> {
    Seq::new(n, |i: int| (0nat, 1nat))
}

/// Edge `j - 1` lies on a shortest path from the source into node `nidx`:
/// both endpoints have known distances and the edge is tight.
pub open spec fn qualifying_edge(
    edges: Seq<EdgeModel>,
    dist: Seq<Option<Distance>>,
    nidx: int,
    e: int,
) -> bool {
    &&& edges[e].1 as int == nidx
    &&& dist[edges[e].0 as int] is Some
    &&& dist[nidx]->Some_0 == dist[edges[e].0 as int]->Some_0 + edges[e].2
}

/// Folds the predecessor scan of node `nidx` over the edges with index below `j`,
/// taken in decreasing index order (most recently inserted first). `st` is the
/// running centrality state and `k` the count of qualifying predecessor edges so
/// far; each qualifying edge `P -> N` adds `(1 + st[N]) / k'` to `st[P]`.
/// `None` means a value left the representable range.
pub open spec fn cent_preds(
    edges: Seq<EdgeModel>,
    dist: Seq<Option<Distance>>,
    nidx: int,
    st: Seq<(nat, nat)>,
    k: nat,
    j: int,
) -> Option<(Seq<(nat, nat)>, nat)>
    decreases j,
{
    if j <= 0 {
        Some((st, k))
    } else {
        let e = j - 1;
        if qualifying_edge(edges, dist, nidx, e) {
            let p = edges[e].0 as int;
            match rat_one_plus(st[nidx]) {
                Option::None => None,
                Option::Some(t1) => match rat_div(t1, (k + 1) as nat) {
                    Option::None => None,
                    Option::Some(t2) => match rat_add(st[p], t2) {
                        Option::None => None,
                        Option::Some(t3) => cent_preds(
                            edges,
                            dist,
                            nidx,
                            st.update(p, t3),
                            k + 1,
                            j - 1,
                        ),
                    },
                },
            }
        } else {
            cent_preds(edges, dist, nidx, st, k, j - 1)
        }
    }
}

/// Folds the whole accumulation from node `i` upward: scan each node's
/// predecessors (when its distance is known), then halve every node other than
/// the source as its turn ends.
pub open spec fn cent_nodes(
    edges: Seq<EdgeModel>,
    dist: Seq<Option<Distance>>,
    start: int,
    st: Seq<(nat, nat)>,
    i: int,
    n: nat,
) -> Option<Seq<(nat, nat)>>
    decreases n - i,
{
    if i >= n {
        Some(st)
    } else {
        let st1opt = if dist[i] is Some {
            match cent_preds(edges, dist, i, st, 0, edges.len() as int) {
                Option::None => None,
                Option::Some(sk) => Some(sk.0),
            }
        } else {
            Some(st)
        };
        match st1opt {
            Option::None => None,
            Option::Some(st1) => if i != start {
                match rat_half(st1[i]) {
                    Option::None => None,
                    Option::Some(h) => cent_nodes(edges, dist, start, st1.update(i, h), i + 1, n),
                }
            } else {
                cent_nodes(edges, dist, start, st1, i + 1, n)
            },
        }
    }
}

/// The rest of the accumulation when node `i` is midway through its predecessor
/// scan: finish the scan, halve `i` if it is not the source, then continue.
pub open spec fn cent_rest(
    edges: Seq<EdgeModel>,
    dist: Seq<Option<Distance>>,
    start: int,
    st: Seq<(nat, nat)>,
    k: nat,
    j: int,
    i: int,
    n: nat,
) -> Option<Seq<(nat, nat)>> {
    match cent_preds(edges, dist, i, st, k, j) {
        Option::None => None,
        Option::Some(sk) => if i != start {
            match rat_half(sk.0[i]) {
                Option::None => None,
                Option::Some(h) => cent_nodes(edges, dist, start, sk.0.update(i, h), i + 1, n),
            }
        } else {
            cent_nodes(edges, dist, start, sk.0, i + 1, n)
        },
    }
}

/// The exact centrality contribution vector for one source over one distance
/// table; `None` when a value leaves the representable range.
pub open spec fn centrality_spec(
    edges: Seq<EdgeModel>,
    n: nat,
    start: int,
    dist: Seq<Option<Distance>>,
) -> Option<Seq<(nat, nat)>> {
    cent_nodes(edges, dist, start, cent_init(n), 0, n)
}

/// The unique valid distance table of a graph and source.
pub open spec fn shortest_table(edges: Seq<EdgeModel>, n: nat, s: int) -> Seq<Option<Distance>> {
    choose|t: Seq<Option<Distance>>| valid_distance_table(edges, n, s, t)
}

/// The exact centrality contribution vector of a graph for one source.
pub open spec fn centrality_of(edges: Seq<EdgeModel>, n: nat, s: int) -> Option<Seq<(nat, nat)>> {
    centrality_spec(edges, n, s, shortest_table(edges, n, s))
}

/// Accumulates the per-node centrality contribution for the source whose valid
/// distance table is `dist`. Entry `P` collects `(1 + c[N]) / path_count` for
/// every tight edge `P -> N`, nodes scanned in index order, predecessor edges in
/// decreasing insertion order, and every node but the source is halved. `None`
/// exactly when some intermediate value cannot be represented.
pub fn centrality_contribution(
    g: &TeamGraph,
    start_node: usize,
    dist: &Vec<Option<Distance>>,
) -> (r: Option<Vec<Rational>>)
    requires
        g.wf(),
        valid_distance_table(g.edges(), g.node_count_spec(), start_node as int, dist@),
    ensures
        r is Some <==> centrality_spec(
            g.edges(),
            g.node_count_spec(),
            start_node as int,
            dist@,
        ) is Some,
        r is Some ==> rat_views(r->Some_0@) == centrality_spec(
            g.edges(),
            g.node_count_spec(),
            start_node as int,
            dist@,
        )->Some_0 && r->Some_0@.len() == g.node_count_spec() && forall|x: int|
            0 <= x < r->Some_0@.len() ==> (#[trigger] r->Some_0@[x]).wf(),
{
    let ghost edges = g.edges();
    let ghost nn = g.node_count_spec();
    let ghost s = start_node as int;
    let n = g.node_count();
    let m = g.edge_count();

    let mut cent: Vec<Rational> = Vec::new();
    let mut i: usize = 0;
    while i < n
        invariant
            i <= n,
            cent@.len() == i,
            forall|x: int| 0 <= x < i ==> #[trigger] cent@[x] == (Rational { num: 0, den: 1 }),
        decreases n - i,
    {
        cent.push(Rational::zero());
        i += 1;
    }
    proof {
        assert(rat_views(cent@) =~= cent_init(nn));
    }

    let mut i: usize = 0;
    while i < n
        invariant
            g.wf(),
            edges == g.edges(),
            nn == g.node_count_spec(),
            s == start_node as int,
            valid_distance_table(edges, nn, s, dist@),
            n == nn,
            m == edges.len(),
            i <= n,
            cent@.len() == nn,
            forall|x: int| 0 <= x < cent@.len() ==> (#[trigger] cent@[x]).wf(),
            cent_nodes(edges, dist@, s, rat_views(cent@), i as int, nn) == centrality_spec(
                edges,
                nn,
                s,
                dist@,
            ),
        decreases n - i,
    {
        let di = dist[i];
        match di {
            Some(nd) => {
                let mut k: u64 = 0;
                let mut j: usize = m;
                proof {
                    assert(cent_rest(edges, dist@, s, rat_views(cent@), 0nat, m as int, i as int, nn)
                        == cent_nodes(edges, dist@, s, rat_views(cent@), i as int, nn));
                }
                while j > 0
                    invariant
                        g.wf(),
                        edges == g.edges(),
                        nn == g.node_count_spec(),
                        s == start_node as int,
                        valid_distance_table(edges, nn, s, dist@),
                        n == nn,
                        m == edges.len(),
                        (i as int) < nn,
                        j <= m,
                        k as int <= m - j,
                        dist@[i as int] == Some(nd),
                        cent@.len() == nn,
                        forall|x: int| 0 <= x < cent@.len() ==> (#[trigger] cent@[x]).wf(),
                        cent_rest(
                            edges,
                            dist@,
                            s,
                            rat_views(cent@),
                            k as nat,
                            j as int,
                            i as int,
                            nn,
                        ) == centrality_spec(edges, nn, s, dist@),
                    decreases j,
                {
                    let ghost st0 = rat_views(cent@);
                    let (ea, eb, w) = g.edge_at(j - 1);
                    let mut qualifies = false;
                    if eb == i {
                        match dist[ea] {
                            Some(pd) => {
                                let sum: i128 = pd as i128 + w as i128;
                                if nd as i128 == sum {
                                    qualifies = true;
                                }
                            },
                            None => {},
                        }
                    }
                    proof {
                        assert(qualifies == qualifying_edge(edges, dist@, i as int, j - 1));
                    }
                    if qualifies {
                        let t1 = match one_plus_exec(cent[i]) {
                            Some(x) => x,
                            None => {
                                return None;
                            },
                        };
                        let t2 = match div_exec(t1, k + 1) {
                            Some(x) => x,
                            None => {
                                return None;
                            },
                        };
                        let t3 = match add_exec(cent[ea], t2) {
                            Some(x) => x,
                            None => {
                                return None;
                            },
                        };
                        cent[ea] = t3;
                        k = k + 1;
                        proof {
                            assert(rat_views(cent@) =~= st0.update(ea as int, t3@));
                        }
                    }
                    j = j - 1;
                }
                proof {
                    assert(cent_preds(edges, dist@, i as int, rat_views(cent@), k as nat, 0)
                        == Some((rat_views(cent@), k as nat)));
                }
                if i != start_node {
                    let ghost st1 = rat_views(cent@);
                    let h = match half_exec(cent[i]) {
                        Some(x) => x,
                        None => {
                            return None;
                        },
                    };
                    cent[i] = h;
                    proof {
                        assert(rat_views(cent@) =~= st1.update(i as int, h@));
                    }
                }
            },
            None => {
                if i != start_node {
                    let ghost st1 = rat_views(cent@);
                    let h = match half_exec(cent[i]) {
                        Some(x) => x,
                        None => {
                            return None;
                        },
                    };
                    cent[i] = h;
                    proof {
                        assert(rat_views(cent@) =~= st1.update(i as int, h@));
                    }
                }
            },
        }
        i += 1;
    }
    proof {
        assert(cent_nodes(edges, dist@, s, rat_views(cent@), nn as int, nn) == Some(
            rat_views(cent@),
        ));
    }
    Some(cent)
}

/// The betweenness-centrality contribution of every node for one fixed source:
/// shortest paths first, then the dependency accumulation over the resulting
/// distance table. `None` exactly when an accumulated value cannot be represented.
pub fn calculate_betweenness_centrality(g: &TeamGraph, start_node: usize) -> (r: Option<
    Vec<Rational>,
>)
    requires
        g.wf(),
        (start_node as int) < g.node_count_spec(),
        nonneg_weights(g.edges()),
    ensures
        r is Some <==> centrality_of(g.edges(), g.node_count_spec(), start_node as int) is Some,
        r is Some ==> rat_views(r->Some_0@) == centrality_of(
            g.edges(),
            g.node_count_spec(),
            start_node as int,
        )->Some_0 && r->Some_0@.len() == g.node_count_spec() && forall|x: int|
            0 <= x < r->Some_0@.len() ==> (#[trigger] r->Some_0@[x]).wf(),
{
    let ghost edges = g.edges();
    let ghost nn = g.node_count_spec();
    let ghost s = start_node as int;
    let dist = find_shortest_paths(g, start_node);
    proof {
        assert(edges_bounded(edges, nn));
        assert(valid_distance_table(edges, nn, s, shortest_table(edges, nn, s)));
        lemma_distance_table_unique(edges, nn, s, dist@, shortest_table(edges, nn, s));
    }
    centrality_contribution(g, start_node, &dist)
}

/// Boundary: a graph of one node and no edges yields the all-zero centrality
/// vector for its only possible source.
pub proof fn lemma_single_node_centrality(edges: Seq<EdgeModel>)
    requires
        edges.len() == 0,
    ensures
        centrality_of(edges, 1, 0) == Some(seq![(0nat, 1nat)]),
{
    let t0: Seq<Option<Distance>> = seq![Some(0i64)];
    assert(is_path(edges, Seq::<int>::empty(), 0, 0));
    assert(path_cost(edges, Seq::<int>::empty()) == 0);
    assert(table_sound(edges, t0, 0)) by {
        assert forall|v: int| 0 <= v < t0.len() && #[trigger] t0[v] is Some implies t0[v]->Some_0
            >= 0 && exists|p: Seq<int>|
            is_path(edges, p, 0, v) && path_cost(edges, p) == t0[v]->Some_0 by {
            assert(v == 0);
            assert(is_path(edges, Seq::<int>::empty(), 0, v) && path_cost(
                edges,
                Seq::<int>::empty(),
            ) == t0[v]->Some_0);
        }
    }
    assert(table_consistent(edges, t0));
    assert(valid_distance_table(edges, 1, 0, t0));
    let ts = shortest_table(edges, 1, 0);
    assert(valid_distance_table(edges, 1, 0, ts));
    assert(nonneg_weights(edges));
    assert(edges_bounded(edges, 1));
    lemma_distance_table_unique(edges, 1, 0, t0, ts);
    let st = cent_init(1);
    assert(cent_preds(edges, t0, 0, st, 0, 0) == Some((st, 0nat)));
    assert(cent_nodes(edges, t0, 0, st, 1, 1) == Some(st));
    assert(cent_nodes(edges, t0, 0, st, 0, 1) == Some(st));
    assert(st =~= seq![(0nat, 1nat)]);
}

proof fn lemma_cent_preds_untouched(
    edges: Seq<EdgeModel>,
    dist: Seq<Option<Distance>>,
    nidx: int,
    st: Seq<(nat, nat)>,
    k: nat,
    j: int,
    v: int,
)
    requires
        forall|e: int| 0 <= e < edges.len() ==> (#[trigger] edges[e]).0 as int != v,
        edges_bounded(edges, st.len() as nat),
        j <= edges.len(),
        0 <= v < st.len(),
        st[v] == (0nat, 1nat),
    ensures
        cent_preds(edges, dist, nidx, st, k, j) is Some ==> {
            let sk = cent_preds(edges, dist, nidx, st, k, j)->Some_0;
            sk.0.len() == st.len() && sk.0[v] == (0nat, 1nat)
        },
    decreases j,
{
    if j > 0 {
        let e = j - 1;
        if qualifying_edge(edges, dist, nidx, e) {
            let p = edges[e].0 as int;
            match rat_one_plus(st[nidx]) {
                Option::None => {},
                Option::Some(t1) => match rat_div(t1, (k + 1) as nat) {
                    Option::None => {},
                    Option::Some(t2) => match rat_add(st[p], t2) {
                        Option::None => {},
                        Option::Some(t3) => {
                            assert(p != v);
                            lemma_cent_preds_untouched(
                                edges,
                                dist,
                                nidx,
                                st.update(p, t3),
                                k + 1,
                                j - 1,
                                v,
                            );
                        },
                    },
                },
            }
        } else {
            lemma_cent_preds_untouched(edges, dist, nidx, st, k, j - 1, v);
        }
    }
}

proof fn lemma_half_of_zero()
    ensures
        rat_half((0nat, 1nat)) == Some((0nat, 1nat)),
{
    assert(crate::rational::spec_gcd(0nat, 2nat) == crate::rational::spec_gcd(2nat, 0nat));
    assert(crate::rational::spec_gcd(2nat, 0nat) == 2nat);
}

proof fn lemma_cent_nodes_untouched(
    edges: Seq<EdgeModel>,
    dist: Seq<Option<Distance>>,
    start: int,
    st: Seq<(nat, nat)>,
    i: int,
    n: nat,
    v: int,
)
    requires
        forall|e: int| 0 <= e < edges.len() ==> (#[trigger] edges[e]).0 as int != v,
        edges_bounded(edges, st.len() as nat),
        st.len() == n,
        0 <= i,
        0 <= v < st.len(),
        st[v] == (0nat, 1nat),
    ensures
        cent_nodes(edges, dist, start, st, i, n) is Some ==> {
            let fin = cent_nodes(edges, dist, start, st, i, n)->Some_0;
            fin.len() == st.len() && fin[v] == (0nat, 1nat)
        },
    decreases n - i,
{
    if i < n {
        let st1opt = if dist[i] is Some {
            match cent_preds(edges, dist, i, st, 0, edges.len() as int) {
                Option::None => Option::<Seq<(nat, nat)>>::None,
                Option::Some(sk) => Some(sk.0),
            }
        } else {
            Some(st)
        };
        if dist[i] is Some {
            lemma_cent_preds_untouched(edges, dist, i, st, 0, edges.len() as int, v);
        }
        match st1opt {
            Option::None => {},
            Option::Some(st1) => {
                assert(st1.len() == st.len() && st1[v] == (0nat, 1nat));
                if i != start {
                    match rat_half(st1[i]) {
                        Option::None => {},
                        Option::Some(h) => {
                            if i == v {
                                lemma_half_of_zero();
                                assert(h == (0nat, 1nat));
                            }
                            assert(st1.len() == n);
                            assert(st1.update(i, h).len() == n);
                            assert(st1.update(i, h)[v] == (0nat, 1nat));
                            lemma_cent_nodes_untouched(
                                edges,
                                dist,
                                start,
                                st1.update(i, h),
                                i + 1,
                                n,
                                v,
                            );
                        },
                    }
                } else {
                    lemma_cent_nodes_untouched(edges, dist, start, st1, i + 1, n, v);
                }
            },
        }
    }
}

/// A node that no edge leaves never collects any contribution: its centrality
/// entry stays exactly zero. In particular a fully disconnected node scores zero.
pub proof fn lemma_isolated_node_zero_centrality(edges: Seq<EdgeModel>, n: nat, s: int, v: int)
    requires
        0 <= v < n,
        edges_bounded(edges, n),
        forall|e: int| 0 <= e < edges.len() ==> (#[trigger] edges[e]).0 as int != v,
    ensures
        centrality_of(edges, n, s) is Some ==> centrality_of(edges, n, s)->Some_0[v] == (
        0nat,
        1nat,
        ),
{
    let st = cent_init(n);
    assert(st[v] == (0nat, 1nat));
    lemma_cent_nodes_untouched(edges, shortest_table(edges, n, s), s, st, 0, n, v);
}

/// Determinism: the centrality contribution for a fixed graph and source is a
/// function of the graph model alone, so two computed vectors with the stated
/// contract carry equal values.
pub proof fn lemma_centrality_deterministic(
    edges: Seq<EdgeModel>,
    n: nat,
    s: int,
    v1: Seq<Rational>,
    v2: Seq<Rational>,
)
    requires
        centrality_of(edges, n, s) is Some,
        rat_views(v1) == centrality_of(edges, n, s)->Some_0,
        rat_views(v2) == centrality_of(edges, n, s)->Some_0,
    ensures
        forall|x: int| 0 <= x < v1.len() ==> v1[x]@ == v2[x]@,
        v1.len() == v2.len(),
{
    assert(rat_views(v1).len() == v1.len());
    assert(rat_views(v2).len() == v2.len());
    assert forall|x: int| 0 <= x < v1.len() implies v1[x]@ == v2[x]@ by {
        assert(rat_views(v1)[x] == v1[x]@);
        assert(rat_views(v2)[x] == v2[x]@);
    }
}

} // verus!
