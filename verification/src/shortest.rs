use crate::graph::EdgeModel;
use crate::graph::TeamGraph;
use vstd::prelude::*;

verus! {

/// A shortest-path cost; a table entry of `None` means no finite distance is known.
pub type Distance = i64;

/// `p` lists edge indices that form a directed walk from `s` to `t` in `edges`.
pub open spec fn is_path(edges: Seq<EdgeModel>, p: Seq<int>, s: int, t: int) -> bool {
    &&& forall|i: int| 0 <= i < p.len() ==> 0 <= #[trigger] p[i] < edges.len()
    &&& if p.len() == 0 {
        s == t
    } else {
        &&& edges[p[0]].0 as int == s
        &&& edges[p[p.len() - 1]].1 as int == t
        &&& forall|i: int| 0 <= i < p.len() - 1 ==> edges[#[trigger] p[i]].1 == edges[p[i + 1]].0
    }
}

/// The total weight of a walk.
pub open spec fn path_cost(edges: Seq<EdgeModel>, p: Seq<int>) -> int
    decreases p.len(),
{
    if p.len() == 0 {
        0
    } else {
        path_cost(edges, p.drop_last()) + edges[p.last()].2
    }
}

/// Every edge weight is non-negative.
pub open spec fn nonneg_weights(edges: Seq<EdgeModel>) -> bool {
    forall|e: int| 0 <= e < edges.len() ==> (#[trigger] edges[e]).2 >= 0
}

/// Every edge endpoint lies below `n`.
pub open spec fn edges_bounded(edges: Seq<EdgeModel>, n: nat) -> bool {
    forall|e: int| 0 <= e < edges.len() ==> (#[trigger] edges[e]).0 < n && edges[e].1 < n
}

/// Appending an edge that starts where a walk ends extends the walk, and its
/// cost grows by that edge's weight.
proof fn lemma_path_push(edges: Seq<EdgeModel>, p: Seq<int>, s: int, e: int)
    requires
        0 <= e < edges.len(),
        is_path(edges, p, s, edges[e].0 as int),
    ensures
        is_path(edges, p.push(e), s, edges[e].1 as int),
        path_cost(edges, p.push(e)) == path_cost(edges, p) + edges[e].2,
{
    let q = p.push(e);
    assert(q.drop_last() == p);
    assert(q.last() == e);
    assert forall|i: int| 0 <= i < q.len() implies 0 <= #[trigger] q[i] < edges.len() by {
        if i < p.len() {
            assert(q[i] == p[i]);
        } else {
            assert(q[i] == e);
        }
    }
    if p.len() == 0 {
        assert(q[0] == e);
    } else {
        assert(q[0] == p[0]);
        assert forall|i: int| 0 <= i < q.len() - 1 implies edges[#[trigger] q[i]].1 == edges[q[i
            + 1]].0 by {
            if i < p.len() - 1 {
                assert(q[i] == p[i]);
                assert(q[i + 1] == p[i + 1]);
            } else {
                assert(i == p.len() - 1);
                assert(q[i] == p[i]);
                assert(q[i + 1] == e);
                assert(edges[p[p.len() - 1]].1 as int == edges[e].0 as int);
            }
        }
    }
}

/// One edge admits no further improvement in `t`, up to the i64 range.
pub open spec fn consistent_edge(edges: Seq<EdgeModel>, t: Seq<Option<Distance>>, e: int) -> bool {
    t[edges[e].0 as int] is Some ==> {
        let d = t[edges[e].0 as int]->Some_0 as int;
        d + edges[e].2 <= i64::MAX ==> t[edges[e].1 as int] is Some && t[edges[e].1 as int]->Some_0
            <= d + edges[e].2
    }
}

/// No edge admits any further improvement in `t`, up to the i64 range.
pub open spec fn table_consistent(edges: Seq<EdgeModel>, t: Seq<Option<Distance>>) -> bool {
    forall|e: int| 0 <= e < edges.len() ==> #[trigger] consistent_edge(edges, t, e)
}

/// Every known distance is non-negative and is the exact cost of some walk from `s`.
pub open spec fn table_sound(edges: Seq<EdgeModel>, t: Seq<Option<Distance>>, s: int) -> bool {
    forall|v: int|
        #![trigger t[v]]
        0 <= v < t.len() && t[v] is Some ==> t[v]->Some_0 >= 0 && exists|p: Seq<int>|
            is_path(edges, p, s, v) && path_cost(edges, p) == t[v]->Some_0
}

/// What `find_shortest_paths` computes: the source is at distance zero, every
/// known distance is achieved by a walk, and no edge can relax any entry further.
/// Together these pin each entry to the true minimum walk cost.
pub open spec fn valid_distance_table(
    edges: Seq<EdgeModel>,
    n: nat,
    s: int,
    t: Seq<Option<Distance>>,
) -> bool {
    &&& t.len() == n
    &&& 0 <= s < n
    &&& t[s] == Some(0i64)
    &&& table_sound(edges, t, s)
    &&& table_consistent(edges, t)
}

/// All out-edges of `v` are already relaxed with respect to distance `d`.
spec fn relaxed_from(
    edges: Seq<EdgeModel>,
    t: Seq<Option<Distance>>,
    v: int,
    d: int,
) -> bool {
    forall|e: int|
        0 <= e < edges.len() && (#[trigger] edges[e]).0 as int == v && d + edges[e].2 <= i64::MAX
            ==> t[edges[e].1 as int] is Some && t[edges[e].1 as int]->Some_0 <= d + edges[e].2
}

/// A pending entry refers to a node whose known distance is at most the entry's key.
spec fn queue_entry_ok(
    edges: Seq<EdgeModel>,
    t: Seq<Option<Distance>>,
    n: nat,
    q: (Distance, usize),
) -> bool {
    &&& 0 <= q.0
    &&& (q.1 as int) < n
    &&& t[q.1 as int] is Some
    &&& t[q.1 as int]->Some_0 <= q.0
}

/// Some pending entry carries exactly the key `d` for node `v`.
spec fn in_queue(qs: Seq<(Distance, usize)>, d: int, v: int) -> bool {
    exists|i: int| #![trigger qs[i]] 0 <= i < qs.len() && qs[i].0 == d && qs[i].1 as int == v
}

/// Removing one pending entry keeps every other pending witness.
proof fn lemma_queue_remove_keeps(
    q0: Seq<(Distance, usize)>,
    q1: Seq<(Distance, usize)>,
    mi: int,
    dd: int,
    vv: int,
)
    requires
        0 <= mi < q0.len(),
        q1 == q0.update(mi, q0.last()).drop_last(),
        in_queue(q0, dd, vv),
        !(q0[mi].0 == dd && q0[mi].1 as int == vv),
    ensures
        in_queue(q1, dd, vv),
{
    let i0 = choose|i: int|
        #![trigger q0[i]]
        0 <= i < q0.len() && q0[i].0 == dd && q0[i].1 as int == vv;
    assert(i0 != mi);
    if i0 == q0.len() - 1 {
        assert(mi < q0.len() - 1);
        assert(q1[mi] == q0[i0]);
    } else {
        assert(q1[i0] == q0[i0]);
    }
}

/// The termination potential of one table entry.
spec fn entry_pot(o: Option<Distance>) -> int {
    match o {
        Option::None => 0x8000_0000_0000_0000,
        Option::Some(d) => d as int,
    }
}

/// The termination potential of the first `k` table entries.
spec fn table_pot(t: Seq<Option<Distance>>, k: int) -> int
    decreases k,
{
    if k <= 0 {
        0
    } else {
        table_pot(t, k - 1) + entry_pot(t[k - 1])
    }
}

proof fn lemma_table_pot_update(t: Seq<Option<Distance>>, i: int, v: Option<Distance>, k: int)
    requires
        0 <= i < t.len(),
        k <= t.len(),
    ensures
        table_pot(t.update(i, v), k) == table_pot(t, k) + (if i < k {
            entry_pot(v) - entry_pot(t[i])
        } else {
            0
        }),
    decreases k,
{
    if k > 0 {
        lemma_table_pot_update(t, i, v, k - 1);
        if i == k - 1 {
            assert(t.update(i, v)[k - 1] == v);
        } else {
            assert(t.update(i, v)[k - 1] == t[k - 1]);
        }
    }
}

proof fn lemma_table_pot_nonneg(t: Seq<Option<Distance>>, k: int)
    requires
        k <= t.len(),
        forall|j: int| #![trigger t[j]] 0 <= j < t.len() && t[j] is Some ==> t[j]->Some_0 >= 0,
    ensures
        table_pot(t, k) >= 0,
    decreases k,
{
    if k > 0 {
        lemma_table_pot_nonneg(t, k - 1);
    }
}

/// Single-source shortest paths by priority-queue relaxation with lazy deletion
/// of stale entries. Entry `v` of the result is the least cost of a directed walk
/// from `start_node` to `v`, or `None` when `v` is unreachable.
pub fn find_shortest_paths(g: &TeamGraph, start_node: usize) -> (r: Vec<Option<Distance>>)
    requires
        g.wf(),
        (start_node as int) < g.node_count_spec(),
        nonneg_weights(g.edges()),
    ensures
        valid_distance_table(g.edges(), g.node_count_spec(), start_node as int, r@),
{
    let ghost edges = g.edges();
    let ghost nn = g.node_count_spec();
    let n = g.node_count();
    let m = g.edge_count();

    let mut dist: Vec<Option<Distance>> = Vec::new();
    let mut i: usize = 0;
    while i < n
        invariant
            i <= n,
            dist@.len() == i,
            forall|k: int|
                0 <= k < i ==> #[trigger] dist@[k] == (if k == start_node as int {
                    Some(0i64)
                } else {
                    Option::<Distance>::None
                }),
        decreases n - i,
    {
        if i == start_node {
            dist.push(Some(0));
        } else {
            dist.push(None);
        }
        i += 1;
    }

    let mut queue: Vec<(Distance, usize)> = Vec::new();
    queue.push((0, start_node));

    proof {
        assert(is_path(edges, Seq::<int>::empty(), start_node as int, start_node as int));
        assert(path_cost(edges, Seq::<int>::empty()) == 0);
        assert(queue@[0] == (0i64, start_node));
        assert(in_queue(queue@, 0, start_node as int));
    }

    while queue.len() > 0
        invariant
            g.wf(),
            edges == g.edges(),
            nn == g.node_count_spec(),
            nonneg_weights(edges),
            (start_node as int) < nn,
            m == edges.len(),
            dist@.len() == nn,
            dist@[start_node as int] == Some(0i64),
            table_sound(edges, dist@, start_node as int),
            forall|qi: int|
                0 <= qi < queue@.len() ==> queue_entry_ok(edges, dist@, nn, #[trigger] queue@[qi]),
            forall|v: int|
                #![trigger dist@[v]]
                0 <= v < nn && dist@[v] is Some ==> in_queue(queue@, dist@[v]->Some_0 as int, v)
                    || relaxed_from(edges, dist@, v, dist@[v]->Some_0 as int),
        decreases table_pot(dist@, nn as int), queue@.len(),
    {
        let ghost pot0 = table_pot(dist@, nn as int);
        let ghost q0 = queue@;

        let mut mi: usize = 0;
        let mut j: usize = 1;
        while j < queue.len()
            invariant
                queue@.len() > 0,
                mi < j,
                j <= queue@.len(),
            decreases queue@.len() - j,
        {
            if queue[j].0 < queue[mi].0 {
                mi = j;
            }
            j += 1;
        }

        let (d, v) = queue.swap_remove(mi);
        proof {
            assert(q0[mi as int] == (d, v));
            assert(queue_entry_ok(edges, dist@, nn, (d, v)));
            assert forall|qi: int| 0 <= qi < queue@.len() implies queue_entry_ok(
                edges,
                dist@,
                nn,
                #[trigger] queue@[qi],
            ) by {
                if qi == mi as int {
                    assert(queue@[qi] == q0.last());
                } else {
                    assert(queue@[qi] == q0[qi]);
                }
            }
        }

        let cur = match dist[v] {
            Some(x) => x,
            None => {
                proof {
                    assert(false);
                }
                0
            },
        };

        if d > cur {
            proof {
                assert forall|v2: int|
                    #![trigger dist@[v2]]
                    0 <= v2 < nn && dist@[v2] is Some implies in_queue(
                    queue@,
                    dist@[v2]->Some_0 as int,
                    v2,
                ) || relaxed_from(edges, dist@, v2, dist@[v2]->Some_0 as int) by {
                    if in_queue(q0, dist@[v2]->Some_0 as int, v2) {
                        if v2 == v as int {
                            assert(dist@[v2]->Some_0 == cur);
                            assert(!(q0[mi as int].0 == cur as int && q0[mi as int].1 as int
                                == v2));
                        } else {
                            assert(!(q0[mi as int].0 == dist@[v2]->Some_0 as int && q0[mi as int].1
                                as int == v2));
                        }
                        lemma_queue_remove_keeps(
                            q0,
                            queue@,
                            mi as int,
                            dist@[v2]->Some_0 as int,
                            v2,
                        );
                    }
                }
                lemma_table_pot_nonneg(dist@, nn as int);
            }
            continue ;
        }

        proof {
            assert(d == cur);
            assert(dist@[v as int] == Some(d));
            assert forall|v2: int|
                #![trigger dist@[v2]]
                0 <= v2 < nn && dist@[v2] is Some && v2 != v as int implies in_queue(
                queue@,
                dist@[v2]->Some_0 as int,
                v2,
            ) || relaxed_from(edges, dist@, v2, dist@[v2]->Some_0 as int) by {
                if in_queue(q0, dist@[v2]->Some_0 as int, v2) {
                    assert(!(q0[mi as int].1 as int == v2));
                    lemma_queue_remove_keeps(q0, queue@, mi as int, dist@[v2]->Some_0 as int, v2);
                }
            }
        }

        let ghost q1 = queue@;
        let mut e: usize = 0;
        while e < m
            invariant
                g.wf(),
                edges == g.edges(),
                nn == g.node_count_spec(),
                nonneg_weights(edges),
                (start_node as int) < nn,
                m == edges.len(),
                e <= m,
                (v as int) < nn,
                d >= 0,
                dist@.len() == nn,
                dist@[start_node as int] == Some(0i64),
                dist@[v as int] == Some(d),
                table_sound(edges, dist@, start_node as int),
                forall|qi: int|
                    0 <= qi < queue@.len() ==> queue_entry_ok(
                        edges,
                        dist@,
                        nn,
                        #[trigger] queue@[qi],
                    ),
                forall|k: int|
                    0 <= k < e && (#[trigger] edges[k]).0 == v && d + edges[k].2 <= i64::MAX
                        ==> dist@[edges[k].1 as int] is Some && dist@[edges[k].1 as int]->Some_0
                        <= d + edges[k].2,
                forall|v2: int|
                    #![trigger dist@[v2]]
                    0 <= v2 < nn && dist@[v2] is Some && v2 != v as int ==> in_queue(
                        queue@,
                        dist@[v2]->Some_0 as int,
                        v2,
                    ) || relaxed_from(edges, dist@, v2, dist@[v2]->Some_0 as int),
                table_pot(dist@, nn as int) <= pot0,
                table_pot(dist@, nn as int) == pot0 ==> queue@.len() == q0.len() - 1,
            decreases m - e,
        {
            let (ea, eb, w) = g.edge_at(e);
            if ea == v {
                proof {
                    assert(edges[e as int].2 >= 0);
                }
                let w64: i64 = w as i64;
                if w64 <= i64::MAX - d {
                    let nd = d + w64;
                    let better = match dist[eb] {
                        None => true,
                        Some(db) => nd < db,
                    };
                    if better {
                        let ghost old_dist = dist@;
                        let ghost q_pre = queue@;
                        proof {
                            assert(eb != v) by {
                                if eb == v {
                                    assert(old_dist[eb as int] == Some(d));
                                }
                            }
                        }
                        dist[eb] = Some(nd);
                        queue.push((nd, eb));
                        proof {
                            assert(dist@ == old_dist.update(eb as int, Some(nd)));
                            let s = start_node as int;
                            let pv = choose|p: Seq<int>|
                                is_path(edges, p, s, v as int) && path_cost(edges, p) == d;
                            lemma_path_push(edges, pv, s, e as int);
                            let pb = pv.push(e as int);
                            assert(is_path(edges, pb, s, eb as int));
                            assert(path_cost(edges, pb) == nd);
                            assert forall|v2: int|
                                #![trigger dist@[v2]]
                                0 <= v2 < dist@.len() && dist@[v2] is Some implies dist@[v2]->Some_0
                                >= 0 && exists|p: Seq<int>|
                                is_path(edges, p, s, v2) && path_cost(edges, p)
                                    == dist@[v2]->Some_0 by {
                                if v2 == eb as int {
                                    assert(is_path(edges, pb, s, v2) && path_cost(edges, pb)
                                        == dist@[v2]->Some_0);
                                } else {
                                    assert(dist@[v2] == old_dist[v2]);
                                }
                            }
                            assert forall|qi: int| 0 <= qi < queue@.len() implies queue_entry_ok(
                                edges,
                                dist@,
                                nn,
                                #[trigger] queue@[qi],
                            ) by {
                                if qi == queue@.len() - 1 {
                                    assert(queue@[qi] == (nd, eb));
                                } else {
                                    assert(queue@[qi] == q1[qi]
                                        || queue_entry_ok(edges, old_dist, nn, queue@[qi]));
                                }
                            }
                            assert(queue@[queue@.len() - 1] == (nd, eb));
                            assert(in_queue(queue@, nd as int, eb as int));
                            assert forall|v2: int|
                                #![trigger dist@[v2]]
                                0 <= v2 < nn && dist@[v2] is Some && v2 != v as int implies
                                in_queue(queue@, dist@[v2]->Some_0 as int, v2) || relaxed_from(
                                edges,
                                dist@,
                                v2,
                                dist@[v2]->Some_0 as int,
                            ) by {
                                if v2 == eb as int {
                                    assert(in_queue(queue@, dist@[v2]->Some_0 as int, v2));
                                } else {
                                    assert(dist@[v2] == old_dist[v2]);
                                    let dv2 = old_dist[v2]->Some_0 as int;
                                    if in_queue(q_pre, dv2, v2) {
                                        let i0 = choose|i: int|
                                            #![trigger q_pre[i]]
                                            0 <= i < q_pre.len() && q_pre[i].0 == dv2
                                                && q_pre[i].1 as int == v2;
                                        assert(queue@[i0] == q_pre[i0]);
                                        assert(in_queue(queue@, dv2, v2));
                                    } else {
                                        assert(relaxed_from(edges, old_dist, v2, dv2));
                                        assert forall|e2: int|
                                            0 <= e2 < edges.len() && (#[trigger] edges[e2]).0
                                                as int == v2 && dv2 + edges[e2].2
                                                <= i64::MAX implies dist@[edges[e2].1 as int]
                                            is Some && dist@[edges[e2].1 as int]->Some_0 <= dv2
                                            + edges[e2].2 by {
                                            if edges[e2].1 as int == eb as int {
                                                assert(old_dist[eb as int] is Some);
                                                assert(nd < old_dist[eb as int]->Some_0);
                                            } else {
                                                assert(dist@[edges[e2].1 as int]
                                                    == old_dist[edges[e2].1 as int]);
                                            }
                                        }
                                        assert(relaxed_from(edges, dist@, v2, dv2));
                                    }
                                }
                            }
                            lemma_table_pot_update(
                                old_dist,
                                eb as int,
                                Some(nd),
                                old_dist.len() as int,
                            );
                            assert(entry_pot(Some(nd)) < entry_pot(old_dist[eb as int]));
                        }
                    }
                }
            }
            e += 1;
        }

        proof {
            assert(relaxed_from(edges, dist@, v as int, d as int));
            assert forall|v2: int|
                #![trigger dist@[v2]]
                0 <= v2 < nn && dist@[v2] is Some implies in_queue(
                queue@,
                dist@[v2]->Some_0 as int,
                v2,
            ) || relaxed_from(edges, dist@, v2, dist@[v2]->Some_0 as int) by {
                if v2 == v as int {
                    assert(dist@[v2] == Some(d));
                    assert(relaxed_from(edges, dist@, v2, d as int));
                }
            }
            lemma_table_pot_nonneg(dist@, nn as int);
        }
    }

    proof {
        assert forall|e2: int| 0 <= e2 < edges.len() implies #[trigger] consistent_edge(
            edges,
            dist@,
            e2,
        ) by {
            let a = edges[e2].0 as int;
            if dist@[a] is Some {
                assert(0 <= a < nn);
                assert(!in_queue(queue@, dist@[a]->Some_0 as int, a));
                assert(relaxed_from(edges, dist@, a, dist@[a]->Some_0 as int));
            }
        }
    }

    dist
}

/// Walking any path through a consistent table relaxes its endpoint: the table's
/// entry at the end of the walk is at most the walk's cost.
proof fn lemma_path_relax(
    edges: Seq<EdgeModel>,
    t: Seq<Option<Distance>>,
    s: int,
    v: int,
    p: Seq<int>,
)
    requires
        nonneg_weights(edges),
        edges_bounded(edges, t.len()),
        0 <= s < t.len(),
        t[s] == Some(0i64),
        table_consistent(edges, t),
        is_path(edges, p, s, v),
        path_cost(edges, p) <= i64::MAX,
    ensures
        0 <= v < t.len(),
        t[v] is Some,
        t[v]->Some_0 <= path_cost(edges, p),
    decreases p.len(),
{
    if p.len() == 0 {
        assert(v == s);
    } else {
        let e = p.last();
        let q = p.drop_last();
        let u = edges[e].0 as int;
        assert(0 <= e < edges.len());
        assert forall|i: int| 0 <= i < q.len() implies 0 <= #[trigger] q[i] < edges.len() by {
            assert(q[i] == p[i]);
        }
        if q.len() == 0 {
            assert(p[0] == e);
            assert(is_path(edges, q, s, u));
        } else {
            assert(q[0] == p[0]);
            assert(q[q.len() - 1] == p[p.len() - 2]);
            assert(edges[p[p.len() - 2]].1 == edges[p[p.len() - 1]].0);
            assert forall|i: int| 0 <= i < q.len() - 1 implies edges[#[trigger] q[i]].1 == edges[q[i
                + 1]].0 by {
                assert(q[i] == p[i]);
                assert(q[i + 1] == p[i + 1]);
            }
            assert(is_path(edges, q, s, u));
        }
        assert(edges[e].2 >= 0);
        lemma_path_cost_nonneg(edges, q);
        assert(path_cost(edges, q) == path_cost(edges, p) - edges[e].2);
        lemma_path_relax(edges, t, s, u, q);
        let du = t[u]->Some_0 as int;
        assert(du + edges[e].2 <= path_cost(edges, p) <= i64::MAX);
        assert(consistent_edge(edges, t, e));
    }
}

/// A walk over non-negative weights has non-negative cost.
proof fn lemma_path_cost_nonneg(edges: Seq<EdgeModel>, p: Seq<int>)
    requires
        nonneg_weights(edges),
        forall|i: int| 0 <= i < p.len() ==> 0 <= #[trigger] p[i] < edges.len(),
    ensures
        path_cost(edges, p) >= 0,
    decreases p.len(),
{
    if p.len() > 0 {
        let q = p.drop_last();
        assert forall|i: int| 0 <= i < q.len() implies 0 <= #[trigger] q[i] < edges.len() by {
            assert(q[i] == p[i]);
        }
        lemma_path_cost_nonneg(edges, q);
        assert(edges[p.last()].2 >= 0);
    }
}

/// Optimality: a valid distance table is a lower bound on the cost of every walk
/// from the source, and any walk whose cost fits in an i64 forces a known entry.
pub proof fn lemma_table_optimal(
    edges: Seq<EdgeModel>,
    n: nat,
    s: int,
    t: Seq<Option<Distance>>,
    p: Seq<int>,
    v: int,
)
    requires
        nonneg_weights(edges),
        edges_bounded(edges, n),
        valid_distance_table(edges, n, s, t),
        is_path(edges, p, s, v),
    ensures
        path_cost(edges, p) <= i64::MAX ==> t[v] is Some,
        t[v] is Some ==> t[v]->Some_0 <= path_cost(edges, p),
{
    if path_cost(edges, p) <= i64::MAX {
        lemma_path_relax(edges, t, s, v, p);
    } else if t[v] is Some {
        assert(t[v]->Some_0 <= i64::MAX < path_cost(edges, p));
    }
}

/// Idempotence: the valid distance table of a graph and source is unique, so two
/// runs of `find_shortest_paths` on an unchanged graph return identical tables.
pub proof fn lemma_distance_table_unique(
    edges: Seq<EdgeModel>,
    n: nat,
    s: int,
    t1: Seq<Option<Distance>>,
    t2: Seq<Option<Distance>>,
)
    requires
        nonneg_weights(edges),
        edges_bounded(edges, n),
        valid_distance_table(edges, n, s, t1),
        valid_distance_table(edges, n, s, t2),
    ensures
        t1 == t2,
{
    assert forall|v: int| 0 <= v < n implies t1[v] == t2[v] by {
        if t1[v] is Some {
            let p = choose|p: Seq<int>|
                is_path(edges, p, s, v) && path_cost(edges, p) == t1[v]->Some_0;
            lemma_path_relax(edges, t2, s, v, p);
        }
        if t2[v] is Some {
            let p = choose|p: Seq<int>|
                is_path(edges, p, s, v) && path_cost(edges, p) == t2[v]->Some_0;
            lemma_path_relax(edges, t1, s, v, p);
        }
    }
    assert(t1 =~= t2);
}

/// Relaxation consistency: a valid table gives the source distance zero, and no
/// edge whose relaxed cost fits in an i64 can improve its target's entry.
pub proof fn lemma_relaxation_consistency(
    edges: Seq<EdgeModel>,
    n: nat,
    s: int,
    t: Seq<Option<Distance>>,
    e: int,
)
    requires
        valid_distance_table(edges, n, s, t),
        0 <= e < edges.len(),
        t[edges[e].0 as int] is Some,
        t[edges[e].0 as int]->Some_0 + edges[e].2 <= i64::MAX,
    ensures
        t[s] == Some(0i64),
        t[edges[e].1 as int] is Some,
        t[edges[e].1 as int]->Some_0 <= t[edges[e].0 as int]->Some_0 + edges[e].2,
{
    assert(consistent_edge(edges, t, e));
}

/// A source with no outgoing edge reaches nothing: every other entry is unknown.
pub proof fn lemma_no_outgoing_source(
    edges: Seq<EdgeModel>,
    n: nat,
    s: int,
    t: Seq<Option<Distance>>,
)
    requires
        valid_distance_table(edges, n, s, t),
        forall|e: int| 0 <= e < edges.len() ==> (#[trigger] edges[e]).0 as int != s,
    ensures
        t[s] == Some(0i64),
        forall|v: int| 0 <= v < n && v != s ==> #[trigger] t[v] is None,
{
    assert forall|v: int| 0 <= v < n && v != s implies #[trigger] t[v] is None by {
        if t[v] is Some {
            let p = choose|p: Seq<int>|
                is_path(edges, p, s, v) && path_cost(edges, p) == t[v]->Some_0;
            assert(p.len() > 0);
            assert(0 <= p[0] < edges.len());
            assert(edges[p[0]].0 as int != s);
        }
    }
}

/// A node with no incoming edge is unreachable from any other source: its entry
/// stays unknown.
pub proof fn lemma_no_incoming_unknown(
    edges: Seq<EdgeModel>,
    n: nat,
    s: int,
    t: Seq<Option<Distance>>,
    v: int,
)
    requires
        valid_distance_table(edges, n, s, t),
        0 <= v < n,
        v != s,
        forall|e: int| 0 <= e < edges.len() ==> (#[trigger] edges[e]).1 as int != v,
    ensures
        t[v] is None,
{
    if t[v] is Some {
        let p = choose|p: Seq<int>| is_path(edges, p, s, v) && path_cost(edges, p) == t[v]->Some_0;
        assert(p.len() > 0);
        assert(0 <= p[p.len() - 1] < edges.len());
        assert(edges[p[p.len() - 1]].1 as int != v);
    }
}

} // verus!
