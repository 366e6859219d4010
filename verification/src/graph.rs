use vstd::prelude::*;

verus! {

/// Model of one directed edge: (source index, target index, weight).
pub type EdgeModel = (usize, usize, i32);

#[verifier::external_type_specification]
#[verifier::external_body]
#[verifier::reject_recursive_types(N)]
#[verifier::reject_recursive_types(E)]
#[verifier::reject_recursive_types(Ty)]
#[verifier::reject_recursive_types(Ix)]
pub struct ExGraph<N, E, Ty, Ix>(petgraph::graph::Graph<N, E, Ty, Ix>);

#[verifier::external_type_specification]
#[verifier::external_body]
pub struct ExDirected(petgraph::Directed);

/// The edges a graph holds, as (source, target, weight) triples in edge-index order.
pub uninterp spec fn edges_of(g: petgraph::graph::DiGraph<String, i32>) -> Seq<EdgeModel>;

/// The node labels a graph holds, in node-index order.
pub uninterp spec fn labels_of(g: petgraph::graph::DiGraph<String, i32>) -> Seq<Seq<char>>;

/// Relies on petgraph's Graph::new: a new graph has no nodes and no edges.
#[verifier::external_body]
fn pg_new() -> (g: petgraph::graph::DiGraph<String, i32>)
    ensures
        edges_of(g) == Seq::<EdgeModel>::empty(),
        labels_of(g) == Seq::<Seq<char>>::empty(),
{
    petgraph::graph::DiGraph::new()
}

/// Relies on petgraph's Graph::node_count: the number of nodes.
#[verifier::external_body]
fn pg_node_count(g: &petgraph::graph::DiGraph<String, i32>) -> (r: usize)
    ensures
        r == labels_of(*g).len(),
{
    g.node_count()
}

/// Relies on petgraph's Graph::edge_count: the number of edges.
#[verifier::external_body]
fn pg_edge_count(g: &petgraph::graph::DiGraph<String, i32>) -> (r: usize)
    ensures
        r == edges_of(*g).len(),
{
    g.edge_count()
}

/// Relies on petgraph's Graph::add_node: appends one node whose index is the
/// previous node count; it panics only when the node count reaches the index
/// type's maximum (u32 here).
#[verifier::external_body]
fn pg_add_node(g: &mut petgraph::graph::DiGraph<String, i32>, label: String) -> (r: usize)
    requires
        labels_of(*old(g)).len() < 0xFFFF_FFFF,
    ensures
        labels_of(*final(g)) == labels_of(*old(g)).push(label@),
        edges_of(*final(g)) == edges_of(*old(g)),
        r == labels_of(*old(g)).len(),
{
    g.add_node(label).index()
}

/// Relies on petgraph's Graph::add_edge: appends one edge from `a` to `b` with the
/// given weight (parallel edges are kept); it panics when an endpoint does not
/// exist or the edge count reaches the index type's maximum (u32 here).
#[verifier::external_body]
fn pg_add_edge(g: &mut petgraph::graph::DiGraph<String, i32>, a: usize, b: usize, w: i32)
    requires
        a < labels_of(*old(g)).len(),
        b < labels_of(*old(g)).len(),
        edges_of(*old(g)).len() < 0xFFFF_FFFF,
    ensures
        edges_of(*final(g)) == edges_of(*old(g)).push((a, b, w)),
        labels_of(*final(g)) == labels_of(*old(g)),
{
    g.add_edge(
        petgraph::graph::NodeIndex::new(a),
        petgraph::graph::NodeIndex::new(b),
        w,
    );
}

/// Relies on petgraph's Graph::node_weight: the label stored at a valid node index.
#[verifier::external_body]
fn pg_node_label(g: &petgraph::graph::DiGraph<String, i32>, i: usize) -> (r: String)
    requires
        i < labels_of(*g).len(),
    ensures
        r@ == labels_of(*g)[i as int],
{
    g.node_weight(petgraph::graph::NodeIndex::new(i)).unwrap().clone()
}

/// Relies on petgraph's Graph::edge_endpoints: the source and target of the edge
/// stored at a valid edge index.
#[verifier::external_body]
fn pg_edge_endpoints(g: &petgraph::graph::DiGraph<String, i32>, e: usize) -> (r: (usize, usize))
    requires
        e < edges_of(*g).len(),
    ensures
        r.0 == edges_of(*g)[e as int].0,
        r.1 == edges_of(*g)[e as int].1,
{
    let (a, b) = g.edge_endpoints(petgraph::graph::EdgeIndex::new(e)).unwrap();
    (a.index(), b.index())
}

/// Relies on petgraph's Graph::edge_weight: the weight stored at a valid edge index.
#[verifier::external_body]
fn pg_edge_weight(g: &petgraph::graph::DiGraph<String, i32>, e: usize) -> (r: i32)
    requires
        e < edges_of(*g).len(),
    ensures
        r == edges_of(*g)[e as int].2,
{
    *g.edge_weight(petgraph::graph::EdgeIndex::new(e)).unwrap()
}

/// Outgoing neighbor indices of `v` among the edges with index below `j`,
/// listed in decreasing edge-index order.
pub open spec fn out_neighbors_below(edges: Seq<EdgeModel>, v: usize, j: int) -> Seq<usize>
    decreases j,
{
    if j <= 0 {
        Seq::empty()
    } else if edges[j - 1].0 == v {
        seq![edges[j - 1].1] + out_neighbors_below(edges, v, j - 1)
    } else {
        out_neighbors_below(edges, v, j - 1)
    }
}

/// Incoming neighbor indices of `v` among the edges with index below `j`,
/// listed in decreasing edge-index order.
pub open spec fn in_neighbors_below(edges: Seq<EdgeModel>, v: usize, j: int) -> Seq<usize>
    decreases j,
{
    if j <= 0 {
        Seq::empty()
    } else if edges[j - 1].1 == v {
        seq![edges[j - 1].0] + in_neighbors_below(edges, v, j - 1)
    } else {
        in_neighbors_below(edges, v, j - 1)
    }
}

/// A directed graph of teams: string labels at stable zero-based node indices,
/// directed integer-weighted edges in insertion order.
pub struct TeamGraph {
    inner: petgraph::graph::DiGraph<String, i32>,
}

impl TeamGraph {
    /// The edge triples this graph holds, in insertion order.
    pub closed spec fn edges(&self) -> Seq<EdgeModel> {
        edges_of(self.inner)
    }

    /// The node labels this graph holds, in node-index order.
    pub closed spec fn labels(&self) -> Seq<Seq<char>> {
        labels_of(self.inner)
    }

    pub open spec fn node_count_spec(&self) -> nat {
        self.labels().len()
    }

    pub open spec fn edge_count_spec(&self) -> nat {
        self.edges().len()
    }

    /// Well-formedness: every edge endpoint is a valid node index, and the
    /// label-to-index mapping is a bijection (no label occurs twice).
    pub open spec fn wf(&self) -> bool {
        &&& forall|e: int|
            0 <= e < self.edges().len() ==> (#[trigger] self.edges()[e]).0 < self.labels().len()
                && self.edges()[e].1 < self.labels().len()
        &&& forall|i: int, j: int|
            0 <= i < j < self.labels().len() ==> self.labels()[i] != self.labels()[j]
    }

    pub fn new() -> (g: TeamGraph)
        ensures
            g.wf(),
            g.edges() == Seq::<EdgeModel>::empty(),
            g.labels() == Seq::<Seq<char>>::empty(),
    {
        TeamGraph { inner: pg_new() }
    }

    pub fn node_count(&self) -> (n: usize)
        ensures
            n == self.node_count_spec(),
    {
        pg_node_count(&self.inner)
    }

    pub fn edge_count(&self) -> (m: usize)
        ensures
            m == self.edge_count_spec(),
    {
        pg_edge_count(&self.inner)
    }

    /// The label stored at a valid node index.
    pub fn label(&self, i: usize) -> (r: String)
        requires
            i < self.node_count_spec(),
        ensures
            r@ == self.labels()[i as int],
    {
        pg_node_label(&self.inner, i)
    }

    /// The (source, target, weight) triple stored at a valid edge index.
    pub fn edge_at(&self, e: usize) -> (r: EdgeModel)
        requires
            e < self.edge_count_spec(),
        ensures
            r == self.edges()[e as int],
    {
        let (a, b) = pg_edge_endpoints(&self.inner, e);
        let w = pg_edge_weight(&self.inner, e);
        (a, b, w)
    }

    /// Looks a label up; returns its node index when the label is present.
    pub fn find_node(&self, label: &String) -> (r: Option<usize>)
        requires
            self.wf(),
        ensures
            match r {
                Some(i) => i < self.node_count_spec() && self.labels()[i as int] == label@,
                None => !self.labels().contains(label@),
            },
    {
        let n = self.node_count();
        let mut i: usize = 0;
        while i < n
            invariant
                i <= n,
                n == self.node_count_spec(),
                self.wf(),
                forall|k: int| 0 <= k < i ==> self.labels()[k] != label@,
            decreases n - i,
        {
            let li = pg_node_label(&self.inner, i);
            if li == *label {
                return Some(i);
            }
            i += 1;
        }
        proof {
            assert(forall|k: int| 0 <= k < self.labels().len() ==> self.labels()[k] != label@);
        }
        None
    }

    /// Inserts a team label. Idempotent: an already-present label yields its
    /// existing index and leaves the graph unchanged; a new label gets the next
    /// sequential index.
    pub fn add_node(&mut self, label: String) -> (idx: usize)
        requires
            old(self).wf(),
            old(self).labels().len() < 0xFFFF_FFFF,
        ensures
            final(self).wf(),
            idx < final(self).node_count_spec(),
            final(self).labels()[idx as int] == label@,
            if old(self).labels().contains(label@) {
                *final(self) == *old(self) && idx < old(self).labels().len()
            } else {
                final(self).labels() == old(self).labels().push(label@) && idx == old(
                    self,
                ).labels().len() && final(self).edges() == old(self).edges()
            },
    {
        let found = self.find_node(&label);
        match found {
            Some(i) => {
                proof {
                    assert(old(self).labels().contains(label@)) by {
                        assert(old(self).labels()[i as int] == label@);
                    }
                }
                i
            },
            None => {
                let ghost lab = label@;
                let idx = pg_add_node(&mut self.inner, label);
                proof {
                    let ol = old(self).labels();
                    assert(self.labels() == ol.push(lab));
                    assert forall|k: int| 0 <= k < ol.len() implies ol[k] != lab by {
                        if ol[k] == lab {
                            assert(ol.contains(lab));
                        }
                    }
                    assert forall|i: int, j: int|
                        0 <= i < j < self.labels().len() implies self.labels()[i]
                        != self.labels()[j] by {
                        if j == self.labels().len() - 1 {
                            assert(self.labels()[i] == ol[i]);
                            assert(self.labels()[j] == lab);
                        } else {
                            assert(self.labels()[i] == ol[i]);
                            assert(self.labels()[j] == ol[j]);
                        }
                    }
                    assert forall|e: int|
                        0 <= e < self.edges().len() implies (#[trigger] self.edges()[e]).0
                        < self.labels().len() && self.edges()[e].1 < self.labels().len() by {
                        assert(self.edges()[e] == old(self).edges()[e]);
                        assert(old(self).wf());
                    }
                }
                idx
            },
        }
    }

    /// Inserts a directed edge between two existing node indices; parallel edges
    /// are appended as the caller sends them.
    pub fn add_edge(&mut self, a: usize, b: usize, w: i32)
        requires
            old(self).wf(),
            a < old(self).node_count_spec(),
            b < old(self).node_count_spec(),
            old(self).edges().len() < 0xFFFF_FFFF,
        ensures
            final(self).wf(),
            final(self).edges() == old(self).edges().push((a, b, w)),
            final(self).labels() == old(self).labels(),
    {
        pg_add_edge(&mut self.inner, a, b, w);
    }

    /// Outgoing neighbors of `v`, in decreasing edge-index order (most recently
    /// inserted edge first).
    pub fn neighbors_outgoing(&self, v: usize) -> (r: Vec<usize>)
        ensures
            r@ == out_neighbors_below(self.edges(), v, self.edges().len() as int),
    {
        let m = self.edge_count();
        let mut r: Vec<usize> = Vec::new();
        let mut j: usize = m;
        while j > 0
            invariant
                j <= m,
                m == self.edge_count_spec(),
                out_neighbors_below(self.edges(), v, m as int) == r@ + out_neighbors_below(
                    self.edges(),
                    v,
                    j as int,
                ),
            decreases j,
        {
            let (a, b) = pg_edge_endpoints(&self.inner, j - 1);
            if a == v {
                r.push(b);
            }
            j -= 1;
            proof {
                assert(out_neighbors_below(self.edges(), v, j + 1) == (if self.edges()[j as int].0
                    == v {
                    seq![self.edges()[j as int].1] + out_neighbors_below(self.edges(), v, j as int)
                } else {
                    out_neighbors_below(self.edges(), v, j as int)
                }));
                assert(out_neighbors_below(self.edges(), v, m as int) == r@ + out_neighbors_below(
                    self.edges(),
                    v,
                    j as int,
                ));
            }
        }
        proof {
            assert(out_neighbors_below(self.edges(), v, 0) == Seq::<usize>::empty());
            assert(r@ + Seq::<usize>::empty() == r@);
        }
        r
    }

    /// Incoming neighbors of `v`, in decreasing edge-index order (most recently
    /// inserted edge first).
    pub fn neighbors_incoming(&self, v: usize) -> (r: Vec<usize>)
        ensures
            r@ == in_neighbors_below(self.edges(), v, self.edges().len() as int),
    {
        let m = self.edge_count();
        let mut r: Vec<usize> = Vec::new();
        let mut j: usize = m;
        while j > 0
            invariant
                j <= m,
                m == self.edge_count_spec(),
                in_neighbors_below(self.edges(), v, m as int) == r@ + in_neighbors_below(
                    self.edges(),
                    v,
                    j as int,
                ),
            decreases j,
        {
            let (a, b) = pg_edge_endpoints(&self.inner, j - 1);
            if b == v {
                r.push(a);
            }
            j -= 1;
            proof {
                assert(in_neighbors_below(self.edges(), v, j + 1) == (if self.edges()[j as int].1
                    == v {
                    seq![self.edges()[j as int].0] + in_neighbors_below(self.edges(), v, j as int)
                } else {
                    in_neighbors_below(self.edges(), v, j as int)
                }));
                assert(in_neighbors_below(self.edges(), v, m as int) == r@ + in_neighbors_below(
                    self.edges(),
                    v,
                    j as int,
                ));
            }
        }
        proof {
            assert(in_neighbors_below(self.edges(), v, 0) == Seq::<usize>::empty());
            assert(r@ + Seq::<usize>::empty() == r@);
        }
        r
    }

    /// The weight of the most recently inserted edge from `a` to `b`, or `None`
    /// when no such edge was added.
    pub fn edge_weight(&self, a: usize, b: usize) -> (r: Option<i32>)
        ensures
            match r {
                Some(w) => exists|e: int|
                    0 <= e < self.edges().len() && (#[trigger] self.edges()[e]).0 == a
                        && self.edges()[e].1 == b && self.edges()[e].2 == w && forall|k: int|
                        e < k < self.edges().len() ==> !((#[trigger] self.edges()[k]).0 == a
                            && self.edges()[k].1 == b),
                None => forall|e: int|
                    0 <= e < self.edges().len() ==> !((#[trigger] self.edges()[e]).0 == a
                        && self.edges()[e].1 == b),
            },
    {
        let m = self.edge_count();
        let mut j: usize = m;
        while j > 0
            invariant
                j <= m,
                m == self.edge_count_spec(),
                forall|k: int|
                    j <= k < self.edges().len() ==> !((#[trigger] self.edges()[k]).0 == a
                        && self.edges()[k].1 == b),
            decreases j,
        {
            let (ea, eb) = pg_edge_endpoints(&self.inner, j - 1);
            if ea == a && eb == b {
                let w = pg_edge_weight(&self.inner, j - 1);
                return Some(w);
            }
            j -= 1;
        }
        None
    }
}

} // verus!
