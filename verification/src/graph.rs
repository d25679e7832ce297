//! Undirected graphs, possibly with parallel edges, that only ever grow. Nodes and
//! edges are numbered in the order in which they are added.

use petgraph::graph::{NodeIndex, UnGraph};
use petgraph::visit::EdgeRef;
use vstd::prelude::*;

verus! {

/// The graph of the petgraph crate.
#[verifier::external_type_specification]
#[verifier::external_body]
#[verifier::reject_recursive_types(N)]
#[verifier::reject_recursive_types(E)]
#[verifier::reject_recursive_types(Ty)]
#[verifier::reject_recursive_types(Ix)]
pub struct ExGraph<N, E, Ty, Ix>(petgraph::graph::Graph<N, E, Ty, Ix>);

/// The marker of undirected graphs of the petgraph crate.
#[verifier::external_type_specification]
#[verifier::external_body]
pub struct ExUndirected(petgraph::Undirected);

/// An edge as the pair of its ends.
pub type Edge = (usize, usize);

/// The mathematical content of a graph.
pub struct GraphModel {
    pub nodes: nat,
    /// The ends of each edge, in the order in which they were given.
    pub edges: Seq<Edge>,
}

/// The number of nodes of a petgraph graph.
pub uninterp spec fn nodes_of(g: UnGraph<(), ()>) -> nat;

/// The ends of the edges of a petgraph graph, by edge index.
pub uninterp spec fn edges_of(g: UnGraph<(), ()>) -> Seq<Edge>;

/// The last edge from `a` to `b`.
pub open spec fn last_edge(edges: Seq<Edge>, a: usize, b: usize) -> Option<int>
    decreases edges.len(),
{
    if edges.len() == 0 {
        None
    } else if edges.last() == (a, b) {
        Some(edges.len() - 1)
    } else {
        last_edge(edges.drop_last(), a, b)
    }
}

/// The edge that stands for the pair `a`, `b`: the last one from `a` to `b`, else
/// the last one from `b` to `a`.
pub open spec fn edge_between(edges: Seq<Edge>, a: usize, b: usize) -> Option<int> {
    match last_edge(edges, a, b) {
        Some(e) => Some(e),
        None => last_edge(edges, b, a),
    }
}

/// The edges from `v`, the latest first.
pub open spec fn edges_from(edges: Seq<Edge>, v: usize) -> Seq<int>
    decreases edges.len(),
{
    if edges.len() == 0 {
        Seq::empty()
    } else if edges.last().0 == v {
        seq![edges.len() - 1] + edges_from(edges.drop_last(), v)
    } else {
        edges_from(edges.drop_last(), v)
    }
}

/// The edges from another node to `v`, the latest first.
pub open spec fn edges_to(edges: Seq<Edge>, v: usize) -> Seq<int>
    decreases edges.len(),
{
    if edges.len() == 0 {
        Seq::empty()
    } else if edges.last().1 == v && edges.last().0 != v {
        seq![edges.len() - 1] + edges_to(edges.drop_last(), v)
    } else {
        edges_to(edges.drop_last(), v)
    }
}

/// The edges at `v`: those from it, then those to it, the latest first.
pub open spec fn edges_at(edges: Seq<Edge>, v: usize) -> Seq<int> {
    edges_from(edges, v) + edges_to(edges, v)
}

/// The end of the edge that is not `v`.
pub open spec fn far_end(edge: Edge, v: usize) -> usize {
    if edge.0 == v {
        edge.1
    } else {
        edge.0
    }
}

/// The neighbours of `v`, once for every edge, in the order of the edges.
pub open spec fn neighbours_of(edges: Seq<Edge>, v: usize) -> Seq<usize> {
    let at = edges_at(edges, v);
    Seq::new(at.len(), |i: int| far_end(edges[at[i]], v))
}

/// An edge joins `a` and `b`.
pub open spec fn joined(edges: Seq<Edge>, a: usize, b: usize) -> bool {
    edges.contains((a, b)) || edges.contains((b, a))
}

/// A walk from `s` to `t` along edges.
pub open spec fn is_walk(edges: Seq<Edge>, walk: Seq<usize>, s: usize, t: usize) -> bool {
    &&& walk.len() > 0
    &&& walk[0] == s
    &&& walk.last() == t
    &&& forall|i: int| 0 <= i < walk.len() - 1 ==> joined(edges, #[trigger] walk[i], walk[i + 1])
}

/// Some walk leads from `s` to `t`.
pub open spec fn reachable(edges: Seq<Edge>, s: usize, t: usize) -> bool {
    exists|walk: Seq<usize>| is_walk(edges, walk, s, t)
}

/// The path that the A* search of petgraph finds from `s` to `t` with unit costs.
pub uninterp spec fn path_found(nodes: nat, edges: Seq<Edge>, s: usize, t: usize) -> Option<
    Seq<usize>,
>;

/// An undirected graph that only ever grows.
pub struct AncillaGraph {
    inner: UnGraph<(), ()>,
}

impl View for AncillaGraph {
    type V = GraphModel;

    closed spec fn view(&self) -> GraphModel {
        GraphModel { nodes: nodes_of(self.inner), edges: edges_of(self.inner) }
    }
}

/// The ends of all edges are nodes, and the numbers fit petgraph's indices.
pub open spec fn fits_petgraph(nodes: nat, edges: Seq<Edge>) -> bool {
    &&& nodes <= u32::MAX
    &&& edges.len() <= u32::MAX
    &&& forall|i: int|
        0 <= i < edges.len() ==> (#[trigger] edges[i]).0 < nodes && edges[i].1 < nodes
}

impl GraphModel {
    /// The ends of all edges are nodes, and the numbers fit petgraph's indices.
    pub open spec fn wf(self) -> bool {
        fits_petgraph(self.nodes, self.edges)
    }
}

/// `Graph::new_undirected`: a graph without nodes and edges.
#[verifier::external_body]
fn petgraph_new() -> (r: AncillaGraph)
    ensures
        nodes_of(r.inner) == 0,
        edges_of(r.inner) == Seq::<Edge>::empty(),
{
    AncillaGraph { inner: UnGraph::new_undirected() }
}

/// `Graph::add_node`: one more node, with the next index.
#[verifier::external_body]
fn petgraph_add_node(g: &mut AncillaGraph)
    requires
        nodes_of(old(g).inner) < u32::MAX,
    ensures
        nodes_of(final(g).inner) == nodes_of(old(g).inner) + 1,
        edges_of(final(g).inner) == edges_of(old(g).inner),
{
    g.inner.add_node(());
}

/// `Graph::add_edge`: one more edge, with the next index, even where the two nodes
/// are joined already.
#[verifier::external_body]
fn petgraph_add_edge(g: &mut AncillaGraph, a: usize, b: usize)
    requires
        nodes_of(old(g).inner) <= u32::MAX,
        a < nodes_of(old(g).inner),
        b < nodes_of(old(g).inner),
        edges_of(old(g).inner).len() < u32::MAX,
    ensures
        nodes_of(final(g).inner) == nodes_of(old(g).inner),
        edges_of(final(g).inner) == edges_of(old(g).inner).push((a, b)),
{
    g.inner.add_edge(NodeIndex::new(a), NodeIndex::new(b), ());
}

/// `Graph::node_count`: the number of nodes.
#[verifier::external_body]
fn petgraph_node_count(g: &AncillaGraph) -> (n: usize)
    ensures
        n == nodes_of(g.inner),
{
    g.inner.node_count()
}

/// `Graph::edge_count`: the number of edges.
#[verifier::external_body]
fn petgraph_edge_count(g: &AncillaGraph) -> (n: usize)
    ensures
        n == edges_of(g.inner).len(),
{
    g.inner.edge_count()
}

/// `Graph::edge_endpoints`: the ends of an edge, in the order in which they were
/// given.
#[verifier::external_body]
fn petgraph_edge_endpoints(g: &AncillaGraph, e: usize) -> (r: Edge)
    requires
        edges_of(g.inner).len() <= u32::MAX,
        e < edges_of(g.inner).len(),
    ensures
        r == edges_of(g.inner)[e as int],
{
    let (a, b) = g.inner.edge_endpoints(petgraph::graph::EdgeIndex::new(e)).unwrap();
    (a.index(), b.index())
}

/// `Graph::find_edge` on an undirected graph: it looks at the edges from `a`, the
/// latest first, and then at the edges to `a`, the latest first, for one whose
/// other end is `b`.
#[verifier::external_body]
fn petgraph_find_edge(g: &AncillaGraph, a: usize, b: usize) -> (r: Option<usize>)
    requires
        a <= u32::MAX,
        b <= u32::MAX,
        fits_petgraph(nodes_of(g.inner), edges_of(g.inner)),
    ensures
        r matches Some(e) ==> edge_between(edges_of(g.inner), a, b) == Some(e as int),
        r is None ==> edge_between(edges_of(g.inner), a, b) is None,
{
    g.inner.find_edge(NodeIndex::new(a), NodeIndex::new(b)).map(|e| e.index())
}

/// `Graph::neighbors` on an undirected graph: the far ends of the edges from `v`,
/// the latest first, then of the edges to `v`, the latest first, a loop once.
#[verifier::external_body]
fn petgraph_neighbors(g: &AncillaGraph, v: usize) -> (r: Vec<usize>)
    requires
        fits_petgraph(nodes_of(g.inner), edges_of(g.inner)),
        v < nodes_of(g.inner),
    ensures
        r@ == neighbours_of(edges_of(g.inner), v),
{
    g.inner.neighbors(NodeIndex::new(v)).map(|w| w.index()).collect()
}

/// `Graph::edges` on an undirected graph: the edges from `v`, the latest first,
/// then the edges to `v`, the latest first, a loop once.
#[verifier::external_body]
fn petgraph_edges(g: &AncillaGraph, v: usize) -> (r: Vec<usize>)
    requires
        fits_petgraph(nodes_of(g.inner), edges_of(g.inner)),
        v < nodes_of(g.inner),
    ensures
        r@.len() == edges_at(edges_of(g.inner), v).len(),
        forall|i: int| 0 <= i < r@.len() ==> #[trigger] r@[i] == edges_at(edges_of(g.inner), v)[i],
{
    g.inner.edges(NodeIndex::new(v)).map(|e| e.id().index()).collect()
}

/// `petgraph::algo::astar` with unit edge costs and a zero estimate: a walk from
/// `s` to `t` where there is one, with no fewer edges possible; which of several
/// such walks it is, the name `path_found` stands for.
#[verifier::external_body]
fn petgraph_astar(g: &AncillaGraph, s: usize, t: usize) -> (r: Option<Vec<usize>>)
    requires
        fits_petgraph(nodes_of(g.inner), edges_of(g.inner)),
        s < nodes_of(g.inner),
        t < nodes_of(g.inner),
    ensures
        r matches Some(p) ==> path_found(nodes_of(g.inner), edges_of(g.inner), s, t) == Some(p@) && is_walk(
            edges_of(g.inner),
            p@,
            s,
            t,
        ) && forall|walk: Seq<usize>| #[trigger]
            is_walk(edges_of(g.inner), walk, s, t) ==> p@.len() <= walk.len(),
        r is None ==> path_found(nodes_of(g.inner), edges_of(g.inner), s, t) is None && !reachable(edges_of(g.inner), s, t),
{
    let goal = NodeIndex::new(t);
    petgraph::algo::astar(&g.inner, NodeIndex::new(s), |n| n == goal, |_| 1u64, |_| 0u64).map(
        |found| found.1.iter().map(|n| n.index()).collect(),
    )
}

/// `Graph::clone`: the same graph.
#[verifier::external_body]
fn petgraph_clone(g: &AncillaGraph) -> (r: AncillaGraph)
    ensures
        nodes_of(r.inner) == nodes_of(g.inner),
        edges_of(r.inner) == edges_of(g.inner),
{
    AncillaGraph { inner: g.inner.clone() }
}

impl AncillaGraph {
    #[verifier::type_invariant]
    spec fn well_formed(self) -> bool {
        fits_petgraph(nodes_of(self.inner), edges_of(self.inner))
    }

    /// A graph without nodes and edges.
    pub fn new() -> (r: Self)
        ensures
            r@ == (GraphModel { nodes: 0, edges: Seq::empty() }),
    {
        petgraph_new()
    }

    /// One more node.
    pub fn add_node(&mut self)
        requires
            old(self)@.nodes < u32::MAX,
        ensures
            final(self)@ == (GraphModel { nodes: old(self)@.nodes + 1, edges: old(self)@.edges }),
    {
        proof {
            use_type_invariant(&*self);
        }
        petgraph_add_node(self);
    }
}

impl AncillaGraph {
    /// One more edge, even where the two nodes are joined already.
    pub fn add_edge(&mut self, a: usize, b: usize)
        requires
            a < old(self)@.nodes,
            b < old(self)@.nodes,
            old(self)@.edges.len() < u32::MAX,
        ensures
            final(self)@ == (GraphModel {
                nodes: old(self)@.nodes,
                edges: old(self)@.edges.push((a, b)),
            }),
    {
        proof {
            use_type_invariant(&*self);
        }
        petgraph_add_edge(self, a, b);
    }

    pub fn node_count(&self) -> (n: usize)
        ensures
            n == self@.nodes,
            self@.wf(),
    {
        proof {
            use_type_invariant(self);
        }
        petgraph_node_count(self)
    }

    pub fn edge_count(&self) -> (n: usize)
        ensures
            n == self@.edges.len(),
            self@.wf(),
    {
        proof {
            use_type_invariant(self);
        }
        petgraph_edge_count(self)
    }

    /// The ends of edge `e`.
    pub fn edge_endpoints(&self, e: usize) -> (r: Edge)
        requires
            e < self@.edges.len(),
        ensures
            r == self@.edges[e as int],
            r.0 < self@.nodes,
            r.1 < self@.nodes,
    {
        proof {
            use_type_invariant(self);
        }
        petgraph_edge_endpoints(self, e)
    }

    /// The edge that stands for the pair `a`, `b`, if they are joined.
    pub fn find_edge(&self, a: usize, b: usize) -> (r: Option<usize>)
        requires
            a < self@.nodes,
            b < self@.nodes,
        ensures
            r matches Some(e) ==> edge_between(self@.edges, a, b) == Some(e as int),
            r is None ==> edge_between(self@.edges, a, b) is None,
    {
        proof {
            use_type_invariant(self);
        }
        petgraph_find_edge(self, a, b)
    }

    /// The neighbours of `v`, once for every edge.
    pub fn neighbors(&self, v: usize) -> (r: Vec<usize>)
        requires
            v < self@.nodes,
        ensures
            r@ == neighbours_of(self@.edges, v),
            forall|i: int| 0 <= i < r@.len() ==> (#[trigger] r@[i]) < self@.nodes,
    {
        proof {
            use_type_invariant(self);
            lemma_edges_at(self@.edges, v);
            let at = edges_at(self@.edges, v);
            assert forall|i: int| 0 <= i < at.len() implies far_end(
                self@.edges[#[trigger] at[i]],
                v,
            ) < self@.nodes by {
                assert(touching(self@.edges, v, at[i]));
                assert(self@.edges[at[i]].0 < self@.nodes);
            }
        }
        let r = petgraph_neighbors(self, v);
        proof {
            let at = edges_at(self@.edges, v);
            assert forall|i: int| 0 <= i < r@.len() implies (#[trigger] r@[i]) < self@.nodes by {
                assert(at[i] == at[i]);
            }
        }
        r
    }

    /// The edges at `v`.
    pub fn edges(&self, v: usize) -> (r: Vec<usize>)
        requires
            v < self@.nodes,
        ensures
            r@.len() == edges_at(self@.edges, v).len(),
            forall|i: int| 0 <= i < r@.len() ==> #[trigger] r@[i] == edges_at(self@.edges, v)[i],
    {
        proof {
            use_type_invariant(self);
        }
        petgraph_edges(self, v)
    }

    /// A shortest path from `s` to `t`, if there is any.
    pub fn shortest_path(&self, s: usize, t: usize) -> (r: Option<Vec<usize>>)
        requires
            s < self@.nodes,
            t < self@.nodes,
        ensures
            r matches Some(p) ==> path_found(self@.nodes, self@.edges, s, t) == Some(p@) && is_walk(
                self@.edges,
                p@,
                s,
                t,
            ) && forall|walk: Seq<usize>| #[trigger]
                is_walk(self@.edges, walk, s, t) ==> p@.len() <= walk.len(),
            r is None ==> path_found(self@.nodes, self@.edges, s, t) is None && !reachable(
                self@.edges,
                s,
                t,
            ),
    {
        proof {
            use_type_invariant(self);
        }
        petgraph_astar(self, s, t)
    }
}

impl Clone for AncillaGraph {
    fn clone(&self) -> (r: Self)
        ensures
            r@ == self@,
    {
        petgraph_clone(self)
    }
}

/// Edge `e` has `v` as an end.
pub open spec fn touching(edges: Seq<Edge>, v: usize, e: int) -> bool {
    0 <= e < edges.len() && (edges[e].0 == v || edges[e].1 == v)
}

/// The edges at `v` are those that have it as an end, each once.
pub proof fn lemma_edges_at(edges: Seq<Edge>, v: usize)
    ensures
        forall|i: int|
            0 <= i < edges_at(edges, v).len() ==> touching(
                edges,
                v,
                #[trigger] edges_at(edges, v)[i],
            ),
        forall|e: int| #[trigger] touching(edges, v, e) ==> edges_at(edges, v).contains(e),
        edges_at(edges, v).no_duplicates(),
{
    lemma_edges_from(edges, v);
    lemma_edges_to(edges, v);
    let f = edges_from(edges, v);
    let t = edges_to(edges, v);
    let at = f + t;
    assert forall|i: int| 0 <= i < at.len() implies touching(edges, v, #[trigger] at[i]) by {
        if i < f.len() {
            assert(at[i] == f[i]);
        } else {
            assert(at[i] == t[i - f.len()]);
        }
    }
    assert forall|e: int| #[trigger] touching(edges, v, e) implies at.contains(e) by {
        if edges[e].0 == v {
            assert(f.contains(e));
            let i = f.index_of(e);
            assert(at[i] == e);
        } else {
            assert(t.contains(e));
            let i = t.index_of(e);
            assert(at[f.len() + i] == e);
        }
    }
    assert forall|i: int, j: int| 0 <= i < j < at.len() implies at[i] != at[j] by {
        if i < f.len() && j >= f.len() {
            assert(at[i] == f[i] && at[j] == t[j - f.len()]);
        } else if i < f.len() {
            assert(f[i] != f[j]);
        } else {
            assert(t[i - f.len()] != t[j - f.len()]);
        }
    }
}

proof fn lemma_edges_from(edges: Seq<Edge>, v: usize)
    ensures
        forall|i: int|
            0 <= i < edges_from(edges, v).len() ==> 0 <= #[trigger] edges_from(edges, v)[i]
                < edges.len() && edges[edges_from(edges, v)[i]].0 == v,
        forall|e: int|
            #![trigger edges_from(edges, v).contains(e)]
            0 <= e < edges.len() && edges[e].0 == v ==> edges_from(edges, v).contains(e),
        edges_from(edges, v).no_duplicates(),
    decreases edges.len(),
{
    if edges.len() > 0 {
        let front = edges.drop_last();
        lemma_edges_from(front, v);
        let rest = edges_from(front, v);
        let all = edges_from(edges, v);
        assert forall|i: int| 0 <= i < all.len() implies 0 <= #[trigger] all[i] < edges.len()
            && edges[all[i]].0 == v by {
            let k = if edges.last().0 == v {
                i - 1
            } else {
                i
            };
            if k >= 0 {
                assert(all[i] == rest[k]);
                assert(front[rest[k]] == edges[rest[k]]);
            }
        }
        assert forall|e: int|
            #![trigger all.contains(e)]
            0 <= e < edges.len() && edges[e].0 == v implies all.contains(e) by {
            if e < front.len() {
                assert(front[e] == edges[e]);
                assert(rest.contains(e));
                let k = rest.index_of(e);
                if edges.last().0 == v {
                    assert(all[k + 1] == e);
                } else {
                    assert(all[k] == e);
                }
            } else {
                assert(all[0] == e);
            }
        }
    }
}

proof fn lemma_edges_to(edges: Seq<Edge>, v: usize)
    ensures
        forall|i: int|
            0 <= i < edges_to(edges, v).len() ==> 0 <= #[trigger] edges_to(edges, v)[i]
                < edges.len() && edges[edges_to(edges, v)[i]].1 == v && edges[edges_to(
                edges,
                v,
            )[i]].0 != v,
        forall|e: int|
            #![trigger edges_to(edges, v).contains(e)]
            0 <= e < edges.len() && edges[e].1 == v && edges[e].0 != v ==> edges_to(
                edges,
                v,
            ).contains(e),
        edges_to(edges, v).no_duplicates(),
    decreases edges.len(),
{
    if edges.len() > 0 {
        let front = edges.drop_last();
        lemma_edges_to(front, v);
        let rest = edges_to(front, v);
        let all = edges_to(edges, v);
        let added = edges.last().1 == v && edges.last().0 != v;
        assert forall|i: int| 0 <= i < all.len() implies 0 <= #[trigger] all[i] < edges.len()
            && edges[all[i]].1 == v && edges[all[i]].0 != v by {
            let k = if added {
                i - 1
            } else {
                i
            };
            if k >= 0 {
                assert(all[i] == rest[k]);
                assert(front[rest[k]] == edges[rest[k]]);
            }
        }
        assert forall|e: int|
            #![trigger all.contains(e)]
            0 <= e < edges.len() && edges[e].1 == v && edges[e].0 != v implies all.contains(e) by {
            if e < front.len() {
                assert(front[e] == edges[e]);
                assert(rest.contains(e));
                let k = rest.index_of(e);
                if added {
                    assert(all[k + 1] == e);
                } else {
                    assert(all[k] == e);
                }
            } else {
                assert(all[0] == e);
            }
        }
    }
}

/// The edge that stands for a pair joins it, and there is one where the pair is
/// joined.
pub proof fn lemma_edge_between(edges: Seq<Edge>, a: usize, b: usize)
    ensures
        edge_between(edges, a, b) is Some <==> joined(edges, a, b),
        edge_between(edges, a, b) matches Some(e) ==> 0 <= e < edges.len() && (edges[e] == (a, b)
            || edges[e] == (b, a)),
{
    lemma_last_edge(edges, a, b);
    lemma_last_edge(edges, b, a);
}

proof fn lemma_last_edge(edges: Seq<Edge>, a: usize, b: usize)
    ensures
        last_edge(edges, a, b) is Some <==> edges.contains((a, b)),
        last_edge(edges, a, b) matches Some(e) ==> 0 <= e < edges.len() && edges[e] == (a, b),
    decreases edges.len(),
{
    if edges.len() > 0 {
        let front = edges.drop_last();
        lemma_last_edge(front, a, b);
        if front.contains((a, b)) {
            assert(edges[front.index_of((a, b))] == (a, b));
        }
        if edges.last() == (a, b) {
            assert(edges[edges.len() - 1] == (a, b));
        } else if edges.contains((a, b)) {
            let i = edges.index_of((a, b));
            assert(front[i] == (a, b));
        }
    }
}

} // verus!
