//! Building the ancilla graphs of code surgery.

use vstd::prelude::*;

use crate::graph::Edge;
use crate::search::{bfs_route, Step};
#[allow(unused_imports)]
use crate::search::{is_route, lists_ok, route_end, route_vertices};

verus! {

/// An edge with the smaller end first.
pub open spec fn canonical(a: usize, b: usize) -> Edge {
    if a <= b {
        (a, b)
    } else {
        (b, a)
    }
}

pub fn canonical_edge(a: usize, b: usize) -> (r: Edge)
    ensures
        r == canonical(a, b),
{
    if a <= b {
        (a, b)
    } else {
        (b, a)
    }
}

// ---------------------------------------------------------------------------
// Closed chains of edges
// ---------------------------------------------------------------------------
/// How many ends an edge has at `x`.
pub open spec fn edge_ends(e: Edge, x: usize) -> nat {
    (if e.0 == x {
        1nat
    } else {
        0nat
    }) + (if e.1 == x {
        1nat
    } else {
        0nat
    })
}

/// How many edge ends the edges have at `x`.
pub open spec fn ends_at(edges: Seq<Edge>, x: usize) -> nat
    decreases edges.len(),
{
    if edges.len() == 0 {
        0
    } else {
        ends_at(edges.drop_last(), x) + edge_ends(edges.last(), x)
    }
}

/// A disjoint union of simple cycles: every vertex on it has exactly two edge ends.
pub open spec fn two_regular(edges: Seq<Edge>) -> bool {
    &&& edges.len() > 0
    &&& forall|x: usize| #[trigger] ends_at(edges, x) == 0 || ends_at(edges, x) == 2
}

pub proof fn lemma_ends_push(edges: Seq<Edge>, e: Edge, x: usize)
    ensures
        ends_at(edges.push(e), x) == ends_at(edges, x) + edge_ends(e, x),
{
    assert(edges.push(e).drop_last() =~= edges);
}

pub proof fn lemma_ends_add(a: Seq<Edge>, b: Seq<Edge>, x: usize)
    ensures
        ends_at(a + b, x) == ends_at(a, x) + ends_at(b, x),
    decreases b.len(),
{
    if b.len() == 0 {
        assert(a + b =~= a);
    } else {
        assert((a + b).drop_last() =~= a + b.drop_last());
        lemma_ends_add(a, b.drop_last(), x);
    }
}

/// The edges along a path of vertices.
pub open spec fn path_edges(path: Seq<usize>) -> Seq<Edge> {
    Seq::new(
        if path.len() == 0 {
            0
        } else {
            (path.len() - 1) as nat
        },
        |i: int| canonical(path[i], path[i + 1]),
    )
}

/// The edges along a path of distinct vertices have one end at its two ends, two
/// in between, and none elsewhere.
pub proof fn lemma_path_ends(path: Seq<usize>, x: usize)
    requires
        path.no_duplicates(),
        path.len() > 0,
    ensures
        ends_at(path_edges(path), x) == if !path.contains(x) || path.len() == 1 {
            0nat
        } else if x == path[0] || x == path.last() {
            1
        } else {
            2
        },
    decreases path.len(),
{
    let es = path_edges(path);
    if path.len() > 1 {
        let front = path.drop_last();
        lemma_path_ends(front, x);
        assert(es.drop_last() =~= path_edges(front));
        let n = path.len();
        assert(es.last() == canonical(path[n - 2], path[n - 1]));
        assert(front.last() == path[n - 2]);
        assert(path.last() == path[n - 1]);
        assert(path[n - 2] != path[n - 1]);
        if path.contains(x) {
            let i = path.index_of(x);
            assert(path[i] == x);
            if i < n - 1 {
                assert(front[i] == x);
            } else {
                if front.contains(x) {
                    let k = front.index_of(x);
                    assert(front[k] == path[k]);
                    assert(path[k] != path[n - 1]);
                }
            }
        } else if front.contains(x) {
            assert(path[front.index_of(x)] == x);
        }
        if n == 2 {
            assert(path_edges(front) =~= Seq::<Edge>::empty());
        }
    } else {
        assert(es =~= Seq::<Edge>::empty());
    }
}

/// The edge set of the cycle formed by a path together with the edge that closes it.
pub open spec fn closed_path(path: Seq<usize>, a: usize, b: usize) -> Seq<Edge> {
    path_edges(path).push(canonical(a, b))
}

/// A path of distinct vertices and the edge between its ends form a simple cycle.
pub proof fn law_closed_path_is_cycle(path: Seq<usize>)
    requires
        path.no_duplicates(),
        path.len() >= 2,
    ensures
        two_regular(closed_path(path, path[0], path.last())),
        forall|x: usize| #[trigger]
            ends_at(closed_path(path, path[0], path.last()), x) == (if path.contains(x) {
                2nat
            } else {
                0nat
            }),
{
    let c = closed_path(path, path[0], path.last());
    assert(path[0] != path[path.len() - 1]);
    assert forall|x: usize| #[trigger] ends_at(c, x) == (if path.contains(x) {
        2nat
    } else {
        0nat
    }) by {
        lemma_path_ends(path, x);
        lemma_ends_push(path_edges(path), canonical(path[0], path.last()), x);
        assert(path[path.len() - 1] == path.last());
    }
}

/// The edges of the cycle formed by a path and the edge that closes it.
pub fn cycle_edges_from_path(path: &Vec<usize>, a: usize, b: usize) -> (r: Vec<Edge>)
    ensures
        r@ == closed_path(path@, a, b),
{
    let mut edges: Vec<Edge> = Vec::new();
    let mut i: usize = 1;
    while i < path.len()
        invariant
            1 <= i,
            i <= path@.len() || path@.len() == 0,
            edges@.len() == i - 1,
            forall|k: int|
                0 <= k < i - 1 ==> #[trigger] edges@[k] == canonical(path@[k], path@[k + 1]),
            path@.len() == 0 ==> i == 1,
        decreases path@.len() - i,
    {
        edges.push(canonical_edge(path[i - 1], path[i]));
        i = i + 1;
    }
    assert(edges@ =~= path_edges(path@));
    edges.push(canonical_edge(a, b));
    edges
}

// ---------------------------------------------------------------------------
// Spanning forests
// ---------------------------------------------------------------------------
/// A path of distinct vertices along adjacency lists.
pub open spec fn list_path(lists: Seq<Seq<usize>>, path: Seq<usize>, a: usize, b: usize) -> bool {
    &&& path.len() > 0
    &&& path[0] == a
    &&& path.last() == b
    &&& path.no_duplicates()
    &&& forall|i: int| #![trigger path[i]] 0 <= i < path.len() ==> path[i] < lists.len()
    &&& forall|i: int|
        #![trigger path[i]]
        0 <= i < path.len() - 1 ==> lists[path[i] as int].contains(path[i + 1])
}

/// The list without `x`.
pub open spec fn without(list: Seq<usize>, x: usize) -> Seq<usize>
    decreases list.len(),
{
    if list.len() == 0 {
        Seq::empty()
    } else if list.last() == x {
        without(list.drop_last(), x)
    } else {
        without(list.drop_last(), x).push(list.last())
    }
}

/// The lists with an edge between `a` and `b` added.
pub open spec fn linked(lists: Seq<Seq<usize>>, a: usize, b: usize) -> Seq<Seq<usize>> {
    let once = lists.update(a as int, lists[a as int].push(b));
    once.update(b as int, once[b as int].push(a))
}

/// The lists with the edges between `a` and `b` removed.
pub open spec fn unlinked(lists: Seq<Seq<usize>>, a: usize, b: usize) -> Seq<Seq<usize>> {
    let once = lists.update(a as int, without(lists[a as int], b));
    once.update(b as int, without(once[b as int], a))
}

/// A spanning forest over the vertices below some `n`, with unique path queries and
/// edge updates.
pub struct SpanningForest {
    adjacency: Vec<Vec<Step>>,
}

/// The vertices that a list of steps leads to.
spec fn targets(list: Seq<Step>) -> Seq<usize> {
    Seq::new(list.len(), |i: int| list[i].0)
}

impl View for SpanningForest {
    type V = Seq<Seq<usize>>;

    closed spec fn view(&self) -> Seq<Seq<usize>> {
        Seq::new(self.adjacency@.len(), |v: int| targets(self.adjacency@[v]@))
    }
}

impl SpanningForest {
    #[verifier::type_invariant]
    spec fn well_formed(self) -> bool {
        lists_ok(self.adjacency@)
    }

    pub fn new(n: usize) -> (r: Self)
        ensures
            r@ == Seq::new(n as nat, |v: int| Seq::<usize>::empty()),
    {
        let mut adjacency: Vec<Vec<Step>> = Vec::new();
        for v in 0..n
            invariant
                adjacency@.len() == v,
                forall|w: int| 0 <= w < v ==> (#[trigger] adjacency@[w])@.len() == 0,
        {
            adjacency.push(Vec::new());
        }
        let r = SpanningForest { adjacency };
        proof {
            assert forall|v: int| 0 <= v < n implies #[trigger] r@[v] =~= Seq::<usize>::empty() by {
                assert(adjacency@[v]@.len() == 0);
            }
            assert(r@ =~= Seq::new(n as nat, |v: int| Seq::<usize>::empty()));
        }
        r
    }

    pub fn add_edge(&mut self, a: usize, b: usize)
        requires
            a < old(self)@.len(),
            b < old(self)@.len(),
        ensures
            final(self)@ == linked(old(self)@, a, b),
    {
        proof {
            use_type_invariant(&*self);
        }
        let ghost before = self@;
        let mut whole = SpanningForest::new(0);
        core::mem::swap(&mut whole, self);
        let mut lists = whole.adjacency;
        let ghost lists0 = lists@;
        let mut row: Vec<Step> = Vec::new();
        core::mem::swap(&mut row, &mut lists[a]);
        row.push((b, b));
        core::mem::swap(&mut row, &mut lists[a]);
        let ghost lists1 = lists@;
        let mut row2: Vec<Step> = Vec::new();
        core::mem::swap(&mut row2, &mut lists[b]);
        row2.push((a, a));
        core::mem::swap(&mut row2, &mut lists[b]);
        proof {
            assert forall|v: int, k: int|
                0 <= v < lists@.len() && 0 <= k < lists@[v]@.len() implies (
            #[trigger] lists@[v]@[k]).0 < lists@.len() by {
                if v == b && k == lists@[v]@.len() - 1 {
                } else if v == a && k == lists1[v]@.len() - 1 {
                } else {
                    assert(lists@[v]@[k] == lists0[v]@[k]);
                }
            }
        }
        *self = SpanningForest { adjacency: lists };
        proof {
            let goal = linked(before, a, b);
            assert forall|v: int| 0 <= v < before.len() implies #[trigger] self@[v] =~= goal[v] by {
                assert(before[v] == targets(lists0[v]@));
                assert(self@[v] == targets(lists@[v]@));
            }
            assert(self@ =~= goal);
        }
    }

    pub fn remove_edge(&mut self, a: usize, b: usize)
        requires
            a < old(self)@.len(),
            b < old(self)@.len(),
        ensures
            final(self)@ == unlinked(old(self)@, a, b),
    {
        proof {
            use_type_invariant(&*self);
        }
        let ghost before = self@;
        let mut whole = SpanningForest::new(0);
        core::mem::swap(&mut whole, self);
        let mut lists = whole.adjacency;
        let ghost lists0 = lists@;
        let row = steps_without(&lists[a], b);
        lists.set(a, row);
        let ghost lists1 = lists@;
        let row2 = steps_without(&lists[b], a);
        lists.set(b, row2);
        proof {
            assert forall|v: int, k: int|
                0 <= v < lists@.len() && 0 <= k < lists@[v]@.len() implies (
            #[trigger] lists@[v]@[k]).0 < lists@.len() by {
                if v == b {
                    assert(lists1[v]@.contains(lists@[v]@[k]));
                    let i = lists1[v]@.index_of(lists@[v]@[k]);
                    if v == a {
                        assert(lists0[v]@.contains(lists1[v]@[i]));
                        let j = lists0[v]@.index_of(lists1[v]@[i]);
                        assert(lists0[v]@[j].0 < lists@.len());
                    } else {
                        assert(lists0[v]@[i].0 < lists@.len());
                    }
                } else if v == a {
                    assert(lists0[v]@.contains(lists@[v]@[k]));
                    let j = lists0[v]@.index_of(lists@[v]@[k]);
                    assert(lists0[v]@[j].0 < lists@.len());
                } else {
                    assert(lists@[v]@[k] == lists0[v]@[k]);
                }
            }
        }
        *self = SpanningForest { adjacency: lists };
        proof {
            let goal = unlinked(before, a, b);
            assert forall|v: int| 0 <= v < before.len() implies #[trigger] self@[v] =~= goal[v] by {
                assert(before[v] == targets(lists0[v]@));
                assert(self@[v] == targets(lists@[v]@));
            }
            assert(self@ =~= goal);
        }
    }

    /// The path from `a` to `b`, or `None` if they lie in different trees.
    pub fn path(&self, a: usize, b: usize) -> (r: Option<Vec<usize>>)
        requires
            a < self@.len(),
            b < self@.len(),
        ensures
            match r {
                Some(p) => list_path(self@, p@, a, b) && forall|q: Seq<usize>| #[trigger]
                    list_path(self@, q, a, b) ==> p@.len() <= q.len(),
                None => forall|q: Seq<usize>| !#[trigger] list_path(self@, q, a, b),
            },
    {
        proof {
            use_type_invariant(self);
        }
        match bfs_route(&self.adjacency, a, b) {
            Some(steps) => {
                let mut p: Vec<usize> = Vec::new();
                p.push(a);
                for i in 0..steps.len()
                    invariant
                        p@.len() == i + 1,
                        forall|k: int|
                            0 <= k < i + 1 ==> #[trigger] p@[k] == route_vertices(a, steps@)[k],
                {
                    p.push(steps[i].0);
                }
                proof {
                    assert(p@ =~= route_vertices(a, steps@));
                    lemma_route_is_path(self.adjacency@, a, b, steps@);
                    assert forall|q: Seq<usize>| #[trigger]
                        list_path(self@, q, a, b) implies p@.len() <= q.len() by {
                        lemma_path_is_route(self.adjacency@, q, a, b);
                    }
                }
                Some(p)
            },
            None => {
                proof {
                    assert forall|q: Seq<usize>| !#[trigger] list_path(self@, q, a, b) by {
                        if list_path(self@, q, a, b) {
                            lemma_path_is_route(self.adjacency@, q, a, b);
                        }
                    }
                }
                None
            },
        }
    }
}

spec fn lists_view(lists: Seq<Vec<Step>>) -> Seq<Seq<usize>> {
    Seq::new(lists.len(), |v: int| targets(lists[v]@))
}

proof fn lemma_route_is_path(lists: Seq<Vec<Step>>, a: usize, b: usize, steps: Seq<Step>)
    requires
        is_route(lists, a, steps),
        route_end(a, steps) == b,
        route_vertices(a, steps).no_duplicates(),
    ensures
        list_path(lists_view(lists), route_vertices(a, steps), a, b),
{
    let p = route_vertices(a, steps);
    let view = lists_view(lists);
    assert forall|i: int| #![trigger p[i]] 0 <= i < p.len() implies p[i] < lists.len() by {
        if i > 0 {
            assert(steps[i - 1].0 < lists.len());
        }
    }
    assert forall|i: int| #![trigger p[i]] 0 <= i < p.len() - 1 implies view[p[i] as int].contains(
        p[i + 1],
    ) by {
        assert(steps[i].0 < lists.len());
        assert(lists[p[i] as int]@.contains(steps[i]));
        assert(p[i] < lists.len());
        let k = lists[p[i] as int]@.index_of(steps[i]);
        assert(view[p[i] as int][k] == p[i + 1]);
    }
}

proof fn lemma_path_is_route(lists: Seq<Vec<Step>>, q: Seq<usize>, a: usize, b: usize)
    requires
        list_path(lists_view(lists), q, a, b),
    ensures
        exists|steps: Seq<Step>| #[trigger]
            is_route(lists, a, steps) && route_end(a, steps) == b && steps.len() == q.len() - 1,
{
    let view = lists_view(lists);
    let steps = Seq::new(
        (q.len() - 1) as nat,
        |i: int| choose|s: Step| lists[q[i] as int]@.contains(s) && s.0 == q[i + 1],
    );
    assert forall|i: int| 0 <= i < steps.len() implies lists[q[i] as int]@.contains(
        #[trigger] steps[i],
    ) && steps[i].0 == q[i + 1] by {
        assert(q[i] < lists.len());
        assert(view[q[i] as int].contains(q[i + 1]));
        let k = view[q[i] as int].index_of(q[i + 1]);
        assert(view[q[i] as int][k] == q[i + 1]);
        let s = lists[q[i] as int]@[k];
        assert(lists[q[i] as int]@.contains(s) && s.0 == q[i + 1]);
    }
    assert(route_vertices(a, steps) =~= q);
    assert(q[0] < lists.len());
    assert forall|i: int| 0 <= i < steps.len() implies (#[trigger] steps[i]).0 < lists.len()
        && lists[route_vertices(a, steps)[i] as int]@.contains(steps[i]) by {
        assert(q[i + 1] < lists.len());
    }
    assert(is_route(lists, a, steps));
}

fn steps_without(list: &Vec<Step>, x: usize) -> (r: Vec<Step>)
    ensures
        targets(r@) == without(targets(list@), x),
        forall|k: int| 0 <= k < r@.len() ==> list@.contains(#[trigger] r@[k]),
{
    let mut r: Vec<Step> = Vec::new();
    let ghost all = targets(list@);
    assert(all.take(0) =~= Seq::empty());
    assert(targets(r@) =~= Seq::empty());
    for i in 0..list.len()
        invariant
            all == targets(list@),
            targets(r@) == without(all.take(i as int), x),
            forall|k: int| 0 <= k < r@.len() ==> list@.contains(#[trigger] r@[k]),
    {
        let ghost before = r@;
        assert(all.take(i + 1).drop_last() =~= all.take(i as int));
        let s = list[i];
        assert(list@[i as int] == s);
        if s.0 != x {
            r.push(s);
            assert(targets(r@) =~= targets(before).push(s.0));
        }
    }
    assert(all.take(all.len() as int) =~= all);
    r
}

/// The forest after the edge `u`, `v` was inserted and the cycle that it closed,
/// if any: the edge joins two trees, or it takes the place of the first edge of
/// the path from `u` to `v`.
pub open spec fn forest_updated(
    before: Seq<Seq<usize>>,
    u: usize,
    v: usize,
    after: Seq<Seq<usize>>,
    cycle: Option<Seq<Edge>>,
) -> bool {
    match cycle {
        None => (forall|q: Seq<usize>| !#[trigger] list_path(before, q, u, v)) && after == linked(
            before,
            u,
            v,
        ),
        Some(c) => exists|p: Seq<usize>|
            {
                &&& #[trigger] list_path(before, p, u, v)
                &&& forall|q: Seq<usize>| #[trigger] list_path(before, q, u, v) ==> p.len() <= q.len()
                &&& c == closed_path(p, u, v)
                &&& after == linked(unlinked(before, p[0], p[1]), u, v)
            },
    }
}

/// Given the current spanning forest and a newly inserted graph edge, the cycle it
/// closes, if any, with the forest updated so that it stays spanning.
pub fn dynamic_cycle_basis_update(forest: &mut SpanningForest, u: usize, v: usize) -> (r: Option<
    Vec<Edge>,
>)
    requires
        u < old(forest)@.len(),
        v < old(forest)@.len(),
        u != v,
    ensures
        forest_updated(
            old(forest)@,
            u,
            v,
            final(forest)@,
            match r {
                Some(c) => Some(c@),
                None => None,
            },
        ),
        final(forest)@.len() == old(forest)@.len(),
        r matches Some(c) ==> two_regular(c@),
{
    let ghost before = forest@;
    match forest.path(u, v) {
        None => {
            forest.add_edge(u, v);
            None
        },
        Some(p) => {
            proof {
                assert(p@.len() >= 2) by {
                    if p@.len() == 1 {
                        assert(p@[0] == p@.last());
                    }
                }
                assert(p@[0] < before.len() && p@[1] < before.len());
                law_closed_path_is_cycle(p@);
            }
            let cycle = cycle_edges_from_path(&p, u, v);
            forest.remove_edge(p[0], p[1]);
            forest.add_edge(u, v);
            assert(list_path(before, p@, u, v));
            Some(cycle)
        },
    }
}

// ---------------------------------------------------------------------------
// Layers of cycles
// ---------------------------------------------------------------------------
/// How often `e` occurs among the edges.
pub open spec fn edge_load(edges: Seq<Edge>, e: Edge) -> nat
    decreases edges.len(),
{
    if edges.len() == 0 {
        0
    } else {
        edge_load(edges.drop_last(), e) + if edges.last() == e {
            1nat
        } else {
            0nat
        }
    }
}

/// How often `e` occurs on the cycles of a layer.
pub open spec fn layer_load(cycles: Seq<Seq<Edge>>, e: Edge) -> nat
    decreases cycles.len(),
{
    if cycles.len() == 0 {
        0
    } else {
        layer_load(cycles.drop_last(), e) + edge_load(cycles.last(), e)
    }
}

/// Every edge of the cycle can take one more unit of load in the layer.
pub open spec fn fits_layer(cycles: Seq<Seq<Edge>>, cycle: Seq<Edge>, max_load: nat) -> bool {
    forall|i: int| 0 <= i < cycle.len() ==> layer_load(cycles, #[trigger] cycle[i]) + 1 <= max_load
}

/// The first layer, from `k` on, that the cycle fits into.
pub open spec fn first_fit(
    layers: Seq<Seq<Seq<Edge>>>,
    cycle: Seq<Edge>,
    max_load: nat,
    k: int,
) -> int
    decreases layers.len() - k,
{
    if k >= layers.len() || fits_layer(layers[k], cycle, max_load) {
        k
    } else {
        first_fit(layers, cycle, max_load, k + 1)
    }
}

/// The layers with one more cycle: in the first layer that it fits into, else in a
/// new one.
pub open spec fn cycle_placed(
    layers: Seq<Seq<Seq<Edge>>>,
    cycle: Seq<Edge>,
    max_load: nat,
) -> Seq<Seq<Seq<Edge>>> {
    let k = first_fit(layers, cycle, max_load, 0);
    if k < layers.len() {
        layers.update(k, layers[k].push(cycle))
    } else {
        layers.push(seq![cycle])
    }
}

/// The contents of a layer.
pub open spec fn cycle_views(cycles: Seq<Vec<Edge>>) -> Seq<Seq<Edge>> {
    Seq::new(cycles.len(), |i: int| cycles[i]@)
}

/// The contents of the layers.
pub open spec fn layer_views(layers: Seq<Vec<Vec<Edge>>>) -> Seq<Seq<Seq<Edge>>> {
    Seq::new(layers.len(), |i: int| cycle_views(layers[i]@))
}

/// Greedy partition of cycles into layers, where a cycle may join a layer only
/// while every edge stays within the load bound. With a bound of 1 the layers are
/// edge-disjoint.
pub struct CyclePartition {
    layer_cycles: Vec<Vec<Vec<Edge>>>,
    max_load: usize,
}

impl View for CyclePartition {
    type V = Seq<Seq<Seq<Edge>>>;

    closed spec fn view(&self) -> Seq<Seq<Seq<Edge>>> {
        layer_views(self.layer_cycles@)
    }
}

/// A copy of the edges.
pub fn copy_edges(edges: &Vec<Edge>) -> (r: Vec<Edge>)
    ensures
        r@ == edges@,
{
    let mut r: Vec<Edge> = Vec::new();
    for i in 0..edges.len()
        invariant
            r@ == edges@.take(i as int),
    {
        r.push(edges[i]);
        assert(edges@.take(i + 1) =~= edges@.take(i as int).push(edges@[i as int]));
    }
    assert(edges@.take(edges@.len() as int) =~= edges@);
    r
}

/// Whether `e` occurs fewer than `limit` times on the cycles.
fn load_below(cycles: &Vec<Vec<Edge>>, e: Edge, limit: usize) -> (r: bool)
    ensures
        r == (layer_load(cycle_views(cycles@), e) < limit),
{
    let ghost all = cycle_views(cycles@);
    let mut load: usize = 0;
    if limit == 0 {
        return false;
    }
    assert(all.take(0) =~= Seq::empty());
    let mut i: usize = 0;
    while i < cycles.len()
        invariant
            i <= cycles@.len(),
            all == cycle_views(cycles@),
            load == layer_load(all.take(i as int), e),
            load < limit,
        decreases cycles@.len() - i,
    {
        let cycle = &cycles[i];
        let ghost c = cycle@;
        proof {
            assert(all.take(i + 1).drop_last() =~= all.take(i as int));
            assert(all.take(i + 1).last() == c);
            assert(c.take(0) =~= Seq::empty());
        }
        let mut k: usize = 0;
        while k < cycle.len()
            invariant
                i < cycles@.len(),
                c == cycle@,
                k <= c.len(),
                all == cycle_views(cycles@),
                all[i as int] == c,
                load == layer_load(all.take(i as int), e) + edge_load(c.take(k as int), e),
                load < limit,
            decreases c.len() - k,
        {
            let f = cycle[k];
            assert(c.take(k + 1).drop_last() =~= c.take(k as int));
            if f.0 == e.0 && f.1 == e.1 {
                load = load + 1;
                if load >= limit {
                    proof {
                        lemma_edge_load_take(c, e, k + 1);
                        assert(all.take(i + 1).drop_last() =~= all.take(i as int));
                        assert(all.take(i + 1).last() == c);
                        lemma_layer_load_take(all, e, i + 1);
                    }
                    return false;
                }
            }
            k = k + 1;
        }
        assert(c.take(c.len() as int) =~= c);
        i = i + 1;
    }
    assert(all.take(all.len() as int) =~= all);
    true
}

proof fn lemma_edge_load_take(c: Seq<Edge>, e: Edge, i: int)
    requires
        0 <= i <= c.len(),
    ensures
        edge_load(c.take(i), e) <= edge_load(c, e),
    decreases c.len() - i,
{
    if i < c.len() {
        lemma_edge_load_take(c, e, i + 1);
        assert(c.take(i + 1).drop_last() =~= c.take(i));
    } else {
        assert(c.take(i) =~= c);
    }
}

proof fn lemma_layer_load_take(c: Seq<Seq<Edge>>, e: Edge, i: int)
    requires
        0 <= i <= c.len(),
    ensures
        layer_load(c.take(i), e) <= layer_load(c, e),
    decreases c.len() - i,
{
    if i < c.len() {
        lemma_layer_load_take(c, e, i + 1);
        assert(c.take(i + 1).drop_last() =~= c.take(i));
    } else {
        assert(c.take(i) =~= c);
    }
}

fn cycle_fits(cycles: &Vec<Vec<Edge>>, cycle: &Vec<Edge>, limit: usize) -> (r: bool)
    ensures
        r == fits_layer(cycle_views(cycles@), cycle@, limit as nat),
{
    let mut i: usize = 0;
    while i < cycle.len()
        invariant
            i <= cycle@.len(),
            forall|k: int|
                0 <= k < i ==> layer_load(cycle_views(cycles@), #[trigger] cycle@[k]) + 1 <= limit,
        decreases cycle@.len() - i,
    {
        if !load_below(cycles, cycle[i], limit) {
            assert(layer_load(cycle_views(cycles@), cycle@[i as int]) >= limit);
            return false;
        }
        i = i + 1;
    }
    true
}

impl CyclePartition {
    /// The load bound.
    pub closed spec fn bound(self) -> nat {
        self.max_load as nat
    }

    #[verifier::type_invariant]
    spec fn well_formed(self) -> bool {
        self.max_load >= 1
    }

    /// No layers yet; each edge may occur `max_load` times in a layer, and at least
    /// once.
    pub fn with_max_load(max_load: usize) -> (r: Self)
        ensures
            r@ == Seq::<Seq<Seq<Edge>>>::empty(),
            r.bound() == (if max_load >= 1 {
                max_load as nat
            } else {
                1
            }),
    {
        let bound: usize = if max_load >= 1 {
            max_load
        } else {
            1
        };
        let r = CyclePartition { layer_cycles: Vec::new(), max_load: bound };
        assert(r@ =~= Seq::<Seq<Seq<Edge>>>::empty());
        r
    }

    /// Place the cycle into the first layer that can take it, or into a new one. The
    /// number of layers afterwards.
    pub fn insert(&mut self, cycle: &Vec<Edge>) -> (layers: usize)
        ensures
            final(self)@ == cycle_placed(old(self)@, cycle@, old(self).bound()),
            final(self).bound() == old(self).bound(),
            layers == final(self)@.len(),
    {
        proof {
            use_type_invariant(&*self);
        }
        let ghost before = self@;
        let bound: usize = self.max_load;
        let mut whole = CyclePartition { layer_cycles: Vec::new(), max_load: 1 };
        core::mem::swap(&mut whole, self);
        let mut layers = whole.layer_cycles;
        let ghost layers0 = layers@;
        let ghost goal = cycle_placed(before, cycle@, bound as nat);
        let mut k: usize = 0;
        while k < layers.len() && !cycle_fits(&layers[k], cycle, bound)
            invariant
                k <= layers@.len(),
                layers@ == layers0,
                before == layer_views(layers0),
                first_fit(before, cycle@, bound as nat, 0) == first_fit(
                    before,
                    cycle@,
                    bound as nat,
                    k as int,
                ),
            decreases layers@.len() - k,
        {
            assert(before[k as int] == cycle_views(layers@[k as int]@));
            k = k + 1;
        }
        let copy = copy_edges(cycle);
        if k < layers.len() {
            let mut row: Vec<Vec<Edge>> = Vec::new();
            core::mem::swap(&mut row, &mut layers[k]);
            let ghost row0 = row@;
            row.push(copy);
            core::mem::swap(&mut row, &mut layers[k]);
            proof {
                assert(before[k as int] == cycle_views(layers0[k as int]@));
                assert(cycle_views(row0.push(copy)) =~= cycle_views(row0).push(cycle@));
                assert(layer_views(layers@) =~= goal);
            }
        } else {
            let mut row: Vec<Vec<Edge>> = Vec::new();
            row.push(copy);
            assert(cycle_views(row@) =~= seq![cycle@]);
            layers.push(row);
            assert(layer_views(layers@) =~= goal);
        }
        let count: usize = layers.len();
        *self = CyclePartition { layer_cycles: layers, max_load: bound };
        count
    }

    /// The number of layers.
    pub fn layers(&self) -> (n: usize)
        ensures
            n == self@.len(),
    {
        self.layer_cycles.len()
    }

    /// The cycles of each layer.
    pub fn layer_cycles(&self) -> (r: &Vec<Vec<Vec<Edge>>>)
        ensures
            layer_views(r@) == self@,
    {
        &self.layer_cycles
    }
}

/// Every edge is within the load bound in every layer.
pub open spec fn loads_within(layers: Seq<Seq<Seq<Edge>>>, max_load: nat) -> bool {
    forall|k: int, e: Edge|
        #![trigger layer_load(layers[k], e)]
        0 <= k < layers.len() ==> layer_load(layers[k], e) <= max_load
}

/// Placing a cycle that passes each edge once keeps every layer within the load
/// bound.
pub proof fn law_partition_keeps_loads(
    layers: Seq<Seq<Seq<Edge>>>,
    cycle: Seq<Edge>,
    max_load: nat,
)
    requires
        loads_within(layers, max_load),
        max_load >= 1,
        cycle.no_duplicates(),
    ensures
        loads_within(cycle_placed(layers, cycle, max_load), max_load),
{
    let k = first_fit(layers, cycle, max_load, 0);
    lemma_first_fit(layers, cycle, max_load, 0);
    let after = cycle_placed(layers, cycle, max_load);
    assert forall|i: int, e: Edge|
        #![trigger layer_load(after[i], e)]
        0 <= i < after.len() implies layer_load(after[i], e) <= max_load by {
        lemma_distinct_load(cycle, e);
        if k < layers.len() {
            if i == k {
                assert(after[i].drop_last() =~= layers[k]);
                assert(layer_load(layers[k], e) <= max_load);
                if cycle.contains(e) {
                    let j = cycle.index_of(e);
                    assert(cycle[j] == e);
                    assert(layer_load(layers[k], cycle[j]) + 1 <= max_load);
                }
            } else {
                assert(after[i] == layers[i]);
                assert(layer_load(layers[i], e) <= max_load);
            }
        } else if i < layers.len() {
            assert(after[i] == layers[i]);
            assert(layer_load(layers[i], e) <= max_load);
        } else {
            assert(after[i] == seq![cycle]);
            assert(seq![cycle].drop_last() =~= Seq::<Seq<Edge>>::empty());
            assert(layer_load(Seq::<Seq<Edge>>::empty(), e) == 0);
        }
    }
}

pub proof fn lemma_first_fit(layers: Seq<Seq<Seq<Edge>>>, cycle: Seq<Edge>, max_load: nat, k: int)
    requires
        0 <= k <= layers.len(),
    ensures
        ({
            let f = first_fit(layers, cycle, max_load, k);
            k <= f <= layers.len() && (f < layers.len() ==> fits_layer(layers[f], cycle, max_load))
        }),
    decreases layers.len() - k,
{
    if k < layers.len() && !fits_layer(layers[k], cycle, max_load) {
        lemma_first_fit(layers, cycle, max_load, k + 1);
    }
}

proof fn lemma_distinct_load(cycle: Seq<Edge>, e: Edge)
    requires
        cycle.no_duplicates(),
    ensures
        edge_load(cycle, e) <= 1,
        edge_load(cycle, e) == 1 ==> cycle.contains(e),
    decreases cycle.len(),
{
    if cycle.len() > 0 {
        let front = cycle.drop_last();
        lemma_distinct_load(front, e);
        if front.contains(e) {
            let i = front.index_of(e);
            assert(cycle[i] == e);
            assert(cycle[i] != cycle[cycle.len() - 1]);
        }
        if cycle.last() == e {
            assert(cycle[cycle.len() - 1] == e);
        }
    }
}

} // verus!
