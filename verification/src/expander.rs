//! Expander graphs grown from a path-matching graph.

use rand::rngs::StdRng;
use vstd::prelude::*;

#[allow(unused_imports)]
use crate::cycle_space::{
    is_grown_basis, lemma_basis_grows, lists_once, newest_first, spans, symmetric,
};
#[allow(unused_imports)]
use crate::decongestion::{lemma_sum_add, lemma_sum_two, sum_below};
use crate::decongestion::decongestion_cycle_basis;
#[allow(unused_imports)]
use crate::decongestion::{decongested, is_cycle_basis};
use crate::graph::{AncillaGraph, Edge};
#[allow(unused_imports)]
use crate::graph::{
    edges_at, far_end, joined, lemma_edge_between, lemma_edges_at, neighbours_of, touching,
    GraphModel,
};
use crate::graph_construction::{
    canonical_edge, copy_edges, dynamic_cycle_basis_update, CyclePartition, SpanningForest,
};
#[allow(unused_imports)]
use crate::graph_construction::{
    canonical, closed_path, cycle_placed, cycle_views, forest_updated, linked, list_path,
    path_edges, two_regular, unlinked, without,
};
use crate::random::{pick_weighted, shuffle};
#[allow(unused_imports)]
use crate::random::weight_sum;

verus! {

// ---------------------------------------------------------------------------
// Spanning forests of graphs
// ---------------------------------------------------------------------------
/// The labelling does not change along the lists.
pub open spec fn respects(lists: Seq<Seq<usize>>, c: spec_fn(usize) -> int) -> bool {
    forall|u: usize, v: usize|
        #![trigger lists[u as int].contains(v)]
        u < lists.len() && lists[u as int].contains(v) ==> c(u) == c(v)
}

/// The vertices were reached in this order, each by at most one link to an earlier
/// one: the lists form a forest.
pub open spec fn grown_in_order(lists: Seq<Seq<usize>>, order: Seq<usize>) -> bool {
    &&& order.no_duplicates()
    &&& forall|k: int| 0 <= k < order.len() ==> #[trigger] order[k] < lists.len()
    &&& forall|k: int, i: int, j: int|
        #![trigger lists[order[k] as int].contains(order[i]), lists[order[k] as int].contains(
            order[j],
        )]
        0 <= i < k && 0 <= j < k && k < order.len() && lists[order[k] as int].contains(order[i])
            && lists[order[k] as int].contains(order[j]) ==> i == j
}

/// The lists link both ways, each neighbour once, and only along edges.
pub open spec fn links_of(lists: Seq<Seq<usize>>, edges: Seq<Edge>) -> bool {
    &&& forall|u: usize, v: usize|
        #![trigger lists[u as int].contains(v)]
        u < lists.len() && lists[u as int].contains(v) ==> v < lists.len()
            && lists[v as int].contains(u) && joined(edges, u, v)
    &&& forall|u: int| 0 <= u < lists.len() ==> (#[trigger] lists[u]).no_duplicates()
}

/// The lists are a spanning forest of the graph: a forest along its edges that has
/// the same connected components.
pub open spec fn spanning_forest_of(g: GraphModel, lists: Seq<Seq<usize>>) -> bool {
    &&& lists.len() == g.nodes
    &&& links_of(lists, g.edges)
    &&& exists|order: Seq<usize>| order.len() == g.nodes && #[trigger] grown_in_order(lists, order)
    &&& forall|c: spec_fn(usize) -> int, u: usize, v: usize|
        #![trigger respects(lists, c), joined(g.edges, u, v)]
        respects(lists, c) && joined(g.edges, u, v) && u < g.nodes && v < g.nodes ==> c(u) == c(v)
}

/// Each vertex has the smallest vertex of its component for its root, and a depth that
/// is its distance from there: no edge skips a depth, and the links of the forest lead
/// one depth up or down, at least one of them up from every vertex but a root.
pub open spec fn layered(
    g: GraphModel,
    lists: Seq<Seq<usize>>,
    root: Seq<usize>,
    depth: Seq<nat>,
) -> bool {
    &&& root.len() == g.nodes
    &&& depth.len() == g.nodes
    &&& forall|v: int|
        0 <= v < g.nodes ==> (#[trigger] depth[v] == 0 <==> root[v] == v) && root[v] <= v
    &&& forall|u: usize, v: usize|
        u < g.nodes && v < g.nodes && #[trigger] joined(g.edges, u, v) ==> root[u as int]
            == root[v as int] && depth[u as int] <= depth[v as int] + 1
    &&& forall|u: usize, v: usize|
        #![trigger lists[u as int].contains(v)]
        u < g.nodes && lists[u as int].contains(v) ==> depth[u as int] == depth[v as int] + 1
            || depth[v as int] == depth[u as int] + 1
    &&& forall|v: usize|
        v < g.nodes && #[trigger] depth[v as int] > 0 ==> leads_up(lists, depth, v)
}

/// A link leads from `v` one depth up.
pub open spec fn leads_up(lists: Seq<Seq<usize>>, depth: Seq<nat>, v: usize) -> bool {
    exists|u: usize| #[trigger] lists[v as int].contains(u) && depth[u as int] + 1 == depth[v as int]
}

/// A spanning forest that grows breadth first from the smallest vertex of each component.
pub open spec fn breadth_first_forest(g: GraphModel, lists: Seq<Seq<usize>>) -> bool {
    &&& spanning_forest_of(g, lists)
    &&& exists|root: Seq<usize>, depth: Seq<nat>| #[trigger] layered(g, lists, root, depth)
}

/// The depth of a vertex is its distance from its root: no walk along edges from there is
/// shorter.
pub proof fn law_depth_is_distance(
    g: GraphModel,
    lists: Seq<Seq<usize>>,
    root: Seq<usize>,
    depth: Seq<nat>,
    walk: Seq<usize>,
)
    requires
        layered(g, lists, root, depth),
        walk.len() > 0,
        forall|k: int| 0 <= k < walk.len() ==> #[trigger] walk[k] < g.nodes,
        forall|k: int| 0 <= k < walk.len() - 1 ==> joined(g.edges, #[trigger] walk[k], walk[k + 1]),
        walk[0] == root[walk[0] as int],
    ensures
        root[walk.last() as int] == walk[0],
        depth[walk.last() as int] < walk.len(),
    decreases walk.len(),
{
    let n = walk.len();
    assert(walk[n - 1] < g.nodes);
    if n > 1 {
        let front = walk.drop_last();
        assert forall|k: int| 0 <= k < front.len() implies #[trigger] front[k] < g.nodes by {
            assert(front[k] == walk[k]);
        }
        assert forall|k: int| 0 <= k < front.len() - 1 implies joined(
            g.edges,
            #[trigger] front[k],
            front[k + 1],
        ) by {
            assert(front[k] == walk[k] && front[k + 1] == walk[k + 1]);
        }
        law_depth_is_distance(g, lists, root, depth, front);
        assert(joined(g.edges, walk[n - 2], walk[n - 2 + 1]));
        assert(joined(g.edges, walk[n - 1], walk[n - 2]));
    } else {
        assert(depth[walk[0] as int] == 0);
    }
}

/// What the breadth-first growth has done so far.
struct Growth {
    forest: SpanningForest,
    visited: Vec<bool>,
    queue: Vec<usize>,
    root: Ghost<Map<usize, usize>>,
    depth: Ghost<Map<usize, nat>>,
}

impl Growth {
    spec fn holds(self, g: GraphModel) -> bool {
        &&& self.forest@.len() == g.nodes
        &&& self.visited@.len() == g.nodes
        &&& links_of(self.forest@, g.edges)
        &&& grown_in_order(self.forest@, self.queue@)
        &&& forall|v: usize|
            v < g.nodes ==> (#[trigger] self.visited@[v as int] <==> self.queue@.contains(v))
        &&& forall|u: usize, v: usize|
            #![trigger self.forest@[u as int].contains(v)]
            u < g.nodes && self.forest@[u as int].contains(v) ==> self.queue@.contains(u)
        &&& forall|c: spec_fn(usize) -> int, k: int|
            #![trigger respects(self.forest@, c), self.queue@[k]]
            respects(self.forest@, c) && 0 <= k < self.queue@.len() ==> c(self.queue@[k]) == c(
                self.root@[self.queue@[k]],
            )
        &&& forall|u: usize, v: usize|
            #![trigger self.forest@[u as int].contains(v)]
            u < g.nodes && self.forest@[u as int].contains(v) ==> self.depth@[u] == self.depth@[v]
                + 1 || self.depth@[v] == self.depth@[u] + 1
        &&& forall|k: int|
            0 <= k < self.queue@.len() ==> self.placed(#[trigger] self.queue@[k])
    }

    /// The root of `v` is no larger, and a link leads up from `v` unless it is its root.
    spec fn placed(self, v: usize) -> bool {
        &&& self.root@[v] <= v
        &&& self.depth@[v] == 0 <==> self.root@[v] == v
        &&& self.depth@[v] > 0 ==> exists|u: usize| #[trigger]
            self.forest@[v as int].contains(u) && self.depth@[u] + 1 == self.depth@[v]
    }

    /// All neighbours of `x` were reached in the same tree.
    spec fn closed_at(self, g: GraphModel, x: usize) -> bool {
        forall|y: usize|
            y < g.nodes && #[trigger] joined(g.edges, x, y) ==> self.queue@.contains(y)
                && self.root@[y] == self.root@[x] && self.depth@[y] <= self.depth@[x] + 1
    }
}

/// Reach `y` from `x`.
fn reach(g: &AncillaGraph, s: &mut Growth, x: usize, y: usize)
    requires
        old(s).holds(g@),
        x < g@.nodes,
        y < g@.nodes,
        old(s).queue@.contains(x),
        !old(s).queue@.contains(y),
        joined(g@.edges, x, y),
        old(s).root@[x] < y,
    ensures
        final(s).holds(g@),
        final(s).queue@ == old(s).queue@.push(y),
        final(s).root@ == old(s).root@.insert(y, old(s).root@[x]),
        final(s).depth@ == old(s).depth@.insert(y, old(s).depth@[x] + 1),
{
    let ghost s0 = *s;
    let ghost lists0 = s.forest@;
    let ghost order0 = s.queue@;
    let ghost root0 = s.root@;
    let ghost depth0 = s.depth@;
    let ghost edges = g@.edges;
    s.visited.set(y, true);
    s.forest.add_edge(x, y);
    s.queue.push(y);
    proof {
        s.root@ = root0.insert(y, root0[x]);
        s.depth@ = depth0.insert(y, depth0[x] + 1);
        let lists = s.forest@;
        let order = s.queue@;
        assert(x != y);
        lemma_linked(lists0, x, y);
        assert(joined(edges, y, x));
        assert(!lists0[x as int].contains(y)) by {
            if lists0[x as int].contains(y) {
                assert(lists0[y as int].contains(x));
            }
        }
        assert(!lists0[y as int].contains(x));
        assert(links_of(lists, edges));
        assert forall|k: int, i: int, j: int|
            #![trigger lists[order[k] as int].contains(order[i]), lists[order[k] as int].contains(
                order[j],
            )]
            0 <= i < k && 0 <= j < k && k < order.len() && lists[order[k] as int].contains(order[i])
                && lists[order[k] as int].contains(order[j]) implies i == j by {
            if k < order0.len() {
                assert(order[k] == order0[k] && order[i] == order0[i] && order[j] == order0[j]);
                assert(order0.contains(order[i]) && order0.contains(order[j]) && order0.contains(
                    order[k],
                ));
                assert(lists0[order0[k] as int].contains(order0[i]));
                assert(lists0[order0[k] as int].contains(order0[j]));
            } else {
                assert(order[k] == y);
                if lists0[y as int].contains(order[i]) || lists0[y as int].contains(order[j]) {
                    assert(order0.contains(y));
                }
                assert(order[i] == x && order[j] == x);
            }
        }
        assert forall|v: usize| v < g@.nodes implies (#[trigger] s.visited@[v as int]
            <==> order.contains(v)) by {
            if order0.contains(v) {
                assert(order[order0.index_of(v)] == v);
            }
            if order.contains(v) && v != y {
                assert(order0[order.index_of(v)] == v);
            }
            assert(order[order0.len() as int] == y);
        }
        assert forall|k: int| 0 <= k < order.len() implies #[trigger] order[k] < lists.len() by {
            if k < order0.len() {
                assert(order[k] == order0[k]);
            }
        }
        assert(order.no_duplicates()) by {
            assert forall|i: int, j: int|
                0 <= i < order.len() && 0 <= j < order.len() && i != j implies order[i]
                != order[j] by {
                if i < order0.len() {
                    assert(order0.contains(order0[i]));
                }
                if j < order0.len() {
                    assert(order0.contains(order0[j]));
                }
            }
        }
        assert forall|u: usize, v: usize|
            #![trigger lists[u as int].contains(v)]
            u < g@.nodes && lists[u as int].contains(v) implies order.contains(u) by {
            if lists0[u as int].contains(v) {
                assert(order0.contains(u));
                assert(order[order0.index_of(u)] == u);
            } else if u == x {
                assert(order[order0.index_of(x)] == x);
            } else {
                assert(order[order0.len() as int] == y);
            }
        }
        assert forall|c: spec_fn(usize) -> int, k: int|
            #![trigger respects(lists, c), order[k]]
            respects(lists, c) && 0 <= k < order.len() implies c(order[k]) == c(
            s.root@[order[k]],
        ) by {
            assert(respects(lists0, c)) by {
                assert forall|u: usize, v: usize|
                    #![trigger lists0[u as int].contains(v)]
                    u < lists0.len() && lists0[u as int].contains(v) implies c(u) == c(v) by {
                    assert(lists[u as int].contains(v));
                }
            }
            if k < order0.len() {
                assert(order[k] == order0[k]);
                assert(order0.contains(order0[k]));
            } else {
                assert(lists[x as int].contains(y));
                let i = order0.index_of(x);
                assert(order0[i] == x);
            }
        }
        assert forall|u: usize, v: usize|
            #![trigger lists[u as int].contains(v)]
            u < g@.nodes && lists[u as int].contains(v) implies s.depth@[u] == s.depth@[v] + 1
            || s.depth@[v] == s.depth@[u] + 1 by {
            if lists0[u as int].contains(v) {
                assert(lists0[v as int].contains(u));
                assert(order0.contains(u) && order0.contains(v));
            }
        }
        assert forall|k: int| 0 <= k < order.len() implies s.placed(#[trigger] order[k]) by {
            if k < order0.len() {
                let v = order0[k];
                assert(order[k] == v);
                assert(order0.contains(v));
                assert(s0.placed(order0[k]));
                if depth0[v] > 0 {
                    let u = choose|u: usize| #[trigger]
                        lists0[v as int].contains(u) && depth0[u] + 1 == depth0[v];
                    assert(lists0[u as int].contains(v));
                    assert(order0.contains(u));
                    assert(lists[v as int].contains(u));
                }
            } else {
                assert(lists[y as int].contains(x));
            }
        }
    }
}

/// What a new link changes.
pub(crate) proof fn lemma_linked(lists: Seq<Seq<usize>>, x: usize, y: usize)
    requires
        x < lists.len(),
        y < lists.len(),
        x != y,
    ensures
        linked(lists, x, y).len() == lists.len(),
        forall|u: usize, v: usize|
            #![trigger linked(lists, x, y)[u as int].contains(v)]
            u < lists.len() ==> (linked(lists, x, y)[u as int].contains(v)
                <==> lists[u as int].contains(v) || (u == x && v == y) || (u == y && v == x)),
        !lists[x as int].contains(y) && !lists[y as int].contains(x) && (forall|u: int|
            0 <= u < lists.len() ==> (#[trigger] lists[u]).no_duplicates()) ==> forall|u: int|
            0 <= u < lists.len() ==> (#[trigger] linked(lists, x, y)[u]).no_duplicates(),
{
    let after = linked(lists, x, y);
    assert forall|u: usize, v: usize|
        #![trigger after[u as int].contains(v)]
        u < lists.len() implies (after[u as int].contains(v) <==> lists[u as int].contains(v) || (u
        == x && v == y) || (u == y && v == x)) by {
        let row0 = lists[u as int];
        let row = after[u as int];
        if u == x {
            assert(row =~= row0.push(y));
            lemma_push_contains(row0, y, v);
        } else if u == y {
            assert(row =~= row0.push(x));
            lemma_push_contains(row0, x, v);
        }
    }
    if !lists[x as int].contains(y) && !lists[y as int].contains(x) && (forall|u: int|
        0 <= u < lists.len() ==> (#[trigger] lists[u]).no_duplicates()) {
        assert forall|u: int| 0 <= u < lists.len() implies (
        #[trigger] after[u]).no_duplicates() by {
            let row0 = lists[u];
            if u == x {
                assert(after[u] =~= row0.push(y));
                assert forall|i: int, j: int|
                    0 <= i < after[u].len() && 0 <= j < after[u].len() && i != j implies after[u][i]
                    != after[u][j] by {
                    if i < row0.len() {
                        assert(row0.contains(row0[i]));
                    }
                    if j < row0.len() {
                        assert(row0.contains(row0[j]));
                    }
                }
            } else if u == y {
                assert(after[u] =~= row0.push(x));
                assert forall|i: int, j: int|
                    0 <= i < after[u].len() && 0 <= j < after[u].len() && i != j implies after[u][i]
                    != after[u][j] by {
                    if i < row0.len() {
                        assert(row0.contains(row0[i]));
                    }
                    if j < row0.len() {
                        assert(row0.contains(row0[j]));
                    }
                }
            }
        }
    }
}

proof fn lemma_push_contains(s: Seq<usize>, a: usize, v: usize)
    ensures
        s.push(a).contains(v) <==> s.contains(v) || v == a,
{
    if s.contains(v) {
        assert(s.push(a)[s.index_of(v)] == v);
    }
    assert(s.push(a)[s.len() as int] == a);
    if s.push(a).contains(v) {
        let k = s.push(a).index_of(v);
        if k < s.len() {
            assert(s[k] == v);
        }
    }
}

/// A vertex is a neighbour exactly where it is joined.
pub proof fn lemma_neighbours(edges: Seq<Edge>, x: usize, y: usize)
    ensures
        neighbours_of(edges, x).contains(y) <==> joined(edges, x, y),
{
    let at = edges_at(edges, x);
    let ns = neighbours_of(edges, x);
    lemma_edges_at(edges, x);
    if ns.contains(y) {
        let i = ns.index_of(y);
        assert(touching(edges, x, at[i]));
        assert(ns[i] == far_end(edges[at[i]], x));
        assert(edges[at[i]] == (x, y) || edges[at[i]] == (y, x));
    }
    if joined(edges, x, y) {
        let e = if edges.contains((x, y)) {
            edges.index_of((x, y))
        } else {
            edges.index_of((y, x))
        };
        assert(touching(edges, x, e));
        let i = at.index_of(e);
        assert(ns[i] == y);
    }
}

/// Reach every neighbour of `x` that was not reached yet.
fn reach_neighbours(g: &AncillaGraph, s: &mut Growth, x: usize, Ghost(first): Ghost<int>)
    requires
        old(s).holds(g@),
        x < g@.nodes,
        old(s).queue@.contains(x),
        0 <= first <= old(s).queue@.len(),
        forall|k: int| 0 <= k < first ==> old(s).closed_at(g@, #[trigger] old(s).queue@[k]),
        forall|k: int|
            first <= k < old(s).queue@.len() ==> old(s).root@[#[trigger] old(s).queue@[k]]
                == old(s).root@[x] && old(s).depth@[old(s).queue@[k]] <= old(s).depth@[x] + 1,
        forall|k: int|
            0 <= k < first ==> old(s).root@[#[trigger] old(s).queue@[k]] != old(s).root@[x],
        forall|v: usize| v <= old(s).root@[x] ==> #[trigger] old(s).queue@.contains(v),
    ensures
        final(s).holds(g@),
        old(s).queue@.len() <= final(s).queue@.len(),
        forall|k: int| 0 <= k < old(s).queue@.len() ==> final(s).queue@[k] == old(s).queue@[k],
        forall|v: usize|
            old(s).queue@.contains(v) ==> #[trigger] final(s).root@[v] == old(s).root@[v],
        forall|v: usize|
            old(s).queue@.contains(v) ==> #[trigger] final(s).depth@[v] == old(s).depth@[v],
        forall|k: int|
            old(s).queue@.len() <= k < final(s).queue@.len()
                ==> final(s).root@[#[trigger] final(s).queue@[k]] == old(s).root@[x]
                && final(s).depth@[final(s).queue@[k]] == old(s).depth@[x] + 1,
        final(s).closed_at(g@, x),
{
    let ghost s0 = *s;
    let ns = g.neighbors(x);
    let mut i: usize = 0;
    while i < ns.len()
        invariant
            x < g@.nodes,
            ns@ == neighbours_of(g@.edges, x),
            forall|k: int| 0 <= k < ns@.len() ==> (#[trigger] ns@[k]) < g@.nodes,
            i <= ns@.len(),
            s0.queue@.contains(x),
            s.holds(g@),
            s0.queue@.len() <= s.queue@.len(),
            0 <= first <= s0.queue@.len(),
            forall|k: int| 0 <= k < first ==> s0.closed_at(g@, #[trigger] s0.queue@[k]),
            forall|k: int|
                first <= k < s0.queue@.len() ==> s0.root@[#[trigger] s0.queue@[k]] == s0.root@[x]
                    && s0.depth@[s0.queue@[k]] <= s0.depth@[x] + 1,
            forall|k: int| 0 <= k < first ==> s0.root@[#[trigger] s0.queue@[k]] != s0.root@[x],
            forall|v: usize| v <= s0.root@[x] ==> #[trigger] s0.queue@.contains(v),
            forall|k: int| 0 <= k < s0.queue@.len() ==> s.queue@[k] == s0.queue@[k],
            forall|v: usize| s0.queue@.contains(v) ==> #[trigger] s.root@[v] == s0.root@[v],
            forall|v: usize| s0.queue@.contains(v) ==> #[trigger] s.depth@[v] == s0.depth@[v],
            forall|k: int|
                s0.queue@.len() <= k < s.queue@.len() ==> s.root@[#[trigger] s.queue@[k]]
                    == s0.root@[x] && s.depth@[s.queue@[k]] == s0.depth@[x] + 1,
            forall|k: int|
                0 <= k < i ==> s.queue@.contains(#[trigger] ns@[k]) && s.root@[ns@[k]]
                    == s0.root@[x] && s.depth@[ns@[k]] <= s0.depth@[x] + 1,
        decreases ns@.len() - i,
    {
        let y = ns[i];
        let ghost before = *s;
        proof {
            assert(ns@.contains(y)) by {
                assert(ns@[i as int] == y);
            }
            lemma_neighbours(g@.edges, x, y);
            assert(s.queue@.contains(x)) by {
                assert(s.queue@[s0.queue@.index_of(x)] == x);
            }
        }
        if !s.visited[y] {
            proof {
                assert(!s0.queue@.contains(y)) by {
                    if s0.queue@.contains(y) {
                        assert(s.queue@[s0.queue@.index_of(y)] == y);
                    }
                }
                assert(s.root@[x] == s0.root@[x]);
            }
            reach(g, s, x, y);
            proof {
                assert(before.depth@[x] == s0.depth@[x]);
                assert forall|v: usize| s0.queue@.contains(v) implies #[trigger] s.depth@[v]
                    == s0.depth@[v] by {
                    let k = s0.queue@.index_of(v);
                    assert(before.queue@[k] == v);
                    assert(before.queue@.contains(v));
                    assert(before.depth@[v] == s0.depth@[v]);
                }
                assert forall|v: usize| s0.queue@.contains(v) implies #[trigger] s.root@[v]
                    == s0.root@[v] by {
                    let k = s0.queue@.index_of(v);
                    assert(before.queue@[k] == v);
                    assert(before.queue@.contains(v));
                    assert(before.root@[v] == s0.root@[v]);
                }
                assert(before.root@[x] == s0.root@[x]);
                assert forall|k: int|
                    s0.queue@.len() <= k < s.queue@.len() implies s.root@[#[trigger] s.queue@[k]]
                    == s0.root@[x] && s.depth@[s.queue@[k]] == s0.depth@[x] + 1 by {
                    if k < before.queue@.len() {
                        assert(s.queue@[k] == before.queue@[k]);
                        assert(before.queue@.contains(before.queue@[k]));
                        assert(before.root@[before.queue@[k]] == s0.root@[x]);
                    }
                }
                assert forall|k: int| 0 <= k < i + 1 implies s.queue@.contains(
                    #[trigger] ns@[k],
                ) && s.root@[ns@[k]] == s0.root@[x] && s.depth@[ns@[k]] <= s0.depth@[x] + 1 by {
                    if k < i {
                        assert(before.queue@.contains(ns@[k]));
                        let q = before.queue@.index_of(ns@[k]);
                        assert(s.queue@[q] == ns@[k]);
                        assert(ns@[k] != y);
                    } else {
                        assert(s.queue@[before.queue@.len() as int] == y);
                    }
                }
            }
        } else {
            proof {
                let k = s.queue@.index_of(y);
                assert(s.queue@[k] == y);
                if k < first {
                    assert(s0.queue@[k] == y);
                    assert(s0.closed_at(g@, s0.queue@[k]));
                    assert(joined(g@.edges, y, x));
                    assert(s0.root@[x] == s0.root@[y]);
                    assert(s0.queue@.contains(y));
                    assert(s.root@[y] == s0.root@[y]);
                } else if k < s0.queue@.len() {
                    assert(s0.queue@[k] == y);
                    assert(s0.queue@.contains(y));
                    assert(s.root@[y] == s0.root@[y]);
                    assert(s.depth@[y] == s0.depth@[y]);
                }
            }
        }
        i = i + 1;
    }
    proof {
        assert(s.root@[x] == s0.root@[x]);
        assert(s.depth@[x] == s0.depth@[x]);
        assert forall|y: usize| y < g@.nodes && #[trigger] joined(g@.edges, x, y) implies
            s.queue@.contains(y) && s.root@[y] == s.root@[x] && s.depth@[y] <= s.depth@[x] + 1 by {
            lemma_neighbours(g@.edges, x, y);
            let k = ns@.index_of(y);
            assert(ns@[k] == y);
        }
    }
}

/// A breadth-first spanning forest of the graph.
pub fn bfs_spanning_forest(g: &AncillaGraph) -> (r: SpanningForest)
    ensures
        breadth_first_forest(g@, r@),
{
    let n: usize = g.node_count();
    let mut visited: Vec<bool> = Vec::new();
    for i in 0..n
        invariant
            visited@.len() == i,
            forall|k: int| 0 <= k < i ==> !#[trigger] visited@[k],
    {
        visited.push(false);
    }
    let mut s = Growth {
        forest: SpanningForest::new(n),
        visited,
        queue: Vec::new(),
        root: Ghost(Map::empty()),
        depth: Ghost(Map::empty()),
    };
    let mut head: usize = 0;
    let mut start: usize = 0;
    while start < n
        invariant
            n == g@.nodes,
            start <= n,
            s.holds(g@),
            head == s.queue@.len(),
            forall|v: usize| v < start ==> #[trigger] s.queue@.contains(v),
            forall|k: int| 0 <= k < head ==> s.closed_at(g@, #[trigger] s.queue@[k]),
            forall|k: int| 0 <= k < head ==> s.root@[#[trigger] s.queue@[k]] < start,
        decreases n - start,
    {
        if !s.visited[start] {
            let ghost s0 = s;
            let ghost first = s.queue@.len() as int;
            plant(&mut s, start, Ghost(g@));
            proof {
                assert forall|k: int| 0 <= k < head implies s.closed_at(
                    g@,
                    #[trigger] s.queue@[k],
                ) by {
                    assert(s.queue@[k] == s0.queue@[k]);
                    assert(s0.queue@.contains(s0.queue@[k]));
                    lemma_still_closed(s0, s, g@, s0.queue@[k]);
                }
                assert forall|k: int| 0 <= k < first implies s.root@[#[trigger] s.queue@[k]]
                    < start by {
                    assert(s.queue@[k] == s0.queue@[k]);
                    assert(s0.queue@.contains(s0.queue@[k]));
                }
                assert forall|v: usize| v < start + 1 implies #[trigger] s.queue@.contains(v) by {
                    if v < start {
                        assert(s0.queue@.contains(v));
                        assert(s.queue@[s0.queue@.index_of(v)] == v);
                    } else {
                        assert(s.queue@[first] == start);
                    }
                }
            }
            while head < s.queue.len()
                invariant
                    n == g@.nodes,
                    start < n,
                    s.holds(g@),
                    0 <= first <= head <= s.queue@.len(),
                    first < s.queue@.len(),
                    forall|v: usize| v < start + 1 ==> #[trigger] s.queue@.contains(v),
                    forall|k: int| 0 <= k < head ==> s.closed_at(g@, #[trigger] s.queue@[k]),
                    forall|k: int|
                        first <= k < s.queue@.len() ==> s.root@[#[trigger] s.queue@[k]] == start,
                    forall|k: int| 0 <= k < first ==> s.root@[#[trigger] s.queue@[k]] < start,
                    forall|a: int, b: int|
                        #![trigger s.queue@[a], s.queue@[b]]
                        first <= a <= b < s.queue@.len() ==> s.depth@[s.queue@[a]]
                            <= s.depth@[s.queue@[b]],
                    head < s.queue@.len() ==> forall|b: int|
                        first <= b < s.queue@.len() ==> s.depth@[#[trigger] s.queue@[b]]
                            <= s.depth@[s.queue@[head as int]] + 1,
                decreases n - head,
            {
                let x = s.queue[head];
                let ghost s1 = s;
                proof {
                    assert(s.queue@[head as int] == x);
                    assert(s.queue@.contains(x));
                    let order = Seq::new(s.queue@.len(), |i: int| s.queue@[i] as int);
                    crate::coloring::lemma_distinct_below(order, n as nat);
                }
                reach_neighbours(g, &mut s, x, Ghost(first));
                proof {
                    assert forall|k: int| 0 <= k < head + 1 implies s.closed_at(
                        g@,
                        #[trigger] s.queue@[k],
                    ) by {
                        assert(s.queue@[k] == s1.queue@[k]);
                        if k < head {
                            lemma_still_closed(s1, s, g@, s1.queue@[k]);
                        }
                    }
                    assert forall|k: int| 0 <= k < s1.queue@.len() implies #[trigger] s.queue@[k]
                        == s1.queue@[k] && s.root@[s.queue@[k]] == s1.root@[s1.queue@[k]]
                        && s.depth@[s.queue@[k]] == s1.depth@[s1.queue@[k]] by {
                        assert(s1.queue@.contains(s1.queue@[k]));
                    }
                    let dx = s1.depth@[x];
                    assert forall|k: int|
                        s1.queue@.len() <= k < s.queue@.len() implies s.depth@[#[trigger] s.queue@[k]]
                        == dx + 1 by {}
                    assert forall|b: int| first <= b < s.queue@.len() implies s.depth@[#[trigger] s.queue@[b]]
                        <= dx + 1 by {
                        if b < s1.queue@.len() {
                            assert(s.queue@[b] == s1.queue@[b]);
                        }
                    }
                    assert forall|a: int, b: int|
                        #![trigger s.queue@[a], s.queue@[b]]
                        first <= a <= b < s.queue@.len() implies s.depth@[s.queue@[a]]
                        <= s.depth@[s.queue@[b]] by {
                        if b < s1.queue@.len() {
                            assert(s.queue@[a] == s1.queue@[a] && s.queue@[b] == s1.queue@[b]);
                            assert(s1.depth@[s1.queue@[a]] <= s1.depth@[s1.queue@[b]]);
                        }
                    }
                    if head + 1 < s.queue@.len() {
                        assert(s.depth@[s.queue@[head as int]] <= s.depth@[s.queue@[head + 1]]);
                        assert(s.queue@[head as int] == x);
                    }
                    assert forall|k: int|
                        first <= k < s.queue@.len() implies s.root@[#[trigger] s.queue@[k]]
                        == start by {
                        assert(s1.root@[x] == start);
                        if k < s1.queue@.len() {
                            assert(s.queue@[k] == s1.queue@[k]);
                            assert(s1.queue@.contains(s1.queue@[k]));
                            assert(s.root@[s1.queue@[k]] == s1.root@[s1.queue@[k]]);
                        }
                    }
                    assert forall|v: usize| v < start + 1 implies #[trigger] s.queue@.contains(
                        v,
                    ) by {
                        assert(s1.queue@.contains(v));
                        assert(s.queue@[s1.queue@.index_of(v)] == v);
                    }
                }
                head = head + 1;
            }
        }
        start = start + 1;
    }
    proof {
        lemma_all_reached(s, g@);
    }
    s.forest
}

proof fn lemma_still_closed(s0: Growth, s: Growth, g: GraphModel, x: usize)
    requires
        s0.closed_at(g, x),
        s0.queue@.contains(x),
        s0.queue@.len() <= s.queue@.len(),
        forall|k: int| 0 <= k < s0.queue@.len() ==> s.queue@[k] == s0.queue@[k],
        forall|v: usize| s0.queue@.contains(v) ==> #[trigger] s.root@[v] == s0.root@[v],
        forall|v: usize| s0.queue@.contains(v) ==> #[trigger] s.depth@[v] == s0.depth@[v],
    ensures
        s.closed_at(g, x),
{
    assert(s.depth@[x] == s0.depth@[x] && s.root@[x] == s0.root@[x]);
    assert forall|y: usize| y < g.nodes && #[trigger] joined(g.edges, x, y) implies
        s.queue@.contains(y) && s.root@[y] == s.root@[x] && s.depth@[y] <= s.depth@[x] + 1 by {
        assert(s0.queue@.contains(y));
        assert(s.depth@[y] == s0.depth@[y]);
        assert(s.queue@[s0.queue@.index_of(y)] == y);
    }
}

/// Start a new tree.
fn plant(s: &mut Growth, v: usize, Ghost(g): Ghost<GraphModel>)
    requires
        old(s).holds(g),
        v < g.nodes,
        !old(s).queue@.contains(v),
    ensures
        final(s).holds(g),
        final(s).queue@ == old(s).queue@.push(v),
        final(s).root@ == old(s).root@.insert(v, v),
        final(s).depth@ == old(s).depth@.insert(v, 0),
{
    let ghost s0 = *s;
    let ghost order0 = s.queue@;
    let ghost root0 = s.root@;
    let ghost depth0 = s.depth@;
    s.visited.set(v, true);
    s.queue.push(v);
    proof {
        s.root@ = root0.insert(v, v);
        s.depth@ = depth0.insert(v, 0);
        let order = s.queue@;
        let lists = s.forest@;
        assert forall|u: usize| #[trigger] order.contains(u) <==> order0.contains(u) || u == v by {
            lemma_push_contains(order0, v, u);
        }
        assert forall|i: int, j: int|
            0 <= i < order.len() && 0 <= j < order.len() && i != j implies order[i] != order[j] by {
            if i < order0.len() {
                assert(order0.contains(order0[i]));
            }
            if j < order0.len() {
                assert(order0.contains(order0[j]));
            }
        }
        assert forall|k: int| 0 <= k < order.len() implies #[trigger] order[k] < lists.len() by {
            if k < order0.len() {
                assert(order[k] == order0[k]);
            }
        }
        assert forall|k: int, i: int, j: int|
            #![trigger lists[order[k] as int].contains(order[i]), lists[order[k] as int].contains(
                order[j],
            )]
            0 <= i < k && 0 <= j < k && k < order.len() && lists[order[k] as int].contains(order[i])
                && lists[order[k] as int].contains(order[j]) implies i == j by {
            if k < order0.len() {
                assert(order[k] == order0[k] && order[i] == order0[i] && order[j] == order0[j]);
                assert(lists[order0[k] as int].contains(order0[i]));
            }
        }
        assert forall|c: spec_fn(usize) -> int, k: int|
            #![trigger respects(lists, c), order[k]]
            respects(lists, c) && 0 <= k < order.len() implies c(order[k]) == c(
            s.root@[order[k]],
        ) by {
            if k < order0.len() {
                assert(order[k] == order0[k]);
                assert(order0.contains(order0[k]));
            }
        }
        assert forall|a: usize, b: usize|
            #![trigger lists[a as int].contains(b)]
            a < g.nodes && lists[a as int].contains(b) implies s.depth@[a] == s.depth@[b] + 1
            || s.depth@[b] == s.depth@[a] + 1 by {
            assert(lists[b as int].contains(a));
            assert(order0.contains(a) && order0.contains(b));
        }
        assert forall|k: int| 0 <= k < order.len() implies s.placed(#[trigger] order[k]) by {
            if k < order0.len() {
                let x = order0[k];
                assert(order[k] == x);
                assert(order0.contains(x));
                assert(s0.placed(order0[k]));
                if depth0[x] > 0 {
                    let u = choose|u: usize| #[trigger]
                        lists[x as int].contains(u) && depth0[u] + 1 == depth0[x];
                    assert(lists[u as int].contains(x));
                    assert(order0.contains(u));
                    assert(lists[x as int].contains(u));
                }
            }
        }
    }
}

proof fn lemma_all_reached(s: Growth, g: GraphModel)
    requires
        s.holds(g),
        forall|v: usize| v < g.nodes ==> #[trigger] s.queue@.contains(v),
        forall|k: int| 0 <= k < s.queue@.len() ==> s.closed_at(g, #[trigger] s.queue@[k]),
        g.nodes <= usize::MAX,
    ensures
        breadth_first_forest(g, s.forest@),
{
    let order = s.queue@;
    let lists = s.forest@;
    let root = Seq::new(g.nodes, |v: int| s.root@[v as usize]);
    let depth = Seq::new(g.nodes, |v: int| s.depth@[v as usize]);
    assert(layered(g, lists, root, depth)) by {
        assert forall|v: usize| v < g.nodes implies #[trigger] s.placed(v) && s.closed_at(g, v) by {
            assert(s.queue@.contains(v));
            let k = order.index_of(v);
            assert(s.placed(order[k]) && s.closed_at(g, order[k]));
        }
        assert forall|v: int| 0 <= v < g.nodes implies (#[trigger] depth[v] == 0 <==> root[v] == v)
            && root[v] <= v by {
            assert(s.placed(v as usize));
        }
        assert forall|u: usize, v: usize|
            u < g.nodes && v < g.nodes && #[trigger] joined(g.edges, u, v) implies root[u as int]
            == root[v as int] && depth[u as int] <= depth[v as int] + 1 by {
            assert(s.placed(u) && s.placed(v));
            assert(joined(g.edges, v, u));
        }
        assert forall|v: usize| v < g.nodes && #[trigger] depth[v as int] > 0 implies leads_up(
            lists,
            depth,
            v,
        ) by {
            assert(s.placed(v));
            let u = choose|u: usize| #[trigger]
                s.forest@[v as int].contains(u) && s.depth@[u] + 1 == s.depth@[v];
            assert(lists[v as int].contains(u));
        }
    }
    let ints = Seq::new(order.len(), |i: int| order[i] as int);
    crate::coloring::lemma_distinct_below(ints, g.nodes);
    assert(order.len() >= g.nodes) by {
        let all = Seq::new(g.nodes, |i: int| order.index_of(i as usize));
        assert forall|i: int| 0 <= i < all.len() implies 0 <= #[trigger] all[i] < order.len() by {
            assert(order.contains(i as usize));
        }
        assert(all.no_duplicates()) by {
            assert forall|i: int, j: int|
                0 <= i < all.len() && 0 <= j < all.len() && i != j implies all[i] != all[j] by {
                assert(order.contains(i as usize) && order.contains(j as usize));
                assert(order[all[i]] == i as usize);
                assert(order[all[j]] == j as usize);
            }
        }
        crate::coloring::lemma_distinct_below(all, order.len());
    }
    assert(grown_in_order(lists, order));
    assert forall|c: spec_fn(usize) -> int, u: usize, v: usize|
        #![trigger respects(lists, c), joined(g.edges, u, v)]
        respects(lists, c) && joined(g.edges, u, v) && u < g.nodes && v < g.nodes implies c(u)
        == c(v) by {
        assert(order.contains(u) && order.contains(v));
        let i = order.index_of(u);
        let j = order.index_of(v);
        assert(s.closed_at(g, order[i]));
        assert(s.root@[v] == s.root@[u]);
        assert(c(order[i]) == c(s.root@[order[i]]));
        assert(c(order[j]) == c(s.root@[order[j]]));
    }
}

// ---------------------------------------------------------------------------
// Degrees
// ---------------------------------------------------------------------------
/// The number of edges at `v`.
pub open spec fn degree_of(edges: Seq<Edge>, v: usize) -> nat {
    neighbours_of(edges, v).len()
}

/// The degree of `v`.
pub fn degree(g: &AncillaGraph, v: usize) -> (r: usize)
    requires
        v < g@.nodes,
    ensures
        r == degree_of(g@.edges, v),
        r <= g@.edges.len(),
{
    let ns = g.neighbors(v);
    proof {
        lemma_degree_bound(g@.edges, v);
    }
    ns.len()
}

proof fn lemma_degree_bound(edges: Seq<Edge>, v: usize)
    ensures
        degree_of(edges, v) <= edges.len(),
{
    lemma_edges_at(edges, v);
    let at = edges_at(edges, v);
    assert forall|i: int| 0 <= i < at.len() implies 0 <= #[trigger] at[i] < edges.len() by {
        assert(touching(edges, v, at[i]));
    }
    crate::coloring::lemma_distinct_below(at, edges.len());
}

/// One more edge between two vertices adds one to both degrees.
proof fn lemma_degree_push(edges: Seq<Edge>, a: usize, b: usize, v: usize)
    requires
        a != b,
    ensures
        degree_of(edges.push((a, b)), v) == degree_of(edges, v) + if v == a || v == b {
            1nat
        } else {
            0nat
        },
{
    let more = edges.push((a, b));
    assert(more.drop_last() =~= edges);
}

/// The highest degree among the first `n` vertices.
pub open spec fn max_degree(edges: Seq<Edge>, n: int) -> nat
    decreases n,
{
    if n <= 0 {
        0
    } else {
        let rest = max_degree(edges, n - 1);
        let last = degree_of(edges, (n - 1) as usize);
        if last > rest {
            last
        } else {
            rest
        }
    }
}

proof fn lemma_max_degree(edges: Seq<Edge>, n: int)
    requires
        n <= usize::MAX + 1,
    ensures
        forall|v: usize| v < n ==> #[trigger] degree_of(edges, v) <= max_degree(edges, n),
        max_degree(edges, n) <= edges.len(),
    decreases n,
{
    if n > 0 {
        lemma_max_degree(edges, n - 1);
        lemma_degree_bound(edges, (n - 1) as usize);
        assert forall|v: usize| v < n implies #[trigger] degree_of(edges, v) <= max_degree(
            edges,
            n,
        ) by {
            if v < n - 1 {
                assert(degree_of(edges, v) <= max_degree(edges, n - 1));
            }
        }
    }
}

/// The highest degree in the graph.
fn highest_degree(g: &AncillaGraph) -> (r: usize)
    ensures
        r == max_degree(g@.edges, g@.nodes as int),
{
    let n: usize = g.node_count();
    let mut best: usize = 0;
    for v in 0..n
        invariant
            n == g@.nodes,
            best == max_degree(g@.edges, v as int),
    {
        let d = degree(g, v);
        if d > best {
            best = d;
        }
    }
    best
}

// ---------------------------------------------------------------------------
// Growing
// ---------------------------------------------------------------------------
/// `g` is `g0` with new edges between vertices that were not joined before.
pub open spec fn grown_from(g0: GraphModel, g: GraphModel) -> bool {
    &&& g.nodes == g0.nodes
    &&& g0.edges.len() <= g.edges.len()
    &&& g.edges.take(g0.edges.len() as int) == g0.edges
    &&& forall|k: int|
        g0.edges.len() <= k < g.edges.len() ==> {
            &&& (#[trigger] g.edges[k]).0 < g.nodes
            &&& g.edges[k].1 < g.nodes
            &&& g.edges[k].0 != g.edges[k].1
            &&& !joined(g.edges.take(k), g.edges[k].0, g.edges[k].1)
        }
}

/// How many edges the construction can add at most: one for each pair of vertices,
/// and no more than bring every vertex to the highest degree and join a matching in
/// every round.
pub open spec fn growth_bound(g: GraphModel, rounds: int) -> int {
    let pairs = (g.nodes * g.nodes) as int;
    let drawn = g.nodes * max_degree(g.edges, g.nodes as int) + g.nodes * rounds;
    if pairs < drawn {
        pairs
    } else {
        drawn
    }
}

/// There is room for the edges that `rounds` rounds may add, and for the weights by
/// which pairs are drawn.
pub open spec fn room_to_grow(g: GraphModel, rounds: int) -> bool {
    let lack = g.nodes * max_degree(g.edges, g.nodes as int);
    &&& g.edges.len() + growth_bound(g, rounds) <= u32::MAX
    &&& lack * lack <= usize::MAX
}

// ---------------------------------------------------------------------------
// Rounds of matchings
// ---------------------------------------------------------------------------
/// The order lists every vertex once.
pub open spec fn vertex_order(n: nat, order: Seq<usize>) -> bool {
    &&& order.len() == n
    &&& order.no_duplicates()
    &&& forall|k: int| 0 <= k < order.len() ==> #[trigger] order[k] < n
}

/// The edges after the first `k` pairs of neighbours in the order were joined, where
/// they were not.
pub open spec fn pairs_joined(edges: Seq<Edge>, order: Seq<usize>, k: int) -> Seq<Edge>
    decreases k,
{
    if k <= 0 {
        edges
    } else {
        let before = pairs_joined(edges, order, k - 1);
        let (i, j) = (order[2 * k - 2], order[2 * k - 1]);
        if joined(before, i, j) {
            before
        } else {
            before.push((i, j))
        }
    }
}

/// The edges after a round of matching for each of the orders.
pub open spec fn rounds_joined(edges: Seq<Edge>, orders: Seq<Seq<usize>>) -> Seq<Edge>
    decreases orders.len(),
{
    if orders.len() == 0 {
        edges
    } else {
        pairs_joined(
            rounds_joined(edges, orders.drop_last()),
            orders.last(),
            orders.last().len() as int / 2,
        )
    }
}

/// `g` is `g0` with new edges, each between two unjoined vertices below the highest
/// degree of `g0`.
pub open spec fn regularly_grown(g0: GraphModel, g: GraphModel) -> bool {
    &&& grown_from(g0, g)
    &&& forall|k: int|
        g0.edges.len() <= k < g.edges.len() ==> below_top(g0, g.edges.take(k), #[trigger] g.edges[k])
}

/// Both ends are below the highest degree of `g0`.
pub open spec fn below_top(g0: GraphModel, edges: Seq<Edge>, e: Edge) -> bool {
    &&& degree_of(edges, e.0) < max_degree(g0.edges, g0.nodes as int)
    &&& degree_of(edges, e.1) < max_degree(g0.edges, g0.nodes as int)
}

/// The construction ran to its end: first edges between vertices below the highest
/// degree, until no two of these are unjoined; then `rounds` rounds of matching, each
/// along an order of the vertices.
pub open spec fn grown_in_full(g0: GraphModel, g: GraphModel, rounds: int) -> bool {
    exists|mid: GraphModel, orders: Seq<Seq<usize>>|
        {
            &&& regularly_grown(g0, mid)
            &&& regularized(g0, mid)
            &&& orders.len() == rounds
            &&& forall|t: int| 0 <= t < orders.len() ==> vertex_order(g0.nodes, #[trigger] orders[t])
            &&& g.nodes == g0.nodes
            &&& g.edges == #[trigger] rounds_joined(mid.edges, orders)
        }
}

/// The construction stopped on the way: among the edges between vertices below the
/// highest degree, or within one of the rounds of matching.
pub open spec fn grown_in_part(g0: GraphModel, g: GraphModel, rounds: int) -> bool {
    ||| regularly_grown(g0, g)
    ||| exists|mid: GraphModel, orders: Seq<Seq<usize>>, order: Seq<usize>, k: int|
        {
            &&& regularly_grown(g0, mid)
            &&& regularized(g0, mid)
            &&& orders.len() < rounds
            &&& forall|t: int| 0 <= t < orders.len() ==> vertex_order(g0.nodes, #[trigger] orders[t])
            &&& vertex_order(g0.nodes, order)
            &&& 0 < k <= order.len() as int / 2
            &&& g.nodes == g0.nodes
            &&& g.edges == #[trigger] pairs_joined(rounds_joined(mid.edges, orders), order, k)
        }
}

proof fn lemma_pairs_keep(edges: Seq<Edge>, order: Seq<usize>, k: int, a: usize, b: usize)
    requires
        joined(edges, a, b),
    ensures
        joined(pairs_joined(edges, order, k), a, b),
    decreases k,
{
    if k > 0 {
        lemma_pairs_keep(edges, order, k - 1, a, b);
        let before = pairs_joined(edges, order, k - 1);
        lemma_joined_push(before, (order[2 * k - 2], order[2 * k - 1]), a, b);
    }
}

proof fn lemma_pairs_joined(edges: Seq<Edge>, order: Seq<usize>, k: int, q: int)
    requires
        0 <= q < k,
    ensures
        joined(pairs_joined(edges, order, k), order[2 * q], order[2 * q + 1]),
    decreases k,
{
    let before = pairs_joined(edges, order, k - 1);
    let (i, j) = (order[2 * k - 2], order[2 * k - 1]);
    if q == k - 1 {
        lemma_joined_push(before, (i, j), i, j);
    } else {
        lemma_pairs_joined(edges, order, k - 1, q);
        lemma_joined_push(before, (i, j), order[2 * q], order[2 * q + 1]);
    }
}

/// Every round of matching leaves its pairs joined: after all rounds, the vertices at
/// positions `2q` and `2q + 1` of every order are joined.
pub proof fn law_rounds_join_their_pairs(
    edges: Seq<Edge>,
    orders: Seq<Seq<usize>>,
    t: int,
    q: int,
)
    requires
        0 <= t < orders.len(),
        0 <= q < orders[t].len() as int / 2,
    ensures
        joined(rounds_joined(edges, orders), orders[t][2 * q], orders[t][2 * q + 1]),
    decreases orders.len(),
{
    let front = orders.drop_last();
    let before = rounds_joined(edges, front);
    let half = orders.last().len() as int / 2;
    if t == orders.len() - 1 {
        lemma_pairs_joined(before, orders.last(), half, q);
    } else {
        law_rounds_join_their_pairs(edges, front, t, q);
        assert(front[t] == orders[t]);
        lemma_pairs_keep(before, orders.last(), half, orders[t][2 * q], orders[t][2 * q + 1]);
    }
}

/// The sum of the degrees grows by two with every new edge.
proof fn lemma_degree_sum(g0: GraphModel, g: GraphModel, k: int)
    requires
        grown_from(g0, g),
        g.nodes <= usize::MAX,
        g0.edges.len() <= k <= g.edges.len(),
        forall|t: int|
            0 <= t < g.edges.len() ==> (#[trigger] g.edges[t]).0 < g.nodes && g.edges[t].1 < g.nodes,
    ensures
        2 * (k - g0.edges.len()) <= sum_below(
            g.nodes as int,
            |v: int| degree_of(g.edges.take(k), v as usize),
        ),
    decreases k,
{
    if k > g0.edges.len() {
        lemma_degree_sum(g0, g, k - 1);
        let (a, b) = g.edges[k - 1];
        let before = g.edges.take(k - 1);
        let now = g.edges.take(k);
        assert(now =~= before.push((a, b)));
        let f = |v: int| degree_of(now, v as usize);
        let h = |v: int| degree_of(before, v as usize);
        let extra = |v: int|
            if v == a || v == b {
                1nat
            } else {
                0nat
            };
        assert forall|v: int| 0 <= v < g.nodes implies #[trigger] f(v) == h(v) + extra(v) by {
            lemma_degree_push(before, a, b, v as usize);
        }
        lemma_sum_add(g.nodes as int, f, h, extra);
        lemma_sum_two(g.nodes as int, extra, a as int, b as int);
    }
}

proof fn lemma_sum_at_most(n: int, f: spec_fn(int) -> nat, top: nat)
    requires
        0 <= n,
        forall|v: int| 0 <= v < n ==> #[trigger] f(v) <= top,
    ensures
        sum_below(n, f) <= n * top,
    decreases n,
{
    if n > 0 {
        lemma_sum_at_most(n - 1, f, top);
        assert(f(n - 1) <= top);
        assert(n * top == (n - 1) * top + top) by (nonlinear_arith);
    } else {
        assert(n * top == 0) by (nonlinear_arith)
            requires
                n == 0,
        ;
    }
}

/// As long as no degree is above `top`, fewer edges were added than bring every vertex
/// to that degree.
proof fn lemma_added_bounded(g0: GraphModel, g: GraphModel, top: nat)
    requires
        grown_from(g0, g),
        g.nodes <= usize::MAX,
        forall|t: int|
            0 <= t < g.edges.len() ==> (#[trigger] g.edges[t]).0 < g.nodes && g.edges[t].1 < g.nodes,
        forall|v: usize| v < g.nodes ==> #[trigger] degree_of(g.edges, v) <= top,
    ensures
        2 * (g.edges.len() - g0.edges.len()) <= g.nodes * top,
{
    let k = g.edges.len() as int;
    lemma_degree_sum(g0, g, k);
    assert(g.edges.take(k) =~= g.edges);
    let f = |v: int| degree_of(g.edges.take(k), v as usize);
    assert forall|v: int| 0 <= v < g.nodes implies #[trigger] f(v) <= top by {
        assert(degree_of(g.edges, v as usize) <= top);
    }
    lemma_sum_at_most(g.nodes as int, f, top);
}

proof fn lemma_regularly_push(g0: GraphModel, g: GraphModel, i: usize, j: usize)
    requires
        regularly_grown(g0, g),
        i < g.nodes,
        j < g.nodes,
        i != j,
        !joined(g.edges, i, j),
        below_top(g0, g.edges, (i, j)),
    ensures
        regularly_grown(g0, (GraphModel { nodes: g.nodes, edges: g.edges.push((i, j)) })),
{
    lemma_grown_push(g0, g, i, j);
    let more = g.edges.push((i, j));
    assert forall|k: int| g0.edges.len() <= k < more.len() implies below_top(
        g0,
        more.take(k),
        #[trigger] more[k],
    ) by {
        if k < g.edges.len() {
            assert(more.take(k) =~= g.edges.take(k));
            assert(more[k] == g.edges[k]);
        } else {
            assert(more.take(k) =~= g.edges);
        }
    }
}

/// Edges added between unjoined vertices are never more than there are pairs.
proof fn lemma_growth_bounded(g0: GraphModel, g: GraphModel)
    requires
        grown_from(g0, g),
        forall|k: int|
            0 <= k < g.edges.len() ==> (#[trigger] g.edges[k]).0 < g.nodes && g.edges[k].1 < g.nodes,
    ensures
        g.edges.len() - g0.edges.len() <= g.nodes * g.nodes,
{
    let m = g0.edges.len() as int;
    let n = g.nodes as int;
    let codes = Seq::new(
        (g.edges.len() - m) as nat,
        |k: int| g.edges[m + k].0 * n + g.edges[m + k].1,
    );
    assert forall|k: int| 0 <= k < codes.len() implies 0 <= #[trigger] codes[k] < n * n by {
        let e = g.edges[m + k];
        assert(e.0 < n && e.1 < n);
        let a = e.0 as int;
        let b = e.1 as int;
        assert(0 <= a * n + b < n * n) by (nonlinear_arith)
            requires
                0 <= a < n,
                0 <= b < n,
        ;
    }
    assert(codes.no_duplicates()) by {
        assert forall|i: int, j: int|
            0 <= i < codes.len() && 0 <= j < codes.len() && i != j implies codes[i] != codes[j] by {
            let lo = if i < j {
                m + i
            } else {
                m + j
            };
            let hi = if i < j {
                m + j
            } else {
                m + i
            };
            let e = g.edges[lo];
            let f = g.edges[hi];
            assert(e.0 < n && e.1 < n && f.0 < n && f.1 < n);
            assert(g.edges.take(hi)[lo] == e);
            assert(!joined(g.edges.take(hi), f.0, f.1));
            assert(e != f);
            let (a, b, c, d) = (e.0 as int, e.1 as int, f.0 as int, f.1 as int);
            assert(a * n + b != c * n + d) by (nonlinear_arith)
                requires
                    0 <= b < n,
                    0 <= d < n,
                    a != c || b != d,
            ;
        }
    }
    assert(n * n >= 0) by (nonlinear_arith);
    crate::coloring::lemma_distinct_below(codes, (n * n) as nat);
}

/// The layers after all cycles were placed, one after the other.
pub open spec fn all_placed(basis: Seq<Seq<Edge>>, max_load: nat) -> Seq<Seq<Seq<Edge>>>
    decreases basis.len(),
{
    if basis.len() == 0 {
        Seq::empty()
    } else {
        cycle_placed(all_placed(basis.drop_last(), max_load), basis.last(), max_load)
    }
}

/// Every cycle is closed and runs along edges of the graph.
pub open spec fn cycles_in(edges: Seq<Edge>, basis: Seq<Seq<Edge>>) -> bool {
    &&& forall|i: int| 0 <= i < basis.len() ==> two_regular(#[trigger] basis[i])
    &&& forall|i: int, e: Edge|
        #![trigger basis[i].contains(e)]
        0 <= i < basis.len() && basis[i].contains(e) ==> joined(edges, e.0, e.1)
}

/// Edges in strictly increasing order of their ends.
pub open spec fn edges_increase(edges: Seq<Edge>) -> bool {
    forall|i: int, j: int|
        #![trigger edges[i], edges[j]]
        0 <= i < j < edges.len() ==> edge_before(edges[i], edges[j])
}

pub open spec fn edge_before(e: Edge, f: Edge) -> bool {
    e.0 < f.0 || (e.0 == f.0 && e.1 < f.1)
}

/// Add an edge to increasing edges, unless it is there.
fn add_in_order(edges: &mut Vec<Edge>, e: Edge)
    requires
        edges_increase(old(edges)@),
    ensures
        edges_increase(final(edges)@),
        forall|f: Edge| #[trigger] final(edges)@.contains(f) <==> old(edges)@.contains(f) || f == e,
{
    let ghost before = edges@;
    let mut k: usize = 0;
    while k < edges.len() && (edges[k].0 < e.0 || (edges[k].0 == e.0 && edges[k].1 < e.1))
        invariant
            k <= edges@.len(),
            edges@ == before,
            forall|i: int| 0 <= i < k ==> edge_before(#[trigger] before[i], e),
        decreases edges@.len() - k,
    {
        k = k + 1;
    }
    if k < edges.len() && edges[k].0 == e.0 && edges[k].1 == e.1 {
        assert(before[k as int] == e);
    } else {
        edges.insert(k, e);
        proof {
            let after = edges@;
            assert forall|i: int, j: int|
                #![trigger after[i], after[j]]
                0 <= i < j < after.len() implies edge_before(after[i], after[j]) by {
                if j < k {
                    assert(after[i] == before[i] && after[j] == before[j]);
                } else if j == k {
                    assert(after[i] == before[i]);
                } else {
                    assert(after[j] == before[j - 1]);
                    assert(edge_before(e, before[k as int]));
                    assert(k == j - 1 || edge_before(before[k as int], before[j - 1]));
                    if i < k {
                        assert(after[i] == before[i]);
                    } else if i > k {
                        assert(after[i] == before[i - 1]);
                    }
                }
            }
            assert forall|f: Edge| #[trigger] after.contains(f) <==> before.contains(f) || f == e by {
                assert(after[k as int] == e);
                if before.contains(f) {
                    let i = before.index_of(f);
                    if i < k {
                        assert(after[i] == f);
                    } else {
                        assert(after[i + 1] == f);
                    }
                }
                if after.contains(f) {
                    let i = after.index_of(f);
                    if i < k {
                        assert(before[i] == f);
                    } else if i > k {
                        assert(before[i - 1] == f);
                    }
                }
            }
        }
    }
}

/// The edges of a graph, each once, with the smaller end first, in order.
pub open spec fn simple_edges(edges: Seq<Edge>, simple: Seq<Edge>) -> bool {
    &&& edges_increase(simple)
    &&& forall|e: Edge|
        #![trigger simple.contains(e)]
        simple.contains(e) <==> exists|k: int|
            0 <= k < edges.len() && e == canonical((#[trigger] edges[k]).0, edges[k].1)
}

/// The first cycles are a cycle basis of the graph.
pub open spec fn starts_with_basis(edges: Seq<Edge>, basis: Seq<Seq<Edge>>) -> bool {
    exists|simple: Seq<Edge>, k: int|
        0 <= k <= basis.len() && simple_edges(edges, simple) && #[trigger] is_cycle_basis(
            simple,
            basis.take(k),
        )
}

/// Two vertices below the highest degree of `g0` are joined.
pub open spec fn regularized(g0: GraphModel, g: GraphModel) -> bool {
    forall|i: usize, j: usize|
        #![trigger degree_of(g.edges, i), degree_of(g.edges, j)]
        i < j < g.nodes && degree_of(g.edges, i) < max_degree(g0.edges, g0.nodes as int)
            && degree_of(g.edges, j) < max_degree(g0.edges, g0.nodes as int) ==> joined(
            g.edges,
            i,
            j,
        )
}

// ---------------------------------------------------------------------------
// Runs
// ---------------------------------------------------------------------------
/// A moment of the construction: the edges so far, the forest as the last edge left it,
/// the cycles so far, and how many layers the expansion of the graph asks for.
#[verifier::ext_equal]
pub struct Moment {
    pub edges: Seq<Edge>,
    pub forest: Seq<Seq<usize>>,
    pub cycles: Seq<Seq<Edge>>,
    pub needed: usize,
}

impl Moment {
    /// The layers of the cycles reach those that the expansion asks for.
    pub open spec fn balanced(self, max_load: nat) -> bool {
        all_placed(self.cycles, max_load).len() >= self.needed
    }

    /// The graph of the moment.
    pub open spec fn graph(self, nodes: nat) -> GraphModel {
        GraphModel { nodes, edges: self.edges }
    }
}

/// Asked about the graph, `expansion` said `needed`.
pub open spec fn asked_for<F: Fn(&AncillaGraph) -> usize>(
    expansion: F,
    g: GraphModel,
    needed: usize,
) -> bool {
    exists|h: AncillaGraph| h@ == g && #[trigger] call_ensures(expansion, (&h,), needed)
}

/// The construction starts with the graph as given, a breadth-first forest of it, and a
/// cycle basis of low congestion.
pub open spec fn first_moment<F: Fn(&AncillaGraph) -> usize>(
    g0: GraphModel,
    expansion: F,
    m: Moment,
) -> bool {
    &&& m.edges == g0.edges
    &&& breadth_first_forest(g0, m.forest)
    &&& exists|simple: Seq<Edge>| #[trigger] simple_edges(g0.edges, simple) && decongested(
        g0.nodes,
        simple,
        m.cycles,
    )
    &&& asked_for(expansion, g0, m.needed)
}

/// After `steps` edges the forest is grown anew.
pub open spec fn renewed(reset_period: usize, steps: int) -> bool {
    steps > 0 && reset_period > 0 && steps % reset_period as int == 0
}

/// The forest by which the cycle of the next edge is found: that of the moment, or a
/// breadth-first forest of its graph where it is grown anew.
pub open spec fn forest_in_use(
    nodes: nat,
    renew: bool,
    m: Moment,
    forest: Seq<Seq<usize>>,
) -> bool {
    if renew {
        breadth_first_forest(m.graph(nodes), forest)
    } else {
        forest == m.forest
    }
}

/// One edge more: it updates the forest, and the cycle that it closes joins the others.
pub open spec fn next_moment<F: Fn(&AncillaGraph) -> usize>(
    nodes: nat,
    renew: bool,
    expansion: F,
    m: Moment,
    after: Moment,
) -> bool {
    &&& after.edges.len() == m.edges.len() + 1
    &&& after.edges.drop_last() == m.edges
    &&& asked_for(expansion, after.graph(nodes), after.needed)
    &&& exists|forest: Seq<Seq<usize>>, cycle: Option<Seq<Edge>>|
        forest_in_use(nodes, renew, m, forest) && #[trigger] forest_updated(
            forest,
            after.edges.last().0,
            after.edges.last().1,
            after.forest,
            cycle,
        ) && after.cycles == match cycle {
            Some(c) => m.cycles.push(c),
            None => m.cycles,
        }
}

/// A run of the construction, edge by edge: it goes on only from moments that are not
/// balanced, and grows the forest anew after every `reset_period` edges.
pub open spec fn is_run<F: Fn(&AncillaGraph) -> usize>(
    g0: GraphModel,
    reset_period: usize,
    max_load: nat,
    expansion: F,
    run: Seq<Moment>,
) -> bool {
    &&& run.len() > 0
    &&& first_moment(g0, expansion, run[0])
    &&& forall|t: int|
        0 <= t < run.len() - 1 ==> !(#[trigger] run[t]).balanced(max_load) && next_moment(
            g0.nodes,
            renewed(reset_period, t),
            expansion,
            run[t],
            run[t + 1],
        )
}

/// A grown graph with its cycles: the decongestion layers, and how many layers its
/// expansion asks for.
pub struct CongestionAwareExpander {
    pub graph: AncillaGraph,
    pub decongestion_layers: usize,
    pub needed: usize,
    pub cycle_basis: Vec<Vec<Edge>>,
    pub partition: CyclePartition,
}

impl CongestionAwareExpander {
    /// The construction ended at this moment.
    pub open spec fn left_at(self, m: Moment) -> bool {
        &&& self.graph@.edges == m.edges
        &&& cycle_views(self.cycle_basis@) == m.cycles
        &&& self.needed == m.needed
    }

    /// What holds of every outcome of the construction.
    pub open spec fn grown_with<F: Fn(&AncillaGraph) -> usize>(
        self,
        g0: GraphModel,
        reset_period: usize,
        max_load: nat,
        expansion: F,
    ) -> bool {
        &&& exists|run: Seq<Moment>| #[trigger]
            is_run(g0, reset_period, max_load, expansion, run) && self.left_at(run.last())
        &&& grown_from(g0, self.graph@)
        &&& cycles_in(self.graph@.edges, cycle_views(self.cycle_basis@))
        &&& starts_with_basis(g0.edges, cycle_views(self.cycle_basis@))
        &&& is_grown_basis(self.graph@.edges, cycle_views(self.cycle_basis@))
        &&& self.partition.bound() == max_load
        &&& self.partition@ == all_placed(cycle_views(self.cycle_basis@), max_load)
        &&& self.decongestion_layers == self.partition@.len()
        &&& call_ensures(expansion, (&self.graph,), self.needed)
    }
}

/// The forest runs along edges of the graph.
spec fn along(lists: Seq<Seq<usize>>, g: GraphModel) -> bool {
    &&& lists.len() == g.nodes
    &&& forall|u: usize, v: usize|
        #![trigger lists[u as int].contains(v)]
        u < lists.len() && lists[u as int].contains(v) ==> v < lists.len() && joined(g.edges, u, v)
}

proof fn lemma_without(list: Seq<usize>, x: usize, y: usize)
    ensures
        without(list, x).contains(y) ==> list.contains(y),
    decreases list.len(),
{
    if list.len() > 0 {
        let front = list.drop_last();
        lemma_without(front, x, y);
        if without(list, x).contains(y) {
            if list.last() != x && y == list.last() {
                assert(list[list.len() - 1] == y);
            } else {
                if list.last() != x {
                    lemma_push_contains(without(front, x), list.last(), y);
                }
                assert(front.contains(y));
                assert(list[front.index_of(y)] == y);
            }
        }
    }
}

proof fn lemma_along_updated(
    before: Seq<Seq<usize>>,
    g: GraphModel,
    u: usize,
    v: usize,
    after: Seq<Seq<usize>>,
    cycle: Option<Seq<Edge>>,
)
    requires
        along(before, g),
        u < g.nodes,
        v < g.nodes,
        u != v,
        joined(g.edges, u, v),
        forest_updated(before, u, v, after, cycle),
    ensures
        along(after, g),
        cycle matches Some(c) ==> forall|e: Edge| #[trigger]
            c.contains(e) ==> joined(g.edges, e.0, e.1),
{
    assert(joined(g.edges, v, u));
    match cycle {
        None => {
            lemma_linked(before, u, v);
        },
        Some(c) => {
            let p = choose|p: Seq<usize>|
                {
                    &&& #[trigger] list_path(before, p, u, v)
                    &&& forall|q: Seq<usize>| #[trigger]
                        list_path(before, q, u, v) ==> p.len() <= q.len()
                    &&& c == closed_path(p, u, v)
                    &&& after == linked(unlinked(before, p[0], p[1]), u, v)
                };
            assert(p.len() >= 2) by {
                if p.len() == 1 {
                    assert(p[0] == p.last());
                }
            }
            let cut = unlinked(before, p[0], p[1]);
            assert(p[0] < before.len() && p[1] < before.len());
            assert forall|a: usize, b: usize|
                #![trigger cut[a as int].contains(b)]
                a < cut.len() && cut[a as int].contains(b) implies before[a as int].contains(b) by {
                lemma_without(before[a as int], p[0], b);
                lemma_without(before[a as int], p[1], b);
                lemma_without(without(before[a as int], p[1]), p[0], b);
            }
            assert(along(cut, g)) by {
                assert forall|a: usize, b: usize|
                    #![trigger cut[a as int].contains(b)]
                    a < cut.len() && cut[a as int].contains(b) implies b < cut.len() && joined(
                    g.edges,
                    a,
                    b,
                ) by {
                    assert(before[a as int].contains(b));
                }
            }
            lemma_linked(cut, u, v);
            assert forall|e: Edge| #[trigger] c.contains(e) implies joined(g.edges, e.0, e.1) by {
                let k = c.index_of(e);
                if k < path_edges(p).len() {
                    assert(c[k] == canonical(p[k], p[k + 1]));
                    assert(before[p[k] as int].contains(p[k + 1]));
                    assert(joined(g.edges, p[k], p[k + 1]));
                }
            }
        },
    }
}

/// The state of the construction.
struct Expansion {
    g: AncillaGraph,
    forest: SpanningForest,
    partition: CyclePartition,
    basis: Vec<Vec<Edge>>,
    layers: usize,
    needed: usize,
    run: Ghost<Seq<Moment>>,
}

impl Expansion {
    /// The run has come to here.
    spec fn follows<F: Fn(&AncillaGraph) -> usize>(
        self,
        g0: GraphModel,
        reset_period: usize,
        max_load: nat,
        expansion: F,
    ) -> bool {
        &&& is_run(g0, reset_period, max_load, expansion, self.run@)
        &&& self.run@.len() == self.g@.edges.len() - g0.edges.len() + 1
        &&& self.run@.last().edges == self.g@.edges
        &&& self.run@.last().cycles == cycle_views(self.basis@)
        &&& self.run@.last().needed == self.needed
    }

    /// The forest is the one that the next edge updates.
    spec fn ready(self, nodes: nat, reset_period: usize) -> bool {
        forest_in_use(
            nodes,
            renewed(reset_period, self.run@.len() - 1),
            self.run@.last(),
            self.forest@,
        )
    }

    spec fn holds<F: Fn(&AncillaGraph) -> usize>(
        self,
        g0: GraphModel,
        reset_period: usize,
        max_load: nat,
        expansion: F,
    ) -> bool {
        &&& self.follows(g0, reset_period, max_load, expansion)
        &&& grown_from(g0, self.g@)
        &&& self.g@.wf()
        &&& along(self.forest@, self.g@)
        &&& symmetric(self.forest@)
        &&& spans(self.forest@, self.g@)
        &&& is_grown_basis(self.g@.edges, cycle_views(self.basis@))
        &&& cycles_in(self.g@.edges, cycle_views(self.basis@))
        &&& starts_with_basis(g0.edges, cycle_views(self.basis@))
        &&& self.partition.bound() == max_load
        &&& self.partition@ == all_placed(cycle_views(self.basis@), max_load)
        &&& self.layers == self.partition@.len()
        &&& call_ensures(expansion, (&self.g,), self.needed)
    }

    fn finish(self) -> (r: CongestionAwareExpander)
        ensures
            r.graph == self.g,
            r.decongestion_layers == self.layers,
            r.needed == self.needed,
            r.cycle_basis == self.basis,
            r.partition == self.partition,
    {
        CongestionAwareExpander {
            graph: self.g,
            decongestion_layers: self.layers,
            needed: self.needed,
            cycle_basis: self.basis,
            partition: self.partition,
        }
    }
}

proof fn lemma_joined_push(edges: Seq<Edge>, e: Edge, a: usize, b: usize)
    ensures
        joined(edges, a, b) ==> joined(edges.push(e), a, b),
        joined(edges.push(e), e.0, e.1),
{
    let more = edges.push(e);
    assert(more[edges.len() as int] == e);
    if edges.contains((a, b)) {
        assert(more[edges.index_of((a, b))] == (a, b));
    }
    if edges.contains((b, a)) {
        assert(more[edges.index_of((b, a))] == (b, a));
    }
}

proof fn lemma_run_push<F: Fn(&AncillaGraph) -> usize>(
    g0: GraphModel,
    reset_period: usize,
    max_load: nat,
    expansion: F,
    run: Seq<Moment>,
    after: Moment,
)
    requires
        is_run(g0, reset_period, max_load, expansion, run),
        !run.last().balanced(max_load),
        next_moment(
            g0.nodes,
            renewed(reset_period, run.len() - 1),
            expansion,
            run.last(),
            after,
        ),
    ensures
        is_run(g0, reset_period, max_load, expansion, run.push(after)),
{
    let more = run.push(after);
    assert(more[0] == run[0]);
    assert forall|t: int| 0 <= t < more.len() - 1 implies !(#[trigger] more[t]).balanced(max_load)
        && next_moment(
        g0.nodes,
        renewed(reset_period, t),
        expansion,
        more[t],
        more[t + 1],
    ) by {
        assert(more[t] == run[t]);
        if t < run.len() - 1 {
            assert(more[t + 1] == run[t + 1]);
        }
    }
}

/// Insert an edge, and track the cycle that it closes.
#[verifier::spinoff_prover]
fn insert_edge<F: Fn(&AncillaGraph) -> usize>(
    s: &mut Expansion,
    i: usize,
    j: usize,
    expansion: &F,
    Ghost(g0): Ghost<GraphModel>,
    Ghost(reset_period): Ghost<usize>,
    Ghost(max_load): Ghost<nat>,
)
    requires
        old(s).holds(g0, reset_period, max_load, *expansion),
        old(s).ready(g0.nodes, reset_period),
        old(s).layers < old(s).needed,
        i < g0.nodes,
        j < g0.nodes,
        i != j,
        !joined(old(s).g@.edges, i, j),
        old(s).g@.edges.len() < u32::MAX,
        forall|g: &AncillaGraph| call_requires(*expansion, (g,)),
    ensures
        final(s).holds(g0, reset_period, max_load, *expansion),
        final(s).g@.edges == old(s).g@.edges.push((i, j)),
        final(s).run@.last().forest == final(s).forest@,
{
    let ghost before = s.g@;
    let ghost basis0 = cycle_views(s.basis@);
    let ghost run0 = s.run@;
    s.g.add_edge(i, j);
    let _n: usize = s.g.node_count();
    s.needed = expansion(&s.g);
    let ghost lists0 = s.forest@;
    let ghost after = s.g@;
    proof {
        lemma_grown_push(g0, before, i, j);
        assert forall|a: usize, b: usize| joined(before.edges, a, b) implies #[trigger] joined(
            after.edges,
            a,
            b,
        ) by {
            lemma_joined_push(before.edges, (i, j), a, b);
        }
        lemma_joined_push(before.edges, (i, j), i, j);
        assert(along(lists0, after));
        assert(cycles_in(after.edges, basis0)) by {
            assert forall|k: int, e: Edge|
                #![trigger basis0[k].contains(e)]
                0 <= k < basis0.len() && basis0[k].contains(e) implies joined(
                after.edges,
                e.0,
                e.1,
            ) by {
                assert(joined(before.edges, e.0, e.1));
            }
        }
        assert(after.edges.drop_last() =~= before.edges);
        assert(asked_for(*expansion, after, s.needed));
    }
    match dynamic_cycle_basis_update(&mut s.forest, i, j) {
        Some(cycle) => {
            proof {
                lemma_basis_grows(before, lists0, basis0, i, j, s.forest@, Some(cycle@));
                lemma_along_updated(lists0, after, i, j, s.forest@, Some(cycle@));
                lemma_basis_push(g0.edges, after.edges, basis0, cycle@);
                assert(basis0.push(cycle@).drop_last() =~= basis0);
                assert(cycle_views(s.basis@.push(cycle)) =~= basis0.push(cycle@));
                let m = Moment {
                    edges: after.edges,
                    forest: s.forest@,
                    cycles: basis0.push(cycle@),
                    needed: s.needed,
                };
                assert(forest_updated(
                    lists0,
                    m.edges.last().0,
                    m.edges.last().1,
                    m.forest,
                    Some(cycle@),
                ));
                lemma_run_push(g0, reset_period, max_load, *expansion, run0, m);
                s.run@ = run0.push(m);
            }
            s.layers = s.partition.insert(&cycle);
            s.basis.push(cycle);
        },
        None => {
            proof {
                lemma_basis_grows(before, lists0, basis0, i, j, s.forest@, None);
                lemma_along_updated(lists0, after, i, j, s.forest@, None);
                let m = Moment {
                    edges: after.edges,
                    forest: s.forest@,
                    cycles: basis0,
                    needed: s.needed,
                };
                assert(forest_updated(
                    lists0,
                    m.edges.last().0,
                    m.edges.last().1,
                    m.forest,
                    None,
                ));
                lemma_run_push(g0, reset_period, max_load, *expansion, run0, m);
                s.run@ = run0.push(m);
            }
        },
    }
}

/// Grow the forest anew where it is time.
fn renew_forest<F: Fn(&AncillaGraph) -> usize>(
    s: &mut Expansion,
    reset_period: usize,
    step: usize,
    Ghost(g0): Ghost<GraphModel>,
    Ghost(max_load): Ghost<nat>,
    _expansion: &F,
)
    requires
        old(s).holds(g0, reset_period, max_load, *_expansion),
        old(s).run@.last().forest == old(s).forest@,
        step > 0,
        step == old(s).run@.len() - 1,
    ensures
        final(s).holds(g0, reset_period, max_load, *_expansion),
        final(s).ready(g0.nodes, reset_period),
        final(s).g == old(s).g,
        final(s).run == old(s).run,
        final(s).layers == old(s).layers,
        final(s).needed == old(s).needed,
{
    if reset_period > 0 && step % reset_period == 0 {
        s.forest = bfs_spanning_forest(&s.g);
        assert(s.g@ == s.run@.last().graph(g0.nodes));
    }
}

proof fn lemma_grown_push(g0: GraphModel, g: GraphModel, i: usize, j: usize)
    requires
        grown_from(g0, g),
        i < g.nodes,
        j < g.nodes,
        i != j,
        !joined(g.edges, i, j),
    ensures
        grown_from(g0, (GraphModel { nodes: g.nodes, edges: g.edges.push((i, j)) })),
{
    let more = g.edges.push((i, j));
    assert(more.take(g0.edges.len() as int) =~= g.edges.take(g0.edges.len() as int));
    assert forall|k: int| g0.edges.len() <= k < more.len() implies {
        &&& (#[trigger] more[k]).0 < g.nodes
        &&& more[k].1 < g.nodes
        &&& more[k].0 != more[k].1
        &&& !joined(more.take(k), more[k].0, more[k].1)
    } by {
        if k < g.edges.len() {
            assert(more[k] == g.edges[k]);
            assert(more.take(k) =~= g.edges.take(k));
        } else {
            assert(more.take(k) =~= g.edges);
        }
    }
}

proof fn lemma_basis_push(
    edges0: Seq<Edge>,
    edges: Seq<Edge>,
    basis: Seq<Seq<Edge>>,
    cycle: Seq<Edge>,
)
    requires
        cycles_in(edges, basis),
        starts_with_basis(edges0, basis),
        two_regular(cycle),
        forall|e: Edge| #[trigger] cycle.contains(e) ==> joined(edges, e.0, e.1),
    ensures
        cycles_in(edges, basis.push(cycle)),
        starts_with_basis(edges0, basis.push(cycle)),
{
    let more = basis.push(cycle);
    let (simple, k) = choose|simple: Seq<Edge>, k: int|
        0 <= k <= basis.len() && simple_edges(edges0, simple) && #[trigger] is_cycle_basis(
            simple,
            basis.take(k),
        );
    assert(more.take(k) =~= basis.take(k));
    assert forall|i: int| 0 <= i < more.len() implies two_regular(#[trigger] more[i]) by {
        if i < basis.len() {
            assert(more[i] == basis[i]);
        }
    }
    assert forall|i: int, e: Edge|
        #![trigger more[i].contains(e)]
        0 <= i < more.len() && more[i].contains(e) implies joined(edges, e.0, e.1) by {
        if i < basis.len() {
            assert(basis[i].contains(e));
        }
    }
}

/// The edges of the graph, each once, in order.
fn simple_edges_of(g: &AncillaGraph) -> (r: Vec<Edge>)
    ensures
        simple_edges(g@.edges, r@),
        r@.no_duplicates(),
        forall|i: int| 0 <= i < r@.len() ==> (#[trigger] r@[i]).0 < g@.nodes && r@[i].1 < g@.nodes,
{
    let m: usize = g.edge_count();
    let mut r: Vec<Edge> = Vec::new();
    let mut k: usize = 0;
    while k < m
        invariant
            m == g@.edges.len(),
            g@.wf(),
            k <= m,
            edges_increase(r@),
            forall|e: Edge|
                #![trigger r@.contains(e)]
                r@.contains(e) <==> exists|i: int|
                    0 <= i < k && e == canonical((#[trigger] g@.edges[i]).0, g@.edges[i].1),
        decreases m - k,
    {
        let (a, b) = g.edge_endpoints(k);
        let ghost before = r@;
        add_in_order(&mut r, canonical_edge(a, b));
        proof {
            assert forall|e: Edge|
                #![trigger r@.contains(e)]
                r@.contains(e) <==> exists|i: int|
                    0 <= i < k + 1 && e == canonical((#[trigger] g@.edges[i]).0, g@.edges[i].1) by {
                if before.contains(e) {
                    let i = choose|i: int|
                        0 <= i < k && e == canonical((#[trigger] g@.edges[i]).0, g@.edges[i].1);
                    assert(e == canonical(g@.edges[i].0, g@.edges[i].1));
                }
                assert(g@.edges[k as int] == (a, b));
            }
        }
        k = k + 1;
    }
    proof {
        assert forall|i: int| 0 <= i < r@.len() implies (#[trigger] r@[i]).0 < g@.nodes && r@[i].1
            < g@.nodes by {
            assert(r@.contains(r@[i]));
            let q = choose|q: int|
                0 <= q < m && r@[i] == canonical((#[trigger] g@.edges[q]).0, g@.edges[q].1);
            assert(g@.edges[q].0 < g@.nodes);
        }
        assert forall|i: int, j: int| 0 <= i < r@.len() && 0 <= j < r@.len() && i != j implies r@[i]
            != r@[j] by {
            if i < j {
                assert(edge_before(r@[i], r@[j]));
            } else {
                assert(edge_before(r@[j], r@[i]));
            }
        }
    }
    r
}

/// The load bound that is in force.
pub open spec fn load_bound(qubit_degree: usize) -> nat {
    if qubit_degree >= 1 {
        qubit_degree as nat
    } else {
        1
    }
}

/// The graph as given, with a breadth-first forest and a low-congestion cycle basis.
fn start_expansion<F: Fn(&AncillaGraph) -> usize>(
    g0: &AncillaGraph,
    qubit_degree: usize,
    rng: &mut StdRng,
    expansion: &F,
) -> (s: Expansion)
    requires
        forall|g: &AncillaGraph| call_requires(*expansion, (g,)),
    ensures
        forall|reset_period: usize| #[trigger]
            s.holds(g0@, reset_period, load_bound(qubit_degree), *expansion) && s.ready(
                g0@.nodes,
                reset_period,
            ),
        s.g@ == g0@,
{
    let n: usize = g0.node_count();
    let g = g0.clone();
    let forest = bfs_spanning_forest(&g);
    let simple = simple_edges_of(&g);
    let cycles = decongestion_cycle_basis(n, &simple, rng);
    let mut partition = CyclePartition::with_max_load(qubit_degree);
    let mut basis: Vec<Vec<Edge>> = Vec::new();
    let ghost all = cycle_views(cycles@);
    let ghost bound = load_bound(qubit_degree);
    assert(all.take(0) =~= Seq::empty());
    assert(cycle_views(basis@) =~= all.take(0));
    let mut i: usize = 0;
    while i < cycles.len()
        invariant
            i <= cycles@.len(),
            all == cycle_views(cycles@),
            cycle_views(basis@) == all.take(i as int),
            partition.bound() == bound,
            partition@ == all_placed(all.take(i as int), bound),
        decreases cycles@.len() - i,
    {
        let cycle = copy_edges(&cycles[i]);
        let _layers = partition.insert(&cycle);
        proof {
            assert(all.take(i + 1).drop_last() =~= all.take(i as int));
            assert(cycle_views(basis@.push(cycle)) =~= all.take(i + 1));
        }
        basis.push(cycle);
        i = i + 1;
    }
    let needed: usize = expansion(&g);
    let layers: usize = partition.layers();
    proof {
        assert(all.take(all.len() as int) =~= all);
        assert(g0@.edges.take(g0@.edges.len() as int) =~= g0@.edges);
        assert forall|k: int, e: Edge|
            #![trigger all[k].contains(e)]
            0 <= k < all.len() && all[k].contains(e) implies joined(g0@.edges, e.0, e.1) by {
            assert(simple@.contains(e));
            let q = choose|q: int|
                0 <= q < g0@.edges.len() && e == canonical((#[trigger] g0@.edges[q]).0, g0@.edges[q].1);
            assert(g0@.edges[q] == (e.0, e.1) || g0@.edges[q] == (e.1, e.0));
        }
        assert(is_cycle_basis(simple@, all.take(all.len() as int)));
        assert(lists_once(g0@.edges, simple@)) by {
            assert forall|x: int, y: int|
                0 <= x < simple@.len() && 0 <= y < simple@.len() && x != y implies simple@[x]
                != simple@[y] by {
                if x < y {
                    assert(edge_before(simple@[x], simple@[y]));
                } else {
                    assert(edge_before(simple@[y], simple@[x]));
                }
            }
        }
        assert(newest_first(all, all.len() as int) =~= all);
        assert(is_grown_basis(g0@.edges, all));
    }
    let ghost m = Moment { edges: g@.edges, forest: forest@, cycles: all, needed };
    let run: Ghost<Seq<Moment>> = Ghost(Seq::empty().push(m));
    let s = Expansion { g, forest, partition, basis, layers, needed, run };
    proof {
        assert(asked_for(*expansion, g0@, needed));
        assert(simple_edges(g0@.edges, simple@) && decongested(g0@.nodes, simple@, m.cycles));
        assert(first_moment(g0@, *expansion, s.run@[0]));
        assert forall|reset_period: usize| #[trigger]
            s.holds(g0@, reset_period, bound, *expansion) && s.ready(g0@.nodes, reset_period) by {
            assert(is_run(g0@, reset_period, bound, *expansion, s.run@));
        }
    }
    s
}

// ---------------------------------------------------------------------------
// Drawing a pair
// ---------------------------------------------------------------------------
/// An edge between the two vertices keeps both within degree `top`, and they are not
/// joined yet.
pub open spec fn is_candidate(g: GraphModel, top: nat, i: usize, j: usize) -> bool {
    &&& i < j < g.nodes
    &&& degree_of(g.edges, i) < top
    &&& degree_of(g.edges, j) < top
    &&& !joined(g.edges, i, j)
}

/// The pairs that an edge may still join, each once, in order.
pub open spec fn all_candidates(g: GraphModel, top: nat, pairs: Seq<(usize, usize)>) -> bool {
    &&& edges_increase(pairs)
    &&& forall|i: usize, j: usize| #[trigger]
        pairs.contains((i, j)) <==> is_candidate(g, top, i, j)
}

/// The weight by which a pair is drawn: what the two vertices lack of degree `top`,
/// multiplied.
pub open spec fn pair_weight(edges: Seq<Edge>, top: nat, pair: (usize, usize)) -> int {
    (top - degree_of(edges, pair.0)) * (top - degree_of(edges, pair.1))
}

/// The weights of the pairs together.
pub open spec fn total_weight(edges: Seq<Edge>, top: nat, pairs: Seq<(usize, usize)>) -> int
    decreases pairs.len(),
{
    if pairs.len() == 0 {
        0
    } else {
        total_weight(edges, top, pairs.drop_last()) + pair_weight(edges, top, pairs.last())
    }
}

/// Every pair has its weight.
pub open spec fn weighted(
    edges: Seq<Edge>,
    top: nat,
    pairs: Seq<(usize, usize)>,
    weights: Seq<usize>,
) -> bool {
    &&& weights.len() == pairs.len()
    &&& forall|k: int|
        0 <= k < pairs.len() ==> #[trigger] weights[k] == pair_weight(edges, top, pairs[k])
}

/// All pairs that an edge may still join.
#[verifier::spinoff_prover]
pub fn candidate_pairs(g: &AncillaGraph, top: usize) -> (r: Vec<(usize, usize)>)
    ensures
        all_candidates(g@, top as nat, r@),
{
    let n: usize = g.node_count();
    let mut open: Vec<bool> = Vec::new();
    for v in 0..n
        invariant
            n == g@.nodes,
            open@.len() == v,
            forall|u: usize|
                u < v ==> #[trigger] open@[u as int] == (degree_of(g@.edges, u) < top),
    {
        open.push(degree(g, v) < top);
    }
    let mut pairs: Vec<(usize, usize)> = Vec::new();
    let mut i: usize = 0;
    while i < n
        invariant
            n == g@.nodes,
            i <= n,
            open@.len() == n,
            forall|u: usize|
                u < n ==> #[trigger] open@[u as int] == (degree_of(g@.edges, u) < top),
            edges_increase(pairs@),
            forall|a: usize, b: usize| #[trigger]
                pairs@.contains((a, b)) <==> a < i && is_candidate(g@, top as nat, a, b),
        decreases n - i,
    {
        if open[i] {
            let mut j: usize = i + 1;
            while j < n
                invariant
                    n == g@.nodes,
                    i < j <= n,
                    open@.len() == n,
                    open@[i as int],
                    forall|u: usize|
                        u < n ==> #[trigger] open@[u as int] == (degree_of(g@.edges, u) < top),
                    edges_increase(pairs@),
                    forall|a: usize, b: usize| #[trigger]
                        pairs@.contains((a, b)) <==> (a < i || (a == i && b < j)) && is_candidate(
                            g@,
                            top as nat,
                            a,
                            b,
                        ),
                decreases n - j,
            {
                let ghost before = pairs@;
                if open[j] {
                    let found = g.find_edge(i, j);
                    proof {
                        lemma_edge_between(g@.edges, i, j);
                    }
                    if found.is_none() {
                        pairs.push((i, j));
                        proof {
                            assert forall|x: int, y: int|
                                #![trigger pairs@[x], pairs@[y]]
                                0 <= x < y < pairs@.len() implies edge_before(
                                pairs@[x],
                                pairs@[y],
                            ) by {
                                assert(pairs@[x] == before[x]);
                                if y < before.len() {
                                    assert(pairs@[y] == before[y]);
                                } else {
                                    assert(before.contains((before[x].0, before[x].1)));
                                }
                            }
                        }
                    }
                }
                proof {
                    assert(open@[j as int] == (degree_of(g@.edges, j) < top));
                    assert(open@[i as int] == (degree_of(g@.edges, i) < top));
                    let added = is_candidate(g@, top as nat, i, j);
                    assert(pairs@ == if added {
                        before.push((i, j))
                    } else {
                        before
                    });
                    assert forall|a: usize, b: usize| #[trigger] pairs@.contains((a, b)) <==> (a < i
                        || (a == i && b < j + 1)) && is_candidate(g@, top as nat, a, b) by {
                        if added {
                            lemma_pushed_contains(before, (i, j), (a, b));
                        }
                        assert(before.contains((a, b)) <==> (a < i || (a == i && b < j))
                            && is_candidate(g@, top as nat, a, b));
                    }
                }
                j = j + 1;
            }
        } else {
            assert(open@[i as int] == (degree_of(g@.edges, i) < top));
        }
        i = i + 1;
    }
    pairs
}

proof fn lemma_pushed_contains(s: Seq<Edge>, e: Edge, f: Edge)
    ensures
        s.push(e).contains(f) <==> s.contains(f) || f == e,
{
    if s.contains(f) {
        assert(s.push(e)[s.index_of(f)] == f);
    }
    assert(s.push(e)[s.len() as int] == e);
    if s.push(e).contains(f) {
        let k = s.push(e).index_of(f);
        if k < s.len() {
            assert(s[k] == f);
        }
    }
}

proof fn lemma_total_grows(edges: Seq<Edge>, top: nat, pairs: Seq<(usize, usize)>, k: int)
    requires
        0 <= k <= pairs.len(),
        forall|i: int|
            0 <= i < pairs.len() ==> degree_of(edges, (#[trigger] pairs[i]).0) < top && degree_of(
                edges,
                pairs[i].1,
            ) < top,
    ensures
        total_weight(edges, top, pairs.take(k)) <= total_weight(edges, top, pairs),
    decreases pairs.len(),
{
    if k == pairs.len() {
        assert(pairs.take(k) =~= pairs);
    } else {
        let front = pairs.drop_last();
        assert forall|i: int| 0 <= i < front.len() implies degree_of(edges, (#[trigger] front[i]).0)
            < top && degree_of(edges, front[i].1) < top by {
            assert(front[i] == pairs[i]);
        }
        lemma_total_grows(edges, top, front, k);
        assert(front.take(k) =~= pairs.take(k));
        let last = pairs[pairs.len() - 1];
        assert(degree_of(edges, last.0) < top && degree_of(edges, last.1) < top);
        lemma_weight_bounds(edges, top, last);
    }
}

proof fn lemma_weight_bounds(edges: Seq<Edge>, top: nat, pair: (usize, usize))
    requires
        degree_of(edges, pair.0) < top,
        degree_of(edges, pair.1) < top,
    ensures
        0 < pair_weight(edges, top, pair) <= top * top,
{
    let x = top - degree_of(edges, pair.0);
    let y = top - degree_of(edges, pair.1);
    assert(0 < x * y <= top * top) by (nonlinear_arith)
        requires
            0 < x <= top,
            0 < y <= top,
    ;
}

/// The weights by which the pairs are drawn; `None` where they outrun the machine
/// integers together.
#[verifier::spinoff_prover]
pub fn pair_weights(g: &AncillaGraph, top: usize, pairs: &Vec<(usize, usize)>) -> (r: Option<
    Vec<usize>,
>)
    requires
        all_candidates(g@, top as nat, pairs@),
        top <= u32::MAX,
    ensures
        match r {
            Some(weights) => {
                &&& weighted(g@.edges, top as nat, pairs@, weights@)
                &&& weight_sum(weights@) == total_weight(g@.edges, top as nat, pairs@)
                &&& weight_sum(weights@) <= usize::MAX
            },
            None => total_weight(g@.edges, top as nat, pairs@) > usize::MAX,
        },
{
    let mut weights: Vec<usize> = Vec::new();
    let mut total: u128 = 0;
    let ghost edges = g@.edges;
    proof {
        assert forall|k: int| 0 <= k < pairs@.len() implies degree_of(edges, (#[trigger] pairs@[k]).0)
            < top && degree_of(edges, pairs@[k].1) < top && pairs@[k].0 < g@.nodes && pairs@[k].1
            < g@.nodes by {
            assert(pairs@.contains((pairs@[k].0, pairs@[k].1)));
        }
        assert(pairs@.take(0) =~= Seq::empty());
    }
    for k in 0..pairs.len()
        invariant
            edges == g@.edges,
            top <= u32::MAX,
            forall|i: int|
                0 <= i < pairs@.len() ==> degree_of(edges, (#[trigger] pairs@[i]).0) < top
                    && degree_of(edges, pairs@[i].1) < top && pairs@[i].0 < g@.nodes && pairs@[i].1
                    < g@.nodes,
            weights@.len() == k,
            forall|i: int|
                0 <= i < k ==> #[trigger] weights@[i] == pair_weight(edges, top as nat, pairs@[i]),
            total == weight_sum(weights@),
            total == total_weight(edges, top as nat, pairs@.take(k as int)),
            total <= usize::MAX,
    {
        let (a, b) = pairs[k];
        let x: u128 = (top - degree(g, a)) as u128;
        let y: u128 = (top - degree(g, b)) as u128;
        proof {
            lemma_weight_bounds(edges, top as nat, (a, b));
            assert(0 < x * y <= 0xffff_ffff * 0xffff_ffff) by (nonlinear_arith)
                requires
                    0 < x <= 0xffff_ffff,
                    0 < y <= 0xffff_ffff,
            ;
            assert(pairs@.take(k + 1).drop_last() =~= pairs@.take(k as int));
            assert(pairs@.take(k + 1).last() == (a, b));
            assert(x * y == pair_weight(edges, top as nat, (a, b)));
            lemma_total_grows(edges, top as nat, pairs@, k + 1);
        }
        total = total + x * y;
        if total > usize::MAX as u128 {
            return None;
        }
        let w: usize = (x * y) as usize;
        let ghost before = weights@;
        weights.push(w);
        assert(weights@.drop_last() =~= before);
    }
    assert(pairs@.take(pairs@.len() as int) =~= pairs@);
    Some(weights)
}

/// The weights by which a pair would be drawn outrun the machine integers together.
pub open spec fn overweight(g: GraphModel, top: nat) -> bool {
    exists|pairs: Seq<(usize, usize)>| #[trigger]
        all_candidates(g, top, pairs) && total_weight(g.edges, top, pairs) > usize::MAX
}

/// Draw one of the pairs that an edge may still join. The draw is over all of them, each
/// with its weight.
fn pick_pair(
    pairs: &Vec<(usize, usize)>,
    weights: &Vec<usize>,
    rng: &mut StdRng,
    Ghost(g): Ghost<GraphModel>,
    Ghost(top): Ghost<nat>,
) -> (r: (usize, usize))
    requires
        all_candidates(g, top, pairs@),
        weighted(g.edges, top, pairs@, weights@),
        0 < weight_sum(weights@) <= usize::MAX,
    ensures
        is_candidate(g, top, r.0, r.1),
{
    let pick: usize = pick_weighted(rng, weights);
    let r = pairs[pick];
    assert(pairs@.contains((r.0, r.1))) by {
        assert(pairs@[pick as int] == (r.0, r.1));
    }
    r
}

/// Draw a pair that an edge may still join, by weight; `Some(None)` where there is none,
/// and `None` where the weights outrun the machine integers.
fn draw_pair(g: &AncillaGraph, top: usize, rng: &mut StdRng) -> (r: Option<Option<(usize, usize)>>)
    requires
        top <= u32::MAX,
    ensures
        match r {
            Some(Some((i, j))) => is_candidate(g@, top as nat, i, j),
            Some(None) => forall|i: usize, j: usize| !#[trigger] is_candidate(g@, top as nat, i, j),
            None => overweight(g@, top as nat),
        },
{
    let pairs = candidate_pairs(g, top);
    if pairs.len() == 0 {
        assert forall|i: usize, j: usize| !#[trigger] is_candidate(g@, top as nat, i, j) by {
            assert(!pairs@.contains((i, j)));
        }
        return Some(None);
    }
    let weights = match pair_weights(g, top, &pairs) {
        Some(w) => w,
        None => return None,
    };
    proof {
        let first = pairs@[0];
        assert(pairs@.contains((first.0, first.1)));
        assert(pairs@.take(1).drop_last() =~= Seq::empty());
        assert(total_weight(g@.edges, top as nat, pairs@.take(1).drop_last()) == 0);
        assert(pairs@.take(1).last() == first);
        lemma_weight_bounds(g@.edges, top as nat, first);
        assert forall|k: int| 0 <= k < pairs@.len() implies degree_of(
            g@.edges,
            (#[trigger] pairs@[k]).0,
        ) < top && degree_of(g@.edges, pairs@[k].1) < top by {
            assert(pairs@.contains((pairs@[k].0, pairs@[k].1)));
        }
        lemma_total_grows(g@.edges, top as nat, pairs@, 1);
    }
    Some(Some(pick_pair(&pairs, &weights, rng, Ghost(g@), Ghost(top as nat))))
}

// ---------------------------------------------------------------------------
// Room
// ---------------------------------------------------------------------------
/// The construction cannot go on from `g`: the next edge would have no number, or the
/// weights by which it would be drawn outrun the machine integers.
pub open spec fn out_of_room(g0: GraphModel, g: GraphModel, rounds: int) -> bool {
    ||| regularly_grown(g0, g) && overweight(g, max_degree(g0.edges, g0.nodes as int))
    ||| exists|next: GraphModel| #[trigger]
        grown_in_part(g0, next, rounds) && next.nodes == g.nodes && next.edges.len() > u32::MAX
            && next.edges.drop_last() == g.edges
}

/// Some run of the construction comes to a moment from which it must go on and cannot.
pub open spec fn outgrown<F: Fn(&AncillaGraph) -> usize>(
    g0: GraphModel,
    reset_period: usize,
    max_load: nat,
    rounds: int,
    expansion: F,
) -> bool {
    exists|run: Seq<Moment>| #[trigger]
        is_run(g0, reset_period, max_load, expansion, run) && !run.last().balanced(max_load)
            && out_of_room(g0, run.last().graph(g0.nodes), rounds)
}

/// The pairs of an increasing list below `n` are no more than there are.
proof fn lemma_pairs_bounded(pairs: Seq<Edge>, n: nat)
    requires
        edges_increase(pairs),
        forall|k: int| 0 <= k < pairs.len() ==> (#[trigger] pairs[k]).0 < n && pairs[k].1 < n,
    ensures
        pairs.len() <= n * n,
{
    let codes = Seq::new(pairs.len(), |k: int| pairs[k].0 * n + pairs[k].1);
    assert forall|k: int| 0 <= k < codes.len() implies 0 <= #[trigger] codes[k] < n * n by {
        let (a, b) = (pairs[k].0 as int, pairs[k].1 as int);
        assert(0 <= a * n + b < n * n) by (nonlinear_arith)
            requires
                0 <= a < n,
                0 <= b < n,
        ;
    }
    assert forall|i: int, j: int|
        0 <= i < codes.len() && 0 <= j < codes.len() && i != j implies codes[i] != codes[j] by {
        if i < j {
            assert(edge_before(pairs[i], pairs[j]));
        } else {
            assert(edge_before(pairs[j], pairs[i]));
        }
        let (a, b, c, d) = (
            pairs[i].0 as int,
            pairs[i].1 as int,
            pairs[j].0 as int,
            pairs[j].1 as int,
        );
        assert(a * n + b != c * n + d) by (nonlinear_arith)
            requires
                0 <= b < n,
                0 <= d < n,
                a != c || b != d,
        ;
    }
    crate::coloring::lemma_distinct_below(codes, n * n);
}

proof fn lemma_total_bounded(edges: Seq<Edge>, top: nat, pairs: Seq<(usize, usize)>)
    requires
        forall|i: int|
            0 <= i < pairs.len() ==> degree_of(edges, (#[trigger] pairs[i]).0) < top && degree_of(
                edges,
                pairs[i].1,
            ) < top,
    ensures
        total_weight(edges, top, pairs) <= pairs.len() * (top * top),
    decreases pairs.len(),
{
    let t = top * top;
    if pairs.len() > 0 {
        let front = pairs.drop_last();
        assert forall|i: int| 0 <= i < front.len() implies degree_of(edges, (#[trigger] front[i]).0)
            < top && degree_of(edges, front[i].1) < top by {
            assert(front[i] == pairs[i]);
        }
        lemma_total_bounded(edges, top, front);
        assert(pairs[pairs.len() - 1] == pairs.last());
        lemma_weight_bounds(edges, top, pairs.last());
        let n = pairs.len();
        assert(n * t == (n - 1) * t + t) by (nonlinear_arith);
    } else {
        assert(0 * t == 0) by (nonlinear_arith);
    }
}

/// Edges below the highest degree leave no degree above it.
proof fn lemma_degrees_kept(g0: GraphModel, g: GraphModel, k: int, v: usize)
    requires
        regularly_grown(g0, g),
        g0.edges.len() <= k <= g.edges.len(),
        v < g0.nodes,
        g0.nodes <= usize::MAX,
    ensures
        degree_of(g.edges.take(k), v) <= max_degree(g0.edges, g0.nodes as int),
    decreases k,
{
    if k == g0.edges.len() {
        assert(g.edges.take(k) =~= g0.edges);
        lemma_max_degree(g0.edges, g0.nodes as int);
    } else {
        lemma_degrees_kept(g0, g, k - 1, v);
        let e = g.edges[k - 1];
        assert(below_top(g0, g.edges.take(k - 1), e));
        assert(g.edges.take(k) =~= g.edges.take(k - 1).push((e.0, e.1)));
        lemma_degree_push(g.edges.take(k - 1), e.0, e.1, v);
    }
}

proof fn lemma_pairs_from(g0: GraphModel, g: GraphModel, order: Seq<usize>, k: int)
    requires
        grown_from(g0, g),
        vertex_order(g0.nodes, order),
        0 <= k <= order.len() as int / 2,
    ensures
        grown_from(
            g0,
            (GraphModel { nodes: g.nodes, edges: pairs_joined(g.edges, order, k) }),
        ),
        pairs_joined(g.edges, order, k).len() <= g.edges.len() + k,
    decreases k,
{
    if k > 0 {
        lemma_pairs_from(g0, g, order, k - 1);
        let before = GraphModel { nodes: g.nodes, edges: pairs_joined(g.edges, order, k - 1) };
        let (i, j) = (order[2 * k - 2], order[2 * k - 1]);
        assert(i < g0.nodes && j < g0.nodes && i != j);
        if !joined(before.edges, i, j) {
            lemma_grown_push(g0, before, i, j);
        }
    }
}

proof fn lemma_rounds_from(g0: GraphModel, g: GraphModel, orders: Seq<Seq<usize>>)
    requires
        grown_from(g0, g),
        forall|t: int| 0 <= t < orders.len() ==> vertex_order(g0.nodes, #[trigger] orders[t]),
    ensures
        grown_from(g0, (GraphModel { nodes: g.nodes, edges: rounds_joined(g.edges, orders) })),
        rounds_joined(g.edges, orders).len() <= g.edges.len() + g0.nodes * orders.len(),
    decreases orders.len(),
{
    let n = g0.nodes;
    if orders.len() > 0 {
        let front = orders.drop_last();
        assert forall|t: int| 0 <= t < front.len() implies vertex_order(
            g0.nodes,
            #[trigger] front[t],
        ) by {
            assert(front[t] == orders[t]);
        }
        lemma_rounds_from(g0, g, front);
        let before = GraphModel { nodes: g.nodes, edges: rounds_joined(g.edges, front) };
        let last = orders[orders.len() - 1];
        assert(vertex_order(g0.nodes, last));
        lemma_pairs_from(g0, before, last, last.len() as int / 2);
        let r = orders.len();
        assert(n * r == n * (r - 1) + n) by (nonlinear_arith);
    } else {
        assert(n * 0 == 0) by (nonlinear_arith);
    }
}

/// A graph that the construction comes to has at most [`growth_bound`] new edges.
proof fn lemma_part_bounded(g0: GraphModel, g: GraphModel, rounds: int)
    requires
        g0.wf(),
        g0.nodes <= usize::MAX,
        0 <= rounds,
        grown_in_part(g0, g, rounds),
    ensures
        g.edges.len() <= g0.edges.len() + growth_bound(g0, rounds),
{
    let n = g0.nodes;
    let top = max_degree(g0.edges, g0.nodes as int);
    let mid = if regularly_grown(g0, g) {
        g
    } else {
        let (mid, orders, order, k) = choose|
            mid: GraphModel,
            orders: Seq<Seq<usize>>,
            order: Seq<usize>,
            k: int,
        |
            {
                &&& regularly_grown(g0, mid)
                &&& regularized(g0, mid)
                &&& orders.len() < rounds
                &&& forall|t: int| 0 <= t < orders.len() ==> vertex_order(g0.nodes, #[trigger] orders[t])
                &&& vertex_order(g0.nodes, order)
                &&& 0 < k <= order.len() as int / 2
                &&& g.nodes == g0.nodes
                &&& g.edges == #[trigger] pairs_joined(rounds_joined(mid.edges, orders), order, k)
            };
        lemma_rounds_from(g0, mid, orders);
        let before = GraphModel { nodes: mid.nodes, edges: rounds_joined(mid.edges, orders) };
        lemma_pairs_from(g0, before, order, k);
        let r = orders.len() as int;
        assert(n * r + n <= n * rounds) by (nonlinear_arith)
            requires
                r < rounds,
                n >= 0,
        ;
        mid
    };
    assert(g.edges.len() <= mid.edges.len() + n * rounds) by {
        assert(0 <= n * rounds) by (nonlinear_arith)
            requires
                0 <= rounds,
        ;
    }
    lemma_ends_in_range(g0, mid);
    lemma_ends_in_range(g0, g);
    assert forall|v: usize| v < mid.nodes implies #[trigger] degree_of(mid.edges, v) <= top by {
        lemma_degrees_kept(g0, mid, mid.edges.len() as int, v);
        assert(mid.edges.take(mid.edges.len() as int) =~= mid.edges);
    }
    lemma_added_bounded(g0, mid, top);
    lemma_growth_bounded(g0, g);
}

proof fn lemma_ends_in_range(g0: GraphModel, g: GraphModel)
    requires
        g0.wf(),
        grown_from(g0, g),
    ensures
        forall|k: int|
            0 <= k < g.edges.len() ==> (#[trigger] g.edges[k]).0 < g.nodes && g.edges[k].1 < g.nodes,
{
    assert forall|k: int| 0 <= k < g.edges.len() implies (#[trigger] g.edges[k]).0 < g.nodes
        && g.edges[k].1 < g.nodes by {
        if k < g0.edges.len() {
            assert(g.edges.take(g0.edges.len() as int)[k] == g.edges[k]);
            assert(g0.edges[k].0 < g0.nodes);
        }
    }
}

/// Where there is room for all edges that may be added and for the weights by which pairs
/// are drawn, the construction comes to its end, whatever is drawn.
pub proof fn law_room_to_grow_suffices(g0: GraphModel, g: GraphModel, rounds: int)
    requires
        g0.wf(),
        g0.nodes <= usize::MAX,
        0 <= rounds,
        room_to_grow(g0, rounds),
    ensures
        !out_of_room(g0, g, rounds),
{
    let n = g0.nodes;
    let top = max_degree(g0.edges, g0.nodes as int);
    if out_of_room(g0, g, rounds) {
        if regularly_grown(g0, g) && overweight(g, top) {
            let pairs = choose|pairs: Seq<(usize, usize)>| #[trigger]
                all_candidates(g, top, pairs) && total_weight(g.edges, top, pairs) > usize::MAX;
            assert forall|k: int| 0 <= k < pairs.len() implies (#[trigger] pairs[k]).0 < n
                && pairs[k].1 < n && degree_of(g.edges, pairs[k].0) < top && degree_of(
                g.edges,
                pairs[k].1,
            ) < top by {
                assert(pairs.contains((pairs[k].0, pairs[k].1)));
            }
            lemma_pairs_bounded(pairs, n);
            lemma_total_bounded(g.edges, top, pairs);
            let count = pairs.len();
            assert(count * (top * top) <= (n * n) * (top * top)) by (nonlinear_arith)
                requires
                    0 <= count <= n * n,
                    0 <= top * top,
            ;
            assert((n * n) * (top * top) == (n * top) * (n * top)) by (nonlinear_arith);
        } else {
            let next = choose|next: GraphModel| #[trigger]
                grown_in_part(g0, next, rounds) && next.nodes == g.nodes && next.edges.len()
                    > u32::MAX && next.edges.drop_last() == g.edges;
            lemma_part_bounded(g0, next, rounds);
        }
    }
}

/// With all vertices joined that lack degree, the graph is regularized.
proof fn lemma_regularized(g0: GraphModel, g: GraphModel)
    requires
        forall|i: usize, j: usize|
            !#[trigger] is_candidate(g, max_degree(g0.edges, g0.nodes as int), i, j),
    ensures
        regularized(g0, g),
{
    let top = max_degree(g0.edges, g0.nodes as int);
    assert forall|i: usize, j: usize|
        #![trigger degree_of(g.edges, i), degree_of(g.edges, j)]
        i < j < g.nodes && degree_of(g.edges, i) < top && degree_of(g.edges, j)
            < top implies joined(g.edges, i, j) by {
        assert(!is_candidate(g, top, i, j));
    }
}

/// The next edge of a matching would have no number.
proof fn lemma_matching_outgrown(
    g0: GraphModel,
    mid: GraphModel,
    orders: Seq<Seq<usize>>,
    order: Seq<usize>,
    half: int,
    rounds: int,
    g: GraphModel,
)
    requires
        regularly_grown(g0, mid),
        regularized(g0, mid),
        orders.len() < rounds,
        forall|t: int| 0 <= t < orders.len() ==> vertex_order(g0.nodes, #[trigger] orders[t]),
        vertex_order(g0.nodes, order),
        0 < half <= order.len() as int / 2,
        g.nodes == g0.nodes,
        g.edges == pairs_joined(rounds_joined(mid.edges, orders), order, half - 1),
        !joined(g.edges, order[2 * half - 2], order[2 * half - 1]),
        g.edges.len() >= u32::MAX,
    ensures
        out_of_room(g0, g, rounds),
{
    let e = (order[2 * half - 2], order[2 * half - 1]);
    let next = GraphModel { nodes: g.nodes, edges: g.edges.push(e) };
    assert(next.edges == pairs_joined(rounds_joined(mid.edges, orders), order, half));
    assert(next.edges.drop_last() =~= g.edges);
    assert(grown_in_part(g0, next, rounds));
}

/// The vertices in random order.
fn shuffled_vertices(n: usize, rng: &mut StdRng) -> (r: Vec<usize>)
    ensures
        r@.len() == n,
        r@.no_duplicates(),
        forall|k: int| 0 <= k < r@.len() ==> #[trigger] r@[k] < n,
{
    let mut r: Vec<usize> = Vec::new();
    for v in 0..n
        invariant
            r@.len() == v,
            forall|k: int| 0 <= k < v ==> #[trigger] r@[k] == k,
    {
        r.push(v);
    }
    let ghost before = r@;
    shuffle(rng, &mut r);
    proof {
        before.lemma_multiset_has_no_duplicates();
        r@.lemma_multiset_has_no_duplicates_conv();
        assert forall|k: int| 0 <= k < r@.len() implies #[trigger] r@[k] < n by {
            assert(r@.contains(r@[k]));
            let i = before.index_of(r@[k]);
            assert(before[i] == i);
        }
    }
    r
}

/// Congestion-aware expander construction. Degrees are regularized by random edges,
/// then random matchings are added, until the decongestion layers reach the layers
/// that the expansion of the graph asks for. The forest is grown anew after every
/// `reset_period` edges; `max_iterations` bounds the matchings; `qubit_degree` is the
/// load that an edge may carry in a layer. `None` if a graph on the way outgrows the
/// numbers.
#[verifier::spinoff_prover]
#[verifier::rlimit(40)]
pub fn congestion_aware_expander<F: Fn(&AncillaGraph) -> usize>(
    g0: &AncillaGraph,
    reset_period: usize,
    max_iterations: usize,
    qubit_degree: usize,
    rng: &mut StdRng,
    expansion: &F,
) -> (r: Option<CongestionAwareExpander>)
    requires
        forall|g: &AncillaGraph| call_requires(*expansion, (g,)),
    ensures
        match r {
            Some(x) => {
                &&& x.grown_with(g0@, reset_period, load_bound(qubit_degree), *expansion)
                &&& grown_in_full(g0@, x.graph@, max_iterations as int) || (x.decongestion_layers
                    >= x.needed && grown_in_part(g0@, x.graph@, max_iterations as int))
            },
            None => outgrown(
                g0@,
                reset_period,
                load_bound(qubit_degree),
                max_iterations as int,
                *expansion,
            ),
        },
{
    let n: usize = g0.node_count();
    let m: usize = g0.edge_count();
    let ghost bound = load_bound(qubit_degree);
    let ghost rounds = max_iterations as int;
    let mut s = start_expansion(g0, qubit_degree, rng, expansion);
    let mut step: usize = 0;
    assert(g0@.edges.take(g0@.edges.len() as int) =~= g0@.edges);
    assert(s.holds(g0@, reset_period, bound, *expansion));
    if s.layers >= s.needed {
        return Some(s.finish());
    }
    let top: usize = highest_degree(&s.g);
    proof {
        lemma_max_degree(g0@.edges, n as int);
    }
    loop
        invariant
            n == g0@.nodes,
            rounds == max_iterations,
            top <= u32::MAX,
            forall|g: &AncillaGraph| call_requires(*expansion, (g,)),
            bound == load_bound(qubit_degree),
            s.holds(g0@, reset_period, bound, *expansion),
            s.ready(g0@.nodes, reset_period),
            s.layers < s.needed,
            regularly_grown(g0@, s.g@),
            top == max_degree(g0@.edges, g0@.nodes as int),
            step == s.g@.edges.len() - g0@.edges.len(),
        ensures
            s.holds(g0@, reset_period, bound, *expansion),
            s.ready(g0@.nodes, reset_period),
            s.layers < s.needed,
            regularly_grown(g0@, s.g@),
            regularized(g0@, s.g@),
            step == s.g@.edges.len() - g0@.edges.len(),
        decreases u32::MAX - s.g@.edges.len(),
    {
        let (i, j) = match draw_pair(&s.g, top, rng) {
            Some(Some(pair)) => pair,
            Some(None) => {
                proof {
                    lemma_regularized(g0@, s.g@);
                }
                break ;
            },
            None => {
                assert(s.run@.last().graph(g0@.nodes) == s.g@);
                return None;
            },
        };
        proof {
            lemma_regularly_push(g0@, s.g@, i, j);
        }
        if s.g.edge_count() >= u32::MAX as usize {
            proof {
                let next = GraphModel { nodes: s.g@.nodes, edges: s.g@.edges.push((i, j)) };
                assert(next.edges.drop_last() =~= s.g@.edges);
                assert(grown_in_part(g0@, next, rounds));
                assert(s.run@.last().graph(g0@.nodes) == s.g@);
                assert(out_of_room(g0@, s.g@, rounds));
            }
            return None;
        }
        insert_edge(&mut s, i, j, expansion, Ghost(g0@), Ghost(reset_period), Ghost(bound));
        if s.layers >= s.needed {
            return Some(s.finish());
        }
        step = step + 1;
        renew_forest(&mut s, reset_period, step, Ghost(g0@), Ghost(bound), expansion);
    }
    let ghost mid = s.g@;
    let ghost mut orders: Seq<Seq<usize>> = Seq::empty();
    let mut round: usize = 0;
    while round < max_iterations
        invariant
            n == g0@.nodes,
            rounds == max_iterations,
            forall|g: &AncillaGraph| call_requires(*expansion, (g,)),
            bound == load_bound(qubit_degree),
            s.holds(g0@, reset_period, bound, *expansion),
            s.ready(g0@.nodes, reset_period),
            s.layers < s.needed,
            regularly_grown(g0@, mid),
            regularized(g0@, mid),
            orders.len() == round,
            forall|t: int| 0 <= t < orders.len() ==> vertex_order(g0@.nodes, #[trigger] orders[t]),
            s.g@.edges == rounds_joined(mid.edges, orders),
            step == s.g@.edges.len() - g0@.edges.len(),
            round <= max_iterations,
        decreases max_iterations - round,
    {
        let unmatched = shuffled_vertices(n, rng);
        let mut k: usize = 0;
        let ghost mut half: int = 0;
        let ghost base = s.g@.edges;
        while k < n && n - k > 1
            invariant
                n == g0@.nodes,
                rounds == max_iterations,
                round < max_iterations,
                vertex_order(g0@.nodes, unmatched@),
                forall|g: &AncillaGraph| call_requires(*expansion, (g,)),
                bound == load_bound(qubit_degree),
                s.holds(g0@, reset_period, bound, *expansion),
                s.ready(g0@.nodes, reset_period),
                s.layers < s.needed,
                regularly_grown(g0@, mid),
                regularized(g0@, mid),
                orders.len() == round,
                forall|t: int|
                    0 <= t < orders.len() ==> vertex_order(g0@.nodes, #[trigger] orders[t]),
                base == rounds_joined(mid.edges, orders),
                s.g@.edges == pairs_joined(base, unmatched@, half),
                step == s.g@.edges.len() - g0@.edges.len(),
                k == 2 * half,
                k <= n,
            decreases n - k,
        {
            let (i, j) = (unmatched[k], unmatched[k + 1]);
            k = k + 2;
            let found = s.g.find_edge(i, j);
            proof {
                lemma_edge_between(s.g@.edges, i, j);
                assert(i != j);
                half = half + 1;
                assert(unmatched@[2 * half - 2] == i && unmatched@[2 * half - 1] == j);
                assert(half <= unmatched@.len() as int / 2);
            }
            if found.is_none() {
                if s.g.edge_count() >= u32::MAX as usize {
                    proof {
                        lemma_matching_outgrown(g0@, mid, orders, unmatched@, half, rounds, s.g@);
                        assert(s.run@.last().graph(g0@.nodes) == s.g@);
                    }
                    return None;
                }
                insert_edge(&mut s, i, j, expansion, Ghost(g0@), Ghost(reset_period), Ghost(bound));
                assert(s.g@.edges == pairs_joined(base, unmatched@, half));
                if s.layers >= s.needed {
                    return Some(s.finish());
                }
                step = step + 1;
                renew_forest(
                    &mut s,
                    reset_period,
                    step,
                    Ghost(g0@),
                    Ghost(bound),
                    expansion,
                );
            }
        }
        round = round + 1;
        proof {
            let longer = orders.push(unmatched@);
            assert(longer.drop_last() =~= orders);
            assert(half == unmatched@.len() as int / 2);
            orders = longer;
        }
    }
    Some(s.finish())
}

// ---------------------------------------------------------------------------
// Expansion alone
// ---------------------------------------------------------------------------
/// The graph with the first `m` edges of `g`.
pub open spec fn graph_prefix(g: GraphModel, m: int) -> GraphModel {
    GraphModel { nodes: g.nodes, edges: g.edges.take(m) }
}

/// Asked about the graph, `expands` said no.
pub open spec fn turned_down<F: Fn(&AncillaGraph) -> bool>(expands: F, g: GraphModel) -> bool {
    exists|h: AncillaGraph| h@ == g && #[trigger] call_ensures(expands, (&h,), false)
}

/// Every graph on the way from `g0` to `g` was turned down.
pub open spec fn pressed_on<F: Fn(&AncillaGraph) -> bool>(
    expands: F,
    g0: GraphModel,
    g: GraphModel,
) -> bool {
    forall|m: int|
        g0.edges.len() <= m < g.edges.len() ==> turned_down(expands, #[trigger] graph_prefix(g, m))
}

proof fn lemma_pressed_push<F: Fn(&AncillaGraph) -> bool>(
    expands: F,
    g0: GraphModel,
    g: GraphModel,
    e: Edge,
)
    requires
        pressed_on(expands, g0, g),
        turned_down(expands, g),
    ensures
        pressed_on(expands, g0, (GraphModel { nodes: g.nodes, edges: g.edges.push(e) })),
{
    let more = GraphModel { nodes: g.nodes, edges: g.edges.push(e) };
    assert forall|m: int| g0.edges.len() <= m < more.edges.len() implies turned_down(
        expands,
        #[trigger] graph_prefix(more, m),
    ) by {
        if m < g.edges.len() {
            assert(more.edges.take(m) =~= g.edges.take(m));
            assert(graph_prefix(more, m) == graph_prefix(g, m));
        } else {
            assert(more.edges.take(m) =~= g.edges);
            assert(graph_prefix(more, m) == g);
        }
    }
}

/// Conditioned expander construction: the same random growth, until the expansion of
/// the graph is enough. `tau` bounds the random matchings. `None` if the graph outgrows
/// the numbers.
#[verifier::spinoff_prover]
#[verifier::rlimit(40)]
pub fn conditioned_expander_graph<F: Fn(&AncillaGraph) -> bool>(
    g0: &AncillaGraph,
    tau: usize,
    rng: &mut StdRng,
    expands: &F,
) -> (r: Option<AncillaGraph>)
    requires
        forall|g: &AncillaGraph| call_requires(*expands, (g,)),
    ensures
        g0@.nodes < 2 ==> (r matches Some(g) && g@ == g0@),
        g0@.nodes >= 2 ==> match r {
            Some(g) => {
                &&& grown_from(g0@, g@)
                &&& pressed_on(*expands, g0@, g@)
                &&& grown_in_full(g0@, g@, tau as int) || (call_ensures(*expands, (&g,), true)
                    && grown_in_part(g0@, g@, tau as int))
            },
            None => exists|g: GraphModel| #[trigger]
                pressed_on(*expands, g0@, g) && turned_down(*expands, g) && grown_from(g0@, g)
                    && out_of_room(g0@, g, tau as int),
        },
{
    let n: usize = g0.node_count();
    let m: usize = g0.edge_count();
    let ghost rounds = tau as int;
    let mut g = g0.clone();
    assert(g0@.edges.take(g0@.edges.len() as int) =~= g0@.edges);
    if n < 2 || expands(&g) {
        return Some(g);
    }
    assert(turned_down(*expands, g@));
    let top: usize = highest_degree(&g);
    proof {
        lemma_max_degree(g0@.edges, n as int);
    }
    loop
        invariant
            n == g0@.nodes,
            n >= 2,
            rounds == tau,
            top <= u32::MAX,
            forall|h: &AncillaGraph| call_requires(*expands, (h,)),
            grown_from(g0@, g@),
            pressed_on(*expands, g0@, g@),
            turned_down(*expands, g@),
            regularly_grown(g0@, g@),
            top == max_degree(g0@.edges, g0@.nodes as int),
        ensures
            pressed_on(*expands, g0@, g@),
            turned_down(*expands, g@),
            regularly_grown(g0@, g@),
            regularized(g0@, g@),
        decreases u32::MAX - g@.edges.len(),
    {
        let (i, j) = match draw_pair(&g, top, rng) {
            Some(Some(pair)) => pair,
            Some(None) => {
                proof {
                    lemma_regularized(g0@, g@);
                }
                break ;
            },
            None => {
                assert(out_of_room(g0@, g@, rounds));
                return None;
            },
        };
        proof {
            lemma_regularly_push(g0@, g@, i, j);
            lemma_pressed_push(*expands, g0@, g@, (i, j));
        }
        if g.edge_count() >= u32::MAX as usize {
            proof {
                let next = GraphModel { nodes: g@.nodes, edges: g@.edges.push((i, j)) };
                assert(next.edges.drop_last() =~= g@.edges);
                assert(grown_in_part(g0@, next, rounds));
                assert(out_of_room(g0@, g@, rounds));
            }
            return None;
        }
        g.add_edge(i, j);
        if expands(&g) {
            return Some(g);
        }
        assert(turned_down(*expands, g@));
    }
    let ghost mid = g@;
    let ghost mut orders: Seq<Seq<usize>> = Seq::empty();
    let mut round: usize = 0;
    while round < tau
        invariant
            n == g0@.nodes,
            n >= 2,
            rounds == tau,
            forall|h: &AncillaGraph| call_requires(*expands, (h,)),
            grown_from(g0@, g@),
            pressed_on(*expands, g0@, g@),
            turned_down(*expands, g@),
            regularly_grown(g0@, mid),
            regularized(g0@, mid),
            orders.len() == round,
            forall|t: int| 0 <= t < orders.len() ==> vertex_order(g0@.nodes, #[trigger] orders[t]),
            g@.edges == rounds_joined(mid.edges, orders),
            round <= tau,
        decreases tau - round,
    {
        let unmatched = shuffled_vertices(n, rng);
        let mut k: usize = 0;
        let ghost mut half: int = 0;
        let ghost base = g@.edges;
        while k < n && n - k > 1
            invariant
                n == g0@.nodes,
                n >= 2,
                rounds == tau,
                round < tau,
                vertex_order(g0@.nodes, unmatched@),
                forall|h: &AncillaGraph| call_requires(*expands, (h,)),
                grown_from(g0@, g@),
                pressed_on(*expands, g0@, g@),
                turned_down(*expands, g@),
                regularly_grown(g0@, mid),
                regularized(g0@, mid),
                orders.len() == round,
                forall|t: int|
                    0 <= t < orders.len() ==> vertex_order(g0@.nodes, #[trigger] orders[t]),
                base == rounds_joined(mid.edges, orders),
                g@.edges == pairs_joined(base, unmatched@, half),
                k == 2 * half,
                k <= n,
            decreases n - k,
        {
            let (i, j) = (unmatched[k], unmatched[k + 1]);
            k = k + 2;
            let found = g.find_edge(i, j);
            proof {
                lemma_edge_between(g@.edges, i, j);
                assert(i != j);
                half = half + 1;
                assert(unmatched@[2 * half - 2] == i && unmatched@[2 * half - 1] == j);
                assert(half <= unmatched@.len() as int / 2);
            }
            if found.is_none() {
                if g.edge_count() >= u32::MAX as usize {
                    proof {
                        lemma_matching_outgrown(g0@, mid, orders, unmatched@, half, rounds, g@);
                    }
                    return None;
                }
                proof {
                    lemma_grown_push(g0@, g@, i, j);
                    lemma_pressed_push(*expands, g0@, g@, (i, j));
                }
                g.add_edge(i, j);
                assert(g@.edges == pairs_joined(base, unmatched@, half));
                if expands(&g) {
                    return Some(g);
                }
                assert(turned_down(*expands, g@));
            }
        }
        round = round + 1;
        proof {
            let longer = orders.push(unmatched@);
            assert(longer.drop_last() =~= orders);
            assert(half == unmatched@.len() as int / 2);
            orders = longer;
        }
    }
    Some(g)
}

proof fn lemma_without_keeps(list: Seq<usize>, x: usize, y: usize)
    requires
        list.contains(y),
        y != x,
    ensures
        without(list, x).contains(y),
    decreases list.len(),
{
    let front = list.drop_last();
    let i = list.index_of(y);
    if i == list.len() - 1 {
        let kept = without(list, x);
        assert(kept[kept.len() - 1] == y);
    } else {
        assert(front[i] == y);
        lemma_without_keeps(front, x, y);
        let rest = without(front, x);
        let j = rest.index_of(y);
        assert(without(list, x)[j] == y);
    }
}

/// A link that is not the one removed stays.
pub(crate) proof fn lemma_unlinked_keeps(lists: Seq<Seq<usize>>, a: usize, b: usize, u: usize, v: usize)
    requires
        a < lists.len(),
        b < lists.len(),
        u < lists.len(),
        lists[u as int].contains(v),
        !(u == a && v == b),
        !(u == b && v == a),
    ensures
        unlinked(lists, a, b)[u as int].contains(v),
{
    let once = lists.update(a as int, without(lists[a as int], b));
    if u == a && v != b {
        lemma_without_keeps(lists[a as int], b, v);
    }
    assert(once[u as int].contains(v));
    if u == b && v != a {
        lemma_without_keeps(once[b as int], a, v);
    }
}

proof fn lemma_linked_keeps(lists: Seq<Seq<usize>>, a: usize, b: usize, u: usize, v: usize)
    requires
        a < lists.len(),
        b < lists.len(),
        u < lists.len(),
    ensures
        lists[u as int].contains(v) ==> linked(lists, a, b)[u as int].contains(v),
        linked(lists, a, b)[a as int].contains(b),
{
    let once = lists.update(a as int, lists[a as int].push(b));
    let twice = linked(lists, a, b);
    if lists[u as int].contains(v) {
        let i = lists[u as int].index_of(v);
        assert(once[u as int][i] == v);
        assert(twice[u as int][i] == v);
    }
    let n = lists[a as int].len() as int;
    assert(once[a as int][n] == b);
    assert(twice[a as int][n] == b);
}

/// Along a path whose links respect a labelling, the labels agree.
proof fn lemma_label_along(path: Seq<usize>, c: spec_fn(usize) -> int, i: int, j: int)
    requires
        0 <= i <= j < path.len(),
        forall|k: int| #![trigger path[k]] i <= k < j ==> c(path[k]) == c(path[k + 1]),
    ensures
        c(path[i]) == c(path[j]),
    decreases j - i,
{
    if i < j {
        lemma_label_along(path, c, i, j - 1);
        assert(c(path[j - 1]) == c(path[j]));
    }
}

/// The forest stays spanning: whatever was connected before is connected after, and so
/// are the ends of the new edge. In terms of labellings: one that is constant along
/// the links afterwards is constant along the links before and along the new edge.
pub proof fn law_update_keeps_spanning(
    before: Seq<Seq<usize>>,
    u: usize,
    v: usize,
    after: Seq<Seq<usize>>,
    cycle: Option<Seq<Edge>>,
    c: spec_fn(usize) -> int,
)
    requires
        u < before.len(),
        v < before.len(),
        u != v,
        forest_updated(before, u, v, after, cycle),
        respects(after, c),
    ensures
        respects(before, c),
        c(u) == c(v),
{
    match cycle {
        None => {
            lemma_linked_keeps(before, u, v, u, v);
            assert forall|x: usize, y: usize|
                #![trigger before[x as int].contains(y)]
                x < before.len() && before[x as int].contains(y) implies c(x) == c(y) by {
                lemma_linked_keeps(before, u, v, x, y);
                assert(after[x as int].contains(y));
            }
            assert(after[u as int].contains(v));
        },
        Some(_) => {
            let p = choose|p: Seq<usize>|
                {
                    &&& #[trigger] list_path(before, p, u, v)
                    &&& forall|q: Seq<usize>| #[trigger] list_path(before, q, u, v) ==> p.len()
                        <= q.len()
                    &&& cycle == Some(closed_path(p, u, v))
                    &&& after == linked(unlinked(before, p[0], p[1]), u, v)
                };
            assert(p.len() >= 2) by {
                if p.len() == 1 {
                    assert(p[0] == p.last());
                }
            }
            let (a, b) = (p[0], p[1]);
            assert(a < before.len() && b < before.len());
            let cut = unlinked(before, a, b);
            lemma_linked_keeps(cut, u, v, u, v);
            assert(after[u as int].contains(v));
            assert(c(u) == c(v));
            let n = p.len() - 1;
            assert forall|k: int| #![trigger p[k]] 1 <= k < n implies c(p[k]) == c(p[k + 1]) by {
                assert(before[p[k] as int].contains(p[k + 1]));
                assert(p[k] != p[0] && p[k + 1] != p[0]);
                lemma_unlinked_keeps(before, a, b, p[k], p[k + 1]);
                lemma_linked_keeps(cut, u, v, p[k], p[k + 1]);
                assert(after[p[k] as int].contains(p[k + 1]));
            }
            lemma_label_along(p, c, 1, n);
            assert(c(a) == c(b));
            assert forall|x: usize, y: usize|
                #![trigger before[x as int].contains(y)]
                x < before.len() && before[x as int].contains(y) implies c(x) == c(y) by {
                if !(x == a && y == b) && !(x == b && y == a) {
                    lemma_unlinked_keeps(before, a, b, x, y);
                    lemma_linked_keeps(cut, u, v, x, y);
                    assert(after[x as int].contains(y));
                }
            }
        },
    }
}

} // verus!
