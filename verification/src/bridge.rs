//! What bridging two measurement graphs gives: a matching between their ports, and
//! one connected graph with a new cycle for every bridge edge but the first.

use vstd::prelude::*;

#[allow(unused_imports)]
use crate::components::{
    component_count, law_one_component_is_connected, leads_component, lemma_reach_edge,
    lemma_reach_on,
};
#[allow(unused_imports)]
use crate::expander::lemma_neighbours;
#[allow(unused_imports)]
use crate::graph::{is_walk, joined, neighbours_of, reachable, Edge, GraphModel};
#[allow(unused_imports)]
use crate::pbc::{BlockLabel, CodeQubit};
#[allow(unused_imports)]
use crate::skiptree::{
    breadth_first_tree, found, fresh, is_tree, label_walks, labels_tree, law_label_walks, link,
    link_walk, skip_order, steps_over, thrice_over,
};
#[allow(unused_imports)]
use crate::surgery::{
    at_places, bridge_edges, bridged, flat_groups, grouped_ports, induced_lists, labeled, last_place,
    least, places_of, port_order, ports_labelled, ports_of, shifted, SurgeryGraph,
};

verus! {

// ---------------------------------------------------------------------------
// A matching
// ---------------------------------------------------------------------------
proof fn lemma_ports_of<K>(labels: Seq<Option<CodeQubit<K>>>, block: K)
    requires
        labels.len() <= usize::MAX,
    ensures
        ports_of(labels, block).no_duplicates(),
        forall|i: int|
            0 <= i < ports_of(labels, block).len() ==> ({
                let p = #[trigger] ports_of(labels, block)[i];
                &&& p < labels.len()
                &&& labels[p as int] matches Some(q)
                &&& q.block == block
            }),
    decreases labels.len(),
{
    if labels.len() > 0 {
        let front = labels.drop_last();
        lemma_ports_of(front, block);
        let before = ports_of(front, block);
        let now = ports_of(labels, block);
        assert forall|i: int| 0 <= i < now.len() implies ({
            let p = #[trigger] now[i];
            &&& p < labels.len()
            &&& labels[p as int] matches Some(q)
            &&& q.block == block
        }) by {
            if i < before.len() {
                assert(now[i] == before[i]);
                assert(front[before[i] as int] == labels[before[i] as int]);
            } else {
                assert(labels[labels.len() - 1] == labels.last());
            }
        }
        assert forall|i: int, j: int| 0 <= i < now.len() && 0 <= j < now.len() && i != j implies
            now[i] != now[j] by {
            if i < before.len() {
                assert(now[i] == before[i]);
            }
            if j < before.len() {
                assert(now[j] == before[j]);
            }
        }
    }
}

/// The vertex is a port of the block of one of the groups.
spec fn port_of_group<K>(
    labels: Seq<Option<CodeQubit<K>>>,
    groups: Seq<(K, Vec<usize>)>,
    p: usize,
) -> bool {
    p < labels.len() && labels[p as int] is Some && exists|i: int|
        0 <= i < groups.len() && (#[trigger] groups[i]).0 == labels[p as int]->0.block
}

/// The groups hold different ports.
proof fn lemma_flat_groups<K: BlockLabel>(
    labels: Seq<Option<CodeQubit<K>>>,
    groups: Seq<(K, Vec<usize>)>,
)
    requires
        labels.len() <= usize::MAX,
        forall|i: int, j: int|
            #![trigger groups[i], groups[j]]
            0 <= i < j < groups.len() ==> groups[i].0.rank() < groups[j].0.rank(),
        forall|i: int|
            0 <= i < groups.len() ==> (#[trigger] groups[i]).1@ == ports_of(labels, groups[i].0),
    ensures
        flat_groups(groups).no_duplicates(),
        forall|x: int|
            0 <= x < flat_groups(groups).len() ==> port_of_group(
                labels,
                groups,
                #[trigger] flat_groups(groups)[x],
            ),
    decreases groups.len(),
{
    if groups.len() > 0 {
        let front = groups.drop_last();
        let n = groups.len() - 1;
        assert forall|i: int, j: int|
            #![trigger front[i], front[j]]
            0 <= i < j < front.len() implies front[i].0.rank() < front[j].0.rank() by {
            assert(groups[i].0.rank() < groups[j].0.rank());
        }
        assert forall|i: int| 0 <= i < front.len() implies (#[trigger] front[i]).1@ == ports_of(
            labels,
            front[i].0,
        ) by {
            assert(groups[i].1@ == ports_of(labels, groups[i].0));
        }
        lemma_flat_groups(labels, front);
        let before = flat_groups(front);
        let block = groups[n].0;
        let here = ports_of(labels, block);
        assert(groups[n].1@ == here);
        lemma_ports_of(labels, block);
        let now = flat_groups(groups);
        assert(now == before + here);
        assert forall|x: int| 0 <= x < now.len() implies port_of_group(
            labels,
            groups,
            #[trigger] now[x],
        ) by {
            if x < before.len() {
                assert(now[x] == before[x]);
                assert(port_of_group(labels, front, before[x]));
                let i = choose|i: int|
                    0 <= i < front.len() && (#[trigger] front[i]).0
                        == labels[before[x] as int]->0.block;
                assert(groups[i].0 == labels[before[x] as int]->0.block);
            } else {
                assert(now[x] == here[x - before.len()]);
                assert(groups[n].0 == block);
            }
        }
        assert forall|x: int, y: int| 0 <= x < now.len() && 0 <= y < now.len() && x != y implies
            now[x] != now[y] by {
            if x < before.len() && y < before.len() {
                assert(now[x] == before[x] && now[y] == before[y]);
            } else if x >= before.len() && y >= before.len() {
                assert(now[x] == here[x - before.len()] && now[y] == here[y - before.len()]);
            } else {
                let (a, b) = if x < before.len() {
                    (x, y - before.len())
                } else {
                    (y, x - before.len())
                };
                assert(port_of_group(labels, front, before[a]));
                let i = choose|i: int|
                    0 <= i < front.len() && (#[trigger] front[i]).0
                        == labels[before[a] as int]->0.block;
                assert(groups[i].0.rank() < groups[n].0.rank());
                assert(labels[here[b] as int]->0.block == block);
            }
        }
    }
}

/// A SkipTree order lists ports, each once.
proof fn lemma_labeled<K: BlockLabel>(g: SurgeryGraph<K>, order: Seq<usize>)
    requires
        g.wf(),
        g.graph@.nodes <= usize::MAX,
        labeled(g, order),
    ensures
        order.no_duplicates(),
        forall|i: int|
            0 <= i < order.len() ==> (#[trigger] order[i]) < g.graph@.nodes
                && g.labels@[order[i] as int] is Some,
{
    let groups = choose|groups: Seq<(K, Vec<usize>)>| #[trigger]
        grouped_ports(g.labels@, groups) && port_order(g.graph@.edges, flat_groups(groups), order);
    lemma_flat_groups(g.labels@, groups);
    let ports = flat_groups(groups);
    assert forall|i: int| 0 <= i < order.len() implies (#[trigger] order[i]) < g.graph@.nodes
        && g.labels@[order[i] as int] is Some by {
        assert(ports.contains(order[i]));
        let x = ports.index_of(order[i]);
        assert(ports[x] == order[i]);
        assert(port_of_group(g.labels@, groups, ports[x]));
    }
}

/// A bridge is a matching: each of its edges joins a port of the one graph to a port
/// of the other, and no two share a vertex.
pub proof fn law_bridge_is_matching<K: BlockLabel>(
    left: SurgeryGraph<K>,
    right: SurgeryGraph<K>,
    lo: Seq<usize>,
    ro: Seq<usize>,
    d: nat,
)
    requires
        left.wf(),
        right.wf(),
        left.graph@.nodes + right.graph@.nodes <= usize::MAX,
        labeled(left, lo),
        labeled(right, ro),
        d <= lo.len(),
        d <= ro.len(),
    ensures
        ({
            let offset = left.graph@.nodes;
            let edges = bridge_edges(lo, ro, offset, d);
            &&& forall|i: int|
                0 <= i < d ==> (#[trigger] edges[i]).0 < offset && left.labels@[edges[i].0 as int] is Some
                    && offset <= edges[i].1 < offset + right.graph@.nodes && right.labels@[edges[i].1
                    - offset] is Some
            &&& forall|i: int, j: int|
                0 <= i < d && 0 <= j < d && i != j ==> (#[trigger] edges[i]).0 != (
                #[trigger] edges[j]).0 && edges[i].1 != edges[j].1
        }),
{
    let offset = left.graph@.nodes;
    let edges = bridge_edges(lo, ro, offset, d);
    lemma_labeled(left, lo);
    lemma_labeled(right, ro);
    assert forall|i: int| 0 <= i < d implies (#[trigger] edges[i]).0 < offset
        && left.labels@[edges[i].0 as int] is Some && offset <= edges[i].1 < offset
        + right.graph@.nodes && right.labels@[edges[i].1 - offset] is Some by {
        assert(lo[i] < offset && ro[i] < right.graph@.nodes);
        assert(edges[i].1 - offset == ro[i]);
    }
    assert forall|i: int, j: int| 0 <= i < d && 0 <= j < d && i != j implies (
    #[trigger] edges[i]).0 != (#[trigger] edges[j]).0 && edges[i].1 != edges[j].1 by {
        assert(lo[i] != lo[j] && ro[i] != ro[j]);
        assert(ro[i] < right.graph@.nodes && ro[j] < right.graph@.nodes);
    }
}

// ---------------------------------------------------------------------------
// One connected graph
// ---------------------------------------------------------------------------
/// Walks in a part of the edges, with every vertex moved up, are walks.
proof fn lemma_reach_moved(
    edges: Seq<Edge>,
    all: Seq<Edge>,
    at: int,
    offset: nat,
    n: nat,
    a: usize,
    b: usize,
)
    requires
        reachable(edges, a, b),
        a < n,
        offset + n <= usize::MAX,
        forall|i: int| 0 <= i < edges.len() ==> (#[trigger] edges[i]).0 < n && edges[i].1 < n,
        0 <= at,
        at + edges.len() <= all.len(),
        forall|i: int| 0 <= i < edges.len() ==> #[trigger] shifted(edges, offset)[i] == all[at + i],
    ensures
        reachable(all, (offset + a) as usize, (offset + b) as usize),
{
    let walk = choose|walk: Seq<usize>| is_walk(edges, walk, a, b);
    let moved = Seq::new(walk.len(), |i: int| (offset + walk[i]) as usize);
    assert forall|i: int| 0 <= i < moved.len() - 1 implies joined(
        all,
        #[trigger] moved[i],
        moved[i + 1],
    ) by {
        let (u, v) = (walk[i], walk[i + 1]);
        assert(joined(edges, u, v));
        let p = if edges.contains((u, v)) {
            edges.index_of((u, v))
        } else {
            edges.index_of((v, u))
        };
        assert(edges[p] == (u, v) || edges[p] == (v, u));
        assert(edges[p].0 < n && edges[p].1 < n);
        assert(shifted(edges, offset)[p] == all[at + p]);
        assert(all.contains(all[at + p]));
    }
    assert(is_walk(all, moved, (offset + a) as usize, (offset + b) as usize));
}

/// Edges less nodes plus components: the number of independent cycles.
pub open spec fn cycle_rank(g: GraphModel) -> int {
    g.edges.len() - g.nodes + component_count(g, g.nodes)
}

proof fn lemma_all_from_first(g: GraphModel, k: nat)
    requires
        0 < k <= g.nodes <= usize::MAX,
        forall|v: usize| v < g.nodes ==> #[trigger] reachable(g.edges, 0, v),
    ensures
        component_count(g, k) == 1,
    decreases k,
{
    if k == 1 {
        assert(component_count(g, 0) == 0);
        assert(leads_component(g, 0));
    } else {
        lemma_all_from_first(g, (k - 1) as nat);
        let v = (k - 1) as usize;
        assert(reachable(g.edges, 0, v));
        assert(!leads_component(g, v as int));
    }
}

/// Bridging two connected graphs by at least one edge gives a connected graph, and
/// every bridge edge after the first closes one new cycle.
#[verifier::spinoff_prover]
pub proof fn law_bridge_connects<K: BlockLabel>(
    left: SurgeryGraph<K>,
    right: SurgeryGraph<K>,
    lo: Seq<usize>,
    ro: Seq<usize>,
    distance: usize,
    r: SurgeryGraph<K>,
)
    requires
        left.wf(),
        right.wf(),
        left.graph@.nodes + right.graph@.nodes <= usize::MAX,
        labeled(left, lo),
        labeled(right, ro),
        bridged(left, right, lo, ro, distance, r),
        least(distance as nat, lo.len(), ro.len()) >= 1,
        component_count(left.graph@, left.graph@.nodes) == 1,
        component_count(right.graph@, right.graph@.nodes) == 1,
    ensures
        component_count(r.graph@, r.graph@.nodes) == 1,
        cycle_rank(r.graph@) == cycle_rank(left.graph@) + cycle_rank(right.graph@) + least(
            distance as nat,
            lo.len(),
            ro.len(),
        ) - 1,
{
    let offset = left.graph@.nodes;
    let n = right.graph@.nodes;
    let le = left.graph@.edges;
    let re = right.graph@.edges;
    let d = least(distance as nat, lo.len(), ro.len());
    let bridge = bridge_edges(lo, ro, offset, d);
    let all = r.graph@.edges;
    law_bridge_is_matching(left, right, lo, ro, d);
    lemma_labeled(left, lo);
    lemma_labeled(right, ro);
    assert(all == le + shifted(re, offset) + bridge);
    assert forall|i: int| 0 <= i < le.len() implies #[trigger] shifted(le, 0)[i] == all[0 + i] by {
        assert(all[i] == le[i]);
        assert(shifted(le, 0)[i] == le[i]);
    }
    assert forall|i: int| 0 <= i < re.len() implies #[trigger] shifted(re, offset)[i] == all[
        le.len() + i] by {}
    let end = le.len() + re.len();
    assert(all[end as int] == bridge[0]);
    let u = bridge[0].0;
    let w = bridge[0].1;
    assert(bridge[0].0 < offset);
    lemma_reach_edge(all, end as int);
    assert(reachable(all, u, w));
    law_one_component_is_connected(left.graph@, 0, u);
    lemma_reach_moved(le, all, 0, 0, offset, 0, u);
    lemma_reach_on(all, 0, u, w);
    assert forall|v: usize| v < r.graph@.nodes implies #[trigger] reachable(all, 0, v) by {
        if v < offset {
            law_one_component_is_connected(left.graph@, 0, v);
            lemma_reach_moved(le, all, 0, 0, offset, 0, v);
        } else {
            let x = (v - offset) as usize;
            let y = (w - offset) as usize;
            law_one_component_is_connected(right.graph@, y, x);
            lemma_reach_moved(re, all, le.len() as int, offset, n, y, x);
            lemma_reach_on(all, 0, w, v);
        }
    }
    lemma_all_from_first(r.graph@, r.graph@.nodes);
}

// ---------------------------------------------------------------------------
// Short cycles that share few edges
// ---------------------------------------------------------------------------
proof fn lemma_fresh_listed(list: Seq<usize>, seen: Seq<usize>, w: usize)
    requires
        fresh(list, seen).contains(w),
    ensures
        list.contains(w),
    decreases list.len(),
{
    if list.len() > 0 {
        let before = fresh(list.drop_last(), seen);
        if before.contains(w) {
            lemma_fresh_listed(list.drop_last(), seen, w);
            let k = list.drop_last().index_of(w);
            assert(list[k] == w);
        } else {
            let k = fresh(list, seen).index_of(w);
            assert(k == before.len()) by {
                if k < before.len() {
                    assert(before[k] == w);
                }
            }
            assert(list[list.len() - 1] == w);
        }
    }
}

proof fn lemma_last_place(ports: Seq<usize>, v: usize)
    requires
        ports.len() <= usize::MAX,
    ensures
        last_place(ports, v) matches Some(j) ==> j < ports.len() && ports[j as int] == v,
    decreases ports.len(),
{
    if ports.len() > 0 && ports.last() != v {
        lemma_last_place(ports.drop_last(), v);
    }
}

proof fn lemma_places_of(ns: Seq<usize>, ports: Seq<usize>, i: int, j: usize)
    requires
        ports.len() <= usize::MAX,
        places_of(ns, ports, i).contains(j),
    ensures
        j < ports.len(),
        ns.contains(ports[j as int]),
    decreases ns.len(),
{
    if ns.len() > 0 {
        let front = ns.drop_last();
        let before = places_of(front, ports, i);
        lemma_last_place(ports, ns.last());
        if before.contains(j) {
            lemma_places_of(front, ports, i, j);
            let k = front.index_of(ports[j as int]);
            assert(ns[k] == ports[j as int]);
        } else {
            let k = places_of(ns, ports, i).index_of(j);
            assert(k == before.len()) by {
                if k < before.len() {
                    assert(before[k] == j);
                }
            }
            assert(ns[ns.len() - 1] == ports[j as int]);
        }
    }
}

/// Linked places of a breadth-first tree hold joined ports.
proof fn lemma_link_joined(
    edges: Seq<Edge>,
    ports: Seq<usize>,
    children: Seq<Seq<usize>>,
    rank: Seq<int>,
    x: usize,
    y: usize,
)
    requires
        ports.len() <= usize::MAX,
        breadth_first_tree(induced_lists(edges, ports), children),
        is_tree(children, rank, children.len() as int),
        link(children, x, y),
    ensures
        x < ports.len(),
        y < ports.len(),
        joined(edges, ports[x as int], ports[y as int]),
{
    let lists = induced_lists(edges, ports);
    let (u, l) = if x < children.len() && children[x as int].contains(y) {
        (x, y)
    } else {
        (y, x)
    };
    assert(children[u as int].contains(l));
    let reached = found(lists, lists.len());
    assert(reached.contains(u)) by {
        if !reached.contains(u) {
            assert(children[u as int].len() == 0);
        }
    }
    let k = reached.index_of(u);
    assert(reached[k] == u);
    lemma_fresh_listed(lists[u as int], found(lists, k as nat), l);
    let ns = neighbours_of(edges, ports[u as int]);
    assert(lists[u as int] == places_of(ns, ports, u as int));
    lemma_places_of(ns, ports, u as int, l);
    lemma_neighbours(edges, ports[u as int], ports[l as int]);
}

/// Walks of at most three edges from each port of the order to the next, no edge on
/// more than two of them.
pub open spec fn port_walks(
    g: GraphModel,
    order: Seq<usize>,
    walks: Seq<Seq<usize>>,
) -> bool {
    &&& walks.len() + 1 == order.len()
    &&& forall|i: int|
        0 <= i < walks.len() ==> (#[trigger] walks[i]).len() <= 4 && is_walk(
            g.edges,
            walks[i],
            order[i],
            order[i + 1],
        )
    &&& forall|i: int, t: int|
        0 <= i < walks.len() && 0 <= t < walks[i].len() ==> #[trigger] walks[i][t] < g.nodes
    &&& forall|u: usize, w: usize| !#[trigger] thrice_over(walks, u, w)
}

/// A walk over places that steps from port to port.
proof fn lemma_steps_local(
    children: Seq<Seq<usize>>,
    edges: Seq<Edge>,
    ports: Seq<usize>,
    rank: Seq<int>,
    walk: Seq<usize>,
    a: usize,
    b: usize,
    u: usize,
    w: usize,
)
    requires
        ports.len() <= usize::MAX,
        ports.no_duplicates(),
        breadth_first_tree(induced_lists(edges, ports), children),
        is_tree(children, rank, children.len() as int),
        link_walk(children, walk, a, b),
        steps_over(at_places(ports, walk), u, w),
    ensures
        steps_over(walk, ports.index_of(u) as usize, ports.index_of(w) as usize),
{
    let far = at_places(ports, walk);
    let t = choose|t: int|
        0 <= t < far.len() - 1 && ((#[trigger] far[t] == u && far[t + 1] == w) || (far[t] == w
            && far[t + 1] == u));
    assert(link(children, walk[t], walk[t + 1]));
    lemma_link_joined(edges, ports, children, rank, walk[t], walk[t + 1]);
    assert(ports[walk[t] as int] == far[t] && ports[walk[t + 1] as int] == far[t + 1]);
    assert(ports.contains(u) && ports.contains(w));
    assert(ports[ports.index_of(u)] == u && ports[ports.index_of(w)] == w);
    assert(walk[t] == ports.index_of(far[t]));
    assert(walk[t + 1] == ports.index_of(far[t + 1]));
}

/// From each port of a SkipTree order to the next leads a walk of at most three edges,
/// such that no edge lies on more than two of the walks.
#[verifier::spinoff_prover]
pub proof fn law_port_walks<K: BlockLabel>(g: SurgeryGraph<K>, order: Seq<usize>)
    requires
        g.wf(),
        g.graph@.nodes <= usize::MAX,
        labeled(g, order),
        order.len() > 0,
    ensures
        exists|walks: Seq<Seq<usize>>| #[trigger] port_walks(g.graph@, order, walks),
{
    let edges = g.graph@.edges;
    let groups = choose|groups: Seq<(K, Vec<usize>)>| #[trigger]
        grouped_ports(g.labels@, groups) && port_order(edges, flat_groups(groups), order);
    lemma_flat_groups(g.labels@, groups);
    let ports = flat_groups(groups);
    assert forall|x: int| 0 <= x < ports.len() implies #[trigger] ports[x] < g.graph@.nodes by {
        assert(port_of_group(g.labels@, groups, ports[x]));
    }
    let ints = Seq::new(ports.len(), |x: int| ports[x] as int);
    crate::coloring::lemma_distinct_below(ints, g.graph@.nodes);
    reveal(ports_labelled);
    let lists = induced_lists(edges, ports);
    let local = choose|local: Seq<usize>| #[trigger]
        skip_order(lists, local) && order == at_places(ports, local);
    let (children, rank) = choose|children: Seq<Seq<usize>>, rank: Seq<int>| #[trigger]
        labels_tree(local, children, rank) && breadth_first_tree(lists, children);
    law_label_walks(local, children, rank);
    let near = choose|near: Seq<Seq<usize>>| #[trigger] label_walks(children, local, near);
    let walks = Seq::new(near.len(), |i: int| at_places(ports, near[i]));
    assert forall|i: int| 0 <= i < walks.len() implies (#[trigger] walks[i]).len() <= 4 && is_walk(
        edges,
        walks[i],
        order[i],
        order[i + 1],
    ) by {
        let walk = near[i];
        assert(link_walk(children, walk, local[i], local[i + 1]));
        assert forall|t: int| 0 <= t < walks[i].len() - 1 implies joined(
            edges,
            #[trigger] walks[i][t],
            walks[i][t + 1],
        ) by {
            assert(link(children, walk[t], walk[t + 1]));
            lemma_link_joined(edges, ports, children, rank, walk[t], walk[t + 1]);
        }
        assert(order[i] == ports[local[i] as int]);
        assert(order[i + 1] == ports[local[i + 1] as int]);
    }
    assert forall|i: int, t: int|
        0 <= i < walks.len() && 0 <= t < walks[i].len() implies #[trigger] walks[i][t]
        < g.graph@.nodes by {
        let walk = near[i];
        assert(link_walk(children, walk, local[i], local[i + 1]));
        assert(walk[t] < ports.len()) by {
            if t + 1 < walk.len() {
                assert(link(children, walk[t], walk[t + 1]));
                lemma_link_joined(edges, ports, children, rank, walk[t], walk[t + 1]);
            } else {
                assert(walk[t] == local[i + 1]);
                assert(local[i + 1] < lists.len());
            }
        }
        assert(walks[i][t] == ports[walk[t] as int]);
    }
    assert forall|u: usize, w: usize| !#[trigger] thrice_over(walks, u, w) by {
        if thrice_over(walks, u, w) {
            let (i, j, k) = choose|i: int, j: int, k: int|
                #![trigger walks[i], walks[j], walks[k]]
                0 <= i < j < k < walks.len() && steps_over(walks[i], u, w) && steps_over(
                    walks[j],
                    u,
                    w,
                ) && steps_over(walks[k], u, w);
            let x = ports.index_of(u) as usize;
            let y = ports.index_of(w) as usize;
            assert forall|m: int|
                0 <= m < near.len() && steps_over(walks[m], u, w) implies steps_over(
                #[trigger] near[m],
                x,
                y,
            ) by {
                assert(link_walk(children, near[m], local[m], local[m + 1]));
                lemma_steps_local(
                    children,
                    edges,
                    ports,
                    rank,
                    near[m],
                    local[m],
                    local[m + 1],
                    u,
                    w,
                );
            }
            assert(steps_over(near[i], x, y) && steps_over(near[j], x, y) && steps_over(
                near[k],
                x,
                y,
            ));
            assert(thrice_over(near, x, y));
        }
    }
    assert(port_walks(g.graph@, order, walks));
}

/// The cycle that two consecutive bridge edges close: along `a` in the left graph, over
/// the one bridge edge, back along `b` in the right graph, and over the other.
pub open spec fn bridge_cycle(a: Seq<usize>, b: Seq<usize>, offset: nat) -> Seq<usize> {
    a + Seq::new(b.len(), |t: int| (offset + b[b.len() - 1 - t]) as usize) + seq![a[0]]
}

/// The cycles that consecutive bridge edges close.
pub open spec fn bridge_cycles(
    lw: Seq<Seq<usize>>,
    rw: Seq<Seq<usize>>,
    offset: nat,
    n: nat,
) -> Seq<Seq<usize>> {
    Seq::new(n, |i: int| bridge_cycle(lw[i], rw[i], offset))
}

/// A step of a bridge cycle is a step in the left graph, a step in the right graph, or
/// one of the two bridge edges.
#[verifier::spinoff_prover]
proof fn lemma_cycle_step(
    a: Seq<usize>,
    b: Seq<usize>,
    offset: nat,
    n: nat,
    u: usize,
    w: usize,
)
    requires
        a.len() > 0,
        b.len() > 0,
        offset + n <= usize::MAX,
        forall|t: int| 0 <= t < a.len() ==> #[trigger] a[t] < offset,
        forall|t: int| 0 <= t < b.len() ==> #[trigger] b[t] < n,
        steps_over(bridge_cycle(a, b, offset), u, w),
    ensures
        ({
            ||| u < offset && w < offset && steps_over(a, u, w)
            ||| u >= offset && w >= offset && steps_over(
                b,
                (u - offset) as usize,
                (w - offset) as usize,
            )
            ||| (u < offset <= w || w < offset <= u) && (u == a[0] || u == a.last() || w == a[0]
                || w == a.last())
        }),
{
    let cycle = bridge_cycle(a, b, offset);
    let la = a.len() as int;
    let lb = b.len() as int;
    let t = choose|t: int|
        0 <= t < cycle.len() - 1 && ((#[trigger] cycle[t] == u && cycle[t + 1] == w) || (cycle[t]
            == w && cycle[t + 1] == u));
    if t < la - 1 {
        assert(cycle[t] == a[t] && cycle[t + 1] == a[t + 1]);
        assert(steps_over(a, u, w));
    } else if t == la - 1 {
        assert(cycle[t] == a[t]);
        assert(cycle[t + 1] == (offset + b[lb - 1]) as usize);
        assert(b[lb - 1] < n);
    } else if t < la + lb - 1 {
        let s = lb - 1 - (t + 1 - la);
        assert(cycle[t] == (offset + b[s + 1]) as usize);
        assert(cycle[t + 1] == (offset + b[s]) as usize);
        assert(b[s] < n && b[s + 1] < n);
        assert(steps_over(b, (u - offset) as usize, (w - offset) as usize));
    } else {
        assert(cycle[t] == (offset + b[0]) as usize);
        assert(cycle[t + 1] == a[0]);
        assert(b[0] < n && a[0] < offset);
    }
}

/// The cycle is a closed walk of the bridged graph.
proof fn lemma_cycle_closes(
    le: Seq<Edge>,
    re: Seq<Edge>,
    all: Seq<Edge>,
    lo: Seq<usize>,
    ro: Seq<usize>,
    offset: nat,
    n: nat,
    d: nat,
    i: int,
    a: Seq<usize>,
    b: Seq<usize>,
)
    requires
        all == le + shifted(re, offset) + bridge_edges(lo, ro, offset, d),
        0 <= i < d - 1,
        offset + n <= usize::MAX,
        is_walk(le, a, lo[i], lo[i + 1]),
        is_walk(re, b, ro[i], ro[i + 1]),
    ensures
        is_walk(all, bridge_cycle(a, b, offset), lo[i], lo[i]),
{
    let cycle = bridge_cycle(a, b, offset);
    let la = a.len() as int;
    let lb = b.len() as int;
    let end = le.len() + re.len();
    let bridge = bridge_edges(lo, ro, offset, d);
    assert(all[end + i] == bridge[i]);
    assert(all[end + i + 1] == bridge[i + 1]);
    assert(all.contains(bridge[i]) && all.contains(bridge[i + 1]));
    assert forall|t: int| 0 <= t < cycle.len() - 1 implies joined(
        all,
        #[trigger] cycle[t],
        cycle[t + 1],
    ) by {
        if t < la - 1 {
            assert(cycle[t] == a[t] && cycle[t + 1] == a[t + 1]);
            assert(joined(le, a[t], a[t + 1]));
            let p = if le.contains((a[t], a[t + 1])) {
                le.index_of((a[t], a[t + 1]))
            } else {
                le.index_of((a[t + 1], a[t]))
            };
            assert(all[p] == le[p]);
            assert(all.contains(all[p]));
        } else if t == la - 1 {
            assert(cycle[t] == lo[i + 1]);
            assert(cycle[t + 1] == (offset + ro[i + 1]) as usize);
        } else if t < la + lb - 1 {
            let s = lb - 1 - (t + 1 - la);
            assert(cycle[t] == (offset + b[s + 1]) as usize);
            assert(cycle[t + 1] == (offset + b[s]) as usize);
            assert(joined(re, b[s], b[s + 1]));
            let p = if re.contains((b[s], b[s + 1])) {
                re.index_of((b[s], b[s + 1]))
            } else {
                re.index_of((b[s + 1], b[s]))
            };
            assert(re[p] == (b[s], b[s + 1]) || re[p] == (b[s + 1], b[s]));
            assert(all[le.len() + p] == shifted(re, offset)[p]);
            assert(all.contains(all[le.len() + p]));
        } else {
            assert(cycle[t] == (offset + ro[i]) as usize);
            assert(cycle[t + 1] == lo[i]);
        }
    }
    assert(cycle[0] == a[0]);
}

/// What the cycles of a bridge are made of: two consecutive bridge edges and at most
/// three edges in each graph. No edge lies on more than two of the cycles.
pub open spec fn short_cycles<K>(
    left: SurgeryGraph<K>,
    right: SurgeryGraph<K>,
    lo: Seq<usize>,
    ro: Seq<usize>,
    d: nat,
    r: SurgeryGraph<K>,
    lw: Seq<Seq<usize>>,
    rw: Seq<Seq<usize>>,
) -> bool {
    let offset = left.graph@.nodes;
    &&& lw.len() + 1 == d
    &&& rw.len() + 1 == d
    &&& forall|i: int|
        #![trigger lw[i]]
        #![trigger rw[i]]
        0 <= i < d - 1 ==> {
            &&& is_walk(left.graph@.edges, lw[i], lo[i], lo[i + 1])
            &&& lw[i].len() <= 4
            &&& is_walk(right.graph@.edges, rw[i], ro[i], ro[i + 1])
            &&& rw[i].len() <= 4
            &&& is_walk(r.graph@.edges, bridge_cycle(lw[i], rw[i], offset), lo[i], lo[i])
        }
    &&& forall|u: usize, w: usize| !#[trigger]
        thrice_over(bridge_cycles(lw, rw, offset, (d - 1) as nat), u, w)
}

/// The new cycles of a bridge are short and share few edges: consecutive bridge edges
/// close a cycle with at most three edges on each side, and no edge of the bridged
/// graph lies on more than two of these cycles.
#[verifier::spinoff_prover]
pub proof fn law_bridge_cycles_are_short<K: BlockLabel>(
    left: SurgeryGraph<K>,
    right: SurgeryGraph<K>,
    lo: Seq<usize>,
    ro: Seq<usize>,
    distance: usize,
    r: SurgeryGraph<K>,
)
    requires
        left.wf(),
        right.wf(),
        left.graph@.nodes + right.graph@.nodes <= usize::MAX,
        labeled(left, lo),
        labeled(right, ro),
        bridged(left, right, lo, ro, distance, r),
        least(distance as nat, lo.len(), ro.len()) >= 1,
    ensures
        exists|lw: Seq<Seq<usize>>, rw: Seq<Seq<usize>>| #[trigger]
            short_cycles(
                left,
                right,
                lo,
                ro,
                least(distance as nat, lo.len(), ro.len()),
                r,
                lw,
                rw,
            ),
{
    let offset = left.graph@.nodes;
    let n = right.graph@.nodes;
    let le = left.graph@.edges;
    let re = right.graph@.edges;
    let d = least(distance as nat, lo.len(), ro.len());
    law_port_walks(left, lo);
    law_port_walks(right, ro);
    lemma_labeled(left, lo);
    let wl = choose|walks: Seq<Seq<usize>>| #[trigger] port_walks(left.graph@, lo, walks);
    let wr = choose|walks: Seq<Seq<usize>>| #[trigger] port_walks(right.graph@, ro, walks);
    let lw = wl.take(d - 1);
    let rw = wr.take(d - 1);
    assert forall|i: int|
        #![trigger lw[i]]
        #![trigger rw[i]]
        0 <= i < d - 1 implies {
        &&& is_walk(le, lw[i], lo[i], lo[i + 1])
        &&& lw[i].len() <= 4
        &&& is_walk(re, rw[i], ro[i], ro[i + 1])
        &&& rw[i].len() <= 4
        &&& is_walk(r.graph@.edges, bridge_cycle(lw[i], rw[i], offset), lo[i], lo[i])
    } by {
        assert(lw[i] == wl[i] && rw[i] == wr[i]);
        lemma_cycle_closes(le, re, r.graph@.edges, lo, ro, offset, n, d, i, lw[i], rw[i]);
    }
    let cycles = bridge_cycles(lw, rw, offset, (d - 1) as nat);
    assert forall|u: usize, w: usize| !#[trigger] thrice_over(cycles, u, w) by {
        if thrice_over(cycles, u, w) {
            let (i, j, k) = choose|i: int, j: int, k: int|
                #![trigger cycles[i], cycles[j], cycles[k]]
                0 <= i < j < k < cycles.len() && steps_over(cycles[i], u, w) && steps_over(
                    cycles[j],
                    u,
                    w,
                ) && steps_over(cycles[k], u, w);
            assert forall|m: int| 0 <= m < d - 1 && steps_over(cycles[m], u, w) implies ({
                ||| u < offset && w < offset && steps_over(#[trigger] wl[m], u, w)
                ||| u >= offset && w >= offset && steps_over(
                    wr[m],
                    (u - offset) as usize,
                    (w - offset) as usize,
                )
                ||| (u < offset <= w || w < offset <= u) && (u == lo[m] || u == lo[m + 1] || w
                    == lo[m] || w == lo[m + 1])
            }) by {
                assert(lw[m] == wl[m] && rw[m] == wr[m]);
                assert(cycles[m] == bridge_cycle(wl[m], wr[m], offset));
                assert forall|t: int| 0 <= t < wl[m].len() implies #[trigger] wl[m][t] < offset by {}
                assert forall|t: int| 0 <= t < wr[m].len() implies #[trigger] wr[m][t] < n by {}
                lemma_cycle_step(wl[m], wr[m], offset, n, u, w);
            }
            let (a, b, c) = (wl[i], wl[j], wl[k]);
            if u < offset && w < offset {
                assert(thrice_over(wl, u, w)) by {
                    assert(steps_over(a, u, w) && steps_over(b, u, w) && steps_over(c, u, w));
                }
            } else if u >= offset && w >= offset {
                let x = (u - offset) as usize;
                let y = (w - offset) as usize;
                assert(thrice_over(wr, x, y)) by {
                    assert(steps_over(wr[i], x, y) && steps_over(wr[j], x, y) && steps_over(
                        wr[k],
                        x,
                        y,
                    ));
                }
            } else {
                let v = if u < offset {
                    u
                } else {
                    w
                };
                assert(lo[i] < offset && lo[i + 1] < offset && lo[k] < offset && lo[k + 1]
                    < offset);
                assert(v == lo[i] || v == lo[i + 1]);
                assert(v == lo[k] || v == lo[k + 1]);
            }
        }
    }
    assert(short_cycles(left, right, lo, ro, d, r, lw, rw));
}

} // verus!
