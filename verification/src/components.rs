//! Connected components of graphs.

use vstd::prelude::*;

use crate::graph::AncillaGraph;
#[allow(unused_imports)]
use crate::graph::{is_walk, joined, reachable, GraphModel};

verus! {

/// No smaller node can be reached from `v`.
pub open spec fn leads_component(g: GraphModel, v: int) -> bool {
    forall|u: usize| u < v ==> !#[trigger] reachable(g.edges, u, v as usize)
}

/// How many of the first `k` nodes lead their component.
pub open spec fn component_count(g: GraphModel, k: nat) -> nat
    decreases k,
{
    if k == 0 {
        0
    } else {
        component_count(g, (k - 1) as nat) + if leads_component(g, k - 1) {
            1nat
        } else {
            0
        }
    }
}

/// Anything reaches itself.
pub proof fn lemma_reach_self(edges: Seq<(usize, usize)>, a: usize)
    ensures
        reachable(edges, a, a),
{
    let walk = seq![a];
    assert(is_walk(edges, walk, a, a));
}

/// Walks can be turned round.
pub proof fn lemma_reach_back(edges: Seq<(usize, usize)>, a: usize, b: usize)
    requires
        reachable(edges, a, b),
    ensures
        reachable(edges, b, a),
{
    let walk = choose|walk: Seq<usize>| is_walk(edges, walk, a, b);
    let back = walk.reverse();
    assert forall|i: int| 0 <= i < back.len() - 1 implies joined(
        edges,
        #[trigger] back[i],
        back[i + 1],
    ) by {
        let k = walk.len() - 2 - i;
        assert(joined(edges, walk[k], walk[k + 1]));
    }
    assert(is_walk(edges, back, b, a));
}

/// Walks can be joined.
pub proof fn lemma_reach_on(edges: Seq<(usize, usize)>, a: usize, b: usize, c: usize)
    requires
        reachable(edges, a, b),
        reachable(edges, b, c),
    ensures
        reachable(edges, a, c),
{
    let first = choose|walk: Seq<usize>| is_walk(edges, walk, a, b);
    let second = choose|walk: Seq<usize>| is_walk(edges, walk, b, c);
    let walk = first + second.skip(1);
    assert forall|i: int| 0 <= i < walk.len() - 1 implies joined(
        edges,
        #[trigger] walk[i],
        walk[i + 1],
    ) by {
        let n = first.len() as int;
        if i + 1 < n {
            assert(walk[i] == first[i] && walk[i + 1] == first[i + 1]);
        } else if i + 1 == n {
            assert(walk[i] == first.last());
            assert(walk[i + 1] == second[1]);
            assert(joined(edges, second[0], second[1]));
        } else {
            let k = i - n + 1;
            assert(walk[i] == second[k] && walk[i + 1] == second[k + 1]);
            assert(joined(edges, second[k], second[k + 1]));
        }
    }
    if second.len() > 1 {
        assert(walk.last() == second.last());
    }
    assert(is_walk(edges, walk, a, c));
}

/// The ends of an edge reach each other.
pub proof fn lemma_reach_edge(edges: Seq<(usize, usize)>, k: int)
    requires
        0 <= k < edges.len(),
    ensures
        reachable(edges, edges[k].0, edges[k].1),
{
    let walk = seq![edges[k].0, edges[k].1];
    assert(edges.contains(edges[k]));
    assert(is_walk(edges, walk, edges[k].0, edges[k].1));
}

/// Labels that agree along edges agree along walks.
proof fn lemma_labels_follow(
    edges: Seq<(usize, usize)>,
    labels: Seq<usize>,
    walk: Seq<usize>,
    a: usize,
    b: usize,
)
    requires
        forall|k: int|
            0 <= k < edges.len() ==> labels[(#[trigger] edges[k]).0 as int]
                == labels[edges[k].1 as int],
        is_walk(edges, walk, a, b),
    ensures
        labels[a as int] == labels[b as int],
    decreases walk.len(),
{
    if walk.len() > 1 {
        let n = walk.len() as int;
        let head = walk.drop_last();
        let c = head.last();
        assert forall|i: int| 0 <= i < head.len() - 1 implies joined(
            edges,
            #[trigger] head[i],
            head[i + 1],
        ) by {
            assert(joined(edges, walk[i], walk[i + 1]));
        }
        assert(is_walk(edges, head, a, c));
        lemma_labels_follow(edges, labels, head, a, c);
        assert(joined(edges, walk[n - 2], walk[n - 1]));
        if edges.contains((c, b)) {
            let k = edges.index_of((c, b));
            assert(edges[k] == (c, b));
        } else {
            let k = edges.index_of((b, c));
            assert(edges[k] == (b, c));
        }
    }
}

/// Labels name the least node of a part, and nodes of a part reach each other.
spec fn labelled(g: GraphModel, labels: Seq<usize>) -> bool {
    &&& labels.len() == g.nodes
    &&& forall|v: int| 0 <= v < labels.len() ==> (#[trigger] labels[v]) <= v
    &&& forall|v: int|
        0 <= v < labels.len() ==> labels[(#[trigger] labels[v]) as int] == labels[v]
    &&& forall|v: int|
        0 <= v < labels.len() ==> reachable(g.edges, #[trigger] labels[v], v as usize)
}

/// The parts of `x` and `y` are made one.
fn merge(labels: &mut Vec<usize>, x: usize, y: usize, Ghost(g): Ghost<GraphModel>, Ghost(k): Ghost<
    int,
>)
    requires
        labelled(g, old(labels)@),
        g.wf(),
        0 <= k < g.edges.len(),
        g.edges[k] == (x, y),
    ensures
        labelled(g, final(labels)@),
        final(labels)@[x as int] == final(labels)@[y as int],
        forall|a: int, b: int|
            0 <= a < g.nodes && 0 <= b < g.nodes && old(labels)@[a] == old(labels)@[b]
                ==> #[trigger] final(labels)@[a] == #[trigger] final(labels)@[b],
{
    let ghost before = labels@;
    let lx: usize = labels[x];
    let ly: usize = labels[y];
    if lx == ly {
        return;
    }
    let (lo, hi) = if lx < ly {
        (lx, ly)
    } else {
        (ly, lx)
    };
    proof {
        let e = g.edges;
        lemma_reach_edge(e, k);
        assert(reachable(e, before[x as int], x));
        assert(reachable(e, before[y as int], y));
        lemma_reach_back(e, before[x as int], x);
        lemma_reach_back(e, before[y as int], y);
        lemma_reach_back(e, x, y);
        if lx < ly {
            lemma_reach_on(e, lx, x, y);
            lemma_reach_on(e, lx, y, ly);
        } else {
            lemma_reach_on(e, ly, y, x);
            lemma_reach_on(e, ly, x, lx);
        }
        assert(reachable(e, lo, hi));
    }
    let n: usize = labels.len();
    for v in 0..n
        invariant
            n == labels@.len(),
            n == before.len(),
            forall|u: int|
                0 <= u < v ==> #[trigger] labels@[u] == if before[u] == hi {
                    lo
                } else {
                    before[u]
                },
            forall|u: int| v <= u < n ==> #[trigger] labels@[u] == before[u],
    {
        if labels[v] == hi {
            labels.set(v, lo);
        }
    }
    proof {
        let now = labels@;
        assert(before[lo as int] == lo);
        assert forall|v: int| 0 <= v < now.len() implies now[(#[trigger] now[v]) as int]
            == now[v] by {
            assert(before[before[v] as int] == before[v]);
        }
        assert forall|v: int| 0 <= v < now.len() implies reachable(
            g.edges,
            #[trigger] now[v],
            v as usize,
        ) by {
            assert(reachable(g.edges, before[v], v as usize));
            if before[v] == hi {
                lemma_reach_on(g.edges, lo, hi, v as usize);
            }
        }
    }
}

/// The number of connected components.
pub fn connected_components(graph: &AncillaGraph) -> (r: usize)
    ensures
        r == component_count(graph@, graph@.nodes),
{
    let ghost g = graph@;
    let n: usize = graph.node_count();
    let m: usize = graph.edge_count();
    let mut labels: Vec<usize> = Vec::new();
    for v in 0..n
        invariant
            labels@.len() == v,
            forall|u: int| 0 <= u < v ==> #[trigger] labels@[u] == u,
    {
        labels.push(v);
    }
    proof {
        assert forall|v: int| 0 <= v < labels@.len() implies reachable(
            g.edges,
            #[trigger] labels@[v],
            v as usize,
        ) by {
            lemma_reach_self(g.edges, v as usize);
        }
    }
    for k in 0..m
        invariant
            g == graph@,
            g.wf(),
            m == g.edges.len(),
            labelled(g, labels@),
            forall|i: int|
                0 <= i < k ==> labels@[(#[trigger] g.edges[i]).0 as int]
                    == labels@[g.edges[i].1 as int],
    {
        let ghost before = labels@;
        let (x, y) = graph.edge_endpoints(k);
        merge(&mut labels, x, y, Ghost(g), Ghost(k as int));
        assert forall|i: int| 0 <= i < k + 1 implies labels@[(#[trigger] g.edges[i]).0 as int]
            == labels@[g.edges[i].1 as int] by {
            if i < k {
                assert(before[g.edges[i].0 as int] == before[g.edges[i].1 as int]);
            }
        }
    }
    let mut count: usize = 0;
    for v in 0..n
        invariant
            g.wf(),
            n == g.nodes,
            labelled(g, labels@),
            forall|i: int|
                0 <= i < g.edges.len() ==> labels@[(#[trigger] g.edges[i]).0 as int]
                    == labels@[g.edges[i].1 as int],
            count == component_count(g, v as nat),
            count <= v,
    {
        proof {
            if labels@[v as int] == v {
                assert forall|u: usize| u < v implies !#[trigger] reachable(
                    g.edges,
                    u,
                    v as usize,
                ) by {
                    if reachable(g.edges, u, v) {
                        let walk = choose|walk: Seq<usize>| is_walk(g.edges, walk, u, v);
                        lemma_labels_follow(g.edges, labels@, walk, u, v);
                        assert(labels@[u as int] <= u);
                    }
                }
            } else {
                let u = labels@[v as int];
                assert(reachable(g.edges, u, v));
                assert(u < v);
            }
        }
        if labels[v] == v {
            count = count + 1;
        }
    }
    count
}

/// One component: every node can be reached from every other.
pub proof fn law_one_component_is_connected(g: GraphModel, a: usize, b: usize)
    requires
        component_count(g, g.nodes) == 1,
        g.nodes <= usize::MAX,
        a < g.nodes,
        b < g.nodes,
    ensures
        reachable(g.edges, a, b),
{
    lemma_only_leader(g, a);
    lemma_only_leader(g, b);
    lemma_reach_back(g.edges, 0, a);
    lemma_reach_on(g.edges, a, 0, b);
}

proof fn lemma_count_grows(g: GraphModel, i: nat, k: nat)
    requires
        i <= k,
    ensures
        component_count(g, i) <= component_count(g, k),
    decreases k,
{
    if i < k {
        lemma_count_grows(g, i, (k - 1) as nat);
    }
}

/// Some leader of the component of `v` is at or before `v`; with one component it is
/// node 0.
proof fn lemma_only_leader(g: GraphModel, v: usize)
    requires
        component_count(g, g.nodes) == 1,
        g.nodes <= usize::MAX,
        v < g.nodes,
    ensures
        reachable(g.edges, 0, v),
    decreases v,
{
    lemma_reach_self(g.edges, v);
    if v > 0 {
        assert(leads_component(g, 0));
        assert(component_count(g, 1) == 1 + component_count(g, 0));
        if leads_component(g, v as int) {
            lemma_count_grows(g, 1, v as nat);
            lemma_count_grows(g, (v + 1) as nat, g.nodes);
            assert(component_count(g, (v + 1) as nat) == component_count(g, v as nat) + 1);
            assert(component_count(g, 0) == 0);
        } else {
            let u = choose|u: usize| u < v && #[trigger] reachable(g.edges, u, v);
            lemma_only_leader(g, u);
            lemma_reach_on(g.edges, 0, u, v);
        }
    }
}

} // verus!
