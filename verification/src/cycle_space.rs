//! Cycle bases of graphs that grow edge by edge: what an edge closes, and what it
//! cannot close where it joins two components.

use vstd::prelude::*;

#[allow(unused_imports)]
use crate::decongestion::{
    chosen_ends, closed_choice, cuts_cycles, is_cycle_basis, lemma_sum_add, lemma_sum_same,
    lemma_sum_two, own_edges, sum_below,
};
#[allow(unused_imports)]
use crate::expander::{law_update_keeps_spanning, lemma_linked, lemma_unlinked_keeps, respects};
#[allow(unused_imports)]
use crate::graph::{joined, Edge, GraphModel};
#[allow(unused_imports)]
use crate::graph_construction::{
    canonical, edge_ends, forest_updated, linked, list_path, unlinked, without,
};

verus! {

/// The list holds every edge of the graph once, with the smaller end first.
pub open spec fn lists_once(edges: Seq<Edge>, list: Seq<Edge>) -> bool {
    &&& list.no_duplicates()
    &&& forall|e: Edge|
        #![trigger list.contains(e)]
        list.contains(e) <==> exists|k: int|
            0 <= k < edges.len() && e == canonical((#[trigger] edges[k]).0, edges[k].1)
}

/// The cycles behind the first `k`, the last one first, and then the first `k`.
pub open spec fn newest_first(basis: Seq<Seq<Edge>>, k: int) -> Seq<Seq<Edge>> {
    basis.skip(k).reverse() + basis.take(k)
}

/// The cycles are a cycle basis of the graph: taken newest first, each has an edge
/// that none of the following has, and without these edges the graph is a forest.
pub open spec fn is_grown_basis(edges: Seq<Edge>, basis: Seq<Seq<Edge>>) -> bool {
    exists|list: Seq<Edge>, k: int|
        0 <= k <= basis.len() && lists_once(edges, list) && #[trigger] is_cycle_basis(
            list,
            newest_first(basis, k),
        )
}

/// The lists link both ways.
pub open spec fn symmetric(lists: Seq<Seq<usize>>) -> bool {
    forall|u: usize, v: usize|
        #![trigger lists[u as int].contains(v)]
        u < lists.len() && lists[u as int].contains(v) ==> v < lists.len() && lists[v as int].contains(
            u,
        )
}

/// The lists connect what the graph connects.
pub open spec fn spans(lists: Seq<Seq<usize>>, g: GraphModel) -> bool {
    forall|c: spec_fn(usize) -> int, u: usize, v: usize|
        #![trigger respects(lists, c), joined(g.edges, u, v)]
        respects(lists, c) && joined(g.edges, u, v) && u < g.nodes && v < g.nodes ==> c(u) == c(v)
}

proof fn lemma_without_drops(list: Seq<usize>, x: usize, y: usize)
    ensures
        without(list, x).contains(y) ==> list.contains(y) && y != x,
    decreases list.len(),
{
    if list.len() > 0 {
        let front = list.drop_last();
        lemma_without_drops(front, x, y);
        if without(list, x).contains(y) {
            let w = without(list, x);
            let i = w.index_of(y);
            if list.last() != x && i == w.len() - 1 {
                assert(list[list.len() - 1] == y);
            } else {
                if list.last() != x {
                    assert(without(front, x)[i] == y);
                }
                assert(without(front, x).contains(y));
                assert(list[front.index_of(y)] == y);
            }
        }
    }
}

proof fn lemma_symmetric_linked(lists: Seq<Seq<usize>>, a: usize, b: usize)
    requires
        symmetric(lists),
        a < lists.len(),
        b < lists.len(),
        a != b,
    ensures
        symmetric(linked(lists, a, b)),
{
    lemma_linked(lists, a, b);
    let after = linked(lists, a, b);
    assert forall|u: usize, v: usize|
        #![trigger after[u as int].contains(v)]
        u < after.len() && after[u as int].contains(v) implies v < after.len()
        && after[v as int].contains(u) by {
        if lists[u as int].contains(v) {
            assert(lists[v as int].contains(u));
        }
    }
}

proof fn lemma_symmetric_unlinked(lists: Seq<Seq<usize>>, a: usize, b: usize)
    requires
        symmetric(lists),
        a < lists.len(),
        b < lists.len(),
        a != b,
    ensures
        symmetric(unlinked(lists, a, b)),
{
    let once = lists.update(a as int, without(lists[a as int], b));
    let after = unlinked(lists, a, b);
    assert forall|u: usize, v: usize|
        #![trigger after[u as int].contains(v)]
        u < after.len() && after[u as int].contains(v) implies v < after.len()
        && after[v as int].contains(u) by {
        if u == b {
            lemma_without_drops(once[b as int], a, v);
        } else if u == a {
            lemma_without_drops(lists[a as int], b, v);
        }
        assert(lists[u as int].contains(v));
        assert(lists[v as int].contains(u));
        lemma_unlinked_keeps(lists, a, b, v, u);
    }
}

/// An update of the forest keeps its links both ways.
pub proof fn lemma_symmetric_updated(
    before: Seq<Seq<usize>>,
    u: usize,
    v: usize,
    after: Seq<Seq<usize>>,
    cycle: Option<Seq<Edge>>,
)
    requires
        symmetric(before),
        u < before.len(),
        v < before.len(),
        u != v,
        forest_updated(before, u, v, after, cycle),
    ensures
        symmetric(after),
{
    match cycle {
        None => {
            lemma_symmetric_linked(before, u, v);
        },
        Some(c) => {
            let p = choose|p: Seq<usize>|
                {
                    &&& #[trigger] list_path(before, p, u, v)
                    &&& forall|q: Seq<usize>| #[trigger]
                        list_path(before, q, u, v) ==> p.len() <= q.len()
                    &&& c == crate::graph_construction::closed_path(p, u, v)
                    &&& after == linked(unlinked(before, p[0], p[1]), u, v)
                };
            assert(p.len() >= 2) by {
                if p.len() == 1 {
                    assert(p[0] == p.last());
                }
            }
            assert(p[0] < before.len() && p[1] < before.len() && p[0] != p[1]);
            lemma_symmetric_unlinked(before, p[0], p[1]);
            lemma_symmetric_linked(unlinked(before, p[0], p[1]), u, v);
        },
    }
}

/// The lists lead from `a` to `x`.
pub open spec fn leads(lists: Seq<Seq<usize>>, a: usize, x: usize) -> bool {
    exists|q: Seq<usize>| list_path(lists, q, a, x)
}

proof fn lemma_leads_on(lists: Seq<Seq<usize>>, a: usize, u: usize, v: usize)
    requires
        leads(lists, a, u),
        u < lists.len(),
        v < lists.len(),
        lists[u as int].contains(v),
    ensures
        leads(lists, a, v),
{
    let q = choose|q: Seq<usize>| list_path(lists, q, a, u);
    if q.contains(v) {
        let t = q.index_of(v);
        let p = q.take(t + 1);
        assert forall|i: int| #![trigger p[i]] 0 <= i < p.len() - 1 implies lists[p[i] as int].contains(
            p[i + 1],
        ) by {
            assert(p[i] == q[i] && p[i + 1] == q[i + 1]);
        }
        assert(list_path(lists, p, a, v));
    } else {
        let p = q.push(v);
        assert forall|i: int| #![trigger p[i]] 0 <= i < p.len() - 1 implies lists[p[i] as int].contains(
            p[i + 1],
        ) by {
            assert(p[i] == q[i]);
            if i + 1 < q.len() {
                assert(p[i + 1] == q[i + 1]);
            }
        }
        assert forall|i: int| #![trigger p[i]] 0 <= i < p.len() implies p[i] < lists.len() by {
            if i < q.len() {
                assert(p[i] == q[i]);
            }
        }
        assert forall|i: int, j: int|
            0 <= i < p.len() && 0 <= j < p.len() && i != j implies p[i] != p[j] by {
            if i < q.len() {
                assert(q.contains(q[i]));
            }
            if j < q.len() {
                assert(q.contains(q[j]));
            }
        }
        assert(list_path(lists, p, a, v));
    }
}

/// The component of `a`, as a labelling.
spec fn component(lists: Seq<Seq<usize>>, a: usize) -> spec_fn(usize) -> int {
    |x: usize|
        if leads(lists, a, x) {
            1int
        } else {
            0int
        }
}

proof fn lemma_component_respected(lists: Seq<Seq<usize>>, a: usize)
    requires
        symmetric(lists),
    ensures
        respects(lists, component(lists, a)),
{
    let c = component(lists, a);
    assert forall|u: usize, v: usize|
        #![trigger lists[u as int].contains(v)]
        u < lists.len() && lists[u as int].contains(v) implies c(u) == c(v) by {
        assert(lists[v as int].contains(u));
        if leads(lists, a, u) {
            lemma_leads_on(lists, a, u, v);
        }
        if leads(lists, a, v) {
            lemma_leads_on(lists, a, v, u);
        }
    }
}

/// What the chosen edges have of ends at `x`, where `x` has the label 1.
spec fn labelled_ends(edges: Seq<Edge>, chosen: Seq<bool>, c: spec_fn(usize) -> int) -> spec_fn(
    int,
) -> nat {
    |x: int|
        if c(x as usize) == 1 {
            chosen_ends(edges, chosen, x as usize)
        } else {
            0
        }
}

proof fn lemma_chosen_ends_last(edges: Seq<Edge>, chosen: Seq<bool>, x: usize)
    requires
        edges.len() > 0,
        chosen.len() == edges.len(),
    ensures
        chosen_ends(edges, chosen, x) == chosen_ends(edges.drop_last(), chosen.drop_last(), x)
            + if chosen.last() {
            edge_ends(edges.last(), x)
        } else {
            0
        },
{
    let n = edges.len() as int;
    let f = |i: int|
        if chosen[i] {
            edge_ends(edges[i], x)
        } else {
            0
        };
    let es = edges.drop_last();
    let cs = chosen.drop_last();
    let g = |i: int|
        if cs[i] {
            edge_ends(es[i], x)
        } else {
            0
        };
    lemma_sum_same(n - 1, f, g);
    assert(sum_below(n, f) == sum_below(n - 1, f) + f(n - 1));
    assert(chosen_ends(es, cs, x) == sum_below(n - 1, g));
}

/// Over the vertices with label 1, the chosen edges have an even number of ends,
/// where every edge joins equal labels; and one more where the last one does not.
proof fn lemma_cut_parity(edges: Seq<Edge>, chosen: Seq<bool>, c: spec_fn(usize) -> int, n: nat)
    requires
        n <= usize::MAX,
        chosen.len() == edges.len(),
        forall|k: int|
            0 <= k < edges.len() ==> (#[trigger] edges[k]).0 < n && edges[k].1 < n,
        forall|k: int|
            0 <= k < edges.len() - 1 ==> (c((#[trigger] edges[k]).0) == 1 <==> c(edges[k].1) == 1),
    ensures
        edges.len() > 0 && chosen.last() && (c(edges.last().0) == 1 <==> c(edges.last().1) != 1)
            ==> sum_below(n as int, labelled_ends(edges, chosen, c)) % 2 == 1,
        edges.len() == 0 || !chosen.last() || (c(edges.last().0) == 1 <==> c(edges.last().1) == 1)
            ==> sum_below(n as int, labelled_ends(edges, chosen, c)) % 2 == 0,
    decreases edges.len(),
{
    let f = labelled_ends(edges, chosen, c);
    if edges.len() == 0 {
        assert forall|x: int| 0 <= x < n implies #[trigger] f(x) == 0 by {
        }
        lemma_all_zero(n as int, f);
    } else {
        let es = edges.drop_last();
        let cs = chosen.drop_last();
        assert forall|k: int| 0 <= k < es.len() implies (#[trigger] es[k]).0 < n && es[k].1 < n
            && (c(es[k].0) == 1 <==> c(es[k].1) == 1) by {
            assert(es[k] == edges[k]);
        }
        lemma_cut_parity(es, cs, c, n);
        if es.len() > 0 {
            assert(es.last() == edges[es.len() - 1]);
        }
        let g = labelled_ends(es, cs, c);
        let e = edges.last();
        assert(e == edges[edges.len() - 1]);
        let h = |x: int|
            if c(x as usize) == 1 && chosen.last() {
                edge_ends(e, x as usize)
            } else {
                0
            };
        assert forall|x: int| 0 <= x < n implies #[trigger] f(x) == g(x) + h(x) by {
            lemma_chosen_ends_last(edges, chosen, x as usize);
        }
        lemma_sum_add(n as int, f, g, h);
        assert forall|x: int| 0 <= x < n && x != e.0 && x != e.1 implies #[trigger] h(x) == 0 by {
        }
        lemma_sum_two(n as int, h, e.0 as int, e.1 as int);
    }
}

proof fn lemma_all_zero(n: int, f: spec_fn(int) -> nat)
    requires
        forall|x: int| 0 <= x < n ==> #[trigger] f(x) == 0,
    ensures
        sum_below(n, f) == 0,
    decreases n,
{
    if n > 0 {
        lemma_all_zero(n - 1, f);
        assert(f(n - 1) == 0);
    }
}

proof fn lemma_all_even(n: int, f: spec_fn(int) -> nat)
    requires
        forall|x: int| 0 <= x < n ==> #[trigger] f(x) % 2 == 0,
    ensures
        sum_below(n, f) % 2 == 0,
    decreases n,
{
    if n > 0 {
        lemma_all_even(n - 1, f);
        assert(f(n - 1) % 2 == 0);
    }
}

/// A closed choice without the last edge is one among the others.
proof fn lemma_choice_front(edges: Seq<Edge>, chosen: Seq<bool>)
    requires
        edges.len() > 0,
        closed_choice(edges, chosen),
        !chosen.last(),
    ensures
        closed_choice(edges.drop_last(), chosen.drop_last()),
{
    assert forall|x: usize| #[trigger]
        chosen_ends(edges.drop_last(), chosen.drop_last(), x) % 2 == 0 by {
        lemma_chosen_ends_last(edges, chosen, x);
        assert(chosen_ends(edges, chosen, x) % 2 == 0);
    }
}

/// An edge that is cut itself leaves no new closed chain.
pub proof fn lemma_cut_with_edge(list: Seq<Edge>, own: Seq<Edge>, e: Edge)
    requires
        cuts_cycles(list, own),
    ensures
        cuts_cycles(list.push(e), seq![e] + own),
{
    let edges = list.push(e);
    let all = seq![e] + own;
    assert(edges.drop_last() =~= list);
    assert forall|chosen: Seq<bool>, i: int|
        #![trigger closed_choice(edges, chosen), chosen[i]]
        closed_choice(edges, chosen) && 0 <= i < edges.len() && chosen[i] implies exists|k: int|
        0 <= k < edges.len() && chosen[k] && all.contains(#[trigger] edges[k]) by {
        let last = edges.len() - 1;
        if chosen[last] {
            assert(all[0] == e);
            assert(all.contains(edges[last]));
        } else {
            lemma_choice_front(edges, chosen);
            let cs = chosen.drop_last();
            assert(cs[i]);
            let k = choose|k: int| 0 <= k < list.len() && cs[k] && own.contains(#[trigger] list[k]);
            let t = own.index_of(list[k]);
            assert(all[t + 1] == list[k]);
            assert(edges[k] == list[k]);
            assert(chosen[k]);
        }
    }
}

/// An edge between two components closes no chain.
pub proof fn lemma_cut_across(
    list: Seq<Edge>,
    own: Seq<Edge>,
    e: Edge,
    n: nat,
    c: spec_fn(usize) -> int,
)
    requires
        cuts_cycles(list, own),
        n <= usize::MAX,
        e.0 < n,
        e.1 < n,
        forall|k: int|
            0 <= k < list.len() ==> (#[trigger] list[k]).0 < n && list[k].1 < n && (c(list[k].0) == 1 <==> c(list[k].1) == 1),
        c(e.0) == 1 <==> c(e.1) != 1,
    ensures
        cuts_cycles(list.push(e), own),
{
    let edges = list.push(e);
    assert(edges.drop_last() =~= list);
    assert forall|chosen: Seq<bool>, i: int|
        #![trigger closed_choice(edges, chosen), chosen[i]]
        closed_choice(edges, chosen) && 0 <= i < edges.len() && chosen[i] implies exists|k: int|
        0 <= k < edges.len() && chosen[k] && own.contains(#[trigger] edges[k]) by {
        let last = edges.len() - 1;
        if chosen[last] {
            assert forall|k: int| 0 <= k < edges.len() implies (#[trigger] edges[k]).0 < n
                && edges[k].1 < n by {
                if k < last {
                    assert(edges[k] == list[k]);
                }
            }
            assert forall|k: int| 0 <= k < edges.len() - 1 implies (c((#[trigger] edges[k]).0) == 1
                <==> c(edges[k].1) == 1) by {
                assert(edges[k] == list[k]);
            }
            lemma_cut_parity(edges, chosen, c, n);
            let f = labelled_ends(edges, chosen, c);
            assert forall|x: int| 0 <= x < n implies #[trigger] f(x) % 2 == 0 by {
                assert(chosen_ends(edges, chosen, x as usize) % 2 == 0);
            }
            lemma_all_even(n as int, f);
        } else {
            lemma_choice_front(edges, chosen);
            let cs = chosen.drop_last();
            assert(cs[i]);
            let k = choose|k: int| 0 <= k < list.len() && cs[k] && own.contains(#[trigger] list[k]);
            assert(edges[k] == list[k]);
            assert(chosen[k]);
        }
    }
}

proof fn lemma_newest_push(basis: Seq<Seq<Edge>>, c: Seq<Edge>, k: int)
    requires
        0 <= k <= basis.len(),
    ensures
        newest_first(basis.push(c), k) == seq![c] + newest_first(basis, k),
{
    let more = basis.push(c);
    assert(more.take(k) =~= basis.take(k));
    assert(more.skip(k) =~= basis.skip(k).push(c));
    let a = more.skip(k).reverse();
    let b = seq![c] + basis.skip(k).reverse();
    assert forall|i: int| 0 <= i < a.len() implies #[trigger] a[i] == b[i] by {
    }
    assert(a =~= b);
    assert(newest_first(more, k) =~= seq![c] + newest_first(basis, k));
}

proof fn lemma_newest_in(basis: Seq<Seq<Edge>>, k: int, t: int) -> (i: int)
    requires
        0 <= k <= basis.len(),
        0 <= t < newest_first(basis, k).len(),
    ensures
        0 <= i < basis.len(),
        newest_first(basis, k)[t] == basis[i],
{
    if t < basis.len() - k {
        basis.len() - 1 - t
    } else {
        t - (basis.len() - k)
    }
}

proof fn lemma_listed_push(edges: Seq<Edge>, list: Seq<Edge>, i: usize, j: usize)
    requires
        lists_once(edges, list),
        !joined(edges, i, j),
    ensures
        lists_once(edges.push((i, j)), list.push(canonical(i, j))),
{
    let more = edges.push((i, j));
    let e = canonical(i, j);
    let longer = list.push(e);
    assert(!list.contains(e)) by {
        if list.contains(e) {
            let k = choose|k: int|
                0 <= k < edges.len() && e == canonical((#[trigger] edges[k]).0, edges[k].1);
            assert(edges[k] == (i, j) || edges[k] == (j, i));
            assert(edges.contains(edges[k]));
        }
    }
    assert forall|a: int, b: int|
        0 <= a < longer.len() && 0 <= b < longer.len() && a != b implies longer[a] != longer[b] by {
        if a < list.len() {
            assert(list.contains(list[a]));
        }
        if b < list.len() {
            assert(list.contains(list[b]));
        }
    }
    assert forall|f: Edge|
        #![trigger longer.contains(f)]
        longer.contains(f) <==> exists|k: int|
            0 <= k < more.len() && f == canonical((#[trigger] more[k]).0, more[k].1) by {
        if longer.contains(f) {
            let t = longer.index_of(f);
            if t < list.len() {
                assert(list[t] == f);
                assert(list.contains(f));
                let k = choose|k: int|
                    0 <= k < edges.len() && f == canonical((#[trigger] edges[k]).0, edges[k].1);
                assert(more[k] == edges[k]);
            } else {
                assert(more[edges.len() as int] == (i, j));
            }
        }
        if exists|k: int|
            0 <= k < more.len() && f == canonical((#[trigger] more[k]).0, more[k].1) {
            let k = choose|k: int|
                0 <= k < more.len() && f == canonical((#[trigger] more[k]).0, more[k].1);
            if k < edges.len() {
                assert(edges[k] == more[k]);
                assert(list.contains(f));
                assert(longer[list.index_of(f)] == f);
            } else {
                assert(longer[list.len() as int] == f);
            }
        }
    }
}

/// A new edge and the cycle that it closes, if any: the forest goes on spanning the
/// graph, and the cycles go on being a basis.
#[verifier::spinoff_prover]
pub proof fn lemma_basis_grows(
    g: GraphModel,
    lists: Seq<Seq<usize>>,
    basis: Seq<Seq<Edge>>,
    i: usize,
    j: usize,
    after: Seq<Seq<usize>>,
    cycle: Option<Seq<Edge>>,
)
    requires
        g.nodes <= usize::MAX,
        forall|k: int|
            0 <= k < g.edges.len() ==> (#[trigger] g.edges[k]).0 < g.nodes && g.edges[k].1 < g.nodes,
        lists.len() == g.nodes,
        symmetric(lists),
        spans(lists, g),
        i < g.nodes,
        j < g.nodes,
        i != j,
        !joined(g.edges, i, j),
        forest_updated(lists, i, j, after, cycle),
        is_grown_basis(g.edges, basis),
        forall|t: int, e: Edge|
            #![trigger basis[t].contains(e)]
            0 <= t < basis.len() && basis[t].contains(e) ==> joined(g.edges, e.0, e.1),
    ensures
        symmetric(after),
        spans(after, (GraphModel { nodes: g.nodes, edges: g.edges.push((i, j)) })),
        is_grown_basis(
            g.edges.push((i, j)),
            match cycle {
                Some(c) => basis.push(c),
                None => basis,
            },
        ),
{
    let more = GraphModel { nodes: g.nodes, edges: g.edges.push((i, j)) };
    lemma_symmetric_updated(lists, i, j, after, cycle);
    assert forall|c: spec_fn(usize) -> int, u: usize, v: usize|
        #![trigger respects(after, c), joined(more.edges, u, v)]
        respects(after, c) && joined(more.edges, u, v) && u < more.nodes && v
            < more.nodes implies c(u) == c(v) by {
        law_update_keeps_spanning(lists, i, j, after, cycle, c);
        if !joined(g.edges, u, v) {
            assert((u == i && v == j) || (u == j && v == i)) by {
                if more.edges.contains((u, v)) {
                    let t = more.edges.index_of((u, v));
                    if t < g.edges.len() {
                        assert(g.edges[t] == (u, v));
                        assert(g.edges.contains((u, v)));
                    }
                } else {
                    let t = more.edges.index_of((v, u));
                    if t < g.edges.len() {
                        assert(g.edges[t] == (v, u));
                        assert(g.edges.contains((v, u)));
                    }
                }
            }
        }
    }
    let (list, k) = choose|list: Seq<Edge>, k: int|
        0 <= k <= basis.len() && lists_once(g.edges, list) && #[trigger] is_cycle_basis(
            list,
            newest_first(basis, k),
        );
    let ordered = newest_first(basis, k);
    let own = choose|own: Seq<Edge>| #[trigger] own_edges(ordered, own) && cuts_cycles(list, own);
    let e = canonical(i, j);
    lemma_listed_push(g.edges, list, i, j);
    match cycle {
        Some(c) => {
            lemma_newest_push(basis, c, k);
            lemma_cut_with_edge(list, own, e);
            let now = newest_first(basis.push(c), k);
            let all = seq![e] + own;
            assert(c.contains(e)) by {
                let p = choose|p: Seq<usize>|
                    {
                        &&& #[trigger] list_path(lists, p, i, j)
                        &&& forall|q: Seq<usize>| #[trigger]
                            list_path(lists, q, i, j) ==> p.len() <= q.len()
                        &&& c == crate::graph_construction::closed_path(p, i, j)
                        &&& after == linked(unlinked(lists, p[0], p[1]), i, j)
                    };
                assert(c.last() == e);
            }
            assert forall|t: int| 0 <= t < now.len() implies now[t].contains(#[trigger] all[t]) by {
                if t > 0 {
                    assert(all[t] == own[t - 1]);
                    assert(now[t] == ordered[t - 1]);
                }
            }
            assert forall|a: int, b: int|
                #![trigger all[a], now[b]]
                0 <= a < b < now.len() implies !now[b].contains(all[a]) by {
                assert(now[b] == ordered[b - 1]);
                if a == 0 {
                    let t = lemma_newest_in(basis, k, b - 1);
                    if basis[t].contains(e) {
                        assert(joined(g.edges, e.0, e.1));
                    }
                } else {
                    assert(all[a] == own[a - 1]);
                }
            }
            assert(own_edges(now, all));
            assert(is_cycle_basis(list.push(e), now));
            assert(is_grown_basis(more.edges, basis.push(c)));
        },
        None => {
            let c = component(lists, i);
            lemma_component_respected(lists, i);
            assert(leads(lists, i, i)) by {
                assert(list_path(lists, seq![i], i, i));
            }
            assert(!leads(lists, i, j));
            assert forall|t: int| 0 <= t < list.len() implies (#[trigger] list[t]).0 < g.nodes
                && list[t].1 < g.nodes && (c(list[t].0) == 1 <==> c(list[t].1) == 1) by {
                assert(list.contains(list[t]));
                let q = choose|q: int|
                    0 <= q < g.edges.len() && list[t] == canonical(
                        (#[trigger] g.edges[q]).0,
                        g.edges[q].1,
                    );
                assert(g.edges.contains(g.edges[q]));
                assert(joined(g.edges, list[t].0, list[t].1));
            }
            lemma_cut_across(list, own, e, g.nodes, c);
            assert(is_cycle_basis(list.push(e), ordered));
            assert(is_grown_basis(more.edges, basis));
        },
    }
}

} // verus!
