//! Cycle bases of low congestion, by the randomized recursion of the decongestion
//! lemma of Freedman and Hastings.

use rand::rngs::StdRng;
use vstd::prelude::*;

#[allow(unused_imports)]
use crate::coloring::lemma_distinct_below;
use crate::graph::Edge;
#[allow(unused_imports)]
use crate::graph_construction::{
    canonical, cycle_views, edge_ends, ends_at, lemma_ends_add, lemma_path_ends, path_edges, two_regular,
};
use crate::random::pick_below;
use crate::search::{bfs_route, Step};
#[allow(unused_imports)]
use crate::search::{is_route, lists_ok, route_end, route_vertices};

verus! {

/// A working multigraph edge: its two ends and the trail of graph edges that it
/// stands for.
pub struct WorkingEdge {
    pub a: usize,
    pub b: usize,
    pub trail: Vec<Edge>,
}

/// Working edge `id` is still there.
pub open spec fn live(w: Seq<Option<WorkingEdge>>, id: int) -> bool {
    0 <= id < w.len() && w[id] is Some
}

/// The graph edges that working edge `id` stands for.
pub open spec fn trail_of(w: Seq<Option<WorkingEdge>>, id: int) -> Seq<Edge> {
    w[id]->0.trail@
}

/// How many ends working edge `id` has at `v`.
pub open spec fn ends_of(w: Seq<Option<WorkingEdge>>, id: int, v: usize) -> nat {
    edge_ends((w[id]->0.a, w[id]->0.b), v)
}

/// Working edge `id` runs between `u` and `t`.
pub open spec fn joins(w: Seq<Option<WorkingEdge>>, id: int, u: usize, t: usize) -> bool {
    ||| w[id]->0.a == u && w[id]->0.b == t
    ||| w[id]->0.a == t && w[id]->0.b == u
}

spec fn occurrences(list: Seq<usize>, id: usize) -> nat {
    list.to_multiset().count(id)
}

/// The incidence lists hold every working edge at each of its ends.
spec fn indexed(w: Seq<Option<WorkingEdge>>, incidence: Seq<Vec<usize>>) -> bool {
    &&& w.len() <= usize::MAX
    &&& forall|id: int| #[trigger]
        live(w, id) ==> w[id]->0.a < incidence.len() && w[id]->0.b < incidence.len()
    &&& forall|v: usize, id: usize|
        #![trigger occurrences(incidence[v as int]@, id)]
        v < incidence.len() ==> occurrences(incidence[v as int]@, id) == if live(w, id as int) {
            ends_of(w, id as int, v)
        } else {
            0
        }
}

/// The trails of the working edges. `gone` holds the vertices that were merged away.
spec fn trails_ok(w: Seq<Option<WorkingEdge>>, edges: Seq<Edge>, gone: Set<usize>) -> bool {
    &&& forall|id: int| #[trigger]
        live(w, id) ==> !gone.contains(w[id]->0.a) && !gone.contains(w[id]->0.b) && trail_of(
            w,
            id,
        ).len() > 0
    &&& forall|id: int, x: usize|
        #![trigger ends_at(trail_of(w, id), x)]
        live(w, id) && !gone.contains(x) ==> ends_at(trail_of(w, id), x) == ends_of(w, id, x)
    &&& forall|id: int, x: usize|
        #![trigger ends_at(trail_of(w, id), x)]
        live(w, id) && gone.contains(x) ==> ends_at(trail_of(w, id), x) == 0 || ends_at(
            trail_of(w, id),
            x,
        ) == 2
    &&& forall|i: int, j: int, x: usize|
        #![trigger ends_at(trail_of(w, i), x), ends_at(trail_of(w, j), x)]
        live(w, i) && live(w, j) && i != j && gone.contains(x) ==> ends_at(trail_of(w, i), x) == 0
            || ends_at(trail_of(w, j), x) == 0
    &&& forall|id: int, e: Edge|
        #![trigger trail_of(w, id).contains(e)]
        live(w, id) && trail_of(w, id).contains(e) ==> edges.contains(e)
}

/// No edge is on two trails.
spec fn trails_apart(w: Seq<Option<WorkingEdge>>) -> bool {
    forall|i: int, j: int, e: Edge|
        #![trigger trail_of(w, i).contains(e), trail_of(w, j).contains(e)]
        live(w, i) && live(w, j) && i != j ==> !(trail_of(w, i).contains(e) && trail_of(
            w,
            j,
        ).contains(e))
}

spec fn live_count(w: Seq<Option<WorkingEdge>>) -> nat
    decreases w.len(),
{
    if w.len() == 0 {
        0
    } else {
        live_count(w.drop_last()) + if w.last() is Some {
            1nat
        } else {
            0nat
        }
    }
}

proof fn lemma_live_push(w: Seq<Option<WorkingEdge>>, e: Option<WorkingEdge>)
    ensures
        live_count(w.push(e)) == live_count(w) + if e is Some {
            1nat
        } else {
            0nat
        },
{
    assert(w.push(e).drop_last() =~= w);
}

proof fn lemma_live_removed(w: Seq<Option<WorkingEdge>>, id: int)
    requires
        live(w, id),
    ensures
        live_count(w.update(id, None)) + 1 == live_count(w),
    decreases w.len(),
{
    let after = w.update(id, None);
    if id == w.len() - 1 {
        assert(after.drop_last() =~= w.drop_last());
    } else {
        assert(after.drop_last() =~= w.drop_last().update(id, None));
        assert(w.drop_last()[id] == w[id]);
        lemma_live_removed(w.drop_last(), id);
    }
}

proof fn lemma_live_exists(w: Seq<Option<WorkingEdge>>) -> (id: int)
    requires
        live_count(w) > 0,
    ensures
        live(w, id),
    decreases w.len(),
{
    if w.last() is Some {
        w.len() - 1
    } else {
        let id = lemma_live_exists(w.drop_last());
        assert(w.drop_last()[id] == w[id]);
        id
    }
}

/// Remove a single occurrence of `id` from an incidence list.
fn dl_remove_occurrence(list: &mut Vec<usize>, id: usize)
    ensures
        final(list)@.to_multiset() == old(list)@.to_multiset().remove(id),
{
    let ghost before = list@;
    let mut p: usize = 0;
    while p < list.len() && list[p] != id
        invariant
            p <= list@.len(),
            list@ == before,
            forall|k: int| 0 <= k < p ==> #[trigger] before[k] != id,
        decreases list@.len() - p,
    {
        p = p + 1;
    }
    if p < list.len() {
        let _ = list.swap_remove(p);
        proof {
            let moved = before.update(p as int, before.last());
            vstd::seq_lib::to_multiset_update(before, p as int, before.last());
            vstd::seq_lib::to_multiset_remove(moved, moved.len() - 1);
            assert(moved.drop_last() =~= moved.remove(moved.len() - 1));
            before.to_multiset_ensures();
            assert(before.contains(id));
            assert(before.to_multiset().count(id) > 0);
            let last = before.last();
            assert(moved[moved.len() - 1] == last);
            assert(list@.to_multiset() =~= before.to_multiset().remove(id));
        }
    } else {
        proof {
            before.to_multiset_ensures();
            assert(!before.contains(id));
            assert(before.to_multiset().count(id) == 0);
            assert(before.to_multiset().remove(id) =~= before.to_multiset());
        }
    }
}

/// Delete working edge `id` from both ends' lists (a loop is listed, and so
/// removed, twice at its vertex).
fn dl_remove_edge(w: &mut Vec<Option<WorkingEdge>>, incidence: &mut Vec<Vec<usize>>, id: usize)
    requires
        indexed(old(w)@, old(incidence)@),
        live(old(w)@, id as int),
    ensures
        final(w)@ == old(w)@.update(id as int, None),
        indexed(final(w)@, final(incidence)@),
        final(incidence)@.len() == old(incidence)@.len(),
{
    let ghost w0 = w@;
    let ghost inc0 = incidence@;
    let mut taken: Option<WorkingEdge> = None;
    core::mem::swap(&mut taken, &mut w[id]);
    if let Some(e) = taken {
        assert(live(w0, id as int));
        let mut row: Vec<usize> = Vec::new();
        core::mem::swap(&mut row, &mut incidence[e.a]);
        dl_remove_occurrence(&mut row, id);
        core::mem::swap(&mut row, &mut incidence[e.a]);
        let ghost inc1 = incidence@;
        let mut row2: Vec<usize> = Vec::new();
        core::mem::swap(&mut row2, &mut incidence[e.b]);
        dl_remove_occurrence(&mut row2, id);
        core::mem::swap(&mut row2, &mut incidence[e.b]);
        proof {
            assert(w@ =~= w0.update(id as int, None));
            assert forall|v: usize, k: usize|
                #![trigger occurrences(incidence@[v as int]@, k)]
                v < incidence@.len() implies occurrences(incidence@[v as int]@, k) == if live(
                w@,
                k as int,
            ) {
                ends_of(w@, k as int, v)
            } else {
                0
            } by {
                let before = occurrences(inc0[v as int]@, k);
                if k != id && k < w0.len() {
                    assert(w@[k as int] == w0[k as int]);
                }
            }
            assert forall|k: int| #[trigger] live(w@, k) implies w@[k]->0.a < incidence@.len()
                && w@[k]->0.b < incidence@.len() by {
                assert(live(w0, k));
            }
        }
    }
}

/// Add a working edge. A loop is listed twice at its vertex.
fn dl_add_edge(
    w: &mut Vec<Option<WorkingEdge>>,
    incidence: &mut Vec<Vec<usize>>,
    a: usize,
    b: usize,
    trail: Vec<Edge>,
)
    requires
        indexed(old(w)@, old(incidence)@),
        a < old(incidence)@.len(),
        b < old(incidence)@.len(),
    ensures
        final(w)@ == old(w)@.push(Some(WorkingEdge { a, b, trail })),
        indexed(final(w)@, final(incidence)@),
        final(incidence)@.len() == old(incidence)@.len(),
{
    let ghost w0 = w@;
    let ghost inc0 = incidence@;
    let id: usize = w.len();
    w.push(Some(WorkingEdge { a, b, trail }));
    let n_edges: usize = w.len();
    let mut row: Vec<usize> = Vec::new();
    core::mem::swap(&mut row, &mut incidence[a]);
    let ghost row0 = row@;
    row.push(id);
    core::mem::swap(&mut row, &mut incidence[a]);
    let mut row2: Vec<usize> = Vec::new();
    core::mem::swap(&mut row2, &mut incidence[b]);
    let ghost row1 = row2@;
    row2.push(id);
    core::mem::swap(&mut row2, &mut incidence[b]);
    proof {
        assert(n_edges == w@.len());
        vstd::seq_lib::to_multiset_build(row0, id);
        vstd::seq_lib::to_multiset_build(row1, id);
        assert forall|v: usize, k: usize|
            #![trigger occurrences(incidence@[v as int]@, k)]
            v < incidence@.len() implies occurrences(incidence@[v as int]@, k) == if live(
            w@,
            k as int,
        ) {
            ends_of(w@, k as int, v)
        } else {
            0
        } by {
            let before = occurrences(inc0[v as int]@, k);
            if k < w0.len() {
                assert(w@[k as int] == w0[k as int]);
            }
        }
        assert forall|k: int| #[trigger] live(w@, k) implies w@[k]->0.a < incidence@.len()
            && w@[k]->0.b < incidence@.len() by {
            if k < w0.len() {
                assert(w@[k] == w0[k]);
                assert(live(w0, k));
            }
        }
    }
}

/// An edge is in a list exactly where it has an end.
proof fn lemma_listed(w: Seq<Option<WorkingEdge>>, incidence: Seq<Vec<usize>>, v: usize, id: usize)
    requires
        indexed(w, incidence),
        v < incidence.len(),
    ensures
        incidence[v as int]@.contains(id) <==> live(w, id as int) && ends_of(w, id as int, v) > 0,
{
    incidence[v as int]@.to_multiset_ensures();
    assert(occurrences(incidence[v as int]@, id) >= 0);
    vstd::seq_lib::to_multiset_contains(incidence[v as int]@, id);
}

proof fn lemma_twice(s: Seq<usize>, i: int, j: int)
    requires
        0 <= i < j < s.len(),
        s[i] == s[j],
    ensures
        occurrences(s, s[i]) >= 2,
{
    let rest = s.remove(i);
    vstd::seq_lib::to_multiset_remove(s, i);
    assert(rest[j - 1] == s[j]);
    vstd::seq_lib::to_multiset_contains(rest, s[j]);
    assert(rest.contains(s[j]));
}

// ---------------------------------------------------------------------------
// Routes in the working graph
// ---------------------------------------------------------------------------
/// A route along working edges other than `excluded`, none of them a loop.
pub open spec fn working_route(
    w: Seq<Option<WorkingEdge>>,
    n: nat,
    excluded: int,
    a: usize,
    steps: Seq<Step>,
) -> bool {
    &&& a < n
    &&& forall|i: int|
        0 <= i < steps.len() ==> {
            &&& (#[trigger] steps[i]).0 < n
            &&& live(w, steps[i].1 as int)
            &&& steps[i].1 != excluded
            &&& route_vertices(a, steps)[i] != steps[i].0
            &&& joins(w, steps[i].1 as int, route_vertices(a, steps)[i], steps[i].0)
        }
}

/// The adjacency lists of the working graph without `excluded` and without loops.
spec fn lists_for(
    w: Seq<Option<WorkingEdge>>,
    n: nat,
    excluded: int,
    lists: Seq<Vec<Step>>,
) -> bool {
    &&& lists.len() == n
    &&& forall|u: usize, s: Step|
        #![trigger lists[u as int]@.contains(s)]
        u < n ==> (lists[u as int]@.contains(s) <==> step_ok(w, n, excluded, u, s))
}

spec fn step_ok(w: Seq<Option<WorkingEdge>>, n: nat, excluded: int, u: usize, s: Step) -> bool {
    &&& s.0 < n
    &&& live(w, s.1 as int)
    &&& s.1 != excluded
    &&& u != s.0
    &&& joins(w, s.1 as int, u, s.0)
}

proof fn lemma_routes_agree(
    w: Seq<Option<WorkingEdge>>,
    n: nat,
    excluded: int,
    lists: Seq<Vec<Step>>,
    a: usize,
    steps: Seq<Step>,
)
    requires
        lists_for(w, n, excluded, lists),
    ensures
        is_route(lists, a, steps) <==> working_route(w, n, excluded, a, steps),
{
    let p = route_vertices(a, steps);
    if is_route(lists, a, steps) {
        assert forall|i: int| 0 <= i < steps.len() implies {
            &&& (#[trigger] steps[i]).0 < n
            &&& live(w, steps[i].1 as int)
            &&& steps[i].1 != excluded
            &&& p[i] != steps[i].0
            &&& joins(w, steps[i].1 as int, p[i], steps[i].0)
        } by {
            assert(p[i] < n) by {
                if i > 0 {
                    assert(steps[i - 1].0 < lists.len());
                }
            }
            assert(lists[p[i] as int]@.contains(steps[i]));
            assert(step_ok(w, n, excluded, p[i], steps[i]));
        }
    }
    if working_route(w, n, excluded, a, steps) {
        assert forall|i: int| 0 <= i < steps.len() implies {
            &&& (#[trigger] steps[i]).0 < lists.len()
            &&& lists[p[i] as int]@.contains(steps[i])
        } by {
            assert(p[i] < n) by {
                if i > 0 {
                    assert(steps[i - 1].0 < n);
                }
            }
            assert(step_ok(w, n, excluded, p[i], steps[i]));
        }
    }
}

fn working_lists(
    w: &Vec<Option<WorkingEdge>>,
    incidence: &Vec<Vec<usize>>,
    excluded: usize,
) -> (lists: Vec<Vec<Step>>)
    requires
        indexed(w@, incidence@),
    ensures
        lists_for(w@, incidence@.len(), excluded as int, lists@),
        lists_ok(lists@),
{
    let n: usize = incidence.len();
    let mut lists: Vec<Vec<Step>> = Vec::new();
    let mut u: usize = 0;
    while u < n
        invariant
            indexed(w@, incidence@),
            n == incidence@.len(),
            u <= n,
            lists@.len() == u,
            forall|v: usize, s: Step|
                #![trigger lists@[v as int]@.contains(s)]
                v < u ==> (lists@[v as int]@.contains(s) <==> step_ok(
                    w@,
                    n as nat,
                    excluded as int,
                    v,
                    s,
                )),
        decreases n - u,
    {
        let row = working_row(w, incidence, excluded, u);
        lists.push(row);
        u = u + 1;
    }
    proof {
        assert forall|v: int, k: int|
            0 <= v < lists@.len() && 0 <= k < lists@[v]@.len() implies (#[trigger] lists@[v]@[k]).0
            < lists@.len() by {
            assert(lists@[v as usize as int]@.contains(lists@[v]@[k]));
        }
    }
    lists
}

fn working_row(
    w: &Vec<Option<WorkingEdge>>,
    incidence: &Vec<Vec<usize>>,
    excluded: usize,
    u: usize,
) -> (row: Vec<Step>)
    requires
        indexed(w@, incidence@),
        u < incidence@.len(),
    ensures
        forall|s: Step| #[trigger]
            row@.contains(s) <==> step_ok(w@, incidence@.len(), excluded as int, u, s),
{
    let mut row: Vec<Step> = Vec::new();
    let n_at: usize = incidence[u].len();
    let mut k: usize = 0;
    while k < n_at
        invariant
            indexed(w@, incidence@),
            u < incidence@.len(),
            k <= n_at,
            n_at == incidence@[u as int]@.len(),
            forall|i: int|
                0 <= i < row@.len() ==> step_ok(
                    w@,
                    incidence@.len(),
                    excluded as int,
                    u,
                    #[trigger] row@[i],
                ),
            forall|i: int, s: Step|
                #![trigger incidence@[u as int]@[i], row@.contains(s)]
                0 <= i < k && s.1 == incidence@[u as int]@[i] && step_ok(
                    w@,
                    incidence@.len(),
                    excluded as int,
                    u,
                    s,
                ) ==> row@.contains(s),
        decreases n_at - k,
    {
        let id = incidence[u][k];
        let ghost row0 = row@;
        proof {
            assert(incidence@[u as int]@.contains(id));
            lemma_listed(w@, incidence@, u, id);
        }
        if id != excluded {
            if let Some(e) = &w[id] {
                assert(live(w@, id as int));
                let t = if e.a == u {
                    e.b
                } else {
                    e.a
                };
                if t != u {
                    row.push((t, id));
                    proof {
                        assert(row@.last() == (t, id));
                        assert forall|s: Step| row0.contains(s) implies #[trigger] row@.contains(
                            s,
                        ) by {
                            assert(row@[row0.index_of(s)] == s);
                        }
                        assert(row@.contains((t, id)));
                    }
                }
            }
        }
        proof {
            assert forall|i: int, s: Step|
                #![trigger incidence@[u as int]@[i], row@.contains(s)]
                0 <= i < k + 1 && s.1 == incidence@[u as int]@[i] && step_ok(
                    w@,
                    incidence@.len(),
                    excluded as int,
                    u,
                    s,
                ) implies row@.contains(s) by {
                if i < k {
                    assert(row0.contains(s));
                } else {
                    let e = w@[id as int]->0;
                    assert(joins(w@, id as int, u, s.0));
                    assert(s == (if e.a == u {
                        e.b
                    } else {
                        e.a
                    }, id));
                }
            }
        }
        k = k + 1;
    }
    proof {
        assert forall|s: Step| #[trigger] row@.contains(s) <==> step_ok(
            w@,
            incidence@.len(),
            excluded as int,
            u,
            s,
        ) by {
            if row@.contains(s) {
                assert(row@[row@.index_of(s)] == s);
            }
            if step_ok(w@, incidence@.len(), excluded as int, u, s) {
                lemma_listed(w@, incidence@, u, s.1);
                let i = incidence@[u as int]@.index_of(s.1);
                assert(incidence@[u as int]@[i] == s.1);
            }
        }
    }
    row
}

// ---------------------------------------------------------------------------
// Cycles in the working graph
// ---------------------------------------------------------------------------
/// How many ends the working edges have at `x`.
pub open spec fn ids_ends(w: Seq<Option<WorkingEdge>>, ids: Seq<usize>, x: usize) -> nat
    decreases ids.len(),
{
    if ids.len() == 0 {
        0
    } else {
        ids_ends(w, ids.drop_last(), x) + ends_of(w, ids.last() as int, x)
    }
}

/// Distinct working edges that form a cycle.
pub open spec fn working_cycle(w: Seq<Option<WorkingEdge>>, ids: Seq<usize>) -> bool {
    &&& ids.len() > 0
    &&& ids.no_duplicates()
    &&& forall|i: int| 0 <= i < ids.len() ==> live(w, #[trigger] ids[i] as int)
    &&& forall|x: usize| #[trigger] ids_ends(w, ids, x) == 0 || ids_ends(w, ids, x) == 2
}

/// The working edges along a route.
pub open spec fn labels(steps: Seq<Step>) -> Seq<usize> {
    Seq::new(steps.len(), |i: int| steps[i].1)
}

/// Along a route every working edge has the ends that its step has.
proof fn lemma_route_ends(
    w: Seq<Option<WorkingEdge>>,
    n: nat,
    excluded: int,
    a: usize,
    steps: Seq<Step>,
    x: usize,
)
    requires
        working_route(w, n, excluded, a, steps),
    ensures
        ids_ends(w, labels(steps), x) == ends_at(path_edges(route_vertices(a, steps)), x),
    decreases steps.len(),
{
    let p = route_vertices(a, steps);
    let es = path_edges(p);
    if steps.len() == 0 {
        assert(es =~= Seq::<Edge>::empty());
    } else {
        let front = steps.drop_last();
        let q = route_vertices(a, front);
        assert(q =~= p.drop_last());
        assert(working_route(w, n, excluded, a, front)) by {
            assert forall|i: int| 0 <= i < front.len() implies {
                &&& (#[trigger] front[i]).0 < n
                &&& live(w, front[i].1 as int)
                &&& front[i].1 != excluded
                &&& q[i] != front[i].0
                &&& joins(w, front[i].1 as int, q[i], front[i].0)
            } by {
                assert(front[i] == steps[i]);
                assert(q[i] == p[i]);
            }
        }
        lemma_route_ends(w, n, excluded, a, front, x);
        assert(labels(steps).drop_last() =~= labels(front));
        assert(es.drop_last() =~= path_edges(q));
        let k = steps.len() - 1;
        assert(es.last() == canonical(p[k], p[k + 1]));
        assert(p[k + 1] == steps[k].0);
        assert(joins(w, steps[k].1 as int, p[k], steps[k].0));
    }
}

proof fn lemma_ids_prepend(w: Seq<Option<WorkingEdge>>, id: usize, ids: Seq<usize>, x: usize)
    ensures
        ids_ends(w, seq![id] + ids, x) == ends_of(w, id as int, x) + ids_ends(w, ids, x),
    decreases ids.len(),
{
    if ids.len() == 0 {
        assert(seq![id] + ids =~= seq![id]);
        assert(seq![id].drop_last() =~= Seq::<usize>::empty());
        assert(ids_ends(w, Seq::<usize>::empty(), x) == 0);
    } else {
        assert((seq![id] + ids).drop_last() =~= seq![id] + ids.drop_last());
        lemma_ids_prepend(w, id, ids.drop_last(), x);
    }
}

/// A route back to `v` and the edge that leads out of `v` form a cycle.
proof fn lemma_closed_route(
    w: Seq<Option<WorkingEdge>>,
    n: nat,
    id: usize,
    v: usize,
    x: usize,
    steps: Seq<Step>,
)
    requires
        live(w, id as int),
        joins(w, id as int, v, x),
        v != x,
        working_route(w, n, id as int, x, steps),
        route_end(x, steps) == v,
        route_vertices(x, steps).no_duplicates(),
    ensures
        working_cycle(w, seq![id] + labels(steps)),
{
    let p = route_vertices(x, steps);
    let ids = seq![id] + labels(steps);
    assert(p[0] == x);
    assert(p.last() == v);
    assert forall|i: int| 0 <= i < ids.len() implies live(w, #[trigger] ids[i] as int) by {
        if i > 0 {
            assert(ids[i] == steps[i - 1].1);
        }
    }
    assert forall|i: int, j: int| 0 <= i < j < ids.len() implies ids[i] != ids[j] by {
        assert(ids[j] == steps[j - 1].1);
        if i > 0 {
            assert(ids[i] == steps[i - 1].1);
            assert(p[i] == steps[i - 1].0);
            assert(p[j] == steps[j - 1].0);
            if ids[i] == ids[j] {
                assert(joins(w, ids[i] as int, p[i - 1], p[i]));
                assert(joins(w, ids[j] as int, p[j - 1], p[j]));
                assert(p[i - 1] != p[j - 1]);
                assert(p[i - 1] != p[j]);
            }
        }
    }
    assert forall|y: usize| #[trigger] ids_ends(w, ids, y) == 0 || ids_ends(w, ids, y) == 2 by {
        lemma_ids_prepend(w, id, labels(steps), y);
        lemma_route_ends(w, n, id as int, x, steps, y);
        lemma_path_ends(p, y);
        assert(p.len() > 1);
        assert(p.contains(x)) by {
            assert(p[0] == x);
        }
        assert(p.contains(v)) by {
            assert(p[p.len() - 1] == v);
        }
    }
}

/// No cycle of working edges passes through `v`.
pub open spec fn no_cycle_at(w: Seq<Option<WorkingEdge>>, n: nat, v: usize) -> bool {
    &&& forall|id: int| #[trigger] live(w, id) && ends_of(w, id, v) > 0 ==> w[id]->0.a != w[id]->0.b
    &&& forall|id: int, x: usize, steps: Seq<Step>|
        #![trigger joins(w, id, v, x), working_route(w, n, id, x, steps)]
        live(w, id) && joins(w, id, v, x) && x != v && working_route(w, n, id, x, steps)
            ==> route_end(x, steps) != v
}

/// An edge that leads out of `v`, and a route back along other edges.
pub open spec fn closes(
    w: Seq<Option<WorkingEdge>>,
    n: nat,
    v: usize,
    id: usize,
    x: usize,
    steps: Seq<Step>,
) -> bool {
    &&& live(w, id as int)
    &&& joins(w, id as int, v, x)
    &&& x != v
    &&& working_route(w, n, id as int, x, steps)
    &&& route_end(x, steps) == v
}

/// A cycle through `v`, as working edges: a loop, or an edge out of `v` and a route back.
pub open spec fn cycle_through(
    w: Seq<Option<WorkingEdge>>,
    n: nat,
    v: usize,
    ids: Seq<usize>,
) -> bool {
    ||| ids.len() == 1 && live(w, ids[0] as int) && joins(w, ids[0] as int, v, v)
    ||| exists|id: usize, x: usize, steps: Seq<Step>| #[trigger]
        closes(w, n, v, id, x, steps) && ids == seq![id] + labels(steps)
}

/// A simple cycle through `v`, and none through `v` has fewer edges.
pub open spec fn shortest_cycle_at(
    w: Seq<Option<WorkingEdge>>,
    n: nat,
    v: usize,
    ids: Seq<usize>,
) -> bool {
    &&& working_cycle(w, ids)
    &&& cycle_through(w, n, v, ids)
    &&& forall|other: Seq<usize>| #[trigger]
        cycle_through(w, n, v, other) ==> ids.len() <= other.len()
}

/// A shortest cycle through `v` as working edges, or `None` if `v` is on no cycle. A
/// loop is a cycle of its own; otherwise each edge at `v` is closed by a shortest
/// route back, and the first of the shortest is taken.
fn dl_shortest_cycle(w: &Vec<Option<WorkingEdge>>, incidence: &Vec<Vec<usize>>, v: usize) -> (r:
    Option<Vec<usize>>)
    requires
        indexed(w@, incidence@),
        v < incidence@.len(),
    ensures
        r matches Some(ids) ==> shortest_cycle_at(w@, incidence@.len(), v, ids@),
        r is None ==> no_cycle_at(w@, incidence@.len(), v),
{
    let ghost at = incidence@[v as int]@;
    let n_at: usize = incidence[v].len();
    let mut k: usize = 0;
    while k < n_at
        invariant
            indexed(w@, incidence@),
            v < incidence@.len(),
            at == incidence@[v as int]@,
            n_at == at.len(),
            k <= n_at,
            forall|i: int| 0 <= i < k ==> w@[#[trigger] at[i] as int]->0.a != w@[at[i] as int]->0.b,
        decreases n_at - k,
    {
        let id = incidence[v][k];
        proof {
            assert(at.contains(id));
            lemma_listed(w@, incidence@, v, id);
        }
        if let Some(e) = &w[id] {
            if e.a == e.b {
                let mut one: Vec<usize> = Vec::new();
                one.push(id);
                proof {
                    assert(live(w@, id as int));
                    assert forall|x: usize| #[trigger]
                        ids_ends(w@, one@, x) == 0 || ids_ends(w@, one@, x) == 2 by {
                        assert(one@.drop_last() =~= Seq::<usize>::empty());
                        assert(ids_ends(w@, Seq::<usize>::empty(), x) == 0);
                    }
                    assert(ends_of(w@, id as int, v) > 0);
                    assert(cycle_through(w@, incidence@.len(), v, one@));
                }
                return Some(one);
            }
        }
        k = k + 1;
    }
    let mut best: Option<Vec<usize>> = None;
    k = 0;
    while k < n_at
        invariant
            indexed(w@, incidence@),
            v < incidence@.len(),
            at == incidence@[v as int]@,
            n_at == at.len(),
            k <= n_at,
            forall|i: int|
                0 <= i < n_at ==> w@[#[trigger] at[i] as int]->0.a != w@[at[i] as int]->0.b,
            best matches Some(ids) ==> working_cycle(w@, ids@) && cycle_through(
                w@,
                incidence@.len(),
                v,
                ids@,
            ) && forall|i: int, x: usize, steps: Seq<Step>|
                #![trigger closes(w@, incidence@.len(), v, at[i], x, steps)]
                0 <= i < k && closes(w@, incidence@.len(), v, at[i], x, steps) ==> ids@.len()
                    <= steps.len() + 1,
            best is None ==> forall|i: int, x: usize, steps: Seq<Step>|
                #![trigger joins(w@, at[i] as int, v, x), working_route(
                    w@,
                    incidence@.len(),
                    at[i] as int,
                    x,
                    steps,
                )]
                0 <= i < k && joins(w@, at[i] as int, v, x) && x != v && working_route(
                    w@,
                    incidence@.len(),
                    at[i] as int,
                    x,
                    steps,
                ) ==> route_end(x, steps) != v,
        decreases n_at - k,
    {
        let id = incidence[v][k];
        proof {
            assert(at.contains(id));
            lemma_listed(w@, incidence@, v, id);
        }
        if let Some(e) = &w[id] {
            assert(live(w@, id as int));
            let x = if e.a == v {
                e.b
            } else {
                e.a
            };
            assert(at[k as int] == id);
            let lists = working_lists(w, incidence, id);
            match bfs_route(&lists, x, v) {
                Some(steps) => {
                    let mut ids: Vec<usize> = Vec::new();
                    ids.push(id);
                    for i in 0..steps.len()
                        invariant
                            ids@.len() == i + 1,
                            ids@[0] == id,
                            forall|q: int| 1 <= q < i + 1 ==> #[trigger] ids@[q] == steps@[q - 1].1,
                    {
                        ids.push(steps[i].1);
                    }
                    proof {
                        assert(ids@ =~= seq![id] + labels(steps@));
                        lemma_routes_agree(
                            w@,
                            incidence@.len(),
                            id as int,
                            lists@,
                            x,
                            steps@,
                        );
                        lemma_closed_route(w@, incidence@.len(), id, v, x, steps@);
                        assert(closes(w@, incidence@.len(), v, id, x, steps@));
                        assert forall|y: usize, other: Seq<Step>| #[trigger]
                            closes(w@, incidence@.len(), v, id, y, other) implies ids@.len()
                            <= other.len() + 1 by {
                            assert(y == x);
                            lemma_routes_agree(
                                w@,
                                incidence@.len(),
                                id as int,
                                lists@,
                                x,
                                other,
                            );
                        }
                        if best is Some {
                            let b = best->0;
                            assert forall|i: int, y: usize, other: Seq<Step>|
                                #![trigger closes(w@, incidence@.len(), v, at[i], y, other)]
                                0 <= i < k + 1 && closes(
                                    w@,
                                    incidence@.len(),
                                    v,
                                    at[i],
                                    y,
                                    other,
                                ) implies (b@.len() <= ids@.len() ==> b@.len() <= other.len() + 1)
                                && (ids@.len() < b@.len() ==> ids@.len() <= other.len() + 1) by {
                                if i == k {
                                    assert(at[i] == id);
                                }
                            }
                        } else {
                            assert forall|i: int, y: usize, other: Seq<Step>|
                                #![trigger closes(w@, incidence@.len(), v, at[i], y, other)]
                                0 <= i < k + 1 && closes(
                                    w@,
                                    incidence@.len(),
                                    v,
                                    at[i],
                                    y,
                                    other,
                                ) implies ids@.len() <= other.len() + 1 by {
                                if i < k {
                                    assert(joins(w@, at[i] as int, v, y));
                                }
                            }
                        }
                    }
                    let shorter = match &best {
                        None => true,
                        Some(b) => ids.len() < b.len(),
                    };
                    if shorter {
                        best = Some(ids);
                    }
                },
                None => {
                    proof {
                        assert forall|y: usize, steps: Seq<Step>|
                            joins(w@, id as int, v, y) && y != v && #[trigger] working_route(
                                w@,
                                incidence@.len(),
                                id as int,
                                y,
                                steps,
                            ) implies route_end(y, steps) != v by {
                            assert(y == x);
                            lemma_routes_agree(
                                w@,
                                incidence@.len(),
                                id as int,
                                lists@,
                                y,
                                steps,
                            );
                        }
                    }
                },
            }
        }
        k = k + 1;
    }
    proof {
        if best is None {
            assert forall|id: int| #[trigger]
                live(w@, id) && ends_of(w@, id, v) > 0 implies w@[id]->0.a != w@[id]->0.b by {
                lemma_listed(w@, incidence@, v, id as usize);
                assert(at[at.index_of(id as usize)] == id);
            }
            assert forall|id: int, x: usize, steps: Seq<Step>|
                #![trigger joins(w@, id, v, x), working_route(
                    w@,
                    incidence@.len(),
                    id,
                    x,
                    steps,
                )]
                live(w@, id) && joins(w@, id, v, x) && x != v && working_route(
                    w@,
                    incidence@.len(),
                    id,
                    x,
                    steps,
                ) implies route_end(x, steps) != v by {
                lemma_listed(w@, incidence@, v, id as usize);
                let i = at.index_of(id as usize);
                assert(at[i] == id);
                assert(joins(w@, at[i] as int, v, x));
            }
        }
        if best is Some {
            let ids = best->0;
            assert forall|other: Seq<usize>| #[trigger]
                cycle_through(w@, incidence@.len(), v, other) implies ids@.len()
                <= other.len() by {
                if other.len() == 1 && live(w@, other[0] as int) && joins(
                    w@,
                    other[0] as int,
                    v,
                    v,
                ) {
                    lemma_listed(w@, incidence@, v, other[0]);
                    assert(at[at.index_of(other[0])] == other[0]);
                } else {
                    let (id, x, steps) = choose|id: usize, x: usize, steps: Seq<Step>| #[trigger]
                        closes(w@, incidence@.len(), v, id, x, steps) && other == seq![id]
                            + labels(steps);
                    lemma_listed(w@, incidence@, v, id);
                    let i = at.index_of(id);
                    assert(at[i] == id);
                    assert(closes(w@, incidence@.len(), v, at[i], x, steps));
                }
            }
        }
    }
    best
}

/// No vertex with three edges or more is on a cycle.
spec fn acyclic(w: Seq<Option<WorkingEdge>>, incidence: Seq<Vec<usize>>) -> bool {
    forall|v: usize|
        v < incidence.len() && (#[trigger] incidence[v as int])@.len() >= 3 ==> no_cycle_at(
            w,
            incidence.len(),
            v,
        )
}

/// Every vertex with an edge has at least three of them.
spec fn branching(incidence: Seq<Vec<usize>>) -> bool {
    forall|v: usize|
        v < incidence.len() ==> (#[trigger] incidence[v as int])@.len() == 0
            || incidence[v as int]@.len() >= 3
}

/// A second edge at a vertex that an edge leads to.
proof fn lemma_other_edge(
    w: Seq<Option<WorkingEdge>>,
    incidence: Seq<Vec<usize>>,
    cur: usize,
    last: usize,
) -> (e: usize)
    requires
        indexed(w, incidence),
        branching(incidence),
        cur < incidence.len(),
        live(w, last as int),
        ends_of(w, last as int, cur) == 1,
    ensures
        e != last,
        live(w, e as int),
        ends_of(w, e as int, cur) > 0,
        incidence[cur as int]@.len() >= 3,
{
    lemma_listed(w, incidence, cur, last);
    let at = incidence[cur as int]@;
    assert(at.len() >= 3);
    assert(occurrences(at, last) == 1);
    let e = if at[0] != last {
        at[0]
    } else {
        at[1]
    };
    if at[0] == last && at[1] == last {
        lemma_twice(at, 0, 1);
    }
    assert(at.contains(e)) by {
        assert(at[0] == e || at[1] == e);
    }
    lemma_listed(w, incidence, cur, e);
    e
}

/// The end of a route is a route that avoids any other edge at its last vertex.
#[verifier::spinoff_prover]
proof fn lemma_back_route(
    w: Seq<Option<WorkingEdge>>,
    n: nat,
    a: usize,
    steps: Seq<Step>,
    j: int,
    e: usize,
)
    requires
        working_route(w, n, -1, a, steps),
        route_vertices(a, steps).no_duplicates(),
        0 <= j < steps.len(),
        e != steps.last().1,
        live(w, e as int),
        joins(w, e as int, route_end(a, steps), route_vertices(a, steps)[j]),
    ensures
        working_route(w, n, e as int, route_vertices(a, steps)[j], steps.skip(j)),
        route_end(route_vertices(a, steps)[j], steps.skip(j)) == route_end(a, steps),
{
    let p = route_vertices(a, steps);
    let k = steps.len() as int;
    let far = p[j];
    let cur = p[k];
    let back = steps.skip(j);
    let q = route_vertices(far, back);
    assert(far < n) by {
        if j > 0 {
            assert(steps[j - 1].0 < n);
        }
    }
    assert forall|i: int| 0 <= i < back.len() implies {
        &&& (#[trigger] back[i]).0 < n
        &&& live(w, back[i].1 as int)
        &&& back[i].1 != e
        &&& q[i] != back[i].0
        &&& joins(w, back[i].1 as int, q[i], back[i].0)
    } by {
        assert(back[i] == steps[i + j]);
        assert(q[i] == p[i + j]);
        assert(p[i + j + 1] == steps[i + j].0);
        assert(joins(w, steps[i + j].1 as int, p[i + j], steps[i + j].0));
        if i + j < k - 1 {
            assert(p[i + j] != cur);
            assert(p[i + j + 1] != cur);
        }
    }
    assert(back.last() == steps.last());
}

/// A route without a repeated vertex has fewer steps than there are vertices.
proof fn lemma_route_short(w: Seq<Option<WorkingEdge>>, n: nat, a: usize, steps: Seq<Step>)
    requires
        working_route(w, n, -1, a, steps),
        route_vertices(a, steps).no_duplicates(),
    ensures
        steps.len() < n,
{
    let p = route_vertices(a, steps);
    assert forall|i: int| 0 <= i < p.len() implies 0 <= #[trigger] p[i] < n by {
        if i > 0 {
            assert(steps[i - 1].0 < n);
        }
    }
    let pi = Seq::new(p.len(), |i: int| p[i] as int);
    lemma_distinct_below(pi, n);
}

/// One more step to a vertex that is not on the route yet.
proof fn lemma_longer_route(
    w: Seq<Option<WorkingEdge>>,
    n: nat,
    a: usize,
    steps: Seq<Step>,
    far: usize,
    e: usize,
)
    requires
        working_route(w, n, -1, a, steps),
        route_vertices(a, steps).no_duplicates(),
        !route_vertices(a, steps).contains(far),
        far < n,
        live(w, e as int),
        joins(w, e as int, route_end(a, steps), far),
    ensures
        working_route(w, n, -1, a, steps.push((far, e))),
        route_vertices(a, steps.push((far, e))).no_duplicates(),
{
    let p = route_vertices(a, steps);
    let k = steps.len() as int;
    let more = steps.push((far, e));
    let q = route_vertices(a, more);
    assert(q =~= p.push(far));
    assert(p[k] == route_end(a, steps));
    assert(p.contains(p[k]));
    assert forall|i: int| 0 <= i < more.len() implies {
        &&& (#[trigger] more[i]).0 < n
        &&& live(w, more[i].1 as int)
        &&& more[i].1 != -1
        &&& q[i] != more[i].0
        &&& joins(w, more[i].1 as int, q[i], more[i].0)
    } by {
        if i < k {
            assert(more[i] == steps[i]);
            assert(q[i] == p[i]);
        }
    }
    assert forall|i: int, j: int| 0 <= i < q.len() && 0 <= j < q.len() && i != j implies q[i]
        != q[j] by {
        if i < p.len() {
            assert(p.contains(p[i]));
        }
        if j < p.len() {
            assert(p.contains(p[j]));
        }
    }
}

/// Where no cycle passes through the last vertex of a route, each edge that leads on
/// leads to a new vertex.
proof fn lemma_new_vertex(
    w: Seq<Option<WorkingEdge>>,
    n: nat,
    a: usize,
    steps: Seq<Step>,
    e: usize,
    far: usize,
)
    requires
        working_route(w, n, -1, a, steps),
        route_vertices(a, steps).no_duplicates(),
        steps.len() > 0,
        e != steps.last().1,
        live(w, e as int),
        joins(w, e as int, route_end(a, steps), far),
        far != route_end(a, steps),
        no_cycle_at(w, n, route_end(a, steps)),
    ensures
        !route_vertices(a, steps).contains(far),
{
    let p = route_vertices(a, steps);
    if p.contains(far) {
        let j = p.index_of(far);
        assert(p[j] == far);
        assert(p[steps.len() as int] == route_end(a, steps));
        lemma_back_route(w, n, a, steps, j, e);
        assert(working_route(w, n, e as int, far, steps.skip(j)));
    }
}

proof fn lemma_next_step(
    w: Seq<Option<WorkingEdge>>,
    incidence: Seq<Vec<usize>>,
    a: usize,
    steps: Seq<Step>,
) -> (r: Step)
    requires
        indexed(w, incidence),
        branching(incidence),
        acyclic(w, incidence),
        working_route(w, incidence.len(), -1, a, steps),
        route_vertices(a, steps).no_duplicates(),
        steps.len() > 0,
    ensures
        !route_vertices(a, steps).contains(r.0),
        r.0 < incidence.len(),
        live(w, r.1 as int),
        joins(w, r.1 as int, route_end(a, steps), r.0),
{
    let n = incidence.len();
    let p = route_vertices(a, steps);
    let k = steps.len() as int;
    let cur = route_end(a, steps);
    let last = steps[k - 1].1;
    assert(p[k - 1] != cur && joins(w, last as int, p[k - 1], cur) && live(w, last as int));
    assert(cur < n);
    let e = lemma_other_edge(w, incidence, cur, last);
    assert(no_cycle_at(w, n, cur));
    let we = w[e as int]->0;
    assert(we.a != we.b);
    let far = if we.a == cur {
        we.b
    } else {
        we.a
    };
    assert(joins(w, e as int, cur, far));
    lemma_new_vertex(w, n, a, steps, e, far);
    (far, e)
}

/// Where every vertex with an edge has at least three, a path can be extended until
/// it meets itself.
proof fn lemma_no_endless_path(
    w: Seq<Option<WorkingEdge>>,
    incidence: Seq<Vec<usize>>,
    a: usize,
    steps: Seq<Step>,
)
    requires
        indexed(w, incidence),
        branching(incidence),
        working_route(w, incidence.len(), -1, a, steps),
        route_vertices(a, steps).no_duplicates(),
        steps.len() > 0,
    ensures
        !acyclic(w, incidence),
    decreases incidence.len() - steps.len(),
{
    if acyclic(w, incidence) {
        let next = lemma_next_step(w, incidence, a, steps);
        lemma_route_short(w, incidence.len(), a, steps);
        lemma_longer_route(w, incidence.len(), a, steps, next.0, next.1);
        lemma_no_endless_path(w, incidence, a, steps.push((next.0, next.1)));
    }
}

/// Working edges remain, and every vertex with an edge has at least three: some
/// vertex is on a cycle.
proof fn lemma_cycle_exists(w: Seq<Option<WorkingEdge>>, incidence: Seq<Vec<usize>>)
    requires
        indexed(w, incidence),
        branching(incidence),
        live_count(w) > 0,
    ensures
        !acyclic(w, incidence),
{
    if acyclic(w, incidence) {
        let id = lemma_live_exists(w);
        let e = w[id]->0;
        lemma_listed(w, incidence, e.a, id as usize);
        assert(incidence[e.a as int]@.contains(id as usize));
        assert(incidence[e.a as int]@.len() >= 3);
        assert(no_cycle_at(w, incidence.len(), e.a));
        assert(e.a != e.b);
        let steps = seq![(e.b, id as usize)];
        let p = route_vertices(e.a, steps);
        assert(p =~= seq![e.a, e.b]);
        assert(joins(w, id, e.a, e.b));
        lemma_no_endless_path(w, incidence, e.a, steps);
    }
}

// ---------------------------------------------------------------------------
// What the emitted cycles are
// ---------------------------------------------------------------------------
/// The sum of `f` over the numbers below `n`.
pub open spec fn sum_below(n: int, f: spec_fn(int) -> nat) -> nat
    decreases n,
{
    if n <= 0 {
        0
    } else {
        sum_below(n - 1, f) + f(n - 1)
    }
}

pub(crate) proof fn lemma_sum_same(n: int, f: spec_fn(int) -> nat, g: spec_fn(int) -> nat)
    requires
        forall|i: int| 0 <= i < n ==> #[trigger] f(i) == g(i),
    ensures
        sum_below(n, f) == sum_below(n, g),
    decreases n,
{
    if n > 0 {
        lemma_sum_same(n - 1, f, g);
        assert(f(n - 1) == g(n - 1));
    }
}

/// A sum to which only two numbers contribute.
pub(crate) proof fn lemma_sum_two(n: int, f: spec_fn(int) -> nat, a: int, b: int)
    requires
        0 <= a < n,
        0 <= b < n,
        forall|i: int| 0 <= i < n && i != a && i != b ==> #[trigger] f(i) == 0,
    ensures
        sum_below(n, f) == f(a) + if a == b {
            0
        } else {
            f(b)
        },
    decreases n,
{
    if a == n - 1 && b == n - 1 {
        lemma_sum_same(n - 1, f, |i: int| 0nat);
        lemma_sum_zero(n - 1);
    } else if a == n - 1 {
        let g = |i: int|
            if i == n - 1 {
                0nat
            } else {
                f(i)
            };
        lemma_sum_same(n - 1, f, g);
        lemma_sum_two(n - 1, g, b, b);
    } else if b == n - 1 {
        let g = |i: int|
            if i == n - 1 {
                0nat
            } else {
                f(i)
            };
        lemma_sum_same(n - 1, f, g);
        lemma_sum_two(n - 1, g, a, a);
    } else {
        lemma_sum_two(n - 1, f, a, b);
        assert(f(n - 1) == 0);
    }
}

proof fn lemma_sum_zero(n: int)
    ensures
        sum_below(n, |i: int| 0nat) == 0,
    decreases n,
{
    if n > 0 {
        lemma_sum_zero(n - 1);
    }
}

pub(crate) proof fn lemma_sum_add(n: int, f: spec_fn(int) -> nat, g: spec_fn(int) -> nat, h: spec_fn(int) -> nat)
    requires
        forall|i: int| 0 <= i < n ==> #[trigger] f(i) == g(i) + h(i),
    ensures
        sum_below(n, f) == sum_below(n, g) + sum_below(n, h),
    decreases n,
{
    if n > 0 {
        lemma_sum_add(n - 1, f, g, h);
        assert(f(n - 1) == g(n - 1) + h(n - 1));
    }
}

/// How many ends the chosen edges have at `x`.
pub open spec fn chosen_ends(edges: Seq<Edge>, chosen: Seq<bool>, x: usize) -> nat {
    sum_below(
        edges.len() as int,
        |i: int|
            if chosen[i] {
                edge_ends(edges[i], x)
            } else {
                0
            },
    )
}

/// The chosen edges form a closed chain: every vertex has an even number of their
/// ends.
pub open spec fn closed_choice(edges: Seq<Edge>, chosen: Seq<bool>) -> bool {
    chosen.len() == edges.len() && forall|x: usize| #[trigger] chosen_ends(edges, chosen, x) % 2 == 0
}

/// Each cycle has an edge of its own, which no later cycle has.
pub open spec fn own_edges(basis: Seq<Seq<Edge>>, own: Seq<Edge>) -> bool {
    &&& own.len() == basis.len()
    &&& forall|i: int| 0 <= i < basis.len() ==> basis[i].contains(#[trigger] own[i])
    &&& forall|i: int, j: int|
        #![trigger own[i], basis[j]]
        0 <= i < j < basis.len() ==> !basis[j].contains(own[i])
}

/// Every closed chain that is not empty has one of these edges: without them the
/// graph is a forest.
pub open spec fn cuts_cycles(edges: Seq<Edge>, own: Seq<Edge>) -> bool {
    forall|chosen: Seq<bool>, i: int|
        #![trigger closed_choice(edges, chosen), chosen[i]]
        closed_choice(edges, chosen) && 0 <= i < edges.len() && chosen[i] ==> exists|k: int|
            0 <= k < edges.len() && chosen[k] && own.contains(#[trigger] edges[k])
}

/// A weakly fundamental cycle basis: each cycle has an edge that no later one has,
/// and without these edges there is no cycle.
pub open spec fn is_cycle_basis(edges: Seq<Edge>, basis: Seq<Seq<Edge>>) -> bool {
    exists|own: Seq<Edge>| #[trigger] own_edges(basis, own) && cuts_cycles(edges, own)
}

spec fn avoids(edges: Seq<Edge>, chosen: Seq<bool>, own: Seq<Edge>) -> bool {
    forall|k: int| 0 <= k < edges.len() && chosen[k] ==> !own.contains(#[trigger] edges[k])
}

spec fn nontrivial(edges: Seq<Edge>, chosen: Seq<bool>, own: Seq<Edge>) -> bool {
    &&& closed_choice(edges, chosen)
    &&& avoids(edges, chosen, own)
    &&& exists|i: int| 0 <= i < edges.len() && #[trigger] chosen[i]
}

spec fn is_chosen(edges: Seq<Edge>, chosen: Seq<bool>, e: Edge) -> bool {
    exists|k: int| 0 <= k < edges.len() && chosen[k] && #[trigger] edges[k] == e
}

spec fn working_part(w: Seq<Option<WorkingEdge>>, picked: Seq<bool>, x: usize) -> spec_fn(int) -> nat {
    |id: int|
        if live(w, id) && picked[id] {
            ends_of(w, id, x)
        } else {
            0
        }
}

/// A closed chain of working edges whose trails were all chosen.
spec fn working_choice(
    w: Seq<Option<WorkingEdge>>,
    edges: Seq<Edge>,
    chosen: Seq<bool>,
    picked: Seq<bool>,
) -> bool {
    &&& picked.len() == w.len()
    &&& forall|x: usize|
        sum_below(w.len() as int, #[trigger] working_part(w, picked, x)) % 2 == 0
    &&& forall|id: int, e: Edge|
        #![trigger trail_of(w, id).contains(e)]
        live(w, id) && picked[id] && trail_of(w, id).contains(e) ==> is_chosen(edges, chosen, e)
    &&& exists|id: int| live(w, id) && #[trigger] picked[id]
}

/// Every closed chain that avoids the own edges is still there in the working graph.
spec fn reflected(w: Seq<Option<WorkingEdge>>, edges: Seq<Edge>, own: Seq<Edge>) -> bool {
    forall|chosen: Seq<bool>| #[trigger]
        nontrivial(edges, chosen, own) ==> exists|picked: Seq<bool>|
            working_choice(w, edges, chosen, picked)
}

/// Dropping a working edge that a closed chain does not use.
proof fn lemma_choice_dropped(
    w: Seq<Option<WorkingEdge>>,
    edges: Seq<Edge>,
    chosen: Seq<bool>,
    picked: Seq<bool>,
    id: int,
)
    requires
        working_choice(w, edges, chosen, picked),
        live(w, id),
        !picked[id],
    ensures
        working_choice(w.update(id, None), edges, chosen, picked),
{
    let after = w.update(id, None);
    assert forall|x: usize|
        sum_below(after.len() as int, #[trigger] working_part(after, picked, x)) % 2 == 0 by {
        lemma_sum_same(
            w.len() as int,
            working_part(after, picked, x),
            working_part(w, picked, x),
        );
        assert(sum_below(w.len() as int, working_part(w, picked, x)) % 2 == 0);
    }
    assert forall|k: int, e: Edge|
        #![trigger trail_of(after, k).contains(e)]
        live(after, k) && picked[k] && trail_of(after, k).contains(e) implies is_chosen(
        edges,
        chosen,
        e,
    ) by {
        assert(trail_of(w, k).contains(e));
        assert(live(w, k));
    }
    let k = choose|k: int| live(w, k) && #[trigger] picked[k];
    assert(live(after, k) && picked[k]);
}

/// A working edge at a vertex of degree one is on no closed chain.
proof fn lemma_reflected_peeled(
    w: Seq<Option<WorkingEdge>>,
    incidence: Seq<Vec<usize>>,
    edges: Seq<Edge>,
    own: Seq<Edge>,
    v: usize,
)
    requires
        indexed(w, incidence),
        v < incidence.len(),
        incidence[v as int]@.len() == 1,
        reflected(w, edges, own),
    ensures
        reflected(w.update(incidence[v as int]@[0] as int, None), edges, own),
{
    let id = incidence[v as int]@[0] as int;
    lemma_at(w, incidence, v);
    assert forall|chosen: Seq<bool>| #[trigger] nontrivial(edges, chosen, own) implies exists|
        picked: Seq<bool>,
    | working_choice(w.update(id, None), edges, chosen, picked) by {
        let picked = choose|picked: Seq<bool>| working_choice(w, edges, chosen, picked);
        let part = working_part(w, picked, v);
        assert(sum_below(w.len() as int, part) % 2 == 0);
        lemma_sum_two(w.len() as int, part, id, id);
        assert(part(id) == if picked[id] {
            1nat
        } else {
            0
        });
        lemma_choice_dropped(w, edges, chosen, picked, id);
    }
}

/// The edges at a vertex of degree one or two.
proof fn lemma_at(w: Seq<Option<WorkingEdge>>, incidence: Seq<Vec<usize>>, v: usize)
    requires
        indexed(w, incidence),
        v < incidence.len(),
        1 <= incidence[v as int]@.len() <= 2,
    ensures
        ({
            let at = incidence[v as int]@;
            &&& forall|i: int| 0 <= i < at.len() ==> live(w, #[trigger] at[i] as int)
            &&& forall|id: int|
                live(w, id) && id != at[0] && id != at.last() ==> #[trigger] ends_of(w, id, v) == 0
            &&& at[0] == at.last() ==> ends_of(w, at[0] as int, v) == at.len()
            &&& at[0] != at.last() ==> ends_of(w, at[0] as int, v) == 1 && ends_of(
                w,
                at.last() as int,
                v,
            ) == 1
        }),
{
    let at = incidence[v as int]@;
    at.to_multiset_ensures();
    assert forall|i: int| 0 <= i < at.len() implies live(w, #[trigger] at[i] as int) by {
        lemma_listed(w, incidence, v, at[i]);
        assert(at.contains(at[i]));
    }
    assert forall|id: int| live(w, id) && id != at[0] && id != at.last() implies #[trigger] ends_of(
        w,
        id,
        v,
    ) == 0 by {
        lemma_listed(w, incidence, v, id as usize);
        if at.contains(id as usize) {
            assert(at[at.index_of(id as usize)] == id as usize);
        }
    }
    lemma_count_small(at);
    assert(occurrences(at, at[0]) == ends_of(w, at[0] as int, v));
    assert(occurrences(at, at.last()) == ends_of(w, at.last() as int, v));
}

proof fn lemma_count_small(at: Seq<usize>)
    requires
        1 <= at.len() <= 2,
    ensures
        at[0] == at.last() ==> occurrences(at, at[0]) == at.len(),
        at[0] != at.last() ==> occurrences(at, at[0]) == 1 && occurrences(at, at.last()) == 1,
{
    let none = Seq::<usize>::empty();
    none.to_multiset_ensures();
    vstd::seq_lib::to_multiset_len(none);
    vstd::seq_lib::to_multiset_build(none, at[0]);
    if at.len() == 1 {
        assert(at =~= none.push(at[0]));
    } else {
        vstd::seq_lib::to_multiset_build(none.push(at[0]), at[1]);
        assert(at =~= none.push(at[0]).push(at[1]));
    }
}

/// Dropping an edge of a cycle that becomes the cycle's own.
proof fn lemma_reflected_cut(
    w: Seq<Option<WorkingEdge>>,
    edges: Seq<Edge>,
    own: Seq<Edge>,
    id: int,
    e: Edge,
)
    requires
        reflected(w, edges, own),
        live(w, id),
        trail_of(w, id).contains(e),
    ensures
        reflected(w.update(id, None), edges, own.push(e)),
{
    let more = own.push(e);
    assert forall|chosen: Seq<bool>| #[trigger] nontrivial(edges, chosen, more) implies exists|
        picked: Seq<bool>,
    | working_choice(w.update(id, None), edges, chosen, picked) by {
        assert(avoids(edges, chosen, own)) by {
            assert forall|k: int| 0 <= k < edges.len() && chosen[k] implies !own.contains(
                #[trigger] edges[k],
            ) by {
                if own.contains(edges[k]) {
                    assert(more[own.index_of(edges[k])] == edges[k]);
                }
            }
        }
        assert(nontrivial(edges, chosen, own));
        let picked = choose|picked: Seq<bool>| working_choice(w, edges, chosen, picked);
        if picked[id] {
            assert(is_chosen(edges, chosen, e));
            let k = choose|k: int| 0 <= k < edges.len() && chosen[k] && #[trigger] edges[k] == e;
            assert(more[own.len() as int] == e);
            assert(more.contains(edges[k]));
        }
        lemma_choice_dropped(w, edges, chosen, picked, id);
    }
}

/// The working graph after the two edges at `v` were merged.
pub open spec fn merged(
    w: Seq<Option<WorkingEdge>>,
    v: usize,
    e1: int,
    e2: int,
    new: WorkingEdge,
) -> bool {
    &&& live(w, e1)
    &&& live(w, e2)
    &&& e1 != e2
    &&& ends_of(w, e1, v) == 1
    &&& ends_of(w, e2, v) == 1
    &&& forall|id: int| live(w, id) && id != e1 && id != e2 ==> #[trigger] ends_of(w, id, v) == 0
    &&& new.a == far(w, e1, v)
    &&& new.b == far(w, e2, v)
    &&& new.trail@ == trail_of(w, e1) + trail_of(w, e2)
}

/// The end of working edge `id` away from `v`.
pub open spec fn far(w: Seq<Option<WorkingEdge>>, id: int, v: usize) -> usize {
    if w[id]->0.a == v {
        w[id]->0.b
    } else {
        w[id]->0.a
    }
}

/// The working graph with `new` in place of the two edges.
pub open spec fn after_merge(
    w: Seq<Option<WorkingEdge>>,
    e1: int,
    e2: int,
    new: WorkingEdge,
) -> Seq<Option<WorkingEdge>> {
    w.update(e1, None).update(e2, None).push(Some(new))
}

/// Merging the two edges at a vertex keeps every closed chain.
proof fn lemma_reflected_merged(
    w: Seq<Option<WorkingEdge>>,
    edges: Seq<Edge>,
    own: Seq<Edge>,
    v: usize,
    e1: int,
    e2: int,
    new: WorkingEdge,
)
    requires
        reflected(w, edges, own),
        merged(w, v, e1, e2, new),
    ensures
        reflected(after_merge(w, e1, e2, new), edges, own),
{
    let after = after_merge(w, e1, e2, new);
    assert forall|chosen: Seq<bool>| #[trigger] nontrivial(edges, chosen, own) implies exists|
        picked: Seq<bool>,
    | working_choice(after, edges, chosen, picked) by {
        let picked = choose|picked: Seq<bool>| working_choice(w, edges, chosen, picked);
        lemma_choice_merged(w, edges, chosen, picked, v, e1, e2, new);
        assert(working_choice(after, edges, chosen, picked.push(picked[e1])));
    }
}

proof fn lemma_choice_merged(
    w: Seq<Option<WorkingEdge>>,
    edges: Seq<Edge>,
    chosen: Seq<bool>,
    picked: Seq<bool>,
    v: usize,
    e1: int,
    e2: int,
    new: WorkingEdge,
)
    requires
        merged(w, v, e1, e2, new),
        working_choice(w, edges, chosen, picked),
    ensures
        working_choice(after_merge(w, e1, e2, new), edges, chosen, picked.push(picked[e1])),
{
    let after = after_merge(w, e1, e2, new);
    let n = w.len() as int;
    let next = picked.push(picked[e1]);
    let at_v = working_part(w, picked, v);
    assert(sum_below(n, at_v) % 2 == 0);
    lemma_sum_two(n, at_v, e1, e2);
    assert(picked[e1] == picked[e2]);
    assert forall|x: usize|
        sum_below(after.len() as int, #[trigger] working_part(after, next, x)) % 2 == 0 by {
        let before = working_part(w, picked, x);
        let now = working_part(after, next, x);
        let pair = |id: int|
            if id == e1 || id == e2 {
                before(id)
            } else {
                0nat
            };
        assert forall|i: int| 0 <= i < n implies #[trigger] before(i) == now(i) + pair(i) by {
            if i != e1 && i != e2 {
                assert(after[i] == w[i]);
            }
        }
        lemma_sum_add(n, before, now, pair);
        lemma_sum_two(n, pair, e1, e2);
        assert(sum_below(n, before) % 2 == 0);
        assert(after.len() == n + 1);
        assert(sum_below(n + 1, now) == sum_below(n, now) + now(n));
        assert(after[n] == Some(new));
        if picked[e1] {
            assert(now(n) == edge_ends((new.a, new.b), x));
            assert(pair(e1) + pair(e2) == ends_of(w, e1, x) + ends_of(w, e2, x));
            assert(pair(e1) + pair(e2) == now(n) || pair(e1) + pair(e2) == now(n) + 2);
        }
    }
    assert forall|id: int, e: Edge|
        #![trigger trail_of(after, id).contains(e)]
        live(after, id) && next[id] && trail_of(after, id).contains(e) implies is_chosen(
        edges,
        chosen,
        e,
    ) by {
        if id < n {
            assert(after[id] == w[id]);
            assert(trail_of(w, id).contains(e));
        } else {
            let k = new.trail@.index_of(e);
            let first = trail_of(w, e1);
            if k < first.len() {
                assert(first[k] == e);
                assert(trail_of(w, e1).contains(e));
            } else {
                assert(trail_of(w, e2)[k - first.len()] == e);
                assert(trail_of(w, e2).contains(e));
            }
        }
    }
    let k = choose|k: int| live(w, k) && #[trigger] picked[k];
    if k == e1 || k == e2 {
        assert(live(after, n) && next[n]);
    } else {
        assert(live(after, k) && next[k]);
    }
}

/// At the start every graph edge is a working edge.
proof fn lemma_reflected_start(w: Seq<Option<WorkingEdge>>, edges: Seq<Edge>)
    requires
        w.len() == edges.len(),
        forall|i: int|
            0 <= i < edges.len() ==> live(w, i) && (#[trigger] w[i])->0.a == edges[i].0 && w[i]->0.b
                == edges[i].1 && w[i]->0.trail@ == seq![edges[i]],
    ensures
        reflected(w, edges, Seq::empty()),
{
    assert forall|chosen: Seq<bool>| #[trigger]
        nontrivial(edges, chosen, Seq::empty()) implies exists|picked: Seq<bool>|
        working_choice(w, edges, chosen, picked) by {
        assert forall|x: usize|
            sum_below(w.len() as int, #[trigger] working_part(w, chosen, x)) % 2 == 0 by {
            let given = |i: int|
                if chosen[i] {
                    edge_ends(edges[i], x)
                } else {
                    0
                };
            assert(chosen_ends(edges, chosen, x) % 2 == 0);
            assert forall|i: int| 0 <= i < w.len() implies #[trigger] working_part(w, chosen, x)(i)
                == given(i) by {
                assert(w[i]->0.a == edges[i].0);
            }
            lemma_sum_same(w.len() as int, working_part(w, chosen, x), given);
        }
        assert forall|id: int, e: Edge|
            #![trigger trail_of(w, id).contains(e)]
            live(w, id) && chosen[id] && trail_of(w, id).contains(e) implies is_chosen(
            edges,
            chosen,
            e,
        ) by {
            assert(w[id]->0.trail@ == seq![edges[id]]);
            let k = trail_of(w, id).index_of(e);
            assert(edges[id] == e);
        }
        let i = choose|i: int| 0 <= i < edges.len() && #[trigger] chosen[i];
        assert(live(w, i)) by {
            assert(w[i]->0.a == edges[i].0);
        }
        assert(working_choice(w, edges, chosen, chosen));
    }
}

// ---------------------------------------------------------------------------
// The recursion
// ---------------------------------------------------------------------------
/// Every cycle is closed and made of the given edges.
pub open spec fn cycles_of(edges: Seq<Edge>, basis: Seq<Seq<Edge>>) -> bool {
    &&& forall|i: int| 0 <= i < basis.len() ==> two_regular(#[trigger] basis[i])
    &&& forall|i: int, e: Edge|
        #![trigger basis[i].contains(e)]
        0 <= i < basis.len() && basis[i].contains(e) ==> edges.contains(e)
}

/// The own edges of the cycles are on no trail any more.
spec fn own_gone(w: Seq<Option<WorkingEdge>>, own: Seq<Edge>) -> bool {
    forall|id: int, i: int|
        #![trigger trail_of(w, id), own[i]]
        live(w, id) && 0 <= i < own.len() ==> !trail_of(w, id).contains(own[i])
}

/// The state of the recursion.
spec fn state_ok(
    w: Seq<Option<WorkingEdge>>,
    edges: Seq<Edge>,
    gone: Set<usize>,
    basis: Seq<Seq<Edge>>,
    own: Seq<Edge>,
) -> bool {
    &&& trails_ok(w, edges, gone)
    &&& cycles_of(edges, basis)
    &&& reflected(w, edges, own)
    &&& edges.no_duplicates() ==> trails_apart(w) && own_edges(basis, own) && own_gone(w, own)
}

proof fn lemma_trails_dropped(
    w: Seq<Option<WorkingEdge>>,
    edges: Seq<Edge>,
    gone: Set<usize>,
    own: Seq<Edge>,
    id: int,
)
    requires
        trails_ok(w, edges, gone),
        live(w, id),
    ensures
        trails_ok(w.update(id, None), edges, gone),
        trails_apart(w) ==> trails_apart(w.update(id, None)),
        own_gone(w, own) ==> own_gone(w.update(id, None), own),
{
    let after = w.update(id, None);
    assert forall|k: int| #[trigger] live(after, k) implies live(w, k) && after[k] == w[k]
        && trail_of(after, k) == trail_of(w, k) by {}
}

/// The trails of working edges, one behind the other.
pub open spec fn trails_along(w: Seq<Option<WorkingEdge>>, ids: Seq<usize>) -> Seq<Edge>
    decreases ids.len(),
{
    if ids.len() == 0 {
        Seq::empty()
    } else {
        trails_along(w, ids.drop_last()) + trail_of(w, ids.last() as int)
    }
}

proof fn lemma_along(
    w: Seq<Option<WorkingEdge>>,
    edges: Seq<Edge>,
    gone: Set<usize>,
    ids: Seq<usize>,
    x: usize,
)
    requires
        trails_ok(w, edges, gone),
        ids.no_duplicates(),
        forall|i: int| 0 <= i < ids.len() ==> live(w, #[trigger] ids[i] as int),
    ensures
        !gone.contains(x) ==> ends_at(trails_along(w, ids), x) == ids_ends(w, ids, x),
        gone.contains(x) ==> ends_at(trails_along(w, ids), x) == 0 || ends_at(
            trails_along(w, ids),
            x,
        ) == 2,
        gone.contains(x) && ends_at(trails_along(w, ids), x) != 0 ==> exists|i: int|
            0 <= i < ids.len() && ends_at(trail_of(w, #[trigger] ids[i] as int), x) != 0,
    decreases ids.len(),
{
    if ids.len() > 0 {
        let front = ids.drop_last();
        let last = ids.last();
        assert(ids[ids.len() - 1] == last);
        assert forall|i: int| 0 <= i < front.len() implies live(w, #[trigger] front[i] as int) by {
            assert(front[i] == ids[i]);
        }
        lemma_along(w, edges, gone, front, x);
        lemma_ends_add(trails_along(w, front), trail_of(w, last as int), x);
        let e = ends_at(trail_of(w, last as int), x);
        if gone.contains(x) && ends_at(trails_along(w, front), x) != 0 {
            let i = choose|i: int|
                0 <= i < front.len() && ends_at(trail_of(w, #[trigger] front[i] as int), x) != 0;
            assert(front[i] == ids[i]);
            assert(ids[i] != last);
            assert(e == 0);
        }
    }
}

proof fn lemma_along_contains(w: Seq<Option<WorkingEdge>>, ids: Seq<usize>, e: Edge)
    ensures
        trails_along(w, ids).contains(e) <==> exists|i: int|
            0 <= i < ids.len() && trail_of(w, #[trigger] ids[i] as int).contains(e),
    decreases ids.len(),
{
    if ids.len() > 0 {
        let front = ids.drop_last();
        let t = trail_of(w, ids.last() as int);
        let all = trails_along(w, ids);
        lemma_along_contains(w, front, e);
        if all.contains(e) {
            let k = all.index_of(e);
            if k < trails_along(w, front).len() {
                assert(trails_along(w, front)[k] == e);
                let i = choose|i: int|
                    0 <= i < front.len() && trail_of(w, #[trigger] front[i] as int).contains(e);
                assert(front[i] == ids[i]);
            } else {
                assert(t[k - trails_along(w, front).len()] == e);
                assert(trail_of(w, ids[ids.len() - 1] as int).contains(e));
            }
        }
        if exists|i: int| 0 <= i < ids.len() && trail_of(w, #[trigger] ids[i] as int).contains(e) {
            let i = choose|i: int|
                0 <= i < ids.len() && trail_of(w, #[trigger] ids[i] as int).contains(e);
            if i < front.len() {
                assert(front[i] == ids[i]);
                let k = trails_along(w, front).index_of(e);
                assert(all[k] == e);
            } else {
                let k = t.index_of(e);
                assert(all[trails_along(w, front).len() + k] == e);
            }
        }
    }
}

proof fn lemma_cycle_emitted(
    w: Seq<Option<WorkingEdge>>,
    edges: Seq<Edge>,
    gone: Set<usize>,
    basis: Seq<Seq<Edge>>,
    own: Seq<Edge>,
    ids: Seq<usize>,
    k: int,
)
    requires
        state_ok(w, edges, gone, basis, own),
        working_cycle(w, ids),
        0 <= k < ids.len(),
    ensures
        state_ok(
            w.update(ids[k] as int, None),
            edges,
            gone,
            basis.push(trails_along(w, ids)),
            own.push(trail_of(w, ids[k] as int)[0]),
        ),
{
    let id = ids[k] as int;
    let after = w.update(id, None);
    let cycle = trails_along(w, ids);
    let e = trail_of(w, id)[0];
    let basis1 = basis.push(cycle);
    let own1 = own.push(e);
    assert(live(w, id));
    assert(trail_of(w, id).contains(e));
    lemma_trails_dropped(w, edges, gone, own, id);
    lemma_reflected_cut(w, edges, own, id, e);
    assert(two_regular(cycle)) by {
        lemma_along_contains(w, ids, e);
        assert(cycle.contains(e));
        assert forall|x: usize| #[trigger] ends_at(cycle, x) == 0 || ends_at(cycle, x) == 2 by {
            lemma_along(w, edges, gone, ids, x);
            assert(ids_ends(w, ids, x) == 0 || ids_ends(w, ids, x) == 2);
        }
    }
    assert forall|f: Edge| #[trigger] cycle.contains(f) implies edges.contains(f) && exists|i: int|
        0 <= i < ids.len() && trail_of(w, #[trigger] ids[i] as int).contains(f) by {
        lemma_along_contains(w, ids, f);
        let i = choose|i: int|
            0 <= i < ids.len() && trail_of(w, #[trigger] ids[i] as int).contains(f);
        assert(live(w, ids[i] as int));
    }
    assert forall|i: int, f: Edge|
        #![trigger basis1[i].contains(f)]
        0 <= i < basis1.len() && basis1[i].contains(f) implies edges.contains(f) by {
        if i < basis.len() {
            assert(basis[i].contains(f));
        }
    }
    assert forall|i: int| 0 <= i < basis1.len() implies two_regular(#[trigger] basis1[i]) by {
        if i < basis.len() {
            assert(basis1[i] == basis[i]);
        }
    }
    if edges.no_duplicates() {
        assert(own_edges(basis1, own1)) by {
            lemma_along_contains(w, ids, e);
            assert(cycle.contains(e));
            assert forall|i: int| 0 <= i < basis1.len() implies basis1[i].contains(
                #[trigger] own1[i],
            ) by {
                if i < basis.len() {
                    assert(own1[i] == own[i]);
                    assert(basis1[i] == basis[i]);
                }
            }
            assert forall|i: int, j: int|
                #![trigger own1[i], basis1[j]]
                0 <= i < j < basis1.len() implies !basis1[j].contains(own1[i]) by {
                assert(own1[i] == own[i]);
                if j < basis.len() {
                    assert(basis1[j] == basis[j]);
                } else if cycle.contains(own[i]) {
                    let q = choose|q: int|
                        0 <= q < ids.len() && trail_of(w, #[trigger] ids[q] as int).contains(own[i]);
                    assert(live(w, ids[q] as int));
                }
            }
        }
        assert(own_gone(after, own1)) by {
            assert forall|q: int, i: int|
                #![trigger trail_of(after, q), own1[i]]
                live(after, q) && 0 <= i < own1.len() implies !trail_of(after, q).contains(
                own1[i],
            ) by {
                assert(live(w, q));
                assert(trail_of(after, q) == trail_of(w, q));
                if i < own.len() {
                    assert(own1[i] == own[i]);
                } else if trail_of(w, q).contains(e) {
                    assert(q != id);
                }
            }
        }
    }
}

proof fn lemma_edges_merged(
    w: Seq<Option<WorkingEdge>>,
    edges: Seq<Edge>,
    gone: Set<usize>,
    basis: Seq<Seq<Edge>>,
    own: Seq<Edge>,
    v: usize,
    e1: int,
    e2: int,
    new: WorkingEdge,
)
    requires
        state_ok(w, edges, gone, basis, own),
        merged(w, v, e1, e2, new),
    ensures
        state_ok(after_merge(w, e1, e2, new), edges, gone.insert(v), basis, own),
{
    let after = after_merge(w, e1, e2, new);
    let gone1 = gone.insert(v);
    let n = w.len() as int;
    lemma_reflected_merged(w, edges, own, v, e1, e2, new);
    let t1 = trail_of(w, e1);
    let t2 = trail_of(w, e2);
    assert(after[n] == Some(new));
    assert(trail_of(after, n) == t1 + t2);
    assert forall|f: Edge| #[trigger] (t1 + t2).contains(f) implies t1.contains(f) || t2.contains(
        f,
    ) by {
        let k = (t1 + t2).index_of(f);
        if k < t1.len() {
            assert(t1[k] == f);
        } else {
            assert(t2[k - t1.len()] == f);
        }
    }
    assert forall|id: int| #[trigger] live(after, id) && id < n implies live(w, id) && id != e1
        && id != e2 && after[id] == w[id] && trail_of(after, id) == trail_of(w, id) by {}
    assert forall|x: usize| #[trigger]
        ends_at(t1 + t2, x) == ends_at(t1, x) + ends_at(t2, x) by {
        lemma_ends_add(t1, t2, x);
    }
    assert(trails_ok(after, edges, gone1)) by {
        assert forall|id: int| #[trigger] live(after, id) implies !gone1.contains(after[id]->0.a)
            && !gone1.contains(after[id]->0.b) && trail_of(after, id).len() > 0 by {
            if id < n {
                assert(live(w, id));
                assert(ends_of(w, id, v) == 0);
            } else {
                assert(ends_of(w, e1, v) == 1 && ends_of(w, e2, v) == 1);
                assert(trail_of(w, e1).len() > 0);
            }
        }
        assert forall|id: int, x: usize|
            #![trigger ends_at(trail_of(after, id), x)]
            live(after, id) && !gone1.contains(x) implies ends_at(trail_of(after, id), x)
            == ends_of(after, id, x) by {
            if id < n {
                assert(ends_at(trail_of(w, id), x) == ends_of(w, id, x));
            } else {
                assert(ends_at(t1, x) == ends_of(w, e1, x));
                assert(ends_at(t2, x) == ends_of(w, e2, x));
            }
        }
        assert forall|id: int, x: usize|
            #![trigger ends_at(trail_of(after, id), x)]
            live(after, id) && gone1.contains(x) implies ends_at(trail_of(after, id), x) == 0
            || ends_at(trail_of(after, id), x) == 2 by {
            lemma_merged_ends(w, edges, gone, v, e1, e2, new, id, x);
        }
        assert forall|i: int, j: int, x: usize|
            #![trigger ends_at(trail_of(after, i), x), ends_at(trail_of(after, j), x)]
            live(after, i) && live(after, j) && i != j && gone1.contains(x) implies ends_at(
            trail_of(after, i),
            x,
        ) == 0 || ends_at(trail_of(after, j), x) == 0 by {
            if x == v && !gone.contains(v) {
                let k = if i < n {
                    i
                } else {
                    j
                };
                assert(ends_at(trail_of(w, k), v) == ends_of(w, k, v));
            } else {
                assert(ends_at(t1, x) == 0 || ends_at(t2, x) == 0);
                if i < n {
                    assert(ends_at(trail_of(w, i), x) == 0 || ends_at(t1, x) == 0);
                    assert(ends_at(trail_of(w, i), x) == 0 || ends_at(t2, x) == 0);
                }
                if j < n {
                    assert(ends_at(trail_of(w, j), x) == 0 || ends_at(t1, x) == 0);
                    assert(ends_at(trail_of(w, j), x) == 0 || ends_at(t2, x) == 0);
                }
            }
        }
        assert forall|id: int, f: Edge|
            #![trigger trail_of(after, id).contains(f)]
            live(after, id) && trail_of(after, id).contains(f) implies edges.contains(f) by {
            if id < n {
                assert(trail_of(w, id).contains(f));
            } else {
                assert(trail_of(w, e1).contains(f) || trail_of(w, e2).contains(f));
            }
        }
    }
    if edges.no_duplicates() {
        assert forall|i: int, j: int, f: Edge|
            #![trigger trail_of(after, i).contains(f), trail_of(after, j).contains(f)]
            live(after, i) && live(after, j) && i != j implies !(trail_of(after, i).contains(f)
            && trail_of(after, j).contains(f)) by {
            if i == n || j == n {
                let k = if i < n {
                    i
                } else {
                    j
                };
                if trail_of(after, k).contains(f) && (t1 + t2).contains(f) {
                    assert(trail_of(w, k).contains(f));
                    assert(trail_of(w, e1).contains(f) || trail_of(w, e2).contains(f));
                }
            } else {
                if trail_of(after, i).contains(f) && trail_of(after, j).contains(f) {
                    assert(trail_of(w, i).contains(f) && trail_of(w, j).contains(f));
                }
            }
        }
        assert forall|id: int, i: int|
            #![trigger trail_of(after, id), own[i]]
            live(after, id) && 0 <= i < own.len() implies !trail_of(after, id).contains(own[i]) by {
            if id == n {
                assert(!trail_of(w, e1).contains(own[i]) && !trail_of(w, e2).contains(own[i]));
            } else {
                assert(!trail_of(w, id).contains(own[i]));
            }
        }
    }
}

proof fn lemma_merged_ends(
    w: Seq<Option<WorkingEdge>>,
    edges: Seq<Edge>,
    gone: Set<usize>,
    v: usize,
    e1: int,
    e2: int,
    new: WorkingEdge,
    id: int,
    x: usize,
)
    requires
        trails_ok(w, edges, gone),
        merged(w, v, e1, e2, new),
        live(after_merge(w, e1, e2, new), id),
        gone.insert(v).contains(x),
    ensures
        ends_at(trail_of(after_merge(w, e1, e2, new), id), x) == 0 || ends_at(
            trail_of(after_merge(w, e1, e2, new), id),
            x,
        ) == 2,
{
    let after = after_merge(w, e1, e2, new);
    let t1 = trail_of(w, e1);
    let t2 = trail_of(w, e2);
    if id < w.len() {
        assert(live(w, id) && trail_of(after, id) == trail_of(w, id) && id != e1 && id != e2);
        let k = ends_at(trail_of(w, id), x);
        assert(ends_of(w, id, v) == 0);
    } else {
        assert(trail_of(after, id) == t1 + t2);
        lemma_ends_add(t1, t2, x);
        let a = ends_at(trail_of(w, e1), x);
        let b = ends_at(trail_of(w, e2), x);
    }
}

// ---------------------------------------------------------------------------
// Runs of the rules
// ---------------------------------------------------------------------------
/// How many ends the working edges have at `v`.
pub open spec fn working_degree(w: Seq<Option<WorkingEdge>>, v: usize) -> nat {
    sum_below(w.len() as int, |id: int| live_ends(w, id, v))
}

/// How many ends working edge `id` has at `v`, none once it is gone.
pub open spec fn live_ends(w: Seq<Option<WorkingEdge>>, id: int, v: usize) -> nat {
    if live(w, id) {
        ends_of(w, id, v)
    } else {
        0
    }
}

/// The recursion part of the way: the working graph, and the cycles emitted so far.
pub struct Unravelling {
    pub w: Seq<Option<WorkingEdge>>,
    pub cycles: Seq<Seq<Edge>>,
}

/// The first vertex of this degree.
pub open spec fn first_of_degree(
    w: Seq<Option<WorkingEdge>>,
    n: nat,
    degree: nat,
    v: usize,
) -> bool {
    &&& v < n
    &&& working_degree(w, v) == degree
    &&& forall|u: usize| u < v ==> #[trigger] working_degree(w, u) != degree
}

/// No vertex has this degree.
pub open spec fn none_of_degree(w: Seq<Option<WorkingEdge>>, n: nat, degree: nat) -> bool {
    forall|u: usize| u < n ==> #[trigger] working_degree(w, u) != degree
}

/// The edge of the first vertex of degree one is peeled off.
pub open spec fn peeled(n: nat, x: Unravelling, y: Unravelling) -> bool {
    exists|v: usize, id: int|
        first_of_degree(x.w, n, 1, v) && #[trigger] live(x.w, id) && #[trigger] ends_of(x.w, id, v)
            == 1 && y.w == x.w.update(id, None) && y.cycles == x.cycles
}

/// The first vertex of degree two carries a loop, which is emitted.
pub open spec fn loop_emitted(n: nat, x: Unravelling, y: Unravelling) -> bool {
    exists|v: usize, id: int|
        first_of_degree(x.w, n, 2, v) && #[trigger] live(x.w, id) && #[trigger] ends_of(x.w, id, v)
            == 2 && y.w == x.w.update(id, None) && y.cycles == x.cycles.push(trail_of(x.w, id))
}

/// The two edges of the first vertex of degree two are merged into one between their far
/// ends, along both trails.
pub open spec fn suppressed(n: nat, x: Unravelling, y: Unravelling) -> bool {
    exists|v: usize, e1: int, e2: int, new: WorkingEdge|
        #[trigger] first_of_degree(x.w, n, 2, v) && merged(x.w, v, e1, e2, new) && y.w == #[trigger] after_merge(
            x.w,
            e1,
            e2,
            new,
        ) && y.cycles == x.cycles
}

/// A shortest cycle through the first vertex that is on one is emitted, and one of its
/// edges dropped.
pub open spec fn cycle_emitted(n: nat, x: Unravelling, y: Unravelling) -> bool {
    exists|ids: Seq<usize>, k: int|
        first_cycle(x.w, n, ids) && 0 <= k < ids.len() && y.w == x.w.update(
            #[trigger] ids[k] as int,
            None,
        ) && y.cycles == x.cycles.push(trails_along(x.w, ids))
}

/// A shortest cycle through the first vertex of degree three or more that is on one.
pub open spec fn first_cycle(w: Seq<Option<WorkingEdge>>, n: nat, ids: Seq<usize>) -> bool {
    exists|v: usize|
        v < n && working_degree(w, v) >= 3 && #[trigger] shortest_cycle_at(w, n, v, ids) && (
        forall|u: usize|
            u < v && #[trigger] working_degree(w, u) >= 3 ==> no_cycle_at(w, n, u))
}

/// One rule is applied: the first of them that can be.
pub open spec fn unravelled(n: nat, x: Unravelling, y: Unravelling) -> bool {
    ||| peeled(n, x, y)
    ||| none_of_degree(x.w, n, 1) && (loop_emitted(n, x, y) || suppressed(n, x, y))
    ||| none_of_degree(x.w, n, 1) && none_of_degree(x.w, n, 2) && cycle_emitted(n, x, y)
}

/// The working graph of the edges, each its own trail.
pub open spec fn starts_with(edges: Seq<Edge>, x: Unravelling) -> bool {
    &&& x.cycles == Seq::<Seq<Edge>>::empty()
    &&& x.w.len() == edges.len()
    &&& forall|k: int|
        0 <= k < edges.len() ==> (#[trigger] x.w[k] matches Some(e) && e.a == edges[k].0 && e.b
            == edges[k].1 && e.trail@ == seq![edges[k]])
}

/// A run of the rules from the graph with these edges.
pub open spec fn unravels(n: nat, edges: Seq<Edge>, run: Seq<Unravelling>) -> bool {
    &&& run.len() > 0
    &&& starts_with(edges, run[0])
    &&& forall|t: int| 0 <= t < run.len() - 1 ==> unravelled(n, #[trigger] run[t], run[t + 1])
}

/// Some run of the rules uses up all edges and emits these cycles.
pub open spec fn decongested(n: nat, edges: Seq<Edge>, cycles: Seq<Seq<Edge>>) -> bool {
    exists|run: Seq<Unravelling>| #[trigger]
        unravels(n, edges, run) && run.last().cycles == cycles && forall|id: int|
            !#[trigger] live(run.last().w, id)
}

proof fn lemma_run_grows(n: nat, edges: Seq<Edge>, run: Seq<Unravelling>, y: Unravelling)
    requires
        unravels(n, edges, run),
        unravelled(n, run.last(), y),
    ensures
        unravels(n, edges, run.push(y)),
{
    let more = run.push(y);
    assert(more[0] == run[0]);
    assert forall|t: int| 0 <= t < more.len() - 1 implies unravelled(
        n,
        #[trigger] more[t],
        more[t + 1],
    ) by {
        assert(more[t] == run[t]);
        if t < run.len() - 1 {
            assert(more[t + 1] == run[t + 1]);
        }
    }
}

proof fn lemma_run_peeled(
    n: nat,
    edges: Seq<Edge>,
    run: Seq<Unravelling>,
    v: usize,
    id: int,
) -> (more: Seq<Unravelling>)
    requires
        unravels(n, edges, run),
        first_of_degree(run.last().w, n, 1, v),
        live(run.last().w, id),
        ends_of(run.last().w, id, v) == 1,
    ensures
        unravels(n, edges, more),
        more.last() == (Unravelling {
            w: run.last().w.update(id, None),
            cycles: run.last().cycles,
        }),
{
    let x = run.last();
    let y = Unravelling { w: x.w.update(id, None), cycles: x.cycles };
    assert(peeled(n, x, y));
    lemma_run_grows(n, edges, run, y);
    run.push(y)
}

proof fn lemma_run_looped(
    n: nat,
    edges: Seq<Edge>,
    run: Seq<Unravelling>,
    v: usize,
    id: int,
) -> (more: Seq<Unravelling>)
    requires
        unravels(n, edges, run),
        none_of_degree(run.last().w, n, 1),
        first_of_degree(run.last().w, n, 2, v),
        live(run.last().w, id),
        ends_of(run.last().w, id, v) == 2,
    ensures
        unravels(n, edges, more),
        more.last() == (Unravelling {
            w: run.last().w.update(id, None),
            cycles: run.last().cycles.push(trail_of(run.last().w, id)),
        }),
{
    let x = run.last();
    let y = Unravelling { w: x.w.update(id, None), cycles: x.cycles.push(trail_of(x.w, id)) };
    assert(loop_emitted(n, x, y));
    lemma_run_grows(n, edges, run, y);
    run.push(y)
}

proof fn lemma_run_merged(
    n: nat,
    edges: Seq<Edge>,
    run: Seq<Unravelling>,
    v: usize,
    e1: int,
    e2: int,
    new: WorkingEdge,
) -> (more: Seq<Unravelling>)
    requires
        unravels(n, edges, run),
        none_of_degree(run.last().w, n, 1),
        first_of_degree(run.last().w, n, 2, v),
        merged(run.last().w, v, e1, e2, new),
    ensures
        unravels(n, edges, more),
        more.last() == (Unravelling {
            w: after_merge(run.last().w, e1, e2, new),
            cycles: run.last().cycles,
        }),
{
    let x = run.last();
    let y = Unravelling { w: after_merge(x.w, e1, e2, new), cycles: x.cycles };
    assert(suppressed(n, x, y));
    lemma_run_grows(n, edges, run, y);
    run.push(y)
}

proof fn lemma_run_cycled(
    n: nat,
    edges: Seq<Edge>,
    run: Seq<Unravelling>,
    ids: Seq<usize>,
    k: int,
) -> (more: Seq<Unravelling>)
    requires
        unravels(n, edges, run),
        none_of_degree(run.last().w, n, 1),
        none_of_degree(run.last().w, n, 2),
        first_cycle(run.last().w, n, ids),
        0 <= k < ids.len(),
    ensures
        unravels(n, edges, more),
        more.last() == (Unravelling {
            w: run.last().w.update(ids[k] as int, None),
            cycles: run.last().cycles.push(trails_along(run.last().w, ids)),
        }),
{
    let x = run.last();
    let y = Unravelling {
        w: x.w.update(ids[k] as int, None),
        cycles: x.cycles.push(trails_along(x.w, ids)),
    };
    assert(cycle_emitted(n, x, y));
    lemma_run_grows(n, edges, run, y);
    run.push(y)
}

proof fn lemma_single_trail(w: Seq<Option<WorkingEdge>>, id: usize)
    ensures
        trails_along(w, seq![id]) == trail_of(w, id as int),
{
    assert(seq![id].drop_last() =~= Seq::<usize>::empty());
    assert(trails_along(w, seq![id].drop_last()) =~= Seq::<Edge>::empty());
    assert(trails_along(w, seq![id]) =~= trail_of(w, id as int));
}

/// A list of numbers below `m` is as long as its numbers occur.
proof fn lemma_length_counts(list: Seq<usize>, m: int)
    requires
        m <= usize::MAX,
        forall|i: int| 0 <= i < list.len() ==> #[trigger] list[i] < m,
    ensures
        list.len() == sum_below(m, |id: int| occurrences(list, id as usize)),
    decreases list.len(),
{
    let f = |id: int| occurrences(list, id as usize);
    if list.len() == 0 {
        assert(list =~= Seq::<usize>::empty());
        vstd::seq_lib::to_multiset_len(list);
        assert forall|i: int| 0 <= i < m implies #[trigger] f(i) == 0 by {
            list.to_multiset_ensures();
            vstd::seq_lib::to_multiset_contains(list, i as usize);
        }
        lemma_sum_same(m, f, |i: int| 0nat);
        lemma_sum_zero(m);
    } else {
        let front = list.drop_last();
        let last = list.last();
        assert(list[list.len() - 1] < m);
        assert forall|i: int| 0 <= i < front.len() implies #[trigger] front[i] < m by {
            assert(front[i] == list[i]);
        }
        lemma_length_counts(front, m);
        let g = |id: int| occurrences(front, id as usize);
        let h = |id: int|
            if id == last {
                1nat
            } else {
                0nat
            };
        vstd::seq_lib::to_multiset_build(front, last);
        assert(front.push(last) =~= list);
        assert forall|i: int| 0 <= i < m implies #[trigger] f(i) == g(i) + h(i) by {
            assert((i as usize == last) == (i == last));
        }
        lemma_sum_add(m, f, g, h);
        lemma_sum_two(m, h, last as int, last as int);
    }
}

/// The length of an incidence list is the degree.
proof fn lemma_degree_listed(w: Seq<Option<WorkingEdge>>, incidence: Seq<Vec<usize>>, v: usize)
    requires
        indexed(w, incidence),
        v < incidence.len(),
    ensures
        incidence[v as int]@.len() == working_degree(w, v),
{
    let list = incidence[v as int]@;
    let m = w.len() as int;
    assert forall|i: int| 0 <= i < list.len() implies #[trigger] list[i] < m by {
        lemma_listed(w, incidence, v, list[i]);
        assert(list.contains(list[i]));
    }
    lemma_length_counts(list, m);
    let f = |id: int| occurrences(list, id as usize);
    let g = |id: int| live_ends(w, id, v);
    assert forall|i: int| 0 <= i < m implies #[trigger] f(i) == g(i) by {
        assert(occurrences(incidence[v as int]@, i as usize) == live_ends(w, i, v));
    }
    lemma_sum_same(m, f, g);
}

proof fn lemma_degrees_listed(w: Seq<Option<WorkingEdge>>, incidence: Seq<Vec<usize>>)
    requires
        indexed(w, incidence),
    ensures
        forall|v: usize|
            v < incidence.len() ==> #[trigger] working_degree(w, v) == incidence[v as int]@.len(),
{
    assert forall|v: usize| v < incidence.len() implies #[trigger] working_degree(w, v)
        == incidence[v as int]@.len() by {
        lemma_degree_listed(w, incidence, v);
    }
}

/// The first vertex with this many edges.
fn find_degree(incidence: &Vec<Vec<usize>>, degree: usize) -> (r: Option<usize>)
    ensures
        r matches Some(v) ==> v < incidence@.len() && incidence@[v as int]@.len() == degree && (
        forall|u: int| 0 <= u < v ==> (#[trigger] incidence@[u])@.len() != degree),
        r is None ==> forall|v: int|
            0 <= v < incidence@.len() ==> (#[trigger] incidence@[v])@.len() != degree,
{
    let mut v: usize = 0;
    while v < incidence.len()
        invariant
            v <= incidence@.len(),
            forall|u: int| 0 <= u < v ==> (#[trigger] incidence@[u])@.len() != degree,
        decreases incidence@.len() - v,
    {
        if incidence[v].len() == degree {
            return Some(v);
        }
        v = v + 1;
    }
    None
}

/// A shortest cycle through the first vertex that is on one.
fn find_cycle(w: &Vec<Option<WorkingEdge>>, incidence: &Vec<Vec<usize>>) -> (r: Vec<usize>)
    requires
        indexed(w@, incidence@),
        !acyclic(w@, incidence@),
    ensures
        working_cycle(w@, r@),
        first_cycle(w@, incidence@.len(), r@),
{
    proof {
        lemma_degrees_listed(w@, incidence@);
    }
    let mut v: usize = 0;
    while v < incidence.len()
        invariant
            v <= incidence@.len(),
            indexed(w@, incidence@),
            !acyclic(w@, incidence@),
            forall|u: usize|
                u < incidence@.len() ==> #[trigger] working_degree(w@, u)
                    == incidence@[u as int]@.len(),
            forall|u: usize|
                u < v && (#[trigger] incidence@[u as int])@.len() >= 3 ==> no_cycle_at(
                    w@,
                    incidence@.len(),
                    u,
                ),
        decreases incidence@.len() - v,
    {
        if incidence[v].len() >= 3 {
            if let Some(ids) = dl_shortest_cycle(w, incidence, v) {
                proof {
                    assert forall|u: usize|
                        u < v && #[trigger] working_degree(w@, u) >= 3 implies no_cycle_at(
                        w@,
                        incidence@.len(),
                        u,
                    ) by {
                        assert(incidence@[u as int]@.len() >= 3);
                    }
                    assert(working_degree(w@, v) >= 3);
                }
                return ids;
            }
        }
        v = v + 1;
    }
    assert(acyclic(w@, incidence@));
    Vec::new()
}

fn collect_trails(w: &Vec<Option<WorkingEdge>>, ids: &Vec<usize>) -> (r: Vec<Edge>)
    requires
        forall|i: int| 0 <= i < ids@.len() ==> live(w@, #[trigger] ids@[i] as int),
    ensures
        r@ == trails_along(w@, ids@),
{
    let mut r: Vec<Edge> = Vec::new();
    assert(ids@.take(0) =~= Seq::empty());
    for i in 0..ids.len()
        invariant
            forall|k: int| 0 <= k < ids@.len() ==> live(w@, #[trigger] ids@[k] as int),
            r@ == trails_along(w@, ids@.take(i as int)),
    {
        let ghost r0 = r@;
        let id = ids[i];
        assert(live(w@, ids@[i as int] as int));
        if let Some(e) = &w[id] {
            for k in 0..e.trail.len()
                invariant
                    r@ == r0 + e.trail@.take(k as int),
            {
                r.push(e.trail[k]);
                assert(e.trail@.take(k + 1) =~= e.trail@.take(k as int).push(e.trail@[k as int]));
            }
            assert(e.trail@.take(e.trail@.len() as int) =~= e.trail@);
        }
        assert(ids@.take(i + 1).drop_last() =~= ids@.take(i as int));
    }
    assert(ids@.take(ids@.len() as int) =~= ids@);
    r
}

/// The end of working edge `id` away from `v`, and the edge's trail behind `trail`.
fn trail_past(w: &Vec<Option<WorkingEdge>>, id: usize, v: usize, trail: &mut Vec<Edge>) -> (x: usize)
    requires
        live(w@, id as int),
    ensures
        x == far(w@, id as int, v),
        final(trail)@ == old(trail)@ + trail_of(w@, id as int),
{
    let ghost before = trail@;
    let mut x: usize = 0;
    if let Some(e) = &w[id] {
        x = if e.a == v {
            e.b
        } else {
            e.a
        };
        for k in 0..e.trail.len()
            invariant
                trail@ == before + e.trail@.take(k as int),
        {
            trail.push(e.trail[k]);
            assert(e.trail@.take(k + 1) =~= e.trail@.take(k as int).push(e.trail@[k as int]));
        }
        assert(e.trail@.take(e.trail@.len() as int) =~= e.trail@);
    }
    x
}

/// A weakly fundamental cycle basis of the graph on `n` vertices, by the randomized
/// recursion of the decongestion lemma. Until no working edge remains:
///   1. a vertex of degree one is peeled off;
///   2. a vertex of degree two is merged away, or emitted where it carries a loop;
///   3. otherwise a shortest cycle through the first vertex that is on one is emitted, and
///      one of its edges is dropped at random.
#[verifier::spinoff_prover]
#[verifier::rlimit(40)]
pub fn decongestion_cycle_basis(n: usize, edges: &Vec<Edge>, rng: &mut StdRng) -> (basis: Vec<
    Vec<Edge>,
>)
    requires
        forall|i: int| 0 <= i < edges@.len() ==> (#[trigger] edges@[i]).0 < n && edges@[i].1 < n,
    ensures
        decongested(n as nat, edges@, cycle_views(basis@)),
        cycles_of(edges@, cycle_views(basis@)),
        edges@.no_duplicates() ==> is_cycle_basis(edges@, cycle_views(basis@)),
{
    let (mut w, mut incidence) = working_graph(n, edges);
    let mut remaining: usize = edges.len();
    let mut basis: Vec<Vec<Edge>> = Vec::new();
    let ghost mut gone: Set<usize> = Set::empty();
    let ghost mut own: Seq<Edge> = Seq::empty();
    let ghost mut run: Seq<Unravelling> = Seq::empty();
    proof {
        assert(cycle_views(basis@) =~= Seq::<Seq<Edge>>::empty());
        run = run.push(Unravelling { w: w@, cycles: cycle_views(basis@) });
        assert(starts_with(edges@, run[0]));
    }
    while remaining > 0
        invariant
            n == incidence@.len(),
            indexed(w@, incidence@),
            live_count(w@) == remaining,
            state_ok(w@, edges@, gone, cycle_views(basis@), own),
            unravels(n as nat, edges@, run),
            run.last() == (Unravelling { w: w@, cycles: cycle_views(basis@) }),
        decreases remaining,
    {
        let ghost w0 = w@;
        proof {
            lemma_degrees_listed(w@, incidence@);
        }
        if let Some(v) = find_degree(&incidence, 1) {
            let id = incidence[v][0];
            proof {
                lemma_at(w@, incidence@, v);
                lemma_reflected_peeled(w@, incidence@, edges@, own, v);
                lemma_trails_dropped(w@, edges@, gone, own, id as int);
                lemma_live_removed(w@, id as int);
            }
            dl_remove_edge(&mut w, &mut incidence, id);
            proof {
                assert(first_of_degree(w0, n as nat, 1, v));
                run = lemma_run_peeled(n as nat, edges@, run, v, id as int);
            }
            remaining = remaining - 1;
            continue ;
        }
        assert(none_of_degree(w@, n as nat, 1));
        if let Some(v) = find_degree(&incidence, 2) {
            assert(first_of_degree(w@, n as nat, 2, v));
            let e1 = incidence[v][0];
            let e2 = incidence[v][1];
            proof {
                lemma_at(w@, incidence@, v);
                assert(live(w@, incidence@[v as int]@[0] as int));
                assert(live(w@, incidence@[v as int]@[1] as int));
            }
            if e1 == e2 {
                let mut ids: Vec<usize> = Vec::new();
                ids.push(e1);
                let cycle = collect_trails(&w, &ids);
                proof {
                    lemma_loop_is_cycle(w@, e1, v);
                    assert(ids@ =~= seq![e1]);
                    lemma_cycle_emitted(w@, edges@, gone, cycle_views(basis@), own, ids@, 0);
                    lemma_live_removed(w@, e1 as int);
                    assert(cycle_views(basis@.push(cycle)) =~= cycle_views(basis@).push(cycle@));
                    own = own.push(trail_of(w@, e1 as int)[0]);
                }
                basis.push(cycle);
                dl_remove_edge(&mut w, &mut incidence, e1);
                proof {
                    lemma_single_trail(w0, e1);
                    run = lemma_run_looped(n as nat, edges@, run, v, e1 as int);
                }
            } else {
                let mut trail: Vec<Edge> = Vec::new();
                let x = trail_past(&w, e1, v, &mut trail);
                let y = trail_past(&w, e2, v, &mut trail);
                assert(trail@ =~= trail_of(w@, e1 as int) + trail_of(w@, e2 as int));
                let ghost new = WorkingEdge { a: x, b: y, trail };
                proof {
                    lemma_edges_merged(
                        w@,
                        edges@,
                        gone,
                        cycle_views(basis@),
                        own,
                        v,
                        e1 as int,
                        e2 as int,
                        new,
                    );
                    gone = gone.insert(v);
                    lemma_live_removed(w@, e1 as int);
                    lemma_live_removed(w@.update(e1 as int, None), e2 as int);
                    lemma_live_push(
                        w@.update(e1 as int, None).update(e2 as int, None),
                        Some(new),
                    );
                }
                dl_remove_edge(&mut w, &mut incidence, e1);
                dl_remove_edge(&mut w, &mut incidence, e2);
                dl_add_edge(&mut w, &mut incidence, x, y, trail);
                assert(w@ == after_merge(w0, e1 as int, e2 as int, new));
                proof {
                    run = lemma_run_merged(
                        n as nat,
                        edges@,
                        run,
                        v,
                        e1 as int,
                        e2 as int,
                        new,
                    );
                }
            }
            remaining = remaining - 1;
            continue ;
        }
        proof {
            assert(branching(incidence@)) by {
                assert forall|v: usize| v < incidence@.len() implies (
                #[trigger] incidence@[v as int])@.len() == 0 || incidence@[v as int]@.len() >= 3 by {
                    assert(incidence@[v as int]@.len() != 1);
                    assert(incidence@[v as int]@.len() != 2);
                }
            }
            lemma_cycle_exists(w@, incidence@);
        }
        let ids = find_cycle(&w, &incidence);
        let cycle = collect_trails(&w, &ids);
        let k = pick_below(rng, ids.len());
        let dropped = ids[k];
        proof {
            lemma_cycle_emitted(w@, edges@, gone, cycle_views(basis@), own, ids@, k as int);
            assert(live(w@, ids@[k as int] as int));
            lemma_live_removed(w@, dropped as int);
            assert(cycle_views(basis@.push(cycle)) =~= cycle_views(basis@).push(cycle@));
            own = own.push(trail_of(w@, dropped as int)[0]);
        }
        basis.push(cycle);
        dl_remove_edge(&mut w, &mut incidence, dropped);
        proof {
            assert(none_of_degree(w0, n as nat, 2));
            run = lemma_run_cycled(n as nat, edges@, run, ids@, k as int);
        }
        remaining = remaining - 1;
    }
    proof {
        assert forall|id: int| !#[trigger] live(run.last().w, id) by {
            if live(w@, id) {
                lemma_live_removed(w@, id);
            }
        }
        if edges@.no_duplicates() {
            lemma_nothing_left(w@, edges@, own);
            assert(own_edges(cycle_views(basis@), own));
        }
    }
    basis
}

proof fn lemma_loop_is_cycle(w: Seq<Option<WorkingEdge>>, id: usize, v: usize)
    requires
        live(w, id as int),
        ends_of(w, id as int, v) == 2,
    ensures
        working_cycle(w, seq![id]),
{
    assert forall|x: usize| #[trigger]
        ids_ends(w, seq![id], x) == 0 || ids_ends(w, seq![id], x) == 2 by {
        assert(seq![id].drop_last() =~= Seq::<usize>::empty());
        assert(ids_ends(w, Seq::<usize>::empty(), x) == 0);
    }
}

proof fn lemma_nothing_left(w: Seq<Option<WorkingEdge>>, edges: Seq<Edge>, own: Seq<Edge>)
    requires
        live_count(w) == 0,
        reflected(w, edges, own),
    ensures
        cuts_cycles(edges, own),
{
    assert forall|id: int| !#[trigger] live(w, id) by {
        if live(w, id) {
            lemma_live_removed(w, id);
        }
    }
    assert forall|chosen: Seq<bool>, i: int|
        #![trigger closed_choice(edges, chosen), chosen[i]]
        closed_choice(edges, chosen) && 0 <= i < edges.len() && chosen[i] implies exists|k: int|
        0 <= k < edges.len() && chosen[k] && own.contains(#[trigger] edges[k]) by {
        if avoids(edges, chosen, own) {
            assert(nontrivial(edges, chosen, own));
            let picked = choose|picked: Seq<bool>| working_choice(w, edges, chosen, picked);
            assert(working_choice(w, edges, chosen, picked));
        }
    }
}

/// Every graph edge as a working edge.
fn working_graph(n: usize, edges: &Vec<Edge>) -> (r: (Vec<Option<WorkingEdge>>, Vec<Vec<usize>>))
    requires
        forall|i: int| 0 <= i < edges@.len() ==> (#[trigger] edges@[i]).0 < n && edges@[i].1 < n,
    ensures
        r.1@.len() == n,
        indexed(r.0@, r.1@),
        live_count(r.0@) == edges@.len(),
        state_ok(r.0@, edges@, Set::empty(), Seq::empty(), Seq::empty()),
        starts_with(edges@, (Unravelling { w: r.0@, cycles: Seq::empty() })),
{
    let mut w: Vec<Option<WorkingEdge>> = Vec::new();
    let mut incidence: Vec<Vec<usize>> = Vec::new();
    for v in 0..n
        invariant
            incidence@.len() == v,
            forall|u: int| 0 <= u < v ==> (#[trigger] incidence@[u])@ == Seq::<usize>::empty(),
    {
        incidence.push(Vec::new());
    }
    proof {
        vstd::seq_lib::to_multiset_len(Seq::<usize>::empty());
        assert forall|v: usize, id: usize|
            #![trigger occurrences(incidence@[v as int]@, id)]
            v < incidence@.len() implies occurrences(incidence@[v as int]@, id) == 0 by {
            Seq::<usize>::empty().to_multiset_ensures();
            vstd::seq_lib::to_multiset_contains(Seq::<usize>::empty(), id);
        }
    }
    for i in 0..edges.len()
        invariant
            incidence@.len() == n,
            indexed(w@, incidence@),
            forall|k: int|
                0 <= k < edges@.len() ==> (#[trigger] edges@[k]).0 < n && edges@[k].1 < n,
            w@.len() == i,
            live_count(w@) == i,
            forall|k: int|
                0 <= k < i ==> live(w@, k) && (#[trigger] w@[k])->0.a == edges@[k].0 && w@[k]->0.b
                    == edges@[k].1 && w@[k]->0.trail@ == seq![edges@[k]],
    {
        let e = edges[i];
        let mut trail: Vec<Edge> = Vec::new();
        trail.push(e);
        assert(trail@ =~= seq![e]);
        proof {
            lemma_live_push(w@, Some(WorkingEdge { a: e.0, b: e.1, trail }));
        }
        let ghost w0 = w@;
        dl_add_edge(&mut w, &mut incidence, e.0, e.1, trail);
        proof {
            assert forall|k: int| 0 <= k < i + 1 implies live(w@, k) && (#[trigger] w@[k])->0.a
                == edges@[k].0 && w@[k]->0.b == edges@[k].1 && w@[k]->0.trail@
                == seq![edges@[k]] by {
                if k < i {
                    assert(w@[k] == w0[k]);
                }
            }
        }
    }
    proof {
        lemma_reflected_start(w@, edges@);
        lemma_trails_start(w@, edges@);
    }
    (w, incidence)
}

proof fn lemma_trails_start(w: Seq<Option<WorkingEdge>>, edges: Seq<Edge>)
    requires
        w.len() == edges.len(),
        forall|i: int|
            0 <= i < edges.len() ==> live(w, i) && (#[trigger] w[i])->0.a == edges[i].0 && w[i]->0.b
                == edges[i].1 && w[i]->0.trail@ == seq![edges[i]],
    ensures
        trails_ok(w, edges, Set::empty()),
        edges.no_duplicates() ==> trails_apart(w),
{
    assert forall|id: int| #[trigger] live(w, id) implies trail_of(w, id) == seq![edges[id]]
        && w[id]->0.a == edges[id].0 && w[id]->0.b == edges[id].1 by {
        assert(w[id]->0.a == edges[id].0);
    }
    assert forall|id: int, x: usize|
        #![trigger ends_at(trail_of(w, id), x)]
        live(w, id) implies ends_at(trail_of(w, id), x) == ends_of(w, id, x) by {
        let t = seq![edges[id]];
        assert(t.drop_last() =~= Seq::<Edge>::empty());
        assert(ends_at(Seq::<Edge>::empty(), x) == 0);
    }
    assert forall|id: int, e: Edge|
        #![trigger trail_of(w, id).contains(e)]
        live(w, id) && trail_of(w, id).contains(e) implies edges.contains(e) && e == edges[id] by {
        let k = trail_of(w, id).index_of(e);
        assert(seq![edges[id]][0] == edges[id]);
    }
}

} // verus!
