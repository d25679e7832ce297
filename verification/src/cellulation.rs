//! Thickening a graph into levels, and cutting its cycles into faces of bounded
//! weight.

use vstd::prelude::*;

use crate::expander::CongestionAwareExpander;
use crate::graph::{AncillaGraph, Edge};
#[allow(unused_imports)]
use crate::graph::{joined, lemma_edge_between, GraphModel};
use crate::graph_construction::{canonical_edge, copy_edges};
#[allow(unused_imports)]
use crate::graph_construction::{
    canonical, cycle_views, edge_ends, edge_load, ends_at, layer_load, layer_views, lemma_ends_add,
    lemma_ends_push, two_regular,
};

verus! {

// ---------------------------------------------------------------------------
// Thickening
// ---------------------------------------------------------------------------
/// How many levels the graph is thickened to.
pub open spec fn level_count(layers: nat, needed: usize, base: nat) -> nat {
    let floor = if base >= 1 {
        base
    } else {
        1
    };
    let wanted = if needed <= floor {
        needed as nat
    } else {
        floor
    };
    let levels = if layers >= wanted {
        layers
    } else {
        wanted
    };
    if levels >= 1 {
        levels
    } else {
        1
    }
}

/// Vertex `v` on level `r`.
pub open spec fn thick_id(base: nat, v: usize, r: nat) -> usize {
    (r * base + v) as usize
}

/// An edge moved to level `r`.
pub open spec fn thick_edge(base: nat, e: Edge, r: nat) -> Edge {
    let c = canonical(e.0, e.1);
    (thick_id(base, c.0, r), thick_id(base, c.1, r))
}

/// A copy of the edges on each of the first `levels` levels.
pub open spec fn horizontal(edges: Seq<Edge>, base: nat, levels: nat) -> Seq<Edge>
    decreases levels,
{
    if levels == 0 {
        Seq::empty()
    } else {
        horizontal(edges, base, (levels - 1) as nat) + Seq::new(
            edges.len(),
            |i: int| thick_edge(base, edges[i], (levels - 1) as nat),
        )
    }
}

/// For each of the first `n` vertices, the edges between consecutive levels.
pub open spec fn vertical(base: nat, levels: nat, n: nat) -> Seq<Edge>
    decreases n,
{
    if n == 0 {
        Seq::empty()
    } else {
        vertical(base, levels, (n - 1) as nat) + rungs(base, (n - 1) as usize, levels)
    }
}

/// The edges between consecutive levels at `v`.
pub open spec fn rungs(base: nat, v: usize, levels: nat) -> Seq<Edge> {
    Seq::new(
        if levels >= 1 {
            (levels - 1) as nat
        } else {
            0
        },
        |r: int| (thick_id(base, v, r as nat), thick_id(base, v, (r + 1) as nat)),
    )
}

/// The product of a graph with a path of `levels` vertices.
pub open spec fn product(g: GraphModel, levels: nat) -> GraphModel {
    GraphModel {
        nodes: levels * g.nodes,
        edges: horizontal(g.edges, g.nodes, levels) + vertical(g.nodes, levels, g.nodes),
    }
}

/// A cycle moved to level `r`.
pub open spec fn thick_cycle(base: nat, cycle: Seq<Edge>, r: nat) -> Seq<Edge> {
    Seq::new(
        cycle.len(),
        |i: int| canonical(thick_id(base, cycle[i].0, r), thick_id(base, cycle[i].1, r)),
    )
}

/// Each layer of cycles on its level.
pub open spec fn thick_cycles(base: nat, layers: Seq<Seq<Seq<Edge>>>, levels: nat) -> Seq<
    Seq<Seq<Edge>>,
> {
    Seq::new(
        levels,
        |r: int|
            if r < layers.len() {
                Seq::new(layers[r].len(), |k: int| thick_cycle(base, layers[r][k], r as nat))
            } else {
                Seq::empty()
            },
    )
}

/// The cycles run along vertices of the graph.
pub open spec fn cycles_below(layers: Seq<Seq<Seq<Edge>>>, base: nat) -> bool {
    forall|r: int, k: int, i: int|
        #![trigger layers[r][k][i]]
        0 <= r < layers.len() && 0 <= k < layers[r].len() && 0 <= i < layers[r][k].len()
            ==> layers[r][k][i].0 < base && layers[r][k][i].1 < base
}

/// The thickened ancilla graph: stacked copies of the base graph, consecutive copies
/// joined at every vertex. Vertex `v` of level `r` has the number
/// `r * base_vertices + v`.
pub struct ThickenedGraph {
    pub graph: AncillaGraph,
    pub levels: usize,
    pub base_vertices: usize,
    /// The cycles placed on each level.
    pub level_cycles: Vec<Vec<Vec<Edge>>>,
}

/// The product graph has no more nodes and edges than petgraph can number.
pub open spec fn product_fits(g: GraphModel, levels: nat) -> bool {
    product(g, levels).nodes <= u32::MAX && product(g, levels).edges.len() <= u32::MAX
}

proof fn lemma_product_len(edges: Seq<Edge>, base: nat, levels: nat, n: nat)
    ensures
        horizontal(edges, base, levels).len() == levels * edges.len(),
        levels >= 1 ==> vertical(base, levels, n).len() == n * (levels - 1),
    decreases levels,
{
    let m = edges.len();
    if levels > 0 {
        lemma_product_len(edges, base, (levels - 1) as nat, 0);
        assert(levels * m == (levels - 1) * m + m) by (nonlinear_arith);
    } else {
        assert(0 * m == 0) by (nonlinear_arith);
    }
    if levels >= 1 {
        lemma_vertical_len(base, levels, n);
    }
}

proof fn lemma_vertical_len(base: nat, levels: nat, n: nat)
    requires
        levels >= 1,
    ensures
        vertical(base, levels, n).len() == n * (levels - 1),
    decreases n,
{
    let k = levels - 1;
    if n > 0 {
        lemma_vertical_len(base, levels, (n - 1) as nat);
        assert(n * k == (n - 1) * k + k) by (nonlinear_arith);
    } else {
        assert(0 * k == 0) by (nonlinear_arith);
    }
}

fn count_levels(layers: usize, needed: usize, base: usize) -> (r: usize)
    ensures
        r == level_count(layers as nat, needed, base as nat),
{
    let floor: usize = if base >= 1 {
        base
    } else {
        1
    };
    let wanted: usize = if needed <= floor {
        needed
    } else {
        floor
    };
    let levels: usize = if layers >= wanted {
        layers
    } else {
        wanted
    };
    if levels >= 1 {
        levels
    } else {
        1
    }
}

/// The numbers on a level stay below the number of nodes.
pub proof fn lemma_thick_id(base: nat, levels: nat, v: usize, r: nat)
    requires
        levels * base <= u32::MAX,
        v < base,
        r < levels,
    ensures
        thick_id(base, v, r) == r * base + v,
        r * base + v < levels * base,
        r * base <= u32::MAX,
{
    let x = v as int;
    assert(r * base + x < levels * base) by (nonlinear_arith)
        requires
            0 <= x < base,
            0 <= r < levels,
    ;
    assert(0 <= r * base) by (nonlinear_arith)
        requires
            0 <= r,
            0 <= base,
    ;
}

/// The product of the graph with a path, or `None` if it is too large to number.
#[verifier::spinoff_prover]
fn product_graph(g: &AncillaGraph, levels: usize) -> (r: Option<AncillaGraph>)
    requires
        levels >= 1,
    ensures
        r is Some <==> product_fits(g@, levels as nat),
        r matches Some(p) ==> p@ == product(g@, levels as nat),
{
    let base: usize = g.node_count();
    let m: usize = g.edge_count();
    let ghost goal = product(g@, levels as nat);
    let ghost across = horizontal(g@.edges, base as nat, levels as nat);
    let ghost up = vertical(base as nat, levels as nat, base as nat);
    proof {
        lemma_product_len(g@.edges, base as nat, levels as nat, base as nat);
        lemma_wide(levels as int, base as int);
        lemma_wide(levels as int, m as int);
        lemma_wide(base as int, levels - 1);
    }
    let n_nodes: u128 = levels as u128 * base as u128;
    let n_edges: u128 = levels as u128 * m as u128 + base as u128 * (levels - 1) as u128;
    if n_nodes > u32::MAX as u128 || n_edges > u32::MAX as u128 {
        return None;
    }
    let mut p = AncillaGraph::new();
    let total: usize = levels * base;
    for i in 0..total
        invariant
            total <= u32::MAX,
            p@ == (GraphModel { nodes: i as nat, edges: Seq::<Edge>::empty() }),
    {
        p.add_node();
    }
    let mut r: usize = 0;
    while r < levels
        invariant
            r <= levels,
            base == g@.nodes,
            m == g@.edges.len(),
            g@.wf(),
            levels * base <= u32::MAX,
            total == levels * base,
            across == horizontal(g@.edges, base as nat, levels as nat),
            across.len() == levels * m,
            across.len() + up.len() <= u32::MAX,
            p@.nodes == total,
            p@.edges == horizontal(g@.edges, base as nat, r as nat),
        decreases levels - r,
    {
        let ghost done = p@.edges;
        let ghost row = Seq::new(m as nat, |i: int| thick_edge(base as nat, g@.edges[i], r as nat));
        proof {
            lemma_product_len(g@.edges, base as nat, r as nat, 0);
            let (x, y, z) = (r as int, levels as int, m as int);
            assert(x * z + z <= y * z) by (nonlinear_arith)
                requires
                    0 <= x < y,
                    0 <= z,
            ;
            assert(row.take(0) =~= Seq::empty());
        }
        let mut k: usize = 0;
        while k < m
            invariant
                k <= m,
                r < levels,
                base == g@.nodes,
                m == g@.edges.len(),
                g@.wf(),
                levels * base <= u32::MAX,
                total == levels * base,
                done.len() + m <= u32::MAX,
                row == Seq::new(
                    m as nat,
                    |i: int| thick_edge(base as nat, g@.edges[i], r as nat),
                ),
                p@.nodes == total,
                p@.edges == done + row.take(k as int),
            decreases m - k,
        {
            let (a, b) = g.edge_endpoints(k);
            let (c, d) = canonical_edge(a, b);
            proof {
                lemma_thick_id(base as nat, levels as nat, c, r as nat);
                lemma_thick_id(base as nat, levels as nat, d, r as nat);
                assert(row.take(k + 1) =~= row.take(k as int).push(row[k as int]));
            }
            p.add_edge(r * base + c, r * base + d);
            assert(p@.edges =~= done + row.take(k + 1));
            k = k + 1;
        }
        assert(row.take(m as int) =~= row);
        r = r + 1;
        assert(p@.edges == horizontal(g@.edges, base as nat, r as nat));
    }
    let mut v: usize = 0;
    proof {
        assert(across + vertical(base as nat, levels as nat, 0) =~= across);
    }
    while v < base
        invariant
            v <= base,
            levels >= 1,
            base == g@.nodes,
            levels * base <= u32::MAX,
            total == levels * base,
            across.len() + base * (levels - 1) <= u32::MAX,
            p@.nodes == total,
            p@.edges == across + vertical(base as nat, levels as nat, v as nat),
        decreases base - v,
    {
        let ghost done = p@.edges;
        let ghost row = rungs(base as nat, v, levels as nat);
        proof {
            lemma_vertical_len(base as nat, levels as nat, v as nat);
            let (x, y, z) = (v as int, base as int, levels - 1);
            assert(x * z + z <= y * z) by (nonlinear_arith)
                requires
                    0 <= x < y,
                    0 <= z,
            ;
            assert(row.take(0) =~= Seq::empty());
        }
        let mut q: usize = 0;
        while q < levels - 1
            invariant
                q <= levels - 1,
                v < base,
                levels >= 1,
                base == g@.nodes,
                levels * base <= u32::MAX,
                total == levels * base,
                row == rungs(base as nat, v, levels as nat),
                done.len() + (levels - 1) <= u32::MAX,
                p@.nodes == total,
                p@.edges == done + row.take(q as int),
            decreases levels - q,
        {
            proof {
                lemma_thick_id(base as nat, levels as nat, v, q as nat);
                lemma_thick_id(base as nat, levels as nat, v, (q + 1) as nat);
                assert(row.take(q + 1) =~= row.take(q as int).push(row[q as int]));
            }
            p.add_edge(q * base + v, (q + 1) * base + v);
            assert(p@.edges =~= done + row.take(q + 1));
            q = q + 1;
        }
        assert(row.take(row.len() as int) =~= row);
        v = v + 1;
        assert(p@.edges =~= across + vertical(base as nat, levels as nat, v as nat));
    }
    Some(p)
}

proof fn lemma_wide(x: int, y: int)
    requires
        0 <= x <= usize::MAX,
        0 <= y <= u32::MAX || (0 <= x <= u32::MAX && 0 <= y <= usize::MAX),
    ensures
        0 <= x * y <= 0x1_0000_0000_0000_0000 * 0x1_0000_0000,
{
    assert(0 <= x * y <= 0x1_0000_0000_0000_0000 * 0x1_0000_0000) by (nonlinear_arith)
        requires
            0 <= x <= 0xffff_ffff_ffff_ffff,
            0 <= y <= 0xffff_ffff || (0 <= x <= 0xffff_ffff && 0 <= y <= 0xffff_ffff_ffff_ffff),
    ;
}

/// A cycle on level `r`.
fn cycle_on_level(cycle: &Vec<Edge>, base: usize, r: usize, Ghost(levels): Ghost<nat>) -> (out: Vec<
    Edge,
>)
    requires
        levels * base <= u32::MAX,
        r < levels,
        forall|i: int|
            0 <= i < cycle@.len() ==> (#[trigger] cycle@[i]).0 < base && cycle@[i].1 < base,
    ensures
        out@ == thick_cycle(base as nat, cycle@, r as nat),
{
    let mut out: Vec<Edge> = Vec::new();
    for i in 0..cycle.len()
        invariant
            levels * base <= u32::MAX,
            r < levels,
            forall|k: int|
                0 <= k < cycle@.len() ==> (#[trigger] cycle@[k]).0 < base && cycle@[k].1 < base,
            out@ == thick_cycle(base as nat, cycle@, r as nat).take(i as int),
    {
        let (a, b) = cycle[i];
        proof {
            assert(cycle@[i as int] == (a, b));
            lemma_thick_id(base as nat, levels, a, r as nat);
            lemma_thick_id(base as nat, levels, b, r as nat);
        }
        out.push(canonical_edge(r * base + a, r * base + b));
        proof {
            let all = thick_cycle(base as nat, cycle@, r as nat);
            assert(all.take(i + 1) =~= all.take(i as int).push(all[i as int]));
        }
    }
    proof {
        let all = thick_cycle(base as nat, cycle@, r as nat);
        assert(all.take(all.len() as int) =~= all);
    }
    out
}

/// Thicken the graph of the construction: the decongestion layers keep each level's
/// cycles apart, and the layers that the expansion asks for keep the code distance.
/// `None` if the product is too large to number.
pub fn thicken(result: &CongestionAwareExpander) -> (r: Option<ThickenedGraph>)
    requires
        cycles_below(result.partition@, result.graph@.nodes),
    ensures
        ({
            let levels = level_count(
                result.partition@.len(),
                result.needed,
                result.graph@.nodes,
            );
            &&& r is Some <==> product_fits(result.graph@, levels)
            &&& r matches Some(t) ==> {
                &&& t.graph@ == product(result.graph@, levels)
                &&& t.levels == levels
                &&& t.base_vertices == result.graph@.nodes
                &&& layer_views(t.level_cycles@) == thick_cycles(
                    result.graph@.nodes,
                    result.partition@,
                    levels,
                )
            }
        }),
{
    let base: usize = result.graph.node_count();
    let layers = result.partition.layer_cycles();
    let ghost given = layer_views(layers@);
    let levels: usize = count_levels(layers.len(), result.needed, base);
    let ghost goal = thick_cycles(base as nat, given, levels as nat);
    let graph = match product_graph(&result.graph, levels) {
        None => {
            return None;
        },
        Some(p) => p,
    };
    let mut level_cycles: Vec<Vec<Vec<Edge>>> = Vec::new();
    let mut r: usize = 0;
    while r < levels
        invariant
            r <= levels,
            levels * base <= u32::MAX,
            given == layer_views(layers@),
            goal == thick_cycles(base as nat, given, levels as nat),
            cycles_below(given, base as nat),
            layer_views(level_cycles@) == goal.take(r as int),
        decreases levels - r,
    {
        let mut group: Vec<Vec<Edge>> = Vec::new();
        if r < layers.len() {
            let cycles = &layers[r];
            assert(given[r as int] == cycle_views(cycles@));
            for k in 0..cycles.len()
                invariant
                    r < levels,
                    r < layers@.len(),
                    levels * base <= u32::MAX,
                    given == layer_views(layers@),
                    cycles_below(given, base as nat),
                    given[r as int] == cycle_views(cycles@),
                    goal == thick_cycles(base as nat, given, levels as nat),
                    cycle_views(group@) == goal[r as int].take(k as int),
                    goal[r as int].len() == cycles@.len(),
            {
                let cycle = &cycles[k];
                assert(given[r as int][k as int] == cycle@);
                assert forall|i: int| 0 <= i < cycle@.len() implies (#[trigger] cycle@[i]).0 < base
                    && cycle@[i].1 < base by {
                    assert(given[r as int][k as int][i] == cycle@[i]);
                }
                let moved = cycle_on_level(cycle, base, r, Ghost(levels as nat));
                proof {
                    let row = goal[r as int];
                    assert(row[k as int] == moved@);
                    assert(cycle_views(group@.push(moved)) =~= cycle_views(group@).push(moved@));
                    assert(row.take(k + 1) =~= row.take(k as int).push(row[k as int]));
                }
                group.push(moved);
            }
            assert(goal[r as int].take(cycles@.len() as int) =~= goal[r as int]);
        }
        assert(cycle_views(group@) =~= goal[r as int]);
        proof {
            assert(layer_views(level_cycles@.push(group)) =~= layer_views(level_cycles@).push(
                cycle_views(group@),
            ));
            assert(goal.take(r + 1) =~= goal.take(r as int).push(goal[r as int]));
        }
        level_cycles.push(group);
        r = r + 1;
    }
    assert(goal.take(levels as int) =~= goal);
    Some(ThickenedGraph { graph, levels, base_vertices: base, level_cycles })
}

/// A cycle stays closed when it is moved to a level.
pub proof fn law_thick_cycle_is_closed(base: nat, levels: nat, cycle: Seq<Edge>, r: nat)
    requires
        two_regular(cycle),
        levels * base <= u32::MAX,
        r < levels,
        forall|i: int| 0 <= i < cycle.len() ==> (#[trigger] cycle[i]).0 < base && cycle[i].1 < base,
    ensures
        two_regular(thick_cycle(base, cycle, r)),
{
    let moved = thick_cycle(base, cycle, r);
    assert forall|x: usize| #[trigger] ends_at(moved, x) == 0 || ends_at(moved, x) == 2 by {
        if r * base <= x < r * base + base {
            let y = (x - r * base) as usize;
            lemma_moved_ends(base, levels, cycle, r, y, x);
            assert(ends_at(cycle, y) == 0 || ends_at(cycle, y) == 2);
        } else {
            lemma_moved_away(base, levels, cycle, r, x);
        }
    }
}

proof fn lemma_moved_ends(base: nat, levels: nat, cycle: Seq<Edge>, r: nat, y: usize, x: usize)
    requires
        levels * base <= u32::MAX,
        r < levels,
        forall|i: int| 0 <= i < cycle.len() ==> (#[trigger] cycle[i]).0 < base && cycle[i].1 < base,
        y < base,
        x == r * base + y,
    ensures
        ends_at(thick_cycle(base, cycle, r), x) == ends_at(cycle, y),
    decreases cycle.len(),
{
    if cycle.len() > 0 {
        let front = cycle.drop_last();
        let e = cycle[cycle.len() - 1];
        assert forall|i: int| 0 <= i < front.len() implies (#[trigger] front[i]).0 < base
            && front[i].1 < base by {
            assert(front[i] == cycle[i]);
        }
        lemma_moved_ends(base, levels, front, r, y, x);
        assert(thick_cycle(base, cycle, r).drop_last() =~= thick_cycle(base, front, r));
        lemma_thick_id(base, levels, e.0, r);
        lemma_thick_id(base, levels, e.1, r);
    }
}

proof fn lemma_moved_away(base: nat, levels: nat, cycle: Seq<Edge>, r: nat, x: usize)
    requires
        levels * base <= u32::MAX,
        r < levels,
        forall|i: int| 0 <= i < cycle.len() ==> (#[trigger] cycle[i]).0 < base && cycle[i].1 < base,
        !(r * base <= x < r * base + base),
    ensures
        ends_at(thick_cycle(base, cycle, r), x) == 0,
    decreases cycle.len(),
{
    if cycle.len() > 0 {
        let front = cycle.drop_last();
        let e = cycle[cycle.len() - 1];
        assert forall|i: int| 0 <= i < front.len() implies (#[trigger] front[i]).0 < base
            && front[i].1 < base by {
            assert(front[i] == cycle[i]);
        }
        lemma_moved_away(base, levels, front, r, x);
        assert(thick_cycle(base, cycle, r).drop_last() =~= thick_cycle(base, front, r));
        lemma_thick_id(base, levels, e.0, r);
        lemma_thick_id(base, levels, e.1, r);
    }
}

// ---------------------------------------------------------------------------
// The order of a cycle's vertices
// ---------------------------------------------------------------------------
/// The other ends of the edges at `x`, in the order of the edges; a loop gives two.
pub open spec fn slots(cycle: Seq<Edge>, x: usize) -> Seq<usize>
    decreases cycle.len(),
{
    if cycle.len() == 0 {
        Seq::empty()
    } else {
        let (a, b) = cycle.last();
        let front = slots(cycle.drop_last(), x);
        let once = if a == x {
            front.push(b)
        } else {
            front
        };
        if b == x {
            once.push(a)
        } else {
            once
        }
    }
}

/// Where a walk round the cycle goes from `cur` when it came from `prev`.
pub open spec fn next_vertex(cycle: Seq<Edge>, prev: usize, cur: usize) -> usize {
    let s = slots(cycle, cur);
    if s[0] != prev {
        s[0]
    } else {
        s[1]
    }
}

/// The vertex before position `k` of a walk.
pub open spec fn came_from(order: Seq<usize>, k: int) -> usize {
    if k == 0 {
        usize::MAX
    } else {
        order[k - 1]
    }
}

/// The vertices of a walk round the cycle, from the first end of its first edge until
/// it is back there.
pub open spec fn vertex_order(cycle: Seq<Edge>, order: Seq<usize>) -> bool {
    &&& order.len() > 0
    &&& order[0] == cycle[0].0
    &&& forall|k: int|
        0 <= k < order.len() - 1 ==> {
            &&& #[trigger] order[k + 1] == next_vertex(cycle, came_from(order, k), order[k])
            &&& order[k + 1] != order[0]
        }
    &&& next_vertex(cycle, came_from(order, order.len() - 1), order.last()) == order[0]
}

/// How often `y` is on the other end of an edge at `x`.
spec fn meetings(cycle: Seq<Edge>, x: usize, y: usize) -> nat
    decreases cycle.len(),
{
    if cycle.len() == 0 {
        0
    } else {
        let (a, b) = cycle.last();
        meetings(cycle.drop_last(), x, y) + (if a == x && b == y {
            1nat
        } else {
            0
        }) + (if b == x && a == y {
            1nat
        } else {
            0
        })
    }
}

spec fn times(s: Seq<usize>, y: usize) -> nat
    decreases s.len(),
{
    if s.len() == 0 {
        0
    } else {
        times(s.drop_last(), y) + if s.last() == y {
            1nat
        } else {
            0
        }
    }
}

proof fn lemma_times_push(s: Seq<usize>, a: usize, y: usize)
    ensures
        times(s.push(a), y) == times(s, y) + if a == y {
            1nat
        } else {
            0
        },
{
    assert(s.push(a).drop_last() =~= s);
}

proof fn lemma_meetings(cycle: Seq<Edge>, x: usize, y: usize)
    ensures
        meetings(cycle, x, y) == meetings(cycle, y, x),
        x == y ==> meetings(cycle, x, y) % 2 == 0,
        meetings(cycle, x, y) == times(slots(cycle, x), y),
        slots(cycle, x).len() == ends_at(cycle, x),
    decreases cycle.len(),
{
    if cycle.len() > 0 {
        let (a, b) = cycle.last();
        let front = slots(cycle.drop_last(), x);
        lemma_meetings(cycle.drop_last(), x, y);
        lemma_times_push(front, b, y);
        lemma_times_push(front, a, y);
        lemma_times_push(front.push(b), a, y);
    }
}

/// The two edges at a vertex of a cycle lead to these two.
proof fn lemma_two_slots(cycle: Seq<Edge>, x: usize, y: usize)
    requires
        slots(cycle, x).len() == 2,
    ensures
        meetings(cycle, x, y) == (if slots(cycle, x)[0] == y {
            1nat
        } else {
            0
        }) + (if slots(cycle, x)[1] == y {
            1nat
        } else {
            0
        }),
{
    lemma_meetings(cycle, x, y);
    let s = slots(cycle, x);
    assert(s.drop_last().drop_last() =~= Seq::<usize>::empty());
    assert(times(Seq::<usize>::empty(), y) == 0);
    assert(times(s.drop_last(), y) == if s[0] == y {
        1nat
    } else {
        0
    });
}

proof fn lemma_on_cycle(cycle: Seq<Edge>, i: int)
    requires
        0 <= i < cycle.len(),
    ensures
        ends_at(cycle, cycle[i].0) > 0,
    decreases cycle.len(),
{
    if i < cycle.len() - 1 {
        lemma_on_cycle(cycle.drop_last(), i);
        assert(cycle.drop_last()[i] == cycle[i]);
    }
}

/// The walk so far.
spec fn walk_ok(cycle: Seq<Edge>, order: Seq<usize>) -> bool {
    &&& order.len() > 0
    &&& order[0] == cycle[0].0
    &&& order.no_duplicates()
    &&& forall|k: int| 0 <= k < order.len() ==> slots(cycle, #[trigger] order[k]).len() == 2
    &&& forall|k: int|
        0 <= k < order.len() - 1 ==> {
            &&& #[trigger] order[k + 1] == next_vertex(cycle, came_from(order, k), order[k])
            &&& order[k + 1] != order[0]
        }
}

/// The walk meets no vertex twice before it is back at its start.
proof fn lemma_walk_new(cycle: Seq<Edge>, order: Seq<usize>)
    requires
        two_regular(cycle),
        walk_ok(cycle, order),
        next_vertex(cycle, came_from(order, order.len() - 1), order.last()) != order[0],
    ensures
        !order.contains(next_vertex(cycle, came_from(order, order.len() - 1), order.last())),
        slots(
            cycle,
            next_vertex(cycle, came_from(order, order.len() - 1), order.last()),
        ).len() == 2,
{
    let n = order.len() as int;
    let cur = order[n - 1];
    assert(order.last() == cur);
    let next = next_vertex(cycle, came_from(order, n - 1), cur);
    lemma_two_slots(cycle, cur, next);
    assert(meetings(cycle, cur, next) >= 1);
    lemma_meetings(cycle, cur, next);
    lemma_meetings(cycle, next, cur);
    assert(slots(cycle, next).len() == 2) by {
        assert(ends_at(cycle, next) == 0 || ends_at(cycle, next) == 2);
        if slots(cycle, next).len() == 0 {
            assert(slots(cycle, next) =~= Seq::<usize>::empty());
            assert(times(Seq::<usize>::empty(), cur) == 0);
        }
    }
    if order.contains(next) {
        let k = order.index_of(next);
        assert(order[k] == next);
        assert(k >= 1);
        let p = order[k - 1];
        lemma_consecutive(cycle, order, k);
        lemma_two_slots(cycle, next, p);
        lemma_two_slots(cycle, next, cur);
        if k == n - 1 {
            lemma_two_slots(cycle, cur, cur);
            lemma_meetings(cycle, cur, cur);
            assert(p != cur);
        } else if k == n - 2 {
            lemma_two_slots(cycle, cur, next);
            assert(came_from(order, n - 1) == next);
            assert(meetings(cycle, cur, next) == 2);
            assert(p != cur);
        } else {
            lemma_consecutive(cycle, order, k + 1);
            let q = order[k + 1];
            lemma_two_slots(cycle, next, q);
            lemma_meetings(cycle, q, next);
            assert(p != cur && q != cur && p != q);
        }
    }
}

/// Consecutive vertices of the walk meet.
proof fn lemma_consecutive(cycle: Seq<Edge>, order: Seq<usize>, k: int)
    requires
        walk_ok(cycle, order),
        1 <= k < order.len(),
    ensures
        meetings(cycle, order[k], order[k - 1]) >= 1,
        meetings(cycle, order[k - 1], order[k]) >= 1,
{
    assert(order[k - 1 + 1] == next_vertex(cycle, came_from(order, k - 1), order[k - 1]));
    assert(slots(cycle, order[k - 1]).len() == 2);
    lemma_two_slots(cycle, order[k - 1], order[k]);
    lemma_meetings(cycle, order[k - 1], order[k]);
}

fn slots_at(cycle: &Vec<Edge>, x: usize) -> (r: Vec<usize>)
    ensures
        r@ == slots(cycle@, x),
{
    let mut r: Vec<usize> = Vec::new();
    assert(cycle@.take(0) =~= Seq::empty());
    for i in 0..cycle.len()
        invariant
            r@ == slots(cycle@.take(i as int), x),
    {
        let (a, b) = cycle[i];
        assert(cycle@.take(i + 1).drop_last() =~= cycle@.take(i as int));
        if a == x {
            r.push(b);
        }
        if b == x {
            r.push(a);
        }
    }
    assert(cycle@.take(cycle@.len() as int) =~= cycle@);
    r
}

/// The walk goes on to a new vertex until it is back at its start.
proof fn lemma_walk_step(cycle: Seq<Edge>, order: Seq<usize>)
    requires
        two_regular(cycle),
        walk_ok(cycle, order),
        next_vertex(cycle, came_from(order, order.len() - 1), order.last()) != order[0],
    ensures
        walk_ok(
            cycle,
            order.push(next_vertex(cycle, came_from(order, order.len() - 1), order.last())),
        ),
        order.len() + 1 <= usize::MAX + 1,
{
    let next = next_vertex(cycle, came_from(order, order.len() - 1), order.last());
    let after = order.push(next);
    lemma_walk_new(cycle, order);
    assert forall|k: int| 0 <= k < after.len() implies slots(cycle, #[trigger] after[k]).len()
        == 2 by {
        if k < order.len() {
            assert(after[k] == order[k]);
        }
    }
    assert forall|k: int| 0 <= k < after.len() - 1 implies {
        &&& #[trigger] after[k + 1] == next_vertex(cycle, came_from(after, k), after[k])
        &&& after[k + 1] != after[0]
    } by {
        if k < order.len() - 1 {
            assert(after[k + 1] == order[k + 1]);
            assert(came_from(after, k) == came_from(order, k));
        }
    }
    assert forall|i: int, j: int|
        0 <= i < after.len() && 0 <= j < after.len() && i != j implies after[i] != after[j] by {
        if i < order.len() {
            assert(order.contains(order[i]));
        }
        if j < order.len() {
            assert(order.contains(order[j]));
        }
    }
    let ints = Seq::new(after.len(), |i: int| after[i] as int);
    crate::coloring::lemma_distinct_below(ints, (usize::MAX + 1) as nat);
}

/// Every walk gets back to its start.
proof fn lemma_walk_closes(cycle: Seq<Edge>, order: Seq<usize>) -> (whole: Seq<usize>)
    requires
        two_regular(cycle),
        walk_ok(cycle, order),
    ensures
        vertex_order(cycle, whole),
        whole.no_duplicates(),
    decreases usize::MAX + 1 - order.len(),
{
    let next = next_vertex(cycle, came_from(order, order.len() - 1), order.last());
    if next == order[0] {
        order
    } else {
        lemma_walk_step(cycle, order);
        lemma_walk_closes(cycle, order.push(next))
    }
}

/// A closed chain of edges is walked round without meeting a vertex twice.
pub proof fn law_walk_round_cycle(cycle: Seq<Edge>)
    requires
        two_regular(cycle),
    ensures
        vertex_order(cycle, order_of(cycle)),
        order_of(cycle).no_duplicates(),
{
    let start = cycle[0].0;
    lemma_on_cycle(cycle, 0);
    lemma_meetings(cycle, start, start);
    assert(ends_at(cycle, start) == 2);
    let whole = lemma_walk_closes(cycle, seq![start]);
    lemma_order_unique(cycle, whole, order_of(cycle));
}

/// The cyclic order of the vertices of a simple cycle, given its edges.
pub fn cycle_vertex_order(cycle: &Vec<Edge>) -> (order: Vec<usize>)
    requires
        two_regular(cycle@),
    ensures
        vertex_order(cycle@, order@),
        order@.no_duplicates(),
        forall|k: int| 0 <= k < order@.len() ==> ends_at(cycle@, #[trigger] order@[k]) == 2,
{
    let start = cycle[0].0;
    let mut order: Vec<usize> = Vec::new();
    order.push(start);
    let mut prev: usize = usize::MAX;
    let mut cur: usize = start;
    proof {
        lemma_on_cycle(cycle@, 0);
        lemma_meetings(cycle@, start, start);
        assert(ends_at(cycle@, start) == 2);
    }
    loop
        invariant
            two_regular(cycle@),
            walk_ok(cycle@, order@),
            start == order@[0],
            cur == order@.last(),
            prev == came_from(order@, order@.len() - 1),
        ensures
            walk_ok(cycle@, order@),
            next_vertex(cycle@, came_from(order@, order@.len() - 1), order@.last()) == order@[0],
        decreases usize::MAX + 1 - order@.len(),
    {
        let around = slots_at(cycle, cur);
        assert(slots(cycle@, order@[order@.len() - 1]).len() == 2);
        let next = if around[0] != prev {
            around[0]
        } else {
            around[1]
        };
        if next == start {
            break ;
        }
        proof {
            lemma_walk_step(cycle@, order@);
        }
        order.push(next);
        prev = cur;
        cur = next;
    }
    proof {
        assert forall|k: int| 0 <= k < order@.len() implies ends_at(cycle@, #[trigger] order@[k])
            == 2 by {
            lemma_meetings(cycle@, order@[k], order@[k]);
        }
    }
    order
}

/// There is only one such walk.
proof fn lemma_order_unique(cycle: Seq<Edge>, a: Seq<usize>, b: Seq<usize>)
    requires
        vertex_order(cycle, a),
        vertex_order(cycle, b),
    ensures
        a == b,
{
    if a.len() <= b.len() {
        lemma_order_prefix(cycle, a, b, a.len() as int);
    } else {
        lemma_order_prefix(cycle, b, a, b.len() as int);
    }
    let (s, l) = if a.len() <= b.len() {
        (a, b)
    } else {
        (b, a)
    };
    if s.len() < l.len() {
        let k = s.len() - 1;
        assert(l[k + 1] == next_vertex(cycle, came_from(l, k), l[k]));
        assert(l[k] == s[k]);
        if k > 0 {
            assert(l[k - 1] == s[k - 1]);
        }
        assert(came_from(l, k) == came_from(s, k));
    }
    assert(a =~= b);
}

proof fn lemma_order_prefix(cycle: Seq<Edge>, a: Seq<usize>, b: Seq<usize>, n: int)
    requires
        vertex_order(cycle, a),
        vertex_order(cycle, b),
        0 <= n <= a.len() <= b.len(),
    ensures
        forall|k: int| 0 <= k < n ==> a[k] == b[k],
    decreases n,
{
    if n > 1 {
        lemma_order_prefix(cycle, a, b, n - 1);
        let k = n - 2;
        assert(a[k + 1] == next_vertex(cycle, came_from(a, k), a[k]));
        assert(b[k + 1] == next_vertex(cycle, came_from(b, k), b[k]));
        assert(a[k] == b[k]);
        if k > 0 {
            assert(a[k - 1] == b[k - 1]);
        }
    }
}

// ---------------------------------------------------------------------------
// Faces
// ---------------------------------------------------------------------------
/// The edge between positions `a` and `b` of the loop.
pub open spec fn boundary(vertices: Seq<usize>, a: int, b: int) -> Edge {
    canonical(vertices[a], vertices[b])
}

/// The edges along the loop from position `a` to position `b`.
pub open spec fn arc(vertices: Seq<usize>, a: int, b: int) -> Seq<Edge> {
    Seq::new(
        if a <= b {
            (b - a) as nat
        } else {
            0
        },
        |s: int| boundary(vertices, a + s, a + s + 1),
    )
}

/// The same edges from position `b` back to position `a`.
pub open spec fn arc_back(vertices: Seq<usize>, a: int, b: int) -> Seq<Edge> {
    Seq::new(
        if a <= b {
            (b - a) as nat
        } else {
            0
        },
        |s: int| boundary(vertices, b - s, b - s - 1),
    )
}

/// The faces from the open edge on, with the part of the loop from `i` to `j` left.
/// Each face takes `d - 2` more edges of the loop, from the two sides in turn, and
/// leaves a chord open for the next.
pub open spec fn zigzag(
    vertices: Seq<usize>,
    d: int,
    i: int,
    j: int,
    open: Edge,
    low: bool,
) -> Seq<Seq<Edge>>
    decreases j - i,
{
    if d < 3 || j - i + 1 <= d {
        seq![seq![open] + arc(vertices, i, j)]
    } else if low {
        let chord = boundary(vertices, i + d - 2, j);
        seq![(seq![open] + arc(vertices, i, i + d - 2)).push(chord)] + zigzag(
            vertices,
            d,
            i + d - 2,
            j,
            chord,
            false,
        )
    } else {
        let chord = boundary(vertices, i, j - (d - 2));
        seq![(seq![open] + arc_back(vertices, j - (d - 2), j)).push(chord)] + zigzag(
            vertices,
            d,
            i,
            j - (d - 2),
            chord,
            true,
        )
    }
}

/// The loop's edges, the one back to its start last.
pub open spec fn loop_edges(vertices: Seq<usize>) -> Seq<Edge> {
    arc(vertices, 0, vertices.len() - 1).push(boundary(vertices, vertices.len() - 1, 0))
}

/// The sequence without an element that equals the one before it.
pub open spec fn without_repeats(s: Seq<Edge>) -> Seq<Edge>
    decreases s.len(),
{
    if s.len() <= 1 {
        s
    } else if s[s.len() - 1] == s[s.len() - 2] {
        without_repeats(s.drop_last())
    } else {
        without_repeats(s.drop_last()).push(s.last())
    }
}

/// The bound on the weight of a face that is in force.
pub open spec fn face_bound(d_c: usize) -> int {
    if d_c >= 3 {
        d_c as int
    } else {
        3
    }
}

/// The faces that a loop of vertices is cut into.
pub open spec fn faces_of(vertices: Seq<usize>, d_c: usize) -> Seq<Seq<Edge>> {
    let m = vertices.len();
    if m < 3 {
        Seq::empty()
    } else if m <= face_bound(d_c) {
        seq![without_repeats(loop_edges(vertices))]
    } else {
        zigzag(vertices, face_bound(d_c), 0, m - 1, boundary(vertices, 0, m - 1), true)
    }
}

fn whole_face(vertices: &Vec<usize>) -> (face: Vec<Edge>)
    requires
        vertices@.len() >= 3,
    ensures
        face@ == without_repeats(loop_edges(vertices@)),
{
    let m: usize = vertices.len();
    let ghost all = loop_edges(vertices@);
    let mut face: Vec<Edge> = Vec::new();
    let mut last: Edge = canonical_edge(vertices[0], vertices[1]);
    face.push(last);
    proof {
        assert(all.take(1) =~= seq![last]);
        assert(all[0] == last);
    }
    let mut s: usize = 1;
    while s < m
        invariant
            3 <= m == vertices@.len(),
            1 <= s <= m,
            all == loop_edges(vertices@),
            all.len() == m,
            face@ == without_repeats(all.take(s as int)),
            last == all[s - 1],
        decreases m - s,
    {
        let t: usize = if s + 1 < m {
            s + 1
        } else {
            0
        };
        let e = canonical_edge(vertices[s], vertices[t]);
        proof {
            assert(all[s as int] == e);
            assert(all.take(s + 1).drop_last() =~= all.take(s as int));
            assert(all.take(s + 1)[s as int] == e);
            assert(all.take(s + 1)[s - 1] == last);
        }
        if e.0 == last.0 && e.1 == last.1 {
        } else {
            face.push(e);
        }
        last = e;
        s = s + 1;
    }
    assert(all.take(m as int) =~= all);
    face
}

/// Push the edges along the loop from `a` to `b`.
fn push_arc(vertices: &Vec<usize>, a: usize, b: usize, face: &mut Vec<Edge>)
    requires
        a <= b < vertices@.len(),
    ensures
        final(face)@ == old(face)@ + arc(vertices@, a as int, b as int),
{
    let ghost before = face@;
    let ghost all = arc(vertices@, a as int, b as int);
    assert(all.take(0) =~= Seq::empty());
    let mut s: usize = a;
    while s < b
        invariant
            a <= s <= b < vertices@.len(),
            all == arc(vertices@, a as int, b as int),
            face@ == before + all.take(s - a),
        decreases b - s,
    {
        face.push(canonical_edge(vertices[s], vertices[s + 1]));
        proof {
            assert(all.take(s - a + 1) =~= all.take(s - a).push(all[s - a]));
        }
        s = s + 1;
    }
    assert(all.take(all.len() as int) =~= all);
}

/// Push the edges along the loop from `b` back to `a`.
fn push_arc_back(vertices: &Vec<usize>, a: usize, b: usize, face: &mut Vec<Edge>)
    requires
        a <= b < vertices@.len(),
    ensures
        final(face)@ == old(face)@ + arc_back(vertices@, a as int, b as int),
{
    let ghost before = face@;
    let ghost all = arc_back(vertices@, a as int, b as int);
    assert(all.take(0) =~= Seq::empty());
    let mut s: usize = b;
    while s > a
        invariant
            a <= s <= b < vertices@.len(),
            all == arc_back(vertices@, a as int, b as int),
            face@ == before + all.take(b - s),
        decreases s - a,
    {
        face.push(canonical_edge(vertices[s], vertices[s - 1]));
        proof {
            assert(all.take(b - s + 1) =~= all.take(b - s).push(all[b - s]));
        }
        s = s - 1;
    }
    assert(all.take(all.len() as int) =~= all);
}

/// Cut a loop of vertices into faces of weight at most `d_c` (three at least). Two
/// pointers sweep inward from the loop's ends, alternating sides, so that the chords
/// are spread over the vertices.
pub fn zigzag_faces(vertices: &Vec<usize>, d_c: usize) -> (faces: Vec<Vec<Edge>>)
    ensures
        cycle_views(faces@) == faces_of(vertices@, d_c),
{
    let d: usize = if d_c >= 3 {
        d_c
    } else {
        3
    };
    let m: usize = vertices.len();
    let mut faces: Vec<Vec<Edge>> = Vec::new();
    if m < 3 {
        assert(cycle_views(faces@) =~= Seq::<Seq<Edge>>::empty());
        return faces;
    }
    if m <= d {
        faces.push(whole_face(vertices));
        assert(cycle_views(faces@) =~= faces_of(vertices@, d_c));
        return faces;
    }
    let ghost goal = faces_of(vertices@, d_c);
    let mut i: usize = 0;
    let mut j: usize = m - 1;
    let mut open: Edge = canonical_edge(vertices[i], vertices[j]);
    let mut low = true;
    assert(cycle_views(faces@) + goal =~= goal);
    while j - i + 1 > d
        invariant
            3 <= d < m,
            m == vertices@.len(),
            i < j < m,
            goal == cycle_views(faces@) + zigzag(
                vertices@,
                d as int,
                i as int,
                j as int,
                open,
                low,
            ),
        decreases j - i,
    {
        let ghost faces0 = cycle_views(faces@);
        let ghost rest = zigzag(vertices@, d as int, i as int, j as int, open, low);
        let mut face: Vec<Edge> = Vec::new();
        face.push(open);
        assert(face@ =~= seq![open]);
        let chord: Edge;
        if low {
            push_arc(vertices, i, i + (d - 2), &mut face);
            chord = canonical_edge(vertices[i + (d - 2)], vertices[j]);
            i = i + (d - 2);
        } else {
            push_arc_back(vertices, j - (d - 2), j, &mut face);
            chord = canonical_edge(vertices[i], vertices[j - (d - 2)]);
            j = j - (d - 2);
        }
        face.push(chord);
        open = chord;
        low = !low;
        proof {
            let next = zigzag(vertices@, d as int, i as int, j as int, open, low);
            assert(rest =~= seq![face@] + next);
            assert(cycle_views(faces@.push(face)) =~= faces0.push(face@));
            assert(faces0 + rest =~= faces0.push(face@) + next);
        }
        faces.push(face);
    }
    let ghost faces0 = cycle_views(faces@);
    let mut face: Vec<Edge> = Vec::new();
    face.push(open);
    assert(face@ =~= seq![open]);
    push_arc(vertices, i, j, &mut face);
    proof {
        assert(zigzag(vertices@, d as int, i as int, j as int, open, low) =~= seq![face@]);
        assert(cycle_views(faces@.push(face)) =~= faces0.push(face@));
        assert(faces0 + seq![face@] =~= faces0.push(face@));
    }
    faces.push(face);
    faces
}

// Laws of the faces.
proof fn lemma_load_add(a: Seq<Edge>, b: Seq<Edge>, e: Edge)
    ensures
        edge_load(a + b, e) == edge_load(a, e) + edge_load(b, e),
    decreases b.len(),
{
    if b.len() == 0 {
        assert(a + b =~= a);
    } else {
        assert((a + b).drop_last() =~= a + b.drop_last());
        lemma_load_add(a, b.drop_last(), e);
    }
}

proof fn lemma_load_one(a: Edge, e: Edge)
    ensures
        edge_load(seq![a], e) == if a == e {
            1nat
        } else {
            0
        },
{
    assert(seq![a].drop_last() =~= Seq::<Edge>::empty());
    assert(edge_load(Seq::<Edge>::empty(), e) == 0);
}

proof fn lemma_layer_add(a: Seq<Seq<Edge>>, b: Seq<Seq<Edge>>, e: Edge)
    ensures
        layer_load(a + b, e) == layer_load(a, e) + layer_load(b, e),
    decreases b.len(),
{
    if b.len() == 0 {
        assert(a + b =~= a);
    } else {
        assert((a + b).drop_last() =~= a + b.drop_last());
        lemma_layer_add(a, b.drop_last(), e);
    }
}

proof fn lemma_layer_one(a: Seq<Edge>, e: Edge)
    ensures
        layer_load(seq![a], e) == edge_load(a, e),
{
    assert(seq![a].drop_last() =~= Seq::<Seq<Edge>>::empty());
    assert(layer_load(Seq::<Seq<Edge>>::empty(), e) == 0);
}

proof fn lemma_arc_split(vertices: Seq<usize>, a: int, b: int, c: int, e: Edge)
    requires
        a <= b <= c,
    ensures
        edge_load(arc(vertices, a, c), e) == edge_load(arc(vertices, a, b), e) + edge_load(
            arc(vertices, b, c),
            e,
        ),
{
    assert(arc(vertices, a, c) =~= arc(vertices, a, b) + arc(vertices, b, c));
    lemma_load_add(arc(vertices, a, b), arc(vertices, b, c), e);
}

proof fn lemma_arc_back(vertices: Seq<usize>, a: int, b: int, e: Edge)
    requires
        a <= b,
    ensures
        edge_load(arc_back(vertices, a, b), e) == edge_load(arc(vertices, a, b), e),
    decreases b - a,
{
    if a < b {
        lemma_arc_back(vertices, a + 1, b, e);
        let back = arc_back(vertices, a, b);
        assert(back =~= arc_back(vertices, a + 1, b).push(boundary(vertices, a + 1, a)));
        assert(back.drop_last() =~= arc_back(vertices, a + 1, b));
        lemma_arc_split(vertices, a, a + 1, b, e);
        assert(arc(vertices, a, a + 1) =~= seq![boundary(vertices, a, a + 1)]);
        lemma_load_one(boundary(vertices, a, a + 1), e);
        assert(boundary(vertices, a + 1, a) == boundary(vertices, a, a + 1));
    } else {
        assert(arc_back(vertices, a, b) =~= Seq::<Edge>::empty());
        assert(arc(vertices, a, b) =~= Seq::<Edge>::empty());
    }
}

proof fn lemma_zigzag(
    vertices: Seq<usize>,
    d: int,
    i: int,
    j: int,
    open: Edge,
    low: bool,
    e: Edge,
)
    requires
        d >= 3,
        0 <= i < j < vertices.len(),
    ensures
        layer_load(zigzag(vertices, d, i, j, open, low), e) % 2 == (edge_load(seq![open], e)
            + edge_load(arc(vertices, i, j), e)) % 2,
        forall|k: int|
            0 <= k < zigzag(vertices, d, i, j, open, low).len() ==> (
            #[trigger] zigzag(vertices, d, i, j, open, low)[k]).len() <= d,
    decreases j - i,
{
    let all = zigzag(vertices, d, i, j, open, low);
    if j - i + 1 <= d {
        let face = seq![open] + arc(vertices, i, j);
        lemma_load_add(seq![open], arc(vertices, i, j), e);
        lemma_layer_one(face, e);
        assert(all[0] == face);
    } else {
        let step = d - 2;
        let (chord, piece, i1, j1) = if low {
            (boundary(vertices, i + step, j), arc(vertices, i, i + step), i + step, j)
        } else {
            (boundary(vertices, i, j - step), arc_back(vertices, j - step, j), i, j - step)
        };
        let face = (seq![open] + piece).push(chord);
        let rest = zigzag(vertices, d, i1, j1, chord, !low);
        assert(all =~= seq![face] + rest);
        lemma_zigzag(vertices, d, i1, j1, chord, !low, e);
        lemma_layer_add(seq![face], rest, e);
        lemma_layer_one(face, e);
        assert(face =~= (seq![open] + piece) + seq![chord]);
        lemma_load_add(seq![open] + piece, seq![chord], e);
        lemma_load_add(seq![open], piece, e);
        if low {
            lemma_arc_split(vertices, i, i + step, j, e);
        } else {
            lemma_arc_back(vertices, j - step, j, e);
            lemma_arc_split(vertices, i, j - step, j, e);
        }
        assert forall|k: int| 0 <= k < all.len() implies (#[trigger] all[k]).len() <= d by {
            if k > 0 {
                assert(all[k] == rest[k - 1]);
            }
        }
    }
}

/// The faces of a loop are within the weight bound.
pub proof fn law_faces_are_bounded(vertices: Seq<usize>, d_c: usize)
    ensures
        forall|k: int|
            0 <= k < faces_of(vertices, d_c).len() ==> (#[trigger] faces_of(vertices, d_c)[k]).len()
                <= face_bound(d_c),
{
    let m = vertices.len();
    let d = face_bound(d_c);
    if m >= 3 {
        if m <= d {
            lemma_repeats_len(loop_edges(vertices));
        } else {
            lemma_zigzag(vertices, d, 0, m - 1, boundary(vertices, 0, m - 1), true, (0, 0));
        }
    }
}

proof fn lemma_repeats_len(s: Seq<Edge>)
    ensures
        without_repeats(s).len() <= s.len(),
    decreases s.len(),
{
    if s.len() > 1 {
        lemma_repeats_len(s.drop_last());
    }
}

proof fn lemma_no_repeats(s: Seq<Edge>)
    requires
        forall|i: int| 0 < i < s.len() ==> #[trigger] s[i] != s[i - 1],
    ensures
        without_repeats(s) == s,
    decreases s.len(),
{
    if s.len() > 1 {
        let front = s.drop_last();
        assert forall|i: int| 0 < i < front.len() implies #[trigger] front[i] != front[i - 1] by {
            assert(front[i] == s[i]);
        }
        lemma_no_repeats(front);
        assert(front.push(s.last()) =~= s);
    }
}

/// The faces of a loop add up to it: an edge is on an odd number of faces exactly
/// where it is an edge of the loop, so every chord borders two faces.
pub proof fn law_faces_add_up(vertices: Seq<usize>, d_c: usize, e: Edge)
    requires
        vertices.no_duplicates(),
        vertices.len() >= 3,
    ensures
        layer_load(faces_of(vertices, d_c), e) % 2 == edge_load(loop_edges(vertices), e) % 2,
{
    let m = vertices.len() as int;
    let d = face_bound(d_c);
    let around = loop_edges(vertices);
    if m <= d {
        assert forall|i: int| 0 < i < around.len() implies #[trigger] around[i] != around[i - 1] by {
            let t = if i + 1 < m {
                i + 1
            } else {
                0
            };
            assert(around[i] == canonical(vertices[i], vertices[t]));
            assert(around[i - 1] == canonical(vertices[i - 1], vertices[i]));
            assert(vertices[t] != vertices[i - 1]);
            assert(vertices[i] != vertices[i - 1]);
        }
        lemma_no_repeats(around);
        lemma_layer_one(around, e);
    } else {
        let open = boundary(vertices, 0, m - 1);
        lemma_zigzag(vertices, d, 0, m - 1, open, true, e);
        assert(boundary(vertices, m - 1, 0) == open);
        assert(around =~= arc(vertices, 0, m - 1) + seq![open]);
        lemma_load_add(arc(vertices, 0, m - 1), seq![open], e);
    }
}

/// The listed edges have different ends, and no two join the same vertices.
pub open spec fn simple_list(list: Seq<Edge>) -> bool {
    &&& forall|i: int| 0 <= i < list.len() ==> (#[trigger] list[i]).0 != list[i].1
    &&& forall|i: int, j: int|
        0 <= i < j < list.len() ==> #[trigger] list[i] != #[trigger] list[j] && list[i] != (
            list[j].1,
            list[j].0,
        )
}

/// Every vertex has an even number of edge ends: the listed edges form cycles.
pub open spec fn closed_list(list: Seq<Edge>) -> bool {
    forall|x: usize| #[trigger] ends_at(list, x) % 2 == 0
}

/// 1 where the vertex at position `a` is `x`.
spec fn here(vertices: Seq<usize>, a: int, x: usize) -> int {
    if vertices[a] == x {
        1
    } else {
        0
    }
}

proof fn lemma_boundary_ends(vertices: Seq<usize>, a: int, b: int, x: usize)
    ensures
        edge_ends(boundary(vertices, a, b), x) == here(vertices, a, x) + here(vertices, b, x),
{
}

/// Along an arc all ends pair up but for the two outer ones.
proof fn lemma_arc_ends(vertices: Seq<usize>, a: int, b: int, x: usize)
    requires
        a <= b,
    ensures
        (ends_at(arc(vertices, a, b), x) + here(vertices, a, x) + here(vertices, b, x)) % 2 == 0,
        (ends_at(arc_back(vertices, a, b), x) + here(vertices, a, x) + here(vertices, b, x)) % 2
            == 0,
    decreases b - a,
{
    let s = arc(vertices, a, b);
    let t = arc_back(vertices, a, b);
    if a < b {
        lemma_arc_ends(vertices, a, b - 1, x);
        lemma_arc_ends(vertices, a + 1, b, x);
        assert(s.drop_last() =~= arc(vertices, a, b - 1));
        assert(s.last() == boundary(vertices, b - 1, b));
        lemma_boundary_ends(vertices, b - 1, b, x);
        assert(t.drop_last() =~= arc_back(vertices, a + 1, b));
        assert(t.last() == boundary(vertices, a + 1, a));
        lemma_boundary_ends(vertices, a + 1, a, x);
    } else {
        assert(s =~= Seq::<Edge>::empty());
        assert(t =~= Seq::<Edge>::empty());
    }
}

/// Edges between different pairs of positions join different vertices.
proof fn lemma_boundaries_differ(vertices: Seq<usize>, a: int, b: int, c: int, d: int)
    requires
        vertices.no_duplicates(),
        0 <= a < vertices.len(),
        0 <= b < vertices.len(),
        0 <= c < vertices.len(),
        0 <= d < vertices.len(),
        a != b,
    ensures
        boundary(vertices, a, b).0 != boundary(vertices, a, b).1,
        !(a == c && b == d) && !(a == d && b == c) ==> boundary(vertices, a, b) != boundary(
            vertices,
            c,
            d,
        ) && boundary(vertices, a, b) != (boundary(vertices, c, d).1, boundary(vertices, c, d).0),
{
}

/// A face between an open edge, an arc and perhaps a chord is a cycle.
proof fn lemma_face_is_cycle(
    vertices: Seq<usize>,
    i: int,
    j: int,
    a: int,
    b: int,
    back: bool,
    chord: Option<(int, int)>,
    face: Seq<Edge>,
)
    requires
        vertices.no_duplicates(),
        0 <= i <= a < b <= j < vertices.len(),
        j - i >= 2,
        face == match chord {
            Some((c, d)) => (seq![boundary(vertices, i, j)] + (if back {
                arc_back(vertices, a, b)
            } else {
                arc(vertices, a, b)
            })).push(boundary(vertices, c, d)),
            None => seq![boundary(vertices, i, j)] + arc(vertices, a, b),
        },
        chord is None ==> a == i && b == j && !back,
        chord matches Some((c, d)) ==> (if back {
            b == j && c == i && d == a && i < a
        } else {
            a == i && c == b && d == j && b < j
        }),
    ensures
        simple_list(face),
        closed_list(face),
{
    let open = boundary(vertices, i, j);
    let piece = if back {
        arc_back(vertices, a, b)
    } else {
        arc(vertices, a, b)
    };
    let closing: (int, int) = match chord {
        Some(ends) => ends,
        None => (i, j),
    };
    let pos = |k: int|
        if k == 0 {
            (i, j)
        } else if k <= b - a {
            if back {
                (b - (k - 1), b - (k - 1) - 1)
            } else {
                (a + (k - 1), a + (k - 1) + 1)
            }
        } else {
            closing
        };
    assert forall|k: int| 0 <= k < face.len() implies #[trigger] face[k] == boundary(
        vertices,
        pos(k).0,
        pos(k).1,
    ) by {}
    assert forall|k: int| 0 <= k < face.len() implies (#[trigger] face[k]).0 != face[k].1 by {
        let (p, q) = pos(k);
        lemma_boundaries_differ(vertices, p, q, p, q);
    }
    assert forall|k: int, l: int| 0 <= k < l < face.len() implies #[trigger] face[k]
        != #[trigger] face[l] && face[k] != (face[l].1, face[l].0) by {
        let (p, q) = pos(k);
        let (r, t) = pos(l);
        lemma_boundaries_differ(vertices, p, q, r, t);
    }
    assert forall|x: usize| #[trigger] ends_at(face, x) % 2 == 0 by {
        lemma_boundary_ends(vertices, i, j, x);
        lemma_arc_ends(vertices, a, b, x);
        lemma_ends_add(seq![open], piece, x);
        assert(seq![open].drop_last() =~= Seq::<Edge>::empty());
        assert(ends_at(seq![open], x) == edge_ends(open, x)) by {
            reveal_with_fuel(ends_at, 2);
        }
        if let Some((c, d)) = chord {
            lemma_boundary_ends(vertices, c, d, x);
            lemma_ends_push(seq![open] + piece, boundary(vertices, c, d), x);
        }
    }
}

proof fn lemma_zigzag_cycles(vertices: Seq<usize>, d: int, i: int, j: int, low: bool)
    requires
        vertices.no_duplicates(),
        d >= 3,
        0 <= i,
        j < vertices.len(),
        j - i >= 2,
    ensures
        forall|k: int|
            #![trigger zigzag(vertices, d, i, j, boundary(vertices, i, j), low)[k]]
            0 <= k < zigzag(vertices, d, i, j, boundary(vertices, i, j), low).len() ==> simple_list(
                zigzag(vertices, d, i, j, boundary(vertices, i, j), low)[k],
            ) && closed_list(zigzag(vertices, d, i, j, boundary(vertices, i, j), low)[k]),
    decreases j - i,
{
    let open = boundary(vertices, i, j);
    let all = zigzag(vertices, d, i, j, open, low);
    if j - i + 1 <= d {
        let face = seq![open] + arc(vertices, i, j);
        assert(all =~= seq![face]);
        lemma_face_is_cycle(vertices, i, j, i, j, false, None, face);
    } else if low {
        let m = i + d - 2;
        let face = (seq![open] + arc(vertices, i, m)).push(boundary(vertices, m, j));
        let rest = zigzag(vertices, d, m, j, boundary(vertices, m, j), false);
        lemma_face_is_cycle(vertices, i, j, i, m, false, Some((m, j)), face);
        lemma_zigzag_cycles(vertices, d, m, j, false);
        assert(all =~= seq![face] + rest);
        assert forall|k: int| #![trigger all[k]] 0 <= k < all.len() implies simple_list(all[k])
            && closed_list(all[k]) by {
            if k > 0 {
                assert(all[k] == rest[k - 1]);
            }
        }
    } else {
        let m = j - (d - 2);
        let face = (seq![open] + arc_back(vertices, m, j)).push(boundary(vertices, i, m));
        let rest = zigzag(vertices, d, i, m, boundary(vertices, i, m), true);
        lemma_face_is_cycle(vertices, i, j, m, j, true, Some((i, m)), face);
        lemma_zigzag_cycles(vertices, d, i, m, true);
        assert(all =~= seq![face] + rest);
        assert forall|k: int| #![trigger all[k]] 0 <= k < all.len() implies simple_list(all[k])
            && closed_list(all[k]) by {
            if k > 0 {
                assert(all[k] == rest[k - 1]);
            }
        }
    }
}

/// Every face of a loop is a cycle.
pub proof fn law_faces_are_cycles(vertices: Seq<usize>, d_c: usize)
    requires
        vertices.no_duplicates(),
    ensures
        forall|k: int|
            0 <= k < faces_of(vertices, d_c).len() ==> simple_list(
                #[trigger] faces_of(vertices, d_c)[k],
            ) && closed_list(faces_of(vertices, d_c)[k]),
{
    let m = vertices.len() as int;
    let d = face_bound(d_c);
    if m >= 3 && m <= d {
        let around = loop_edges(vertices);
        let pos = |k: int| (k, if k + 1 < m { k + 1 } else { 0 });
        assert forall|k: int| 0 <= k < m implies #[trigger] around[k] == boundary(
            vertices,
            pos(k).0,
            pos(k).1,
        ) by {}
        assert forall|k: int| 0 <= k < m implies (#[trigger] around[k]).0 != around[k].1 by {
            lemma_boundaries_differ(vertices, pos(k).0, pos(k).1, 0, 0);
        }
        assert forall|k: int, l: int| 0 <= k < l < m implies #[trigger] around[k]
            != #[trigger] around[l] && around[k] != (around[l].1, around[l].0) by {
            lemma_boundaries_differ(vertices, pos(k).0, pos(k).1, pos(l).0, pos(l).1);
        }
        assert forall|i: int| 0 < i < around.len() implies #[trigger] around[i] != around[i - 1] by {
            assert(around[i - 1] != around[i]);
        }
        lemma_no_repeats(around);
        assert forall|x: usize| #[trigger] ends_at(around, x) % 2 == 0 by {
            lemma_arc_ends(vertices, 0, m - 1, x);
            lemma_boundary_ends(vertices, m - 1, 0, x);
            lemma_ends_push(arc(vertices, 0, m - 1), boundary(vertices, m - 1, 0), x);
        }
    } else if m >= 3 {
        lemma_zigzag_cycles(vertices, d, 0, m - 1, true);
    }
}

// ---------------------------------------------------------------------------
// Cellulation
// ---------------------------------------------------------------------------
/// What the cellulation has made so far: the edges of the graph, the cycle checks,
/// and the chords among the edges.
#[verifier::ext_equal]
pub struct CellModel {
    pub edges: Seq<Edge>,
    pub checks: Seq<Seq<Edge>>,
    pub chords: Seq<Edge>,
}

/// A face edge that is neither on the cycle nor in the graph becomes a chord.
pub open spec fn chord_added(s: CellModel, cycle: Seq<Edge>, e: Edge) -> CellModel {
    if cycle.contains(e) || joined(s.edges, e.0, e.1) {
        s
    } else {
        CellModel { edges: s.edges.push(e), checks: s.checks, chords: s.chords.push(e) }
    }
}

pub open spec fn chords_added(s: CellModel, cycle: Seq<Edge>, face: Seq<Edge>) -> CellModel
    decreases face.len(),
{
    if face.len() == 0 {
        s
    } else {
        chord_added(chords_added(s, cycle, face.drop_last()), cycle, face.last())
    }
}

/// The faces of a cycle become checks, with their chords added to the graph.
pub open spec fn faces_cut(s: CellModel, cycle: Seq<Edge>, faces: Seq<Seq<Edge>>) -> CellModel
    decreases faces.len(),
{
    if faces.len() == 0 {
        s
    } else {
        let t = chords_added(faces_cut(s, cycle, faces.drop_last()), cycle, faces.last());
        CellModel { edges: t.edges, checks: t.checks.push(faces.last()), chords: t.chords }
    }
}

/// The walk round a cycle.
pub open spec fn order_of(cycle: Seq<Edge>) -> Seq<usize> {
    choose|order: Seq<usize>| vertex_order(cycle, order)
}

pub open spec fn cycles_cut(s: CellModel, cycles: Seq<Seq<Edge>>, d_c: usize) -> CellModel
    decreases cycles.len(),
{
    if cycles.len() == 0 {
        s
    } else {
        faces_cut(
            cycles_cut(s, cycles.drop_last(), d_c),
            cycles.last(),
            faces_of(order_of(cycles.last()), d_c),
        )
    }
}

pub open spec fn levels_cut(s: CellModel, levels: Seq<Seq<Seq<Edge>>>, d_c: usize) -> CellModel
    decreases levels.len(),
{
    if levels.len() == 0 {
        s
    } else {
        cycles_cut(levels_cut(s, levels.drop_last(), d_c), levels.last(), d_c)
    }
}

/// The thickened graph with all its cycles cut into faces.
pub open spec fn cellulated(g: GraphModel, levels: Seq<Seq<Seq<Edge>>>, d_c: usize) -> CellModel {
    levels_cut(
        (CellModel { edges: g.edges, checks: Seq::empty(), chords: Seq::empty() }),
        levels,
        d_c,
    )
}

proof fn lemma_chords_grow(s: CellModel, cycle: Seq<Edge>, face: Seq<Edge>, k: int)
    requires
        0 <= k <= face.len(),
    ensures
        chords_added(s, cycle, face.take(k)).edges.len() <= chords_added(
            s,
            cycle,
            face,
        ).edges.len(),
        s.edges.len() <= chords_added(s, cycle, face).edges.len(),
    decreases face.len(),
{
    if face.len() > 0 {
        if k < face.len() {
            lemma_chords_grow(s, cycle, face.drop_last(), k);
            assert(face.drop_last().take(k) =~= face.take(k));
        } else {
            lemma_chords_grow(s, cycle, face.drop_last(), 0);
            assert(face.take(k) =~= face);
        }
    } else {
        assert(face.take(k) =~= face);
    }
}

proof fn lemma_faces_grow(s: CellModel, cycle: Seq<Edge>, faces: Seq<Seq<Edge>>, k: int)
    requires
        0 <= k <= faces.len(),
    ensures
        faces_cut(s, cycle, faces.take(k)).edges.len() <= faces_cut(s, cycle, faces).edges.len(),
        s.edges.len() <= faces_cut(s, cycle, faces).edges.len(),
    decreases faces.len(),
{
    if faces.len() > 0 {
        lemma_chords_grow(faces_cut(s, cycle, faces.drop_last()), cycle, faces.last(), 0);
        if k < faces.len() {
            lemma_faces_grow(s, cycle, faces.drop_last(), k);
            assert(faces.drop_last().take(k) =~= faces.take(k));
        } else {
            lemma_faces_grow(s, cycle, faces.drop_last(), 0);
            assert(faces.take(k) =~= faces);
        }
    } else {
        assert(faces.take(k) =~= faces);
    }
}

proof fn lemma_cycles_grow(s: CellModel, cycles: Seq<Seq<Edge>>, d_c: usize, k: int)
    requires
        0 <= k <= cycles.len(),
    ensures
        cycles_cut(s, cycles.take(k), d_c).edges.len() <= cycles_cut(s, cycles, d_c).edges.len(),
        s.edges.len() <= cycles_cut(s, cycles, d_c).edges.len(),
    decreases cycles.len(),
{
    if cycles.len() > 0 {
        lemma_faces_grow(
            cycles_cut(s, cycles.drop_last(), d_c),
            cycles.last(),
            faces_of(order_of(cycles.last()), d_c),
            0,
        );
        if k < cycles.len() {
            lemma_cycles_grow(s, cycles.drop_last(), d_c, k);
            assert(cycles.drop_last().take(k) =~= cycles.take(k));
        } else {
            lemma_cycles_grow(s, cycles.drop_last(), d_c, 0);
            assert(cycles.take(k) =~= cycles);
        }
    } else {
        assert(cycles.take(k) =~= cycles);
    }
}

proof fn lemma_levels_grow(s: CellModel, levels: Seq<Seq<Seq<Edge>>>, d_c: usize, k: int)
    requires
        0 <= k <= levels.len(),
    ensures
        levels_cut(s, levels.take(k), d_c).edges.len() <= levels_cut(s, levels, d_c).edges.len(),
    decreases levels.len(),
{
    if levels.len() > 0 && k < levels.len() {
        lemma_cycles_grow(levels_cut(s, levels.drop_last(), d_c), levels.last(), d_c, 0);
        lemma_levels_grow(s, levels.drop_last(), d_c, k);
        assert(levels.drop_last().take(k) =~= levels.take(k));
    } else {
        assert(levels.take(k) =~= levels);
    }
}

/// The cellulated ancilla graph, whose edges are qubits, with its cycle checks and
/// the chords that were added.
pub struct Cellulation {
    pub graph: AncillaGraph,
    pub checks: Vec<Vec<Edge>>,
    pub chords: Vec<Edge>,
}

impl View for Cellulation {
    type V = CellModel;

    open spec fn view(&self) -> CellModel {
        CellModel {
            edges: self.graph@.edges,
            checks: cycle_views(self.checks@),
            chords: self.chords@,
        }
    }
}

fn holds_edge(cycle: &Vec<Edge>, e: Edge) -> (r: bool)
    ensures
        r == cycle@.contains(e),
{
    let mut i: usize = 0;
    while i < cycle.len()
        invariant
            i <= cycle@.len(),
            forall|k: int| 0 <= k < i ==> #[trigger] cycle@[k] != e,
        decreases cycle@.len() - i,
    {
        let f = cycle[i];
        if f.0 == e.0 && f.1 == e.1 {
            assert(cycle@[i as int] == e);
            return true;
        }
        i = i + 1;
    }
    false
}

/// Both ends of all edges are below `n`.
spec fn ends_below(edges: Seq<Edge>, n: nat) -> bool {
    forall|i: int| 0 <= i < edges.len() ==> (#[trigger] edges[i]).0 < n && edges[i].1 < n
}

/// Add the chords of a face; `false` if there is no room for them.
fn add_chords(c: &mut Cellulation, cycle: &Vec<Edge>, face: &Vec<Edge>) -> (ok: bool)
    requires
        ends_below(face@, old(c).graph@.nodes),
    ensures
        final(c).graph@.nodes == old(c).graph@.nodes,
        ok ==> final(c)@ == chords_added(old(c)@, cycle@, face@),
        !ok ==> chords_added(old(c)@, cycle@, face@).edges.len() > u32::MAX,
{
    let ghost before = c@;
    let ghost nodes = c.graph@.nodes;
    let mut i: usize = 0;
    assert(face@.take(0) =~= Seq::empty());
    while i < face.len()
        invariant
            i <= face@.len(),
            before == old(c)@,
            nodes == old(c).graph@.nodes,
            c.graph@.nodes == nodes,
            ends_below(face@, nodes),
            c@ == chords_added(before, cycle@, face@.take(i as int)),
        decreases face@.len() - i,
    {
        let e = face[i];
        let ghost now = c@;
        proof {
            assert(face@.take(i + 1).drop_last() =~= face@.take(i as int));
            assert(face@[i as int] == e);
            lemma_edge_between(c.graph@.edges, e.0, e.1);
        }
        if !holds_edge(cycle, e) && c.graph.find_edge(e.0, e.1).is_none() {
            if c.graph.edge_count() >= u32::MAX as usize {
                proof {
                    lemma_chords_grow(before, cycle@, face@, i + 1);
                }
                return false;
            }
            c.graph.add_edge(e.0, e.1);
            c.chords.push(e);
        }
        assert(c@ =~= chord_added(now, cycle@, e));
        i = i + 1;
    }
    assert(face@.take(face@.len() as int) =~= face@);
    true
}

/// Cut a cycle along its faces; `false` if there is no room for the chords.
fn cut_faces(c: &mut Cellulation, cycle: &Vec<Edge>, faces: Vec<Vec<Edge>>) -> (ok: bool)
    requires
        forall|k: int|
            0 <= k < faces@.len() ==> ends_below((#[trigger] faces@[k])@, old(c).graph@.nodes),
    ensures
        final(c).graph@.nodes == old(c).graph@.nodes,
        ok ==> final(c)@ == faces_cut(old(c)@, cycle@, cycle_views(faces@)),
        !ok ==> faces_cut(old(c)@, cycle@, cycle_views(faces@)).edges.len() > u32::MAX,
{
    let ghost before = c@;
    let ghost nodes = c.graph@.nodes;
    let ghost all = cycle_views(faces@);
    let mut i: usize = 0;
    assert(all.take(0) =~= Seq::empty());
    while i < faces.len()
        invariant
            i <= faces@.len(),
            all == cycle_views(faces@),
            before == old(c)@,
            nodes == old(c).graph@.nodes,
            c.graph@.nodes == nodes,
            forall|k: int| 0 <= k < faces@.len() ==> ends_below((#[trigger] faces@[k])@, nodes),
            c@ == faces_cut(before, cycle@, all.take(i as int)),
        decreases faces@.len() - i,
    {
        let face = &faces[i];
        proof {
            assert(ends_below(faces@[i as int]@, nodes));
            assert(all.take(i + 1).drop_last() =~= all.take(i as int));
            assert(all.take(i + 1).last() == face@);
            lemma_faces_grow(before, cycle@, all, i + 1);
        }
        if !add_chords(c, cycle, face) {
            return false;
        }
        let ghost t = c@;
        let copy = copy_edges(face);
        assert(cycle_views(c.checks@.push(copy)) =~= cycle_views(c.checks@).push(face@));
        c.checks.push(copy);
        assert(c@ =~= (CellModel {
            edges: t.edges,
            checks: t.checks.push(face@),
            chords: t.chords,
        }));
        i = i + 1;
    }
    assert(all.take(all.len() as int) =~= all);
    true
}

proof fn lemma_faces_below(vertices: Seq<usize>, d_c: usize, n: nat)
    requires
        forall|i: int| 0 <= i < vertices.len() ==> #[trigger] vertices[i] < n,
    ensures
        forall|k: int|
            0 <= k < faces_of(vertices, d_c).len() ==> ends_below(
                #[trigger] faces_of(vertices, d_c)[k],
                n,
            ),
{
    let m = vertices.len() as int;
    let d = face_bound(d_c);
    if m >= 3 {
        if m <= d {
            let around = loop_edges(vertices);
            assert(ends_below(around, n)) by {
                assert forall|i: int| 0 <= i < around.len() implies (#[trigger] around[i]).0 < n
                    && around[i].1 < n by {
                    assert(vertices[i] < n);
                    let t = if i + 1 < m {
                        i + 1
                    } else {
                        0
                    };
                    assert(vertices[t] < n);
                }
            }
            lemma_repeats_below(around, n);
        } else {
            assert(vertices[0] < n && vertices[m - 1] < n);
            lemma_zigzag_below(vertices, d, 0, m - 1, boundary(vertices, 0, m - 1), true, n);
        }
    }
}

proof fn lemma_repeats_below(s: Seq<Edge>, n: nat)
    requires
        ends_below(s, n),
    ensures
        ends_below(without_repeats(s), n),
    decreases s.len(),
{
    if s.len() > 1 {
        let front = s.drop_last();
        assert(ends_below(front, n)) by {
            assert forall|i: int| 0 <= i < front.len() implies (#[trigger] front[i]).0 < n
                && front[i].1 < n by {
                assert(front[i] == s[i]);
            }
        }
        lemma_repeats_below(front, n);
        assert(s[s.len() - 1].0 < n && s[s.len() - 1].1 < n);
    }
}

proof fn lemma_zigzag_below(
    vertices: Seq<usize>,
    d: int,
    i: int,
    j: int,
    open: Edge,
    low: bool,
    n: nat,
)
    requires
        d >= 3,
        0 <= i < j < vertices.len(),
        forall|k: int| 0 <= k < vertices.len() ==> #[trigger] vertices[k] < n,
        open.0 < n,
        open.1 < n,
    ensures
        forall|k: int|
            0 <= k < zigzag(vertices, d, i, j, open, low).len() ==> ends_below(
                #[trigger] zigzag(vertices, d, i, j, open, low)[k],
                n,
            ),
    decreases j - i,
{
    let all = zigzag(vertices, d, i, j, open, low);
    assert forall|a: int, b: int|
        0 <= a < vertices.len() && 0 <= b < vertices.len() implies (#[trigger] boundary(
        vertices,
        a,
        b,
    )).0 < n && boundary(vertices, a, b).1 < n by {
        assert(vertices[a] < n && vertices[b] < n);
    }
    if j - i + 1 <= d {
        let face = seq![open] + arc(vertices, i, j);
        assert(all[0] == face);
        assert forall|k: int| 0 <= k < face.len() implies (#[trigger] face[k]).0 < n && face[k].1
            < n by {
            if k > 0 {
                assert(face[k] == boundary(vertices, i + k - 1, i + k));
            }
        }
    } else {
        let step = d - 2;
        let (chord, piece, i1, j1) = if low {
            (boundary(vertices, i + step, j), arc(vertices, i, i + step), i + step, j)
        } else {
            (boundary(vertices, i, j - step), arc_back(vertices, j - step, j), i, j - step)
        };
        let face = (seq![open] + piece).push(chord);
        let rest = zigzag(vertices, d, i1, j1, chord, !low);
        assert(all =~= seq![face] + rest);
        lemma_zigzag_below(vertices, d, i1, j1, chord, !low, n);
        assert(ends_below(face, n)) by {
            assert forall|k: int| 0 <= k < face.len() implies (#[trigger] face[k]).0 < n
                && face[k].1 < n by {
                if 0 < k < face.len() - 1 {
                    if low {
                        assert(face[k] == boundary(vertices, i + k - 1, i + k));
                    } else {
                        assert(face[k] == boundary(vertices, j - (k - 1), j - k));
                    }
                }
            }
        }
        assert forall|k: int| 0 <= k < all.len() implies ends_below(#[trigger] all[k], n) by {
            if k > 0 {
                assert(all[k] == rest[k - 1]);
            }
        }
    }
}

proof fn lemma_no_ends(cycle: Seq<Edge>, n: nat, x: usize)
    requires
        ends_below(cycle, n),
        x >= n,
    ensures
        ends_at(cycle, x) == 0,
    decreases cycle.len(),
{
    if cycle.len() > 0 {
        let front = cycle.drop_last();
        assert(ends_below(front, n)) by {
            assert forall|i: int| 0 <= i < front.len() implies (#[trigger] front[i]).0 < n
                && front[i].1 < n by {
                assert(front[i] == cycle[i]);
            }
        }
        lemma_no_ends(front, n, x);
        assert(cycle[cycle.len() - 1].0 < n && cycle[cycle.len() - 1].1 < n);
    }
}

/// Every cycle is closed and runs along vertices below `n`.
pub open spec fn levels_ok(levels: Seq<Seq<Seq<Edge>>>, n: nat) -> bool {
    &&& forall|r: int, k: int|
        #![trigger levels[r][k]]
        0 <= r < levels.len() && 0 <= k < levels[r].len() ==> two_regular(levels[r][k])
    &&& cycles_below(levels, n)
}

/// Cut one cycle.
fn cut_cycle(c: &mut Cellulation, cycle: &Vec<Edge>, d_c: usize) -> (ok: bool)
    requires
        two_regular(cycle@),
        ends_below(cycle@, old(c).graph@.nodes),
    ensures
        final(c).graph@.nodes == old(c).graph@.nodes,
        ok ==> final(c)@ == faces_cut(old(c)@, cycle@, faces_of(order_of(cycle@), d_c)),
        !ok ==> faces_cut(old(c)@, cycle@, faces_of(order_of(cycle@), d_c)).edges.len() > u32::MAX,
{
    let order = cycle_vertex_order(cycle);
    let ghost n = c.graph@.nodes;
    proof {
        lemma_order_unique(cycle@, order@, order_of(cycle@));
        assert forall|i: int| 0 <= i < order@.len() implies #[trigger] order@[i] < n by {
            if order@[i] >= n {
                lemma_no_ends(cycle@, n, order@[i]);
            }
        }
        lemma_faces_below(order@, d_c, n);
    }
    let faces = zigzag_faces(&order, d_c);
    proof {
        assert forall|k: int| 0 <= k < faces@.len() implies ends_below((#[trigger] faces@[k])@, n) by {
            assert(cycle_views(faces@)[k] == faces@[k]@);
        }
    }
    cut_faces(c, cycle, faces)
}

/// Cellulation of the thickened graph: every cycle is cut into faces of weight at
/// most `max_check_degree` (three at least), which become the cycle checks, and the
/// chords become edges. `None` if the edges are too many to number.
pub fn cellulate(thickened: &ThickenedGraph, max_check_degree: usize) -> (r: Option<Cellulation>)
    requires
        levels_ok(layer_views(thickened.level_cycles@), thickened.graph@.nodes),
    ensures
        ({
            let goal = cellulated(
                thickened.graph@,
                layer_views(thickened.level_cycles@),
                max_check_degree,
            );
            &&& r is Some <==> goal.edges.len() <= u32::MAX
            &&& r matches Some(c) ==> c@ == goal && c.graph@.nodes == thickened.graph@.nodes
        }),
{
    let d_c: usize = max_check_degree;
    let ghost levels = layer_views(thickened.level_cycles@);
    let ghost n = thickened.graph@.nodes;
    let mut c = Cellulation {
        graph: thickened.graph.clone(),
        checks: Vec::new(),
        chords: Vec::new(),
    };
    let ghost start = c@;
    assert(cycle_views(c.checks@) =~= Seq::<Seq<Edge>>::empty());
    assert(levels.take(0) =~= Seq::empty());
    let mut r: usize = 0;
    while r < thickened.level_cycles.len()
        invariant
            r <= thickened.level_cycles@.len(),
            levels == layer_views(thickened.level_cycles@),
            levels_ok(levels, n),
            c.graph@.nodes == n,
            n == thickened.graph@.nodes,
            start == (CellModel {
                edges: thickened.graph@.edges,
                checks: Seq::empty(),
                chords: Seq::empty(),
            }),
            c@ == levels_cut(start, levels.take(r as int), d_c),
            d_c == max_check_degree,
        decreases thickened.level_cycles@.len() - r,
    {
        let group = &thickened.level_cycles[r];
        let ghost before = c@;
        let ghost all = cycle_views(group@);
        proof {
            assert(levels[r as int] == all);
            assert(all.take(0) =~= Seq::empty());
            assert(levels.take(r + 1).drop_last() =~= levels.take(r as int));
            assert(levels.take(r + 1).last() == all);
            lemma_levels_grow(start, levels, d_c, r + 1);
        }
        let mut k: usize = 0;
        while k < group.len()
            invariant
                k <= group@.len(),
                r < levels.len(),
                levels == layer_views(thickened.level_cycles@),
                levels_ok(levels, n),
                levels[r as int] == all,
                all == cycle_views(group@),
                c.graph@.nodes == n,
                n == thickened.graph@.nodes,
                d_c == max_check_degree,
                start == (CellModel {
                    edges: thickened.graph@.edges,
                    checks: Seq::empty(),
                    chords: Seq::empty(),
                }),
                c@ == cycles_cut(before, all.take(k as int), d_c),
                cycles_cut(before, all, d_c).edges.len() <= levels_cut(
                    start,
                    levels,
                    d_c,
                ).edges.len(),
            decreases group@.len() - k,
        {
            let cycle = &group[k];
            proof {
                assert(levels[r as int][k as int] == cycle@);
                assert forall|i: int| 0 <= i < cycle@.len() implies (#[trigger] cycle@[i]).0 < n
                    && cycle@[i].1 < n by {
                    assert(levels[r as int][k as int][i] == cycle@[i]);
                }
                assert(all.take(k + 1).drop_last() =~= all.take(k as int));
                assert(all.take(k + 1).last() == cycle@);
                lemma_cycles_grow(before, all, d_c, k + 1);
            }
            if !cut_cycle(&mut c, cycle, d_c) {
                return None;
            }
            k = k + 1;
        }
        assert(all.take(all.len() as int) =~= all);
        r = r + 1;
    }
    assert(levels.take(levels.len() as int) =~= levels);
    let _edges: usize = c.graph.edge_count();
    Some(c)
}

// ---------------------------------------------------------------------------
// All edges that are listed exist
// ---------------------------------------------------------------------------
/// All these edges join vertices of the graph.
pub open spec fn all_joined(edges: Seq<Edge>, list: Seq<Edge>) -> bool {
    forall|i: int| 0 <= i < list.len() ==> joined(edges, (#[trigger] list[i]).0, list[i].1)
}

/// All edges of all lists join vertices of the graph.
pub open spec fn lists_joined(edges: Seq<Edge>, lists: Seq<Seq<Edge>>) -> bool {
    forall|k: int| 0 <= k < lists.len() ==> all_joined(edges, #[trigger] lists[k])
}

/// `more` has all edges of `edges` and perhaps more behind them.
pub open spec fn extends(edges: Seq<Edge>, more: Seq<Edge>) -> bool {
    edges.len() <= more.len() && more.take(edges.len() as int) == edges
}

pub proof fn lemma_joined_extended(edges: Seq<Edge>, more: Seq<Edge>, a: usize, b: usize)
    requires
        extends(edges, more),
        joined(edges, a, b),
    ensures
        joined(more, a, b),
{
    if edges.contains((a, b)) {
        let i = edges.index_of((a, b));
        assert(more.take(edges.len() as int)[i] == more[i]);
    } else {
        let i = edges.index_of((b, a));
        assert(more.take(edges.len() as int)[i] == more[i]);
    }
}

pub proof fn lemma_lists_extended(edges: Seq<Edge>, more: Seq<Edge>, lists: Seq<Seq<Edge>>)
    requires
        extends(edges, more),
        lists_joined(edges, lists),
    ensures
        lists_joined(more, lists),
{
    assert forall|k: int| 0 <= k < lists.len() implies all_joined(more, #[trigger] lists[k]) by {
        assert forall|i: int| 0 <= i < lists[k].len() implies joined(
            more,
            (#[trigger] lists[k][i]).0,
            lists[k][i].1,
        ) by {
            assert(all_joined(edges, lists[k]));
            lemma_joined_extended(edges, more, lists[k][i].0, lists[k][i].1);
        }
    }
}

proof fn lemma_extends_trans(a: Seq<Edge>, b: Seq<Edge>, c: Seq<Edge>)
    requires
        extends(a, b),
        extends(b, c),
    ensures
        extends(a, c),
{
    assert(c.take(a.len() as int) =~= b.take(a.len() as int)) by {
        assert forall|i: int| 0 <= i < a.len() implies c[i] == b[i] by {
            assert(c.take(b.len() as int)[i] == c[i]);
        }
    }
}

proof fn lemma_extends_push(a: Seq<Edge>, e: Edge)
    ensures
        extends(a, a.push(e)),
        extends(a, a),
        joined(a.push(e), e.0, e.1),
{
    assert(a.push(e).take(a.len() as int) =~= a);
    assert(a.take(a.len() as int) =~= a);
    assert(a.push(e)[a.len() as int] == e);
}

proof fn lemma_chords_joined(s: CellModel, cycle: Seq<Edge>, face: Seq<Edge>)
    requires
        all_joined(s.edges, cycle),
    ensures
        extends(s.edges, chords_added(s, cycle, face).edges),
        all_joined(chords_added(s, cycle, face).edges, face),
        chords_added(s, cycle, face).checks == s.checks,
    decreases face.len(),
{
    if face.len() == 0 {
        lemma_extends_push(s.edges, (0, 0));
    } else {
        let front = face.drop_last();
        let e = face.last();
        let mid = chords_added(s, cycle, front);
        lemma_chords_joined(s, cycle, front);
        let end = chord_added(mid, cycle, e);
        lemma_extends_push(mid.edges, e);
        assert(extends(mid.edges, end.edges));
        lemma_extends_trans(s.edges, mid.edges, end.edges);
        assert forall|i: int| 0 <= i < face.len() implies joined(
            end.edges,
            (#[trigger] face[i]).0,
            face[i].1,
        ) by {
            if i < front.len() {
                assert(front[i] == face[i]);
                lemma_joined_extended(mid.edges, end.edges, face[i].0, face[i].1);
            } else if cycle.contains(e) {
                let k = cycle.index_of(e);
                assert(joined(s.edges, cycle[k].0, cycle[k].1));
                lemma_joined_extended(s.edges, end.edges, e.0, e.1);
            }
        }
    }
}

proof fn lemma_faces_joined(s: CellModel, cycle: Seq<Edge>, faces: Seq<Seq<Edge>>)
    requires
        all_joined(s.edges, cycle),
        lists_joined(s.edges, s.checks),
    ensures
        extends(s.edges, faces_cut(s, cycle, faces).edges),
        lists_joined(faces_cut(s, cycle, faces).edges, faces_cut(s, cycle, faces).checks),
    decreases faces.len(),
{
    if faces.len() == 0 {
        lemma_extends_push(s.edges, (0, 0));
    } else {
        let front = faces.drop_last();
        let face = faces.last();
        let mid = faces_cut(s, cycle, front);
        lemma_faces_joined(s, cycle, front);
        assert(all_joined(mid.edges, cycle)) by {
            assert forall|i: int| 0 <= i < cycle.len() implies joined(
                mid.edges,
                (#[trigger] cycle[i]).0,
                cycle[i].1,
            ) by {
                lemma_joined_extended(s.edges, mid.edges, cycle[i].0, cycle[i].1);
            }
        }
        lemma_chords_joined(mid, cycle, face);
        let t = chords_added(mid, cycle, face);
        lemma_extends_trans(s.edges, mid.edges, t.edges);
        lemma_lists_extended(mid.edges, t.edges, mid.checks);
        let checks = t.checks.push(face);
        assert forall|k: int| 0 <= k < checks.len() implies all_joined(
            t.edges,
            #[trigger] checks[k],
        ) by {
            if k < t.checks.len() {
                assert(checks[k] == t.checks[k]);
            }
        }
    }
}

proof fn lemma_cycles_joined(s: CellModel, cycles: Seq<Seq<Edge>>, d_c: usize)
    requires
        lists_joined(s.edges, cycles),
        lists_joined(s.edges, s.checks),
    ensures
        extends(s.edges, cycles_cut(s, cycles, d_c).edges),
        lists_joined(cycles_cut(s, cycles, d_c).edges, cycles_cut(s, cycles, d_c).checks),
    decreases cycles.len(),
{
    if cycles.len() == 0 {
        lemma_extends_push(s.edges, (0, 0));
    } else {
        let front = cycles.drop_last();
        let cycle = cycles.last();
        assert(lists_joined(s.edges, front)) by {
            assert forall|k: int| 0 <= k < front.len() implies all_joined(
                s.edges,
                #[trigger] front[k],
            ) by {
                assert(front[k] == cycles[k]);
            }
        }
        let mid = cycles_cut(s, front, d_c);
        lemma_cycles_joined(s, front, d_c);
        assert(all_joined(s.edges, cycles[cycles.len() - 1]));
        assert(all_joined(mid.edges, cycle)) by {
            assert forall|i: int| 0 <= i < cycle.len() implies joined(
                mid.edges,
                (#[trigger] cycle[i]).0,
                cycle[i].1,
            ) by {
                lemma_joined_extended(s.edges, mid.edges, cycle[i].0, cycle[i].1);
            }
        }
        lemma_faces_joined(mid, cycle, faces_of(order_of(cycle), d_c));
        lemma_extends_trans(s.edges, mid.edges, cycles_cut(s, cycles, d_c).edges);
    }
}

proof fn lemma_levels_joined(s: CellModel, levels: Seq<Seq<Seq<Edge>>>, d_c: usize)
    requires
        forall|r: int| 0 <= r < levels.len() ==> lists_joined(s.edges, #[trigger] levels[r]),
        lists_joined(s.edges, s.checks),
    ensures
        extends(s.edges, levels_cut(s, levels, d_c).edges),
        lists_joined(levels_cut(s, levels, d_c).edges, levels_cut(s, levels, d_c).checks),
    decreases levels.len(),
{
    if levels.len() == 0 {
        lemma_extends_push(s.edges, (0, 0));
    } else {
        let front = levels.drop_last();
        assert forall|r: int| 0 <= r < front.len() implies lists_joined(
            s.edges,
            #[trigger] front[r],
        ) by {
            assert(front[r] == levels[r]);
        }
        let mid = levels_cut(s, front, d_c);
        lemma_levels_joined(s, front, d_c);
        assert(lists_joined(s.edges, levels[levels.len() - 1]));
        lemma_lists_extended(s.edges, mid.edges, levels.last());
        lemma_cycles_joined(mid, levels.last(), d_c);
        lemma_extends_trans(s.edges, mid.edges, levels_cut(s, levels, d_c).edges);
    }
}

/// Cellulation only adds edges, and every edge of a check is an edge of the result.
pub proof fn law_checks_are_edges(g: GraphModel, levels: Seq<Seq<Seq<Edge>>>, d_c: usize)
    requires
        forall|r: int| 0 <= r < levels.len() ==> lists_joined(g.edges, #[trigger] levels[r]),
    ensures
        extends(g.edges, cellulated(g, levels, d_c).edges),
        lists_joined(cellulated(g, levels, d_c).edges, cellulated(g, levels, d_c).checks),
{
    let s = CellModel {
        edges: g.edges,
        checks: Seq::<Seq<Edge>>::empty(),
        chords: Seq::<Edge>::empty(),
    };
    lemma_levels_joined(s, levels, d_c);
}

/// Every edge of the graph is there on every level.
pub proof fn lemma_horizontal_joined(
    edges: Seq<Edge>,
    base: nat,
    levels: nat,
    r: nat,
    a: usize,
    b: usize,
)
    requires
        joined(edges, a, b),
        r < levels,
    ensures
        joined(horizontal(edges, base, levels), thick_id(base, a, r), thick_id(base, b, r)),
    decreases levels,
{
    let all = horizontal(edges, base, levels);
    let below = horizontal(edges, base, (levels - 1) as nat);
    if r < levels - 1 {
        lemma_horizontal_joined(edges, base, (levels - 1) as nat, r, a, b);
        assert(all.take(below.len() as int) =~= below);
        lemma_joined_extended(below, all, thick_id(base, a, r), thick_id(base, b, r));
    } else {
        let i = if edges.contains((a, b)) {
            edges.index_of((a, b))
        } else {
            edges.index_of((b, a))
        };
        assert(edges[i] == (a, b) || edges[i] == (b, a));
        assert(all[below.len() + i] == thick_edge(base, edges[i], r));
    }
}

/// Every cycle of the graph is there on every level of the product.
pub proof fn law_cycles_on_levels(g: GraphModel, layers: Seq<Seq<Seq<Edge>>>, levels: nat)
    requires
        forall|r: int| 0 <= r < layers.len() ==> lists_joined(g.edges, #[trigger] layers[r]),
    ensures
        forall|r: int|
            0 <= r < levels ==> lists_joined(
                product(g, levels).edges,
                #[trigger] thick_cycles(g.nodes, layers, levels)[r],
            ),
{
    let base = g.nodes;
    let all = product(g, levels).edges;
    let across = horizontal(g.edges, base, levels);
    let moved = thick_cycles(base, layers, levels);
    assert(all.take(across.len() as int) =~= across);
    assert forall|r: int| 0 <= r < levels implies lists_joined(all, #[trigger] moved[r]) by {
        assert forall|k: int| 0 <= k < moved[r].len() implies all_joined(
            all,
            #[trigger] moved[r][k],
        ) by {
            let cycle = layers[r][k];
            assert(lists_joined(g.edges, layers[r]));
            assert(all_joined(g.edges, cycle));
            assert forall|i: int| 0 <= i < moved[r][k].len() implies joined(
                all,
                (#[trigger] moved[r][k][i]).0,
                moved[r][k][i].1,
            ) by {
                assert(joined(g.edges, cycle[i].0, cycle[i].1));
                let (a, b) = (thick_id(base, cycle[i].0, r as nat), thick_id(
                    base,
                    cycle[i].1,
                    r as nat,
                ));
                lemma_horizontal_joined(
                    g.edges,
                    base,
                    levels,
                    r as nat,
                    cycle[i].0,
                    cycle[i].1,
                );
                lemma_joined_extended(across, all, a, b);
                assert(moved[r][k][i] == canonical(a, b));
            }
        }
    }
}

} // verus!
