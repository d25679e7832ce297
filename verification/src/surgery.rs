//! Measurement graphs for logical operators, and bridges between them.

use rand::rngs::StdRng;
use vstd::prelude::*;

use crate::cellulation::{cellulate, thicken, Cellulation};
#[allow(unused_imports)]
use crate::cellulation::{
    all_joined, cellulated, horizontal, law_checks_are_edges, law_cycles_on_levels,
    law_thick_cycle_is_closed, lemma_horizontal_joined, lemma_joined_extended, level_count,
    levels_ok, lists_joined, product, product_fits, thick_cycles, thick_id, CellModel,
};
use crate::expander::{congestion_aware_expander, CongestionAwareExpander};
#[allow(unused_imports)]
use crate::expander::{
    all_placed, grown_in_full, grown_in_part, lemma_neighbours, load_bound, outgrown,
};
use crate::graph::{AncillaGraph, Edge};
#[allow(unused_imports)]
use crate::graph::{joined, neighbours_of, GraphModel};
use crate::graph_construction::{canonical_edge, copy_edges};
#[allow(unused_imports)]
use crate::graph_construction::{canonical, cycle_views, first_fit, two_regular};
use crate::pbc::{BlockLabel, CodeQubit, Pauli, PhysicalPauliString, PhysicalQubit};
use crate::random::seeded;
use crate::skiptree::skiptree_order;
#[allow(unused_imports)]
use crate::skiptree::{list_hop, list_near, lists_of, skip_order};

verus! {

// ---------------------------------------------------------------------------
// Path matchings
// ---------------------------------------------------------------------------
/// A site of one block: a qubit and the Pauli on it.
pub type Site = (PhysicalQubit, Pauli);

/// The Pauli on the first site of `q`.
pub open spec fn first_pauli(sites: Seq<Site>, q: PhysicalQubit) -> Option<Pauli>
    decreases sites.len(),
{
    if sites.len() == 0 {
        None
    } else if sites[0].0 == q {
        Some(sites[0].1)
    } else {
        first_pauli(sites.skip(1), q)
    }
}

/// The last position of `q` among the sites.
pub open spec fn last_position(sites: Seq<Site>, q: PhysicalQubit) -> usize
    decreases sites.len(),
{
    if sites.len() == 0 {
        0
    } else if sites.last().0 == q {
        (sites.len() - 1) as usize
    } else {
        last_position(sites.drop_last(), q)
    }
}

/// The stabilizer anticommutes with the operator on this site.
pub open spec fn clashes(stabilizer: Seq<Site>, site: Site) -> bool {
    match first_pauli(stabilizer, site.0) {
        Some(p) => !(p is I) && !(site.1 is I) && p != site.1,
        None => false,
    }
}

/// The positions of the operator on whose first `n` sites the stabilizer
/// anticommutes.
pub open spec fn clash_positions(stabilizer: Seq<Site>, operator: Seq<Site>, n: int) -> Seq<usize>
    decreases n,
{
    if n <= 0 {
        Seq::empty()
    } else {
        let rest = clash_positions(stabilizer, operator, n - 1);
        if clashes(stabilizer, operator[n - 1]) {
            rest.push(last_position(operator, operator[n - 1].0))
        } else {
            rest
        }
    }
}

/// The positions paired up, in order.
pub open spec fn paired(positions: Seq<usize>) -> Seq<Edge> {
    Seq::new(positions.len() / 2, |k: int| (positions[2 * k], positions[2 * k + 1]))
}

/// The edges with the smaller end first.
pub open spec fn canonical_edges(edges: Seq<Edge>) -> Seq<Edge> {
    Seq::new(edges.len(), |k: int| canonical(edges[k].0, edges[k].1))
}

/// The path matching of a stabilizer: its anticommuting positions, paired up.
pub open spec fn matched(stabilizer: Seq<Site>, operator: Seq<Site>) -> Seq<Edge> {
    paired(clash_positions(stabilizer, operator, operator.len() as int))
}

/// The path matchings of all stabilizers, one behind the other.
pub open spec fn all_matched(stabilizers: Seq<Seq<Site>>, operator: Seq<Site>) -> Seq<Edge>
    decreases stabilizers.len(),
{
    if stabilizers.len() == 0 {
        Seq::empty()
    } else {
        all_matched(stabilizers.drop_last(), operator) + matched(stabilizers.last(), operator)
    }
}

/// The path-matching graph: a vertex for each site of the operator, and an edge for
/// each pair.
pub open spec fn path_graph(stabilizers: Seq<Seq<Site>>, operator: Seq<Site>) -> GraphModel {
    GraphModel { nodes: operator.len(), edges: all_matched(stabilizers, operator) }
}

/// The path matchings, per stabilizer.
pub open spec fn matchings(stabilizers: Seq<Seq<Site>>, operator: Seq<Site>) -> Seq<Seq<Edge>> {
    Seq::new(
        stabilizers.len(),
        |k: int| canonical_edges(matched(stabilizers[k], operator)),
    )
}

/// The contents of Pauli strings.
pub open spec fn strings(stabilizers: Seq<PhysicalPauliString>) -> Seq<Seq<Site>> {
    Seq::new(stabilizers.len(), |k: int| stabilizers[k]@)
}

/// petgraph can number the graph's nodes and edges.
pub open spec fn numbered(g: GraphModel) -> bool {
    g.nodes <= u32::MAX && g.edges.len() <= u32::MAX
}

fn find_pauli(sites: &Vec<Site>, q: PhysicalQubit) -> (r: Option<Pauli>)
    ensures
        r == first_pauli(sites@, q),
{
    let mut i: usize = 0;
    assert(sites@.skip(0) =~= sites@);
    while i < sites.len()
        invariant
            i <= sites@.len(),
            first_pauli(sites@, q) == first_pauli(sites@.skip(i as int), q),
        decreases sites@.len() - i,
    {
        assert(sites@.skip(i as int)[0] == sites@[i as int]);
        if sites[i].0.0 == q.0 {
            return Some(sites[i].1);
        }
        assert(sites@.skip(i as int).skip(1) =~= sites@.skip(i + 1));
        i = i + 1;
    }
    None
}

fn find_position(sites: &Vec<Site>, q: PhysicalQubit) -> (r: usize)
    ensures
        r == last_position(sites@, q),
        sites@.len() > 0 ==> r < sites@.len(),
{
    let mut n: usize = sites.len();
    assert(sites@.take(n as int) =~= sites@);
    while n > 0
        invariant
            n <= sites@.len(),
            last_position(sites@, q) == last_position(sites@.take(n as int), q),
        decreases n,
    {
        assert(sites@.take(n as int).last() == sites@[n - 1]);
        if sites[n - 1].0.0 == q.0 {
            return n - 1;
        }
        assert(sites@.take(n as int).drop_last() =~= sites@.take(n - 1));
        n = n - 1;
    }
    0
}

/// The pairs of positions on which a stabilizer anticommutes with the operator.
fn match_positions(stabilizer: &Vec<Site>, operator: &Vec<Site>) -> (r: Vec<Edge>)
    ensures
        r@ == matched(stabilizer@, operator@),
        forall|k: int|
            0 <= k < r@.len() ==> (#[trigger] r@[k]).0 < operator@.len() && r@[k].1
                < operator@.len(),
{
    let mut positions: Vec<usize> = Vec::new();
    for i in 0..operator.len()
        invariant
            positions@ == clash_positions(stabilizer@, operator@, i as int),
            forall|k: int| 0 <= k < positions@.len() ==> #[trigger] positions@[k] < operator@.len(),
    {
        let (q, p) = operator[i];
        assert(operator@[i as int] == (q, p));
        let clash = match find_pauli(stabilizer, q) {
            Some(s) => !paulis_commute(s, p),
            None => false,
        };
        if clash {
            positions.push(find_position(operator, q));
        }
    }
    let mut r: Vec<Edge> = Vec::new();
    let mut k: usize = 0;
    while k < positions.len() && positions.len() - k > 1
        invariant
            k <= positions@.len(),
            k % 2 == 0,
            positions@ == clash_positions(stabilizer@, operator@, operator@.len() as int),
            forall|q: int| 0 <= q < positions@.len() ==> #[trigger] positions@[q] < operator@.len(),
            r@.len() == k / 2,
            forall|q: int|
                0 <= q < r@.len() ==> #[trigger] r@[q] == (positions@[2 * q], positions@[2 * q + 1]),
        decreases positions@.len() - k,
    {
        r.push((positions[k], positions[k + 1]));
        k = k + 2;
    }
    assert(r@ =~= matched(stabilizer@, operator@));
    proof {
        assert forall|q: int| 0 <= q < r@.len() implies (#[trigger] r@[q]).0 < operator@.len()
            && r@[q].1 < operator@.len() by {
            assert(positions@[2 * q] < operator@.len());
            assert(positions@[2 * q + 1] < operator@.len());
        }
    }
    r
}

/// Whether two Paulis commute.
fn paulis_commute(p: Pauli, q: Pauli) -> (r: bool)
    ensures
        r == (p is I || q is I || p == q),
{
    p == Pauli::I || q == Pauli::I || p == q
}

proof fn lemma_matched_prefix(stabilizers: Seq<Seq<Site>>, operator: Seq<Site>, k: int)
    requires
        0 <= k <= stabilizers.len(),
    ensures
        all_matched(stabilizers.take(k), operator).len() <= all_matched(
            stabilizers,
            operator,
        ).len(),
    decreases stabilizers.len(),
{
    if k < stabilizers.len() {
        lemma_matched_prefix(stabilizers.drop_last(), operator, k);
        assert(stabilizers.drop_last().take(k) =~= stabilizers.take(k));
    } else {
        assert(stabilizers.take(k) =~= stabilizers);
    }
}

/// The path-matching graph of an operator, and the path matching of each stabilizer:
/// the positions on which the stabilizer anticommutes with the operator, paired up.
/// `None` if the graph is too large to number.
#[verifier::spinoff_prover]
pub fn path_matching_graph(
    stabilizers: &Vec<PhysicalPauliString>,
    operator: &PhysicalPauliString,
) -> (r: Option<(AncillaGraph, Vec<Vec<Edge>>)>)
    ensures
        r is Some <==> numbered(path_graph(strings(stabilizers@), operator@)),
        r matches Some(o) ==> o.0@ == path_graph(strings(stabilizers@), operator@) && cycle_views(
            o.1@,
        ) == matchings(strings(stabilizers@), operator@),
{
    let sites = operator.sites();
    let ghost all = strings(stabilizers@);
    let ghost op = operator@;
    let n: usize = sites.len();
    if n > u32::MAX as usize {
        return None;
    }
    let mut g = AncillaGraph::new();
    for i in 0..n
        invariant
            n <= u32::MAX,
            g@ == (GraphModel { nodes: i as nat, edges: Seq::<Edge>::empty() }),
    {
        g.add_node();
    }
    let mut per: Vec<Vec<Edge>> = Vec::new();
    assert(all.take(0) =~= Seq::empty());
    let mut s: usize = 0;
    while s < stabilizers.len()
        invariant
            s <= stabilizers@.len(),
            all == strings(stabilizers@),
            op == operator@,
            sites@ == op,
            n == op.len(),
            g@.nodes == n,
            n <= u32::MAX,
            g@.edges == all_matched(all.take(s as int), op),
            cycle_views(per@) == matchings(all, op).take(s as int),
        decreases stabilizers@.len() - s,
    {
        let pairs = match_positions(stabilizers[s].sites(), sites);
        let ghost before = g@.edges;
        proof {
            assert(all[s as int] == stabilizers@[s as int]@);
            assert(all.take(s + 1).drop_last() =~= all.take(s as int));
            assert(all.take(s + 1).last() == all[s as int]);
            lemma_matched_prefix(all, op, s + 1);
            assert(pairs@.take(0) =~= Seq::empty());
        }
        let mut edges: Vec<Edge> = Vec::new();
        let mut k: usize = 0;
        while k < pairs.len()
            invariant
                k <= pairs@.len(),
                all == strings(stabilizers@),
                op == operator@,
                g@.nodes == n,
                n <= u32::MAX,
                n == op.len(),
                pairs@.len() + before.len() <= all_matched(all, op).len(),
                forall|q: int|
                    0 <= q < pairs@.len() ==> (#[trigger] pairs@[q]).0 < n && pairs@[q].1 < n,
                g@.edges == before + pairs@.take(k as int),
                edges@ == canonical_edges(pairs@).take(k as int),
            decreases pairs@.len() - k,
        {
            let (i, j) = pairs[k];
            assert(pairs@[k as int] == (i, j));
            if g.edge_count() >= u32::MAX as usize {
                return None;
            }
            g.add_edge(i, j);
            edges.push(canonical_edge(i, j));
            proof {
                assert(pairs@.take(k + 1) =~= pairs@.take(k as int).push((i, j)));
                assert(canonical_edges(pairs@).take(k + 1) =~= canonical_edges(pairs@).take(
                    k as int,
                ).push(canonical(i, j)));
            }
            k = k + 1;
        }
        proof {
            assert(pairs@.take(pairs@.len() as int) =~= pairs@);
            assert(edges@ =~= canonical_edges(pairs@));
            let m = matchings(all, op);
            assert(m[s as int] == edges@);
            assert(cycle_views(per@.push(edges)) =~= cycle_views(per@).push(edges@));
            assert(m.take(s + 1) =~= m.take(s as int).push(m[s as int]));
        }
        per.push(edges);
        s = s + 1;
    }
    proof {
        assert(all.take(all.len() as int) =~= all);
        assert(matchings(all, op).take(all.len() as int) =~= matchings(all, op));
    }
    let _edges: usize = g.edge_count();
    Some((g, per))
}

// ---------------------------------------------------------------------------
// The structural stages
// ---------------------------------------------------------------------------
/// Tuning parameters of the construction.
#[derive(Clone, Copy, Debug)]
pub struct SurgeryGraphConfig {
    /// How many randomized expander constructions to try (the smallest wins).
    pub trials: usize,
    /// After how many new edges the spanning forest is grown anew.
    pub reset_period: usize,
    /// The bound on the rounds of random matchings.
    pub max_iterations: usize,
    /// The load that an edge may carry in a layer.
    pub qubit_degree: usize,
    /// The seed of the randomized construction, which makes it deterministic.
    pub seed: u64,
    /// The largest weight of a face.
    pub max_check_degree: usize,
    /// Whether built graphs are kept and used again.
    pub caching: bool,
}

impl Default for SurgeryGraphConfig {
    fn default() -> (r: Self)
        ensures
            r == (SurgeryGraphConfig {
                trials: 100,
                reset_period: 2,
                max_iterations: 8,
                qubit_degree: 12,
                seed: 42,
                max_check_degree: 12,
                caching: true,
            }),
    {
        SurgeryGraphConfig {
            trials: 100,
            reset_period: 2,
            max_iterations: 8,
            qubit_degree: 12,
            seed: 42,
            max_check_degree: 12,
            caching: true,
        }
    }
}

/// What holds of the expander of a path-matching graph, whatever was drawn.
pub open spec fn expanded<F: Fn(&AncillaGraph) -> usize>(
    g0: GraphModel,
    config: SurgeryGraphConfig,
    expansion: F,
    x: CongestionAwareExpander,
) -> bool {
    &&& x.grown_with(g0, config.reset_period, load_bound(config.qubit_degree), expansion)
    &&& grown_in_full(g0, x.graph@, config.max_iterations as int) || (x.decongestion_layers
        >= x.needed && grown_in_part(g0, x.graph@, config.max_iterations as int))
}

/// Of one construction for each trial, and at least one, `r` is the first with the
/// fewest edges.
pub open spec fn smallest_trial<F: Fn(&AncillaGraph) -> usize>(
    g0: GraphModel,
    config: SurgeryGraphConfig,
    expansion: F,
    trials: Seq<CongestionAwareExpander>,
    r: CongestionAwareExpander,
) -> bool {
    &&& trials.len() == if config.trials >= 1 {
        config.trials as int
    } else {
        1
    }
    &&& forall|t: int| 0 <= t < trials.len() ==> expanded(g0, config, expansion, #[trigger] trials[t])
    &&& exists|w: int|
        0 <= w < trials.len() && #[trigger] trials[w] == r && first_smallest(trials, w)
}

/// No trial has fewer edges than trial `w`, and none before it has as few.
pub open spec fn first_smallest(trials: Seq<CongestionAwareExpander>, w: int) -> bool {
    forall|t: int|
        0 <= t < trials.len() ==> {
            &&& trials[w].graph@.edges.len() <= (#[trigger] trials[t]).graph@.edges.len()
            &&& t < w ==> trials[w].graph@.edges.len() < trials[t].graph@.edges.len()
        }
}

/// `x` is the smallest of the constructions that were tried.
pub open spec fn best_expanded<F: Fn(&AncillaGraph) -> usize>(
    g0: GraphModel,
    config: SurgeryGraphConfig,
    expansion: F,
    x: CongestionAwareExpander,
) -> bool {
    &&& expanded(g0, config, expansion, x)
    &&& exists|trials: Seq<CongestionAwareExpander>| #[trigger]
        smallest_trial(g0, config, expansion, trials, x)
}

/// A graph of some construction outgrows the numbers on the way.
pub open spec fn growth_fails<F: Fn(&AncillaGraph) -> usize>(
    g0: GraphModel,
    config: SurgeryGraphConfig,
    expansion: F,
) -> bool {
    outgrown(
        g0,
        config.reset_period,
        load_bound(config.qubit_degree),
        config.max_iterations as int,
        expansion,
    )
}

/// The smallest of a number of randomized constructions; `None` if a graph outgrows the
/// numbers on the way.
pub fn build_congestion_aware_expander<F: Fn(&AncillaGraph) -> usize>(
    g0: &AncillaGraph,
    config: &SurgeryGraphConfig,
    rng: &mut StdRng,
    expansion: &F,
) -> (r: Option<CongestionAwareExpander>)
    requires
        forall|g: &AncillaGraph| call_requires(*expansion, (g,)),
    ensures
        match r {
            Some(x) => best_expanded(g0@, *config, *expansion, x),
            None => growth_fails(g0@, *config, *expansion),
        },
{
    let mut best = match congestion_aware_expander(
        g0,
        config.reset_period,
        config.max_iterations,
        config.qubit_degree,
        rng,
        expansion,
    ) {
        Some(x) => x,
        None => return None,
    };
    let mut done: usize = 1;
    let ghost mut trials: Seq<CongestionAwareExpander> = seq![best];
    let ghost mut at: int = 0;
    while done < config.trials
        invariant
            forall|g: &AncillaGraph| call_requires(*expansion, (g,)),
            done >= 1,
            trials.len() == done,
            done <= config.trials || done == 1,
            forall|t: int|
                0 <= t < trials.len() ==> expanded(g0@, *config, *expansion, #[trigger] trials[t]),
            0 <= at < trials.len(),
            trials[at] == best,
            first_smallest(trials, at),
        decreases config.trials - done,
    {
        let other = match congestion_aware_expander(
            g0,
            config.reset_period,
            config.max_iterations,
            config.qubit_degree,
            rng,
            expansion,
        ) {
            Some(x) => x,
            None => return None,
        };
        let ghost before = trials;
        proof {
            trials = trials.push(other);
        }
        if other.graph.edge_count() < best.graph.edge_count() {
            best = other;
            proof {
                at = done as int;
            }
        }
        proof {
            assert forall|t: int| 0 <= t < trials.len() implies {
                &&& trials[at].graph@.edges.len() <= (#[trigger] trials[t]).graph@.edges.len()
                &&& t < at ==> trials[at].graph@.edges.len() < trials[t].graph@.edges.len()
            } by {
                if t < before.len() {
                    assert(trials[t] == before[t]);
                }
            }
        }
        done = done + 1;
    }
    assert(smallest_trial(g0@, *config, *expansion, trials, best));
    Some(best)
}

/// The number of levels of an expander's product.
pub open spec fn levels_of(x: CongestionAwareExpander) -> nat {
    level_count(x.partition@.len(), x.needed, x.graph@.nodes)
}

/// The expander thickened and cellulated.
pub open spec fn cells_of(x: CongestionAwareExpander, config: SurgeryGraphConfig) -> CellModel {
    cellulated(
        product(x.graph@, levels_of(x)),
        thick_cycles(x.graph@.nodes, x.partition@, levels_of(x)),
        config.max_check_degree,
    )
}

/// `c` is the cellulation of an expander of `g0`.
#[verifier::opaque]
pub open spec fn built_from<F: Fn(&AncillaGraph) -> usize>(
    g0: GraphModel,
    config: SurgeryGraphConfig,
    expansion: F,
    c: Cellulation,
) -> bool {
    exists|x: CongestionAwareExpander| #[trigger]
        best_expanded(g0, config, expansion, x) && x.graph@.wf() && c@ == cells_of(x, config)
            && c.graph@.nodes == levels_of(x) * g0.nodes
}

/// Every cycle of a layer is one of the cycles that were placed.
proof fn lemma_placed_from(basis: Seq<Seq<Edge>>, max_load: nat, r: int, k: int)
    requires
        0 <= r < all_placed(basis, max_load).len(),
        0 <= k < all_placed(basis, max_load)[r].len(),
    ensures
        basis.contains(all_placed(basis, max_load)[r][k]),
    decreases basis.len(),
{
    let before = all_placed(basis.drop_last(), max_load);
    let all = all_placed(basis, max_load);
    let cycle = basis.last();
    let at = first_fit(before, cycle, max_load, 0);
    crate::graph_construction::lemma_first_fit(before, cycle, max_load, 0);
    assert(basis[basis.len() - 1] == cycle);
    if r < before.len() && k < before[r].len() {
        assert(all[r][k] == before[r][k]);
        lemma_placed_from(basis.drop_last(), max_load, r, k);
        let i = basis.drop_last().index_of(all[r][k]);
        assert(basis[i] == all[r][k]);
    } else {
        assert(all[r][k] == cycle);
    }
}

/// The layers of an expander run along its edges and are closed.
pub proof fn lemma_layers_ok<F: Fn(&AncillaGraph) -> usize>(
    g0: GraphModel,
    reset_period: usize,
    max_load: nat,
    expansion: F,
    x: CongestionAwareExpander,
)
    requires
        x.grown_with(g0, reset_period, max_load, expansion),
        x.graph@.wf(),
    ensures
        levels_ok(x.partition@, x.graph@.nodes),
        forall|r: int|
            0 <= r < x.partition@.len() ==> lists_joined(
                x.graph@.edges,
                #[trigger] x.partition@[r],
            ),
{
    let basis = cycle_views(x.cycle_basis@);
    let layers = x.partition@;
    let edges = x.graph@.edges;
    assert forall|r: int, k: int|
        #![trigger layers[r][k]]
        0 <= r < layers.len() && 0 <= k < layers[r].len() implies two_regular(layers[r][k])
        && all_joined(edges, layers[r][k]) by {
        lemma_placed_from(basis, max_load, r, k);
        let i = basis.index_of(layers[r][k]);
        assert(basis[i] == layers[r][k]);
        assert forall|q: int| 0 <= q < basis[i].len() implies joined(
            edges,
            (#[trigger] basis[i][q]).0,
            basis[i][q].1,
        ) by {
            assert(basis[i].contains(basis[i][q]));
        }
    }
    assert forall|r: int, k: int, i: int|
        #![trigger layers[r][k][i]]
        0 <= r < layers.len() && 0 <= k < layers[r].len() && 0 <= i < layers[r][k].len() implies
        layers[r][k][i].0 < x.graph@.nodes && layers[r][k][i].1 < x.graph@.nodes by {
        let e = layers[r][k][i];
        assert(two_regular(layers[r][k]) && all_joined(edges, layers[r][k]));
        assert(joined(edges, e.0, e.1));
        let p = if edges.contains((e.0, e.1)) {
            edges.index_of((e.0, e.1))
        } else {
            edges.index_of((e.1, e.0))
        };
        assert(edges[p].0 < x.graph@.nodes && edges[p].1 < x.graph@.nodes);
    }
    assert forall|r: int| 0 <= r < layers.len() implies lists_joined(edges, #[trigger] layers[r]) by {
        assert forall|k: int| 0 <= k < layers[r].len() implies all_joined(
            edges,
            #[trigger] layers[r][k],
        ) by {
            assert(two_regular(layers[r][k]) && all_joined(edges, layers[r][k]));
        }
    }
}

/// The layers stay closed on their levels.
pub proof fn lemma_levels_stay_ok(layers: Seq<Seq<Seq<Edge>>>, base: nat, levels: nat)
    requires
        levels_ok(layers, base),
        levels * base <= u32::MAX,
    ensures
        levels_ok(thick_cycles(base, layers, levels), levels * base),
{
    let moved = thick_cycles(base, layers, levels);
    assert forall|r: int, k: int|
        #![trigger moved[r][k]]
        0 <= r < moved.len() && 0 <= k < moved[r].len() implies two_regular(moved[r][k]) by {
        let cycle = layers[r][k];
        assert forall|i: int| 0 <= i < cycle.len() implies (#[trigger] cycle[i]).0 < base
            && cycle[i].1 < base by {
            assert(layers[r][k][i] == cycle[i]);
        }
        law_thick_cycle_is_closed(base, levels, cycle, r as nat);
    }
    assert forall|r: int, k: int, i: int|
        #![trigger moved[r][k][i]]
        0 <= r < moved.len() && 0 <= k < moved[r].len() && 0 <= i < moved[r][k].len() implies
        moved[r][k][i].0 < levels * base && moved[r][k][i].1 < levels * base by {
        let e = layers[r][k][i];
        assert(e.0 < base && e.1 < base);
        crate::cellulation::lemma_thick_id(base, levels, e.0, r as nat);
        crate::cellulation::lemma_thick_id(base, levels, e.1, r as nat);
    }
}

/// Expander, thickening and cellulation of a path-matching graph; `None` if a graph
/// on the way is too large to number.
fn build_cells<F: Fn(&AncillaGraph) -> usize>(
    g0: &AncillaGraph,
    config: &SurgeryGraphConfig,
    expansion: &F,
) -> (r: Option<Cellulation>)
    requires
        forall|g: &AncillaGraph| call_requires(*expansion, (g,)),
    ensures
        r matches Some(c) ==> built_from(g0@, *config, *expansion, c),
        r is None ==> growth_fails(g0@, *config, *expansion) || exists|x: CongestionAwareExpander|
            #[trigger]
            best_expanded(g0@, *config, *expansion, x) && (!product_fits(x.graph@, levels_of(x))
                || cells_of(x, *config).edges.len() > u32::MAX),
{
    let mut rng = seeded(config.seed);
    let x = match build_congestion_aware_expander(g0, config, &mut rng, expansion) {
        Some(x) => x,
        None => return None,
    };
    let _n: usize = x.graph.node_count();
    proof {
        lemma_layers_ok(
            g0@,
            config.reset_period,
            load_bound(config.qubit_degree),
            *expansion,
            x,
        );
    }
    let thick = match thicken(&x) {
        None => {
            return None;
        },
        Some(t) => t,
    };
    proof {
        lemma_levels_stay_ok(x.partition@, x.graph@.nodes, levels_of(x));
    }
    match cellulate(&thick, config.max_check_degree) {
        None => None,
        Some(c) => {
            assert(built_from(g0@, *config, *expansion, c)) by {
                reveal(built_from);
                assert(best_expanded(g0@, *config, *expansion, x));
            }
            Some(c)
        },
    }
}

/// The graph that a cellulation was built from is there on its first level, and every
/// edge of a check is an edge.
pub proof fn law_cells_hold_graph<F: Fn(&AncillaGraph) -> usize>(
    g0: GraphModel,
    config: SurgeryGraphConfig,
    expansion: F,
    c: Cellulation,
)
    requires
        built_from(g0, config, expansion, c),
        g0.wf(),
    ensures
        c.graph@.nodes >= g0.nodes,
        lists_joined(c@.edges, c@.checks),
        forall|a: usize, b: usize|
            joined(g0.edges, a, b) ==> #[trigger] joined(c@.edges, a, b),
{
    reveal(built_from);
    let x = choose|x: CongestionAwareExpander| #[trigger]
        best_expanded(g0, config, expansion, x) && x.graph@.wf() && c@ == cells_of(x, config)
            && c.graph@.nodes == levels_of(x) * g0.nodes;
    let levels = levels_of(x);
    let base = x.graph@.nodes;
    let p = product(x.graph@, levels);
    lemma_layers_ok(g0, config.reset_period, load_bound(config.qubit_degree), expansion, x);
    law_cycles_on_levels(x.graph@, x.partition@, levels);
    let moved = thick_cycles(base, x.partition@, levels);
    assert forall|r: int| 0 <= r < moved.len() implies lists_joined(p.edges, #[trigger] moved[r]) by {
        assert(lists_joined(p.edges, thick_cycles(base, x.partition@, levels)[r]));
    }
    law_checks_are_edges(p, moved, config.max_check_degree);
    assert(levels * base >= base) by (nonlinear_arith)
        requires
            levels >= 1,
            base >= 0,
    ;
    let across = horizontal(x.graph@.edges, base, levels);
    assert(p.edges.take(across.len() as int) =~= across);
    assert forall|a: usize, b: usize| joined(g0.edges, a, b) implies #[trigger] joined(
        c@.edges,
        a,
        b,
    ) by {
        lemma_joined_extended(g0.edges, x.graph@.edges, a, b);
        lemma_horizontal_joined(x.graph@.edges, base, levels, 0, a, b);
        assert(0 * base == 0) by (nonlinear_arith);
        assert(thick_id(base, a, 0) == a && thick_id(base, b, 0) == b);
        lemma_joined_extended(across, p.edges, a, b);
        lemma_joined_extended(p.edges, c@.edges, a, b);
    }
}

// ---------------------------------------------------------------------------
// Shapes
// ---------------------------------------------------------------------------
/// `e` comes before `f`.
pub open spec fn edge_less(e: Edge, f: Edge) -> bool {
    e.0 < f.0 || (e.0 == f.0 && e.1 < f.1)
}

/// The edges with `e` put behind all that do not come after it.
pub open spec fn edge_inserted(edges: Seq<Edge>, e: Edge) -> Seq<Edge>
    decreases edges.len(),
{
    if edges.len() == 0 || !edge_less(e, edges.last()) {
        edges.push(e)
    } else {
        edge_inserted(edges.drop_last(), e).push(edges.last())
    }
}

/// The edges in order, repeated ones kept.
pub open spec fn sort_edges(edges: Seq<Edge>) -> Seq<Edge>
    decreases edges.len(),
{
    if edges.len() == 0 {
        Seq::empty()
    } else {
        edge_inserted(sort_edges(edges.drop_last()), edges.last())
    }
}

/// The shape of a graph: its size and its edges, in order.
pub open spec fn shape_of(g: GraphModel) -> (nat, Seq<Edge>) {
    (g.nodes, sort_edges(canonical_edges(g.edges)))
}

proof fn lemma_inserted_at(edges: Seq<Edge>, e: Edge, p: int)
    requires
        0 <= p <= edges.len(),
        forall|i: int| p <= i < edges.len() ==> edge_less(e, #[trigger] edges[i]),
        p > 0 ==> !edge_less(e, edges[p - 1]),
    ensures
        edge_inserted(edges, e) == edges.insert(p, e),
    decreases edges.len(),
{
    if p == edges.len() {
        assert(edges.insert(p, e) =~= edges.push(e));
    } else {
        assert(edge_less(e, edges[edges.len() - 1]));
        lemma_inserted_at(edges.drop_last(), e, p);
        assert(edges.insert(p, e) =~= edges.drop_last().insert(p, e).push(edges.last()));
    }
}

proof fn lemma_inserted_contains(edges: Seq<Edge>, e: Edge, f: Edge)
    ensures
        edge_inserted(edges, e).contains(f) <==> edges.contains(f) || f == e,
    decreases edges.len(),
{
    let after = edge_inserted(edges, e);
    if edges.len() == 0 || !edge_less(e, edges.last()) {
        assert(after[edges.len() as int] == e);
        if edges.contains(f) {
            assert(after[edges.index_of(f)] == f);
        }
        if after.contains(f) && after.index_of(f) < edges.len() {
            assert(edges[after.index_of(f)] == f);
        }
    } else {
        let front = edges.drop_last();
        lemma_inserted_contains(front, e, f);
        let mid = edge_inserted(front, e);
        assert(after[mid.len() as int] == edges.last());
        assert(edges[edges.len() - 1] == edges.last());
        if mid.contains(f) {
            assert(after[mid.index_of(f)] == f);
        }
        if front.contains(f) {
            assert(edges[front.index_of(f)] == f);
        }
        if edges.contains(f) && edges.index_of(f) < front.len() {
            assert(front[edges.index_of(f)] == f);
        }
        if after.contains(f) && after.index_of(f) < mid.len() {
            assert(mid[after.index_of(f)] == f);
        }
    }
}

proof fn lemma_sorted_contains(edges: Seq<Edge>, f: Edge)
    ensures
        sort_edges(edges).contains(f) <==> edges.contains(f),
    decreases edges.len(),
{
    if edges.len() > 0 {
        let front = edges.drop_last();
        lemma_sorted_contains(front, f);
        lemma_inserted_contains(sort_edges(front), edges.last(), f);
        assert(edges[edges.len() - 1] == edges.last());
        if front.contains(f) {
            assert(edges[front.index_of(f)] == f);
        }
        if edges.contains(f) && edges.index_of(f) < front.len() {
            assert(front[edges.index_of(f)] == f);
        }
    }
}

/// Graphs of the same shape join the same vertices.
pub proof fn law_same_shape_joins(a: GraphModel, b: GraphModel, u: usize, v: usize)
    requires
        shape_of(a) == shape_of(b),
    ensures
        joined(a.edges, u, v) == joined(b.edges, u, v),
{
    lemma_joined_sorted(a.edges, u, v);
    lemma_joined_sorted(b.edges, u, v);
}

proof fn lemma_joined_sorted(edges: Seq<Edge>, u: usize, v: usize)
    ensures
        joined(edges, u, v) <==> sort_edges(canonical_edges(edges)).contains(canonical(u, v)),
{
    let c = canonical_edges(edges);
    lemma_sorted_contains(c, canonical(u, v));
    if joined(edges, u, v) {
        let i = if edges.contains((u, v)) {
            edges.index_of((u, v))
        } else {
            edges.index_of((v, u))
        };
        assert(c[i] == canonical(u, v));
    }
    if c.contains(canonical(u, v)) {
        let i = c.index_of(canonical(u, v));
        assert(edges[i] == (u, v) || edges[i] == (v, u));
    }
}

/// The edges of the graph, in order.
fn shape_edges(g: &AncillaGraph) -> (r: Vec<Edge>)
    ensures
        (g@.nodes, r@) == shape_of(g@),
{
    let m: usize = g.edge_count();
    let ghost all = canonical_edges(g@.edges);
    let mut r: Vec<Edge> = Vec::new();
    assert(all.take(0) =~= Seq::empty());
    for k in 0..m
        invariant
            m == g@.edges.len(),
            all == canonical_edges(g@.edges),
            r@ == sort_edges(all.take(k as int)),
    {
        let (a, b) = g.edge_endpoints(k);
        let e = canonical_edge(a, b);
        let mut p: usize = r.len();
        while p > 0 && (e.0 < r[p - 1].0 || (e.0 == r[p - 1].0 && e.1 < r[p - 1].1))
            invariant
                p <= r@.len(),
                forall|i: int| p <= i < r@.len() ==> edge_less(e, #[trigger] r@[i]),
            decreases p,
        {
            p = p - 1;
        }
        proof {
            lemma_inserted_at(r@, e, p as int);
            assert(all.take(k + 1).drop_last() =~= all.take(k as int));
            assert(all[k as int] == e);
        }
        r.insert(p, e);
    }
    assert(all.take(m as int) =~= all);
    r
}

/// A structure that was built, and the shape of the graph it was built for.
struct ShapeEntry {
    nodes: usize,
    edges: Vec<Edge>,
    cells: Cellulation,
}

/// Cellulated graphs by the shape of the path-matching graph: everything structural
/// follows from that shape, so operators of one shape share the structure. A cache
/// serves one configuration.
pub struct ShapeCache {
    entries: Vec<ShapeEntry>,
}

/// The structure of the first entry with this shape.
spec fn first_stored(entries: Seq<ShapeEntry>, shape: (nat, Seq<Edge>)) -> Option<Cellulation>
    decreases entries.len(),
{
    if entries.len() == 0 {
        None
    } else {
        match first_stored(entries.drop_last(), shape) {
            Some(c) => Some(c),
            None => if (entries.last().nodes as nat, entries.last().edges@) == shape {
                Some(entries.last().cells)
            } else {
                None
            },
        }
    }
}

proof fn lemma_stored_at(entries: Seq<ShapeEntry>, shape: (nat, Seq<Edge>), i: int)
    requires
        0 <= i < entries.len(),
        (entries[i].nodes as nat, entries[i].edges@) == shape,
        forall|k: int|
            0 <= k < i ==> ((#[trigger] entries[k]).nodes as nat, entries[k].edges@) != shape,
    ensures
        first_stored(entries, shape) == Some(entries[i].cells),
    decreases entries.len(),
{
    if i == entries.len() - 1 {
        lemma_not_stored(entries.drop_last(), shape);
    } else {
        lemma_stored_at(entries.drop_last(), shape, i);
    }
}

proof fn lemma_not_stored(entries: Seq<ShapeEntry>, shape: (nat, Seq<Edge>))
    requires
        forall|k: int|
            0 <= k < entries.len() ==> ((#[trigger] entries[k]).nodes as nat, entries[k].edges@)
                != shape,
    ensures
        first_stored(entries, shape) is None,
    decreases entries.len(),
{
    if entries.len() > 0 {
        let front = entries.drop_last();
        assert forall|k: int| 0 <= k < front.len() implies (
        (#[trigger] front[k]).nodes as nat, front[k].edges@) != shape by {
            assert(front[k] == entries[k]);
        }
        lemma_not_stored(front, shape);
        assert(entries[entries.len() - 1] == entries.last());
    }
}

/// `c` was built from a graph of this shape.
pub open spec fn built_for_shape<F: Fn(&AncillaGraph) -> usize>(
    shape: (nat, Seq<Edge>),
    config: SurgeryGraphConfig,
    expansion: F,
    c: Cellulation,
) -> bool {
    exists|g0: GraphModel|
        g0.wf() && shape_of(g0) == shape && #[trigger] built_from(g0, config, expansion, c)
}

impl ShapeCache {
    /// Everything in the cache was built with this configuration.
    pub closed spec fn valid_for<F: Fn(&AncillaGraph) -> usize>(
        self,
        config: SurgeryGraphConfig,
        expansion: F,
    ) -> bool {
        forall|i: int|
            0 <= i < self.entries@.len() ==> built_for_shape(
                ((#[trigger] self.entries@[i]).nodes as nat, self.entries@[i].edges@),
                config,
                expansion,
                self.entries@[i].cells,
            )
    }

    /// The structure that the cache holds for a shape.
    pub closed spec fn stored(self, shape: (nat, Seq<Edge>)) -> Option<Cellulation> {
        first_stored(self.entries@, shape)
    }

    /// A cache that serves any configuration.
    pub closed spec fn is_empty(self) -> bool {
        self.entries@.len() == 0
    }

    pub fn new() -> (r: Self)
        ensures
            r.is_empty(),
    {
        ShapeCache { entries: Vec::new() }
    }

    /// The entry for a shape.
    fn find(&self, nodes: usize, edges: &Vec<Edge>) -> (r: Option<usize>)
        ensures
            match r {
                Some(i) => i < self.entries@.len() && self.stored((nodes as nat, edges@)) == Some(
                    self.entries@[i as int].cells,
                ),
                None => self.stored((nodes as nat, edges@)) is None,
            },
    {
        let ghost shape = (nodes as nat, edges@);
        let mut i: usize = 0;
        while i < self.entries.len()
            invariant
                i <= self.entries@.len(),
                shape == (nodes as nat, edges@),
                forall|k: int|
                    0 <= k < i ==> (
                    (#[trigger] self.entries@[k]).nodes as nat, self.entries@[k].edges@) != shape,
            decreases self.entries@.len() - i,
        {
            if self.entries[i].nodes == nodes && same_edges(&self.entries[i].edges, edges) {
                proof {
                    lemma_stored_at(self.entries@, shape, i as int);
                }
                return Some(i);
            }
            i = i + 1;
        }
        proof {
            lemma_not_stored(self.entries@, shape);
        }
        None
    }

    /// Keep the structure of a shape.
    fn store<F: Fn(&AncillaGraph) -> usize>(
        &mut self,
        nodes: usize,
        edges: Vec<Edge>,
        cells: Cellulation,
        Ghost(config): Ghost<SurgeryGraphConfig>,
        _expansion: &F,
    )
        requires
            old(self).valid_for(config, *_expansion),
            old(self).stored((nodes as nat, edges@)) is None,
            built_for_shape((nodes as nat, edges@), config, *_expansion, cells),
        ensures
            final(self).valid_for(config, *_expansion),
            final(self).stored((nodes as nat, edges@)) == Some(cells),
            forall|other: (nat, Seq<Edge>)|
                other != (nodes as nat, edges@) ==> #[trigger] final(self).stored(other) == old(self).stored(other),
    {
        let ghost before = self.entries@;
        self.entries.push(ShapeEntry { nodes, edges, cells });
        proof {
            assert(self.entries@.drop_last() =~= before);
            assert forall|q: int| 0 <= q < self.entries@.len() implies built_for_shape(
                ((#[trigger] self.entries@[q]).nodes as nat, self.entries@[q].edges@),
                config,
                *_expansion,
                self.entries@[q].cells,
            ) by {
                if q < before.len() {
                    assert(self.entries@[q] == before[q]);
                }
            }
        }
    }
}

/// An empty cache serves any configuration.
pub proof fn law_empty_cache_is_valid<F: Fn(&AncillaGraph) -> usize>(
    cache: ShapeCache,
    config: SurgeryGraphConfig,
    expansion: F,
)
    requires
        cache.is_empty(),
    ensures
        cache.valid_for(config, expansion),
        forall|shape: (nat, Seq<Edge>)| #[trigger] cache.stored(shape) is None,
{
}

/// What the cache holds for a shape was built from a graph of that shape.
pub proof fn law_stored_fits_its_shape<F: Fn(&AncillaGraph) -> usize>(
    cache: ShapeCache,
    config: SurgeryGraphConfig,
    expansion: F,
    shape: (nat, Seq<Edge>),
)
    requires
        cache.valid_for(config, expansion),
    ensures
        cache.stored(shape) matches Some(c) ==> built_for_shape(shape, config, expansion, c),
{
    lemma_stored_fits(cache.entries@, config, expansion, shape);
}

proof fn lemma_stored_fits<F: Fn(&AncillaGraph) -> usize>(
    entries: Seq<ShapeEntry>,
    config: SurgeryGraphConfig,
    expansion: F,
    shape: (nat, Seq<Edge>),
)
    requires
        forall|i: int|
            0 <= i < entries.len() ==> built_for_shape(
                ((#[trigger] entries[i]).nodes as nat, entries[i].edges@),
                config,
                expansion,
                entries[i].cells,
            ),
    ensures
        first_stored(entries, shape) matches Some(c) ==> built_for_shape(
            shape,
            config,
            expansion,
            c,
        ),
    decreases entries.len(),
{
    if entries.len() > 0 {
        let front = entries.drop_last();
        assert forall|i: int| 0 <= i < front.len() implies built_for_shape(
            ((#[trigger] front[i]).nodes as nat, front[i].edges@),
            config,
            expansion,
            front[i].cells,
        ) by {
            assert(front[i] == entries[i]);
        }
        lemma_stored_fits(front, config, expansion, shape);
        assert(entries[entries.len() - 1] == entries.last());
    }
}

fn same_edges(a: &Vec<Edge>, b: &Vec<Edge>) -> (r: bool)
    ensures
        r == (a@ == b@),
{
    if a.len() != b.len() {
        return false;
    }
    let mut i: usize = 0;
    while i < a.len()
        invariant
            i <= a@.len(),
            a@.len() == b@.len(),
            forall|k: int| 0 <= k < i ==> a@[k] == b@[k],
        decreases a@.len() - i,
    {
        let (e, f) = (a[i], b[i]);
        if e.0 != f.0 || e.1 != f.1 {
            assert(a@[i as int] != b@[i as int]);
            return false;
        }
        i = i + 1;
    }
    assert(a@ =~= b@);
    true
}

fn copy_lists(lists: &Vec<Vec<Edge>>) -> (r: Vec<Vec<Edge>>)
    ensures
        cycle_views(r@) == cycle_views(lists@),
{
    let mut r: Vec<Vec<Edge>> = Vec::new();
    let ghost all = cycle_views(lists@);
    for i in 0..lists.len()
        invariant
            all == cycle_views(lists@),
            cycle_views(r@) == all.take(i as int),
    {
        let copy = copy_edges(&lists[i]);
        proof {
            assert(cycle_views(r@.push(copy)) =~= cycle_views(r@).push(copy@));
            assert(all.take(i + 1) =~= all.take(i as int).push(all[i as int]));
        }
        r.push(copy);
    }
    assert(all.take(all.len() as int) =~= all);
    r
}

// ---------------------------------------------------------------------------
// Surgery graphs
// ---------------------------------------------------------------------------
/// A measurement graph with its ports: the vertices that the operator's support maps
/// to.
pub struct SurgeryGraph<K> {
    pub graph: AncillaGraph,
    /// The code qubit of each port; `None` on every other vertex.
    pub labels: Vec<Option<CodeQubit<K>>>,
    /// The faces of the cellulated cycle basis.
    pub cycle_checks: Vec<Vec<Edge>>,
    /// The path matching of each code stabilizer.
    pub path_matching: Vec<Vec<Edge>>,
}

impl<K> SurgeryGraph<K> {
    /// Every vertex has a label, and every listed edge is an edge of the graph.
    pub open spec fn wf(self) -> bool {
        &&& self.graph@.wf()
        &&& self.labels@.len() == self.graph@.nodes
        &&& lists_joined(self.graph@.edges, cycle_views(self.cycle_checks@))
        &&& lists_joined(self.graph@.edges, cycle_views(self.path_matching@))
    }
}

/// The labels of a graph with `n` vertices: the ports come first, in the order of the
/// operator's sites.
pub open spec fn port_labels<K>(operator: Seq<Site>, block: K, n: nat) -> Seq<
    Option<CodeQubit<K>>,
> {
    Seq::new(
        n,
        |p: int|
            if p < operator.len() {
                Some(CodeQubit { block, index: operator[p].0.0 })
            } else {
                None
            },
    )
}

/// The surgery graph of an operator on the structure `c`.
pub open spec fn finished<K>(
    stabilizers: Seq<Seq<Site>>,
    operator: Seq<Site>,
    block: K,
    c: Cellulation,
    r: SurgeryGraph<K>,
) -> bool {
    &&& r.graph@ == c.graph@
    &&& cycle_views(r.cycle_checks@) == c@.checks
    &&& cycle_views(r.path_matching@) == matchings(stabilizers, operator)
    &&& r.labels@ == port_labels(operator, block, c.graph@.nodes)
}

/// A graph that petgraph cannot number stands in the way of the construction.
pub open spec fn too_large<F: Fn(&AncillaGraph) -> usize>(
    g0: GraphModel,
    config: SurgeryGraphConfig,
    expansion: F,
) -> bool {
    ||| !numbered(g0)
    ||| growth_fails(g0, config, expansion)
    ||| exists|x: CongestionAwareExpander| #[trigger]
        best_expanded(g0, config, expansion, x) && (!product_fits(x.graph@, levels_of(x)) || cells_of(
            x,
            config,
        ).edges.len() > u32::MAX)
}

/// Label the ports of a structure.
fn finish_graph<K: BlockLabel>(
    c: &Cellulation,
    operator: &Vec<Site>,
    block: K,
    path_matching: Vec<Vec<Edge>>,
) -> (r: SurgeryGraph<K>)
    ensures
        r.graph@ == c.graph@,
        r.graph@.wf(),
        cycle_views(r.cycle_checks@) == c@.checks,
        r.path_matching == path_matching,
        r.labels@ == port_labels(operator@, block, c.graph@.nodes),
{
    let n: usize = c.graph.node_count();
    let ghost goal = port_labels(operator@, block, n as nat);
    let mut labels: Vec<Option<CodeQubit<K>>> = Vec::new();
    for p in 0..n
        invariant
            goal == port_labels(operator@, block, n as nat),
            labels@ == goal.take(p as int),
    {
        if p < operator.len() {
            labels.push(Some(CodeQubit { block, index: operator[p].0.0 }));
        } else {
            labels.push(None);
        }
        assert(labels@ =~= goal.take(p + 1));
    }
    assert(goal.take(n as int) =~= goal);
    SurgeryGraph { graph: c.graph.clone(), labels, cycle_checks: copy_lists(&c.checks), path_matching }
}

proof fn lemma_finished_wf<K, F: Fn(&AncillaGraph) -> usize>(
    stabilizers: Seq<Seq<Site>>,
    operator: Seq<Site>,
    config: SurgeryGraphConfig,
    expansion: F,
    c: Cellulation,
    block: K,
    r: SurgeryGraph<K>,
)
    requires
        built_for_shape(shape_of(path_graph(stabilizers, operator)), config, expansion, c),
        finished(stabilizers, operator, block, c, r),
        r.graph@.wf(),
    ensures
        r.wf(),
{
    let p = path_graph(stabilizers, operator);
    let g0 = choose|g0: GraphModel|
        g0.wf() && shape_of(g0) == shape_of(p) && #[trigger] built_from(g0, config, expansion, c);
    law_cells_hold_graph(g0, config, expansion, c);
    let edges = r.graph@.edges;
    let m = matchings(stabilizers, operator);
    assert forall|k: int| 0 <= k < m.len() implies all_joined(edges, #[trigger] m[k]) by {
        assert forall|i: int| 0 <= i < m[k].len() implies joined(
            edges,
            (#[trigger] m[k][i]).0,
            m[k][i].1,
        ) by {
            let e = matched(stabilizers[k], operator)[i];
            lemma_matched_in(stabilizers, operator, k, i);
            assert(joined(p.edges, e.0, e.1));
            law_same_shape_joins(p, g0, e.0, e.1);
            assert(joined(c@.edges, e.0, e.1));
        }
    }
}

proof fn lemma_matched_in(stabilizers: Seq<Seq<Site>>, operator: Seq<Site>, k: int, i: int)
    requires
        0 <= k < stabilizers.len(),
        0 <= i < matched(stabilizers[k], operator).len(),
    ensures
        all_matched(stabilizers, operator).contains(matched(stabilizers[k], operator)[i]),
    decreases stabilizers.len(),
{
    let front = stabilizers.drop_last();
    let all = all_matched(stabilizers, operator);
    let before = all_matched(front, operator);
    if k < front.len() {
        assert(front[k] == stabilizers[k]);
        lemma_matched_in(front, operator, k, i);
        let p = before.index_of(matched(stabilizers[k], operator)[i]);
        assert(all[p] == before[p]);
    } else {
        assert(all[before.len() + i] == matched(stabilizers[k], operator)[i]);
    }
}

/// The surgery graph stands on a structure that was built for the operator.
pub open spec fn built_anew<K, F: Fn(&AncillaGraph) -> usize>(
    stabilizers: Seq<Seq<Site>>,
    operator: Seq<Site>,
    block: K,
    config: SurgeryGraphConfig,
    expansion: F,
    r: SurgeryGraph<K>,
) -> bool {
    exists|c: Cellulation| #[trigger]
        finished(stabilizers, operator, block, c, r) && built_from(
            path_graph(stabilizers, operator),
            config,
            expansion,
            c,
        )
}

/// With caching, a structure that the cache holds for the operator's shape is used again
/// and the cache stays; otherwise the one that was built is there for the shape
/// afterwards, and the other shapes are untouched.
pub open spec fn served<K, F: Fn(&AncillaGraph) -> usize>(
    stabilizers: Seq<Seq<Site>>,
    operator: Seq<Site>,
    block: K,
    config: SurgeryGraphConfig,
    expansion: F,
    before: ShapeCache,
    after: ShapeCache,
    r: Option<SurgeryGraph<K>>,
) -> bool {
    let p = path_graph(stabilizers, operator);
    match before.stored(shape_of(p)) {
        Some(c) => after == before && (r matches Some(s) && finished(
            stabilizers,
            operator,
            block,
            c,
            s,
        )),
        None => match r {
            Some(s) => {
                &&& after.stored(shape_of(p)) matches Some(c) && finished(
                    stabilizers,
                    operator,
                    block,
                    c,
                    s,
                ) && built_from(p, config, expansion, c)
                &&& forall|other: (nat, Seq<Edge>)|
                    other != shape_of(p) ==> #[trigger] after.stored(other) == before.stored(other)
            },
            None => after == before,
        },
    }
}

/// The surgery graph of an operator, with its structure taken from the cache where an
/// operator of the same shape was built before. `None` if a graph is too large to
/// number.
pub fn surgery_graph_cached<K: BlockLabel, F: Fn(&AncillaGraph) -> usize>(
    stabilizers: &Vec<PhysicalPauliString>,
    operator: &PhysicalPauliString,
    block_name: K,
    config: &SurgeryGraphConfig,
    cache: &mut ShapeCache,
    expansion: &F,
) -> (r: Option<SurgeryGraph<K>>)
    requires
        old(cache).valid_for(*config, *expansion),
        forall|g: &AncillaGraph| call_requires(*expansion, (g,)),
    ensures
        final(cache).valid_for(*config, *expansion),
        !config.caching ==> *final(cache) == *old(cache),
        !config.caching && r is Some ==> built_anew(
            strings(stabilizers@),
            operator@,
            block_name,
            *config,
            *expansion,
            r->0,
        ),
        !numbered(path_graph(strings(stabilizers@), operator@)) ==> r is None && *final(cache)
            == *old(cache),
        config.caching && numbered(path_graph(strings(stabilizers@), operator@)) ==> served(
            strings(stabilizers@),
            operator@,
            block_name,
            *config,
            *expansion,
            *old(cache),
            *final(cache),
            r,
        ),
        r matches Some(s) ==> s.wf() && exists|c: Cellulation| #[trigger]
            finished(strings(stabilizers@), operator@, block_name, c, s) && built_for_shape(
                shape_of(path_graph(strings(stabilizers@), operator@)),
                *config,
                *expansion,
                c,
            ),
        r is None ==> too_large(path_graph(strings(stabilizers@), operator@), *config, *expansion),
{
    let ghost stabs = strings(stabilizers@);
    let ghost p = path_graph(stabs, operator@);
    let (g, path_matching) = match path_matching_graph(stabilizers, operator) {
        None => {
            return None;
        },
        Some(o) => o,
    };
    let n: usize = g.node_count();
    let sites = operator.sites();
    if !config.caching {
        return match build_cells(&g, config, expansion) {
            None => None,
            Some(c) => {
                let r = finish_graph(&c, sites, block_name, path_matching);
                proof {
                    assert(built_from(p, *config, *expansion, c));
                    assert(built_for_shape(shape_of(p), *config, *expansion, c));
                    assert(finished(stabs, operator@, block_name, c, r));
                    assert(built_anew(stabs, operator@, block_name, *config, *expansion, r));
                    lemma_finished_wf(stabs, operator@, *config, *expansion, c, block_name, r);
                }
                Some(r)
            },
        };
    }
    let key = shape_edges(&g);
    if let Some(i) = cache.find(n, &key) {
        let r = finish_graph(&cache.entries[i].cells, sites, block_name, path_matching);
        proof {
            let c = cache.entries@[i as int].cells;
            law_stored_fits_its_shape(*cache, *config, *expansion, shape_of(p));
            assert(finished(stabs, operator@, block_name, c, r));
            lemma_finished_wf(stabs, operator@, *config, *expansion, c, block_name, r);
        }
        return Some(r);
    }
    match build_cells(&g, config, expansion) {
        None => None,
        Some(c) => {
            let r = finish_graph(&c, sites, block_name, path_matching);
            proof {
                assert(built_from(p, *config, *expansion, c));
                assert(built_for_shape(shape_of(p), *config, *expansion, c));
                assert(finished(stabs, operator@, block_name, c, r));
                lemma_finished_wf(stabs, operator@, *config, *expansion, c, block_name, r);
            }
            cache.store(n, key, c, Ghost(*config), expansion);
            Some(r)
        },
    }
}

/// The surgery graph of an operator. `None` if a graph is too large to number.
pub fn surgery_graph<K: BlockLabel, F: Fn(&AncillaGraph) -> usize>(
    stabilizers: &Vec<PhysicalPauliString>,
    operator: &PhysicalPauliString,
    block_name: K,
    config: &SurgeryGraphConfig,
    expansion: &F,
) -> (r: Option<SurgeryGraph<K>>)
    requires
        forall|g: &AncillaGraph| call_requires(*expansion, (g,)),
    ensures
        r matches Some(s) ==> s.wf() && built_anew(
            strings(stabilizers@),
            operator@,
            block_name,
            *config,
            *expansion,
            s,
        ),
        r is None ==> too_large(path_graph(strings(stabilizers@), operator@), *config, *expansion),
{
    let mut cache = ShapeCache::new();
    proof {
        law_empty_cache_is_valid(cache, *config, *expansion);
    }
    surgery_graph_cached(stabilizers, operator, block_name, config, &mut cache, expansion)
}

// ---------------------------------------------------------------------------
// Ports
// ---------------------------------------------------------------------------
/// The vertices labelled with a qubit of the block, in order.
pub open spec fn ports_of<K>(labels: Seq<Option<CodeQubit<K>>>, block: K) -> Seq<usize>
    decreases labels.len(),
{
    if labels.len() == 0 {
        Seq::empty()
    } else {
        let rest = ports_of(labels.drop_last(), block);
        match labels.last() {
            Some(q) if q.block == block => rest.push((labels.len() - 1) as usize),
            _ => rest,
        }
    }
}

/// The ports of each block that has any, the blocks in order.
pub open spec fn grouped_ports<K: BlockLabel>(
    labels: Seq<Option<CodeQubit<K>>>,
    groups: Seq<(K, Vec<usize>)>,
) -> bool {
    &&& forall|i: int, j: int|
        #![trigger groups[i], groups[j]]
        0 <= i < j < groups.len() ==> groups[i].0.rank() < groups[j].0.rank()
    &&& forall|i: int|
        0 <= i < groups.len() ==> (#[trigger] groups[i]).1@ == ports_of(labels, groups[i].0)
            && groups[i].1@.len() > 0
    &&& forall|v: int|
        0 <= v < labels.len() ==> (#[trigger] labels[v] matches Some(q) ==> has_group(
            groups,
            q.block,
        ))
}

pub open spec fn has_group<K>(groups: Seq<(K, Vec<usize>)>, block: K) -> bool {
    exists|i: int| 0 <= i < groups.len() && (#[trigger] groups[i]).0 == block
}

pub proof fn lemma_ports_below<K>(labels: Seq<Option<CodeQubit<K>>>, block: K)
    requires
        labels.len() <= usize::MAX,
    ensures
        forall|i: int|
            0 <= i < ports_of(labels, block).len() ==> (#[trigger] ports_of(labels, block)[i])
                < labels.len(),
    decreases labels.len(),
{
    if labels.len() > 0 {
        let front = labels.drop_last();
        lemma_ports_below(front, block);
        let all = ports_of(labels, block);
        let rest = ports_of(front, block);
        assert forall|i: int| 0 <= i < all.len() implies (#[trigger] all[i]) < labels.len() by {
            if i < rest.len() {
                assert(all[i] == rest[i]);
            }
        }
    }
}

proof fn lemma_no_ports<K>(labels: Seq<Option<CodeQubit<K>>>, block: K)
    requires
        forall|v: int|
            0 <= v < labels.len() ==> (#[trigger] labels[v] matches Some(q) ==> q.block != block),
    ensures
        ports_of(labels, block) == Seq::<usize>::empty(),
    decreases labels.len(),
{
    if labels.len() > 0 {
        let front = labels.drop_last();
        assert forall|v: int| 0 <= v < front.len() implies (#[trigger] front[v] matches Some(q)
            ==> q.block != block) by {
            assert(front[v] == labels[v]);
        }
        lemma_no_ports(front, block);
        assert(labels[labels.len() - 1] == labels.last());
    }
}

impl<K: BlockLabel> SurgeryGraph<K> {
    /// The ports, grouped by code block: the blocks in order, each block's vertices in
    /// ascending order.
    pub fn ports_by_block(&self) -> (groups: Vec<(K, Vec<usize>)>)
        ensures
            grouped_ports(self.labels@, groups@),
    {
        let mut groups: Vec<(K, Vec<usize>)> = Vec::new();
        let n: usize = self.labels.len();
        let mut v: usize = 0;
        assert(self.labels@.take(0) =~= Seq::empty());
        while v < n
            invariant
                v <= n,
                n == self.labels@.len(),
                grouped_ports(self.labels@.take(v as int), groups@),
            decreases n - v,
        {
            match &self.labels[v] {
                Some(q) => {
                    add_port(&mut groups, q.block, v, Ghost(self.labels@));
                },
                None => {
                    proof {
                        lemma_unlabelled(self.labels@, groups@, v as int);
                    }
                },
            }
            v = v + 1;
        }
        assert(self.labels@.take(n as int) =~= self.labels@);
        groups
    }
}

proof fn lemma_unlabelled<K: BlockLabel>(
    labels: Seq<Option<CodeQubit<K>>>,
    groups: Seq<(K, Vec<usize>)>,
    v: int,
)
    requires
        0 <= v < labels.len(),
        labels[v] is None,
        grouped_ports(labels.take(v), groups),
    ensures
        grouped_ports(labels.take(v + 1), groups),
{
    let before = labels.take(v);
    let after = labels.take(v + 1);
    assert(after.drop_last() =~= before);
    assert forall|i: int| 0 <= i < groups.len() implies (#[trigger] groups[i]).1@ == ports_of(
        after,
        groups[i].0,
    ) && groups[i].1@.len() > 0 by {
        assert(groups[i].1@ == ports_of(before, groups[i].0));
    }
    assert forall|u: int| 0 <= u < after.len() implies (#[trigger] after[u] matches Some(q)
        ==> has_group(groups, q.block)) by {
        if u < v {
            assert(before[u] == after[u]);
        }
    }
}

/// Add vertex `v` to its block's group.
fn add_port<K: BlockLabel>(
    groups: &mut Vec<(K, Vec<usize>)>,
    block: K,
    v: usize,
    Ghost(labels): Ghost<Seq<Option<CodeQubit<K>>>>,
)
    requires
        v < labels.len(),
        labels[v as int] matches Some(q) && q.block == block,
        grouped_ports(labels.take(v as int), old(groups)@),
    ensures
        grouped_ports(labels.take(v + 1), final(groups)@),
{
    let ghost before = labels.take(v as int);
    let ghost after = labels.take(v + 1);
    let ghost groups0 = groups@;
    let rank: usize = block.rank_of();
    let mut p: usize = 0;
    while p < groups.len() && groups[p].0.rank_of() < rank
        invariant
            p <= groups@.len(),
            groups@ == groups0,
            rank == block.rank(),
            forall|i: int| 0 <= i < p ==> (#[trigger] groups0[i]).0.rank() < rank,
        decreases groups@.len() - p,
    {
        p = p + 1;
    }
    proof {
        assert(after.drop_last() =~= before);
        assert(after.last() == labels[v as int]);
    }
    if p < groups.len() && groups[p].0.rank_of() == rank {
        proof {
            K::rank_injective(groups0[p as int].0, block);
        }
        let mut entry: (K, Vec<usize>) = (block, Vec::new());
        core::mem::swap(&mut entry, &mut groups[p]);
        entry.1.push(v);
        core::mem::swap(&mut entry, &mut groups[p]);
        proof {
            assert forall|i: int| 0 <= i < groups@.len() implies (#[trigger] groups@[i]).1@
                == ports_of(after, groups@[i].0) && groups@[i].1@.len() > 0 by {
                assert(groups0[i].1@ == ports_of(before, groups0[i].0));
                if i != p && groups0[i].0 == block {
                    assert(groups0[i].0.rank() == groups0[p as int].0.rank());
                }
            }
            assert forall|u: int| 0 <= u < after.len() implies (#[trigger] after[u] matches Some(q)
                ==> has_group(groups@, q.block)) by {
                if u < v {
                    assert(before[u] == after[u]);
                    if after[u] is Some {
                        let b = after[u]->0.block;
                        let i = choose|i: int|
                            0 <= i < groups0.len() && (#[trigger] groups0[i]).0 == b;
                        assert(groups@[i].0 == b);
                    }
                } else {
                    assert(groups@[p as int].0 == block);
                }
            }
        }
    } else {
        let mut list: Vec<usize> = Vec::new();
        list.push(v);
        groups.insert(p, (block, list));
        proof {
            assert forall|u: int| 0 <= u < before.len() implies (#[trigger] before[u] matches Some(
                q,
            ) ==> q.block != block) by {
                if before[u] is Some && before[u]->0.block == block {
                    let i = choose|i: int|
                        0 <= i < groups0.len() && (#[trigger] groups0[i]).0 == block;
                    assert(groups0[i].0.rank() == rank);
                    if i > p {
                        assert(groups0[p as int].0.rank() < groups0[i].0.rank());
                    }
                }
            }
            lemma_no_ports(before, block);
            assert(list@ =~= ports_of(after, block));
            assert forall|i: int| 0 <= i < groups@.len() implies (#[trigger] groups@[i]).1@
                == ports_of(after, groups@[i].0) && groups@[i].1@.len() > 0 by {
                if i != p {
                    let old_i = if i < p {
                        i
                    } else {
                        i - 1
                    };
                    assert(groups@[i] == groups0[old_i]);
                    assert(groups0[old_i].1@ == ports_of(before, groups0[old_i].0));
                    if groups0[old_i].0 == block {
                        assert(groups0[old_i].0.rank() == rank);
                        if old_i > p {
                            assert(groups0[p as int].0.rank() < groups0[old_i].0.rank());
                        }
                    }
                }
            }
            assert forall|i: int, j: int|
                #![trigger groups@[i], groups@[j]]
                0 <= i < j < groups@.len() implies groups@[i].0.rank() < groups@[j].0.rank() by {
                if j < p {
                    assert(groups@[i] == groups0[i] && groups@[j] == groups0[j]);
                } else if j == p {
                    assert(groups@[i] == groups0[i]);
                } else {
                    assert(groups@[j] == groups0[j - 1]);
                    assert(groups0[p as int].0.rank() > rank);
                    if j - 1 > p {
                        assert(groups0[p as int].0.rank() < groups0[j - 1].0.rank());
                    }
                    if i < p {
                        assert(groups@[i] == groups0[i]);
                    } else if i > p {
                        assert(groups@[i] == groups0[i - 1]);
                    }
                }
            }
            assert forall|u: int| 0 <= u < after.len() implies (#[trigger] after[u] matches Some(q)
                ==> has_group(groups@, q.block)) by {
                if u < v {
                    assert(before[u] == after[u]);
                    if after[u] is Some {
                        let b = after[u]->0.block;
                        let i = choose|i: int|
                            0 <= i < groups0.len() && (#[trigger] groups0[i]).0 == b;
                        if i < p {
                            assert(groups@[i].0 == b);
                        } else {
                            assert(groups@[i + 1].0 == b);
                        }
                    }
                } else {
                    assert(groups@[p as int].0 == block);
                }
            }
        }
    }
}

/// The groups one behind the other.
pub open spec fn flat_groups<K>(groups: Seq<(K, Vec<usize>)>) -> Seq<usize>
    decreases groups.len(),
{
    if groups.len() == 0 {
        Seq::empty()
    } else {
        flat_groups(groups.drop_last()) + groups.last().1@
    }
}

/// All ports, block by block.
fn all_ports<K: BlockLabel>(g: &SurgeryGraph<K>) -> (r: Vec<usize>)
    requires
        g.labels@.len() <= g.graph@.nodes,
    ensures
        exists|groups: Seq<(K, Vec<usize>)>| #[trigger]
            grouped_ports(g.labels@, groups) && r@ == flat_groups(groups),
        forall|i: int| 0 <= i < r@.len() ==> #[trigger] r@[i] < g.graph@.nodes,
{
    let n: usize = g.labels.len();
    let groups = g.ports_by_block();
    let mut r: Vec<usize> = Vec::new();
    assert(groups@.take(0) =~= Seq::empty());
    for i in 0..groups.len()
        invariant
            n == g.labels@.len(),
            n <= g.graph@.nodes,
            grouped_ports(g.labels@, groups@),
            r@ == flat_groups(groups@.take(i as int)),
            forall|k: int| 0 <= k < r@.len() ==> #[trigger] r@[k] < g.graph@.nodes,
    {
        let ghost r0 = r@;
        let list = &groups[i].1;
        proof {
            assert(groups@[i as int].1@ == ports_of(g.labels@, groups@[i as int].0));
            lemma_ports_below(g.labels@, groups@[i as int].0);
            assert(groups@.take(i + 1).drop_last() =~= groups@.take(i as int));
        }
        for k in 0..list.len()
            invariant
                n == g.labels@.len(),
                n <= g.graph@.nodes,
                forall|q: int| 0 <= q < list@.len() ==> #[trigger] list@[q] < n,
                r@ == r0 + list@.take(k as int),
                forall|q: int| 0 <= q < r@.len() ==> #[trigger] r@[q] < g.graph@.nodes,
        {
            r.push(list[k]);
            assert(r@ =~= r0 + list@.take(k + 1));
        }
        assert(list@.take(list@.len() as int) =~= list@);
    }
    assert(groups@.take(groups@.len() as int) =~= groups@);
    r
}

// ---------------------------------------------------------------------------
// Bridges
// ---------------------------------------------------------------------------
/// The vertices are the same, or joined.
pub open spec fn graph_hop(edges: Seq<Edge>, a: usize, b: usize) -> bool {
    a == b || joined(edges, a, b)
}

/// At most three edges lie between the vertices.
pub open spec fn graph_near(edges: Seq<Edge>, a: usize, b: usize) -> bool {
    exists|x: usize, y: usize| #[trigger]
        graph_hop(edges, a, x) && #[trigger] graph_hop(edges, x, y) && graph_hop(edges, y, b)
}

/// The last place of `v` among the ports.
pub open spec fn last_place(ports: Seq<usize>, v: usize) -> Option<usize>
    decreases ports.len(),
{
    if ports.len() == 0 {
        None
    } else if ports.last() == v {
        Some((ports.len() - 1) as usize)
    } else {
        last_place(ports.drop_last(), v)
    }
}

/// The places among the ports of the vertices `ns`, but for place `i`.
pub open spec fn places_of(ns: Seq<usize>, ports: Seq<usize>, i: int) -> Seq<usize>
    decreases ns.len(),
{
    if ns.len() == 0 {
        Seq::empty()
    } else {
        let before = places_of(ns.drop_last(), ports, i);
        match last_place(ports, ns.last()) {
            Some(j) => if j != i {
                before.push(j)
            } else {
                before
            },
            None => before,
        }
    }
}

/// The graph that the ports induce: for each port, the places of its neighbours.
pub open spec fn induced_lists(edges: Seq<Edge>, ports: Seq<usize>) -> Seq<Seq<usize>> {
    Seq::new(ports.len(), |i: int| places_of(neighbours_of(edges, ports[i]), ports, i))
}

/// The ports at the places.
pub open spec fn at_places(ports: Seq<usize>, places: Seq<usize>) -> Seq<usize> {
    Seq::new(places.len(), |k: int| ports[places[k] as int])
}

/// Ports that the first one reaches through ports, each once, and consecutive ones at
/// most three edges apart.
pub open spec fn close_ports(edges: Seq<Edge>, ports: Seq<usize>, order: Seq<usize>) -> bool {
    &&& ports.len() == 0 ==> order.len() == 0
    &&& ports.len() > 0 ==> order.len() > 0 && order[0] == ports[0]
    &&& forall|i: int| 0 <= i < order.len() ==> ports.contains(#[trigger] order[i])
    &&& ports.no_duplicates() ==> order.no_duplicates()
    &&& forall|u: usize, w: usize|
        #![trigger order.contains(u), joined(edges, u, w)]
        order.contains(u) && joined(edges, u, w) && ports.contains(w) ==> order.contains(w)
    &&& forall|i: int|
        0 <= i < order.len() - 1 ==> graph_near(edges, #[trigger] order[i], order[i + 1])
}

/// The order is the SkipTree labelling of the graph that the ports induce, along its
/// breadth-first tree from the first one.
#[verifier::opaque]
pub open spec fn ports_labelled(edges: Seq<Edge>, ports: Seq<usize>, order: Seq<usize>) -> bool {
    exists|local: Seq<usize>| #[trigger]
        skip_order(induced_lists(edges, ports), local) && order == at_places(ports, local)
}

/// The SkipTree labeling of ports.
pub open spec fn port_order(edges: Seq<Edge>, ports: Seq<usize>, order: Seq<usize>) -> bool {
    &&& ports.len() > 0 ==> ports_labelled(edges, ports, order)
    &&& close_ports(edges, ports, order)
}

/// The last position of `v` among the ports.
fn port_position(ports: &Vec<usize>, v: usize) -> (r: Option<usize>)
    ensures
        r == last_place(ports@, v),
        r matches Some(p) ==> p < ports@.len() && ports@[p as int] == v,
        r is None ==> !ports@.contains(v),
{
    let mut n: usize = ports.len();
    assert(ports@.take(n as int) =~= ports@);
    while n > 0
        invariant
            n <= ports@.len(),
            last_place(ports@, v) == last_place(ports@.take(n as int), v),
            forall|i: int| n <= i < ports@.len() ==> #[trigger] ports@[i] != v,
        decreases n,
    {
        assert(ports@.take(n as int).drop_last() =~= ports@.take(n - 1));
        if ports[n - 1] == v {
            return Some(n - 1);
        }
        n = n - 1;
    }
    None
}

/// The neighbours of a port among the ports, by position.
fn port_neighbours(g: &AncillaGraph, ports: &Vec<usize>, i: usize) -> (r: Vec<usize>)
    requires
        i < ports@.len(),
        forall|k: int| 0 <= k < ports@.len() ==> #[trigger] ports@[k] < g@.nodes,
    ensures
        r@ == places_of(neighbours_of(g@.edges, ports@[i as int]), ports@, i as int),
        forall|k: int|
            0 <= k < r@.len() ==> #[trigger] r@[k] < ports@.len() && joined(
                g@.edges,
                ports@[i as int],
                ports@[r@[k] as int],
            ),
        forall|w: usize|
            ports@.contains(w) && #[trigger] joined(g@.edges, ports@[i as int], w) ==> w
                == ports@[i as int] || exists|k: int|
                0 <= k < r@.len() && ports@[#[trigger] r@[k] as int] == w,
{
    let mut r: Vec<usize> = Vec::new();
    let p = ports[i];
    let ns = g.neighbors(p);
    let mut k: usize = 0;
    assert(ns@.take(0) =~= Seq::empty());
    while k < ns.len()
        invariant
            i < ports@.len(),
            p == ports@[i as int],
            r@ == places_of(ns@.take(k as int), ports@, i as int),
            ns@ == neighbours_of(g@.edges, p),
            k <= ns@.len(),
            forall|q: int|
                0 <= q < r@.len() ==> #[trigger] r@[q] < ports@.len() && joined(
                    g@.edges,
                    p,
                    ports@[r@[q] as int],
                ),
            forall|q: int|
                0 <= q < k && ports@.contains(#[trigger] ns@[q]) ==> ns@[q] == p || exists|m: int|
                    0 <= m < r@.len() && ports@[#[trigger] r@[m] as int] == ns@[q],
        decreases ns@.len() - k,
    {
        let w = ns[k];
        let ghost r0 = r@;
        assert(ns@.take(k + 1).drop_last() =~= ns@.take(k as int));
        match port_position(ports, w) {
            Some(j) => {
                if j != i {
                    r.push(j);
                    proof {
                        assert(ns@.contains(w)) by {
                            assert(ns@[k as int] == w);
                        }
                        lemma_neighbours(g@.edges, p, w);
                        assert(r@[r0.len() as int] == j);
                    }
                }
            },
            None => {},
        }
        proof {
            assert forall|q: int|
                0 <= q < k + 1 && ports@.contains(#[trigger] ns@[q]) implies ns@[q] == p
                || exists|m: int|
                0 <= m < r@.len() && ports@[#[trigger] r@[m] as int] == ns@[q] by {
                if q < k && ns@[q] != p {
                    let m = choose|m: int|
                        0 <= m < r0.len() && ports@[#[trigger] r0[m] as int] == ns@[q];
                    assert(r@[m] == r0[m]);
                }
            }
        }
        k = k + 1;
    }
    proof {
        assert(ns@.take(ns@.len() as int) =~= ns@);
        assert forall|w: usize|
            ports@.contains(w) && #[trigger] joined(g@.edges, p, w) implies w == p || exists|m: int|
            0 <= m < r@.len() && ports@[#[trigger] r@[m] as int] == w by {
            lemma_neighbours(g@.edges, p, w);
            let q = ns@.index_of(w);
            assert(ns@[q] == w);
        }
    }
    r
}

/// SkipTree labeling of the ports within the graph.
pub fn skiptree_labeling(g: &AncillaGraph, ports: &Vec<usize>) -> (order: Vec<usize>)
    requires
        forall|k: int| 0 <= k < ports@.len() ==> #[trigger] ports@[k] < g@.nodes,
    ensures
        port_order(g@.edges, ports@, order@),
{
    let mut order: Vec<usize> = Vec::new();
    let n: usize = ports.len();
    if n == 0 {
        return order;
    }
    let mut lists: Vec<Vec<usize>> = Vec::new();
    for i in 0..n
        invariant
            n == ports@.len(),
            forall|k: int| 0 <= k < ports@.len() ==> #[trigger] ports@[k] < g@.nodes,
            lists@.len() == i,
            forall|v: int|
                0 <= v < i ==> (#[trigger] lists@[v])@ == places_of(
                    neighbours_of(g@.edges, ports@[v]),
                    ports@,
                    v,
                ),
            forall|v: int, k: int|
                0 <= v < i && 0 <= k < lists@[v]@.len() ==> #[trigger] lists@[v]@[k] < n && joined(
                    g@.edges,
                    ports@[v],
                    ports@[lists@[v]@[k] as int],
                ),
            forall|v: int, w: usize|
                #![trigger joined(g@.edges, ports@[v], w)]
                0 <= v < i && ports@.contains(w) && joined(g@.edges, ports@[v], w) ==> w == ports@[v]
                    || exists|k: int|
                    0 <= k < lists@[v]@.len() && ports@[#[trigger] lists@[v]@[k] as int] == w,
    {
        let row = port_neighbours(g, ports, i);
        let ghost before = lists@;
        lists.push(row);
        proof {
            assert forall|v: int, k: int|
                0 <= v < i + 1 && 0 <= k < lists@[v]@.len() implies #[trigger] lists@[v]@[k] < n
                && joined(g@.edges, ports@[v], ports@[lists@[v]@[k] as int]) by {
                if v < i {
                    assert(lists@[v] == before[v]);
                    assert(before[v]@[k] < n);
                } else {
                    assert(row@[k] < n);
                }
            }
            assert forall|v: int, w: usize|
                #![trigger joined(g@.edges, ports@[v], w)]
                0 <= v < i + 1 && ports@.contains(w) && joined(g@.edges, ports@[v], w) implies w
                == ports@[v] || exists|k: int|
                0 <= k < lists@[v]@.len() && ports@[#[trigger] lists@[v]@[k] as int] == w by {
                if v < i {
                    assert(lists@[v] == before[v]);
                    if w != ports@[v] {
                        let k = choose|k: int|
                            0 <= k < before[v]@.len() && ports@[#[trigger] before[v]@[k] as int]
                                == w;
                        assert(ports@[lists@[v]@[k] as int] == w);
                    }
                } else {
                    if w != ports@[v] {
                        let k = choose|k: int|
                            0 <= k < row@.len() && ports@[#[trigger] row@[k] as int] == w;
                        assert(ports@[lists@[v]@[k] as int] == w);
                    }
                }
            }
        }
    }
    let local = skiptree_order(&lists);
    for i in 0..local.len()
        invariant
            n == ports@.len(),
            n == lists@.len(),
            skip_order(lists_of(lists@), local@),
            order@.len() == i,
            forall|k: int| 0 <= k < i ==> #[trigger] order@[k] == ports@[local@[k] as int],
    {
        assert(local@[i as int] < lists_of(lists@).len());
        order.push(ports[local[i]]);
    }
    proof {
        lemma_close_ports(g@, ports@, lists@, local@, order@);
        assert(lists_of(lists@) =~= induced_lists(g@.edges, ports@));
        assert(order@ =~= at_places(ports@, local@));
        reveal(ports_labelled);
    }
    order
}

proof fn lemma_close_ports(
    g: GraphModel,
    ports: Seq<usize>,
    lists: Seq<Vec<usize>>,
    local: Seq<usize>,
    order: Seq<usize>,
)
    requires
        lists.len() == ports.len(),
        ports.len() > 0,
        forall|v: int, k: int|
            0 <= v < lists.len() && 0 <= k < lists[v]@.len() ==> #[trigger] lists[v]@[k]
                < ports.len() && joined(g.edges, ports[v], ports[lists[v]@[k] as int]),
        forall|v: int, w: usize|
            #![trigger joined(g.edges, ports[v], w)]
            0 <= v < lists.len() && ports.contains(w) && joined(g.edges, ports[v], w) ==> w
                == ports[v] || exists|k: int|
                0 <= k < lists[v]@.len() && ports[#[trigger] lists[v]@[k] as int] == w,
        skip_order(lists_of(lists), local),
        local[0] == 0,
        order.len() == local.len(),
        forall|k: int| 0 <= k < local.len() ==> #[trigger] order[k] == ports[local[k] as int],
    ensures
        close_ports(g.edges, ports, order),
{
    let all = lists_of(lists);
    assert(local.len() > 0);
    assert(order[0] == ports[0]);
    assert forall|i: int| 0 <= i < order.len() implies ports.contains(#[trigger] order[i]) by {
        assert(local[i] < all.len());
    }
    if ports.no_duplicates() {
        assert forall|i: int, j: int|
            0 <= i < order.len() && 0 <= j < order.len() && i != j implies order[i] != order[j] by {
            assert(local[i] < all.len() && local[j] < all.len());
            assert(local[i] != local[j]);
        }
    }
    assert forall|u: usize, w: usize|
        #![trigger order.contains(u), joined(g.edges, u, w)]
        order.contains(u) && joined(g.edges, u, w) && ports.contains(w) implies order.contains(
        w,
    ) by {
        let i = order.index_of(u);
        let v = local[i];
        assert(v < all.len());
        assert(ports[v as int] == u);
        assert(joined(g.edges, ports[v as int], w));
        if w != u {
            let k = choose|k: int|
                0 <= k < lists[v as int]@.len() && ports[#[trigger] lists[v as int]@[k] as int]
                    == w;
            let x = lists[v as int]@[k];
            assert(all[v as int].contains(x)) by {
                assert(all[v as int][k] == x);
            }
            assert(local.contains(v)) by {
                assert(local[i] == v);
            }
            let j = local.index_of(x);
            assert(order[j] == ports[local[j] as int]);
        }
    }
    assert forall|i: int| 0 <= i < order.len() - 1 implies graph_near(
        g.edges,
        #[trigger] order[i],
        order[i + 1],
    ) by {
        assert(list_near(all, local[i], local[i + 1]));
        let (x, y) = choose|x: usize, y: usize| #[trigger]
            list_hop(all, local[i], x) && #[trigger] list_hop(all, x, y) && list_hop(
                all,
                y,
                local[i + 1],
            );
        assert(local[i] < all.len() && local[i + 1] < all.len());
        lemma_port_hop(g, ports, lists, local[i], x);
        lemma_port_hop(g, ports, lists, x, y);
        lemma_port_hop(g, ports, lists, y, local[i + 1]);
        assert(order[i + 1] == ports[local[i + 1] as int]);
        assert(graph_hop(g.edges, order[i], ports[x as int]));
        assert(graph_hop(g.edges, ports[x as int], ports[y as int]));
    }
}

proof fn lemma_port_hop(
    g: GraphModel,
    ports: Seq<usize>,
    lists: Seq<Vec<usize>>,
    a: usize,
    b: usize,
)
    requires
        lists.len() == ports.len(),
        forall|v: int, k: int|
            0 <= v < lists.len() && 0 <= k < lists[v]@.len() ==> #[trigger] lists[v]@[k]
                < ports.len() && joined(g.edges, ports[v], ports[lists[v]@[k] as int]),
        list_hop(lists_of(lists), a, b),
    ensures
        graph_hop(g.edges, ports[a as int], ports[b as int]),
{
    if a != b {
        let all = lists_of(lists);
        if a < all.len() && all[a as int].contains(b) {
            let k = all[a as int].index_of(b);
            assert(lists[a as int]@[k] == b);
        } else {
            let k = all[b as int].index_of(a);
            assert(lists[b as int]@[k] == a);
        }
    }
}

/// The edges with every vertex moved up by `offset`.
pub open spec fn shifted(edges: Seq<Edge>, offset: nat) -> Seq<Edge> {
    Seq::new(
        edges.len(),
        |i: int| ((offset + edges[i].0) as usize, (offset + edges[i].1) as usize),
    )
}

/// The lists with every vertex moved up by `offset`, the smaller end first.
pub open spec fn shifted_lists(lists: Seq<Seq<Edge>>, offset: nat) -> Seq<Seq<Edge>> {
    Seq::new(lists.len(), |k: int| canonical_edges(shifted(lists[k], offset)))
}

/// The bridge: the first `d` ports of the two orders, paired up.
pub open spec fn bridge_edges(left: Seq<usize>, right: Seq<usize>, offset: nat, d: nat) -> Seq<
    Edge,
> {
    Seq::new(d, |i: int| (left[i], (offset + right[i]) as usize))
}

/// The least of three numbers.
pub open spec fn least(a: nat, b: nat, c: nat) -> nat {
    let m = if a <= b {
        a
    } else {
        b
    };
    if m <= c {
        m
    } else {
        c
    }
}

/// `order` is a SkipTree labeling of the graph's ports.
pub open spec fn labeled<K: BlockLabel>(g: SurgeryGraph<K>, order: Seq<usize>) -> bool {
    exists|groups: Seq<(K, Vec<usize>)>| #[trigger]
        grouped_ports(g.labels@, groups) && port_order(g.graph@.edges, flat_groups(groups), order)
}

/// The disjoint union of the graphs with a bridge between their ports.
pub open spec fn bridged<K>(
    left: SurgeryGraph<K>,
    right: SurgeryGraph<K>,
    lo: Seq<usize>,
    ro: Seq<usize>,
    distance: usize,
    r: SurgeryGraph<K>,
) -> bool {
    let offset = left.graph@.nodes;
    &&& r.graph@.nodes == offset + right.graph@.nodes
    &&& r.graph@.edges == left.graph@.edges + shifted(right.graph@.edges, offset) + bridge_edges(
        lo,
        ro,
        offset,
        least(distance as nat, lo.len(), ro.len()),
    )
    &&& r.labels@ == left.labels@ + right.labels@
    &&& cycle_views(r.cycle_checks@) == cycle_views(left.cycle_checks@) + shifted_lists(
        cycle_views(right.cycle_checks@),
        offset,
    )
    &&& cycle_views(r.path_matching@) == cycle_views(left.path_matching@) + shifted_lists(
        cycle_views(right.path_matching@),
        offset,
    )
}

/// The lists with every vertex moved up.
fn shift_lists(lists: &Vec<Vec<Edge>>, offset: usize, out: &mut Vec<Vec<Edge>>, Ghost(n): Ghost<nat>)
    requires
        offset + n <= u32::MAX,
        forall|k: int, i: int|
            0 <= k < lists@.len() && 0 <= i < lists@[k]@.len() ==> (#[trigger] lists@[k]@[i]).0 < n
                && lists@[k]@[i].1 < n,
    ensures
        cycle_views(final(out)@) == cycle_views(old(out)@) + shifted_lists(
            cycle_views(lists@),
            offset as nat,
        ),
{
    let ghost before = cycle_views(out@);
    let ghost all = shifted_lists(cycle_views(lists@), offset as nat);
    assert(before + all.take(0) =~= before);
    for k in 0..lists.len()
        invariant
            offset + n <= u32::MAX,
            forall|k: int, i: int|
                0 <= k < lists@.len() && 0 <= i < lists@[k]@.len() ==> (
                #[trigger] lists@[k]@[i]).0 < n && lists@[k]@[i].1 < n,
            all == shifted_lists(cycle_views(lists@), offset as nat),
            cycle_views(out@) == before + all.take(k as int),
    {
        let list = &lists[k];
        let mut row: Vec<Edge> = Vec::new();
        let ghost goal = all[k as int];
        for i in 0..list.len()
            invariant
                k < lists@.len(),
                list@ == lists@[k as int]@,
                offset + n <= u32::MAX,
                forall|k: int, i: int|
                    0 <= k < lists@.len() && 0 <= i < lists@[k]@.len() ==> (
                    #[trigger] lists@[k]@[i]).0 < n && lists@[k]@[i].1 < n,
                goal == canonical_edges(shifted(list@, offset as nat)),
                row@ == goal.take(i as int),
        {
            let (a, b) = list[i];
            assert(lists@[k as int]@[i as int] == (a, b));
            row.push(canonical_edge(offset + a, offset + b));
            assert(row@ =~= goal.take(i + 1));
        }
        assert(goal.take(list@.len() as int) =~= goal);
        proof {
            assert(cycle_views(out@.push(row)) =~= cycle_views(out@).push(row@));
            assert(all.take(k + 1) =~= all.take(k as int).push(goal));
            assert(before + all.take(k + 1) =~= (before + all.take(k as int)).push(goal));
        }
        out.push(row);
    }
    assert(all.take(all.len() as int) =~= all);
}

/// The listed edges run along vertices of the graph.
proof fn lemma_listed_below(g: GraphModel, lists: Seq<Vec<Edge>>)
    requires
        g.wf(),
        lists_joined(g.edges, cycle_views(lists)),
    ensures
        forall|k: int, i: int|
            0 <= k < lists.len() && 0 <= i < lists[k]@.len() ==> (#[trigger] lists[k]@[i]).0
                < g.nodes && lists[k]@[i].1 < g.nodes,
{
    let views = cycle_views(lists);
    assert forall|k: int, i: int|
        0 <= k < lists.len() && 0 <= i < lists[k]@.len() implies (#[trigger] lists[k]@[i]).0
        < g.nodes && lists[k]@[i].1 < g.nodes by {
        assert(all_joined(g.edges, views[k]));
        let e = views[k][i];
        assert(joined(g.edges, e.0, e.1));
        let p = if g.edges.contains((e.0, e.1)) {
            g.edges.index_of((e.0, e.1))
        } else {
            g.edges.index_of((e.1, e.0))
        };
        assert(g.edges[p].0 < g.nodes && g.edges[p].1 < g.nodes);
    }
}

/// A shifted list runs along shifted edges.
proof fn lemma_shifted_joined(
    edges: Seq<Edge>,
    lists: Seq<Seq<Edge>>,
    offset: nat,
    n: nat,
    more: Seq<Edge>,
    at: int,
)
    requires
        lists_joined(edges, lists),
        offset + n <= u32::MAX,
        forall|i: int| 0 <= i < edges.len() ==> (#[trigger] edges[i]).0 < n && edges[i].1 < n,
        0 <= at,
        at + edges.len() <= more.len(),
        forall|i: int| 0 <= i < edges.len() ==> #[trigger] shifted(edges, offset)[i] == more[at + i],
    ensures
        lists_joined(more, shifted_lists(lists, offset)),
{
    let out = shifted_lists(lists, offset);
    assert forall|k: int| 0 <= k < out.len() implies all_joined(more, #[trigger] out[k]) by {
        assert(all_joined(edges, lists[k]));
        assert forall|i: int| 0 <= i < out[k].len() implies joined(
            more,
            (#[trigger] out[k][i]).0,
            out[k][i].1,
        ) by {
            let e = lists[k][i];
            assert(joined(edges, e.0, e.1));
            let p = if edges.contains((e.0, e.1)) {
                edges.index_of((e.0, e.1))
            } else {
                edges.index_of((e.1, e.0))
            };
            assert(edges[p] == (e.0, e.1) || edges[p] == (e.1, e.0));
            assert(shifted(edges, offset)[p] == more[at + p]);
        }
    }
}

/// Connect two measurement graphs into one for the product of their operators, by a
/// bridge of up to `distance` edges between their ports: the ports are put into
/// SkipTree order on each side, and equal labels are matched, which keeps the new
/// cycles short. `None` if the result is too large to number.
#[verifier::spinoff_prover]
pub fn bridge_surgery_graphs<K: BlockLabel>(
    left: &SurgeryGraph<K>,
    right: &SurgeryGraph<K>,
    distance: usize,
) -> (r: Option<SurgeryGraph<K>>)
    requires
        left.wf(),
        right.wf(),
    ensures
        r matches Some(s) ==> s.wf() && exists|lo: Seq<usize>, ro: Seq<usize>| #[trigger]
            labeled(*left, lo) && #[trigger] labeled(*right, ro) && bridged(
                *left,
                *right,
                lo,
                ro,
                distance,
                s,
            ),
        r is None ==> left.graph@.nodes + right.graph@.nodes > u32::MAX || exists|
            lo: Seq<usize>,
            ro: Seq<usize>,
        | #[trigger]
            labeled(*left, lo) && #[trigger] labeled(*right, ro) && left.graph@.edges.len()
                + right.graph@.edges.len() + least(distance as nat, lo.len(), ro.len()) > u32::MAX,
{
    let offset: usize = left.graph.node_count();
    let n_right: usize = right.graph.node_count();
    let m_left: usize = left.graph.edge_count();
    let m_right: usize = right.graph.edge_count();
    if n_right > u32::MAX as usize - offset {
        return None;
    }
    let left_ports = all_ports(left);
    let right_ports = all_ports(right);
    let lo = skiptree_labeling(&left.graph, &left_ports);
    let ro = skiptree_labeling(&right.graph, &right_ports);
    proof {
        assert(labeled(*left, lo@));
        assert(labeled(*right, ro@));
    }
    let mut d: usize = distance;
    if lo.len() < d {
        d = lo.len();
    }
    if ro.len() < d {
        d = ro.len();
    }
    if m_right > u32::MAX as usize - m_left || d > u32::MAX as usize - m_left - m_right {
        return None;
    }
    let ghost goal_right = shifted(right.graph@.edges, offset as nat);
    let ghost goal_bridge = bridge_edges(lo@, ro@, offset as nat, d as nat);
    let mut graph = left.graph.clone();
    for i in 0..n_right
        invariant
            offset + n_right <= u32::MAX,
            graph@ == (GraphModel { nodes: (offset + i) as nat, edges: left.graph@.edges }),
    {
        graph.add_node();
    }
    assert(left.graph@.edges + goal_right.take(0) =~= left.graph@.edges);
    for e in 0..m_right
        invariant
            m_left == left.graph@.edges.len(),
            m_right == right.graph@.edges.len(),
            n_right == right.graph@.nodes,
            offset + n_right <= u32::MAX,
            m_left + m_right <= u32::MAX,
            goal_right == shifted(right.graph@.edges, offset as nat),
            graph@.nodes == offset + n_right,
            graph@.edges == left.graph@.edges + goal_right.take(e as int),
    {
        let (a, b) = right.graph.edge_endpoints(e);
        graph.add_edge(offset + a, offset + b);
        assert(graph@.edges =~= left.graph@.edges + goal_right.take(e + 1));
    }
    assert(goal_right.take(m_right as int) =~= goal_right);
    let ghost both = left.graph@.edges + goal_right;
    assert(both + goal_bridge.take(0) =~= both);
    for i in 0..d
        invariant
            d <= lo@.len(),
            d <= ro@.len(),
            offset + n_right <= u32::MAX,
            n_right == right.graph@.nodes,
            offset == left.graph@.nodes,
            both.len() + d <= u32::MAX,
            goal_bridge == bridge_edges(lo@, ro@, offset as nat, d as nat),
            port_order(left.graph@.edges, left_ports@, lo@),
            port_order(right.graph@.edges, right_ports@, ro@),
            forall|k: int| 0 <= k < left_ports@.len() ==> #[trigger] left_ports@[k] < offset,
            forall|k: int| 0 <= k < right_ports@.len() ==> #[trigger] right_ports@[k] < n_right,
            graph@.nodes == offset + n_right,
            graph@.edges == both + goal_bridge.take(i as int),
    {
        proof {
            assert(left_ports@.contains(lo@[i as int]));
            assert(right_ports@.contains(ro@[i as int]));
            let p = left_ports@.index_of(lo@[i as int]);
            let q = right_ports@.index_of(ro@[i as int]);
            assert(left_ports@[p] < offset && right_ports@[q] < n_right);
        }
        graph.add_edge(lo[i], offset + ro[i]);
        assert(graph@.edges =~= both + goal_bridge.take(i + 1));
    }
    assert(goal_bridge.take(d as int) =~= goal_bridge);
    let mut labels: Vec<Option<CodeQubit<K>>> = Vec::new();
    copy_labels(&left.labels, &mut labels);
    copy_labels(&right.labels, &mut labels);
    assert(labels@ =~= left.labels@ + right.labels@);
    let mut cycle_checks = copy_lists(&left.cycle_checks);
    let mut path_matching = copy_lists(&left.path_matching);
    proof {
        lemma_listed_below(right.graph@, right.cycle_checks@);
        lemma_listed_below(right.graph@, right.path_matching@);
    }
    shift_lists(&right.cycle_checks, offset, &mut cycle_checks, Ghost(n_right as nat));
    shift_lists(&right.path_matching, offset, &mut path_matching, Ghost(n_right as nat));
    let r = SurgeryGraph { graph, labels, cycle_checks, path_matching };
    proof {
        assert(labeled(*left, lo@));
        assert(labeled(*right, ro@));
        assert(bridged(*left, *right, lo@, ro@, distance, r));
        lemma_bridged_wf(*left, *right, lo@, ro@, distance, r);
    }
    Some(r)
}

fn copy_labels<K: BlockLabel>(
    labels: &Vec<Option<CodeQubit<K>>>,
    out: &mut Vec<Option<CodeQubit<K>>>,
)
    ensures
        final(out)@ == old(out)@ + labels@,
{
    let ghost before = out@;
    assert(before + labels@.take(0) =~= before);
    for i in 0..labels.len()
        invariant
            out@ == before + labels@.take(i as int),
    {
        match &labels[i] {
            Some(q) => {
                out.push(Some(CodeQubit { block: q.block, index: q.index }));
            },
            None => {
                out.push(None);
            },
        }
        assert(out@ =~= before + labels@.take(i + 1));
    }
    assert(labels@.take(labels@.len() as int) =~= labels@);
}

proof fn lemma_bridged_wf<K>(
    left: SurgeryGraph<K>,
    right: SurgeryGraph<K>,
    lo: Seq<usize>,
    ro: Seq<usize>,
    distance: usize,
    r: SurgeryGraph<K>,
)
    requires
        left.wf(),
        right.wf(),
        r.graph@.wf(),
        bridged(left, right, lo, ro, distance, r),
    ensures
        r.wf(),
{
    let offset = left.graph@.nodes;
    let le = left.graph@.edges;
    let re = right.graph@.edges;
    let all = r.graph@.edges;
    assert(all.take(le.len() as int) =~= le);
    assert forall|i: int| 0 <= i < re.len() implies #[trigger] shifted(re, offset)[i] == all[
        le.len() + i] by {}
    let (a, b) = (cycle_views(left.cycle_checks@), cycle_views(right.cycle_checks@));
    let (c, d) = (cycle_views(left.path_matching@), cycle_views(right.path_matching@));
    crate::cellulation::lemma_lists_extended(le, all, a);
    crate::cellulation::lemma_lists_extended(le, all, c);
    lemma_shifted_joined(re, b, offset, right.graph@.nodes, all, le.len() as int);
    lemma_shifted_joined(re, d, offset, right.graph@.nodes, all, le.len() as int);
    lemma_lists_both(all, a, shifted_lists(b, offset));
    lemma_lists_both(all, c, shifted_lists(d, offset));
}

proof fn lemma_lists_both(edges: Seq<Edge>, a: Seq<Seq<Edge>>, b: Seq<Seq<Edge>>)
    requires
        lists_joined(edges, a),
        lists_joined(edges, b),
    ensures
        lists_joined(edges, a + b),
{
    let all = a + b;
    assert forall|k: int| 0 <= k < all.len() implies all_joined(edges, #[trigger] all[k]) by {
        if k < a.len() {
            assert(all[k] == a[k]);
        } else {
            assert(all[k] == b[k - a.len()]);
        }
    }
}

/// Two graphs with the same contents.
pub open spec fn same_graph<K>(a: SurgeryGraph<K>, b: SurgeryGraph<K>) -> bool {
    &&& a.graph@ == b.graph@
    &&& a.labels@ == b.labels@
    &&& cycle_views(a.cycle_checks@) == cycle_views(b.cycle_checks@)
    &&& cycle_views(a.path_matching@) == cycle_views(b.path_matching@)
}

impl<K: BlockLabel> Clone for SurgeryGraph<K> {
    fn clone(&self) -> (r: Self)
        ensures
            same_graph(*self, r),
    {
        let mut labels: Vec<Option<CodeQubit<K>>> = Vec::new();
        copy_labels(&self.labels, &mut labels);
        assert(labels@ =~= self.labels@);
        SurgeryGraph {
            graph: self.graph.clone(),
            labels,
            cycle_checks: copy_lists(&self.cycle_checks),
            path_matching: copy_lists(&self.path_matching),
        }
    }
}

} // verus!
