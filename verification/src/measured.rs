//! A surgery graph measures the operator that it was built for.

use vstd::prelude::*;

#[allow(unused_imports)]
use crate::cellulation::{
    all_joined, chord_added, chords_added, closed_list, cycles_cut, faces_cut, faces_of,
    horizontal, law_faces_are_cycles, law_walk_round_cycle, lemma_thick_id, levels_cut,
    levels_ok, order_of, product, rungs, simple_list, thick_cycles, thick_edge, vertical,
    CellModel, Cellulation,
};
#[allow(unused_imports)]
use crate::circuit_to_checks::{
    code_forms, code_sites, deformed, graph_for, is_deformation, joint_sites, merged_forms, only_block,
    others, pair_deformation, part_of, single_deformation, single_statics, stabs_of, third,
    two_blocks, BlockKind, CodeData, Deformation, SupportModel,
};
#[allow(unused_imports)]
use crate::expander::{load_bound, CongestionAwareExpander};
#[allow(unused_imports)]
use crate::graph::{joined, AncillaGraph, Edge, GraphModel};
#[allow(unused_imports)]
use crate::graph_construction::{canonical, cycle_views, ends_at};
#[allow(unused_imports)]
use crate::graph_to_checks::{check_views, merged_checks, path_of, pauli_on};
#[allow(unused_imports)]
use crate::keyed::{has_key, key_lt, key_position, strictly_keyed, OrderedKey};
#[allow(unused_imports)]
use crate::merged_code::{
    law_checks_commute, law_operator_is_product_of_vertex_checks, lemma_anticommuting_sites,
    lemma_no_clashes, lemma_pauli_at, lemma_pauli_on, lemma_sort_strict, lemma_sorted_at,
    lemma_strict_is_single, matches_ports, measures,
    no_identities, one_site_each, port_clash, ports_carry, product_of, site_clash, site_clashes,
    stabilizers_commute, without_loops,
};
#[allow(unused_imports)]
use crate::pbc::{
    anticommuting_sites, law_commute_iff_products_agree, lifted_sites, pauli_at, sort_sites,
    strings_commute, CodeQubit, MergedCodeQubit,
    BlockLabel, Pauli, PhysicalPauliString, PhysicalQubit, Sign, SignedPauli,
};
#[allow(unused_imports)]
use crate::surgery::{
    built_for_shape, built_from, canonical_edges, cells_of, clash_positions, clashes, best_expanded,
    bridge_edges, bridged, finished, first_pauli, flat_groups, grouped_ports, labeled, least,
    lemma_ports_below, port_order, ports_of, last_position, law_cells_hold_graph,
    law_same_shape_joins, lemma_layers_ok, lemma_levels_stay_ok, levels_of, matched,
    all_matched, paired, path_graph, port_labels, shape_of, shifted, shifted_lists, strings,
    Site, SurgeryGraph, SurgeryGraphConfig,
};

verus! {

// ---------------------------------------------------------------------------
// Cellulations
// ---------------------------------------------------------------------------
/// Every check is a cycle, and no edge is a loop.
spec fn sound_cells(s: CellModel) -> bool {
    &&& without_loops(s.edges)
    &&& forall|k: int| 0 <= k < s.checks.len() ==> is_cycle(#[trigger] s.checks[k])
}

spec fn is_cycle(list: Seq<Edge>) -> bool {
    simple_list(list) && closed_list(list)
}

proof fn lemma_chords_sound(s: CellModel, cycle: Seq<Edge>, face: Seq<Edge>)
    requires
        sound_cells(s),
        forall|i: int| 0 <= i < face.len() ==> (#[trigger] face[i]).0 != face[i].1,
    ensures
        sound_cells(chords_added(s, cycle, face)),
        chords_added(s, cycle, face).checks == s.checks,
    decreases face.len(),
{
    if face.len() > 0 {
        let front = face.drop_last();
        assert forall|i: int| 0 <= i < front.len() implies (#[trigger] front[i]).0 != front[i].1 by {
            assert(front[i] == face[i]);
        }
        lemma_chords_sound(s, cycle, front);
        let t = chords_added(s, cycle, front);
        let e = face[face.len() - 1];
        assert(e.0 != e.1);
        let u = chord_added(t, cycle, e);
        assert forall|k: int| 0 <= k < u.edges.len() implies (#[trigger] u.edges[k]).0
            != u.edges[k].1 by {
            if k < t.edges.len() {
                assert(u.edges[k] == t.edges[k]);
            }
        }
    }
}

proof fn lemma_faces_sound(s: CellModel, cycle: Seq<Edge>, faces: Seq<Seq<Edge>>)
    requires
        sound_cells(s),
        forall|k: int| 0 <= k < faces.len() ==> is_cycle(#[trigger] faces[k]),
    ensures
        sound_cells(faces_cut(s, cycle, faces)),
    decreases faces.len(),
{
    if faces.len() > 0 {
        let front = faces.drop_last();
        assert forall|k: int| 0 <= k < front.len() implies is_cycle(#[trigger] front[k]) by {
            assert(front[k] == faces[k]);
        }
        lemma_faces_sound(s, cycle, front);
        let t = faces_cut(s, cycle, front);
        let face = faces[faces.len() - 1];
        assert(is_cycle(face));
        lemma_chords_sound(t, cycle, face);
        let u = faces_cut(s, cycle, faces);
        assert forall|k: int| 0 <= k < u.checks.len() implies is_cycle(#[trigger] u.checks[k]) by {
            if k < t.checks.len() {
                assert(u.checks[k] == t.checks[k]);
            }
        }
    }
}

proof fn lemma_cycles_sound(s: CellModel, cycles: Seq<Seq<Edge>>, d_c: usize)
    requires
        sound_cells(s),
        forall|k: int|
            0 <= k < cycles.len() ==> order_of(#[trigger] cycles[k]).no_duplicates(),
    ensures
        sound_cells(cycles_cut(s, cycles, d_c)),
    decreases cycles.len(),
{
    if cycles.len() > 0 {
        let front = cycles.drop_last();
        assert forall|k: int| 0 <= k < front.len() implies order_of(
            #[trigger] front[k],
        ).no_duplicates() by {
            assert(front[k] == cycles[k]);
        }
        lemma_cycles_sound(s, front, d_c);
        let cycle = cycles[cycles.len() - 1];
        assert(order_of(cycle).no_duplicates());
        let faces = faces_of(order_of(cycle), d_c);
        law_faces_are_cycles(order_of(cycle), d_c);
        assert forall|k: int| 0 <= k < faces.len() implies is_cycle(#[trigger] faces[k]) by {
            assert(simple_list(faces_of(order_of(cycle), d_c)[k]));
        }
        lemma_faces_sound(cycles_cut(s, front, d_c), cycle, faces);
    }
}

proof fn lemma_levels_sound(s: CellModel, levels: Seq<Seq<Seq<Edge>>>, n: nat, d_c: usize)
    requires
        sound_cells(s),
        levels_ok(levels, n),
    ensures
        sound_cells(levels_cut(s, levels, d_c)),
    decreases levels.len(),
{
    if levels.len() > 0 {
        let front = levels.drop_last();
        let r = levels.len() - 1;
        assert forall|r: int, k: int|
            #![trigger front[r][k]]
            0 <= r < front.len() && 0 <= k < front[r].len() implies crate::graph_construction::two_regular(
            front[r][k],
        ) by {
            assert(front[r][k] == levels[r][k]);
        }
        assert forall|r: int, k: int, i: int|
            #![trigger front[r][k][i]]
            0 <= r < front.len() && 0 <= k < front[r].len() && 0 <= i < front[r][k].len() implies
            front[r][k][i].0 < n && front[r][k][i].1 < n by {
            assert(front[r][k][i] == levels[r][k][i]);
        }
        lemma_levels_sound(s, front, n, d_c);
        assert forall|k: int| 0 <= k < levels[r].len() implies order_of(
            #[trigger] levels[r][k],
        ).no_duplicates() by {
            law_walk_round_cycle(levels[r][k]);
        }
        lemma_cycles_sound(levels_cut(s, front, d_c), levels[r], d_c);
    }
}

proof fn lemma_horizontal_loops(edges: Seq<Edge>, base: nat, levels: nat, most: nat)
    requires
        without_loops(edges),
        levels <= most,
        most * base <= u32::MAX,
        forall|i: int| 0 <= i < edges.len() ==> (#[trigger] edges[i]).0 < base && edges[i].1 < base,
    ensures
        without_loops(horizontal(edges, base, levels)),
    decreases levels,
{
    if levels > 0 {
        let below = horizontal(edges, base, (levels - 1) as nat);
        let all = horizontal(edges, base, levels);
        let r = (levels - 1) as nat;
        lemma_horizontal_loops(edges, base, r, most);
        assert forall|e: int| 0 <= e < all.len() implies (#[trigger] all[e]).0 != all[e].1 by {
            if e < below.len() {
                assert(all[e] == below[e]);
            } else {
                let f = edges[e - below.len()];
                assert(all[e] == thick_edge(base, f, r));
                lemma_thick_id(base, most, f.0, r);
                lemma_thick_id(base, most, f.1, r);
            }
        }
    }
}

proof fn lemma_vertical_loops(base: nat, levels: nat, n: nat)
    requires
        levels * base <= u32::MAX,
        n <= base,
    ensures
        without_loops(vertical(base, levels, n)),
    decreases n,
{
    if n > 0 {
        let below = vertical(base, levels, (n - 1) as nat);
        let all = vertical(base, levels, n);
        let v = (n - 1) as usize;
        lemma_vertical_loops(base, levels, (n - 1) as nat);
        assert forall|e: int| 0 <= e < all.len() implies (#[trigger] all[e]).0 != all[e].1 by {
            if e < below.len() {
                assert(all[e] == below[e]);
            } else {
                let r = e - below.len();
                assert(base <= levels * base) by (nonlinear_arith)
                    requires
                        levels >= 1,
                        base >= 0,
                ;
                assert(all[e] == rungs(base, v, levels)[r]);
                lemma_thick_id(base, levels, v, r as nat);
                lemma_thick_id(base, levels, v, (r + 1) as nat);
                assert((r + 1) * base == r * base + base) by (nonlinear_arith);
            }
        }
    }
}

/// The checks of a cellulation are cycles and its edges are no loops, where those of
/// the graph that it was built from are none.
proof fn lemma_cells_sound<F: Fn(&AncillaGraph) -> usize>(
    g0: GraphModel,
    config: SurgeryGraphConfig,
    expansion: F,
    c: Cellulation,
)
    requires
        built_from(g0, config, expansion, c),
        g0.wf(),
        without_loops(g0.edges),
        c.graph@.wf(),
    ensures
        sound_cells(c@),
{
    reveal(built_from);
    let x = choose|x: CongestionAwareExpander| #[trigger]
        best_expanded(g0, config, expansion, x) && x.graph@.wf() && c@ == cells_of(x, config)
            && c.graph@.nodes == levels_of(x) * g0.nodes;
    let levels = levels_of(x);
    let base = x.graph@.nodes;
    let p = product(x.graph@, levels);
    let edges = x.graph@.edges;
    lemma_layers_ok(g0, config.reset_period, load_bound(config.qubit_degree), expansion, x);
    lemma_levels_stay_ok(x.partition@, base, levels);
    assert forall|e: int| 0 <= e < edges.len() implies (#[trigger] edges[e]).0 != edges[e].1 by {
        if e < g0.edges.len() {
            assert(edges.take(g0.edges.len() as int)[e] == edges[e]);
            assert(g0.edges[e].0 != g0.edges[e].1);
        }
    }
    lemma_horizontal_loops(edges, base, levels, levels);
    lemma_vertical_loops(base, levels, base);
    let s = CellModel {
        edges: p.edges,
        checks: Seq::<Seq<Edge>>::empty(),
        chords: Seq::<Edge>::empty(),
    };
    let across = horizontal(edges, base, levels);
    assert forall|e: int| 0 <= e < s.edges.len() implies (#[trigger] s.edges[e]).0 != s.edges[e].1 by {
        if e < across.len() {
            assert(s.edges[e] == across[e]);
        } else {
            assert(s.edges[e] == vertical(base, levels, base)[e - across.len()]);
        }
    }
    lemma_levels_sound(
        s,
        thick_cycles(base, x.partition@, levels),
        levels * base,
        config.max_check_degree,
    );
}


// ---------------------------------------------------------------------------
// Path matchings
// ---------------------------------------------------------------------------
proof fn lemma_first_pauli(s: Seq<Site>, q: PhysicalQubit)
    requires
        one_site_each(s),
    ensures
        first_pauli(s, q) == if has_key(s, q) {
            Some(pauli_at(s, q))
        } else {
            None
        },
    decreases s.len(),
{
    lemma_pauli_at(s, q);
    if s.len() > 0 {
        let t = s.skip(1);
        assert forall|i: int, j: int| 0 <= i < j < t.len() implies (#[trigger] t[i]).0 != (
        #[trigger] t[j]).0 by {
            assert(s[i + 1].0 != s[j + 1].0);
        }
        lemma_first_pauli(t, q);
        lemma_pauli_at(t, q);
        if s[0].0 == q {
            assert(s[0] == (q, s[0].1));
            assert(has_key(s, q));
        } else if has_key(s, q) {
            let i = s.index_of((q, pauli_at(s, q)));
            assert(t[i - 1] == s[i]);
            assert(t[i - 1].0 == q);
            assert(t.contains((q, pauli_at(s, q))));
        } else if has_key(t, q) {
            assert(s[key_position(t, q) + 1].0 == q);
        }
    }
}

proof fn lemma_clashes_by_site(stabilizer: Seq<Site>, site: Site)
    requires
        one_site_each(stabilizer),
    ensures
        clashes(stabilizer, site) <==> site.1.anticommutes(pauli_at(stabilizer, site.0)),
{
    lemma_first_pauli(stabilizer, site.0);
    lemma_pauli_at(stabilizer, site.0);
}

proof fn lemma_last_position(s: Seq<Site>, k: int)
    requires
        one_site_each(s),
        0 <= k < s.len(),
        s.len() <= u32::MAX,
    ensures
        last_position(s, s[k].0) == k,
    decreases s.len(),
{
    let t = s.drop_last();
    if k < s.len() - 1 {
        assert(s[k].0 != s[s.len() - 1].0);
        assert forall|i: int, j: int| 0 <= i < j < t.len() implies (#[trigger] t[i]).0 != (
        #[trigger] t[j]).0 by {
            assert(s[i].0 != s[j].0);
        }
        lemma_last_position(t, k);
        assert(t[k] == s[k]);
    }
}

/// The positions where a stabilizer anti-commutes with the operator, once each.
proof fn lemma_positions(stabilizer: Seq<Site>, operator: Seq<Site>, n: int)
    requires
        one_site_each(stabilizer),
        one_site_each(operator),
        operator.len() <= u32::MAX,
        0 <= n <= operator.len(),
    ensures
        clash_positions(stabilizer, operator, n).no_duplicates(),
        forall|p: usize| #[trigger]
            clash_positions(stabilizer, operator, n).contains(p) <==> p < n && clashes(
                stabilizer,
                operator[p as int],
            ),
        clash_positions(stabilizer, operator, n).len() == site_clashes(
            operator.take(n),
            |q: PhysicalQubit| pauli_at(stabilizer, q),
        ),
    decreases n,
{
    let f = |q: PhysicalQubit| pauli_at(stabilizer, q);
    let all = clash_positions(stabilizer, operator, n);
    if n > 0 {
        let rest = clash_positions(stabilizer, operator, n - 1);
        lemma_positions(stabilizer, operator, n - 1);
        lemma_last_position(operator, n - 1);
        lemma_clashes_by_site(stabilizer, operator[n - 1]);
        assert(operator.take(n).drop_last() =~= operator.take(n - 1));
        assert(operator.take(n).last() == operator[n - 1]);
        assert forall|p: usize| #[trigger] all.contains(p) <==> p < n && clashes(
            stabilizer,
            operator[p as int],
        ) by {
            assert(rest.contains(p) <==> p < n - 1 && clashes(stabilizer, operator[p as int]));
            if rest.contains(p) {
                assert(all[rest.index_of(p)] == p);
            }
            if p == n - 1 && clashes(stabilizer, operator[n - 1]) {
                assert(all[rest.len() as int] == p);
            }
            if all.contains(p) {
                let i = all.index_of(p);
                if i < rest.len() {
                    assert(rest[i] == p);
                }
            }
        }
        assert(!rest.contains((n - 1) as usize));
    } else {
        assert(operator.take(n) =~= Seq::empty());
    }
}

/// Pairing up positions gives each of them one edge end.
proof fn lemma_paired_ends(positions: Seq<usize>, v: usize)
    requires
        positions.no_duplicates(),
        positions.len() % 2 == 0,
    ensures
        ends_at(canonical_edges(paired(positions)), v) == if positions.contains(v) {
            1nat
        } else {
            0nat
        },
        simple_list(canonical_edges(paired(positions))),
    decreases positions.len(),
{
    let edges = canonical_edges(paired(positions));
    let n = positions.len() as int;
    assert forall|i: int| 0 <= i < edges.len() implies (#[trigger] edges[i]).0 != edges[i].1 by {
        assert(positions[2 * i] != positions[2 * i + 1]);
    }
    assert forall|i: int, j: int| 0 <= i < j < edges.len() implies #[trigger] edges[i]
        != #[trigger] edges[j] && edges[i] != (edges[j].1, edges[j].0) by {
        assert(positions[2 * i] != positions[2 * j]);
        assert(positions[2 * i] != positions[2 * j + 1]);
    }
    if n > 0 {
        let front = positions.take(n - 2);
        let (a, b) = (positions[n - 2], positions[n - 1]);
        assert forall|i: int, j: int|
            0 <= i < front.len() && 0 <= j < front.len() && i != j implies front[i] != front[j] by {
            assert(positions[i] != positions[j]);
        }
        lemma_paired_ends(front, v);
        assert(edges.drop_last() =~= canonical_edges(paired(front)));
        assert(edges.last() == canonical(a, b));
        assert(a != b);
        if front.contains(v) {
            let i = front.index_of(v);
            assert(positions[i] == v);
            assert(positions[i] != a && positions[i] != b);
        } else if positions.contains(v) {
            let i = positions.index_of(v);
            if i < n - 2 {
                assert(front[i] == v);
            }
        }
    } else {
        assert(edges =~= Seq::<Edge>::empty());
        assert(!positions.contains(v));
    }
}

// ---------------------------------------------------------------------------
// Code qubits
// ---------------------------------------------------------------------------
proof fn lemma_code_sites(s: Seq<Site>, kind: BlockKind)
    requires
        strictly_keyed(s),
    ensures
        strictly_keyed(code_sites(s, kind)),
        one_site_each(code_sites(s, kind)),
        forall|i: usize|
            pauli_at(code_sites(s, kind), #[trigger] on_block(kind, i)) == pauli_at(
                s,
                PhysicalQubit(i),
            ),
        forall|i: usize|
            has_key(code_sites(s, kind), #[trigger] on_block(kind, i)) <==> has_key(
                s,
                PhysicalQubit(i),
            ),
{
    let t = code_sites(s, kind);
    assert forall|i: int, j: int| 0 <= i < j < t.len() implies key_lt(
        (#[trigger] t[i]).0.key(),
        (#[trigger] t[j]).0.key(),
    ) by {
        assert(key_lt(s[i].0.key(), s[j].0.key()));
    }
    lemma_strict_is_single(s);
    lemma_strict_is_single(t);
    assert forall|i: usize|
        pauli_at(t, #[trigger] on_block(kind, i)) == pauli_at(s, PhysicalQubit(i)) && (has_key(
            t,
            on_block(kind, i),
        ) <==> has_key(s, PhysicalQubit(i))) by {
        let q = PhysicalQubit(i);
        let c = on_block(kind, i);
        lemma_pauli_at(s, q);
        lemma_pauli_at(t, c);
        if has_key(s, q) {
            let k = s.index_of((q, pauli_at(s, q)));
            assert(t[k] == (c, pauli_at(s, q)));
            assert(t[k].0 == c);
        } else if has_key(t, c) {
            assert(s[key_position(t, c)].0 == q);
        }
    }
}

/// Qubit `i` of a block.
spec fn on_block(kind: BlockKind, i: usize) -> CodeQubit<BlockKind> {
    CodeQubit { block: kind, index: i }
}

proof fn lemma_code_commute(a: Seq<Site>, b: Seq<Site>, kind: BlockKind)
    ensures
        anticommuting_sites(code_sites(a, kind), code_sites(b, kind)) == anticommuting_sites(a, b),
    decreases a.len() + b.len(),
{
    if a.len() > 0 && b.len() > 0 {
        assert(code_sites(a, kind).skip(1) =~= code_sites(a.skip(1), kind));
        assert(code_sites(b, kind).skip(1) =~= code_sites(b.skip(1), kind));
        lemma_code_commute(a.skip(1), b, kind);
        lemma_code_commute(a, b.skip(1), kind);
        lemma_code_commute(a.skip(1), b.skip(1), kind);
    }
}

// ---------------------------------------------------------------------------
// Surgery graphs
// ---------------------------------------------------------------------------
/// A code whose stabilizers have one site per qubit and commute with one another and
/// with the operator.
pub open spec fn commuting_code(stabilizers: Seq<Seq<Site>>, operator: Seq<Site>) -> bool {
    &&& strictly_keyed(operator)
    &&& forall|k: int| 0 <= k < stabilizers.len() ==> strictly_keyed(#[trigger] stabilizers[k])
    &&& forall|k: int|
        0 <= k < stabilizers.len() ==> strings_commute(operator, #[trigger] stabilizers[k])
    &&& forall|j: int, k: int|
        #![trigger stabilizers[j], stabilizers[k]]
        0 <= j < stabilizers.len() && 0 <= k < stabilizers.len() ==> strings_commute(
            stabilizers[j],
            stabilizers[k],
        )
}

/// The stabilizer's path matching ends at the ports where it anti-commutes with the
/// operator.
proof fn lemma_matching_ends(
    stabilizer: Seq<Site>,
    operator: Seq<Site>,
    kind: BlockKind,
    n: nat,
)
    requires
        strictly_keyed(stabilizer),
        strictly_keyed(operator),
        strings_commute(operator, stabilizer),
        operator.len() <= n <= u32::MAX,
    ensures
        simple_list(canonical_edges(matched(stabilizer, operator))),
        matches_ports(
            port_labels(operator, kind, n),
            canonical_edges(matched(stabilizer, operator)),
            code_sites(stabilizer, kind),
            code_sites(operator, kind),
        ),
{
    let positions = clash_positions(stabilizer, operator, operator.len() as int);
    let path = canonical_edges(matched(stabilizer, operator));
    let labels = port_labels(operator, kind, n);
    lemma_strict_is_single(stabilizer);
    lemma_strict_is_single(operator);
    lemma_positions(stabilizer, operator, operator.len() as int);
    assert(operator.take(operator.len() as int) =~= operator);
    lemma_anticommuting_sites(operator, stabilizer);
    lemma_paired_ends(positions, 0);
    lemma_code_sites(stabilizer, kind);
    lemma_code_sites(operator, kind);
    assert forall|v: int| 0 <= v < labels.len() implies (#[trigger] ends_at(path, v as usize) % 2
        == 1 <==> port_clash(
        labels[v],
        code_sites(stabilizer, kind),
        code_sites(operator, kind),
    )) by {
        lemma_paired_ends(positions, v as usize);
        assert(positions.contains(v as usize) <==> v < operator.len() && clashes(
            stabilizer,
            operator[v],
        ));
        if v < operator.len() {
            let q = operator[v].0;
            let c = on_block(kind, q.0);
            assert(labels[v] == Some(c));
            lemma_clashes_by_site(stabilizer, operator[v]);
            lemma_pauli_at(operator, q);
            assert(operator[v] == (q, operator[v].1));
            assert(operator.contains((q, operator[v].1)));
            lemma_pauli_on(code_sites(operator, kind), c);
        }
    }
}

proof fn lemma_path_graph_loops(stabilizers: Seq<Seq<Site>>, operator: Seq<Site>)
    requires
        strictly_keyed(operator),
        forall|k: int| 0 <= k < stabilizers.len() ==> strictly_keyed(#[trigger] stabilizers[k]),
        operator.len() <= u32::MAX,
    ensures
        without_loops(all_matched(stabilizers, operator)),
    decreases stabilizers.len(),
{
    if stabilizers.len() > 0 {
        let front = stabilizers.drop_last();
        let last = stabilizers[stabilizers.len() - 1];
        assert forall|k: int| 0 <= k < front.len() implies strictly_keyed(#[trigger] front[k]) by {
            assert(front[k] == stabilizers[k]);
        }
        lemma_path_graph_loops(front, operator);
        lemma_strict_is_single(last);
        lemma_strict_is_single(operator);
        lemma_positions(last, operator, operator.len() as int);
        let before = all_matched(front, operator);
        let all = all_matched(stabilizers, operator);
        let positions = clash_positions(last, operator, operator.len() as int);
        assert forall|e: int| 0 <= e < all.len() implies (#[trigger] all[e]).0 != all[e].1 by {
            if e < before.len() {
                assert(all[e] == before[e]);
            } else {
                let k = e - before.len();
                assert(all[e] == paired(positions)[k]);
                assert(positions[2 * k] != positions[2 * k + 1]);
            }
        }
    }
}

/// The surgery graph of an operator measures it, on a code whose stabilizers commute
/// with one another and with the operator.
pub proof fn law_surgery_graph_measures<F: Fn(&AncillaGraph) -> usize>(
    stabs: Seq<PhysicalPauliString>,
    operator: Seq<Site>,
    kind: BlockKind,
    config: SurgeryGraphConfig,
    expansion: F,
    graph: SurgeryGraph<BlockKind>,
)
    requires
        commuting_code(strings(stabs), operator),
        graph_for(stabs, operator, kind, config, expansion, graph),
    ensures
        measures(graph, code_forms(stabs, kind), code_sites(operator, kind)),
        stabilizers_commute(code_forms(stabs, kind)),
        without_loops(graph.graph@.edges),
        ports_carry(graph.labels@, code_sites(operator, kind)),
{
    let stabilizers = strings(stabs);
    let p = path_graph(stabilizers, operator);
    let c = choose|c: Cellulation| #[trigger]
        finished(stabilizers, operator, kind, c, graph) && built_for_shape(
            shape_of(p),
            config,
            expansion,
            c,
        );
    let g0 = choose|g0: GraphModel|
        g0.wf() && shape_of(g0) == shape_of(p) && #[trigger] built_from(g0, config, expansion, c);
    law_cells_hold_graph(g0, config, expansion, c);
    assert(operator.len() <= graph.graph@.nodes);
    lemma_path_graph_loops(stabilizers, operator);
    assert forall|e: int| 0 <= e < g0.edges.len() implies (#[trigger] g0.edges[e]).0
        != g0.edges[e].1 by {
        let (a, b) = g0.edges[e];
        if a == b {
            assert(g0.edges.contains((a, a)));
            law_same_shape_joins(p, g0, a, a);
            let i = p.edges.index_of((a, a));
            assert(p.edges[i].0 != p.edges[i].1);
        }
    }
    lemma_cells_sound(g0, config, expansion, c);
    let checks = graph.cycle_checks@;
    assert forall|k: int| 0 <= k < checks.len() implies simple_list((#[trigger] checks[k])@)
        && closed_list(checks[k]@) by {
        assert(cycle_views(checks)[k] == checks[k]@);
        assert(is_cycle(c@.checks[k]));
    }
    let codes = code_forms(stabs, kind);
    let op = code_sites(operator, kind);
    assert forall|k: int| 0 <= k < codes.len() implies simple_list(#[trigger] path_of(graph, k))
        && matches_ports(graph.labels@, path_of(graph, k), codes[k].sites, op) by {
        assert(cycle_views(graph.path_matching@).len() == stabilizers.len());
        assert(cycle_views(graph.path_matching@)[k] == path_of(graph, k));
        assert(strictly_keyed(stabilizers[k]));
        assert(strings_commute(operator, stabilizers[k]));
        lemma_matching_ends(stabilizers[k], operator, kind, graph.graph@.nodes);
    }
    lemma_block_commutes(stabs, operator, kind);
    lemma_ports(operator, kind, graph.graph@.nodes);
}

/// The stabilizers of a block commute as operators on its code qubits.
proof fn lemma_block_commutes(
    stabs: Seq<PhysicalPauliString>,
    operator: Seq<Site>,
    kind: BlockKind,
)
    requires
        commuting_code(strings(stabs), operator),
    ensures
        stabilizers_commute(code_forms(stabs, kind)),
{
    let stabilizers = strings(stabs);
    let codes = code_forms(stabs, kind);
    assert forall|k: int| 0 <= k < codes.len() implies strictly_keyed((#[trigger] codes[k]).sites) by {
        assert(strictly_keyed(stabilizers[k]));
        lemma_code_sites(stabilizers[k], kind);
    }
    assert forall|i: int, j: int|
        #![trigger codes[i], codes[j]]
        0 <= i < codes.len() && 0 <= j < codes.len() implies strings_commute(
        codes[i].sites,
        codes[j].sites,
    ) by {
        lemma_code_commute(stabilizers[i], stabilizers[j], kind);
        assert(strings_commute(stabilizers[i], stabilizers[j]));
    }
}

proof fn lemma_ports(operator: Seq<Site>, kind: BlockKind, n: nat)
    requires
        strictly_keyed(operator),
        operator.len() <= n,
    ensures
        ports_carry(port_labels(operator, kind, n), code_sites(operator, kind)),
{
    let labels = port_labels(operator, kind, n);
    let op = code_sites(operator, kind);
    lemma_strict_is_single(operator);
    assert forall|u: int, v: int|
        0 <= u < v < labels.len() && #[trigger] labels[u] is Some implies labels[u]
        != #[trigger] labels[v] by {
        if v < operator.len() {
            assert(operator[u].0 != operator[v].0);
        }
    }
    assert forall|v: int| 0 <= v < labels.len() implies (#[trigger] labels[v] matches Some(q)
        ==> has_key(op, q)) by {
        if v < operator.len() {
            assert(op[v].0 == labels[v]->0);
        }
    }
    assert forall|i: int| 0 <= i < op.len() implies labels.contains(Some((#[trigger] op[i]).0)) by {
        assert(labels[i] == Some(op[i].0));
    }
}

/// The checks of the merged code of an operator's surgery graph commute with one
/// another, and the product of the vertex checks is the operator.
pub proof fn law_merged_code<F: Fn(&AncillaGraph) -> usize>(
    stabs: Seq<PhysicalPauliString>,
    operator: Seq<Site>,
    kind: BlockKind,
    config: SurgeryGraphConfig,
    expansion: F,
    graph: SurgeryGraph<BlockKind>,
)
    requires
        commuting_code(strings(stabs), operator),
        no_identities(operator),
        graph_for(stabs, operator, kind, config, expansion, graph),
    ensures
        ({
            let checks = merged_checks(
                graph,
                code_forms(stabs, kind),
                code_sites(operator, kind),
            );
            &&& forall|i: int, j: int|
                #![trigger checks[i], checks[j]]
                0 <= i < checks.len() && 0 <= j < checks.len() ==> strings_commute(
                    checks[i].sites,
                    checks[j].sites,
                )
            &&& product_of(checks.take(graph.graph@.nodes as int)) == (SignedPauli {
                sign: Sign::One,
                sites: lifted_sites(code_sites(operator, kind)),
            })
        }),
{
    let codes = code_forms(stabs, kind);
    let op = code_sites(operator, kind);
    let checks = merged_checks(graph, codes, op);
    law_surgery_graph_measures(stabs, operator, kind, config, expansion, graph);
    assert forall|i: int, j: int|
        #![trigger checks[i], checks[j]]
        0 <= i < checks.len() && 0 <= j < checks.len() implies strings_commute(
        checks[i].sites,
        checks[j].sites,
    ) by {
        law_checks_commute(graph, codes, op, i, j);
    }
    lemma_code_sites(operator, kind);
    assert forall|i: int| 0 <= i < op.len() implies !((#[trigger] op[i]).1 is I) by {
        assert(!(operator[i].1 is I));
    }
    law_operator_is_product_of_vertex_checks(graph, codes, op);
}

// ---------------------------------------------------------------------------
// Bridges
// ---------------------------------------------------------------------------
/// The listed edges run along vertices below `n`.
spec fn list_below(list: Seq<Edge>, n: nat) -> bool {
    forall|i: int| 0 <= i < list.len() ==> (#[trigger] list[i]).0 < n && list[i].1 < n
}

proof fn lemma_joined_below(g: GraphModel, list: Seq<Edge>)
    requires
        g.wf(),
        all_joined(g.edges, list),
    ensures
        list_below(list, g.nodes),
{
    assert forall|i: int| 0 <= i < list.len() implies (#[trigger] list[i]).0 < g.nodes
        && list[i].1 < g.nodes by {
        let (a, b) = list[i];
        assert(joined(g.edges, list[i].0, list[i].1));
        let k = if g.edges.contains((a, b)) {
            g.edges.index_of((a, b))
        } else {
            g.edges.index_of((b, a))
        };
        assert(g.edges[k].0 < g.nodes && g.edges[k].1 < g.nodes);
    }
}

proof fn lemma_no_ends_above(list: Seq<Edge>, n: nat, x: usize)
    requires
        list_below(list, n),
        x >= n,
    ensures
        ends_at(list, x) == 0,
    decreases list.len(),
{
    if list.len() > 0 {
        let front = list.drop_last();
        assert forall|i: int| 0 <= i < front.len() implies (#[trigger] front[i]).0 < n && front[i].1
            < n by {
            assert(front[i] == list[i]);
        }
        lemma_no_ends_above(front, n, x);
        assert(list[list.len() - 1].0 < n);
    }
}

/// Moving a list up moves its ends up.
proof fn lemma_shifted_list(list: Seq<Edge>, offset: nat, n: nat, x: usize)
    requires
        list_below(list, n),
        offset + n <= u32::MAX,
    ensures
        ends_at(canonical_edges(shifted(list, offset)), x) == if x >= offset {
            ends_at(list, (x - offset) as usize)
        } else {
            0
        },
        simple_list(list) ==> simple_list(canonical_edges(shifted(list, offset))),
    decreases list.len(),
{
    let moved = canonical_edges(shifted(list, offset));
    if list.len() > 0 {
        let front = list.drop_last();
        assert forall|i: int| 0 <= i < front.len() implies (#[trigger] front[i]).0 < n && front[i].1
            < n by {
            assert(front[i] == list[i]);
        }
        lemma_shifted_list(front, offset, n, x);
        assert(moved.drop_last() =~= canonical_edges(shifted(front, offset)));
        let e = list[list.len() - 1];
        assert(e.0 < n && e.1 < n);
        assert(moved.last() == canonical((offset + e.0) as usize, (offset + e.1) as usize));
    }
    if simple_list(list) {
        assert forall|i: int| 0 <= i < moved.len() implies (#[trigger] moved[i]).0 != moved[i].1 by {
            assert(list[i].0 != list[i].1);
        }
        assert forall|i: int, j: int| 0 <= i < j < moved.len() implies #[trigger] moved[i]
            != #[trigger] moved[j] && moved[i] != (moved[j].1, moved[j].0) by {
            assert(list[i] != list[j] && list[i] != (list[j].1, list[j].0));
            assert(list[i].0 < n && list[j].0 < n);
        }
    }
}

/// The operator agrees with a part of it on the labels of the part's graph, and the
/// stabilizers have nothing on the labels of the other graph.
pub open spec fn keeps_apart<K: BlockLabel>(
    labels: Seq<Option<CodeQubit<K>>>,
    part: Seq<(CodeQubit<K>, Pauli)>,
    operator: Seq<(CodeQubit<K>, Pauli)>,
    others: Seq<SignedPauli<CodeQubit<K>>>,
) -> bool {
    &&& forall|v: int|
        0 <= v < labels.len() ==> (#[trigger] labels[v] matches Some(q) ==> pauli_on(operator, q)
            == pauli_on(part, q))
    &&& clear_of(labels, others)
}

/// The operators have nothing on the qubits that the labels name.
pub open spec fn clear_of<K: BlockLabel>(
    labels: Seq<Option<CodeQubit<K>>>,
    others: Seq<SignedPauli<CodeQubit<K>>>,
) -> bool {
    forall|v: int, k: int|
        #![trigger labels[v], others[k]]
        0 <= v < labels.len() && 0 <= k < others.len() ==> (labels[v] matches Some(q) ==> pauli_at(
            others[k].sites,
            q,
        ) is I)
}

/// A bridge between two graphs that measure the parts of an operator measures the
/// operator.
pub proof fn law_bridge_measures<K: BlockLabel>(
    left: SurgeryGraph<K>,
    right: SurgeryGraph<K>,
    lo: Seq<usize>,
    ro: Seq<usize>,
    distance: usize,
    graph: SurgeryGraph<K>,
    left_stabs: Seq<SignedPauli<CodeQubit<K>>>,
    right_stabs: Seq<SignedPauli<CodeQubit<K>>>,
    left_op: Seq<(CodeQubit<K>, Pauli)>,
    right_op: Seq<(CodeQubit<K>, Pauli)>,
    operator: Seq<(CodeQubit<K>, Pauli)>,
)
    requires
        measures(left, left_stabs, left_op),
        measures(right, right_stabs, right_op),
        left.path_matching@.len() == left_stabs.len(),
        bridged(left, right, lo, ro, distance, graph),
        graph.wf(),
        keeps_apart(left.labels@, left_op, operator, right_stabs),
        keeps_apart(right.labels@, right_op, operator, left_stabs),
    ensures
        measures(graph, left_stabs + right_stabs, operator),
{
    let offset = left.graph@.nodes;
    let n = right.graph@.nodes;
    let stabs = left_stabs + right_stabs;
    let checks = graph.cycle_checks@;
    let c = left.cycle_checks@.len() as int;
    let all_checks = cycle_views(checks);
    assert forall|k: int| 0 <= k < checks.len() implies simple_list((#[trigger] checks[k])@)
        && closed_list(checks[k]@) by {
        assert(all_checks[k] == checks[k]@);
        if k < c {
            assert(cycle_views(left.cycle_checks@)[k] == left.cycle_checks@[k]@);
        } else {
            let list = right.cycle_checks@[k - c]@;
            assert(cycle_views(right.cycle_checks@)[k - c] == list);
            assert(simple_list(list) && closed_list(list));
            lemma_joined_below(right.graph@, list);
            lemma_shifted_list(list, offset, n, 0);
            assert forall|x: usize| #[trigger] ends_at(checks[k]@, x) % 2 == 0 by {
                lemma_shifted_list(list, offset, n, x);
                if x >= offset {
                    assert(ends_at(list, (x - offset) as usize) % 2 == 0);
                }
            }
        }
    }
    let paths = cycle_views(graph.path_matching@);
    let m = left_stabs.len() as int;
    let moved = shifted_lists(cycle_views(right.path_matching@), offset);
    assert(paths == cycle_views(left.path_matching@) + moved);
    assert(paths.len() == graph.path_matching@.len());
    assert(cycle_views(left.path_matching@).len() == m);
    assert(moved.len() == right.path_matching@.len());
    assert forall|k: int| 0 <= k < stabs.len() implies simple_list(#[trigger] path_of(graph, k))
        && matches_ports(graph.labels@, path_of(graph, k), stabs[k].sites, operator) by {
        let path = path_of(graph, k);
        if k < m {
            assert(simple_list(path_of(left, k)));
            assert(cycle_views(left.path_matching@)[k] == path_of(left, k));
            assert(paths[k] == graph.path_matching@[k]@);
            assert(paths[k] == path);
            lemma_joined_below(left.graph@, path);
            assert forall|v: int| 0 <= v < graph.labels@.len() implies (#[trigger] ends_at(
                path,
                v as usize,
            ) % 2 == 1 <==> port_clash(graph.labels@[v], stabs[k].sites, operator)) by {
                if v < offset {
                    assert(graph.labels@[v] == left.labels@[v]);
                    assert(ends_at(path_of(left, k), v as usize) % 2 == 1 <==> port_clash(
                        left.labels@[v],
                        left_stabs[k].sites,
                        left_op,
                    ));
                } else {
                    lemma_no_ends_above(path, offset, v as usize);
                    assert(graph.labels@[v] == right.labels@[v - offset]);
                    assert(stabs[k] == left_stabs[k]);
                }
            }
        } else {
            let own = path_of(right, k - m);
            assert(simple_list(own));
            assert(stabs[k] == right_stabs[k - m]);
            if k - m < right.path_matching@.len() {
                assert(cycle_views(right.path_matching@)[k - m] == own);
                assert(paths[k] == graph.path_matching@[k]@);
                assert(paths[k] == moved[k - m]);
            }
            assert(path =~= canonical_edges(shifted(own, offset)));
            lemma_joined_below(right.graph@, own);
            lemma_shifted_list(own, offset, n, 0);
            assert forall|v: int| 0 <= v < graph.labels@.len() implies (#[trigger] ends_at(
                path,
                v as usize,
            ) % 2 == 1 <==> port_clash(graph.labels@[v], stabs[k].sites, operator)) by {
                lemma_shifted_list(own, offset, n, v as usize);
                if v < offset {
                    assert(graph.labels@[v] == left.labels@[v]);
                } else {
                    let u = v - offset;
                    assert(graph.labels@[v] == right.labels@[u]);
                    assert(ends_at(own, u as usize) % 2 == 1 <==> port_clash(
                        right.labels@[u],
                        right_stabs[k - m].sites,
                        right_op,
                    ));
                }
            }
        }
    }
}


proof fn lemma_flat_below<K: BlockLabel>(
    labels: Seq<Option<CodeQubit<K>>>,
    groups: Seq<(K, Vec<usize>)>,
    x: usize,
)
    requires
        labels.len() <= u32::MAX,
        forall|i: int|
            0 <= i < groups.len() ==> (#[trigger] groups[i]).1@ == ports_of(labels, groups[i].0),
        flat_groups(groups).contains(x),
    ensures
        x < labels.len(),
    decreases groups.len(),
{
    let all = flat_groups(groups);
    let i = all.index_of(x);
    let front = groups.drop_last();
    let before = flat_groups(front);
    assert(all[i] == x);
    if i < before.len() {
        assert(before[i] == x);
        assert forall|k: int| 0 <= k < front.len() implies (#[trigger] front[k]).1@ == ports_of(
            labels,
            front[k].0,
        ) by {
            assert(front[k] == groups[k]);
        }
        lemma_flat_below(labels, front, x);
    } else {
        let last = groups[groups.len() - 1];
        assert(last.1@[i - before.len()] == x);
        lemma_ports_below(labels, last.0);
    }
}

proof fn lemma_labeled_below<K: BlockLabel>(g: SurgeryGraph<K>, order: Seq<usize>, i: int)
    requires
        g.wf(),
        labeled(g, order),
        0 <= i < order.len(),
    ensures
        order[i] < g.graph@.nodes,
{
    let groups = choose|groups: Seq<(K, Vec<usize>)>| #[trigger]
        grouped_ports(g.labels@, groups) && port_order(g.graph@.edges, flat_groups(groups), order);
    assert(flat_groups(groups).contains(order[i]));
    lemma_flat_below(g.labels@, groups, order[i]);
}

/// A bridge adds no loops.
proof fn lemma_bridge_loops<K: BlockLabel>(
    left: SurgeryGraph<K>,
    right: SurgeryGraph<K>,
    lo: Seq<usize>,
    ro: Seq<usize>,
    distance: usize,
    graph: SurgeryGraph<K>,
)
    requires
        left.wf(),
        right.wf(),
        graph.wf(),
        labeled(left, lo),
        labeled(right, ro),
        bridged(left, right, lo, ro, distance, graph),
        without_loops(left.graph@.edges),
        without_loops(right.graph@.edges),
    ensures
        without_loops(graph.graph@.edges),
{
    let offset = left.graph@.nodes;
    let a = left.graph@.edges;
    let b = shifted(right.graph@.edges, offset);
    let all = graph.graph@.edges;
    assert forall|e: int| 0 <= e < all.len() implies (#[trigger] all[e]).0 != all[e].1 by {
        if e < a.len() {
            assert(all[e] == a[e]);
        } else if e < a.len() + b.len() {
            let f = right.graph@.edges[e - a.len()];
            assert(all[e] == b[e - a.len()]);
            assert(f.0 != f.1);
            assert(f.0 < right.graph@.nodes && f.1 < right.graph@.nodes);
        } else {
            let i = e - a.len() - b.len();
            assert(all[e] == bridge_edges(
                lo,
                ro,
                offset,
                least(distance as nat, lo.len(), ro.len()),
            )[i]);
            lemma_labeled_below(left, lo, i);
            lemma_labeled_below(right, ro, i);
        }
    }
}

// ---------------------------------------------------------------------------
// Deformations
// ---------------------------------------------------------------------------
/// The operator on two different blocks has what its parts have.
proof fn lemma_joint_operator(pa: Seq<Site>, pb: Seq<Site>, a: BlockKind, b: BlockKind)
    requires
        strictly_keyed(pa),
        strictly_keyed(pb),
        a != b,
    ensures
        strictly_keyed(sort_sites(code_sites(pa, a) + code_sites(pb, b))),
        forall|i: usize|
            pauli_at(
                sort_sites(code_sites(pa, a) + code_sites(pb, b)),
                #[trigger] on_block(a, i),
            ) == pauli_at(code_sites(pa, a), on_block(a, i)),
        forall|i: usize|
            pauli_at(
                sort_sites(code_sites(pa, a) + code_sites(pb, b)),
                #[trigger] on_block(b, i),
            ) == pauli_at(code_sites(pb, b), on_block(b, i)),
        forall|x: (CodeQubit<BlockKind>, Pauli)| #[trigger]
            sort_sites(code_sites(pa, a) + code_sites(pb, b)).contains(x) <==> code_sites(
                pa,
                a,
            ).contains(x) || code_sites(pb, b).contains(x),
{
    let x = code_sites(pa, a);
    let y = code_sites(pb, b);
    let both = x + y;
    let op = sort_sites(both);
    lemma_code_sites(pa, a);
    lemma_code_sites(pb, b);
    assert forall|i: int, j: int| 0 <= i < j < both.len() implies (#[trigger] both[i]).0 != (
    #[trigger] both[j]).0 by {
        if j < x.len() {
            assert(x[i].0 != x[j].0);
        } else if i >= x.len() {
            assert(y[i - x.len()].0 != y[j - x.len()].0);
        }
    }
    lemma_sort_strict(both);
    assert forall|s: (CodeQubit<BlockKind>, Pauli)| #[trigger] both.contains(s) <==> x.contains(s)
        || y.contains(s) by {
        if x.contains(s) {
            assert(both[x.index_of(s)] == s);
        }
        if y.contains(s) {
            assert(both[x.len() + y.index_of(s)] == s);
        }
        if both.contains(s) {
            let i = both.index_of(s);
            if i < x.len() {
                assert(x[i] == s);
            } else {
                assert(y[i - x.len()] == s);
            }
        }
    }
    assert forall|s: (CodeQubit<BlockKind>, Pauli)| #[trigger] op.contains(s) <==> x.contains(s)
        || y.contains(s) by {
        assert(both.contains(s) <==> x.contains(s) || y.contains(s));
    }
    assert forall|i: usize|
        pauli_at(op, #[trigger] on_block(a, i)) == pauli_at(x, on_block(a, i)) by {
        lemma_part_at(both, x, y, on_block(a, i));
        lemma_sorted_at(both, on_block(a, i));
    }
    assert forall|i: usize|
        pauli_at(op, #[trigger] on_block(b, i)) == pauli_at(y, on_block(b, i)) by {
        lemma_part_at(both, y, x, on_block(b, i));
        lemma_sorted_at(both, on_block(b, i));
    }
}

/// What a string made of two parts has on a qubit where one part has nothing.
proof fn lemma_part_at(
    both: Seq<(CodeQubit<BlockKind>, Pauli)>,
    own: Seq<(CodeQubit<BlockKind>, Pauli)>,
    other: Seq<(CodeQubit<BlockKind>, Pauli)>,
    q: CodeQubit<BlockKind>,
)
    requires
        one_site_each(both),
        one_site_each(own),
        forall|i: int| 0 <= i < other.len() ==> (#[trigger] other[i]).0.block != q.block,
        forall|s: (CodeQubit<BlockKind>, Pauli)| #[trigger]
            both.contains(s) <==> own.contains(s) || other.contains(s),
    ensures
        pauli_at(both, q) == pauli_at(own, q),
{
    lemma_pauli_at(both, q);
    lemma_pauli_at(own, q);
    if has_key(own, q) {
        assert(own.contains((q, pauli_at(own, q))));
        assert(both.contains((q, pauli_at(own, q))));
    } else if has_key(both, q) {
        let s = (q, pauli_at(both, q));
        assert(both.contains(s));
        if other.contains(s) {
            assert(other[other.index_of(s)].0.block != q.block);
        } else {
            assert(own[own.index_of(s)].0 == q);
        }
    }
}

/// A block's stabilizers have nothing on another block's qubits.
proof fn lemma_other_block(stabs: Seq<PhysicalPauliString>, kind: BlockKind, k: int, q: CodeQubit<BlockKind>)
    requires
        0 <= k < stabs.len(),
        q.block != kind,
    ensures
        pauli_at(code_forms(stabs, kind)[k].sites, q) is I,
{
    let s = code_sites(stabs[k]@, kind);
    if has_key(s, q) {
        assert(s[key_position(s, q)].0 == q);
    }
}

proof fn lemma_blocks_commute(
    x: Seq<SignedPauli<CodeQubit<BlockKind>>>,
    stabs: Seq<PhysicalPauliString>,
    kind: BlockKind,
)
    requires
        stabilizers_commute(x),
        stabilizers_commute(code_forms(stabs, kind)),
        forall|k: int, i: int|
            0 <= k < x.len() && 0 <= i < x[k].sites.len() ==> (#[trigger] x[k].sites[i]).0.block
                != kind,
    ensures
        stabilizers_commute(x + code_forms(stabs, kind)),
{
    let y = code_forms(stabs, kind);
    let all = x + y;
    assert forall|k: int| 0 <= k < all.len() implies strictly_keyed((#[trigger] all[k]).sites) by {
        if k < x.len() {
            assert(all[k] == x[k]);
        } else {
            assert(all[k] == y[k - x.len()]);
        }
    }
    assert forall|i: int, j: int| 0 <= i < x.len() && 0 <= j < y.len() implies strings_commute(
        #[trigger] x[i].sites,
        #[trigger] y[j].sites,
    ) && strings_commute(y[j].sites, x[i].sites) by {
        let f = |q: CodeQubit<BlockKind>| pauli_at(y[j].sites, q);
        lemma_anticommuting_sites(x[i].sites, y[j].sites);
        assert forall|k: int| 0 <= k < x[i].sites.len() implies site_clash(
            #[trigger] x[i].sites[k],
            f,
        ) == 0 by {
            lemma_other_block(stabs, kind, j, x[i].sites[k].0);
        }
        lemma_no_clashes(x[i].sites, f);
        law_commute_iff_products_agree(x[i].sites, y[j].sites);
    }
    assert forall|i: int, j: int|
        #![trigger all[i], all[j]]
        0 <= i < all.len() && 0 <= j < all.len() implies strings_commute(
        all[i].sites,
        all[j].sites,
    ) by {
        let n = x.len();
        if i < n && j < n {
            assert(all[i] == x[i] && all[j] == x[j]);
        } else if i >= n && j >= n {
            assert(all[i] == y[i - n] && all[j] == y[j - n]);
        } else if i < n {
            assert(strings_commute(x[i].sites, y[j - n].sites));
        } else {
            assert(strings_commute(x[j].sites, y[i - n].sites));
        }
    }
}

/// Stabilizers that have nothing on the ports are checks as they are.
proof fn lemma_with_statics(
    graph: SurgeryGraph<BlockKind>,
    stabs: Seq<SignedPauli<CodeQubit<BlockKind>>>,
    more: Seq<PhysicalPauliString>,
    kind: BlockKind,
    operator: Seq<(CodeQubit<BlockKind>, Pauli)>,
)
    requires
        measures(graph, stabs, operator),
        graph.path_matching@.len() <= stabs.len(),
        clear_of(graph.labels@, code_forms(more, kind)),
    ensures
        measures(graph, stabs + code_forms(more, kind), operator),
        merged_checks(graph, stabs + code_forms(more, kind), operator) == merged_checks(
            graph,
            stabs,
            operator,
        ) + merged_forms(more, kind),
{
    let forms = code_forms(more, kind);
    let all = stabs + forms;
    let n = stabs.len() as int;
    assert forall|k: int| 0 <= k < all.len() implies simple_list(#[trigger] path_of(graph, k))
        && matches_ports(graph.labels@, path_of(graph, k), all[k].sites, operator) by {
        if k < n {
            assert(all[k] == stabs[k]);
        } else {
            assert(all[k] == forms[k - n]);
            assert forall|v: int| 0 <= v < graph.labels@.len() implies (#[trigger] ends_at(
                path_of(graph, k),
                v as usize,
            ) % 2 == 1 <==> port_clash(graph.labels@[v], all[k].sites, operator)) by {
                assert(graph.labels@[v] matches Some(q) ==> pauli_at(forms[k - n].sites, q) is I);
            }
        }
    }
    assert(merged_checks(graph, all, operator) =~= merged_checks(graph, stabs, operator)
        + merged_forms(more, kind));
}

/// Every block's stabilizers commute with one another and with the block's part of the
/// support.
pub open spec fn commuting_codes(codes: CodeData, s: SupportModel) -> bool {
    forall|kind: BlockKind|
        commuting_code(strings(#[trigger] stabs_of(codes, kind)), part_of(s, kind))
}

/// The labels name qubits of the block.
spec fn labels_on(labels: Seq<Option<CodeQubit<BlockKind>>>, kind: BlockKind) -> bool {
    forall|v: int|
        0 <= v < labels.len() ==> (#[trigger] labels[v] matches Some(q) ==> q.block == kind)
}

proof fn lemma_graph_labels<F: Fn(&AncillaGraph) -> usize>(
    stabs: Seq<PhysicalPauliString>,
    operator: Seq<Site>,
    kind: BlockKind,
    config: SurgeryGraphConfig,
    expansion: F,
    graph: SurgeryGraph<BlockKind>,
)
    requires
        graph_for(stabs, operator, kind, config, expansion, graph),
    ensures
        labels_on(graph.labels@, kind),
        graph.path_matching@.len() == stabs.len(),
{
    let c = choose|c: Cellulation| #[trigger]
        finished(strings(stabs), operator, kind, c, graph) && built_for_shape(
            shape_of(path_graph(strings(stabs), operator)),
            config,
            expansion,
            c,
        );
    assert(finished(strings(stabs), operator, kind, c, graph));
    assert(cycle_views(graph.path_matching@).len() == stabs.len());
}

proof fn lemma_clear_of(
    labels: Seq<Option<CodeQubit<BlockKind>>>,
    stabs: Seq<PhysicalPauliString>,
    kind: BlockKind,
)
    requires
        forall|v: int|
            0 <= v < labels.len() ==> (#[trigger] labels[v] matches Some(q) ==> q.block != kind),
    ensures
        clear_of(labels, code_forms(stabs, kind)),
{
    let forms = code_forms(stabs, kind);
    assert forall|v: int, k: int|
        #![trigger labels[v], forms[k]]
        0 <= v < labels.len() && 0 <= k < forms.len() implies (labels[v] matches Some(q)
        ==> pauli_at(forms[k].sites, q) is I) by {
        if let Some(q) = labels[v] {
            lemma_other_block(stabs, kind, k, q);
        }
    }
}


/// The checks commute with one another.
pub open spec fn all_commute(checks: Seq<SignedPauli<MergedCodeQubit<BlockKind>>>) -> bool {
    forall|i: int, j: int|
        #![trigger checks[i], checks[j]]
        0 <= i < checks.len() && 0 <= j < checks.len() ==> strings_commute(
            checks[i].sites,
            checks[j].sites,
        )
}

/// The operator is the product of the checks before some position.
pub open spec fn leading_product(
    checks: Seq<SignedPauli<MergedCodeQubit<BlockKind>>>,
    operator: Seq<(CodeQubit<BlockKind>, Pauli)>,
) -> bool {
    exists|n: int|
        0 <= n <= checks.len() && #[trigger] product_of(checks.take(n)) == (SignedPauli {
            sign: Sign::One,
            sites: lifted_sites(operator),
        })
}

proof fn lemma_all_commute(
    graph: SurgeryGraph<BlockKind>,
    stabs: Seq<SignedPauli<CodeQubit<BlockKind>>>,
    operator: Seq<(CodeQubit<BlockKind>, Pauli)>,
)
    requires
        measures(graph, stabs, operator),
        stabilizers_commute(stabs),
    ensures
        all_commute(merged_checks(graph, stabs, operator)),
{
    let checks = merged_checks(graph, stabs, operator);
    assert forall|i: int, j: int|
        #![trigger checks[i], checks[j]]
        0 <= i < checks.len() && 0 <= j < checks.len() implies strings_commute(
        checks[i].sites,
        checks[j].sites,
    ) by {
        law_checks_commute(graph, stabs, operator, i, j);
    }
}

proof fn lemma_leading_product(
    graph: SurgeryGraph<BlockKind>,
    stabs: Seq<SignedPauli<CodeQubit<BlockKind>>>,
    statics: Seq<SignedPauli<MergedCodeQubit<BlockKind>>>,
    operator: Seq<(CodeQubit<BlockKind>, Pauli)>,
)
    requires
        graph.wf(),
        without_loops(graph.graph@.edges),
        strictly_keyed(operator),
        no_identities(operator),
        ports_carry(graph.labels@, operator),
    ensures
        leading_product(merged_checks(graph, stabs, operator) + statics, operator),
{
    let own = merged_checks(graph, stabs, operator);
    let n = graph.graph@.nodes as int;
    law_operator_is_product_of_vertex_checks(graph, stabs, operator);
    assert((own + statics).take(n) =~= own.take(n));
    assert(0 <= n <= (own + statics).len());
}

proof fn lemma_sites_on(stabs: Seq<PhysicalPauliString>, kind: BlockKind, k: int, i: int)
    requires
        0 <= k < stabs.len(),
        0 <= i < code_forms(stabs, kind)[k].sites.len(),
    ensures
        code_forms(stabs, kind)[k].sites[i].0.block == kind,
{
}

/// The stabilizers of the blocks in turn commute.
proof fn lemma_three_commute(
    codes: CodeData,
    s: SupportModel,
    a: BlockKind,
    b: BlockKind,
    c: BlockKind,
)
    requires
        commuting_codes(codes, s),
        a != b,
        a != c,
        b != c,
    ensures
        stabilizers_commute(
            code_forms(stabs_of(codes, a), a) + code_forms(stabs_of(codes, b), b) + code_forms(
                stabs_of(codes, c),
                c,
            ),
        ),
{
    let (x, y) = (stabs_of(codes, a), stabs_of(codes, b));
    let z = stabs_of(codes, c);
    lemma_block_commutes(x, part_of(s, a), a);
    lemma_block_commutes(y, part_of(s, b), b);
    lemma_block_commutes(z, part_of(s, c), c);
    let fx = code_forms(x, a);
    let fy = code_forms(y, b);
    lemma_blocks_commute(fx, y, b);
    let both = fx + fy;
    assert forall|k: int, i: int|
        0 <= k < both.len() && 0 <= i < both[k].sites.len() implies (
    #[trigger] both[k].sites[i]).0.block != c by {
        if k < fx.len() {
            lemma_sites_on(x, a, k, i);
        } else {
            assert(both[k] == fy[k - fx.len()]);
            lemma_sites_on(y, b, k - fx.len(), i);
        }
    }
    lemma_blocks_commute(both, z, c);
}

/// The checks of a deformation on one block.
proof fn lemma_single_deformation<F: Fn(&AncillaGraph) -> usize>(
    codes: CodeData,
    s: SupportModel,
    kind: BlockKind,
    config: SurgeryGraphConfig,
    expansion: F,
    d: Deformation,
)
    requires
        commuting_codes(codes, s),
        single_deformation(codes, s, kind, config, expansion, d),
    ensures
        all_commute(check_views(d.checks@)),
        no_identities(part_of(s, kind)) ==> leading_product(
            check_views(d.checks@),
            code_sites(part_of(s, kind), kind),
        ),
{
    let stabs = stabs_of(codes, kind);
    let part = part_of(s, kind);
    let op = code_sites(part, kind);
    let (a, b) = others(kind);
    let g = choose|g: SurgeryGraph<BlockKind>| #[trigger]
        graph_for(stabs, part, kind, config, expansion, g) && deformed(
            g,
            code_forms(stabs, kind),
            op,
            single_statics(codes, kind),
            d,
        );
    let own = code_forms(stabs, kind);
    assert(commuting_code(strings(stabs_of(codes, kind)), part));
    law_surgery_graph_measures(stabs, part, kind, config, expansion, g);
    lemma_graph_labels(stabs, part, kind, config, expansion, g);
    lemma_clear_of(g.labels@, stabs_of(codes, a), a);
    lemma_clear_of(g.labels@, stabs_of(codes, b), b);
    lemma_with_statics(g, own, stabs_of(codes, a), a, op);
    let more = own + code_forms(stabs_of(codes, a), a);
    lemma_with_statics(g, more, stabs_of(codes, b), b, op);
    lemma_three_commute(codes, s, kind, a, b);
    let all = more + code_forms(stabs_of(codes, b), b);
    lemma_all_commute(g, all, op);
    assert(check_views(d.checks@) =~= merged_checks(g, all, op));
    if no_identities(part) {
        lemma_code_sites(part, kind);
        assert forall|i: int| 0 <= i < op.len() implies !((#[trigger] op[i]).1 is I) by {
            assert(!(part[i].1 is I));
        }
        lemma_leading_product(g, own, single_statics(codes, kind), op);
    }
}

/// What the bridged graph of two blocks measures.
proof fn lemma_pair_measures<F: Fn(&AncillaGraph) -> usize>(
    codes: CodeData,
    s: SupportModel,
    a: BlockKind,
    b: BlockKind,
    config: SurgeryGraphConfig,
    expansion: F,
    ga: SurgeryGraph<BlockKind>,
    gb: SurgeryGraph<BlockKind>,
    lo: Seq<usize>,
    ro: Seq<usize>,
    distance: usize,
    g: SurgeryGraph<BlockKind>,
)
    requires
        commuting_codes(codes, s),
        a != b,
        graph_for(stabs_of(codes, a), part_of(s, a), a, config, expansion, ga),
        graph_for(stabs_of(codes, b), part_of(s, b), b, config, expansion, gb),
        labeled(ga, lo),
        labeled(gb, ro),
        bridged(ga, gb, lo, ro, distance, g),
        g.wf(),
    ensures
        measures(
            g,
            code_forms(stabs_of(codes, a), a) + code_forms(stabs_of(codes, b), b),
            joint_sites(s, a, b),
        ),
        g.path_matching@.len() == stabs_of(codes, a).len() + stabs_of(codes, b).len(),
        forall|v: int|
            0 <= v < g.labels@.len() ==> (#[trigger] g.labels@[v] matches Some(q) ==> q.block == a
                || q.block == b),
        without_loops(g.graph@.edges),
        strictly_keyed(joint_sites(s, a, b)),
        ports_carry(g.labels@, joint_sites(s, a, b)),
{
    let (sa, sb) = (stabs_of(codes, a), stabs_of(codes, b));
    let (pa, pb) = (part_of(s, a), part_of(s, b));
    let (oa, ob) = (code_sites(pa, a), code_sites(pb, b));
    let op = joint_sites(s, a, b);
    assert(commuting_code(strings(stabs_of(codes, a)), pa));
    assert(commuting_code(strings(stabs_of(codes, b)), pb));
    law_surgery_graph_measures(sa, pa, a, config, expansion, ga);
    law_surgery_graph_measures(sb, pb, b, config, expansion, gb);
    lemma_graph_labels(sa, pa, a, config, expansion, ga);
    lemma_graph_labels(sb, pb, b, config, expansion, gb);
    lemma_joint_operator(pa, pb, a, b);
    lemma_code_sites(pa, a);
    lemma_code_sites(pb, b);
    lemma_strict_is_single(op);
    lemma_clear_of(ga.labels@, sb, b);
    lemma_clear_of(gb.labels@, sa, a);
    assert forall|v: int| 0 <= v < ga.labels@.len() implies (#[trigger] ga.labels@[v] matches Some(q)
        ==> pauli_on(op, q) == pauli_on(oa, q)) by {
        if let Some(q) = ga.labels@[v] {
            assert(q == on_block(a, q.index));
            lemma_pauli_on(op, q);
            lemma_pauli_on(oa, q);
        }
    }
    assert forall|v: int| 0 <= v < gb.labels@.len() implies (#[trigger] gb.labels@[v] matches Some(q)
        ==> pauli_on(op, q) == pauli_on(ob, q)) by {
        if let Some(q) = gb.labels@[v] {
            assert(q == on_block(b, q.index));
            lemma_pauli_on(op, q);
            lemma_pauli_on(ob, q);
        }
    }
    law_bridge_measures(
        ga,
        gb,
        lo,
        ro,
        distance,
        g,
        code_forms(sa, a),
        code_forms(sb, b),
        oa,
        ob,
        op,
    );
    assert(cycle_views(g.path_matching@).len() == sa.len() + sb.len());
    lemma_bridge_loops(ga, gb, lo, ro, distance, g);
    lemma_joint_ports(ga.labels@, gb.labels@, oa, ob, op, a, b);
}

proof fn lemma_joint_ports(
    la: Seq<Option<CodeQubit<BlockKind>>>,
    lb: Seq<Option<CodeQubit<BlockKind>>>,
    oa: Seq<(CodeQubit<BlockKind>, Pauli)>,
    ob: Seq<(CodeQubit<BlockKind>, Pauli)>,
    op: Seq<(CodeQubit<BlockKind>, Pauli)>,
    a: BlockKind,
    b: BlockKind,
)
    requires
        a != b,
        labels_on(la, a),
        labels_on(lb, b),
        ports_carry(la, oa),
        ports_carry(lb, ob),
        forall|x: (CodeQubit<BlockKind>, Pauli)| #[trigger]
            op.contains(x) <==> oa.contains(x) || ob.contains(x),
    ensures
        ports_carry(la + lb, op),
        forall|v: int|
            0 <= v < (la + lb).len() ==> (#[trigger] (la + lb)[v] matches Some(q) ==> q.block == a
                || q.block == b),
{
    let labels = la + lb;
    let n = la.len() as int;
    assert forall|v: int| 0 <= v < labels.len() implies #[trigger] labels[v] == if v < n {
        la[v]
    } else {
        lb[v - n]
    } by {}
    assert forall|u: int, v: int|
        0 <= u < v < labels.len() && #[trigger] labels[u] is Some implies labels[u]
        != #[trigger] labels[v] by {
        if v < n {
            assert(la[u] != la[v]);
        } else if u >= n {
            assert(lb[u - n] != lb[v - n]);
        } else {
            assert(la[u] is Some);
            if lb[v - n] is Some {
                assert(la[u]->0.block != lb[v - n]->0.block);
            }
        }
    }
    assert forall|v: int| 0 <= v < labels.len() implies (#[trigger] labels[v] matches Some(q)
        ==> has_key(op, q)) by {
        if labels[v] is Some {
            let q = labels[v]->0;
            if v < n {
                assert(la[v] == Some(q));
                let x = oa[key_position(oa, q)];
                assert(oa.contains(x));
                assert(op.contains(x));
                assert(op[op.index_of(x)].0 == q);
            } else {
                assert(lb[v - n] == Some(q));
                let x = ob[key_position(ob, q)];
                assert(ob.contains(x));
                assert(op.contains(x));
                assert(op[op.index_of(x)].0 == q);
            }
        }
    }
    assert forall|i: int| 0 <= i < op.len() implies labels.contains(Some((#[trigger] op[i]).0)) by {
        let x = op[i];
        assert(op.contains(x));
        if oa.contains(x) {
            assert(la.contains(Some(oa[oa.index_of(x)].0)));
            let v = la.index_of(Some(x.0));
            assert(labels[v] == Some(x.0));
        } else {
            assert(lb.contains(Some(ob[ob.index_of(x)].0)));
            let v = lb.index_of(Some(x.0));
            assert(labels[n + v] == Some(x.0));
        }
    }
}

/// The checks of a deformation on two blocks.
proof fn lemma_pair_deformation<F: Fn(&AncillaGraph) -> usize>(
    codes: CodeData,
    s: SupportModel,
    a: BlockKind,
    b: BlockKind,
    distance: usize,
    config: SurgeryGraphConfig,
    expansion: F,
    d: Deformation,
)
    requires
        commuting_codes(codes, s),
        a != b,
        pair_deformation(codes, s, a, b, distance, config, expansion, d),
    ensures
        all_commute(check_views(d.checks@)),
        no_identities(part_of(s, a)) && no_identities(part_of(s, b)) ==> leading_product(
            check_views(d.checks@),
            joint_sites(s, a, b),
        ),
{
    let (ga, gb, g, lo, ro) = choose|
        ga: SurgeryGraph<BlockKind>,
        gb: SurgeryGraph<BlockKind>,
        g: SurgeryGraph<BlockKind>,
        lo: Seq<usize>,
        ro: Seq<usize>,
    |
        {
            &&& graph_for(stabs_of(codes, a), part_of(s, a), a, config, expansion, ga)
            &&& graph_for(stabs_of(codes, b), part_of(s, b), b, config, expansion, gb)
            &&& labeled(ga, lo)
            &&& labeled(gb, ro)
            &&& #[trigger] bridged(ga, gb, lo, ro, distance, g)
            &&& g.wf()
            &&& deformed(
                g,
                code_forms(stabs_of(codes, a), a) + code_forms(stabs_of(codes, b), b),
                joint_sites(s, a, b),
                merged_forms(stabs_of(codes, third(a, b)), third(a, b)),
                d,
            )
        };
    let c = third(a, b);
    let own = code_forms(stabs_of(codes, a), a) + code_forms(stabs_of(codes, b), b);
    let op = joint_sites(s, a, b);
    lemma_pair_measures(codes, s, a, b, config, expansion, ga, gb, lo, ro, distance, g);
    assert forall|v: int| 0 <= v < g.labels@.len() implies (#[trigger] g.labels@[v] matches Some(q)
        ==> q.block != c) by {
        assert(g.labels@[v] matches Some(q) ==> q.block == a || q.block == b);
    }
    lemma_clear_of(g.labels@, stabs_of(codes, c), c);
    lemma_with_statics(g, own, stabs_of(codes, c), c, op);
    lemma_three_commute(codes, s, a, b, c);
    let all = own + code_forms(stabs_of(codes, c), c);
    lemma_all_commute(g, all, op);
    assert(check_views(d.checks@) =~= merged_checks(g, all, op));
    let (pa, pb) = (part_of(s, a), part_of(s, b));
    if no_identities(pa) && no_identities(pb) {
        assert(commuting_code(strings(stabs_of(codes, a)), pa));
        assert(commuting_code(strings(stabs_of(codes, b)), pb));
        lemma_joint_operator(pa, pb, a, b);
        let (oa, ob) = (code_sites(pa, a), code_sites(pb, b));
        assert forall|i: int| 0 <= i < op.len() implies !((#[trigger] op[i]).1 is I) by {
            assert(op.contains(op[i]));
            if oa.contains(op[i]) {
                let k = oa.index_of(op[i]);
                assert(!(pa[k].1 is I));
            } else {
                let k = ob.index_of(op[i]);
                assert(!(pb[k].1 is I));
            }
        }
        lemma_leading_product(g, own, merged_forms(stabs_of(codes, c), c), op);
    }
}

/// The checks of a deformation commute with one another: they are the stabilizers of a
/// code.
pub proof fn law_deformation_checks_commute<F: Fn(&AncillaGraph) -> usize>(
    codes: CodeData,
    s: SupportModel,
    distance: usize,
    config: SurgeryGraphConfig,
    expansion: F,
    d: Deformation,
)
    requires
        commuting_codes(codes, s),
        s.blocks() == 1 || s.blocks() == 2,
        is_deformation(codes, s, distance, config, expansion, d),
    ensures
        all_commute(check_views(d.checks@)),
{
    let (m, p, g) = (BlockKind::Memory, BlockKind::Processor, BlockKind::Magic);
    if s.blocks() == 1 {
        let kind = if s.memory.len() > 0 {
            m
        } else if s.processor.len() > 0 {
            p
        } else {
            g
        };
        assert(only_block(s, kind));
        lemma_single_deformation(codes, s, kind, config, expansion, d);
    } else {
        let (a, b) = if s.memory.len() == 0 {
            (p, g)
        } else if s.processor.len() == 0 {
            (m, g)
        } else {
            (m, p)
        };
        assert(two_blocks(s, a, b));
        lemma_pair_deformation(codes, s, a, b, distance, config, expansion, d);
    }
}

/// A deformation on one block measures the support: the product of its vertex checks is
/// the support's operator on that block.
pub proof fn law_single_deformation_measures<F: Fn(&AncillaGraph) -> usize>(
    codes: CodeData,
    s: SupportModel,
    kind: BlockKind,
    distance: usize,
    config: SurgeryGraphConfig,
    expansion: F,
    d: Deformation,
)
    requires
        commuting_codes(codes, s),
        only_block(s, kind),
        no_identities(part_of(s, kind)),
        is_deformation(codes, s, distance, config, expansion, d),
    ensures
        leading_product(check_views(d.checks@), code_sites(part_of(s, kind), kind)),
{
    lemma_single_deformation(codes, s, kind, config, expansion, d);
}

/// A deformation on two blocks measures the support: the product of its vertex checks is
/// the support's operator on the two blocks.
pub proof fn law_pair_deformation_measures<F: Fn(&AncillaGraph) -> usize>(
    codes: CodeData,
    s: SupportModel,
    a: BlockKind,
    b: BlockKind,
    distance: usize,
    config: SurgeryGraphConfig,
    expansion: F,
    d: Deformation,
)
    requires
        commuting_codes(codes, s),
        two_blocks(s, a, b),
        no_identities(part_of(s, a)),
        no_identities(part_of(s, b)),
        is_deformation(codes, s, distance, config, expansion, d),
    ensures
        leading_product(check_views(d.checks@), joint_sites(s, a, b)),
{
    lemma_pair_deformation(codes, s, a, b, distance, config, expansion, d);
}

} // verus!
