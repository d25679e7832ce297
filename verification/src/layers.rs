//! What the layers of syndrome extraction promise: no qubit is used twice in a
//! layer, conflicting checks are ordered the same way on every qubit they share,
//! and every site of every check gets its controlled Pauli exactly once.

use vstd::prelude::*;

#[allow(unused_imports)]
use crate::coloring::{
    class_colors, edge_colors, greedy_colors, law_classes_are_proper,
    law_edge_coloring_is_proper, law_greedy_coloring_is_proper, lemma_edge_colors_len, touches,
    crosses, two_sided,
};
#[allow(unused_imports)]
use crate::extraction::{lemma_class_colors, lemma_greedy_natural};
#[allow(unused_imports)]
use crate::pbc::{Pauli, SignedPauli};
#[allow(unused_imports)]
use crate::physical::{
    active_sites, all_qubits, gate_qubits, highest, lemma_note_all_distinct, lemma_noted_iff,
    note_all, number_of, GateModel,
};
#[allow(unused_imports)]
use crate::sec_schedule::{
    acts, ancilla_base, bucket_at, bucket_layers, buckets, check_sites, checks_meet,
    class_layers, color_count, controlled_layer, everyone, layered, left_qubits, legacy_layers,
    lemma_members, lemma_note_len, lockstep, lockstep_layers, measure_layer, meeting, members,
    part_sites, phase_buckets, phase_layers, reset_layer, round_fits, round_sites, seg_model,
    sequential_layers, site_edges, site_qubits, sites_meet, sites_of_color, sites_within,
    SegModel, Site,
};

verus! {

/// The operation acts on `q`.
pub open spec fn uses(g: GateModel<usize>, q: usize) -> bool {
    match g {
        GateModel::Reset(_, x) => x == q,
        GateModel::Measure(_, x, _) => x == q,
        GateModel::Controlled(_, c, t) => c == q || t == q,
        _ => false,
    }
}

/// No qubit is used by two gates of the layer.
pub open spec fn fits_one_layer(layer: Seq<GateModel<usize>>) -> bool {
    forall|i: int, j: int, q: usize|
        0 <= i < j < layer.len() && #[trigger] uses(layer[i], q) ==> !#[trigger] uses(layer[j], q)
}

pub open spec fn each_fits(layers: Seq<Seq<GateModel<usize>>>) -> bool {
    forall|k: int| 0 <= k < layers.len() ==> fits_one_layer(#[trigger] layers[k])
}

/// No two of the sites share their check or their qubit.
pub open spec fn apart(part: Seq<Site>) -> bool {
    forall|i: int, j: int|
        0 <= i < j < part.len() ==> (#[trigger] part[i]).0 != (#[trigger] part[j]).0 && part[i].1
            != part[j].1
}

/// The sites belong to the first `m` checks and lie on qubits below `base`.
pub open spec fn sites_below(part: Seq<Site>, m: nat, base: int) -> bool {
    forall|i: int| 0 <= i < part.len() ==> (#[trigger] part[i]).0 < m && part[i].1 < base
}

/// The checks act on qubits below `base`, where the ancillas start.
pub open spec fn data_below(checks: Seq<SignedPauli<usize>>, base: int) -> bool {
    forall|j: int, x: int|
        0 <= j < checks.len() && 0 <= x < acts(checks, j).len() ==> (#[trigger] acts(
            checks,
            j,
        )[x]).0 < base
}

// ---------------------------------------------------------------------------
// Edge-colored parts
// ---------------------------------------------------------------------------
/// The site is one of those of color `k`.
spec fn has_color(part: Seq<Site>, colors: Seq<int>, k: int, site: Site) -> bool {
    exists|i: int| 0 <= i < part.len() && colors[i] == k && #[trigger] part[i] == site
}

/// What has color `k` is apart where equal colors are apart.
proof fn lemma_sites_of_color(part: Seq<Site>, colors: Seq<int>, k: int)
    requires
        part.len() <= colors.len(),
        forall|i: int, j: int|
            0 <= i < j < part.len() && colors[i] == k && colors[j] == k ==> (#[trigger] part[i]).0
                != (#[trigger] part[j]).0 && part[i].1 != part[j].1,
    ensures
        apart(sites_of_color(part, colors, k)),
        forall|x: int|
            0 <= x < sites_of_color(part, colors, k).len() ==> has_color(
                part,
                colors,
                k,
                #[trigger] sites_of_color(part, colors, k)[x],
            ),
    decreases part.len(),
{
    if part.len() > 0 {
        let front = part.drop_last();
        let n = part.len() - 1;
        assert forall|i: int, j: int|
            0 <= i < j < front.len() && colors[i] == k && colors[j] == k implies (
        #[trigger] front[i]).0 != (#[trigger] front[j]).0 && front[i].1 != front[j].1 by {
            assert(front[i] == part[i] && front[j] == part[j]);
        }
        lemma_sites_of_color(front, colors, k);
        let before = sites_of_color(front, colors, k);
        let now = sites_of_color(part, colors, k);
        assert forall|x: int| 0 <= x < now.len() implies has_color(
            part,
            colors,
            k,
            #[trigger] now[x],
        ) by {
            if x < before.len() {
                assert(now[x] == before[x]);
                assert(has_color(front, colors, k, before[x]));
                let i = choose|i: int|
                    0 <= i < front.len() && colors[i] == k && #[trigger] front[i] == before[x];
                assert(part[i] == now[x]);
            } else {
                assert(part[n] == now[x]);
            }
        }
        assert forall|x: int, y: int| 0 <= x < y < now.len() implies (#[trigger] now[x]).0 != (
        #[trigger] now[y]).0 && now[x].1 != now[y].1 by {
            assert(now[x] == before[x]);
            if y < before.len() {
                assert(now[y] == before[y]);
            } else {
                assert(now[y] == part[n]);
                assert(has_color(front, colors, k, before[x]));
                let i = choose|i: int|
                    0 <= i < front.len() && colors[i] == k && #[trigger] front[i] == before[x];
                assert(part[i] == front[i]);
            }
        }
    }
}

/// The sites of one color share neither a check nor a qubit.
pub proof fn law_buckets_are_apart(part: Seq<Site>, m: nat, k: int)
    requires
        sites_within(part, m),
        m + part.len() <= usize::MAX,
        0 <= k < buckets(part, m).len(),
    ensures
        apart(buckets(part, m)[k]),
        forall|x: int| 0 <= x < buckets(part, m)[k].len() ==> part.contains(
            #[trigger] buckets(part, m)[k][x],
        ),
{
    let qs = site_qubits(part);
    let seen = note_all(Seq::empty(), qs);
    let edges = site_edges(part, m);
    let colors = edge_colors(edges, part.len());
    lemma_note_len(Seq::empty(), qs);
    lemma_note_all_distinct(Seq::<usize>::empty(), qs);
    assert forall|i: int| 0 <= i < part.len() implies (#[trigger] edges[i]).0 == part[i].0
        && edges[i].1 == m + number_of(seen, part[i].1) && seen.contains(part[i].1) by {
        assert(qs[i] == part[i].1);
        assert(qs.contains(part[i].1));
        lemma_noted_iff(Seq::empty(), qs, part[i].1);
        let w = seen.index_of(part[i].1);
        assert(seen[w] == part[i].1);
    }
    assert(two_sided(edges)) by {
        let side = |x: usize| x < m;
        assert forall|i: int| 0 <= i < edges.len() implies side((#[trigger] edges[i]).0) != side(
            edges[i].1,
        ) by {
            assert(part[i].0 < m);
        }
        assert(crosses(edges, side));
    }
    law_edge_coloring_is_proper(edges, part.len());
    lemma_edge_colors_len(edges, part.len());
    assert forall|i: int, j: int|
        0 <= i < j < part.len() && colors[i] == k && colors[j] == k implies (#[trigger] part[i]).0
        != (#[trigger] part[j]).0 && part[i].1 != part[j].1 by {
        if part[i].0 == part[j].0 {
            assert(touches(edges[i], part[i].0) && touches(edges[j], part[i].0));
        }
        if part[i].1 == part[j].1 {
            let x = edges[i].1;
            assert(touches(edges[i], x) && touches(edges[j], x));
        }
    }
    lemma_sites_of_color(part, colors, k);
    assert forall|x: int| 0 <= x < buckets(part, m)[k].len() implies part.contains(
        #[trigger] buckets(part, m)[k][x],
    ) by {
        let site = sites_of_color(part, colors, k)[x];
        assert(has_color(part, colors, k, site));
        let i = choose|i: int| 0 <= i < part.len() && colors[i] == k && #[trigger] part[i] == site;
        assert(part[i] == buckets(part, m)[k][x]);
    }
}

/// What is selected is on the given side of the given class.
proof fn lemma_part_sites(
    part: Seq<Site>,
    classes: Seq<int>,
    left: Set<usize>,
    class: int,
    side: Option<bool>,
)
    ensures
        part_sites(part, classes, left, class, side).len() <= part.len(),
        forall|x: int|
            0 <= x < part_sites(part, classes, left, class, side).len() ==> ({
                let site = #[trigger] part_sites(part, classes, left, class, side)[x];
                &&& part.contains(site)
                &&& classes[site.0 as int] == class
                &&& side is None || side == Some(left.contains(site.1))
            }),
    decreases part.len(),
{
    if part.len() > 0 {
        lemma_part_sites(part.drop_last(), classes, left, class, side);
        let before = part_sites(part.drop_last(), classes, left, class, side);
        let now = part_sites(part, classes, left, class, side);
        assert forall|x: int| 0 <= x < now.len() implies ({
            let site = #[trigger] now[x];
            &&& part.contains(site)
            &&& classes[site.0 as int] == class
            &&& side is None || side == Some(left.contains(site.1))
        }) by {
            if x < before.len() {
                assert(now[x] == before[x]);
                let i = part.drop_last().index_of(before[x]);
                assert(part[i] == part.drop_last()[i]);
                assert(part.contains(before[x]));
            } else {
                assert(now[x] == part[part.len() - 1]);
            }
        }
    }
}

/// The sites of a round are sites of its checks.
pub proof fn lemma_round_sites_below(checks: Seq<SignedPauli<usize>>, n: nat, base: int)
    requires
        n <= checks.len() <= usize::MAX,
        data_below(checks, base),
    ensures
        sites_below(round_sites(checks, n), checks.len(), base),
    decreases n,
{
    if n > 0 {
        lemma_round_sites_below(checks, (n - 1) as nat, base);
        let before = round_sites(checks, (n - 1) as nat);
        let here = check_sites(checks, n - 1);
        let all = round_sites(checks, n);
        assert forall|i: int| 0 <= i < all.len() implies (#[trigger] all[i]).0 < checks.len()
            && all[i].1 < base by {
            if i < before.len() {
                assert(all[i] == before[i]);
            } else {
                let x = i - before.len();
                assert(all[i] == here[x]);
                assert(acts(checks, n - 1)[x].0 < base);
            }
        }
    }
}

/// The colored sites of a part of a round.
proof fn lemma_part_buckets(
    checks: Seq<SignedPauli<usize>>,
    classes: Seq<int>,
    left: Set<usize>,
    class: int,
    side: Option<bool>,
    base: int,
    k: int,
)
    requires
        round_fits(checks, base),
        data_below(checks, base),
        0 <= k < buckets(
            part_sites(round_sites(checks, checks.len()), classes, left, class, side),
            checks.len(),
        ).len(),
    ensures
        ({
            let b = buckets(
                part_sites(round_sites(checks, checks.len()), classes, left, class, side),
                checks.len(),
            )[k];
            &&& apart(b)
            &&& sites_below(b, checks.len(), base)
            &&& forall|x: int|
                0 <= x < b.len() ==> classes[(#[trigger] b[x]).0 as int] == class && (side is None
                    || side == Some(left.contains(b[x].1)))
        }),
{
    let m = checks.len();
    let all = round_sites(checks, m);
    let part = part_sites(all, classes, left, class, side);
    lemma_round_sites_below(checks, m, base);
    lemma_part_sites(all, classes, left, class, side);
    assert forall|i: int| 0 <= i < part.len() implies (#[trigger] part[i]).0 < m && part[i].1
        < base by {
        let w = all.index_of(part[i]);
        assert(all[w] == part[i]);
    }
    law_buckets_are_apart(part, m, k);
    let b = buckets(part, m)[k];
    assert forall|x: int| 0 <= x < b.len() implies (#[trigger] b[x]).0 < m && b[x].1 < base
        && classes[b[x].0 as int] == class && (side is None || side == Some(left.contains(b[x].1))) by {
        assert(part.contains(b[x]));
        let w = part.index_of(b[x]);
        assert(part[w] == b[x]);
    }
}

// ---------------------------------------------------------------------------
// Layers that fit
// ---------------------------------------------------------------------------
proof fn lemma_controlled_fits(part: Seq<Site>, m: nat, base: int)
    requires
        apart(part),
        sites_below(part, m, base),
        0 <= base,
        base + m <= usize::MAX,
    ensures
        fits_one_layer(controlled_layer(part, base)),
{
    let layer = controlled_layer(part, base);
    assert forall|i: int, j: int, q: usize|
        0 <= i < j < layer.len() && #[trigger] uses(layer[i], q) implies !#[trigger] uses(
        layer[j],
        q,
    ) by {
        assert(part[i].0 < m && part[j].0 < m);
        assert(part[i].0 != part[j].0 && part[i].1 != part[j].1);
    }
}

/// The checks of a group are different and among the first `m`.
pub open spec fn proper_group(group: Seq<int>, m: nat) -> bool {
    &&& group.no_duplicates()
    &&& forall|i: int| 0 <= i < group.len() ==> 0 <= #[trigger] group[i] < m
}

/// The members of a class are different and of that class.
pub proof fn lemma_members_differ(classes: Seq<int>, c: int, n: nat)
    requires
        n <= classes.len(),
    ensures
        proper_group(members(classes, c, n), n),
        forall|i: int|
            0 <= i < members(classes, c, n).len() ==> classes[#[trigger] members(classes, c, n)[i]]
                == c,
    decreases n,
{
    lemma_members(classes, c, n);
    if n > 0 {
        lemma_members_differ(classes, c, (n - 1) as nat);
    }
}

proof fn lemma_group_fits(checks: Seq<SignedPauli<usize>>, group: Seq<int>, m: nat, base: int)
    requires
        proper_group(group, m),
        0 <= base,
        base + m <= usize::MAX,
    ensures
        fits_one_layer(reset_layer(group, base)),
        fits_one_layer(measure_layer(checks, group, base)),
{
    let a = reset_layer(group, base);
    let b = measure_layer(checks, group, base);
    assert forall|i: int, j: int, q: usize|
        0 <= i < j < a.len() && #[trigger] uses(a[i], q) implies !#[trigger] uses(a[j], q) by {
        assert(group[i] != group[j]);
    }
    assert forall|i: int, j: int, q: usize|
        0 <= i < j < b.len() && #[trigger] uses(b[i], q) implies !#[trigger] uses(b[j], q) by {
        assert(group[i] != group[j]);
    }
}

/// No qubit is used on both sides.
pub open spec fn disjoint_layers(a: Seq<GateModel<usize>>, b: Seq<GateModel<usize>>) -> bool {
    forall|i: int, j: int, q: usize|
        0 <= i < a.len() && 0 <= j < b.len() && #[trigger] uses(a[i], q) ==> !#[trigger] uses(
            b[j],
            q,
        )
}

proof fn lemma_join_fits(a: Seq<GateModel<usize>>, b: Seq<GateModel<usize>>)
    requires
        fits_one_layer(a),
        fits_one_layer(b),
        disjoint_layers(a, b),
    ensures
        fits_one_layer(a + b),
{
    let c = a + b;
    assert forall|i: int, j: int, q: usize|
        0 <= i < j < c.len() && #[trigger] uses(c[i], q) implies !#[trigger] uses(c[j], q) by {
        if j < a.len() {
            assert(uses(a[i], q));
            assert(!uses(a[j], q));
        } else if i < a.len() {
            assert(uses(a[i], q));
            assert(!uses(b[j - a.len()], q));
        } else {
            assert(uses(b[i - a.len()], q));
            assert(!uses(b[j - a.len()], q));
        }
    }
}

proof fn lemma_each_fits_add(a: Seq<Seq<GateModel<usize>>>, b: Seq<Seq<GateModel<usize>>>)
    requires
        each_fits(a),
        each_fits(b),
    ensures
        each_fits(a + b),
{
    let c = a + b;
    assert forall|k: int| 0 <= k < c.len() implies fits_one_layer(#[trigger] c[k]) by {
        if k < a.len() {
            assert(c[k] == a[k]);
        } else {
            assert(c[k] == b[k - a.len()]);
        }
    }
}

proof fn lemma_framed_fits(
    checks: Seq<SignedPauli<usize>>,
    group: Seq<int>,
    inner: Seq<Seq<GateModel<usize>>>,
    m: nat,
    base: int,
)
    requires
        proper_group(group, m),
        0 <= base,
        base + m <= usize::MAX,
        each_fits(inner),
    ensures
        each_fits(
            seq![reset_layer(group, base)] + inner + seq![measure_layer(checks, group, base)],
        ),
{
    lemma_group_fits(checks, group, m, base);
    let front = seq![reset_layer(group, base)];
    let back = seq![measure_layer(checks, group, base)];
    assert(each_fits(front));
    assert(each_fits(back));
    lemma_each_fits_add(front, inner);
    lemma_each_fits_add(front + inner, back);
}

proof fn lemma_phase_layers_fit(
    checks: Seq<SignedPauli<usize>>,
    classes: Seq<int>,
    n: nat,
    base: int,
)
    requires
        0 <= base,
        round_fits(checks, base),
        data_below(checks, base),
    ensures
        each_fits(phase_layers(checks, classes, n, base)),
    decreases n,
{
    if n > 0 {
        lemma_phase_layers_fit(checks, classes, (n - 1) as nat, base);
        let none = Set::<usize>::empty();
        let part = part_sites(round_sites(checks, checks.len()), classes, none, n - 1, None);
        let bs = buckets(part, checks.len());
        let here = bucket_layers(bs, base);
        assert forall|k: int| 0 <= k < here.len() implies fits_one_layer(#[trigger] here[k]) by {
            lemma_part_buckets(checks, classes, none, n - 1, None, base, k);
            lemma_controlled_fits(bs[k], checks.len(), base);
        }
        lemma_each_fits_add(phase_layers(checks, classes, (n - 1) as nat, base), here);
    }
}

/// In a round whose conflict classes run one after another, no layer uses a qubit
/// twice.
pub proof fn law_sequential_layers_fit(checks: Seq<SignedPauli<usize>>, base: int)
    requires
        0 <= base,
        round_fits(checks, base),
        data_below(checks, base),
    ensures
        each_fits(sequential_layers(checks, base)),
{
    let m = checks.len();
    let classes = class_colors(meeting(checks, true), m);
    lemma_phase_layers_fit(checks, classes, color_count(classes), base);
    lemma_framed_fits(
        checks,
        everyone(m),
        phase_layers(checks, classes, color_count(classes), base),
        m,
        base,
    );
}

proof fn lemma_lockstep(
    checks: Seq<SignedPauli<usize>>,
    colors: Seq<int>,
    c: int,
    k: int,
    n: nat,
    base: int,
)
    requires
        n <= checks.len() <= usize::MAX,
        0 <= k,
        colors == greedy_colors(meeting(checks, false), checks.len()),
        data_below(checks, base),
    ensures
        apart(lockstep(checks, colors, c, k, n)),
        sites_below(lockstep(checks, colors, c, k, n), n, base),
        forall|x: int|
            0 <= x < lockstep(checks, colors, c, k, n).len() ==> ({
                let site = #[trigger] lockstep(checks, colors, c, k, n)[x];
                &&& colors[site.0 as int] == c
                &&& k < acts(checks, site.0 as int).len()
                &&& acts(checks, site.0 as int)[k] == (site.1, site.2)
            }),
    decreases n,
{
    if n > 0 {
        lemma_lockstep(checks, colors, c, k, (n - 1) as nat, base);
        let before = lockstep(checks, colors, c, k, (n - 1) as nat);
        let now = lockstep(checks, colors, c, k, n);
        let j = n - 1;
        if now.len() > before.len() {
            assert(acts(checks, j)[k].0 < base);
            assert forall|x: int, y: int| 0 <= x < y < now.len() implies (#[trigger] now[x]).0 != (
            #[trigger] now[y]).0 && now[x].1 != now[y].1 by {
                assert(now[x] == before[x]);
                if y < before.len() {
                    assert(now[y] == before[y]);
                } else {
                    let i = now[x].0 as int;
                    assert(i < j);
                    if now[x].1 == now[y].1 {
                        assert(sites_meet(acts(checks, i), acts(checks, j), false, k, k));
                        assert(meeting(checks, false)(i, j));
                        law_greedy_coloring_is_proper(meeting(checks, false), checks.len(), i, j);
                    }
                }
            }
        }
    }
}

proof fn lemma_class_layers_fit(
    checks: Seq<SignedPauli<usize>>,
    colors: Seq<int>,
    n: nat,
    base: int,
)
    requires
        0 <= base,
        round_fits(checks, base),
        data_below(checks, base),
        colors == greedy_colors(meeting(checks, false), checks.len()),
    ensures
        each_fits(class_layers(checks, colors, n, base)),
    decreases n,
{
    if n > 0 {
        lemma_class_layers_fit(checks, colors, (n - 1) as nat, base);
        let here = lockstep_layers(checks, colors, n - 1, base);
        assert forall|k: int| 0 <= k < here.len() implies fits_one_layer(#[trigger] here[k]) by {
            lemma_lockstep(checks, colors, n - 1, k, checks.len(), base);
            lemma_controlled_fits(
                lockstep(checks, colors, n - 1, k, checks.len()),
                checks.len(),
                base,
            );
        }
        lemma_each_fits_add(class_layers(checks, colors, (n - 1) as nat, base), here);
    }
}

/// In a round in lockstep classes, no layer uses a qubit twice.
pub proof fn law_legacy_layers_fit(checks: Seq<SignedPauli<usize>>, base: int)
    requires
        0 <= base,
        round_fits(checks, base),
        data_below(checks, base),
    ensures
        each_fits(legacy_layers(checks, base)),
{
    let m = checks.len();
    let colors = greedy_colors(meeting(checks, false), m);
    lemma_class_layers_fit(checks, colors, color_count(colors), base);
    lemma_framed_fits(
        checks,
        everyone(m),
        class_layers(checks, colors, color_count(colors), base),
        m,
        base,
    );
}

// ---------------------------------------------------------------------------
// Staggered segments
// ---------------------------------------------------------------------------
/// The sites are of checks of class `class`, on qubits of the left side or not.
pub open spec fn on_side(
    b: Seq<Site>,
    classes: Seq<int>,
    left: Set<usize>,
    class: int,
    side: bool,
) -> bool {
    forall|x: int|
        0 <= x < b.len() ==> classes[(#[trigger] b[x]).0 as int] == class && left.contains(b[x].1)
            == side
}

/// The sites of a layer of a segment, on the given side of the given class.
pub(crate) proof fn lemma_bucket_at(
    checks: Seq<SignedPauli<usize>>,
    classes: Seq<int>,
    class: int,
    side: bool,
    base: int,
    k: int,
)
    requires
        0 <= base,
        round_fits(checks, base),
        data_below(checks, base),
    ensures
        ({
            let bs = phase_buckets(checks, classes, class, side);
            let left = left_qubits(round_sites(checks, checks.len()), classes);
            &&& fits_one_layer(bucket_at(bs, k, base))
            &&& 0 <= k < bs.len() ==> on_side(bs[k], classes, left, class, side) && sites_below(
                bs[k],
                checks.len(),
                base,
            )
        }),
{
    let all = round_sites(checks, checks.len());
    let left = left_qubits(all, classes);
    let bs = phase_buckets(checks, classes, class, side);
    if 0 <= k < bs.len() {
        lemma_part_buckets(checks, classes, left, class, Some(side), base, k);
        lemma_controlled_fits(bs[k], checks.len(), base);
    }
}

/// Layers of different classes on different sides do not meet.
proof fn lemma_sides_disjoint(
    checks: Seq<SignedPauli<usize>>,
    classes: Seq<int>,
    class: int,
    side: bool,
    other: int,
    base: int,
    k: int,
    l: int,
)
    requires
        0 <= base,
        round_fits(checks, base),
        data_below(checks, base),
        class != other,
    ensures
        disjoint_layers(
            bucket_at(phase_buckets(checks, classes, class, side), k, base),
            bucket_at(phase_buckets(checks, classes, other, !side), l, base),
        ),
{
    let bs = phase_buckets(checks, classes, class, side);
    let cs = phase_buckets(checks, classes, other, !side);
    lemma_bucket_at(checks, classes, class, side, base, k);
    lemma_bucket_at(checks, classes, other, !side, base, l);
    let a = bucket_at(bs, k, base);
    let b = bucket_at(cs, l, base);
    assert forall|i: int, j: int, q: usize|
        0 <= i < a.len() && 0 <= j < b.len() && #[trigger] uses(a[i], q) implies !#[trigger] uses(
        b[j],
        q,
    ) by {
        let x = bs[k][i];
        let y = cs[l][j];
        assert(classes[x.0 as int] == class && classes[y.0 as int] == other);
        assert(x.0 < checks.len() && x.1 < base && y.0 < checks.len() && y.1 < base);
        assert(x.1 != y.1);
        assert(a[i] == GateModel::Controlled(x.2, (base + x.0) as usize, x.1));
        assert(b[j] == GateModel::Controlled(y.2, (base + y.0) as usize, y.1));
    }
}

/// A layer of one class does not meet the ancillas of another.
proof fn lemma_ancillas_disjoint(
    checks: Seq<SignedPauli<usize>>,
    classes: Seq<int>,
    class: int,
    side: bool,
    other: int,
    base: int,
    k: int,
)
    requires
        0 <= base,
        round_fits(checks, base),
        data_below(checks, base),
        class != other,
        classes.len() == checks.len(),
    ensures
        ({
            let a = bucket_at(phase_buckets(checks, classes, class, side), k, base);
            let group = members(classes, other, checks.len());
            &&& disjoint_layers(a, reset_layer(group, base))
            &&& disjoint_layers(a, measure_layer(checks, group, base))
        }),
{
    let bs = phase_buckets(checks, classes, class, side);
    let group = members(classes, other, checks.len());
    lemma_bucket_at(checks, classes, class, side, base, k);
    lemma_members_differ(classes, other, checks.len());
    let a = bucket_at(bs, k, base);
    let b = reset_layer(group, base);
    let c = measure_layer(checks, group, base);
    assert forall|i: int, j: int, q: usize|
        0 <= i < a.len() && 0 <= j < b.len() && #[trigger] uses(a[i], q) implies !#[trigger] uses(
        b[j],
        q,
    ) by {
        let x = bs[k][i];
        assert(classes[x.0 as int] == class && x.0 < checks.len() && x.1 < base);
        assert(classes[group[j]] == other);
        assert(a[i] == GateModel::Controlled(x.2, (base + x.0) as usize, x.1));
    }
    assert forall|i: int, j: int, q: usize|
        0 <= i < a.len() && 0 <= j < c.len() && #[trigger] uses(a[i], q) implies !#[trigger] uses(
        c[j],
        q,
    ) by {
        let x = bs[k][i];
        assert(classes[x.0 as int] == class && x.0 < checks.len() && x.1 < base);
        assert(classes[group[j]] == other);
        assert(a[i] == GateModel::Controlled(x.2, (base + x.0) as usize, x.1));
    }
}

proof fn lemma_empty_layer(a: Seq<GateModel<usize>>)
    ensures
        a + Seq::<GateModel<usize>>::empty() == a,
{
    assert(a + Seq::<GateModel<usize>>::empty() =~= a);
}

/// In a staggered segment, in its first round and in those after it, no layer uses
/// a qubit twice.
#[verifier::spinoff_prover]
pub proof fn law_segment_round_layers_fit(
    checks: Seq<SignedPauli<usize>>,
    classes: Seq<int>,
    base: int,
    prologue: bool,
)
    requires
        0 <= base,
        round_fits(checks, base),
        data_below(checks, base),
        classes.len() == checks.len(),
    ensures
        each_fits(seg_model(checks, classes, base).round_layers(prologue)),
{
    let seg = seg_model(checks, classes, base);
    let m = checks.len();
    let one = Seq::new(seg.first_length(prologue), |k: int| seg.first_phase(k, prologue));
    let two = Seq::new(seg.second_length(), |k: int| seg.second_phase(k, prologue));
    lemma_members_differ(classes, 0, m);
    lemma_members_differ(classes, 1, m);
    lemma_group_fits(checks, seg.g2, m, base);
    assert forall|k: int| 0 <= k < one.len() implies fits_one_layer(#[trigger] one[k]) by {
        lemma_bucket_at(checks, classes, 0, true, base, k);
        lemma_bucket_at(checks, classes, 1, false, base, k);
        lemma_sides_disjoint(checks, classes, 0, true, 1, base, k, k);
        if prologue {
            lemma_empty_layer(bucket_at(seg.l1, k, base));
        } else {
            lemma_join_fits(bucket_at(seg.l1, k, base), bucket_at(seg.r2, k, base));
        }
    }
    assert forall|k: int| 0 <= k < two.len() implies fits_one_layer(#[trigger] two[k]) by {
        let a = bucket_at(seg.r1, k, base);
        lemma_bucket_at(checks, classes, 0, false, base, k);
        lemma_ancillas_disjoint(checks, classes, 0, false, 1, base, k);
        if k == 0 {
            if prologue {
                lemma_empty_layer(a);
            } else {
                lemma_join_fits(a, measure_layer(checks, seg.g2, base));
            }
        } else if k == 1 {
            lemma_join_fits(a, reset_layer(seg.g2, base));
        } else {
            lemma_bucket_at(checks, classes, 1, true, base, k - 2);
            lemma_sides_disjoint(checks, classes, 0, false, 1, base, k, k - 2);
            lemma_join_fits(a, bucket_at(seg.l2, k - 2, base));
        }
    }
    lemma_each_fits_add(one, two);
    lemma_framed_fits(checks, seg.g1, one + two, m, base);
    assert(seg.round_layers(prologue) =~= seq![reset_layer(seg.g1, base)] + (one + two) + seq![
        measure_layer(checks, seg.g1, base),
    ]);
}

/// Nor does any layer that closes a staggered segment.
pub proof fn law_segment_epilogue_fits(
    checks: Seq<SignedPauli<usize>>,
    classes: Seq<int>,
    base: int,
)
    requires
        0 <= base,
        round_fits(checks, base),
        data_below(checks, base),
        classes.len() == checks.len(),
    ensures
        each_fits(seg_model(checks, classes, base).epilogue_layers()),
{
    let seg = seg_model(checks, classes, base);
    let front = bucket_layers(seg.r2, base);
    assert forall|k: int| 0 <= k < front.len() implies fits_one_layer(#[trigger] front[k]) by {
        lemma_bucket_at(checks, classes, 1, false, base, k);
        assert(front[k] == bucket_at(seg.r2, k, base));
    }
    lemma_members_differ(classes, 1, checks.len());
    lemma_group_fits(checks, seg.g2, checks.len(), base);
    let back = seq![measure_layer(checks, seg.g2, base)];
    assert(each_fits(back));
    lemma_each_fits_add(front, back);
}

// ---------------------------------------------------------------------------
// Ticks
// ---------------------------------------------------------------------------
/// Between any two gates on one qubit there is a `TICK`.
pub open spec fn ticked_apart(s: Seq<GateModel<usize>>) -> bool {
    forall|i: int, j: int, q: usize|
        0 <= i < j < s.len() && #[trigger] uses(s[i], q) && #[trigger] uses(s[j], q) ==> exists|
            t: int,
        |
            i < t < j && #[trigger] s[t] is Tick
}

/// Layers that fit, written one after another, never use a qubit twice between two
/// `TICK`s.
pub proof fn law_layers_are_ticked(layers: Seq<Seq<GateModel<usize>>>)
    requires
        each_fits(layers),
    ensures
        ticked_apart(layered(layers)),
        layered(layers).len() > 0 ==> layered(layers).last() is Tick,
    decreases layers.len(),
{
    if layers.len() > 0 {
        let front = layers.drop_last();
        assert forall|k: int| 0 <= k < front.len() implies fits_one_layer(#[trigger] front[k]) by {
            assert(front[k] == layers[k]);
        }
        law_layers_are_ticked(front);
        let last = layers[layers.len() - 1];
        assert(fits_one_layer(last));
        if last.len() > 0 {
            let before = layered(front);
            let n = before.len() as int;
            let s = layered(layers);
            assert(s == before + last.push(GateModel::Tick));
            assert forall|i: int, j: int, q: usize|
                0 <= i < j < s.len() && #[trigger] uses(s[i], q) && #[trigger] uses(
                    s[j],
                    q,
                ) implies exists|t: int| i < t < j && #[trigger] s[t] is Tick by {
                if j < n {
                    assert(uses(before[i], q) && uses(before[j], q));
                    let t = choose|t: int| i < t < j && #[trigger] before[t] is Tick;
                    assert(s[t] is Tick);
                } else if i < n {
                    assert(s[n - 1] == before[n - 1]);
                    assert(s[n - 1] is Tick);
                    assert(i != n - 1);
                    assert(i < n - 1 < j);
                } else {
                    assert(j < s.len() - 1);
                    assert(s[i] == last[i - n] && s[j] == last[j - n]);
                    assert(uses(last[i - n], q) && uses(last[j - n], q));
                }
            }
        }
    }
}

// ---------------------------------------------------------------------------
// The order of conflicting checks
// ---------------------------------------------------------------------------
/// A controlled Pauli of the check with ancilla `base + j`, on `q`.
pub open spec fn acts_for(g: GateModel<usize>, base: int, j: int, q: usize) -> bool {
    match g {
        GateModel::Controlled(_, c, t) => c == base + j && t == q,
        _ => false,
    }
}

/// The layer has a controlled Pauli of check `j` on `q`.
pub open spec fn works_at(layer: Seq<GateModel<usize>>, base: int, j: int, q: usize) -> bool {
    exists|i: int| 0 <= i < layer.len() && acts_for(#[trigger] layer[i], base, j, q)
}

/// All controlled Paulis of check `i` are in layers before those of check `j`.
pub open spec fn comes_before(
    layers: Seq<Seq<GateModel<usize>>>,
    base: int,
    i: int,
    j: int,
) -> bool {
    forall|x: int, y: int, p: usize, q: usize|
        0 <= x < layers.len() && 0 <= y < layers.len() && #[trigger] works_at(
            layers[x],
            base,
            i,
            p,
        ) && #[trigger] works_at(layers[y], base, j, q) ==> x < y
}

/// The layers work for checks below class `n` only.
spec fn classes_below(
    layers: Seq<Seq<GateModel<usize>>>,
    classes: Seq<int>,
    base: int,
    n: int,
) -> bool {
    forall|x: int, j: int, q: usize|
        0 <= x < layers.len() && 0 <= j < classes.len() && #[trigger] works_at(
            layers[x],
            base,
            j,
            q,
        ) ==> classes[j] < n
}

/// The layers work for checks of class `c` only.
spec fn class_alone(
    layers: Seq<Seq<GateModel<usize>>>,
    classes: Seq<int>,
    base: int,
    c: int,
) -> bool {
    forall|x: int, j: int, q: usize|
        0 <= x < layers.len() && 0 <= j < classes.len() && #[trigger] works_at(
            layers[x],
            base,
            j,
            q,
        ) ==> classes[j] == c
}

/// A class after all classes below it.
proof fn lemma_next_class(
    front: Seq<Seq<GateModel<usize>>>,
    back: Seq<Seq<GateModel<usize>>>,
    classes: Seq<int>,
    base: int,
    c: int,
    i: int,
    j: int,
)
    requires
        0 <= i < classes.len(),
        0 <= j < classes.len(),
        classes[i] < classes[j],
        comes_before(front, base, i, j),
        classes_below(front, classes, base, c),
        class_alone(back, classes, base, c),
    ensures
        comes_before(front + back, base, i, j),
        classes_below(front + back, classes, base, c + 1),
{
    let all = front + back;
    assert forall|x: int, y: int, p: usize, q: usize|
        0 <= x < all.len() && 0 <= y < all.len() && #[trigger] works_at(all[x], base, i, p)
            && #[trigger] works_at(all[y], base, j, q) implies x < y by {
        if x < front.len() {
            assert(works_at(front[x], base, i, p));
        } else {
            assert(works_at(back[x - front.len()], base, i, p));
        }
        if y < front.len() {
            assert(works_at(front[y], base, j, q));
        } else {
            assert(works_at(back[y - front.len()], base, j, q));
        }
    }
    assert forall|x: int, k: int, q: usize|
        0 <= x < all.len() && 0 <= k < classes.len() && #[trigger] works_at(
            all[x],
            base,
            k,
            q,
        ) implies classes[k] < c + 1 by {
        if x < front.len() {
            assert(works_at(front[x], base, k, q));
        } else {
            assert(works_at(back[x - front.len()], base, k, q));
        }
    }
}

/// A layer of controlled Paulis works for the checks of its sites.
proof fn lemma_works_at(part: Seq<Site>, m: nat, base: int, j: int, q: usize)
    requires
        sites_below(part, m, base),
        0 <= base,
        base + m <= usize::MAX,
        0 <= j < m,
    ensures
        works_at(controlled_layer(part, base), base, j, q) ==> exists|i: int|
            0 <= i < part.len() && (#[trigger] part[i]).0 == j && part[i].1 == q,
{
    let layer = controlled_layer(part, base);
    if works_at(layer, base, j, q) {
        let i = choose|i: int| 0 <= i < layer.len() && acts_for(#[trigger] layer[i], base, j, q);
        assert(part[i].0 < m);
        assert(part[i].0 == j && part[i].1 == q);
    }
}

proof fn lemma_phase_order(
    checks: Seq<SignedPauli<usize>>,
    classes: Seq<int>,
    n: nat,
    base: int,
    i: int,
    j: int,
)
    requires
        0 <= base,
        round_fits(checks, base),
        data_below(checks, base),
        classes.len() == checks.len(),
        0 <= i < checks.len(),
        0 <= j < checks.len(),
        classes[i] < classes[j],
    ensures
        comes_before(phase_layers(checks, classes, n, base), base, i, j),
        classes_below(phase_layers(checks, classes, n, base), classes, base, n as int),
    decreases n,
{
    if n > 0 {
        lemma_phase_order(checks, classes, (n - 1) as nat, base, i, j);
        let none = Set::<usize>::empty();
        let part = part_sites(round_sites(checks, checks.len()), classes, none, n - 1, None);
        let bs = buckets(part, checks.len());
        let here = bucket_layers(bs, base);
        assert forall|x: int, k: int, q: usize|
            0 <= x < here.len() && 0 <= k < classes.len() && #[trigger] works_at(
                here[x],
                base,
                k,
                q,
            ) implies classes[k] == n - 1 by {
            lemma_part_buckets(checks, classes, none, n - 1, None, base, x);
            lemma_works_at(bs[x], checks.len(), base, k, q);
            let t = choose|t: int|
                0 <= t < bs[x].len() && (#[trigger] bs[x][t]).0 == k && bs[x][t].1 == q;
            assert(classes[bs[x][t].0 as int] == n - 1);
        }
        lemma_next_class(
            phase_layers(checks, classes, (n - 1) as nat, base),
            here,
            classes,
            base,
            n - 1,
            i,
            j,
        );
    }
}

/// Framing layers by a reset and a measurement does not change their order.
proof fn lemma_framed_order(
    checks: Seq<SignedPauli<usize>>,
    group: Seq<int>,
    inner: Seq<Seq<GateModel<usize>>>,
    base: int,
    i: int,
    j: int,
)
    requires
        comes_before(inner, base, i, j),
    ensures
        comes_before(
            seq![reset_layer(group, base)] + inner + seq![measure_layer(checks, group, base)],
            base,
            i,
            j,
        ),
{
    let all = seq![reset_layer(group, base)] + inner + seq![measure_layer(checks, group, base)];
    assert forall|x: int, k: int, q: usize|
        0 <= x < all.len() && #[trigger] works_at(all[x], base, k, q) implies 1 <= x
        && x < inner.len() + 1 && all[x] == inner[x - 1] by {
        let t = choose|t: int| 0 <= t < all[x].len() && acts_for(#[trigger] all[x][t], base, k, q);
        if x == 0 {
            assert(all[x] == reset_layer(group, base));
            assert(all[x][t] is Reset);
        } else if x == inner.len() + 1 {
            assert(all[x] == measure_layer(checks, group, base));
            assert(all[x][t] is Measure);
        }
    }
    assert forall|x: int, y: int, p: usize, q: usize|
        0 <= x < all.len() && 0 <= y < all.len() && #[trigger] works_at(all[x], base, i, p)
            && #[trigger] works_at(all[y], base, j, q) implies x < y by {
        assert(works_at(inner[x - 1], base, i, p));
        assert(works_at(inner[y - 1], base, j, q));
    }
}

/// In a round whose conflict classes run one after another, of two checks that
/// conflict one is done before the other starts: they are in the same order on all
/// qubits that they share.
pub proof fn law_sequential_order_is_consistent(
    checks: Seq<SignedPauli<usize>>,
    base: int,
    i: int,
    j: int,
)
    requires
        0 <= base,
        round_fits(checks, base),
        data_below(checks, base),
        checks_meet(checks, true, i, j),
    ensures
        comes_before(sequential_layers(checks, base), base, i, j) || comes_before(
            sequential_layers(checks, base),
            base,
            j,
            i,
        ),
{
    let m = checks.len();
    let adj = meeting(checks, true);
    let classes = class_colors(adj, m);
    lemma_class_colors(adj, m);
    lemma_meet_symmetric(checks, true, i, j);
    if i < j {
        assert(adj(i, j));
        law_classes_are_proper(adj, m, i, j);
    } else {
        assert(adj(j, i));
        law_classes_are_proper(adj, m, j, i);
    }
    let inner = phase_layers(checks, classes, color_count(classes), base);
    if classes[i] < classes[j] {
        lemma_phase_order(checks, classes, color_count(classes), base, i, j);
        lemma_framed_order(checks, everyone(m), inner, base, i, j);
    } else {
        lemma_phase_order(checks, classes, color_count(classes), base, j, i);
        lemma_framed_order(checks, everyone(m), inner, base, j, i);
    }
}

proof fn lemma_meet_symmetric(checks: Seq<SignedPauli<usize>>, clash: bool, i: int, j: int)
    requires
        checks_meet(checks, clash, i, j),
    ensures
        checks_meet(checks, clash, j, i),
{
    let a = acts(checks, i);
    let b = acts(checks, j);
    let (x, y) = choose|x: int, y: int| sites_meet(a, b, clash, x, y);
    assert(sites_meet(b, a, clash, y, x));
}

proof fn lemma_class_order(
    checks: Seq<SignedPauli<usize>>,
    colors: Seq<int>,
    n: nat,
    base: int,
    i: int,
    j: int,
)
    requires
        0 <= base,
        round_fits(checks, base),
        data_below(checks, base),
        colors == greedy_colors(meeting(checks, false), checks.len()),
        colors.len() == checks.len(),
        0 <= i < checks.len(),
        0 <= j < checks.len(),
        colors[i] < colors[j],
    ensures
        comes_before(class_layers(checks, colors, n, base), base, i, j),
        classes_below(class_layers(checks, colors, n, base), colors, base, n as int),
    decreases n,
{
    if n > 0 {
        lemma_class_order(checks, colors, (n - 1) as nat, base, i, j);
        let here = lockstep_layers(checks, colors, n - 1, base);
        assert forall|x: int, k: int, q: usize|
            0 <= x < here.len() && 0 <= k < colors.len() && #[trigger] works_at(
                here[x],
                base,
                k,
                q,
            ) implies colors[k] == n - 1 by {
            let part = lockstep(checks, colors, n - 1, x, checks.len());
            lemma_lockstep(checks, colors, n - 1, x, checks.len(), base);
            lemma_works_at(part, checks.len(), base, k, q);
            let t = choose|t: int|
                0 <= t < part.len() && (#[trigger] part[t]).0 == k && part[t].1 == q;
            assert(colors[part[t].0 as int] == n - 1);
        }
        lemma_next_class(
            class_layers(checks, colors, (n - 1) as nat, base),
            here,
            colors,
            base,
            n - 1,
            i,
            j,
        );
    }
}

/// In a round in lockstep classes, of two checks that share a qubit one is done
/// before the other starts.
pub proof fn law_legacy_order_is_consistent(
    checks: Seq<SignedPauli<usize>>,
    base: int,
    i: int,
    j: int,
)
    requires
        0 <= base,
        round_fits(checks, base),
        data_below(checks, base),
        checks_meet(checks, false, i, j),
    ensures
        comes_before(legacy_layers(checks, base), base, i, j) || comes_before(
            legacy_layers(checks, base),
            base,
            j,
            i,
        ),
{
    let m = checks.len();
    let adj = meeting(checks, false);
    let colors = greedy_colors(adj, m);
    lemma_greedy_natural(adj, m);
    lemma_meet_symmetric(checks, false, i, j);
    if i < j {
        assert(adj(i, j));
        law_greedy_coloring_is_proper(adj, m, i, j);
    } else {
        assert(adj(j, i));
        law_greedy_coloring_is_proper(adj, m, j, i);
    }
    let inner = class_layers(checks, colors, color_count(colors), base);
    if colors[i] < colors[j] {
        lemma_class_order(checks, colors, color_count(colors), base, i, j);
        lemma_framed_order(checks, everyone(m), inner, base, i, j);
    } else {
        lemma_class_order(checks, colors, color_count(colors), base, j, i);
        lemma_framed_order(checks, everyone(m), inner, base, j, i);
    }
}

/// What works for a check in a layer of a phase is on the side of its bucket.
proof fn lemma_works_on_side(
    checks: Seq<SignedPauli<usize>>,
    classes: Seq<int>,
    class: int,
    side: bool,
    base: int,
    k: int,
    j: int,
    q: usize,
)
    requires
        0 <= base,
        round_fits(checks, base),
        data_below(checks, base),
        0 <= j < checks.len(),
    ensures
        works_at(bucket_at(phase_buckets(checks, classes, class, side), k, base), base, j, q)
            ==> classes[j] == class && left_qubits(
            round_sites(checks, checks.len()),
            classes,
        ).contains(q) == side,
{
    let bs = phase_buckets(checks, classes, class, side);
    lemma_bucket_at(checks, classes, class, side, base, k);
    if 0 <= k < bs.len() {
        lemma_works_at(bs[k], checks.len(), base, j, q);
        if works_at(controlled_layer(bs[k], base), base, j, q) {
            let t = choose|t: int|
                0 <= t < bs[k].len() && (#[trigger] bs[k][t]).0 == j && bs[k][t].1 == q;
            assert(classes[bs[k][t].0 as int] == class);
        }
    }
}

proof fn lemma_works_in_either(
    a: Seq<GateModel<usize>>,
    b: Seq<GateModel<usize>>,
    base: int,
    j: int,
    q: usize,
)
    requires
        works_at(a + b, base, j, q),
    ensures
        works_at(a, base, j, q) || works_at(b, base, j, q),
{
    let c = a + b;
    let i = choose|i: int| 0 <= i < c.len() && acts_for(#[trigger] c[i], base, j, q);
    if i < a.len() {
        assert(acts_for(a[i], base, j, q));
    } else {
        assert(acts_for(b[i - a.len()], base, j, q));
    }
}

proof fn lemma_no_work(
    checks: Seq<SignedPauli<usize>>,
    group: Seq<int>,
    base: int,
    j: int,
    q: usize,
)
    ensures
        !works_at(reset_layer(group, base), base, j, q),
        !works_at(measure_layer(checks, group, base), base, j, q),
        !works_at(Seq::<GateModel<usize>>::empty(), base, j, q),
{
}

/// Where in a round of a segment the controlled Paulis of a check on a qubit are:
/// those of `g1` on left qubits and of `g2` on right ones in the first phase, the
/// others in the second.
#[verifier::spinoff_prover]
proof fn lemma_phase_of(
    checks: Seq<SignedPauli<usize>>,
    classes: Seq<int>,
    base: int,
    prologue: bool,
    x: int,
    j: int,
    q: usize,
)
    requires
        0 <= base,
        round_fits(checks, base),
        data_below(checks, base),
        classes.len() == checks.len(),
        0 <= j < checks.len(),
        0 <= classes[j] <= 1,
        0 <= x < seg_model(checks, classes, base).round_layers(prologue).len(),
        works_at(seg_model(checks, classes, base).round_layers(prologue)[x], base, j, q),
    ensures
        ({
            let left = left_qubits(round_sites(checks, checks.len()), classes).contains(q);
            let split = seg_model(checks, classes, base).first_length(prologue);
            (x <= split) == ((classes[j] == 0) == left)
        }),
{
    let seg = seg_model(checks, classes, base);
    let split = seg.first_length(prologue) as int;
    let layers = seg.round_layers(prologue);
    lemma_no_work(checks, seg.g1, base, j, q);
    lemma_no_work(checks, seg.g2, base, j, q);
    if x == 0 {
        assert(layers[x] == reset_layer(seg.g1, base));
    } else if x <= split {
        let k = x - 1;
        assert(layers[x] == seg.first_phase(k, prologue));
        lemma_works_on_side(checks, classes, 0, true, base, k, j, q);
        lemma_works_on_side(checks, classes, 1, false, base, k, j, q);
        let b = if prologue {
            Seq::<GateModel<usize>>::empty()
        } else {
            bucket_at(seg.r2, k, base)
        };
        lemma_works_in_either(bucket_at(seg.l1, k, base), b, base, j, q);
    } else if x < layers.len() - 1 {
        let k = x - 1 - split;
        assert(layers[x] == seg.second_phase(k, prologue));
        lemma_works_on_side(checks, classes, 0, false, base, k, j, q);
        lemma_works_on_side(checks, classes, 1, true, base, k - 2, j, q);
        let b = if k == 0 {
            if prologue {
                Seq::<GateModel<usize>>::empty()
            } else {
                measure_layer(checks, seg.g2, base)
            }
        } else if k == 1 {
            reset_layer(seg.g2, base)
        } else {
            bucket_at(seg.l2, k - 2, base)
        };
        lemma_works_in_either(bucket_at(seg.r1, k, base), b, base, j, q);
    } else {
        assert(layers[x] == measure_layer(checks, seg.g1, base));
    }
}

/// In every round of a staggered segment, on a left qubit the checks of `g1` come
/// before those of `g2`, which belong to the same round, and on a right qubit after
/// those of `g2`, which belong to the round before. So against the checks of `g2`
/// of the round before a check of `g1` comes later on every qubit, and against
/// those of its own round earlier on every qubit.
pub proof fn law_segment_order_is_consistent(
    checks: Seq<SignedPauli<usize>>,
    classes: Seq<int>,
    base: int,
    prologue: bool,
    i: int,
    j: int,
    q: usize,
    x: int,
    y: int,
)
    requires
        0 <= base,
        round_fits(checks, base),
        data_below(checks, base),
        classes.len() == checks.len(),
        0 <= i < checks.len(),
        0 <= j < checks.len(),
        classes[i] == 0,
        classes[j] == 1,
        0 <= x < seg_model(checks, classes, base).round_layers(prologue).len(),
        0 <= y < seg_model(checks, classes, base).round_layers(prologue).len(),
        works_at(seg_model(checks, classes, base).round_layers(prologue)[x], base, i, q),
        works_at(seg_model(checks, classes, base).round_layers(prologue)[y], base, j, q),
    ensures
        left_qubits(round_sites(checks, checks.len()), classes).contains(q) ==> x < y,
        !left_qubits(round_sites(checks, checks.len()), classes).contains(q) ==> y < x,
{
    lemma_phase_of(checks, classes, base, prologue, x, i, q);
    lemma_phase_of(checks, classes, base, prologue, y, j, q);
}

/// The layers of block `b` of a segment of `r` rounds: the first round, the rounds
/// after it, and what closes the segment.
pub open spec fn block_layers(seg: SegModel, r: int, b: int) -> Seq<Seq<GateModel<usize>>> {
    if b == 1 {
        seg.round_layers(true)
    } else if b <= r {
        seg.round_layers(false)
    } else {
        seg.epilogue_layers()
    }
}

/// The round that a controlled Pauli of a check in block `b` belongs to: those of
/// `g2` on right qubits are one block late.
pub open spec fn round_of(class: int, left: bool, b: int) -> int {
    if class == 0 || left {
        b
    } else {
        b - 1
    }
}

/// Layer `x` of block `b` comes before layer `y` of block `c`.
pub open spec fn earlier(b: int, x: int, c: int, y: int) -> bool {
    b < c || (b == c && x < y)
}

/// What closes a segment works for `g2` on right qubits only.
proof fn lemma_epilogue_works(
    checks: Seq<SignedPauli<usize>>,
    classes: Seq<int>,
    base: int,
    x: int,
    j: int,
    q: usize,
)
    requires
        0 <= base,
        round_fits(checks, base),
        data_below(checks, base),
        0 <= j < checks.len(),
        0 <= x < seg_model(checks, classes, base).epilogue_layers().len(),
        works_at(seg_model(checks, classes, base).epilogue_layers()[x], base, j, q),
    ensures
        classes[j] == 1,
        !left_qubits(round_sites(checks, checks.len()), classes).contains(q),
{
    let seg = seg_model(checks, classes, base);
    let layers = seg.epilogue_layers();
    lemma_no_work(checks, seg.g2, base, j, q);
    if x < seg.r2.len() {
        assert(layers[x] == bucket_at(seg.r2, x, base));
        lemma_works_on_side(checks, classes, 1, false, base, x, j, q);
    } else {
        assert(layers[x] == measure_layer(checks, seg.g2, base));
    }
}

/// In a segment of `r` rounds, a check of `g1` in one round comes before a check of
/// `g2` in the same or a later round, and after one in an earlier round, on every
/// qubit that the two share.
pub proof fn law_rounds_are_consistently_ordered(
    checks: Seq<SignedPauli<usize>>,
    classes: Seq<int>,
    base: int,
    r: int,
    i: int,
    j: int,
    q: usize,
    b: int,
    x: int,
    c: int,
    y: int,
)
    requires
        0 <= base,
        round_fits(checks, base),
        data_below(checks, base),
        classes.len() == checks.len(),
        0 <= i < checks.len(),
        0 <= j < checks.len(),
        classes[i] == 0,
        classes[j] == 1,
        1 <= b <= r + 1,
        1 <= c <= r + 1,
        0 <= x < block_layers(seg_model(checks, classes, base), r, b).len(),
        0 <= y < block_layers(seg_model(checks, classes, base), r, c).len(),
        works_at(block_layers(seg_model(checks, classes, base), r, b)[x], base, i, q),
        works_at(block_layers(seg_model(checks, classes, base), r, c)[y], base, j, q),
    ensures
        ({
            let left = left_qubits(round_sites(checks, checks.len()), classes).contains(q);
            earlier(b, x, c, y) <==> round_of(0, left, b) <= round_of(1, left, c)
        }),
{
    if b > 1 && b > r {
        lemma_epilogue_works(checks, classes, base, x, i, q);
    } else {
        lemma_phase_of(checks, classes, base, b == 1, x, i, q);
    }
    if c > 1 && c > r {
        lemma_epilogue_works(checks, classes, base, y, j, q);
    } else {
        lemma_phase_of(checks, classes, base, c == 1, y, j, q);
    }
}

// ---------------------------------------------------------------------------
// Ancillas
// ---------------------------------------------------------------------------
/// No number is above the highest.
pub proof fn lemma_highest(qs: Seq<usize>, i: int)
    requires
        0 <= i < qs.len(),
    ensures
        highest(qs) matches Some(h) && qs[i] <= h,
    decreases qs.len(),
{
    if i < qs.len() - 1 {
        lemma_highest(qs.drop_last(), i);
    }
}

proof fn lemma_all_qubits(s: Seq<GateModel<usize>>, i: int, q: usize)
    requires
        0 <= i < s.len(),
        gate_qubits(s[i]).contains(q),
    ensures
        all_qubits(s).contains(q),
    decreases s.len(),
{
    let front = all_qubits(s.drop_last());
    let here = gate_qubits(s.last());
    if i < s.len() - 1 {
        lemma_all_qubits(s.drop_last(), i, q);
        let x = front.index_of(q);
        assert((front + here)[x] == q);
    } else {
        let x = here.index_of(q);
        assert((front + here)[front.len() + x] == q);
    }
}

/// The ancillas start past every qubit that the circuit names, in repeated bodies
/// too.
pub proof fn law_ancillas_are_free(s: Seq<GateModel<usize>>, i: int, q: usize)
    requires
        0 <= i < s.len(),
        gate_qubits(s[i]).contains(q),
    ensures
        q < ancilla_base(s),
{
    lemma_all_qubits(s, i, q);
    let x = all_qubits(s).index_of(q);
    assert(all_qubits(s)[x] == q);
    lemma_highest(all_qubits(s), x);
}

/// Active sites are sites.
pub proof fn lemma_active_sites(sites: Seq<(usize, Pauli)>, x: int)
    requires
        0 <= x < active_sites(sites).len(),
    ensures
        sites.contains(active_sites(sites)[x]),
    decreases sites.len(),
{
    let front = sites.drop_last();
    let site = active_sites(sites)[x];
    if x < active_sites(front).len() {
        lemma_active_sites(front, x);
        let i = front.index_of(site);
        assert(sites[i] == site);
    } else {
        assert(sites[sites.len() - 1] == site);
    }
}

/// The checks that are measured in a circuit act on qubits below its ancillas.
pub proof fn law_checks_are_below_ancillas(
    s: Seq<GateModel<usize>>,
    checks: Seq<SignedPauli<usize>>,
)
    requires
        forall|j: int| 0 <= j < checks.len() ==> s.contains(GateModel::MPP(#[trigger] checks[j])),
    ensures
        data_below(checks, ancilla_base(s)),
{
    assert forall|j: int, x: int|
        0 <= j < checks.len() && 0 <= x < acts(checks, j).len() implies (#[trigger] acts(
        checks,
        j,
    )[x]).0 < ancilla_base(s) by {
        let p = checks[j];
        let g = GateModel::MPP(p);
        let i = s.index_of(g);
        assert(s[i] == g);
        lemma_active_sites(p.sites, x);
        let k = p.sites.index_of(acts(checks, j)[x]);
        assert(gate_qubits(s[i])[k] == acts(checks, j)[x].0);
        law_ancillas_are_free(s, i, acts(checks, j)[x].0);
    }
}

} // verus!
