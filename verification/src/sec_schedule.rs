//! Scheduling syndrome extraction: how the checks of a measurement round become
//! timed layers of resets, controlled Paulis and measurements on ancillas.
//!
//! Swapping two controlled Paulis on the same data qubit with *anticommuting* site
//! Paulis couples the two ancillas; commuting site Paulis swap freely. Two checks
//! conflict when they share a qubit with anticommuting site Paulis. Checks of one
//! conflict-free class interleave freely; only the limit of one gate per qubit and
//! layer applies, which a bipartite edge coloring meets with as few layers as the
//! largest degree.

use vstd::prelude::*;

use crate::coloring::{bipartite_edge_coloring, color_classes, greedy_coloring};
#[allow(unused_imports)]
use crate::coloring::{
    class_colors, edge_colors, greedy_colors, ints, lemma_greedy_colors, lists_hold,
};
#[allow(unused_imports)]
use crate::keyed::OrderedKey;
use crate::pbc::{Pauli, PauliAxis, Sign};
#[allow(unused_imports)]
use crate::pbc::SignedPauli;
use crate::physical::{
    count_gate_checked, max_qubit, sites, Counted, Interner, PhysicalCircuit, PhysicalGate,
};
#[allow(unused_imports)]
use crate::physical::{
    active_sites, all_qubits, gate_model, gate_models, gate_total, highest, lemma_total_push,
    record_total, tick_total, total, lemma_gate_models, lemma_gate_models_add,
    lemma_gate_models_push, lemma_note_all_distinct, lemma_number_stable, note_all, number_of,
    GateModel,
};
use crate::stim::{extend_gates, GateSink, StimWriter, TickCounter};
#[allow(unused_imports)]
use crate::stim::stim_text;

verus! {

/// Which schedule syndrome extraction is lowered to.
#[derive(Clone, Copy, PartialEq, Eq, Debug, Structural)]
pub enum SecSchedule {
    /// Staggered left-right circuits.
    Lrc,
    /// Checks that share a qubit run one after another, in lockstep classes.
    Legacy,
}

/// One controlled Pauli of a round: the index of the check within the round, the
/// data qubit, and the Pauli.
pub type Site = (usize, usize, Pauli);

/// The contents of the checks.
pub open spec fn axes(checks: Seq<PauliAxis<usize>>) -> Seq<SignedPauli<usize>> {
    Seq::new(checks.len(), |i: int| checks[i]@)
}

/// The sites on which check `j` acts.
pub open spec fn acts(checks: Seq<SignedPauli<usize>>, j: int) -> Seq<(usize, Pauli)> {
    active_sites(checks[j].sites)
}

// ---------------------------------------------------------------------------
// Which checks get in each other's way
// ---------------------------------------------------------------------------
/// Site `x` of `a` and site `y` of `b` lie on the same qubit, and, where `clash`
/// asks for it, anticommute.
pub open spec fn sites_meet(
    a: Seq<(usize, Pauli)>,
    b: Seq<(usize, Pauli)>,
    clash: bool,
    x: int,
    y: int,
) -> bool {
    &&& 0 <= x < a.len()
    &&& 0 <= y < b.len()
    &&& a[x].0 == b[y].0
    &&& clash ==> a[x].1 != b[y].1
}

/// The checks `i` and `j` share a qubit, and, where `clash` asks for it, one with
/// anticommuting Paulis.
pub open spec fn checks_meet(
    checks: Seq<SignedPauli<usize>>,
    clash: bool,
    i: int,
    j: int,
) -> bool {
    &&& 0 <= i < checks.len()
    &&& 0 <= j < checks.len()
    &&& i != j
    &&& exists|x: int, y: int| sites_meet(acts(checks, i), acts(checks, j), clash, x, y)
}

/// [`checks_meet`] as a relation.
pub open spec fn meeting(checks: Seq<SignedPauli<usize>>, clash: bool) -> spec_fn(int, int) -> bool {
    |i: int, j: int| checks_meet(checks, clash, i, j)
}

/// The sites on which each check acts.
fn all_acts(checks: &Vec<PauliAxis<usize>>) -> (r: Vec<Vec<(usize, Pauli)>>)
    ensures
        r@.len() == checks@.len(),
        forall|j: int| 0 <= j < r@.len() ==> (#[trigger] r@[j])@ == acts(axes(checks@), j),
{
    let mut r: Vec<Vec<(usize, Pauli)>> = Vec::new();
    for i in 0..checks.len()
        invariant
            r@.len() == i,
            forall|j: int| 0 <= j < i ==> (#[trigger] r@[j])@ == acts(axes(checks@), j),
    {
        r.push(sites(&checks[i]));
    }
    r
}

fn meet(a: &Vec<(usize, Pauli)>, b: &Vec<(usize, Pauli)>, clash: bool) -> (r: bool)
    ensures
        r == exists|x: int, y: int| sites_meet(a@, b@, clash, x, y),
{
    let mut i: usize = 0;
    while i < a.len()
        invariant
            i <= a@.len(),
            forall|x: int, y: int| x < i ==> !#[trigger] sites_meet(a@, b@, clash, x, y),
        decreases a@.len() - i,
    {
        let mut k: usize = 0;
        while k < b.len()
            invariant
                i < a@.len(),
                k <= b@.len(),
                forall|y: int| y < k ==> !#[trigger] sites_meet(a@, b@, clash, i as int, y),
            decreases b@.len() - k,
        {
            if a[i].0 == b[k].0 && (!clash || a[i].1 != b[k].1) {
                assert(sites_meet(a@, b@, clash, i as int, k as int));
                return true;
            }
            k = k + 1;
        }
        assert forall|x: int, y: int| x < i + 1 implies !#[trigger] sites_meet(
            a@,
            b@,
            clash,
            x,
            y,
        ) by {
            if x == i {
                assert(y < b@.len() ==> !sites_meet(a@, b@, clash, i as int, y));
            }
        }
        i = i + 1;
    }
    assert forall|x: int, y: int| !#[trigger] sites_meet(a@, b@, clash, x, y) by {
        if x < a@.len() {
        }
    }
    false
}

/// For each check the others that it meets.
fn neighbour_lists(
    parts: &Vec<Vec<(usize, Pauli)>>,
    clash: bool,
    Ghost(checks): Ghost<Seq<SignedPauli<usize>>>,
) -> (r: Vec<Vec<usize>>)
    requires
        parts@.len() == checks.len(),
        forall|j: int| 0 <= j < parts@.len() ==> (#[trigger] parts@[j])@ == acts(checks, j),
    ensures
        r@.len() == parts@.len(),
        lists_hold(r@, meeting(checks, clash)),
{
    let mut r: Vec<Vec<usize>> = Vec::new();
    let n: usize = parts.len();
    for i in 0..n
        invariant
            n == parts@.len(),
            parts@.len() == checks.len(),
            forall|j: int| 0 <= j < parts@.len() ==> (#[trigger] parts@[j])@ == acts(checks, j),
            r@.len() == i,
            forall|v: int, k: int|
                0 <= v < i && 0 <= k < r@[v]@.len() ==> (#[trigger] r@[v]@[k]) < n && checks_meet(
                    checks,
                    clash,
                    r@[v]@[k] as int,
                    v,
                ),
            forall|v: int, w: usize|
                0 <= v < i && w < n && checks_meet(checks, clash, w as int, v)
                    ==> #[trigger] r@[v]@.contains(w),
    {
        let mut list: Vec<usize> = Vec::new();
        for j in 0..n
            invariant
                n == parts@.len(),
                i < n,
                parts@.len() == checks.len(),
                forall|j: int|
                    0 <= j < parts@.len() ==> (#[trigger] parts@[j])@ == acts(checks, j),
                forall|k: int|
                    0 <= k < list@.len() ==> (#[trigger] list@[k]) < j && checks_meet(
                        checks,
                        clash,
                        list@[k] as int,
                        i as int,
                    ),
                forall|w: usize|
                    w < j && checks_meet(checks, clash, w as int, i as int)
                        ==> #[trigger] list@.contains(w),
        {
            let ghost list0 = list@;
            proof {
                assert(parts@[i as int]@ == acts(checks, i as int));
                assert(parts@[j as int]@ == acts(checks, j as int));
            }
            if i != j && meet(&parts[j], &parts[i], clash) {
                list.push(j);
            }
            proof {
                assert forall|w: usize|
                    w < j + 1 && checks_meet(checks, clash, w as int, i as int) implies #[trigger] list@.contains(
                    w,
                ) by {
                    if w < j {
                        assert(list0.contains(w));
                        let k = list0.index_of(w);
                        assert(list@[k] == w);
                    } else {
                        assert(list@[list@.len() - 1] == w);
                    }
                }
            }
        }
        let ghost r0 = r@;
        r.push(list);
        proof {
            assert forall|v: int, k: int| 0 <= v < i + 1 && 0 <= k < r@[v]@.len() implies (
            #[trigger] r@[v]@[k]) < n && checks_meet(checks, clash, r@[v]@[k] as int, v) by {
                if v < i {
                    assert(r@[v] == r0[v]);
                    assert(r0[v]@[k] < n);
                } else {
                    assert(list@[k] < n);
                }
            }
            assert forall|v: int, w: usize|
                0 <= v < i + 1 && w < n && checks_meet(checks, clash, w as int, v) implies #[trigger] r@[v]@.contains(
                w,
            ) by {
                if v < i {
                    assert(r@[v] == r0[v]);
                    assert(r0[v]@.contains(w));
                }
            }
        }
    }
    r
}

/// Conflict classes of a round's checks: two checks conflict when they share a
/// qubit with anticommuting Paulis. Two classes where that is enough, else the
/// greedy coloring.
pub fn conflict_classes(checks: &Vec<PauliAxis<usize>>) -> (r: Vec<usize>)
    ensures
        ints(r@) == class_colors(meeting(axes(checks@), true), checks@.len()),
        r@.len() == checks@.len(),
        forall|i: int| 0 <= i < r@.len() ==> #[trigger] r@[i] <= i || r@[i] <= 1,
{
    let parts = all_acts(checks);
    let lists = neighbour_lists(&parts, true, Ghost(axes(checks@)));
    color_classes(&lists, Ghost(meeting(axes(checks@), true)))
}

/// One more than the largest color.
pub open spec fn color_count(colors: Seq<int>) -> nat
    decreases colors.len(),
{
    if colors.len() == 0 {
        0
    } else if color_count(colors.drop_last()) < colors.last() + 1 {
        (colors.last() + 1) as nat
    } else {
        color_count(colors.drop_last())
    }
}

pub proof fn lemma_color_count(colors: Seq<int>, i: int)
    requires
        0 <= i < colors.len(),
    ensures
        colors[i] < color_count(colors),
    decreases colors.len(),
{
    if i < colors.len() - 1 {
        lemma_color_count(colors.drop_last(), i);
    }
}

fn count_colors(colors: &Vec<usize>) -> (r: usize)
    requires
        forall|i: int| 0 <= i < colors@.len() ==> (#[trigger] colors@[i]) < usize::MAX,
    ensures
        r == color_count(ints(colors@)),
{
    let mut r: usize = 0;
    let ghost s = ints(colors@);
    assert(s.take(0) =~= Seq::empty());
    for i in 0..colors.len()
        invariant
            s == ints(colors@),
            forall|i: int| 0 <= i < colors@.len() ==> (#[trigger] colors@[i]) < usize::MAX,
            r == color_count(s.take(i as int)),
    {
        assert(s.take(i + 1).drop_last() =~= s.take(i as int));
        assert(colors@[i as int] < usize::MAX);
        if r < colors[i] + 1 {
            r = colors[i] + 1;
        }
    }
    assert(s.take(s.len() as int) =~= s);
    r
}

// ---------------------------------------------------------------------------
// Layers
// ---------------------------------------------------------------------------
/// Reset the ancillas of the checks of `group`.
pub open spec fn reset_layer(group: Seq<int>, base: int) -> Seq<GateModel<usize>> {
    Seq::new(group.len(), |i: int| GateModel::Reset(Pauli::X, (base + group[i]) as usize))
}

/// Measure the ancillas of the checks of `group`, a negative check inverted.
pub open spec fn measure_layer(
    checks: Seq<SignedPauli<usize>>,
    group: Seq<int>,
    base: int,
) -> Seq<GateModel<usize>> {
    Seq::new(
        group.len(),
        |i: int|
            GateModel::Measure(
                Pauli::X,
                (base + group[i]) as usize,
                checks[group[i]].sign is NegOne,
            ),
    )
}

/// The controlled Paulis of some sites.
pub open spec fn controlled_layer(part: Seq<Site>, base: int) -> Seq<GateModel<usize>> {
    Seq::new(
        part.len(),
        |i: int| GateModel::Controlled(part[i].2, (base + part[i].0) as usize, part[i].1),
    )
}

/// Layers as gates, each followed by a `TICK`; an empty layer leaves no trace.
pub open spec fn layered(layers: Seq<Seq<GateModel<usize>>>) -> Seq<GateModel<usize>>
    decreases layers.len(),
{
    if layers.len() == 0 {
        Seq::empty()
    } else if layers.last().len() == 0 {
        layered(layers.drop_last())
    } else {
        layered(layers.drop_last()) + layers.last().push(GateModel::Tick)
    }
}

/// The contents of the layers.
pub open spec fn layer_models(layers: Seq<Vec<PhysicalGate<usize>>>) -> Seq<Seq<GateModel<usize>>> {
    Seq::new(layers.len(), |i: int| gate_models(layers[i]@))
}

pub proof fn lemma_layers_push(
    layers: Seq<Vec<PhysicalGate<usize>>>,
    layer: Vec<PhysicalGate<usize>>,
)
    ensures
        layer_models(layers.push(layer)) == layer_models(layers).push(gate_models(layer@)),
{
    assert(layer_models(layers.push(layer)) =~= layer_models(layers).push(gate_models(layer@)));
}

/// Append `layers` as gates delimited by `TICK`s, dropping empty layers.
pub fn push_layers<S: GateSink>(out: &mut S, layers: Vec<Vec<PhysicalGate<usize>>>)
    ensures
        final(out).pushed() == old(out).pushed() + layered(layer_models(layers@)),
{
    let ghost before = out.pushed();
    let ghost models = layer_models(layers@);
    let ghost all = layers@;
    let mut layers = layers;
    let n: usize = layers.len();
    proof {
        assert(models.take(0) =~= Seq::empty());
        assert(before + layered(Seq::empty()) =~= before);
        assert(all.skip(0) =~= all);
    }
    for i in 0..n
        invariant
            n == all.len(),
            models == layer_models(all),
            layers@ == all.skip(i as int),
            out.pushed() == before + layered(models.take(i as int)),
    {
        let layer = layers.remove(0);
        proof {
            assert(layer == all[i as int]);
            assert(layers@ =~= all.skip(i + 1));
            assert(models.take(i + 1).drop_last() =~= models.take(i as int));
            assert(models.take(i + 1).last() == gate_models(layer@));
            lemma_gate_models(layer@);
        }
        if layer.len() > 0 {
            extend_gates(out, layer);
            out.push_gate(PhysicalGate::Tick);
            assert(out.pushed() =~= before + layered(models.take(i + 1)));
        }
    }
    assert(models.take(models.len() as int) =~= models);
}

/// All checks of a round, by index.
pub open spec fn everyone(m: nat) -> Seq<int> {
    Seq::new(m, |j: int| j)
}

fn reset_gates(group: &Vec<usize>, base: usize) -> (r: Vec<PhysicalGate<usize>>)
    requires
        forall|i: int| 0 <= i < group@.len() ==> base + #[trigger] group@[i] <= usize::MAX,
    ensures
        gate_models(r@) == reset_layer(ints(group@), base as int),
{
    let mut r: Vec<PhysicalGate<usize>> = Vec::new();
    let ghost goal = reset_layer(ints(group@), base as int);
    assert(gate_models(r@) =~= goal.take(0));
    for i in 0..group.len()
        invariant
            forall|i: int| 0 <= i < group@.len() ==> base + #[trigger] group@[i] <= usize::MAX,
            goal == reset_layer(ints(group@), base as int),
            gate_models(r@) == goal.take(i as int),
    {
        assert(base + group@[i as int] <= usize::MAX);
        let g = PhysicalGate::Reset(Pauli::X, base + group[i]);
        proof {
            lemma_gate_models_push(r@, g);
            assert(goal.take(i + 1) =~= goal.take(i as int).push(gate_model(g)));
        }
        r.push(g);
    }
    assert(goal.take(goal.len() as int) =~= goal);
    r
}

fn measure_gates(checks: &Vec<PauliAxis<usize>>, group: &Vec<usize>, base: usize) -> (r: Vec<
    PhysicalGate<usize>,
>)
    requires
        forall|i: int|
            0 <= i < group@.len() ==> (#[trigger] group@[i]) < checks@.len() && base + group@[i]
                <= usize::MAX,
    ensures
        gate_models(r@) == measure_layer(axes(checks@), ints(group@), base as int),
{
    let mut r: Vec<PhysicalGate<usize>> = Vec::new();
    let ghost goal = measure_layer(axes(checks@), ints(group@), base as int);
    assert(gate_models(r@) =~= goal.take(0));
    for i in 0..group.len()
        invariant
            forall|i: int|
                0 <= i < group@.len() ==> (#[trigger] group@[i]) < checks@.len() && base
                    + group@[i] <= usize::MAX,
            goal == measure_layer(axes(checks@), ints(group@), base as int),
            gate_models(r@) == goal.take(i as int),
    {
        let j: usize = group[i];
        assert(base + group@[i as int] <= usize::MAX);
        let g = PhysicalGate::Measure(Pauli::X, base + j, checks[j].sign == Sign::NegOne);
        proof {
            lemma_gate_models_push(r@, g);
            assert(goal.take(i + 1) =~= goal.take(i as int).push(gate_model(g)));
        }
        r.push(g);
    }
    assert(goal.take(goal.len() as int) =~= goal);
    r
}

fn controlled_gates(part: &Vec<Site>, base: usize) -> (r: Vec<PhysicalGate<usize>>)
    requires
        forall|i: int| 0 <= i < part@.len() ==> base + (#[trigger] part@[i]).0 <= usize::MAX,
    ensures
        gate_models(r@) == controlled_layer(part@, base as int),
{
    let mut r: Vec<PhysicalGate<usize>> = Vec::new();
    let ghost goal = controlled_layer(part@, base as int);
    assert(gate_models(r@) =~= goal.take(0));
    for i in 0..part.len()
        invariant
            forall|i: int| 0 <= i < part@.len() ==> base + (#[trigger] part@[i]).0 <= usize::MAX,
            goal == controlled_layer(part@, base as int),
            gate_models(r@) == goal.take(i as int),
    {
        let (j, q, p) = part[i];
        assert(base + part@[i as int].0 <= usize::MAX);
        let g = PhysicalGate::Controlled(p, base + j, q);
        proof {
            lemma_gate_models_push(r@, g);
            assert(goal.take(i + 1) =~= goal.take(i as int).push(gate_model(g)));
        }
        r.push(g);
    }
    assert(goal.take(goal.len() as int) =~= goal);
    r
}

/// The indices below `m`.
fn all_indices(m: usize) -> (r: Vec<usize>)
    ensures
        ints(r@) == everyone(m as nat),
        r@.len() == m,
        forall|i: int| 0 <= i < m ==> #[trigger] r@[i] == i,
{
    let mut r: Vec<usize> = Vec::new();
    for j in 0..m
        invariant
            r@.len() == j,
            forall|i: int| 0 <= i < j ==> #[trigger] r@[i] == i,
    {
        r.push(j);
    }
    assert(ints(r@) =~= everyone(m as nat));
    r
}

// ---------------------------------------------------------------------------
// The lockstep schedule
// ---------------------------------------------------------------------------
/// Step `k` of class `c` among the first `n` checks: each member emits its `k`-th
/// controlled Pauli, if it has one.
pub open spec fn lockstep(
    checks: Seq<SignedPauli<usize>>,
    colors: Seq<int>,
    c: int,
    k: int,
    n: nat,
) -> Seq<Site>
    decreases n,
{
    if n == 0 {
        Seq::empty()
    } else {
        let j = n - 1;
        let before = lockstep(checks, colors, c, k, j as nat);
        if colors[j] == c && k < acts(checks, j).len() {
            before.push((j as usize, acts(checks, j)[k].0, acts(checks, j)[k].1))
        } else {
            before
        }
    }
}

/// The largest number of sites of a member of class `c` among the first `n` checks.
pub open spec fn class_weight(
    checks: Seq<SignedPauli<usize>>,
    colors: Seq<int>,
    c: int,
    n: nat,
) -> nat
    decreases n,
{
    if n == 0 {
        0
    } else {
        let before = class_weight(checks, colors, c, (n - 1) as nat);
        if colors[n - 1] == c && before < acts(checks, n - 1).len() {
            acts(checks, n - 1).len()
        } else {
            before
        }
    }
}

/// The steps of class `c`, one layer each.
pub open spec fn lockstep_layers(
    checks: Seq<SignedPauli<usize>>,
    colors: Seq<int>,
    c: int,
    base: int,
) -> Seq<Seq<GateModel<usize>>> {
    Seq::new(
        class_weight(checks, colors, c, checks.len()),
        |k: int| controlled_layer(lockstep(checks, colors, c, k, checks.len()), base),
    )
}

/// The layers of the classes below `n`, one class after another.
pub open spec fn class_layers(
    checks: Seq<SignedPauli<usize>>,
    colors: Seq<int>,
    n: nat,
    base: int,
) -> Seq<Seq<GateModel<usize>>>
    decreases n,
{
    if n == 0 {
        Seq::empty()
    } else {
        class_layers(checks, colors, (n - 1) as nat, base) + lockstep_layers(
            checks,
            colors,
            n - 1,
            base,
        )
    }
}

/// One round in lockstep classes: checks that share a qubit are in different
/// classes, and a class starts when the one before it is over.
pub open spec fn legacy_layers(checks: Seq<SignedPauli<usize>>, base: int) -> Seq<
    Seq<GateModel<usize>>,
> {
    let m = checks.len();
    let colors = greedy_colors(meeting(checks, false), m);
    seq![reset_layer(everyone(m), base)] + class_layers(checks, colors, color_count(colors), base)
        + seq![measure_layer(checks, everyone(m), base)]
}

/// The gates of one round in lockstep classes. A round without checks still has its
/// reset layer and its measure layer, both empty: only their two `TICK`s show.
pub open spec fn lockstep_round(checks: Seq<SignedPauli<usize>>, base: int) -> Seq<
    GateModel<usize>,
> {
    if checks.len() == 0 {
        seq![GateModel::Tick, GateModel::Tick]
    } else {
        layered(legacy_layers(checks, base))
    }
}

fn lockstep_sites(
    parts: &Vec<Vec<(usize, Pauli)>>,
    colors: &Vec<usize>,
    c: usize,
    k: usize,
    Ghost(checks): Ghost<Seq<SignedPauli<usize>>>,
) -> (r: Vec<Site>)
    requires
        parts@.len() == checks.len(),
        colors@.len() == checks.len(),
        forall|j: int| 0 <= j < parts@.len() ==> (#[trigger] parts@[j])@ == acts(checks, j),
    ensures
        r@ == lockstep(checks, ints(colors@), c as int, k as int, checks.len()),
        forall|i: int| 0 <= i < r@.len() ==> (#[trigger] r@[i]).0 < checks.len(),
{
    let mut r: Vec<Site> = Vec::new();
    for j in 0..parts.len()
        invariant
            parts@.len() == checks.len(),
            colors@.len() == checks.len(),
            forall|j: int| 0 <= j < parts@.len() ==> (#[trigger] parts@[j])@ == acts(checks, j),
            r@ == lockstep(checks, ints(colors@), c as int, k as int, j as nat),
            forall|i: int| 0 <= i < r@.len() ==> (#[trigger] r@[i]).0 < j,
    {
        proof {
            assert(parts@[j as int]@ == acts(checks, j as int));
            assert(ints(colors@)[j as int] == colors@[j as int]);
        }
        if colors[j] == c && k < parts[j].len() {
            let (q, p) = parts[j][k];
            r.push((j, q, p));
        }
    }
    r
}

fn widest_member(
    parts: &Vec<Vec<(usize, Pauli)>>,
    colors: &Vec<usize>,
    c: usize,
    Ghost(checks): Ghost<Seq<SignedPauli<usize>>>,
) -> (r: usize)
    requires
        parts@.len() == checks.len(),
        colors@.len() == checks.len(),
        forall|j: int| 0 <= j < parts@.len() ==> (#[trigger] parts@[j])@ == acts(checks, j),
    ensures
        r == class_weight(checks, ints(colors@), c as int, checks.len()),
{
    let mut r: usize = 0;
    for j in 0..parts.len()
        invariant
            parts@.len() == checks.len(),
            colors@.len() == checks.len(),
            forall|j: int| 0 <= j < parts@.len() ==> (#[trigger] parts@[j])@ == acts(checks, j),
            r == class_weight(checks, ints(colors@), c as int, j as nat),
    {
        proof {
            assert(parts@[j as int]@ == acts(checks, j as int));
            assert(ints(colors@)[j as int] == colors@[j as int]);
        }
        if colors[j] == c && r < parts[j].len() {
            r = parts[j].len();
        }
    }
    r
}

/// Emit one round of `checks` as layers of ancilla gadgets: a reset layer, the
/// lockstep controlled-Pauli layers, then a measure layer. The j-th check uses
/// ancilla `base + j`; measurements are emitted in check order, preserving the
/// record stream.
pub fn emit_round<S: GateSink>(checks: &Vec<PauliAxis<usize>>, base: usize, out: &mut S)
    requires
        base + checks@.len() <= usize::MAX + 1,
    ensures
        final(out).pushed() == old(out).pushed() + lockstep_round(axes(checks@), base as int),
{
    let ghost model = axes(checks@);
    let m: usize = checks.len();
    if m == 0 {
        let ghost before = out.pushed();
        out.push_gate(PhysicalGate::Tick);
        out.push_gate(PhysicalGate::Tick);
        assert(out.pushed() =~= before + seq![GateModel::Tick, GateModel::Tick]);
        return ;
    }
    let parts = all_acts(checks);
    let lists = neighbour_lists(&parts, false, Ghost(model));
    let colors = greedy_coloring(&lists, Ghost(meeting(model, false)));
    let ghost cs = ints(colors@);
    proof {
        lemma_greedy_colors(meeting(model, false), model.len());
    }
    let indices = all_indices(m);
    let mut layers: Vec<Vec<PhysicalGate<usize>>> = Vec::new();
    layers.push(reset_gates(&indices, base));
    let count: usize = count_colors(&colors);
    let ghost head = seq![reset_layer(everyone(m as nat), base as int)];
    proof {
        assert(layer_models(layers@) =~= head + class_layers(model, cs, 0, base as int));
    }
    for c in 0..count
        invariant
            base + m <= usize::MAX + 1,
            m == model.len(),
            cs == ints(colors@),
            parts@.len() == model.len(),
            colors@.len() == model.len(),
            forall|j: int| 0 <= j < parts@.len() ==> (#[trigger] parts@[j])@ == acts(model, j),
            layer_models(layers@) == head + class_layers(model, cs, c as nat, base as int),
    {
        let steps: usize = widest_member(&parts, &colors, c, Ghost(model));
        let ghost before = layer_models(layers@);
        let ghost goal = lockstep_layers(model, cs, c as int, base as int);
        assert(before + goal.take(0) =~= before);
        for k in 0..steps
            invariant
                base + m <= usize::MAX + 1,
                m == model.len(),
                cs == ints(colors@),
                parts@.len() == model.len(),
                colors@.len() == model.len(),
                forall|j: int| 0 <= j < parts@.len() ==> (#[trigger] parts@[j])@ == acts(model, j),
                steps == goal.len(),
                goal == lockstep_layers(model, cs, c as int, base as int),
                layer_models(layers@) == before + goal.take(k as int),
        {
            let part = lockstep_sites(&parts, &colors, c, k, Ghost(model));
            let layer = controlled_gates(&part, base);
            proof {
                lemma_layers_push(layers@, layer);
                assert(goal.take(k + 1) =~= goal.take(k as int).push(gate_models(layer@)));
                assert(before + goal.take(k + 1) =~= (before + goal.take(k as int)).push(
                    gate_models(layer@),
                ));
            }
            layers.push(layer);
        }
        proof {
            assert(goal.take(goal.len() as int) =~= goal);
            assert(head + class_layers(model, cs, (c + 1) as nat, base as int) =~= before + goal);
        }
    }
    let ghost before = layer_models(layers@);
    layers.push(measure_gates(checks, &indices, base));
    assert(layer_models(layers@) =~= legacy_layers(model, base as int));
    push_layers(out, layers);
}

// ---------------------------------------------------------------------------
// Edge-colored parts of a round
// ---------------------------------------------------------------------------
/// The sites of check `j`.
pub open spec fn check_sites(checks: Seq<SignedPauli<usize>>, j: int) -> Seq<Site> {
    Seq::new(
        acts(checks, j).len(),
        |i: int| (j as usize, acts(checks, j)[i].0, acts(checks, j)[i].1),
    )
}

/// The sites of the first `n` checks.
pub open spec fn round_sites(checks: Seq<SignedPauli<usize>>, n: nat) -> Seq<Site>
    decreases n,
{
    if n == 0 {
        Seq::empty()
    } else {
        round_sites(checks, (n - 1) as nat) + check_sites(checks, n - 1)
    }
}

/// The sites of the checks of class `class` on the qubits of `side`: those in
/// `left`, those not in it, or any.
pub open spec fn part_sites(
    part: Seq<Site>,
    classes: Seq<int>,
    left: Set<usize>,
    class: int,
    side: Option<bool>,
) -> Seq<Site>
    decreases part.len(),
{
    if part.len() == 0 {
        Seq::empty()
    } else {
        let before = part_sites(part.drop_last(), classes, left, class, side);
        let (j, q, p) = part.last();
        if classes[j as int] == class && (side is None || side == Some(left.contains(q))) {
            before.push((j, q, p))
        } else {
            before
        }
    }
}

/// The qubits of the sites.
pub open spec fn site_qubits(part: Seq<Site>) -> Seq<usize> {
    Seq::new(part.len(), |i: int| part[i].1)
}

/// The sites as the edges of a bipartite graph: from the check, numbered below
/// `m`, to the qubit, numbered from `m` in order of first appearance.
pub open spec fn site_edges(part: Seq<Site>, m: nat) -> Seq<(usize, usize)> {
    let seen = note_all(Seq::empty(), site_qubits(part));
    Seq::new(part.len(), |i: int| (part[i].0, (m + number_of(seen, part[i].1)) as usize))
}

/// The sites that have color `k`.
pub open spec fn sites_of_color(part: Seq<Site>, colors: Seq<int>, k: int) -> Seq<Site>
    decreases part.len(),
{
    if part.len() == 0 {
        Seq::empty()
    } else {
        let before = sites_of_color(part.drop_last(), colors, k);
        if colors[part.len() - 1] == k {
            before.push(part.last())
        } else {
            before
        }
    }
}

/// The sites, color by color.
pub open spec fn buckets(part: Seq<Site>, m: nat) -> Seq<Seq<Site>> {
    let colors = edge_colors(site_edges(part, m), part.len());
    Seq::new(color_count(colors), |k: int| sites_of_color(part, colors, k))
}

/// The views of the vectors.
pub open spec fn site_views(v: Seq<Vec<Site>>) -> Seq<Seq<Site>> {
    Seq::new(v.len(), |i: int| v[i]@)
}

/// All sites of the round belong to its checks.
pub open spec fn sites_within(part: Seq<Site>, m: nat) -> bool {
    forall|i: int| 0 <= i < part.len() ==> (#[trigger] part[i]).0 < m
}

fn all_round_sites(
    parts: &Vec<Vec<(usize, Pauli)>>,
    Ghost(checks): Ghost<Seq<SignedPauli<usize>>>,
) -> (r: Vec<Site>)
    requires
        parts@.len() == checks.len(),
        forall|j: int| 0 <= j < parts@.len() ==> (#[trigger] parts@[j])@ == acts(checks, j),
    ensures
        r@ == round_sites(checks, checks.len()),
        sites_within(r@, checks.len()),
{
    let mut r: Vec<Site> = Vec::new();
    for j in 0..parts.len()
        invariant
            parts@.len() == checks.len(),
            forall|j: int| 0 <= j < parts@.len() ==> (#[trigger] parts@[j])@ == acts(checks, j),
            r@ == round_sites(checks, j as nat),
            sites_within(r@, j as nat),
    {
        let ghost before = r@;
        let ghost goal = check_sites(checks, j as int);
        proof {
            assert(parts@[j as int]@ == acts(checks, j as int));
            assert(before + goal.take(0) =~= before);
        }
        let weight: usize = parts[j].len();
        for i in 0..weight
            invariant
                parts@.len() == checks.len(),
                j < parts@.len(),
                weight == parts@[j as int]@.len(),
                parts@[j as int]@ == acts(checks, j as int),
                goal == check_sites(checks, j as int),
                r@ == before + goal.take(i as int),
                sites_within(r@, (j + 1) as nat),
        {
            let (q, p) = parts[j][i];
            r.push((j, q, p));
            assert(r@ =~= before + goal.take(i + 1));
        }
        assert(goal.take(goal.len() as int) =~= goal);
    }
    r
}

fn select_part(
    part: &Vec<Site>,
    classes: &Vec<usize>,
    left: &Vec<usize>,
    class: usize,
    side: Option<bool>,
    Ghost(m): Ghost<nat>,
) -> (r: Vec<Site>)
    requires
        sites_within(part@, m),
        classes@.len() == m,
    ensures
        r@ == part_sites(part@, ints(classes@), left@.to_set(), class as int, side),
        sites_within(r@, m),
        r@.len() <= part@.len(),
{
    let mut r: Vec<Site> = Vec::new();
    let ghost s = part@;
    assert(s.take(0) =~= Seq::empty());
    for i in 0..part.len()
        invariant
            s == part@,
            sites_within(s, m),
            classes@.len() == m,
            r@ == part_sites(
                s.take(i as int),
                ints(classes@),
                left@.to_set(),
                class as int,
                side,
            ),
            sites_within(r@, m),
            r@.len() <= i,
    {
        assert(s.take(i + 1).drop_last() =~= s.take(i as int));
        let (j, q, p) = part[i];
        assert(s[i as int].0 < m);
        let on_side: bool = match side {
            None => true,
            Some(b) => {
                let inside: bool = contains_qubit(left, q);
                b == inside
            },
        };
        if classes[j] == class && on_side {
            r.push((j, q, p));
        }
    }
    assert(s.take(s.len() as int) =~= s);
    r
}

fn contains_qubit(v: &Vec<usize>, q: usize) -> (r: bool)
    ensures
        r == v@.to_set().contains(q),
{
    let mut i: usize = 0;
    while i < v.len()
        invariant
            i <= v@.len(),
            forall|k: int| 0 <= k < i ==> #[trigger] v@[k] != q,
        decreases v@.len() - i,
    {
        if v[i] == q {
            assert(v@[i as int] == q);
            return true;
        }
        i = i + 1;
    }
    false
}

/// Sort the sites into layers such that no check and no qubit occurs twice in one.
#[verifier::spinoff_prover]
pub fn color_part(part: &Vec<Site>, m: usize) -> (r: Vec<Vec<Site>>)
    requires
        sites_within(part@, m as nat),
        m + part@.len() <= usize::MAX,
    ensures
        site_views(r@) == buckets(part@, m as nat),
        forall|k: int| 0 <= k < r@.len() ==> sites_within((#[trigger] r@[k])@, m as nat),
        r@.len() <= part@.len(),
{
    let ghost qs = site_qubits(part@);
    let ghost none: Seq<usize> = Seq::empty();
    let mut ids: Interner<usize> = Interner::new();
    let mut edges: Vec<(usize, usize)> = Vec::new();
    let ghost seen = note_all(none, qs);
    proof {
        assert(qs.take(0) =~= Seq::empty());
        lemma_note_all_distinct(none, qs);
    }
    for i in 0..part.len()
        invariant
            qs == site_qubits(part@),
            none == Seq::<usize>::empty(),
            seen == note_all(none, qs),
            seen.no_duplicates(),
            sites_within(part@, m as nat),
            m + part@.len() <= usize::MAX,
            ids@ == note_all(none, qs.take(i as int)),
            edges@.len() == i,
            forall|k: int|
                0 <= k < i ==> #[trigger] edges@[k] == (
                    part@[k].0,
                    (m + number_of(seen, part@[k].1)) as usize,
                ),
            forall|k: int|
                0 <= k < i ==> (#[trigger] edges@[k]).0 < m && m <= edges@[k].1 < m + part@.len(),
    {
        let (j, q, _p) = part[i];
        assert(part@[i as int].0 < m);
        proof {
            assert(qs.take(i + 1).drop_last() =~= qs.take(i as int));
            lemma_note_len(none, qs.take(i + 1));
            lemma_note_all_distinct(none, qs.take(i + 1));
        }
        let id: usize = ids.intern(q);
        proof {
            let now = ids@;
            let k = now.index_of(q);
            assert(now[k] == q);
            lemma_note_take(none, qs, i + 1);
            lemma_number_stable(now, seen, q);
        }
        edges.push((j, m + id));
    }
    let ghost es = site_edges(part@, m as nat);
    proof {
        assert(edges@ =~= es);
        let side = |x: usize| x < m;
        assert forall|i: int| 0 <= i < es.len() implies side((#[trigger] es[i]).0) != side(
            es[i].1,
        ) by {
            assert(edges@[i].0 < m);
            assert(m <= edges@[i].1);
        }
        assert(crate::coloring::crosses(es, side));
    }
    let colors = bipartite_edge_coloring(m + part.len(), &edges);
    let ghost cs = ints(colors@);
    let count: usize = count_colors(&colors);
    let mut r: Vec<Vec<Site>> = Vec::new();
    let ghost goal = buckets(part@, m as nat);
    for k in 0..count
        invariant
            count == goal.len(),
            goal == buckets(part@, m as nat),
            cs == ints(colors@),
            cs == edge_colors(site_edges(part@, m as nat), part@.len()),
            colors@.len() == part@.len(),
            sites_within(part@, m as nat),
            r@.len() == k,
            forall|i: int| 0 <= i < k ==> (#[trigger] r@[i])@ == goal[i],
            forall|i: int| 0 <= i < k ==> sites_within((#[trigger] r@[i])@, m as nat),
    {
        let mut bucket: Vec<Site> = Vec::new();
        let ghost s = part@;
        assert(s.take(0) =~= Seq::empty());
        for i in 0..part.len()
            invariant
                s == part@,
                cs == ints(colors@),
                colors@.len() == part@.len(),
                sites_within(s, m as nat),
                bucket@ == sites_of_color(s.take(i as int), cs, k as int),
                sites_within(bucket@, m as nat),
        {
            assert(s.take(i + 1).drop_last() =~= s.take(i as int));
            assert(s[i as int].0 < m);
            assert(cs[i as int] == colors@[i as int]);
            if colors[i] == k {
                bucket.push(part[i]);
            }
        }
        assert(s.take(s.len() as int) =~= s);
        r.push(bucket);
    }
    proof {
        assert(site_views(r@) =~= goal);
        lemma_color_count_bound(cs, part@.len() as int);
    }
    r
}

proof fn lemma_color_count_bound(colors: Seq<int>, b: int)
    requires
        0 <= b,
        forall|i: int| 0 <= i < colors.len() ==> (#[trigger] colors[i]) < b,
    ensures
        color_count(colors) <= b,
    decreases colors.len(),
{
    if colors.len() > 0 {
        assert forall|i: int| 0 <= i < colors.drop_last().len() implies (
        #[trigger] colors.drop_last()[i]) < b by {
            assert(colors[i] < b);
        }
        lemma_color_count_bound(colors.drop_last(), b);
        assert(colors[colors.len() - 1] < b);
    }
}

pub proof fn lemma_note_len(seen: Seq<usize>, qs: Seq<usize>)
    ensures
        note_all(seen, qs).len() <= seen.len() + qs.len(),
    decreases qs.len(),
{
    if qs.len() > 0 {
        lemma_note_len(seen, qs.drop_last());
    }
}

proof fn lemma_note_take(seen: Seq<usize>, qs: Seq<usize>, i: int)
    requires
        0 <= i <= qs.len(),
    ensures
        note_all(seen, qs.take(i)).is_prefix_of(note_all(seen, qs)),
    decreases qs.len() - i,
{
    if i < qs.len() {
        lemma_note_take(seen, qs, i + 1);
        assert(qs.take(i + 1).drop_last() =~= qs.take(i));
    } else {
        assert(qs.take(i) =~= qs);
    }
}

// ---------------------------------------------------------------------------
// The sequential schedule
// ---------------------------------------------------------------------------
/// The colored layers of some sites.
pub open spec fn bucket_layers(bs: Seq<Seq<Site>>, base: int) -> Seq<Seq<GateModel<usize>>> {
    Seq::new(bs.len(), |k: int| controlled_layer(bs[k], base))
}

/// The layers of the conflict classes below `n`, one class after another.
pub open spec fn phase_layers(
    checks: Seq<SignedPauli<usize>>,
    classes: Seq<int>,
    n: nat,
    base: int,
) -> Seq<Seq<GateModel<usize>>>
    decreases n,
{
    if n == 0 {
        Seq::empty()
    } else {
        let part = part_sites(
            round_sites(checks, checks.len()),
            classes,
            Set::empty(),
            n - 1,
            None,
        );
        phase_layers(checks, classes, (n - 1) as nat, base) + bucket_layers(
            buckets(part, checks.len()),
            base,
        )
    }
}

/// One round with the conflict classes one after another, each edge-colored.
pub open spec fn sequential_layers(checks: Seq<SignedPauli<usize>>, base: int) -> Seq<
    Seq<GateModel<usize>>,
> {
    let m = checks.len();
    let classes = class_colors(meeting(checks, true), m);
    seq![reset_layer(everyone(m), base)] + phase_layers(checks, classes, color_count(classes), base)
        + seq![measure_layer(checks, everyone(m), base)]
}

/// The checks of a round and their sites fit the machine integers.
pub open spec fn round_fits(checks: Seq<SignedPauli<usize>>, base: int) -> bool {
    &&& base + checks.len() <= usize::MAX
    &&& checks.len() + round_sites(checks, checks.len()).len() <= usize::MAX
}

fn bucket_gates(bs: &Vec<Vec<Site>>, base: usize, layers: &mut Vec<Vec<PhysicalGate<usize>>>, Ghost(
    m,
): Ghost<nat>)
    requires
        base + m <= usize::MAX,
        forall|k: int| 0 <= k < bs@.len() ==> sites_within((#[trigger] bs@[k])@, m),
    ensures
        layer_models(final(layers)@) == layer_models(old(layers)@) + bucket_layers(
            site_views(bs@),
            base as int,
        ),
{
    let ghost before = layer_models(layers@);
    let ghost goal = bucket_layers(site_views(bs@), base as int);
    assert(before + goal.take(0) =~= before);
    for k in 0..bs.len()
        invariant
            base + m <= usize::MAX,
            forall|k: int| 0 <= k < bs@.len() ==> sites_within((#[trigger] bs@[k])@, m),
            goal == bucket_layers(site_views(bs@), base as int),
            layer_models(layers@) == before + goal.take(k as int),
    {
        assert(sites_within(bs@[k as int]@, m));
        let layer = controlled_gates(&bs[k], base);
        proof {
            lemma_layers_push(layers@, layer);
            assert(before + goal.take(k + 1) =~= (before + goal.take(k as int)).push(
                gate_models(layer@),
            ));
        }
        layers.push(layer);
    }
    assert(goal.take(goal.len() as int) =~= goal);
}

/// Emit one round under the sequential schedule: a reset layer, each conflict
/// class's edge-colored layers in class order (a consistent order for every
/// conflicting pair), and a measure layer in check order, so the record stream
/// is that of the checks exactly.
pub fn emit_round_sequential<S: GateSink>(checks: &Vec<PauliAxis<usize>>, base: usize, out: &mut S)
    requires
        round_fits(axes(checks@), base as int),
    ensures
        final(out).pushed() == old(out).pushed() + layered(
            sequential_layers(axes(checks@), base as int),
        ),
{
    let ghost model = axes(checks@);
    let m: usize = checks.len();
    let classes = conflict_classes(checks);
    let ghost cs = ints(classes@);
    let parts = all_acts(checks);
    let all = all_round_sites(&parts, Ghost(model));
    let none: Vec<usize> = Vec::new();
    let indices = all_indices(m);
    let mut layers: Vec<Vec<PhysicalGate<usize>>> = Vec::new();
    layers.push(reset_gates(&indices, base));
    let count: usize = count_colors(&classes);
    let ghost head = seq![reset_layer(everyone(m as nat), base as int)];
    proof {
        assert(layer_models(layers@) =~= head + phase_layers(model, cs, 0, base as int));
        assert(none@.to_set() =~= Set::<usize>::empty());
    }
    for c in 0..count
        invariant
            base + m <= usize::MAX,
            m + all@.len() <= usize::MAX,
            m == model.len(),
            cs == ints(classes@),
            classes@.len() == m,
            all@ == round_sites(model, model.len()),
            sites_within(all@, m as nat),
            none@.to_set() == Set::<usize>::empty(),
            layer_models(layers@) == head + phase_layers(model, cs, c as nat, base as int),
    {
        let part = select_part(&all, &classes, &none, c, None, Ghost(m as nat));
        let bs = color_part(&part, m);
        let ghost before = layer_models(layers@);
        bucket_gates(&bs, base, &mut layers, Ghost(m as nat));
        proof {
            let goal = bucket_layers(site_views(bs@), base as int);
            assert(before + goal =~= head + phase_layers(
                model,
                cs,
                (c + 1) as nat,
                base as int,
            ));
        }
    }
    let ghost before = layer_models(layers@);
    let last = measure_gates(checks, &indices, base);
    proof {
        lemma_layers_push(layers@, last);
        assert(before.push(gate_models(last@)) =~= sequential_layers(model, base as int));
    }
    layers.push(last);
    push_layers(out, layers);
}

// ---------------------------------------------------------------------------
// Left and right data qubits
// ---------------------------------------------------------------------------
/// How many sites of class `c` lie on qubit `q`.
pub open spec fn class_degree(part: Seq<Site>, classes: Seq<int>, q: usize, c: int) -> nat
    decreases part.len(),
{
    if part.len() == 0 {
        0
    } else {
        class_degree(part.drop_last(), classes, q, c) + if part.last().1 == q
            && classes[part.last().0 as int] == c {
            1nat
        } else {
            0nat
        }
    }
}

/// How many sites lie on qubit `q`.
pub open spec fn total_degree(part: Seq<Site>, classes: Seq<int>, q: usize) -> nat {
    class_degree(part, classes, q, 0) + class_degree(part, classes, q, 1)
}

/// Qubit `p` is dealt with before qubit `q`: it has more sites, or as many and a
/// smaller number.
pub open spec fn dealt_before(part: Seq<Site>, classes: Seq<int>, p: usize, q: usize) -> bool {
    total_degree(part, classes, p) > total_degree(part, classes, q) || (total_degree(
        part,
        classes,
        p,
    ) == total_degree(part, classes, q) && p < q)
}

/// `order` with `q` put behind those that are dealt with before it.
pub open spec fn put_in_order(part: Seq<Site>, classes: Seq<int>, order: Seq<usize>, q: usize) -> Seq<
    usize,
>
    decreases order.len(),
{
    if order.len() == 0 || dealt_before(part, classes, order.last(), q) {
        order.push(q)
    } else {
        put_in_order(part, classes, order.drop_last(), q).push(order.last())
    }
}

/// The qubits in the order in which they are dealt with.
pub open spec fn in_order(part: Seq<Site>, classes: Seq<int>, qs: Seq<usize>) -> Seq<usize>
    decreases qs.len(),
{
    if qs.len() == 0 {
        Seq::empty()
    } else {
        put_in_order(part, classes, in_order(part, classes, qs.drop_last()), qs.last())
    }
}

/// The qubits of a round, most sites first, then by number.
pub open spec fn qubit_order(part: Seq<Site>, classes: Seq<int>) -> Seq<usize> {
    in_order(part, classes, note_all(Seq::empty(), site_qubits(part)))
}

/// How many sites of check `j` lie on qubits assigned to `side` so far (`true` is
/// left).
pub open spec fn side_weight(
    part: Seq<Site>,
    j: int,
    assigned: Seq<(usize, bool)>,
    side: bool,
) -> nat
    decreases part.len(),
{
    if part.len() == 0 {
        0
    } else {
        side_weight(part.drop_last(), j, assigned, side) + if part.last().0 == j
            && assigned.contains((part.last().1, side)) {
            1nat
        } else {
            0nat
        }
    }
}

/// The largest of `w[j]` over the checks `j` of class `c` that have a site on `q`.
pub open spec fn peak(part: Seq<Site>, classes: Seq<int>, q: usize, c: int, w: spec_fn(int) -> nat) -> nat
    decreases part.len(),
{
    if part.len() == 0 {
        0
    } else {
        let before = peak(part.drop_last(), classes, q, c, w);
        let j = part.last().0 as int;
        if part.last().1 == q && classes[j] == c && before < w(j) {
            w(j)
        } else {
            before
        }
    }
}

pub open spec fn larger(a: nat, b: nat) -> nat {
    if a < b {
        b
    } else {
        a
    }
}

/// The largest degree so far in the sites of class `c` on `side`: of a qubit or
/// of a check.
pub open spec fn side_load(
    part: Seq<Site>,
    classes: Seq<int>,
    assigned: Seq<(usize, bool)>,
    side: bool,
    c: int,
) -> nat
    decreases assigned.len(),
{
    if assigned.len() == 0 {
        0
    } else {
        let before = side_load(part, classes, assigned.drop_last(), side, c);
        let (q, s) = assigned.last();
        if s == side {
            larger(
                larger(before, class_degree(part, classes, q, c)),
                peak(part, classes, q, c, |j: int| side_weight(part, j, assigned, side)),
            )
        } else {
            before
        }
    }
}

/// What that would become if `q` went to `side` too.
pub open spec fn side_load_with(
    part: Seq<Site>,
    classes: Seq<int>,
    assigned: Seq<(usize, bool)>,
    q: usize,
    side: bool,
    c: int,
) -> nat {
    larger(
        larger(side_load(part, classes, assigned, side, c), class_degree(part, classes, q, c)),
        peak(part, classes, q, c, |j: int| side_weight(part, j, assigned, side) + 1),
    )
}

/// The estimated depth if `q` goes to `side`: the longer half of the first phase
/// and the longer half of the second.
pub open spec fn side_cost(
    part: Seq<Site>,
    classes: Seq<int>,
    assigned: Seq<(usize, bool)>,
    q: usize,
    side: bool,
) -> nat {
    let load = |s: bool, c: int|
        if s == side {
            side_load_with(part, classes, assigned, q, s, c)
        } else {
            side_load(part, classes, assigned, s, c)
        };
    larger(load(true, 0), load(false, 1)) + larger(load(true, 1), load(false, 0))
}

/// The sides of the qubits of `order`: each goes where the estimated depth is
/// smaller, and left when it does not matter.
pub open spec fn assigned_sides(part: Seq<Site>, classes: Seq<int>, order: Seq<usize>) -> Seq<
    (usize, bool),
>
    decreases order.len(),
{
    if order.len() == 0 {
        Seq::empty()
    } else {
        let before = assigned_sides(part, classes, order.drop_last());
        let q = order.last();
        before.push(
            (
                q,
                side_cost(part, classes, before, q, true) <= side_cost(
                    part,
                    classes,
                    before,
                    q,
                    false,
                ),
            ),
        )
    }
}

/// The qubits on the left.
pub open spec fn left_qubits(part: Seq<Site>, classes: Seq<int>) -> Set<usize> {
    let assigned = assigned_sides(part, classes, qubit_order(part, classes));
    Set::new(|q: usize| assigned.contains((q, true)))
}

proof fn lemma_side_weight_push(
    part: Seq<Site>,
    j: int,
    assigned: Seq<(usize, bool)>,
    q: usize,
    s: bool,
    side: bool,
)
    requires
        forall|k: int| 0 <= k < assigned.len() ==> (#[trigger] assigned[k]).0 != q,
    ensures
        side_weight(part, j, assigned.push((q, s)), side) == side_weight(part, j, assigned, side)
            + if s == side {
            occurrences(part, j, q)
        } else {
            0
        },
        side_weight(part, j, assigned, side) <= part.len(),
        side_weight(part, j, assigned, side) + occurrences(part, j, q) <= part.len(),
    decreases part.len(),
{
    if part.len() > 0 {
        lemma_side_weight_push(part.drop_last(), j, assigned, q, s, side);
        let now = assigned.push((q, s));
        let x = (part.last().1, side);
        if assigned.contains(x) {
            let k = assigned.index_of(x);
            assert(assigned[k] == x);
            assert(now[k] == x);
        }
        if now.contains(x) {
            let k = now.index_of(x);
            assert(now[k] == x);
            if k < assigned.len() {
                assert(assigned[k] == x);
            }
        }
        assert(now[assigned.len() as int] == (q, s));
    }
}

/// How often check `j` has a site on `q`.
pub open spec fn occurrences(part: Seq<Site>, j: int, q: usize) -> nat
    decreases part.len(),
{
    if part.len() == 0 {
        0
    } else {
        occurrences(part.drop_last(), j, q) + if part.last().0 == j && part.last().1 == q {
            1nat
        } else {
            0nat
        }
    }
}

proof fn lemma_class_degree_bound(part: Seq<Site>, classes: Seq<int>, q: usize)
    ensures
        class_degree(part, classes, q, 0) + class_degree(part, classes, q, 1) <= part.len(),
    decreases part.len(),
{
    if part.len() > 0 {
        lemma_class_degree_bound(part.drop_last(), classes, q);
    }
}

/// The degrees of `q` in the two classes.
fn degrees(part: &Vec<Site>, classes: &Vec<usize>, q: usize) -> (r: (usize, usize))
    requires
        sites_within(part@, classes@.len()),
    ensures
        r.0 == class_degree(part@, ints(classes@), q, 0),
        r.1 == class_degree(part@, ints(classes@), q, 1),
        r.0 + r.1 <= part@.len(),
{
    let mut a: usize = 0;
    let mut b: usize = 0;
    let ghost s = part@;
    let ghost cs = ints(classes@);
    assert(s.take(0) =~= Seq::empty());
    for i in 0..part.len()
        invariant
            s == part@,
            cs == ints(classes@),
            sites_within(s, classes@.len()),
            a == class_degree(s.take(i as int), cs, q, 0),
            b == class_degree(s.take(i as int), cs, q, 1),
            a + b <= i,
    {
        assert(s.take(i + 1).drop_last() =~= s.take(i as int));
        let (j, p, _x) = part[i];
        assert(s[i as int].0 < classes@.len());
        assert(cs[j as int] == classes@[j as int]);
        if p == q {
            if classes[j] == 0 {
                a = a + 1;
            } else if classes[j] == 1 {
                b = b + 1;
            }
        }
    }
    assert(s.take(s.len() as int) =~= s);
    (a, b)
}

/// The degrees go with the qubits of the order.
spec fn degrees_match(part: Seq<Site>, cs: Seq<int>, order: Seq<usize>, degs: Seq<usize>) -> bool {
    &&& degs.len() == order.len()
    &&& forall|k: int|
        0 <= k < order.len() ==> #[trigger] degs[k] == total_degree(part, cs, order[k])
}

/// Put `q`, which has the degree `deg`, where it belongs in the order.
fn insert_in_order(
    order: &mut Vec<usize>,
    degs: &mut Vec<usize>,
    q: usize,
    deg: usize,
    Ghost(part): Ghost<Seq<Site>>,
    Ghost(cs): Ghost<Seq<int>>,
)
    requires
        degrees_match(part, cs, old(order)@, old(degs)@),
        deg == total_degree(part, cs, q),
    ensures
        final(order)@ == put_in_order(part, cs, old(order)@, q),
        degrees_match(part, cs, final(order)@, final(degs)@),
{
    let ghost all = order@;
    let ghost degs0 = degs@;
    let mut at: usize = order.len();
    assert(all.take(all.len() as int) =~= all);
    assert(all.skip(all.len() as int) =~= Seq::<usize>::empty());
    assert(put_in_order(part, cs, all, q) + Seq::<usize>::empty() =~= put_in_order(
        part,
        cs,
        all,
        q,
    ));
    while at > 0 && !(degs[at - 1] > deg || (degs[at - 1] == deg && order[at - 1] < q))
        invariant
            order@ == all,
            degs@ == degs0,
            degrees_match(part, cs, all, degs0),
            deg == total_degree(part, cs, q),
            at <= all.len(),
            put_in_order(part, cs, all, q) == put_in_order(part, cs, all.take(at as int), q)
                + all.skip(at as int),
        decreases at,
    {
        proof {
            let t = all.take(at as int);
            assert(t.drop_last() =~= all.take(at - 1));
            assert(t.last() == all[at - 1]);
            assert(degs0[at - 1] == total_degree(part, cs, all[at - 1]));
            assert(put_in_order(part, cs, all.take(at - 1), q).push(all[at - 1]) + all.skip(
                at as int,
            ) =~= put_in_order(part, cs, all.take(at - 1), q) + all.skip(at - 1));
        }
        at = at - 1;
    }
    proof {
        let t = all.take(at as int);
        if at > 0 {
            assert(t.last() == all[at - 1]);
            assert(degs0[at - 1] == total_degree(part, cs, all[at - 1]));
        }
        assert(all.insert(at as int, q) =~= t.push(q) + all.skip(at as int));
        let now = all.insert(at as int, q);
        let dnow = degs0.insert(at as int, deg);
        assert forall|k: int| 0 <= k < now.len() implies #[trigger] dnow[k] == total_degree(
            part,
            cs,
            now[k],
        ) by {
            if k < at {
                assert(degs0[k] == total_degree(part, cs, all[k]));
            } else if k > at {
                assert(degs0[k - 1] == total_degree(part, cs, all[k - 1]));
            }
        }
    }
    order.insert(at, q);
    degs.insert(at, deg);
}

/// The qubits of a round in the order in which they are dealt with.
fn order_qubits(part: &Vec<Site>, classes: &Vec<usize>) -> (r: Vec<usize>)
    requires
        sites_within(part@, classes@.len()),
    ensures
        r@ == qubit_order(part@, ints(classes@)),
        r@.no_duplicates(),
{
    let ghost cs = ints(classes@);
    let ghost qs = site_qubits(part@);
    let ghost none: Seq<usize> = Seq::empty();
    let mut seen: Interner<usize> = Interner::new();
    let mut r: Vec<usize> = Vec::new();
    let mut degs: Vec<usize> = Vec::new();
    proof {
        assert(qs.take(0) =~= Seq::empty());
        assert(in_order(part@, cs, Seq::empty()) =~= r@);
    }
    for i in 0..part.len()
        invariant
            sites_within(part@, classes@.len()),
            cs == ints(classes@),
            qs == site_qubits(part@),
            none == Seq::<usize>::empty(),
            seen@ == note_all(none, qs.take(i as int)),
            r@ == in_order(part@, cs, seen@),
            degrees_match(part@, cs, r@, degs@),
            r@.no_duplicates(),
            forall|q: usize| #[trigger] r@.contains(q) <==> seen@.contains(q),
    {
        let q: usize = part[i].1;
        let ghost before = seen@;
        let known = seen.lookup(&q);
        let id: usize = seen.intern(q);
        assert(qs.take(i + 1).drop_last() =~= qs.take(i as int));
        if known.is_none() {
            let ghost r0 = r@;
            let total: usize = part.len();
            let (a, b) = degrees(part, classes, q);
            assert(a + b <= total);
            insert_in_order(&mut r, &mut degs, q, a + b, Ghost(part@), Ghost(cs));
            proof {
                assert(seen@.drop_last() =~= before);
                lemma_put_in_order(part@, cs, r0, q);
                assert forall|x: usize| #[trigger] r@.contains(x) <==> seen@.contains(x) by {
                    assert(r0.contains(x) <==> before.contains(x));
                    if before.contains(x) {
                        let k = before.index_of(x);
                        assert(seen@[k] == x);
                    }
                    assert(seen@[before.len() as int] == q);
                    if seen@.contains(x) && x != q {
                        let k = seen@.index_of(x);
                        assert(before[k] == x);
                    }
                }
            }
        }
    }
    assert(qs.take(qs.len() as int) =~= qs);
    r
}

proof fn lemma_put_in_order(part: Seq<Site>, cs: Seq<int>, order: Seq<usize>, q: usize)
    ensures
        forall|x: usize| #[trigger]
            put_in_order(part, cs, order, q).contains(x) <==> order.contains(x) || x == q,
        order.no_duplicates() && !order.contains(q) ==> put_in_order(
            part,
            cs,
            order,
            q,
        ).no_duplicates(),
    decreases order.len(),
{
    let r = put_in_order(part, cs, order, q);
    if order.len() == 0 || dealt_before(part, cs, order.last(), q) {
        assert forall|x: usize| #[trigger] r.contains(x) <==> order.contains(x) || x == q by {
            if order.contains(x) {
                assert(r[order.index_of(x)] == x);
            }
            assert(r[order.len() as int] == q);
            if r.contains(x) && x != q {
                assert(order[r.index_of(x)] == x);
            }
        }
    } else {
        let front = order.drop_last();
        lemma_put_in_order(part, cs, front, q);
        let p = put_in_order(part, cs, front, q);
        assert forall|x: usize| #[trigger] r.contains(x) <==> order.contains(x) || x == q by {
            assert(p.contains(x) <==> front.contains(x) || x == q);
            if p.contains(x) {
                assert(r[p.index_of(x)] == x);
            }
            assert(r[p.len() as int] == order.last());
            if front.contains(x) {
                assert(order[front.index_of(x)] == x);
            }
            assert(order[order.len() - 1] == order.last());
            if order.contains(x) && x != order.last() {
                assert(front[order.index_of(x)] == x);
            }
            if r.contains(x) && x != order.last() {
                assert(p[r.index_of(x)] == x);
            }
        }
        if order.no_duplicates() && !order.contains(q) {
            assert(!front.contains(q)) by {
                if front.contains(q) {
                    assert(order[front.index_of(q)] == q);
                }
            }
            assert(!front.contains(order.last())) by {
                if front.contains(order.last()) {
                    assert(order[front.index_of(order.last())] == order[order.len() - 1]);
                }
            }
            assert(order[order.len() - 1] == order.last());
            assert(!p.contains(order.last()));
        }
    }
}

/// For the classes 0 and 1, the largest of `w[j] + add` over the checks `j` that
/// have a site on `q`.
fn peaks(part: &Vec<Site>, classes: &Vec<usize>, q: usize, w: &Vec<usize>, add: usize) -> (r: (
    usize,
    usize,
))
    requires
        sites_within(part@, classes@.len()),
        w@.len() == classes@.len(),
        forall|i: int|
            0 <= i < part@.len() && (#[trigger] part@[i]).1 == q ==> w@[part@[i].0 as int] + add
                <= usize::MAX,
    ensures
        r.0 == peak(part@, ints(classes@), q, 0, |j: int| (w@[j] + add) as nat),
        r.1 == peak(part@, ints(classes@), q, 1, |j: int| (w@[j] + add) as nat),
{
    let mut a: usize = 0;
    let mut b: usize = 0;
    let ghost s = part@;
    let ghost cs = ints(classes@);
    let ghost f = |j: int| (w@[j] + add) as nat;
    assert(s.take(0) =~= Seq::empty());
    for i in 0..part.len()
        invariant
            s == part@,
            cs == ints(classes@),
            sites_within(s, classes@.len()),
            w@.len() == classes@.len(),
            f == (|j: int| (w@[j] + add) as nat),
            forall|i: int|
                0 <= i < part@.len() && (#[trigger] part@[i]).1 == q ==> w@[part@[i].0 as int]
                    + add <= usize::MAX,
            a == peak(s.take(i as int), cs, q, 0, f),
            b == peak(s.take(i as int), cs, q, 1, f),
    {
        assert(s.take(i + 1).drop_last() =~= s.take(i as int));
        let (j, p, _x) = part[i];
        assert(s[i as int].0 < classes@.len());
        assert(cs[j as int] == classes@[j as int]);
        if p == q {
            assert(part@[i as int].1 == q);
            let v: usize = w[j] + add;
            if classes[j] == 0 {
                if a < v {
                    a = v;
                }
            } else if classes[j] == 1 {
                if b < v {
                    b = v;
                }
            }
        }
    }
    assert(s.take(s.len() as int) =~= s);
    (a, b)
}

/// Count the sites on `q` towards the checks that have them.
fn add_weights(part: &Vec<Site>, q: usize, w: &mut Vec<usize>)
    requires
        sites_within(part@, old(w)@.len()),
        forall|j: int|
            0 <= j < old(w)@.len() ==> #[trigger] old(w)@[j] + occurrences(part@, j, q)
                <= part@.len(),
    ensures
        final(w)@.len() == old(w)@.len(),
        forall|j: int|
            0 <= j < old(w)@.len() ==> #[trigger] final(w)@[j] == old(w)@[j] + occurrences(
                part@,
                j,
                q,
            ),
{
    let ghost s = part@;
    let ghost w0 = w@;
    assert(s.take(0) =~= Seq::empty());
    for i in 0..part.len()
        invariant
            s == part@,
            sites_within(s, w0.len()),
            w@.len() == w0.len(),
            forall|j: int|
                0 <= j < w0.len() ==> #[trigger] w0[j] + occurrences(s, j, q) <= s.len(),
            forall|j: int|
                0 <= j < w0.len() ==> #[trigger] w@[j] == w0[j] + occurrences(
                    s.take(i as int),
                    j,
                    q,
                ),
    {
        assert(s.take(i + 1).drop_last() =~= s.take(i as int));
        let (j, p, _x) = part[i];
        assert(s[i as int].0 < w0.len());
        if p == q {
            proof {
                lemma_occurrences_take(s, j as int, q, i + 1);
                assert(w0[j as int] + occurrences(s, j as int, q) <= s.len());
                assert(w@[j as int] == w0[j as int] + occurrences(s.take(i as int), j as int, q));
            }
            let v: usize = w[j] + 1;
            w.set(j, v);
        }
    }
    assert(s.take(s.len() as int) =~= s);
}

proof fn lemma_occurrences_take(part: Seq<Site>, j: int, q: usize, i: int)
    requires
        0 <= i <= part.len(),
    ensures
        occurrences(part.take(i), j, q) <= occurrences(part, j, q),
    decreases part.len() - i,
{
    if i < part.len() {
        lemma_occurrences_take(part, j, q, i + 1);
        assert(part.take(i + 1).drop_last() =~= part.take(i));
    } else {
        assert(part.take(i) =~= part);
    }
}

proof fn lemma_occurs(part: Seq<Site>, i: int)
    requires
        0 <= i < part.len(),
    ensures
        occurrences(part, part[i].0 as int, part[i].1) >= 1,
    decreases part.len(),
{
    if i < part.len() - 1 {
        lemma_occurs(part.drop_last(), i);
    }
}

proof fn lemma_peak_same(
    part: Seq<Site>,
    cs: Seq<int>,
    q: usize,
    c: int,
    f: spec_fn(int) -> nat,
    g: spec_fn(int) -> nat,
    m: nat,
)
    requires
        sites_within(part, m),
        forall|j: int| 0 <= j < m ==> #[trigger] f(j) == g(j),
    ensures
        peak(part, cs, q, c, f) == peak(part, cs, q, c, g),
    decreases part.len(),
{
    if part.len() > 0 {
        assert(part[part.len() - 1].0 < m);
        assert(f(part.last().0 as int) == g(part.last().0 as int));
        assert(sites_within(part.drop_last(), m)) by {
            assert forall|i: int| 0 <= i < part.drop_last().len() implies (
            #[trigger] part.drop_last()[i]).0 < m by {
                assert(part[i].0 < m);
            }
        }
        lemma_peak_same(part.drop_last(), cs, q, c, f, g, m);
    }
}

fn bigger(a: usize, b: usize) -> (r: usize)
    ensures
        r == larger(a as nat, b as nat),
{
    if a < b {
        b
    } else {
        a
    }
}

/// What the greedy left-right assignment keeps: the sites of each check on the
/// two sides, and the loads of the two sides by class.
struct Loads {
    left: Vec<usize>,
    right: Vec<usize>,
    l0: usize,
    l1: usize,
    r0: usize,
    r1: usize,
}

impl Loads {
    spec fn weighs(self, part: Seq<Site>, m: nat, assigned: Seq<(usize, bool)>) -> bool {
        &&& self.left@.len() == m
        &&& self.right@.len() == m
        &&& forall|j: int|
            0 <= j < m ==> #[trigger] self.left@[j] == side_weight(part, j, assigned, true)
        &&& forall|j: int|
            0 <= j < m ==> #[trigger] self.right@[j] == side_weight(part, j, assigned, false)
    }

    spec fn holds(self, part: Seq<Site>, cs: Seq<int>, assigned: Seq<(usize, bool)>) -> bool {
        &&& self.weighs(part, cs.len(), assigned)
        &&& self.l0 == side_load(part, cs, assigned, true, 0)
        &&& self.l1 == side_load(part, cs, assigned, true, 1)
        &&& self.r0 == side_load(part, cs, assigned, false, 0)
        &&& self.r1 == side_load(part, cs, assigned, false, 1)
    }
}

/// What the loads of one side would become with `q`: the peaks of `w` with one
/// more site, together with the degrees of `q`.
fn loads_with(
    part: &Vec<Site>,
    classes: &Vec<usize>,
    q: usize,
    w: &Vec<usize>,
    load: (usize, usize),
    deg: (usize, usize),
    side: bool,
    Ghost(assigned): Ghost<Seq<(usize, bool)>>,
) -> (r: (usize, usize))
    requires
        sites_within(part@, classes@.len()),
        w@.len() == classes@.len(),
        forall|j: int|
            0 <= j < w@.len() ==> #[trigger] w@[j] == side_weight(part@, j, assigned, side),
        forall|k: int| 0 <= k < assigned.len() ==> (#[trigger] assigned[k]).0 != q,
        deg.0 == class_degree(part@, ints(classes@), q, 0),
        deg.1 == class_degree(part@, ints(classes@), q, 1),
        load.0 == side_load(part@, ints(classes@), assigned, side, 0),
        load.1 == side_load(part@, ints(classes@), assigned, side, 1),
    ensures
        r.0 == side_load_with(part@, ints(classes@), assigned, q, side, 0),
        r.1 == side_load_with(part@, ints(classes@), assigned, q, side, 1),
{
    let ghost cs = ints(classes@);
    let total: usize = part.len();
    proof {
        assert forall|i: int| 0 <= i < part@.len() && (#[trigger] part@[i]).1
            == q implies w@[part@[i].0 as int] + 1 <= usize::MAX by {
            lemma_side_weight_push(part@, part@[i].0 as int, assigned, q, side, side);
            lemma_occurs(part@, i);
            assert(w@[part@[i].0 as int] == side_weight(part@, part@[i].0 as int, assigned, side));
        }
    }
    let (p0, p1) = peaks(part, classes, q, w, 1);
    proof {
        let f = |j: int| (w@[j] + 1) as nat;
        let g = |j: int| side_weight(part@, j, assigned, side) + 1;
        lemma_peak_same(part@, cs, q, 0, f, g, cs.len());
        lemma_peak_same(part@, cs, q, 1, f, g, cs.len());
    }
    (bigger(bigger(load.0, deg.0), p0), bigger(bigger(load.1, deg.1), p1))
}

/// The loads of the side that gets `q`, with its sites counted.
fn loads_after(
    part: &Vec<Site>,
    classes: &Vec<usize>,
    q: usize,
    w: &mut Vec<usize>,
    load: (usize, usize),
    deg: (usize, usize),
    side: bool,
    Ghost(assigned): Ghost<Seq<(usize, bool)>>,
) -> (r: (usize, usize))
    requires
        sites_within(part@, classes@.len()),
        old(w)@.len() == classes@.len(),
        forall|j: int|
            0 <= j < old(w)@.len() ==> #[trigger] old(w)@[j] == side_weight(
                part@,
                j,
                assigned,
                side,
            ),
        forall|k: int| 0 <= k < assigned.len() ==> (#[trigger] assigned[k]).0 != q,
        deg.0 == class_degree(part@, ints(classes@), q, 0),
        deg.1 == class_degree(part@, ints(classes@), q, 1),
        load.0 == side_load(part@, ints(classes@), assigned, side, 0),
        load.1 == side_load(part@, ints(classes@), assigned, side, 1),
    ensures
        final(w)@.len() == old(w)@.len(),
        forall|j: int|
            0 <= j < old(w)@.len() ==> #[trigger] final(w)@[j] == side_weight(
                part@,
                j,
                assigned.push((q, side)),
                side,
            ),
        r.0 == side_load(part@, ints(classes@), assigned.push((q, side)), side, 0),
        r.1 == side_load(part@, ints(classes@), assigned.push((q, side)), side, 1),
{
    let ghost cs = ints(classes@);
    let ghost now = assigned.push((q, side));
    let ghost w0 = w@;
    proof {
        assert forall|j: int| 0 <= j < w0.len() implies #[trigger] w0[j] + occurrences(part@, j, q)
            <= part@.len() by {
            lemma_side_weight_push(part@, j, assigned, q, side, side);
        }
    }
    add_weights(part, q, w);
    proof {
        assert forall|j: int| 0 <= j < w0.len() implies #[trigger] w@[j] == side_weight(
            part@,
            j,
            now,
            side,
        ) by {
            lemma_side_weight_push(part@, j, assigned, q, side, side);
            assert(w0[j] == side_weight(part@, j, assigned, side));
        }
        assert(now.drop_last() =~= assigned);
    }
    let (p0, p1) = peaks(part, classes, q, w, 0);
    proof {
        let f = |j: int| (w@[j] + 0) as nat;
        let g = |j: int| side_weight(part@, j, now, side);
        lemma_peak_same(part@, cs, q, 0, f, g, cs.len());
        lemma_peak_same(part@, cs, q, 1, f, g, cs.len());
    }
    (bigger(bigger(load.0, deg.0), p0), bigger(bigger(load.1, deg.1), p1))
}

/// Assign one more qubit.
#[verifier::spinoff_prover]
fn assign_qubit(
    part: &Vec<Site>,
    classes: &Vec<usize>,
    q: usize,
    loads: &mut Loads,
    Ghost(assigned): Ghost<Seq<(usize, bool)>>,
) -> (left: bool)
    requires
        sites_within(part@, classes@.len()),
        old(loads).holds(part@, ints(classes@), assigned),
        forall|k: int| 0 <= k < assigned.len() ==> (#[trigger] assigned[k]).0 != q,
    ensures
        left == (side_cost(part@, ints(classes@), assigned, q, true) <= side_cost(
            part@,
            ints(classes@),
            assigned,
            q,
            false,
        )),
        final(loads).holds(part@, ints(classes@), assigned.push((q, left))),
{
    let ghost cs = ints(classes@);
    let (d0, d1) = degrees(part, classes, q);
    let (a0, a1) = loads_with(
        part,
        classes,
        q,
        &loads.left,
        (loads.l0, loads.l1),
        (d0, d1),
        true,
        Ghost(assigned),
    );
    let (b0, b1) = loads_with(
        part,
        classes,
        q,
        &loads.right,
        (loads.r0, loads.r1),
        (d0, d1),
        false,
        Ghost(assigned),
    );
    let cost_left: u128 = bigger(a0, loads.r1) as u128 + bigger(a1, loads.r0) as u128;
    let cost_right: u128 = bigger(loads.l0, b1) as u128 + bigger(loads.l1, b0) as u128;
    let left: bool = cost_left <= cost_right;
    let ghost now = assigned.push((q, left));
    proof {
        assert(now.drop_last() =~= assigned);
        let rest = !left;
        assert forall|j: int| 0 <= j < cs.len() implies #[trigger] side_weight(part@, j, now, rest)
            == side_weight(part@, j, assigned, rest) by {
            lemma_side_weight_push(part@, j, assigned, q, left, rest);
        }
    }
    if left {
        let (l0, l1) = loads_after(
            part,
            classes,
            q,
            &mut loads.left,
            (loads.l0, loads.l1),
            (d0, d1),
            true,
            Ghost(assigned),
        );
        loads.l0 = l0;
        loads.l1 = l1;
        assert(loads.holds(part@, cs, now));
    } else {
        let (r0, r1) = loads_after(
            part,
            classes,
            q,
            &mut loads.right,
            (loads.r0, loads.r1),
            (d0, d1),
            false,
            Ghost(assigned),
        );
        loads.r0 = r0;
        loads.r1 = r1;
        assert(loads.holds(part@, cs, now));
    }
    left
}

/// Greedy left-right partition of the data qubits for the staggered schedule:
/// qubits in descending total degree, each assigned the side with the smaller
/// estimated depth. Ties go left.
pub fn partition_left(part: &Vec<Site>, classes: &Vec<usize>) -> (r: Vec<usize>)
    requires
        sites_within(part@, classes@.len()),
    ensures
        r@.to_set() == left_qubits(part@, ints(classes@)),
{
    let ghost cs = ints(classes@);
    let order = order_qubits(part, classes);
    let m: usize = classes.len();
    let mut left: Vec<usize> = Vec::new();
    let mut right: Vec<usize> = Vec::new();
    let ghost none: Seq<(usize, bool)> = Seq::empty();
    for j in 0..m
        invariant
            left@.len() == j,
            right@.len() == j,
            none == Seq::<(usize, bool)>::empty(),
            forall|i: int|
                0 <= i < j ==> #[trigger] left@[i] == side_weight(part@, i, none, true),
            forall|i: int|
                0 <= i < j ==> #[trigger] right@[i] == side_weight(part@, i, none, false),
    {
        proof {
            lemma_no_weight(part@, j as int, true);
            lemma_no_weight(part@, j as int, false);
        }
        left.push(0);
        right.push(0);
    }
    let mut loads = Loads { left, right, l0: 0, l1: 0, r0: 0, r1: 0 };
    let mut r: Vec<usize> = Vec::new();
    let ghost mut assigned: Seq<(usize, bool)> = Seq::empty();
    assert(order@.take(0) =~= Seq::empty());
    for i in 0..order.len()
        invariant
            sites_within(part@, classes@.len()),
            cs == ints(classes@),
            order@.no_duplicates(),
            assigned == assigned_sides(part@, cs, order@.take(i as int)),
            assigned.len() == i,
            forall|k: int| 0 <= k < i ==> (#[trigger] assigned[k]).0 == order@[k],
            loads.holds(part@, cs, assigned),
            forall|q: usize| #[trigger] r@.contains(q) <==> assigned.contains((q, true)),
    {
        let q: usize = order[i];
        let ghost before = assigned;
        let ghost r0 = r@;
        assert(order@.take(i + 1).drop_last() =~= order@.take(i as int));
        let goes_left = assign_qubit(part, classes, q, &mut loads, Ghost(assigned));
        proof {
            assigned = assigned.push((q, goes_left));
        }
        if goes_left {
            r.push(q);
        }
        proof {
            assert forall|x: usize| #[trigger] r@.contains(x) <==> assigned.contains((x, true)) by {
                assert(r0.contains(x) <==> before.contains((x, true)));
                if r0.contains(x) {
                    assert(r@[r0.index_of(x)] == x);
                }
                if before.contains((x, true)) {
                    assert(assigned[before.index_of((x, true))] == (x, true));
                }
                assert(assigned[before.len() as int] == (q, goes_left));
                if goes_left {
                    assert(r@[r0.len() as int] == q);
                }
                if assigned.contains((x, true)) {
                    let k = assigned.index_of((x, true));
                    assert(assigned[k] == (x, true));
                    if k < before.len() {
                        assert(before[k] == (x, true));
                    }
                }
                if r@.contains(x) {
                    let k = r@.index_of(x);
                    assert(r@[k] == x);
                    if k < r0.len() {
                        assert(r0[k] == x);
                    }
                }
            }
        }
    }
    assert(order@.take(order@.len() as int) =~= order@);
    assert(r@.to_set() =~= left_qubits(part@, cs));
    r
}

proof fn lemma_no_weight(part: Seq<Site>, j: int, side: bool)
    ensures
        side_weight(part, j, Seq::empty(), side) == 0,
    decreases part.len(),
{
    if part.len() > 0 {
        lemma_no_weight(part.drop_last(), j, side);
    }
}

// ---------------------------------------------------------------------------
// The staggered schedule
// ---------------------------------------------------------------------------
/// The checks of class `c` among the first `n`, in order.
pub open spec fn members(classes: Seq<int>, c: int, n: nat) -> Seq<int>
    decreases n,
{
    if n == 0 {
        Seq::empty()
    } else if classes[n - 1] == c {
        members(classes, c, (n - 1) as nat).push(n - 1)
    } else {
        members(classes, c, (n - 1) as nat)
    }
}

/// The rank of check `j` within its class.
pub open spec fn class_rank(classes: Seq<int>, j: int) -> nat {
    members(classes, classes[j], j as nat).len()
}

/// A staggered left-right segment: one check set measured for several rounds in a
/// row. `g1` and `g2` are the two conflict classes; `l1` and `r2`, the left sites
/// of `g1` and the right sites of `g2`, run in the first phase of a round, `l2` and
/// `r1` in the second.
pub struct SegModel {
    pub checks: Seq<SignedPauli<usize>>,
    pub base: int,
    pub g1: Seq<int>,
    pub g2: Seq<int>,
    pub l1: Seq<Seq<Site>>,
    pub r2: Seq<Seq<Site>>,
    pub l2: Seq<Seq<Site>>,
    pub r1: Seq<Seq<Site>>,
}

/// The colored sites of class `c` on one side.
pub open spec fn phase_buckets(
    checks: Seq<SignedPauli<usize>>,
    classes: Seq<int>,
    c: int,
    left: bool,
) -> Seq<Seq<Site>> {
    let all = round_sites(checks, checks.len());
    buckets(
        part_sites(all, classes, left_qubits(all, classes), c, Some(left)),
        checks.len(),
    )
}

/// The segment for checks with the given conflict classes.
pub open spec fn seg_model(checks: Seq<SignedPauli<usize>>, classes: Seq<int>, base: int) -> SegModel {
    SegModel {
        checks,
        base,
        g1: members(classes, 0, checks.len()),
        g2: members(classes, 1, checks.len()),
        l1: phase_buckets(checks, classes, 0, true),
        r2: phase_buckets(checks, classes, 1, false),
        l2: phase_buckets(checks, classes, 1, true),
        r1: phase_buckets(checks, classes, 0, false),
    }
}

/// The `k`-th layer of the buckets, empty past their end.
pub open spec fn bucket_at(bs: Seq<Seq<Site>>, k: int, base: int) -> Seq<GateModel<usize>> {
    if 0 <= k < bs.len() {
        controlled_layer(bs[k], base)
    } else {
        Seq::empty()
    }
}

impl SegModel {
    /// Layer `k` of the first phase: left sites of `g1`, and, but in the first
    /// round, right sites of the `g2` measured before.
    pub open spec fn first_phase(self, k: int, prologue: bool) -> Seq<GateModel<usize>> {
        bucket_at(self.l1, k, self.base) + if prologue {
            Seq::empty()
        } else {
            bucket_at(self.r2, k, self.base)
        }
    }

    /// Layer `k` of the second phase: right sites of `g1`, and first the
    /// measurement of the old `g2`, then the reset of the new, then its left sites.
    pub open spec fn second_phase(self, k: int, prologue: bool) -> Seq<GateModel<usize>> {
        bucket_at(self.r1, k, self.base) + if k == 0 {
            if prologue {
                Seq::empty()
            } else {
                measure_layer(self.checks, self.g2, self.base)
            }
        } else if k == 1 {
            reset_layer(self.g2, self.base)
        } else {
            bucket_at(self.l2, k - 2, self.base)
        }
    }

    pub open spec fn first_length(self, prologue: bool) -> nat {
        if prologue {
            self.l1.len()
        } else {
            larger(self.l1.len(), self.r2.len())
        }
    }

    pub open spec fn second_length(self) -> nat {
        larger(self.l2.len() + 2, self.r1.len())
    }

    /// The layers of one round. In the first round, the prologue, there is no
    /// previous `g2`.
    pub open spec fn round_layers(self, prologue: bool) -> Seq<Seq<GateModel<usize>>> {
        seq![reset_layer(self.g1, self.base)] + Seq::new(
            self.first_length(prologue),
            |k: int| self.first_phase(k, prologue),
        ) + Seq::new(self.second_length(), |k: int| self.second_phase(k, prologue)) + seq![
            measure_layer(self.checks, self.g1, self.base),
        ]
    }

    /// The trailing flush: the last `g2` still owes its right sites and its
    /// measurement.
    pub open spec fn epilogue_layers(self) -> Seq<Seq<GateModel<usize>>> {
        bucket_layers(self.r2, self.base) + seq![measure_layer(self.checks, self.g2, self.base)]
    }

    /// The round detectors of `g1`.
    pub open spec fn g1_detectors(self) -> Seq<GateModel<usize>> {
        let m = self.checks.len();
        let a = self.g1.len();
        Seq::new(
            a,
            |p: int|
                GateModel::DeclareDetector(seq![(a - p) as usize, (m + a - p) as usize]),
        )
    }

    /// The round detectors of `g2` in a steady round, one round late.
    pub open spec fn g2_detectors(self) -> Seq<GateModel<usize>> {
        let m = self.checks.len();
        Seq::new(
            self.g2.len(),
            |q: int|
                GateModel::DeclareDetector(seq![(m - q) as usize, (2 * m - q) as usize]),
        )
    }

    /// The last round detectors of `g2`.
    pub open spec fn closing_detectors(self) -> Seq<GateModel<usize>> {
        let m = self.checks.len();
        let b = self.g2.len();
        Seq::new(
            b,
            |q: int|
                GateModel::DeclareDetector(seq![(b - q) as usize, (m + b - q) as usize]),
        )
    }

    /// The body of the steady rounds.
    pub open spec fn steady_body(self) -> Seq<GateModel<usize>> {
        layered(self.round_layers(false)) + self.g1_detectors() + self.g2_detectors()
    }

    /// The whole segment of `r` rounds: prologue, second round, steady rounds,
    /// epilogue.
    pub open spec fn gates(self, r: int) -> Seq<GateModel<usize>> {
        layered(self.round_layers(true)) + (if r >= 2 {
            layered(self.round_layers(false)) + self.g1_detectors()
        } else {
            Seq::empty()
        }) + (if r >= 3 {
            seq![GateModel::Repeat((r - 2) as usize, self.steady_body())]
        } else {
            Seq::empty()
        }) + layered(self.epilogue_layers()) + (if r >= 2 {
            self.closing_detectors()
        } else {
            Seq::empty()
        })
    }
}

/// Where the record of check `j` of round `n` lands, counted from the start of the
/// segment: `g1` of a round comes at its end, `g2` one round late.
pub open spec fn record_position(classes: Seq<int>, n: int, j: int) -> int {
    let m = classes.len() as int;
    let a = members(classes, 0, classes.len()).len() as int;
    let b = members(classes, 1, classes.len()).len() as int;
    if classes[j] == 0 {
        if n == 1 {
            class_rank(classes, j) as int
        } else {
            a + (n - 2) * m + b + class_rank(classes, j)
        }
    } else {
        a + (n - 1) * m + class_rank(classes, j)
    }
}

/// The new positions of the records of `r` rounds.
pub open spec fn record_positions(classes: Seq<int>, start: int, r: nat) -> Seq<usize>
    decreases r,
{
    if r == 0 {
        Seq::empty()
    } else {
        record_positions(classes, start, (r - 1) as nat) + Seq::new(
            classes.len(),
            |j: int| (start + record_position(classes, r as int, j)) as usize,
        )
    }
}

/// A staggered left-right segment.
pub struct StaggeredSeg {
    checks: Vec<PauliAxis<usize>>,
    base: usize,
    class_of: Vec<usize>,
    subpos: Vec<usize>,
    g1: Vec<usize>,
    g2: Vec<usize>,
    l1: Vec<Vec<Site>>,
    r2: Vec<Vec<Site>>,
    l2: Vec<Vec<Site>>,
    r1: Vec<Vec<Site>>,
}

impl View for StaggeredSeg {
    type V = SegModel;

    closed spec fn view(&self) -> SegModel {
        SegModel {
            checks: axes(self.checks@),
            base: self.base as int,
            g1: ints(self.g1@),
            g2: ints(self.g2@),
            l1: site_views(self.l1@),
            r2: site_views(self.r2@),
            l2: site_views(self.l2@),
            r1: site_views(self.r1@),
        }
    }
}

spec fn buckets_within(bs: Seq<Vec<Site>>, m: nat) -> bool {
    forall|k: int| 0 <= k < bs.len() ==> sites_within((#[trigger] bs[k])@, m)
}

fn bucket_gates_at(bs: &Vec<Vec<Site>>, k: usize, base: usize, Ghost(m): Ghost<nat>) -> (r: Vec<
    PhysicalGate<usize>,
>)
    requires
        buckets_within(bs@, m),
        base + m <= usize::MAX,
    ensures
        gate_models(r@) == bucket_at(site_views(bs@), k as int, base as int),
{
    if k < bs.len() {
        assert(sites_within(bs@[k as int]@, m));
        controlled_gates(&bs[k], base)
    } else {
        Vec::new()
    }
}

fn join_layers(a: Vec<PhysicalGate<usize>>, b: Vec<PhysicalGate<usize>>) -> (r: Vec<
    PhysicalGate<usize>,
>)
    ensures
        gate_models(r@) == gate_models(a@) + gate_models(b@),
{
    let mut r = a;
    let mut b = b;
    proof {
        lemma_gate_models_add(a@, b@);
    }
    r.append(&mut b);
    r
}

/// One round detector for each `p` below `count`, comparing the records
/// `first - p` and `second - p` steps back.
fn detectors(count: usize, first: usize, second: usize) -> (r: Vec<PhysicalGate<usize>>)
    requires
        count <= first <= second,
    ensures
        gate_models(r@) == Seq::new(
            count as nat,
            |p: int|
                GateModel::<usize>::DeclareDetector(
                    seq![(first - p) as usize, (second - p) as usize],
                ),
        ),
{
    let mut r: Vec<PhysicalGate<usize>> = Vec::new();
    let ghost goal = Seq::new(
        count as nat,
        |p: int|
            GateModel::<usize>::DeclareDetector(seq![(first - p) as usize, (second - p) as usize]),
    );
    assert(gate_models(r@) =~= goal.take(0));
    for p in 0..count
        invariant
            count <= first <= second,
            goal == Seq::new(
                count as nat,
                |p: int|
                    GateModel::<usize>::DeclareDetector(
                        seq![(first - p) as usize, (second - p) as usize],
                    ),
            ),
            gate_models(r@) == goal.take(p as int),
    {
        let near: usize = first - p;
        let far: usize = second - p;
        let recs: Vec<usize> = vec![near, far];
        assert(recs@ =~= seq![(first - p) as usize, (second - p) as usize]);
        let g = PhysicalGate::DeclareDetector(recs);
        proof {
            lemma_gate_models_push(r@, g);
            assert(goal.take(p + 1) =~= goal.take(p as int).push(gate_model(g)));
        }
        r.push(g);
    }
    assert(goal.take(goal.len() as int) =~= goal);
    r
}

pub proof fn lemma_members(classes: Seq<int>, c: int, n: nat)
    requires
        n <= classes.len(),
    ensures
        members(classes, c, n).len() <= n,
        forall|i: int| 0 <= i < members(classes, c, n).len() ==> 0 <= #[trigger] members(classes, c, n)[i] < n,
    decreases n,
{
    if n > 0 {
        lemma_members(classes, c, (n - 1) as nat);
    }
}

pub proof fn lemma_two_classes(classes: Seq<int>, n: nat)
    requires
        n <= classes.len(),
        forall|j: int| 0 <= j < classes.len() ==> 0 <= #[trigger] classes[j] <= 1,
    ensures
        members(classes, 0, n).len() + members(classes, 1, n).len() == n,
    decreases n,
{
    if n > 0 {
        lemma_two_classes(classes, (n - 1) as nat);
        assert(0 <= classes[n - 1] <= 1);
    }
}

pub proof fn lemma_members_grow(classes: Seq<int>, c: int, n: nat, k: nat)
    requires
        n <= k <= classes.len(),
    ensures
        members(classes, c, n).len() <= members(classes, c, k).len(),
        n < k && classes[n as int] == c ==> members(classes, c, n).len() < members(classes, c, k).len(),
    decreases k - n,
{
    if n < k {
        lemma_members_grow(classes, c, n + 1, k);
    }
}

impl StaggeredSeg {
    /// The parts fit together.
    pub closed spec fn wf(self) -> bool {
        let m = self.checks@.len();
        &&& self.base + m <= usize::MAX
        &&& self.class_of@.len() == m
        &&& self.subpos@.len() == m
        &&& forall|j: int| 0 <= j < m ==> (#[trigger] self.class_of@[j]) <= 1
        &&& forall|j: int|
            0 <= j < m ==> #[trigger] self.subpos@[j] == class_rank(ints(self.class_of@), j)
        &&& ints(self.g1@) == members(ints(self.class_of@), 0, m)
        &&& ints(self.g2@) == members(ints(self.class_of@), 1, m)
        &&& buckets_within(self.l1@, m)
        &&& buckets_within(self.r2@, m)
        &&& buckets_within(self.l2@, m)
        &&& buckets_within(self.r1@, m)
        &&& self.l2@.len() + 2 <= usize::MAX
    }

    /// The conflict classes of the checks.
    pub closed spec fn classes(self) -> Seq<int> {
        ints(self.class_of@)
    }

    /// Split the sites of the checks into the four phases and color each.
    pub fn new(checks: Vec<PauliAxis<usize>>, classes: Vec<usize>, base: usize) -> (r: Self)
        requires
            round_fits(axes(checks@), base as int),
            classes@.len() == checks@.len(),
            checks@.len() >= 2,
            forall|j: int| 0 <= j < classes@.len() ==> (#[trigger] classes@[j]) <= 1,
        ensures
            r.wf(),
            r@ == seg_model(axes(checks@), ints(classes@), base as int),
            r.classes() == ints(classes@),
    {
        let ghost model = axes(checks@);
        let ghost cs = ints(classes@);
        let m: usize = checks.len();
        let parts = all_acts(&checks);
        let all = all_round_sites(&parts, Ghost(model));
        let left = partition_left(&all, &classes);
        let mut subpos: Vec<usize> = Vec::new();
        let mut g1: Vec<usize> = Vec::new();
        let mut g2: Vec<usize> = Vec::new();
        assert(ints(g1@) =~= members(cs, 0, 0));
        assert(ints(g2@) =~= members(cs, 1, 0));
        for j in 0..m
            invariant
                m == classes@.len(),
                cs == ints(classes@),
                forall|j: int| 0 <= j < classes@.len() ==> (#[trigger] classes@[j]) <= 1,
                subpos@.len() == j,
                forall|i: int| 0 <= i < j ==> #[trigger] subpos@[i] == class_rank(cs, i),
                ints(g1@) == members(cs, 0, j as nat),
                ints(g2@) == members(cs, 1, j as nat),
        {
            assert(classes@[j as int] <= 1);
            let ghost before1 = ints(g1@);
            let ghost before2 = ints(g2@);
            if classes[j] == 0 {
                subpos.push(g1.len());
                g1.push(j);
                assert(ints(g1@) =~= before1.push(j as int));
            } else {
                subpos.push(g2.len());
                g2.push(j);
                assert(ints(g2@) =~= before2.push(j as int));
            }
        }
        let p1 = select_part(&all, &classes, &left, 0, Some(true), Ghost(m as nat));
        let p2 = select_part(&all, &classes, &left, 1, Some(false), Ghost(m as nat));
        let p3 = select_part(&all, &classes, &left, 1, Some(true), Ghost(m as nat));
        let p4 = select_part(&all, &classes, &left, 0, Some(false), Ghost(m as nat));
        let l1 = color_part(&p1, m);
        let r2 = color_part(&p2, m);
        let l2 = color_part(&p3, m);
        let r1 = color_part(&p4, m);
        StaggeredSeg { checks, base, class_of: classes, subpos, g1, g2, l1, r2, l2, r1 }
    }

    /// The layers of one round; in the prologue there is no previous round.
    #[verifier::spinoff_prover]
    pub fn round_layers(&self, prologue: bool) -> (r: Vec<Vec<PhysicalGate<usize>>>)
        requires
            self.wf(),
        ensures
            layer_models(r@) == self@.round_layers(prologue),
    {
        let ghost m = self.checks@.len();
        let ghost seg = self@;
        let ghost goal = seg.round_layers(prologue);
        let base: usize = self.base;
        proof {
            lemma_members(ints(self.class_of@), 0, m);
            lemma_members(ints(self.class_of@), 1, m);
            self.lemma_groups();
        }
        let mut layers: Vec<Vec<PhysicalGate<usize>>> = Vec::new();
        layers.push(reset_gates(&self.g1, base));
        let t1: usize = if prologue {
            self.l1.len()
        } else {
            bigger(self.l1.len(), self.r2.len())
        };
        assert(layer_models(layers@) =~= goal.take(1));
        for k in 0..t1
            invariant
                self.wf(),
                m == self.checks@.len(),
                seg == self@,
                base == self.base,
                goal == seg.round_layers(prologue),
                t1 == seg.first_length(prologue),
                layer_models(layers@) == goal.take(k + 1),
        {
            let left = bucket_gates_at(&self.l1, k, base, Ghost(m));
            let right: Vec<PhysicalGate<usize>> = if prologue {
                Vec::new()
            } else {
                bucket_gates_at(&self.r2, k, base, Ghost(m))
            };
            let layer = join_layers(left, right);
            proof {
                lemma_layers_push(layers@, layer);
                assert(goal[k + 1] == seg.first_phase(k as int, prologue));
                assert(goal.take(k + 2) =~= goal.take(k + 1).push(gate_models(layer@)));
            }
            layers.push(layer);
        }
        let t2: usize = bigger(self.l2.len() + 2, self.r1.len());
        for k in 0..t2
            invariant
                self.wf(),
                m == self.checks@.len(),
                seg == self@,
                base == self.base,
                goal == seg.round_layers(prologue),
                t1 == seg.first_length(prologue),
                t2 == seg.second_length(),
                layer_models(layers@) == goal.take(t1 + k + 1),
        {
            proof {
                self.lemma_groups();
            }
            let right = bucket_gates_at(&self.r1, k, base, Ghost(m));
            let rest: Vec<PhysicalGate<usize>> = if k == 0 {
                if prologue {
                    Vec::new()
                } else {
                    measure_gates(&self.checks, &self.g2, base)
                }
            } else if k == 1 {
                reset_gates(&self.g2, base)
            } else {
                bucket_gates_at(&self.l2, k - 2, base, Ghost(m))
            };
            let layer = join_layers(right, rest);
            proof {
                lemma_layers_push(layers@, layer);
                assert(goal[t1 + k + 1] == seg.second_phase(k as int, prologue));
                assert(goal.take(t1 + k + 2) =~= goal.take(t1 + k + 1).push(gate_models(layer@)));
            }
            layers.push(layer);
        }
        let last = measure_gates(&self.checks, &self.g1, base);
        proof {
            lemma_layers_push(layers@, last);
            assert(goal[t1 + t2 + 1] == gate_models(last@));
            assert(goal.len() == t1 + t2 + 2);
            assert(goal =~= goal.take(t1 + t2 + 1).push(gate_models(last@)));
        }
        layers.push(last);
        layers
    }

    proof fn lemma_groups(self)
        requires
            self.wf(),
        ensures
            forall|i: int|
                0 <= i < self.g1@.len() ==> (#[trigger] self.g1@[i]) < self.checks@.len()
                    && self.base + self.g1@[i] <= usize::MAX,
            forall|i: int|
                0 <= i < self.g2@.len() ==> (#[trigger] self.g2@[i]) < self.checks@.len()
                    && self.base + self.g2@[i] <= usize::MAX,
            self.g1@.len() + self.g2@.len() == self.checks@.len(),
    {
        let cs = ints(self.class_of@);
        let m = self.checks@.len();
        lemma_members(cs, 0, m);
        lemma_members(cs, 1, m);
        assert forall|j: int| 0 <= j < cs.len() implies 0 <= #[trigger] cs[j] <= 1 by {
            assert(self.class_of@[j] <= 1);
        }
        lemma_two_classes(cs, m);
        assert forall|i: int| 0 <= i < self.g1@.len() implies (#[trigger] self.g1@[i]) < m
            && self.base + self.g1@[i] <= usize::MAX by {
            assert(ints(self.g1@)[i] == members(cs, 0, m)[i]);
        }
        assert forall|i: int| 0 <= i < self.g2@.len() implies (#[trigger] self.g2@[i]) < m
            && self.base + self.g2@[i] <= usize::MAX by {
            assert(ints(self.g2@)[i] == members(cs, 1, m)[i]);
        }
    }

    /// The trailing flush of the last `g2`.
    pub fn epilogue_layers(&self) -> (r: Vec<Vec<PhysicalGate<usize>>>)
        requires
            self.wf(),
        ensures
            layer_models(r@) == self@.epilogue_layers(),
    {
        let ghost m = self.checks@.len();
        proof {
            self.lemma_groups();
        }
        let mut layers: Vec<Vec<PhysicalGate<usize>>> = Vec::new();
        let ghost none = layer_models(layers@);
        bucket_gates(&self.r2, self.base, &mut layers, Ghost(m));
        let last = measure_gates(&self.checks, &self.g2, self.base);
        proof {
            lemma_layers_push(layers@, last);
            assert(layer_models(layers@).push(gate_models(last@)) =~= self@.epilogue_layers());
        }
        layers.push(last);
        layers
    }
}

pub proof fn lemma_rank_bound(classes: Seq<int>, j: int)
    requires
        0 <= j < classes.len(),
        forall|j: int| 0 <= j < classes.len() ==> 0 <= #[trigger] classes[j] <= 1,
    ensures
        class_rank(classes, j) < members(classes, classes[j], classes.len()).len(),
        members(classes, 0, classes.len()).len() + members(classes, 1, classes.len()).len()
            == classes.len(),
{
    lemma_members_grow(classes, classes[j], j as nat, classes.len());
    lemma_two_classes(classes, classes.len());
}

impl StaggeredSeg {
    /// Note where the records of round `n` land; `earlier` is how many records the
    /// rounds before it have.
    fn note_round(&self, n: usize, start: usize, earlier: usize, map: &mut Vec<usize>)
        requires
            self.wf(),
            n >= 1,
            earlier == (n - 1) * self.classes().len(),
            start + earlier + self.classes().len() <= usize::MAX,
        ensures
            final(map)@ == old(map)@ + Seq::new(
                self.classes().len(),
                |j: int| (start + record_position(self.classes(), n as int, j)) as usize,
            ),
    {
        let ghost cs = self.classes();
        let m: usize = self.checks.len();
        let a: usize = self.g1.len();
        let b: usize = self.g2.len();
        let ghost before = map@;
        let ghost goal = Seq::new(
            cs.len(),
            |j: int| (start + record_position(cs, n as int, j)) as usize,
        );
        proof {
            self.lemma_groups();
            assert forall|j: int| 0 <= j < cs.len() implies 0 <= #[trigger] cs[j] <= 1 by {
                assert(self.class_of@[j] <= 1);
            }
            assert(before + goal.take(0) =~= before);
        }
        for j in 0..m
            invariant
                self.wf(),
                n >= 1,
                m == self.checks@.len(),
                cs == ints(self.class_of@),
                a == self.g1@.len(),
                b == self.g2@.len(),
                a + b == m,
                earlier == (n - 1) * m,
                start + earlier + m <= usize::MAX,
                forall|j: int| 0 <= j < cs.len() ==> 0 <= #[trigger] cs[j] <= 1,
                goal == Seq::new(
                    cs.len(),
                    |j: int| (start + record_position(cs, n as int, j)) as usize,
                ),
                map@ == before + goal.take(j as int),
        {
            proof {
                lemma_rank_bound(cs, j as int);
                assert(self.class_of@[j as int] == cs[j as int]);
                assert(self.subpos@[j as int] == class_rank(cs, j as int));
                assert(ints(self.g1@).len() == a && ints(self.g2@).len() == b);
                if n > 1 {
                    assert((n - 2) * m + m == (n - 1) * m) by (nonlinear_arith);
                    assert((n - 2) * m >= 0) by (nonlinear_arith)
                        requires
                            n >= 2,
                            m >= 0,
                    ;
                }
            }
            let p: usize = self.subpos[j];
            let at: usize = if self.class_of[j] == 0 {
                if n == 1 {
                    start + p
                } else {
                    start + (earlier - m) + a + b + p
                }
            } else {
                start + earlier + a + p
            };
            map.push(at);
            assert(map@ =~= before + goal.take(j + 1));
        }
        assert(goal.take(goal.len() as int) =~= goal);
    }

    /// Note where the records of all rounds land.
    fn note_records(&self, r: usize, map: &mut Vec<usize>)
        requires
            self.wf(),
            1 <= r < usize::MAX,
            old(map)@.len() + r * self.classes().len() <= usize::MAX,
        ensures
            final(map)@ == old(map)@ + record_positions(
                self.classes(),
                old(map)@.len() as int,
                r as nat,
            ),
    {
        let ghost cs = self.classes();
        let m: usize = self.checks.len();
        let start: usize = map.len();
        let ghost before = map@;
        let mut earlier: usize = 0;
        proof {
            assert(before + record_positions(cs, start as int, 0) =~= before);
            assert(0 * m == 0) by (nonlinear_arith);
        }
        for n in 1..r + 1
            invariant
                self.wf(),
                cs == self.classes(),
                cs.len() == m,
                r >= 1,
                start + r * m <= usize::MAX,
                earlier == (n - 1) * m,
                start == before.len(),
                map@ == before + record_positions(cs, start as int, (n - 1) as nat),
        {
            proof {
                assert((n - 1) * m + m == n * m) by (nonlinear_arith);
                assert(n * m <= r * m) by (nonlinear_arith)
                    requires
                        n <= r,
                        m >= 0,
                ;
            }
            let ghost mid = map@;
            self.note_round(n, start, earlier, map);
            earlier = earlier + m;
            assert(map@ =~= before + record_positions(cs, start as int, n as nat));
        }
    }

    /// Emit the whole segment of `r` rounds with its round detectors, and note
    /// where the records land.
    #[verifier::spinoff_prover]
    pub fn emit<S: GateSink>(&self, r: usize, out: &mut S, map: &mut Vec<usize>)
        requires
            self.wf(),
            1 <= r < usize::MAX,
            old(map)@.len() + r * self.classes().len() <= usize::MAX,
        ensures
            final(out).pushed() == old(out).pushed() + self@.gates(r as int),
            final(map)@ == old(map)@ + record_positions(
                self.classes(),
                old(map)@.len() as int,
                r as nat,
            ),
    {
        let m: usize = self.checks.len();
        let a: usize = self.g1.len();
        let b: usize = self.g2.len();
        let ghost seg = self@;
        let ghost before = out.pushed();
        proof {
            self.lemma_groups();
            if r >= 2 {
                assert(2 * m <= r * m) by (nonlinear_arith)
                    requires
                        r >= 2,
                        m >= 0,
                ;
            }
        }
        push_layers(out, self.round_layers(true));
        if r >= 2 {
            push_layers(out, self.round_layers(false));
            let near = detectors(a, a, m + a);
            assert(gate_models(near@) =~= seg.g1_detectors());
            extend_gates(out, near);
        }
        let ghost second = if r >= 2 {
            layered(seg.round_layers(false)) + seg.g1_detectors()
        } else {
            Seq::empty()
        };
        let ghost upto = layered(seg.round_layers(true)) + second;
        assert(out.pushed() =~= before + upto);
        if r >= 3 {
            let mut body: Vec<PhysicalGate<usize>> = Vec::new();
            assert(gate_models(body@) =~= Seq::<GateModel<usize>>::empty());
            push_layers(&mut body, self.round_layers(false));
            assert(gate_models(body@) =~= layered(seg.round_layers(false)));
            let near = detectors(a, a, m + a);
            assert(gate_models(near@) =~= seg.g1_detectors());
            let body = join_layers(body, near);
            let late = detectors(b, m, 2 * m);
            assert(gate_models(late@) =~= seg.g2_detectors());
            let body = join_layers(body, late);
            out.push_gate(PhysicalGate::Repeat(r - 2, body));
        }
        let ghost third = if r >= 3 {
            seq![GateModel::Repeat((r - 2) as usize, seg.steady_body())]
        } else {
            Seq::empty()
        };
        assert(out.pushed() =~= before + (upto + third));
        push_layers(out, self.epilogue_layers());
        assert(out.pushed() =~= before + (upto + third + layered(seg.epilogue_layers())));
        if r >= 2 {
            let last = detectors(b, b, m + b);
            assert(gate_models(last@) =~= seg.closing_detectors());
            extend_gates(out, last);
        }
        assert(out.pushed() =~= before + seg.gates(r as int));
        self.note_records(r, map);
    }
}

// ---------------------------------------------------------------------------
// Whole circuits
// ---------------------------------------------------------------------------
/// The checks measured at the end of `s`.
pub open spec fn trailing_checks(s: Seq<GateModel<usize>>) -> Seq<SignedPauli<usize>>
    decreases s.len(),
{
    if s.len() == 0 {
        Seq::empty()
    } else {
        match s.last() {
            GateModel::MPP(p) => trailing_checks(s.drop_last()).push(p),
            _ => Seq::empty(),
        }
    }
}

/// One round under the schedule that keeps the order of the records.
pub open spec fn round_gates(
    schedule: SecSchedule,
    checks: Seq<SignedPauli<usize>>,
    base: int,
) -> Seq<GateModel<usize>> {
    if checks.len() == 0 {
        Seq::empty()
    } else {
        match schedule {
            SecSchedule::Legacy => layered(legacy_layers(checks, base)),
            SecSchedule::Lrc => layered(sequential_layers(checks, base)),
        }
    }
}

/// The gates `s` with every round of checks replaced by its gadget, but for the
/// round still open at the end.
pub open spec fn rounds_replaced(schedule: SecSchedule, s: Seq<GateModel<usize>>, base: int) -> Seq<
    GateModel<usize>,
>
    decreases s, 0nat,
{
    if s.len() == 0 {
        Seq::empty()
    } else {
        match s.last() {
            GateModel::MPP(_) => rounds_replaced(schedule, s.drop_last(), base),
            GateModel::Repeat(n, body) => all_replaced(schedule, s.drop_last(), base).push(
                GateModel::Repeat(n, all_replaced(schedule, body, base)),
            ),
            g => all_replaced(schedule, s.drop_last(), base).push(g),
        }
    }
}

/// The gates `s` with every round of checks replaced by its gadget; all else, the
/// records and their offsets, stays as it is.
pub open spec fn all_replaced(schedule: SecSchedule, s: Seq<GateModel<usize>>, base: int) -> Seq<
    GateModel<usize>,
>
    decreases s, 1nat,
{
    rounds_replaced(schedule, s, base) + round_gates(schedule, trailing_checks(s), base)
}

/// Every round of the circuit fits the machine integers.
pub open spec fn rounds_fit(s: Seq<GateModel<usize>>, base: int) -> bool
    decreases s,
{
    s.len() == 0 || (rounds_fit(s.drop_last(), base) && match s.last() {
        GateModel::MPP(_) => round_fits(trailing_checks(s), base),
        GateModel::Repeat(_, body) => rounds_fit(body, base),
        _ => true,
    })
}

pub proof fn lemma_rounds_fit_take(s: Seq<GateModel<usize>>, base: int, i: int)
    requires
        rounds_fit(s, base),
        0 <= i <= s.len(),
    ensures
        rounds_fit(s.take(i), base),
    decreases s.len() - i,
{
    if i < s.len() {
        lemma_rounds_fit_take(s, base, i + 1);
        assert(s.take(i + 1).drop_last() =~= s.take(i));
    } else {
        assert(s.take(i) =~= s);
    }
}

proof fn lemma_open_round_fits(s: Seq<GateModel<usize>>, base: int)
    requires
        rounds_fit(s, base),
    ensures
        trailing_checks(s).len() > 0 ==> round_fits(trailing_checks(s), base),
{
}

fn emit_round_under<S: GateSink>(
    schedule: SecSchedule,
    checks: &Vec<PauliAxis<usize>>,
    base: usize,
    out: &mut S,
)
    requires
        checks@.len() > 0 ==> round_fits(axes(checks@), base as int),
    ensures
        final(out).pushed() == old(out).pushed() + round_gates(
            schedule,
            axes(checks@),
            base as int,
        ),
{
    let ghost before = out.pushed();
    if checks.len() > 0 {
        match schedule {
            SecSchedule::Legacy => emit_round(checks, base, out),
            SecSchedule::Lrc => emit_round_sequential(checks, base, out),
        }
    } else {
        assert(before + Seq::<GateModel<usize>>::empty() =~= before);
    }
}

/// Replace the rounds of a gate list, in repeated bodies too (which reuse the same
/// ancilla pool). Consecutive `MPP`s form one round; any other gate ends the
/// pending round and is handed on unchanged.
pub fn expand_in_order<S: GateSink>(
    schedule: SecSchedule,
    gates: &Vec<PhysicalGate<usize>>,
    base: usize,
    out: &mut S,
)
    requires
        rounds_fit(gate_models(gates@), base as int),
    ensures
        final(out).pushed() == old(out).pushed() + all_replaced(
            schedule,
            gate_models(gates@),
            base as int,
        ),
    decreases *gates,
{
    let ghost before = out.pushed();
    let ghost s = gate_models(gates@);
    let mut round: Vec<PauliAxis<usize>> = Vec::new();
    proof {
        lemma_gate_models(gates@);
        assert(s.take(0) =~= Seq::empty());
        assert(axes(round@) =~= Seq::empty());
        assert(before + Seq::<GateModel<usize>>::empty() =~= before);
    }
    for i in 0..gates.len()
        invariant
            s == gate_models(gates@),
            s.len() == gates@.len(),
            forall|i: int| 0 <= i < gates@.len() ==> #[trigger] s[i] == gate_model(gates@[i]),
            rounds_fit(s, base as int),
            axes(round@) == trailing_checks(s.take(i as int)),
            out.pushed() == before + rounds_replaced(schedule, s.take(i as int), base as int),
    {
        let ghost t = s.take(i as int);
        proof {
            assert(s[i as int] == gate_model(gates@[i as int]));
            assert(s.take(i + 1).drop_last() =~= t);
            lemma_rounds_fit_take(s, base as int, i as int);
            lemma_rounds_fit_take(s, base as int, i + 1);
            lemma_open_round_fits(t, base as int);
            assert(all_replaced(schedule, t, base as int) == rounds_replaced(
                schedule,
                t,
                base as int,
            ) + round_gates(schedule, trailing_checks(t), base as int));
        }
        match &gates[i] {
            PhysicalGate::MPP(p) => {
                let ghost round0 = round@;
                let check = p.clone();
                round.push(check);
                assert(axes(round@) =~= axes(round0).push(check@));
            },
            PhysicalGate::Repeat(n, body) => {
                let ghost mid = out.pushed();
                emit_round_under(schedule, &round, base, out);
                round = Vec::new();
                let mut expanded: Vec<PhysicalGate<usize>> = Vec::new();
                expand_in_order(schedule, body, base, &mut expanded);
                out.push_gate(PhysicalGate::Repeat(*n, expanded));
                proof {
                    assert(axes(round@) =~= Seq::empty());
                    assert(gate_models(expanded@) =~= all_replaced(
                        schedule,
                        gate_models(body@),
                        base as int,
                    ));
                    assert(out.pushed() =~= before + rounds_replaced(
                        schedule,
                        s.take(i + 1),
                        base as int,
                    ));
                }
            },
            g => {
                emit_round_under(schedule, &round, base, out);
                round = Vec::new();
                let copy = g.clone();
                out.push_gate(copy);
                proof {
                    assert(axes(round@) =~= Seq::empty());
                    assert(out.pushed() =~= before + rounds_replaced(
                        schedule,
                        s.take(i + 1),
                        base as int,
                    ));
                }
            },
        }
    }
    assert(s.take(s.len() as int) =~= s);
    emit_round_under(schedule, &round, base, out);
    assert(out.pushed() =~= before + all_replaced(schedule, s, base as int));
}

/// Lower every round to the lockstep schedule.
pub fn expand_gates_into<S: GateSink>(gates: &Vec<PhysicalGate<usize>>, base: usize, out: &mut S)
    requires
        rounds_fit(gate_models(gates@), base as int),
    ensures
        final(out).pushed() == old(out).pushed() + all_replaced(
            SecSchedule::Legacy,
            gate_models(gates@),
            base as int,
        ),
{
    expand_in_order(SecSchedule::Legacy, gates, base, out);
}

/// Lower a gate list that must keep its record order to the sequential schedule.
pub fn expand_sequential_only(gates: &Vec<PhysicalGate<usize>>, base: usize) -> (r: Vec<
    PhysicalGate<usize>,
>)
    requires
        rounds_fit(gate_models(gates@), base as int),
    ensures
        gate_models(r@) == all_replaced(SecSchedule::Lrc, gate_models(gates@), base as int),
{
    let mut out: Vec<PhysicalGate<usize>> = Vec::new();
    expand_in_order(SecSchedule::Lrc, gates, base, &mut out);
    assert(gate_models(out@) =~= all_replaced(SecSchedule::Lrc, gate_models(gates@), base as int));
    out
}

/// The checks measured at the start of `s`.
pub open spec fn leading_checks(s: Seq<GateModel<usize>>) -> Seq<SignedPauli<usize>>
    decreases s.len(),
{
    if s.len() == 0 {
        Seq::empty()
    } else {
        match s[0] {
            GateModel::MPP(p) => seq![p] + leading_checks(s.drop_first()),
            _ => Seq::empty(),
        }
    }
}

/// A repeated body measures `checks` in order once more and then compares each
/// with its value one round earlier.
pub open spec fn body_repeats(body: Seq<GateModel<usize>>, checks: Seq<SignedPauli<usize>>) -> bool {
    let m = checks.len();
    &&& body.len() == 2 * m
    &&& forall|j: int| 0 <= j < m ==> #[trigger] body[j] == GateModel::MPP(checks[j])
    &&& forall|j: int|
        m <= j < 2 * m ==> #[trigger] body[j] == GateModel::<usize>::DeclareDetector(
            seq![(j - m + 1) as usize, (j + 1) as usize],
        )
}

/// How often the round at the start of `s` is repeated right after it.
pub open spec fn repeats(s: Seq<GateModel<usize>>) -> Option<usize> {
    let checks = leading_checks(s);
    let m = checks.len() as int;
    if m < s.len() {
        match s[m] {
            GateModel::Repeat(n, body) => if body_repeats(body, checks) {
                Some(n)
            } else {
                None
            },
            _ => None,
        }
    } else {
        None
    }
}

/// The record map with `n` more records that keep their place.
pub open spec fn extended(map: Seq<usize>, n: int) -> Seq<usize> {
    map + Seq::new(n as nat, |i: int| (map.len() + i) as usize)
}

/// The offset of the record `k` steps back, through the record map.
pub open spec fn rewritten(map: Seq<usize>, k: usize) -> usize {
    (map.len() - map[map.len() - k]) as usize
}

/// The offsets through the record map.
pub open spec fn rewritten_all(map: Seq<usize>, recs: Seq<usize>) -> Seq<usize> {
    Seq::new(recs.len(), |i: int| rewritten(map, recs[i]))
}

/// The comparison of every check with its value one round earlier.
pub open spec fn round_detectors(m: nat) -> Seq<GateModel<usize>> {
    Seq::new(
        m,
        |k: int| GateModel::DeclareDetector(seq![(k + 1) as usize, (m + k + 1) as usize]),
    )
}

/// What becomes of the gates at the start of `s`: the gates emitted, the record
/// map afterwards, and how many gates were dealt with.
pub open spec fn lrc_step(s: Seq<GateModel<usize>>, base: int, map: Seq<usize>) -> (
    Seq<GateModel<usize>>,
    Seq<usize>,
    int,
) {
    match s[0] {
        GateModel::MPP(_) => {
            let checks = leading_checks(s);
            let m = checks.len() as int;
            let again = repeats(s);
            let r = 1 + match again {
                Some(n) => n as int,
                None => 0,
            };
            let used = m + match again {
                Some(_) => 1int,
                None => 0,
            };
            let classes = class_colors(meeting(checks, true), checks.len());
            if color_count(classes) == 2 && r >= 2 {
                (
                    seg_model(checks, classes, base).gates(r),
                    map + record_positions(classes, map.len() as int, r as nat),
                    used,
                )
            } else {
                let round = layered(sequential_layers(checks, base));
                let gates = match again {
                    Some(n) => round.push(
                        GateModel::Repeat(n, round + round_detectors(checks.len())),
                    ),
                    None => round,
                };
                (gates, extended(map, r * m), used)
            }
        },
        GateModel::Measure(b, q, i) => (
            seq![GateModel::Measure(b, q, i)],
            extended(map, 1),
            1,
        ),
        GateModel::XCorrection(k, q) => (
            seq![GateModel::XCorrection(rewritten(map, k), q)],
            map,
            1,
        ),
        GateModel::DeclareDetector(recs) => (
            seq![GateModel::DeclareDetector(rewritten_all(map, recs))],
            map,
            1,
        ),
        GateModel::DeclareObservable(index, recs) => (
            seq![GateModel::DeclareObservable(index, rewritten_all(map, recs))],
            map,
            1,
        ),
        GateModel::Repeat(n, body) => (
            seq![GateModel::Repeat(n, all_replaced(SecSchedule::Lrc, body, base))],
            extended(map, n * record_total(body)),
            1,
        ),
        g => (seq![g], map, 1),
    }
}

/// The gates `s` under the staggered schedule, and the record map afterwards: a
/// round with its repetitions becomes a staggered segment where two conflict
/// classes are enough, any other round runs its classes one after another, and
/// every record offset outside repeated bodies follows the record it is about.
pub open spec fn lrc(s: Seq<GateModel<usize>>, base: int, map: Seq<usize>) -> (
    Seq<GateModel<usize>>,
    Seq<usize>,
)
    decreases s.len(),
{
    if s.len() == 0 {
        (Seq::empty(), map)
    } else {
        let (gates, after, used) = lrc_step(s, base, map);
        if 0 < used <= s.len() {
            let rest = lrc(s.skip(used), base, after);
            (gates + rest.0, rest.1)
        } else {
            (gates, after)
        }
    }
}

/// Every offset points at one of `n` records.
pub open spec fn steps_back(recs: Seq<usize>, n: int) -> bool {
    forall|i: int| 0 <= i < recs.len() ==> 1 <= #[trigger] recs[i] <= n
}

/// The record offsets of a gate point at records that exist when there are `n`.
pub open spec fn offsets_exist(g: GateModel<usize>, n: int) -> bool {
    match g {
        GateModel::XCorrection(k, _) => 1 <= k <= n,
        GateModel::DeclareDetector(recs) => steps_back(recs, n),
        GateModel::DeclareObservable(_, recs) => steps_back(recs, n),
        _ => true,
    }
}

/// Every record offset outside repeated bodies points at a record that exists.
pub open spec fn offsets_resolve(s: Seq<GateModel<usize>>, n: int) -> bool
    decreases s.len(),
{
    s.len() == 0 || (offsets_exist(s[0], n) && offsets_resolve(
        s.drop_first(),
        n + gate_total(Counted::Records, s[0]),
    ))
}

/// Every entry of the record map is one of the records.
pub open spec fn map_within(map: Seq<usize>) -> bool {
    forall|i: int| 0 <= i < map.len() ==> (#[trigger] map[i]) < map.len()
}

pub proof fn lemma_leading(s: Seq<GateModel<usize>>)
    ensures
        leading_checks(s).len() <= s.len(),
        forall|i: int|
            0 <= i < leading_checks(s).len() ==> #[trigger] s[i] == GateModel::MPP(
                leading_checks(s)[i],
            ),
        leading_checks(s).len() < s.len() ==> !(s[leading_checks(s).len() as int] is MPP),
        s.len() > 0 && s[0] is MPP ==> leading_checks(s).len() > 0,
    decreases s.len(),
{
    if s.len() > 0 && s[0] is MPP {
        let t = s.drop_first();
        lemma_leading(t);
        let c = leading_checks(s);
        assert forall|i: int| 0 <= i < c.len() implies #[trigger] s[i] == GateModel::MPP(c[i]) by {
            if i > 0 {
                assert(t[i - 1] == GateModel::<usize>::MPP(leading_checks(t)[i - 1]));
            }
        }
        if c.len() < s.len() {
            assert(s[c.len() as int] == t[c.len() - 1]);
        }
    }
}

pub proof fn lemma_total_first(kind: Counted, s: Seq<GateModel<usize>>)
    requires
        s.len() > 0,
    ensures
        total(kind, s) == gate_total(kind, s[0]) + total(kind, s.drop_first()),
{
    crate::physical::lemma_total_add(kind, seq![s[0]], s.drop_first());
    assert(seq![s[0]] + s.drop_first() =~= s);
    lemma_total_push(kind, Seq::<GateModel<usize>>::empty(), s[0]);
    assert(Seq::<GateModel<usize>>::empty().push(s[0]) =~= seq![s[0]]);
    assert(total(kind, Seq::<GateModel<usize>>::empty()) == 0);
}

pub proof fn lemma_total_skip(kind: Counted, s: Seq<GateModel<usize>>, i: int)
    requires
        0 <= i <= s.len(),
    ensures
        total(kind, s) == total(kind, s.take(i)) + total(kind, s.skip(i)),
{
    crate::physical::lemma_total_add(kind, s.take(i), s.skip(i));
    assert(s.take(i) + s.skip(i) =~= s);
}

proof fn lemma_offsets_skip(s: Seq<GateModel<usize>>, n: int, i: int)
    requires
        offsets_resolve(s, n),
        0 <= i <= s.len(),
    ensures
        offsets_resolve(s.skip(i), n + record_total(s.take(i))),
    decreases i,
{
    if i == 0 {
        assert(s.skip(0) =~= s);
        assert(s.take(0) =~= Seq::<GateModel<usize>>::empty());
    } else {
        lemma_offsets_skip(s.drop_first(), n + gate_total(Counted::Records, s[0]), i - 1);
        assert(s.drop_first().skip(i - 1) =~= s.skip(i));
        assert(s.take(i).drop_first() =~= s.drop_first().take(i - 1));
        lemma_total_first(Counted::Records, s.take(i));
    }
}

/// A round of `m` checks has `m` records.
proof fn lemma_checks_total(s: Seq<GateModel<usize>>, checks: Seq<SignedPauli<usize>>)
    requires
        s.len() == checks.len(),
        forall|i: int| 0 <= i < s.len() ==> #[trigger] s[i] == GateModel::MPP(checks[i]),
    ensures
        record_total(s) == checks.len(),
    decreases s.len(),
{
    if s.len() > 0 {
        assert(s[s.len() - 1] == GateModel::MPP(checks[s.len() - 1]));
        assert forall|i: int| 0 <= i < s.drop_last().len() implies #[trigger] s.drop_last()[i]
            == GateModel::MPP(checks.drop_last()[i]) by {
            assert(s[i] == GateModel::MPP(checks[i]));
        }
        lemma_checks_total(s.drop_last(), checks.drop_last());
        assert(gate_total(Counted::Records, s.last()) == 1);
    }
}

pub proof fn lemma_detectors_total(s: Seq<GateModel<usize>>)
    requires
        forall|i: int| 0 <= i < s.len() ==> (#[trigger] s[i]) is DeclareDetector,
    ensures
        record_total(s) == 0,
        crate::physical::tick_total(s) == 0,
    decreases s.len(),
{
    if s.len() > 0 {
        assert(s[s.len() - 1] is DeclareDetector);
        assert forall|i: int| 0 <= i < s.drop_last().len() implies (
        #[trigger] s.drop_last()[i]) is DeclareDetector by {
            assert(s[i] is DeclareDetector);
        }
        lemma_detectors_total(s.drop_last());
        assert(gate_total(Counted::Records, s.last()) == 0);
        assert(gate_total(Counted::Ticks, s.last()) == 0);
    }
}

/// The records of a round and its repetitions.
pub proof fn lemma_segment_total(s: Seq<GateModel<usize>>)
    requires
        s.len() > 0,
        s[0] is MPP,
    ensures
        ({
            let m = leading_checks(s).len() as int;
            &&& m >= 1
            &&& match repeats(s) {
                Some(n) => m < s.len() && record_total(s.take(m + 1)) == (1 + n) * m,
                None => m <= s.len() && record_total(s.take(m)) == m,
            }
        }),
{
    lemma_leading(s);
    let checks = leading_checks(s);
    let m = checks.len() as int;
    lemma_checks_total(s.take(m), checks);
    if let Some(n) = repeats(s) {
        match s[m] {
            GateModel::Repeat(k, body) => {
                assert(body.take(m) + body.skip(m) =~= body);
                lemma_total_skip(Counted::Records, body, m);
                lemma_checks_total(body.take(m), checks);
                lemma_detectors_total(body.skip(m));
                assert(s.take(m + 1) =~= s.take(m).push(s[m]));
                lemma_total_push(Counted::Records, s.take(m), s[m]);
                assert((1 + n) * m == m + n * m) by (nonlinear_arith);
            },
            _ => {},
        }
    }
}

proof fn lemma_position_bound(classes: Seq<int>, n: int, j: int, r: int)
    requires
        1 <= n <= r,
        0 <= j < classes.len(),
        forall|j: int| 0 <= j < classes.len() ==> 0 <= #[trigger] classes[j] <= 1,
    ensures
        0 <= record_position(classes, n, j) < r * classes.len(),
{
    let m = classes.len() as int;
    lemma_rank_bound(classes, j);
    assert(classes[j] == 0 || classes[j] == 1);
    assert(n * m <= r * m) by (nonlinear_arith)
        requires
            n <= r,
            m >= 0,
    ;
    assert((n - 1) * m + m == n * m) by (nonlinear_arith);
    assert((n - 1) * m >= 0) by (nonlinear_arith)
        requires
            n >= 1,
            m >= 0,
    ;
    if n > 1 {
        assert((n - 2) * m + m == (n - 1) * m) by (nonlinear_arith);
        assert((n - 2) * m >= 0) by (nonlinear_arith)
            requires
                n >= 2,
                m >= 0,
        ;
    }
}

pub proof fn lemma_positions(classes: Seq<int>, start: int, r: nat, top: int)
    requires
        forall|j: int| 0 <= j < classes.len() ==> 0 <= #[trigger] classes[j] <= 1,
        0 <= start,
        r <= top,
        start + top * classes.len() <= usize::MAX,
    ensures
        record_positions(classes, start, r).len() == r * classes.len(),
        forall|i: int|
            0 <= i < r * classes.len() ==> start <= #[trigger] record_positions(classes, start, r)[i]
                < start + top * classes.len(),
    decreases r,
{
    let m = classes.len() as int;
    if r > 0 {
        lemma_positions(classes, start, (r - 1) as nat, top);
        let before = record_positions(classes, start, (r - 1) as nat);
        let all = record_positions(classes, start, r);
        assert((r - 1) * m + m == r * m) by (nonlinear_arith);
        assert forall|i: int| 0 <= i < r * m implies start <= #[trigger] all[i] < start + top * m by {
            if i < (r - 1) * m {
                assert(all[i] == before[i]);
            } else {
                let j = i - (r - 1) * m;
                lemma_position_bound(classes, r as int, j, top);
            }
        }
    } else {
        assert(0 * m == 0) by (nonlinear_arith);
    }
}

fn same_axis(a: &PauliAxis<usize>, b: &PauliAxis<usize>) -> (r: bool)
    ensures
        r == (a@ == b@),
{
    let s = a.pauli_string.sites();
    let t = b.pauli_string.sites();
    if a.sign != b.sign || s.len() != t.len() {
        return false;
    }
    let mut i: usize = 0;
    while i < s.len()
        invariant
            i <= s@.len(),
            s@.len() == t@.len(),
            s@ == a@.sites,
            t@ == b@.sites,
            forall|k: int| 0 <= k < i ==> #[trigger] s@[k] == t@[k],
        decreases s@.len() - i,
    {
        if s[i].0 != t[i].0 || s[i].1 != t[i].1 {
            assert(s@[i as int] != t@[i as int]);
            return false;
        }
        i = i + 1;
    }
    assert(s@ =~= t@);
    true
}

/// Whether `gate` is entry `j` of a body that repeats `checks`.
fn entry_matches(gate: &PhysicalGate<usize>, checks: &Vec<PauliAxis<usize>>, j: usize) -> (r: bool)
    requires
        j < 2 * checks@.len(),
        j < usize::MAX,
    ensures
        r == if j < checks@.len() {
            gate_model(*gate) == GateModel::MPP(axes(checks@)[j as int])
        } else {
            gate_model(*gate) == GateModel::<usize>::DeclareDetector(
                seq![(j - checks@.len() + 1) as usize, (j + 1) as usize],
            )
        },
{
    let m: usize = checks.len();
    match gate {
        PhysicalGate::MPP(p) => j < m && same_axis(p, &checks[j]),
        PhysicalGate::DeclareDetector(recs) => {
            if j >= m && recs.len() == 2 {
                let first: usize = recs[0];
                let second: usize = recs[1];
                let r = first == j - m + 1 && second == j + 1;
                proof {
                    let goal = seq![(j - m + 1) as usize, (j + 1) as usize];
                    if r {
                        assert(recs@ =~= goal);
                    } else {
                        assert(recs@[0] == first && recs@[1] == second);
                    }
                }
                r
            } else {
                false
            }
        },
        _ => false,
    }
}

/// Whether a repeated body measures the same checks in order and then declares
/// exactly the round-over-round detectors.
pub fn repeat_matches(body: &Vec<PhysicalGate<usize>>, checks: &Vec<PauliAxis<usize>>) -> (r: bool)
    ensures
        r == body_repeats(gate_models(body@), axes(checks@)),
{
    let ghost b = gate_models(body@);
    let ghost cs = axes(checks@);
    let m: usize = checks.len();
    proof {
        lemma_gate_models(body@);
    }
    if body.len() < m || body.len() - m != m {
        return false;
    }
    let mut j: usize = 0;
    while j < body.len()
        invariant
            b == gate_models(body@),
            cs == axes(checks@),
            b.len() == body@.len(),
            forall|i: int| 0 <= i < body@.len() ==> #[trigger] b[i] == gate_model(body@[i]),
            m == cs.len(),
            body@.len() == 2 * m,
            body@.len() <= usize::MAX,
            j <= body@.len(),
            forall|i: int| 0 <= i < j && i < m ==> #[trigger] b[i] == GateModel::MPP(cs[i]),
            forall|i: int|
                m <= i < j ==> #[trigger] b[i] == GateModel::<usize>::DeclareDetector(
                    seq![(i - m + 1) as usize, (i + 1) as usize],
                ),
        decreases body@.len() - j,
    {
        assert(b[j as int] == gate_model(body@[j as int]));
        if !entry_matches(&body[j], checks, j) {
            return false;
        }
        j = j + 1;
    }
    true
}

fn extend_identity(map: &mut Vec<usize>, n: usize)
    requires
        old(map)@.len() + n <= usize::MAX,
    ensures
        final(map)@ == extended(old(map)@, n as int),
{
    let start: usize = map.len();
    let ghost before = map@;
    assert(extended(before, 0) =~= before);
    for i in 0..n
        invariant
            start == before.len(),
            start + n <= usize::MAX,
            map@ == extended(before, i as int),
    {
        map.push(start + i);
        assert(map@ =~= extended(before, i + 1));
    }
}

fn rewrite(map: &Vec<usize>, recs: &Vec<usize>) -> (r: Vec<usize>)
    requires
        map_within(map@),
        forall|i: int| 0 <= i < recs@.len() ==> 1 <= #[trigger] recs@[i] <= map@.len(),
    ensures
        r@ == rewritten_all(map@, recs@),
{
    let mut r: Vec<usize> = Vec::new();
    for i in 0..recs.len()
        invariant
            map_within(map@),
            forall|i: int| 0 <= i < recs@.len() ==> 1 <= #[trigger] recs@[i] <= map@.len(),
            r@ == rewritten_all(map@, recs@.take(i as int)),
    {
        let k: usize = recs[i];
        assert(1 <= recs@[i as int] <= map@.len());
        let at: usize = map.len() - k;
        assert(map@[at as int] < map@.len());
        r.push(map.len() - map[at]);
        assert(r@ =~= rewritten_all(map@, recs@.take(i + 1)));
    }
    assert(recs@.take(recs@.len() as int) =~= recs@);
    r
}

pub proof fn lemma_extended_within(map: Seq<usize>, n: int)
    requires
        map_within(map),
        0 <= n,
        map.len() + n <= usize::MAX,
    ensures
        map_within(extended(map, n)),
        extended(map, n).len() == map.len() + n,
{
    let after = extended(map, n);
    assert forall|i: int| 0 <= i < after.len() implies (#[trigger] after[i]) < after.len() by {
        if i < map.len() {
            assert(map[i] < map.len());
        }
    }
}

proof fn lemma_two_used(adj: spec_fn(int, int) -> bool, classes: Seq<usize>)
    requires
        color_count(ints(classes)) == 2,
    ensures
        classes.len() >= 2 || exists|j: int| 0 <= j < classes.len() && classes[j] == 1,
        forall|j: int| 0 <= j < classes.len() ==> (#[trigger] classes[j]) <= 1,
{
    assert forall|j: int| 0 <= j < classes.len() implies (#[trigger] classes[j]) <= 1 by {
        lemma_color_count(ints(classes), j);
    }
    lemma_color_count_attained(ints(classes));
    let j = choose|j: int| 0 <= j < classes.len() && #[trigger] ints(classes)[j] == 1;
    assert(classes[j] == 1);
}

proof fn lemma_color_count_attained(colors: Seq<int>)
    requires
        color_count(colors) > 0,
    ensures
        exists|j: int| 0 <= j < colors.len() && #[trigger] colors[j] == color_count(colors) - 1,
    decreases colors.len(),
{
    if color_count(colors.drop_last()) < colors.last() + 1 {
        assert(colors[colors.len() - 1] == color_count(colors) - 1);
    } else {
        lemma_color_count_attained(colors.drop_last());
        let j = choose|j: int|
            0 <= j < colors.drop_last().len() && #[trigger] colors.drop_last()[j] == color_count(
                colors,
            ) - 1;
        assert(colors[j] == color_count(colors) - 1);
    }
}

/// Emit one round, measured once and then `again` more times.
#[verifier::spinoff_prover]
fn expand_segment<S: GateSink>(
    checks: Vec<PauliAxis<usize>>,
    again: Option<usize>,
    base: usize,
    out: &mut S,
    map: &mut Vec<usize>,
    Ghost(s): Ghost<Seq<GateModel<usize>>>,
)
    requires
        s.len() > 0,
        s[0] is MPP,
        axes(checks@) == leading_checks(s),
        again == repeats(s),
        again is Some ==> 2 * checks@.len() <= usize::MAX,
        round_fits(axes(checks@), base as int),
        map_within(old(map)@),
        old(map)@.len() + record_total(s) <= usize::MAX,
    ensures
        ({
            let step = lrc_step(s, base as int, old(map)@);
            &&& final(out).pushed() == old(out).pushed() + step.0
            &&& final(map)@ == step.1
            &&& map_within(final(map)@)
            &&& final(map)@.len() == old(map)@.len() + record_total(s.take(step.2))
        }),
{
    let ghost model = axes(checks@);
    let ghost map0 = map@;
    let ghost before = out.pushed();
    let m: usize = checks.len();
    let ghost n: int = match again {
        Some(n) => n as int,
        None => 0,
    };
    let ghost used: int = m + match again {
        Some(_) => 1int,
        None => 0,
    };
    proof {
        lemma_segment_total(s);
        lemma_total_skip(Counted::Records, s, used);
        assert((1 + n) * m == n * m + m) by (nonlinear_arith);
        assert(n <= n * m) by (nonlinear_arith)
            requires
                n >= 0,
                m >= 1,
        ;
        assert(n * m >= 0) by (nonlinear_arith)
            requires
                n >= 0,
                m >= 1,
        ;
    }
    let r: usize = match again {
        Some(n) => 1 + n,
        None => 1,
    };
    let classes = conflict_classes(&checks);
    let count: usize = count_colors(&classes);
    let ghost cs = ints(classes@);
    if count == 2 && r >= 2 {
        proof {
            lemma_two_used(meeting(model, true), classes@);
            assert(m >= 2) by {
                if m == 1 {
                    let j = choose|j: int| 0 <= j < classes@.len() && classes@[j] == 1;
                    lemma_single_class(meeting(model, true), cs);
                }
            }
            assert(r < usize::MAX) by {
                assert(2 * (1 + n) <= (1 + n) * m) by (nonlinear_arith)
                    requires
                        n >= 0,
                        m >= 2,
                ;
            }
            assert forall|j: int| 0 <= j < cs.len() implies 0 <= #[trigger] cs[j] <= 1 by {
                assert(classes@[j] <= 1);
            }
            lemma_positions(cs, map0.len() as int, r as nat, r as int);
        }
        let seg = StaggeredSeg::new(checks, classes, base);
        seg.emit(r, out, map);
        proof {
            let after = map0 + record_positions(cs, map0.len() as int, r as nat);
            assert forall|i: int| 0 <= i < after.len() implies (#[trigger] after[i])
                < after.len() by {
                if i < map0.len() {
                    assert(map0[i] < map0.len());
                } else {
                    assert(after[i] == record_positions(cs, map0.len() as int, r as nat)[i
                        - map0.len()]);
                }
            }
        }
    } else {
        emit_round_sequential(&checks, base, out);
        let ghost round = layered(sequential_layers(model, base as int));
        match again {
            Some(n) => {
                let mut body: Vec<PhysicalGate<usize>> = Vec::new();
                assert(gate_models(body@) =~= Seq::<GateModel<usize>>::empty());
                emit_round_sequential(&checks, base, &mut body);
                assert(gate_models(body@) =~= round);
                let compare = round_detector_gates(m);
                let body = join_layers(body, compare);
                out.push_gate(PhysicalGate::Repeat(n, body));
                assert(out.pushed() =~= before + round.push(
                    GateModel::Repeat(n, round + round_detectors(m as nat)),
                ));
            },
            None => {},
        }
        extend_identity(map, r * m);
        proof {
            lemma_extended_within(map0, r * m);
        }
    }
}

/// The class of a check that is alone is 0.
proof fn lemma_single_class(adj: spec_fn(int, int) -> bool, cs: Seq<int>)
    requires
        cs == class_colors(adj, 1),
        cs.len() == 1,
        !adj(0, 0),
    ensures
        cs[0] == 0,
{
    let c = seq![0int];
    assert(crate::coloring::two_coloring(adj, 1, c));
    let least = crate::coloring::lemma_least_exists(adj, 1);
    assert(crate::coloring::least_two_coloring(adj, 1, cs));
    assert(crate::coloring::lexicographically_le(cs, c));
    assert(0 <= cs[0] <= 1);
    assert(c[0] == 0);
}

fn round_detector_gates(m: usize) -> (r: Vec<PhysicalGate<usize>>)
    requires
        2 * m <= usize::MAX,
    ensures
        gate_models(r@) == round_detectors(m as nat),
{
    let mut r: Vec<PhysicalGate<usize>> = Vec::new();
    let ghost goal = round_detectors(m as nat);
    assert(gate_models(r@) =~= goal.take(0));
    for k in 0..m
        invariant
            2 * m <= usize::MAX,
            goal == round_detectors(m as nat),
            gate_models(r@) == goal.take(k as int),
    {
        let near: usize = k + 1;
        let far: usize = m + k + 1;
        let recs: Vec<usize> = vec![near, far];
        assert(recs@ =~= seq![(k + 1) as usize, (m + k + 1) as usize]);
        let g = PhysicalGate::DeclareDetector(recs);
        proof {
            lemma_gate_models_push(r@, g);
            assert(goal.take(k + 1) =~= goal.take(k as int).push(gate_model(g)));
        }
        r.push(g);
    }
    assert(goal.take(goal.len() as int) =~= goal);
    r
}

/// Collect the round that starts at gate `i`.
fn collect_round(gates: &Vec<PhysicalGate<usize>>, i: usize, base: usize) -> (checks: Vec<
    PauliAxis<usize>,
>)
    requires
        i < gates@.len(),
        rounds_fit(gate_models(gates@), base as int),
        gate_models(gates@)[i as int] is MPP,
        i == 0 || !(gate_models(gates@)[i - 1] is MPP),
    ensures
        axes(checks@) == leading_checks(gate_models(gates@).skip(i as int)),
        round_fits(axes(checks@), base as int),
        0 < checks@.len() <= gates@.len() - i,
{
    let ghost s = gate_models(gates@);
    let mut checks: Vec<PauliAxis<usize>> = Vec::new();
    let mut j: usize = i;
    proof {
        lemma_gate_models(gates@);
        assert(axes(checks@) =~= Seq::empty());
        assert(Seq::<SignedPauli<usize>>::empty() + leading_checks(s.skip(i as int))
            =~= leading_checks(s.skip(i as int)));
        if i > 0 {
            assert(s.take(i as int).last() == s[i - 1]);
        }
        assert(trailing_checks(s.take(i as int)) =~= axes(checks@));
    }
    loop
        invariant
            s == gate_models(gates@),
            s.len() == gates@.len(),
            forall|k: int| 0 <= k < gates@.len() ==> #[trigger] s[k] == gate_model(gates@[k]),
            s[i as int] is MPP,
            i < gates@.len(),
            i <= j <= gates@.len(),
            checks@.len() == j - i,
            axes(checks@) + leading_checks(s.skip(j as int)) == leading_checks(s.skip(i as int)),
            axes(checks@) == trailing_checks(s.take(j as int)),
        ensures
            j <= gates@.len(),
            i < j,
            checks@.len() == j - i,
            axes(checks@) == leading_checks(s.skip(i as int)),
            axes(checks@) == trailing_checks(s.take(j as int)),
        decreases gates@.len() - j,
    {
        if j >= gates.len() {
            proof {
                assert(axes(checks@) + Seq::<SignedPauli<usize>>::empty() =~= axes(checks@));
            }
            break;
        }
        assert(s[j as int] == gate_model(gates@[j as int]));
        assert(s.skip(j as int)[0] == s[j as int]);
        match &gates[j] {
            PhysicalGate::MPP(p) => {
                let ghost before = axes(checks@);
                let check = p.clone();
                checks.push(check);
                proof {
                    assert(axes(checks@) =~= before.push(check@));
                    assert(s.skip(j as int).drop_first() =~= s.skip(j + 1));
                    assert(s.take(j + 1).drop_last() =~= s.take(j as int));
                    assert(before + (seq![check@] + leading_checks(s.skip(j + 1))) =~= axes(
                        checks@,
                    ) + leading_checks(s.skip(j + 1)));
                }
                j = j + 1;
            },
            _ => {
                proof {
                    assert(axes(checks@) + Seq::<SignedPauli<usize>>::empty() =~= axes(checks@));
                }
                break;
            },
        }
    }
    proof {
        lemma_rounds_fit_take(s, base as int, j as int);
        lemma_open_round_fits(s.take(j as int), base as int);
    }
    checks
}

/// Whether what comes after the round at the start of `rest` repeats it.
fn find_repeat(gates: &Vec<PhysicalGate<usize>>, j: usize, checks: &Vec<PauliAxis<usize>>) -> (r:
    Option<usize>)
    ensures
        r == if j < gates@.len() {
            match gate_model(gates@[j as int]) {
                GateModel::Repeat(n, body) => if body_repeats(body, axes(checks@)) {
                    Some(n)
                } else {
                    None
                },
                _ => None,
            }
        } else {
            None
        },
        r is Some ==> 2 * checks@.len() <= usize::MAX,
{
    if j < gates.len() {
        match &gates[j] {
            PhysicalGate::Repeat(n, body) => {
                let size: usize = body.len();
                proof {
                    lemma_gate_models(body@);
                }
                if repeat_matches(body, checks) {
                    Some(*n)
                } else {
                    None
                }
            },
            _ => None,
        }
    } else {
        None
    }
}

/// Emit a gate that is not a measured check.
fn expand_other<S: GateSink>(
    gate: &PhysicalGate<usize>,
    base: usize,
    out: &mut S,
    map: &mut Vec<usize>,
    Ghost(s): Ghost<Seq<GateModel<usize>>>,
)
    requires
        s.len() > 0,
        s[0] == gate_model(*gate),
        !(s[0] is MPP),
        rounds_fit(seq![s[0]], base as int),
        offsets_exist(s[0], old(map)@.len() as int),
        map_within(old(map)@),
        old(map)@.len() + record_total(s) <= usize::MAX,
    ensures
        ({
            let step = lrc_step(s, base as int, old(map)@);
            &&& final(out).pushed() == old(out).pushed() + step.0
            &&& final(map)@ == step.1
            &&& map_within(final(map)@)
            &&& final(map)@.len() == old(map)@.len() + gate_total(Counted::Records, s[0])
        }),
{
    let ghost before = out.pushed();
    let ghost map0 = map@;
    let ghost step = lrc_step(s, base as int, map0);
    proof {
        lemma_total_first(Counted::Records, s);
    }
    match gate {
        PhysicalGate::Measure(b, q, i) => {
            extend_identity(map, 1);
            out.push_gate(PhysicalGate::Measure(*b, *q, *i));
            proof {
                lemma_extended_within(map0, 1);
            }
        },
        PhysicalGate::XCorrection(k, q) => {
            let recs: Vec<usize> = vec![*k];
            assert(recs@ =~= seq![*k]);
            let after = rewrite(map, &recs);
            assert(after@[0] == rewritten(map0, *k));
            out.push_gate(PhysicalGate::XCorrection(after[0], *q));
        },
        PhysicalGate::DeclareDetector(recs) => {
            let after = rewrite(map, recs);
            out.push_gate(PhysicalGate::DeclareDetector(after));
        },
        PhysicalGate::DeclareObservable(index, recs) => {
            let after = rewrite(map, recs);
            out.push_gate(PhysicalGate::DeclareObservable(*index, after));
        },
        PhysicalGate::Repeat(n, body) => {
            let records: usize = match count_gate_checked(Counted::Records, gate) {
                Some(k) => k,
                None => 0,
            };
            extend_identity(map, records);
            proof {
                lemma_extended_within(map0, records as int);
                assert(rounds_fit(gate_models(body@), base as int));
            }
            let expanded = expand_sequential_only(body, base);
            out.push_gate(PhysicalGate::Repeat(*n, expanded));
        },
        g => {
            let copy = g.clone();
            out.push_gate(copy);
        },
    }
    assert(out.pushed() =~= before + step.0);
}

/// Deal with the gates at position `i`; the position afterwards.
#[verifier::spinoff_prover]
fn expand_step<S: GateSink>(
    gates: &Vec<PhysicalGate<usize>>,
    i: usize,
    base: usize,
    out: &mut S,
    map: &mut Vec<usize>,
) -> (next: usize)
    requires
        i < gates@.len(),
        i == 0 || !(gate_models(gates@)[i - 1] is MPP) || !(gate_models(gates@)[i as int] is MPP),
        rounds_fit(gate_models(gates@), base as int),
        offsets_resolve(gate_models(gates@).skip(i as int), old(map)@.len() as int),
        map_within(old(map)@),
        old(map)@.len() + record_total(gate_models(gates@).skip(i as int)) <= usize::MAX,
    ensures
        ({
            let rest = gate_models(gates@).skip(i as int);
            let step = lrc_step(rest, base as int, old(map)@);
            &&& i < next <= gates@.len()
            &&& next == i + step.2
            &&& final(out).pushed() == old(out).pushed() + step.0
            &&& final(map)@ == step.1
            &&& map_within(final(map)@)
            &&& final(map)@.len() == old(map)@.len() + record_total(rest.take(step.2))
            &&& next == gates@.len() || !(rest[step.2 - 1] is MPP) || !(rest[step.2] is MPP)
        }),
{
    let count: usize = gates.len();
    let ghost s = gate_models(gates@);
    let ghost rest = s.skip(i as int);
    proof {
        lemma_gate_models(gates@);
        assert(i < count);
        assert(s[i as int] == gate_model(gates@[i as int]));
        assert(rest[0] == s[i as int]);
        lemma_leading(rest);
    }
    match &gates[i] {
        PhysicalGate::MPP(_) => {
            let checks = collect_round(gates, i, base);
            let m: usize = checks.len();
            let again = find_repeat(gates, i + m, &checks);
            proof {
                if i + m < gates@.len() {
                    assert(s[i + m] == gate_model(gates@[i + m]));
                    assert(rest[m as int] == s[i + m]);
                }
                assert(again == repeats(rest));
                lemma_segment_total(rest);
            }
            expand_segment(checks, again, base, out, map, Ghost(rest));
            if again.is_some() {
                i + m + 1
            } else {
                i + m
            }
        },
        g => {
            proof {
                lemma_rounds_fit_take(s, base as int, i + 1);
                assert(s.take(i + 1).last() == s[i as int]);
                lemma_fits_one(s.take(i + 1), base as int);
                lemma_total_push(Counted::Records, Seq::<GateModel<usize>>::empty(), rest[0]);
                assert(Seq::<GateModel<usize>>::empty().push(rest[0]) =~= rest.take(1));
                assert(total(Counted::Records, Seq::<GateModel<usize>>::empty()) == 0);
            }
            expand_other(g, base, out, map, Ghost(rest));
            i + 1
        },
    }
}

proof fn lemma_lrc_advance(
    s: Seq<GateModel<usize>>,
    i: int,
    next: int,
    base: int,
    map: Seq<usize>,
    out: Seq<GateModel<usize>>,
)
    requires
        0 <= i < next <= s.len(),
        next == i + lrc_step(s.skip(i), base, map).2,
        offsets_resolve(s.skip(i), map.len() as int),
    ensures
        ({
            let rest = s.skip(i);
            let step = lrc_step(rest, base, map);
            let tail = lrc(s.skip(next), base, step.1);
            &&& lrc(rest, base, map).1 == tail.1
            &&& out + lrc(rest, base, map).0 == (out + step.0) + tail.0
            &&& record_total(s.take(next)) == record_total(s.take(i)) + record_total(
                rest.take(step.2),
            )
            &&& offsets_resolve(s.skip(next), (map.len() + record_total(rest.take(step.2))) as int)
            &&& rest[step.2 - 1] == s[next - 1]
            &&& next < s.len() ==> rest[step.2] == s[next]
        }),
{
    let rest = s.skip(i);
    let step = lrc_step(rest, base, map);
    let used = step.2;
    lemma_offsets_skip(rest, map.len() as int, used);
    assert(rest.skip(used) =~= s.skip(next));
    lemma_total_skip(Counted::Records, s.take(next), i);
    assert(s.take(next).take(i) =~= s.take(i));
    assert(s.take(next).skip(i) =~= rest.take(used));
    let tail = lrc(s.skip(next), base, step.1);
    assert(out + (step.0 + tail.0) =~= (out + step.0) + tail.0);
}

/// Lower every round of `gates` to the staggered or the sequential schedule,
/// rewriting record offsets through the record map. `base` is the first ancilla
/// id; the j-th check of every round uses ancilla `base + j`. `map` carries the
/// record map across calls, so that a circuit can be expanded in consecutive
/// parts, as long as no round straddles a boundary.
pub fn expand_gates_lrc_with_map<S: GateSink>(
    gates: &Vec<PhysicalGate<usize>>,
    base: usize,
    out: &mut S,
    map: &mut Vec<usize>,
)
    requires
        rounds_fit(gate_models(gates@), base as int),
        offsets_resolve(gate_models(gates@), old(map)@.len() as int),
        map_within(old(map)@),
        old(map)@.len() + record_total(gate_models(gates@)) <= usize::MAX,
    ensures
        final(out).pushed() == old(out).pushed() + lrc(
            gate_models(gates@),
            base as int,
            old(map)@,
        ).0,
        final(map)@ == lrc(gate_models(gates@), base as int, old(map)@).1,
        map_within(final(map)@),
        final(map)@.len() == old(map)@.len() + record_total(gate_models(gates@)),
{
    let ghost s = gate_models(gates@);
    let ghost before = out.pushed();
    let ghost whole = lrc(s, base as int, map@);
    let ghost n0 = map@.len();
    let mut i: usize = 0;
    proof {
        lemma_gate_models(gates@);
        assert(s.skip(0) =~= s);
        assert(s.take(0) =~= Seq::<GateModel<usize>>::empty());
        assert(out.pushed() + whole.0 =~= before + whole.0);
    }
    while i < gates.len()
        invariant
            s == gate_models(gates@),
            s.len() == gates@.len(),
            forall|k: int| 0 <= k < gates@.len() ==> #[trigger] s[k] == gate_model(gates@[k]),
            i <= gates@.len(),
            i == 0 || i == s.len() || !(s[i - 1] is MPP) || !(s[i as int] is MPP),
            rounds_fit(s, base as int),
            offsets_resolve(s.skip(i as int), map@.len() as int),
            map_within(map@),
            map@.len() == n0 + record_total(s.take(i as int)),
            n0 + record_total(s) <= usize::MAX,
            whole.1 == lrc(s.skip(i as int), base as int, map@).1,
            before + whole.0 == out.pushed() + lrc(s.skip(i as int), base as int, map@).0,
        decreases gates@.len() - i,
    {
        let ghost map0 = map@;
        let ghost out0 = out.pushed();
        proof {
            assert(s.skip(i as int)[0] == s[i as int]);
            lemma_total_skip(Counted::Records, s, i as int);
        }
        let next: usize = expand_step(gates, i, base, out, map);
        proof {
            lemma_lrc_advance(s, i as int, next as int, base as int, map0, out0);
        }
        i = next;
    }
    proof {
        assert(s.skip(i as int) =~= Seq::<GateModel<usize>>::empty());
        assert(s.take(i as int) =~= s);
        assert(out.pushed() + Seq::<GateModel<usize>>::empty() =~= out.pushed());
    }
}

proof fn lemma_fits_one(s: Seq<GateModel<usize>>, base: int)
    requires
        rounds_fit(s, base),
        s.len() > 0,
        !(s.last() is MPP),
    ensures
        rounds_fit(seq![s.last()], base),
{
    assert(seq![s.last()].drop_last() =~= Seq::<GateModel<usize>>::empty());
    assert(rounds_fit(Seq::<GateModel<usize>>::empty(), base));
}

/// [`expand_gates_lrc_with_map`] for a whole circuit.
pub fn expand_gates_lrc_into<S: GateSink>(
    gates: &Vec<PhysicalGate<usize>>,
    base: usize,
    out: &mut S,
)
    requires
        rounds_fit(gate_models(gates@), base as int),
        offsets_resolve(gate_models(gates@), 0),
        record_total(gate_models(gates@)) <= usize::MAX,
    ensures
        final(out).pushed() == old(out).pushed() + lrc(
            gate_models(gates@),
            base as int,
            Seq::empty(),
        ).0,
{
    let mut map: Vec<usize> = Vec::new();
    assert(map@ =~= Seq::<usize>::empty());
    expand_gates_lrc_with_map(gates, base, out, &mut map);
}

/// The first ancilla: one past the largest qubit of the circuit.
pub open spec fn ancilla_base(s: Seq<GateModel<usize>>) -> int {
    match highest(all_qubits(s)) {
        Some(q) => q + 1,
        None => 0,
    }
}

/// The circuit with every round lowered to ancilla gadgets.
pub open spec fn sec_gates(schedule: SecSchedule, s: Seq<GateModel<usize>>) -> Seq<GateModel<usize>> {
    match schedule {
        SecSchedule::Lrc => lrc(s, ancilla_base(s), Seq::empty()).0,
        SecSchedule::Legacy => all_replaced(SecSchedule::Legacy, s, ancilla_base(s)),
    }
}

/// The circuit can be lowered: the ancillas and the records fit the machine
/// integers, and record offsets that have to be rewritten point at records.
pub open spec fn can_lower(schedule: SecSchedule, s: Seq<GateModel<usize>>) -> bool {
    &&& ancilla_base(s) <= usize::MAX
    &&& rounds_fit(s, ancilla_base(s))
    &&& schedule is Lrc ==> offsets_resolve(s, 0) && record_total(s) <= usize::MAX
}

impl PhysicalCircuit<usize> {
    /// Lower every `MPP` to an ancilla-based, layered syndrome-extraction gadget.
    /// An `MPP` over the sites `(q_i, P_i)` becomes a reset of an ancilla, a
    /// controlled `P_i` on each `q_i`, and a measurement of the ancilla, inverted
    /// for a negative check; it yields the one record that the `MPP` would have.
    /// The j-th check of every round uses the j-th qubit past those of the circuit.
    pub fn expand_mpp_to_sec(&self, schedule: SecSchedule) -> (r: PhysicalCircuit<usize>)
        requires
            can_lower(schedule, self@),
        ensures
            r@ == sec_gates(schedule, self@),
    {
        let mut gates: Vec<PhysicalGate<usize>> = Vec::new();
        self.expand_mpp_to_sec_into(schedule, &mut gates);
        assert(gate_models(gates@) =~= sec_gates(schedule, self@));
        PhysicalCircuit { gates }
    }

    /// [`PhysicalCircuit::expand_mpp_to_sec`], every gate handed to `out` as it is
    /// produced.
    pub fn expand_mpp_to_sec_into<S: GateSink>(&self, schedule: SecSchedule, out: &mut S)
        requires
            can_lower(schedule, self@),
        ensures
            final(out).pushed() == old(out).pushed() + sec_gates(schedule, self@),
    {
        let base: usize = match max_qubit(&self.gates) {
            Some(q) => q + 1,
            None => 0,
        };
        match schedule {
            SecSchedule::Lrc => expand_gates_lrc_into(&self.gates, base, out),
            SecSchedule::Legacy => expand_gates_into(&self.gates, base, out),
        }
    }

    /// The `TICK` count of the lowered circuit.
    pub fn sec_tick_count(&self, schedule: SecSchedule) -> (r: usize)
        requires
            can_lower(schedule, self@),
            tick_total(sec_gates(schedule, self@)) <= usize::MAX,
        ensures
            r == tick_total(sec_gates(schedule, self@)),
    {
        let mut counter = TickCounter::new();
        self.expand_mpp_to_sec_into(schedule, &mut counter);
        assert(counter.pushed() =~= sec_gates(schedule, self@));
        counter.ticks().unwrap()
    }

    /// The circuit as stim text, lowered first where `schedule` says so, and the
    /// `TICK` count of what was written.
    pub fn write_stim(self, schedule: Option<SecSchedule>) -> (r: (String, usize))
        requires
            schedule matches Some(how) ==> can_lower(how, self@),
            tick_total(written(schedule, self@)) <= usize::MAX,
        ensures
            r.0@ == stim_text(written(schedule, self@), Seq::empty()),
            r.1 == tick_total(written(schedule, self@)),
    {
        let mut writer = StimWriter::new();
        match schedule {
            Some(how) => self.expand_mpp_to_sec_into(how, &mut writer),
            None => extend_gates(&mut writer, self.gates),
        }
        proof {
            assert(writer.pushed() =~= written(schedule, self@));
        }
        let (text, ticks) = writer.finish();
        (text, ticks.unwrap())
    }
}

/// What is written of a circuit.
pub open spec fn written(schedule: Option<SecSchedule>, s: Seq<GateModel<usize>>) -> Seq<
    GateModel<usize>,
> {
    match schedule {
        Some(how) => sec_gates(how, s),
        None => s,
    }
}

/// What is written of a circuit is the text of the circuit that lowering gives, or of the
/// circuit itself where it is not lowered, and the counts agree: that of the writer, that
/// of the lowered circuit, and that of lowering for the count alone.
pub proof fn law_writing_shows_the_lowered_circuit(
    schedule: Option<SecSchedule>,
    c: PhysicalCircuit<usize>,
    e: PhysicalCircuit<usize>,
)
    requires
        schedule matches Some(how) ==> e@ == sec_gates(how, c@),
        schedule is None ==> e@ == c@,
    ensures
        stim_text(written(schedule, c@), Seq::empty()) == stim_text(e@, Seq::empty()),
        tick_total(written(schedule, c@)) == tick_total(e@),
        schedule matches Some(how) ==> tick_total(sec_gates(how, c@)) == tick_total(e@),
{
}

/// Whether every round of the gates fits.
pub(crate) fn check_rounds_fit(gates: &Vec<PhysicalGate<usize>>, base: usize) -> (r: bool)
    ensures
        r == rounds_fit(gate_models(gates@), base as int),
    decreases *gates,
{
    let ghost s = gate_models(gates@);
    proof {
        lemma_gate_models(gates@);
        assert(s.take(0) =~= Seq::<GateModel<usize>>::empty());
        assert(round_sites(Seq::empty(), 0) =~= Seq::empty());
    }
    let mut checks: usize = 0;
    let mut total: usize = 0;
    let mut i: usize = 0;
    while i < gates.len()
        invariant
            s == gate_models(gates@),
            s.len() == gates@.len(),
            forall|k: int| 0 <= k < gates@.len() ==> #[trigger] s[k] == gate_model(gates@[k]),
            i <= gates@.len(),
            rounds_fit(s.take(i as int), base as int),
            checks == trailing_checks(s.take(i as int)).len(),
            total == round_sites(trailing_checks(s.take(i as int)), checks as nat).len(),
        decreases gates@.len() - i,
    {
        let ghost t = s.take(i as int);
        let ghost now = s.take(i + 1);
        proof {
            assert(s[i as int] == gate_model(gates@[i as int]));
            assert(now.drop_last() =~= t);
            if !rounds_fit(now, base as int) && rounds_fit(s, base as int) {
                lemma_rounds_fit_take(s, base as int, i + 1);
            }
        }
        match &gates[i] {
            PhysicalGate::MPP(p) => {
                let weight: usize = sites(p).len();
                proof {
                    let c = trailing_checks(t);
                    let d = trailing_checks(now);
                    lemma_sites_prefix(c, d, c.len());
                    assert(acts(d, c.len() as int) == active_sites(p@.sites));
                }
                let more: usize = match total.checked_add(weight) {
                    Some(k) => k,
                    None => return false,
                };
                let members: usize = match checks.checked_add(1) {
                    Some(k) => k,
                    None => return false,
                };
                if base.checked_add(members).is_none() || members.checked_add(more).is_none() {
                    return false;
                }
                total = more;
                checks = members;
            },
            PhysicalGate::Repeat(_, body) => {
                if !check_rounds_fit(body, base) {
                    return false;
                }
                total = 0;
                checks = 0;
            },
            _ => {
                total = 0;
                checks = 0;
            },
        }
        i = i + 1;
    }
    assert(s.take(s.len() as int) =~= s);
    true
}

proof fn lemma_sites_prefix(c: Seq<SignedPauli<usize>>, d: Seq<SignedPauli<usize>>, n: nat)
    requires
        n <= c.len() <= d.len(),
        forall|i: int| 0 <= i < c.len() ==> #[trigger] c[i] == d[i],
    ensures
        round_sites(c, n) == round_sites(d, n),
    decreases n,
{
    if n > 0 {
        lemma_sites_prefix(c, d, (n - 1) as nat);
        assert(c[n - 1] == d[n - 1]);
        assert(check_sites(c, n - 1) =~= check_sites(d, n - 1));
    }
}

fn check_offsets(recs: &Vec<usize>, n: usize) -> (r: bool)
    ensures
        r == steps_back(recs@, n as int),
{
    let mut i: usize = 0;
    while i < recs.len()
        invariant
            i <= recs@.len(),
            forall|k: int| 0 <= k < i ==> 1 <= #[trigger] recs@[k] <= n,
        decreases recs@.len() - i,
    {
        if recs[i] < 1 || recs[i] > n {
            assert(!(1 <= recs@[i as int] <= n));
            return false;
        }
        i = i + 1;
    }
    true
}

/// Whether the record offsets of the gates point at records and the records can
/// be counted.
fn check_offsets_resolve(gates: &Vec<PhysicalGate<usize>>) -> (r: bool)
    ensures
        r == (offsets_resolve(gate_models(gates@), 0) && record_total(gate_models(gates@))
            <= usize::MAX),
{
    let ghost s = gate_models(gates@);
    proof {
        lemma_gate_models(gates@);
        assert(s.skip(0) =~= s);
        assert(s.take(0) =~= Seq::<GateModel<usize>>::empty());
    }
    let mut n: usize = 0;
    let mut i: usize = 0;
    while i < gates.len()
        invariant
            s == gate_models(gates@),
            s.len() == gates@.len(),
            forall|k: int| 0 <= k < gates@.len() ==> #[trigger] s[k] == gate_model(gates@[k]),
            i <= gates@.len(),
            n == record_total(s.take(i as int)),
            offsets_resolve(s, 0) == offsets_resolve(s.skip(i as int), n as int),
        decreases gates@.len() - i,
    {
        let ghost rest = s.skip(i as int);
        proof {
            assert(s[i as int] == gate_model(gates@[i as int]));
            assert(rest[0] == s[i as int]);
            assert(rest.drop_first() =~= s.skip(i + 1));
            crate::physical::lemma_total_take(Counted::Records, s, i as int);
            lemma_total_push(Counted::Records, s.take(i as int), s[i as int]);
            assert(s.take(i + 1) =~= s.take(i as int).push(s[i as int]));
        }
        let fine: bool = match &gates[i] {
            PhysicalGate::XCorrection(k, _) => 1 <= *k && *k <= n,
            PhysicalGate::DeclareDetector(recs) => {
                check_offsets(recs, n)
            },
            PhysicalGate::DeclareObservable(k, recs) => {
                check_offsets(recs, n)
            },
            _ => true,
        };
        assert(fine == offsets_exist(rest[0], n as int));
        if !fine {
            return false;
        }
        let here: usize = match count_gate_checked(Counted::Records, &gates[i]) {
            Some(k) => k,
            None => return false,
        };
        n = match n.checked_add(here) {
            Some(k) => k,
            None => return false,
        };
        i = i + 1;
    }
    assert(s.take(s.len() as int) =~= s);
    true
}

impl PhysicalCircuit<usize> {
    /// Whether the circuit can be lowered under `schedule`.
    pub fn can_expand(&self, schedule: SecSchedule) -> (r: bool)
        ensures
            r == can_lower(schedule, self@),
    {
        let base: usize = match max_qubit(&self.gates) {
            Some(q) => if q == usize::MAX {
                return false;
            } else {
                q + 1
            },
            None => 0,
        };
        check_rounds_fit(&self.gates, base) && match schedule {
            SecSchedule::Lrc => check_offsets_resolve(&self.gates),
            SecSchedule::Legacy => true,
        }
    }
}

} // verus!
