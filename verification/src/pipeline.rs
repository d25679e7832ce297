//! Lowering checks to stim text one deformation at a time.

use vstd::prelude::*;

use crate::circuit_to_checks::{BlockKind, Deformation, DeformedCheckSequence};
#[allow(unused_imports)]
use crate::graph_to_checks::check_views;
use crate::keyed::sorted_insert;
#[allow(unused_imports)]
use crate::keyed::increasing;
#[allow(unused_imports)]
use crate::lowering::{
    all_byproducts, byproducts, check_qubits, comparisons, deformation_gates,
    deformation_lowerable, deformations_gates, in_order, is_in_order, lemma_add_contains,
    lemma_in_order, lemma_push_contains, lowerable, lowered, one_round, readouts, resets,
    rounds_of, stats_of, touched, touched_edges,
};
use crate::lowering::{
    collect_qubits, count_edges, one_ppm_to_physical_circuit, push_resets, CircuitStats, MergedQubit,
};
use crate::pbc::Pauli;
#[allow(unused_imports)]
use crate::pbc::SignedPauli;
use crate::physical::{
    count_checked, count_rounds_checked, flatten_gates, widest_syndrome_round, Counted, Interner,
    PhysicalGate,
};
#[allow(unused_imports)]
use crate::physical::{
    all_qubits, flat_gate, flat_gates, flattened, gate_models, gate_qubits, gate_total, highest,
    lemma_highest, lemma_flat_gates_stable, lemma_gate_models, lemma_note_all_add,
    lemma_note_all_distinct, lemma_note_all_prefix, lemma_noted_iff, lemma_total_add, max_nat,
    note_all, number_of, record_total, round_total, tick_total, trailing_run, widest_round,
    GateModel,
};
use crate::sec_schedule::{
    check_rounds_fit, expand_gates_into, expand_gates_lrc_with_map, SecSchedule,
};
#[allow(unused_imports)]
use crate::sec_schedule::{
    all_replaced, ancilla_base, leading_checks, lemma_leading, lrc, lrc_step, map_within,
    offsets_exist, offsets_resolve, repeats, rounds_fit, rounds_replaced, trailing_checks,
    written,
};
use crate::stim::{extend_gates, GateSink, StimWriter, TickCounter};
#[allow(unused_imports)]
use crate::stim::stim_text;

#[allow(unused_imports)]
use crate::graph_to_checks::CorrectionSupport;
#[allow(unused_imports)]
use crate::physical::PhysicalCircuit;

verus! {

// ---------------------------------------------------------------------------
// Cutting circuits
// ---------------------------------------------------------------------------
/// The gates do not end within a round of checks.
pub open spec fn closed_off<Q>(s: Seq<GateModel<Q>>) -> bool {
    s.len() == 0 || !(s.last() is MPP)
}

/// Rounds add up where no round straddles the cut.
pub proof fn lemma_round_total_cut<Q>(s: Seq<GateModel<Q>>, t: Seq<GateModel<Q>>)
    requires
        closed_off(s),
    ensures
        round_total(s + t) == round_total(s) + round_total(t),
    decreases t.len(),
{
    if t.len() == 0 {
        assert(s + t =~= s);
    } else {
        let u = t.drop_last();
        lemma_round_total_cut(s, u);
        assert((s + t).drop_last() =~= s + u);
        if u.len() > 0 {
            assert((s + u).last() == u.last());
        } else {
            assert(s + u =~= s);
        }
    }
}

proof fn lemma_trailing_run_cut<Q>(s: Seq<GateModel<Q>>, t: Seq<GateModel<Q>>)
    requires
        closed_off(s),
    ensures
        trailing_run(s + t) == trailing_run(t),
    decreases t.len(),
{
    if t.len() == 0 {
        assert(s + t =~= s);
    } else {
        lemma_trailing_run_cut(s, t.drop_last());
        assert((s + t).drop_last() =~= s + t.drop_last());
    }
}

/// The widest round is in one of the parts where no round straddles the cut.
pub proof fn lemma_widest_round_cut<Q>(s: Seq<GateModel<Q>>, t: Seq<GateModel<Q>>)
    requires
        closed_off(s),
    ensures
        widest_round(s + t) == max_nat(widest_round(s), widest_round(t)),
    decreases t.len(),
{
    if t.len() == 0 {
        assert(s + t =~= s);
    } else {
        lemma_widest_round_cut(s, t.drop_last());
        lemma_trailing_run_cut(s, t);
        assert((s + t).drop_last() =~= s + t.drop_last());
        assert((s + t).last() == t.last());
    }
}

proof fn lemma_trailing_checks_cut(s: Seq<GateModel<usize>>, t: Seq<GateModel<usize>>)
    requires
        closed_off(s),
    ensures
        trailing_checks(s + t) == trailing_checks(t),
    decreases t.len(),
{
    if t.len() == 0 {
        assert(s + t =~= s);
    } else {
        lemma_trailing_checks_cut(s, t.drop_last());
        assert((s + t).drop_last() =~= s + t.drop_last());
        assert((s + t).last() == t.last());
    }
}

proof fn lemma_rounds_replaced_cut(
    schedule: SecSchedule,
    s: Seq<GateModel<usize>>,
    t: Seq<GateModel<usize>>,
    base: int,
)
    requires
        closed_off(s),
    ensures
        rounds_replaced(schedule, s + t, base) == all_replaced(schedule, s, base)
            + rounds_replaced(schedule, t, base),
    decreases t.len(),
{
    let done = all_replaced(schedule, s, base);
    assert(trailing_checks(s) =~= Seq::empty());
    assert(done =~= rounds_replaced(schedule, s, base));
    if t.len() == 0 {
        assert(s + t =~= s);
        assert(done + rounds_replaced(schedule, t, base) =~= done);
    } else {
        let u = t.drop_last();
        lemma_rounds_replaced_cut(schedule, s, u, base);
        lemma_trailing_checks_cut(s, u);
        assert((s + t).drop_last() =~= s + u);
        assert((s + t).last() == t.last());
        assert(all_replaced(schedule, s + u, base) =~= done + all_replaced(schedule, u, base));
        assert(rounds_replaced(schedule, s + t, base) =~= done + rounds_replaced(
            schedule,
            t,
            base,
        ));
    }
}

/// The parts of a circuit can be lowered one after another where no round straddles the
/// cut, under the schedule that keeps the order of the records.
pub proof fn law_replacing_in_parts(
    schedule: SecSchedule,
    s: Seq<GateModel<usize>>,
    t: Seq<GateModel<usize>>,
    base: int,
)
    requires
        closed_off(s),
    ensures
        all_replaced(schedule, s + t, base) == all_replaced(schedule, s, base) + all_replaced(
            schedule,
            t,
            base,
        ),
{
    lemma_rounds_replaced_cut(schedule, s, t, base);
    lemma_trailing_checks_cut(s, t);
    assert(all_replaced(schedule, s + t, base) =~= all_replaced(schedule, s, base) + all_replaced(
        schedule,
        t,
        base,
    ));
}

proof fn lemma_rounds_fit_cut(s: Seq<GateModel<usize>>, t: Seq<GateModel<usize>>, base: int)
    requires
        closed_off(s),
    ensures
        rounds_fit(s + t, base) == (rounds_fit(s, base) && rounds_fit(t, base)),
    decreases t.len(),
{
    if t.len() == 0 {
        assert(s + t =~= s);
    } else {
        lemma_rounds_fit_cut(s, t.drop_last(), base);
        lemma_trailing_checks_cut(s, t);
        assert((s + t).drop_last() =~= s + t.drop_last());
        assert((s + t).last() == t.last());
    }
}

proof fn lemma_leading_cut(s: Seq<GateModel<usize>>, t: Seq<GateModel<usize>>)
    requires
        leading_checks(s).len() < s.len(),
    ensures
        leading_checks(s + t) == leading_checks(s),
    decreases s.len(),
{
    let u = s + t;
    assert(u[0] == s[0]);
    if s[0] is MPP {
        assert(u.drop_first() =~= s.drop_first() + t);
        lemma_leading_cut(s.drop_first(), t);
    }
}

proof fn lemma_lrc_step_cut(
    s: Seq<GateModel<usize>>,
    t: Seq<GateModel<usize>>,
    base: int,
    map: Seq<usize>,
)
    requires
        closed_off(s),
        s.len() > 0,
    ensures
        lrc_step(s + t, base, map) == lrc_step(s, base, map),
        0 < lrc_step(s, base, map).2 <= s.len(),
{
    let u = s + t;
    assert(u[0] == s[0]);
    lemma_leading(s);
    if s[0] is MPP {
        let m = leading_checks(s).len() as int;
        if m == s.len() {
            assert(s[m - 1] == GateModel::<usize>::MPP(leading_checks(s)[m - 1]));
        }
        lemma_leading_cut(s, t);
        assert(u[m] == s[m]);
        assert(repeats(u) == repeats(s));
    }
}

/// The first step of a lowering, and the same step with more gates behind.
proof fn lemma_first_step(
    s: Seq<GateModel<usize>>,
    t: Seq<GateModel<usize>>,
    base: int,
    map: Seq<usize>,
) -> (step: (Seq<GateModel<usize>>, Seq<usize>, int))
    requires
        closed_off(s),
        s.len() > 0,
    ensures
        0 < step.2 <= s.len(),
        lrc(s, base, map) == (
            step.0 + lrc(s.skip(step.2), base, step.1).0,
            lrc(s.skip(step.2), base, step.1).1,
        ),
        lrc(s + t, base, map) == (
            step.0 + lrc((s + t).skip(step.2), base, step.1).0,
            lrc((s + t).skip(step.2), base, step.1).1,
        ),
{
    lemma_lrc_step_cut(s, t, base, map);
    lrc_step(s, base, map)
}

/// The parts of a circuit can be lowered one after another where no round straddles the
/// cut, under the staggered schedule, when the record map is carried over.
pub proof fn law_staggering_in_parts(
    s: Seq<GateModel<usize>>,
    t: Seq<GateModel<usize>>,
    base: int,
    map: Seq<usize>,
)
    requires
        closed_off(s),
    ensures
        lrc(s + t, base, map).0 == lrc(s, base, map).0 + lrc(t, base, lrc(s, base, map).1).0,
        lrc(s + t, base, map).1 == lrc(t, base, lrc(s, base, map).1).1,
    decreases s.len(),
{
    if s.len() == 0 {
        assert(s + t =~= t);
        assert(Seq::<GateModel<usize>>::empty() + lrc(t, base, map).0 =~= lrc(t, base, map).0);
    } else {
        let (gates, after, used) = lemma_first_step(s, t, base, map);
        let rest = s.skip(used);
        assert((s + t).skip(used) =~= rest + t);
        assert(rest.len() > 0 ==> rest.last() == s.last());
        law_staggering_in_parts(rest, t, base, after);
        lemma_add_three(
            gates,
            lrc(rest, base, after).0,
            lrc(t, base, lrc(rest, base, after).1).0,
        );
    }
}

proof fn lemma_add_three(
    a: Seq<GateModel<usize>>,
    b: Seq<GateModel<usize>>,
    c: Seq<GateModel<usize>>,
)
    ensures
        a + (b + c) == (a + b) + c,
{
    assert(a + (b + c) =~= (a + b) + c);
}

// ---------------------------------------------------------------------------
// Flat circuits
// ---------------------------------------------------------------------------
proof fn lemma_flat_gates_add(
    s: Seq<GateModel<MergedQubit>>,
    t: Seq<GateModel<MergedQubit>>,
    seen: Seq<MergedQubit>,
)
    ensures
        flat_gates(s + t, seen) == flat_gates(s, seen) + flat_gates(t, seen),
    decreases t.len(),
{
    if t.len() == 0 {
        assert(s + t =~= s);
        assert(flat_gates(s, seen) + flat_gates(t, seen) =~= flat_gates(s, seen));
    } else {
        lemma_flat_gates_add(s, t.drop_last(), seen);
        assert((s + t).drop_last() =~= s + t.drop_last());
        assert(flat_gates(s + t, seen) =~= flat_gates(s, seen) + flat_gates(t, seen));
    }
}

proof fn lemma_flat_gates(s: Seq<GateModel<MergedQubit>>, seen: Seq<MergedQubit>)
    ensures
        flat_gates(s, seen).len() == s.len(),
        forall|i: int|
            0 <= i < s.len() ==> #[trigger] flat_gates(s, seen)[i] == flat_gate(s[i], seen),
    decreases s.len(),
{
    if s.len() > 0 {
        lemma_flat_gates(s.drop_last(), seen);
    }
}

proof fn lemma_flat_closed(s: Seq<GateModel<MergedQubit>>, seen: Seq<MergedQubit>)
    ensures
        closed_off(flat_gates(s, seen)) == closed_off(s),
{
    lemma_flat_gates(s, seen);
}

proof fn lemma_flat_gate_records(g: GateModel<MergedQubit>, seen: Seq<MergedQubit>)
    ensures
        gate_total(Counted::Records, flat_gate(g, seen)) == gate_total(Counted::Records, g),
    decreases g,
{
    if let GateModel::Repeat(_, body) = g {
        lemma_flat_records(body, seen);
    }
}

/// Numbering qubits keeps the records.
proof fn lemma_flat_records(s: Seq<GateModel<MergedQubit>>, seen: Seq<MergedQubit>)
    ensures
        record_total(flat_gates(s, seen)) == record_total(s),
    decreases s,
{
    if s.len() > 0 {
        lemma_flat_records(s.drop_last(), seen);
        lemma_flat_gate_records(s.last(), seen);
        let f = flat_gates(s, seen);
        assert(f.drop_last() =~= flat_gates(s.drop_last(), seen));
    }
}

// ---------------------------------------------------------------------------
// Offsets
// ---------------------------------------------------------------------------
proof fn lemma_offsets_add(s: Seq<GateModel<usize>>, t: Seq<GateModel<usize>>, n: int)
    requires
        offsets_resolve(s, n),
        offsets_resolve(t, n + record_total(s)),
    ensures
        offsets_resolve(s + t, n),
    decreases s.len(),
{
    if s.len() == 0 {
        assert(s + t =~= t);
    } else {
        crate::sec_schedule::lemma_total_first(Counted::Records, s);
        let here = gate_total(Counted::Records, s[0]) as int;
        lemma_offsets_add(s.drop_first(), t, n + here);
        assert((s + t).drop_first() =~= s.drop_first() + t);
        assert((s + t)[0] == s[0]);
    }
}

proof fn lemma_offsets_all(s: Seq<GateModel<usize>>, n: int)
    requires
        forall|i: int, m: int| 0 <= i < s.len() && n <= m ==> #[trigger] offsets_exist(s[i], m),
    ensures
        offsets_resolve(s, n),
    decreases s.len(),
{
    if s.len() > 0 {
        let t = s.drop_first();
        assert forall|i: int, m: int| 0 <= i < t.len() && n <= m implies #[trigger] offsets_exist(
            t[i],
            m,
        ) by {
            assert(t[i] == s[i + 1]);
            assert(offsets_exist(s[i + 1], m));
        }
        assert forall|i: int, m: int|
            0 <= i < t.len() && n + gate_total(Counted::Records, s[0]) <= m implies #[trigger]
        offsets_exist(t[i], m) by {}
        lemma_offsets_all(t, n + gate_total(Counted::Records, s[0]));
        assert(offsets_exist(s[0], n));
    }
}

/// Gates that point at no records, outside repeated bodies.
spec fn pointless(g: GateModel<MergedQubit>) -> bool {
    g is Reset || g is Measure || g is MPP || g is Repeat
}

proof fn lemma_pointless(s: Seq<GateModel<MergedQubit>>, seen: Seq<MergedQubit>, n: int)
    requires
        forall|i: int| 0 <= i < s.len() ==> pointless(#[trigger] s[i]),
    ensures
        offsets_resolve(flat_gates(s, seen), n),
{
    lemma_flat_gates(s, seen);
    let f = flat_gates(s, seen);
    assert forall|i: int, m: int| 0 <= i < f.len() && n <= m implies #[trigger] offsets_exist(
        f[i],
        m,
    ) by {
        assert(pointless(s[i]));
        assert(f[i] == flat_gate(s[i], seen));
    }
    lemma_offsets_all(f, n);
}

proof fn lemma_readout_records(basis: Pauli, qs: Seq<MergedQubit>)
    ensures
        record_total(readouts(basis, qs)) == qs.len(),
    decreases qs.len(),
{
    let s = readouts(basis, qs);
    if qs.len() > 0 {
        lemma_readout_records(basis, qs.drop_last());
        assert(s.drop_last() =~= readouts(basis, qs.drop_last()));
        assert(s.last() is Measure);
        assert(gate_total(Counted::Records, s.last()) == 1);
    }
}

/// Corrections controlled on one of the last `n` records.
spec fn within(s: Seq<GateModel<MergedQubit>>, n: int) -> bool {
    forall|i: int|
        0 <= i < s.len() ==> (#[trigger] s[i] matches GateModel::XCorrection(k, _) && 1 <= k <= n)
}

proof fn lemma_byproducts_within(
    edges: Seq<MergedQubit>,
    c: crate::graph_to_checks::CorrectionSupport<BlockKind>,
    n: int,
)
    requires
        0 <= n <= edges.len() <= usize::MAX,
    ensures
        within(byproducts(edges, c, n), edges.len() as int),
    decreases n,
{
    if n > 0 {
        lemma_byproducts_within(edges, c, n - 1);
    }
}

proof fn lemma_all_byproducts_within(
    edges: Seq<MergedQubit>,
    cs: Seq<crate::graph_to_checks::CorrectionSupport<BlockKind>>,
)
    requires
        edges.len() <= usize::MAX,
    ensures
        within(all_byproducts(edges, cs), edges.len() as int),
    decreases cs.len(),
{
    if cs.len() > 0 {
        lemma_all_byproducts_within(edges, cs.drop_last());
        lemma_byproducts_within(edges, cs.last(), edges.len() as int);
        let a = all_byproducts(edges, cs.drop_last());
        let b = byproducts(edges, cs.last(), edges.len() as int);
        assert forall|i: int| 0 <= i < (a + b).len() implies (#[trigger] (a
            + b)[i] matches GateModel::XCorrection(k, _) && 1 <= k <= edges.len()) by {
            if i < a.len() {
                assert((a + b)[i] == a[i]);
            } else {
                assert((a + b)[i] == b[i - a.len()]);
            }
        }
    }
}

/// Every correction of a deformation is controlled on a record that is there.
proof fn lemma_deformation_offsets(
    d: Deformation,
    base: Seq<SignedPauli<MergedQubit>>,
    rounds: usize,
    seen: Seq<MergedQubit>,
    n: int,
)
    requires
        0 <= n,
        touched_edges(check_views(d.checks@)).len() <= usize::MAX,
    ensures
        offsets_resolve(flat_gates(deformation_gates(d, base, rounds), seen), n),
{
    let checks = check_views(d.checks@);
    let basis = crate::graph_to_checks::conjugate(d.edge_basis);
    let edges = touched_edges(checks);
    let a = rounds_of(base, rounds) + resets(basis, edges) + rounds_of(checks, rounds) + readouts(
        basis,
        edges,
    );
    let b = all_byproducts(edges, d.corrections@);
    assert(deformation_gates(d, base, rounds) =~= a + b);
    assert forall|i: int| 0 <= i < a.len() implies pointless(#[trigger] a[i]) by {}
    lemma_pointless(a, seen, n);
    lemma_flat_gates_add(a, b, seen);
    lemma_flat_records(a, seen);
    lemma_readout_records(basis, edges);
    let front = rounds_of(base, rounds) + resets(basis, edges) + rounds_of(checks, rounds);
    lemma_total_add(Counted::Records, front, readouts(basis, edges));
    lemma_all_byproducts_within(edges, d.corrections@);
    lemma_flat_gates(b, seen);
    let f = flat_gates(b, seen);
    let m0 = n + record_total(a);
    assert forall|i: int, m: int| 0 <= i < f.len() && m0 <= m implies #[trigger] offsets_exist(
        f[i],
        m,
    ) by {
        assert(b[i] is XCorrection);
        assert(f[i] == flat_gate(b[i], seen));
    }
    lemma_offsets_all(f, m0);
    lemma_offsets_add(flat_gates(a, seen), f, n);
}

// ---------------------------------------------------------------------------
// The pipe
// ---------------------------------------------------------------------------
/// The gates that come out: the circuit itself, or with its rounds lowered to gadgets
/// whose ancillas start at `base`.
pub open spec fn piped(schedule: Option<SecSchedule>, s: Seq<GateModel<usize>>, base: int) -> Seq<
    GateModel<usize>,
> {
    match schedule {
        None => s,
        Some(SecSchedule::Lrc) => lrc(s, base, Seq::empty()).0,
        Some(SecSchedule::Legacy) => all_replaced(SecSchedule::Legacy, s, base),
    }
}

/// The numbers of a circuit's qubits, in order of first appearance.
pub open spec fn ids_of(s: Seq<GateModel<MergedQubit>>) -> Seq<MergedQubit> {
    note_all(Seq::empty(), all_qubits(s))
}

/// The circuit goes through the pipe within the machine integers.
pub open spec fn fits_pipe(
    schedule: Option<SecSchedule>,
    s: Seq<GateModel<MergedQubit>>,
    base: int,
) -> bool {
    &&& round_total(s) <= usize::MAX
    &&& schedule is Some ==> rounds_fit(flattened(s), base)
    &&& schedule == Some(SecSchedule::Lrc) ==> record_total(s) <= usize::MAX
}

/// Takes a circuit in parts: numbers the qubits, lowers the rounds where that is wanted,
/// and hands the gates to a sink, counting what only the unlowered gates show.
struct ChunkPipe<S: GateSink> {
    ids: Interner<MergedQubit>,
    lrc_map: Vec<usize>,
    schedule: Option<SecSchedule>,
    ancilla_base: usize,
    syndrome_cycles: usize,
    sec_ancilla_pool: usize,
    sink: S,
}

impl<S: GateSink> ChunkPipe<S> {
    /// The gates `s` went through.
    spec fn passed(self, s: Seq<GateModel<MergedQubit>>) -> bool {
        let flat = flattened(s);
        let base = self.ancilla_base as int;
        &&& closed_off(s)
        &&& self.ids@ == ids_of(s)
        &&& self.syndrome_cycles == round_total(s)
        &&& self.sec_ancilla_pool == widest_round(s)
        &&& self.sink.pushed() == piped(self.schedule, flat, base)
        &&& fits_pipe(self.schedule, s, base)
        &&& self.schedule == Some(SecSchedule::Lrc) ==> {
            &&& self.lrc_map@ == lrc(flat, base, Seq::empty()).1
            &&& map_within(self.lrc_map@)
            &&& self.lrc_map@.len() == record_total(s)
        }
    }
}

proof fn lemma_ids_distinct(s: Seq<GateModel<MergedQubit>>)
    ensures
        ids_of(s).no_duplicates(),
{
    lemma_note_all_distinct(Seq::<MergedQubit>::empty(), all_qubits(s));
}

proof fn lemma_all_qubits_add(s: Seq<GateModel<MergedQubit>>, t: Seq<GateModel<MergedQubit>>)
    ensures
        all_qubits(s + t) == all_qubits(s) + all_qubits(t),
    decreases t.len(),
{
    if t.len() == 0 {
        assert(s + t =~= s);
        assert(all_qubits(s) + all_qubits(t) =~= all_qubits(s));
    } else {
        lemma_all_qubits_add(s, t.drop_last());
        assert((s + t).drop_last() =~= s + t.drop_last());
        assert(all_qubits(s + t) =~= all_qubits(s) + all_qubits(t));
    }
}

/// A longer circuit keeps the numbers of its start.
proof fn lemma_flattened_add(s: Seq<GateModel<MergedQubit>>, t: Seq<GateModel<MergedQubit>>)
    ensures
        ids_of(s + t) == note_all(ids_of(s), all_qubits(t)),
        flattened(s + t) == flattened(s) + flat_gates(t, ids_of(s + t)),
{
    let none = Seq::<MergedQubit>::empty();
    lemma_all_qubits_add(s, t);
    lemma_note_all_add(none, all_qubits(s), all_qubits(t));
    lemma_ids_distinct(s + t);
    lemma_note_all_prefix(none, all_qubits(s));
    lemma_note_all_prefix(ids_of(s), all_qubits(t));
    lemma_flat_gates_stable(s, ids_of(s), ids_of(s + t));
    lemma_flat_gates_add(s, t, ids_of(s + t));
}

/// What fits, fits in parts.
proof fn lemma_fits_cut(
    schedule: Option<SecSchedule>,
    s: Seq<GateModel<MergedQubit>>,
    t: Seq<GateModel<MergedQubit>>,
    base: int,
)
    requires
        closed_off(s),
    ensures
        fits_pipe(schedule, s + t, base) ==> fits_pipe(schedule, s, base),
        fits_pipe(schedule, s + t, base) ==> round_total(s) + round_total(t) <= usize::MAX,
        fits_pipe(schedule, s + t, base) && schedule is Some ==> rounds_fit(
            flat_gates(t, ids_of(s + t)),
            base,
        ),
        fits_pipe(schedule, s + t, base) && schedule == Some(SecSchedule::Lrc) ==> record_total(s)
            + record_total(t) <= usize::MAX,
        fits_pipe(schedule, s, base) && round_total(s) + round_total(t) <= usize::MAX && (
        schedule is Some ==> rounds_fit(flat_gates(t, ids_of(s + t)), base)) && (schedule == Some(
            SecSchedule::Lrc,
        ) ==> record_total(s) + record_total(t) <= usize::MAX) ==> fits_pipe(
            schedule,
            s + t,
            base,
        ),
{
    lemma_round_total_cut(s, t);
    lemma_total_add(Counted::Records, s, t);
    lemma_flattened_add(s, t);
    lemma_flat_closed(s, ids_of(s));
    lemma_rounds_fit_cut(flattened(s), flat_gates(t, ids_of(s + t)), base);
}

impl<S: GateSink> ChunkPipe<S> {
    fn new(schedule: Option<SecSchedule>, ancilla_base: usize, sink: S) -> (r: Self)
        requires
            sink.pushed() == Seq::<GateModel<usize>>::empty(),
        ensures
            r.passed(Seq::empty()),
            r.schedule == schedule,
            r.ancilla_base == ancilla_base,
    {
        let none = Ghost(Seq::<GateModel<MergedQubit>>::empty());
        let ids: Interner<MergedQubit> = Interner::new();
        let r = ChunkPipe {
            ids,
            lrc_map: Vec::new(),
            schedule,
            ancilla_base,
            syndrome_cycles: 0,
            sec_ancilla_pool: 0,
            sink,
        };
        proof {
            let flat = flattened(none@);
            assert(all_qubits(none@) =~= Seq::empty());
            assert(flat =~= Seq::<GateModel<usize>>::empty());
            assert(trailing_checks(flat) =~= Seq::empty());
            assert(all_replaced(SecSchedule::Legacy, flat, ancilla_base as int) =~= flat);
            assert(r.lrc_map@ =~= Seq::<usize>::empty());
        }
        r
    }

    /// Take the next part; `false` if it ends within a round, or a number outruns the
    /// machine integers.
    fn push_chunk(&mut self, gates: &Vec<PhysicalGate<MergedQubit>>, Ghost(s): Ghost<
        Seq<GateModel<MergedQubit>>,
    >) -> (r: bool)
        requires
            old(self).passed(s),
            forall|seen: Seq<MergedQubit>, n: int|
                0 <= n ==> #[trigger] offsets_resolve(
                    flat_gates(gate_models(gates@), seen),
                    n,
                ),
        ensures
            r == (closed_off(gate_models(gates@)) && fits_pipe(
                old(self).schedule,
                s + gate_models(gates@),
                old(self).ancilla_base as int,
            )),
            r ==> final(self).passed(s + gate_models(gates@)),
            final(self).schedule == old(self).schedule,
            final(self).ancilla_base == old(self).ancilla_base,
    {
        let ghost t = gate_models(gates@);
        let ghost base = self.ancilla_base as int;
        let ghost start = *self;
        proof {
            lemma_gate_models(gates@);
            lemma_fits_cut(self.schedule, s, t, base);
            lemma_round_total_cut(s, t);
            lemma_widest_round_cut(s, t);
            lemma_total_add(Counted::Records, s, t);
            lemma_flattened_add(s, t);
            lemma_ids_distinct(s);
            lemma_ids_distinct(s + t);
            lemma_flat_closed(s, ids_of(s));
            lemma_flat_records(t, ids_of(s + t));
        }
        let n: usize = gates.len();
        if n > 0 {
            if let PhysicalGate::MPP(_) = &gates[n - 1] {
                assert(t[n - 1] is MPP);
                return false;
            }
            assert(!(t[n - 1] is MPP));
        }
        let more: usize = match count_rounds_checked(gates) {
            Some(k) => k,
            None => {
                return false;
            },
        };
        if more > usize::MAX - self.syndrome_cycles {
            return false;
        }
        let widest: usize = widest_syndrome_round(gates);
        let flat = flatten_gates(gates, &mut self.ids);
        let ghost f = gate_models(flat@);
        let ghost before = flattened(s);
        assert(f == flat_gates(t, ids_of(s + t)));
        match self.schedule {
            None => {
                extend_gates(&mut self.sink, flat);
            },
            Some(how) => {
                if !check_rounds_fit(&flat, self.ancilla_base) {
                    return false;
                }
                match how {
                    SecSchedule::Lrc => {
                        let records: usize = match count_checked(Counted::Records, &flat) {
                            Some(k) => k,
                            None => {
                                return false;
                            },
                        };
                        if records > usize::MAX - self.lrc_map.len() {
                            return false;
                        }
                        proof {
                            law_staggering_in_parts(before, f, base, Seq::empty());
                        }
                        expand_gates_lrc_with_map(
                            &flat,
                            self.ancilla_base,
                            &mut self.sink,
                            &mut self.lrc_map,
                        );
                    },
                    SecSchedule::Legacy => {
                        proof {
                            law_replacing_in_parts(SecSchedule::Legacy, before, f, base);
                        }
                        expand_gates_into(&flat, self.ancilla_base, &mut self.sink);
                    },
                }
            },
        }
        self.syndrome_cycles = self.syndrome_cycles + more;
        if widest > self.sec_ancilla_pool {
            self.sec_ancilla_pool = widest;
        }
        proof {
            let whole = s + t;
            if t.len() > 0 {
                assert(whole.last() == t.last());
            } else {
                assert(whole =~= s);
            }
        }
        true
    }
}

// ---------------------------------------------------------------------------
// Counting qubits ahead
// ---------------------------------------------------------------------------
/// The qubits of corrections.
pub open spec fn corrected_qubits(
    cs: Seq<crate::graph_to_checks::CorrectionSupport<BlockKind>>,
) -> Seq<MergedQubit> {
    Seq::new(cs.len(), |i: int| cs[i].qubit)
}

/// The qubits of deformations: those of the checks and of the corrections.
pub open spec fn deformed_qubits(ds: Seq<Deformation>) -> Seq<MergedQubit>
    decreases ds.len(),
{
    if ds.len() == 0 {
        Seq::empty()
    } else {
        deformed_qubits(ds.drop_last()) + (check_qubits(check_views(ds.last().checks@))
            + corrected_qubits(ds.last().corrections@))
    }
}

/// The qubits of a sequence of deformed checks.
pub open spec fn sequence_qubits(checks: DeformedCheckSequence) -> Seq<MergedQubit> {
    check_qubits(check_views(checks.base_checks@)) + deformed_qubits(checks.deformations@)
}

/// How many distinct qubits there are.
pub open spec fn distinct_qubits(checks: DeformedCheckSequence) -> nat {
    in_order(sequence_qubits(checks)).len()
}

proof fn lemma_holds_more(
    now: Seq<MergedQubit>,
    qs: Seq<MergedQubit>,
    after: Seq<MergedQubit>,
    more: Seq<MergedQubit>,
)
    requires
        is_in_order(now, qs),
        increasing(after),
        forall|q: MergedQubit| #[trigger]
            after.contains(q) <==> now.contains(q) || more.contains(q),
    ensures
        is_in_order(after, qs + more),
{
    assert forall|q: MergedQubit| #[trigger] after.contains(q) <==> (qs + more).contains(q) by {
        lemma_add_contains(qs, more, q);
        assert(now.contains(q) <==> qs.contains(q));
    }
}

/// Add qubits to an increasing list.
fn insert_all(out: &mut Vec<MergedQubit>, qs: &Vec<MergedQubit>)
    requires
        increasing(old(out)@),
    ensures
        increasing(final(out)@),
        forall|q: MergedQubit| #[trigger]
            final(out)@.contains(q) <==> old(out)@.contains(q) || qs@.contains(q),
{
    let ghost start = out@;
    assert(qs@.take(0) =~= Seq::empty());
    for i in 0..qs.len()
        invariant
            increasing(out@),
            forall|q: MergedQubit| #[trigger]
                out@.contains(q) <==> start.contains(q) || qs@.take(i as int).contains(q),
    {
        let ghost before = out@;
        let added = sorted_insert(out, qs[i]);
        assert forall|q: MergedQubit| #[trigger] out@.contains(q) <==> start.contains(q)
            || qs@.take(i + 1).contains(q) by {
            crate::circuit::lemma_take_contains(qs@, i as int);
            assert(before.contains(q) <==> start.contains(q) || qs@.take(i as int).contains(q));
        }
    }
    assert(qs@.take(qs@.len() as int) =~= qs@);
}

/// The number of distinct qubits that the circuit of the checks can touch: where the
/// ancillas start.
pub fn merged_qubit_count(checks: &DeformedCheckSequence) -> (r: usize)
    ensures
        r == distinct_qubits(*checks),
{
    let ghost base = check_qubits(check_views(checks.base_checks@));
    let ghost ds = checks.deformations@;
    let mut qubits = collect_qubits(&checks.base_checks, false);
    proof {
        assert(is_in_order(qubits@, base));
        assert(ds.take(0) =~= Seq::empty());
        assert(base + deformed_qubits(ds.take(0)) =~= base);
    }
    for i in 0..checks.deformations.len()
        invariant
            ds == checks.deformations@,
            is_in_order(qubits@, base + deformed_qubits(ds.take(i as int))),
    {
        let d = &checks.deformations[i];
        let ghost so_far = base + deformed_qubits(ds.take(i as int));
        let ghost a = check_qubits(check_views(d.checks@));
        let ghost b = corrected_qubits(d.corrections@);
        let more = collect_qubits(&d.checks, false);
        let ghost q0 = qubits@;
        insert_all(&mut qubits, &more);
        proof {
            assert forall|q: MergedQubit| #[trigger] qubits@.contains(q) <==> q0.contains(q)
                || a.contains(q) by {
                assert(more@.contains(q) <==> a.contains(q));
            }
            lemma_holds_more(q0, so_far, qubits@, a);
        }
        let mut fixed: Vec<MergedQubit> = Vec::new();
        for k in 0..d.corrections.len()
            invariant
                b == corrected_qubits(d.corrections@),
                fixed@ == b.take(k as int),
        {
            fixed.push(d.corrections[k].qubit);
            assert(fixed@ =~= b.take(k + 1));
        }
        assert(b.take(b.len() as int) =~= b);
        let ghost q1 = qubits@;
        insert_all(&mut qubits, &fixed);
        proof {
            lemma_holds_more(q1, so_far + a, qubits@, b);
            assert(ds.take(i + 1).drop_last() =~= ds.take(i as int));
            assert(base + deformed_qubits(ds.take(i + 1)) =~= (so_far + a) + b);
        }
    }
    proof {
        assert(ds.take(ds.len() as int) =~= ds);
        lemma_in_order(qubits@, sequence_qubits(*checks));
    }
    qubits.len()
}

// ---------------------------------------------------------------------------
// Streams
// ---------------------------------------------------------------------------
/// No part ends within a round, and every number fits the machine integers.
pub open spec fn streamable(
    checks: DeformedCheckSequence,
    rounds: usize,
    schedule: Option<SecSchedule>,
) -> bool {
    let base = check_views(checks.base_checks@);
    &&& forall|i: int|
        0 <= i < checks.deformations@.len() ==> closed_off(
            deformation_gates(#[trigger] checks.deformations@[i], base, rounds),
        )
    &&& fits_pipe(schedule, lowered(checks, rounds), distinct_qubits(checks) as int)
}

/// The gates that a sequence of checks streams.
pub open spec fn streamed(
    checks: DeformedCheckSequence,
    rounds: usize,
    schedule: Option<SecSchedule>,
) -> Seq<GateModel<usize>> {
    piped(schedule, flattened(lowered(checks, rounds)), distinct_qubits(checks) as int)
}

/// The circuit of the first deformations.
spec fn lowered_part(checks: DeformedCheckSequence, rounds: usize, i: int) -> Seq<
    GateModel<MergedQubit>,
> {
    let base = check_views(checks.base_checks@);
    resets(Pauli::Z, touched(base)) + deformations_gates(checks.deformations@.take(i), base, rounds)
}

proof fn lemma_next_part(checks: DeformedCheckSequence, rounds: usize, i: int)
    requires
        0 <= i < checks.deformations@.len(),
    ensures
        lowered_part(checks, rounds, i + 1) == lowered_part(checks, rounds, i) + deformation_gates(
            checks.deformations@[i],
            check_views(checks.base_checks@),
            rounds,
        ),
{
    let base = check_views(checks.base_checks@);
    let ds = checks.deformations@;
    assert(ds.take(i + 1).drop_last() =~= ds.take(i));
    assert(lowered_part(checks, rounds, i + 1) =~= lowered_part(checks, rounds, i)
        + deformation_gates(ds[i], base, rounds));
}

/// What does not fit up to some part does not fit as a whole.
proof fn lemma_whole_fits(
    checks: DeformedCheckSequence,
    rounds: usize,
    schedule: Option<SecSchedule>,
    i: int,
)
    requires
        streamable(checks, rounds, schedule),
        0 <= i <= checks.deformations@.len(),
    ensures
        fits_pipe(schedule, lowered_part(checks, rounds, i), distinct_qubits(checks) as int),
        closed_off(lowered_part(checks, rounds, i)),
    decreases checks.deformations@.len() - i,
{
    let base = check_views(checks.base_checks@);
    lemma_part_closed(checks, rounds, i);
    if i < checks.deformations@.len() {
        lemma_whole_fits(checks, rounds, schedule, i + 1);
        lemma_next_part(checks, rounds, i);
        lemma_fits_cut(
            schedule,
            lowered_part(checks, rounds, i),
            deformation_gates(checks.deformations@[i], base, rounds),
            distinct_qubits(checks) as int,
        );
    } else {
        assert(checks.deformations@.take(i) =~= checks.deformations@);
    }
}

proof fn lemma_part_closed(checks: DeformedCheckSequence, rounds: usize, i: int)
    requires
        0 <= i <= checks.deformations@.len(),
        forall|k: int|
            0 <= k < checks.deformations@.len() ==> closed_off(
                deformation_gates(
                    #[trigger] checks.deformations@[k],
                    check_views(checks.base_checks@),
                    rounds,
                ),
            ),
    ensures
        closed_off(lowered_part(checks, rounds, i)),
    decreases i,
{
    if i == 0 {
        let base = check_views(checks.base_checks@);
        let r = resets(Pauli::Z, touched(base));
        assert(checks.deformations@.take(0) =~= Seq::empty());
        assert(lowered_part(checks, rounds, 0) =~= r);
    } else {
        lemma_part_closed(checks, rounds, i - 1);
        lemma_next_part(checks, rounds, i - 1);
        let d = deformation_gates(
            checks.deformations@[i - 1],
            check_views(checks.base_checks@),
            rounds,
        );
        if d.len() == 0 {
            assert(lowered_part(checks, rounds, i) =~= lowered_part(checks, rounds, i - 1));
        } else {
            assert(lowered_part(checks, rounds, i).last() == d.last());
        }
    }
}

/// Send the circuit of the checks through a pipe, one deformation at a time. `false` if
/// some part ends within a round, or a number outruns the machine integers.
fn for_each_deformation_chunk<S: GateSink>(
    checks: &DeformedCheckSequence,
    rounds: usize,
    pipe: &mut ChunkPipe<S>,
) -> (r: bool)
    requires
        lowerable(*checks),
        old(pipe).passed(Seq::empty()),
        old(pipe).ancilla_base == distinct_qubits(*checks),
    ensures
        r == streamable(*checks, rounds, old(pipe).schedule),
        r ==> final(pipe).passed(lowered(*checks, rounds)),
        final(pipe).schedule == old(pipe).schedule,
        final(pipe).ancilla_base == old(pipe).ancilla_base,
{
    let ghost base = check_views(checks.base_checks@);
    let ghost ds = checks.deformations@;
    let ghost schedule = pipe.schedule;
    let ghost first = distinct_qubits(*checks) as int;
    let ghost none = Seq::<GateModel<MergedQubit>>::empty();
    let qubits = collect_qubits(&checks.base_checks, false);
    let mut resets_only: Vec<PhysicalGate<MergedQubit>> = Vec::new();
    push_resets(&mut resets_only, Pauli::Z, &qubits);
    let ghost r0 = resets(Pauli::Z, touched(base));
    proof {
        assert(gate_models(resets_only@) =~= r0);
        assert forall|seen: Seq<MergedQubit>, n: int| 0 <= n implies #[trigger] offsets_resolve(
            flat_gates(r0, seen),
            n,
        ) by {
            lemma_pointless(r0, seen, n);
        }
        assert(none + r0 =~= r0);
        assert(ds.take(0) =~= Seq::empty());
        assert(lowered_part(*checks, rounds, 0) =~= r0);
    }
    if !pipe.push_chunk(&resets_only, Ghost(none)) {
        proof {
            if streamable(*checks, rounds, schedule) {
                lemma_whole_fits(*checks, rounds, schedule, 0);
            }
        }
        return false;
    }
    let mut i: usize = 0;
    while i < checks.deformations.len()
        invariant
            i <= checks.deformations@.len(),
            lowerable(*checks),
            base == check_views(checks.base_checks@),
            ds == checks.deformations@,
            schedule == pipe.schedule,
            schedule == old(pipe).schedule,
            first == distinct_qubits(*checks),
            pipe.ancilla_base == first,
            old(pipe).ancilla_base == first,
            pipe.passed(lowered_part(*checks, rounds, i as int)),
            forall|k: int|
                0 <= k < i ==> closed_off(deformation_gates(#[trigger] ds[k], base, rounds)),
        decreases checks.deformations@.len() - i,
    {
        assert(deformation_lowerable(ds[i as int]));
        let sub = one_ppm_to_physical_circuit(
            &checks.deformations[i],
            &checks.base_checks,
            rounds,
        );
        let edges = collect_qubits(&checks.deformations[i].checks, true);
        let count: usize = edges.len();
        proof {
            lemma_next_part(*checks, rounds, i as int);
            assert forall|seen: Seq<MergedQubit>, n: int|
                0 <= n implies #[trigger] offsets_resolve(flat_gates(sub@, seen), n) by {
                lemma_deformation_offsets(ds[i as int], base, rounds, seen, n);
            }
        }
        if !pipe.push_chunk(&sub.gates, Ghost(lowered_part(*checks, rounds, i as int))) {
            proof {
                if streamable(*checks, rounds, schedule) {
                    assert(closed_off(deformation_gates(ds[i as int], base, rounds)));
                    lemma_whole_fits(*checks, rounds, schedule, i + 1);
                }
            }
            return false;
        }
        i = i + 1;
    }
    assert(ds.take(ds.len() as int) =~= ds);
    true
}

/// Lower checks to stim text one deformation at a time: the text, its `TICK` count, and
/// the statistics of the circuit but for the depth of its lowering, which is left at
/// zero. `None` if some part ends within a round, or a number outruns the machine
/// integers.
pub fn stream_stim(
    checks: &DeformedCheckSequence,
    rounds: usize,
    schedule: Option<SecSchedule>,
) -> (r: Option<(String, usize, CircuitStats)>)
    requires
        lowerable(*checks),
    ensures
        match r {
            Some((text, ticks, stats)) => {
                &&& streamable(*checks, rounds, schedule)
                &&& text@ == stim_text(streamed(*checks, rounds, schedule), Seq::empty())
                &&& ticks == tick_total(streamed(*checks, rounds, schedule))
                &&& stats_of(lowered(*checks, rounds), 0, stats)
            },
            None => !streamable(*checks, rounds, schedule) || tick_total(
                streamed(*checks, rounds, schedule),
            ) > usize::MAX,
        },
{
    let base: usize = merged_qubit_count(checks);
    let mut pipe = ChunkPipe::new(schedule, base, StimWriter::new());
    if !for_each_deformation_chunk(checks, rounds, &mut pipe) {
        return None;
    }
    let qubits = pipe.ids.qubits();
    let edges: usize = count_edges(&qubits);
    proof {
        let s = lowered(*checks, rounds);
        let all = all_qubits(s);
        assert forall|q: MergedQubit| #[trigger] qubits@.contains(q) <==> all.contains(q) by {
            lemma_ids_contain(s, q);
            assert(qubits@.contains(q) <==> pipe.ids@.contains(q));
        }
        lemma_in_order(qubits@, all);
    }
    let stats = CircuitStats {
        code_qubits: qubits.len() - edges,
        edge_qubits: edges,
        sec_ancilla_pool: pipe.sec_ancilla_pool,
        syndrome_cycles: pipe.syndrome_cycles,
        sec_depth: 0,
    };
    let ChunkPipe { sink, .. } = pipe;
    let (text, ticks) = sink.finish();
    match ticks {
        Some(n) => Some((text, n, stats)),
        None => None,
    }
}

proof fn lemma_ids_contain(s: Seq<GateModel<MergedQubit>>, q: MergedQubit)
    ensures
        ids_of(s).contains(q) <==> all_qubits(s).contains(q),
{
    lemma_noted_iff(Seq::empty(), all_qubits(s), q);
}

/// The `TICK` count of the lowered circuit of the checks, one deformation at a time.
/// `None` if some part ends within a round, or a number outruns the machine integers.
pub fn stream_sec_tick_count(
    checks: &DeformedCheckSequence,
    rounds: usize,
    schedule: SecSchedule,
) -> (r: Option<usize>)
    requires
        lowerable(*checks),
    ensures
        match r {
            Some(ticks) => streamable(*checks, rounds, Some(schedule)) && ticks == tick_total(
                streamed(*checks, rounds, Some(schedule)),
            ),
            None => !streamable(*checks, rounds, Some(schedule)) || tick_total(
                streamed(*checks, rounds, Some(schedule)),
            ) > usize::MAX,
        },
{
    let base: usize = merged_qubit_count(checks);
    let mut pipe = ChunkPipe::new(Some(schedule), base, TickCounter::new());
    if !for_each_deformation_chunk(checks, rounds, &mut pipe) {
        return None;
    }
    pipe.sink.ticks()
}

// ---------------------------------------------------------------------------
// Streaming and writing agree
// ---------------------------------------------------------------------------
/// Some qubit among these has the number `i`.
spec fn numbered_by(qs: Seq<MergedQubit>, seen: Seq<MergedQubit>, i: usize) -> bool {
    exists|q: MergedQubit| #[trigger] qs.contains(q) && number_of(seen, q) == i
}

proof fn lemma_numbered_add(a: Seq<MergedQubit>, b: Seq<MergedQubit>, seen: Seq<MergedQubit>, i: usize)
    ensures
        numbered_by(a + b, seen, i) <==> numbered_by(a, seen, i) || numbered_by(b, seen, i),
{
    if numbered_by(a + b, seen, i) {
        let q = choose|q: MergedQubit| #[trigger] (a + b).contains(q) && number_of(seen, q) == i;
        lemma_add_contains(a, b, q);
    }
    if numbered_by(a, seen, i) {
        let q = choose|q: MergedQubit| #[trigger] a.contains(q) && number_of(seen, q) == i;
        lemma_add_contains(a, b, q);
    }
    if numbered_by(b, seen, i) {
        let q = choose|q: MergedQubit| #[trigger] b.contains(q) && number_of(seen, q) == i;
        lemma_add_contains(a, b, q);
    }
}

proof fn lemma_sorted_same(s: Seq<(usize, Pauli)>, x: (usize, Pauli))
    ensures
        crate::pbc::sort_sites(s).contains(x) <==> s.contains(x),
{
    broadcast use vstd::seq_lib::group_to_multiset_ensures;

    crate::pbc::law_sort_sites(s);
    let r = crate::pbc::sort_sites(s);
    assert(s.contains(x) <==> s.to_multiset().count(x) > 0);
    assert(r.contains(x) <==> r.to_multiset().count(x) > 0);
}

proof fn lemma_flat_sites(sites: Seq<(MergedQubit, Pauli)>, seen: Seq<MergedQubit>, i: usize)
    ensures
        ({
            let flat = Seq::new(sites.len(), |k: int| (number_of(seen, sites[k].0), sites[k].1));
            let sorted = crate::pbc::sort_sites(flat);
            Seq::new(sorted.len(), |k: int| sorted[k].0).contains(i) <==> numbered_by(
                Seq::new(sites.len(), |k: int| sites[k].0),
                seen,
                i,
            )
        }),
{
    let flat = Seq::new(sites.len(), |k: int| (number_of(seen, sites[k].0), sites[k].1));
    let sorted = crate::pbc::sort_sites(flat);
    let ids = Seq::new(sorted.len(), |k: int| sorted[k].0);
    let qs = Seq::new(sites.len(), |k: int| sites[k].0);
    if ids.contains(i) {
        let k = ids.index_of(i);
        assert(ids[k] == i);
        assert(sorted.contains(sorted[k]));
        lemma_sorted_same(flat, sorted[k]);
        let j = flat.index_of(sorted[k]);
        assert(flat[j] == sorted[k]);
        assert(qs[j] == sites[j].0);
        assert(qs.contains(qs[j]));
    }
    if numbered_by(qs, seen, i) {
        let q = choose|q: MergedQubit| #[trigger] qs.contains(q) && number_of(seen, q) == i;
        let j = qs.index_of(q);
        assert(qs[j] == q);
        assert(flat.contains(flat[j]));
        lemma_sorted_same(flat, flat[j]);
        let k = sorted.index_of(flat[j]);
        assert(sorted[k] == flat[j]);
        assert(ids[k] == i);
    }
}

proof fn lemma_one_numbered(q: MergedQubit, seen: Seq<MergedQubit>, i: usize)
    ensures
        numbered_by(seq![q], seen, i) <==> number_of(seen, q) == i,
{
    assert(seq![q][0] == q);
    assert(seq![q].contains(q));
}

proof fn lemma_flat_gate_qubits(g: GateModel<MergedQubit>, seen: Seq<MergedQubit>, i: usize)
    ensures
        gate_qubits(flat_gate(g, seen)).contains(i) <==> numbered_by(gate_qubits(g), seen, i),
    decreases g,
{
    let f = gate_qubits(flat_gate(g, seen));
    match g {
        GateModel::Reset(_, q) => {
            lemma_one_numbered(q, seen, i);
            assert(f[0] == number_of(seen, q));
        },
        GateModel::Measure(_, q, _) => {
            lemma_one_numbered(q, seen, i);
            assert(f[0] == number_of(seen, q));
        },
        GateModel::XCorrection(_, q) => {
            lemma_one_numbered(q, seen, i);
            assert(f[0] == number_of(seen, q));
        },
        GateModel::Controlled(_, c, t) => {
            lemma_one_numbered(c, seen, i);
            lemma_one_numbered(t, seen, i);
            lemma_numbered_add(seq![c], seq![t], seen, i);
            assert(seq![c] + seq![t] =~= seq![c, t]);
            assert(f[0] == number_of(seen, c));
            assert(f[1] == number_of(seen, t));
        },
        GateModel::MPP(p) => {
            lemma_flat_sites(p.sites, seen, i);
        },
        GateModel::Repeat(_, body) => {
            lemma_flat_qubits(body, seen, i);
        },
        _ => {
            if numbered_by(gate_qubits(g), seen, i) {
                let q = choose|q: MergedQubit| #[trigger]
                    gate_qubits(g).contains(q) && number_of(seen, q) == i;
                assert(gate_qubits(g).len() == 0);
            }
        },
    }
}

/// The numbers in a flat circuit are those of its qubits.
proof fn lemma_flat_qubits(s: Seq<GateModel<MergedQubit>>, seen: Seq<MergedQubit>, i: usize)
    ensures
        all_qubits(flat_gates(s, seen)).contains(i) <==> numbered_by(all_qubits(s), seen, i),
    decreases s,
{
    if s.len() == 0 {
        if numbered_by(all_qubits(s), seen, i) {
            let q = choose|q: MergedQubit| #[trigger]
                all_qubits(s).contains(q) && number_of(seen, q) == i;
            assert(all_qubits(s).len() == 0);
        }
    } else {
        let head = s.drop_last();
        lemma_flat_qubits(head, seen, i);
        lemma_flat_gate_qubits(s.last(), seen, i);
        lemma_numbered_add(all_qubits(head), gate_qubits(s.last()), seen, i);
        let f = flat_gates(s, seen);
        assert(f.drop_last() =~= flat_gates(head, seen));
        let a = all_qubits(f.drop_last());
        let b = gate_qubits(f.last());
        let c = a + b;
        if c.contains(i) {
            let k = c.index_of(i);
            assert(c[k] == i);
            if k < a.len() {
                assert(a[k] == i);
            } else {
                assert(b[k - a.len()] == i);
            }
        }
        if a.contains(i) {
            assert(c[a.index_of(i)] == i);
        }
        if b.contains(i) {
            assert(c[a.len() + b.index_of(i)] == i);
        }
    }
}

/// The ancillas of a flat circuit start behind its qubits.
pub proof fn law_ancillas_follow_qubits(s: Seq<GateModel<MergedQubit>>)
    requires
        ids_of(s).len() <= usize::MAX,
    ensures
        ancilla_base(flattened(s)) == ids_of(s).len(),
{
    let ids = ids_of(s);
    let qs = all_qubits(flattened(s));
    lemma_ids_distinct(s);
    lemma_highest(qs);
    if ids.len() == 0 {
        if qs.len() > 0 {
            let i = qs[0];
            assert(qs.contains(i));
            lemma_flat_qubits(s, ids, i);
            let q = choose|q: MergedQubit| #[trigger]
                all_qubits(s).contains(q) && number_of(ids, q) == i;
            lemma_ids_contain(s, q);
        }
    } else {
        let top = (ids.len() - 1) as usize;
        let last = ids[ids.len() - 1];
        assert(ids.contains(last));
        lemma_ids_contain(s, last);
        assert(ids[ids.index_of(last)] == last);
        assert(number_of(ids, last) == top);
        lemma_flat_qubits(s, ids, top);
        assert(qs.contains(top));
        let m = highest(qs)->0;
        let k = qs.index_of(top);
        assert(qs[k] == top);
        lemma_flat_qubits(s, ids, m);
        let q = choose|q: MergedQubit| #[trigger]
            all_qubits(s).contains(q) && number_of(ids, q) == m;
        lemma_ids_contain(s, q);
        assert(ids[ids.index_of(q)] == q);
    }
}

/// Distinct qubits can be counted in either order.
proof fn lemma_same_count(a: Seq<MergedQubit>, b: Seq<MergedQubit>)
    requires
        a.no_duplicates(),
        increasing(b),
        forall|q: MergedQubit| #[trigger] a.contains(q) <==> b.contains(q),
    ensures
        a.len() == b.len(),
{
    assert(b.no_duplicates()) by {
        assert forall|i: int, j: int| 0 <= i < b.len() && 0 <= j < b.len() && i != j implies b[i]
            != b[j] by {
            if i < j {
                assert(crate::keyed::key_lt(
                    crate::keyed::OrderedKey::key(b[i]),
                    crate::keyed::OrderedKey::key(b[j]),
                ));
            } else {
                assert(crate::keyed::key_lt(
                    crate::keyed::OrderedKey::key(b[j]),
                    crate::keyed::OrderedKey::key(b[i]),
                ));
            }
        }
    }
    a.unique_seq_to_set();
    b.unique_seq_to_set();
    assert(a.to_set() =~= b.to_set()) by {
        assert forall|q: MergedQubit| a.to_set().contains(q) <==> b.to_set().contains(q) by {
            assert(a.contains(q) <==> b.contains(q));
        }
    }
}

/// The qubits of checks are those of the rounds of the checks.
proof fn lemma_round_qubits(checks: Seq<SignedPauli<MergedQubit>>)
    ensures
        all_qubits(one_round(checks)) == check_qubits(checks),
    decreases checks.len(),
{
    let s = one_round(checks);
    if checks.len() > 0 {
        lemma_round_qubits(checks.drop_last());
        assert(s.drop_last() =~= one_round(checks.drop_last()));
        assert(gate_qubits(s.last()) =~= crate::lowering::site_qubits(checks.last()));
    } else {
        assert(s =~= Seq::empty());
    }
}

proof fn lemma_comparison_qubits(s: Seq<GateModel<MergedQubit>>)
    requires
        forall|i: int| 0 <= i < s.len() ==> (#[trigger] s[i]) is DeclareDetector,
    ensures
        all_qubits(s) == Seq::<MergedQubit>::empty(),
    decreases s.len(),
{
    if s.len() > 0 {
        let t = s.drop_last();
        assert forall|i: int| 0 <= i < t.len() implies (#[trigger] t[i]) is DeclareDetector by {
            assert(t[i] == s[i]);
        }
        lemma_comparison_qubits(t);
        assert(s[s.len() - 1] is DeclareDetector);
        assert(gate_qubits(s.last()) =~= Seq::empty());
    }
}

proof fn lemma_rounds_qubits(checks: Seq<SignedPauli<MergedQubit>>, rounds: usize, q: MergedQubit)
    ensures
        all_qubits(rounds_of(checks, rounds)).contains(q) <==> rounds > 0 && check_qubits(
            checks,
        ).contains(q),
{
    let s = rounds_of(checks, rounds);
    lemma_round_qubits(checks);
    if rounds == 0 {
        assert(all_qubits(s).len() == 0);
    } else if rounds > 1 {
        let body = one_round(checks) + comparisons(checks.len());
        lemma_comparison_qubits(comparisons(checks.len()));
        lemma_all_qubits_add(one_round(checks), comparisons(checks.len()));
        assert(all_qubits(body) =~= check_qubits(checks));
        assert(s.drop_last() =~= one_round(checks));
        let again = GateModel::Repeat((rounds - 1) as usize, body);
        assert(s.last() == again);
        assert(gate_qubits(again) == all_qubits(body));
        assert(all_qubits(s) =~= check_qubits(checks) + check_qubits(checks));
        lemma_add_contains(check_qubits(checks), check_qubits(checks), q);
    }
}

proof fn lemma_single_qubits(s: Seq<GateModel<MergedQubit>>, qs: Seq<MergedQubit>)
    requires
        s.len() == qs.len(),
        forall|i: int| 0 <= i < s.len() ==> gate_qubits(#[trigger] s[i]) == seq![qs[i]],
    ensures
        all_qubits(s) == qs,
    decreases s.len(),
{
    if s.len() > 0 {
        let t = s.drop_last();
        assert forall|i: int| 0 <= i < t.len() implies gate_qubits(#[trigger] t[i])
            == seq![qs.drop_last()[i]] by {
            assert(t[i] == s[i]);
        }
        lemma_single_qubits(t, qs.drop_last());
        assert(gate_qubits(s[s.len() - 1]) == seq![qs.last()]);
        assert(qs =~= qs.drop_last() + seq![qs.last()]);
    } else {
        assert(qs =~= Seq::empty());
    }
}

proof fn lemma_byproduct_qubits(
    edges: Seq<MergedQubit>,
    c: crate::graph_to_checks::CorrectionSupport<BlockKind>,
    n: int,
    q: MergedQubit,
)
    ensures
        all_qubits(byproducts(edges, c, n)).contains(q) ==> q == c.qubit,
    decreases n,
{
    let s = byproducts(edges, c, n);
    if n > 0 {
        lemma_byproduct_qubits(edges, c, n - 1, q);
        if c.path@.contains(edges[n - 1]) {
            assert(s.drop_last() =~= byproducts(edges, c, n - 1));
            lemma_add_contains(all_qubits(s.drop_last()), gate_qubits(s.last()), q);
            if gate_qubits(s.last()).contains(q) {
                assert(gate_qubits(s.last())[0] == c.qubit);
            }
        }
    } else {
        assert(all_qubits(s).len() == 0);
    }
}

proof fn lemma_all_byproduct_qubits(
    edges: Seq<MergedQubit>,
    cs: Seq<crate::graph_to_checks::CorrectionSupport<BlockKind>>,
    q: MergedQubit,
)
    ensures
        all_qubits(all_byproducts(edges, cs)).contains(q) ==> corrected_qubits(cs).contains(q),
    decreases cs.len(),
{
    if cs.len() > 0 {
        let head = cs.drop_last();
        lemma_all_byproduct_qubits(edges, head, q);
        let a = all_byproducts(edges, head);
        let b = byproducts(edges, cs.last(), edges.len() as int);
        lemma_byproduct_qubits(edges, cs.last(), edges.len() as int, q);
        lemma_all_qubits_add(a, b);
        lemma_add_contains(all_qubits(a), all_qubits(b), q);
        lemma_push_contains(corrected_qubits(head), cs.last().qubit, q);
        assert(corrected_qubits(cs) =~= corrected_qubits(head).push(cs.last().qubit));
    } else {
        assert(all_qubits(all_byproducts(edges, cs)).len() == 0);
    }
}

/// The corrected qubits are among those of the checks, or of the base checks.
pub open spec fn corrections_covered(d: Deformation, base: Seq<SignedPauli<MergedQubit>>) -> bool {
    forall|q: MergedQubit| #[trigger]
        corrected_qubits(d.corrections@).contains(q) ==> check_qubits(
            check_views(d.checks@),
        ).contains(q) || check_qubits(base).contains(q)
}

proof fn lemma_edges_touched(checks: Seq<SignedPauli<MergedQubit>>, q: MergedQubit)
    ensures
        touched_edges(checks).contains(q) ==> check_qubits(checks).contains(q),
        touched(checks).contains(q) <==> check_qubits(checks).contains(q),
{
    crate::lowering::lemma_in_order_exists(crate::lowering::only_edges(check_qubits(checks)));
    crate::lowering::lemma_in_order_exists(check_qubits(checks));
    crate::lowering::lemma_only_edges(check_qubits(checks), q);
    assert(is_in_order(touched_edges(checks), crate::lowering::only_edges(check_qubits(checks))));
    assert(is_in_order(touched(checks), check_qubits(checks)));
}

proof fn lemma_deformation_qubits(
    d: Deformation,
    base: Seq<SignedPauli<MergedQubit>>,
    rounds: usize,
    q: MergedQubit,
)
    requires
        rounds >= 1,
        corrections_covered(d, base),
    ensures
        all_qubits(deformation_gates(d, base, rounds)).contains(q) <==> check_qubits(base).contains(
            q,
        ) || check_qubits(check_views(d.checks@)).contains(q),
{
    let checks = check_views(d.checks@);
    let basis = crate::graph_to_checks::conjugate(d.edge_basis);
    let edges = touched_edges(checks);
    let a = rounds_of(base, rounds);
    let b = resets(basis, edges);
    let c = rounds_of(checks, rounds);
    let r = readouts(basis, edges);
    let e = all_byproducts(edges, d.corrections@);
    assert(deformation_gates(d, base, rounds) =~= a + b + c + r + e);
    lemma_all_qubits_add(a, b);
    lemma_all_qubits_add(a + b, c);
    lemma_all_qubits_add(a + b + c, r);
    lemma_all_qubits_add(a + b + c + r, e);
    lemma_add_contains(all_qubits(a), all_qubits(b), q);
    lemma_add_contains(all_qubits(a) + all_qubits(b), all_qubits(c), q);
    lemma_add_contains(all_qubits(a + b + c), all_qubits(r), q);
    lemma_add_contains(all_qubits(a + b + c + r), all_qubits(e), q);
    lemma_rounds_qubits(base, rounds, q);
    lemma_rounds_qubits(checks, rounds, q);
    lemma_single_qubits(b, edges);
    lemma_single_qubits(r, edges);
    lemma_edges_touched(checks, q);
    lemma_all_byproduct_qubits(edges, d.corrections@, q);
}

proof fn lemma_deformations_qubits(
    ds: Seq<Deformation>,
    base: Seq<SignedPauli<MergedQubit>>,
    rounds: usize,
    q: MergedQubit,
)
    requires
        rounds >= 1,
        forall|i: int| 0 <= i < ds.len() ==> #[trigger] corrections_covered(ds[i], base),
    ensures
        all_qubits(deformations_gates(ds, base, rounds)).contains(q) ==> check_qubits(base).contains(
            q,
        ) || deformed_qubits(ds).contains(q),
        deformed_qubits(ds).contains(q) ==> all_qubits(
            deformations_gates(ds, base, rounds),
        ).contains(q),
    decreases ds.len(),
{
    if ds.len() == 0 {
        assert(all_qubits(deformations_gates(ds, base, rounds)).len() == 0);
        assert(deformed_qubits(ds).len() == 0);
    } else {
        let head = ds.drop_last();
        let d = ds.last();
        assert(corrections_covered(ds[ds.len() - 1], base));
        assert forall|i: int| 0 <= i < head.len() implies #[trigger] corrections_covered(
            head[i],
            base,
        ) by {
            assert(head[i] == ds[i]);
            assert(corrections_covered(ds[i], base));
        }
        lemma_deformations_qubits(head, base, rounds, q);
        lemma_deformation_qubits(d, base, rounds, q);
        let a = deformations_gates(head, base, rounds);
        let b = deformation_gates(d, base, rounds);
        lemma_all_qubits_add(a, b);
        lemma_add_contains(all_qubits(a), all_qubits(b), q);
        let x = check_qubits(check_views(d.checks@));
        let y = corrected_qubits(d.corrections@);
        lemma_add_contains(x, y, q);
        lemma_add_contains(deformed_qubits(head), x + y, q);
    }
}

/// The qubits counted ahead are those of the circuit: if there is a round at all, and
/// every corrected qubit is in some check of its deformation or in a base check, the
/// circuit of the checks touches the qubits that are counted, and no others.
pub proof fn law_counted_qubits_are_touched(checks: DeformedCheckSequence, rounds: usize)
    requires
        rounds >= 1,
        forall|i: int|
            0 <= i < checks.deformations@.len() ==> #[trigger] corrections_covered(
                checks.deformations@[i],
                check_views(checks.base_checks@),
            ),
    ensures
        ids_of(lowered(checks, rounds)).len() == distinct_qubits(checks),
{
    let s = lowered(checks, rounds);
    let base = check_views(checks.base_checks@);
    let ds = checks.deformations@;
    let a = resets(Pauli::Z, touched(base));
    let b = deformations_gates(ds, base, rounds);
    let all = sequence_qubits(checks);
    lemma_all_qubits_add(a, b);
    lemma_single_qubits(a, touched(base));
    crate::lowering::lemma_in_order_exists(all);
    let counted = in_order(all);
    assert(is_in_order(counted, all));
    assert forall|q: MergedQubit| #[trigger] ids_of(s).contains(q) <==> counted.contains(q) by {
        lemma_ids_contain(s, q);
        lemma_add_contains(all_qubits(a), all_qubits(b), q);
        lemma_add_contains(check_qubits(base), deformed_qubits(ds), q);
        lemma_edges_touched(base, q);
        lemma_deformations_qubits(ds, base, rounds, q);
        assert(counted.contains(q) <==> all.contains(q));
    }
    lemma_ids_distinct(s);
    lemma_same_count(ids_of(s), counted);
}

/// Streaming a circuit and writing it whole give the same gates, and so the same text:
/// if there is a round at all, and every corrected qubit is in some check of its
/// deformation or in a base check.
pub proof fn law_streaming_matches_writing(
    checks: DeformedCheckSequence,
    rounds: usize,
    schedule: Option<SecSchedule>,
)
    requires
        rounds >= 1,
        forall|i: int|
            0 <= i < checks.deformations@.len() ==> #[trigger] corrections_covered(
                checks.deformations@[i],
                check_views(checks.base_checks@),
            ),
        distinct_qubits(checks) <= usize::MAX,
    ensures
        streamed(checks, rounds, schedule) == written(schedule, flattened(lowered(checks, rounds))),
{
    law_counted_qubits_are_touched(checks, rounds);
    law_ancillas_follow_qubits(lowered(checks, rounds));
}

/// With two rounds or more, no deformation ends within a round.
proof fn lemma_deformation_closed(
    d: Deformation,
    base: Seq<SignedPauli<MergedQubit>>,
    rounds: usize,
)
    requires
        rounds >= 2,
    ensures
        closed_off(deformation_gates(d, base, rounds)),
{
    let checks = check_views(d.checks@);
    let basis = crate::graph_to_checks::conjugate(d.edge_basis);
    let edges = touched_edges(checks);
    let head = rounds_of(base, rounds) + resets(basis, edges);
    let c = rounds_of(checks, rounds);
    let r = readouts(basis, edges);
    let e = all_byproducts(edges, d.corrections@);
    let all = deformation_gates(d, base, rounds);
    assert(all =~= head + c + r + e);
    lemma_byproducts_corrected(edges, d.corrections@);
    if e.len() > 0 {
        assert(all.last() == e[e.len() - 1]);
    } else if r.len() > 0 {
        assert(all.last() == r[r.len() - 1]);
    } else {
        assert(all.last() == c[c.len() - 1]);
        assert(c.last() is Repeat);
    }
}

proof fn lemma_byproducts_corrected(
    edges: Seq<MergedQubit>,
    corrections: Seq<CorrectionSupport<BlockKind>>,
)
    ensures
        forall|i: int|
            0 <= i < all_byproducts(edges, corrections).len() ==> #[trigger] all_byproducts(
                edges,
                corrections,
            )[i] is XCorrection,
    decreases corrections.len(),
{
    if corrections.len() > 0 {
        lemma_byproducts_corrected(edges, corrections.drop_last());
        lemma_byproduct_kind(edges, corrections.last(), edges.len() as int);
        let a = all_byproducts(edges, corrections.drop_last());
        let b = byproducts(edges, corrections.last(), edges.len() as int);
        assert forall|i: int| 0 <= i < (a + b).len() implies #[trigger] (a + b)[i] is XCorrection by {
            if i < a.len() {
                assert((a + b)[i] == a[i]);
            } else {
                assert((a + b)[i] == b[i - a.len()]);
            }
        }
    }
}

proof fn lemma_byproduct_kind(edges: Seq<MergedQubit>, c: CorrectionSupport<BlockKind>, n: int)
    ensures
        forall|i: int|
            0 <= i < byproducts(edges, c, n).len() ==> #[trigger] byproducts(
                edges,
                c,
                n,
            )[i] is XCorrection,
    decreases n,
{
    if n > 0 {
        lemma_byproduct_kind(edges, c, n - 1);
        let before = byproducts(edges, c, n - 1);
        let now = byproducts(edges, c, n);
        assert forall|i: int| 0 <= i < now.len() implies #[trigger] now[i] is XCorrection by {
            if i < before.len() {
                assert(now[i] == before[i]);
            }
        }
    }
}

/// Streaming gives what lowering the checks whole, numbering the qubits and writing
/// gives, with two rounds or more and every corrected qubit in some check of its
/// deformation or in a base check: the same text and `TICK` count, and the statistics of
/// the whole circuit. It is refused only where a number outruns the machine integers.
pub proof fn law_streaming_gives_the_whole(
    checks: DeformedCheckSequence,
    rounds: usize,
    schedule: Option<SecSchedule>,
    whole: PhysicalCircuit<MergedQubit>,
    a: CircuitStats,
    b: CircuitStats,
)
    requires
        rounds >= 2,
        forall|i: int|
            0 <= i < checks.deformations@.len() ==> #[trigger] corrections_covered(
                checks.deformations@[i],
                check_views(checks.base_checks@),
            ),
        distinct_qubits(checks) <= usize::MAX,
        whole@ == lowered(checks, rounds),
    ensures
        stim_text(streamed(checks, rounds, schedule), Seq::empty()) == stim_text(
            written(schedule, flattened(whole@)),
            Seq::empty(),
        ),
        tick_total(streamed(checks, rounds, schedule)) == tick_total(
            written(schedule, flattened(whole@)),
        ),
        stats_of(lowered(checks, rounds), 0, a) && stats_of(whole@, 0, b) ==> a == b,
        streamable(checks, rounds, schedule) <==> fits_pipe(
            schedule,
            whole@,
            distinct_qubits(checks) as int,
        ),
{
    law_streaming_matches_writing(checks, rounds, schedule);
    let base = check_views(checks.base_checks@);
    assert forall|i: int| 0 <= i < checks.deformations@.len() implies closed_off(
        deformation_gates(#[trigger] checks.deformations@[i], base, rounds),
    ) by {
        lemma_deformation_closed(checks.deformations@[i], base, rounds);
    }
}

} // verus!
