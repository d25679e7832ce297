//! Memory experiments: the transversal readout of a circuit and what it determines.

use vstd::prelude::*;

use crate::circuit_to_checks::{BlockKind, CodeData, DeformedCheckSequence};
#[allow(unused_imports)]
use crate::circuit_to_checks::{base_forms, basis_of, physical_views, pure_strings};
#[allow(unused_imports)]
use crate::frame::{
    corrected, fresh, lemma_listed, listed, measured, record_set, reset_to, solution, Bits,
    FrameSimModel,
};
use crate::frame::{FrameSim, PauliBits};
#[allow(unused_imports)]
use crate::graph_to_checks::check_views;
use crate::keyed::{sorted_insert, OrderedKey};
#[allow(unused_imports)]
use crate::keyed::increasing;
#[allow(unused_imports)]
use crate::lowering::{
    in_order, is_in_order, lemma_in_order, lowerable, lowered, readouts, resets,
    rounds_countable, rounds_of, touched,
};
use crate::lowering::{
    checks_to_physical_circuit, collect_qubits, d_rounds, push_readouts, push_resets, MergedQubit,
};
#[allow(unused_imports)]
use crate::matrix::string_views;
use crate::pbc::{GraphPauli, MergedCodeQubit, Pauli, PauliAxis, PhysicalQubit};
#[allow(unused_imports)]
use crate::pbc::SignedPauli;
use crate::physical::{count_checked, Counted, Interner, PhysicalCircuit, PhysicalGate};
#[allow(unused_imports)]
use crate::physical::{
    all_qubits, gate_model, gate_models, gate_qubits, lemma_gate_models, lemma_gate_models_add,
    lemma_gate_models_push, lemma_note_all_add, lemma_note_all_prefix, lemma_noted_iff,
    note_all, number_of, record_total, GateModel,
};

verus! {

/// An operator by its sites.
pub type Support = Vec<(MergedQubit, Pauli)>;

/// The contents of operators.
pub open spec fn support_views(v: Seq<Support>) -> Seq<Seq<(MergedQubit, Pauli)>> {
    Seq::new(v.len(), |i: int| v[i]@)
}

/// The qubits of an operator.
pub open spec fn qubits_of_sites(sites: Seq<(MergedQubit, Pauli)>) -> Seq<MergedQubit> {
    Seq::new(sites.len(), |i: int| sites[i].0)
}

/// The qubits of operators, one after another.
pub open spec fn support_qubits(ops: Seq<Seq<(MergedQubit, Pauli)>>) -> Seq<MergedQubit>
    decreases ops.len(),
{
    if ops.len() == 0 {
        Seq::empty()
    } else {
        support_qubits(ops.drop_last()) + qubits_of_sites(ops.last())
    }
}

// ---------------------------------------------------------------------------
// Following a circuit
// ---------------------------------------------------------------------------
/// The qubits of a circuit and of operators, numbered in order of first appearance.
pub open spec fn numbering(
    s: Seq<GateModel<MergedQubit>>,
    ops: Seq<Seq<(MergedQubit, Pauli)>>,
) -> Seq<MergedQubit> {
    note_all(note_all(Seq::empty(), all_qubits(s)), support_qubits(ops))
}

/// Some site has qubit number `i` and a Pauli with this part.
pub open spec fn has_part(
    sites: Seq<(MergedQubit, Pauli)>,
    seen: Seq<MergedQubit>,
    i: int,
    x: bool,
) -> bool {
    exists|k: int|
        0 <= k < sites.len() && number_of(seen, (#[trigger] sites[k]).0) == i && if x {
            sites[k].1.has_x()
        } else {
            sites[k].1.has_z()
        }
}

/// The sites as an operator on numbered qubits.
pub open spec fn numbered_bits(sites: Seq<(MergedQubit, Pauli)>, seen: Seq<MergedQubit>) -> Bits {
    Bits {
        x: Seq::new(seen.len(), |i: int| has_part(sites, seen, i, true)),
        z: Seq::new(seen.len(), |i: int| has_part(sites, seen, i, false)),
    }
}

/// The frame after a gate; `None` if a correction is controlled on a record that is not
/// there. Repeated bodies, declarations and layers are passed over.
pub open spec fn followed_gate(t: FrameSimModel, g: GateModel<MergedQubit>, seen: Seq<MergedQubit>) -> Option<
    FrameSimModel,
> {
    match g {
        GateModel::Reset(basis, q) => Some(reset_to(t, basis, number_of(seen, q) as int)),
        GateModel::Measure(p, q, _) => Some(measured(t, numbered_bits(seq![(q, p)], seen))),
        GateModel::MPP(p) => Some(measured(t, numbered_bits(p.sites, seen))),
        GateModel::XCorrection(k, q) => if 1 <= k <= t.rec.len() {
            Some(corrected(t, t.rec.len() - k, number_of(seen, q) as int))
        } else {
            None
        },
        _ => Some(t),
    }
}

/// The frame after gates.
pub open spec fn followed(s: Seq<GateModel<MergedQubit>>, seen: Seq<MergedQubit>) -> Option<
    FrameSimModel,
>
    decreases s.len(),
{
    if s.len() == 0 {
        if 2 * seen.len() <= usize::MAX {
            Some(fresh(seen.len()))
        } else {
            None
        }
    } else {
        match followed(s.drop_last(), seen) {
            None => None,
            Some(t) => followed_gate(t, s.last(), seen),
        }
    }
}

/// The records that make operators determined, in increasing order; `None` for one that
/// is not determined.
pub open spec fn solutions(
    t: FrameSimModel,
    ops: Seq<Seq<(MergedQubit, Pauli)>>,
    seen: Seq<MergedQubit>,
) -> Seq<Option<Seq<usize>>> {
    Seq::new(
        ops.len(),
        |i: int|
            match solution(t, numbered_bits(ops[i], seen)) {
                Some(s) => Some(listed(s)),
                None => None,
            },
    )
}

/// For each of the first `k` records that is determined by earlier ones: that record and
/// those.
pub open spec fn determinism(rec: Seq<Set<usize>>, k: int) -> Seq<Seq<usize>>
    decreases k,
{
    if k <= 0 {
        Seq::empty()
    } else {
        let before = determinism(rec, k - 1);
        let own = (k - 1) as usize;
        if rec[k - 1].contains(own) {
            before
        } else {
            before.push(listed(rec[k - 1].insert(own)))
        }
    }
}

/// What a frame tells of operators and of the records themselves.
pub struct FrameSolve {
    /// For each operator the records whose parity is its sign, where it is determined.
    pub supports: Vec<Option<Vec<usize>>>,
    /// Sets of records of even parity: each record that is determined by earlier ones,
    /// with those.
    pub determinism_detectors: Vec<Vec<usize>>,
}

pub open spec fn solution_views(v: Seq<Option<Vec<usize>>>) -> Seq<Option<Seq<usize>>> {
    Seq::new(
        v.len(),
        |i: int|
            match v[i] {
                Some(r) => Some(r@),
                None => None,
            },
    )
}

pub open spec fn list_views(v: Seq<Vec<usize>>) -> Seq<Seq<usize>> {
    Seq::new(v.len(), |i: int| v[i]@)
}

/// The sites as an operator on numbered qubits.
fn pauli_bits(sites: &Support, ids: &Interner<MergedQubit>) -> (r: PauliBits)
    requires
        forall|k: int| 0 <= k < sites@.len() ==> ids@.contains((#[trigger] sites@[k]).0),
    ensures
        r@ == numbered_bits(sites@, ids@),
{
    let n: usize = ids.len();
    let mut x: Vec<bool> = Vec::new();
    let mut z: Vec<bool> = Vec::new();
    for i in 0..n
        invariant
            x@.len() == i,
            z@.len() == i,
            forall|k: int| 0 <= k < i ==> !(#[trigger] x@[k]),
            forall|k: int| 0 <= k < i ==> !(#[trigger] z@[k]),
    {
        x.push(false);
        z.push(false);
    }
    let ghost seen = ids@;
    assert forall|i: int, b: bool| !#[trigger] has_part(sites@.take(0), seen, i, b) by {}
    for k in 0..sites.len()
        invariant
            seen == ids@,
            forall|k: int| 0 <= k < sites@.len() ==> seen.contains((#[trigger] sites@[k]).0),
            x@.len() == seen.len(),
            z@.len() == seen.len(),
            forall|i: int|
                0 <= i < seen.len() ==> #[trigger] x@[i] == has_part(
                    sites@.take(k as int),
                    seen,
                    i,
                    true,
                ),
            forall|i: int|
                0 <= i < seen.len() ==> #[trigger] z@[i] == has_part(
                    sites@.take(k as int),
                    seen,
                    i,
                    false,
                ),
    {
        let (q, p) = sites[k];
        assert(seen.contains(sites@[k as int].0));
        let i: usize = ids.lookup(&q).unwrap();
        let in_x = p == Pauli::X || p == Pauli::Y;
        let in_z = p == Pauli::Z || p == Pauli::Y;
        let ghost a = sites@.take(k as int);
        let ghost b = sites@.take(k + 1);
        proof {
            assert forall|j: int, part: bool| #[trigger] has_part(b, seen, j, part) == (has_part(
                a,
                seen,
                j,
                part,
            ) || (j == i && if part {
                in_x
            } else {
                in_z
            })) by {
                if has_part(a, seen, j, part) {
                    let w = choose|w: int|
                        0 <= w < a.len() && number_of(seen, (#[trigger] a[w]).0) == j && if part {
                            a[w].1.has_x()
                        } else {
                            a[w].1.has_z()
                        };
                    assert(b[w] == a[w]);
                }
                assert(b[k as int] == sites@[k as int]);
                if has_part(b, seen, j, part) {
                    let w = choose|w: int|
                        0 <= w < b.len() && number_of(seen, (#[trigger] b[w]).0) == j && if part {
                            b[w].1.has_x()
                        } else {
                            b[w].1.has_z()
                        };
                    if w < k {
                        assert(a[w] == b[w]);
                    }
                }
            }
        }
        if in_x {
            x.set(i, true);
        }
        if in_z {
            z.set(i, true);
        }
    }
    assert(sites@.take(sites@.len() as int) =~= sites@);
    let r = PauliBits { x, z };
    assert(r@.x =~= numbered_bits(sites@, ids@).x);
    assert(r@.z =~= numbered_bits(sites@, ids@).z);
    r
}

/// Number the qubits of gates, in repeated bodies too.
fn intern_gates(gates: &Vec<PhysicalGate<MergedQubit>>, ids: &mut Interner<MergedQubit>)
    requires
        old(ids)@.no_duplicates(),
    ensures
        final(ids)@ == note_all(old(ids)@, all_qubits(gate_models(gates@))),
        final(ids)@.no_duplicates(),
{
    let flat = crate::physical::flatten_gates(gates, ids);
}

/// Number the qubits of operators.
fn intern_supports(ops: &Vec<Support>, ids: &mut Interner<MergedQubit>)
    ensures
        final(ids)@ == note_all(old(ids)@, support_qubits(support_views(ops@))),
{
    let ghost seen = ids@;
    let ghost views = support_views(ops@);
    assert(views.take(0) =~= Seq::empty());
    for i in 0..ops.len()
        invariant
            views == support_views(ops@),
            ids@ == note_all(seen, support_qubits(views.take(i as int))),
    {
        let op = &ops[i];
        let ghost qs = qubits_of_sites(op@);
        let ghost before = ids@;
        assert(qs.take(0) =~= Seq::empty());
        for k in 0..op.len()
            invariant
                qs == qubits_of_sites(op@),
                ids@ == note_all(before, qs.take(k as int)),
        {
            let id: usize = ids.intern(op[k].0);
            assert(qs.take(k + 1).drop_last() =~= qs.take(k as int));
        }
        proof {
            assert(qs.take(qs.len() as int) =~= qs);
            assert(views.take(i + 1).drop_last() =~= views.take(i as int));
            lemma_note_all_add(seen, support_qubits(views.take(i as int)), qs);
        }
    }
    assert(views.take(views.len() as int) =~= views);
}

/// Every qubit of gate `g` is numbered.
spec fn gate_numbered(g: GateModel<MergedQubit>, seen: Seq<MergedQubit>) -> bool {
    forall|q: MergedQubit| #[trigger] gate_qubits(g).contains(q) ==> seen.contains(q)
}

proof fn lemma_gates_numbered(s: Seq<GateModel<MergedQubit>>, seen: Seq<MergedQubit>, i: int)
    requires
        forall|q: MergedQubit| #[trigger] all_qubits(s).contains(q) ==> seen.contains(q),
        0 <= i < s.len(),
    ensures
        gate_numbered(s[i], seen),
    decreases s.len(),
{
    let head = s.drop_last();
    assert forall|q: MergedQubit| #[trigger] all_qubits(head).contains(q) implies seen.contains(
        q,
    ) by {
        crate::lowering::lemma_add_contains(all_qubits(head), gate_qubits(s.last()), q);
        assert(all_qubits(s).contains(q));
    }
    if i < head.len() {
        lemma_gates_numbered(head, seen, i);
    } else {
        assert forall|q: MergedQubit| #[trigger] gate_qubits(s[i]).contains(q) implies seen.contains(
            q,
        ) by {
            crate::lowering::lemma_add_contains(all_qubits(head), gate_qubits(s.last()), q);
            assert(all_qubits(s).contains(q));
        }
    }
}

proof fn lemma_noted(seen: Seq<MergedQubit>, qs: Seq<MergedQubit>, q: MergedQubit)
    requires
        seen.contains(q) || qs.contains(q),
    ensures
        note_all(seen, qs).contains(q),
{
    lemma_note_all_prefix(seen, qs);
    let now = note_all(seen, qs);
    if seen.contains(q) {
        let i = seen.index_of(q);
        assert(seen[i] == q);
        assert(now[i] == q);
    } else {
        let i = qs.index_of(q);
        assert(qs[i] == q);
        assert(now.contains(qs[i]));
    }
}

/// Follow a gate; `false` if a correction is controlled on a record that is not there.
fn follow_gate(sim: &mut FrameSim, gate: &PhysicalGate<MergedQubit>, ids: &Interner<MergedQubit>) -> (r:
    bool)
    requires
        old(sim).wf(),
        old(sim)@.n == ids@.len(),
        gate_numbered(gate_model(*gate), ids@),
    ensures
        final(sim).wf(),
        final(sim)@.n == old(sim)@.n,
        match followed_gate(old(sim)@, gate_model(*gate), ids@) {
            Some(t) => r && final(sim)@ == t,
            None => !r,
        },
{
    let ghost seen = ids@;
    let n: usize = ids.len();
    match gate {
        PhysicalGate::Reset(basis, q) => {
            assert(gate_qubits(gate_model(*gate))[0] == *q);
            assert(gate_qubits(gate_model(*gate)).contains(*q));
            let i: usize = ids.lookup(q).unwrap();
            sim.reset(*basis, i);
            true
        },
        PhysicalGate::Measure(p, q, _) => {
            assert(gate_qubits(gate_model(*gate))[0] == *q);
            assert(gate_qubits(gate_model(*gate)).contains(*q));
            let sites: Support = vec![(*q, *p)];
            assert(sites@ =~= seq![(*q, *p)]);
            let bits = pauli_bits(&sites, ids);
            sim.measure(bits);
            true
        },
        PhysicalGate::MPP(p) => {
            let sites = p.pauli_string.sites();
            let ghost qs = gate_qubits(gate_model(*gate));
            assert forall|k: int| 0 <= k < sites@.len() implies seen.contains(
                (#[trigger] sites@[k]).0,
            ) by {
                assert(qs[k] == sites@[k].0);
                assert(qs.contains(qs[k]));
            }
            let bits = pauli_bits(sites, ids);
            sim.measure(bits);
            true
        },
        PhysicalGate::XCorrection(k, q) => {
            assert(gate_qubits(gate_model(*gate))[0] == *q);
            assert(gate_qubits(gate_model(*gate)).contains(*q));
            let i: usize = ids.lookup(q).unwrap();
            let count: usize = sim.records();
            if *k == 0 || *k > count {
                return false;
            }
            sim.x_correction(count - *k, i);
            true
        },
        _ => true,
    }
}

/// Run the frame over a circuit and solve for operators. `None` if a correction is
/// controlled on a record that is not there, or the rows of the frame cannot be counted.
pub fn solve_memory_observables(
    circuit: &PhysicalCircuit<MergedQubit>,
    supports: &Vec<Support>,
) -> (r: Option<FrameSolve>)
    ensures
        ({
            let ops = support_views(supports@);
            let seen = numbering(circuit@, ops);
            match followed(circuit@, seen) {
                None => r is None,
                Some(t) => r matches Some(f) && solution_views(f.supports@) == solutions(
                    t,
                    ops,
                    seen,
                ) && list_views(f.determinism_detectors@) == determinism(
                    t.rec,
                    t.rec.len() as int,
                ),
            }
        }),
{
    let ghost s = circuit@;
    let ghost ops = support_views(supports@);
    let mut ids: Interner<MergedQubit> = Interner::new();
    intern_gates(&circuit.gates, &mut ids);
    let ghost first = ids@;
    intern_supports(supports, &mut ids);
    let ghost seen = ids@;
    assert(seen == numbering(s, ops));
    let n: usize = ids.len();
    proof {
        lemma_gate_models(circuit.gates@);
        assert(s.take(0) =~= Seq::empty());
    }
    if n > usize::MAX / 2 {
        proof {
            lemma_never_followed(s, seen);
        }
        return None;
    }
    let mut sim = FrameSim::new(n);
    let mut i: usize = 0;
    while i < circuit.gates.len()
        invariant
            i <= circuit.gates@.len(),
            s == gate_models(circuit.gates@),
            s == circuit@,
            s.len() == circuit.gates@.len(),
            forall|k: int|
                0 <= k < circuit.gates@.len() ==> #[trigger] s[k] == gate_model(
                    circuit.gates@[k],
                ),
            ops == support_views(supports@),
            seen == ids@,
            seen == numbering(s, ops),
            sim.wf(),
            sim@.n == seen.len(),
            followed(s.take(i as int), seen) == Some(sim@),
        decreases circuit.gates@.len() - i,
    {
        proof {
            assert forall|q: MergedQubit| #[trigger] all_qubits(s).contains(q) implies seen.contains(
                q,
            ) by {
                lemma_noted(Seq::empty(), all_qubits(s), q);
                lemma_noted(note_all(Seq::empty(), all_qubits(s)), support_qubits(ops), q);
            }
            lemma_gates_numbered(s, seen, i as int);
            assert(s.take(i + 1).drop_last() =~= s.take(i as int));
            assert(s.take(i + 1).last() == s[i as int]);
        }
        if !follow_gate(&mut sim, &circuit.gates[i], &ids) {
            proof {
                lemma_followed_stops(s, seen, i + 1);
            }
            return None;
        }
        i = i + 1;
    }
    assert(s.take(s.len() as int) =~= s);
    assert forall|q: MergedQubit| #[trigger] support_qubits(ops).contains(q) implies seen.contains(
        q,
    ) by {
        lemma_noted(note_all(Seq::empty(), all_qubits(s)), support_qubits(ops), q);
    }
    let solved = solve_all(&sim, supports, &ids);
    let determinism_detectors = determined_records(&sim);
    Some(FrameSolve { supports: solved, determinism_detectors })
}

proof fn lemma_never_followed(s: Seq<GateModel<MergedQubit>>, seen: Seq<MergedQubit>)
    requires
        2 * seen.len() > usize::MAX,
    ensures
        followed(s, seen) is None,
    decreases s.len(),
{
    if s.len() > 0 {
        lemma_never_followed(s.drop_last(), seen);
    }
}

proof fn lemma_followed_stops(s: Seq<GateModel<MergedQubit>>, seen: Seq<MergedQubit>, i: int)
    requires
        0 <= i <= s.len(),
        followed(s.take(i), seen) is None,
    ensures
        followed(s, seen) is None,
    decreases s.len() - i,
{
    if i < s.len() {
        assert(s.take(i + 1).drop_last() =~= s.take(i));
        lemma_followed_stops(s, seen, i + 1);
    } else {
        assert(s.take(i) =~= s);
    }
}

fn solve_all(sim: &FrameSim, supports: &Vec<Support>, ids: &Interner<MergedQubit>) -> (r: Vec<
    Option<Vec<usize>>,
>)
    requires
        sim.wf(),
        sim@.n == ids@.len(),
        forall|q: MergedQubit| #[trigger]
            support_qubits(support_views(supports@)).contains(q) ==> ids@.contains(q),
    ensures
        solution_views(r@) == solutions(sim@, support_views(supports@), ids@),
{
    let ghost ops = support_views(supports@);
    let ghost goal = solutions(sim@, ops, ids@);
    let mut r: Vec<Option<Vec<usize>>> = Vec::new();
    assert(solution_views(r@) =~= goal.take(0));
    for i in 0..supports.len()
        invariant
            sim.wf(),
            sim@.n == ids@.len(),
            forall|q: MergedQubit| #[trigger]
                support_qubits(support_views(supports@)).contains(q) ==> ids@.contains(q),
            ops == support_views(supports@),
            goal == solutions(sim@, ops, ids@),
            solution_views(r@) == goal.take(i as int),
    {
        let op = &supports[i];
        assert forall|k: int| 0 <= k < op@.len() implies ids@.contains((#[trigger] op@[k]).0) by {
            lemma_support_qubit(ops, i as int, k);
        }
        let bits = pauli_bits(op, ids);
        let one = sim.solve(&bits);
        proof {
            if let Some(set) = solution(sim@, bits@) {
                lemma_listed(one->0@, set);
            }
            assert(solution_views(r@.push(one)) =~= solution_views(r@).push(
                match one {
                    Some(v) => Some(v@),
                    None => None,
                },
            ));
            assert(goal.take(i + 1) =~= goal.take(i as int).push(goal[i as int]));
        }
        r.push(one);
    }
    assert(goal.take(goal.len() as int) =~= goal);
    r
}

pub(crate) proof fn lemma_support_qubit(ops: Seq<Seq<(MergedQubit, Pauli)>>, i: int, k: int)
    requires
        0 <= i < ops.len(),
        0 <= k < ops[i].len(),
    ensures
        support_qubits(ops).contains(ops[i][k].0),
    decreases ops.len(),
{
    let head = ops.drop_last();
    let q = ops[i][k].0;
    let last = qubits_of_sites(ops.last());
    crate::lowering::lemma_add_contains(support_qubits(head), last, q);
    if i < head.len() {
        assert(head[i] == ops[i]);
        lemma_support_qubit(head, i, k);
    } else {
        assert(last[k] == q);
    }
}

fn determined_records(sim: &FrameSim) -> (r: Vec<Vec<usize>>)
    requires
        sim.wf(),
    ensures
        list_views(r@) == determinism(sim@.rec, sim@.rec.len() as int),
{
    let n: usize = sim.records();
    let ghost rec = sim@.rec;
    let mut r: Vec<Vec<usize>> = Vec::new();
    assert(list_views(r@) =~= determinism(rec, 0));
    for rid in 0..n
        invariant
            sim.wf(),
            rec == sim@.rec,
            n == rec.len(),
            list_views(r@) == determinism(rec, rid as int),
    {
        let value = sim.record(rid);
        let ghost set = rec[rid as int];
        let here = crate::keyed::sorted_contains(value, &rid);
        assert(record_set(value@).contains(rid) == value@.contains(rid));
        if !here {
            let mut list: Vec<usize> = value.clone();
            assert(list@ =~= value@);
            let added = sorted_insert(&mut list, rid);
            proof {
                assert(record_set(list@) =~= set.insert(rid)) by {
                    assert forall|q: usize| record_set(list@).contains(q) <==> set.insert(
                        rid,
                    ).contains(q) by {
                        assert(list@.contains(q) <==> value@.contains(q) || q == rid);
                        assert(record_set(value@).contains(q) <==> value@.contains(q));
                    }
                }
                lemma_listed(list@, set.insert(rid));
                assert(list_views(r@.push(list)) =~= list_views(r@).push(list@));
            }
            r.push(list);
        }
    }
    r
}

// ---------------------------------------------------------------------------
// Places of records
// ---------------------------------------------------------------------------
/// Makes a record.
pub open spec fn makes_record(g: GateModel<MergedQubit>) -> bool {
    g is MPP || g is Measure
}

/// The walk over a deep circuit: the places of the records of the single-round circuit,
/// the records passed, and the single-round gates passed.
#[verifier::ext_equal]
pub struct Walk {
    pub places: Seq<usize>,
    pub records: nat,
    pub gates: nat,
}

/// Walk over the deep circuit along the single-round one, which lacks the repeated
/// bodies. `None` if the single-round circuit ends early or the records cannot be
/// counted.
pub open spec fn walked(
    single: Seq<GateModel<MergedQubit>>,
    deep: Seq<GateModel<MergedQubit>>,
) -> Option<Walk>
    decreases deep.len(),
{
    if deep.len() == 0 {
        Some(Walk { places: Seq::empty(), records: 0, gates: 0 })
    } else {
        match walked(single, deep.drop_last()) {
            None => None,
            Some(w) => {
                let next = match deep.last() {
                    GateModel::Repeat(n, body) => Some(
                        Walk { records: w.records + (n as nat) * record_total(body), ..w },
                    ),
                    _ => if w.gates >= single.len() {
                        None
                    } else if makes_record(single[w.gates as int]) {
                        Some(
                            Walk {
                                places: w.places.push(w.records as usize),
                                records: w.records + 1,
                                gates: w.gates + 1,
                            },
                        )
                    } else {
                        Some(Walk { gates: w.gates + 1, ..w })
                    },
                };
                match next {
                    None => None,
                    Some(v) => if v.records <= usize::MAX {
                        Some(v)
                    } else {
                        None
                    },
                }
            },
        }
    }
}

proof fn lemma_walk_stops(
    single: Seq<GateModel<MergedQubit>>,
    deep: Seq<GateModel<MergedQubit>>,
    i: int,
)
    requires
        0 <= i <= deep.len(),
        walked(single, deep.take(i)) is None,
    ensures
        walked(single, deep) is None,
    decreases deep.len() - i,
{
    if i < deep.len() {
        assert(deep.take(i + 1).drop_last() =~= deep.take(i));
        lemma_walk_stops(single, deep, i + 1);
    } else {
        assert(deep.take(i) =~= deep);
    }
}

/// The place in the deep circuit of each record of the single-round circuit: that of the
/// same check in the first of the repeated rounds.
pub fn record_map(single: &PhysicalCircuit<MergedQubit>, deep: &PhysicalCircuit<MergedQubit>) -> (r:
    Option<Vec<usize>>)
    ensures
        match walked(single@, deep@) {
            None => r is None,
            Some(w) => r matches Some(m) && m@ == w.places,
        },
{
    let ghost s = single@;
    let ghost d = deep@;
    proof {
        lemma_gate_models(single.gates@);
        lemma_gate_models(deep.gates@);
        assert(d.take(0) =~= Seq::empty());
    }
    let mut map: Vec<usize> = Vec::new();
    let mut m_deep: usize = 0;
    let mut used: usize = 0;
    assert(map@ =~= Seq::<usize>::empty());
    let mut i: usize = 0;
    while i < deep.gates.len()
        invariant
            i <= deep.gates@.len(),
            s == single@,
            d == deep@,
            s.len() == single.gates@.len(),
            d.len() == deep.gates@.len(),
            forall|k: int|
                0 <= k < single.gates@.len() ==> #[trigger] s[k] == gate_model(single.gates@[k]),
            forall|k: int|
                0 <= k < deep.gates@.len() ==> #[trigger] d[k] == gate_model(deep.gates@[k]),
            walked(s, d.take(i as int)) == Some(
                Walk { places: map@, records: m_deep as nat, gates: used as nat },
            ),
        decreases deep.gates@.len() - i,
    {
        proof {
            assert(d.take(i + 1).drop_last() =~= d.take(i as int));
            assert(d.take(i + 1).last() == d[i as int]);
            assert(d[i as int] == gate_model(deep.gates@[i as int]));
        }
        match &deep.gates[i] {
            PhysicalGate::Repeat(_, _) => {
                let more: usize = match crate::physical::count_gate_checked(
                    Counted::Records,
                    &deep.gates[i],
                ) {
                    Some(n) => n,
                    None => {
                        proof {
                            lemma_walk_stops(s, d, i + 1);
                        }
                        return None;
                    },
                };
                if more > usize::MAX - m_deep {
                    proof {
                        lemma_walk_stops(s, d, i + 1);
                    }
                    return None;
                }
                m_deep = m_deep + more;
            },
            _ => {
                if used >= single.gates.len() {
                    proof {
                        lemma_walk_stops(s, d, i + 1);
                    }
                    return None;
                }
                assert(s[used as int] == gate_model(single.gates@[used as int]));
                let records = match &single.gates[used] {
                    PhysicalGate::MPP(_) => true,
                    PhysicalGate::Measure(_, _, _) => true,
                    _ => false,
                };
                if records {
                    if m_deep == usize::MAX {
                        proof {
                            lemma_walk_stops(s, d, i + 1);
                        }
                        return None;
                    }
                    map.push(m_deep);
                    m_deep = m_deep + 1;
                }
                used = used + 1;
            },
        }
        i = i + 1;
    }
    assert(d.take(d.len() as int) =~= d);
    Some(map)
}

// ---------------------------------------------------------------------------
// The readout
// ---------------------------------------------------------------------------
/// The offsets of an operator's own readout, when the qubits were read out last.
pub open spec fn own_offsets(sites: Seq<(MergedQubit, Pauli)>, read: Seq<MergedQubit>) -> Seq<usize> {
    Seq::new(sites.len(), |i: int| (read.len() - read.index_of(sites[i].0)) as usize)
}

/// The offsets of earlier records from the end.
pub open spec fn earlier_offsets(records: Seq<usize>, places: Seq<usize>, running: nat) -> Seq<
    usize,
> {
    Seq::new(records.len(), |i: int| (running - places[records[i] as int]) as usize)
}

/// Every record has a place before the readout.
pub open spec fn have_places(records: Seq<usize>, places: Seq<usize>, before: nat) -> bool {
    forall|i: int|
        0 <= i < records.len() ==> (#[trigger] records[i]) < places.len()
            && places[records[i] as int] < before
}

/// Every record of every solution has a place.
pub open spec fn all_have_places(
    solved: Seq<Option<Seq<usize>>>,
    places: Seq<usize>,
    before: nat,
) -> bool {
    forall|i: int|
        0 <= i < solved.len() ==> (#[trigger] solved[i] matches Some(records) ==> have_places(
            records,
            places,
            before,
        ))
}

pub open spec fn lists_have_places(v: Seq<Seq<usize>>, places: Seq<usize>, before: nat) -> bool {
    forall|i: int| 0 <= i < v.len() ==> have_places(#[trigger] v[i], places, before)
}

/// What pins an operator: its readout and the earlier records.
pub open spec fn pinned(
    sites: Seq<(MergedQubit, Pauli)>,
    records: Seq<usize>,
    read: Seq<MergedQubit>,
    places: Seq<usize>,
    running: nat,
) -> Seq<usize> {
    own_offsets(sites, read) + earlier_offsets(records, places, running)
}

/// The declarations of the first `k` operators, those that are determined: observables,
/// numbered, or detectors.
pub open spec fn declarations(
    ops: Seq<Seq<(MergedQubit, Pauli)>>,
    solved: Seq<Option<Seq<usize>>>,
    observables: bool,
    read: Seq<MergedQubit>,
    places: Seq<usize>,
    running: nat,
    k: int,
) -> Seq<GateModel<MergedQubit>>
    decreases k,
{
    if k <= 0 {
        Seq::empty()
    } else {
        let before = declarations(ops, solved, observables, read, places, running, k - 1);
        match solved[k - 1] {
            None => before,
            Some(records) => {
                let offsets = pinned(ops[k - 1], records, read, places, running);
                before.push(
                    if observables {
                        GateModel::DeclareObservable((k - 1) as usize, offsets)
                    } else {
                        GateModel::DeclareDetector(offsets)
                    },
                )
            },
        }
    }
}

/// The detectors on records that earlier records determine.
pub open spec fn determinism_gates(v: Seq<Seq<usize>>, places: Seq<usize>, running: nat) -> Seq<
    GateModel<MergedQubit>,
> {
    Seq::new(
        v.len(),
        |i: int| GateModel::DeclareDetector(earlier_offsets(v[i], places, running)),
    )
}

/// A circuit with its transversal readout: every qubit of the operators is measured,
/// each logical operator that is determined becomes an observable, and each stabilizer
/// that is determined and each determined record a detector. `None` where a record that
/// is needed has no place in the deep circuit, or records cannot be counted.
pub open spec fn with_readout(
    single: Seq<GateModel<MergedQubit>>,
    deep: Seq<GateModel<MergedQubit>>,
    logicals: Seq<Seq<(MergedQubit, Pauli)>>,
    stabs: Seq<Seq<(MergedQubit, Pauli)>>,
    basis: Pauli,
) -> Option<Seq<GateModel<MergedQubit>>> {
    let ops = logicals + stabs;
    let seen = numbering(single, ops);
    match (followed(single, seen), walked(single, deep)) {
        (Some(t), Some(w)) => {
            let solved = solutions(t, ops, seen);
            let certain = determinism(t.rec, t.rec.len() as int);
            let read = in_order(support_qubits(ops));
            let before = record_total(deep);
            let running = before + read.len();
            if running > usize::MAX || !all_have_places(solved, w.places, before)
                || !lists_have_places(certain, w.places, before) {
                None
            } else {
                let k = logicals.len() as int;
                Some(
                    deep + readouts(basis, read) + declarations(
                        logicals,
                        solved.take(k),
                        true,
                        read,
                        w.places,
                        running,
                        k,
                    ) + declarations(
                        stabs,
                        solved.skip(k),
                        false,
                        read,
                        w.places,
                        running,
                        stabs.len() as int,
                    ) + determinism_gates(certain, w.places, running),
                )
            }
        },
        _ => None,
    }
}

/// An operator of the memory block on the qubits of the merged code.
pub open spec fn memory_sites(op: SignedPauli<PhysicalQubit>) -> Seq<(MergedQubit, Pauli)> {
    Seq::new(
        op.sites.len(),
        |i: int|
            (
                MergedCodeQubit::CodeQubit { block: BlockKind::Memory, index: op.sites[i].0.0 },
                op.sites[i].1,
            ),
    )
}

pub open spec fn memory_supports(ops: Seq<SignedPauli<PhysicalQubit>>) -> Seq<
    Seq<(MergedQubit, Pauli)>,
> {
    Seq::new(ops.len(), |i: int| memory_sites(ops[i]))
}

/// The logical operators of the memory block in a basis.
pub open spec fn memory_logicals(code: CodeData, basis: Pauli) -> Seq<Seq<(MergedQubit, Pauli)>> {
    memory_supports(basis_of(string_views(code.memory.logical_basis@), basis))
}

/// The stabilizers of the memory block in a basis.
pub open spec fn memory_stabs(code: CodeData, basis: Pauli) -> Seq<Seq<(MergedQubit, Pauli)>> {
    memory_supports(pure_strings(string_views(code.memory.stabilizers@), basis))
}

/// Append the memory block's operators on the qubits of the merged code.
fn push_lifted(ops: &Vec<PauliAxis<PhysicalQubit>>, out: &mut Vec<Support>)
    ensures
        support_views(final(out)@) == support_views(old(out)@) + memory_supports(
            physical_views(ops@),
        ),
{
    let ghost before = support_views(out@);
    let ghost goal = memory_supports(physical_views(ops@));
    assert(before + goal.take(0) =~= before);
    for i in 0..ops.len()
        invariant
            goal == memory_supports(physical_views(ops@)),
            support_views(out@) == before + goal.take(i as int),
    {
        let sites = ops[i].pauli_string.sites();
        let ghost here = memory_sites(ops@[i as int]@);
        let mut lifted: Support = Vec::new();
        for k in 0..sites.len()
            invariant
                here == memory_sites(ops@[i as int]@),
                sites@ == ops@[i as int]@.sites,
                lifted@ == here.take(k as int),
        {
            let (q, p) = sites[k];
            lifted.push(
                (MergedCodeQubit::CodeQubit { block: BlockKind::Memory, index: q.0 }, p),
            );
            assert(lifted@ =~= here.take(k + 1));
        }
        proof {
            assert(here.take(here.len() as int) =~= here);
            assert(goal[i as int] == here);
            assert(support_views(out@.push(lifted)) =~= support_views(out@).push(lifted@));
            assert(goal.take(i + 1) =~= goal.take(i as int).push(here));
            assert(before + goal.take(i + 1) =~= (before + goal.take(i as int)).push(here));
        }
        out.push(lifted);
    }
    assert(goal.take(goal.len() as int) =~= goal);
}

/// The qubits of operators in increasing order.
fn support_qubits_in_order(ops: &Vec<Support>) -> (r: Vec<MergedQubit>)
    ensures
        r@ == in_order(support_qubits(support_views(ops@))),
        is_in_order(r@, support_qubits(support_views(ops@))),
{
    let mut ids: Interner<MergedQubit> = Interner::new();
    intern_supports(ops, &mut ids);
    let r = ids.qubits();
    proof {
        let qs = support_qubits(support_views(ops@));
        assert forall|q: MergedQubit| #[trigger] r@.contains(q) <==> qs.contains(q) by {
            lemma_noted_iff(Seq::empty(), qs, q);
            assert(ids@.contains(q) <==> r@.contains(q));
        }
        lemma_in_order(r@, qs);
    }
    r
}

/// Whether every record has a place.
fn check_places(records: &Vec<usize>, places: &Vec<usize>, before: usize) -> (r: bool)
    ensures
        r == have_places(records@, places@, before as nat),
{
    let mut i: usize = 0;
    while i < records.len()
        invariant
            i <= records@.len(),
            forall|k: int|
                0 <= k < i ==> (#[trigger] records@[k]) < places@.len()
                    && places@[records@[k] as int] < before,
        decreases records@.len() - i,
    {
        let k: usize = records[i];
        if k >= places.len() || places[k] >= before {
            assert(!(records@[i as int] < places@.len() && places@[records@[i as int] as int]
                < before));
            return false;
        }
        i = i + 1;
    }
    true
}

fn check_solutions(solved: &Vec<Option<Vec<usize>>>, places: &Vec<usize>, before: usize) -> (r: bool)
    ensures
        r == all_have_places(solution_views(solved@), places@, before as nat),
{
    let ghost views = solution_views(solved@);
    let mut i: usize = 0;
    while i < solved.len()
        invariant
            i <= solved@.len(),
            views == solution_views(solved@),
            forall|k: int|
                0 <= k < i ==> (#[trigger] views[k] matches Some(records) ==> have_places(
                    records,
                    places@,
                    before as nat,
                )),
        decreases solved@.len() - i,
    {
        if let Some(records) = &solved[i] {
            assert(views[i as int] == Some(records@));
            if !check_places(records, places, before) {
                return false;
            }
        }
        i = i + 1;
    }
    true
}

fn check_lists(v: &Vec<Vec<usize>>, places: &Vec<usize>, before: usize) -> (r: bool)
    ensures
        r == lists_have_places(list_views(v@), places@, before as nat),
{
    let ghost views = list_views(v@);
    let mut i: usize = 0;
    while i < v.len()
        invariant
            i <= v@.len(),
            views == list_views(v@),
            forall|k: int| 0 <= k < i ==> have_places(#[trigger] views[k], places@, before as nat),
        decreases v@.len() - i,
    {
        assert(views[i as int] == v@[i as int]@);
        if !check_places(&v[i], places, before) {
            return false;
        }
        i = i + 1;
    }
    true
}

/// Append the offsets of earlier records.
fn push_earlier(out: &mut Vec<usize>, records: &Vec<usize>, places: &Vec<usize>, running: usize, Ghost(
    before,
): Ghost<nat>)
    requires
        have_places(records@, places@, before),
        before <= running,
    ensures
        final(out)@ == old(out)@ + earlier_offsets(records@, places@, running as nat),
{
    let ghost start = out@;
    let ghost goal = earlier_offsets(records@, places@, running as nat);
    assert(start + goal.take(0) =~= start);
    for i in 0..records.len()
        invariant
            have_places(records@, places@, before),
            before <= running,
            goal == earlier_offsets(records@, places@, running as nat),
            out@ == start + goal.take(i as int),
    {
        assert(records@[i as int] < places@.len());
        out.push(running - places[records[i]]);
        assert(out@ =~= start + goal.take(i + 1));
    }
    assert(goal.take(goal.len() as int) =~= goal);
}

/// The position of a qubit that was read out.
fn read_position(read: &Vec<MergedQubit>, q: &MergedQubit) -> (r: usize)
    requires
        increasing(read@),
        read@.contains(*q),
    ensures
        r == read@.index_of(*q),
        r < read@.len(),
{
    let ghost i = read@.index_of(*q);
    assert(read@[i] == *q);
    let mut r: usize = 0;
    while !read[r].same(q)
        invariant
            i == read@.index_of(*q),
            0 <= i < read@.len(),
            read@[i] == *q,
            r <= i,
            forall|k: int| 0 <= k < r ==> read@[k] != *q,
        decreases i - r,
    {
        assert(r != i);
        assert(r < read@.len());
        let len: usize = read.len();
        r = r + 1;
    }
    proof {
        if r < i {
            assert(crate::keyed::key_lt(read@[r as int].key(), read@[i].key()));
        }
    }
    r
}

/// What pins an operator.
fn offsets_for(
    sites: &Support,
    records: &Vec<usize>,
    read: &Vec<MergedQubit>,
    places: &Vec<usize>,
    running: usize,
    Ghost(before): Ghost<nat>,
) -> (r: Vec<usize>)
    requires
        increasing(read@),
        forall|k: int| 0 <= k < sites@.len() ==> read@.contains((#[trigger] sites@[k]).0),
        have_places(records@, places@, before),
        before <= running,
    ensures
        r@ == pinned(sites@, records@, read@, places@, running as nat),
{
    let mut r: Vec<usize> = Vec::new();
    let ghost goal = own_offsets(sites@, read@);
    for k in 0..sites.len()
        invariant
            forall|k: int| 0 <= k < sites@.len() ==> read@.contains((#[trigger] sites@[k]).0),
            increasing(read@),
            goal == own_offsets(sites@, read@),
            r@ == goal.take(k as int),
    {
        assert(read@.contains(sites@[k as int].0));
        let p: usize = read_position(read, &sites[k].0);
        r.push(read.len() - p);
        assert(r@ =~= goal.take(k + 1));
    }
    assert(goal.take(goal.len() as int) =~= goal);
    push_earlier(&mut r, records, places, running, Ghost(before));
    r
}

/// Declare the operators from `start` on that are determined.
fn push_declarations(
    out: &mut Vec<PhysicalGate<MergedQubit>>,
    ops: &Vec<Support>,
    solved: &Vec<Option<Vec<usize>>>,
    start: usize,
    end: usize,
    observables: bool,
    read: &Vec<MergedQubit>,
    places: &Vec<usize>,
    running: usize,
    Ghost(before): Ghost<nat>,
)
    requires
        start <= end <= ops@.len(),
        solved@.len() == ops@.len(),
        increasing(read@),
        forall|i: int, k: int|
            0 <= i < ops@.len() && 0 <= k < ops@[i]@.len() ==> read@.contains(
                (#[trigger] ops@[i]@[k]).0,
            ),
        all_have_places(solution_views(solved@), places@, before),
        before <= running,
    ensures
        gate_models(final(out)@) == gate_models(old(out)@) + declarations(
            support_views(ops@).subrange(start as int, end as int),
            solution_views(solved@).subrange(start as int, end as int),
            observables,
            read@,
            places@,
            running as nat,
            end - start,
        ),
{
    let ghost gates = gate_models(out@);
    let ghost views = support_views(ops@).subrange(start as int, end as int);
    let ghost all = solution_views(solved@);
    let ghost answers = all.subrange(start as int, end as int);
    let ghost run = running as nat;
    assert(gates + declarations(views, answers, observables, read@, places@, run, 0) =~= gates);
    let mut i: usize = start;
    while i < end
        invariant
            start <= i <= end <= ops@.len(),
            solved@.len() == ops@.len(),
            increasing(read@),
            forall|i: int, k: int|
                0 <= i < ops@.len() && 0 <= k < ops@[i]@.len() ==> read@.contains(
                    (#[trigger] ops@[i]@[k]).0,
                ),
            all == solution_views(solved@),
            all_have_places(all, places@, before),
            before <= running,
            run == running,
            views == support_views(ops@).subrange(start as int, end as int),
            answers == all.subrange(start as int, end as int),
            gate_models(out@) == gates + declarations(
                views,
                answers,
                observables,
                read@,
                places@,
                run,
                i - start,
            ),
        decreases end - i,
    {
        let ghost k = i - start;
        assert(views[k] == ops@[i as int]@);
        assert(answers[k] == all[i as int]);
        if let Some(records) = &solved[i] {
            assert(all[i as int] == Some(records@));
            let offsets = offsets_for(&ops[i], records, read, places, running, Ghost(before));
            let g: PhysicalGate<MergedQubit> = if observables {
                PhysicalGate::DeclareObservable(i - start, offsets)
            } else {
                PhysicalGate::DeclareDetector(offsets)
            };
            proof {
                lemma_gate_models_push(out@, g);
                assert(gates + declarations(
                    views,
                    answers,
                    observables,
                    read@,
                    places@,
                    run,
                    k + 1,
                ) =~= (gates + declarations(views, answers, observables, read@, places@, run, k)).push(
                    gate_model(g),
                ));
            }
            out.push(g);
        }
        i = i + 1;
    }
}

fn push_determinism(
    out: &mut Vec<PhysicalGate<MergedQubit>>,
    v: &Vec<Vec<usize>>,
    places: &Vec<usize>,
    running: usize,
    Ghost(before): Ghost<nat>,
)
    requires
        lists_have_places(list_views(v@), places@, before),
        before <= running,
    ensures
        gate_models(final(out)@) == gate_models(old(out)@) + determinism_gates(
            list_views(v@),
            places@,
            running as nat,
        ),
{
    let ghost gates = gate_models(out@);
    let ghost views = list_views(v@);
    let ghost goal = determinism_gates(views, places@, running as nat);
    assert(gates + goal.take(0) =~= gates);
    for i in 0..v.len()
        invariant
            views == list_views(v@),
            lists_have_places(views, places@, before),
            before <= running,
            goal == determinism_gates(views, places@, running as nat),
            gate_models(out@) == gates + goal.take(i as int),
    {
        assert(have_places(views[i as int], places@, before));
        let mut offsets: Vec<usize> = Vec::new();
        push_earlier(&mut offsets, &v[i], places, running, Ghost(before));
        assert(offsets@ =~= earlier_offsets(views[i as int], places@, running as nat));
        let g: PhysicalGate<MergedQubit> = PhysicalGate::DeclareDetector(offsets);
        proof {
            lemma_gate_models_push(out@, g);
            assert(goal.take(i + 1) =~= goal.take(i as int).push(goal[i as int]));
            assert(gates + goal.take(i + 1) =~= (gates + goal.take(i as int)).push(
                goal[i as int],
            ));
        }
        out.push(g);
    }
    assert(goal.take(goal.len() as int) =~= goal);
}

/// Append the transversal readout of the memory block to a circuit, and declare its
/// observables and the detectors at the end. `single` is the circuit with one round where
/// `deep` has many. `None` where a record that is needed has no place in the deep
/// circuit, or records cannot be counted.
#[verifier::rlimit(40)]
pub fn append_memory_readout(
    single: &PhysicalCircuit<MergedQubit>,
    deep: PhysicalCircuit<MergedQubit>,
    code: &CodeData,
    basis: Pauli,
) -> (r: Option<PhysicalCircuit<MergedQubit>>)
    ensures
        match with_readout(
            single@,
            deep@,
            memory_logicals(*code, basis),
            memory_stabs(*code, basis),
            basis,
        ) {
            None => r is None,
            Some(gates) => r matches Some(c) && c@ == gates,
        },
{
    let ghost logicals = memory_logicals(*code, basis);
    let ghost stabs = memory_stabs(*code, basis);
    let mut ops: Vec<Support> = Vec::new();
    push_lifted(&code.memory_basis(basis), &mut ops);
    let count: usize = ops.len();
    assert(support_views(ops@) =~= logicals);
    push_lifted(&code.memory_stabilizers(basis), &mut ops);
    let ghost views = support_views(ops@);
    assert(views =~= logicals + stabs);
    let solve = match solve_memory_observables(single, &ops) {
        None => {
            return None;
        },
        Some(f) => f,
    };
    let map = match record_map(single, &deep) {
        None => {
            return None;
        },
        Some(m) => m,
    };
    let read = support_qubits_in_order(&ops);
    let before: usize = match count_checked(Counted::Records, &deep.gates) {
        None => {
            return None;
        },
        Some(n) => n,
    };
    if read.len() > usize::MAX - before {
        return None;
    }
    let running: usize = before + read.len();
    if !check_solutions(&solve.supports, &map, before) || !check_lists(
        &solve.determinism_detectors,
        &map,
        before,
    ) {
        return None;
    }
    proof {
        assert forall|i: int, k: int|
            0 <= i < ops@.len() && 0 <= k < ops@[i]@.len() implies read@.contains(
            (#[trigger] ops@[i]@[k]).0,
        ) by {
            assert(views[i] == ops@[i]@);
            lemma_support_qubit(views, i, k);
        }
        assert(solution_views(solve.supports@).len() == views.len());
    }
    let total_ops: usize = ops.len();
    let mut gates = deep.gates;
    push_readouts(&mut gates, basis, &read);
    push_declarations(
        &mut gates,
        &ops,
        &solve.supports,
        0,
        count,
        true,
        &read,
        &map,
        running,
        Ghost(before as nat),
    );
    push_declarations(
        &mut gates,
        &ops,
        &solve.supports,
        count,
        total_ops,
        false,
        &read,
        &map,
        running,
        Ghost(before as nat),
    );
    push_determinism(
        &mut gates,
        &solve.determinism_detectors,
        &map,
        running,
        Ghost(before as nat),
    );
    proof {
        let solved = solution_views(solve.supports@);
        let k = count as int;
        assert(views.subrange(0, k) =~= logicals);
        assert(views.subrange(k, total_ops as int) =~= stabs);
        assert(solved.subrange(0, k) =~= solved.take(k));
        assert(solved.subrange(k, total_ops as int) =~= solved.skip(k));
    }
    Some(PhysicalCircuit { gates })
}

// ---------------------------------------------------------------------------
// Experiments
// ---------------------------------------------------------------------------
/// A memory experiment: the circuit of the checks, with the readout where it is wanted.
pub open spec fn memory_experiment(
    checks: DeformedCheckSequence,
    rounds: usize,
    code: CodeData,
    basis: Pauli,
    add_observables: bool,
) -> Option<Seq<GateModel<MergedQubit>>> {
    if add_observables {
        with_readout(
            lowered(checks, 1),
            lowered(checks, rounds),
            memory_logicals(code, basis),
            memory_stabs(code, basis),
            basis,
        )
    } else {
        Some(lowered(checks, rounds))
    }
}

/// Compile a memory experiment. `None` where a record that is needed has no place in the
/// circuit, or records cannot be counted.
pub fn try_compile_memory_experiment(
    checks: &DeformedCheckSequence,
    rounds: usize,
    code: &CodeData,
    basis: Pauli,
    add_observables: bool,
) -> (r: Option<PhysicalCircuit<MergedQubit>>)
    requires
        lowerable(*checks),
    ensures
        match memory_experiment(*checks, rounds, *code, basis, add_observables) {
            None => r is None,
            Some(gates) => r matches Some(c) && c@ == gates,
        },
{
    let deep = checks_to_physical_circuit(checks, rounds);
    if !add_observables {
        return Some(deep);
    }
    let single = checks_to_physical_circuit(checks, 1);
    append_memory_readout(&single, deep, code, basis)
}

/// Compile a memory experiment.
pub fn compile_memory_experiment(
    checks: &DeformedCheckSequence,
    rounds: usize,
    code: &CodeData,
    basis: Pauli,
    add_observables: bool,
) -> (r: PhysicalCircuit<MergedQubit>)
    requires
        lowerable(*checks),
        memory_experiment(*checks, rounds, *code, basis, add_observables) is Some,
    ensures
        memory_experiment(*checks, rounds, *code, basis, add_observables) == Some(r@),
{
    match try_compile_memory_experiment(checks, rounds, code, basis, add_observables) {
        Some(c) => c,
        None => PhysicalCircuit::new(),
    }
}

/// The bare code idling: the data qubits reset in the readout basis, and rounds of the
/// checks.
pub open spec fn idling(
    base: Seq<SignedPauli<MergedQubit>>,
    rounds: usize,
    basis: Pauli,
) -> Seq<GateModel<MergedQubit>> {
    resets(basis, touched(base)) + rounds_of(base, rounds)
}

/// Reset every data qubit that the checks touch and measure the checks.
pub fn plain_memory_rounds(
    base_checks: &Vec<GraphPauli<BlockKind>>,
    rounds: usize,
    basis: Pauli,
) -> (r: PhysicalCircuit<MergedQubit>)
    requires
        rounds_countable(base_checks@.len()),
    ensures
        r@ == idling(check_views(base_checks@), rounds, basis),
{
    let qubits = collect_qubits(base_checks, false);
    let mut gates: Vec<PhysicalGate<MergedQubit>> = Vec::new();
    push_resets(&mut gates, basis, &qubits);
    let mut more = d_rounds(base_checks, rounds);
    proof {
        lemma_gate_models_add(gates@, more.gates@);
        assert(gate_models(gates@) =~= resets(basis, qubits@));
    }
    gates.append(&mut more.gates);
    PhysicalCircuit { gates }
}

/// A plain memory experiment: the bare code idles and is read out, with no logical
/// operations.
pub open spec fn plain_experiment(
    code: CodeData,
    rounds: usize,
    basis: Pauli,
    add_observables: bool,
) -> Option<Seq<GateModel<MergedQubit>>> {
    let base = base_forms(code);
    if add_observables {
        with_readout(
            idling(base, 1, basis),
            idling(base, rounds, basis),
            memory_logicals(code, basis),
            memory_stabs(code, basis),
            basis,
        )
    } else {
        Some(idling(base, rounds, basis))
    }
}

/// Compile a plain memory experiment. `None` where a record that is needed has no place
/// in the circuit, or records cannot be counted.
pub fn try_compile_plain_memory_experiment(
    code: &CodeData,
    rounds: usize,
    basis: Pauli,
    add_observables: bool,
) -> (r: Option<PhysicalCircuit<MergedQubit>>)
    requires
        rounds_countable(base_forms(*code).len()),
    ensures
        match plain_experiment(*code, rounds, basis, add_observables) {
            None => r is None,
            Some(gates) => r matches Some(c) && c@ == gates,
        },
{
    let base_checks = crate::circuit_to_checks::base_checks(code);
    let deep = plain_memory_rounds(&base_checks, rounds, basis);
    if !add_observables {
        return Some(deep);
    }
    let single = plain_memory_rounds(&base_checks, 1, basis);
    append_memory_readout(&single, deep, code, basis)
}

/// Compile a plain memory experiment.
pub fn compile_plain_memory_experiment(
    code: &CodeData,
    rounds: usize,
    basis: Pauli,
    add_observables: bool,
) -> (r: PhysicalCircuit<MergedQubit>)
    requires
        rounds_countable(base_forms(*code).len()),
        plain_experiment(*code, rounds, basis, add_observables) is Some,
    ensures
        plain_experiment(*code, rounds, basis, add_observables) == Some(r@),
{
    match try_compile_plain_memory_experiment(code, rounds, basis, add_observables) {
        Some(c) => c,
        None => PhysicalCircuit::new(),
    }
}

} // verus!
