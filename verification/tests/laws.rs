use std::collections::{BTreeMap, BTreeSet};

use qleave::circuit::{shift_register, Circuit, Gate, Qubit};
use qleave::compile::{absorb_cliffords, ls_circuit_op_to_pbc_op, LoadStoreOp};
use qleave::frame::{FrameSim, PauliBits};
use qleave::load_store::to_load_store_circuit;
use qleave::mip_partition::{mip_problem, MipProblem};
use qleave::partition::get_processor_subcircuits;
use qleave::pbc::ArchitectureQubit::{Memory, Processor};
use qleave::pbc::{
    axes_commute, ArchitectureQubit, CliffordFrame, MeasId, Pauli, PauliAxis, PauliProductCircuit,
    PauliProductOperation, PauliString, Sign,
};
use qleave::physical::{max_qubit, widest_syndrome_round, PhysicalCircuit, PhysicalGate};
use qleave::sec_schedule::{emit_round, expand_gates_lrc_with_map, SecSchedule};

fn ladder() -> Circuit {
    let mut c = Circuit::new(4);
    for g in [
        Gate::H(Qubit(0)),
        Gate::CNOT { control: Qubit(0), target: Qubit(1) },
        Gate::CNOT { control: Qubit(2), target: Qubit(3) },
        Gate::T(Qubit(3)),
        Gate::CNOT { control: Qubit(1), target: Qubit(2) },
        Gate::S(Qubit(0)),
    ] {
        c.apply(g);
    }
    c
}

/// Replay a program: every load finds a free slot, every store its qubit, and the gates
/// act on what the slots hold.
fn replayed(ops: &[LoadStoreOp], size: usize) -> Vec<Gate<Qubit>> {
    let mut held: BTreeMap<usize, usize> = BTreeMap::new();
    let mut run = Vec::new();
    for op in ops {
        match *op {
            LoadStoreOp::Load(Memory(m), Processor(p)) => {
                assert!(p < size);
                assert!(held.values().all(|&q| q != m));
                assert!(held.insert(p, m).is_none());
            }
            LoadStoreOp::Store(Processor(p), Memory(m)) => {
                assert_eq!(held.remove(&p), Some(m));
            }
            LoadStoreOp::Gate(g) => {
                run.push(shift_register(&g, |a: ArchitectureQubit| match a {
                    Processor(p) => Qubit(held[&p]),
                    _ => panic!("a gate outside the processor"),
                }));
            }
            _ => panic!("an impossible move"),
        }
    }
    run
}

#[test]
fn a_program_runs_the_gates_of_its_subcircuits() {
    let circ = ladder();
    let subs = get_processor_subcircuits(&circ, 2);
    let wanted: Vec<Gate<Qubit>> = subs.iter().flat_map(|s| s.gates.clone()).collect();
    assert_eq!(wanted.len(), circ.gates.len());
    for skip in [false, true] {
        let ls = to_load_store_circuit(&subs, 2, skip);
        assert_eq!(replayed(&ls.ops, 2), wanted);
    }
}

fn axis(sign: Sign, sites: &[(usize, Pauli)]) -> PauliAxis<usize> {
    PauliAxis { sign, pauli_string: PauliString::new(sites.to_vec()) }
}

/// A round with checks of both types, repeated, and a round of a conflict triangle.
fn rounds() -> PhysicalCircuit<usize> {
    let css = [
        axis(Sign::One, &[(0, Pauli::X), (1, Pauli::X), (2, Pauli::X), (3, Pauli::X)]),
        axis(Sign::NegOne, &[(0, Pauli::Z), (1, Pauli::Z)]),
        axis(Sign::One, &[(2, Pauli::Z), (3, Pauli::Z)]),
    ];
    let m = css.len();
    let mut gates: Vec<PhysicalGate<usize>> = Vec::new();
    for c in &css {
        gates.push(PhysicalGate::MPP(c.clone()));
    }
    let mut body: Vec<PhysicalGate<usize>> = Vec::new();
    for c in &css {
        body.push(PhysicalGate::MPP(c.clone()));
    }
    for j in 0..m {
        body.push(PhysicalGate::DeclareDetector(vec![j + 1, m + j + 1]));
    }
    gates.push(PhysicalGate::Repeat(4, body));
    gates.push(PhysicalGate::Measure(Pauli::Z, 0, false));
    for p in [Pauli::X, Pauli::Y, Pauli::Z] {
        gates.push(PhysicalGate::MPP(axis(Sign::One, &[(0, p), (1, p)])));
    }
    PhysicalCircuit { gates }
}

#[test]
fn lowering_keeps_the_records() {
    let circ = rounds();
    assert_eq!(circ.measurement_count(), 3 * 5 + 1 + 3);
    for schedule in [SecSchedule::Lrc, SecSchedule::Legacy] {
        assert_eq!(circ.expand_mpp_to_sec(schedule).measurement_count(), 3 * 5 + 1 + 3);
    }
}

#[test]
fn the_record_map_is_a_permutation() {
    let circ = rounds();
    let mut out: Vec<PhysicalGate<usize>> = Vec::new();
    let mut map: Vec<usize> = Vec::new();
    expand_gates_lrc_with_map(&circ.gates, 4, &mut out, &mut map);
    let mut sorted = map.clone();
    sorted.sort();
    assert_eq!(sorted, (0..19).collect::<Vec<usize>>());
    // The checks of one conflict class come first in every round.
    assert_eq!(&map[0..3], &[0, 1, 2]);
    assert_eq!(&map[15..], &[15, 16, 17, 18]);
}

/// The gates between `TICK`s, of the lowered first round alone.
fn layers_of_first_round(schedule: SecSchedule) -> Vec<Vec<PhysicalGate<usize>>> {
    let circ = PhysicalCircuit { gates: rounds().gates.into_iter().take(3).collect() };
    let mut layers: Vec<Vec<PhysicalGate<usize>>> = vec![Vec::new()];
    for g in circ.expand_mpp_to_sec(schedule).gates {
        if matches!(g, PhysicalGate::Tick) {
            layers.push(Vec::new());
        } else {
            layers.last_mut().unwrap().push(g);
        }
    }
    assert!(layers.pop().unwrap().is_empty());
    layers
}

#[test]
fn no_layer_uses_a_qubit_twice() {
    for schedule in [SecSchedule::Lrc, SecSchedule::Legacy] {
        for layer in layers_of_first_round(schedule) {
            let mut busy: BTreeSet<usize> = BTreeSet::new();
            for g in &layer {
                match g {
                    PhysicalGate::Reset(_, q) | PhysicalGate::Measure(_, q, _) => {
                        assert!(busy.insert(*q));
                    }
                    PhysicalGate::Controlled(_, c, t) => {
                        assert!(busy.insert(*c) && busy.insert(*t));
                    }
                    other => panic!("unexpected {:?}", other),
                }
            }
        }
    }
}

#[test]
fn every_site_gets_one_controlled_pauli() {
    // Ancillas 4, 5 and 6 follow the four data qubits.
    let mut wanted: Vec<(usize, usize)> =
        vec![(4, 0), (4, 1), (4, 2), (4, 3), (5, 0), (5, 1), (6, 2), (6, 3)];
    wanted.sort();
    for schedule in [SecSchedule::Lrc, SecSchedule::Legacy] {
        let layers = layers_of_first_round(schedule);
        let mut found: Vec<(usize, usize)> = Vec::new();
        for g in layers.iter().flatten() {
            if let PhysicalGate::Controlled(p, c, t) = g {
                assert_eq!(*p == Pauli::X, *c == 4);
                found.push((*c, *t));
            }
        }
        found.sort();
        assert_eq!(found, wanted);
    }
}

#[test]
fn conflicting_checks_take_turns() {
    for schedule in [SecSchedule::Lrc, SecSchedule::Legacy] {
        let layers = layers_of_first_round(schedule);
        let spans = |ancilla: usize| {
            let at: Vec<usize> = (0..layers.len())
                .filter(|&k| {
                    layers[k]
                        .iter()
                        .any(|g| matches!(g, PhysicalGate::Controlled(_, c, _) if *c == ancilla))
                })
                .collect();
            (at[0], at[at.len() - 1])
        };
        for other in [5, 6] {
            let (a, b) = spans(4);
            let (c, d) = spans(other);
            assert!(b < c || d < a);
        }
    }
}

fn arch(sign: Sign, sites: &[(usize, Pauli)]) -> PauliAxis<ArchitectureQubit> {
    let pairs = sites.iter().map(|&(q, p)| (Processor(q), p)).collect();
    PauliAxis { sign, pauli_string: PauliString::new(pairs) }
}

fn some_axes() -> Vec<PauliAxis<ArchitectureQubit>> {
    vec![
        arch(Sign::One, &[(0, Pauli::X)]),
        arch(Sign::One, &[(0, Pauli::Z), (1, Pauli::Z)]),
        arch(Sign::NegOne, &[(0, Pauli::Y), (2, Pauli::X)]),
        arch(Sign::One, &[(1, Pauli::X), (2, Pauli::Y)]),
    ]
}

#[test]
fn a_frame_keeps_commutation() {
    let mut frame = CliffordFrame::new();
    for r in some_axes() {
        frame.update(&r);
    }
    let axes = some_axes();
    for a in &axes {
        for b in &axes {
            assert_eq!(
                axes_commute(&frame.apply(a).pauli_string, &frame.apply(b).pauli_string),
                axes_commute(&a.pauli_string, &b.pauli_string)
            );
        }
        // The image of a Hermitian operator is Hermitian.
        assert!(matches!(frame.apply(a).sign, Sign::One | Sign::NegOne));
    }
}

#[test]
fn a_half_turn_negates_what_anticommutes() {
    let axes = some_axes();
    for r in &axes {
        let mut frame = CliffordFrame::new();
        frame.update(&axes[1]);
        let before: Vec<PauliAxis<ArchitectureQubit>> = axes.iter().map(|a| frame.apply(a)).collect();
        frame.update(r);
        frame.update(r);
        for (a, old) in axes.iter().zip(&before) {
            let new = frame.apply(a);
            assert_eq!(new.pauli_string.sites(), old.pauli_string.sites());
            let kept = axes_commute(&a.pauli_string, &r.pauli_string);
            assert_eq!(new.sign == old.sign, kept);
        }
    }
}

#[test]
fn a_fresh_frame_changes_nothing() {
    let frame = CliffordFrame::new();
    for a in some_axes() {
        let b = frame.apply(&a);
        assert_eq!(b.sign, a.sign);
        assert_eq!(b.pauli_string.sites(), a.pauli_string.sites());
    }
}

fn rows_hold(p: &MipProblem, chosen: &[i64]) -> bool {
    p.rows.iter().all(|r| {
        let sum: i64 = r.terms.iter().map(|&(c, w)| w * chosen[c]).sum();
        sum <= r.upper && r.lower.map_or(true, |low| low <= sum)
    })
}

#[test]
fn the_rows_tell_partitions_from_others() {
    let circ = ladder();
    let p = mip_problem(&circ, 2, 3, None).unwrap();
    let l = p.layout;
    let width = p.columns.len();
    // Columns of residency, loads, stores and use follow those of the placements.
    let (gates, qubits) = (6 * 3, 4 * 3);
    let assign = |slots: [usize; 6], resident: &[(usize, usize)]| {
        let mut x = vec![0i64; width];
        for (g, s) in slots.iter().enumerate() {
            x[l.gate_column(g, *s)] = 1;
        }
        for &(q, s) in resident {
            x[gates + q * 3 + s] = 1;
        }
        for c in gates + qubits..width {
            x[c] = 1;
        }
        x
    };
    let resident = [(0, 0), (1, 0), (2, 1), (3, 1), (1, 2), (2, 2)];
    assert!(rows_hold(&p, &assign([0, 0, 1, 1, 2, 0], &resident)));
    // The last CNOT waits for both others.
    assert!(!rows_hold(&p, &assign([0, 0, 1, 1, 0, 0], &resident)));
    // An operand is not resident.
    assert!(!rows_hold(&p, &assign([0, 0, 1, 1, 2, 0], &resident[..5])));
    // Three qubits are too many.
    let crowded = [(0, 0), (1, 0), (2, 1), (3, 1), (1, 2), (2, 2), (3, 2)];
    assert!(!rows_hold(&p, &assign([0, 0, 1, 1, 2, 0], &crowded)));
}

fn bits(x: &[bool], z: &[bool]) -> PauliBits {
    PauliBits { x: x.to_vec(), z: z.to_vec() }
}

#[test]
fn a_reset_leaves_a_definite_sign() {
    let x = || bits(&[true], &[false]);
    let z = || bits(&[false], &[true]);
    let mut sim = FrameSim::new(1);
    // A reset that has to choose.
    sim.measure(x());
    assert_eq!(sim.solve(&x()), Some(vec![0]));
    sim.reset(Pauli::Z, 0);
    assert_eq!(sim.solve(&z()), Some(vec![]));
    assert_eq!(sim.solve(&x()), None);
    // A reset of what is determined already.
    sim.measure(x());
    assert_eq!(sim.solve(&x()), Some(vec![1]));
    sim.reset(Pauli::X, 0);
    assert_eq!(sim.solve(&x()), Some(vec![]));
}

#[test]
fn a_measurement_keeps_what_commutes_with_it() {
    let xx = || bits(&[true, true], &[false, false]);
    let zz = || bits(&[false, false], &[true, true]);
    let mut sim = FrameSim::new(2);
    assert_eq!(sim.solve(&zz()), Some(vec![]));
    sim.measure(xx());
    assert_eq!(sim.solve(&zz()), Some(vec![]));
    assert_eq!(sim.solve(&xx()), Some(vec![0]));
    sim.measure(zz());
    assert_eq!(sim.solve(&xx()), Some(vec![0]));
    // The value of an operator that is determined is what measuring it gives.
    sim.measure(xx());
    assert_eq!(sim.record(2), &vec![0]);
}

/// What measuring `axis` after these rotations is before them.
fn seen_through(
    gate: Gate<ArchitectureQubit>,
    axis: PauliAxis<ArchitectureQubit>,
) -> (Sign, Vec<(ArchitectureQubit, Pauli)>) {
    let mut next: u32 = 1;
    let mut circ = PauliProductCircuit::new();
    circ.instructions = ls_circuit_op_to_pbc_op(&LoadStoreOp::Gate(gate), &mut next);
    circ.instructions.push(PauliProductOperation::Measurement { axis, id: MeasId(0) });
    let out = absorb_cliffords(&circ);
    assert_eq!(out.instructions.len(), 1);
    match &out.instructions[0] {
        PauliProductOperation::Measurement { axis, .. } => {
            (axis.sign, axis.pauli_string.sites().clone())
        }
        other => panic!("expected a measurement, got {:?}", other),
    }
}

#[test]
fn clifford_gates_do_what_they_should() {
    let q = Processor(0);
    let x = || arch(Sign::One, &[(0, Pauli::X)]);
    let y = || arch(Sign::One, &[(0, Pauli::Y)]);
    let z = || arch(Sign::One, &[(0, Pauli::Z)]);
    assert_eq!(seen_through(Gate::H(q), x()), (Sign::One, vec![(q, Pauli::Z)]));
    assert_eq!(seen_through(Gate::H(q), y()), (Sign::NegOne, vec![(q, Pauli::Y)]));
    assert_eq!(seen_through(Gate::H(q), z()), (Sign::One, vec![(q, Pauli::X)]));
    assert_eq!(seen_through(Gate::S(q), x()), (Sign::NegOne, vec![(q, Pauli::Y)]));
    assert_eq!(seen_through(Gate::Sdg(q), x()), (Sign::One, vec![(q, Pauli::Y)]));
    assert_eq!(seen_through(Gate::X(q), z()), (Sign::NegOne, vec![(q, Pauli::Z)]));
    assert_eq!(seen_through(Gate::Z(q), z()), (Sign::One, vec![(q, Pauli::Z)]));
    for (c, t) in [(0, 1), (1, 0)] {
        let gate = Gate::CNOT { control: Processor(c), target: Processor(t) };
        let both = |p: Pauli| vec![(Processor(0), p), (Processor(1), p)];
        assert_eq!(
            seen_through(gate, arch(Sign::One, &[(c, Pauli::X)])),
            (Sign::One, both(Pauli::X))
        );
        assert_eq!(
            seen_through(gate, arch(Sign::One, &[(t, Pauli::Z)])),
            (Sign::One, both(Pauli::Z))
        );
        assert_eq!(
            seen_through(gate, arch(Sign::One, &[(c, Pauli::Z)])),
            (Sign::One, vec![(Processor(c), Pauli::Z)])
        );
    }
}

#[test]
fn ancillas_come_from_a_pool_behind_the_qubits() {
    let circ = rounds();
    assert_eq!(max_qubit(&circ.gates), Some(3));
    assert_eq!(widest_syndrome_round(&circ.gates), 3);
    for schedule in [SecSchedule::Lrc, SecSchedule::Legacy] {
        assert_eq!(max_qubit(&circ.expand_mpp_to_sec(schedule).gates), Some(3 + 3));
    }
}

#[test]
fn opposite_turns_cancel() {
    let axes = some_axes();
    for r in &axes {
        let mut frame = CliffordFrame::new();
        frame.update(&axes[2]);
        let before: Vec<PauliAxis<ArchitectureQubit>> = axes.iter().map(|a| frame.apply(a)).collect();
        frame.update(r);
        let back = if r.sign == Sign::One { Sign::NegOne } else { Sign::One };
        let sites = r.pauli_string.sites().clone();
        frame.update(&PauliAxis { sign: back, pauli_string: PauliString::new(sites) });
        for (a, old) in axes.iter().zip(&before) {
            let new = frame.apply(a);
            assert_eq!(new.sign, old.sign);
            assert_eq!(new.pauli_string.sites(), old.pauli_string.sites());
        }
    }
}

#[test]
fn identity_factors_turn_nothing() {
    let mut plain = CliffordFrame::new();
    let mut padded = CliffordFrame::new();
    plain.update(&arch(Sign::One, &[(0, Pauli::X), (2, Pauli::Z)]));
    padded.update(&arch(Sign::One, &[(0, Pauli::X), (1, Pauli::I), (2, Pauli::Z), (3, Pauli::I)]));
    for a in some_axes() {
        let (x, y) = (plain.apply(&a), padded.apply(&a));
        assert_eq!(x.sign, y.sign);
        assert_eq!(x.pauli_string.sites(), y.pauli_string.sites());
    }
}

#[test]
fn a_round_without_checks_is_two_ticks() {
    let mut out: Vec<PhysicalGate<usize>> = Vec::new();
    emit_round(&Vec::new(), 4, &mut out);
    assert_eq!(out.len(), 2);
    assert!(out.iter().all(|g| matches!(g, PhysicalGate::Tick)));
}
