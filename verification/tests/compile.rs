use qleave::circuit::{Circuit, Gate, Qubit};
use qleave::compile::{
    absorb_cliffords, compile, compile_steps, count_moves, gate_to_pbc_instructions,
    resolve_corrections, resolve_corrections_with, to_pauli_product_circuit, LoadStoreCircuit,
    LoadStoreOp,
};
use qleave::keyed::KeyedMap;
use qleave::load_store::to_load_store_circuit;
use qleave::partition::get_processor_subcircuits;
use qleave::pbc::ArchitectureQubit::Processor;
use qleave::pbc::Sign::One;
use qleave::pbc::{
    AllOf, ArchitectureQubit, CliffordFrame, MeasId, PPRAngle, Pauli, PauliAxis,
    PauliProductCircuit, PauliProductOperation, PauliString, Sign,
};
use qleave::text::to_text;

fn make_circuit(num_qubits: usize, gates: Vec<Gate<Qubit>>) -> Circuit {
    let mut c = Circuit::new(num_qubits);
    for g in gates {
        c.apply(g);
    }
    c
}

fn count_ls(ls: &LoadStoreCircuit) -> usize {
    count_moves(ls)
}

#[test]
fn test_greedy_capacity_respected() {
    // 3 independent H gates; a capacity of 2 forces at least 2 subcircuits
    let circ = make_circuit(3, vec![Gate::H(Qubit(0)), Gate::H(Qubit(1)), Gate::H(Qubit(2))]);
    let subs = get_processor_subcircuits(&circ, 2);
    assert!(subs.len() >= 2, "expected at least 2 subcircuits");
    for sub in &subs {
        assert!(sub.qubits.len() <= 2, "subcircuit exceeds capacity 2");
    }
}

#[test]
fn test_greedy_preserves_all_gates() {
    let circ = make_circuit(3, vec![Gate::H(Qubit(0)), Gate::H(Qubit(1)), Gate::H(Qubit(2))]);
    let subs = get_processor_subcircuits(&circ, 2);
    let total_gates: usize = subs.iter().map(|s| s.gates.len()).sum();
    assert_eq!(total_gates, 3);
}

#[test]
fn test_ls_no_skip_all_loads_stores() {
    // sub0={q0,q1}, sub1={q0}: without skip every boundary is full load+store
    let sub0 = make_circuit(2, vec![Gate::H(Qubit(0)), Gate::H(Qubit(1))]);
    let sub1 = make_circuit(2, vec![Gate::H(Qubit(0))]);
    let ls = to_load_store_circuit(&vec![sub0, sub1], 2, false);
    // sub0: 2 loads + 2 stores; sub1: 1 load + 1 store
    assert_eq!(count_ls(&ls), 6);
}

#[test]
fn test_ls_skip_keeps_shared_qubits_in_flight() {
    // sub0={q0,q1}, sub1={q0,q2}, capacity 2
    // q0 stays; q1 is evicted (not needed in sub1); q2 is loaded: 3 loads + 1 store
    let sub0 = make_circuit(3, vec![Gate::H(Qubit(0)), Gate::H(Qubit(1))]);
    let sub1 = make_circuit(3, vec![Gate::H(Qubit(0)), Gate::H(Qubit(2))]);
    let ls = to_load_store_circuit(&vec![sub0, sub1], 2, true);
    assert_eq!(count_ls(&ls), 4);
}

#[test]
fn test_ls_belady_evicts_furthest_future_qubit() {
    // sub0={q0,q1}, sub1={q2}, sub2={q0,q2}, capacity 2
    // At sub1: Belady evicts q1 (next use = never) over q0 (next use = sub2).
    // So q0 stays in flight into sub2, avoiding a reload: 3 loads + 1 store = 4 ops.
    // A naive eviction (remove q0) would require an extra load+store: 5+ ops.
    let sub0 = make_circuit(3, vec![Gate::H(Qubit(0)), Gate::H(Qubit(1))]);
    let sub1 = make_circuit(3, vec![Gate::H(Qubit(2))]);
    let sub2 = make_circuit(3, vec![Gate::H(Qubit(0)), Gate::H(Qubit(2))]);
    let ls = to_load_store_circuit(&vec![sub0, sub1, sub2], 2, true);
    assert_eq!(count_ls(&ls), 4);
}

#[test]
fn test_ls_more_qubits_than_slots() {
    // The second subcircuit acts on three qubits, of which two are held: only one is
    // new, and neither of the others can leave. A third slot is taken.
    let sub0 = make_circuit(4, vec![Gate::H(Qubit(0)), Gate::H(Qubit(1))]);
    let sub1 = make_circuit(4, vec![Gate::H(Qubit(0)), Gate::H(Qubit(1)), Gate::H(Qubit(2))]);
    let sub2 = make_circuit(4, vec![Gate::H(Qubit(3))]);
    let ls = to_load_store_circuit(&vec![sub0, sub1, sub2], 2, true);
    // Four loads; two of the three make room for the last qubit.
    assert_eq!(count_ls(&ls), 6);
    assert!(ls.ops.iter().any(|op| matches!(
        op,
        LoadStoreOp::Load(ArchitectureQubit::Memory(2), ArchitectureQubit::Processor(2))
    )));
}

fn single(sign: Sign, q: ArchitectureQubit, p: Pauli) -> PauliAxis<ArchitectureQubit> {
    PauliAxis { sign, pauli_string: PauliString::new(vec![(q, p)]) }
}

fn rot(axis: PauliAxis<ArchitectureQubit>, angle: PPRAngle) -> PauliProductOperation {
    PauliProductOperation::Rotation { axis, angle }
}

fn meas(axis: PauliAxis<ArchitectureQubit>, id: u32) -> PauliProductOperation {
    PauliProductOperation::Measurement { axis, id: MeasId(id) }
}

fn absorbed_meas(instrs: Vec<PauliProductOperation>) -> PauliAxis<ArchitectureQubit> {
    let mut circ = PauliProductCircuit::new();
    circ.instructions = instrs;
    let out = absorb_cliffords(&circ);
    assert_eq!(out.instructions.len(), 1, "expected exactly one output instruction");
    match out.instructions.into_iter().next().unwrap() {
        PauliProductOperation::Measurement { axis, .. } => axis,
        other => panic!("expected Measurement, got {:?}", other),
    }
}

#[test]
fn x_pi4_z_pi4_then_z_meas() {
    let q = Processor(0);
    let result = absorbed_meas(vec![
        rot(single(One, q, Pauli::X), PPRAngle::PiOver4),
        rot(single(One, q, Pauli::Z), PPRAngle::PiOver4),
        meas(single(One, q, Pauli::Z), 0),
    ]);

    let expected_sign = One;
    let expected_pauli = Pauli::Y;
    assert_eq!(result.sign, expected_sign);
    assert_eq!(result.pauli_string.sites(), &vec![(q, expected_pauli)]);
}

#[test]
fn z_pi4_x_pi4_then_z_meas() {
    let q = Processor(0);
    let result = absorbed_meas(vec![
        rot(single(One, q, Pauli::Z), PPRAngle::PiOver4),
        rot(single(One, q, Pauli::X), PPRAngle::PiOver4),
        meas(single(One, q, Pauli::Z), 0),
    ]);

    let expected_sign = One;
    let expected_pauli = Pauli::X;
    assert_eq!(result.sign, expected_sign);
    assert_eq!(result.pauli_string.sites(), &vec![(q, expected_pauli)]);
}

#[test]
fn corrections_are_resolved_by_outcomes() {
    let q = Processor(0);
    let mut circ = PauliProductCircuit::new();
    circ.instructions = vec![
        meas(single(One, q, Pauli::Z), 0),
        PauliProductOperation::ConditionalRotation {
            axis: single(One, q, Pauli::X),
            angle: PPRAngle::PiOver4,
            condition: AllOf::single(MeasId(0)),
        },
    ];
    let mut fired: KeyedMap<MeasId, bool> = KeyedMap::new();
    fired.insert(MeasId(0), true);
    let out = resolve_corrections_with(&circ, &fired);
    assert_eq!(out.instructions.len(), 2);
    assert!(matches!(
        &out.instructions[1],
        PauliProductOperation::Rotation { angle: PPRAngle::PiOver4, .. }
    ));
    let mut quiet: KeyedMap<MeasId, bool> = KeyedMap::new();
    quiet.insert(MeasId(0), false);
    assert_eq!(resolve_corrections_with(&circ, &quiet).instructions.len(), 1);
}

#[test]
fn random_outcomes_take_both_values() {
    let q = Processor(0);
    let mut circ = PauliProductCircuit::new();
    circ.instructions = vec![
        meas(single(One, q, Pauli::Z), 0),
        PauliProductOperation::ConditionalRotation {
            axis: single(One, q, Pauli::X),
            angle: PPRAngle::PiOver4,
            condition: AllOf::single(MeasId(0)),
        },
    ];
    let mut sizes = [0usize; 3];
    for _ in 0..200 {
        sizes[resolve_corrections(&circ).instructions.len()] += 1;
    }
    assert_eq!(sizes[0], 0);
    assert!(sizes[1] > 0 && sizes[2] > 0);
}

#[test]
fn an_h_between_load_and_store() {
    let circ = make_circuit(1, vec![Gate::H(Qubit(0))]);
    let (ls, pre, out) = compile_steps(&circ, 1, false, false);
    assert_eq!(ls.ops.len(), 3);
    assert_eq!(
        to_text(&ls),
        "Load(Mem0 -> Proc0)\nH(Proc0)\nStore(Proc0 -> Mem0)\n"
    );
    // A load clears the frame and measures twice, a store measures twice, an H is three
    // rotations.
    assert_eq!(pre.instructions.len(), 1 + 2 + 3 + 2);
    assert_eq!(out.instructions.len(), 4);
    assert_eq!(to_text(&compile(&circ, 1, false, false)), to_text(&out));
}

#[test]
fn a_frame_follows_rotations() {
    let mut f = CliffordFrame::new();
    let q = Processor(0);
    assert_eq!(f.image(q, Pauli::X).pauli_string.sites(), &vec![(q, Pauli::X)]);
    f.update(&single(One, q, Pauli::Z));
    let x = f.image(q, Pauli::X);
    assert_eq!(x.pauli_string.sites(), &vec![(q, Pauli::Y)]);
    assert_eq!(f.image(q, Pauli::Z).pauli_string.sites(), &vec![(q, Pauli::Z)]);
    f.reset(q);
    assert_eq!(f.image(q, Pauli::X).pauli_string.sites(), &vec![(q, Pauli::X)]);
}

#[test]
fn ccz_is_corrected_by_a_cz_of_each_pair() {
    let gate = Gate::CCZ { control1: Processor(0), control2: Processor(1), target: Processor(2) };
    let mut next: u32 = 0;
    let ops = gate_to_pbc_instructions(&gate, &mut next);
    assert_eq!((ops.len(), next), (18, 6));
    let pairs = [(1, 2), (0, 2), (0, 1)];
    for (k, &(a, b)) in pairs.iter().enumerate() {
        let expected: Vec<(Sign, Vec<(ArchitectureQubit, Pauli)>)> = vec![
            (One, vec![(Processor(a), Pauli::Z), (Processor(b), Pauli::Z)]),
            (Sign::NegOne, vec![(Processor(a), Pauli::Z)]),
            (Sign::NegOne, vec![(Processor(b), Pauli::Z)]),
        ];
        for (i, (sign, sites)) in expected.iter().enumerate() {
            match &ops[3 + 3 * k + i] {
                PauliProductOperation::ConditionalRotation { axis, angle, condition } => {
                    assert_eq!(axis.sign, *sign);
                    assert_eq!(axis.pauli_string.sites(), sites);
                    assert_eq!(*angle, PPRAngle::PiOver4);
                    assert_eq!(condition.0, vec![MeasId(k as u32)]);
                }
                other => panic!("{other:?}"),
            }
        }
    }
}

#[test]
fn measurements_are_numbered_from_zero() {
    let gates = vec![Gate::T(Qubit(0)), Gate::H(Qubit(1)), Gate::Tdg(Qubit(1))];
    let subs = get_processor_subcircuits(&make_circuit(2, gates), 1);
    let ls = to_load_store_circuit(&subs, 1, false);
    let with = to_pauli_product_circuit(&ls, true);
    let without = to_pauli_product_circuit(&ls, false);
    for c in [&with, &without] {
        let ids: Vec<u32> = c
            .instructions
            .iter()
            .filter_map(|op| match op {
                PauliProductOperation::Measurement { id, .. } => Some(id.0),
                _ => None,
            })
            .collect();
        assert_eq!(ids, (0..c.next_meas_id).collect::<Vec<u32>>());
    }
    // Without the corrections, everything else is the same.
    let kept: Vec<String> = with
        .instructions
        .iter()
        .filter(|op| !matches!(op, PauliProductOperation::ConditionalRotation { .. }))
        .map(to_text)
        .collect();
    assert_eq!(kept, without.instructions.iter().map(to_text).collect::<Vec<String>>());
}

/// The fewest loads and stores of any schedule that has the qubits of each
/// subcircuit, given as bits, on a processor of `size` qubits.
fn fewest_moves(wanted: &[u32], n_qubits: u32, size: u32) -> u32 {
    let mut best: Vec<Option<u32>> = vec![None; 1 << n_qubits];
    best[0] = Some(0);
    for &w in wanted {
        let mut next: Vec<Option<u32>> = vec![None; 1 << n_qubits];
        for on in 0..(1u32 << n_qubits) {
            if on & w != w || on.count_ones() > size {
                continue;
            }
            for before in 0..(1u32 << n_qubits) {
                if let Some(cost) = best[before as usize] {
                    let cost = cost + (on ^ before).count_ones();
                    let old = next[on as usize];
                    next[on as usize] = Some(old.map_or(cost, |c| c.min(cost)));
                }
            }
        }
        best = next;
    }
    best.into_iter().flatten().min().unwrap()
}

#[test]
fn no_schedule_moves_fewer_qubits() {
    let sequences: [&[(usize, usize)]; 5] = [
        &[(0, 1), (2, 3), (0, 2), (1, 3), (0, 1)],
        &[(0, 1), (1, 2), (2, 3), (3, 4), (4, 0), (0, 1)],
        &[(0, 0), (1, 1), (2, 2), (0, 0), (3, 3), (1, 1), (4, 4), (0, 0)],
        &[(0, 4), (1, 4), (2, 4), (3, 4), (0, 4), (2, 4)],
        &[(3, 1), (0, 0), (3, 2), (1, 1), (0, 2), (3, 3)],
    ];
    for pairs in sequences {
        let subs: Vec<Circuit> = pairs
            .iter()
            .map(|&(a, b)| {
                let gate = if a == b {
                    Gate::H(Qubit(a))
                } else {
                    Gate::CNOT { control: Qubit(a), target: Qubit(b) }
                };
                make_circuit(5, vec![gate])
            })
            .collect();
        let wanted: Vec<u32> = pairs.iter().map(|&(a, b)| 1u32 << a | 1u32 << b).collect();
        for size in 2..5usize {
            let ls = to_load_store_circuit(&subs, size, true);
            assert_eq!(count_ls(&ls) as u32, fewest_moves(&wanted, 5, size as u32));
        }
    }
}
