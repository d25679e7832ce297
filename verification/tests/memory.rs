use qleave::circuit_to_checks::{
    base_checks, can_lower_circuit, pauli_product_circuit_to_physical_supports,
    physical_supports_to_stabilizer_checks, supports_are_surgical, BlockKind, CodeData,
    DeformedCheckSequence,
};
use qleave::frame::{FrameSim, PauliBits};
use qleave::graph::AncillaGraph;
use qleave::lowering::{can_lower_checks, checks_to_physical_circuit, CircuitStats};
use qleave::matrix::{parse_css_block, parse_logical_ops, CSSCodeBlock};
use qleave::memory::{
    compile_memory_experiment, compile_plain_memory_experiment, record_map,
    solve_memory_observables, try_compile_memory_experiment,
};
use qleave::pbc::{
    axes_commute, ArchitectureQubit, MergedCodeQubit, Pauli, PauliAxis, PauliProductCircuit,
    PauliProductOperation, PauliString, Sign,
};
use qleave::physical::{PhysicalCircuit, PhysicalGate};
use qleave::pipeline::{merged_qubit_count, stream_sec_tick_count, stream_stim};
use qleave::sec_schedule::SecSchedule;
use qleave::surgery::SurgeryGraphConfig;

use ArchitectureQubit::{Magic, Memory, Processor};

/// The [[4, 2, 2]] code: XXXX and ZZZZ.
fn four_two_two() -> CSSCodeBlock {
    parse_css_block("1 4\n1 1 1 1\n1 4\n1 1 1 1\n").unwrap()
}

/// Its logical operators: XXII, XIXI, ZIZI, ZZII.
const BASIS: &str = "4 8\n\
    1 1 0 0 0 0 0 0\n\
    1 0 1 0 0 0 0 0\n\
    0 0 0 0 1 0 1 0\n\
    0 0 0 0 1 1 0 0\n";

fn codes() -> CodeData {
    let block = four_two_two();
    let basis = || parse_logical_ops(BASIS).unwrap();
    CodeData::from_blocks(&block, &block, &block, basis(), basis(), basis())
}

fn expansion(_: &AncillaGraph) -> usize {
    1
}

fn measurements(sites: Vec<Vec<(ArchitectureQubit, Pauli)>>) -> PauliProductCircuit {
    let mut circ = PauliProductCircuit::new();
    for s in sites {
        let id = circ.allocate_meas_id();
        circ.instructions.push(PauliProductOperation::Measurement {
            axis: PauliAxis { sign: Sign::One, pauli_string: PauliString::new(s) },
            id,
        });
    }
    circ
}

fn lowered(circ: &PauliProductCircuit, codes: &CodeData) -> DeformedCheckSequence {
    assert!(can_lower_circuit(circ, codes));
    let supports = pauli_product_circuit_to_physical_supports(circ, codes);
    assert!(supports_are_surgical(&supports));
    let config = SurgeryGraphConfig::default();
    let checks =
        physical_supports_to_stabilizer_checks(&supports, codes, 2, &config, &expansion).unwrap();
    assert!(can_lower_checks(&checks));
    checks
}

fn observables(c: &PhysicalCircuit<MergedCodeQubit<BlockKind>>) -> usize {
    c.gates.iter().filter(|g| matches!(g, PhysicalGate::DeclareObservable(..))).count()
}

#[test]
fn logical_counts_and_bases() {
    let codes = codes();
    assert_eq!(codes.logical_qubit_counts(), (2, 2, 2));
    let ys = codes.memory_basis(Pauli::Y);
    // X1 Z1 = XXII ZIZI = (XZ) X Z I, and XZ = -iY.
    assert_eq!(ys[0].sign, Sign::NegJ);
    assert_eq!(ys[0].pauli_string.sites().len(), 3);
    assert_eq!(codes.memory_basis(Pauli::I).len(), 0);
    assert_eq!(codes.memory_stabilizers(Pauli::Z).len(), 1);
    assert_eq!(codes.memory_stabilizers(Pauli::Y).len(), 0);
    assert_eq!(base_checks(&codes).len(), 6);
}

#[test]
fn a_support_joins_the_images_of_its_sites() {
    let codes = codes();
    let circ = measurements(vec![vec![(Memory(0), Pauli::X), (Memory(1), Pauli::X)]]);
    let supports = pauli_product_circuit_to_physical_supports(&circ, &codes);
    // XXII XIXI = IXXI.
    let qubits: Vec<usize> = supports[0].memory.sites().iter().map(|(q, _)| q.0).collect();
    assert_eq!(qubits, vec![1, 2]);
    assert_eq!(supports[0].sign, Sign::One);
    assert!(supports[0].processor.sites().is_empty());
    // A logical qubit that the block does not have cannot be lowered.
    assert!(!can_lower_circuit(&measurements(vec![vec![(Memory(2), Pauli::Z)]]), &codes));
    assert!(!can_lower_circuit(&measurements(vec![vec![(Memory(2), Pauli::Y)]]), &codes));
}

#[test]
fn a_measurement_on_three_blocks_is_not_surgical() {
    let codes = codes();
    let circ = measurements(vec![vec![
        (Memory(0), Pauli::X),
        (Processor(0), Pauli::X),
        (Magic(0), Pauli::X),
    ]]);
    let supports = pauli_product_circuit_to_physical_supports(&circ, &codes);
    assert!(!supports_are_surgical(&supports));
}

#[test]
fn deformed_checks_commute() {
    let codes = codes();
    let circ = measurements(vec![
        vec![(Memory(0), Pauli::X)],
        vec![(Memory(0), Pauli::Z), (Processor(1), Pauli::Z)],
        vec![(Processor(0), Pauli::Y), (Magic(0), Pauli::X)],
    ]);
    let checks = lowered(&circ, &codes);
    assert_eq!(checks.deformations.len(), 3);
    for d in &checks.deformations {
        for a in &d.checks {
            for b in &d.checks {
                assert!(axes_commute(&a.pauli_string, &b.pauli_string));
            }
        }
        assert!(d.checks.len() > checks.base_checks.len());
    }
    assert_eq!(checks.deformations[0].edge_basis, Pauli::X);
    assert_eq!(checks.deformations[1].edge_basis, Pauli::Z);
}

#[test]
fn streaming_writes_what_is_written_at_once() {
    let codes = codes();
    let circ = measurements(vec![
        vec![(Memory(0), Pauli::X)],
        vec![(Memory(1), Pauli::Z), (Processor(0), Pauli::Z)],
    ]);
    let checks = lowered(&circ, &codes);
    for rounds in 1..4 {
        let whole = checks_to_physical_circuit(&checks, rounds);
        let stats = CircuitStats::compute(&whole, 0);
        assert_eq!(merged_qubit_count(&checks), stats.code_qubits + stats.edge_qubits);
        for schedule in [None, Some(SecSchedule::Lrc), Some(SecSchedule::Legacy)] {
            let flat = whole.flatten();
            if let Some(how) = schedule {
                assert!(flat.can_expand(how));
            }
            let (text, ticks) = flat.write_stim(schedule);
            let (streamed, streamed_ticks, found) =
                stream_stim(&checks, rounds, schedule).unwrap();
            assert_eq!(streamed, text);
            assert_eq!(streamed_ticks, ticks);
            assert_eq!(found.code_qubits, stats.code_qubits);
            assert_eq!(found.edge_qubits, stats.edge_qubits);
            assert_eq!(found.sec_ancilla_pool, stats.sec_ancilla_pool);
            assert_eq!(found.syndrome_cycles, stats.syndrome_cycles);
            if let Some(how) = schedule {
                assert_eq!(stream_sec_tick_count(&checks, rounds, how), Some(ticks));
            }
        }
    }
}

#[test]
fn an_idle_memory_reads_out_every_logical() {
    let codes = codes();
    for basis in [Pauli::X, Pauli::Z] {
        let c = compile_plain_memory_experiment(&codes, 3, basis, true);
        assert_eq!(observables(&c), 2);
        let bare = compile_plain_memory_experiment(&codes, 3, basis, false);
        assert_eq!(observables(&bare), 0);
    }
}

#[test]
fn a_commuting_measurement_keeps_the_readouts() {
    let codes = codes();
    let checks = lowered(&measurements(vec![vec![(Memory(0), Pauli::Z)]]), &codes);
    let c = compile_memory_experiment(&checks, 2, &codes, Pauli::Z, true);
    assert_eq!(observables(&c), 2);
    // A measurement on another block does not touch the memory.
    let checks = lowered(&measurements(vec![vec![(Processor(0), Pauli::X)]]), &codes);
    let c = compile_memory_experiment(&checks, 2, &codes, Pauli::Z, true);
    assert_eq!(observables(&c), 2);
}

#[test]
fn an_anticommuting_measurement_randomizes_a_readout() {
    let codes = codes();
    let checks = lowered(&measurements(vec![vec![(Memory(0), Pauli::X)]]), &codes);
    let c = try_compile_memory_experiment(&checks, 2, &codes, Pauli::Z, true).unwrap();
    assert_eq!(observables(&c), 1);
}

#[test]
fn records_of_a_round_map_to_the_last_of_many() {
    let codes = codes();
    let checks = lowered(&measurements(vec![vec![(Memory(0), Pauli::Z)]]), &codes);
    let single = checks_to_physical_circuit(&checks, 1);
    let deep = checks_to_physical_circuit(&checks, 3);
    let map = record_map(&single, &deep).unwrap();
    assert_eq!(map.len(), single.measurement_count());
    assert!(map.windows(2).all(|w| w[0] < w[1]));
    assert!(*map.last().unwrap() < deep.measurement_count());
    // The same circuit maps to itself.
    let same = record_map(&single, &single).unwrap();
    assert_eq!(same, (0..single.measurement_count()).collect::<Vec<_>>());
    // A single-round circuit that ends early does not map.
    let none = PhysicalCircuit { gates: vec![] };
    assert!(record_map(&none, &single).is_none());
}

fn bits(x: &[usize], z: &[usize], n: usize) -> PauliBits {
    let on = |s: &[usize]| (0..n).map(|i| s.contains(&i)).collect::<Vec<bool>>();
    PauliBits { x: on(x), z: on(z) }
}

#[test]
fn a_fresh_frame_has_definite_zs() {
    let f = FrameSim::new(2);
    assert_eq!(f.solve(&bits(&[], &[0], 2)), Some(vec![]));
    assert_eq!(f.solve(&bits(&[], &[0, 1], 2)), Some(vec![]));
    assert_eq!(f.solve(&bits(&[0], &[], 2)), None);
}

#[test]
fn measuring_again_gives_the_same_record() {
    let mut f = FrameSim::new(2);
    f.measure(bits(&[0, 1], &[], 2));
    assert_eq!(f.records(), 1);
    // A free outcome stands for itself.
    assert_eq!(f.record(0), &vec![0]);
    f.measure(bits(&[0, 1], &[], 2));
    assert_eq!(f.record(1), &vec![0]);
    assert_eq!(f.solve(&bits(&[0, 1], &[], 2)), Some(vec![0]));
    assert_eq!(f.solve(&bits(&[], &[0, 1], 2)), Some(vec![]));
    assert_eq!(f.solve(&bits(&[], &[0], 2)), None);
}

#[test]
fn a_correction_shifts_what_anticommutes() {
    let mut f = FrameSim::new(1);
    f.measure(bits(&[0], &[], 1));
    f.reset(Pauli::Z, 0);
    assert_eq!(f.solve(&bits(&[], &[0], 1)), Some(vec![]));
    f.x_correction(0, 0);
    assert_eq!(f.solve(&bits(&[], &[0], 1)), Some(vec![0]));
    assert_eq!(f.solve(&bits(&[0], &[], 1)), None);
}

#[test]
fn observables_follow_a_circuit() {
    let q = |i: usize| MergedCodeQubit::<BlockKind>::CodeQubit { block: BlockKind::Memory, index: i };
    let zz = PauliAxis {
        sign: Sign::One,
        pauli_string: PauliString::new(vec![(q(0), Pauli::Z), (q(1), Pauli::Z)]),
    };
    let circuit = PhysicalCircuit {
        gates: vec![
            PhysicalGate::Reset(Pauli::X, q(0)),
            PhysicalGate::Reset(Pauli::X, q(1)),
            PhysicalGate::MPP(zz.clone()),
            PhysicalGate::MPP(zz),
        ],
    };
    let supports = vec![
        vec![(q(0), Pauli::Z), (q(1), Pauli::Z)],
        vec![(q(0), Pauli::X), (q(1), Pauli::X)],
        vec![(q(0), Pauli::Z)],
    ];
    let solved = solve_memory_observables(&circuit, &supports).unwrap();
    assert_eq!(solved.supports, vec![Some(vec![0]), Some(vec![]), None]);
    // The second record repeats the first.
    assert_eq!(solved.determinism_detectors, vec![vec![0, 1]]);
    // A correction on a record that is not there.
    let bad = PhysicalCircuit { gates: vec![PhysicalGate::XCorrection(1, q(0))] };
    assert!(solve_memory_observables(&bad, &vec![]).is_none());
}
