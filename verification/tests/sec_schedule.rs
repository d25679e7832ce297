use std::collections::{BTreeMap, BTreeSet};

use qleave::coloring::bipartite_edge_coloring;
use qleave::pbc::{Pauli, PauliAxis, PauliString, Sign};
use qleave::physical::{clone_gates, PhysicalCircuit, PhysicalGate};
use qleave::sec_schedule::{conflict_classes, expand_gates_lrc_into, SecSchedule};

type Gate = PhysicalGate<usize>;

fn axis(sites: &[(usize, Pauli)]) -> PauliAxis<usize> {
    PauliAxis { sign: Sign::One, pauli_string: PauliString::new(sites.to_vec()) }
}

/// The expansion collected into a `Vec`, which these tests inspect.
fn expand_gates_lrc(gates: &Vec<Gate>, base: usize) -> Vec<Gate> {
    let mut out: Vec<Gate> = Vec::new();
    expand_gates_lrc_into(gates, base, &mut out);
    out
}

/// A round and its repetitions, each compared with the round before.
fn round_stream(checks: &[PauliAxis<usize>], r: usize) -> Vec<Gate> {
    let m = checks.len();
    let mpps: Vec<Gate> = checks.iter().cloned().map(PhysicalGate::MPP).collect();
    let mut out = clone_gates(&mpps);
    if r > 1 {
        let mut body = mpps;
        body.extend((0..m).map(|j| PhysicalGate::DeclareDetector(vec![j + 1, m + j + 1])));
        out.push(PhysicalGate::Repeat(r - 1, body));
    }
    out
}

fn unroll(gates: &[Gate]) -> Vec<Gate> {
    let mut out = Vec::new();
    for g in gates {
        match g {
            PhysicalGate::Repeat(n, body) => {
                let flat = unroll(body);
                for _ in 0..*n {
                    out.extend(flat.iter().cloned());
                }
            }
            g => out.push(g.clone()),
        }
    }
    out
}

struct Replay {
    /// Record stream: (ancilla qubit, 0-based instance number).
    records: Vec<(usize, usize)>,
    /// (ancilla, instance) -> gate events (qubit, pauli, global time).
    gates_of: BTreeMap<(usize, usize), Vec<(usize, Pauli, usize)>>,
    /// Each detector's referenced absolute record indices.
    detectors: Vec<Vec<usize>>,
}

/// Replay an unrolled circuit: per-measurement (ancilla, instance) in record order,
/// per-ancilla-instance controlled-Pauli events, and resolved detector references.
fn replay(gates: &[Gate]) -> Replay {
    let mut time = 0usize;
    let mut instance: BTreeMap<usize, usize> = BTreeMap::new();
    let mut records = Vec::new();
    let mut gates_of: BTreeMap<(usize, usize), Vec<(usize, Pauli, usize)>> = BTreeMap::new();
    let mut detectors = Vec::new();
    let mut busy: BTreeSet<usize> = BTreeSet::new();
    for g in gates {
        match g {
            PhysicalGate::Tick => {
                time += 1;
                busy.clear();
            }
            PhysicalGate::Reset(_, q) => {
                assert!(busy.insert(*q), "qubit {q} touched twice in layer {time}");
                *instance.entry(*q).or_insert(0) += 1;
            }
            PhysicalGate::Controlled(p, a, q) => {
                assert!(busy.insert(*a), "ancilla {a} touched twice in layer {time}");
                assert!(busy.insert(*q), "qubit {q} touched twice in layer {time}");
                gates_of.entry((*a, instance[a] - 1)).or_default().push((*q, *p, time));
            }
            PhysicalGate::Measure(_, q, _) => {
                assert!(busy.insert(*q), "qubit {q} touched twice in layer {time}");
                records.push((*q, instance[q] - 1));
            }
            PhysicalGate::DeclareDetector(recs) => {
                detectors.push(recs.iter().map(|&k| records.len() - k).collect());
            }
            _ => {}
        }
    }
    Replay { records, gates_of, detectors }
}

/// For every pair of ancilla instances whose checks share anticommuting site Paulis, the
/// number of shared sites where the two gates occur in "crossed" order must be even.
fn assert_hooks_cancel(replay: &Replay, base: usize, checks: &[PauliAxis<usize>]) {
    let keys: Vec<(usize, usize)> = replay.gates_of.keys().copied().collect();
    for (i, &ka) in keys.iter().enumerate() {
        for &kb in &keys[i + 1..] {
            if ka.0 == kb.0 {
                continue; // same check slot: identical Paulis, no hooks
            }
            let (ga, gb) = (&replay.gates_of[&ka], &replay.gates_of[&kb]);
            let mut crossings = 0usize;
            let mut shared = 0usize;
            for &(qa, pa, ta) in ga {
                for &(qb, pb, tb) in gb {
                    if qa == qb && pa != pb {
                        shared += 1;
                        assert_ne!(ta, tb, "anticommuting gates share a layer");
                        if ta > tb {
                            crossings += 1;
                        }
                    }
                }
            }
            assert!(
                shared % 2 == 0,
                "checks {} and {} anticommute (invalid stabilizer input)",
                checks[ka.0 - base].pauli_string.sites().len(),
                checks[kb.0 - base].pauli_string.sites().len(),
            );
            assert!(
                crossings % 2 == 0,
                "uncancelled CZ hook between ancilla instances {ka:?} and {kb:?}",
            );
        }
    }
}

fn assert_round_structure(
    replay: &Replay,
    base: usize,
    m: usize,
    r: usize,
    expect_check_order: bool,
) {
    // One record per (check, round); every check measured r times.
    assert_eq!(replay.records.len(), r * m);
    for j in 0..m {
        let n = replay.records.iter().filter(|&&(q, _)| q == base + j).count();
        assert_eq!(n, r, "check {j} measured {n} times, expected {r}");
    }
    if expect_check_order {
        let expected: Vec<(usize, usize)> =
            (0..r).flat_map(|n| (0..m).map(move |j| (base + j, n))).collect();
        assert_eq!(replay.records, expected, "sequential schedule permuted records");
    }
    // Every round detector compares consecutive instances of one check.
    assert_eq!(replay.detectors.len(), (r - 1) * m);
    let mut seen: BTreeMap<usize, usize> = BTreeMap::new();
    for det in &replay.detectors {
        assert_eq!(det.len(), 2);
        let (a, b) = (replay.records[det[0]], replay.records[det[1]]);
        assert_eq!(a.0, b.0, "detector mixes checks: {a:?} vs {b:?}");
        assert_eq!(
            a.1.abs_diff(b.1),
            1,
            "detector compares non-consecutive rounds: {a:?} vs {b:?}"
        );
        *seen.entry(a.0).or_insert(0) += 1;
    }
    for j in 0..m {
        assert_eq!(seen[&(base + j)], r - 1);
    }
}

/// A commuting CSS-style round: one weight-4 X check conflicting with two weight-2 Z
/// checks (bipartite conflict graph, so the staggered path).
fn css_checks() -> Vec<PauliAxis<usize>> {
    vec![
        axis(&[(0, Pauli::X), (1, Pauli::X), (2, Pauli::X), (3, Pauli::X)]),
        axis(&[(0, Pauli::Z), (1, Pauli::Z)]),
        axis(&[(2, Pauli::Z), (3, Pauli::Z)]),
    ]
}

/// A pairwise-commuting conflict triangle (three classes, so the sequential fallback):
/// XX, ZZ, YY on the same two qubits.
fn triangle_checks() -> Vec<PauliAxis<usize>> {
    vec![
        axis(&[(0, Pauli::X), (1, Pauli::X)]),
        axis(&[(0, Pauli::Z), (1, Pauli::Z)]),
        axis(&[(0, Pauli::Y), (1, Pauli::Y)]),
    ]
}

#[test]
fn edge_coloring_is_proper_and_minimal() {
    // Complete bipartite K_{4,5} plus a pendant edge: largest degree 5.
    let mut edges: Vec<(usize, usize)> = Vec::new();
    for u in 0..4 {
        for v in 0..5 {
            edges.push((u, 4 + v));
        }
    }
    edges.push((9, 4));
    let colors = bipartite_edge_coloring(10, &edges);
    let delta = 5;
    assert!(colors.iter().all(|&c| c < delta));
    for (i, &(u1, v1)) in edges.iter().enumerate() {
        for (j2, &(u2, v2)) in edges.iter().enumerate().skip(i + 1) {
            if u1 == u2 || v1 == v2 || u1 == v2 || v1 == u2 {
                assert_ne!(colors[i], colors[j2], "edges {i} and {j2} clash");
            }
        }
    }
}

#[test]
fn edges_may_name_either_end_first() {
    // A cycle of six vertices, each the first end of one edge and the second of another,
    // with a pendant edge: largest degree 3.
    let edges = vec![(0, 1), (1, 2), (2, 3), (3, 4), (4, 5), (5, 0), (6, 3)];
    let colors = bipartite_edge_coloring(7, &edges);
    assert!(colors.iter().all(|&c| c < 3));
    for (i, &(a, b)) in edges.iter().enumerate() {
        for (j, &(c, d)) in edges.iter().enumerate().skip(i + 1) {
            if a == c || a == d || b == c || b == d {
                assert_ne!(colors[i], colors[j]);
            }
        }
    }
}

#[test]
fn conflict_classes_bipartite_and_triangle() {
    let css = css_checks();
    let classes = conflict_classes(&css);
    assert_eq!(classes, vec![0, 1, 1]);

    let tri = triangle_checks();
    let classes = conflict_classes(&tri);
    assert_eq!(classes.iter().copied().max(), Some(2));
}

#[test]
fn staggered_schedule_invariants() {
    let checks = css_checks();
    let (m, r, base) = (checks.len(), 5, 4);
    let expanded = expand_gates_lrc(&round_stream(&checks, r), base);
    assert!(
        matches!(expanded.iter().find(|g| matches!(g, PhysicalGate::Repeat(..))),
            Some(PhysicalGate::Repeat(n, _)) if *n == r - 2),
        "staggered segment should carry a REPEAT(r-2) steady body"
    );
    let replay = replay(&unroll(&expanded));
    assert_round_structure(&replay, base, m, r, false);
    assert_hooks_cancel(&replay, base, &checks);
}

#[test]
fn sequential_fallback_preserves_record_order() {
    let checks = triangle_checks();
    let (m, r, base) = (checks.len(), 4, 2);
    let expanded = expand_gates_lrc(&round_stream(&checks, r), base);
    let replay = replay(&unroll(&expanded));
    assert_round_structure(&replay, base, m, r, true);
    assert_hooks_cancel(&replay, base, &checks);
}

#[test]
fn single_round_uses_sequential_schedule() {
    let checks = css_checks();
    let base = 4;
    let expanded = expand_gates_lrc(&round_stream(&checks, 1), base);
    let replay = replay(&unroll(&expanded));
    let expected: Vec<(usize, usize)> = (0..checks.len()).map(|j| (base + j, 0)).collect();
    assert_eq!(replay.records, expected);
    assert_hooks_cancel(&replay, base, &checks);
}

#[test]
fn record_permutation_rewrites_consumers() {
    // Reference every MPP record from a trailing consumer; after expansion each
    // rewritten offset must resolve to the measurement of the same (round, check)
    // instance.
    let checks = css_checks();
    let (m, r, base) = (checks.len(), 4, 4);
    let mut stream = round_stream(&checks, r);
    for k in 1..=r * m {
        stream.push(PhysicalGate::DeclareDetector(vec![k]));
    }
    let expanded = expand_gates_lrc(&stream, base);
    let replay = replay(&unroll(&expanded));
    // Trailing detectors sit after the (r-1)*m round detectors.
    let trailing = &replay.detectors[(r - 1) * m..];
    assert_eq!(trailing.len(), r * m);
    for (i, det) in trailing.iter().enumerate() {
        // Consumer i was emitted with old offset k = i+1: old record rm-1-i = round n
        // check j with n = (rm-1-i)/m, j = (rm-1-i)%m.
        let old_abs = r * m - 1 - i;
        let (n, j) = (old_abs / m, old_abs % m);
        assert_eq!(det.len(), 1);
        assert_eq!(
            replay.records[det[0]],
            (base + j, n),
            "consumer {i} rewired to the wrong record"
        );
    }
}

/// A circuit hitting every printing path: coalesced runs of resets / measurements /
/// controlled-Paulis, a sign-inverted check, a repeated round, and the three kinds of
/// record consumer.
fn sample() -> PhysicalCircuit<usize> {
    let checks = [
        axis(&[(0, Pauli::X), (1, Pauli::X), (2, Pauli::X)]),
        axis(&[(1, Pauli::X), (2, Pauli::X), (3, Pauli::X)]),
        axis(&[(0, Pauli::Z), (1, Pauli::Z), (2, Pauli::Z)]),
        PauliAxis {
            sign: Sign::NegOne,
            pauli_string: PauliString::new(vec![(1, Pauli::Z), (2, Pauli::Z), (3, Pauli::Z)]),
        },
    ];
    let m = checks.len();
    let mut gates: Vec<Gate> = (0..4).map(|q| PhysicalGate::Reset(Pauli::Z, q)).collect();
    gates.extend(checks.iter().cloned().map(PhysicalGate::MPP));
    let mut body: Vec<Gate> = checks.iter().cloned().map(PhysicalGate::MPP).collect();
    body.extend((0..m).map(|j| PhysicalGate::DeclareDetector(vec![j + 1, m + j + 1])));
    gates.push(PhysicalGate::Repeat(3, body));
    gates.push(PhysicalGate::XCorrection(2, 0));
    gates.push(PhysicalGate::XCorrection(1, 3));
    gates.extend((0..4).map(|q| PhysicalGate::Measure(Pauli::Z, q, q == 2)));
    gates.push(PhysicalGate::DeclareDetector(vec![1, 4]));
    gates.push(PhysicalGate::DeclareObservable(0, vec![1, 2]));
    PhysicalCircuit { gates }
}

/// The streaming writer gives the same text as materializing the circuit and rendering
/// it, and the same TICK count.
#[test]
fn streamed_output_matches_display() {
    for schedule in [SecSchedule::Lrc, SecSchedule::Legacy] {
        assert!(sample().can_expand(schedule));
        let expanded = sample().expand_mpp_to_sec(schedule);
        let (text, ticks) = sample().write_stim(Some(schedule));
        assert_eq!(text, expanded.to_stim());
        assert_eq!(ticks, expanded.tick_count());
        assert_eq!(ticks, sample().sec_tick_count(schedule));
        // Lowering keeps the records.
        assert_eq!(expanded.measurement_count(), sample().measurement_count());
    }
}

/// The same, for the circuit written with no lowering.
#[test]
fn streamed_mpp_output_matches_display() {
    let (text, _) = sample().write_stim(None);
    assert_eq!(text, sample().to_stim());
}

#[test]
fn stim_text_is_exact() {
    let (text, ticks) = sample().write_stim(None);
    assert_eq!(ticks, 0);
    assert_eq!(
        text,
        "RZ 0 1 2 3\n\
         MPP X0*X1*X2\nMPP X1*X2*X3\nMPP Z0*Z1*Z2\nMPP !Z1*Z2*Z3\n\
         REPEAT 3 {\n    MPP X0*X1*X2\n    MPP X1*X2*X3\n    MPP Z0*Z1*Z2\n    \
         MPP !Z1*Z2*Z3\n    DETECTOR rec[-1] rec[-5]\n    DETECTOR rec[-2] rec[-6]\n    \
         DETECTOR rec[-3] rec[-7]\n    DETECTOR rec[-4] rec[-8]\n}\n\
         CNOT rec[-2] 0 rec[-1] 3\nMZ 0 1 !2 3\nDETECTOR rec[-1] rec[-4]\n\
         OBSERVABLE_INCLUDE(0) rec[-1] rec[-2]\n"
    );
}

#[test]
fn offsets_to_nowhere_cannot_be_lowered() {
    let c = PhysicalCircuit { gates: vec![PhysicalGate::XCorrection(1, 0)] };
    assert!(!c.can_expand(SecSchedule::Lrc));
    assert!(c.can_expand(SecSchedule::Legacy));
}
