use qleave::circuit_to_checks::BlockKind;
use qleave::graph::AncillaGraph;
use qleave::graph_to_checks::{
    get_correction_support, graph_to_checks, operator_edge_basis, try_correction_support,
};
use qleave::pbc::{
    axes_commute, lift_code_to_merged, pauli_string_mult, CodePauli, CodeQubit, MergedCodeQubit,
    Pauli, PauliAxis, PauliString, PhysicalPauliString, PhysicalQubit, Sign,
};
use qleave::surgery::{surgery_graph, SurgeryGraph, SurgeryGraphConfig};

const BLOCK: BlockKind = BlockKind::Memory;

/// A logical operator / stabilizer over the original code qubits.
fn physical(paulis: &[Pauli]) -> PhysicalPauliString {
    PauliString::new(
        paulis
            .iter()
            .enumerate()
            .filter(|&(_, &p)| p != Pauli::I)
            .map(|(i, &p)| (PhysicalQubit(i), p))
            .collect(),
    )
}

/// The same stabilizer expressed over the merged code's code qubits.
fn code_pauli(paulis: &[Pauli]) -> CodePauli<BlockKind> {
    PauliAxis {
        sign: Sign::One,
        pauli_string: PauliString::new(
            paulis
                .iter()
                .enumerate()
                .filter(|&(_, &p)| p != Pauli::I)
                .map(|(i, &p)| (CodeQubit { block: BLOCK, index: i }, p))
                .collect(),
        ),
    }
}

fn expansion(_: &AncillaGraph) -> usize {
    1
}

/// A small merged code: measure XXXX against the two-stabilizer code {ZZII, IIZZ}. Both
/// stabilizers anticommute with the operator (on {0,1} and {2,3}), so both gain
/// path-matching edges.
fn sample() -> (SurgeryGraph<BlockKind>, Vec<CodePauli<BlockKind>>, CodePauli<BlockKind>) {
    let operator = code_pauli(&[Pauli::X, Pauli::X, Pauli::X, Pauli::X]);
    let stab_paulis = [
        [Pauli::Z, Pauli::Z, Pauli::I, Pauli::I],
        [Pauli::I, Pauli::I, Pauli::Z, Pauli::Z],
    ];
    let stabs: Vec<_> = stab_paulis.iter().map(|s| physical(s)).collect();
    let code_stabilizers: Vec<_> = stab_paulis.iter().map(|s| code_pauli(s)).collect();
    let graph = surgery_graph(
        &stabs,
        &physical(&[Pauli::X, Pauli::X, Pauli::X, Pauli::X]),
        BLOCK,
        &SurgeryGraphConfig::default(),
        &expansion,
    )
    .unwrap();
    (graph, code_stabilizers, operator)
}

#[test]
fn all_checks_pairwise_commute() {
    let (graph, code_stabilizers, operator) = sample();
    let checks = graph_to_checks(&graph, &code_stabilizers, &operator);
    // A valid stabilizer group: every pair of checks must commute.
    for (i, a) in checks.iter().enumerate() {
        for b in &checks[i + 1..] {
            assert!(
                axes_commute(&a.pauli_string, &b.pauli_string),
                "checks {} and a later check anticommute",
                i
            );
        }
    }
}

#[test]
fn operator_is_product_of_vertex_checks() {
    let (graph, code_stabilizers, operator) = sample();
    // Vertex checks are emitted first, one per graph vertex.
    let num_vertices = graph.graph.node_count();
    let checks = graph_to_checks(&graph, &code_stabilizers, &operator);

    // Every edge qubit appears in exactly two vertex checks (its two endpoints), so all
    // edge factors cancel, leaving only the components on the code qubits: the original
    // operator.
    let mut product: PauliAxis<MergedCodeQubit<BlockKind>> =
        PauliAxis { sign: Sign::One, pauli_string: PauliString::new(vec![]) };
    for check in &checks[..num_vertices] {
        let prod = pauli_string_mult(&product.pauli_string, &check.pauli_string);
        product = PauliAxis {
            sign: product.sign * prod.sign * check.sign,
            pauli_string: prod.pauli_string,
        };
    }

    let expected: Vec<(MergedCodeQubit<BlockKind>, Pauli)> = operator
        .pauli_string
        .sites()
        .iter()
        .map(|&(q, p)| (MergedCodeQubit::CodeQubit { block: q.block, index: q.index }, p))
        .collect();
    assert_eq!(product.sign, Sign::One);
    assert_eq!(product.pauli_string.sites(), &expected);
}

#[test]
fn the_edge_basis_follows_the_operator() {
    assert_eq!(operator_edge_basis(&code_pauli(&[Pauli::Z, Pauli::Z])), Pauli::Z);
    assert_eq!(operator_edge_basis(&code_pauli(&[Pauli::Z, Pauli::Y])), Pauli::X);
    assert_eq!(operator_edge_basis(&code_pauli(&[Pauli::X, Pauli::I])), Pauli::X);
}

#[test]
fn corrections_follow_paths_to_the_first_port() {
    let (graph, _, operator) = sample();
    let corrections = get_correction_support(&graph, &operator);
    assert_eq!(corrections.len(), 4);
    for (k, c) in corrections.iter().enumerate() {
        assert_eq!(c.qubit, MergedCodeQubit::CodeQubit { block: BLOCK, index: k });
        // Walk the path: it starts at the qubit's port and ends at the first.
        let mut at = k;
        for e in &c.path {
            let MergedCodeQubit::EdgeQubit(e) = e else { panic!("an edge qubit") };
            let (a, b) = graph.graph.edge_endpoints(*e);
            assert!(at == a || at == b);
            at = a + b - at;
        }
        assert_eq!(at, 0);
    }
    // A qubit that labels no port has no correction.
    let beyond = code_pauli(&[Pauli::X, Pauli::I, Pauli::I, Pauli::I, Pauli::X]);
    assert!(try_correction_support(&graph, &beyond).is_none());
}

#[test]
fn lifting_keeps_sites() {
    let p = lift_code_to_merged(&code_pauli(&[Pauli::I, Pauli::Y]));
    assert_eq!(
        p.pauli_string.sites(),
        &vec![(MergedCodeQubit::CodeQubit { block: BLOCK, index: 1 }, Pauli::Y)]
    );
}
