use qleave::arch::{gross, space_efficient_lp_20, two_gross, Architecture};
use qleave::circuit::{Circuit, Gate, Qubit};
use qleave::compile::{gate_to_pbc_instructions, ls_circuit_op_to_pbc_op, LoadStoreOp};
use qleave::keyed::KeyedMap;
use qleave::lowering::CircuitStats;
use qleave::matrix::{
    cache_name, fnv1a64, get_stabilizers, logical_basis_request, parse_css_block,
    parse_logical_ops, write_matrix, BitMatrix, Tokens,
};
use qleave::pbc::{
    axes_commute, pauli_string_mult, ArchitectureQubit, Pauli, PauliProductOperation, PauliString,
    Sign,
};
use qleave::random::{pick_below, pick_weighted, seeded, shuffle};
use qleave::report::stats_record;
use qleave::surgery::SurgeryGraphConfig;
use qleave::text::{push_decimal, push_decimal_u64, to_text};

#[test]
fn a_stats_record_is_exact() {
    let stats = CircuitStats {
        code_qubits: 30,
        edge_qubits: 12,
        sec_ancilla_pool: 5,
        syndrome_cycles: 9,
        sec_depth: 77,
    };
    let config = SurgeryGraphConfig::default();
    let text = stats_record("small", 18, &config, &stats, true);
    assert_eq!(
        text,
        "{\n  \"arch\": \"small\",\n  \"rounds\": 18,\n  \"config\": {\n    \
         \"expander_trials\": 100,\n    \"expander_reset_period\": 2,\n    \
         \"expander_max_iterations\": 8,\n    \"expander_qubit_degree\": 12,\n    \
         \"surgery_seed\": 42,\n    \"cellulation_degree\": 12\n  },\n  \
         \"qubits\": {\n    \"code\": 30,\n    \"edge\": 12,\n    \"ancilla\": 5,\n    \
         \"total\": 47\n  },\n  \"syndrome_cycles\": 9,\n  \"sec_depth\": 77\n}\n"
    );
    // Without extraction there are no ancillas.
    let bare = stats_record("small", 18, &config, &stats, false);
    assert!(bare.contains("\"ancilla\": 0,\n    \"total\": 42\n"));
}

#[test]
fn presets_are_found_by_name() {
    let a = Architecture::preset("space-efficient-lp20").unwrap();
    assert_eq!((a.memory_capacity, a.processor_capacity), (1224, 10));
    assert_eq!((a.memory_code, a.processor_code, a.magic_code), ("lp3_7_20", "bb18", "bb18"));
    assert_eq!(a.memory_code, space_efficient_lp_20().memory_code);
    assert_eq!(Architecture::preset("balanced-lp24").unwrap().processor_capacity, 148);
    assert_eq!(Architecture::preset("gross").unwrap().memory_code, gross().memory_code);
    assert!(Architecture::preset("nothing").is_none());
    assert_eq!(two_gross().processor_code, "two_gross");
}

#[test]
fn matrices_are_written_and_read_back() {
    let mut m = BitMatrix::zeros(2, 3);
    m.set(0, 1, true);
    m.set(1, 2, true);
    assert!(m.get(0, 1) && !m.get(1, 1));
    assert_eq!((m.nrows(), m.ncols()), (2, 3));
    let mut text = String::new();
    write_matrix(&mut text, &m);
    assert_eq!(text, "2 3\n0 1 0\n0 0 1\n");
    let back = Tokens::new(&text).read_matrix().unwrap();
    for i in 0..2 {
        for j in 0..3 {
            assert_eq!(back.get(i, j), m.get(i, j));
        }
    }
}

#[test]
fn helper_answers_are_checked() {
    let message = |text: &str| to_text(&parse_css_block(text).err().unwrap());
    assert_eq!(message(""), "helper stdout ended while reading row count");
    assert_eq!(message("1"), "helper stdout ended while reading column count");
    assert_eq!(message("1 2 1"), "helper stdout ended while reading matrix entry");
    assert_eq!(
        message("1 x"),
        "helper stdout: bad column count `x`: invalid digit found in string"
    );
    assert_eq!(message("1 1 1 1 2 1 1"), "h_x has 1 columns but h_z has 2");
    let e = parse_logical_ops("1 3 0 0 0").err().unwrap();
    assert_eq!(to_text(&e), "logical-ops matrix has odd width 3; expected 2n columns");
    let e = parse_css_block("18446744073709551615 18446744073709551615").err().unwrap();
    assert_eq!(
        to_text(&e),
        "matrix of 18446744073709551615 by 18446744073709551615 entries is too large"
    );
}

#[test]
fn logical_operators_fold_their_two_halves() {
    let ops = parse_logical_ops("2 6 1 1 0 0 1 1 0 0 0 0 0 0").unwrap();
    let sites: Vec<(usize, Pauli)> = ops[0].sites().iter().map(|(q, p)| (q.0, *p)).collect();
    assert_eq!(sites, vec![(0, Pauli::X), (1, Pauli::Y), (2, Pauli::Z)]);
    assert!(ops[1].sites().is_empty());
}

#[test]
fn stabilizers_come_from_the_rows() {
    let block = parse_css_block("1 2 1 1 2 2 0 1 1 0").unwrap();
    let stabs = get_stabilizers(&block);
    let flat: Vec<Vec<(usize, Pauli)>> = stabs
        .iter()
        .map(|s| s.sites().iter().map(|(q, p)| (q.0, *p)).collect())
        .collect();
    assert_eq!(
        flat,
        vec![
            vec![(0, Pauli::X), (1, Pauli::X)],
            vec![(1, Pauli::Z)],
            vec![(0, Pauli::Z)],
        ]
    );
    assert_eq!(logical_basis_request(&block, true), "1\n1 2\n1 1\n2 2\n0 1\n1 0\n");
    assert!(logical_basis_request(&block, false).starts_with("0\n"));
}

#[test]
fn hashes_are_fnv1a() {
    // The empty hash is the offset basis; the hash of "a" is a published value.
    assert_eq!(fnv1a64(b"", b""), 0xcbf2_9ce4_8422_2325);
    assert_eq!(fnv1a64(b"a", b""), 0xaf63_dc4c_8601_ec8c);
    assert_eq!(fnv1a64(b"foo", b"bar"), 0x8594_4171_f739_67e8);
    assert_eq!(fnv1a64(b"foobar", b""), 0x8594_4171_f739_67e8);
    assert_eq!(cache_name(b"", b""), "cbf29ce484222325cbf29ce484222325-0");
}

#[test]
fn numbers_are_written_in_decimal() {
    let mut s = String::new();
    push_decimal(&mut s, 0);
    push_decimal(&mut s, usize::MAX);
    push_decimal_u64(&mut s, 907);
    assert_eq!(s, format!("0{}907", usize::MAX));
}

#[test]
fn draws_depend_on_the_seed_alone() {
    let draws = |seed: u64| {
        let mut rng = seeded(seed);
        (0..20).map(|_| pick_below(&mut rng, 1000)).collect::<Vec<usize>>()
    };
    assert_eq!(draws(7), draws(7));
    assert_ne!(draws(7), draws(8));
    assert!(draws(7).iter().all(|&x| x < 1000));
}

#[test]
fn shuffling_keeps_the_items() {
    let mut rng = seeded(1);
    let mut items: Vec<usize> = (0..50).collect();
    shuffle(&mut rng, &mut items);
    assert_ne!(items, (0..50).collect::<Vec<usize>>());
    items.sort();
    assert_eq!(items, (0..50).collect::<Vec<usize>>());
}

#[test]
fn a_weight_of_zero_is_never_drawn() {
    let mut rng = seeded(3);
    let weights = vec![0, 5, 0, 1];
    let mut seen = [0usize; 4];
    for _ in 0..300 {
        seen[pick_weighted(&mut rng, &weights)] += 1;
    }
    assert_eq!((seen[0], seen[2]), (0, 0));
    assert!(seen[1] > seen[3] && seen[3] > 0);
}

#[test]
fn maps_keep_their_keys_in_order() {
    let mut m: KeyedMap<usize, char> = KeyedMap::new();
    m.insert(5, 'a');
    m.insert(2, 'b');
    m.insert(5, 'c');
    assert_eq!(m.len(), 2);
    assert_eq!(m.keys(), vec![2, 5]);
    assert_eq!(m.get(&5), Some(&'c'));
    assert_eq!(m.remove(&2), Some('b'));
    assert!(!m.contains_key(&2));
    assert_eq!(m.remove(&2), None);
}

fn string(sites: &[(usize, Pauli)]) -> PauliString<usize> {
    PauliString::new(sites.to_vec())
}

#[test]
fn products_collect_phases() {
    let (x, z) = (string(&[(0, Pauli::X)]), string(&[(0, Pauli::Z)]));
    let xz = pauli_string_mult(&x, &z);
    let zx = pauli_string_mult(&z, &x);
    assert_eq!(xz.sign, Sign::NegJ);
    assert_eq!(zx.sign, Sign::J);
    assert_eq!(xz.pauli_string.sites(), &vec![(0, Pauli::Y)]);
    assert!(!axes_commute(&x, &z));
    // Two anti-commuting sites commute again.
    let xx = string(&[(0, Pauli::X), (3, Pauli::X)]);
    let zz = string(&[(0, Pauli::Z), (3, Pauli::Z)]);
    assert!(axes_commute(&xx, &zz));
    assert_eq!(pauli_string_mult(&xx, &zz).sign, pauli_string_mult(&zz, &xx).sign);
    // A string is its own inverse.
    let one = pauli_string_mult(&xx, &xx);
    assert_eq!(one.sign, Sign::One);
    assert!(one.pauli_string.sites().is_empty());
}

#[test]
fn sites_are_sorted() {
    let s = string(&[(4, Pauli::X), (1, Pauli::Z), (3, Pauli::Y)]);
    assert_eq!(s.sites(), &vec![(1, Pauli::Z), (3, Pauli::Y), (4, Pauli::X)]);
    let moved = s.map_index(|q: usize| 9 - q);
    assert_eq!(moved.sites(), &vec![(5, Pauli::X), (6, Pauli::Y), (8, Pauli::Z)]);
}

#[test]
fn gates_take_their_measurements() {
    let p = ArchitectureQubit::Processor(0);
    let count = |ops: &[PauliProductOperation]| {
        ops.iter().filter(|o| matches!(o, PauliProductOperation::Measurement { .. })).count()
    };
    let mut next: u32 = 7;
    let t = gate_to_pbc_instructions(&Gate::T(p), &mut next);
    assert_eq!((t.len(), count(&t), next), (4, 2, 9));
    let h = gate_to_pbc_instructions(&Gate::H(p), &mut next);
    assert_eq!((h.len(), count(&h), next), (3, 0, 9));
    let load = LoadStoreOp::Load(ArchitectureQubit::Memory(3), p);
    let l = ls_circuit_op_to_pbc_op(&load, &mut next);
    assert_eq!((l.len(), count(&l), next), (5, 2, 11));
    assert!(matches!(l[0], PauliProductOperation::FrameReset(_)));
}

#[test]
fn gates_depend_on_what_shares_their_qubits() {
    let mut c = Circuit::new(3);
    c.apply(Gate::H(Qubit(2)));
    c.apply(Gate::CNOT { control: Qubit(2), target: Qubit(0) });
    c.apply(Gate::H(Qubit(1)));
    assert_eq!(c.qubits, vec![Qubit(0), Qubit(1), Qubit(2)]);
    let dag = c.to_dag();
    assert_eq!(dag.n, 3);
    assert_eq!(dag.successors[0].iter().map(|g| g.0).collect::<Vec<_>>(), vec![1]);
    assert!(dag.successors[2].is_empty());
}
