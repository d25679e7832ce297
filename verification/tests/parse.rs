use qleave::circuit::{Circuit, Gate, Qubit};
use qleave::parse::{parse, serialize, try_parse};
use qleave::streaming::{Lines, StreamingReader};

/// The lines of a text, each with its line break.
fn lines_of(text: &str) -> Lines {
    let lines: Vec<Vec<u8>> = text.split_inclusive('\n').map(|l| l.as_bytes().to_vec()).collect();
    Lines::new(lines)
}

#[test]
fn z_from_qasm() {
    let qasm = "OPENQASM 2.0;\ninclude \"qelib1.inc\";\nqreg q[1];\nz q[0];\n";
    let c = parse(qasm).unwrap();
    assert_eq!(c.num_qubits, 1);
    assert_eq!(c.gates.len(), 1);
    assert!(matches!(&c.gates[0], Gate::Z(Qubit(0))));
}

#[test]
fn sdg_from_qasm() {
    let qasm = "OPENQASM 2.0;\ninclude \"qelib1.inc\";\nqreg q[1];\nsdg q[0];\n";
    let c = parse(qasm).unwrap();
    assert_eq!(c.num_qubits, 1);
    assert_eq!(c.gates.len(), 1);
    assert!(matches!(&c.gates[0], Gate::Sdg(Qubit(0))));
}

#[test]
fn z_qasm_roundtrip() {
    let mut c = Circuit::new(2);
    c.apply(Gate::Z(Qubit(0)));
    c.apply(Gate::Z(Qubit(1)));
    let qasm = serialize(&c);
    let c2 = parse(&qasm).unwrap();
    assert_eq!(c2.gates.len(), 2);
    assert!(matches!(&c2.gates[0], Gate::Z(Qubit(0))));
    assert!(matches!(&c2.gates[1], Gate::Z(Qubit(1))));
}

#[test]
fn sdg_qasm_roundtrip() {
    let mut c = Circuit::new(2);
    c.apply(Gate::Sdg(Qubit(0)));
    c.apply(Gate::Sdg(Qubit(1)));
    let qasm = serialize(&c);
    let c2 = parse(&qasm).unwrap();
    assert_eq!(c2.gates.len(), 2);
    assert!(matches!(&c2.gates[0], Gate::Sdg(Qubit(0))));
    assert!(matches!(&c2.gates[1], Gate::Sdg(Qubit(1))));
}

#[test]
fn mixed_gates_qasm_roundtrip() {
    let mut c = Circuit::new(3);
    c.apply(Gate::H(Qubit(0)));
    c.apply(Gate::Z(Qubit(0)));
    c.apply(Gate::Sdg(Qubit(1)));
    c.apply(Gate::S(Qubit(2)));
    c.apply(Gate::T(Qubit(0)));
    c.apply(Gate::Tdg(Qubit(1)));
    c.apply(Gate::CNOT {
        control: Qubit(0),
        target: Qubit(1),
    });
    c.apply(Gate::X(Qubit(2)));
    let qasm = serialize(&c);
    let c2 = parse(&qasm).unwrap();
    assert_eq!(c2.gates.len(), 8);
    assert!(matches!(&c2.gates[1], Gate::Z(Qubit(0))));
    assert!(matches!(&c2.gates[2], Gate::Sdg(Qubit(1))));
}

#[test]
fn z_to_qasm() {
    let mut c = Circuit::new(1);
    c.apply(Gate::Z(Qubit(0)));
    let qasm = serialize(&c);
    assert!(qasm.contains("z q[0];"));
}

#[test]
fn sdg_to_qasm() {
    let mut c = Circuit::new(1);
    c.apply(Gate::Sdg(Qubit(0)));
    let qasm = serialize(&c);
    assert!(qasm.contains("sdg q[0];"));
}

#[test]
fn line_comment_only() {
    let qasm =
        "OPENQASM 2.0;\ninclude \"qelib1.inc\";\n// just a comment\nqreg q[1];\nh q[0];\n";
    let c = parse(qasm).unwrap();
    assert_eq!(c.gates.len(), 1);
}

#[test]
fn semicolon_inside_line_comment() {
    let qasm = "OPENQASM 2.0;\nqreg q[1];\n// ancillas; they start in |0>.\nh q[0];\n";
    let c = parse(qasm).unwrap();
    assert_eq!(c.gates.len(), 1);
    assert!(matches!(&c.gates[0], Gate::H(Qubit(0))));
}

#[test]
fn semicolon_inside_trailing_line_comment() {
    let qasm = "OPENQASM 2.0;\nqreg q[1];\nh q[0]; // note; also a semicolon\nt q[0];\n";
    let c = parse(qasm).unwrap();
    assert_eq!(c.gates.len(), 2);
    assert!(matches!(&c.gates[0], Gate::H(Qubit(0))));
    assert!(matches!(&c.gates[1], Gate::T(Qubit(0))));
}

#[test]
fn streaming_semicolon_inside_line_comment() {
    let qasm = "OPENQASM 2.0;\n// ancillas; they start in |0>.\nqreg q[1];\n\
                // more; commentary\nh q[0];\nt q[0]; // done; really\n";
    let mut r = StreamingReader::new(lines_of(qasm)).unwrap();
    assert_eq!(r.num_qubits(), 1);
    let mut gates = Vec::new();
    while let Some(batch) = r.next_batch(64).unwrap() {
        gates.extend(batch);
    }
    assert_eq!(gates.len(), 2);
    assert!(matches!(&gates[0], Gate::H(Qubit(0))));
    assert!(matches!(&gates[1], Gate::T(Qubit(0))));
}

#[test]
fn inline_line_comment() {
    let qasm = "OPENQASM 2.0;\nqreg q[1];\nh q[0]; // apply hadamard\n";
    let c = parse(qasm).unwrap();
    assert_eq!(c.gates.len(), 1);
    assert!(matches!(&c.gates[0], Gate::H(Qubit(0))));
}

#[test]
fn block_comment_single_line() {
    let qasm = "OPENQASM 2.0;\nqreg q[1];\n/* comment */ h q[0];\n";
    let c = parse(qasm).unwrap();
    assert_eq!(c.gates.len(), 1);
}

#[test]
fn block_comment_multiline() {
    let qasm = "OPENQASM 2.0;\nqreg q[1];\n/* this is\na multi-line\ncomment */\nh q[0];\n";
    let c = parse(qasm).unwrap();
    assert_eq!(c.gates.len(), 1);
}

#[test]
fn block_comment_inline() {
    let qasm = "OPENQASM 2.0;\nqreg q[1];\nh /* surprise */ q[0];\n";
    let c = parse(qasm).unwrap();
    assert_eq!(c.gates.len(), 1);
}

#[test]
fn block_comment_between_gates() {
    let qasm = "OPENQASM 2.0;\nqreg q[2];\nh q[0];\n/* between */\ncx q[0],q[1];\n";
    let c = parse(qasm).unwrap();
    assert_eq!(c.gates.len(), 2);
}

#[test]
fn multiple_block_comments() {
    let qasm = "OPENQASM 2.0;\n/* a */ qreg q[1]; /* b */\n/* c */ h q[0]; /* d */\n";
    let c = parse(qasm).unwrap();
    assert_eq!(c.gates.len(), 1);
}

#[test]
fn block_comment_spanning_gate() {
    let qasm = "OPENQASM 2.0;\nqreg q[2];\nh q[0];\n/* cx q[0],q[1]; */\nt q[0];\n";
    let c = parse(qasm).unwrap();
    assert_eq!(c.gates.len(), 2);
    assert!(matches!(&c.gates[0], Gate::H(Qubit(0))));
    assert!(matches!(&c.gates[1], Gate::T(Qubit(0))));
}

#[test]
fn block_and_line_comments_mixed() {
    let qasm = "\
OPENQASM 2.0;
qreg q[2];
// line comment
h q[0]; // inline
/* block */ cx q[0],q[1];
/* multi
   line */
t q[0];
";
    let c = parse(qasm).unwrap();
    assert_eq!(c.gates.len(), 3);
}

#[test]
fn unclosed_block_comment_ignores_rest() {
    let qasm = "OPENQASM 2.0;\nqreg q[1];\nh q[0];\n/* unclosed\nt q[0];\n";
    let c = parse(qasm).unwrap();
    assert_eq!(c.gates.len(), 1);
    assert!(matches!(&c.gates[0], Gate::H(Qubit(0))));
}

#[test]
fn empty_block_comment() {
    let qasm = "OPENQASM 2.0;\nqreg q[1];\n/**/ h q[0];\n";
    let c = parse(qasm).unwrap();
    assert_eq!(c.gates.len(), 1);
}

#[test]
fn comment_only_file() {
    let qasm = "OPENQASM 2.0;\n// nothing here\n/* also nothing */\nqreg q[1];\n";
    let c = parse(qasm).unwrap();
    assert_eq!(c.gates.len(), 0);
}

#[test]
fn line_comment_at_end_no_newline() {
    let qasm = "OPENQASM 2.0;\nqreg q[1];\nh q[0]; // trailing";
    let c = parse(qasm).unwrap();
    assert_eq!(c.gates.len(), 1);
}

#[test]
fn block_comment_preserves_line_numbers() {
    let qasm = "OPENQASM 2.0;\nqreg q[1];\n/* skip\nthis\n*/\nh q[0];\nfoo q[0];\n";
    let err = parse(qasm).unwrap_err();
    assert!(
        err.contains("line 7"),
        "expected line 7 in error, got: {err}"
    );
}

#[test]
fn unsupported_gate_error() {
    let qasm = "OPENQASM 2.0;\nqreg q[1];\nry(0.5) q[0];\n";
    let err = parse(qasm).unwrap_err();
    assert!(err.contains("line 3"));
    assert!(err.contains("unsupported"));
    assert!(err.contains("ry"));
}

#[test]
fn two_registers() {
    let qasm = "OPENQASM 2.0;\nqreg a[2];\nqreg b[3];\nh a[0];\nh a[1];\nt b[0];\nt b[2];\n";
    let c = parse(qasm).unwrap();
    assert_eq!(c.num_qubits, 5);
    assert_eq!(c.gates.len(), 4);
    assert!(matches!(&c.gates[0], Gate::H(Qubit(0))));
    assert!(matches!(&c.gates[1], Gate::H(Qubit(1))));
    assert!(matches!(&c.gates[2], Gate::T(Qubit(2))));
    assert!(matches!(&c.gates[3], Gate::T(Qubit(4))));
}

#[test]
fn multi_register_cnot() {
    let qasm = "OPENQASM 2.0;\nqreg a[1];\nqreg b[1];\ncx a[0],b[0];\n";
    let c = parse(qasm).unwrap();
    assert_eq!(c.num_qubits, 2);
    assert!(matches!(
        &c.gates[0],
        Gate::CNOT {
            control: Qubit(0),
            target: Qubit(1)
        }
    ));
}

#[test]
fn qreg_after_gate_error() {
    let qasm = "OPENQASM 2.0;\nqreg a[1];\nh a[0];\nqreg b[1];\n";
    let err = parse(qasm).unwrap_err();
    assert!(err.contains("line 4"));
    assert!(err.contains("qreg declaration after gate"));
}

#[test]
fn unknown_register_error() {
    let qasm = "OPENQASM 2.0;\nqreg a[1];\nh b[0];\n";
    let err = parse(qasm).unwrap_err();
    assert!(err.contains("unknown register"));
}

#[test]
fn register_index_out_of_range() {
    let qasm = "OPENQASM 2.0;\nqreg a[2];\nh a[5];\n";
    let err = parse(qasm).unwrap_err();
    assert!(err.contains("out of range"));
}

#[test]
fn three_registers_offsets() {
    let qasm = "OPENQASM 2.0;\nqreg x[3];\nqreg y[2];\nqreg z[1];\n\
                 h x[0];\nh x[2];\nh y[0];\nh y[1];\nh z[0];\n";
    let c = parse(qasm).unwrap();
    assert_eq!(c.num_qubits, 6);
    assert_eq!(c.gates.len(), 5);
    assert!(matches!(&c.gates[0], Gate::H(Qubit(0))));
    assert!(matches!(&c.gates[1], Gate::H(Qubit(2))));
    assert!(matches!(&c.gates[2], Gate::H(Qubit(3))));
    assert!(matches!(&c.gates[3], Gate::H(Qubit(4))));
    assert!(matches!(&c.gates[4], Gate::H(Qubit(5))));
}

#[test]
fn multi_register_ccx() {
    let qasm = "OPENQASM 2.0;\nqreg a[1];\nqreg b[1];\nqreg c[1];\nccx a[0],b[0],c[0];\n";
    let c = parse(qasm).unwrap();
    assert_eq!(c.num_qubits, 3);
    assert_eq!(c.gates.len(), 3);
    assert!(matches!(&c.gates[0], Gate::H(Qubit(2))));
    assert!(matches!(
        &c.gates[1],
        Gate::CCZ {
            control1: Qubit(0),
            control2: Qubit(1),
            target: Qubit(2)
        }
    ));
    assert!(matches!(&c.gates[2], Gate::H(Qubit(2))));
}

#[test]
fn multi_register_cz() {
    let qasm = "OPENQASM 2.0;\nqreg a[1];\nqreg b[1];\ncz a[0],b[0];\n";
    let c = parse(qasm).unwrap();
    assert_eq!(c.num_qubits, 2);
    assert_eq!(c.gates.len(), 3);
    assert!(matches!(&c.gates[0], Gate::H(Qubit(1))));
    assert!(matches!(
        &c.gates[1],
        Gate::CNOT {
            control: Qubit(0),
            target: Qubit(1)
        }
    ));
    assert!(matches!(&c.gates[2], Gate::H(Qubit(1))));
}

#[test]
fn single_qubit_registers() {
    let qasm = "OPENQASM 2.0;\nqreg r0[1];\nqreg r1[1];\nqreg r2[1];\nqreg r3[1];\n\
                 cx r0[0],r3[0];\nt r2[0];\n";
    let c = parse(qasm).unwrap();
    assert_eq!(c.num_qubits, 4);
    assert!(matches!(
        &c.gates[0],
        Gate::CNOT {
            control: Qubit(0),
            target: Qubit(3)
        }
    ));
    assert!(matches!(&c.gates[1], Gate::T(Qubit(2))));
}

#[test]
fn multi_register_all_single_qubit_gates() {
    let qasm = "OPENQASM 2.0;\nqreg a[1];\nqreg b[1];\n\
                 x a[0];\ns b[0];\nsdg a[0];\nz b[0];\ntdg a[0];\nt b[0];\n";
    let c = parse(qasm).unwrap();
    assert_eq!(c.num_qubits, 2);
    assert!(matches!(&c.gates[0], Gate::X(Qubit(0))));
    assert!(matches!(&c.gates[1], Gate::S(Qubit(1))));
    assert!(matches!(&c.gates[2], Gate::Sdg(Qubit(0))));
    assert!(matches!(&c.gates[3], Gate::Z(Qubit(1))));
    assert!(matches!(&c.gates[4], Gate::Tdg(Qubit(0))));
    assert!(matches!(&c.gates[5], Gate::T(Qubit(1))));
}

#[test]
fn qreg_after_gate_on_same_line_error() {
    let qasm = "OPENQASM 2.0;\nqreg a[1];\nh a[0]; qreg b[1];\n";
    let err = parse(qasm).unwrap_err();
    assert!(err.contains("qreg declaration after gate"));
}

#[test]
fn register_index_exactly_at_boundary() {
    let qasm = "OPENQASM 2.0;\nqreg a[2];\nh a[2];\n";
    let err = parse(qasm).unwrap_err();
    assert!(err.contains("out of range"));
}

#[test]
fn register_index_max_valid() {
    let qasm = "OPENQASM 2.0;\nqreg a[3];\nh a[2];\n";
    let c = parse(qasm).unwrap();
    assert!(matches!(&c.gates[0], Gate::H(Qubit(2))));
}

#[test]
fn unknown_register_in_cnot() {
    let qasm = "OPENQASM 2.0;\nqreg a[1];\ncx a[0],nosuch[0];\n";
    let err = parse(qasm).unwrap_err();
    assert!(err.contains("unknown register"));
    assert!(err.contains("nosuch"));
}

#[test]
fn messages_are_exact() {
    let cases: [(&str, &str); 8] = [
        ("qreg q[1];\nfoo q[0];\n", "line 2: unsupported: foo q[0]"),
        ("qreg q[];\n", "line 1: bad qreg size: cannot parse integer from empty string"),
        ("qreg q[x];\n", "line 1: bad qreg size: invalid digit found in string"),
        (
            "qreg q[99999999999999999999999];\n",
            "line 1: bad qreg size: number too large to fit in target type",
        ),
        ("qreg q[2];\nh q[1x];\n", "line 2: bad qubit index: invalid digit found in string"),
        ("qreg q[2];\nh r[1];\n", "line 2: unknown register 'r'"),
        ("qreg q[2];\nh q[2];\n", "line 2: index 2 out of range for register 'q' (size 2)"),
        ("qreg q[2];\nh q[1]; qreg r[1];\n", "line 2: qreg declaration after gate"),
    ];
    for (text, message) in cases {
        match parse(text) {
            Err(m) => assert_eq!(m, message),
            Ok(_) => panic!("{} was read", text),
        }
    }
}

#[test]
fn malformed_statements_are_told_apart() {
    // Brackets that close before they open, and operands that are missing.
    assert!(try_parse("qreg q]1[;\n").is_none());
    assert!(try_parse("qreg q[2];\ncx q[0];\n").is_none());
    assert!(try_parse("qreg q[2];\nh q]0[;\n").is_none());
    assert!(try_parse("qreg q[2];\nh q[0];\n").is_some());
}

#[test]
fn a_plus_sign_may_lead_a_number() {
    let c = parse("qreg q[+3];\nx q[+2];\n").unwrap();
    assert_eq!(c.num_qubits, 3);
    assert!(matches!(&c.gates[0], Gate::X(Qubit(2))));
}

#[test]
fn a_program_is_written_exactly() {
    let mut c = Circuit::new(12);
    c.apply(Gate::X(Qubit(0)));
    c.apply(Gate::Y(Qubit(11)));
    c.apply(Gate::CNOT { control: Qubit(3), target: Qubit(10) });
    c.apply(Gate::CCZ { control1: Qubit(0), control2: Qubit(1), target: Qubit(2) });
    assert_eq!(
        serialize(&c),
        "OPENQASM 2.0;\ninclude \"qelib1.inc\";\nqreg q[12];\nx q[0];\ny q[11];\n\
         cx q[3],q[10];\nccz q[0],q[1],q[2];\n"
    );
}

#[test]
fn a_written_program_is_read_back() {
    let mut c = Circuit::new(120);
    let gates = vec![
        Gate::X(Qubit(0)),
        Gate::Y(Qubit(9)),
        Gate::H(Qubit(10)),
        Gate::S(Qubit(99)),
        Gate::Sdg(Qubit(100)),
        Gate::Z(Qubit(119)),
        Gate::T(Qubit(7)),
        Gate::Tdg(Qubit(42)),
        Gate::CNOT { control: Qubit(118), target: Qubit(1) },
    ];
    for g in &gates {
        c.apply(*g);
    }
    let d = parse(&serialize(&c)).unwrap();
    assert_eq!(d.gates, gates);
    assert_eq!(d.num_qubits, 120);
    assert_eq!(d.qubits.len(), 10);
}

#[test]
fn a_written_ccz_is_not_read_back() {
    let mut c = Circuit::new(3);
    c.apply(Gate::CCZ { control1: Qubit(0), control2: Qubit(1), target: Qubit(2) });
    assert_eq!(
        parse(&serialize(&c)).unwrap_err(),
        "line 4: unsupported: ccz q[0],q[1],q[2]"
    );
}

#[test]
fn batches_hold_no_more_gates_than_asked_for() {
    let text = "qreg q[2]; qreg r[1];\nh q[0]; h q[1]; h r[0];\nx q[0];\nqreg s[9];\ny r[0]; z r[0];\n";
    let mut r = StreamingReader::new(lines_of(text)).unwrap();
    assert_eq!(r.num_qubits(), 3);
    // The line that ends the opening has three gates: two are kept.
    assert_eq!(r.next_batch(1).unwrap(), Some(vec![Gate::H(Qubit(0))]));
    assert_eq!(r.next_batch(1).unwrap(), Some(vec![Gate::H(Qubit(1))]));
    assert_eq!(r.next_batch(2).unwrap(), Some(vec![Gate::H(Qubit(2)), Gate::X(Qubit(0))]));
    // A declaration behind the opening is passed over.
    assert_eq!(r.next_batch(1).unwrap(), Some(vec![Gate::Y(Qubit(2))]));
    assert_eq!(r.next_batch(5).unwrap(), Some(vec![Gate::Z(Qubit(2))]));
    assert_eq!(r.next_batch(5).unwrap(), None);
    assert_eq!(r.next_batch(5).unwrap(), None);
}

#[test]
fn batches_carry_block_comments_over_lines() {
    let text = "qreg q[1];\nh q[0]; /* one\nx q[0];\ntwo */ y q[0];\n";
    let mut r = StreamingReader::new(lines_of(text)).unwrap();
    assert_eq!(r.next_batch(9).unwrap(), Some(vec![Gate::H(Qubit(0)), Gate::Y(Qubit(0))]));
    assert_eq!(r.next_batch(9).unwrap(), None);
}

#[test]
fn streams_report_errors() {
    let e = StreamingReader::new(lines_of("// nothing\n")).err().unwrap();
    assert_eq!(e, "no qreg declaration found");
    let e = StreamingReader::new(lines_of("qreg a[1];\nh a[0]; qreg b[1];\n")).err().unwrap();
    assert_eq!(e, "line 2: unsupported: qreg b[1]");
    let mut r = StreamingReader::new(lines_of("qreg a[1];\nh a[0];\nfoo a[0];\n")).unwrap();
    assert_eq!(r.next_batch(9).unwrap_err(), "line 3: unsupported: foo a[0]");
    assert!(StreamingReader::try_new(lines_of("qreg a[2];\ncx a[0];\n")).is_none());
}

#[test]
fn a_stream_without_gates_is_done() {
    let mut r = StreamingReader::new(lines_of("qreg a[4];\n")).unwrap();
    assert_eq!(r.num_qubits(), 4);
    assert_eq!(r.next_batch(9).unwrap(), None);
}

#[test]
fn batches_add_up_to_the_parsed_program() {
    let text = "OPENQASM 2.0;\nqreg q[2]; /* a\nb */ qreg r[1];\nh q[0]; t r[0]; // x; y\n\
                /* ; */ cx q[0],q[1]; s q[1] /*\n*/ ; z q[0];\nx q[1]";
    let whole = parse(text).unwrap();
    assert_eq!(whole.gates.len(), 6);
    for size in [1, 2, 3, 7] {
        let mut r = StreamingReader::new(lines_of(text)).unwrap();
        assert_eq!(r.num_qubits(), whole.num_qubits);
        let mut gates = Vec::new();
        while let Some(batch) = r.next_batch(size).unwrap() {
            assert!(!batch.is_empty() && batch.len() <= size);
            gates.extend(batch);
        }
        assert_eq!(gates, whole.gates);
        assert_eq!(r.next_batch(size).unwrap(), None);
    }
}
