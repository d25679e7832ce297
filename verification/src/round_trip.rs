//! What is written as a program is read back as the same circuit.

use vstd::prelude::*;
use vstd::string::*;

use crate::circuit::{Gate, Qubit};
#[allow(unused_imports)]
use crate::lexical::{
    digit_value, find_from, is_space, number, number_from, pieces, starts_with, trim_start,
    trimmed,
};
#[allow(unused_imports)]
use crate::parse::{
    brackets, comment_start, declaration, declared, find_register, gate_line, gate_lines,
    gate_name, gate_sequence, gate_word, gates_of, is_skipped, line_run, lines_run, nonempty,
    operand, operand_list, operand_text, operands_of, program_of, serialized, statement_run,
    statements, uncommented, without_semicolons, GateName, Program, RegisterModel,
};
#[allow(unused_imports)]
use crate::text::{decimal, digit_char};

verus! {

// ---------------------------------------------------------------------------
// Texts
// ---------------------------------------------------------------------------
/// `c` does not occur in `s`.
spec fn lacks(s: Seq<char>, c: char) -> bool {
    forall|i: int| 0 <= i < s.len() ==> s[i] != c
}

proof fn lemma_uncommented(s: Seq<char>, i: int)
    requires
        lacks(s, '/'),
        0 <= i <= s.len(),
    ensures
        uncommented(s, i, false) == s.skip(i),
    decreases s.len() - i,
{
    if i < s.len() {
        lemma_uncommented(s, i + 1);
        assert(seq![s[i]] + s.skip(i + 1) =~= s.skip(i));
    } else {
        assert(s.skip(i) =~= Seq::empty());
    }
}

proof fn lemma_no_comment(s: Seq<char>, i: int)
    requires
        lacks(s, '/'),
        0 <= i,
    ensures
        comment_start(s, i) == s.len(),
    decreases s.len() - i,
{
    if i + 1 < s.len() {
        lemma_no_comment(s, i + 1);
    }
}

proof fn lemma_pieces_nonempty(s: Seq<char>, c: char)
    ensures
        pieces(s, c).len() > 0,
    decreases s.len(),
{
    if s.len() > 0 {
        lemma_pieces_nonempty(s.drop_last(), c);
    }
}

/// What follows without a separator goes to the last piece.
proof fn lemma_pieces_extend(a: Seq<char>, t: Seq<char>, c: char)
    requires
        lacks(t, c),
    ensures
        pieces(a + t, c) == pieces(a, c).drop_last().push(pieces(a, c).last() + t),
    decreases t.len(),
{
    lemma_pieces_nonempty(a, c);
    let p = pieces(a, c);
    if t.len() == 0 {
        assert(a + t =~= a);
        assert(p.last() + t =~= p.last());
        assert(p.drop_last().push(p.last()) =~= p);
    } else {
        let u = t.drop_last();
        lemma_pieces_extend(a, u, c);
        assert((a + t).drop_last() =~= a + u);
        assert((a + t).last() == t.last());
        assert(t[t.len() - 1] != c);
        let q = pieces(a + u, c);
        assert(q.drop_last() =~= p.drop_last());
        assert((p.last() + u).push(t.last()) =~= p.last() + t);
    }
}

/// A separator starts a new piece.
proof fn lemma_pieces_split(a: Seq<char>, c: char)
    ensures
        pieces(a.push(c), c) == pieces(a, c).push(Seq::empty()),
{
    assert(a.push(c).drop_last() =~= a);
}

/// A text, a separator and a text without one.
proof fn lemma_pieces_join(a: Seq<char>, t: Seq<char>, c: char)
    requires
        lacks(t, c),
    ensures
        pieces(a.push(c) + t, c) == pieces(a, c).push(t),
{
    lemma_pieces_split(a, c);
    lemma_pieces_extend(a.push(c), t, c);
    let p = pieces(a, c).push(Seq::empty());
    assert(p.drop_last() =~= pieces(a, c));
    assert(Seq::<char>::empty() + t =~= t);
}

proof fn lemma_one_piece(t: Seq<char>, c: char)
    requires
        lacks(t, c),
    ensures
        pieces(t, c) == seq![t],
{
    let none = Seq::<char>::empty();
    lemma_pieces_extend(none, t, c);
    assert(none + t =~= t);
    assert(pieces(none, c) =~= seq![none]);
    assert(seq![none].drop_last().push(t) =~= seq![t]);
}

proof fn lemma_trimmed(s: Seq<char>)
    requires
        s.len() > 0,
        !is_space(s[0]),
        !is_space(s.last()),
    ensures
        trimmed(s) == s,
{
}

proof fn lemma_find(s: Seq<char>, c: char, k: int, p: int)
    requires
        0 <= k <= p < s.len(),
        s[p] == c,
        forall|j: int| k <= j < p ==> s[j] != c,
    ensures
        find_from(s, c, k) == Some(p),
    decreases p - k,
{
    if k < p {
        lemma_find(s, c, k + 1, p);
    }
}

proof fn lemma_not_prefix(s: Seq<char>, p: Seq<char>, i: int)
    requires
        0 <= i < p.len(),
        i < s.len() ==> s[i] != p[i],
    ensures
        !starts_with(s, p),
{
    if p.len() <= s.len() {
        assert(s.take(p.len() as int)[i] == s[i]);
    }
}

// ---------------------------------------------------------------------------
// Numbers
// ---------------------------------------------------------------------------
pub(crate) proof fn lemma_decimal_digits(n: nat)
    ensures
        decimal(n).len() > 0,
        forall|i: int|
            0 <= i < decimal(n).len() ==> '0' <= (#[trigger] decimal(n)[i]) && decimal(n)[i]
                <= '9',
    decreases n,
{
    if n >= 10 {
        lemma_decimal_digits(n / 10);
    }
}

proof fn lemma_number_prefix(n: nat, tail: Seq<char>)
    requires
        n <= usize::MAX,
    ensures
        number_from(decimal(n) + tail, 0, 0) == number_from(
            decimal(n) + tail,
            decimal(n).len() as int,
            n as int,
        ),
    decreases n,
{
    let s = decimal(n) + tail;
    lemma_decimal_digits(n);
    if n < 10 {
        assert(s[0] == digit_char(n as int));
        assert(digit_value(s[0]) == Some(n as int));
    } else {
        let d = digit_char((n % 10) as int);
        let head = decimal(n / 10);
        assert(head + (seq![d] + tail) =~= s);
        lemma_number_prefix(n / 10, seq![d] + tail);
        let k = head.len() as int;
        assert(s[k] == d);
        assert(digit_value(s[k]) == Some((n % 10) as int));
        assert((n / 10) * 10 + n % 10 == n);
    }
}

/// A number is read back from its decimal notation.
pub proof fn law_number_of_decimal(n: usize)
    ensures
        number(decimal(n as nat)) == Ok::<usize, crate::lexical::NumberError>(n),
{
    let s = decimal(n as nat);
    let none = Seq::<char>::empty();
    lemma_decimal_digits(n as nat);
    lemma_number_prefix(n as nat, none);
    assert(s + none =~= s);
    assert(s[0] != '+');
}

// ---------------------------------------------------------------------------
// Operands
// ---------------------------------------------------------------------------
/// The one register that is written.
spec fn one_register(n: nat) -> Seq<RegisterModel> {
    seq![RegisterModel { name: "q"@, offset: 0, size: n as usize }]
}

/// The characters that a written statement does not hold.
spec fn plain(s: Seq<char>) -> bool {
    lacks(s, '/') && lacks(s, '\n') && lacks(s, ';')
}

proof fn lemma_plain_add(a: Seq<char>, b: Seq<char>)
    requires
        plain(a),
        plain(b),
    ensures
        plain(a + b),
{
}

/// The shape of an indexed name.
proof fn lemma_operand_chars(n: nat)
    ensures
        ({
            let s = "q["@ + decimal(n) + "]"@;
            &&& s.len() == decimal(n).len() + 3
            &&& s.len() > 3
            &&& s[0] == 'q'
            &&& s[1] == '['
            &&& s[s.len() - 1] == ']'
            &&& forall|j: int| 2 <= j < s.len() - 1 ==> '0' <= #[trigger] s[j] && s[j] <= '9'
        }),
{
    reveal_strlit("q[");
    reveal_strlit("]");
    lemma_decimal_digits(n);
    let d = decimal(n);
    let s = "q["@ + d + "]"@;
    assert forall|j: int| 2 <= j < s.len() - 1 implies '0' <= #[trigger] s[j] && s[j] <= '9' by {
        assert(s[j] == d[j - 2]);
    }
}

proof fn lemma_operand_plain(n: nat)
    ensures
        plain("q["@ + decimal(n) + "]"@),
        lacks("q["@ + decimal(n) + "]"@, ','),
{
    lemma_operand_chars(n);
}

proof fn lemma_operand_brackets(n: nat)
    ensures
        ({
            let s = "q["@ + decimal(n) + "]"@;
            &&& s.subrange(2, s.len() - 1) == decimal(n)
            &&& s.take(1) == "q"@
            &&& brackets(s) == Some((1int, s.len() - 1))
            &&& trimmed(s) == s
        }),
{
    lemma_operand_chars(n);
    let s = "q["@ + decimal(n) + "]"@;
    assert(s.subrange(2, s.len() - 1) =~= decimal(n)) by {
        reveal_strlit("q[");
        reveal_strlit("]");
    }
    assert(s.take(1) =~= "q"@) by {
        reveal_strlit("q");
    }
    lemma_find(s, '[', 0, 1);
    lemma_find(s, ']', 0, s.len() - 1);
    lemma_trimmed(s);
}

proof fn lemma_register_name()
    ensures
        trimmed("q"@) == "q"@,
{
    reveal_strlit("q");
    lemma_trimmed("q"@);
}

proof fn lemma_operand(q: Qubit, n: nat, line: nat)
    requires
        q.0 < n <= usize::MAX,
    ensures
        operand(operand_text(q), one_register(n), line) == Some(
            Ok::<Option<Qubit>, Seq<char>>(Some(q)),
        ),
{
    let s = operand_text(q);
    let regs = one_register(n);
    assert(s.len() > 3 && s.last() == ']') by {
        lemma_operand_chars(q.0 as nat);
    }
    lemma_operand_brackets(q.0 as nat);
    law_number_of_decimal(q.0);
    lemma_register_name();
    let p = without_semicolons(trimmed(s));
    assert(p == s);
    assert(number(p.subrange(2, p.len() - 1)) == Ok::<usize, crate::lexical::NumberError>(q.0));
    assert(find_register(regs, "q"@) == Some(regs[0]));
}

spec fn operand_texts(qs: Seq<Qubit>) -> Seq<Seq<char>> {
    Seq::new(qs.len(), |i: int| operand_text(qs[i]))
}

proof fn lemma_operand_list(qs: Seq<Qubit>)
    requires
        qs.len() > 0,
    ensures
        pieces(operand_list(qs), ',') == operand_texts(qs),
        plain(operand_list(qs)),
        operand_list(qs).len() > 0,
        operand_list(qs).last() == ']',
    decreases qs.len(),
{
    let last = qs.last();
    lemma_operand_plain(last.0 as nat);
    lemma_operand_chars(last.0 as nat);
    let t = operand_text(last);
    if qs.len() == 1 {
        lemma_one_piece(t, ',');
        assert(operand_texts(qs) =~= seq![t]);
    } else {
        let head = qs.drop_last();
        lemma_operand_list(head);
        reveal_strlit(",");
        let a = operand_list(head);
        assert(a + ","@ =~= a.push(','));
        lemma_pieces_join(a, t, ',');
        assert(operand_texts(qs) =~= operand_texts(head).push(t));
        lemma_plain_add(a, ","@);
        lemma_plain_add(a + ","@, t);
    }
}

proof fn lemma_operands(qs: Seq<Qubit>, n: nat, line: nat)
    requires
        n <= usize::MAX,
        forall|i: int| 0 <= i < qs.len() ==> (#[trigger] qs[i]).0 < n,
    ensures
        operands_of(operand_texts(qs), one_register(n), line) == Some(
            Ok::<Seq<Qubit>, Seq<char>>(qs),
        ),
    decreases qs.len(),
{
    let t = operand_texts(qs);
    if qs.len() == 0 {
        assert(qs =~= Seq::empty());
    } else {
        let head = qs.drop_last();
        assert(t.drop_last() =~= operand_texts(head));
        lemma_operands(head, n, line);
        lemma_operand(qs.last(), n, line);
        assert(head.push(qs.last()) =~= qs);
    }
}

// ---------------------------------------------------------------------------
// Statements
// ---------------------------------------------------------------------------
/// A gate without the end of its line.
spec fn gate_statement(g: Gate<Qubit>) -> Seq<char> {
    gate_word(g) + operand_list(g.operands())
}

/// A gate that the reader knows, on qubits below `n`.
pub open spec fn readable(g: Gate<Qubit>, n: nat) -> bool {
    &&& !(g is CCZ)
    &&& forall|i: int| 0 <= i < g.operands().len() ==> (#[trigger] g.operands()[i]).0 < n
}

spec fn name_of(g: Gate<Qubit>) -> GateName {
    match g {
        Gate::X(_) => GateName::X,
        Gate::Y(_) => GateName::Y,
        Gate::H(_) => GateName::H,
        Gate::S(_) => GateName::S,
        Gate::Sdg(_) => GateName::Sdg,
        Gate::Z(_) => GateName::Z,
        Gate::T(_) => GateName::T,
        Gate::Tdg(_) => GateName::Tdg,
        _ => GateName::Cx,
    }
}

#[verifier::spinoff_prover]
proof fn lemma_words()
    ensures
        "cx "@ == seq!['c', 'x', ' '],
        "ccx "@ == seq!['c', 'c', 'x', ' '],
        "cz "@ == seq!['c', 'z', ' '],
        "h "@ == seq!['h', ' '],
        "x "@ == seq!['x', ' '],
        "y "@ == seq!['y', ' '],
        "s "@ == seq!['s', ' '],
        "sdg "@ == seq!['s', 'd', 'g', ' '],
        "tdg "@ == seq!['t', 'd', 'g', ' '],
        "z "@ == seq!['z', ' '],
        "t "@ == seq!['t', ' '],
{
    reveal_strlit("cx ");
    reveal_strlit("ccx ");
    reveal_strlit("cz ");
    reveal_strlit("h ");
    reveal_strlit("x ");
    reveal_strlit("y ");
    reveal_strlit("s ");
    reveal_strlit("sdg ");
    reveal_strlit("tdg ");
    reveal_strlit("z ");
    reveal_strlit("t ");
    assert("cx "@ =~= seq!['c', 'x', ' ']);
    assert("ccx "@ =~= seq!['c', 'c', 'x', ' ']);
    assert("cz "@ =~= seq!['c', 'z', ' ']);
    assert("h "@ =~= seq!['h', ' ']);
    assert("x "@ =~= seq!['x', ' ']);
    assert("y "@ =~= seq!['y', ' ']);
    assert("s "@ =~= seq!['s', ' ']);
    assert("sdg "@ =~= seq!['s', 'd', 'g', ' ']);
    assert("tdg "@ =~= seq!['t', 'd', 'g', ' ']);
    assert("z "@ =~= seq!['z', ' ']);
    assert("t "@ =~= seq!['t', ' ']);
}

proof fn lemma_other_word(s: Seq<char>, p: Seq<char>)
    requires
        s.len() > 1,
        p.len() > 1,
        s[0] != p[0] || s[1] != p[1],
    ensures
        !starts_with(s, p),
{
    if s[0] != p[0] {
        lemma_not_prefix(s, p, 0);
    } else {
        lemma_not_prefix(s, p, 1);
    }
}

#[verifier::spinoff_prover]
proof fn lemma_gate_name(g: Gate<Qubit>, rest: Seq<char>)
    requires
        !(g is CCZ),
    ensures
        gate_name(gate_word(g) + rest) == Some((name_of(g), gate_word(g).len() as int)),
{
    lemma_words();
    let w = gate_word(g);
    let s = w + rest;
    assert(s.take(w.len() as int) =~= w);
    if w != "cx "@ {
        lemma_other_word(s, "cx "@);
        lemma_other_word(s, "ccx "@);
        lemma_other_word(s, "cz "@);
    }
    if w != "h "@ {
        lemma_other_word(s, "h "@);
    }
    if w != "x "@ {
        lemma_other_word(s, "x "@);
    }
    if w != "y "@ {
        lemma_other_word(s, "y "@);
    }
    if w != "s "@ {
        lemma_other_word(s, "s "@);
    }
    if w != "sdg "@ {
        lemma_other_word(s, "sdg "@);
    }
    if w != "tdg "@ {
        lemma_other_word(s, "tdg "@);
    }
    if w != "z "@ {
        lemma_other_word(s, "z "@);
    }
}

#[verifier::spinoff_prover]
proof fn lemma_gate_statement(g: Gate<Qubit>)
    requires
        !(g is CCZ),
    ensures
        plain(gate_statement(g)),
        trimmed(gate_statement(g)) == gate_statement(g),
        gate_statement(g).len() > 0,
        !is_skipped(gate_statement(g)),
        !starts_with(gate_statement(g), "qreg"@),
{
    lemma_words();
    reveal_strlit("OPENQASM");
    reveal_strlit("include");
    reveal_strlit("barrier");
    reveal_strlit("qreg");
    let w = gate_word(g);
    let s = gate_statement(g);
    assert(g.operands().len() > 0);
    lemma_operand_list(g.operands());
    assert(plain(w));
    lemma_plain_add(w, operand_list(g.operands()));
    assert(s[0] == w[0]);
    lemma_not_prefix(s, "OPENQASM"@, 0);
    lemma_not_prefix(s, "include"@, 0);
    lemma_not_prefix(s, "barrier"@, 0);
    lemma_not_prefix(s, "qreg"@, 0);
    lemma_trimmed(s);
}

proof fn lemma_gates_of(g: Gate<Qubit>, n: nat, line: nat)
    requires
        n <= usize::MAX,
        readable(g, n),
    ensures
        gates_of(gate_statement(g), one_register(n), line) == Some(
            Ok::<Seq<Gate<Qubit>>, Seq<char>>(seq![g]),
        ),
{
    let qs = g.operands();
    let rest = operand_list(qs);
    lemma_gate_name(g, rest);
    lemma_operand_list(qs);
    lemma_operands(qs, n, line);
    assert(gate_statement(g).skip(gate_word(g).len() as int) =~= rest);
    assert(gate_sequence(name_of(g), qs) =~= seq![g]);
}

/// A line with one statement.
proof fn lemma_statements(s: Seq<char>)
    requires
        plain(s),
        trimmed(s) == s,
        s.len() > 0,
    ensures
        statements(s.push(';')) == seq![s],
{
    let line = s.push(';');
    let none = Seq::<char>::empty();
    lemma_no_comment(line, 0);
    assert(line.take(line.len() as int) =~= line);
    lemma_one_piece(s, ';');
    lemma_pieces_split(s, ';');
    let parts = pieces(line, ';');
    assert(parts =~= seq![s, none]);
    assert(parts.drop_last() =~= seq![s]);
    assert(seq![s].drop_last() =~= Seq::<Seq<char>>::empty());
    assert(nonempty(Seq::<Seq<char>>::empty()) =~= Seq::<Seq<char>>::empty());
    assert(nonempty(seq![s]) =~= seq![s]);
    assert(trimmed(none) == none);
}

proof fn lemma_one_statement(p: Program, s: Seq<char>, line: nat)
    ensures
        line_run(p, seq![s], line) == statement_run(p, s, line),
{
    assert(seq![s].drop_last() =~= Seq::<Seq<char>>::empty());
    assert(line_run(p, Seq::<Seq<char>>::empty(), line) == Some(Ok::<Program, Seq<char>>(p)));
}

// ---------------------------------------------------------------------------
// Lines
// ---------------------------------------------------------------------------
/// Lines, each with its end.
spec fn ended(lines: Seq<Seq<char>>) -> Seq<char>
    decreases lines.len(),
{
    if lines.len() == 0 {
        Seq::empty()
    } else {
        (ended(lines.drop_last()) + lines.last()).push('\n')
    }
}

proof fn lemma_ended(lines: Seq<Seq<char>>)
    requires
        forall|i: int| 0 <= i < lines.len() ==> lacks(#[trigger] lines[i], '\n'),
        forall|i: int| 0 <= i < lines.len() ==> lacks(#[trigger] lines[i], '/'),
    ensures
        pieces(ended(lines), '\n') == lines.push(Seq::empty()),
        lacks(ended(lines), '/'),
    decreases lines.len(),
{
    let none = Seq::<char>::empty();
    if lines.len() == 0 {
        assert(lines.push(none) =~= seq![none]);
    } else {
        let head = lines.drop_last();
        assert forall|i: int| 0 <= i < head.len() implies lacks(#[trigger] head[i], '\n') && lacks(
            head[i],
            '/',
        ) by {
            assert(head[i] == lines[i]);
        }
        lemma_ended(head);
        let a = ended(head);
        let t = lines.last();
        assert(lacks(lines[lines.len() - 1], '\n'));
        lemma_pieces_extend(a, t, '\n');
        assert(none + t =~= t);
        assert(head.push(none).drop_last() =~= head);
        assert(pieces(a + t, '\n') =~= lines);
        lemma_pieces_split(a + t, '\n');
    }
}

/// The written lines: the three of the head and one for each gate.
spec fn written(gates: Seq<Gate<Qubit>>, n: nat) -> Seq<Seq<char>>
    decreases gates.len(),
{
    if gates.len() == 0 {
        seq![
            "OPENQASM 2.0"@.push(';'),
            "include \"qelib1.inc\""@.push(';'),
            ("qreg "@ + ("q["@ + decimal(n) + "]"@)).push(';'),
        ]
    } else {
        written(gates.drop_last(), n).push(gate_statement(gates.last()).push(';'))
    }
}

proof fn lemma_head_text(n: nat)
    ensures
        ended(written(Seq::empty(), n)) == "OPENQASM 2.0;\n"@ + "include \"qelib1.inc\";\n"@
            + "qreg q["@ + decimal(n) + "];\n"@,
{
    reveal_strlit("OPENQASM 2.0");
    reveal_strlit("OPENQASM 2.0;\n");
    reveal_strlit("include \"qelib1.inc\"");
    reveal_strlit("include \"qelib1.inc\";\n");
    reveal_strlit("qreg ");
    reveal_strlit("q[");
    reveal_strlit("qreg q[");
    reveal_strlit("]");
    reveal_strlit("];\n");
    let w = written(Seq::empty(), n);
    assert(w.drop_last() =~= seq![w[0], w[1]]);
    assert(w.drop_last().drop_last() =~= seq![w[0]]);
    assert(seq![w[0]].drop_last() =~= Seq::<Seq<char>>::empty());
    let none = Seq::<char>::empty();
    assert(ended(Seq::<Seq<char>>::empty()) == none);
    assert((none + w[0]).push('\n') =~= "OPENQASM 2.0;\n"@);
    assert(ended(seq![w[0]]) =~= "OPENQASM 2.0;\n"@);
    assert(w[1].push('\n') =~= "include \"qelib1.inc\";\n"@);
    assert(ended(seq![w[0], w[1]]) =~= "OPENQASM 2.0;\n"@ + "include \"qelib1.inc\";\n"@);
    assert(w[2].push('\n') =~= "qreg q["@ + decimal(n) + "];\n"@);
    assert(ended(w) =~= "OPENQASM 2.0;\n"@ + "include \"qelib1.inc\";\n"@ + "qreg q["@ + decimal(n)
        + "];\n"@);
}

proof fn lemma_written_text(gates: Seq<Gate<Qubit>>, n: nat)
    ensures
        ended(written(gates, n)) == serialized(gates, n),
    decreases gates.len(),
{
    if gates.len() == 0 {
        assert(gates =~= Seq::empty());
        lemma_head_text(n);
        assert(ended(written(gates, n)) + gate_lines(gates) =~= ended(written(gates, n)));
    } else {
        let head = gates.drop_last();
        lemma_written_text(head, n);
        reveal_strlit(";\n");
        let w = written(gates, n);
        assert(w.drop_last() =~= written(head, n));
        let s = gate_statement(gates.last());
        assert(s.push(';').push('\n') =~= s + ";\n"@);
        assert(ended(w) =~= serialized(head, n) + gate_line(gates.last()));
        assert(serialized(gates, n) =~= serialized(head, n) + gate_line(gates.last()));
    }
}

/// A program before its first statement.
spec fn blank() -> Program {
    Program { registers: Seq::empty(), num_qubits: 0, seen_gate: false, gates: Seq::empty() }
}

/// A program with its one register declared.
spec fn opened(n: nat) -> Program {
    Program { registers: one_register(n), num_qubits: n, seen_gate: false, gates: Seq::empty() }
}

proof fn lemma_skipped_heads()
    ensures
        ({
            let s = "OPENQASM 2.0"@;
            &&& plain(s)
            &&& trimmed(s) == s
            &&& s.len() > 0
            &&& is_skipped(s)
        }),
        ({
            let s = "include \"qelib1.inc\""@;
            &&& plain(s)
            &&& trimmed(s) == s
            &&& s.len() > 0
            &&& is_skipped(s)
        }),
{
    reveal_strlit("OPENQASM 2.0");
    reveal_strlit("OPENQASM");
    reveal_strlit("include \"qelib1.inc\"");
    reveal_strlit("include");
    let s0 = "OPENQASM 2.0"@;
    let s1 = "include \"qelib1.inc\""@;
    lemma_trimmed(s0);
    lemma_trimmed(s1);
    assert(s0.take(8) =~= "OPENQASM"@);
    assert(s1.take(7) =~= "include"@);
}

/// The declaration of the one register.
spec fn declaration_text(n: nat) -> Seq<char> {
    "qreg "@ + ("q["@ + decimal(n) + "]"@)
}

proof fn lemma_declaration_chars(n: nat)
    ensures
        plain(declaration_text(n)),
        trimmed(declaration_text(n)) == declaration_text(n),
        declaration_text(n).len() > 4,
        !is_skipped(declaration_text(n)),
        starts_with(declaration_text(n), "qreg"@),
        trimmed(declaration_text(n).skip(4)) == "q["@ + decimal(n) + "]"@,
{
    reveal_strlit("OPENQASM");
    reveal_strlit("include");
    reveal_strlit("barrier");
    reveal_strlit("qreg ");
    reveal_strlit("qreg");
    lemma_operand_chars(n);
    lemma_operand_plain(n);
    let x = "q["@ + decimal(n) + "]"@;
    let s = declaration_text(n);
    lemma_plain_add("qreg "@, x);
    assert(s[s.len() - 1] == x[x.len() - 1]);
    lemma_trimmed(s);
    lemma_not_prefix(s, "OPENQASM"@, 0);
    lemma_not_prefix(s, "include"@, 0);
    lemma_not_prefix(s, "barrier"@, 0);
    assert(s.take(4) =~= "qreg"@);
    let rest = s.skip(4);
    assert(rest[0] == ' ');
    assert(rest.skip(1) =~= x);
    assert(trim_start(rest) == trim_start(x));
    lemma_operand_brackets(n);
}

proof fn lemma_declaration_run(n: nat)
    requires
        n <= usize::MAX,
    ensures
        statement_run(blank(), declaration_text(n), 3) == Some(
            Ok::<Program, Seq<char>>(opened(n)),
        ),
{
    lemma_declaration_chars(n);
    lemma_operand_brackets(n);
    lemma_operand_chars(n);
    law_number_of_decimal(n as usize);
    lemma_register_name();
    let s = declaration_text(n);
    let x = "q["@ + decimal(n) + "]"@;
    let r = one_register(n)[0];
    assert(number(x.subrange(2, x.len() - 1)) == Ok::<usize, crate::lexical::NumberError>(
        n as usize,
    ));
    assert(declaration(s, 0, 3) == Some(Ok::<Option<RegisterModel>, Seq<char>>(Some(r))));
    assert(blank().registers.push(r) =~= one_register(n));
    assert(declared(blank(), s, 3) == Some(Ok::<Program, Seq<char>>(opened(n))));
}

proof fn lemma_head_run(n: nat)
    requires
        n <= usize::MAX,
    ensures
        lines_run(written(Seq::empty(), n)) == Some(Ok::<Program, Seq<char>>(opened(n))),
        forall|i: int|
            0 <= i < 3 ==> lacks(#[trigger] written(Seq::empty(), n)[i], '\n') && lacks(
                written(Seq::empty(), n)[i],
                '/',
            ),
{
    let w = written(Seq::empty(), n);
    let w2 = w.drop_last();
    let w1 = w2.drop_last();
    assert(w2 =~= seq![w[0], w[1]]);
    assert(w1 =~= seq![w[0]]);
    assert(w1.drop_last() =~= Seq::<Seq<char>>::empty());
    let p0 = blank();
    let s0 = "OPENQASM 2.0"@;
    let s1 = "include \"qelib1.inc\""@;
    let s2 = declaration_text(n);
    lemma_skipped_heads();
    lemma_declaration_chars(n);
    lemma_statements(s0);
    lemma_statements(s1);
    lemma_statements(s2);
    lemma_one_statement(p0, s0, 1);
    lemma_one_statement(p0, s1, 2);
    lemma_one_statement(p0, s2, 3);
    assert(lines_run(Seq::<Seq<char>>::empty()) == Some(Ok::<Program, Seq<char>>(p0)));
    assert(lines_run(w1) == Some(Ok::<Program, Seq<char>>(p0)));
    assert(lines_run(w2) == Some(Ok::<Program, Seq<char>>(p0)));
    lemma_declaration_run(n);
}

proof fn lemma_written_run(gates: Seq<Gate<Qubit>>, n: nat)
    requires
        n <= usize::MAX,
        forall|i: int| 0 <= i < gates.len() ==> readable(#[trigger] gates[i], n),
    ensures
        lines_run(written(gates, n)) == Some(
            Ok::<Program, Seq<char>>(
                Program {
                    registers: one_register(n),
                    num_qubits: n,
                    seen_gate: gates.len() > 0,
                    gates,
                },
            ),
        ),
        forall|i: int|
            0 <= i < written(gates, n).len() ==> lacks(#[trigger] written(gates, n)[i], '\n') && lacks(
                written(gates, n)[i],
                '/',
            ),
    decreases gates.len(),
{
    let w = written(gates, n);
    if gates.len() == 0 {
        assert(gates =~= Seq::empty());
        lemma_head_run(n);
    } else {
        let head = gates.drop_last();
        let g = gates.last();
        assert(readable(gates[gates.len() - 1], n));
        assert forall|i: int| 0 <= i < head.len() implies readable(#[trigger] head[i], n) by {
            assert(head[i] == gates[i]);
        }
        lemma_written_run(head, n);
        let p = Program {
            registers: one_register(n),
            num_qubits: n,
            seen_gate: head.len() > 0,
            gates: head,
        };
        let s = gate_statement(g);
        let line = w.len();
        lemma_gate_statement(g);
        lemma_statements(s);
        lemma_one_statement(p, s, line);
        lemma_gates_of(g, n, line);
        assert(w.drop_last() =~= written(head, n));
        assert(w.last() == s.push(';'));
        assert(head + seq![g] =~= gates);
        assert forall|i: int| 0 <= i < w.len() implies lacks(#[trigger] w[i], '\n') && lacks(
            w[i],
            '/',
        ) by {
            if i < w.len() - 1 {
                assert(w[i] == written(head, n)[i]);
            }
        }
    }
}

/// A program that was written is read back: if the gates act on qubits below
/// `num_qubits` and none of them is a CCZ, reading their text gives the same gates on
/// the same number of qubits.
pub proof fn law_written_program_is_read_back(gates: Seq<Gate<Qubit>>, num_qubits: usize)
    requires
        forall|i: int| 0 <= i < gates.len() ==> readable(#[trigger] gates[i], num_qubits as nat),
    ensures
        program_of(serialized(gates, num_qubits as nat)) matches Some(Ok(p)) && p.gates == gates
            && p.num_qubits == num_qubits,
{
    let n = num_qubits as nat;
    let w = written(gates, n);
    let none = Seq::<char>::empty();
    lemma_written_run(gates, n);
    lemma_written_text(gates, n);
    lemma_ended(w);
    let text = serialized(gates, n);
    lemma_uncommented(text, 0);
    assert(text.skip(0) =~= text);
    let all = w.push(none);
    assert(all.drop_last() =~= w);
    lemma_no_comment(none, 0);
    assert(none.take(0) =~= none);
    assert(comment_start(none, 0) == 0);
    assert(none.take(comment_start(none, 0)) =~= none);
    assert(pieces(none, ';') =~= seq![none]);
    assert(nonempty(Seq::<Seq<char>>::empty()) =~= Seq::<Seq<char>>::empty());
    assert(seq![none].drop_last() =~= Seq::<Seq<char>>::empty());
    assert(trimmed(none) == none);
    assert(statements(none) =~= Seq::<Seq<char>>::empty());
}

} // verus!
