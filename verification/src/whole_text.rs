//! Reading a text in batches and reading it whole: both give the same program.

use vstd::prelude::*;

#[allow(unused_imports)]
use crate::circuit::{Gate, Qubit};
#[allow(unused_imports)]
use crate::lexical::{is_space, pieces, trim_end, trim_start, trimmed};
#[allow(unused_imports)]
use crate::parse::{
    comment_start, gates_of, is_skipped, line_run, lines_run, nonempty, program_of, statements,
    uncommented, Program,
};
#[allow(unused_imports)]
use crate::streaming::{
    advanced, batch_line, behind, emptied, filled, gates_to_come, law_batches_add_up, left_to_read,
    next_filled, opened, opening, opening_line, stays_open, visible, Item, ReaderModel,
};

verus! {

// ---------------------------------------------------------------------------
// The lines of a text
// ---------------------------------------------------------------------------
/// The characters of an ASCII text.
pub open spec fn ascii_text(b: Seq<u8>) -> Seq<char> {
    Seq::new(b.len(), |i: int| b[i] as char)
}

/// Every byte is an ASCII character.
pub open spec fn is_ascii(b: Seq<u8>) -> bool {
    forall|i: int| 0 <= i < b.len() ==> #[trigger] b[i] < 128
}

/// The end of the line that holds position `i`: behind its line break, or the end of the
/// text.
pub open spec fn line_after(b: Seq<u8>, i: int) -> int
    decreases b.len() - i,
{
    if i < 0 || i >= b.len() {
        b.len() as int
    } else if b[i] == 10 {
        i + 1
    } else {
        line_after(b, i + 1)
    }
}

/// The lines of the text from position `i` on, each with its line break.
pub open spec fn text_lines(b: Seq<u8>, i: int) -> Seq<Item>
    decreases b.len() - i,
    via line_after_decreases
{
    if i < 0 || i >= b.len() {
        Seq::empty()
    } else {
        seq![Ok::<Seq<u8>, Seq<char>>(b.subrange(i, line_after(b, i)))] + text_lines(
            b,
            line_after(b, i),
        )
    }
}

#[via_fn]
proof fn line_after_decreases(b: Seq<u8>, i: int) {
    if 0 <= i < b.len() {
        lemma_line_after(b, i);
    }
}

proof fn lemma_line_after(b: Seq<u8>, i: int)
    requires
        0 <= i < b.len(),
    ensures
        i < line_after(b, i) <= b.len(),
        forall|k: int| i <= k < line_after(b, i) - 1 ==> #[trigger] b[k] != 10,
        line_after(b, i) < b.len() ==> b[line_after(b, i) - 1] == 10,
    decreases b.len() - i,
{
    if b[i] != 10 && i + 1 < b.len() {
        lemma_line_after(b, i + 1);
    } else if b[i] != 10 {
        assert(line_after(b, i + 1) == b.len());
    }
}

spec fn lacks(s: Seq<char>, c: char) -> bool {
    forall|i: int| 0 <= i < s.len() ==> s[i] != c
}

/// A line by itself: no line break but at its end.
spec fn one_line(line: Seq<u8>) -> bool {
    &&& is_ascii(line)
    &&& forall|k: int| 0 <= k < line.len() - 1 ==> #[trigger] line[k] != 10
}

/// Taking the comments out of a text takes them out of its first line, and then out of the
/// rest.
proof fn lemma_uncommented_line(b: Seq<u8>, i: int, e: int, j: int, inside: bool)
    requires
        is_ascii(b),
        0 <= i <= e <= b.len(),
        0 <= j <= e - i,
        e < b.len() ==> e > i && b[e - 1] == 10,
    ensures
        uncommented(ascii_text(b), i + j, inside) == uncommented(
            ascii_text(b.subrange(i, e)),
            j,
            inside,
        ) + uncommented(ascii_text(b), e, stays_open(b.subrange(i, e), j, inside)),
    decreases e - i - j,
{
    let line = b.subrange(i, e);
    let s = ascii_text(b);
    let t = ascii_text(line);
    let open = stays_open(line, j, inside);
    if j == e - i {
        assert(uncommented(t, j, inside) =~= Seq::<char>::empty());
        assert(Seq::<char>::empty() + uncommented(s, e, inside) =~= uncommented(s, e, inside));
    } else {
        assert(s[i + j] == t[j]);
        assert(line[j] == b[i + j]);
        if j + 1 < e - i {
            assert(s[i + j + 1] == t[j + 1]);
            assert(line[j + 1] == b[i + j + 1]);
            lemma_uncommented_line(b, i, e, j + 1, inside);
            lemma_uncommented_line(b, i, e, j + 1, true);
            lemma_uncommented_line(b, i, e, j + 1, false);
            lemma_uncommented_line(b, i, e, j + 2, true);
            lemma_uncommented_line(b, i, e, j + 2, false);
        } else {
            lemma_uncommented_line(b, i, e, j + 1, inside);
        }
        let rest = uncommented(s, e, open);
        assert(uncommented(s, i + j, inside) =~= uncommented(t, j, inside) + rest);
    }
}

/// What is left of a line with a line break: the break at its end, and before it what the
/// line shows.
proof fn lemma_broken_line(line: Seq<u8>, j: int, inside: bool)
    requires
        one_line(line),
        line.len() > 0,
        line.last() == 10,
        0 <= j < line.len(),
    ensures
        uncommented(ascii_text(line), j, inside).len() > 0,
        uncommented(ascii_text(line), j, inside).last() == '\n',
        lacks(uncommented(ascii_text(line), j, inside).drop_last(), '\n'),
        visible(line, j, inside) == uncommented(ascii_text(line), j, inside) || visible(
            line,
            j,
            inside,
        ) == uncommented(ascii_text(line), j, inside).drop_last(),
    decreases line.len() - j,
{
    let t = ascii_text(line);
    let u = uncommented(t, j, inside);
    let v = visible(line, j, inside);
    assert(t[j] == line[j] as char);
    if j == line.len() - 1 {
        assert(line[j] == 10);
        assert(t[j] == '\n');
        assert(uncommented(t, j + 1, inside) =~= Seq::<char>::empty());
        assert(visible(line, j + 1, inside) =~= Seq::<char>::empty());
        assert(u =~= seq!['\n']);
        if inside {
            assert(v =~= u.drop_last());
        } else {
            assert(v =~= u);
        }
    } else {
        assert(line[j] != 10);
        assert(t[j] != '\n');
        assert(t[j + 1] == line[j + 1] as char);
        lemma_broken_line(line, j + 1, inside);
        if line[j + 1] != 10 {
            assert(j + 2 < line.len());
            lemma_broken_line(line, j + 2, true);
            lemma_broken_line(line, j + 2, false);
        }
        if !inside && !(line[j] == 47 && line[j + 1] == 42) {
            let u1 = uncommented(t, j + 1, false);
            let v1 = visible(line, j + 1, false);
            assert(u == seq![t[j]] + u1);
            assert(v == seq![t[j]] + v1);
            assert(u.drop_last() =~= seq![t[j]] + u1.drop_last());
            assert(u.last() == u1.last());
            if v1 == u1 {
                assert(v == u);
            } else {
                assert(v =~= u.drop_last());
            }
        }
    }
}

/// A line without a line break shows what is left of it.
proof fn lemma_last_line(line: Seq<u8>, j: int, inside: bool)
    requires
        is_ascii(line),
        forall|k: int| 0 <= k < line.len() ==> #[trigger] line[k] != 10,
        0 <= j <= line.len(),
    ensures
        lacks(uncommented(ascii_text(line), j, inside), '\n'),
        visible(line, j, inside) == uncommented(ascii_text(line), j, inside),
    decreases line.len() - j,
{
    let t = ascii_text(line);
    if j < line.len() {
        assert(t[j] == line[j] as char);
        assert(line[j] != 10);
        lemma_last_line(line, j + 1, inside);
        lemma_last_line(line, j + 1, true);
        lemma_last_line(line, j + 1, false);
        if j + 1 < line.len() {
            assert(t[j + 1] == line[j + 1] as char);
            lemma_last_line(line, j + 2, true);
            lemma_last_line(line, j + 2, false);
        }
    }
}

proof fn lemma_pieces_some(s: Seq<char>, c: char)
    ensures
        pieces(s, c).len() > 0,
    decreases s.len(),
{
    if s.len() > 0 {
        lemma_pieces_some(s.drop_last(), c);
    }
}

/// The first piece comes off at the first separator.
proof fn lemma_pieces_first(w: Seq<char>, t: Seq<char>, c: char)
    requires
        lacks(w, c),
    ensures
        pieces(w.push(c) + t, c) == seq![w] + pieces(t, c),
    decreases t.len(),
{
    let all = w.push(c) + t;
    if t.len() == 0 {
        assert(all =~= w.push(c));
        assert(w.push(c).drop_last() =~= w);
        lemma_pieces_alone(w, c);
        assert(pieces(all, c) =~= seq![w] + pieces(t, c));
    } else {
        let u = t.drop_last();
        lemma_pieces_first(w, u, c);
        lemma_pieces_some(u, c);
        assert(all.drop_last() =~= w.push(c) + u);
        assert(all.last() == t.last());
        assert(pieces(all, c) =~= seq![w] + pieces(t, c));
    }
}

proof fn lemma_pieces_alone(w: Seq<char>, c: char)
    requires
        lacks(w, c),
    ensures
        pieces(w, c) == seq![w],
    decreases w.len(),
{
    if w.len() == 0 {
        assert(w =~= Seq::<char>::empty());
    } else {
        let v = w.drop_last();
        assert(lacks(v, c));
        lemma_pieces_alone(v, c);
        assert(w[w.len() - 1] != c);
        assert(v.push(w.last()) =~= w);
        assert(pieces(w, c) =~= seq![w]);
    }
}

// ---------------------------------------------------------------------------
// A line break at the end of a line
// ---------------------------------------------------------------------------
proof fn lemma_comment_start_break(w: Seq<char>, i: int)
    requires
        0 <= i <= w.len(),
    ensures
        0 <= comment_start(w, i) <= w.len(),
        comment_start(w.push('\n'), i) == if comment_start(w, i) == w.len() {
            (w.len() + 1) as int
        } else {
            comment_start(w, i)
        },
    decreases w.len() - i,
{
    let x = w.push('\n');
    if i + 1 < w.len() {
        assert(x[i] == w[i] && x[i + 1] == w[i + 1]);
        lemma_comment_start_break(w, i + 1);
    } else if i + 1 == w.len() {
        assert(x[i + 1] == '\n');
        assert(comment_start(x, i + 1) == x.len());
    }
}

proof fn lemma_trim_start_break(x: Seq<char>)
    ensures
        trim_start(x.push('\n')) == if trim_start(x).len() == 0 {
            Seq::<char>::empty()
        } else {
            trim_start(x).push('\n')
        },
    decreases x.len(),
{
    let y = x.push('\n');
    if x.len() == 0 {
        assert(y.skip(1) =~= Seq::<char>::empty());
        assert(trim_start(y.skip(1)) =~= Seq::<char>::empty());
    } else {
        assert(y[0] == x[0]);
        assert(y.skip(1) =~= x.skip(1).push('\n'));
        lemma_trim_start_break(x.skip(1));
    }
}

proof fn lemma_trimmed_break(x: Seq<char>)
    ensures
        trimmed(x.push('\n')) == trimmed(x),
{
    lemma_trim_start_break(x);
    let a = trim_start(x);
    if a.len() == 0 {
        assert(a =~= Seq::<char>::empty());
    } else {
        assert(a.push('\n').drop_last() =~= a);
        assert(is_space('\n'));
    }
}

/// A line break at the end of a line does not bear on its statements.
proof fn lemma_statements_break(w: Seq<char>)
    ensures
        statements(w.push('\n')) == statements(w),
{
    let x = w.push('\n');
    lemma_comment_start_break(w, 0);
    if comment_start(w, 0) == w.len() {
        assert(w.take(w.len() as int) =~= w);
        assert(x.take(x.len() as int) =~= x);
        lemma_pieces_some(w, ';');
        let p = pieces(w, ';');
        assert(x.drop_last() =~= w);
        let q = pieces(x, ';');
        assert(q == p.drop_last().push(p.last().push('\n')));
        assert(q.drop_last() =~= p.drop_last());
        lemma_trimmed_break(p.last());
    } else {
        assert(x.take(comment_start(w, 0)) =~= w.take(comment_start(w, 0)));
    }
}

proof fn lemma_no_statements()
    ensures
        statements(Seq::<char>::empty()) == Seq::<Seq<char>>::empty(),
{
    let none = Seq::<char>::empty();
    assert(none.take(0) =~= none);
    assert(pieces(none, ';') =~= seq![none]);
    assert(seq![none].drop_last() =~= Seq::<Seq<char>>::empty());
    assert(trim_start(none) =~= none);
    assert(trim_end(none) =~= none);
    assert(nonempty(Seq::<Seq<char>>::empty()) =~= Seq::<Seq<char>>::empty());
    assert(nonempty(seq![none]) =~= Seq::<Seq<char>>::empty());
}

// ---------------------------------------------------------------------------
// Programs from a line on
// ---------------------------------------------------------------------------
/// The program after these lines, behind `line` lines that left `p`.
spec fn run_from(p: Program, line: nat, lines: Seq<Seq<char>>) -> Option<
    Result<Program, Seq<char>>,
>
    decreases lines.len(),
{
    if lines.len() == 0 {
        Some(Ok(p))
    } else {
        match line_run(p, statements(lines[0]), line + 1) {
            Some(Ok(q)) => run_from(q, line + 1, lines.skip(1)),
            other => other,
        }
    }
}

proof fn lemma_run_from(p: Program, line: nat, lines: Seq<Seq<char>>, last: Seq<char>)
    ensures
        run_from(p, line, lines.push(last)) == match run_from(p, line, lines) {
            Some(Ok(q)) => line_run(q, statements(last), line + lines.len() + 1),
            other => other,
        },
    decreases lines.len(),
{
    let all = lines.push(last);
    if lines.len() == 0 {
        assert(all.skip(1) =~= Seq::<Seq<char>>::empty());
        assert(all[0] == last);
        if let Some(Ok(q)) = line_run(p, statements(last), line + 1) {
            assert(run_from(q, line + 1, all.skip(1)) == Some(Ok::<Program, Seq<char>>(q)));
        }
    } else {
        assert(all[0] == lines[0]);
        assert(all.skip(1) =~= lines.skip(1).push(last));
        if let Some(Ok(q)) = line_run(p, statements(lines[0]), line + 1) {
            lemma_run_from(q, line + 1, lines.skip(1), last);
        }
    }
}

spec fn blank() -> Program {
    Program { registers: Seq::empty(), num_qubits: 0, seen_gate: false, gates: Seq::empty() }
}

proof fn lemma_lines_run(lines: Seq<Seq<char>>)
    ensures
        lines_run(lines) == run_from(blank(), 0, lines),
    decreases lines.len(),
{
    if lines.len() > 0 {
        let front = lines.drop_last();
        lemma_lines_run(front);
        assert(front.push(lines.last()) =~= lines);
        lemma_run_from(blank(), 0, front, lines.last());
    }
}

/// Behind a gate, the statements of a line add their gates.
proof fn lemma_gate_line(p: Program, stmts: Seq<Seq<char>>, line: nat)
    requires
        p.seen_gate,
        line_run(p, stmts, line) matches Some(Ok(_)),
    ensures
        line_run(p, stmts, line) matches Some(Ok(q)) && batch_line(stmts, p.registers, line) matches Some(
            Ok(gs),
        ) && q == (Program { gates: p.gates + gs, ..p }),
    decreases stmts.len(),
{
    if stmts.len() == 0 {
        assert(p.gates + Seq::<Gate<Qubit>>::empty() =~= p.gates);
    } else {
        lemma_gate_line(p, stmts.drop_last(), line);
        let q = line_run(p, stmts.drop_last(), line)->0->Ok_0;
        let gs = batch_line(stmts.drop_last(), p.registers, line)->0->Ok_0;
        let stmt = stmts.last();
        if !is_skipped(stmt) {
            let more = gates_of(stmt, p.registers, line)->0->Ok_0;
            assert((p.gates + gs) + more =~= p.gates + (gs + more));
        }
    }
}

/// In the opening, a line that can be run is read as it is run.
proof fn lemma_opening_line(p: Program, stmts: Seq<Seq<char>>, line: nat)
    requires
        line_run(p, stmts, line) matches Some(Ok(_)),
    ensures
        opening_line(p, stmts, line) == line_run(p, stmts, line),
    decreases stmts.len(),
{
    if stmts.len() > 0 {
        lemma_opening_line(p, stmts.drop_last(), line);
    }
}

proof fn lemma_still_empty(p: Program, stmts: Seq<Seq<char>>, line: nat)
    requires
        !p.seen_gate ==> p.gates.len() == 0,
        line_run(p, stmts, line) matches Some(Ok(_)),
    ensures
        line_run(p, stmts, line) matches Some(Ok(q)) && (!q.seen_gate ==> q.gates.len() == 0),
    decreases stmts.len(),
{
    if stmts.len() > 0 {
        lemma_still_empty(p, stmts.drop_last(), line);
    }
}

/// What is left of the text from position `i` on.
spec fn code_from(b: Seq<u8>, i: int, inside: bool) -> Seq<Seq<char>> {
    pieces(uncommented(ascii_text(b), i, inside), '\n')
}

/// The first line comes off: what it shows, and what is left of the text behind it. A text
/// without a line break ends with its first line.
proof fn lemma_first_line(b: Seq<u8>, i: int, inside: bool) -> (w: Seq<char>)
    requires
        is_ascii(b),
        0 <= i < b.len(),
    ensures
        statements(visible(b.subrange(i, line_after(b, i)), 0, inside)) == statements(w),
        code_from(b, i, inside) == seq![w] + code_from(
            b,
            line_after(b, i),
            stays_open(b.subrange(i, line_after(b, i)), 0, inside),
        ) || (line_after(b, i) == b.len() && code_from(b, i, inside) == seq![w]),
{
    lemma_line_after(b, i);
    let e = line_after(b, i);
    let line = b.subrange(i, e);
    let open = stays_open(line, 0, inside);
    let u = uncommented(ascii_text(line), 0, inside);
    let t = uncommented(ascii_text(b), e, open);
    lemma_uncommented_line(b, i, e, 0, inside);
    assert(is_ascii(line));
    if line.last() == 10 {
        assert(one_line(line));
        lemma_broken_line(line, 0, inside);
        let w = u.drop_last();
        assert(w.push('\n') =~= u);
        lemma_pieces_first(w, t, '\n');
        lemma_statements_break(w);
        w
    } else {
        assert forall|k: int| 0 <= k < line.len() implies #[trigger] line[k] != 10 by {
            assert(line[k] == b[i + k]);
        }
        lemma_last_line(line, 0, inside);
        assert(t =~= Seq::<char>::empty());
        assert(u + t =~= u);
        lemma_pieces_alone(u, '\n');
        u
    }
}

proof fn lemma_nothing_left(b: Seq<u8>, i: int, inside: bool)
    requires
        i >= b.len(),
    ensures
        code_from(b, i, inside) == seq![Seq::<char>::empty()],
{
}

proof fn lemma_empty_line(p: Program, line: nat)
    ensures
        run_from(p, line, seq![Seq::<char>::empty()]) == Some(Ok::<Program, Seq<char>>(p)),
{
    lemma_no_statements();
    let one = seq![Seq::<char>::empty()];
    assert(one.skip(1) =~= Seq::<Seq<char>>::empty());
    assert(run_from(p, line + 1, one.skip(1)) == Some(Ok::<Program, Seq<char>>(p)));
}

/// Behind the first line, the program goes on with what is left.
proof fn lemma_step(b: Seq<u8>, i: int, inside: bool, p: Program, line: nat)
    requires
        is_ascii(b),
        0 <= i < b.len(),
        run_from(p, line, code_from(b, i, inside)) matches Some(Ok(_)),
    ensures
        ({
            let e = line_after(b, i);
            let text = b.subrange(i, e);
            let shown = line_run(p, statements(visible(text, 0, inside)), line + 1);
            &&& shown matches Some(Ok(q))
            &&& run_from(p, line, code_from(b, i, inside)) == run_from(
                shown->0->Ok_0,
                line + 1,
                code_from(b, e, stays_open(text, 0, inside)),
            )
        }),
{
    let e = line_after(b, i);
    lemma_line_after(b, i);
    let open = stays_open(b.subrange(i, e), 0, inside);
    let w = lemma_first_line(b, i, inside);
    let code = code_from(b, i, inside);
    assert(code[0] == w);
    let q = line_run(p, statements(w), line + 1)->0->Ok_0;
    if code == seq![w] + code_from(b, e, open) {
        assert(code.skip(1) =~= code_from(b, e, open));
    } else {
        assert(code.skip(1) =~= Seq::<Seq<char>>::empty());
        assert(run_from(q, line + 1, code.skip(1)) == Some(Ok::<Program, Seq<char>>(q)));
        lemma_nothing_left(b, e, open);
        lemma_empty_line(q, line + 1);
    }
}

/// A reader in the middle of a text.
spec fn reader_at(p: Program, line: nat, inside: bool, b: Seq<u8>, i: int) -> ReaderModel {
    ReaderModel {
        registers: p.registers,
        num_qubits: p.num_qubits,
        line,
        in_comment: inside,
        done: false,
        leftover: Seq::empty(),
        pending: text_lines(b, i),
    }
}

proof fn lemma_text_lines(b: Seq<u8>, i: int)
    requires
        0 <= i < b.len(),
    ensures
        text_lines(b, i).len() > 0,
        text_lines(b, i)[0] == Ok::<Seq<u8>, Seq<char>>(b.subrange(i, line_after(b, i))),
        text_lines(b, i).skip(1) == text_lines(b, line_after(b, i)),
{
    assert(text_lines(b, i).skip(1) =~= text_lines(b, line_after(b, i)));
}

/// Behind the opening, the lines to come hold the gates that running them adds.
proof fn lemma_gates_of_rest(b: Seq<u8>, i: int, inside: bool, p: Program, line: nat)
    requires
        is_ascii(b),
        0 <= i <= b.len(),
        p.seen_gate,
        run_from(p, line, code_from(b, i, inside)) matches Some(Ok(_)),
    ensures
        run_from(p, line, code_from(b, i, inside)) matches Some(Ok(q)) && gates_to_come(
            reader_at(p, line, inside, b, i),
            p.gates,
        ) == Some(Ok::<Seq<Gate<Qubit>>, Seq<char>>(q.gates)) && q.registers == p.registers
            && q.num_qubits == p.num_qubits,
    decreases b.len() - i,
{
    let r = reader_at(p, line, inside, b, i);
    if i == b.len() {
        lemma_nothing_left(b, i, inside);
        lemma_empty_line(p, line);
    } else {
        lemma_line_after(b, i);
        lemma_text_lines(b, i);
        let e = line_after(b, i);
        let text = b.subrange(i, e);
        let open = stays_open(text, 0, inside);
        let stmts = statements(visible(text, 0, inside));
        lemma_step(b, i, inside, p, line);
        lemma_gate_line(p, stmts, line + 1);
        let q = line_run(p, stmts, line + 1)->0->Ok_0;
        lemma_gates_of_rest(b, e, open, q, line + 1);
        assert(advanced(r, text) =~= reader_at(q, line + 1, open, b, e));
    }
}

/// The opening of a text that can be run, and what it leaves to read.
proof fn lemma_opening_of_rest(b: Seq<u8>, i: int, inside: bool, p: Program, line: nat)
    requires
        is_ascii(b),
        0 <= i <= b.len(),
        !p.seen_gate,
        p.gates.len() == 0,
        run_from(p, line, code_from(b, i, inside)) matches Some(Ok(q)) && q.registers.len() > 0,
    ensures
        run_from(p, line, code_from(b, i, inside)) matches Some(Ok(q)) && opening(
            p,
            line,
            inside,
            text_lines(b, i),
        ) matches Some(Ok(r)) && r.num_qubits == q.num_qubits && left_to_read(r) == Some(
            Ok::<Seq<Gate<Qubit>>, Seq<char>>(q.gates),
        ),
    decreases b.len() - i,
{
    if i == b.len() {
        lemma_nothing_left(b, i, inside);
        lemma_empty_line(p, line);
        assert(p.gates =~= Seq::<Gate<Qubit>>::empty());
    } else {
        lemma_line_after(b, i);
        lemma_text_lines(b, i);
        let e = line_after(b, i);
        let text = b.subrange(i, e);
        let open = stays_open(text, 0, inside);
        let stmts = statements(visible(text, 0, inside));
        lemma_step(b, i, inside, p, line);
        lemma_opening_line(p, stmts, line + 1);
        lemma_still_empty(p, stmts, line + 1);
        let q = line_run(p, stmts, line + 1)->0->Ok_0;
        if !q.seen_gate {
            lemma_opening_of_rest(b, e, open, q, line + 1);
        } else {
            lemma_gates_of_rest(b, e, open, q, line + 1);
            let r = opening(p, line, inside, text_lines(b, i))->0->Ok_0;
            assert(emptied(r) =~= reader_at(q, line + 1, open, b, e));
        }
    }
}

/// A reader of an ASCII text that parses, with a register declared, opens, declares as many
/// qubits as parsing the text whole, and has the gates of the whole text left to read.
pub proof fn law_reading_holds_the_parsed_gates(b: Seq<u8>)
    requires
        is_ascii(b),
        program_of(ascii_text(b)) matches Some(Ok(p)) && p.registers.len() > 0,
    ensures
        program_of(ascii_text(b)) matches Some(Ok(p)) && opened(text_lines(b, 0)) matches Some(
            Ok(r),
        ) && r.num_qubits == p.num_qubits && left_to_read(r) == Some(
            Ok::<Seq<Gate<Qubit>>, Seq<char>>(p.gates),
        ),
{
    lemma_lines_run(code_from(b, 0, false));
    lemma_opening_of_rest(b, 0, false, blank(), 0);
}

// ---------------------------------------------------------------------------
// Batch after batch
// ---------------------------------------------------------------------------
/// From `readers[0]` on, `batches` were handed out one after another, each of at most as
/// many gates as `sizes` says.
pub open spec fn handed_out(
    readers: Seq<ReaderModel>,
    sizes: Seq<nat>,
    batches: Seq<Seq<Gate<Qubit>>>,
) -> bool {
    &&& readers.len() == batches.len() + 1
    &&& sizes.len() == batches.len()
    &&& forall|k: int|
        0 <= k < batches.len() ==> #[trigger] next_filled(readers[k], sizes[k]) == Some(
            (readers[k + 1], Ok::<Option<Seq<Gate<Qubit>>>, Seq<char>>(Some(batches[k]))),
        )
}

proof fn lemma_handed_out(
    readers: Seq<ReaderModel>,
    sizes: Seq<nat>,
    batches: Seq<Seq<Gate<Qubit>>>,
)
    requires
        handed_out(readers, sizes, batches),
    ensures
        left_to_read(readers[0]) == behind(batches.flatten(), left_to_read(readers.last())),
    decreases batches.len(),
{
    if batches.len() == 0 {
        assert(batches.flatten() =~= Seq::<Gate<Qubit>>::empty());
        if let Some(Ok(more)) = left_to_read(readers[0]) {
            assert(Seq::<Gate<Qubit>>::empty() + more =~= more);
        }
    } else {
        let n = batches.len() - 1;
        let rs = readers.drop_last();
        let bs = batches.drop_last();
        let ns = sizes.drop_last();
        assert forall|k: int| 0 <= k < bs.len() implies #[trigger] next_filled(rs[k], ns[k])
            == Some((rs[k + 1], Ok::<Option<Seq<Gate<Qubit>>>, Seq<char>>(Some(bs[k])))) by {
            assert(next_filled(readers[k], sizes[k]) == Some(
                (readers[k + 1], Ok::<Option<Seq<Gate<Qubit>>>, Seq<char>>(Some(batches[k]))),
            ));
        }
        lemma_handed_out(rs, ns, bs);
        assert(next_filled(readers[n], sizes[n]) == Some(
            (readers[n + 1], Ok::<Option<Seq<Gate<Qubit>>>, Seq<char>>(Some(batches[n]))),
        ));
        law_batches_add_up(readers[n], sizes[n]);
        bs.lemma_flatten_push(batches[n]);
        assert(bs.push(batches[n]) =~= batches);
        if let Some(Ok(more)) = left_to_read(readers[n + 1]) {
            assert(bs.flatten() + (batches[n] + more) =~= batches.flatten() + more);
        }
    }
}

proof fn lemma_filled_when_readable(r: ReaderModel, gates: Seq<Gate<Qubit>>, n: nat)
    requires
        gates_to_come(r, gates) matches Some(Ok(_)),
    ensures
        filled(r, gates, n) matches Some((_, Ok(all))) && all.len() <= (gates_to_come(
            r,
            gates,
        )->0->Ok_0).len(),
    decreases r.pending.len(),
{
    if r.pending.len() > 0 {
        if let Ok(text) = r.pending[0] {
            if let Some(Ok(more)) = batch_line(
                statements(visible(text, 0, r.in_comment)),
                r.registers,
                r.line + 1,
            ) {
                lemma_filled_when_readable(advanced(r, text), gates + more, n);
                lemma_come_longer(advanced(r, text), gates + more);
            }
        }
    }
}

proof fn lemma_come_longer(r: ReaderModel, gates: Seq<Gate<Qubit>>)
    requires
        gates_to_come(r, gates) matches Some(Ok(_)),
    ensures
        gates_to_come(r, gates) matches Some(Ok(all)) && gates.len() <= all.len(),
    decreases r.pending.len(),
{
    if r.pending.len() > 0 {
        if let Ok(text) = r.pending[0] {
            if let Some(Ok(more)) = batch_line(
                statements(visible(text, 0, r.in_comment)),
                r.registers,
                r.line + 1,
            ) {
                lemma_come_longer(advanced(r, text), gates + more);
            }
        }
    }
}

/// A reader with nothing left answers every request with no batch, and has nothing left
/// then either.
pub proof fn law_the_end_stays_the_end(r: ReaderModel, n: nat)
    requires
        left_to_read(r) == Some(Ok::<Seq<Gate<Qubit>>, Seq<char>>(Seq::empty())),
    ensures
        next_filled(r, n) matches Some((q, Ok(None))) && left_to_read(q) == Some(
            Ok::<Seq<Gate<Qubit>>, Seq<char>>(Seq::empty()),
        ),
{
    if !r.done {
        lemma_come_longer(emptied(r), r.leftover);
        lemma_filled_when_readable(emptied(r), r.leftover, n);
    }
    law_batches_add_up(r, n);
    if let Some((q, _)) = next_filled(r, n) {
        if let Some(Ok(more)) = left_to_read(q) {
            assert(Seq::<Gate<Qubit>>::empty() + more =~= more);
        }
    }
}

/// Batches of a text add up to what parsing it whole gives: however many gates each batch
/// was asked for, if a request for at least one gate is then answered with none, the
/// batches handed out are the gates of the parsed program, in order.
pub proof fn law_batches_are_the_parsed_gates(
    b: Seq<u8>,
    readers: Seq<ReaderModel>,
    sizes: Seq<nat>,
    batches: Seq<Seq<Gate<Qubit>>>,
    n: nat,
)
    requires
        is_ascii(b),
        program_of(ascii_text(b)) matches Some(Ok(p)) && p.registers.len() > 0,
        handed_out(readers, sizes, batches),
        opened(text_lines(b, 0)) == Some(Ok::<ReaderModel, Seq<char>>(readers[0])),
        n >= 1,
        next_filled(readers.last(), n) matches Some((_, Ok(None))),
    ensures
        program_of(ascii_text(b)) matches Some(Ok(p)) && batches.flatten() == p.gates,
        left_to_read(readers.last()) == Some(Ok::<Seq<Gate<Qubit>>, Seq<char>>(Seq::empty())),
{
    law_reading_holds_the_parsed_gates(b);
    lemma_handed_out(readers, sizes, batches);
    crate::streaming::law_no_batch_is_the_end(readers.last(), n);
    assert(batches.flatten() + Seq::<Gate<Qubit>>::empty() =~= batches.flatten());
}

} // verus!
