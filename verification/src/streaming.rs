//! Reading a program line by line, in batches of gates.

use vstd::prelude::*;

use crate::circuit::{Gate, Qubit};
#[allow(unused_imports)]
use crate::lexical::{starts_with, texts};
use crate::lexical::has_prefix;
use crate::parse::{declare, parse_gate_stmt, skips, split_statements, Register};
#[allow(unused_imports)]
use crate::parse::{
    declared, gates_of, is_skipped, register_views, registers_fit, statements, Program,
    RegisterModel,
};

verus! {

// ---------------------------------------------------------------------------
// Lines
// ---------------------------------------------------------------------------
/// What comes next from a source: a line, or why it could not be read.
pub type Item = Result<Seq<u8>, Seq<char>>;

/// A source of lines, each with its line break where it has one.
pub trait LineSource: Sized {
    /// What is still to come.
    spec fn pending(&self) -> Seq<Item>;

    /// The next line; `None` at the end.
    fn next_line(&mut self) -> (r: Result<Option<Vec<u8>>, String>)
        ensures
            match r {
                Ok(None) => old(self).pending().len() == 0 && final(self).pending() == old(
                    self,
                ).pending(),
                Ok(Some(line)) => old(self).pending().len() > 0 && old(self).pending()[0] == Ok::<
                    Seq<u8>,
                    Seq<char>,
                >(line@) && final(self).pending() == old(self).pending().skip(1),
                Err(m) => old(self).pending().len() > 0 && old(self).pending()[0] == Err::<
                    Seq<u8>,
                    Seq<char>,
                >(m@) && final(self).pending() == old(self).pending().skip(1),
            },
    ;
}

/// Lines that are at hand.
pub struct Lines {
    rest: Vec<Vec<u8>>,
}

pub open spec fn line_items(lines: Seq<Vec<u8>>) -> Seq<Item> {
    Seq::new(lines.len(), |i: int| Ok::<Seq<u8>, Seq<char>>(lines[i]@))
}

impl Lines {
    pub fn new(lines: Vec<Vec<u8>>) -> (r: Self)
        ensures
            r.pending() == line_items(lines@),
    {
        let mut lines = lines;
        let ghost all = lines@;
        let mut rest: Vec<Vec<u8>> = Vec::new();
        while lines.len() > 0
            invariant
                rest@ + lines@.reverse() == all.reverse(),
            decreases lines@.len(),
        {
            let ghost before = lines@;
            let ghost done = rest@;
            let line = lines.pop().unwrap();
            rest.push(line);
            assert(done + before.reverse() =~= rest@ + lines@.reverse());
        }
        assert(rest@ =~= all.reverse());
        let r = Lines { rest };
        assert(r.pending() =~= line_items(all));
        r
    }
}

impl LineSource for Lines {
    closed spec fn pending(&self) -> Seq<Item> {
        line_items(self.rest@.reverse())
    }

    fn next_line(&mut self) -> (r: Result<Option<Vec<u8>>, String>) {
        let ghost before = self.rest@;
        match self.rest.pop() {
            None => Ok(None),
            Some(line) => {
                assert(line_items(self.rest@.reverse()) =~= line_items(before.reverse()).skip(1));
                Ok(Some(line))
            },
        }
    }
}

/// What a line shows outside block comments, from position `i` on.
pub open spec fn visible(line: Seq<u8>, i: int, inside: bool) -> Seq<char>
    decreases line.len() - i,
{
    if i < 0 || i >= line.len() {
        Seq::empty()
    } else if inside {
        if line[i] == 42 && i + 1 < line.len() && line[i + 1] == 47 {
            visible(line, i + 2, false)
        } else {
            visible(line, i + 1, true)
        }
    } else if line[i] == 47 && i + 1 < line.len() && line[i + 1] == 42 {
        visible(line, i + 2, true)
    } else {
        seq![line[i] as char] + visible(line, i + 1, false)
    }
}

/// Whether a block comment is open at the end of a line.
pub open spec fn stays_open(line: Seq<u8>, i: int, inside: bool) -> bool
    decreases line.len() - i,
{
    if i < 0 || i >= line.len() {
        inside
    } else if inside {
        if line[i] == 42 && i + 1 < line.len() && line[i + 1] == 47 {
            stays_open(line, i + 2, false)
        } else {
            stays_open(line, i + 1, true)
        }
    } else if line[i] == 47 && i + 1 < line.len() && line[i + 1] == 42 {
        stays_open(line, i + 2, true)
    } else {
        stays_open(line, i + 1, false)
    }
}

/// What a line shows outside block comments, and whether one is open at its end.
fn strip_block_comment_line(line: &Vec<u8>, in_comment: bool) -> (r: (Vec<char>, bool))
    ensures
        r.0@ == visible(line@, 0, in_comment),
        r.1 == stays_open(line@, 0, in_comment),
{
    let mut out: Vec<char> = Vec::new();
    let mut inside = in_comment;
    let mut i: usize = 0;
    assert(out@ + visible(line@, 0, inside) =~= visible(line@, 0, inside));
    while i < line.len()
        invariant
            i <= line@.len(),
            visible(line@, 0, in_comment) == out@ + visible(line@, i as int, inside),
            stays_open(line@, 0, in_comment) == stays_open(line@, i as int, inside),
        decreases line@.len() - i,
    {
        let ghost before = out@;
        let b: u8 = line[i];
        let pair = line.len() - i > 1;
        if inside {
            if b == 42 && pair && line[i + 1] == 47 {
                inside = false;
                i = i + 2;
            } else {
                i = i + 1;
            }
        } else if b == 47 && pair && line[i + 1] == 42 {
            inside = true;
            i = i + 2;
        } else {
            let c = b as char;
            out.push(c);
            assert(before + (seq![c] + visible(line@, i + 1, false)) =~= out@ + visible(
                line@,
                i + 1,
                false,
            ));
            i = i + 1;
        }
    }
    assert(out@ =~= visible(line@, 0, in_comment));
    (out, inside)
}

// ---------------------------------------------------------------------------
// The opening of a program
// ---------------------------------------------------------------------------
/// The program after a statement of its opening. A declaration behind a gate of the same
/// line is read as a gate.
pub open spec fn opening_statement(p: Program, stmt: Seq<char>, line: nat) -> Option<
    Result<Program, Seq<char>>,
> {
    if is_skipped(stmt) {
        Some(Ok(p))
    } else if !p.seen_gate && starts_with(stmt, "qreg"@) {
        declared(p, stmt, line)
    } else {
        match gates_of(stmt, p.registers, line) {
            None => None,
            Some(Err(m)) => Some(Err(m)),
            Some(Ok(gs)) => Some(Ok(Program { seen_gate: true, gates: p.gates + gs, ..p })),
        }
    }
}

/// The program after the statements of a line of its opening.
pub open spec fn opening_line(p: Program, stmts: Seq<Seq<char>>, line: nat) -> Option<
    Result<Program, Seq<char>>,
>
    decreases stmts.len(),
{
    if stmts.len() == 0 {
        Some(Ok(p))
    } else {
        match opening_line(p, stmts.drop_last(), line) {
            Some(Ok(q)) => opening_statement(q, stmts.last(), line),
            other => other,
        }
    }
}

/// The state of a reader.
#[verifier::ext_equal]
pub struct ReaderModel {
    pub registers: Seq<RegisterModel>,
    pub num_qubits: nat,
    pub line: nat,
    pub in_comment: bool,
    pub done: bool,
    pub leftover: Seq<Gate<Qubit>>,
    pub pending: Seq<Item>,
}

/// The reader at the end of a program's opening: the lines up to the first with a gate.
/// `None` where a statement is malformed beyond what an error is given for.
pub open spec fn opening(p: Program, line: nat, in_comment: bool, rest: Seq<Item>) -> Option<
    Result<ReaderModel, Seq<char>>,
>
    decreases rest.len(),
{
    if rest.len() == 0 {
        if p.registers.len() == 0 {
            Some(Err("no qreg declaration found"@))
        } else {
            Some(
                Ok(
                    ReaderModel {
                        registers: p.registers,
                        num_qubits: p.num_qubits,
                        line,
                        in_comment,
                        done: true,
                        leftover: Seq::empty(),
                        pending: rest,
                    },
                ),
            )
        }
    } else {
        match rest[0] {
            Err(m) => Some(Err(m)),
            Ok(text) => match opening_line(
                p,
                statements(visible(text, 0, in_comment)),
                line + 1,
            ) {
                None => None,
                Some(Err(m)) => Some(Err(m)),
                Some(Ok(q)) => {
                    let open = stays_open(text, 0, in_comment);
                    if !q.seen_gate {
                        opening(q, line + 1, open, rest.skip(1))
                    } else if q.registers.len() == 0 {
                        Some(Err("no qreg declaration found"@))
                    } else {
                        Some(
                            Ok(
                                ReaderModel {
                                    registers: q.registers,
                                    num_qubits: q.num_qubits,
                                    line: line + 1,
                                    in_comment: open,
                                    done: false,
                                    leftover: q.gates,
                                    pending: rest.skip(1),
                                },
                            ),
                        )
                    }
                },
            },
        }
    }
}

/// The reader at the end of the opening of what the source holds.
pub open spec fn opened(pending: Seq<Item>) -> Option<Result<ReaderModel, Seq<char>>> {
    opening(
        Program { registers: Seq::empty(), num_qubits: 0, seen_gate: false, gates: Seq::empty() },
        0,
        false,
        pending,
    )
}

proof fn lemma_opening_stop(p: Program, stmts: Seq<Seq<char>>, line: nat, n: int)
    requires
        0 <= n <= stmts.len(),
        !(opening_line(p, stmts.take(n), line) matches Some(Ok(_))),
    ensures
        opening_line(p, stmts, line) == opening_line(p, stmts.take(n), line),
    decreases stmts.len() - n,
{
    if n < stmts.len() {
        assert(stmts.take(n + 1).drop_last() =~= stmts.take(n));
        lemma_opening_stop(p, stmts, line, n + 1);
    } else {
        assert(stmts.take(n) =~= stmts);
    }
}

/// The opening of a program under construction.
struct Head {
    registers: Vec<Register>,
    num_qubits: usize,
    seen_gate: bool,
    gates: Vec<Gate<Qubit>>,
}

impl View for Head {
    type V = Program;

    closed spec fn view(&self) -> Program {
        Program {
            registers: register_views(self.registers@),
            num_qubits: self.num_qubits as nat,
            seen_gate: self.seen_gate,
            gates: self.gates@,
        }
    }
}

fn run_opening_statement(h: &mut Head, stmt: &Vec<char>, line: usize) -> (r: Option<
    Result<(), String>,
>)
    requires
        registers_fit(old(h)@.registers),
    ensures
        match opening_statement(old(h)@, stmt@, line as nat) {
            None => r is None,
            Some(Err(m)) => r matches Some(Err(e)) && e@ == m,
            Some(Ok(q)) => (r matches Some(Ok(_))) && final(h)@ == q && registers_fit(q.registers),
        },
{
    let ghost p = h@;
    if skips(stmt) {
        return Some(Ok(()));
    }
    if !h.seen_gate && has_prefix(stmt, "qreg") {
        proof {
            reveal_strlit("qreg");
        }
        return declare(&mut h.registers, &mut h.num_qubits, stmt, line, Ghost(p));
    }
    match parse_gate_stmt(stmt, line, &h.registers) {
        None => None,
        Some(Err(m)) => Some(Err(m)),
        Some(Ok(gates)) => {
            let mut gates = gates;
            h.gates.append(&mut gates);
            h.seen_gate = true;
            Some(Ok(()))
        },
    }
}

fn run_opening_line(h: &mut Head, text: &Vec<char>, line: usize) -> (r: Option<Result<(), String>>)
    requires
        registers_fit(old(h)@.registers),
    ensures
        match opening_line(old(h)@, statements(text@), line as nat) {
            None => r is None,
            Some(Err(m)) => r matches Some(Err(e)) && e@ == m,
            Some(Ok(q)) => (r matches Some(Ok(_))) && final(h)@ == q && registers_fit(q.registers),
        },
{
    let stmts = split_statements(text);
    let ghost all = texts(stmts@);
    let ghost p = h@;
    assert(all.take(0) =~= Seq::empty());
    let mut i: usize = 0;
    while i < stmts.len()
        invariant
            i <= stmts@.len(),
            all == texts(stmts@),
            all == statements(text@),
            p == old(h)@,
            registers_fit(h@.registers),
            opening_line(p, all.take(i as int), line as nat) == Some(
                Ok::<Program, Seq<char>>(h@),
            ),
        decreases stmts@.len() - i,
    {
        proof {
            assert(all.take(i + 1).drop_last() =~= all.take(i as int));
            assert(all.take(i + 1).last() == stmts@[i as int]@);
        }
        match run_opening_statement(h, &stmts[i], line) {
            None => {
                proof {
                    lemma_opening_stop(p, all, line as nat, i + 1);
                }
                return None;
            },
            Some(Err(m)) => {
                proof {
                    lemma_opening_stop(p, all, line as nat, i + 1);
                }
                return Some(Err(m));
            },
            Some(Ok(_)) => {},
        }
        i = i + 1;
    }
    assert(all.take(all.len() as int) =~= all);
    Some(Ok(()))
}

// ---------------------------------------------------------------------------
// Batches
// ---------------------------------------------------------------------------
/// The gates of the statements of a line behind the opening; declarations are passed
/// over.
pub open spec fn batch_line(stmts: Seq<Seq<char>>, regs: Seq<RegisterModel>, line: nat) -> Option<
    Result<Seq<Gate<Qubit>>, Seq<char>>,
>
    decreases stmts.len(),
{
    if stmts.len() == 0 {
        Some(Ok(Seq::empty()))
    } else {
        match batch_line(stmts.drop_last(), regs, line) {
            Some(Ok(gs)) => if is_skipped(stmts.last()) || starts_with(stmts.last(), "qreg"@) {
                Some(Ok(gs))
            } else {
                match gates_of(stmts.last(), regs, line) {
                    None => None,
                    Some(Err(m)) => Some(Err(m)),
                    Some(Ok(more)) => Some(Ok(gs + more)),
                }
            },
            other => other,
        }
    }
}

/// The reader without the gates it has kept.
pub open spec fn emptied(r: ReaderModel) -> ReaderModel {
    ReaderModel { leftover: Seq::empty(), ..r }
}

/// The reader past its next line.
pub open spec fn advanced(r: ReaderModel, text: Seq<u8>) -> ReaderModel {
    ReaderModel {
        line: r.line + 1,
        in_comment: stays_open(text, 0, r.in_comment),
        pending: r.pending.skip(1),
        ..r
    }
}

/// The reader and the gates once `n` gates are there or the source ends, with `gates`
/// there already. `None` where a statement is malformed beyond what an error is given
/// for.
pub open spec fn filled(r: ReaderModel, gates: Seq<Gate<Qubit>>, n: nat) -> Option<
    (ReaderModel, Result<Seq<Gate<Qubit>>, Seq<char>>),
>
    decreases r.pending.len(),
{
    if gates.len() >= n {
        Some((r, Ok(gates)))
    } else if r.pending.len() == 0 {
        Some((ReaderModel { done: true, ..r }, Ok(gates)))
    } else {
        match r.pending[0] {
            Err(m) => Some((ReaderModel { pending: r.pending.skip(1), ..r }, Err(m))),
            Ok(text) => match batch_line(
                statements(visible(text, 0, r.in_comment)),
                r.registers,
                r.line + 1,
            ) {
                None => None,
                Some(Err(m)) => Some((advanced(r, text), Err(m))),
                Some(Ok(more)) => filled(advanced(r, text), gates + more, n),
            },
        }
    }
}

/// The first `n` of the gates, or all of them.
pub open spec fn first_gates(gates: Seq<Gate<Qubit>>, n: nat) -> Seq<Gate<Qubit>> {
    if n < gates.len() {
        gates.take(n as int)
    } else {
        gates
    }
}

/// The gates behind the first `n`.
pub open spec fn surplus(gates: Seq<Gate<Qubit>>, n: nat) -> Seq<Gate<Qubit>> {
    if n < gates.len() {
        gates.skip(n as int)
    } else {
        Seq::empty()
    }
}

/// The reader behind the next batch of up to `n` gates, and the batch: `None` if it
/// is empty. The gates of the last line read that do not fit are kept.
pub open spec fn next_filled(r: ReaderModel, n: nat) -> Option<
    (ReaderModel, Result<Option<Seq<Gate<Qubit>>>, Seq<char>>),
> {
    if r.done {
        Some((r, Ok(None)))
    } else {
        match filled(emptied(r), r.leftover, n) {
            None => None,
            Some((q, Err(m))) => Some((q, Err(m))),
            Some((q, Ok(gates))) => Some(
                (
                    ReaderModel { leftover: surplus(gates, n), ..q },
                    Ok(
                        if first_gates(gates, n).len() == 0 {
                            None
                        } else {
                            Some(first_gates(gates, n))
                        },
                    ),
                ),
            ),
        }
    }
}

proof fn lemma_batch_stop(stmts: Seq<Seq<char>>, regs: Seq<RegisterModel>, line: nat, n: int)
    requires
        0 <= n <= stmts.len(),
        !(batch_line(stmts.take(n), regs, line) matches Some(Ok(_))),
    ensures
        batch_line(stmts, regs, line) == batch_line(stmts.take(n), regs, line),
    decreases stmts.len() - n,
{
    if n < stmts.len() {
        assert(stmts.take(n + 1).drop_last() =~= stmts.take(n));
        lemma_batch_stop(stmts, regs, line, n + 1);
    } else {
        assert(stmts.take(n) =~= stmts);
    }
}

fn run_batch_line(text: &Vec<char>, registers: &Vec<Register>, line: usize) -> (r: Option<
    Result<Vec<Gate<Qubit>>, String>,
>)
    requires
        registers_fit(register_views(registers@)),
    ensures
        match batch_line(statements(text@), register_views(registers@), line as nat) {
            None => r is None,
            Some(Err(m)) => r matches Some(Err(e)) && e@ == m,
            Some(Ok(gs)) => r matches Some(Ok(v)) && v@ == gs,
        },
{
    let stmts = split_statements(text);
    let ghost all = texts(stmts@);
    let ghost regs = register_views(registers@);
    let mut gates: Vec<Gate<Qubit>> = Vec::new();
    assert(all.take(0) =~= Seq::empty());
    let mut i: usize = 0;
    while i < stmts.len()
        invariant
            i <= stmts@.len(),
            all == texts(stmts@),
            all == statements(text@),
            regs == register_views(registers@),
            registers_fit(regs),
            batch_line(all.take(i as int), regs, line as nat) == Some(
                Ok::<Seq<Gate<Qubit>>, Seq<char>>(gates@),
            ),
        decreases stmts@.len() - i,
    {
        proof {
            assert(all.take(i + 1).drop_last() =~= all.take(i as int));
            assert(all.take(i + 1).last() == stmts@[i as int]@);
        }
        if !skips(&stmts[i]) && !has_prefix(&stmts[i], "qreg") {
            match parse_gate_stmt(&stmts[i], line, registers) {
                None => {
                    proof {
                        lemma_batch_stop(all, regs, line as nat, i + 1);
                    }
                    return None;
                },
                Some(Err(m)) => {
                    proof {
                        lemma_batch_stop(all, regs, line as nat, i + 1);
                    }
                    return Some(Err(m));
                },
                Some(Ok(more)) => {
                    let mut more = more;
                    gates.append(&mut more);
                },
            }
        }
        i = i + 1;
    }
    assert(all.take(all.len() as int) =~= all);
    Some(Ok(gates))
}

/// Reads a program in batches of gates, one line at a time.
pub struct StreamingReader<R: LineSource> {
    reader: R,
    num_qubits: usize,
    registers: Vec<Register>,
    line_num: usize,
    in_block_comment: bool,
    done: bool,
    leftover: Vec<Gate<Qubit>>,
}

impl<R: LineSource> View for StreamingReader<R> {
    type V = ReaderModel;

    closed spec fn view(&self) -> ReaderModel {
        ReaderModel {
            registers: register_views(self.registers@),
            num_qubits: self.num_qubits as nat,
            line: self.line_num as nat,
            in_comment: self.in_block_comment,
            done: self.done,
            leftover: self.leftover@,
            pending: self.reader.pending(),
        }
    }
}

/// Every line still to come can be numbered.
pub open spec fn countable(line: nat, pending: Seq<Item>) -> bool {
    line + pending.len() <= usize::MAX
}

impl<R: LineSource> StreamingReader<R> {
    /// The registers' qubits and the lines to come can be numbered.
    pub open spec fn wf(self) -> bool {
        registers_fit(self@.registers) && countable(self@.line, self@.pending)
    }

    /// Read a program's opening; `None` where a statement is malformed beyond what an
    /// error is given for.
    pub fn try_new(reader: R) -> (r: Option<Result<Self, String>>)
        requires
            countable(0, reader.pending()),
        ensures
            match opened(reader.pending()) {
                None => r is None,
                Some(Err(m)) => r matches Some(Err(e)) && e@ == m,
                Some(Ok(q)) => r matches Some(Ok(s)) && s@ == q && s.wf(),
            },
    {
        let ghost old_pending = reader.pending();
        let mut source = reader;
        let mut h = Head {
            registers: Vec::new(),
            num_qubits: 0,
            seen_gate: false,
            gates: Vec::new(),
        };
        let mut line_num: usize = 0;
        let mut in_block_comment = false;
        let ghost goal = opened(source.pending());
        assert(register_views(h.registers@) =~= Seq::<RegisterModel>::empty());
        loop
            invariant
                opening(h@, line_num as nat, in_block_comment, source.pending()) == goal,
                goal == opened(old_pending),
                registers_fit(h@.registers),
                !h.seen_gate,
                old_pending == reader.pending(),
                countable(line_num as nat, source.pending()),
            decreases source.pending().len(),
        {
            let next = match source.next_line() {
                Err(m) => {
                    return Some(Err(m));
                },
                Ok(next) => next,
            };
            let text = match next {
                None => {
                    if h.registers.len() == 0 {
                        return Some(Err(no_register()));
                    }
                    let r = StreamingReader {
                        reader: source,
                        num_qubits: h.num_qubits,
                        registers: h.registers,
                        line_num,
                        in_block_comment,
                        done: true,
                        leftover: Vec::new(),
                    };
                    return Some(Ok(r));
                },
                Some(text) => text,
            };
            line_num = line_num + 1;
            let (line, open) = strip_block_comment_line(&text, in_block_comment);
            in_block_comment = open;
            match run_opening_line(&mut h, &line, line_num) {
                None => {
                    return None;
                },
                Some(Err(m)) => {
                    return Some(Err(m));
                },
                Some(Ok(_)) => {},
            }
            if h.seen_gate {
                if h.registers.len() == 0 {
                    return Some(Err(no_register()));
                }
                let r = StreamingReader {
                    reader: source,
                    num_qubits: h.num_qubits,
                    registers: h.registers,
                    line_num,
                    in_block_comment,
                    done: false,
                    leftover: h.gates,
                };
                return Some(Ok(r));
            }
        }
    }

    /// Read a program's opening.
    pub fn new(reader: R) -> (r: Result<Self, String>)
        requires
            countable(0, reader.pending()),
            opened(reader.pending()) is Some,
        ensures
            match opened(reader.pending())->0 {
                Err(m) => r matches Err(e) && e@ == m,
                Ok(q) => r matches Ok(s) && s@ == q && s.wf(),
            },
    {
        match Self::try_new(reader) {
            Some(r) => r,
            None => Err(String::new()),
        }
    }

    /// How many qubits the program has declared.
    pub fn num_qubits(&self) -> (r: usize)
        ensures
            r == self@.num_qubits,
    {
        self.num_qubits
    }

    /// Read lines until `batch_size` gates are there or the source ends, and hand out
    /// up to `batch_size` of them; the others are kept for the next batch. The batch is
    /// `None` if no gate was there; the result is `None` where a statement is malformed
    /// beyond what an error is given for.
    pub fn try_next_batch(&mut self, batch_size: usize) -> (r: Option<
        Result<Option<Vec<Gate<Qubit>>>, String>,
    >)
        requires
            old(self).wf(),
        ensures
            final(self).wf(),
            match next_filled(old(self)@, batch_size as nat) {
                None => r is None,
                Some((q, Err(m))) => final(self)@ == q && (r matches Some(Err(e)) && e@ == m),
                Some((q, Ok(None))) => final(self)@ == q && (r matches Some(Ok(None))),
                Some((q, Ok(Some(gs)))) => final(self)@ == q && (r matches Some(Ok(Some(v)))
                    && v@ == gs),
            },
            r matches Some(Ok(Some(v))) ==> 1 <= v@.len() <= batch_size,
    {
        if self.done {
            return Some(Ok(None));
        }
        let ghost start = self@;
        let mut gates: Vec<Gate<Qubit>> = Vec::new();
        core::mem::swap(&mut gates, &mut self.leftover);
        let ghost goal = filled(self@, gates@, batch_size as nat);
        assert(self@ =~= emptied(start));
        while gates.len() < batch_size && !self.done
            invariant
                self.wf(),
                self@.leftover.len() == 0,
                start == old(self)@,
                !start.done,
                goal == filled(emptied(start), start.leftover, batch_size as nat),
                !self.done ==> goal == filled(self@, gates@, batch_size as nat),
                self.done ==> goal == Some(
                    (self@, Ok::<Seq<Gate<Qubit>>, Seq<char>>(gates@)),
                ),
            decreases
                self@.pending.len(),
                if self.done {
                    0int
                } else {
                    1int
                },
        {
            let ghost before = self@;
            let next = match self.reader.next_line() {
                Err(m) => {
                    assert(self@ =~= (ReaderModel { pending: before.pending.skip(1), ..before }));
                    return Some(Err(m));
                },
                Ok(next) => next,
            };
            match next {
                None => {
                    self.done = true;
                    assert(self@ =~= (ReaderModel { done: true, ..before }));
                },
                Some(text) => {
                    self.line_num = self.line_num + 1;
                    let (line, open) = strip_block_comment_line(&text, self.in_block_comment);
                    self.in_block_comment = open;
                    assert(self@ =~= advanced(before, text@));
                    match run_batch_line(&line, &self.registers, self.line_num) {
                        None => {
                            return None;
                        },
                        Some(Err(m)) => {
                            return Some(Err(m));
                        },
                        Some(Ok(more)) => {
                            let mut more = more;
                            gates.append(&mut more);
                        },
                    }
                },
            }
        }
        let ghost all = gates@;
        let ghost filled_state = self@;
        if batch_size < gates.len() {
            self.leftover = gates.split_off(batch_size);
            assert(gates@ =~= all.take(batch_size as int));
            assert(self.leftover@ =~= all.skip(batch_size as int));
        }
        assert(self@.leftover =~= surplus(all, batch_size as nat));
        assert(self@ =~= (ReaderModel {
            leftover: surplus(all, batch_size as nat),
            ..filled_state
        }));
        if gates.len() == 0 {
            Some(Ok(None))
        } else {
            Some(Ok(Some(gates)))
        }
    }

    /// Read the next batch of up to `batch_size` gates. `None` at the end of the source.
    pub fn next_batch(&mut self, batch_size: usize) -> (r: Result<
        Option<Vec<Gate<Qubit>>>,
        String,
    >)
        requires
            old(self).wf(),
            next_filled(old(self)@, batch_size as nat) is Some,
        ensures
            final(self).wf(),
            final(self)@ == (next_filled(old(self)@, batch_size as nat)->0).0,
            match (next_filled(old(self)@, batch_size as nat)->0).1 {
                Err(m) => r matches Err(e) && e@ == m,
                Ok(None) => r matches Ok(None),
                Ok(Some(gs)) => r matches Ok(Some(v)) && v@ == gs,
            },
            r matches Ok(Some(v)) ==> 1 <= v@.len() <= batch_size,
            batch_size >= 1 && (r matches Ok(None)) ==> left_to_read(old(self)@) == Some(
                Ok::<Seq<Gate<Qubit>>, Seq<char>>(Seq::empty()),
            ),
    {
        proof {
            if batch_size >= 1 && (next_filled(old(self)@, batch_size as nat)->0).1 == Ok::<
                Option<Seq<Gate<Qubit>>>,
                Seq<char>,
            >(None) {
                law_no_batch_is_the_end(old(self)@, batch_size as nat);
            }
        }
        match self.try_next_batch(batch_size) {
            Some(r) => r,
            None => Ok(None),
        }
    }
}

fn no_register() -> (r: String)
    ensures
        r@ == "no qreg declaration found"@,
{
    let mut m = String::new();
    m.append("no qreg declaration found");
    assert(m@ =~= "no qreg declaration found"@);
    m
}


// ---------------------------------------------------------------------------
// What is left to read
// ---------------------------------------------------------------------------
/// The gates of all lines to come, behind `gates`; or the first error among them.
pub open spec fn gates_to_come(r: ReaderModel, gates: Seq<Gate<Qubit>>) -> Option<
    Result<Seq<Gate<Qubit>>, Seq<char>>,
>
    decreases r.pending.len(),
{
    if r.pending.len() == 0 {
        Some(Ok(gates))
    } else {
        match r.pending[0] {
            Err(m) => Some(Err(m)),
            Ok(text) => match batch_line(
                statements(visible(text, 0, r.in_comment)),
                r.registers,
                r.line + 1,
            ) {
                None => None,
                Some(Err(m)) => Some(Err(m)),
                Some(Ok(more)) => gates_to_come(advanced(r, text), gates + more),
            },
        }
    }
}

/// What a reader has not handed out yet.
pub open spec fn left_to_read(r: ReaderModel) -> Option<Result<Seq<Gate<Qubit>>, Seq<char>>> {
    if r.done {
        Some(Ok(Seq::empty()))
    } else {
        gates_to_come(emptied(r), r.leftover)
    }
}

/// `gates`, and what is read behind them.
pub open spec fn behind(
    gates: Seq<Gate<Qubit>>,
    rest: Option<Result<Seq<Gate<Qubit>>, Seq<char>>>,
) -> Option<Result<Seq<Gate<Qubit>>, Seq<char>>> {
    match rest {
        Some(Ok(more)) => Some(Ok(gates + more)),
        other => other,
    }
}

proof fn lemma_gates_behind(r: ReaderModel, a: Seq<Gate<Qubit>>, b: Seq<Gate<Qubit>>)
    ensures
        gates_to_come(r, a + b) == behind(a, gates_to_come(r, b)),
    decreases r.pending.len(),
{
    if r.pending.len() > 0 {
        if let Ok(text) = r.pending[0] {
            if let Some(Ok(more)) = batch_line(
                statements(visible(text, 0, r.in_comment)),
                r.registers,
                r.line + 1,
            ) {
                lemma_gates_behind(advanced(r, text), a, b + more);
                assert((a + b) + more =~= a + (b + more));
            }
        }
    }
}

proof fn lemma_filled_split(r: ReaderModel, gates: Seq<Gate<Qubit>>, n: nat)
    requires
        r.leftover.len() == 0,
        !r.done,
        filled(r, gates, n) matches Some((_, Ok(_))),
    ensures
        filled(r, gates, n) matches Some((q, Ok(batch))) && gates_to_come(r, gates) == behind(
            batch,
            left_to_read(q),
        ) && (batch.len() >= n || q.done) && (q.done ==> batch.len() < n) && q.leftover.len() == 0,
    decreases r.pending.len(),
{
    if gates.len() >= n {
        lemma_gates_behind(r, gates, Seq::empty());
        assert(gates + Seq::<Gate<Qubit>>::empty() =~= gates);
        assert(emptied(r) =~= r);
        assert(r.leftover =~= Seq::<Gate<Qubit>>::empty());
    } else if r.pending.len() == 0 {
        assert(gates + Seq::<Gate<Qubit>>::empty() =~= gates);
    } else if let Ok(text) = r.pending[0] {
        if let Some(Ok(more)) = batch_line(
            statements(visible(text, 0, r.in_comment)),
            r.registers,
            r.line + 1,
        ) {
            lemma_filled_split(advanced(r, text), gates + more, n);
        }
    }
}

/// Batches add up: what was left to read before a batch is the batch and what is left
/// behind it, whatever the size of the batch.
pub proof fn law_batches_add_up(r: ReaderModel, n: nat)
    requires
        next_filled(r, n) matches Some((_, Ok(_))),
    ensures
        next_filled(r, n) matches Some((q, Ok(batch))) && left_to_read(r) == behind(
            (match batch {
                Some(gates) => gates,
                None => Seq::empty(),
            }),
            left_to_read(q),
        ),
{
    if r.done {
        assert(Seq::<Gate<Qubit>>::empty() + Seq::<Gate<Qubit>>::empty() =~= Seq::<
            Gate<Qubit>,
        >::empty());
    } else {
        lemma_filled_split(emptied(r), r.leftover, n);
        if let Some((q, Ok(gates))) = filled(emptied(r), r.leftover, n) {
            let kept = ReaderModel { leftover: surplus(gates, n), ..q };
            assert(gates =~= first_gates(gates, n) + surplus(gates, n));
            if q.done {
                assert(first_gates(gates, n) =~= gates);
            } else {
                assert(q.leftover =~= Seq::<Gate<Qubit>>::empty());
                assert(emptied(kept) =~= emptied(q));
                let none = Seq::<Gate<Qubit>>::empty();
                lemma_gates_behind(emptied(q), gates, none);
                lemma_gates_behind(emptied(q), surplus(gates, n), none);
                lemma_gates_behind(emptied(q), first_gates(gates, n), surplus(gates, n));
                assert(gates + none =~= gates);
            }
            if first_gates(gates, n).len() == 0 {
                assert(first_gates(gates, n) =~= Seq::<Gate<Qubit>>::empty());
            }
        }
    }
}

/// A batch of at least one gate is refused only when no gate is left.
pub proof fn law_no_batch_is_the_end(r: ReaderModel, n: nat)
    requires
        n > 0,
        next_filled(r, n) matches Some((_, Ok(None))),
    ensures
        left_to_read(r) == Some(Ok::<Seq<Gate<Qubit>>, Seq<char>>(Seq::empty())),
{
    if !r.done {
        lemma_filled_split(emptied(r), r.leftover, n);
        if let Some((q, Ok(gates))) = filled(emptied(r), r.leftover, n) {
            assert(gates.len() == 0);
            assert(gates + Seq::<Gate<Qubit>>::empty() =~= Seq::<Gate<Qubit>>::empty());
        }
    }
}

} // verus!
