//! Reading and writing OpenQASM 2.0.

use vstd::prelude::*;
use vstd::string::*;

use crate::circuit::{Circuit, Gate, Qubit};
use crate::lexical::{
    chars_of, find_char, has_prefix, parse_number, push_chars, same_text, slice, split_at_char,
    trim,
};
#[allow(unused_imports)]
use crate::lexical::{find_from, number, pieces, starts_with, texts, trimmed};
use crate::text::{push_decimal, Text};
#[allow(unused_imports)]
use crate::text::decimal;

verus! {

// ---------------------------------------------------------------------------
// Comments
// ---------------------------------------------------------------------------
/// What is left of the text from position `i` on without block comments; of a comment
/// only the line breaks stay.
pub open spec fn uncommented(s: Seq<char>, i: int, inside: bool) -> Seq<char>
    decreases s.len() - i,
{
    if i < 0 || i >= s.len() {
        Seq::empty()
    } else if inside {
        if s[i] == '*' && i + 1 < s.len() && s[i + 1] == '/' {
            uncommented(s, i + 2, false)
        } else if s[i] == '\n' {
            seq!['\n'] + uncommented(s, i + 1, true)
        } else {
            uncommented(s, i + 1, true)
        }
    } else if s[i] == '/' && i + 1 < s.len() && s[i + 1] == '*' {
        uncommented(s, i + 2, true)
    } else {
        seq![s[i]] + uncommented(s, i + 1, false)
    }
}

/// The text without its block comments.
fn strip_block_comments(s: &Vec<char>) -> (r: Vec<char>)
    ensures
        r@ == uncommented(s@, 0, false),
{
    let mut r: Vec<char> = Vec::new();
    let mut i: usize = 0;
    let mut inside = false;
    assert(r@ + uncommented(s@, 0, false) =~= uncommented(s@, 0, false));
    while i < s.len()
        invariant
            i <= s@.len(),
            uncommented(s@, 0, false) == r@ + uncommented(s@, i as int, inside),
        decreases s@.len() - i,
    {
        let ghost before = r@;
        let c = s[i];
        let pair = s.len() - i > 1;
        if inside {
            if c == '*' && pair && s[i + 1] == '/' {
                inside = false;
                i = i + 2;
            } else {
                if c == '\n' {
                    r.push('\n');
                    assert(before + (seq!['\n'] + uncommented(s@, i + 1, true)) =~= r@
                        + uncommented(s@, i + 1, true));
                }
                i = i + 1;
            }
        } else if c == '/' && pair && s[i + 1] == '*' {
            inside = true;
            i = i + 2;
        } else {
            r.push(c);
            assert(before + (seq![c] + uncommented(s@, i + 1, false)) =~= r@ + uncommented(
                s@,
                i + 1,
                false,
            ));
            i = i + 1;
        }
    }
    assert(uncommented(s@, i as int, inside) =~= Seq::empty());
    assert(r@ =~= uncommented(s@, 0, false));
    r
}

/// Where a line comment starts, from position `i` on; the end of the line if there is
/// none.
pub open spec fn comment_start(s: Seq<char>, i: int) -> int
    decreases s.len() - i,
{
    if i < 0 || i + 1 >= s.len() {
        s.len() as int
    } else if s[i] == '/' && s[i + 1] == '/' {
        i
    } else {
        comment_start(s, i + 1)
    }
}

/// The line up to its comment.
fn strip_line_comment(s: &Vec<char>) -> (r: Vec<char>)
    ensures
        r@ == s@.take(comment_start(s@, 0)),
{
    let n: usize = s.len();
    let mut i: usize = 0;
    while i < n && n - i > 1 && !(s[i] == '/' && s[i + 1] == '/')
        invariant
            n == s@.len(),
            i <= n,
            comment_start(s@, 0) == comment_start(s@, i as int),
        decreases n - i,
    {
        i = i + 1;
    }
    let end: usize = if i < n && n - i > 1 {
        i
    } else {
        n
    };
    let r = slice(s, 0, end);
    assert(r@ =~= s@.take(comment_start(s@, 0)));
    r
}

/// The statements of a line: what stands between semicolons, without white space around
/// it, where anything is left.
pub open spec fn nonempty(parts: Seq<Seq<char>>) -> Seq<Seq<char>>
    decreases parts.len(),
{
    if parts.len() == 0 {
        Seq::empty()
    } else {
        let rest = nonempty(parts.drop_last());
        let t = trimmed(parts.last());
        if t.len() == 0 {
            rest
        } else {
            rest.push(t)
        }
    }
}

pub open spec fn statements(line: Seq<char>) -> Seq<Seq<char>> {
    nonempty(pieces(line.take(comment_start(line, 0)), ';'))
}

pub(crate) fn split_statements(line: &Vec<char>) -> (r: Vec<Vec<char>>)
    ensures
        texts(r@) == statements(line@),
{
    let code = strip_line_comment(line);
    let parts = split_at_char(&code, ';');
    let ghost all = texts(parts@);
    let mut r: Vec<Vec<char>> = Vec::new();
    assert(all.take(0) =~= Seq::empty());
    assert(texts(r@) =~= nonempty(all.take(0)));
    for i in 0..parts.len()
        invariant
            all == texts(parts@),
            texts(r@) == nonempty(all.take(i as int)),
    {
        let t = trim(&parts[i]);
        proof {
            assert(all.take(i + 1).drop_last() =~= all.take(i as int));
            assert(all.take(i + 1).last() == parts@[i as int]@);
        }
        if t.len() > 0 {
            assert(texts(r@.push(t)) =~= texts(r@).push(t@));
            r.push(t);
        }
    }
    assert(all.take(all.len() as int) =~= all);
    r
}

// ---------------------------------------------------------------------------
// Registers and operands
// ---------------------------------------------------------------------------
/// A quantum register: its name, its first qubit, and its size.
pub struct Register {
    pub name: Vec<char>,
    pub offset: usize,
    pub size: usize,
}

/// The content of a [`Register`].
pub struct RegisterModel {
    pub name: Seq<char>,
    pub offset: usize,
    pub size: usize,
}

impl View for Register {
    type V = RegisterModel;

    open spec fn view(&self) -> RegisterModel {
        RegisterModel { name: self.name@, offset: self.offset, size: self.size }
    }
}

pub open spec fn register_views(regs: Seq<Register>) -> Seq<RegisterModel> {
    Seq::new(regs.len(), |i: int| regs[i]@)
}

/// The first register of that name.
pub open spec fn find_register(regs: Seq<RegisterModel>, name: Seq<char>) -> Option<RegisterModel>
    decreases regs.len(),
{
    if regs.len() == 0 {
        None
    } else if regs[0].name == name {
        Some(regs[0])
    } else {
        find_register(regs.skip(1), name)
    }
}

/// The start of a message about a line.
pub open spec fn on_line(line: nat) -> Seq<char> {
    "line "@ + decimal(line) + ": "@
}

/// The text without semicolons at its end.
pub open spec fn without_semicolons(s: Seq<char>) -> Seq<char>
    decreases s.len(),
{
    if s.len() > 0 && s.last() == ';' {
        without_semicolons(s.drop_last())
    } else {
        s
    }
}

/// The brackets of an operand or a declaration: their positions if both are there.
pub open spec fn brackets(s: Seq<char>) -> Option<(int, int)> {
    match (find_from(s, '[', 0), find_from(s, ']', 0)) {
        (Some(a), Some(b)) => Some((a, b)),
        _ => None,
    }
}

/// The qubit that an operand names. `None` if the brackets close before they open;
/// `Some(Ok(None))` if there are no brackets.
pub open spec fn operand(part: Seq<char>, regs: Seq<RegisterModel>, line: nat) -> Option<
    Result<Option<Qubit>, Seq<char>>,
> {
    let p = without_semicolons(trimmed(part));
    match brackets(p) {
        None => Some(Ok(None)),
        Some((a, b)) => if b <= a {
            None
        } else {
            let name = trimmed(p.take(a));
            match number(p.subrange(a + 1, b)) {
                Err(e) => Some(Err(on_line(line) + "bad qubit index: "@ + e.message())),
                Ok(index) => match find_register(regs, name) {
                    None => Some(
                        Err(on_line(line) + "unknown register '"@ + name + "'"@),
                    ),
                    Some(r) => if index >= r.size {
                        Some(
                            Err(
                                on_line(line) + "index "@ + decimal(index as nat)
                                    + " out of range for register '"@ + name + "' (size "@
                                    + decimal(r.size as nat) + ")"@,
                            ),
                        )
                    } else {
                        Some(Ok(Some(Qubit((r.offset + index) as usize))))
                    },
                },
            }
        },
    }
}

/// The qubits that a list of operands names.
pub open spec fn operands_of(parts: Seq<Seq<char>>, regs: Seq<RegisterModel>, line: nat) -> Option<
    Result<Seq<Qubit>, Seq<char>>,
>
    decreases parts.len(),
{
    if parts.len() == 0 {
        Some(Ok(Seq::empty()))
    } else {
        match operands_of(parts.drop_last(), regs, line) {
            Some(Ok(qs)) => match operand(parts.last(), regs, line) {
                None => None,
                Some(Err(m)) => Some(Err(m)),
                Some(Ok(None)) => Some(Ok(qs)),
                Some(Ok(Some(q))) => Some(Ok(qs.push(q))),
            },
            other => other,
        }
    }
}

/// Every register's qubits can be numbered.
pub open spec fn registers_fit(regs: Seq<RegisterModel>) -> bool {
    forall|i: int|
        0 <= i < regs.len() ==> (#[trigger] regs[i]).offset + regs[i].size <= usize::MAX
}

fn lookup(regs: &Vec<Register>, name: &Vec<char>) -> (r: Option<usize>)
    ensures
        r matches Some(i) ==> i < regs@.len() && find_register(register_views(regs@), name@)
            == Some(regs@[i as int]@),
        r is None ==> find_register(register_views(regs@), name@) is None,
{
    let ghost all = register_views(regs@);
    let mut i: usize = 0;
    assert(all.skip(0) =~= all);
    while i < regs.len()
        invariant
            i <= regs@.len(),
            all == register_views(regs@),
            find_register(all, name@) == find_register(all.skip(i as int), name@),
        decreases regs@.len() - i,
    {
        assert(all.skip(i as int)[0] == regs@[i as int]@);
        if same_text(&regs[i].name, name) {
            return Some(i);
        }
        assert(all.skip(i as int).skip(1) =~= all.skip(i + 1));
        i = i + 1;
    }
    None
}

fn strip_semicolons(s: &Vec<char>) -> (r: Vec<char>)
    ensures
        r@ == without_semicolons(s@),
{
    let mut n: usize = s.len();
    assert(s@.take(n as int) =~= s@);
    while n > 0 && s[n - 1] == ';'
        invariant
            n <= s@.len(),
            without_semicolons(s@) == without_semicolons(s@.take(n as int)),
        decreases n,
    {
        assert(s@.take(n as int).last() == s@[n - 1]);
        assert(s@.take(n as int).drop_last() =~= s@.take(n - 1));
        n = n - 1;
    }
    proof {
        if n > 0 {
            assert(s@.take(n as int).last() == s@[n - 1]);
        }
    }
    let r = slice(s, 0, n);
    assert(r@ =~= s@.take(n as int));
    r
}

fn line_message(line: usize, what: &str) -> (r: String)
    ensures
        r@ == on_line(line as nat) + what@,
{
    let mut r = String::new();
    r.append("line ");
    push_decimal(&mut r, line);
    r.append(": ");
    r.append(what);
    assert(r@ =~= on_line(line as nat) + what@);
    r
}

/// The outcome that a result stands for.
pub open spec fn same_outcome<T>(
    r: Option<Result<T, String>>,
    o: Option<Result<T, Seq<char>>>,
) -> bool {
    match o {
        None => r is None,
        Some(Err(m)) => r matches Some(Err(e)) && e@ == m,
        Some(Ok(v)) => r matches Some(Ok(w)) && w == v,
    }
}

/// The qubit that an operand names.
fn resolve_operand(part: &Vec<char>, regs: &Vec<Register>, line: usize) -> (r: Option<
    Result<Option<Qubit>, String>,
>)
    requires
        registers_fit(register_views(regs@)),
    ensures
        same_outcome(r, operand(part@, register_views(regs@), line as nat)),
{
    let p = strip_semicolons(&trim(part));
    let (a, b) = match (find_char(&p, '['), find_char(&p, ']')) {
        (Some(a), Some(b)) => (a, b),
        _ => {
            return Some(Ok(None));
        },
    };
    if b <= a {
        return None;
    }
    let head = slice(&p, 0, a);
    assert(head@ =~= p@.take(a as int));
    let name = trim(&head);
    match parse_number(&slice(&p, a + 1, b)) {
        Err(e) => {
            let mut m = line_message(line, "bad qubit index: ");
            e.write_text(&mut m);
            Some(Err(m))
        },
        Ok(index) => match lookup(regs, &name) {
            None => {
                let mut m = line_message(line, "unknown register '");
                push_chars(&mut m, &name);
                m.append("'");
                Some(Err(m))
            },
            Some(i) => {
                let size: usize = regs[i].size;
                if index >= size {
                    let mut m = line_message(line, "index ");
                    push_decimal(&mut m, index);
                    m.append(" out of range for register '");
                    push_chars(&mut m, &name);
                    m.append("' (size ");
                    push_decimal(&mut m, size);
                    m.append(")");
                    Some(Err(m))
                } else {
                    assert(register_views(regs@)[i as int] == regs@[i as int]@);
                    Some(Ok(Some(Qubit(regs[i].offset + index))))
                }
            },
        },
    }
}

/// The qubits that the operands of a statement name.
fn resolve_qubits(rest: &Vec<char>, regs: &Vec<Register>, line: usize) -> (r: Option<
    Result<Vec<Qubit>, String>,
>)
    requires
        registers_fit(register_views(regs@)),
    ensures
        match operands_of(pieces(rest@, ','), register_views(regs@), line as nat) {
            None => r is None,
            Some(Err(m)) => r matches Some(Err(e)) && e@ == m,
            Some(Ok(qs)) => r matches Some(Ok(v)) && v@ == qs,
        },
{
    let parts = split_at_char(rest, ',');
    let ghost all = texts(parts@);
    let ghost rv = register_views(regs@);
    let mut qs: Vec<Qubit> = Vec::new();
    assert(all.take(0) =~= Seq::empty());
    let mut i: usize = 0;
    while i < parts.len()
        invariant
            i <= parts@.len(),
            all == texts(parts@),
            all == pieces(rest@, ','),
            rv == register_views(regs@),
            registers_fit(rv),
            operands_of(all.take(i as int), rv, line as nat) == Some(
                Ok::<Seq<Qubit>, Seq<char>>(qs@),
            ),
        decreases parts@.len() - i,
    {
        proof {
            assert(all.take(i + 1).drop_last() =~= all.take(i as int));
            assert(all.take(i + 1).last() == parts@[i as int]@);
        }
        match resolve_operand(&parts[i], regs, line) {
            None => {
                proof {
                    lemma_operands_stop(all, rv, line as nat, i + 1);
                }
                return None;
            },
            Some(Err(m)) => {
                proof {
                    lemma_operands_stop(all, rv, line as nat, i + 1);
                }
                return Some(Err(m));
            },
            Some(Ok(None)) => {},
            Some(Ok(Some(q))) => {
                qs.push(q);
            },
        }
        i = i + 1;
    }
    assert(all.take(all.len() as int) =~= all);
    Some(Ok(qs))
}

proof fn lemma_operands_stop(
    parts: Seq<Seq<char>>,
    regs: Seq<RegisterModel>,
    line: nat,
    n: int,
)
    requires
        0 <= n <= parts.len(),
        !(operands_of(parts.take(n), regs, line) matches Some(Ok(_))),
    ensures
        operands_of(parts, regs, line) == operands_of(parts.take(n), regs, line),
    decreases parts.len() - n,
{
    if n < parts.len() {
        assert(parts.take(n + 1).drop_last() =~= parts.take(n));
        lemma_operands_stop(parts, regs, line, n + 1);
    } else {
        assert(parts.take(n) =~= parts);
    }
}

// ---------------------------------------------------------------------------
// Gates
// ---------------------------------------------------------------------------
/// The gates that the parser knows.
#[derive(Clone, Copy, PartialEq, Eq, Debug, Structural)]
pub enum GateName {
    Cx,
    Ccx,
    Cz,
    H,
    X,
    Y,
    S,
    Sdg,
    Tdg,
    Z,
    T,
}

/// Which gate a statement applies, and where its operands start.
pub open spec fn gate_name(stmt: Seq<char>) -> Option<(GateName, int)> {
    if starts_with(stmt, "cx "@) {
        Some((GateName::Cx, 3))
    } else if starts_with(stmt, "ccx "@) {
        Some((GateName::Ccx, 4))
    } else if starts_with(stmt, "cz "@) {
        Some((GateName::Cz, 3))
    } else if starts_with(stmt, "h "@) {
        Some((GateName::H, 2))
    } else if starts_with(stmt, "x "@) {
        Some((GateName::X, 2))
    } else if starts_with(stmt, "y "@) {
        Some((GateName::Y, 2))
    } else if starts_with(stmt, "s "@) {
        Some((GateName::S, 2))
    } else if starts_with(stmt, "sdg "@) {
        Some((GateName::Sdg, 4))
    } else if starts_with(stmt, "tdg "@) {
        Some((GateName::Tdg, 4))
    } else if starts_with(stmt, "z "@) {
        Some((GateName::Z, 2))
    } else if starts_with(stmt, "t "@) {
        Some((GateName::T, 2))
    } else {
        None
    }
}

fn find_gate_name(stmt: &Vec<char>) -> (r: Option<(GateName, usize)>)
    ensures
        match gate_name(stmt@) {
            None => r is None,
            Some((g, k)) => r matches Some((h, n)) && h == g && n == k && n <= stmt@.len(),
        },
{
    proof {
        reveal_strlit("cx ");
        reveal_strlit("ccx ");
        reveal_strlit("cz ");
        reveal_strlit("h ");
        reveal_strlit("x ");
        reveal_strlit("y ");
        reveal_strlit("s ");
        reveal_strlit("sdg ");
        reveal_strlit("tdg ");
        reveal_strlit("z ");
        reveal_strlit("t ");
    }
    if has_prefix(stmt, "cx ") {
        Some((GateName::Cx, 3))
    } else if has_prefix(stmt, "ccx ") {
        Some((GateName::Ccx, 4))
    } else if has_prefix(stmt, "cz ") {
        Some((GateName::Cz, 3))
    } else if has_prefix(stmt, "h ") {
        Some((GateName::H, 2))
    } else if has_prefix(stmt, "x ") {
        Some((GateName::X, 2))
    } else if has_prefix(stmt, "y ") {
        Some((GateName::Y, 2))
    } else if has_prefix(stmt, "s ") {
        Some((GateName::S, 2))
    } else if has_prefix(stmt, "sdg ") {
        Some((GateName::Sdg, 4))
    } else if has_prefix(stmt, "tdg ") {
        Some((GateName::Tdg, 4))
    } else if has_prefix(stmt, "z ") {
        Some((GateName::Z, 2))
    } else if has_prefix(stmt, "t ") {
        Some((GateName::T, 2))
    } else {
        None
    }
}

/// How many operands a gate needs.
pub open spec fn arity(g: GateName) -> nat {
    match g {
        GateName::Ccx => 3,
        GateName::Cx => 2,
        GateName::Cz => 2,
        _ => 1,
    }
}

/// The gates that a named gate stands for.
pub open spec fn gate_sequence(g: GateName, q: Seq<Qubit>) -> Seq<Gate<Qubit>> {
    match g {
        GateName::Cx => seq![Gate::CNOT { control: q[0], target: q[1] }],
        GateName::Ccx => seq![
            Gate::H(q[2]),
            Gate::CCZ { control1: q[0], control2: q[1], target: q[2] },
            Gate::H(q[2]),
        ],
        GateName::Cz => seq![
            Gate::H(q[1]),
            Gate::CNOT { control: q[0], target: q[1] },
            Gate::H(q[1]),
        ],
        GateName::H => seq![Gate::H(q[0])],
        GateName::X => seq![Gate::X(q[0])],
        GateName::Y => seq![Gate::Y(q[0])],
        GateName::S => seq![Gate::S(q[0])],
        GateName::Sdg => seq![Gate::Sdg(q[0])],
        GateName::Tdg => seq![Gate::Tdg(q[0])],
        GateName::Z => seq![Gate::Z(q[0])],
        GateName::T => seq![Gate::T(q[0])],
    }
}

/// The gates of a statement. `None` if brackets close before they open, or operands are
/// missing.
pub open spec fn gates_of(stmt: Seq<char>, regs: Seq<RegisterModel>, line: nat) -> Option<
    Result<Seq<Gate<Qubit>>, Seq<char>>,
> {
    match gate_name(stmt) {
        None => Some(Err(on_line(line) + "unsupported: "@ + stmt)),
        Some((g, k)) => match operands_of(pieces(stmt.skip(k), ','), regs, line) {
            None => None,
            Some(Err(m)) => Some(Err(m)),
            Some(Ok(qs)) => if qs.len() < arity(g) {
                None
            } else {
                Some(Ok(gate_sequence(g, qs)))
            },
        },
    }
}

/// The gates of a statement.
pub(crate) fn parse_gate_stmt(stmt: &Vec<char>, line: usize, regs: &Vec<Register>) -> (r: Option<
    Result<Vec<Gate<Qubit>>, String>,
>)
    requires
        registers_fit(register_views(regs@)),
    ensures
        match gates_of(stmt@, register_views(regs@), line as nat) {
            None => r is None,
            Some(Err(m)) => r matches Some(Err(e)) && e@ == m,
            Some(Ok(gs)) => r matches Some(Ok(v)) && v@ == gs,
        },
{
    let (g, k) = match find_gate_name(stmt) {
        None => {
            let mut m = line_message(line, "unsupported: ");
            push_chars(&mut m, stmt);
            return Some(Err(m));
        },
        Some(p) => p,
    };
    let rest = slice(stmt, k, stmt.len());
    assert(rest@ =~= stmt@.skip(k as int));
    let q = match resolve_qubits(&rest, regs, line) {
        None => {
            return None;
        },
        Some(Err(m)) => {
            return Some(Err(m));
        },
        Some(Ok(q)) => q,
    };
    let need: usize = match g {
        GateName::Ccx => 3,
        GateName::Cx => 2,
        GateName::Cz => 2,
        _ => 1,
    };
    if q.len() < need {
        return None;
    }
    let gates: Vec<Gate<Qubit>> = match g {
        GateName::Cx => vec![Gate::CNOT { control: q[0], target: q[1] }],
        GateName::Ccx => vec![
            Gate::H(q[2]),
            Gate::CCZ { control1: q[0], control2: q[1], target: q[2] },
            Gate::H(q[2]),
        ],
        GateName::Cz => vec![
            Gate::H(q[1]),
            Gate::CNOT { control: q[0], target: q[1] },
            Gate::H(q[1]),
        ],
        GateName::H => vec![Gate::H(q[0])],
        GateName::X => vec![Gate::X(q[0])],
        GateName::Y => vec![Gate::Y(q[0])],
        GateName::S => vec![Gate::S(q[0])],
        GateName::Sdg => vec![Gate::Sdg(q[0])],
        GateName::Tdg => vec![Gate::Tdg(q[0])],
        GateName::Z => vec![Gate::Z(q[0])],
        GateName::T => vec![Gate::T(q[0])],
    };
    assert(gates@ =~= gate_sequence(g, q@));
    Some(Ok(gates))
}

// ---------------------------------------------------------------------------
// Programs
// ---------------------------------------------------------------------------
/// What a program has declared and applied so far.
#[verifier::ext_equal]
pub struct Program {
    pub registers: Seq<RegisterModel>,
    pub num_qubits: nat,
    pub seen_gate: bool,
    pub gates: Seq<Gate<Qubit>>,
}

/// A statement without effect.
pub open spec fn is_skipped(stmt: Seq<char>) -> bool {
    starts_with(stmt, "OPENQASM"@) || starts_with(stmt, "include"@) || starts_with(
        stmt,
        "barrier"@,
    )
}

pub(crate) fn skips(stmt: &Vec<char>) -> (r: bool)
    ensures
        r == is_skipped(stmt@),
{
    has_prefix(stmt, "OPENQASM") || has_prefix(stmt, "include") || has_prefix(stmt, "barrier")
}

/// The register that a statement declares behind `num_qubits` qubits. `None` if its
/// brackets close before they open; `Some(Ok(None))` if there are no brackets.
pub open spec fn declaration(stmt: Seq<char>, num_qubits: nat, line: nat) -> Option<
    Result<Option<RegisterModel>, Seq<char>>,
> {
    let rest = trimmed(stmt.skip(4));
    match brackets(rest) {
        None => Some(Ok(None)),
        Some((a, b)) => if b <= a {
            None
        } else {
            match number(rest.subrange(a + 1, b)) {
                Err(e) => Some(Err(on_line(line) + "bad qreg size: "@ + e.message())),
                Ok(size) => Some(
                    Ok(
                        Some(
                            RegisterModel {
                                name: trimmed(rest.take(a)),
                                offset: num_qubits as usize,
                                size,
                            },
                        ),
                    ),
                ),
            }
        },
    }
}

/// The program with a register declared. `None` if its qubits cannot be numbered.
pub open spec fn declared(p: Program, stmt: Seq<char>, line: nat) -> Option<
    Result<Program, Seq<char>>,
> {
    match declaration(stmt, p.num_qubits, line) {
        None => None,
        Some(Err(m)) => Some(Err(m)),
        Some(Ok(None)) => Some(Ok(p)),
        Some(Ok(Some(r))) => if p.num_qubits + r.size > usize::MAX {
            None
        } else {
            Some(
                Ok(
                    Program {
                        registers: p.registers.push(r),
                        num_qubits: (p.num_qubits + r.size) as nat,
                        ..p
                    },
                ),
            )
        },
    }
}

/// The program after a statement.
pub open spec fn statement_run(p: Program, stmt: Seq<char>, line: nat) -> Option<
    Result<Program, Seq<char>>,
> {
    if is_skipped(stmt) {
        Some(Ok(p))
    } else if starts_with(stmt, "qreg"@) {
        if p.seen_gate {
            Some(Err(on_line(line) + "qreg declaration after gate"@))
        } else {
            declared(p, stmt, line)
        }
    } else {
        match gates_of(stmt, p.registers, line) {
            None => None,
            Some(Err(m)) => Some(Err(m)),
            Some(Ok(gs)) => Some(Ok(Program { seen_gate: true, gates: p.gates + gs, ..p })),
        }
    }
}

/// The program after the statements of a line.
pub open spec fn line_run(p: Program, stmts: Seq<Seq<char>>, line: nat) -> Option<
    Result<Program, Seq<char>>,
>
    decreases stmts.len(),
{
    if stmts.len() == 0 {
        Some(Ok(p))
    } else {
        match line_run(p, stmts.drop_last(), line) {
            Some(Ok(q)) => statement_run(q, stmts.last(), line),
            other => other,
        }
    }
}

/// The program after these lines, the first of which is line 1.
pub open spec fn lines_run(lines: Seq<Seq<char>>) -> Option<Result<Program, Seq<char>>>
    decreases lines.len(),
{
    if lines.len() == 0 {
        Some(
            Ok(
                Program {
                    registers: Seq::empty(),
                    num_qubits: 0,
                    seen_gate: false,
                    gates: Seq::empty(),
                },
            ),
        )
    } else {
        match lines_run(lines.drop_last()) {
            Some(Ok(p)) => line_run(p, statements(lines.last()), lines.len()),
            other => other,
        }
    }
}

/// The program that a text denotes. `None` where a statement is malformed beyond what
/// an error is given for: brackets that close before they open, missing operands, or
/// more qubits than can be numbered.
pub open spec fn program_of(text: Seq<char>) -> Option<Result<Program, Seq<char>>> {
    lines_run(pieces(uncommented(text, 0, false), '\n'))
}

/// A program under construction.
struct Builder {
    registers: Vec<Register>,
    num_qubits: usize,
    seen_gate: bool,
    circuit: Circuit,
}

impl View for Builder {
    type V = Program;

    closed spec fn view(&self) -> Program {
        Program {
            registers: register_views(self.registers@),
            num_qubits: self.num_qubits as nat,
            seen_gate: self.seen_gate,
            gates: self.circuit.gates@,
        }
    }
}

impl Builder {
    spec fn wf(self) -> bool {
        self.circuit.wf() && registers_fit(register_views(self.registers@))
    }
}

/// Read a declaration.
fn parse_declaration(stmt: &Vec<char>, num_qubits: usize, line: usize) -> (r: Option<
    Result<Option<Register>, String>,
>)
    requires
        stmt@.len() >= 4,
    ensures
        match declaration(stmt@, num_qubits as nat, line as nat) {
            None => r is None,
            Some(Err(m)) => r matches Some(Err(e)) && e@ == m,
            Some(Ok(None)) => r matches Some(Ok(None)),
            Some(Ok(Some(d))) => r matches Some(Ok(Some(e))) && e@ == d,
        },
{
    let tail = slice(stmt, 4, stmt.len());
    assert(tail@ =~= stmt@.skip(4));
    let rest = trim(&tail);
    let (a, b) = match (find_char(&rest, '['), find_char(&rest, ']')) {
        (Some(a), Some(b)) => (a, b),
        _ => {
            return Some(Ok(None));
        },
    };
    if b <= a {
        return None;
    }
    let head = slice(&rest, 0, a);
    assert(head@ =~= rest@.take(a as int));
    let name = trim(&head);
    match parse_number(&slice(&rest, a + 1, b)) {
        Err(e) => {
            let mut m = line_message(line, "bad qreg size: ");
            e.write_text(&mut m);
            Some(Err(m))
        },
        Ok(size) => Some(Ok(Some(Register { name, offset: num_qubits, size }))),
    }
}

/// Declare a register; `None` where the statement is malformed or its qubits cannot be
/// numbered.
pub(crate) fn declare(
    registers: &mut Vec<Register>,
    num_qubits: &mut usize,
    stmt: &Vec<char>,
    line: usize,
    Ghost(p): Ghost<Program>,
) -> (r: Option<Result<(), String>>)
    requires
        stmt@.len() >= 4,
        p.registers == register_views(old(registers)@),
        p.num_qubits == *old(num_qubits),
        registers_fit(p.registers),
    ensures
        match declared(p, stmt@, line as nat) {
            None => r is None,
            Some(Err(m)) => r matches Some(Err(e)) && e@ == m,
            Some(Ok(q)) => (r matches Some(Ok(_))) && q.registers == register_views(
                final(registers)@,
            ) && q.num_qubits == *final(num_qubits) && registers_fit(q.registers),
        },
{
    match parse_declaration(stmt, *num_qubits, line) {
        None => None,
        Some(Err(m)) => Some(Err(m)),
        Some(Ok(None)) => Some(Ok(())),
        Some(Ok(Some(d))) => {
            let size: usize = d.size;
            if size > usize::MAX - *num_qubits {
                return None;
            }
            proof {
                let before = register_views(registers@);
                let after = register_views(registers@.push(d));
                assert(after =~= before.push(d@));
                assert forall|i: int| 0 <= i < after.len() implies (#[trigger] after[i]).offset
                    + after[i].size <= usize::MAX by {
                    if i < before.len() {
                        assert(after[i] == before[i]);
                    }
                }
            }
            registers.push(d);
            *num_qubits = *num_qubits + size;
            Some(Ok(()))
        },
    }
}

/// Append gates to a circuit.
fn apply_all(c: &mut Circuit, gates: &Vec<Gate<Qubit>>)
    requires
        old(c).wf(),
    ensures
        final(c).wf(),
        final(c).gates@ == old(c).gates@ + gates@,
        final(c).num_qubits == old(c).num_qubits,
{
    let ghost before = c.gates@;
    assert(before + gates@.take(0) =~= before);
    for i in 0..gates.len()
        invariant
            c.wf(),
            c.gates@ == before + gates@.take(i as int),
            c.num_qubits == old(c).num_qubits,
    {
        c.apply(gates[i]);
        assert(c.gates@ =~= before + gates@.take(i + 1));
    }
    assert(gates@.take(gates@.len() as int) =~= gates@);
}

/// Run one statement.
fn run_statement(b: &mut Builder, stmt: &Vec<char>, line: usize) -> (r: Option<Result<(), String>>)
    requires
        old(b).wf(),
    ensures
        match statement_run(old(b)@, stmt@, line as nat) {
            None => r is None,
            Some(Err(m)) => r matches Some(Err(e)) && e@ == m,
            Some(Ok(q)) => (r matches Some(Ok(_))) && final(b)@ == q && final(b).wf(),
        },
{
    let ghost p = b@;
    if skips(stmt) {
        return Some(Ok(()));
    }
    if has_prefix(stmt, "qreg") {
        if b.seen_gate {
            return Some(Err(line_message(line, "qreg declaration after gate")));
        }
        proof {
            reveal_strlit("qreg");
        }
        let r = declare(&mut b.registers, &mut b.num_qubits, stmt, line, Ghost(p));
        return r;
    }
    match parse_gate_stmt(stmt, line, &b.registers) {
        None => None,
        Some(Err(m)) => Some(Err(m)),
        Some(Ok(gates)) => {
            apply_all(&mut b.circuit, &gates);
            b.seen_gate = true;
            Some(Ok(()))
        },
    }
}

proof fn lemma_line_stop(p: Program, stmts: Seq<Seq<char>>, line: nat, n: int)
    requires
        0 <= n <= stmts.len(),
        !(line_run(p, stmts.take(n), line) matches Some(Ok(_))),
    ensures
        line_run(p, stmts, line) == line_run(p, stmts.take(n), line),
    decreases stmts.len() - n,
{
    if n < stmts.len() {
        assert(stmts.take(n + 1).drop_last() =~= stmts.take(n));
        lemma_line_stop(p, stmts, line, n + 1);
    } else {
        assert(stmts.take(n) =~= stmts);
    }
}

/// Run the statements of a line.
fn run_line(b: &mut Builder, line_text: &Vec<char>, line: usize) -> (r: Option<Result<(), String>>)
    requires
        old(b).wf(),
    ensures
        match line_run(old(b)@, statements(line_text@), line as nat) {
            None => r is None,
            Some(Err(m)) => r matches Some(Err(e)) && e@ == m,
            Some(Ok(q)) => (r matches Some(Ok(_))) && final(b)@ == q && final(b).wf(),
        },
{
    let stmts = split_statements(line_text);
    let ghost all = texts(stmts@);
    let ghost p = b@;
    assert(all.take(0) =~= Seq::empty());
    let mut i: usize = 0;
    while i < stmts.len()
        invariant
            i <= stmts@.len(),
            all == texts(stmts@),
            all == statements(line_text@),
            p == old(b)@,
            b.wf(),
            line_run(p, all.take(i as int), line as nat) == Some(Ok::<Program, Seq<char>>(b@)),
        decreases stmts@.len() - i,
    {
        proof {
            assert(all.take(i + 1).drop_last() =~= all.take(i as int));
            assert(all.take(i + 1).last() == stmts@[i as int]@);
        }
        match run_statement(b, &stmts[i], line) {
            None => {
                proof {
                    lemma_line_stop(p, all, line as nat, i + 1);
                }
                return None;
            },
            Some(Err(m)) => {
                proof {
                    lemma_line_stop(p, all, line as nat, i + 1);
                }
                return Some(Err(m));
            },
            Some(Ok(_)) => {},
        }
        i = i + 1;
    }
    assert(all.take(all.len() as int) =~= all);
    Some(Ok(()))
}

proof fn lemma_lines_stop(lines: Seq<Seq<char>>, n: int)
    requires
        0 <= n <= lines.len(),
        !(lines_run(lines.take(n)) matches Some(Ok(_))),
    ensures
        lines_run(lines) == lines_run(lines.take(n)),
    decreases lines.len() - n,
{
    if n < lines.len() {
        assert(lines.take(n + 1).drop_last() =~= lines.take(n));
        lemma_lines_stop(lines, n + 1);
    } else {
        assert(lines.take(n) =~= lines);
    }
}

/// The circuit is the program's.
pub open spec fn is_circuit_of(c: Circuit, p: Program) -> bool {
    c.wf() && c.gates@ == p.gates && c.num_qubits == p.num_qubits
}

/// Read a program; `None` where a statement is malformed beyond what an error is given
/// for.
pub fn try_parse(qasm: &str) -> (r: Option<Result<Circuit, String>>)
    ensures
        match program_of(qasm@) {
            None => r is None,
            Some(Err(m)) => r matches Some(Err(e)) && e@ == m,
            Some(Ok(p)) => r matches Some(Ok(c)) && is_circuit_of(c, p),
        },
{
    let text = chars_of(qasm);
    let code = strip_block_comments(&text);
    let lines = split_at_char(&code, '\n');
    let ghost all = texts(lines@);
    let mut b = Builder {
        registers: Vec::new(),
        num_qubits: 0,
        seen_gate: false,
        circuit: Circuit::new(0),
    };
    assert(all.take(0) =~= Seq::empty());
    assert(register_views(b.registers@) =~= Seq::<RegisterModel>::empty());
    let n: usize = lines.len();
    let mut i: usize = 0;
    while i < n
        invariant
            i <= n,
            n == lines@.len(),
            all == texts(lines@),
            all == pieces(uncommented(qasm@, 0, false), '\n'),
            b.wf(),
            lines_run(all.take(i as int)) == Some(Ok::<Program, Seq<char>>(b@)),
        decreases n - i,
    {
        proof {
            assert(all.take(i + 1).drop_last() =~= all.take(i as int));
            assert(all.take(i + 1).last() == lines@[i as int]@);
        }
        match run_line(&mut b, &lines[i], i + 1) {
            None => {
                proof {
                    lemma_lines_stop(all, i + 1);
                }
                return None;
            },
            Some(Err(m)) => {
                proof {
                    lemma_lines_stop(all, i + 1);
                }
                return Some(Err(m));
            },
            Some(Ok(_)) => {},
        }
        i = i + 1;
    }
    assert(all.take(all.len() as int) =~= all);
    let mut c = b.circuit;
    c.num_qubits = b.num_qubits;
    Some(Ok(c))
}

/// Read a program.
pub fn parse(qasm: &str) -> (r: Result<Circuit, String>)
    requires
        program_of(qasm@) is Some,
    ensures
        match program_of(qasm@)->0 {
            Err(m) => r matches Err(e) && e@ == m,
            Ok(p) => r matches Ok(c) && is_circuit_of(c, p),
        },
{
    match try_parse(qasm) {
        Some(r) => r,
        None => Err(String::new()),
    }
}

// ---------------------------------------------------------------------------
// Writing
// ---------------------------------------------------------------------------
/// The name of a gate, with the space behind it.
pub open spec fn gate_word(g: Gate<Qubit>) -> Seq<char> {
    match g {
        Gate::X(_) => "x "@,
        Gate::Y(_) => "y "@,
        Gate::H(_) => "h "@,
        Gate::S(_) => "s "@,
        Gate::Sdg(_) => "sdg "@,
        Gate::Z(_) => "z "@,
        Gate::T(_) => "t "@,
        Gate::Tdg(_) => "tdg "@,
        Gate::CNOT { .. } => "cx "@,
        Gate::CCZ { .. } => "ccz "@,
    }
}

/// A qubit as an operand.
pub open spec fn operand_text(q: Qubit) -> Seq<char> {
    "q["@ + decimal(q.0 as nat) + "]"@
}

/// Operands with commas between them.
pub open spec fn operand_list(qs: Seq<Qubit>) -> Seq<char>
    decreases qs.len(),
{
    if qs.len() == 0 {
        Seq::empty()
    } else if qs.len() == 1 {
        operand_text(qs[0])
    } else {
        operand_list(qs.drop_last()) + ","@ + operand_text(qs.last())
    }
}

/// A gate as a line of its own.
pub open spec fn gate_line(g: Gate<Qubit>) -> Seq<char> {
    gate_word(g) + operand_list(g.operands()) + ";\n"@
}

/// Gates, one to a line.
pub open spec fn gate_lines(gates: Seq<Gate<Qubit>>) -> Seq<char>
    decreases gates.len(),
{
    if gates.len() == 0 {
        Seq::empty()
    } else {
        gate_lines(gates.drop_last()) + gate_line(gates.last())
    }
}

/// The program text of gates on one register.
pub open spec fn serialized(gates: Seq<Gate<Qubit>>, num_qubits: nat) -> Seq<char> {
    "OPENQASM 2.0;\n"@ + "include \"qelib1.inc\";\n"@ + "qreg q["@ + decimal(num_qubits) + "];\n"@
        + gate_lines(gates)
}

fn push_operands(out: &mut String, qs: &Vec<Qubit>)
    ensures
        final(out)@ == old(out)@ + operand_list(qs@),
{
    let ghost before = out@;
    assert(qs@.take(0) =~= Seq::empty());
    assert(out@ =~= before + operand_list(qs@.take(0)));
    for i in 0..qs.len()
        invariant
            out@ == before + operand_list(qs@.take(i as int)),
    {
        if i > 0 {
            out.append(",");
        }
        out.append("q[");
        push_decimal(out, qs[i].0);
        out.append("]");
        proof {
            assert(qs@.take(i + 1).drop_last() =~= qs@.take(i as int));
            assert(out@ =~= before + operand_list(qs@.take(i + 1)));
        }
    }
    assert(qs@.take(qs@.len() as int) =~= qs@);
}

fn push_gate_line(out: &mut String, g: &Gate<Qubit>)
    ensures
        final(out)@ == old(out)@ + gate_line(*g),
{
    let ghost before = out@;
    let word = match g {
        Gate::X(_) => "x ",
        Gate::Y(_) => "y ",
        Gate::H(_) => "h ",
        Gate::S(_) => "s ",
        Gate::Sdg(_) => "sdg ",
        Gate::Z(_) => "z ",
        Gate::T(_) => "t ",
        Gate::Tdg(_) => "tdg ",
        Gate::CNOT { .. } => "cx ",
        Gate::CCZ { .. } => "ccz ",
    };
    out.append(word);
    push_operands(out, &g.qubits());
    out.append(";\n");
    assert(out@ =~= before + gate_line(*g));
}

/// Write a circuit as a program.
pub fn serialize(circuit: &Circuit) -> (r: String)
    ensures
        r@ == serialized(circuit.gates@, circuit.num_qubits as nat),
{
    let mut out = String::new();
    out.append("OPENQASM 2.0;\n");
    out.append("include \"qelib1.inc\";\n");
    out.append("qreg q[");
    push_decimal(&mut out, circuit.num_qubits);
    out.append("];\n");
    let ghost head = out@;
    let ghost gates = circuit.gates@;
    assert(gates.take(0) =~= Seq::empty());
    assert(out@ =~= head + gate_lines(gates.take(0)));
    for i in 0..circuit.gates.len()
        invariant
            gates == circuit.gates@,
            out@ == head + gate_lines(gates.take(i as int)),
    {
        push_gate_line(&mut out, &circuit.gates[i]);
        proof {
            assert(gates.take(i + 1).drop_last() =~= gates.take(i as int));
            assert(out@ =~= head + gate_lines(gates.take(i + 1)));
        }
    }
    assert(gates.take(gates.len() as int) =~= gates);
    assert(out@ =~= serialized(gates, circuit.num_qubits as nat));
    out
}

} // verus!
