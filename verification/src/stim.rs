//! Circuits as stim text: a gate list rendered at once, or gate by gate as the
//! gates are produced.

use vstd::prelude::*;
use vstd::string::*;

#[allow(unused_imports)]
use crate::keyed::OrderedKey;
use crate::pbc::{Pauli, PauliStringIndex, Sign};
use crate::physical::{
    count_gate_checked, sites, Counted, PhysicalCircuit, PhysicalGate,
};
#[allow(unused_imports)]
use crate::physical::{
    active_sites, gate_model, gate_models, lemma_gate_models, lemma_gate_models_push,
    lemma_total_push, tick_total, GateModel,
};
#[allow(unused_imports)]
use crate::text::decimal;
use crate::text::{push_decimal, Text};

verus! {

/// The kind of line that a gate is written on together with its neighbours of
/// the same kind; `Idle` for a gate that has lines of its own.
#[derive(PartialEq, Eq, Clone, Copy, Debug, Structural)]
pub enum Run {
    Idle,
    Reset(Pauli),
    Measure(Pauli),
    Controlled(Pauli),
    XCorrection,
}

/// The kind of line that `g` goes on.
pub open spec fn run_of<Q>(g: GateModel<Q>) -> Run {
    match g {
        GateModel::Reset(b, _) => Run::Reset(b),
        GateModel::Measure(b, _, _) => Run::Measure(b),
        GateModel::Controlled(p, _, _) => Run::Controlled(p),
        GateModel::XCorrection(_, _) => Run::XCorrection,
        _ => Run::Idle,
    }
}

/// The kind of line still open after the gates `s`.
pub open spec fn run_after<Q>(s: Seq<GateModel<Q>>) -> Run {
    if s.len() == 0 {
        Run::Idle
    } else {
        run_of(s.last())
    }
}

/// The line end that is due once a line of kind `run` is over.
pub open spec fn line_end(run: Run) -> Seq<char> {
    if run is Idle {
        Seq::empty()
    } else {
        seq!['\n']
    }
}

/// The first word of a line of kind `run`.
pub open spec fn run_head(run: Run) -> Seq<char> {
    match run {
        Run::Idle => Seq::empty(),
        Run::Reset(b) => "R"@ + b.text(),
        Run::Measure(b) => "M"@ + b.text(),
        Run::Controlled(p) => "C"@ + p.text(),
        Run::XCorrection => "CNOT"@,
    }
}

/// What a gate adds to its line.
pub open spec fn run_item<Q: Text>(g: GateModel<Q>) -> Seq<char> {
    match g {
        GateModel::Reset(_, q) => " "@ + q.text(),
        GateModel::Measure(_, q, invert) => (if invert {
            " !"@
        } else {
            " "@
        }) + q.text(),
        GateModel::Controlled(_, c, t) => " "@ + c.text() + " "@ + t.text(),
        GateModel::XCorrection(rec, q) => " rec[-"@ + decimal(rec as nat) + "] "@ + q.text(),
        _ => Seq::empty(),
    }
}

/// Record offsets count backwards from the most recent measurement, so a stored
/// step `n` is written `rec[-n]`.
pub open spec fn records_text(recs: Seq<usize>) -> Seq<char>
    decreases recs.len(),
{
    if recs.len() == 0 {
        Seq::empty()
    } else {
        records_text(recs.drop_last()) + " rec[-"@ + decimal(recs.last() as nat) + "]"@
    }
}

/// The factors of a Pauli product.
pub open spec fn factors_text<Q: Text>(sites: Seq<(Q, Pauli)>) -> Seq<char>
    decreases sites.len(),
{
    if sites.len() == 0 {
        Seq::empty()
    } else {
        factors_text(sites.drop_last()) + (if sites.len() == 1 {
            Seq::empty()
        } else {
            "*"@
        }) + sites.last().1.text() + sites.last().0.text()
    }
}

/// A gate that has a line of its own, without the line end.
pub open spec fn lone_text<Q: Text>(g: GateModel<Q>) -> Seq<char> {
    match g {
        GateModel::Tick => "TICK"@,
        GateModel::DeclareObservable(index, recs) => "OBSERVABLE_INCLUDE("@ + decimal(index as nat)
            + ")"@ + records_text(recs),
        GateModel::DeclareDetector(recs) => "DETECTOR"@ + records_text(recs),
        GateModel::MPP(p) => (if p.sign is NegOne {
            "MPP !"@
        } else {
            "MPP "@
        }) + factors_text(active_sites(p.sites)),
        _ => Seq::empty(),
    }
}

/// One level of indentation more.
pub open spec fn deeper(indent: Seq<char>) -> Seq<char> {
    indent + "    "@
}

/// What gate `g` adds to a text whose last line is of kind `open`: it joins
/// that line when it goes on the same kind of line.
pub open spec fn added_text<Q: Text>(open: Run, g: GateModel<Q>, indent: Seq<char>) -> Seq<char>
    decreases g,
{
    let start = line_end(open) + indent;
    match g {
        GateModel::Repeat(n, body) => start + ("REPEAT "@ + decimal(n as nat) + " {\n"@) + (open_text(
            body,
            deeper(indent),
        ) + line_end(run_after(body))) + (indent + "}\n"@),
        _ => if run_of(g) is Idle {
            start + (lone_text(g) + "\n"@)
        } else if open == run_of(g) {
            run_item(g)
        } else {
            start + (run_head(run_of(g)) + run_item(g))
        },
    }
}

/// The text of the gates, indented by `indent`, up to but not including the line
/// end of a line that a further gate could still join.
pub open spec fn open_text<Q: Text>(s: Seq<GateModel<Q>>, indent: Seq<char>) -> Seq<char>
    decreases s,
{
    if s.len() == 0 {
        Seq::empty()
    } else {
        open_text(s.drop_last(), indent) + added_text(run_after(s.drop_last()), s.last(), indent)
    }
}

/// The gates as stim text: a maximal run of gates of the same kind on one line,
/// declarations one per line, and the body of a repetition indented one level
/// deeper.
pub open spec fn stim_text<Q: Text>(s: Seq<GateModel<Q>>, indent: Seq<char>) -> Seq<char> {
    open_text(s, indent) + line_end(run_after(s))
}

/// One gate by itself.
pub open spec fn gate_text<Q: Text>(g: GateModel<Q>) -> Seq<char> {
    match g {
        GateModel::Repeat(n, body) => "REPEAT "@ + decimal(n as nat) + " {\n"@ + stim_text(
            body,
            "    "@,
        )
            + "}"@,
        _ => if run_of(g) is Idle {
            lone_text(g)
        } else {
            run_head(run_of(g)) + run_item(g)
        },
    }
}

/// The kind of line that `gate` goes on.
pub fn gate_run<Q: PauliStringIndex>(gate: &PhysicalGate<Q>) -> (r: Run)
    ensures
        r == run_of(gate_model(*gate)),
{
    match gate {
        PhysicalGate::Reset(b, _) => Run::Reset(*b),
        PhysicalGate::Measure(b, _, _) => Run::Measure(*b),
        PhysicalGate::Controlled(p, _, _) => Run::Controlled(*p),
        PhysicalGate::XCorrection(_, _) => Run::XCorrection,
        _ => Run::Idle,
    }
}

fn push_line_end(out: &mut String, run: Run)
    ensures
        final(out)@ == old(out)@ + line_end(run),
{
    let ghost before = out@;
    if run != Run::Idle {
        out.push('\n');
    }
    assert(out@ =~= before + line_end(run));
}

fn push_run_head(out: &mut String, run: Run)
    ensures
        final(out)@ == old(out)@ + run_head(run),
{
    let ghost before = out@;
    match run {
        Run::Idle => {},
        Run::Reset(b) => {
            out.append("R");
            b.write_text(out);
        },
        Run::Measure(b) => {
            out.append("M");
            b.write_text(out);
        },
        Run::Controlled(p) => {
            out.append("C");
            p.write_text(out);
        },
        Run::XCorrection => {
            out.append("CNOT");
        },
    }
    assert(out@ =~= before + run_head(run));
}

fn push_run_item<Q: PauliStringIndex + Text>(out: &mut String, gate: &PhysicalGate<Q>)
    ensures
        final(out)@ == old(out)@ + run_item(gate_model(*gate)),
{
    let ghost before = out@;
    match gate {
        PhysicalGate::Reset(_, q) => {
            out.append(" ");
            q.write_text(out);
        },
        PhysicalGate::Measure(_, q, invert) => {
            if *invert {
                out.append(" !");
            } else {
                out.append(" ");
            }
            q.write_text(out);
        },
        PhysicalGate::Controlled(_, c, t) => {
            out.append(" ");
            c.write_text(out);
            out.append(" ");
            t.write_text(out);
        },
        PhysicalGate::XCorrection(rec, q) => {
            out.append(" rec[-");
            push_decimal(out, *rec);
            out.append("] ");
            q.write_text(out);
        },
        _ => {},
    }
    assert(out@ =~= before + run_item(gate_model(*gate)));
}

fn push_records(out: &mut String, recs: &Vec<usize>)
    ensures
        final(out)@ == old(out)@ + records_text(recs@),
{
    let ghost before = out@;
    assert(recs@.take(0) =~= Seq::empty());
    assert(before + records_text(Seq::empty()) =~= before);
    for i in 0..recs.len()
        invariant
            out@ == before + records_text(recs@.take(i as int)),
    {
        out.append(" rec[-");
        push_decimal(out, recs[i]);
        out.append("]");
        proof {
            assert(recs@.take(i + 1).drop_last() =~= recs@.take(i as int));
            assert(out@ =~= before + records_text(recs@.take(i + 1)));
        }
    }
    assert(recs@.take(recs@.len() as int) =~= recs@);
}

fn push_factors<Q: PauliStringIndex + Text>(out: &mut String, sites: &Vec<(Q, Pauli)>)
    ensures
        final(out)@ == old(out)@ + factors_text(sites@),
{
    let ghost before = out@;
    assert(sites@.take(0) =~= Seq::empty());
    assert(before + factors_text(Seq::<(Q, Pauli)>::empty()) =~= before);
    for i in 0..sites.len()
        invariant
            out@ == before + factors_text(sites@.take(i as int)),
    {
        if i > 0 {
            out.append("*");
        }
        sites[i].1.write_text(out);
        sites[i].0.write_text(out);
        proof {
            assert(sites@.take(i + 1).drop_last() =~= sites@.take(i as int));
            assert(out@ =~= before + factors_text(sites@.take(i + 1)));
        }
    }
    assert(sites@.take(sites@.len() as int) =~= sites@);
}

fn push_lone<Q: PauliStringIndex + Text>(out: &mut String, gate: &PhysicalGate<Q>)
    ensures
        final(out)@ == old(out)@ + lone_text(gate_model(*gate)),
{
    let ghost before = out@;
    match gate {
        PhysicalGate::Tick => {
            out.append("TICK");
        },
        PhysicalGate::DeclareObservable(index, recs) => {
            out.append("OBSERVABLE_INCLUDE(");
            push_decimal(out, *index);
            out.append(")");
            push_records(out, recs);
        },
        PhysicalGate::DeclareDetector(recs) => {
            out.append("DETECTOR");
            push_records(out, recs);
        },
        PhysicalGate::MPP(p) => {
            if p.sign == Sign::NegOne {
                out.append("MPP !");
            } else {
                out.append("MPP ");
            }
            let factors = sites(p);
            push_factors(out, &factors);
        },
        _ => {},
    }
    assert(out@ =~= before + lone_text(gate_model(*gate)));
}

proof fn lemma_append(a: Seq<char>, b: Seq<char>, c: Seq<char>)
    ensures
        (a + b) + c == a + (b + c),
{
    assert((a + b) + c =~= a + (b + c));
}

/// Append a line of its own for `gate`.
fn push_lone_line<Q: PauliStringIndex + Text>(out: &mut String, gate: &PhysicalGate<Q>)
    ensures
        final(out)@ == old(out)@ + (lone_text(gate_model(*gate)) + "\n"@),
{
    let ghost entry = out@;
    push_lone(out, gate);
    out.append("\n");
    proof {
        lemma_append(entry, lone_text(gate_model(*gate)), "\n"@);
    }
}

/// Begin a line of kind `run` with `gate`.
fn push_run_line<Q: PauliStringIndex + Text>(out: &mut String, run: Run, gate: &PhysicalGate<Q>)
    ensures
        final(out)@ == old(out)@ + (run_head(run) + run_item(gate_model(*gate))),
{
    let ghost entry = out@;
    push_run_head(out, run);
    push_run_item(out, gate);
    proof {
        lemma_append(entry, run_head(run), run_item(gate_model(*gate)));
    }
}

/// Append the line that opens a repetition.
fn push_repeat_head(out: &mut String, n: usize)
    ensures
        final(out)@ == old(out)@ + ("REPEAT "@ + decimal(n as nat) + " {\n"@),
{
    let ghost entry = out@;
    out.append("REPEAT ");
    push_decimal(out, n);
    out.append(" {\n");
    proof {
        lemma_append(entry, "REPEAT "@, decimal(n as nat));
        lemma_append(entry, "REPEAT "@ + decimal(n as nat), " {\n"@);
    }
}

/// Close the open line and indent the next one.
fn push_line_start(out: &mut String, open: Run, indent: &String)
    ensures
        final(out)@ == old(out)@ + (line_end(open) + indent@),
{
    let ghost entry = out@;
    push_line_end(out, open);
    out.append(indent.as_str());
    proof {
        lemma_append(entry, line_end(open), indent@);
    }
}

/// Append the line that closes a repetition.
fn push_repeat_tail(out: &mut String, indent: &String)
    ensures
        final(out)@ == old(out)@ + (indent@ + "}\n"@),
{
    let ghost entry = out@;
    out.append(indent.as_str());
    out.append("}\n");
    proof {
        lemma_append(entry, indent@, "}\n"@);
    }
}

/// Append one more gate to a text whose last line is of kind `open`.
fn push_gate_text<Q: PauliStringIndex + Text>(
    out: &mut String,
    open: Run,
    gate: &PhysicalGate<Q>,
    indent: &String,
)
    ensures
        final(out)@ == old(out)@ + added_text(open, gate_model(*gate), indent@),
    decreases *gate,
{
    let ghost g = gate_model(*gate);
    let ghost entry = out@;
    let ghost start = line_end(open) + indent@;
    match gate {
        PhysicalGate::Repeat(n, body) => {
            let ghost head = "REPEAT "@ + decimal(*n as nat) + " {\n"@;
            let ghost inner = stim_text(gate_models(body@), deeper(indent@));
            let ghost tail = indent@ + "}\n"@;
            push_line_start(out, open, indent);
            push_repeat_head(out, *n);
            let mut inside = String::new();
            inside.append(indent.as_str());
            inside.append("    ");
            assert(inside@ =~= deeper(indent@));
            write_gates(out, body, &inside);
            push_repeat_tail(out, indent);
            proof {
                lemma_append(entry, start, head);
                lemma_append(entry, start + head, inner);
                lemma_append(entry, start + head + inner, tail);
            }
        },
        _ => {
            let run = gate_run(gate);
            if run == Run::Idle {
                push_line_start(out, open, indent);
                push_lone_line(out, gate);
                proof {
                    lemma_append(entry, start, lone_text(g) + "\n"@);
                }
            } else if run == open {
                push_run_item(out, gate);
            } else {
                push_line_start(out, open, indent);
                push_run_line(out, run, gate);
                proof {
                    lemma_append(entry, start, run_head(run) + run_item(g));
                }
            }
        },
    }
}

/// Render a gate sequence to stim text, every line indented by `indent`.
pub fn write_gates<Q: PauliStringIndex + Text>(
    out: &mut String,
    gates: &Vec<PhysicalGate<Q>>,
    indent: &String,
)
    ensures
        final(out)@ == old(out)@ + stim_text(gate_models(gates@), indent@),
    decreases *gates,
{
    let ghost start = out@;
    let ghost s = gate_models(gates@);
    proof {
        lemma_gate_models(gates@);
        assert(s.take(0) =~= Seq::empty());
        assert(start + open_text(Seq::<GateModel<Q>>::empty(), indent@) =~= start);
    }
    let mut open: Run = Run::Idle;
    for i in 0..gates.len()
        invariant
            s == gate_models(gates@),
            s.len() == gates@.len(),
            forall|i: int| 0 <= i < gates@.len() ==> #[trigger] s[i] == gate_model(gates@[i]),
            open == run_after(s.take(i as int)),
            out@ == start + open_text(s.take(i as int), indent@),
    {
        proof {
            assert(s[i as int] == gate_model(gates@[i as int]));
            assert(s.take(i + 1) =~= s.take(i as int).push(s[i as int]));
        }
        push_gate_text(out, open, &gates[i], indent);
        proof {
            let before = s.take(i as int);
            assert(s.take(i + 1).drop_last() =~= before);
            lemma_append(
                start,
                open_text(before, indent@),
                added_text(open, s[i as int], indent@),
            );
        }
        open = gate_run(&gates[i]);
    }
    assert(s.take(s.len() as int) =~= s);
    push_line_end(out, open);
    assert(out@ =~= start + stim_text(s, indent@));
}

impl<Q: PauliStringIndex + Text> PhysicalGate<Q> {
    /// This gate by itself as stim text.
    pub fn to_stim(&self) -> (r: String)
        ensures
            r@ == gate_text(gate_model(*self)),
    {
        let mut out = String::new();
        let ghost g = gate_model(*self);
        match self {
            PhysicalGate::Repeat(n, body) => {
                push_repeat_head(&mut out, *n);
                let mut indent = String::new();
                indent.append("    ");
                assert(indent@ =~= "    "@);
                write_gates(&mut out, body, &indent);
                out.append("}");
            },
            _ => {
                let run = gate_run(self);
                if run == Run::Idle {
                    push_lone(&mut out, self);
                } else {
                    push_run_line(&mut out, run, self);
                }
            },
        }
        assert(out@ =~= gate_text(g));
        out
    }
}

impl<Q: PauliStringIndex + Text> PhysicalCircuit<Q> {
    /// The circuit as stim text.
    pub fn to_stim(&self) -> (r: String)
        ensures
            r@ == stim_text(self@, Seq::empty()),
    {
        let mut out = String::new();
        let indent = String::new();
        write_gates(&mut out, &self.gates, &indent);
        assert(indent@ =~= Seq::<char>::empty());
        assert(out@ =~= stim_text(self@, Seq::empty()));
        out
    }
}

// ---------------------------------------------------------------------------
// Streaming gate output
// ---------------------------------------------------------------------------
/// A consumer of lowered, flat-qubit gates.
pub trait GateSink: Sized {
    /// The gates handed over so far.
    spec fn pushed(&self) -> Seq<GateModel<usize>>;

    fn push_gate(&mut self, gate: PhysicalGate<usize>)
        ensures
            final(self).pushed() == old(self).pushed().push(gate_model(gate)),
    ;
}

impl GateSink for Vec<PhysicalGate<usize>> {
    open spec fn pushed(&self) -> Seq<GateModel<usize>> {
        gate_models(self@)
    }

    fn push_gate(&mut self, gate: PhysicalGate<usize>) {
        proof {
            lemma_gate_models_push(self@, gate);
        }
        Vec::push(self, gate);
    }
}

/// Hand over gates one after another.
pub fn extend_gates<S: GateSink>(out: &mut S, gates: Vec<PhysicalGate<usize>>)
    ensures
        final(out).pushed() == old(out).pushed() + gate_models(gates@),
{
    let ghost before = out.pushed();
    let ghost s = gate_models(gates@);
    proof {
        lemma_gate_models(gates@);
        assert(s.take(0) =~= Seq::empty());
        assert(before + Seq::<GateModel<usize>>::empty() =~= before);
    }
    for i in 0..gates.len()
        invariant
            s.len() == gates@.len(),
            forall|i: int| 0 <= i < gates@.len() ==> #[trigger] s[i] == gate_model(gates@[i]),
            out.pushed() == before + s.take(i as int),
    {
        let gate = gates[i].clone();
        out.push_gate(gate);
        proof {
            assert(s[i as int] == gate_model(gates@[i as int]));
            assert(out.pushed() =~= before + s.take(i + 1));
        }
    }
    assert(s.take(s.len() as int) =~= s);
}

/// A sink that keeps only the `TICK` count (with repeated bodies counted as often
/// as they run): the depth of a lowering, without the gates of it.
pub struct TickCounter {
    ticks: Option<usize>,
    log: Ghost<Seq<GateModel<usize>>>,
}

impl TickCounter {
    #[verifier::type_invariant]
    spec fn well_formed(self) -> bool {
        match self.ticks {
            Some(n) => n == tick_total(self.log@),
            None => tick_total(self.log@) > usize::MAX,
        }
    }

    pub fn new() -> (r: Self)
        ensures
            r.pushed() == Seq::<GateModel<usize>>::empty(),
    {
        TickCounter { ticks: Some(0), log: Ghost(Seq::empty()) }
    }

    /// The count, or `None` when it outruns the machine integers.
    pub fn ticks(&self) -> (r: Option<usize>)
        ensures
            match r {
                Some(n) => n == tick_total(self.pushed()),
                None => tick_total(self.pushed()) > usize::MAX,
            },
    {
        proof {
            use_type_invariant(self);
        }
        self.ticks
    }
}

/// The count of ticks with one more gate.
fn add_ticks(ticks: Option<usize>, gate: &PhysicalGate<usize>, Ghost(log): Ghost<
    Seq<GateModel<usize>>,
>) -> (r: Option<usize>)
    requires
        match ticks {
            Some(n) => n == tick_total(log),
            None => tick_total(log) > usize::MAX,
        },
    ensures
        match r {
            Some(n) => n == tick_total(log.push(gate_model(*gate))),
            None => tick_total(log.push(gate_model(*gate))) > usize::MAX,
        },
{
    proof {
        lemma_total_push(Counted::Ticks, log, gate_model(*gate));
    }
    match (ticks, count_gate_checked(Counted::Ticks, gate)) {
        (Some(a), Some(b)) => a.checked_add(b),
        _ => None,
    }
}

impl GateSink for TickCounter {
    closed spec fn pushed(&self) -> Seq<GateModel<usize>> {
        self.log@
    }

    fn push_gate(&mut self, gate: PhysicalGate<usize>) {
        proof {
            use_type_invariant(&*self);
        }
        let ghost log = self.log@;
        let ticks: Option<usize> = add_ticks(self.ticks, &gate, Ghost(log));
        *self = TickCounter { ticks, log: Ghost(log.push(gate_model(gate))) };
    }
}

/// A [`GateSink`] that renders each gate to stim text as it is produced, keeping
/// only the text and the state of the line in progress.
pub struct StimWriter {
    text: String,
    run: Run,
    ticks: Option<usize>,
    log: Ghost<Seq<GateModel<usize>>>,
}

impl StimWriter {
    #[verifier::type_invariant]
    spec fn well_formed(self) -> bool {
        &&& self.run == run_after(self.log@)
        &&& self.text@ == open_text(self.log@, Seq::empty())
        &&& match self.ticks {
            Some(n) => n == tick_total(self.log@),
            None => tick_total(self.log@) > usize::MAX,
        }
    }

    pub fn new() -> (r: Self)
        ensures
            r.pushed() == Seq::<GateModel<usize>>::empty(),
    {
        let text = String::new();
        assert(text@ =~= open_text(Seq::<GateModel<usize>>::empty(), Seq::empty()));
        StimWriter {
            text,
            run: Run::Idle,
            ticks: Some(0),
            log: Ghost(Seq::empty()),
        }
    }

    /// The text, and the `TICK` count of the gates (`None` when that outruns the
    /// machine integers).
    pub fn finish(self) -> (r: (String, Option<usize>))
        ensures
            r.0@ == stim_text(self.pushed(), Seq::empty()),
            match r.1 {
                Some(n) => n == tick_total(self.pushed()),
                None => tick_total(self.pushed()) > usize::MAX,
            },
    {
        proof {
            use_type_invariant(&self);
        }
        let StimWriter { text, run, ticks, log } = self;
        let mut text = text;
        push_line_end(&mut text, run);
        (text, ticks)
    }
}

impl GateSink for StimWriter {
    closed spec fn pushed(&self) -> Seq<GateModel<usize>> {
        self.log@
    }

    fn push_gate(&mut self, gate: PhysicalGate<usize>) {
        proof {
            use_type_invariant(&*self);
        }
        let mut whole = StimWriter::new();
        core::mem::swap(&mut whole, self);
        let StimWriter { text, run, ticks, log } = whole;
        let ghost g = gate_model(gate);
        let ghost now = log@.push(g);
        let ticks: Option<usize> = add_ticks(ticks, &gate, Ghost(log@));
        let mut text = text;
        proof {
            assert(now.drop_last() =~= log@);
        }
        let indent = String::new();
        push_gate_text(&mut text, run, &gate, &indent);
        assert(indent@ =~= Seq::<char>::empty());
        *self = StimWriter { text, run: gate_run(&gate), ticks, log: Ghost(now) };
    }
}

} // verus!
