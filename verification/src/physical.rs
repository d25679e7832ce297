//! Physical circuits: the gates that syndrome extraction is made of, and what
//! can be counted about them.

use vstd::prelude::*;

use crate::keyed::{KeyedMap, OrderedKey};
use crate::pbc::{Pauli, PauliAxis, PauliString, PauliStringIndex};
#[allow(unused_imports)]
use crate::pbc::{sort_sites, SignedPauli};

verus! {

/// One gate of a physical circuit over qubits of type `Q`.
#[derive(Debug)]
pub enum PhysicalGate<Q: PauliStringIndex> {
    /// Reset a qubit into the `+1` eigenstate of the given Pauli basis (`Z` is the
    /// usual `|0>`).
    Reset(Pauli, Q),
    /// A single-qubit measurement in the given Pauli basis. The flag inverts the
    /// recorded outcome, used by the ancilla syndrome gadget to realize a
    /// negative-sign check.
    Measure(Pauli, Q, bool),
    XCorrection(usize, Q),
    DeclareObservable(usize, Vec<usize>),
    DeclareDetector(Vec<usize>),
    MPP(PauliAxis<Q>),
    /// A qubit-controlled Pauli (control, then target). Emitted by the ancilla
    /// syndrome gadget to entangle a measurement ancilla (control) with a data
    /// qubit (target). Distinct from `XCorrection`, which is *record*-controlled.
    Controlled(Pauli, Q, Q),
    /// A timing-layer boundary. Carries no qubits and no records.
    Tick,
    /// The body is run `n` times; record offsets inside it count relative to the
    /// running measurement count, so the same body works on every iteration.
    Repeat(usize, Vec<PhysicalGate<Q>>),
}

/// The mathematical content of a [`PhysicalGate`].
pub enum GateModel<Q> {
    Reset(Pauli, Q),
    Measure(Pauli, Q, bool),
    XCorrection(usize, Q),
    DeclareObservable(usize, Seq<usize>),
    DeclareDetector(Seq<usize>),
    MPP(SignedPauli<Q>),
    Controlled(Pauli, Q, Q),
    Tick,
    Repeat(usize, Seq<GateModel<Q>>),
}

/// The content of a gate.
pub open spec fn gate_model<Q: PauliStringIndex>(g: PhysicalGate<Q>) -> GateModel<Q>
    decreases g,
{
    match g {
        PhysicalGate::Reset(b, q) => GateModel::Reset(b, q),
        PhysicalGate::Measure(b, q, i) => GateModel::Measure(b, q, i),
        PhysicalGate::XCorrection(r, q) => GateModel::XCorrection(r, q),
        PhysicalGate::DeclareObservable(i, recs) => GateModel::DeclareObservable(i, recs@),
        PhysicalGate::DeclareDetector(recs) => GateModel::DeclareDetector(recs@),
        PhysicalGate::MPP(p) => GateModel::MPP(p@),
        PhysicalGate::Controlled(p, c, t) => GateModel::Controlled(p, c, t),
        PhysicalGate::Tick => GateModel::Tick,
        PhysicalGate::Repeat(n, body) => GateModel::Repeat(n, gate_models(body@)),
    }
}

/// The contents of a sequence of gates.
pub open spec fn gate_models<Q: PauliStringIndex>(s: Seq<PhysicalGate<Q>>) -> Seq<GateModel<Q>>
    decreases s,
{
    if s.len() == 0 {
        Seq::empty()
    } else {
        gate_models(s.drop_last()).push(gate_model(s.last()))
    }
}

/// What is counted along a circuit.
#[derive(Clone, Copy, PartialEq, Eq, Debug, Structural)]
pub enum Counted {
    /// Timing layers.
    Ticks,
    /// Measurement records: one for each `MPP` and each `Measure`.
    Records,
}

/// How often a gate counts, with repeated bodies counted as often as they run.
pub open spec fn gate_total<Q>(kind: Counted, g: GateModel<Q>) -> nat
    decreases g,
{
    match g {
        GateModel::Repeat(n, body) => (n as nat) * total(kind, body),
        GateModel::Tick => if kind is Ticks {
            1
        } else {
            0
        },
        GateModel::MPP(_) => if kind is Records {
            1
        } else {
            0
        },
        GateModel::Measure(_, _, _) => if kind is Records {
            1
        } else {
            0
        },
        _ => 0,
    }
}

/// How often the gates of a circuit count.
pub open spec fn total<Q>(kind: Counted, s: Seq<GateModel<Q>>) -> nat
    decreases s,
{
    if s.len() == 0 {
        0
    } else {
        total(kind, s.drop_last()) + gate_total(kind, s.last())
    }
}

/// The number of `TICK` layers.
pub open spec fn tick_total<Q>(s: Seq<GateModel<Q>>) -> nat {
    total(Counted::Ticks, s)
}

/// The number of measurement records.
pub open spec fn record_total<Q>(s: Seq<GateModel<Q>>) -> nat {
    total(Counted::Records, s)
}

/// The number of measurement rounds: maximal runs of `MPP`s, with repeated
/// bodies counted as often as they run.
pub open spec fn round_total<Q>(s: Seq<GateModel<Q>>) -> nat
    decreases s,
{
    if s.len() == 0 {
        0
    } else {
        let before = s.drop_last();
        round_total(before) + match s.last() {
            GateModel::MPP(_) => if before.len() > 0 && before.last() is MPP {
                0
            } else {
                1
            },
            GateModel::Repeat(n, body) => (n as nat) * round_total(body),
            _ => 0,
        }
    }
}

/// The number of `MPP`s at the end.
pub open spec fn trailing_run<Q>(s: Seq<GateModel<Q>>) -> nat
    decreases s.len(),
{
    if s.len() > 0 && s.last() is MPP {
        trailing_run(s.drop_last()) + 1
    } else {
        0
    }
}

pub open spec fn max_nat(a: nat, b: nat) -> nat {
    if a < b {
        b
    } else {
        a
    }
}

/// The length of the longest run of `MPP`s, in repeated bodies too.
pub open spec fn widest_round<Q>(s: Seq<GateModel<Q>>) -> nat
    decreases s,
{
    if s.len() == 0 {
        0
    } else {
        max_nat(
            widest_round(s.drop_last()),
            match s.last() {
                GateModel::MPP(_) => trailing_run(s),
                GateModel::Repeat(n, body) => widest_round(body),
                _ => 0,
            },
        )
    }
}

// ---------------------------------------------------------------------------
// Sequences of gates
// ---------------------------------------------------------------------------
/// The contents of a sequence of gates, gate by gate.
pub proof fn lemma_gate_models<Q: PauliStringIndex>(s: Seq<PhysicalGate<Q>>)
    ensures
        gate_models(s).len() == s.len(),
        forall|i: int| 0 <= i < s.len() ==> #[trigger] gate_models(s)[i] == gate_model(s[i]),
    decreases s.len(),
{
    if s.len() > 0 {
        lemma_gate_models(s.drop_last());
    }
}

pub proof fn lemma_gate_models_push<Q: PauliStringIndex>(
    s: Seq<PhysicalGate<Q>>,
    g: PhysicalGate<Q>,
)
    ensures
        gate_models(s.push(g)) == gate_models(s).push(gate_model(g)),
{
    assert(s.push(g).drop_last() =~= s);
}

pub proof fn lemma_gate_models_add<Q: PauliStringIndex>(
    s: Seq<PhysicalGate<Q>>,
    t: Seq<PhysicalGate<Q>>,
)
    ensures
        gate_models(s + t) == gate_models(s) + gate_models(t),
    decreases t.len(),
{
    lemma_gate_models(s);
    lemma_gate_models(t);
    lemma_gate_models(s + t);
    assert(gate_models(s + t) =~= gate_models(s) + gate_models(t));
}

pub proof fn lemma_gate_models_take<Q: PauliStringIndex>(s: Seq<PhysicalGate<Q>>, i: int)
    requires
        0 <= i < s.len(),
    ensures
        gate_models(s.take(i + 1)) == gate_models(s.take(i)).push(gate_model(s[i])),
        gate_models(s.take(i)) == gate_models(s).take(i),
{
    assert(s.take(i + 1).drop_last() =~= s.take(i));
    lemma_gate_models(s);
    lemma_gate_models(s.take(i));
    assert(gate_models(s.take(i)) =~= gate_models(s).take(i));
}

/// What is counted adds up along a circuit.
pub proof fn lemma_total_add<Q>(kind: Counted, s: Seq<GateModel<Q>>, t: Seq<GateModel<Q>>)
    ensures
        total(kind, s + t) == total(kind, s) + total(kind, t),
    decreases t.len(),
{
    if t.len() == 0 {
        assert(s + t =~= s);
    } else {
        assert((s + t).drop_last() =~= s + t.drop_last());
        lemma_total_add(kind, s, t.drop_last());
    }
}

pub proof fn lemma_total_push<Q>(kind: Counted, s: Seq<GateModel<Q>>, g: GateModel<Q>)
    ensures
        total(kind, s.push(g)) == total(kind, s) + gate_total(kind, g),
{
    assert(s.push(g).drop_last() =~= s);
}

/// A part counts no more than the whole.
pub proof fn lemma_total_take<Q>(kind: Counted, s: Seq<GateModel<Q>>, i: int)
    requires
        0 <= i <= s.len(),
    ensures
        total(kind, s.take(i)) <= total(kind, s),
        i < s.len() ==> total(kind, s.take(i)) + gate_total(kind, s[i]) <= total(kind, s),
{
    lemma_total_add(kind, s.take(i), s.skip(i));
    assert(s.take(i) + s.skip(i) =~= s);
    if i < s.len() {
        lemma_total_push(kind, s.take(i), s[i]);
        lemma_total_add(kind, s.take(i + 1), s.skip(i + 1));
        assert(s.take(i + 1) + s.skip(i + 1) =~= s);
        assert(s.take(i + 1) =~= s.take(i).push(s[i]));
    }
}

impl<Q: PauliStringIndex> Clone for PhysicalGate<Q> {
    fn clone(&self) -> (r: Self)
        ensures
            gate_model(r) == gate_model(*self),
        decreases *self,
    {
        match self {
            PhysicalGate::Reset(b, q) => PhysicalGate::Reset(*b, *q),
            PhysicalGate::Measure(b, q, i) => PhysicalGate::Measure(*b, *q, *i),
            PhysicalGate::XCorrection(r, q) => PhysicalGate::XCorrection(*r, *q),
            PhysicalGate::DeclareObservable(i, recs) => {
                let copy = recs.clone();
                assert(copy@ =~= recs@);
                PhysicalGate::DeclareObservable(*i, copy)
            },
            PhysicalGate::DeclareDetector(recs) => {
                let copy = recs.clone();
                assert(copy@ =~= recs@);
                PhysicalGate::DeclareDetector(copy)
            },
            PhysicalGate::MPP(p) => PhysicalGate::MPP(p.clone()),
            PhysicalGate::Controlled(p, c, t) => PhysicalGate::Controlled(*p, *c, *t),
            PhysicalGate::Tick => PhysicalGate::Tick,
            PhysicalGate::Repeat(n, body) => {
                let mut copy: Vec<PhysicalGate<Q>> = Vec::new();
                for i in 0..body.len()
                    invariant
                        decreases_to!(*self => *body),
                        gate_models(copy@) == gate_models(body@.take(i as int)),
                {
                    proof {
                        lemma_gate_models_take(body@, i as int);
                    }
                    let g = body[i].clone();
                    proof {
                        lemma_gate_models_push(copy@, g);
                    }
                    copy.push(g);
                }
                assert(body@.take(body@.len() as int) =~= body@);
                PhysicalGate::Repeat(*n, copy)
            },
        }
    }
}

/// Copy a sequence of gates.
pub fn clone_gates<Q: PauliStringIndex>(gates: &Vec<PhysicalGate<Q>>) -> (r: Vec<PhysicalGate<Q>>)
    ensures
        gate_models(r@) == gate_models(gates@),
{
    let mut copy: Vec<PhysicalGate<Q>> = Vec::new();
    for i in 0..gates.len()
        invariant
            gate_models(copy@) == gate_models(gates@.take(i as int)),
    {
        proof {
            lemma_gate_models_take(gates@, i as int);
        }
        let g = gates[i].clone();
        proof {
            lemma_gate_models_push(copy@, g);
        }
        copy.push(g);
    }
    assert(gates@.take(gates@.len() as int) =~= gates@);
    copy
}

/// Count a gate; `None` when the count outruns the machine integers.
pub fn count_gate_checked<Q: PauliStringIndex>(kind: Counted, gate: &PhysicalGate<Q>) -> (r: Option<
    usize,
>)
    ensures
        match r {
            Some(n) => n == gate_total(kind, gate_model(*gate)),
            None => gate_total(kind, gate_model(*gate)) > usize::MAX,
        },
    decreases *gate,
{
    match gate {
        PhysicalGate::Tick => Some(
            if kind == Counted::Ticks {
                1
            } else {
                0
            },
        ),
        PhysicalGate::MPP(_) => Some(
            if kind == Counted::Records {
                1
            } else {
                0
            },
        ),
        PhysicalGate::Measure(_, _, _) => Some(
            if kind == Counted::Records {
                1
            } else {
                0
            },
        ),
        PhysicalGate::Repeat(n, body) => {
            if *n == 0 {
                proof {
                    assert(0 * total(kind, gate_models(body@)) == 0) by (nonlinear_arith);
                }
                Some(0)
            } else {
                let ghost whole = total(kind, gate_models(body@));
                proof {
                    assert(whole <= (*n as nat) * whole) by (nonlinear_arith)
                        requires
                            *n >= 1,
                    ;
                }
                match count_checked(kind, body) {
                    Some(inner) => n.checked_mul(inner),
                    None => None,
                }
            }
        },
        _ => Some(0),
    }
}

/// Count along a circuit; `None` when the count outruns the machine integers.
pub fn count_checked<Q: PauliStringIndex>(kind: Counted, gates: &Vec<PhysicalGate<Q>>) -> (r: Option<
    usize,
>)
    ensures
        match r {
            Some(n) => n == total(kind, gate_models(gates@)),
            None => total(kind, gate_models(gates@)) > usize::MAX,
        },
    decreases *gates,
{
    let ghost s = gate_models(gates@);
    proof {
        lemma_gate_models(gates@);
        assert(s.take(0) =~= Seq::empty());
    }
    let mut sum: usize = 0;
    let mut i: usize = 0;
    while i < gates.len()
        invariant
            i <= gates@.len(),
            s == gate_models(gates@),
            s.len() == gates@.len(),
            forall|i: int| 0 <= i < gates@.len() ==> #[trigger] s[i] == gate_model(gates@[i]),
            sum == total(kind, s.take(i as int)),
        decreases gates@.len() - i,
    {
        proof {
            lemma_total_take(kind, s, i as int);
            lemma_total_push(kind, s.take(i as int), s[i as int]);
            assert(s.take(i + 1) =~= s.take(i as int).push(s[i as int]));
            lemma_total_take(kind, s, i + 1);
            assert(s[i as int] == gate_model(gates@[i as int]));
        }
        let here: usize = match count_gate_checked(kind, &gates[i]) {
            Some(n) => n,
            None => return None,
        };
        sum = match sum.checked_add(here) {
            Some(n) => n,
            None => return None,
        };
        i = i + 1;
    }
    assert(s.take(s.len() as int) =~= s);
    Some(sum)
}

/// The number of measurement rounds; `None` when it outruns the machine integers.
pub fn count_rounds_checked<Q: PauliStringIndex>(gates: &Vec<PhysicalGate<Q>>) -> (r: Option<usize>)
    ensures
        match r {
            Some(n) => n == round_total(gate_models(gates@)),
            None => round_total(gate_models(gates@)) > usize::MAX,
        },
    decreases *gates,
{
    let ghost s = gate_models(gates@);
    proof {
        lemma_gate_models(gates@);
        assert(s.take(0) =~= Seq::empty());
    }
    let mut rounds: usize = 0;
    let mut in_round = false;
    let mut i: usize = 0;
    while i < gates.len()
        invariant
            i <= gates@.len(),
            s == gate_models(gates@),
            s.len() == gates@.len(),
            forall|i: int| 0 <= i < gates@.len() ==> #[trigger] s[i] == gate_model(gates@[i]),
            rounds == round_total(s.take(i as int)),
            in_round == (i > 0 && s[i - 1] is MPP),
        decreases gates@.len() - i,
    {
        proof {
            assert(s.take(i + 1).drop_last() =~= s.take(i as int));
            lemma_round_total_take(s, i + 1);
            assert(s[i as int] == gate_model(gates@[i as int]));
            if i > 0 {
                assert(s.take(i as int).last() == s[i - 1]);
            }
        }
        let here: usize = match &gates[i] {
            PhysicalGate::MPP(_) => if in_round {
                0
            } else {
                1
            },
            PhysicalGate::Repeat(n, body) => {
                let ghost inner = round_total(gate_models(body@));
                if *n == 0 {
                    proof {
                        assert(0 * inner == 0) by (nonlinear_arith);
                    }
                    0
                } else {
                    proof {
                        assert(inner <= (*n as nat) * inner) by (nonlinear_arith)
                            requires
                                *n >= 1,
                        ;
                    }
                    let once: usize = match count_rounds_checked(body) {
                        Some(k) => k,
                        None => return None,
                    };
                    match (*n).checked_mul(once) {
                        Some(k) => k,
                        None => return None,
                    }
                }
            },
            _ => 0,
        };
        in_round = match &gates[i] {
            PhysicalGate::MPP(_) => true,
            _ => false,
        };
        rounds = match rounds.checked_add(here) {
            Some(k) => k,
            None => return None,
        };
        i = i + 1;
    }
    assert(s.take(s.len() as int) =~= s);
    Some(rounds)
}

/// Number of measurement rounds: each maximal run of consecutive `MPP` gates is
/// one round; a repeated body contributes its rounds as often as it runs.
pub fn count_syndrome_rounds<Q: PauliStringIndex>(gates: &Vec<PhysicalGate<Q>>) -> (r: usize)
    requires
        round_total(gate_models(gates@)) <= usize::MAX,
    ensures
        r == round_total(gate_models(gates@)),
{
    count_rounds_checked(gates).unwrap()
}

pub proof fn lemma_round_total_take<Q>(s: Seq<GateModel<Q>>, i: int)
    requires
        0 <= i <= s.len(),
    ensures
        round_total(s.take(i)) <= round_total(s),
    decreases s.len() - i,
{
    if i < s.len() {
        lemma_round_total_take(s, i + 1);
        assert(s.take(i + 1).drop_last() =~= s.take(i));
    } else {
        assert(s.take(i) =~= s);
    }
}

/// The largest number of checks in any single measurement round (a maximal run
/// of consecutive `MPP` gates), in repeated bodies too. Equals the syndrome
/// ancilla pool size: one ancilla per check of the widest round, reused each round.
pub fn widest_syndrome_round<Q: PauliStringIndex>(gates: &Vec<PhysicalGate<Q>>) -> (r: usize)
    ensures
        r == widest_round(gate_models(gates@)),
    decreases *gates,
{
    let ghost s = gate_models(gates@);
    proof {
        lemma_gate_models(gates@);
        assert(s.take(0) =~= Seq::empty());
    }
    let mut widest: usize = 0;
    let mut run: usize = 0;
    for i in 0..gates.len()
        invariant
            s == gate_models(gates@),
            s.len() == gates@.len(),
            forall|i: int| 0 <= i < gates@.len() ==> #[trigger] s[i] == gate_model(gates@[i]),
            widest == widest_round(s.take(i as int)),
            run == trailing_run(s.take(i as int)),
            run <= i,
    {
        proof {
            assert(s.take(i + 1).drop_last() =~= s.take(i as int));
            assert(s[i as int] == gate_model(gates@[i as int]));
        }
        match &gates[i] {
            PhysicalGate::MPP(_) => {
                run = run + 1;
                if widest < run {
                    widest = run;
                }
            },
            PhysicalGate::Repeat(_, body) => {
                run = 0;
                let inner: usize = widest_syndrome_round(body);
                if widest < inner {
                    widest = inner;
                }
            },
            _ => {
                run = 0;
            },
        }
    }
    assert(s.take(s.len() as int) =~= s);
    widest
}

/// A physical circuit whose gates range over qubit type `Q`.
#[derive(Debug)]
pub struct PhysicalCircuit<Q: PauliStringIndex> {
    pub gates: Vec<PhysicalGate<Q>>,
}

impl<Q: PauliStringIndex> View for PhysicalCircuit<Q> {
    type V = Seq<GateModel<Q>>;

    open spec fn view(&self) -> Seq<GateModel<Q>> {
        gate_models(self.gates@)
    }
}

impl<Q: PauliStringIndex> PhysicalCircuit<Q> {
    pub fn new() -> (r: Self)
        ensures
            r@ == Seq::<GateModel<Q>>::empty(),
    {
        PhysicalCircuit { gates: Vec::new() }
    }

    pub fn add_gate(&mut self, gate: PhysicalGate<Q>)
        ensures
            final(self)@ == old(self)@.push(gate_model(gate)),
    {
        proof {
            lemma_gate_models_push(self.gates@, gate);
        }
        self.gates.push(gate);
    }

    /// Number of `TICK` timing layers, with repeated bodies counted as often as
    /// they run.
    pub fn tick_count(&self) -> (r: usize)
        requires
            tick_total(self@) <= usize::MAX,
        ensures
            r == tick_total(self@),
    {
        count_checked(Counted::Ticks, &self.gates).unwrap()
    }

    /// Number of measurement records, with repeated bodies counted as often as
    /// they run.
    pub fn measurement_count(&self) -> (r: usize)
        requires
            record_total(self@) <= usize::MAX,
        ensures
            r == record_total(self@),
    {
        count_checked(Counted::Records, &self.gates).unwrap()
    }
}

/// The gates of the circuits, one circuit after another.
pub open spec fn concatenation<Q: PauliStringIndex>(circuits: Seq<PhysicalCircuit<Q>>) -> Seq<
    GateModel<Q>,
>
    decreases circuits.len(),
{
    if circuits.len() == 0 {
        Seq::empty()
    } else {
        concatenation(circuits.drop_last()) + circuits.last()@
    }
}

/// Run the circuits one after another.
pub fn concatenate_circuits<Q: PauliStringIndex>(circuits: Vec<PhysicalCircuit<Q>>) -> (r:
    PhysicalCircuit<Q>)
    ensures
        r@ == concatenation(circuits@),
{
    let mut gates: Vec<PhysicalGate<Q>> = Vec::new();
    let mut circuits = circuits;
    let ghost all = circuits@;
    let n: usize = circuits.len();
    assert(all.take(0) =~= Seq::empty());
    assert(all.skip(0) =~= all);
    for i in 0..n
        invariant
            n == all.len(),
            circuits@ == all.skip(i as int),
            gate_models(gates@) == concatenation(all.take(i as int)),
    {
        let mut c = circuits.remove(0);
        proof {
            assert(c == all[i as int]);
            assert(circuits@ =~= all.skip(i + 1));
            assert(all.take(i + 1).drop_last() =~= all.take(i as int));
            lemma_gate_models_add(gates@, c.gates@);
        }
        gates.append(&mut c.gates);
    }
    assert(all.take(all.len() as int) =~= all);
    PhysicalCircuit { gates }
}

// ---------------------------------------------------------------------------
// Flat qubit numbering
// ---------------------------------------------------------------------------
/// The qubits that a gate names, in order.
pub open spec fn gate_qubits<Q>(g: GateModel<Q>) -> Seq<Q>
    decreases g,
{
    match g {
        GateModel::Reset(_, q) => seq![q],
        GateModel::Measure(_, q, _) => seq![q],
        GateModel::XCorrection(_, q) => seq![q],
        GateModel::Controlled(_, c, t) => seq![c, t],
        GateModel::MPP(p) => Seq::new(p.sites.len(), |i: int| p.sites[i].0),
        GateModel::Repeat(_, body) => all_qubits(body),
        _ => Seq::empty(),
    }
}

/// The qubits that a circuit names, in order.
pub open spec fn all_qubits<Q>(s: Seq<GateModel<Q>>) -> Seq<Q>
    decreases s,
{
    if s.len() == 0 {
        Seq::empty()
    } else {
        all_qubits(s.drop_last()) + gate_qubits(s.last())
    }
}

/// `seen` with `q` noted.
pub open spec fn note<Q>(seen: Seq<Q>, q: Q) -> Seq<Q> {
    if seen.contains(q) {
        seen
    } else {
        seen.push(q)
    }
}

/// `seen` with every qubit of `qs` noted, in order of first appearance.
pub open spec fn note_all<Q>(seen: Seq<Q>, qs: Seq<Q>) -> Seq<Q>
    decreases qs.len(),
{
    if qs.len() == 0 {
        seen
    } else {
        note(note_all(seen, qs.drop_last()), qs.last())
    }
}

/// The number of `q`: its position in order of first appearance.
pub open spec fn number_of<Q>(seen: Seq<Q>, q: Q) -> usize {
    seen.index_of(q) as usize
}

/// A gate with every qubit replaced by its number.
pub open spec fn flat_gate<Q: PauliStringIndex>(g: GateModel<Q>, seen: Seq<Q>) -> GateModel<usize>
    decreases g,
{
    match g {
        GateModel::Reset(b, q) => GateModel::Reset(b, number_of(seen, q)),
        GateModel::Measure(b, q, i) => GateModel::Measure(b, number_of(seen, q), i),
        GateModel::XCorrection(r, q) => GateModel::XCorrection(r, number_of(seen, q)),
        GateModel::DeclareObservable(i, recs) => GateModel::DeclareObservable(i, recs),
        GateModel::DeclareDetector(recs) => GateModel::DeclareDetector(recs),
        GateModel::MPP(p) => GateModel::MPP(
            SignedPauli {
                sign: p.sign,
                sites: sort_sites(
                    Seq::new(
                        p.sites.len(),
                        |i: int| (number_of(seen, p.sites[i].0), p.sites[i].1),
                    ),
                ),
            },
        ),
        GateModel::Controlled(p, c, t) => GateModel::Controlled(
            p,
            number_of(seen, c),
            number_of(seen, t),
        ),
        GateModel::Tick => GateModel::Tick,
        GateModel::Repeat(n, body) => GateModel::Repeat(n, flat_gates(body, seen)),
    }
}

/// The gates with every qubit replaced by its number.
pub open spec fn flat_gates<Q: PauliStringIndex>(s: Seq<GateModel<Q>>, seen: Seq<Q>) -> Seq<
    GateModel<usize>,
>
    decreases s,
{
    if s.len() == 0 {
        Seq::empty()
    } else {
        flat_gates(s.drop_last(), seen).push(flat_gate(s.last(), seen))
    }
}

/// A circuit with its qubits numbered from 0 in order of first appearance.
pub open spec fn flattened<Q: PauliStringIndex>(s: Seq<GateModel<Q>>) -> Seq<GateModel<usize>> {
    flat_gates(s, note_all(Seq::empty(), all_qubits(s)))
}

/// Numbers qubits in order of first appearance.
pub struct Interner<Q: PauliStringIndex> {
    ids: KeyedMap<Q, usize>,
    seen: Ghost<Seq<Q>>,
}

impl<Q: PauliStringIndex> View for Interner<Q> {
    type V = Seq<Q>;

    closed spec fn view(&self) -> Seq<Q> {
        self.seen@
    }
}

impl<Q: PauliStringIndex> Interner<Q> {
    #[verifier::type_invariant]
    spec fn well_formed(self) -> bool {
        &&& self.seen@.no_duplicates()
        &&& self.ids@.dom() == self.seen@.to_set()
        &&& forall|i: int|
            0 <= i < self.seen@.len() ==> self.ids@[#[trigger] self.seen@[i]] == i
    }

    pub fn new() -> (r: Self)
        ensures
            r@ == Seq::<Q>::empty(),
    {
        let ids: KeyedMap<Q, usize> = KeyedMap::new();
        proof {
            assert(ids@.dom() =~= Seq::<Q>::empty().to_set());
        }
        Interner { ids, seen: Ghost(Seq::empty()) }
    }

    /// The number of `q`, which gets the next one if it has none yet.
    pub fn intern(&mut self, q: Q) -> (r: usize)
        ensures
            final(self)@ == note(old(self)@, q),
            r == number_of(final(self)@, q),
            final(self)@.contains(q),
    {
        proof {
            use_type_invariant(&*self);
        }
        let ghost seen = self.seen@;
        match self.ids.get(&q) {
            Some(id) => {
                let id: usize = *id;
                proof {
                    assert(seen.to_set().contains(q));
                    let i = seen.index_of(q);
                    assert(seen[i] == q);
                }
                id
            },
            None => {
                proof {
                    assert(!seen.to_set().contains(q));
                    seen.unique_seq_to_set();
                }
                let next: usize = self.ids.len();
                let mut taken: Interner<Q> = Interner::new();
                core::mem::swap(&mut taken, self);
                let mut ids = taken.ids;
                ids.insert(q, next);
                let ghost now = seen.push(q);
                proof {
                    assert forall|x: Q| #[trigger] now.to_set().contains(x) <==> (
                    seen.to_set().contains(x) || x == q) by {
                        if seen.contains(x) {
                            assert(now[seen.index_of(x)] == x);
                        }
                        assert(now[seen.len() as int] == q);
                        if now.contains(x) && x != q {
                            assert(seen[now.index_of(x)] == x);
                        }
                    }
                    assert(ids@.dom() =~= now.to_set());
                    assert forall|i: int| 0 <= i < now.len() implies ids@[#[trigger] now[i]]
                        == i by {
                        if i < seen.len() {
                            assert(now[i] == seen[i]);
                            assert(seen.contains(seen[i]));
                        }
                    }
                    assert(now[seen.len() as int] == q);
                    let k = now.index_of(q);
                    assert(now[k] == q);
                }
                *self = Interner { ids, seen: Ghost(now) };
                next
            },
        }
    }

    /// How many qubits have a number.
    pub fn len(&self) -> (n: usize)
        ensures
            n == self@.len(),
    {
        proof {
            use_type_invariant(self);
            self.seen@.unique_seq_to_set();
        }
        self.ids.len()
    }

    /// The number of `q`, if it has one.
    pub fn lookup(&self, q: &Q) -> (r: Option<usize>)
        ensures
            r is Some == self@.contains(*q),
            r matches Some(i) ==> i == number_of(self@, *q) && i < self@.len(),
    {
        proof {
            use_type_invariant(self);
        }
        let ghost seen = self.seen@;
        match self.ids.get(q) {
            Some(id) => {
                proof {
                    assert(seen.to_set().contains(*q));
                    let i = seen.index_of(*q);
                    assert(seen[i] == *q);
                }
                Some(*id)
            },
            None => {
                assert(!seen.to_set().contains(*q));
                None
            },
        }
    }

    /// The numbered qubits, in increasing order of the qubit.
    pub fn qubits(&self) -> (r: Vec<Q>)
        ensures
            crate::keyed::increasing(r@),
            forall|q: Q| #[trigger] r@.contains(q) <==> self@.contains(q),
    {
        proof {
            use_type_invariant(self);
        }
        let r = self.ids.keys();
        proof {
            assert forall|q: Q| #[trigger] r@.contains(q) <==> self@.contains(q) by {
                assert(self.ids@.dom().contains(q) <==> self.seen@.to_set().contains(q));
            }
        }
        r
    }
}

/// Noting keeps what was noted, in place.
pub proof fn lemma_note_all_prefix<Q>(seen: Seq<Q>, qs: Seq<Q>)
    ensures
        seen.is_prefix_of(note_all(seen, qs)),
        forall|i: int| 0 <= i < qs.len() ==> note_all(seen, qs).contains(#[trigger] qs[i]),
    decreases qs.len(),
{
    if qs.len() > 0 {
        lemma_note_all_prefix(seen, qs.drop_last());
        let before = note_all(seen, qs.drop_last());
        let now = note_all(seen, qs);
        assert forall|q: Q| before.contains(q) implies now.contains(q) by {
            assert(now[before.index_of(q)] == q);
        }
        if !before.contains(qs.last()) {
            assert(now[before.len() as int] == qs.last());
        }
        assert forall|i: int| 0 <= i < qs.len() implies now.contains(#[trigger] qs[i]) by {
            if i < qs.len() - 1 {
                assert(qs.drop_last()[i] == qs[i]);
            }
        }
    }
}

pub proof fn lemma_note_all_add<Q>(seen: Seq<Q>, a: Seq<Q>, b: Seq<Q>)
    ensures
        note_all(seen, a + b) == note_all(note_all(seen, a), b),
    decreases b.len(),
{
    if b.len() == 0 {
        assert(a + b =~= a);
    } else {
        lemma_note_all_add(seen, a, b.drop_last());
        assert((a + b).drop_last() =~= a + b.drop_last());
    }
}

pub proof fn lemma_note_all_distinct<Q>(seen: Seq<Q>, qs: Seq<Q>)
    requires
        seen.no_duplicates(),
    ensures
        note_all(seen, qs).no_duplicates(),
    decreases qs.len(),
{
    if qs.len() > 0 {
        lemma_note_all_distinct(seen, qs.drop_last());
    }
}

/// What is noted is what was noted before and what came.
pub proof fn lemma_noted_iff<Q>(seen: Seq<Q>, qs: Seq<Q>, q: Q)
    ensures
        note_all(seen, qs).contains(q) <==> seen.contains(q) || qs.contains(q),
    decreases qs.len(),
{
    if qs.len() > 0 {
        let head = qs.drop_last();
        let last = qs.last();
        lemma_noted_iff(seen, head, q);
        let before = note_all(seen, head);
        let now = note_all(seen, qs);
        if qs.contains(q) && q != last {
            let i = qs.index_of(q);
            assert(qs[i] == q);
            assert(head[i] == q);
        }
        if head.contains(q) {
            assert(qs[head.index_of(q)] == q);
        }
        assert(qs[qs.len() - 1] == last);
        if !before.contains(last) {
            assert(now[before.len() as int] == last);
            if before.contains(q) {
                assert(now[before.index_of(q)] == q);
            }
            if now.contains(q) && q != last {
                let i = now.index_of(q);
                assert(now[i] == q);
                assert(before[i] == q);
            }
        }
    }
}

/// Numbers do not change when more qubits are noted.
pub proof fn lemma_number_stable<Q>(seen: Seq<Q>, more: Seq<Q>, q: Q)
    requires
        seen.is_prefix_of(more),
        more.no_duplicates(),
        seen.contains(q),
    ensures
        number_of(seen, q) == number_of(more, q),
        more.contains(q),
{
    let i = seen.index_of(q);
    assert(seen[i] == q);
    assert(more[i] == q);
    let j = more.index_of(q);
    assert(more[j] == q);
}

/// The flat form of a gate depends only on the numbers of its own qubits.
pub proof fn lemma_flat_gate_stable<Q: PauliStringIndex>(
    g: GateModel<Q>,
    seen: Seq<Q>,
    more: Seq<Q>,
)
    requires
        seen.is_prefix_of(more),
        more.no_duplicates(),
        forall|i: int| 0 <= i < gate_qubits(g).len() ==> seen.contains(#[trigger] gate_qubits(g)[i]),
    ensures
        flat_gate(g, seen) == flat_gate(g, more),
    decreases g,
{
    let qs = gate_qubits(g);
    assert forall|i: int| 0 <= i < qs.len() implies number_of(seen, #[trigger] qs[i]) == number_of(
        more,
        qs[i],
    ) by {
        lemma_number_stable(seen, more, qs[i]);
    }
    match g {
        GateModel::Reset(_, q) => {
            assert(qs[0] == q);
        },
        GateModel::Measure(_, q, _) => {
            assert(qs[0] == q);
        },
        GateModel::XCorrection(_, q) => {
            assert(qs[0] == q);
        },
        GateModel::Controlled(_, c, t) => {
            assert(qs[0] == c && qs[1] == t);
        },
        GateModel::MPP(p) => {
            let a = Seq::new(
                p.sites.len(),
                |i: int| (number_of(seen, p.sites[i].0), p.sites[i].1),
            );
            let b = Seq::new(
                p.sites.len(),
                |i: int| (number_of(more, p.sites[i].0), p.sites[i].1),
            );
            assert forall|i: int| 0 <= i < a.len() implies a[i] == b[i] by {
                assert(qs[i] == p.sites[i].0);
            }
            assert(a =~= b);
        },
        GateModel::Repeat(_, body) => {
            lemma_flat_gates_stable(body, seen, more);
        },
        _ => {},
    }
}

pub proof fn lemma_flat_gates_stable<Q: PauliStringIndex>(
    s: Seq<GateModel<Q>>,
    seen: Seq<Q>,
    more: Seq<Q>,
)
    requires
        seen.is_prefix_of(more),
        more.no_duplicates(),
        forall|i: int| 0 <= i < all_qubits(s).len() ==> seen.contains(#[trigger] all_qubits(s)[i]),
    ensures
        flat_gates(s, seen) == flat_gates(s, more),
    decreases s,
{
    if s.len() > 0 {
        let a = all_qubits(s.drop_last());
        let b = gate_qubits(s.last());
        assert forall|i: int| 0 <= i < a.len() implies seen.contains(#[trigger] a[i]) by {
            assert(all_qubits(s)[i] == a[i]);
        }
        assert forall|i: int| 0 <= i < b.len() implies seen.contains(#[trigger] b[i]) by {
            assert(all_qubits(s)[a.len() + i] == b[i]);
        }
        lemma_flat_gates_stable(s.drop_last(), seen, more);
        lemma_flat_gate_stable(s.last(), seen, more);
    }
}

/// Lower a single gate to its flat-qubit form; a repeated body shares the
/// numbering of the surrounding circuit.
pub fn flatten_gate<Q: PauliStringIndex>(gate: &PhysicalGate<Q>, ids: &mut Interner<Q>) -> (r:
    PhysicalGate<usize>)
    requires
        old(ids)@.no_duplicates(),
    ensures
        final(ids)@ == note_all(old(ids)@, gate_qubits(gate_model(*gate))),
        gate_model(r) == flat_gate(gate_model(*gate), final(ids)@),
        final(ids)@.no_duplicates(),
    decreases *gate,
{
    let ghost seen = ids@;
    let ghost qs = gate_qubits(gate_model(*gate));
    proof {
        lemma_note_all_distinct(seen, qs);
        assert(note_all(seen, Seq::<Q>::empty()) == seen);
    }
    match gate {
        PhysicalGate::Reset(basis, q) => {
            assert(qs.drop_last() =~= Seq::empty());
            PhysicalGate::Reset(*basis, ids.intern(*q))
        },
        PhysicalGate::Measure(basis, q, invert) => {
            assert(qs.drop_last() =~= Seq::empty());
            PhysicalGate::Measure(*basis, ids.intern(*q), *invert)
        },
        PhysicalGate::XCorrection(rec, q) => {
            assert(qs.drop_last() =~= Seq::empty());
            PhysicalGate::XCorrection(*rec, ids.intern(*q))
        },
        PhysicalGate::Controlled(p, c, t) => {
            proof {
                assert(qs.drop_last() =~= seq![*c]);
                assert(seq![*c].drop_last() =~= Seq::empty());
                assert(note_all(seen, seq![*c]) == note(seen, *c));
            }
            let control: usize = ids.intern(*c);
            let ghost mid = ids@;
            let target: usize = ids.intern(*t);
            proof {
                lemma_note_all_distinct(seen, seq![*c]);
                assert(mid.is_prefix_of(ids@));
                lemma_number_stable(mid, ids@, *c);
            }
            PhysicalGate::Controlled(*p, control, target)
        },
        PhysicalGate::Tick => PhysicalGate::Tick,
        PhysicalGate::DeclareObservable(index, recs) => {
            let copy = recs.clone();
            assert(copy@ =~= recs@);
            PhysicalGate::DeclareObservable(*index, copy)
        },
        PhysicalGate::DeclareDetector(recs) => {
            let copy = recs.clone();
            assert(copy@ =~= recs@);
            PhysicalGate::DeclareDetector(copy)
        },
        PhysicalGate::MPP(pauli) => {
            let sites = pauli.pauli_string.sites();
            let mut pairs: Vec<(usize, Pauli)> = Vec::new();
            assert(qs.take(0) =~= Seq::empty());
            for i in 0..sites.len()
                invariant
                    seen.no_duplicates(),
                    qs == Seq::new(sites@.len(), |i: int| sites@[i].0),
                    ids@ == note_all(seen, qs.take(i as int)),
                    pairs@.len() == i,
                    forall|k: int|
                        0 <= k < i ==> #[trigger] pairs@[k] == (
                            number_of(ids@, sites@[k].0),
                            sites@[k].1,
                        ),
                    forall|k: int| 0 <= k < i ==> ids@.contains(#[trigger] sites@[k].0),
            {
                let (q, p) = sites[i];
                let ghost before = ids@;
                let ghost old_pairs = pairs@;
                proof {
                    assert(qs.take(i + 1).drop_last() =~= qs.take(i as int));
                    lemma_note_all_distinct(seen, qs.take(i + 1));
                }
                let id: usize = ids.intern(q);
                pairs.push((id, p));
                proof {
                    assert(before.is_prefix_of(ids@));
                    assert forall|k: int| 0 <= k < i implies ids@.contains(#[trigger] sites@[k].0)
                        && number_of(ids@, sites@[k].0) == number_of(before, sites@[k].0) by {
                        lemma_number_stable(before, ids@, sites@[k].0);
                    }
                    assert forall|k: int| 0 <= k < i + 1 implies #[trigger] pairs@[k] == (
                        number_of(ids@, sites@[k].0),
                        sites@[k].1,
                    ) by {
                        if k < i {
                            assert(pairs@[k] == old_pairs[k]);
                            assert(ids@.contains(sites@[k].0));
                        }
                    }
                }
            }
            proof {
                assert(qs.take(qs.len() as int) =~= qs);
                let goal = Seq::new(
                    sites@.len(),
                    |i: int| (number_of(ids@, sites@[i].0), sites@[i].1),
                );
                assert(pairs@ =~= goal);
            }
            PhysicalGate::MPP(
                PauliAxis { sign: pauli.sign, pauli_string: PauliString::new(pairs) },
            )
        },
        PhysicalGate::Repeat(n, body) => {
            let flat = flatten_gates(body, ids);
            PhysicalGate::Repeat(*n, flat)
        },
    }
}

/// Lower gates to their flat-qubit form.
pub fn flatten_gates<Q: PauliStringIndex>(gates: &Vec<PhysicalGate<Q>>, ids: &mut Interner<Q>) -> (r:
    Vec<PhysicalGate<usize>>)
    requires
        old(ids)@.no_duplicates(),
    ensures
        final(ids)@ == note_all(old(ids)@, all_qubits(gate_models(gates@))),
        gate_models(r@) == flat_gates(gate_models(gates@), final(ids)@),
        final(ids)@.no_duplicates(),
    decreases *gates,
{
    let ghost seen = ids@;
    let ghost s = gate_models(gates@);
    let mut flat: Vec<PhysicalGate<usize>> = Vec::new();
    proof {
        lemma_gate_models(gates@);
        assert(s.take(0) =~= Seq::empty());
    }
    for i in 0..gates.len()
        invariant
            s == gate_models(gates@),
            s.len() == gates@.len(),
            forall|i: int| 0 <= i < gates@.len() ==> #[trigger] s[i] == gate_model(gates@[i]),
            seen.no_duplicates(),
            ids@ == note_all(seen, all_qubits(s.take(i as int))),
            ids@.no_duplicates(),
            gate_models(flat@) == flat_gates(s.take(i as int), ids@),
    {
        let ghost before = ids@;
        proof {
            assert(s[i as int] == gate_model(gates@[i as int]));
            assert(s.take(i + 1).drop_last() =~= s.take(i as int));
            assert(s.take(i + 1).last() == s[i as int]);
            lemma_note_all_add(seen, all_qubits(s.take(i as int)), gate_qubits(s[i as int]));
            lemma_note_all_prefix(seen, all_qubits(s.take(i as int)));
        }
        let g = flatten_gate(&gates[i], ids);
        proof {
            lemma_note_all_prefix(before, gate_qubits(s[i as int]));
            lemma_flat_gates_stable(s.take(i as int), before, ids@);
            lemma_gate_models_push(flat@, g);
        }
        flat.push(g);
    }
    assert(s.take(s.len() as int) =~= s);
    flat
}

impl<Q: PauliStringIndex> PhysicalCircuit<Q> {
    /// Number every distinct qubit contiguously from 0, in order of first
    /// appearance. Gate order, measurement-record offsets, and detector /
    /// observable indices are untouched.
    pub fn flatten(&self) -> (r: PhysicalCircuit<usize>)
        ensures
            r@ == flattened(self@),
    {
        let mut ids: Interner<Q> = Interner::new();
        let gates = flatten_gates(&self.gates, &mut ids);
        PhysicalCircuit { gates }
    }

    /// [`PhysicalCircuit::flatten`], consuming the circuit.
    pub fn into_flat(self) -> (r: PhysicalCircuit<usize>)
        ensures
            r@ == flattened(self@),
    {
        self.flatten()
    }
}

/// The sites that carry a Pauli other than the identity, in order.
pub open spec fn active_sites<Q>(sites: Seq<(Q, Pauli)>) -> Seq<(Q, Pauli)>
    decreases sites.len(),
{
    if sites.len() == 0 {
        Seq::empty()
    } else if sites.last().1 is I {
        active_sites(sites.drop_last())
    } else {
        active_sites(sites.drop_last()).push(sites.last())
    }
}

/// The non-identity sites of a check.
pub fn sites<Q: PauliStringIndex>(check: &PauliAxis<Q>) -> (r: Vec<(Q, Pauli)>)
    ensures
        r@ == active_sites(check@.sites),
{
    let all = check.pauli_string.sites();
    let mut r: Vec<(Q, Pauli)> = Vec::new();
    assert(all@.take(0) =~= Seq::empty());
    for i in 0..all.len()
        invariant
            r@ == active_sites(all@.take(i as int)),
    {
        assert(all@.take(i + 1).drop_last() =~= all@.take(i as int));
        let (q, p) = all[i];
        if p != Pauli::I {
            r.push((q, p));
        }
    }
    assert(all@.take(all@.len() as int) =~= all@);
    r
}

/// The largest of the numbers, if there is any.
pub open spec fn highest(qs: Seq<usize>) -> Option<usize>
    decreases qs.len(),
{
    if qs.len() == 0 {
        None
    } else {
        match highest(qs.drop_last()) {
            Some(m) => Some(
                if m < qs.last() {
                    qs.last()
                } else {
                    m
                },
            ),
            None => Some(qs.last()),
        }
    }
}

/// The larger of two optional numbers.
pub open spec fn higher(a: Option<usize>, b: Option<usize>) -> Option<usize> {
    match (a, b) {
        (Some(x), Some(y)) => Some(
            if x < y {
                y
            } else {
                x
            },
        ),
        (None, y) => y,
        (x, None) => x,
    }
}

pub proof fn lemma_highest_add(a: Seq<usize>, b: Seq<usize>)
    ensures
        highest(a + b) == higher(highest(a), highest(b)),
    decreases b.len(),
{
    if b.len() == 0 {
        assert(a + b =~= a);
    } else {
        assert((a + b).drop_last() =~= a + b.drop_last());
        lemma_highest_add(a, b.drop_last());
    }
}

/// The largest number is among the numbers, and none is larger.
pub proof fn lemma_highest(qs: Seq<usize>)
    ensures
        highest(qs) is None <==> qs.len() == 0,
        highest(qs) matches Some(m) ==> qs.contains(m) && forall|i: int|
            0 <= i < qs.len() ==> #[trigger] qs[i] <= m,
    decreases qs.len(),
{
    if qs.len() > 0 {
        lemma_highest(qs.drop_last());
        assert(qs[qs.len() - 1] == qs.last());
        if let Some(m) = highest(qs.drop_last()) {
            let i = qs.drop_last().index_of(m);
            assert(qs[i] == m);
            assert forall|i: int| 0 <= i < qs.len() implies #[trigger] qs[i] <= highest(qs)->0 by {
                if i < qs.len() - 1 {
                    assert(qs.drop_last()[i] == qs[i]);
                }
            }
        }
    }
}

fn bump(max: Option<usize>, q: usize) -> (r: Option<usize>)
    ensures
        r == higher(max, Some(q)),
{
    match max {
        Some(m) => if m < q {
            Some(q)
        } else {
            Some(m)
        },
        None => Some(q),
    }
}

/// The largest flat qubit id any gate touches (in repeated bodies too), or
/// `None` for a qubit-free circuit. The ancilla pool starts one past this.
pub fn max_qubit(gates: &Vec<PhysicalGate<usize>>) -> (r: Option<usize>)
    ensures
        r == highest(all_qubits(gate_models(gates@))),
    decreases *gates,
{
    let ghost s = gate_models(gates@);
    proof {
        lemma_gate_models(gates@);
        assert(s.take(0) =~= Seq::empty());
    }
    let mut max: Option<usize> = None;
    for i in 0..gates.len()
        invariant
            s == gate_models(gates@),
            s.len() == gates@.len(),
            forall|i: int| 0 <= i < gates@.len() ==> #[trigger] s[i] == gate_model(gates@[i]),
            max == highest(all_qubits(s.take(i as int))),
    {
        let ghost before = max;
        let ghost qs = gate_qubits(s[i as int]);
        proof {
            assert(s[i as int] == gate_model(gates@[i as int]));
            assert(s.take(i + 1).drop_last() =~= s.take(i as int));
            lemma_highest_add(all_qubits(s.take(i as int)), qs);
            assert(highest(Seq::<usize>::empty()) is None);
        }
        match &gates[i] {
            PhysicalGate::Reset(_, q) => {
                assert(qs.drop_last() =~= Seq::empty());
                max = bump(max, *q);
            },
            PhysicalGate::Measure(_, q, _) => {
                assert(qs.drop_last() =~= Seq::empty());
                max = bump(max, *q);
            },
            PhysicalGate::XCorrection(_, q) => {
                assert(qs.drop_last() =~= Seq::empty());
                max = bump(max, *q);
            },
            PhysicalGate::Controlled(_, c, t) => {
                proof {
                    assert(qs.drop_last() =~= seq![*c]);
                    assert(seq![*c].drop_last() =~= Seq::empty());
                    assert(highest(seq![*c]) == Some(*c));
                }
                max = bump(max, *c);
                max = bump(max, *t);
            },
            PhysicalGate::MPP(p) => {
                let all = p.pauli_string.sites();
                assert(qs.take(0) =~= Seq::empty());
                for k in 0..all.len()
                    invariant
                        qs == Seq::new(all@.len(), |i: int| all@[i].0),
                        max == higher(before, highest(qs.take(k as int))),
                {
                    assert(qs.take(k + 1).drop_last() =~= qs.take(k as int));
                    max = bump(max, all[k].0);
                }
                assert(qs.take(qs.len() as int) =~= qs);
            },
            PhysicalGate::Repeat(_, body) => {
                if let Some(m) = max_qubit(body) {
                    max = bump(max, m);
                }
            },
            _ => {},
        }
    }
    assert(s.take(s.len() as int) =~= s);
    max
}

} // verus!
