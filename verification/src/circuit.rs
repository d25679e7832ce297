//! Quantum circuits over a small gate set, and their dependency graph.

use vstd::prelude::*;
use vstd::string::*;

use crate::keyed::{sorted_insert, KeyedMap, OrderedKey};
#[allow(unused_imports)]
use crate::keyed::increasing;
use crate::text::Text;

verus! {

/// A logical qubit of a circuit.
#[derive(Clone, Copy, PartialEq, Eq, Hash, Debug, Structural)]
pub struct Qubit(pub usize);

impl OrderedKey for Qubit {
    open spec fn key(self) -> (int, int) {
        (0, self.0 as int)
    }

    proof fn key_injective(a: Self, b: Self) {
    }

    fn precedes(&self, other: &Self) -> (r: bool) {
        self.0 < other.0
    }

    fn same(&self, other: &Self) -> (r: bool) {
        self.0 == other.0
    }
}

/// The position of a gate in its circuit.
#[derive(Clone, Copy, PartialEq, Eq, Hash, Debug, Structural)]
pub struct GateId(pub usize);

#[derive(Clone, Copy, Debug, PartialEq, Eq)]
pub enum Gate<A: Copy> {
    H(A),
    CNOT { control: A, target: A },
    X(A),
    Y(A),
    Z(A),
    CCZ { control1: A, control2: A, target: A },
    S(A),
    Sdg(A),
    T(A),
    Tdg(A),
}

impl<A: Copy> Gate<A> {
    /// The qubits it acts on, in order of its operands.
    pub open spec fn operands(self) -> Seq<A> {
        match self {
            Gate::H(q) => seq![q],
            Gate::X(q) => seq![q],
            Gate::Y(q) => seq![q],
            Gate::Z(q) => seq![q],
            Gate::T(q) => seq![q],
            Gate::Tdg(q) => seq![q],
            Gate::S(q) => seq![q],
            Gate::Sdg(q) => seq![q],
            Gate::CNOT { control, target } => seq![control, target],
            Gate::CCZ { control1, control2, target } => seq![control1, control2, target],
        }
    }

    pub fn qubits(&self) -> (r: Vec<A>)
        ensures
            r@ == self.operands(),
    {
        let r: Vec<A> = match self {
            Gate::H(q) => vec![*q],
            Gate::X(q) => vec![*q],
            Gate::Y(q) => vec![*q],
            Gate::Z(q) => vec![*q],
            Gate::T(q) => vec![*q],
            Gate::Tdg(q) => vec![*q],
            Gate::S(q) => vec![*q],
            Gate::Sdg(q) => vec![*q],
            Gate::CNOT { control, target } => vec![*control, *target],
            Gate::CCZ { control1, control2, target } => vec![*control1, *control2, *target],
        };
        assert(r@ =~= self.operands());
        r
    }

    /// The same gate with every operand sent through `f`.
    pub open spec fn mapped<B: Copy>(self, f: spec_fn(A) -> B) -> Gate<B> {
        match self {
            Gate::H(q) => Gate::H(f(q)),
            Gate::X(q) => Gate::X(f(q)),
            Gate::Y(q) => Gate::Y(f(q)),
            Gate::Z(q) => Gate::Z(f(q)),
            Gate::T(q) => Gate::T(f(q)),
            Gate::Tdg(q) => Gate::Tdg(f(q)),
            Gate::S(q) => Gate::S(f(q)),
            Gate::Sdg(q) => Gate::Sdg(f(q)),
            Gate::CNOT { control, target } => Gate::CNOT { control: f(control), target: f(target) },
            Gate::CCZ { control1, control2, target } => Gate::CCZ {
                control1: f(control1),
                control2: f(control2),
                target: f(target),
            },
        }
    }
}

impl<A: Copy + Text> Text for Gate<A> {
    open spec fn text(&self) -> Seq<char> {
        match *self {
            Gate::H(q) => "H("@ + q.text() + ")"@,
            Gate::X(q) => "X("@ + q.text() + ")"@,
            Gate::Y(q) => "Y("@ + q.text() + ")"@,
            Gate::Z(q) => "Z("@ + q.text() + ")"@,
            Gate::S(q) => "S("@ + q.text() + ")"@,
            Gate::Sdg(q) => "Sdg("@ + q.text() + ")"@,
            Gate::T(q) => "T("@ + q.text() + ")"@,
            Gate::Tdg(q) => "Tdg("@ + q.text() + ")"@,
            Gate::CNOT { control, target } => "CNOT("@ + control.text() + ", "@ + target.text()
                + ")"@,
            Gate::CCZ { control1, control2, target } => "CCZ("@ + control1.text() + ", "@
                + control2.text() + ", "@ + target.text() + ")"@,
        }
    }

    fn write_text(&self, out: &mut String) {
        let ghost before = out@;
        let (name, q) = match self {
            Gate::H(q) => ("H(", q),
            Gate::X(q) => ("X(", q),
            Gate::Y(q) => ("Y(", q),
            Gate::Z(q) => ("Z(", q),
            Gate::S(q) => ("S(", q),
            Gate::Sdg(q) => ("Sdg(", q),
            Gate::T(q) => ("T(", q),
            Gate::Tdg(q) => ("Tdg(", q),
            Gate::CNOT { control, target } => {
                out.append("CNOT(");
                control.write_text(out);
                (", ", target)
            },
            Gate::CCZ { control1, control2, target } => {
                out.append("CCZ(");
                control1.write_text(out);
                out.append(", ");
                control2.write_text(out);
                (", ", target)
            },
        };
        out.append(name);
        q.write_text(out);
        out.append(")");
        assert(out@ =~= before + self.text());
    }
}

/// `r` is `gate` with every operand sent through `f`.
pub open spec fn gate_relabelled<T: Copy, R: Copy, F: Fn(T) -> R>(
    gate: Gate<T>,
    f: F,
    r: Gate<R>,
) -> bool {
    &&& r.operands().len() == gate.operands().len()
    &&& forall|i: int|
        0 <= i < gate.operands().len() ==> call_ensures(
            f,
            (gate.operands()[i],),
            #[trigger] r.operands()[i],
        )
    &&& match gate {
        Gate::H(_) => r is H,
        Gate::X(_) => r is X,
        Gate::Y(_) => r is Y,
        Gate::Z(_) => r is Z,
        Gate::T(_) => r is T,
        Gate::Tdg(_) => r is Tdg,
        Gate::S(_) => r is S,
        Gate::Sdg(_) => r is Sdg,
        Gate::CNOT { .. } => r is CNOT,
        Gate::CCZ { .. } => r is CCZ,
    }
}

/// Relabel every operand of `gate` by `f`.
pub fn shift_register<T: Copy, R: Copy>(gate: &Gate<T>, f: impl Fn(T) -> R) -> (r: Gate<R>)
    requires
        forall|i: int|
            0 <= i < gate.operands().len() ==> call_requires(f, (#[trigger] gate.operands()[i],)),
    ensures
        gate_relabelled(*gate, f, r),
{
    assert(gate.operands().len() > 0);
    let ghost first = gate.operands()[0];
    match gate {
        Gate::H(q) => Gate::H(f(*q)),
        Gate::X(q) => Gate::X(f(*q)),
        Gate::Y(q) => Gate::Y(f(*q)),
        Gate::Z(q) => Gate::Z(f(*q)),
        Gate::T(q) => Gate::T(f(*q)),
        Gate::S(q) => Gate::S(f(*q)),
        Gate::Sdg(q) => Gate::Sdg(f(*q)),
        Gate::Tdg(q) => Gate::Tdg(f(*q)),
        Gate::CNOT { control, target } => {
            assert(gate.operands()[1] == *target);
            Gate::CNOT { control: f(*control), target: f(*target) }
        },
        Gate::CCZ { control1, control2, target } => {
            assert(gate.operands()[1] == *control2);
            assert(gate.operands()[2] == *target);
            Gate::CCZ { control1: f(*control1), control2: f(*control2), target: f(*target) }
        },
    }
}

/// Relabel every operand of `gate` by looking it up in `m`.
pub fn shift_register_hashmap<T: OrderedKey, R: Copy>(gate: &Gate<T>, m: &KeyedMap<T, R>) -> (r:
    Gate<R>)
    requires
        forall|i: int|
            0 <= i < gate.operands().len() ==> m@.dom().contains(#[trigger] gate.operands()[i]),
    ensures
        r == gate.mapped(|q: T| m@[q]),
{
    let look = |q: T| -> (v: R)
        requires
            m@.dom().contains(q),
        ensures
            v == m@[q],
        {
            *m.get(&q).unwrap()
        };
    let r = shift_register(gate, look);
    proof {
        assert(gate.operands()[0] == gate.operands()[0]);
        assert(r.operands()[0] == m@[gate.operands()[0]]);
        if gate.operands().len() > 1 {
            assert(r.operands()[1] == m@[gate.operands()[1]]);
        }
        if gate.operands().len() > 2 {
            assert(r.operands()[2] == m@[gate.operands()[2]]);
        }
    }
    r
}

/// A circuit: its gates in program order, and the qubits they act on, in
/// increasing order.
#[derive(Debug)]
pub struct Circuit {
    pub gates: Vec<Gate<Qubit>>,
    pub qubits: Vec<Qubit>,
    pub num_qubits: usize,
}

/// Some gate of `gates` acts on `q`.
pub open spec fn acts_on(gates: Seq<Gate<Qubit>>, q: Qubit) -> bool {
    exists|i: int| 0 <= i < gates.len() && (#[trigger] gates[i]).operands().contains(q)
}

impl Circuit {
    /// The listed qubits increase, and are those that the gates act on.
    pub open spec fn wf(self) -> bool {
        &&& increasing(self.qubits@)
        &&& forall|q: Qubit| self.qubits@.contains(q) <==> #[trigger] acts_on(self.gates@, q)
    }

    pub fn new(num_qubits: usize) -> (r: Self)
        ensures
            r.wf(),
            r.gates@ == Seq::<Gate<Qubit>>::empty(),
            r.qubits@ == Seq::<Qubit>::empty(),
            r.num_qubits == num_qubits,
    {
        Circuit { gates: Vec::new(), qubits: Vec::new(), num_qubits }
    }

    /// Append a gate, and list the qubits it acts on.
    pub fn apply(&mut self, gate: Gate<Qubit>)
        requires
            increasing(old(self).qubits@),
        ensures
            final(self).gates@ == old(self).gates@.push(gate),
            increasing(final(self).qubits@),
            forall|q: Qubit| #[trigger]
                final(self).qubits@.contains(q) <==> (old(self).qubits@.contains(q)
                    || gate.operands().contains(q)),
            final(self).num_qubits == old(self).num_qubits,
            old(self).wf() ==> final(self).wf(),
    {
        let qs = gate.qubits();
        let ghost before = *self;
        for i in 0..qs.len()
            invariant
                qs@ == gate.operands(),
                increasing(self.qubits@),
                self.gates@ == before.gates@,
                self.num_qubits == before.num_qubits,
                forall|q: Qubit| #[trigger]
                    self.qubits@.contains(q) <==> (before.qubits@.contains(q) || qs@.take(
                        i as int,
                    ).contains(q)),
        {
            let added = sorted_insert(&mut self.qubits, qs[i]);
            proof {
                lemma_take_contains(qs@, i as int);
            }
        }
        assert(qs@.take(qs@.len() as int) =~= qs@);
        self.gates.push(gate);
        proof {
            if before.wf() {
                let after = self.gates@;
                assert forall|q: Qubit| self.qubits@.contains(q) <==> #[trigger] acts_on(after, q) by {
                    lemma_acts_on_push(before.gates@, gate, q);
                }
            }
        }
    }
}

/// What a longer prefix holds.
pub proof fn lemma_take_contains<T>(s: Seq<T>, i: int)
    requires
        0 <= i < s.len(),
    ensures
        forall|q: T| #[trigger]
            s.take(i + 1).contains(q) <==> (s.take(i).contains(q) || q == s[i]),
{
    let t = s.take(i + 1);
    assert forall|q: T| #[trigger] t.contains(q) <==> (s.take(i).contains(q) || q == s[i]) by {
        assert(t[i] == s[i]);
        if s.take(i).contains(q) {
            assert(t[s.take(i).index_of(q)] == q);
        }
        if t.contains(q) && q != s[i] {
            assert(s.take(i)[t.index_of(q)] == q);
        }
    }
}

/// A longer circuit acts on the qubits of the new gate too.
pub proof fn lemma_acts_on_push(gates: Seq<Gate<Qubit>>, gate: Gate<Qubit>, q: Qubit)
    ensures
        acts_on(gates.push(gate), q) <==> (acts_on(gates, q) || gate.operands().contains(q)),
{
    let after = gates.push(gate);
    if acts_on(gates, q) {
        let i = choose|i: int|
            0 <= i < gates.len() && (#[trigger] gates[i]).operands().contains(q);
        assert(after[i].operands().contains(q));
    }
    if gate.operands().contains(q) {
        assert(after[gates.len() as int].operands().contains(q));
    }
    if acts_on(after, q) {
        let i = choose|i: int|
            0 <= i < after.len() && (#[trigger] after[i]).operands().contains(q);
        if i < gates.len() {
            assert(gates[i].operands().contains(q));
        }
    }
}

impl Clone for Circuit {
    fn clone(&self) -> (r: Self)
        ensures
            r.gates@ == self.gates@,
            r.qubits@ == self.qubits@,
            r.num_qubits == self.num_qubits,
    {
        let mut gates: Vec<Gate<Qubit>> = Vec::new();
        for i in 0..self.gates.len()
            invariant
                gates@ == self.gates@.take(i as int),
        {
            gates.push(self.gates[i]);
            assert(gates@ =~= self.gates@.take(i + 1));
        }
        assert(gates@ =~= self.gates@);
        let qubits = self.qubits.clone();
        assert(qubits@ =~= self.qubits@);
        Circuit { gates, qubits, num_qubits: self.num_qubits }
    }
}

/// How gates depend on each other: each one on those that
/// last acted on its qubits.
pub struct Dag {
    /// The number of gates.
    pub n: usize,
    pub successors: Vec<Vec<GateId>>,
    /// `in_degree[i]` is the number of predecessors of gate `i`.
    pub in_degree: Vec<usize>,
}

/// The last of the first `i` gates that acts on `q`.
pub open spec fn last_before(gates: Seq<Gate<Qubit>>, i: int, q: Qubit) -> Option<int>
    decreases i,
{
    if i <= 0 {
        None
    } else if gates[i - 1].operands().contains(q) {
        Some(i - 1)
    } else {
        last_before(gates, i - 1, q)
    }
}

/// Which gate operand `k` of gate `i` waits for. A gate that names a qubit
/// twice waits for itself.
pub open spec fn operand_predecessor(gates: Seq<Gate<Qubit>>, i: int, k: int) -> Option<int> {
    let q = gates[i].operands()[k];
    if gates[i].operands().take(k).contains(q) {
        Some(i)
    } else {
        last_before(gates, i, q)
    }
}

/// The distinct gates that the first `k` operands of gate `i` wait for.
pub open spec fn predecessors_upto(gates: Seq<Gate<Qubit>>, i: int, k: int) -> Seq<int>
    decreases k,
{
    if k <= 0 {
        Seq::empty()
    } else {
        let before = predecessors_upto(gates, i, k - 1);
        match operand_predecessor(gates, i, k - 1) {
            Some(p) => if before.contains(p) {
                before
            } else {
                before.push(p)
            },
            None => before,
        }
    }
}

/// The distinct gates that gate `i` waits for.
pub open spec fn predecessors(gates: Seq<Gate<Qubit>>, i: int) -> Seq<int> {
    predecessors_upto(gates, i, gates[i].operands().len() as int)
}

/// The gates among the first `i` that wait for gate `g`, in program order.
pub open spec fn successors_upto(gates: Seq<Gate<Qubit>>, g: int, i: int) -> Seq<int>
    decreases i,
{
    if i <= 0 {
        Seq::empty()
    } else if predecessors(gates, i - 1).contains(g) {
        successors_upto(gates, g, i - 1).push(i - 1)
    } else {
        successors_upto(gates, g, i - 1)
    }
}

/// The positions that a list of gate ids stands for.
pub open spec fn gate_positions(ids: Seq<GateId>) -> Seq<int> {
    ids.map_values(|id: GateId| id.0 as int)
}

proof fn lemma_last_before(gates: Seq<Gate<Qubit>>, i: int, q: Qubit)
    requires
        0 <= i <= gates.len(),
    ensures
        last_before(gates, i, q) matches Some(p) ==> 0 <= p < i && gates[p].operands().contains(q),
    decreases i,
{
    if i > 0 {
        lemma_last_before(gates, i - 1, q);
    }
}

/// The predecessors are gates no later than `i`, each listed once.
pub proof fn lemma_predecessors(gates: Seq<Gate<Qubit>>, i: int, k: int)
    requires
        0 <= i < gates.len(),
        0 <= k <= gates[i].operands().len(),
    ensures
        forall|j: int|
            0 <= j < predecessors_upto(gates, i, k).len() ==> 0 <= (
            #[trigger] predecessors_upto(gates, i, k)[j]) <= i,
        predecessors_upto(gates, i, k).no_duplicates(),
        predecessors_upto(gates, i, k).len() <= k,
    decreases k,
{
    if k > 0 {
        lemma_predecessors(gates, i, k - 1);
        lemma_last_before(gates, i, gates[i].operands()[k - 1]);
    }
}

/// Where the operands of gate `i` are distinct, all its predecessors come before it.
pub proof fn lemma_predecessors_earlier(gates: Seq<Gate<Qubit>>, i: int, k: int)
    requires
        0 <= i < gates.len(),
        0 <= k <= gates[i].operands().len(),
        gates[i].operands().no_duplicates(),
    ensures
        forall|j: int|
            0 <= j < predecessors_upto(gates, i, k).len() ==> 0 <= (
            #[trigger] predecessors_upto(gates, i, k)[j]) < i,
    decreases k,
{
    if k > 0 {
        lemma_predecessors_earlier(gates, i, k - 1);
        let ops = gates[i].operands();
        lemma_last_before(gates, i, ops[k - 1]);
        if ops.take(k - 1).contains(ops[k - 1]) {
            let j = ops.take(k - 1).index_of(ops[k - 1]);
            assert(ops.take(k - 1)[j] == ops[j]);
            assert(j != k - 1 && ops[j] == ops[k - 1]);
        }
        assert(operand_predecessor(gates, i, k - 1) == last_before(gates, i, ops[k - 1]));
        let before = predecessors_upto(gates, i, k - 1);
        let now = predecessors_upto(gates, i, k);
        assert forall|j: int| 0 <= j < now.len() implies 0 <= (#[trigger] now[j]) < i by {
            if j < before.len() {
                assert(now[j] == before[j]);
            }
        }
    }
}

impl Circuit {
    /// The dependency graph: which gates wait for which.
    pub fn to_dag(&self) -> (dag: Dag)
        ensures
            dag.n == self.gates@.len(),
            dag.successors@.len() == dag.n,
            dag.in_degree@.len() == dag.n,
            forall|i: int|
                0 <= i < dag.n ==> #[trigger] dag.in_degree@[i] == predecessors(
                    self.gates@,
                    i,
                ).len(),
            forall|g: int|
                0 <= g < dag.n ==> gate_positions((#[trigger] dag.successors@[g])@)
                    == successors_upto(self.gates@, g, dag.n as int),
    {
        let n: usize = self.gates.len();
        let ghost gs = self.gates@;
        let mut successors: Vec<Vec<GateId>> = Vec::new();
        let mut in_degree: Vec<usize> = Vec::new();
        for i in 0..n
            invariant
                successors@.len() == i,
                in_degree@.len() == i,
                forall|g: int| 0 <= g < i ==> (#[trigger] successors@[g])@ == Seq::<GateId>::empty(),
        {
            successors.push(Vec::new());
            in_degree.push(0);
        }
        let mut last_on_qubit: KeyedMap<Qubit, GateId> = KeyedMap::new();
        proof {
            assert forall|g: int| 0 <= g < n implies gate_positions((#[trigger] successors@[g])@)
                == successors_upto(gs, g, 0) by {
                assert(gate_positions(successors@[g]@) =~= Seq::empty());
            }
        }
        for i in 0..n
            invariant
                n == self.gates@.len(),
                gs == self.gates@,
                successors@.len() == n,
                in_degree@.len() == n,
                forall|j: int|
                    0 <= j < i ==> #[trigger] in_degree@[j] == predecessors(gs, j).len(),
                forall|g: int|
                    0 <= g < n ==> gate_positions((#[trigger] successors@[g])@) == successors_upto(
                        gs,
                        g,
                        i as int,
                    ),
                forall|q: Qubit| #[trigger]
                    last_on_qubit@.dom().contains(q) <==> last_before(gs, i as int, q) is Some,
                forall|q: Qubit|
                    last_on_qubit@.dom().contains(q) ==> Some((#[trigger] last_on_qubit@[q]).0 as int)
                        == last_before(gs, i as int, q),
        {
            let qs = self.gates[i].qubits();
            let mut seen: Vec<GateId> = Vec::new();
            let ghost succ0 = successors@;
            proof {
                assert(gate_positions(seen@) =~= predecessors_upto(gs, i as int, 0));
                assert(qs@.take(0) =~= Seq::empty());
                assert forall|g: int| 0 <= g < n implies gate_positions(
                    (#[trigger] successors@[g])@,
                ) == successors_upto(gs, g, i as int) by {
                }
            }
            for k in 0..qs.len()
                invariant
                    i < n,
                    n == gs.len(),
                    qs@ == gs[i as int].operands(),
                    successors@.len() == n,
                    in_degree@.len() == n,
                    forall|j: int|
                        0 <= j < i ==> #[trigger] in_degree@[j] == predecessors(gs, j).len(),
                    gate_positions(seen@) == predecessors_upto(gs, i as int, k as int),
                    forall|g: int|
                        0 <= g < n ==> gate_positions((#[trigger] successors@[g])@) == (
                        if predecessors_upto(gs, i as int, k as int).contains(g) {
                            successors_upto(gs, g, i as int).push(i as int)
                        } else {
                            successors_upto(gs, g, i as int)
                        }),
                    forall|q: Qubit| #[trigger]
                        last_on_qubit@.dom().contains(q) <==> (last_before(gs, i as int, q) is Some
                            || qs@.take(k as int).contains(q)),
                    forall|q: Qubit|
                        last_on_qubit@.dom().contains(q) ==> Some(
                            (#[trigger] last_on_qubit@[q]).0 as int,
                        ) == if qs@.take(k as int).contains(q) {
                            Some(i as int)
                        } else {
                            last_before(gs, i as int, q)
                        },
            {
                let q = qs[k];
                let ghost before = predecessors_upto(gs, i as int, k as int);
                let ghost succ1 = successors@;
                proof {
                    lemma_take_contains(qs@, k as int);
                    lemma_last_before(gs, i as int, q);
                }
                if let Some(pred) = last_on_qubit.get(&q) {
                    let pred: GateId = *pred;
                    assert(operand_predecessor(gs, i as int, k as int) == Some(pred.0 as int));
                    let mut known = false;
                    for j in 0..seen.len()
                        invariant
                            known == seen@.take(j as int).contains(pred),
                    {
                        if seen[j].0 == pred.0 {
                            known = true;
                        }
                        proof {
                            lemma_take_contains(seen@, j as int);
                            assert(seen@[j as int] == pred <==> seen@[j as int].0 == pred.0);
                        }
                    }
                    assert(seen@.take(seen@.len() as int) =~= seen@);
                    proof {
                        assert(seen@.contains(pred) <==> before.contains(pred.0 as int)) by {
                            if seen@.contains(pred) {
                                let j = seen@.index_of(pred);
                                assert(gate_positions(seen@)[j] == pred.0 as int);
                            }
                            if before.contains(pred.0 as int) {
                                let j = before.index_of(pred.0 as int);
                                assert(gate_positions(seen@)[j] == seen@[j].0 as int);
                                assert(seen@[j] == pred);
                            }
                        }
                    }
                    if !known {
                        let ghost old_list = successors@[pred.0 as int]@;
                        successors[pred.0].push(GateId(i));
                        seen.push(pred);
                        proof {
                            assert(gate_positions(seen@) =~= before.push(pred.0 as int));
                            assert(gate_positions(old_list.push(GateId(i))) =~= gate_positions(
                                old_list,
                            ).push(i as int));
                            let now = before.push(pred.0 as int);
                            assert forall|g: int| 0 <= g < n implies gate_positions(
                                (#[trigger] successors@[g])@,
                            ) == (if now.contains(g) {
                                successors_upto(gs, g, i as int).push(i as int)
                            } else {
                                successors_upto(gs, g, i as int)
                            }) by {
                                if g == pred.0 {
                                    assert(now[before.len() as int] == g);
                                } else {
                                    assert(successors@[g] == succ1[g]);
                                    assert(now.contains(g) <==> before.contains(g)) by {
                                        if before.contains(g) {
                                            assert(now[before.index_of(g)] == g);
                                        }
                                        if now.contains(g) {
                                            assert(before[now.index_of(g)] == g);
                                        }
                                    }
                                }
                            }
                        }
                    }
                } else {
                    assert(operand_predecessor(gs, i as int, k as int) is None);
                }
                last_on_qubit.insert(q, GateId(i));
            }
            in_degree[i] = seen.len();
            assert(qs@.take(qs@.len() as int) =~= qs@);
            assert(gate_positions(seen@).len() == seen@.len());
        }
        Dag { n, successors, in_degree }
    }
}

} // verus!
