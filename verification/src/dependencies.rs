//! Laws of the dependency graph of a circuit: which gates wait for which.

use vstd::prelude::*;

#[allow(unused_imports)]
use crate::circuit::{
    last_before, lemma_predecessors, operand_predecessor, predecessors, predecessors_upto,
    successors_upto, Gate, Qubit,
};

verus! {

/// Gate `g` is the last before gate `i` that acts on `q`, and gate `i` acts on it too.
pub open spec fn hands_over(gates: Seq<Gate<Qubit>>, g: int, i: int, q: Qubit) -> bool {
    &&& 0 <= g < i
    &&& gates[g].operands().contains(q)
    &&& gates[i].operands().contains(q)
    &&& forall|k: int| g < k < i ==> !(#[trigger] gates[k]).operands().contains(q)
}

proof fn lemma_last(gates: Seq<Gate<Qubit>>, i: int, q: Qubit)
    requires
        0 <= i <= gates.len(),
    ensures
        match last_before(gates, i, q) {
            Some(g) => 0 <= g < i && gates[g].operands().contains(q) && forall|k: int|
                g < k < i ==> !(#[trigger] gates[k]).operands().contains(q),
            None => forall|k: int| 0 <= k < i ==> !(#[trigger] gates[k]).operands().contains(q),
        },
    decreases i,
{
    if i > 0 {
        lemma_last(gates, i - 1, q);
    }
}

proof fn lemma_waits(gates: Seq<Gate<Qubit>>, i: int, k: int, g: int)
    requires
        0 <= i < gates.len(),
        0 <= k <= gates[i].operands().len(),
        gates[i].operands().no_duplicates(),
    ensures
        predecessors_upto(gates, i, k).contains(g) <==> exists|j: int|
            0 <= j < k && hands_over(gates, g, i, #[trigger] gates[i].operands()[j]),
    decreases k,
{
    if k > 0 {
        let ops = gates[i].operands();
        let q = ops[k - 1];
        lemma_waits(gates, i, k - 1, g);
        lemma_last(gates, i, q);
        assert(!ops.take(k - 1).contains(q)) by {
            if ops.take(k - 1).contains(q) {
                let j = ops.take(k - 1).index_of(q);
                assert(ops[j] == q);
            }
        }
        let before = predecessors_upto(gates, i, k - 1);
        let now = predecessors_upto(gates, i, k);
        assert(operand_predecessor(gates, i, k - 1) == last_before(gates, i, q));
        assert(ops.contains(q));
        assert(hands_over(gates, g, i, q) <==> last_before(gates, i, q) == Some(g)) by {
            match last_before(gates, i, q) {
                Some(p) => {
                    if hands_over(gates, g, i, q) && p != g {
                        if p < g {
                            assert(!gates[g].operands().contains(q));
                        } else {
                            assert(!gates[p].operands().contains(q));
                        }
                    }
                },
                None => {
                    if hands_over(gates, g, i, q) {
                        assert(!gates[g].operands().contains(q));
                    }
                },
            }
        }
        if now.contains(g) {
            let j = now.index_of(g);
            assert(now[j] == g);
            if j < before.len() {
                assert(before[j] == g);
            }
        }
        if before.contains(g) {
            assert(now[before.index_of(g)] == g);
        }
        match last_before(gates, i, q) {
            Some(p) => {
                if !before.contains(p) {
                    assert(now == before.push(p));
                    assert(now[before.len() as int] == p);
                } else {
                    assert(now == before);
                }
                assert(now.contains(p));
            },
            None => {},
        }
    }
}

/// A gate waits for exactly the gates that were the last to act on one of its qubits.
pub proof fn law_gates_wait_for_the_last_on_their_qubits(
    gates: Seq<Gate<Qubit>>,
    g: int,
    i: int,
)
    requires
        0 <= i < gates.len(),
        gates[i].operands().no_duplicates(),
    ensures
        predecessors(gates, i).contains(g) <==> exists|q: Qubit| #[trigger]
            hands_over(gates, g, i, q),
        predecessors(gates, i).no_duplicates(),
{
    let ops = gates[i].operands();
    lemma_waits(gates, i, ops.len() as int, g);
    lemma_predecessors(gates, i, ops.len() as int);
    if exists|q: Qubit| #[trigger] hands_over(gates, g, i, q) {
        let q = choose|q: Qubit| #[trigger] hands_over(gates, g, i, q);
        let j = ops.index_of(q);
        assert(ops[j] == q);
        assert(hands_over(gates, g, i, ops[j]));
    }
}

/// A gate leads on to exactly the gates that wait for it, in the order of the program.
pub proof fn law_gates_lead_to_those_that_wait(gates: Seq<Gate<Qubit>>, g: int, n: int)
    requires
        0 <= n <= gates.len(),
    ensures
        forall|i: int| #[trigger]
            successors_upto(gates, g, n).contains(i) <==> 0 <= i < n && predecessors(
                gates,
                i,
            ).contains(g),
        forall|a: int, b: int|
            0 <= a < b < successors_upto(gates, g, n).len() ==> (#[trigger] successors_upto(
                gates,
                g,
                n,
            )[a]) < (#[trigger] successors_upto(gates, g, n)[b]),
    decreases n,
{
    if n > 0 {
        law_gates_lead_to_those_that_wait(gates, g, n - 1);
        let before = successors_upto(gates, g, n - 1);
        let now = successors_upto(gates, g, n);
        assert forall|i: int| #[trigger] now.contains(i) <==> 0 <= i < n && predecessors(
            gates,
            i,
        ).contains(g) by {
            if now.contains(i) {
                let k = now.index_of(i);
                assert(now[k] == i);
                if k < before.len() {
                    assert(before[k] == i);
                    assert(before.contains(i));
                }
            }
            if before.contains(i) {
                assert(now[before.index_of(i)] == i);
            }
            if i == n - 1 && predecessors(gates, i).contains(g) {
                assert(now[before.len() as int] == i);
            }
        }
        assert forall|a: int, b: int| 0 <= a < b < now.len() implies (#[trigger] now[a]) < (
        #[trigger] now[b]) by {
            if b < before.len() {
                assert(before[a] < before[b]);
            } else if a < before.len() {
                assert(before.contains(before[a]));
            }
        }
    } else {
        assert forall|i: int| !#[trigger] successors_upto(gates, g, n).contains(i) by {}
    }
}

/// From gate `g` a chain of waiting gates leads to gate `i`.
pub open spec fn chained(gates: Seq<Gate<Qubit>>, g: int, i: int) -> bool
    decreases i - g,
{
    g == i || exists|k: int|
        g <= k < i && #[trigger] predecessors(gates, i).contains(k) && chained(gates, g, k)
}

/// Gates that act on one qubit are done in the order of the program: a chain of waiting gates
/// leads from the one to the other.
pub proof fn law_gates_on_one_qubit_are_ordered(
    gates: Seq<Gate<Qubit>>,
    g: int,
    i: int,
    q: Qubit,
)
    requires
        0 <= g < i < gates.len(),
        gates[g].operands().contains(q),
        gates[i].operands().contains(q),
        forall|k: int| 0 <= k < gates.len() ==> (#[trigger] gates[k]).operands().no_duplicates(),
    ensures
        chained(gates, g, i),
    decreases i - g,
{
    lemma_last(gates, i, q);
    match last_before(gates, i, q) {
        Some(k) => {
            assert(hands_over(gates, k, i, q));
            assert(gates[i].operands().no_duplicates());
            law_gates_wait_for_the_last_on_their_qubits(gates, k, i);
            if k < g {
                assert(!gates[g].operands().contains(q));
            }
            if k > g {
                law_gates_on_one_qubit_are_ordered(gates, g, k, q);
            }
            assert(chained(gates, g, k));
        },
        None => {
            assert(!gates[g].operands().contains(q));
        },
    }
}

/// The operands of a gate are the qubits that it is written with: sent through two functions
/// it becomes the same gate exactly if the two agree on its operands, and the operands go
/// through in their order.
pub proof fn law_operands_are_what_a_gate_acts_on<A: Copy, B: Copy>(
    gate: Gate<A>,
    f: spec_fn(A) -> B,
    h: spec_fn(A) -> B,
)
    ensures
        gate.mapped(f) == gate.mapped(h) <==> forall|q: A| #[trigger]
            gate.operands().contains(q) ==> f(q) == h(q),
        gate.mapped(f).operands() == gate.operands().map_values(f),
{
    let ops = gate.operands();
    assert(gate.mapped(f).operands() =~= ops.map_values(f));
    assert(ops.len() >= 1 ==> ops.contains(ops[0]));
    assert(ops.len() >= 2 ==> ops.contains(ops[1]));
    assert(ops.len() >= 3 ==> ops.contains(ops[2]));
    assert forall|q: A| #[trigger] ops.contains(q) && gate.mapped(f) == gate.mapped(
        h,
    ) implies f(q) == h(q) by {
        assert(ops[ops.index_of(q)] == q);
    }
    if forall|q: A| #[trigger] ops.contains(q) ==> f(q) == h(q) {
        assert(gate.mapped(f) == gate.mapped(h));
    }
}

} // verus!
