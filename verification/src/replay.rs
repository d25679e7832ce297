//! Load/store programs do what their subcircuits do, within the processor.

use vstd::prelude::*;

#[allow(unused_imports)]
use crate::circuit::{Circuit, Gate, Qubit};
#[allow(unused_imports)]
use crate::compile::LoadStoreOp;
#[allow(unused_imports)]
use crate::keyed::key_lt;
#[allow(unused_imports)]
use crate::load_store::{
    after_loads, covers_gates, evicted, eviction_order, eviction_rank, gate_steps, held_before,
    held_within, is_eviction_order, is_lowest_free, kept, lemma_enough_to_evict,
    lemma_increasing_distinct, lemma_lowest_free, lemma_not_in_flight, lemma_same_missing,
    lemma_take_slot, load_ops, load_store_steps, lowest_free, next_use_after, not_in_flight,
    slot_taken, slots_distinct, store_ops, subcircuit_steps,
};
#[allow(unused_imports)]
use crate::pbc::ArchitectureQubit;

verus! {

/// Where the qubits on the processor are held.
pub type Held = Map<Qubit, ArchitectureQubit>;

/// A processor part of the way through a program: where its qubits are held, and the
/// gates that were run so far, on the circuit's own qubits.
#[verifier::ext_equal]
pub struct ProcessorState {
    pub held: Held,
    pub run: Seq<Gate<Qubit>>,
}

/// Some qubit is held at `slot`.
pub open spec fn occupied(held: Held, slot: ArchitectureQubit) -> bool {
    exists|q: Qubit| #[trigger] held.dom().contains(q) && held[q] == slot
}

/// The qubit that is held at `slot`.
pub open spec fn occupant(held: Held, slot: ArchitectureQubit) -> Qubit {
    choose|q: Qubit| #[trigger] held.dom().contains(q) && held[q] == slot
}

/// One operation on a processor of `size` slots. A load takes a qubit that is not there
/// to a free slot; a store takes a qubit from the slot where it is held to its own place
/// in memory; a gate acts on slots that hold qubits. `None` for anything else.
pub open spec fn stepped(s: ProcessorState, size: int, op: LoadStoreOp) -> Option<ProcessorState> {
    match op {
        LoadStoreOp::Load(ArchitectureQubit::Memory(m), ArchitectureQubit::Processor(p)) => {
            let slot = ArchitectureQubit::Processor(p);
            if p < size && !s.held.dom().contains(Qubit(m)) && !occupied(s.held, slot) {
                Some(ProcessorState { held: s.held.insert(Qubit(m), slot), run: s.run })
            } else {
                None
            }
        },
        LoadStoreOp::Store(slot, ArchitectureQubit::Memory(m)) => {
            if s.held.dom().contains(Qubit(m)) && s.held[Qubit(m)] == slot {
                Some(ProcessorState { held: s.held.remove(Qubit(m)), run: s.run })
            } else {
                None
            }
        },
        LoadStoreOp::Gate(g) => {
            if forall|k: int|
                0 <= k < g.operands().len() ==> occupied(s.held, #[trigger] g.operands()[k]) {
                Some(
                    ProcessorState {
                        held: s.held,
                        run: s.run.push(
                            g.mapped(|slot: ArchitectureQubit| occupant(s.held, slot)),
                        ),
                    },
                )
            } else {
                None
            }
        },
        _ => None,
    }
}

/// The operations one after the other.
pub open spec fn replayed(s: ProcessorState, size: int, ops: Seq<LoadStoreOp>) -> Option<
    ProcessorState,
>
    decreases ops.len(),
{
    if ops.len() == 0 {
        Some(s)
    } else {
        match replayed(s, size, ops.drop_last()) {
            None => None,
            Some(t) => stepped(t, size, ops.last()),
        }
    }
}

/// The gates of the first `n` subcircuits, in order.
pub open spec fn gates_before(subs: Seq<Circuit>, n: int) -> Seq<Gate<Qubit>>
    decreases n,
{
    if n <= 0 {
        Seq::empty()
    } else {
        gates_before(subs, n - 1) + subs[n - 1].gates@
    }
}

proof fn lemma_replay_add(s: ProcessorState, size: int, a: Seq<LoadStoreOp>, b: Seq<LoadStoreOp>)
    ensures
        replayed(s, size, a + b) == match replayed(s, size, a) {
            None => None,
            Some(t) => replayed(t, size, b),
        },
    decreases b.len(),
{
    if b.len() > 0 {
        assert((a + b).drop_last() =~= a + b.drop_last());
        lemma_replay_add(s, size, a, b.drop_last());
    } else {
        assert(a + b =~= a);
    }
}

/// The listed qubits are held, and listed once.
pub open spec fn all_held(held: Held, qubits: Seq<Qubit>) -> bool {
    &&& qubits.no_duplicates()
    &&& forall|k: int| 0 <= k < qubits.len() ==> held.dom().contains(#[trigger] qubits[k])
}

proof fn lemma_replay_stores(held: Held, run: Seq<Gate<Qubit>>, size: int, qubits: Seq<Qubit>)
    requires
        all_held(held, qubits),
    ensures
        replayed((ProcessorState { held, run }), size, store_ops(held, qubits)) == Some(
            ProcessorState { held: held.remove_keys(qubits.to_set()), run },
        ),
    decreases qubits.len(),
{
    let ops = store_ops(held, qubits);
    let s = ProcessorState { held, run };
    if qubits.len() > 0 {
        let front = qubits.drop_last();
        let q = qubits[qubits.len() - 1];
        assert(ops.drop_last() =~= store_ops(held, front));
        assert(all_held(held, front)) by {
            assert forall|k: int| 0 <= k < front.len() implies held.dom().contains(
                #[trigger] front[k],
            ) by {
                assert(front[k] == qubits[k]);
            }
        }
        lemma_replay_stores(held, run, size, front);
        let rest = held.remove_keys(front.to_set());
        assert(ops.last() == LoadStoreOp::Store(held[q], ArchitectureQubit::Memory(q.0)));
        assert(!front.contains(q)) by {
            if front.contains(q) {
                let k = front.index_of(q);
                assert(qubits[k] == qubits[qubits.len() - 1]);
            }
        }
        assert(held.dom().contains(qubits[qubits.len() - 1]));
        assert(rest.dom().contains(q) && rest[q] == held[q]);
        assert(q == Qubit(q.0));
        assert forall|x: Qubit| qubits.to_set().contains(x) <==> front.to_set().contains(x) || x
            == q by {
            if qubits.contains(x) {
                let k = qubits.index_of(x);
                if k < front.len() {
                    assert(front[k] == x);
                }
            }
            if front.contains(x) {
                assert(qubits[front.index_of(x)] == x);
            }
            if x == q {
                assert(qubits[qubits.len() - 1] == x);
            }
        }
        assert(rest.remove(q) =~= held.remove_keys(qubits.to_set()));
    } else {
        assert(ops =~= Seq::<LoadStoreOp>::empty());
        assert(held.remove_keys(qubits.to_set()) =~= held);
    }
}

/// A processor that holds fewer qubits than it has slots has a free slot.
proof fn lemma_free_slot_exists(held: Held, size: int)
    requires
        slots_distinct(held),
        held.dom().finite(),
        held.dom().len() < size <= usize::MAX,
    ensures
        is_lowest_free(held, lowest_free(held)),
        lowest_free(held) < size,
{
    let n = held.dom().len() as int;
    if forall|t: int| 0 <= t <= n ==> #[trigger] slot_taken(held, t) {
        let holder = |t: int|
            choose|q: Qubit| #[trigger]
                held.dom().contains(q) && held[q] == ArchitectureQubit::Processor(t as usize);
        let qs = Seq::new((n + 1) as nat, |t: int| holder(t));
        assert forall|t: int| 0 <= t <= n implies held.dom().contains(#[trigger] qs[t])
            && held[qs[t]] == ArchitectureQubit::Processor(t as usize) by {
            assert(slot_taken(held, t));
        }
        assert forall|x: int, y: int|
            0 <= x < qs.len() && 0 <= y < qs.len() && x != y implies qs[x] != qs[y] by {
            assert(held[qs[x]] == ArchitectureQubit::Processor(x as usize));
            assert(held[qs[y]] == ArchitectureQubit::Processor(y as usize));
        }
        qs.unique_seq_to_set();
        assert(qs.to_set().subset_of(held.dom())) by {
            assert forall|q: Qubit| qs.to_set().contains(q) implies held.dom().contains(q) by {
                let t = qs.index_of(q);
                assert(qs[t] == q);
            }
        }
        vstd::set_lib::lemma_len_subset(qs.to_set(), held.dom());
    } else {
        let t = choose|t: int| 0 <= t <= n && !#[trigger] slot_taken(held, t);
        lemma_lowest_below(held, t);
        let s = choose|s: int| 0 <= s <= t && is_lowest_free(held, s);
        lemma_lowest_free(held, s);
    }
}

proof fn lemma_lowest_below(held: Held, t: int)
    requires
        0 <= t <= usize::MAX,
        !slot_taken(held, t),
    ensures
        exists|s: int| 0 <= s <= t && is_lowest_free(held, s),
    decreases t,
{
    if forall|u: int| 0 <= u < t ==> #[trigger] slot_taken(held, u) {
        assert(is_lowest_free(held, t));
    } else {
        let u = choose|u: int| 0 <= u < t && !#[trigger] slot_taken(held, u);
        lemma_lowest_below(held, u);
        let s = choose|s: int| 0 <= s <= u && is_lowest_free(held, s);
        assert(0 <= s <= t && is_lowest_free(held, s));
    }
}

/// A sound processor: its qubits sit in different slots below `size`.
pub open spec fn sound_holding(held: Held, size: int) -> bool {
    slots_distinct(held) && held_within(held, size)
}

pub(crate) proof fn lemma_replay_loads(held: Held, run: Seq<Gate<Qubit>>, size: int, qubits: Seq<Qubit>)
    requires
        sound_holding(held, size),
        size <= usize::MAX,
        qubits.no_duplicates(),
        forall|k: int| 0 <= k < qubits.len() ==> !held.dom().contains(#[trigger] qubits[k]),
        held.dom().len() + qubits.len() <= size,
    ensures
        replayed((ProcessorState { held, run }), size, load_ops(held, qubits)) == Some(
            ProcessorState { held: after_loads(held, qubits), run },
        ),
        sound_holding(after_loads(held, qubits), size),
        after_loads(held, qubits).dom() =~= held.dom().union(qubits.to_set()),
        after_loads(held, qubits).dom().len() == held.dom().len() + qubits.len(),
    decreases qubits.len(),
{
    let all = after_loads(held, qubits);
    if qubits.len() > 0 {
        let front = qubits.drop_last();
        let q = qubits[qubits.len() - 1];
        assert forall|k: int| 0 <= k < front.len() implies !held.dom().contains(
            #[trigger] front[k],
        ) by {
            assert(front[k] == qubits[k]);
        }
        lemma_replay_loads(held, run, size, front);
        let before = after_loads(held, front);
        assert(!front.contains(q)) by {
            if front.contains(q) {
                assert(qubits[front.index_of(q)] == qubits[qubits.len() - 1]);
            }
        }
        assert(!held.dom().contains(qubits[qubits.len() - 1]));
        assert(!before.dom().contains(q));
        lemma_free_slot_exists(before, size);
        let p = lowest_free(before) as usize;
        let slot = ArchitectureQubit::Processor(p);
        assert(!occupied(before, slot)) by {
            if occupied(before, slot) {
                let x = choose|x: Qubit| #[trigger] before.dom().contains(x) && before[x] == slot;
                assert(before.dom().contains(x)
                    && before[x] == ArchitectureQubit::Processor(p as int as usize));
                assert(slot_taken(before, p as int));
            }
        }
        lemma_take_slot(before, q, p);
        assert(all == before.insert(q, slot));
        assert(q == Qubit(q.0));
        assert forall|x: Qubit| #[trigger] all.dom().contains(x) implies (
        all[x] matches ArchitectureQubit::Processor(s) && s < size) by {
            if x != q {
                assert(before.dom().contains(x));
            }
        }
        assert forall|x: Qubit| qubits.to_set().contains(x) <==> front.to_set().contains(x) || x
            == q by {
            if qubits.contains(x) {
                let k = qubits.index_of(x);
                if k < front.len() {
                    assert(front[k] == x);
                }
            }
            if front.contains(x) {
                assert(qubits[front.index_of(x)] == x);
            }
            if x == q {
                assert(qubits[qubits.len() - 1] == x);
            }
        }
        assert(all.dom() =~= before.dom().insert(q));
        assert(load_ops(held, qubits).drop_last() =~= load_ops(held, front));
    } else {
        assert(held.dom().union(qubits.to_set()) =~= held.dom());
    }
}

/// The gates act on held qubits.
spec fn gates_held(held: Held, gates: Seq<Gate<Qubit>>) -> bool {
    forall|g: int, k: int|
        0 <= g < gates.len() && 0 <= k < gates[g].operands().len() ==> held.dom().contains(
            #[trigger] gates[g].operands()[k],
        )
}

proof fn lemma_occupant(held: Held, q: Qubit)
    requires
        slots_distinct(held),
        held.dom().contains(q),
    ensures
        occupied(held, held[q]),
        occupant(held, held[q]) == q,
{
    let x = occupant(held, held[q]);
    assert(held.dom().contains(q) && held[q] == held[q]);
    assert(held.dom().contains(x) && held[x] == held[q]);
}

/// Sending the qubits of a gate to their slots and back changes nothing.
proof fn lemma_gate_back(held: Held, g: Gate<Qubit>)
    requires
        slots_distinct(held),
        forall|k: int| 0 <= k < g.operands().len() ==> held.dom().contains(#[trigger] g.operands()[k]),
    ensures
        ({
            let there = g.mapped(|q: Qubit| held[q]);
            &&& there.mapped(|slot: ArchitectureQubit| occupant(held, slot)) == g
            &&& forall|k: int|
                0 <= k < there.operands().len() ==> occupied(held, #[trigger] there.operands()[k])
        }),
{
    let there = g.mapped(|q: Qubit| held[q]);
    assert(there.operands().len() == g.operands().len());
    assert forall|k: int| 0 <= k < there.operands().len() implies occupied(
        held,
        #[trigger] there.operands()[k],
    ) && occupant(held, there.operands()[k]) == g.operands()[k] by {
        assert(held.dom().contains(g.operands()[k]));
        assert(there.operands()[k] == held[g.operands()[k]]);
        lemma_occupant(held, g.operands()[k]);
    }
    match g {
        Gate::CNOT { control, target } => {
            assert(occupant(held, there.operands()[0]) == g.operands()[0]);
            assert(occupant(held, there.operands()[1]) == g.operands()[1]);
        },
        Gate::CCZ { control1, control2, target } => {
            assert(occupant(held, there.operands()[0]) == g.operands()[0]);
            assert(occupant(held, there.operands()[1]) == g.operands()[1]);
            assert(occupant(held, there.operands()[2]) == g.operands()[2]);
        },
        _ => {
            assert(occupant(held, there.operands()[0]) == g.operands()[0]);
        },
    }
}

proof fn lemma_replay_gates(held: Held, run: Seq<Gate<Qubit>>, size: int, gates: Seq<Gate<Qubit>>)
    requires
        slots_distinct(held),
        gates_held(held, gates),
    ensures
        replayed((ProcessorState { held, run }), size, gate_steps(held, gates)) == Some(
            ProcessorState { held, run: run + gates },
        ),
    decreases gates.len(),
{
    let ops = gate_steps(held, gates);
    if gates.len() > 0 {
        let front = gates.drop_last();
        let g = gates[gates.len() - 1];
        assert(ops.drop_last() =~= gate_steps(held, front));
        assert forall|a: int, k: int|
            0 <= a < front.len() && 0 <= k < front[a].operands().len() implies held.dom().contains(
            #[trigger] front[a].operands()[k],
        ) by {
            assert(front[a] == gates[a]);
            assert(held.dom().contains(gates[a].operands()[k]));
        }
        lemma_replay_gates(held, run, size, front);
        assert forall|k: int| 0 <= k < g.operands().len() implies held.dom().contains(
            #[trigger] g.operands()[k],
        ) by {
            assert(held.dom().contains(gates[gates.len() - 1].operands()[k]));
        }
        lemma_gate_back(held, g);
        assert(ops.last() == LoadStoreOp::Gate(g.mapped(|q: Qubit| held[q])));
        assert((run + front).push(g) =~= run + gates);
    } else {
        assert(ops =~= Seq::<LoadStoreOp>::empty());
        assert(run + gates =~= run);
    }
}

// ---------------------------------------------------------------------------
// Evictions
// ---------------------------------------------------------------------------
proof fn lemma_ranked_exists(s: Set<Qubit>, rank: spec_fn(Qubit) -> (int, int)) -> (order: Seq<Qubit>)
    requires
        s.finite(),
        forall|p: Qubit, q: Qubit| #[trigger] rank(p) == #[trigger] rank(q) ==> p == q,
    ensures
        forall|q: Qubit| #[trigger] order.contains(q) <==> s.contains(q),
        forall|a: int, b: int|
            0 <= a < b < order.len() ==> key_lt(rank(#[trigger] order[a]), rank(#[trigger] order[b])),
    decreases s.len(),
{
    if s.len() == 0 {
        assert forall|q: Qubit| !s.contains(q) by {
            if s.contains(q) {
                assert(s.remove(q).len() < s.len());
            }
        }
        Seq::empty()
    } else {
        let x = s.choose();
        let rest = lemma_ranked_exists(s.remove(x), rank);
        let p = lemma_place(rest, rank, x, rest.len() as int);
        let order = rest.insert(p, x);
        assert(!rest.contains(x));
        assert forall|a: int, b: int| 0 <= a < b < order.len() implies key_lt(
            rank(#[trigger] order[a]),
            rank(#[trigger] order[b]),
        ) by {
            let i = if a < p { a } else { a - 1 };
            let j = if b < p { b } else { b - 1 };
            if a != p && b != p {
                assert(order[a] == rest[i] && order[b] == rest[j]);
            } else if a == p {
                assert(order[b] == rest[j]);
                assert(rest.contains(rest[j]));
                assert(rank(rest[j]) != rank(x));
            } else {
                assert(order[a] == rest[i]);
            }
        }
        assert forall|q: Qubit| #[trigger] order.contains(q) <==> s.contains(q) by {
            if order.contains(q) {
                let k = order.index_of(q);
                if k < p {
                    assert(rest[k] == q);
                    assert(rest.contains(q));
                } else if k > p {
                    assert(rest[k - 1] == q);
                    assert(rest.contains(q));
                }
            }
            if s.contains(q) {
                if q == x {
                    assert(order[p] == q);
                } else {
                    assert(rest.contains(q));
                    let k = rest.index_of(q);
                    if k < p {
                        assert(order[k] == q);
                    } else {
                        assert(order[k + 1] == q);
                    }
                }
            }
        }
        order
    }
}

/// Where `x` belongs among ranked qubits.
proof fn lemma_place(order: Seq<Qubit>, rank: spec_fn(Qubit) -> (int, int), x: Qubit, n: int) -> (p:
    int)
    requires
        0 <= n <= order.len(),
        forall|a: int, b: int|
            0 <= a < b < order.len() ==> key_lt(rank(#[trigger] order[a]), rank(#[trigger] order[b])),
        forall|k: int| n <= k < order.len() ==> !key_lt(rank(#[trigger] order[k]), rank(x)),
    ensures
        0 <= p <= order.len(),
        forall|k: int| 0 <= k < p ==> key_lt(rank(#[trigger] order[k]), rank(x)),
        forall|k: int| p <= k < order.len() ==> !key_lt(rank(#[trigger] order[k]), rank(x)),
    decreases n,
{
    if n == 0 {
        0
    } else if key_lt(rank(order[n - 1]), rank(x)) {
        assert forall|k: int| 0 <= k < n implies key_lt(rank(#[trigger] order[k]), rank(x)) by {
            if k < n - 1 {
                assert(key_lt(rank(order[k]), rank(order[n - 1])));
            }
        }
        n
    } else {
        lemma_place(order, rank, x, n - 1)
    }
}

pub(crate) proof fn lemma_eviction_order(subs: Seq<Circuit>, i: int, in_flight: Set<Qubit>)
    requires
        in_flight.finite(),
    ensures
        is_eviction_order(subs, i, in_flight, eviction_order(subs, i, in_flight)),
{
    let rank = |q: Qubit| eviction_rank(next_use_after(subs, i, q), q);
    let out = in_flight.filter(|q: Qubit| !subs[i].qubits@.contains(q));
    in_flight.lemma_len_filter(|q: Qubit| !subs[i].qubits@.contains(q));
    assert forall|p: Qubit, q: Qubit| #[trigger] rank(p) == #[trigger] rank(q) implies p == q by {}
    let order = lemma_ranked_exists(out, rank);
    assert forall|a: int, b: int| 0 <= a < b < order.len() implies key_lt(
        eviction_rank(next_use_after(subs, i, #[trigger] order[a]), order[a]),
        eviction_rank(next_use_after(subs, i, #[trigger] order[b]), order[b]),
    ) by {
        assert(key_lt(rank(order[a]), rank(order[b])));
    }
    assert(is_eviction_order(subs, i, in_flight, order));
}


// ---------------------------------------------------------------------------
// Subcircuits
// ---------------------------------------------------------------------------
/// The subcircuits list the qubits of their gates, no more than fit the processor.
pub open spec fn fit_processor(subs: Seq<Circuit>, size: int) -> bool {
    forall|i: int|
        0 <= i < subs.len() ==> covers_gates(#[trigger] subs[i]) && subs[i].qubits@.len() <= size
}

/// What is evicted, and what stays.
pub(crate) proof fn lemma_kept(subs: Seq<Circuit>, size: int, i: int, held: Held)
    requires
        fit_processor(subs, size),
        0 <= i < subs.len(),
        sound_holding(held, size),
    ensures
        all_held(held, evicted(subs, size, i, held)),
        sound_holding(kept(subs, size, i, held), size),
        kept(subs, size, i, held).dom().len() + not_in_flight(
            subs[i].qubits@,
            kept(subs, size, i, held).dom(),
        ).len() <= size,
{
    let qs = subs[i].qubits@;
    let order = eviction_order(subs, i, held.dom());
    let out = evicted(subs, size, i, held);
    let rest = kept(subs, size, i, held);
    let missing = not_in_flight(qs, held.dom());
    assert(covers_gates(subs[i]));
    lemma_increasing_distinct(qs);
    lemma_not_in_flight(qs, held.dom());
    lemma_eviction_order(subs, i, held.dom());
    lemma_enough_to_evict(subs, i, held.dom(), order, size);
    let surplus = held.dom().len() - (size - missing.len());
    let n = if surplus > 0 { surplus } else { 0 };
    assert(out == order.take(n));
    assert forall|k: int| 0 <= k < out.len() implies held.dom().contains(#[trigger] out[k])
        && !qs.contains(out[k]) by {
        assert(out[k] == order[k]);
        assert(order.contains(order[k]));
    }
    assert(out.no_duplicates()) by {
        assert forall|a: int, b: int|
            0 <= a < out.len() && 0 <= b < out.len() && a != b implies out[a] != out[b] by {
            assert(out[a] == order[a] && out[b] == order[b]);
        }
    }
    out.unique_seq_to_set();
    assert(rest.dom() =~= held.dom().difference(out.to_set()));
    assert(out.to_set().subset_of(held.dom())) by {
        assert forall|q: Qubit| out.to_set().contains(q) implies held.dom().contains(q) by {
            assert(out[out.index_of(q)] == q);
        }
    }
    vstd::set_lib::lemma_set_disjoint_lens(rest.dom(), out.to_set());
    assert(rest.dom().union(out.to_set()) =~= held.dom());
    assert forall|q: Qubit| qs.contains(q) implies held.dom().contains(q) == rest.dom().contains(
        q,
    ) by {
        if out.contains(q) {
            assert(!qs.contains(out[out.index_of(q)]));
        }
    }
    lemma_same_missing(qs, held.dom(), rest.dom());
    assert forall|q: Qubit| #[trigger] rest.dom().contains(q) implies (
    rest[q] matches ArchitectureQubit::Processor(s) && s < size) by {
        assert(held.dom().contains(q));
    }
    assert forall|a: Qubit, b: Qubit| #[trigger]
        rest.dom().contains(a) && #[trigger] rest.dom().contains(b) && rest[a] == rest[b] implies a
        == b by {
        assert(held.dom().contains(a) && held.dom().contains(b));
    }
    assert forall|q: Qubit| #[trigger] rest.dom().contains(q) implies rest[q] is Processor by {
        assert(held.dom().contains(q));
    }
}

proof fn lemma_gates_held(sub: Circuit, held: Held)
    requires
        covers_gates(sub),
        forall|q: Qubit| #[trigger] sub.qubits@.contains(q) ==> held.dom().contains(q),
    ensures
        gates_held(held, sub.gates@),
{
    let gates = sub.gates@;
    assert forall|g: int, k: int|
        0 <= g < gates.len() && 0 <= k < gates[g].operands().len() implies held.dom().contains(
        #[trigger] gates[g].operands()[k],
    ) by {
        assert(sub.qubits@.contains(sub.gates@[g].operands()[k]));
    }
}

/// The steps round a subcircuit, with qubits staying on the processor.
proof fn lemma_replay_carried(subs: Seq<Circuit>, size: int, i: int, held: Held, run: Seq<Gate<Qubit>>)
    requires
        fit_processor(subs, size),
        size <= usize::MAX,
        0 <= i < subs.len(),
        sound_holding(held, size),
    ensures
        ({
            let rest = kept(subs, size, i, held);
            let now = after_loads(rest, not_in_flight(subs[i].qubits@, rest.dom()));
            &&& sound_holding(now, size)
            &&& replayed(
                (ProcessorState { held, run }),
                size,
                subcircuit_steps(subs, size, true, i, held),
            ) == Some(ProcessorState { held: now, run: run + subs[i].gates@ })
        }),
{
    let qs = subs[i].qubits@;
    let out = evicted(subs, size, i, held);
    let rest = kept(subs, size, i, held);
    let missing = not_in_flight(qs, rest.dom());
    let now = after_loads(rest, missing);
    assert(covers_gates(subs[i]));
    lemma_kept(subs, size, i, held);
    lemma_increasing_distinct(qs);
    lemma_not_in_flight(qs, rest.dom());
    assert forall|k: int| 0 <= k < missing.len() implies !rest.dom().contains(
        #[trigger] missing[k],
    ) by {
        assert(missing.contains(missing[k]));
    }
    lemma_replay_stores(held, run, size, out);
    lemma_replay_loads(rest, run, size, missing);
    assert forall|q: Qubit| #[trigger] qs.contains(q) implies now.dom().contains(q) by {
        assert(missing.contains(q) <==> (qs.contains(q) && !rest.dom().contains(q)));
    }
    lemma_gates_held(subs[i], now);
    lemma_replay_gates(now, run, size, subs[i].gates@);
    let s = ProcessorState { held, run };
    let stores = store_ops(held, out);
    let loads = load_ops(rest, missing);
    let steps = gate_steps(now, subs[i].gates@);
    lemma_replay_add(s, size, stores, loads);
    lemma_replay_add(s, size, stores + loads, steps);
}

/// The steps round a subcircuit that loads all its qubits and stores them again.
proof fn lemma_replay_full(subs: Seq<Circuit>, size: int, i: int, run: Seq<Gate<Qubit>>)
    requires
        fit_processor(subs, size),
        size <= usize::MAX,
        0 <= i < subs.len(),
    ensures
        replayed(
            (ProcessorState { held: Map::empty(), run }),
            size,
            subcircuit_steps(subs, size, false, i, Map::empty()),
        ) == Some(ProcessorState { held: Map::empty(), run: run + subs[i].gates@ }),
{
    let none = Map::<Qubit, ArchitectureQubit>::empty();
    let qs = subs[i].qubits@;
    let all = after_loads(none, qs);
    assert(covers_gates(subs[i]));
    lemma_increasing_distinct(qs);
    assert(sound_holding(none, size));
    lemma_replay_loads(none, run, size, qs);
    assert forall|q: Qubit| #[trigger] qs.contains(q) implies all.dom().contains(q) by {
        assert(qs.to_set().contains(q));
    }
    assert forall|k: int| 0 <= k < qs.len() implies all.dom().contains(#[trigger] qs[k]) by {
        assert(qs.contains(qs[k]));
    }
    lemma_gates_held(subs[i], all);
    lemma_replay_gates(all, run, size, subs[i].gates@);
    let after = run + subs[i].gates@;
    lemma_replay_stores(all, after, size, qs);
    assert(all.remove_keys(qs.to_set()) =~= none);
    let s = ProcessorState { held: none, run };
    let loads = load_ops(none, qs);
    let steps = gate_steps(all, subs[i].gates@);
    lemma_replay_add(s, size, loads, steps);
    lemma_replay_add(s, size, loads + steps, store_ops(all, qs));
}

/// A load/store program can be run on a processor of the given size: every load finds a
/// free slot, every store its qubit, every gate its qubits on the processor. It runs the
/// gates of the subcircuits, in order.
pub proof fn law_program_runs_its_subcircuits(
    subs: Seq<Circuit>,
    size: int,
    skip_redundant: bool,
    n: int,
)
    requires
        fit_processor(subs, size),
        0 <= size <= usize::MAX,
        0 <= n <= subs.len(),
    ensures
        ({
            let none = ProcessorState {
                held: Map::<Qubit, ArchitectureQubit>::empty(),
                run: Seq::<Gate<Qubit>>::empty(),
            };
            let held = held_before(subs, size, skip_redundant, n);
            &&& replayed(none, size, load_store_steps(subs, size, skip_redundant, n)) == Some(
                ProcessorState { held, run: gates_before(subs, n) },
            )
            &&& sound_holding(held, size)
        }),
    decreases n,
{
    let none = ProcessorState {
        held: Map::<Qubit, ArchitectureQubit>::empty(),
        run: Seq::<Gate<Qubit>>::empty(),
    };
    if n > 0 {
        law_program_runs_its_subcircuits(subs, size, skip_redundant, n - 1);
        let held = held_before(subs, size, skip_redundant, n - 1);
        let run = gates_before(subs, n - 1);
        if skip_redundant {
            lemma_replay_carried(subs, size, n - 1, held, run);
        } else {
            lemma_replay_full(subs, size, n - 1, run);
        }
        lemma_replay_add(
            none,
            size,
            load_store_steps(subs, size, skip_redundant, n - 1),
            subcircuit_steps(subs, size, skip_redundant, n - 1, held),
        );
    } else {
        assert(sound_holding(Map::<Qubit, ArchitectureQubit>::empty(), size));
    }
}

} // verus!
