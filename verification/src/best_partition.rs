//! The cheapest model of a partitioning problem is a partition with the fewest moves.

use vstd::prelude::*;

#[allow(unused_imports)]
use crate::circuit::{acts_on, predecessors, successors_upto, Circuit, Qubit};
#[allow(unused_imports)]
use crate::compile::move_count;
#[allow(unused_imports)]
use crate::fewest_moves::{
    is_schedule, law_furthest_next_use_moves_least, law_program_follows_its_schedule, on_before,
    on_processor, program_schedule, scheduled_loads, scheduled_stores,
};
#[allow(unused_imports)]
use crate::keyed::KeyedMap;
#[allow(unused_imports)]
use crate::load_store::{covers_gates, lemma_increasing_distinct, load_store_steps};
#[allow(unused_imports)]
use crate::replay::fit_processor;
#[allow(unused_imports)]
use crate::sat_partition::{
    all_within, cheapest, complete, describes_partition, encodes, feasible, final_mem_of,
    first_bound, gates_in_slot, gathers, gathers_all, is_preloaded, law_complete_search_is_optimal,
    law_model_respects_capacity, law_model_respects_dependencies, lemma_gates_in_slot,
    lemma_slot_from, lit_true, load_lits, moved, objective_lits, occupied_slots, operands_resident,
    optimized, pos, qubit_position, reads_model, resident_lits, runs_in_order, runs_once,
    slot_from, slot_has_gate, slot_within, store_lits, true_count, Layout, PartitionProblem,
    PropLit, SolveReply, MAX_VAR,
};

verus! {

// ---------------------------------------------------------------------------
// Counting
// ---------------------------------------------------------------------------
/// Of how many of the first `n` numbers `f` holds.
pub open spec fn tally(f: spec_fn(int) -> bool, n: int) -> nat
    decreases n,
{
    if n <= 0 {
        0
    } else {
        tally(f, n - 1) + if f(n - 1) {
            1nat
        } else {
            0nat
        }
    }
}

/// The same for pairs, row by row.
pub open spec fn by_rows(f: spec_fn(int, int) -> bool, rows: int, cols: int) -> nat
    decreases rows,
{
    if rows <= 0 {
        0
    } else {
        by_rows(f, rows - 1, cols) + tally(|j: int| f(rows - 1, j), cols)
    }
}

/// The same for pairs, column by column.
pub open spec fn by_columns(f: spec_fn(int, int) -> bool, rows: int, cols: int) -> nat
    decreases cols,
{
    if cols <= 0 {
        0
    } else {
        by_columns(f, rows, cols - 1) + tally(|i: int| f(i, cols - 1), rows)
    }
}

proof fn lemma_tally_mono(f: spec_fn(int) -> bool, g: spec_fn(int) -> bool, n: int)
    requires
        forall|i: int| 0 <= i < n && #[trigger] f(i) ==> g(i),
    ensures
        tally(f, n) <= tally(g, n),
    decreases n,
{
    if n > 0 {
        lemma_tally_mono(f, g, n - 1);
    }
}

proof fn lemma_tally_same(f: spec_fn(int) -> bool, g: spec_fn(int) -> bool, n: int)
    requires
        forall|i: int| 0 <= i < n ==> #[trigger] f(i) == g(i),
    ensures
        tally(f, n) == tally(g, n),
    decreases n,
{
    if n > 0 {
        lemma_tally_same(f, g, n - 1);
    }
}

/// What does not hold from `m` on is not counted there.
proof fn lemma_tally_longer(f: spec_fn(int) -> bool, m: int, n: int)
    requires
        0 <= m <= n,
    ensures
        tally(f, m) <= tally(f, n),
        (forall|i: int| m <= i < n ==> !#[trigger] f(i)) ==> tally(f, m) == tally(f, n),
    decreases n,
{
    if m < n {
        lemma_tally_longer(f, m, n - 1);
    }
}

pub(crate) proof fn lemma_rows_and_columns(f: spec_fn(int, int) -> bool, rows: int, cols: int)
    requires
        0 <= rows,
        0 <= cols,
    ensures
        by_rows(f, rows, cols) == by_columns(f, rows, cols),
    decreases cols,
{
    if cols > 0 {
        lemma_rows_and_columns(f, rows, cols - 1);
        lemma_last_column(f, rows, cols);
    } else {
        lemma_no_columns(f, rows);
    }
}

proof fn lemma_no_columns(f: spec_fn(int, int) -> bool, rows: int)
    ensures
        by_rows(f, rows, 0) == 0,
    decreases rows,
{
    if rows > 0 {
        lemma_no_columns(f, rows - 1);
    }
}

proof fn lemma_last_column(f: spec_fn(int, int) -> bool, rows: int, cols: int)
    requires
        0 < cols,
    ensures
        by_rows(f, rows, cols) == by_rows(f, rows, cols - 1) + tally(
            |i: int| f(i, cols - 1),
            rows,
        ),
    decreases rows,
{
    if rows > 0 {
        lemma_last_column(f, rows - 1, cols);
        let row = |j: int| f(rows - 1, j);
        let column = |i: int| f(i, cols - 1);
        assert(tally(row, cols) == tally(row, cols - 1) + if row(cols - 1) {
            1nat
        } else {
            0nat
        });
        assert(tally(column, rows) == tally(column, rows - 1) + if column(rows - 1) {
            1nat
        } else {
            0nat
        });
    }
}

proof fn lemma_rows_mono(
    f: spec_fn(int, int) -> bool,
    g: spec_fn(int, int) -> bool,
    rows: int,
    m: int,
    n: int,
)
    requires
        0 <= m <= n,
        forall|i: int, j: int| 0 <= i < rows && 0 <= j < m && #[trigger] f(i, j) ==> g(i, j),
    ensures
        by_rows(f, rows, m) <= by_rows(g, rows, n),
    decreases rows,
{
    if rows > 0 {
        lemma_rows_mono(f, g, rows - 1, m, n);
        let x = |j: int| f(rows - 1, j);
        let y = |j: int| g(rows - 1, j);
        lemma_tally_mono(x, y, m);
        lemma_tally_longer(y, m, n);
    }
}

/// The qubits among the first `n` of whose position `f` holds.
pub open spec fn picked(qubits: Seq<Qubit>, f: spec_fn(int) -> bool, n: int) -> Set<Qubit>
    decreases n,
{
    if n <= 0 {
        Set::empty()
    } else if f(n - 1) {
        picked(qubits, f, n - 1).insert(qubits[n - 1])
    } else {
        picked(qubits, f, n - 1)
    }
}

pub(crate) proof fn lemma_picked(qubits: Seq<Qubit>, f: spec_fn(int) -> bool, n: int)
    requires
        qubits.no_duplicates(),
        0 <= n <= qubits.len(),
    ensures
        picked(qubits, f, n).finite(),
        picked(qubits, f, n).len() == tally(f, n),
        forall|i: int| 0 <= i < n ==> (picked(qubits, f, n).contains(#[trigger] qubits[i]) <==> f(i)),
        forall|q: Qubit| #[trigger] picked(qubits, f, n).contains(q) ==> qubits.take(n).contains(q),
    decreases n,
{
    if n > 0 {
        lemma_picked(qubits, f, n - 1);
        let before = picked(qubits, f, n - 1);
        assert(!before.contains(qubits[n - 1])) by {
            if before.contains(qubits[n - 1]) {
                let k = qubits.take(n - 1).index_of(qubits[n - 1]);
                assert(qubits.take(n - 1)[k] == qubits[k]);
            }
        }
        assert forall|q: Qubit| #[trigger] picked(qubits, f, n).contains(q) implies qubits.take(
            n,
        ).contains(q) by {
            if before.contains(q) {
                let k = qubits.take(n - 1).index_of(q);
                assert(qubits.take(n - 1)[k] == q);
                assert(qubits.take(n)[k] == q);
            } else {
                assert(qubits.take(n)[n - 1] == q);
            }
        }
    }
}

// ---------------------------------------------------------------------------
// The cost of a model
// ---------------------------------------------------------------------------
proof fn lemma_true_count_add(a: spec_fn(int) -> bool, x: Seq<PropLit>, y: Seq<PropLit>)
    ensures
        true_count(a, x + y) == true_count(a, x) + true_count(a, y),
    decreases y.len(),
{
    if y.len() == 0 {
        assert(x + y =~= x);
    } else {
        lemma_true_count_add(a, x, y.drop_last());
        assert((x + y).drop_last() =~= x + y.drop_last());
    }
}

proof fn lemma_count_positive(a: spec_fn(int) -> bool, v: spec_fn(int) -> int, n: nat)
    requires
        forall|k: int| 0 <= k < n ==> 0 <= #[trigger] v(k) <= MAX_VAR,
    ensures
        true_count(a, Seq::new(n, |k: int| pos(v(k)))) == tally(|k: int| a(v(k)), n as int),
    decreases n,
{
    let ls = Seq::new(n, |k: int| pos(v(k)));
    if n > 0 {
        lemma_count_positive(a, v, (n - 1) as nat);
        assert(ls.drop_last() =~= Seq::new((n - 1) as nat, |k: int| pos(v(k))));
        assert(0 <= v(n - 1) <= MAX_VAR);
        assert(lit_true(a, pos(v(n - 1))) == a(v(n - 1)));
    }
}

/// The loads and the stores of a model, qubit by qubit.
proof fn lemma_cost_by_rows(a: spec_fn(int) -> bool, l: Layout, n: int)
    requires
        l.indexed(),
        0 <= n <= l.n_qubits,
    ensures
        true_count(a, load_lits(l, n)) == by_rows(
            |q: int, j: int| a(l.load(q, j)),
            n,
            l.slots as int,
        ),
        true_count(a, store_lits(l, n)) == by_rows(
            |q: int, j: int| a(l.store(q, j)),
            n,
            l.slots as int,
        ),
    decreases n,
{
    if n > 0 {
        lemma_cost_by_rows(a, l, n - 1);
        let x = |j: int| l.load(n - 1, j);
        let y = |j: int| l.store(n - 1, j);
        assert forall|j: int| 0 <= j < l.slots implies 0 <= #[trigger] x(j) <= MAX_VAR && 0 <= y(j)
            <= MAX_VAR by {
            l.lemma_qubit_index(n - 1, j);
        }
        assert forall|j: int| 0 <= j < l.slots implies 0 <= #[trigger] y(j) <= MAX_VAR by {
            assert(0 <= x(j) <= MAX_VAR && 0 <= y(j) <= MAX_VAR);
        }
        lemma_count_positive(a, x, l.slots as nat);
        lemma_count_positive(a, y, l.slots as nat);
        let xs = Seq::new(l.slots as nat, |j: int| pos(l.load(n - 1, j)));
        let ys = Seq::new(l.slots as nat, |j: int| pos(l.store(n - 1, j)));
        assert(xs =~= Seq::new(l.slots as nat, |j: int| pos(x(j))));
        assert(ys =~= Seq::new(l.slots as nat, |j: int| pos(y(j))));
        lemma_true_count_add(a, load_lits(l, n - 1), xs);
        lemma_true_count_add(a, store_lits(l, n - 1), ys);
        let f = |q: int, j: int| a(l.load(q, j));
        let g = |q: int, j: int| a(l.store(q, j));
        lemma_tally_same(|j: int| a(x(j)), |j: int| f(n - 1, j), l.slots as int);
        lemma_tally_same(|j: int| a(y(j)), |j: int| g(n - 1, j), l.slots as int);
    }
}

// ---------------------------------------------------------------------------
// Partitions
// ---------------------------------------------------------------------------
/// `slot_of` partitions the gates of the circuit: into at most `slots` subcircuits, none
/// of them empty, and no gate in an earlier one than a gate that it waits for.
pub open spec fn is_partition(circ: Circuit, slots: int, slot_of: Seq<usize>) -> bool {
    &&& slot_of.len() == circ.gates@.len()
    &&& forall|i: int| 0 <= i < slot_of.len() ==> #[trigger] slot_of[i] < slots
    &&& forall|i: int|
        0 <= i < slot_of.len() && #[trigger] slot_of[i] > 0 ==> slot_named(slot_of, slot_of[i] - 1)
    &&& forall|u: int, v: int|
        0 <= u < slot_of.len() && 0 <= v < slot_of.len() && #[trigger] predecessors(
            circ.gates@,
            v,
        ).contains(u) ==> slot_of[u] <= slot_of[v]
}

/// Some gate stands in slot `j`.
pub open spec fn slot_named(slot_of: Seq<usize>, j: int) -> bool {
    exists|i: int| 0 <= i < slot_of.len() && #[trigger] slot_of[i] == j
}

proof fn lemma_slot_filled(slot_of: Seq<usize>, j: int, n: int)
    requires
        0 <= n <= slot_of.len(),
    ensures
        gates_in_slot(slot_of, j, n).len() > 0 <==> exists|i: int|
            0 <= i < n && #[trigger] slot_of[i] == j,
        forall|i: int|
            0 <= i < n && #[trigger] slot_of[i] == j ==> gates_in_slot(slot_of, j, n).contains(i),
    decreases n,
{
    if n > 0 {
        lemma_slot_filled(slot_of, j, n - 1);
        let before = gates_in_slot(slot_of, j, n - 1);
        let now = gates_in_slot(slot_of, j, n);
        if slot_of[n - 1] == j {
            assert(now == before.push(n - 1));
            assert(now[before.len() as int] == n - 1);
        }
        assert forall|i: int| 0 <= i < n && #[trigger] slot_of[i] == j implies now.contains(i) by {
            if i < n - 1 {
                assert(before.contains(i));
                let k = before.index_of(i);
                assert(now[k] == i);
            }
        }
        if now.len() > 0 && slot_of[n - 1] != j {
            let i = choose|i: int| 0 <= i < n - 1 && #[trigger] slot_of[i] == j;
            assert(0 <= i < n && slot_of[i] == j);
        }
    }
}

/// The filled slots come first.
#[verifier::spinoff_prover]
pub(crate) proof fn lemma_filled_first(circ: Circuit, slots: int, slot_of: Seq<usize>, n: int)
    requires
        is_partition(circ, slots, slot_of),
        0 <= n <= slots,
    ensures
        ({
            let groups = occupied_slots(slot_of, n);
            &&& groups.len() <= n
            &&& forall|b: int|
                0 <= b < groups.len() ==> #[trigger] groups[b] == gates_in_slot(
                    slot_of,
                    b,
                    slot_of.len() as int,
                ) && slot_named(slot_of, b)
            &&& forall|b: int| groups.len() <= b < n ==> !#[trigger] slot_named(slot_of, b)
        }),
    decreases n,
{
    if n > 0 {
        lemma_filled_first(circ, slots, slot_of, n - 1);
        let before = occupied_slots(slot_of, n - 1);
        let here = gates_in_slot(slot_of, n - 1, slot_of.len() as int);
        lemma_slot_filled(slot_of, n - 1, slot_of.len() as int);
        let now = occupied_slots(slot_of, n);
        assert(slot_named(slot_of, n - 1) == (here.len() > 0));
        if here.len() > 0 {
            if before.len() < n - 1 {
                let i = choose|i: int| 0 <= i < slot_of.len() && #[trigger] slot_of[i] == n - 1;
                assert(slot_named(slot_of, slot_of[i] - 1));
                assert(slot_of[i] - 1 == n - 2);
                assert(!slot_named(slot_of, n - 2));
            }
            assert(now == before.push(here));
            assert forall|b: int| 0 <= b < now.len() implies #[trigger] now[b] == gates_in_slot(
                slot_of,
                b,
                slot_of.len() as int,
            ) && slot_named(slot_of, b) by {
                if b < before.len() {
                    assert(now[b] == before[b]);
                }
            }
        } else {
            assert(now == before);
        }
    }
}

/// A model reads as a partition.
proof fn lemma_reads_partition(
    a: spec_fn(int) -> bool,
    l: Layout,
    circ: Circuit,
    pre_loaded: Map<Qubit, bool>,
    slot_of: Seq<usize>,
    resident: Seq<bool>,
)
    requires
        l.slots > 0,
        l.n_gates == circ.gates@.len(),
        describes_partition(a, l, circ.qubits@, circ.gates@, pre_loaded),
        reads_model(a, l, slot_of, resident),
    ensures
        is_partition(circ, l.slots as int, slot_of),
        forall|i: int| 0 <= i < slot_of.len() ==> a(l.gate(i, #[trigger] slot_of[i] as int)),
{
    assert forall|i: int| 0 <= i < slot_of.len() implies #[trigger] slot_of[i] < l.slots && a(
        l.gate(i, slot_of[i] as int),
    ) by {
        assert(runs_once(a, l, i));
        lemma_slot_from(a, l, i, 0);
        assert(slot_of[i] == slot_from(a, l, i, 0));
    }
    assert forall|i: int| 0 <= i < slot_of.len() && #[trigger] slot_of[i] > 0 implies slot_named(
        slot_of,
        slot_of[i] - 1,
    ) by {
        let j = slot_of[i] - 1;
        assert(a(l.gate(i, j + 1)));
        assert(slot_has_gate(a, l, j + 1));
        assert(a(l.used(j + 1)) == slot_has_gate(a, l, j + 1));
        assert(a(l.used(j)));
        assert(a(l.used(j)) == slot_has_gate(a, l, j));
        let k = choose|k: int| 0 <= k < l.n_gates && #[trigger] a(l.gate(k, j));
        assert(runs_once(a, l, k));
        assert(slot_of[k] < l.slots && a(l.gate(k, slot_of[k] as int)));
        assert(slot_of[k] == j);
    }
    assert forall|u: int, v: int|
        0 <= u < slot_of.len() && 0 <= v < slot_of.len() && #[trigger] predecessors(
            circ.gates@,
            v,
        ).contains(u) implies slot_of[u] <= slot_of[v] by {
        law_model_respects_dependencies(a, l, circ, pre_loaded, slot_of, resident, u, v);
    }
}

/// The subcircuits of a partition fit the processor.
pub(crate) proof fn lemma_fit(subs: Seq<Circuit>, cap: int)
    requires
        all_within(subs, cap),
    ensures
        fit_processor(subs, cap),
{
    assert forall|i: int| 0 <= i < subs.len() implies covers_gates(#[trigger] subs[i])
        && subs[i].qubits@.len() <= cap by {
        let sub = subs[i];
        assert(sub.wf());
        assert forall|g: int, k: int|
            0 <= g < sub.gates@.len() && 0 <= k < sub.gates@[g].operands().len() implies
            sub.qubits@.contains(#[trigger] sub.gates@[g].operands()[k]) by {
            assert(sub.gates@[g].operands().contains(sub.gates@[g].operands()[k]));
            assert(acts_on(sub.gates@, sub.gates@[g].operands()[k]));
        }
    }
}

// ---------------------------------------------------------------------------
// From models to programs
// ---------------------------------------------------------------------------
/// The residents of the first `n` slots of a model.
pub open spec fn resident_schedule(a: spec_fn(int) -> bool, l: Layout, qubits: Seq<Qubit>, n: int) -> Seq<
    Set<Qubit>,
> {
    Seq::new(
        n as nat,
        |j: int| picked(qubits, |q: int| a(l.mem(q, j)), qubits.len() as int),
    )
}

/// Qubit `q` enters in slot `j`.
pub open spec fn enters(a: spec_fn(int) -> bool, l: Layout) -> spec_fn(int, int) -> bool {
    |q: int, j: int| a(l.mem(q, j)) && !(j > 0 && a(l.mem(q, j - 1)))
}

/// Qubit `q` leaves in slot `j`.
pub open spec fn leaves(a: spec_fn(int) -> bool, l: Layout) -> spec_fn(int, int) -> bool {
    |q: int, j: int| j > 0 && a(l.mem(q, j - 1)) && !a(l.mem(q, j))
}

#[verifier::spinoff_prover]
pub(crate) proof fn lemma_resident_moves(
    a: spec_fn(int) -> bool,
    l: Layout,
    qubits: Seq<Qubit>,
    m: int,
    n: int,
)
    requires
        qubits.no_duplicates(),
        0 <= n <= m,
    ensures
        ({
            let on = resident_schedule(a, l, qubits, m);
            &&& scheduled_loads(on, n) == by_columns(enters(a, l), qubits.len() as int, n)
            &&& scheduled_stores(on, n) == by_columns(leaves(a, l), qubits.len() as int, n)
        }),
    decreases n,
{
    let on = resident_schedule(a, l, qubits, m);
    let w = qubits.len() as int;
    if n > 0 {
        lemma_resident_moves(a, l, qubits, m, n - 1);
        let j = n - 1;
        let here = |q: int| a(l.mem(q, j));
        let back = |q: int| a(l.mem(q, j - 1));
        let came = |q: int| enters(a, l)(q, j);
        let went = |q: int| leaves(a, l)(q, j);
        lemma_picked(qubits, here, w);
        lemma_picked(qubits, back, w);
        lemma_picked(qubits, came, w);
        lemma_picked(qubits, went, w);
        assert(qubits.take(w) =~= qubits);
        assert(on[j] == picked(qubits, here, w));
        if j > 0 {
            assert(on_before(on, j) == picked(qubits, back, w));
        }
        assert(on[j].difference(on_before(on, j)) =~= picked(qubits, came, w)) by {
            assert forall|q: Qubit| on[j].difference(on_before(on, j)).contains(q) <==> picked(
                qubits,
                came,
                w,
            ).contains(q) by {
                if qubits.contains(q) {
                    let i = qubits.index_of(q);
                    assert(qubits[i] == q);
                }
            }
        }
        assert(on_before(on, j).difference(on[j]) =~= picked(qubits, went, w)) by {
            assert forall|q: Qubit| on_before(on, j).difference(on[j]).contains(q) <==> picked(
                qubits,
                went,
                w,
            ).contains(q) by {
                if qubits.contains(q) {
                    let i = qubits.index_of(q);
                    assert(qubits[i] == q);
                }
            }
        }
    }
}

/// The residents of a slot hold the qubits of its subcircuit, within capacity.
#[verifier::spinoff_prover]
pub(crate) proof fn lemma_residents_hold(
    a: spec_fn(int) -> bool,
    l: Layout,
    circ: Circuit,
    cap: int,
    slot_of: Seq<usize>,
    j: int,
    sub: Circuit,
)
    requires
        circ.wf(),
        l.indexed(),
        l.n_gates == circ.gates@.len(),
        l.n_qubits == circ.qubits@.len(),
        slot_within(a, l, cap, j),
        forall|i: int|
            0 <= i < l.n_gates ==> #[trigger] operands_resident(
                a,
                l,
                circ.qubits@,
                circ.gates@[i],
                i,
            ),
        slot_of.len() == circ.gates@.len(),
        forall|i: int| 0 <= i < slot_of.len() ==> a(l.gate(i, #[trigger] slot_of[i] as int)),
        0 <= j < l.slots,
        gathers(circ, gates_in_slot(slot_of, j, slot_of.len() as int), sub),
    ensures
        on_processor(
            sub,
            cap,
            picked(circ.qubits@, |q: int| a(l.mem(q, j)), circ.qubits@.len() as int),
        ),
{
    let qubits = circ.qubits@;
    let w = qubits.len() as int;
    let here = |q: int| a(l.mem(q, j));
    let on = picked(qubits, here, w);
    let picks = gates_in_slot(slot_of, j, slot_of.len() as int);
    lemma_increasing_distinct(qubits);
    lemma_picked(qubits, here, w);
    lemma_gates_in_slot(slot_of, j, slot_of.len() as int);
    let v = |q: int| l.mem(q, j);
    assert forall|q: int| 0 <= q < w implies 0 <= #[trigger] v(q) <= MAX_VAR by {
        l.lemma_qubit_index(q, j);
    }
    lemma_count_positive(a, v, w as nat);
    lemma_tally_same(|q: int| a(v(q)), here, w);
    assert(resident_lits(l, j) =~= Seq::new(w as nat, |q: int| pos(v(q))));
    lemma_tally_bound(here, w);
    assert forall|q: Qubit| #[trigger] sub.qubits@.contains(q) implies on.contains(q) by {
        assert(acts_on(sub.gates@, q));
        let m = choose|m: int|
            0 <= m < sub.gates@.len() && (#[trigger] sub.gates@[m]).operands().contains(q);
        let i = picks[m];
        assert(sub.gates@[m] == circ.gates@[i]);
        assert(acts_on(circ.gates@, q)) by {
            assert(circ.gates@[i].operands().contains(q));
        }
        assert(qubits.contains(q));
        let p = qubit_position(qubits, q);
        assert(qubits[qubits.index_of(q)] == q);
        assert(0 <= p < w && qubits[p] == q);
        assert(a(l.gate(i, slot_of[i] as int)));
        assert(operands_resident(a, l, qubits, circ.gates@[i], i));
        let o = circ.gates@[i].operands().index_of(q);
        assert(circ.gates@[i].operands()[o] == q);
        assert(here(p));
    }
}

proof fn lemma_tally_bound(f: spec_fn(int) -> bool, n: int)
    requires
        0 <= n,
    ensures
        tally(f, n) <= n,
    decreases n,
{
    if n > 0 {
        lemma_tally_bound(f, n - 1);
    }
}

/// A model within capacity, with nothing on the processor beforehand, reads as a
/// partition, and the program of its subcircuits has no more loads and stores than the
/// model counts.
#[verifier::spinoff_prover]
pub proof fn law_program_moves_no_more_than_the_model(
    a: spec_fn(int) -> bool,
    l: Layout,
    circ: Circuit,
    cap: int,
    pre_loaded: Map<Qubit, bool>,
    slot_of: Seq<usize>,
    resident: Seq<bool>,
    subs: Seq<Circuit>,
)
    requires
        circ.wf(),
        l.indexed(),
        l.slots > 0,
        l.n_gates == circ.gates@.len(),
        l.n_qubits == circ.qubits@.len(),
        0 <= cap <= usize::MAX,
        forall|q: Qubit| !#[trigger] is_preloaded(pre_loaded, q),
        feasible(a, l, circ, cap, pre_loaded),
        reads_model(a, l, slot_of, resident),
        gathers_all(circ, occupied_slots(slot_of, l.slots as int), subs),
    ensures
        is_partition(circ, l.slots as int, slot_of),
        all_within(subs, cap),
        move_count(load_store_steps(subs, cap, true, subs.len() as int)) <= true_count(
            a,
            objective_lits(l),
        ),
{
    let qubits = circ.qubits@;
    let w = qubits.len() as int;
    let m = subs.len() as int;
    let on = resident_schedule(a, l, qubits, m);
    lemma_increasing_distinct(qubits);
    lemma_reads_partition(a, l, circ, pre_loaded, slot_of, resident);
    lemma_filled_first(circ, l.slots as int, slot_of, l.slots as int);
    let groups = occupied_slots(slot_of, l.slots as int);
    assert forall|b: int| 0 <= b < m implies (#[trigger] subs[b]).wf() && subs[b].qubits@.len()
        <= cap && on_processor(subs[b], cap, on[b]) by {
        assert(gathers(circ, groups[b], subs[b]));
        assert(groups[b] == gates_in_slot(slot_of, b, slot_of.len() as int));
        law_model_respects_capacity(a, l, circ, cap, pre_loaded, slot_of, resident, b, subs[b]);
        assert(slot_within(a, l, cap, b));
        lemma_residents_hold(a, l, circ, cap, slot_of, b, subs[b]);
    }
    lemma_fit(subs, cap);
    law_furthest_next_use_moves_least(subs, cap, on);
    lemma_resident_moves(a, l, qubits, m, m);
    lemma_rows_and_columns(enters(a, l), w, m);
    lemma_rows_and_columns(leaves(a, l), w, m);
    let load = |q: int, j: int| a(l.load(q, j));
    let store = |q: int, j: int| a(l.store(q, j));
    assert forall|q: int, j: int| 0 <= q < w && 0 <= j < m && #[trigger] enters(a, l)(q, j) implies load(
        q,
        j,
    ) by {
        lemma_moved(a, l, circ, pre_loaded, q, j);
    }
    assert forall|q: int, j: int| 0 <= q < w && 0 <= j < m && #[trigger] leaves(a, l)(q, j) implies store(
        q,
        j,
    ) by {
        lemma_moved(a, l, circ, pre_loaded, q, j);
    }
    lemma_rows_mono(enters(a, l), load, w, m, l.slots as int);
    lemma_rows_mono(leaves(a, l), store, w, m, l.slots as int);
    lemma_cost_by_rows(a, l, w);
    lemma_true_count_add(a, load_lits(l, w), store_lits(l, w));
}

pub(crate) proof fn lemma_moved(
    a: spec_fn(int) -> bool,
    l: Layout,
    circ: Circuit,
    pre_loaded: Map<Qubit, bool>,
    q: int,
    j: int,
)
    requires
        0 <= q < l.n_qubits,
        0 <= j < l.slots,
        forall|q: Qubit| !#[trigger] is_preloaded(pre_loaded, q),
        describes_partition(a, l, circ.qubits@, circ.gates@, pre_loaded),
    ensures
        enters(a, l)(q, j) ==> a(l.load(q, j)),
        leaves(a, l)(q, j) ==> a(l.store(q, j)),
{
    if j == 0 {
        assert(a(l.pre(q)) == is_preloaded(pre_loaded, circ.qubits@[q]));
        assert(moved(a, l, q, a(l.pre(q)), 0));
    } else {
        assert(moved(a, l, q, a(l.mem(q, j - 1)), (j - 1) + 1));
    }
}

// ---------------------------------------------------------------------------
// From programs to models
// ---------------------------------------------------------------------------
/// The qubits on the processor in slot `j`; after the last subcircuit nothing moves.
pub open spec fn on_in_slot(on: Seq<Set<Qubit>>, j: int) -> Set<Qubit> {
    if on.len() == 0 {
        Set::empty()
    } else if j < on.len() {
        on[j]
    } else {
        on[on.len() - 1]
    }
}

/// The model in which the gates run in the slots of `slot_of`, and the processor holds
/// what the schedule says.
pub open spec fn scheduled_model(l: Layout, qubits: Seq<Qubit>, slot_of: Seq<usize>, on: Seq<Set<Qubit>>) -> spec_fn(
    int,
) -> bool {
    let gates = l.n_gates * l.slots;
    let each = l.n_qubits * l.slots;
    let k = l.slots as int;
    let here = |q: int, j: int| on_in_slot(on, j).contains(qubits[q]);
    |v: int|
        if v < gates {
            slot_of[v / k] == v % k
        } else if v < gates + each {
            here((v - gates) / k, (v - gates) % k)
        } else if v < gates + 2 * each {
            let q = (v - gates - each) / k;
            let j = (v - gates - each) % k;
            here(q, j) && !(j > 0 && here(q, j - 1))
        } else if v < gates + 3 * each {
            let q = (v - gates - 2 * each) / k;
            let j = (v - gates - 2 * each) % k;
            j > 0 && here(q, j - 1) && !here(q, j)
        } else if v < gates + 3 * each + k {
            v - gates - 3 * each < on.len()
        } else {
            false
        }
}

/// Where a variable stands tells what it is about.
pub(crate) proof fn lemma_cell(rows: int, k: int, i: int, j: int)
    requires
        0 <= i < rows,
        0 <= j < k,
    ensures
        0 <= i * k + j < rows * k,
        (i * k + j) / k == i,
        (i * k + j) % k == j,
{
    vstd::arithmetic::div_mod::lemma_fundamental_div_mod_converse(i * k + j, k, i, j);
    assert(0 <= i * k) by (nonlinear_arith)
        requires
            0 <= i,
            0 < k,
    ;
    assert((i + 1) * k <= rows * k) by (nonlinear_arith)
        requires
            i + 1 <= rows,
            0 < k,
    ;
    assert((i + 1) * k == i * k + k) by (nonlinear_arith);
}

#[verifier::spinoff_prover]
pub(crate) proof fn lemma_gate_cell(
    l: Layout,
    qubits: Seq<Qubit>,
    slot_of: Seq<usize>,
    on: Seq<Set<Qubit>>,
    i: int,
    j: int,
)
    requires
        0 <= i < l.n_gates,
        0 <= j < l.slots,
    ensures
        scheduled_model(l, qubits, slot_of, on)(l.gate(i, j)) == (slot_of[i] == j),
{
    lemma_cell(l.n_gates as int, l.slots as int, i, j);
}

#[verifier::spinoff_prover]
pub(crate) proof fn lemma_qubit_cells(
    l: Layout,
    qubits: Seq<Qubit>,
    slot_of: Seq<usize>,
    on: Seq<Set<Qubit>>,
    q: int,
    j: int,
)
    requires
        0 <= q < l.n_qubits,
        0 <= j < l.slots,
    ensures
        ({
            let a = scheduled_model(l, qubits, slot_of, on);
            let here = on_in_slot(on, j).contains(qubits[q]);
            let back = j > 0 && on_in_slot(on, j - 1).contains(qubits[q]);
            &&& a(l.mem(q, j)) == here
            &&& a(l.load(q, j)) == (here && !back)
            &&& a(l.store(q, j)) == (back && !here)
            &&& !a(l.pre(q))
        }),
{
    l.lemma_products();
    let k = l.slots as int;
    let gates = l.n_gates * l.slots;
    let each = l.n_qubits * l.slots;
    lemma_cell(l.n_qubits as int, k, q, j);
    let c = q * k + j;
    assert(l.mem(q, j) - gates == c);
    assert(l.load(q, j) - gates - each == c);
    assert(l.store(q, j) - gates - 2 * each == c);
}

pub(crate) proof fn lemma_used_cell(
    l: Layout,
    qubits: Seq<Qubit>,
    slot_of: Seq<usize>,
    on: Seq<Set<Qubit>>,
    j: int,
)
    requires
        0 <= j < l.slots,
    ensures
        scheduled_model(l, qubits, slot_of, on)(l.used(j)) == (j < on.len()),
{
    l.lemma_products();
}

/// The subcircuit of a slot acts on the qubits of the gates that run there.
pub(crate) proof fn lemma_gathered(circ: Circuit, slot_of: Seq<usize>, j: int, sub: Circuit, i: int, q: Qubit)
    requires
        slot_of.len() == circ.gates@.len(),
        gathers(circ, gates_in_slot(slot_of, j, slot_of.len() as int), sub),
        0 <= i < slot_of.len(),
        slot_of[i] == j,
        circ.gates@[i].operands().contains(q),
    ensures
        sub.qubits@.contains(q),
{
    let picks = gates_in_slot(slot_of, j, slot_of.len() as int);
    lemma_slot_filled(slot_of, j, slot_of.len() as int);
    assert(picks.contains(i));
    let k = picks.index_of(i);
    assert(sub.gates@[k] == circ.gates@[i]);
    assert(acts_on(sub.gates@, q));
}

/// The scheduled model is a partition within capacity.
#[verifier::spinoff_prover]
pub(crate) proof fn lemma_scheduled_feasible(
    l: Layout,
    circ: Circuit,
    cap: int,
    pre_loaded: Map<Qubit, bool>,
    slot_of: Seq<usize>,
    subs: Seq<Circuit>,
    on: Seq<Set<Qubit>>,
)
    requires
        circ.wf(),
        l.indexed(),
        l.slots > 0,
        l.n_gates == circ.gates@.len(),
        l.n_qubits == circ.qubits@.len(),
        forall|q: Qubit| !#[trigger] is_preloaded(pre_loaded, q),
        is_partition(circ, l.slots as int, slot_of),
        gathers_all(circ, occupied_slots(slot_of, l.slots as int), subs),
        0 <= cap,
        is_schedule(subs, cap, on),
    ensures
        feasible(scheduled_model(l, circ.qubits@, slot_of, on), l, circ, cap, pre_loaded),
{
    let qubits = circ.qubits@;
    let gates = circ.gates@;
    let w = qubits.len() as int;
    let a = scheduled_model(l, qubits, slot_of, on);
    let groups = occupied_slots(slot_of, l.slots as int);
    lemma_filled_first(circ, l.slots as int, slot_of, l.slots as int);
    assert forall|i: int, j: int| 0 <= i < l.n_gates && 0 <= j < l.slots implies #[trigger] a(
        l.gate(i, j),
    ) == (slot_of[i] == j) by {
        lemma_gate_cell(l, qubits, slot_of, on, i, j);
    }
    assert forall|i: int| 0 <= i < l.n_gates implies #[trigger] runs_once(a, l, i) by {
        assert(slot_of[i] < l.slots);
        assert(a(l.gate(i, slot_of[i] as int)));
    }
    assert forall|u: int, v: int|
        0 <= u < l.n_gates && #[trigger] successors_upto(gates, u, gates.len() as int).contains(
            v,
        ) implies runs_in_order(a, l, u, v) by {
        crate::partition::lemma_successors_upto(gates, u, gates.len() as int);
        assert(predecessors(gates, v).contains(u));
        assert(slot_of[u] <= slot_of[v]);
    }
    assert forall|i: int| 0 <= i < l.n_gates implies #[trigger] operands_resident(
        a,
        l,
        qubits,
        gates[i],
        i,
    ) by {
        assert forall|j: int, k: int|
            0 <= j < l.slots && 0 <= k < gates[i].operands().len() && #[trigger] a(
                l.gate(i, j),
            ) implies a(l.mem(qubit_position(qubits, #[trigger] gates[i].operands()[k]), j)) by {
            let x = gates[i].operands()[k];
            assert(slot_of[i] == j);
            assert(slot_named(slot_of, j));
            assert(j < groups.len());
            assert(gathers(circ, groups[j], subs[j]));
            assert(groups[j] == gates_in_slot(slot_of, j, slot_of.len() as int));
            assert(gates[i].operands().contains(x));
            lemma_gathered(circ, slot_of, j, subs[j], i, x);
            assert(on_processor(subs[j], cap, on[j]));
            assert(acts_on(gates, x));
            assert(qubits.contains(x));
            let p = qubit_position(qubits, x);
            assert(qubits[qubits.index_of(x)] == x);
            assert(0 <= p < w && qubits[p] == x);
            lemma_qubit_cells(l, qubits, slot_of, on, p, j);
        }
    }
    assert forall|q: int| 0 <= q < l.n_qubits implies #[trigger] a(l.pre(q)) == is_preloaded(
        pre_loaded,
        qubits[q],
    ) && moved(a, l, q, a(l.pre(q)), 0) by {
        lemma_qubit_cells(l, qubits, slot_of, on, q, 0);
    }
    assert forall|i: int, q: int| 0 <= i < l.slots - 1 && 0 <= q < l.n_qubits implies moved(
        a,
        l,
        q,
        #[trigger] a(l.mem(q, i)),
        i + 1,
    ) by {
        lemma_qubit_cells(l, qubits, slot_of, on, q, i);
        lemma_qubit_cells(l, qubits, slot_of, on, q, i + 1);
    }
    assert forall|j: int| 0 <= j < l.slots implies #[trigger] a(l.used(j)) == slot_has_gate(
        a,
        l,
        j,
    ) by {
        lemma_used_cell(l, qubits, slot_of, on, j);
        if j < on.len() {
            assert(groups[j] == gates_in_slot(slot_of, j, slot_of.len() as int));
            assert(slot_named(slot_of, j));
            let i = choose|i: int| 0 <= i < slot_of.len() && #[trigger] slot_of[i] == j;
            assert(a(l.gate(i, j)));
        } else if slot_has_gate(a, l, j) {
            let i = choose|i: int| 0 <= i < l.n_gates && #[trigger] a(l.gate(i, j));
            assert(slot_of[i] == j);
            assert(slot_named(slot_of, j));
        }
    }
    assert forall|j: int| 0 <= j < l.slots - 1 && #[trigger] a(l.used(j + 1)) implies a(
        l.used(j),
    ) by {
        lemma_used_cell(l, qubits, slot_of, on, j);
        lemma_used_cell(l, qubits, slot_of, on, j + 1);
    }
    assert forall|j: int| 0 <= j < l.slots implies #[trigger] slot_within(a, l, cap, j) by {
        lemma_scheduled_within(l, circ, cap, slot_of, subs, on, j);
    }
}

/// No more qubits are resident than the schedule has on the processor.
proof fn lemma_scheduled_within(
    l: Layout,
    circ: Circuit,
    cap: int,
    slot_of: Seq<usize>,
    subs: Seq<Circuit>,
    on: Seq<Set<Qubit>>,
    j: int,
)
    requires
        circ.wf(),
        l.indexed(),
        l.n_qubits == circ.qubits@.len(),
        0 <= cap,
        is_schedule(subs, cap, on),
        0 <= j < l.slots,
    ensures
        slot_within(scheduled_model(l, circ.qubits@, slot_of, on), l, cap, j),
{
    let qubits = circ.qubits@;
    let w = qubits.len() as int;
    let a = scheduled_model(l, qubits, slot_of, on);
    let here = |q: int| a(l.mem(q, j));
    let v = |q: int| l.mem(q, j);
    assert forall|q: int| 0 <= q < w implies 0 <= #[trigger] v(q) <= MAX_VAR by {
        l.lemma_qubit_index(q, j);
    }
    lemma_count_positive(a, v, w as nat);
    lemma_tally_same(|q: int| a(v(q)), here, w);
    assert(resident_lits(l, j) =~= Seq::new(w as nat, |q: int| pos(v(q))));
    lemma_increasing_distinct(qubits);
    lemma_picked(qubits, here, w);
    let all = on_in_slot(on, j);
    if on.len() > 0 {
        let b = if j < on.len() { j } else { on.len() - 1 };
        assert(on_processor(subs[b], cap, on[b]));
    }
    assert(picked(qubits, here, w).subset_of(all)) by {
        assert forall|x: Qubit| picked(qubits, here, w).contains(x) implies all.contains(x) by {
            let k = qubits.take(w).index_of(x);
            assert(qubits.take(w)[k] == qubits[k]);
            lemma_qubit_cells(l, qubits, slot_of, on, k, j);
        }
    }
    vstd::set_lib::lemma_len_subset(picked(qubits, here, w), all);
}

/// Column by column, the scheduled model moves no more than the schedule.
#[verifier::spinoff_prover]
pub(crate) proof fn lemma_scheduled_columns(
    l: Layout,
    circ: Circuit,
    slot_of: Seq<usize>,
    on: Seq<Set<Qubit>>,
    n: int,
)
    requires
        circ.wf(),
        l.n_qubits == circ.qubits@.len(),
        0 <= n <= l.slots,
        on.len() <= l.slots,
        forall|i: int| 0 <= i < on.len() ==> (#[trigger] on[i]).finite(),
    ensures
        ({
            let a = scheduled_model(l, circ.qubits@, slot_of, on);
            let w = circ.qubits@.len() as int;
            let m = if n < on.len() { n } else { on.len() as int };
            &&& by_columns(enters(a, l), w, n) <= scheduled_loads(on, m)
            &&& by_columns(leaves(a, l), w, n) <= scheduled_stores(on, m)
        }),
    decreases n,
{
    let qubits = circ.qubits@;
    let w = qubits.len() as int;
    let a = scheduled_model(l, qubits, slot_of, on);
    if n > 0 {
        lemma_scheduled_columns(l, circ, slot_of, on, n - 1);
        let j = n - 1;
        let came = |q: int| enters(a, l)(q, j);
        let went = |q: int| leaves(a, l)(q, j);
        lemma_increasing_distinct(qubits);
        lemma_picked(qubits, came, w);
        lemma_picked(qubits, went, w);
        let here = on_in_slot(on, j);
        let back = if j > 0 { on_in_slot(on, j - 1) } else { Set::empty() };
        assert(here.finite() && back.finite());
        let fresh = here.difference(back);
        let gone = back.difference(here);
        assert forall|x: Qubit| picked(qubits, came, w).contains(x) implies fresh.contains(x) by {
            let k = qubits.take(w).index_of(x);
            assert(qubits.take(w)[k] == qubits[k]);
            assert(came(k));
            lemma_qubit_cells(l, qubits, slot_of, on, k, j);
            if j > 0 {
                lemma_qubit_cells(l, qubits, slot_of, on, k, j - 1);
            }
        }
        assert forall|x: Qubit| picked(qubits, went, w).contains(x) implies gone.contains(x) by {
            let k = qubits.take(w).index_of(x);
            assert(qubits.take(w)[k] == qubits[k]);
            assert(went(k));
            lemma_qubit_cells(l, qubits, slot_of, on, k, j);
            lemma_qubit_cells(l, qubits, slot_of, on, k, j - 1);
        }
        vstd::set_lib::lemma_len_subset(picked(qubits, came, w), fresh);
        vstd::set_lib::lemma_len_subset(picked(qubits, went, w), gone);
        if j < on.len() {
            assert(fresh == on[j].difference(on_before(on, j)));
            assert(gone == on_before(on, j).difference(on[j]));
        } else {
            assert(here == back);
            assert(fresh =~= Set::empty());
            assert(gone =~= Set::empty());
        }
    }
}

/// For every partition whose subcircuits fit the processor there is a model within
/// capacity that counts no more loads and stores than the program has.
#[verifier::spinoff_prover]
pub proof fn law_programs_have_models(
    l: Layout,
    circ: Circuit,
    cap: int,
    pre_loaded: Map<Qubit, bool>,
    slot_of: Seq<usize>,
    subs: Seq<Circuit>,
) -> (a: spec_fn(int) -> bool)
    requires
        circ.wf(),
        l.indexed(),
        l.slots > 0,
        l.n_gates == circ.gates@.len(),
        l.n_qubits == circ.qubits@.len(),
        0 <= cap <= usize::MAX,
        forall|q: Qubit| !#[trigger] is_preloaded(pre_loaded, q),
        is_partition(circ, l.slots as int, slot_of),
        gathers_all(circ, occupied_slots(slot_of, l.slots as int), subs),
        all_within(subs, cap),
    ensures
        feasible(a, l, circ, cap, pre_loaded),
        true_count(a, objective_lits(l)) <= move_count(
            load_store_steps(subs, cap, true, subs.len() as int),
        ),
{
    let qubits = circ.qubits@;
    let w = qubits.len() as int;
    let on = program_schedule(subs, cap);
    let k = l.slots as int;
    lemma_fit(subs, cap);
    law_program_follows_its_schedule(subs, cap);
    lemma_filled_first(circ, k, slot_of, k);
    let a = scheduled_model(l, qubits, slot_of, on);
    lemma_scheduled_feasible(l, circ, cap, pre_loaded, slot_of, subs, on);
    assert forall|i: int| 0 <= i < on.len() implies (#[trigger] on[i]).finite() by {
        assert(on_processor(subs[i], cap, on[i]));
    }
    lemma_scheduled_columns(l, circ, slot_of, on, k);
    lemma_rows_and_columns(enters(a, l), w, k);
    lemma_rows_and_columns(leaves(a, l), w, k);
    let load = |q: int, j: int| a(l.load(q, j));
    let store = |q: int, j: int| a(l.store(q, j));
    assert forall|q: int, j: int| 0 <= q < w && 0 <= j < k && #[trigger] load(q, j) implies enters(
        a,
        l,
    )(q, j) by {
        lemma_qubit_cells(l, qubits, slot_of, on, q, j);
        if j > 0 {
            lemma_qubit_cells(l, qubits, slot_of, on, q, j - 1);
        }
    }
    assert forall|q: int, j: int| 0 <= q < w && 0 <= j < k && #[trigger] store(q, j) implies leaves(
        a,
        l,
    )(q, j) by {
        lemma_qubit_cells(l, qubits, slot_of, on, q, j);
        if j > 0 {
            lemma_qubit_cells(l, qubits, slot_of, on, q, j - 1);
        }
    }
    lemma_rows_mono(load, enters(a, l), w, k, k);
    lemma_rows_mono(store, leaves(a, l), w, k, k);
    lemma_cost_by_rows(a, l, w);
    lemma_true_count_add(a, load_lits(l, w), store_lits(l, w));
    a
}

// ---------------------------------------------------------------------------
// The fewest moves
// ---------------------------------------------------------------------------
/// With a complete solver and an empty processor beforehand, the program of the partition
/// that the search hands back has no more loads and stores than that of any partition of
/// the circuit into at most as many subcircuits that fit the processor; and where the
/// search hands back none, every one of them has at least as many as the bound that the
/// search started from.
pub proof fn law_found_partition_moves_least<
    F: Fn(&PartitionProblem, &Vec<PropLit>) -> SolveReply,
>(
    solve: F,
    p: PartitionProblem,
    circ: Circuit,
    cap: int,
    slots: int,
    pre_loaded: Map<Qubit, bool>,
    initial_best_cost: Option<usize>,
    r: Option<(Vec<Circuit>, KeyedMap<Qubit, bool>)>,
    slot_of: Seq<usize>,
    subs: Seq<Circuit>,
)
    requires
        circ.wf(),
        complete(solve),
        slots > 0,
        0 <= cap <= usize::MAX,
        forall|q: Qubit| !#[trigger] is_preloaded(pre_loaded, q),
        encodes(p, circ, cap, slots, pre_loaded),
        optimized(circ, slots, initial_best_cost, solve, p, r),
        is_partition(circ, slots, slot_of),
        gathers_all(circ, occupied_slots(slot_of, slots), subs),
        all_within(subs, cap),
    ensures
        ({
            let moves = move_count(load_store_steps(subs, cap, true, subs.len() as int));
            match r {
                Some((best, mem)) => move_count(
                    load_store_steps(best@, cap, true, best@.len() as int),
                ) <= moves,
                None => first_bound(p.objective@.len() as int, initial_best_cost) <= moves,
            }
        }),
{
    let l = p.layout;
    let b = law_programs_have_models(l, circ, cap, pre_loaded, slot_of, subs);
    law_complete_search_is_optimal(solve, p, circ, cap, slots, pre_loaded, initial_best_cost, r);
    match r {
        Some((best, mem)) => {
            let (a, found, resident) = choose|
                a: spec_fn(int) -> bool,
                found: Seq<usize>,
                resident: Seq<bool>,
            |
                #[trigger] cheapest(a, l, circ, cap, pre_loaded) && #[trigger] reads_model(
                    a,
                    l,
                    found,
                    resident,
                ) && gathers_all(circ, occupied_slots(found, slots), best@) && final_mem_of(
                    circ.qubits@,
                    resident,
                    mem@,
                );
            law_program_moves_no_more_than_the_model(
                a,
                l,
                circ,
                cap,
                pre_loaded,
                found,
                resident,
                best@,
            );
        },
        None => {},
    }
}

} // verus!
