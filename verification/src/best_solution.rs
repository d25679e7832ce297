//! A cheapest solution of the mixed-integer program is a partition with the fewest moves.

use vstd::prelude::*;

#[allow(unused_imports)]
use crate::best_partition::{
    by_rows, enters, is_partition, leaves, lemma_cell, lemma_filled_first, lemma_fit, lemma_moved,
    lemma_picked, lemma_qubit_cells, lemma_resident_moves, lemma_residents_hold,
    lemma_rows_and_columns, lemma_scheduled_columns, lemma_scheduled_feasible, resident_schedule,
    scheduled_model, tally,
};
#[allow(unused_imports)]
use crate::circuit::{acts_on, successors_upto, Circuit, Gate, Qubit};
#[allow(unused_imports)]
use crate::compile::move_count;
#[allow(unused_imports)]
use crate::fewest_moves::{
    law_furthest_next_use_moves_least, law_program_follows_its_schedule, on_before, on_processor,
    program_schedule, scheduled_loads, scheduled_stores,
};
#[allow(unused_imports)]
use crate::load_store::{lemma_increasing_distinct, load_store_steps};
#[allow(unused_imports)]
use crate::mip_partition::{
    all_moves, at_most, capacity_rows, cutoff_rows, law_solution_respects_capacity,
    law_solutions_describe_partitions, lemma_row_sum_push, lemma_rows_append, lemma_slot_difference,
    lemma_sum_counts, mip_column, mip_rows, mip_width, moves_of, ones, order_rows, order_rows_of,
    partition_rows_hold, placement_rows, prefix_rows, resident_rows, resident_rows_at,
    resident_rows_of, row_holds, row_sum, rows_hold, term, transition_rows, transition_rows_of,
    used_rows, whole,
};
#[allow(unused_imports)]
use crate::sat_partition::{
    all_within, feasible, gates_in_slot, gathers, gathers_all, lemma_slot_from, lit_true,
    occupied_slots, operands_resident, qubit_position, resident_lits, runs_in_order, runs_once,
    slot_from, slot_has_gate, slot_within, Layout, MAX_VAR,
};

verus! {

// ---------------------------------------------------------------------------
// Rows of few columns
// ---------------------------------------------------------------------------
proof fn lemma_pair_sum(x: spec_fn(int) -> int, c: int, d: int)
    requires
        0 <= c <= MAX_VAR,
        0 <= d <= MAX_VAR,
    ensures
        row_sum(x, seq![term(c, 1), term(d, -1)]) == x(c) - x(d),
{
    let none = Seq::<(usize, i64)>::empty();
    let s = term(c, 1);
    let t = term(d, -1);
    assert(seq![s, t] =~= none.push(s).push(t));
    lemma_row_sum_push(x, none, s);
    lemma_row_sum_push(x, none.push(s), t);
    assert(row_sum(x, none) == 0);
    let xs = x(c);
    let xt = x(d);
    assert(s.1 * xs == xs && t.1 * xt == -xt) by (nonlinear_arith)
        requires
            s.1 == 1,
            t.1 == -1,
    ;
}

proof fn lemma_triple_sum(x: spec_fn(int) -> int, c: int, d: int, e: int)
    requires
        0 <= c <= MAX_VAR,
        0 <= d <= MAX_VAR,
        0 <= e <= MAX_VAR,
    ensures
        row_sum(x, seq![term(c, 1), term(d, -1), term(e, -1)]) == x(c) - x(d) - x(e),
{
    let two = seq![term(c, 1), term(d, -1)];
    let u = term(e, -1);
    assert(seq![term(c, 1), term(d, -1), term(e, -1)] =~= two.push(u));
    lemma_pair_sum(x, c, d);
    lemma_row_sum_push(x, two, u);
    let xu = x(e);
    assert(u.1 * xu == -xu) by (nonlinear_arith)
        requires
            u.1 == -1,
    ;
}

proof fn lemma_row_sum_add(x: spec_fn(int) -> int, s: Seq<(usize, i64)>, t: Seq<(usize, i64)>)
    ensures
        row_sum(x, s + t) == row_sum(x, s) + row_sum(x, t),
    decreases t.len(),
{
    if t.len() == 0 {
        assert(s + t =~= s);
    } else {
        lemma_row_sum_add(x, s, t.drop_last());
        assert((s + t).drop_last() =~= s + t.drop_last());
    }
}

/// How the sum of a column for each of the first `n` numbers compares with a count.
proof fn lemma_sum_and_tally(
    x: spec_fn(int) -> int,
    v: spec_fn(int) -> int,
    f: spec_fn(int) -> bool,
    n: nat,
)
    requires
        forall|k: int| 0 <= k < n ==> 0 <= #[trigger] v(k) <= MAX_VAR,
    ensures
        (forall|k: int| 0 <= k < n ==> x(#[trigger] v(k)) >= (if f(k) { 1int } else { 0 }))
            ==> row_sum(x, Seq::new(n, |k: int| term(v(k), 1))) >= tally(f, n as int),
        (forall|k: int| 0 <= k < n ==> x(#[trigger] v(k)) <= (if f(k) { 1int } else { 0 }))
            ==> row_sum(x, Seq::new(n, |k: int| term(v(k), 1))) <= tally(f, n as int),
    decreases n,
{
    let terms = Seq::new(n, |k: int| term(v(k), 1));
    if n > 0 {
        let m = (n - 1) as nat;
        lemma_sum_and_tally(x, v, f, m);
        assert(terms.drop_last() =~= Seq::new(m, |k: int| term(v(k), 1)));
        assert(0 <= v(n - 1) <= MAX_VAR);
        let last = terms.last();
        assert(last == term(v(n - 1), 1));
        let xl = x(v(n - 1));
        assert(last.1 * xl == xl) by (nonlinear_arith)
            requires
                last.1 == 1,
        ;
        assert(row_sum(x, terms) == row_sum(x, terms.drop_last()) + xl);
    }
}

proof fn lemma_tally_shift(f: spec_fn(int) -> bool, n: int)
    requires
        0 < n,
        !f(0),
    ensures
        tally(f, n) == tally(|j: int| f(j + 1), n - 1),
    decreases n,
{
    if n > 1 {
        lemma_tally_shift(f, n - 1);
    } else {
        assert(tally(f, 1) == tally(f, 0) + if f(0) {
            1nat
        } else {
            0nat
        });
    }
}

// ---------------------------------------------------------------------------
// Loads and stores
// ---------------------------------------------------------------------------
/// A qubit that enters is loaded, and one that leaves is stored.
spec fn counts_moves(x: spec_fn(int) -> int, l: Layout, q: int, j: int) -> bool {
    if j == 0 {
        x(l.mem(q, 0)) <= x(l.load(q, 0))
    } else {
        x(l.mem(q, j)) - x(l.mem(q, j - 1)) <= x(l.load(q, j)) && x(l.mem(q, j - 1)) - x(l.mem(q, j))
            <= x(l.store(q, j))
    }
}

#[verifier::spinoff_prover]
proof fn lemma_transitions_of(x: spec_fn(int) -> int, l: Layout, q: int, n: int)
    requires
        l.indexed(),
        0 <= q < l.n_qubits,
        1 <= n <= l.slots,
    ensures
        rows_hold(x, transition_rows_of(l, q, n)) <==> forall|j: int|
            0 <= j < n ==> #[trigger] counts_moves(x, l, q, j),
    decreases n,
{
    let rows = transition_rows_of(l, q, n);
    if n == 1 {
        l.lemma_qubit_index(q, 0);
        lemma_pair_sum(x, l.mem(q, 0), l.load(q, 0));
        assert(rows.len() == 1);
        assert(row_holds(x, rows[0]) == counts_moves(x, l, q, 0));
        if rows_hold(x, rows) {
            assert(row_holds(x, rows[0]));
        }
        if forall|j: int| 0 <= j < n ==> #[trigger] counts_moves(x, l, q, j) {
            assert(counts_moves(x, l, q, 0));
        }
    } else {
        let j = n - 1;
        lemma_transitions_of(x, l, q, j);
        l.lemma_qubit_index(q, j);
        l.lemma_qubit_index(q, j - 1);
        let before = transition_rows_of(l, q, j);
        let a = at_most(
            seq![term(l.mem(q, n - 1), 1), term(l.mem(q, n - 2), -1), term(l.load(q, n - 1), -1)],
            0,
        );
        let b = at_most(
            seq![term(l.mem(q, n - 2), 1), term(l.mem(q, n - 1), -1), term(l.store(q, n - 1), -1)],
            0,
        );
        let here = seq![a, b];
        assert(rows == before + here);
        lemma_rows_append(x, before, here);
        lemma_triple_sum(x, l.mem(q, j), l.mem(q, j - 1), l.load(q, j));
        lemma_triple_sum(x, l.mem(q, j - 1), l.mem(q, j), l.store(q, j));
        assert(row_holds(x, a) && row_holds(x, b) <==> counts_moves(x, l, q, j));
        assert(rows_hold(x, here) <==> counts_moves(x, l, q, j)) by {
            if rows_hold(x, here) {
                assert(row_holds(x, here[0]) && row_holds(x, here[1]));
            }
        }
        if rows_hold(x, before) && counts_moves(x, l, q, j) {
            assert forall|k: int| 0 <= k < n implies #[trigger] counts_moves(x, l, q, k) by {}
        }
    }
}

proof fn lemma_transitions(x: spec_fn(int) -> int, l: Layout, n: int)
    requires
        l.indexed(),
        l.slots > 0,
        0 <= n <= l.n_qubits,
    ensures
        rows_hold(x, transition_rows(l, n)) <==> forall|q: int, j: int|
            0 <= q < n && 0 <= j < l.slots ==> #[trigger] counts_moves(x, l, q, j),
    decreases n,
{
    if n > 0 {
        lemma_transitions(x, l, n - 1);
        lemma_transitions_of(x, l, n - 1, l.slots as int);
        let before = transition_rows(l, n - 1);
        let here = transition_rows_of(l, n - 1, l.slots as int);
        lemma_rows_append(x, before, here);
        if rows_hold(x, before) && rows_hold(x, here) {
            assert forall|q: int, j: int| 0 <= q < n && 0 <= j < l.slots implies #[trigger] counts_moves(
                x,
                l,
                q,
                j,
            ) by {}
        }
        if forall|q: int, j: int|
            0 <= q < n && 0 <= j < l.slots ==> #[trigger] counts_moves(x, l, q, j) {
            assert forall|j: int| 0 <= j < l.slots implies #[trigger] counts_moves(
                x,
                l,
                n - 1,
                j,
            ) by {}
        }
    }
}

/// The objective over the first `n` columns.
pub open spec fn objective_upto(x: spec_fn(int) -> int, l: Layout, n: int) -> int
    decreases n,
{
    if n <= 0 {
        0
    } else {
        objective_upto(x, l, n - 1) + mip_column(l, n - 1).objective * x(n - 1)
    }
}

/// What the program minimises.
pub open spec fn solution_cost(x: spec_fn(int) -> int, l: Layout) -> int {
    objective_upto(x, l, mip_width(l))
}

proof fn lemma_free_columns(x: spec_fn(int) -> int, l: Layout, m: int, n: int)
    requires
        0 <= m <= n,
        forall|c: int| m <= c < n ==> (#[trigger] mip_column(l, c)).objective == 0,
    ensures
        objective_upto(x, l, n) == objective_upto(x, l, m),
    decreases n,
{
    if m < n {
        lemma_free_columns(x, l, m, n - 1);
        let w = mip_column(l, n - 1).objective;
        let v = x(n - 1);
        assert(w * v == 0) by (nonlinear_arith)
            requires
                w == 0,
        ;
    }
}

/// The loads of qubit `q`, slot by slot.
proof fn lemma_load_columns(x: spec_fn(int) -> int, l: Layout, q: int, n: int)
    requires
        l.indexed(),
        0 <= q < l.n_qubits,
        0 <= n <= l.slots,
    ensures
        objective_upto(x, l, l.load(q, 0) + n) == objective_upto(x, l, l.load(q, 0)) + row_sum(
            x,
            Seq::new(n as nat, |j: int| term(l.load(q, j), 1)),
        ),
    decreases n,
{
    let terms = Seq::new(n as nat, |j: int| term(l.load(q, j), 1));
    if n > 0 {
        let j = n - 1;
        lemma_load_columns(x, l, q, j);
        l.lemma_products();
        l.lemma_qubit_index(q, j);
        l.lemma_qubit_index(q, 0);
        lemma_cell(l.n_qubits as int, l.slots as int, q, j);
        let c = l.load(q, j);
        assert(c == l.load(q, 0) + j);
        assert(mip_column(l, c).objective == 1);
        assert(terms.drop_last() =~= Seq::new(j as nat, |j: int| term(l.load(q, j), 1)));
        assert(terms.last() == term(c, 1));
        let v = x(c);
        assert(1int * v == v) by (nonlinear_arith);
    }
}

/// The stores of qubit `q` after the first slot, slot by slot.
proof fn lemma_store_columns(x: spec_fn(int) -> int, l: Layout, q: int, n: int)
    requires
        l.indexed(),
        0 <= q < l.n_qubits,
        0 < n <= l.slots,
    ensures
        objective_upto(x, l, l.store(q, 0) + n) == objective_upto(x, l, l.store(q, 0)) + row_sum(
            x,
            Seq::new((n - 1) as nat, |j: int| term(l.store(q, j + 1), 1)),
        ),
    decreases n,
{
    let terms = Seq::new((n - 1) as nat, |j: int| term(l.store(q, j + 1), 1));
    let j = n - 1;
    l.lemma_products();
    l.lemma_qubit_index(q, j);
    l.lemma_qubit_index(q, 0);
    lemma_cell(l.n_qubits as int, l.slots as int, q, j);
    let c = l.store(q, j);
    assert(c == l.store(q, 0) + j);
    let gate_cols = l.n_gates * l.slots;
    let qubit_cols = l.n_qubits * l.slots;
    assert(c - gate_cols - 2 * qubit_cols == q * l.slots + j);
    assert(mip_column(l, c).objective == if j >= 1 {
        1int
    } else {
        0
    });
    let v = x(c);
    if n > 1 {
        lemma_store_columns(x, l, q, j);
        assert(terms.drop_last() =~= Seq::new((j - 1) as nat, |j: int| term(l.store(q, j + 1), 1)));
        assert(terms.last() == term(c, 1));
        assert(1int * v == v) by (nonlinear_arith);
    } else {
        assert(0int * v == 0) by (nonlinear_arith);
        assert(row_sum(x, terms) == 0);
    }
}

/// The loads of the first `n` qubits, and their stores after the first slot.
proof fn lemma_columns_of_qubits(x: spec_fn(int) -> int, l: Layout, n: int)
    requires
        l.indexed(),
        l.slots > 0,
        0 <= n <= l.n_qubits,
    ensures
        (objective_upto(x, l, l.load(n, 0)) - objective_upto(x, l, l.load(0, 0))) + (
        objective_upto(x, l, l.store(n, 0)) - objective_upto(x, l, l.store(0, 0))) == row_sum(
            x,
            all_moves(l, n),
        ),
    decreases n,
{
    if n > 0 {
        let q = n - 1;
        lemma_columns_of_qubits(x, l, q);
        lemma_load_columns(x, l, q, l.slots as int);
        lemma_store_columns(x, l, q, l.slots as int);
        assert(n * l.slots == q * l.slots + l.slots) by (nonlinear_arith)
            requires
                n == q + 1,
        ;
        assert(l.load(n, 0) == l.load(q, 0) + l.slots);
        assert(l.store(n, 0) == l.store(q, 0) + l.slots);
        let loads = Seq::new(l.slots as nat, |j: int| term(l.load(q, j), 1));
        let stores = Seq::new((l.slots - 1) as nat, |j: int| term(l.store(q, j + 1), 1));
        lemma_row_sum_add(x, all_moves(l, q), moves_of(l, q));
        lemma_row_sum_add(x, loads, stores);
    } else {
        assert(row_sum(x, all_moves(l, 0)) == 0);
    }
}

/// The objective is the sum of all loads, and of the stores after the first slot: what
/// the cutoff bounds.
pub proof fn law_objective_counts_all_moves(x: spec_fn(int) -> int, l: Layout)
    requires
        l.indexed(),
        l.slots > 0,
    ensures
        solution_cost(x, l) == row_sum(x, all_moves(l, l.n_qubits as int)),
{
    let n = l.n_qubits as int;
    let gate_cols = l.n_gates * l.slots;
    let qubit_cols = l.n_qubits * l.slots;
    l.lemma_products();
    lemma_columns_of_qubits(x, l, n);
    assert(0 * l.slots == 0) by (nonlinear_arith);
    assert(l.load(0, 0) == gate_cols + qubit_cols);
    assert(l.load(n, 0) == l.store(0, 0));
    assert(l.store(n, 0) == gate_cols + 3 * qubit_cols);
    lemma_free_columns(x, l, 0, gate_cols + qubit_cols);
    lemma_free_columns(x, l, gate_cols + 3 * qubit_cols, mip_width(l));
}

/// How the loads and stores of a solution compare with the qubits that enter and leave.
#[verifier::spinoff_prover]
proof fn lemma_cost_and_moves(x: spec_fn(int) -> int, a: spec_fn(int) -> bool, l: Layout, n: int)
    requires
        l.indexed(),
        l.slots > 0,
        0 <= n <= l.n_qubits,
    ensures
        (forall|q: int, j: int|
            0 <= q < n && 0 <= j < l.slots ==> #[trigger] x(l.load(q, j)) >= (if enters(a, l)(q, j) {
                1int
            } else {
                0
            }) && x(l.store(q, j)) >= (if leaves(a, l)(q, j) {
                1int
            } else {
                0
            })) ==> row_sum(x, all_moves(l, n)) >= by_rows(enters(a, l), n, l.slots as int)
            + by_rows(leaves(a, l), n, l.slots as int),
        (forall|q: int, j: int|
            0 <= q < n && 0 <= j < l.slots ==> #[trigger] x(l.load(q, j)) <= (if enters(a, l)(q, j) {
                1int
            } else {
                0
            }) && x(l.store(q, j)) <= (if leaves(a, l)(q, j) {
                1int
            } else {
                0
            })) ==> row_sum(x, all_moves(l, n)) <= by_rows(enters(a, l), n, l.slots as int)
            + by_rows(leaves(a, l), n, l.slots as int),
    decreases n,
{
    if n > 0 {
        let q = n - 1;
        let k = l.slots as int;
        lemma_cost_and_moves(x, a, l, q);
        let load = |j: int| l.load(q, j);
        let store = |j: int| l.store(q, j + 1);
        let came = |j: int| enters(a, l)(q, j);
        let went = |j: int| leaves(a, l)(q, j);
        let next = |j: int| went(j + 1);
        assert forall|j: int| 0 <= j < k implies 0 <= #[trigger] load(j) <= MAX_VAR by {
            l.lemma_qubit_index(q, j);
        }
        assert forall|j: int| 0 <= j < k - 1 implies 0 <= #[trigger] store(j) <= MAX_VAR by {
            l.lemma_qubit_index(q, j + 1);
        }
        let loads = Seq::new(l.slots as nat, |j: int| term(l.load(q, j), 1));
        let stores = Seq::new((l.slots - 1) as nat, |j: int| term(l.store(q, j + 1), 1));
        assert(loads =~= Seq::new(l.slots as nat, |j: int| term(load(j), 1)));
        assert(stores =~= Seq::new((l.slots - 1) as nat, |j: int| term(store(j), 1)));
        lemma_sum_and_tally(x, load, came, l.slots as nat);
        lemma_sum_and_tally(x, store, next, (l.slots - 1) as nat);
        lemma_tally_shift(went, k);
        lemma_row_sum_add(x, all_moves(l, q), moves_of(l, q));
        lemma_row_sum_add(x, loads, stores);
        if forall|q: int, j: int|
            0 <= q < n && 0 <= j < l.slots ==> #[trigger] x(l.load(q, j)) >= (if enters(a, l)(q, j) {
                1int
            } else {
                0
            }) && x(l.store(q, j)) >= (if leaves(a, l)(q, j) {
                1int
            } else {
                0
            }) {
            assert forall|j: int| 0 <= j < k implies x(#[trigger] load(j)) >= (if came(j) {
                1int
            } else {
                0
            }) by {
                assert(x(l.load(q, j)) >= (if enters(a, l)(q, j) { 1int } else { 0 }));
            }
            assert forall|j: int| 0 <= j < k - 1 implies x(#[trigger] store(j)) >= (if next(j) {
                1int
            } else {
                0
            }) by {
                assert(x(l.load(q, j + 1)) >= (if enters(a, l)(q, j + 1) { 1int } else { 0 }));
            }
        }
        if forall|q: int, j: int|
            0 <= q < n && 0 <= j < l.slots ==> #[trigger] x(l.load(q, j)) <= (if enters(a, l)(q, j) {
                1int
            } else {
                0
            }) && x(l.store(q, j)) <= (if leaves(a, l)(q, j) {
                1int
            } else {
                0
            }) {
            assert forall|j: int| 0 <= j < k implies x(#[trigger] load(j)) <= (if came(j) {
                1int
            } else {
                0
            }) by {
                assert(x(l.load(q, j)) <= (if enters(a, l)(q, j) { 1int } else { 0 }));
            }
            assert forall|j: int| 0 <= j < k - 1 implies x(#[trigger] store(j)) <= (if next(j) {
                1int
            } else {
                0
            }) by {
                assert(x(l.load(q, j + 1)) <= (if enters(a, l)(q, j + 1) { 1int } else { 0 }));
            }
        }
    }
}

// ---------------------------------------------------------------------------
// Slots without a gate
// ---------------------------------------------------------------------------
/// The sets of the first `j` slots, without those of slots that no gate runs in.
spec fn thinned(on: Seq<Set<Qubit>>, slot_of: Seq<usize>, j: int) -> Seq<Set<Qubit>>
    decreases j,
{
    if j <= 0 {
        Seq::empty()
    } else if gates_in_slot(slot_of, j - 1, slot_of.len() as int).len() == 0 {
        thinned(on, slot_of, j - 1)
    } else {
        thinned(on, slot_of, j - 1).push(on[j - 1])
    }
}

proof fn lemma_thinned_slot(on: Seq<Set<Qubit>>, slot_of: Seq<usize>, n: int, b: int) -> (j: int)
    requires
        0 <= b < occupied_slots(slot_of, n).len(),
    ensures
        thinned(on, slot_of, n).len() == occupied_slots(slot_of, n).len(),
        0 <= j < n,
        occupied_slots(slot_of, n)[b] == gates_in_slot(slot_of, j, slot_of.len() as int),
        thinned(on, slot_of, n)[b] == on[j],
    decreases n,
{
    lemma_thinned_len(on, slot_of, n);
    if n <= 0 {
        0
    } else {
        lemma_thinned_len(on, slot_of, n - 1);
        if b < occupied_slots(slot_of, n - 1).len() {
            lemma_thinned_slot(on, slot_of, n - 1, b)
        } else {
            n - 1
        }
    }
}

proof fn lemma_thinned_len(on: Seq<Set<Qubit>>, slot_of: Seq<usize>, n: int)
    ensures
        thinned(on, slot_of, n).len() == occupied_slots(slot_of, n).len(),
    decreases n,
{
    if n > 0 {
        lemma_thinned_len(on, slot_of, n - 1);
    }
}

proof fn lemma_loads_prefix(on: Seq<Set<Qubit>>, s: Set<Qubit>, n: int)
    requires
        0 <= n <= on.len(),
    ensures
        scheduled_loads(on.push(s), n) == scheduled_loads(on, n),
        scheduled_stores(on.push(s), n) == scheduled_stores(on, n),
    decreases n,
{
    if n > 0 {
        lemma_loads_prefix(on, s, n - 1);
        assert(on.push(s)[n - 1] == on[n - 1]);
        assert(on_before(on.push(s), n - 1) == on_before(on, n - 1));
    }
}

/// A detour moves no less.
proof fn lemma_detour(a: Set<Qubit>, b: Set<Qubit>, c: Set<Qubit>)
    requires
        a.finite(),
        b.finite(),
    ensures
        a.difference(c).len() <= a.difference(b).len() + b.difference(c).len(),
{
    let ab = a.difference(b);
    let bc = b.difference(c);
    assert(a.difference(c).subset_of(ab.union(bc)));
    vstd::set_lib::lemma_len_union(ab, bc);
    vstd::set_lib::lemma_len_subset(a.difference(c), ab.union(bc));
}

/// Leaving slots out moves no more.
#[verifier::spinoff_prover]
proof fn lemma_thinned_moves(on: Seq<Set<Qubit>>, slot_of: Seq<usize>, n: int)
    requires
        0 <= n <= on.len(),
        forall|i: int| 0 <= i < on.len() ==> (#[trigger] on[i]).finite(),
    ensures
        ({
            let few = thinned(on, slot_of, n);
            let m = few.len() as int;
            &&& on_before(few, m).finite()
            &&& scheduled_loads(few, m) + on_before(on, n).difference(on_before(few, m)).len()
                <= scheduled_loads(on, n)
            &&& scheduled_stores(few, m) + on_before(few, m).difference(on_before(on, n)).len()
                <= scheduled_stores(on, n)
        }),
    decreases n,
{
    let few = thinned(on, slot_of, n);
    let m = few.len() as int;
    if n > 0 {
        lemma_thinned_moves(on, slot_of, n - 1);
        let before = thinned(on, slot_of, n - 1);
        let k = before.len() as int;
        let last = on_before(before, k);
        let prev = on_before(on, n - 1);
        let here = on[n - 1];
        lemma_detour(here, prev, last);
        lemma_detour(last, prev, here);
        if gates_in_slot(slot_of, n - 1, slot_of.len() as int).len() > 0 {
            assert(few == before.push(here));
            lemma_loads_prefix(before, here, k);
            assert(few[k] == here);
            assert(on_before(few, k) == last) by {
                if k > 0 {
                    assert(few[k - 1] == before[k - 1]);
                }
            }
            assert(on_before(few, m) == here);
            assert(here.difference(here) =~= Set::empty());
        }
    } else {
        assert(on_before(on, n).difference(on_before(few, m)) =~= Set::empty());
        assert(on_before(few, m).difference(on_before(on, n)) =~= Set::empty());
    }
}

// ---------------------------------------------------------------------------
// From solutions to programs
// ---------------------------------------------------------------------------
/// The values satisfy the rows of the program; those of placements and residency are 0
/// or 1, and no load or store is negative.
pub open spec fn is_solution(
    x: spec_fn(int) -> int,
    l: Layout,
    circ: Circuit,
    cap: int,
    cutoff: Option<usize>,
) -> bool {
    &&& whole(x, l)
    &&& forall|q: int, j: int|
        0 <= q < l.n_qubits && 0 <= j < l.slots ==> #[trigger] x(l.load(q, j)) >= 0 && x(
            l.store(q, j),
        ) >= 0
    &&& rows_hold(x, mip_rows(l, circ.qubits@, circ.gates@, cap, cutoff))
}

/// The groups of rows.
proof fn lemma_row_groups(
    x: spec_fn(int) -> int,
    l: Layout,
    circ: Circuit,
    cap: int,
    cutoff: Option<usize>,
)
    ensures
        rows_hold(x, mip_rows(l, circ.qubits@, circ.gates@, cap, cutoff)) <==> partition_rows_hold(
            x,
            l,
            circ,
            cap,
        ) && rows_hold(x, transition_rows(l, l.n_qubits as int)) && rows_hold(
            x,
            used_rows(l, l.slots as int),
        ) && rows_hold(x, prefix_rows(l)) && rows_hold(x, cutoff_rows(l, cutoff)),
{
    let p = placement_rows(l);
    let o = order_rows(l, circ.gates@, l.n_gates as int);
    let r = resident_rows(l, circ.qubits@, circ.gates@, l.n_gates as int);
    let c = capacity_rows(l, cap);
    let t = transition_rows(l, l.n_qubits as int);
    let u = used_rows(l, l.slots as int);
    let f = prefix_rows(l);
    lemma_rows_append(x, p + o + r + c + t + u + f, cutoff_rows(l, cutoff));
    lemma_rows_append(x, p + o + r + c + t + u, f);
    lemma_rows_append(x, p + o + r + c + t, u);
    lemma_rows_append(x, p + o + r + c, t);
    lemma_rows_append(x, p + o + r, c);
    lemma_rows_append(x, p + o, r);
    lemma_rows_append(x, p, o);
}

/// A solution reads as subcircuits that fit the processor, and their program has no more
/// loads and stores than the solution counts.
#[verifier::spinoff_prover]
pub proof fn law_program_moves_no_more_than_the_solution(
    x: spec_fn(int) -> int,
    l: Layout,
    circ: Circuit,
    cap: int,
    cutoff: Option<usize>,
    slot_of: Seq<usize>,
    subs: Seq<Circuit>,
)
    requires
        circ.wf(),
        l.indexed(),
        l.slots > 0,
        l.n_gates == circ.gates@.len(),
        l.n_qubits == circ.qubits@.len(),
        0 <= cap <= usize::MAX,
        is_solution(x, l, circ, cap, cutoff),
        slot_of.len() == l.n_gates,
        forall|i: int| 0 <= i < l.n_gates ==> #[trigger] slot_of[i] == slot_from(ones(x), l, i, 0),
        gathers_all(circ, occupied_slots(slot_of, l.slots as int), subs),
    ensures
        all_within(subs, cap),
        move_count(load_store_steps(subs, cap, true, subs.len() as int)) <= solution_cost(x, l),
{
    let a = ones(x);
    let qubits = circ.qubits@;
    let w = qubits.len() as int;
    let k = l.slots as int;
    let groups = occupied_slots(slot_of, k);
    let on = resident_schedule(a, l, qubits, k);
    let few = thinned(on, slot_of, k);
    lemma_increasing_distinct(qubits);
    lemma_row_groups(x, l, circ, cap, cutoff);
    law_solutions_describe_partitions(x, l, circ, cap);
    lemma_thinned_len(on, slot_of, k);
    assert forall|i: int| 0 <= i < slot_of.len() implies a(l.gate(i, #[trigger] slot_of[i] as int)) by {
        assert(runs_once(a, l, i));
        lemma_slot_from(a, l, i, 0);
    }
    assert forall|b: int| 0 <= b < subs.len() implies (#[trigger] subs[b]).wf()
        && subs[b].qubits@.len() <= cap && on_processor(subs[b], cap, few[b]) by {
        let j = lemma_thinned_slot(on, slot_of, k, b);
        assert(gathers(circ, groups[b], subs[b]));
        assert(slot_within(a, l, cap, j));
        law_solution_respects_capacity(x, l, circ, cap, slot_of, j, subs[b]);
        lemma_residents_hold(a, l, circ, cap, slot_of, j, subs[b]);
    }
    lemma_fit(subs, cap);
    assert(subs.len() <= k) by {
        lemma_occupied_len(slot_of, k);
    }
    law_furthest_next_use_moves_least(subs, cap, few);
    assert forall|i: int| 0 <= i < on.len() implies (#[trigger] on[i]).finite() by {
        lemma_picked(qubits, |q: int| a(l.mem(q, i)), w);
    }
    lemma_thinned_moves(on, slot_of, k);
    lemma_resident_moves(a, l, qubits, k, k);
    lemma_rows_and_columns(enters(a, l), w, k);
    lemma_rows_and_columns(leaves(a, l), w, k);
    lemma_transitions(x, l, w);
    assert forall|q: int, j: int| 0 <= q < w && 0 <= j < l.slots implies #[trigger] x(l.load(q, j))
        >= (if enters(a, l)(q, j) {
        1int
    } else {
        0
    }) && x(l.store(q, j)) >= (if leaves(a, l)(q, j) {
        1int
    } else {
        0
    }) by {
        assert(counts_moves(x, l, q, j));
        assert(0 <= x(l.mem(q, j)) <= 1);
        if j > 0 {
            assert(0 <= x(l.mem(q, j - 1)) <= 1);
        }
    }
    lemma_cost_and_moves(x, a, l, w);
    law_objective_counts_all_moves(x, l);
}

proof fn lemma_occupied_len(slot_of: Seq<usize>, n: int)
    requires
        0 <= n,
    ensures
        occupied_slots(slot_of, n).len() <= n,
    decreases n,
{
    if n > 0 {
        lemma_occupied_len(slot_of, n - 1);
    }
}

// ---------------------------------------------------------------------------
// From programs to solutions
// ---------------------------------------------------------------------------
/// The values of a model.
spec fn as_values(a: spec_fn(int) -> bool) -> spec_fn(int) -> int {
    |c: int|
        if a(c) {
            1int
        } else {
            0
        }
}

proof fn lemma_tally_one(f: spec_fn(int) -> bool, s: int, n: int)
    requires
        0 <= s,
        0 <= n,
        forall|j: int| 0 <= j < n ==> (#[trigger] f(j) <==> j == s),
    ensures
        tally(f, n) == if s < n {
            1nat
        } else {
            0nat
        },
    decreases n,
{
    if n > 0 {
        lemma_tally_one(f, s, n - 1);
    }
}

proof fn lemma_placement_values(a: spec_fn(int) -> bool, l: Layout, i: int)
    requires
        l.indexed(),
        0 <= i < l.n_gates,
        runs_once(a, l, i),
    ensures
        row_holds(as_values(a), placement_rows(l)[i]),
{
    let x = as_values(a);
    let v = |j: int| l.gate(i, j);
    let f = |j: int| a(l.gate(i, j));
    let s = choose|j: int| 0 <= j < l.slots && #[trigger] a(l.gate(i, j));
    assert forall|j: int| 0 <= j < l.slots implies 0 <= #[trigger] v(j) <= MAX_VAR by {
        l.lemma_gate_index(i, j);
    }
    assert forall|j: int| 0 <= j < l.slots implies (#[trigger] f(j) <==> j == s) by {
        if f(j) && j < s {
            assert(!a(l.gate(i, s)));
        } else if f(j) && s < j {
            assert(!a(l.gate(i, j)));
        }
    }
    lemma_sum_and_tally(x, v, f, l.slots as nat);
    lemma_tally_one(f, s, l.slots as int);
    let row = placement_rows(l)[i];
    assert(row.terms =~= Seq::new(l.slots as nat, |j: int| term(v(j), 1)));
}

proof fn lemma_order_values(a: spec_fn(int) -> bool, l: Layout, u: int, v: int)
    requires
        l.indexed(),
        l.slots > 1,
        0 <= u < l.n_gates,
        0 <= v < l.n_gates,
        runs_once(a, l, u),
        runs_once(a, l, v),
        runs_in_order(a, l, u, v),
    ensures
        row_sum(as_values(a), crate::mip_partition::slot_difference(l, u, v, l.slots as int)) <= 0,
{
    let x = as_values(a);
    let su = choose|j: int| 0 <= j < l.slots && #[trigger] a(l.gate(u, j));
    let sv = choose|j: int| 0 <= j < l.slots && #[trigger] a(l.gate(v, j));
    assert forall|k: int| 0 <= k < l.slots implies #[trigger] x(l.gate(u, k)) == if k == su {
        1int
    } else {
        0
    } by {
        if a(l.gate(u, k)) && k < su {
            assert(!a(l.gate(u, su)));
        } else if a(l.gate(u, k)) && su < k {
            assert(!a(l.gate(u, k)));
        }
    }
    assert forall|k: int| 0 <= k < l.slots implies #[trigger] x(l.gate(v, k)) == if k == sv {
        1int
    } else {
        0
    } by {
        if a(l.gate(v, k)) && k < sv {
            assert(!a(l.gate(v, sv)));
        } else if a(l.gate(v, k)) && sv < k {
            assert(!a(l.gate(v, k)));
        }
    }
    lemma_slot_difference(x, l, u, v, su, sv, l.slots as int);
    if sv < su {
        assert(!a(l.gate(v, sv)));
    }
}

proof fn lemma_all_order_values(
    a: spec_fn(int) -> bool,
    l: Layout,
    gates: Seq<Gate<Qubit>>,
    n: int,
)
    requires
        l.indexed(),
        l.n_gates == gates.len(),
        forall|i: int| 0 <= i < l.n_gates ==> #[trigger] runs_once(a, l, i),
        forall|u: int, v: int|
            0 <= u < l.n_gates && #[trigger] successors_upto(
                gates,
                u,
                gates.len() as int,
            ).contains(v) ==> runs_in_order(a, l, u, v),
        0 <= n <= l.n_gates,
    ensures
        rows_hold(as_values(a), order_rows(l, gates, n)),
    decreases n,
{
    let x = as_values(a);
    if n > 0 {
        let u = n - 1;
        lemma_all_order_values(a, l, gates, u);
        let succ = successors_upto(gates, u, gates.len() as int);
        let here = order_rows_of(l, u, succ);
        crate::partition::lemma_successors_upto(gates, u, gates.len() as int);
        assert forall|k: int| 0 <= k < here.len() implies row_holds(x, #[trigger] here[k]) by {
            assert(succ.contains(succ[k]));
            assert(runs_once(a, l, u) && runs_once(a, l, succ[k]));
            lemma_order_values(a, l, u, succ[k]);
        }
        lemma_rows_append(x, order_rows(l, gates, u), here);
    }
}

proof fn lemma_resident_values_of(
    a: spec_fn(int) -> bool,
    l: Layout,
    circ: Circuit,
    i: int,
    n: int,
)
    requires
        circ.wf(),
        l.indexed(),
        l.n_gates == circ.gates@.len(),
        l.n_qubits == circ.qubits@.len(),
        0 <= i < l.n_gates,
        operands_resident(a, l, circ.qubits@, circ.gates@[i], i),
        0 <= n <= l.slots,
    ensures
        rows_hold(as_values(a), resident_rows_of(l, circ.qubits@, circ.gates@[i], i, n)),
    decreases n,
{
    let x = as_values(a);
    let qubits = circ.qubits@;
    let g = circ.gates@[i];
    if n > 0 {
        let j = n - 1;
        lemma_resident_values_of(a, l, circ, i, j);
        let here = resident_rows_at(l, qubits, g, i, j);
        assert forall|k: int| 0 <= k < here.len() implies row_holds(x, #[trigger] here[k]) by {
            let q = g.operands()[k];
            assert(g.operands().contains(q));
            assert(acts_on(circ.gates@, q));
            assert(qubits.contains(q));
            assert(qubits[qubits.index_of(q)] == q);
            let p = qubit_position(qubits, q);
            assert(0 <= p < qubits.len());
            l.lemma_gate_index(i, j);
            l.lemma_qubit_index(p, j);
            lemma_pair_sum(x, l.gate(i, j), l.mem(p, j));
            if a(l.gate(i, j)) {
                assert(a(l.mem(qubit_position(qubits, g.operands()[k]), j)));
            }
        }
        lemma_rows_append(x, resident_rows_of(l, qubits, g, i, j), here);
    }
}

proof fn lemma_resident_values(a: spec_fn(int) -> bool, l: Layout, circ: Circuit, n: int)
    requires
        circ.wf(),
        l.indexed(),
        l.n_gates == circ.gates@.len(),
        l.n_qubits == circ.qubits@.len(),
        forall|i: int|
            0 <= i < l.n_gates ==> #[trigger] operands_resident(
                a,
                l,
                circ.qubits@,
                circ.gates@[i],
                i,
            ),
        0 <= n <= l.n_gates,
    ensures
        rows_hold(as_values(a), resident_rows(l, circ.qubits@, circ.gates@, n)),
    decreases n,
{
    if n > 0 {
        lemma_resident_values(a, l, circ, n - 1);
        assert(operands_resident(a, l, circ.qubits@, circ.gates@[n - 1], n - 1));
        lemma_resident_values_of(a, l, circ, n - 1, l.slots as int);
        lemma_rows_append(
            as_values(a),
            resident_rows(l, circ.qubits@, circ.gates@, n - 1),
            resident_rows_of(l, circ.qubits@, circ.gates@[n - 1], n - 1, l.slots as int),
        );
    }
}

proof fn lemma_capacity_values(a: spec_fn(int) -> bool, l: Layout, cap: int, j: int)
    requires
        l.indexed(),
        0 <= cap < l.n_qubits,
        0 <= j < l.slots,
        slot_within(a, l, cap, j),
    ensures
        row_holds(as_values(a), capacity_rows(l, cap)[j]),
{
    let x = as_values(a);
    let row = capacity_rows(l, cap)[j];
    let ls = resident_lits(l, j);
    assert(l.n_qubits <= l.size()) by {
        l.lemma_products();
    }
    assert(row.upper == cap);
    assert(ones(x) =~= a);
    assert forall|q: int| 0 <= q < row.terms.len() implies (#[trigger] row.terms[q]).1 == 1 && 0 <= x(
        row.terms[q].0 as int,
    ) <= 1 && lit_true(ones(x), ls[q]) == (x(row.terms[q].0 as int) == 1) by {
        l.lemma_qubit_index(q, j);
    }
    lemma_sum_counts(x, row.terms, ls);
}

proof fn lemma_used_values(a: spec_fn(int) -> bool, l: Layout, n: int)
    requires
        l.indexed(),
        forall|j: int| 0 <= j < l.slots ==> #[trigger] a(l.used(j)) == slot_has_gate(a, l, j),
        0 <= n <= l.slots,
    ensures
        rows_hold(as_values(a), used_rows(l, n)),
    decreases n,
{
    let x = as_values(a);
    if n > 0 {
        let j = n - 1;
        lemma_used_values(a, l, j);
        let here = Seq::new(
            l.n_gates as nat,
            |i: int| at_most(seq![term(l.gate(i, n - 1), 1), term(l.used(n - 1), -1)], 0),
        );
        assert forall|i: int| 0 <= i < here.len() implies row_holds(x, #[trigger] here[i]) by {
            l.lemma_gate_index(i, j);
            l.lemma_products();
            lemma_pair_sum(x, l.gate(i, j), l.used(j));
            assert(a(l.used(j)) == slot_has_gate(a, l, j));
        }
        lemma_rows_append(x, used_rows(l, j), here);
    }
}

/// The values of a model within capacity satisfy the rows, but for the cutoff.
#[verifier::spinoff_prover]
proof fn lemma_values_hold(
    a: spec_fn(int) -> bool,
    l: Layout,
    circ: Circuit,
    cap: int,
)
    requires
        circ.wf(),
        l.indexed(),
        l.slots > 0,
        l.n_gates == circ.gates@.len(),
        l.n_qubits == circ.qubits@.len(),
        0 <= cap,
        feasible(a, l, circ, cap, Map::empty()),
    ensures
        partition_rows_hold(as_values(a), l, circ, cap),
        rows_hold(as_values(a), transition_rows(l, l.n_qubits as int)),
        rows_hold(as_values(a), used_rows(l, l.slots as int)),
        rows_hold(as_values(a), prefix_rows(l)),
{
    let x = as_values(a);
    let placed = placement_rows(l);
    assert forall|i: int| 0 <= i < placed.len() implies row_holds(x, #[trigger] placed[i]) by {
        assert(runs_once(a, l, i));
        lemma_placement_values(a, l, i);
    }
    lemma_all_order_values(a, l, circ.gates@, l.n_gates as int);
    lemma_resident_values(a, l, circ, l.n_gates as int);
    let within = capacity_rows(l, cap);
    assert forall|j: int| 0 <= j < within.len() implies row_holds(x, #[trigger] within[j]) by {
        assert(slot_within(a, l, cap, j));
        lemma_capacity_values(a, l, cap, j);
    }
    lemma_used_values(a, l, l.slots as int);
    lemma_transitions(x, l, l.n_qubits as int);
    assert forall|q: int, j: int| 0 <= q < l.n_qubits && 0 <= j < l.slots implies #[trigger] counts_moves(
        x,
        l,
        q,
        j,
    ) by {
        lemma_moved(a, l, circ, Map::empty(), q, j);
    }
    let prefix = prefix_rows(l);
    assert forall|j: int| 0 <= j < prefix.len() implies row_holds(x, #[trigger] prefix[j]) by {
        l.lemma_products();
        lemma_pair_sum(x, l.used(j + 1), l.used(j));
        if a(l.used(j + 1)) {
            assert(a(l.used(j)));
        }
    }
}

/// For every partition whose subcircuits fit the processor, and whose program keeps the
/// cutoff, there is a solution that counts no more loads and stores than the program has.
#[verifier::spinoff_prover]
pub proof fn law_programs_have_solutions(
    l: Layout,
    circ: Circuit,
    cap: int,
    cutoff: Option<usize>,
    slot_of: Seq<usize>,
    subs: Seq<Circuit>,
) -> (x: spec_fn(int) -> int)
    requires
        circ.wf(),
        l.indexed(),
        l.slots > 0,
        l.n_gates == circ.gates@.len(),
        l.n_qubits == circ.qubits@.len(),
        0 <= cap <= usize::MAX,
        is_partition(circ, l.slots as int, slot_of),
        gathers_all(circ, occupied_slots(slot_of, l.slots as int), subs),
        all_within(subs, cap),
        cutoff matches Some(ub) ==> ub <= i64::MAX && move_count(
            load_store_steps(subs, cap, true, subs.len() as int),
        ) <= ub,
    ensures
        is_solution(x, l, circ, cap, cutoff),
        solution_cost(x, l) <= move_count(load_store_steps(subs, cap, true, subs.len() as int)),
{
    let qubits = circ.qubits@;
    let w = qubits.len() as int;
    let on = program_schedule(subs, cap);
    let k = l.slots as int;
    lemma_fit(subs, cap);
    law_program_follows_its_schedule(subs, cap);
    lemma_filled_first(circ, k, slot_of, k);
    let a = scheduled_model(l, qubits, slot_of, on);
    let x = as_values(a);
    lemma_scheduled_feasible(l, circ, cap, Map::empty(), slot_of, subs, on);
    lemma_values_hold(a, l, circ, cap);
    assert forall|i: int| 0 <= i < on.len() implies (#[trigger] on[i]).finite() by {
        assert(on_processor(subs[i], cap, on[i]));
    }
    lemma_scheduled_columns(l, circ, slot_of, on, k);
    lemma_rows_and_columns(enters(a, l), w, k);
    lemma_rows_and_columns(leaves(a, l), w, k);
    assert forall|q: int, j: int| 0 <= q < w && 0 <= j < l.slots implies #[trigger] x(l.load(q, j))
        <= (if enters(a, l)(q, j) {
        1int
    } else {
        0
    }) && x(l.store(q, j)) <= (if leaves(a, l)(q, j) {
        1int
    } else {
        0
    }) by {
        lemma_qubit_cells(l, qubits, slot_of, on, q, j);
        if j > 0 {
            lemma_qubit_cells(l, qubits, slot_of, on, q, j - 1);
        }
    }
    lemma_cost_and_moves(x, a, l, w);
    law_objective_counts_all_moves(x, l);
    let last = cutoff_rows(l, cutoff);
    assert forall|i: int| 0 <= i < last.len() implies row_holds(x, #[trigger] last[i]) by {}
    lemma_row_groups(x, l, circ, cap, cutoff);
    x
}

/// The program of a cheapest solution has no more loads and stores than that of any
/// partition of the circuit into at most as many subcircuits that fit the processor, if
/// that keeps the cutoff.
pub proof fn law_cheapest_solution_moves_least(
    x: spec_fn(int) -> int,
    l: Layout,
    circ: Circuit,
    cap: int,
    cutoff: Option<usize>,
    found: Seq<usize>,
    best: Seq<Circuit>,
    slot_of: Seq<usize>,
    subs: Seq<Circuit>,
)
    requires
        circ.wf(),
        l.indexed(),
        l.slots > 0,
        l.n_gates == circ.gates@.len(),
        l.n_qubits == circ.qubits@.len(),
        0 <= cap <= usize::MAX,
        is_solution(x, l, circ, cap, cutoff),
        forall|y: spec_fn(int) -> int| #[trigger]
            is_solution(y, l, circ, cap, cutoff) ==> solution_cost(x, l) <= solution_cost(y, l),
        found.len() == l.n_gates,
        forall|i: int| 0 <= i < l.n_gates ==> #[trigger] found[i] == slot_from(ones(x), l, i, 0),
        gathers_all(circ, occupied_slots(found, l.slots as int), best),
        is_partition(circ, l.slots as int, slot_of),
        gathers_all(circ, occupied_slots(slot_of, l.slots as int), subs),
        all_within(subs, cap),
        cutoff matches Some(ub) ==> ub <= i64::MAX && move_count(
            load_store_steps(subs, cap, true, subs.len() as int),
        ) <= ub,
    ensures
        move_count(load_store_steps(best, cap, true, best.len() as int)) <= move_count(
            load_store_steps(subs, cap, true, subs.len() as int),
        ),
{
    let y = law_programs_have_solutions(l, circ, cap, cutoff, slot_of, subs);
    law_program_moves_no_more_than_the_solution(x, l, circ, cap, cutoff, found, best);
}

} // verus!
