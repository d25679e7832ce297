//! Optimal partitioning as a mixed-integer program: the program's columns and
//! rows, and what a solution says about the partition.

use vstd::prelude::*;

use crate::circuit::{Circuit, Qubit};
use crate::sat_partition::{operand_positions, subcircuits_of, Layout};
#[allow(unused_imports)]
use crate::circuit::{gate_positions, predecessors, successors_upto, Gate};
#[allow(unused_imports)]
use crate::sat_partition::{
    gates_in_slot, gathers, gathers_all, lemma_slot_from, lemma_within_capacity, lit_true,
    occupied_slots, operands_resident, qubit_position, resident_lits, runs_in_order, runs_once,
    slot_from, slot_within, slots_within, true_count, PropLit,
};

verus! {

/// A variable between 0 and 1, with its coefficient in the objective.
#[derive(Clone, Copy, Debug, PartialEq, Eq, Structural)]
pub struct MipColumn {
    pub objective: i64,
    pub integral: bool,
}

/// A linear constraint: the weighted sum of columns is at most `upper`, and at
/// least `lower` where that is given.
#[derive(Debug)]
pub struct MipRow {
    pub lower: Option<i64>,
    pub upper: i64,
    pub terms: Vec<(usize, i64)>,
}

/// The mathematical content of a [`MipRow`].
#[verifier::ext_equal]
pub struct RowModel {
    pub lower: Option<i64>,
    pub upper: i64,
    pub terms: Seq<(usize, i64)>,
}

impl View for MipRow {
    type V = RowModel;

    open spec fn view(&self) -> RowModel {
        RowModel { lower: self.lower, upper: self.upper, terms: self.terms@ }
    }
}

pub open spec fn row_views(rows: Seq<MipRow>) -> Seq<RowModel> {
    rows.map_values(|r: MipRow| r@)
}

/// A mixed-integer program; its objective is to be minimised. The columns stand
/// as the variables of the propositional encoding do.
pub struct MipProblem {
    pub layout: Layout,
    pub columns: Vec<MipColumn>,
    pub rows: Vec<MipRow>,
}

/// The weighted sum of the columns with values `x`.
pub open spec fn row_sum(x: spec_fn(int) -> int, terms: Seq<(usize, i64)>) -> int
    decreases terms.len(),
{
    if terms.len() == 0 {
        0
    } else {
        row_sum(x, terms.drop_last()) + terms.last().1 * x(terms.last().0 as int)
    }
}

/// The values `x` satisfy the row.
pub open spec fn row_holds(x: spec_fn(int) -> int, r: RowModel) -> bool {
    &&& row_sum(x, r.terms) <= r.upper
    &&& (r.lower matches Some(low) ==> low <= row_sum(x, r.terms))
}

pub open spec fn rows_hold(x: spec_fn(int) -> int, rows: Seq<RowModel>) -> bool {
    forall|i: int| 0 <= i < rows.len() ==> row_holds(x, #[trigger] rows[i])
}

/// Sum of `terms` at most `upper`.
pub open spec fn at_most(terms: Seq<(usize, i64)>, upper: int) -> RowModel {
    RowModel { lower: None, upper: upper as i64, terms }
}

pub open spec fn term(col: int, coefficient: int) -> (usize, i64) {
    (col as usize, coefficient as i64)
}

/// Each of the first `n` gates is placed in exactly one slot.
pub open spec fn placement_rows(l: Layout) -> Seq<RowModel> {
    Seq::new(
        l.n_gates as nat,
        |i: int|
            RowModel {
                lower: Some(1i64),
                upper: 1,
                terms: Seq::new(l.slots as nat, |j: int| term(l.gate(i, j), 1)),
            },
    )
}

/// The slot of `u` less the slot of `v`.
pub open spec fn slot_difference(l: Layout, u: int, v: int, j: int) -> Seq<(usize, i64)>
    decreases j,
{
    if j <= 1 {
        Seq::empty()
    } else {
        slot_difference(l, u, v, j - 1) + seq![
            term(l.gate(u, j - 1), j - 1),
            term(l.gate(v, j - 1), -(j - 1)),
        ]
    }
}

/// `u` is in no later slot than any of the gates that wait for it.
pub open spec fn order_rows_of(l: Layout, u: int, succ: Seq<int>) -> Seq<RowModel> {
    if l.slots <= 1 {
        Seq::empty()
    } else {
        Seq::new(
            succ.len(),
            |k: int| at_most(slot_difference(l, u, succ[k], l.slots as int), 0),
        )
    }
}

pub open spec fn order_rows(l: Layout, gates: Seq<Gate<Qubit>>, u: int) -> Seq<RowModel>
    decreases u,
{
    if u <= 0 {
        Seq::empty()
    } else {
        order_rows(l, gates, u - 1) + order_rows_of(
            l,
            u - 1,
            successors_upto(gates, u - 1, gates.len() as int),
        )
    }
}

/// A gate in slot `j` has its operands resident there.
pub open spec fn resident_rows_at(l: Layout, qubits: Seq<Qubit>, g: Gate<Qubit>, i: int, j: int) -> Seq<
    RowModel,
> {
    Seq::new(
        g.operands().len(),
        |k: int|
            at_most(
                seq![
                    term(l.gate(i, j), 1),
                    term(l.mem(qubit_position(qubits, g.operands()[k]), j), -1),
                ],
                0,
            ),
    )
}

pub open spec fn resident_rows_of(l: Layout, qubits: Seq<Qubit>, g: Gate<Qubit>, i: int, j: int) -> Seq<
    RowModel,
>
    decreases j,
{
    if j <= 0 {
        Seq::empty()
    } else {
        resident_rows_of(l, qubits, g, i, j - 1) + resident_rows_at(l, qubits, g, i, j - 1)
    }
}

pub open spec fn resident_rows(
    l: Layout,
    qubits: Seq<Qubit>,
    gates: Seq<Gate<Qubit>>,
    i: int,
) -> Seq<RowModel>
    decreases i,
{
    if i <= 0 {
        Seq::empty()
    } else {
        resident_rows(l, qubits, gates, i - 1) + resident_rows_of(
            l,
            qubits,
            gates[i - 1],
            i - 1,
            l.slots as int,
        )
    }
}

/// No slot holds more than `cap` resident qubits.
pub open spec fn capacity_rows(l: Layout, cap: int) -> Seq<RowModel> {
    if cap < l.n_qubits {
        Seq::new(
            l.slots as nat,
            |j: int| at_most(Seq::new(l.n_qubits as nat, |q: int| term(l.mem(q, j), 1)), cap),
        )
    } else {
        Seq::empty()
    }
}

/// Becoming resident is a load, ceasing to be is a store.
pub open spec fn transition_rows_of(l: Layout, q: int, j: int) -> Seq<RowModel>
    decreases j,
{
    if j <= 1 {
        seq![at_most(seq![term(l.mem(q, 0), 1), term(l.load(q, 0), -1)], 0)]
    } else {
        transition_rows_of(l, q, j - 1) + seq![
            at_most(
                seq![
                    term(l.mem(q, j - 1), 1),
                    term(l.mem(q, j - 2), -1),
                    term(l.load(q, j - 1), -1),
                ],
                0,
            ),
            at_most(
                seq![
                    term(l.mem(q, j - 2), 1),
                    term(l.mem(q, j - 1), -1),
                    term(l.store(q, j - 1), -1),
                ],
                0,
            ),
        ]
    }
}

pub open spec fn transition_rows(l: Layout, q: int) -> Seq<RowModel>
    decreases q,
{
    if q <= 0 {
        Seq::empty()
    } else {
        transition_rows(l, q - 1) + transition_rows_of(l, q - 1, l.slots as int)
    }
}

/// A slot with a gate is used.
pub open spec fn used_rows(l: Layout, j: int) -> Seq<RowModel>
    decreases j,
{
    if j <= 0 {
        Seq::empty()
    } else {
        used_rows(l, j - 1) + Seq::new(
            l.n_gates as nat,
            |i: int| at_most(seq![term(l.gate(i, j - 1), 1), term(l.used(j - 1), -1)], 0),
        )
    }
}

/// The used slots form a prefix.
pub open spec fn prefix_rows(l: Layout) -> Seq<RowModel> {
    Seq::new(
        (l.slots - 1) as nat,
        |j: int| at_most(seq![term(l.used(j + 1), 1), term(l.used(j), -1)], 0),
    )
}

/// The loads of qubit `q`, and its stores after the first slot.
pub open spec fn moves_of(l: Layout, q: int) -> Seq<(usize, i64)> {
    Seq::new(l.slots as nat, |j: int| term(l.load(q, j), 1)) + Seq::new(
        (l.slots - 1) as nat,
        |j: int| term(l.store(q, j + 1), 1),
    )
}

pub open spec fn all_moves(l: Layout, q: int) -> Seq<(usize, i64)>
    decreases q,
{
    if q <= 0 {
        Seq::empty()
    } else {
        all_moves(l, q - 1) + moves_of(l, q - 1)
    }
}

/// No more loads and stores than are known to suffice.
pub open spec fn cutoff_rows(l: Layout, cutoff: Option<usize>) -> Seq<RowModel> {
    match cutoff {
        Some(ub) => seq![at_most(all_moves(l, l.n_qubits as int), ub as int)],
        None => Seq::empty(),
    }
}

/// All rows of the program.
pub open spec fn mip_rows(
    l: Layout,
    qubits: Seq<Qubit>,
    gates: Seq<Gate<Qubit>>,
    cap: int,
    cutoff: Option<usize>,
) -> Seq<RowModel> {
    placement_rows(l) + order_rows(l, gates, l.n_gates as int) + resident_rows(
        l,
        qubits,
        gates,
        l.n_gates as int,
    ) + capacity_rows(l, cap) + transition_rows(l, l.n_qubits as int) + used_rows(
        l,
        l.slots as int,
    ) + prefix_rows(l) + cutoff_rows(l, cutoff)
}

/// The column at `c`: placements, residency and use are integral; loads, and
/// stores after the first slot, cost 1.
pub open spec fn mip_column(l: Layout, c: int) -> MipColumn {
    let gate_cols = l.n_gates * l.slots;
    let qubit_cols = l.n_qubits * l.slots;
    if c < gate_cols + qubit_cols {
        MipColumn { objective: 0, integral: true }
    } else if c < gate_cols + 2 * qubit_cols {
        MipColumn { objective: 1, integral: false }
    } else if c < gate_cols + 3 * qubit_cols {
        MipColumn {
            objective: if (c - gate_cols - 2 * qubit_cols) % (l.slots as int) >= 1 {
                1
            } else {
                0
            },
            integral: false,
        }
    } else {
        MipColumn { objective: 0, integral: true }
    }
}

/// The number of columns.
pub open spec fn mip_width(l: Layout) -> int {
    l.n_gates * l.slots + 3 * (l.n_qubits * l.slots) + l.slots
}

fn push_row(rows: &mut Vec<MipRow>, lower: Option<i64>, upper: i64, terms: Vec<(usize, i64)>)
    ensures
        row_views(final(rows)@) == row_views(old(rows)@).push(
            (RowModel { lower, upper, terms: terms@ }),
        ),
{
    let ghost before = rows@;
    let row = MipRow { lower, upper, terms };
    rows.push(row);
    assert(row_views(rows@) =~= row_views(before).push(row@));
}

fn push_difference(rows: &mut Vec<MipRow>, a: usize, b: usize)
    ensures
        row_views(final(rows)@) == row_views(old(rows)@).push(
            at_most(seq![term(a as int, 1), term(b as int, -1)], 0),
        ),
{
    let terms: Vec<(usize, i64)> = vec![(a, 1), (b, -1)];
    assert(terms@ =~= seq![term(a as int, 1), term(b as int, -1)]);
    push_row(rows, None, 0, terms);
}

fn push_change(rows: &mut Vec<MipRow>, a: usize, b: usize, c: usize)
    ensures
        row_views(final(rows)@) == row_views(old(rows)@).push(
            at_most(seq![term(a as int, 1), term(b as int, -1), term(c as int, -1)], 0),
        ),
{
    let terms: Vec<(usize, i64)> = vec![(a, 1), (b, -1), (c, -1)];
    assert(terms@ =~= seq![term(a as int, 1), term(b as int, -1), term(c as int, -1)]);
    push_row(rows, None, 0, terms);
}

fn push_placement_rows(rows: &mut Vec<MipRow>, l: &Layout)
    requires
        l.indexed(),
    ensures
        row_views(final(rows)@) == row_views(old(rows)@) + placement_rows(*l),
{
    let ghost base = row_views(rows@);
    let ghost all = placement_rows(*l);
    assert(base + all.take(0) =~= base);
    for i in 0..l.n_gates
        invariant
            l.indexed(),
            all == placement_rows(*l),
            row_views(rows@) == base + all.take(i as int),
    {
        let ghost goal = all[i as int].terms;
        let mut terms: Vec<(usize, i64)> = Vec::new();
        for j in 0..l.slots
            invariant
                l.indexed(),
                i < l.n_gates,
                all == placement_rows(*l),
                goal == all[i as int].terms,
                terms@ == goal.take(j as int),
        {
            terms.push((l.gate_var(i, j) as usize, 1));
            assert(terms@ =~= goal.take(j + 1));
        }
        assert(terms@ =~= goal);
        push_row(rows, Some(1), 1, terms);
        assert(row_views(rows@) =~= base + all.take(i + 1));
    }
    assert(all.take(all.len() as int) =~= all);
}

fn push_order_rows(rows: &mut Vec<MipRow>, l: &Layout, circ: &Circuit)
    requires
        l.indexed(),
        l.n_gates == circ.gates@.len(),
    ensures
        row_views(final(rows)@) == row_views(old(rows)@) + order_rows(
            *l,
            circ.gates@,
            l.n_gates as int,
        ),
{
    let dag = circ.to_dag();
    let ghost gs = circ.gates@;
    let ghost base = row_views(rows@);
    assert(base + order_rows(*l, gs, 0) =~= base);
    for u in 0..l.n_gates
        invariant
            l.indexed(),
            gs == circ.gates@,
            l.n_gates == gs.len(),
            dag.successors@.len() == gs.len(),
            forall|g: int|
                0 <= g < gs.len() ==> gate_positions((#[trigger] dag.successors@[g])@)
                    == successors_upto(gs, g, gs.len() as int),
            row_views(rows@) == base + order_rows(*l, gs, u as int),
    {
        let succ = &dag.successors[u];
        let ghost list = successors_upto(gs, u as int, gs.len() as int);
        let ghost here = row_views(rows@);
        let ghost all = order_rows_of(*l, u as int, list);
        proof {
            crate::partition::lemma_successors_upto(gs, u as int, gs.len() as int);
            assert(here + all.take(0) =~= here);
        }
        if l.slots > 1 {
            for k in 0..succ.len()
                invariant
                    l.indexed(),
                    l.slots > 1,
                    u < l.n_gates,
                    l.n_gates == gs.len(),
                    gate_positions(succ@) == list,
                    forall|i: int| #[trigger] list.contains(i) ==> 0 <= i < gs.len(),
                    all == order_rows_of(*l, u as int, list),
                    row_views(rows@) == here + all.take(k as int),
            {
                let v: usize = succ[k].0;
                proof {
                    assert(gate_positions(succ@)[k as int] == v as int);
                    assert(list.contains(list[k as int]));
                    l.lemma_slots_fit();
                }
                let mut terms: Vec<(usize, i64)> = Vec::new();
                assert(terms@ =~= slot_difference(*l, u as int, v as int, 1));
                for j in 1..l.slots
                    invariant
                        l.indexed(),
                        l.slots <= i64::MAX,
                        u < l.n_gates,
                        v < l.n_gates,
                        terms@ == slot_difference(*l, u as int, v as int, j as int),
                {
                    let w: i64 = j as i64;
                    terms.push((l.gate_var(u, j) as usize, w));
                    terms.push((l.gate_var(v, j) as usize, -w));
                    assert(terms@ =~= slot_difference(*l, u as int, v as int, j + 1));
                }
                push_row(rows, None, 0, terms);
                assert(row_views(rows@) =~= here + all.take(k + 1));
            }
            assert(all.take(all.len() as int) =~= all);
        }
        assert(row_views(rows@) =~= base + order_rows(*l, gs, u + 1));
    }
}

fn push_resident_rows(rows: &mut Vec<MipRow>, l: &Layout, circ: &Circuit)
    requires
        l.indexed(),
        circ.wf(),
        l.n_gates == circ.gates@.len(),
        l.n_qubits == circ.qubits@.len(),
    ensures
        row_views(final(rows)@) == row_views(old(rows)@) + resident_rows(
            *l,
            circ.qubits@,
            circ.gates@,
            l.n_gates as int,
        ),
{
    let ghost base = row_views(rows@);
    let ghost qs = circ.qubits@;
    assert(base + resident_rows(*l, qs, circ.gates@, 0) =~= base);
    for i in 0..l.n_gates
        invariant
            l.indexed(),
            circ.wf(),
            qs == circ.qubits@,
            l.n_gates == circ.gates@.len(),
            l.n_qubits == circ.qubits@.len(),
            row_views(rows@) == base + resident_rows(*l, qs, circ.gates@, i as int),
    {
        let ghost g = circ.gates@[i as int];
        let ops = circ.gates[i].qubits();
        proof {
            assert forall|k: int| 0 <= k < ops@.len() implies qs.contains(#[trigger] ops@[k]) by {
                assert(g.operands().contains(ops@[k]));
                assert(crate::circuit::acts_on(circ.gates@, ops@[k]));
            }
        }
        let positions = operand_positions(&circ.qubits, &ops);
        let ghost here = row_views(rows@);
        assert(here + resident_rows_of(*l, qs, g, i as int, 0) =~= here);
        for j in 0..l.slots
            invariant
                l.indexed(),
                i < l.n_gates,
                l.n_qubits == qs.len(),
                ops@ == g.operands(),
                positions@.len() == ops@.len(),
                forall|k: int|
                    0 <= k < ops@.len() ==> #[trigger] positions@[k] == qubit_position(
                        qs,
                        ops@[k],
                    ) && positions@[k] < qs.len(),
                row_views(rows@) == here + resident_rows_of(*l, qs, g, i as int, j as int),
        {
            let ghost mid = row_views(rows@);
            let ghost rest = resident_rows_at(*l, qs, g, i as int, j as int);
            assert(mid + rest.take(0) =~= mid);
            for k in 0..positions.len()
                invariant
                    l.indexed(),
                    i < l.n_gates,
                    j < l.slots,
                    l.n_qubits == qs.len(),
                    ops@ == g.operands(),
                    positions@.len() == ops@.len(),
                    forall|k: int|
                        0 <= k < ops@.len() ==> #[trigger] positions@[k] == qubit_position(
                            qs,
                            ops@[k],
                        ) && positions@[k] < qs.len(),
                    rest == resident_rows_at(*l, qs, g, i as int, j as int),
                    row_views(rows@) == mid + rest.take(k as int),
            {
                let p: usize = positions[k];
                push_difference(rows, l.gate_var(i, j) as usize, l.mem_var(p, j) as usize);
                assert(row_views(rows@) =~= mid + rest.take(k + 1));
            }
            assert(rest.take(rest.len() as int) =~= rest);
            assert(row_views(rows@) =~= here + resident_rows_of(*l, qs, g, i as int, j + 1));
        }
        assert(row_views(rows@) =~= base + resident_rows(*l, qs, circ.gates@, i + 1));
    }
}

fn push_capacity_rows(rows: &mut Vec<MipRow>, l: &Layout, proc_cap: usize)
    requires
        l.indexed(),
    ensures
        row_views(final(rows)@) == row_views(old(rows)@) + capacity_rows(*l, proc_cap as int),
{
    let ghost base = row_views(rows@);
    let ghost all = capacity_rows(*l, proc_cap as int);
    assert(base + all.take(0) =~= base);
    if proc_cap < l.n_qubits {
        proof {
            l.lemma_slots_fit();
        }
        for j in 0..l.slots
            invariant
                l.indexed(),
                proc_cap < l.n_qubits,
                l.n_qubits <= i64::MAX,
                all == capacity_rows(*l, proc_cap as int),
                row_views(rows@) == base + all.take(j as int),
        {
            let ghost goal = all[j as int].terms;
            let mut terms: Vec<(usize, i64)> = Vec::new();
            for q in 0..l.n_qubits
                invariant
                    l.indexed(),
                    j < l.slots,
                    proc_cap < l.n_qubits,
                    all == capacity_rows(*l, proc_cap as int),
                    goal == all[j as int].terms,
                    terms@ == goal.take(q as int),
            {
                terms.push((l.mem_var(q, j) as usize, 1));
                assert(terms@ =~= goal.take(q + 1));
            }
            assert(terms@ =~= goal);
            push_row(rows, None, proc_cap as i64, terms);
            assert(row_views(rows@) =~= base + all.take(j + 1));
        }
        assert(all.take(all.len() as int) =~= all);
    } else {
        assert(base + all =~= base);
    }
}

fn push_transition_rows(rows: &mut Vec<MipRow>, l: &Layout)
    requires
        l.indexed(),
        l.slots > 0,
    ensures
        row_views(final(rows)@) == row_views(old(rows)@) + transition_rows(*l, l.n_qubits as int),
{
    let ghost base = row_views(rows@);
    assert(base + transition_rows(*l, 0) =~= base);
    for q in 0..l.n_qubits
        invariant
            l.indexed(),
            l.slots > 0,
            row_views(rows@) == base + transition_rows(*l, q as int),
    {
        let ghost here = row_views(rows@);
        push_difference(rows, l.mem_var(q, 0) as usize, l.load_var(q, 0) as usize);
        assert(row_views(rows@) =~= here + transition_rows_of(*l, q as int, 1));
        for j in 1..l.slots
            invariant
                l.indexed(),
                q < l.n_qubits,
                row_views(rows@) == here + transition_rows_of(*l, q as int, j as int),
        {
            push_change(
                rows,
                l.mem_var(q, j) as usize,
                l.mem_var(q, j - 1) as usize,
                l.load_var(q, j) as usize,
            );
            push_change(
                rows,
                l.mem_var(q, j - 1) as usize,
                l.mem_var(q, j) as usize,
                l.store_var(q, j) as usize,
            );
            assert(row_views(rows@) =~= here + transition_rows_of(*l, q as int, j + 1));
        }
        assert(row_views(rows@) =~= base + transition_rows(*l, q + 1));
    }
}

fn push_used_rows(rows: &mut Vec<MipRow>, l: &Layout)
    requires
        l.indexed(),
        l.slots > 0,
    ensures
        row_views(final(rows)@) == row_views(old(rows)@) + used_rows(*l, l.slots as int)
            + prefix_rows(*l),
{
    let ghost base = row_views(rows@);
    assert(base + used_rows(*l, 0) =~= base);
    for j in 0..l.slots
        invariant
            l.indexed(),
            row_views(rows@) == base + used_rows(*l, j as int),
    {
        let ghost here = row_views(rows@);
        let ghost rest = Seq::new(
            l.n_gates as nat,
            |i: int| at_most(seq![term(l.gate(i, j as int), 1), term(l.used(j as int), -1)], 0),
        );
        assert(here + rest.take(0) =~= here);
        for i in 0..l.n_gates
            invariant
                l.indexed(),
                j < l.slots,
                rest == Seq::new(
                    l.n_gates as nat,
                    |i: int|
                        at_most(seq![term(l.gate(i, j as int), 1), term(l.used(j as int), -1)], 0),
                ),
                row_views(rows@) == here + rest.take(i as int),
        {
            push_difference(rows, l.gate_var(i, j) as usize, l.used_var(j) as usize);
            assert(row_views(rows@) =~= here + rest.take(i + 1));
        }
        assert(rest.take(rest.len() as int) =~= rest);
        assert(rest =~= Seq::new(
            l.n_gates as nat,
            |i: int|
                at_most(seq![term(l.gate(i, (j + 1) - 1), 1), term(l.used((j + 1) - 1), -1)], 0),
        ));
        assert(row_views(rows@) =~= base + used_rows(*l, j + 1));
    }
    let ghost mid = row_views(rows@);
    let ghost all = prefix_rows(*l);
    assert(mid + all.take(0) =~= mid);
    for j in 0..(l.slots - 1)
        invariant
            l.indexed(),
            l.slots > 0,
            all == prefix_rows(*l),
            row_views(rows@) == mid + all.take(j as int),
    {
        push_difference(rows, l.used_var(j + 1) as usize, l.used_var(j) as usize);
        assert(row_views(rows@) =~= mid + all.take(j + 1));
    }
    assert(all.take(all.len() as int) =~= all);
}

fn push_cutoff_rows(rows: &mut Vec<MipRow>, l: &Layout, cutoff: Option<usize>)
    requires
        l.indexed(),
        l.slots > 0,
        cutoff matches Some(ub) ==> ub <= i64::MAX,
    ensures
        row_views(final(rows)@) == row_views(old(rows)@) + cutoff_rows(*l, cutoff),
{
    let ghost base = row_views(rows@);
    if let Some(ub) = cutoff {
        let mut terms: Vec<(usize, i64)> = Vec::new();
        assert(terms@ =~= all_moves(*l, 0));
        for q in 0..l.n_qubits
            invariant
                l.indexed(),
                l.slots > 0,
                terms@ == all_moves(*l, q as int),
        {
            let ghost here = terms@;
            let ghost rest = moves_of(*l, q as int);
            assert(here + rest.take(0) =~= here);
            for j in 0..l.slots
                invariant
                    l.indexed(),
                    l.slots > 0,
                    q < l.n_qubits,
                    rest == moves_of(*l, q as int),
                    terms@ == here + rest.take(j as int),
            {
                terms.push((l.load_var(q, j) as usize, 1));
                assert(terms@ =~= here + rest.take(j + 1));
            }
            for j in 1..l.slots
                invariant
                    l.indexed(),
                    l.slots > 0,
                    q < l.n_qubits,
                    rest == moves_of(*l, q as int),
                    terms@ == here + rest.take(l.slots + j - 1),
            {
                terms.push((l.store_var(q, j) as usize, 1));
                assert(terms@ =~= here + rest.take(l.slots + j));
            }
            assert(rest.take(rest.len() as int) =~= rest);
        }
        push_row(rows, None, ub as i64, terms);
        assert(row_views(rows@) =~= base + cutoff_rows(*l, cutoff));
    } else {
        assert(row_views(rows@) =~= base + cutoff_rows(*l, cutoff));
    }
}

fn make_columns(l: &Layout) -> (r: Vec<MipColumn>)
    requires
        l.indexed(),
        l.slots > 0,
    ensures
        r@ == Seq::new(mip_width(*l) as nat, |c: int| mip_column(*l, c)),
{
    proof {
        l.lemma_products();
    }
    let gate_cols: usize = l.n_gates * l.slots;
    let qubit_cols: usize = l.n_qubits * l.slots;
    let width: usize = gate_cols + 3 * qubit_cols + l.slots;
    let mut r: Vec<MipColumn> = Vec::new();
    let ghost goal = Seq::new(mip_width(*l) as nat, |c: int| mip_column(*l, c));
    for c in 0..width
        invariant
            l.slots > 0,
            gate_cols == l.n_gates * l.slots,
            qubit_cols == l.n_qubits * l.slots,
            width == gate_cols + 3 * qubit_cols + l.slots,
            goal == Seq::new(mip_width(*l) as nat, |c: int| mip_column(*l, c)),
            r@ == goal.take(c as int),
    {
        let col = if c < gate_cols + qubit_cols {
            MipColumn { objective: 0, integral: true }
        } else if c < gate_cols + 2 * qubit_cols {
            MipColumn { objective: 1, integral: false }
        } else if c < gate_cols + 3 * qubit_cols {
            let slot: usize = (c - gate_cols - 2 * qubit_cols) % l.slots;
            let objective: i64 = if slot >= 1 {
                1
            } else {
                0
            };
            MipColumn { objective, integral: false }
        } else {
            MipColumn { objective: 0, integral: true }
        };
        r.push(col);
        assert(r@ =~= goal.take(c + 1));
    }
    assert(r@ =~= goal);
    r
}

/// The mixed-integer program of partitioning `circ` into at most `slots`
/// subcircuits. `None` when the columns outrun the index range.
pub fn mip_problem(circ: &Circuit, proc_cap: usize, slots: usize, cutoff: Option<usize>) -> (r: Option<
    MipProblem,
>)
    requires
        circ.wf(),
        slots > 0,
        cutoff matches Some(ub) ==> ub <= i64::MAX,
    ensures
        match r {
            Some(p) => {
                &&& p.layout.n_gates == circ.gates@.len()
                &&& p.layout.n_qubits == circ.qubits@.len()
                &&& p.layout.slots == slots
                &&& p.layout.indexed()
                &&& p.columns@ == Seq::new(
                    mip_width(p.layout) as nat,
                    |c: int| mip_column(p.layout, c),
                )
                &&& row_views(p.rows@) == mip_rows(
                    p.layout,
                    circ.qubits@,
                    circ.gates@,
                    proc_cap as int,
                    cutoff,
                )
            },
            None => !(Layout {
                n_gates: circ.gates@.len() as usize,
                n_qubits: circ.qubits@.len() as usize,
                slots,
            }).indexed(),
        },
{
    let l: Layout = match Layout::without_counters(circ.gates.len(), circ.qubits.len(), slots) {
        Some(l) => l,
        None => return None,
    };
    assert(circ.gates.len() == circ.gates@.len());
    let mut rows: Vec<MipRow> = Vec::new();
    push_placement_rows(&mut rows, &l);
    push_order_rows(&mut rows, &l, circ);
    push_resident_rows(&mut rows, &l, circ);
    push_capacity_rows(&mut rows, &l, proc_cap);
    push_transition_rows(&mut rows, &l);
    push_used_rows(&mut rows, &l);
    push_cutoff_rows(&mut rows, &l, cutoff);
    assert(row_views(rows@) =~= mip_rows(l, circ.qubits@, circ.gates@, proc_cap as int, cutoff));
    let columns = make_columns(&l);
    Some(MipProblem { layout: l, columns, rows })
}

/// Which columns a solution sets to 1.
pub open spec fn chosen_columns(chosen: Seq<bool>) -> spec_fn(int) -> bool {
    |c: int| 0 <= c < chosen.len() && chosen[c]
}

/// Gate `i` has a slot under the solution.
pub open spec fn has_slot(a: spec_fn(int) -> bool, l: Layout, i: int) -> bool {
    exists|j: int| 0 <= j < l.slots && #[trigger] a(l.gate(i, j))
}

/// The subcircuits that a solution stands for; `None` when some gate has no slot.
pub fn read_solution(circ: &Circuit, p: &MipProblem, chosen: &Vec<bool>) -> (r: Option<Vec<Circuit>>)
    requires
        p.layout.indexed(),
        p.layout.slots > 0,
        p.layout.n_gates == circ.gates@.len(),
        chosen@.len() >= mip_width(p.layout),
    ensures
        match r {
            Some(subs) => {
                &&& forall|i: int|
                    0 <= i < circ.gates@.len() ==> #[trigger] has_slot(
                        chosen_columns(chosen@),
                        p.layout,
                        i,
                    )
                &&& exists|slot_of: Seq<usize>|
                    slot_of.len() == circ.gates@.len() && (forall|i: int|
                        0 <= i < circ.gates@.len() ==> #[trigger] slot_of[i] == slot_from(
                            chosen_columns(chosen@),
                            p.layout,
                            i,
                            0,
                        )) && gathers_all(
                        *circ,
                        #[trigger] occupied_slots(slot_of, p.layout.slots as int),
                        subs@,
                    )
            },
            None => exists|i: int|
                0 <= i < circ.gates@.len() && !#[trigger] has_slot(
                    chosen_columns(chosen@),
                    p.layout,
                    i,
                ),
        },
{
    let l = &p.layout;
    let ghost a = chosen_columns(chosen@);
    let mut slot_of: Vec<usize> = Vec::new();
    let mut i: usize = 0;
    while i < l.n_gates
        invariant
            i <= l.n_gates,
            l == p.layout,
            l.indexed(),
            l.slots > 0,
            l.n_gates == circ.gates@.len(),
            chosen@.len() >= mip_width(*l),
            a == chosen_columns(chosen@),
            slot_of@.len() == i,
            forall|k: int|
                0 <= k < i ==> #[trigger] slot_of@[k] == slot_from(a, *l, k, 0) && has_slot(
                    a,
                    *l,
                    k,
                ),
        decreases l.n_gates - i,
    {
        let mut j: usize = 0;
        while j < l.slots && !chosen[l.gate_column(i, j)]
            invariant
                l.indexed(),
                chosen@.len() >= mip_width(*l),
                a == chosen_columns(chosen@),
                i < l.n_gates,
                j <= l.slots,
                slot_from(a, *l, i as int, 0) == slot_from(a, *l, i as int, j as int),
                forall|k: int| 0 <= k < j ==> !#[trigger] a(l.gate(i as int, k)),
            decreases l.slots - j,
        {
            j = j + 1;
        }
        if j == l.slots {
            assert(!has_slot(a, *l, i as int));
            return None;
        }
        assert(a(l.gate(i as int, j as int)));
        assert(has_slot(a, *l, i as int));
        assert(slot_from(a, *l, i as int, j as int) == j);
        let ghost before = slot_of@;
        slot_of.push(j);
        assert forall|k: int| 0 <= k < i + 1 implies #[trigger] slot_of@[k] == slot_from(a, *l, k, 0)
            && has_slot(a, *l, k) by {
            if k < i {
                assert(slot_of@[k] == before[k]);
            }
        }
        i = i + 1;
    }
    proof {
        assert forall|i: int| 0 <= i < circ.gates@.len() implies #[trigger] has_slot(a, *l, i) by {
            assert(slot_of@[i] == slot_from(a, *l, i, 0));
        }
    }
    let subs = subcircuits_of(circ, &slot_of, l.slots);
    Some(subs)
}

// ---------------------------------------------------------------------------
// What the rows mean
// ---------------------------------------------------------------------------
/// The columns that placements, residency and capacity are about, all of them
/// integral, are 0 or 1.
pub open spec fn whole(x: spec_fn(int) -> int, l: Layout) -> bool {
    &&& forall|i: int, j: int|
        0 <= i < l.n_gates && 0 <= j < l.slots ==> 0 <= #[trigger] x(l.gate(i, j)) <= 1
    &&& forall|q: int, j: int|
        0 <= q < l.n_qubits && 0 <= j < l.slots ==> 0 <= #[trigger] x(l.mem(q, j)) <= 1
}

/// The columns that are 1.
pub open spec fn ones(x: spec_fn(int) -> int) -> spec_fn(int) -> bool {
    |c: int| x(c) == 1
}

pub(crate) proof fn lemma_rows_append(x: spec_fn(int) -> int, p: Seq<RowModel>, q: Seq<RowModel>)
    ensures
        rows_hold(x, p + q) <==> rows_hold(x, p) && rows_hold(x, q),
{
    let both = p + q;
    if rows_hold(x, both) {
        assert forall|i: int| 0 <= i < p.len() implies row_holds(x, #[trigger] p[i]) by {
            assert(both[i] == p[i]);
        }
        assert forall|i: int| 0 <= i < q.len() implies row_holds(x, #[trigger] q[i]) by {
            assert(both[p.len() + i] == q[i]);
        }
    }
}

pub(crate) proof fn lemma_row_sum_push(x: spec_fn(int) -> int, s: Seq<(usize, i64)>, t: (usize, i64))
    ensures
        row_sum(x, s.push(t)) == row_sum(x, s) + t.1 * x(t.0 as int),
{
    assert(s.push(t).drop_last() =~= s);
}

/// A sum of columns that are 0 or 1: where it is at most 1 no two are 1, and where
/// it is 1 some column is.
proof fn lemma_sum_of_ones(x: spec_fn(int) -> int, terms: Seq<(usize, i64)>)
    requires
        forall|k: int|
            0 <= k < terms.len() ==> (#[trigger] terms[k]).1 == 1 && 0 <= x(terms[k].0 as int) <= 1,
    ensures
        row_sum(x, terms) >= 0,
        row_sum(x, terms) == 0 ==> forall|k: int|
            0 <= k < terms.len() ==> x((#[trigger] terms[k]).0 as int) == 0,
        row_sum(x, terms) == 1 ==> exists|k: int|
            0 <= k < terms.len() && x((#[trigger] terms[k]).0 as int) == 1,
        row_sum(x, terms) <= 1 ==> forall|b: int, c: int|
            0 <= b < c < terms.len() && x((#[trigger] terms[b]).0 as int) == 1 ==> x(
                (#[trigger] terms[c]).0 as int,
            ) == 0,
    decreases terms.len(),
{
    if terms.len() > 0 {
        let before = terms.drop_last();
        let last = terms.last();
        assert forall|k: int| 0 <= k < before.len() implies (#[trigger] before[k]).1 == 1 && 0 <= x(
            before[k].0 as int,
        ) <= 1 by {
            assert(before[k] == terms[k]);
        }
        lemma_sum_of_ones(x, before);
        assert(last.1 == 1 && last == terms[terms.len() - 1]);
        assert(last.1 * x(last.0 as int) == x(last.0 as int)) by (nonlinear_arith)
            requires
                last.1 == 1,
        ;
        assert(row_sum(x, terms) == row_sum(x, before) + x(last.0 as int));
        if row_sum(x, terms) == 0 {
            assert forall|k: int| 0 <= k < terms.len() implies x((#[trigger] terms[k]).0 as int)
                == 0 by {
                if k < before.len() {
                    assert(before[k] == terms[k]);
                }
            }
        }
        if row_sum(x, terms) == 1 && row_sum(x, before) == 1 {
            let k = choose|k: int| 0 <= k < before.len() && x((#[trigger] before[k]).0 as int) == 1;
            assert(terms[k] == before[k]);
        }
        if row_sum(x, terms) <= 1 {
            assert forall|b: int, c: int|
                0 <= b < c < terms.len() && x((#[trigger] terms[b]).0 as int) == 1 implies x(
                (#[trigger] terms[c]).0 as int,
            ) == 0 by {
                assert(before[b] == terms[b]);
                if c < before.len() {
                    assert(before[c] == terms[c]);
                }
            }
        }
    }
}

/// A sum of columns that are 0 or 1 counts those that are 1.
pub(crate) proof fn lemma_sum_counts(x: spec_fn(int) -> int, terms: Seq<(usize, i64)>, ls: Seq<PropLit>)
    requires
        terms.len() == ls.len(),
        forall|k: int|
            0 <= k < terms.len() ==> (#[trigger] terms[k]).1 == 1 && 0 <= x(terms[k].0 as int) <= 1
                && lit_true(ones(x), ls[k]) == (x(terms[k].0 as int) == 1),
    ensures
        row_sum(x, terms) == true_count(ones(x), ls),
    decreases terms.len(),
{
    if terms.len() > 0 {
        let before = terms.drop_last();
        let last = terms.last();
        assert forall|k: int| 0 <= k < before.len() implies (#[trigger] before[k]).1 == 1 && 0 <= x(
            before[k].0 as int,
        ) <= 1 && lit_true(ones(x), ls.drop_last()[k]) == (x(before[k].0 as int) == 1) by {
            assert(before[k] == terms[k]);
        }
        lemma_sum_counts(x, before, ls.drop_last());
        assert(last == terms[terms.len() - 1]);
        assert(last.1 * x(last.0 as int) == x(last.0 as int)) by (nonlinear_arith)
            requires
                last.1 == 1,
        ;
    }
}

proof fn lemma_placed_once(x: spec_fn(int) -> int, l: Layout, i: int)
    requires
        l.indexed(),
        whole(x, l),
        rows_hold(x, placement_rows(l)),
        0 <= i < l.n_gates,
    ensures
        runs_once(ones(x), l, i),
{
    let a = ones(x);
    let row = placement_rows(l)[i];
    let terms = row.terms;
    assert(row_holds(x, row));
    assert forall|k: int| 0 <= k < terms.len() implies (#[trigger] terms[k]).1 == 1
        && terms[k].0 == l.gate(i, k) && 0 <= x(terms[k].0 as int) <= 1 by {
        l.lemma_gate_index(i, k);
    }
    lemma_sum_of_ones(x, terms);
    let k = choose|k: int| 0 <= k < terms.len() && x((#[trigger] terms[k]).0 as int) == 1;
    assert(a(l.gate(i, k)));
    assert forall|b: int, c: int| 0 <= b < c < l.slots && #[trigger] a(l.gate(i, b)) implies !(
    #[trigger] a(l.gate(i, c))) by {
        assert(terms[b].0 == l.gate(i, b) && terms[c].0 == l.gate(i, c));
    }
}

/// The sum of [`slot_difference`], where `u` runs in `su` alone and `v` in `sv`.
pub(crate) proof fn lemma_slot_difference(
    x: spec_fn(int) -> int,
    l: Layout,
    u: int,
    v: int,
    su: int,
    sv: int,
    j: int,
)
    requires
        l.indexed(),
        0 <= u < l.n_gates,
        0 <= v < l.n_gates,
        0 <= su < l.slots,
        0 <= sv < l.slots,
        forall|k: int|
            0 <= k < l.slots ==> #[trigger] x(l.gate(u, k)) == if k == su {
                1int
            } else {
                0
            },
        forall|k: int|
            0 <= k < l.slots ==> #[trigger] x(l.gate(v, k)) == if k == sv {
                1int
            } else {
                0
            },
        1 <= j <= l.slots,
    ensures
        row_sum(x, slot_difference(l, u, v, j)) == (if su < j {
            su
        } else {
            0
        }) - (if sv < j {
            sv
        } else {
            0
        }),
    decreases j,
{
    if j > 1 {
        lemma_slot_difference(x, l, u, v, su, sv, j - 1);
        let before = slot_difference(l, u, v, j - 1);
        let p = term(l.gate(u, j - 1), j - 1);
        let q = term(l.gate(v, j - 1), -(j - 1));
        l.lemma_gate_index(u, j - 1);
        l.lemma_gate_index(v, j - 1);
        assert(l.slots <= l.size()) by {
            l.lemma_products();
        }
        assert(p.0 == l.gate(u, j - 1) && p.1 == j - 1);
        assert(q.0 == l.gate(v, j - 1) && q.1 == -(j - 1));
        assert(slot_difference(l, u, v, j) =~= before.push(p).push(q));
        lemma_row_sum_push(x, before, p);
        lemma_row_sum_push(x, before.push(p), q);
        let xu = x(l.gate(u, j - 1));
        let xv = x(l.gate(v, j - 1));
        assert(xu == 1 || xu == 0);
        assert(xv == 1 || xv == 0);
        assert((j - 1) * xu == if su == j - 1 {
            su
        } else {
            0
        }) by (nonlinear_arith)
            requires
                xu == if j - 1 == su {
                    1int
                } else {
                    0
                },
        ;
        assert((-(j - 1)) * xv == if sv == j - 1 {
            -sv
        } else {
            0
        }) by (nonlinear_arith)
            requires
                xv == if j - 1 == sv {
                    1int
                } else {
                    0
                },
        ;
    } else {
        assert(slot_difference(l, u, v, j) =~= Seq::empty());
    }
}

proof fn lemma_order_rows(
    x: spec_fn(int) -> int,
    l: Layout,
    gates: Seq<Gate<Qubit>>,
    n: int,
    u: int,
)
    requires
        rows_hold(x, order_rows(l, gates, n)),
        0 <= u < n,
    ensures
        rows_hold(x, order_rows_of(l, u, successors_upto(gates, u, gates.len() as int))),
    decreases n,
{
    lemma_rows_append(
        x,
        order_rows(l, gates, n - 1),
        order_rows_of(l, n - 1, successors_upto(gates, n - 1, gates.len() as int)),
    );
    if u < n - 1 {
        lemma_order_rows(x, l, gates, n - 1, u);
    }
}

proof fn lemma_placed_in_order(
    x: spec_fn(int) -> int,
    l: Layout,
    gates: Seq<Gate<Qubit>>,
    u: int,
    v: int,
)
    requires
        l.indexed(),
        l.n_gates == gates.len(),
        whole(x, l),
        rows_hold(x, placement_rows(l)),
        rows_hold(x, order_rows(l, gates, l.n_gates as int)),
        0 <= u < l.n_gates,
        successors_upto(gates, u, gates.len() as int).contains(v),
    ensures
        runs_in_order(ones(x), l, u, v),
{
    let a = ones(x);
    let succ = successors_upto(gates, u, gates.len() as int);
    crate::partition::lemma_successors_upto(gates, u, gates.len() as int);
    assert(0 <= v < gates.len());
    lemma_placed_once(x, l, u);
    lemma_placed_once(x, l, v);
    let su = choose|j: int| 0 <= j < l.slots && #[trigger] a(l.gate(u, j));
    let sv = choose|j: int| 0 <= j < l.slots && #[trigger] a(l.gate(v, j));
    if l.slots > 1 {
        lemma_order_rows(x, l, gates, l.n_gates as int, u);
        let k = succ.index_of(v);
        assert(succ[k] == v);
        assert(row_holds(x, order_rows_of(l, u, succ)[k]));
        assert forall|j: int| 0 <= j < l.slots implies #[trigger] x(l.gate(u, j)) == if j == su {
            1int
        } else {
            0
        } by {
            assert(a(l.gate(u, j)) == (x(l.gate(u, j)) == 1));
            assert(0 <= x(l.gate(u, j)) <= 1);
        }
        assert forall|j: int| 0 <= j < l.slots implies #[trigger] x(l.gate(v, j)) == if j == sv {
            1int
        } else {
            0
        } by {
            assert(a(l.gate(v, j)) == (x(l.gate(v, j)) == 1));
            assert(0 <= x(l.gate(v, j)) <= 1);
        }
        lemma_slot_difference(x, l, u, v, su, sv, l.slots as int);
        assert(su <= sv);
    }
}

proof fn lemma_resident_rows_of(
    x: spec_fn(int) -> int,
    l: Layout,
    qubits: Seq<Qubit>,
    g: Gate<Qubit>,
    i: int,
    n: int,
    j: int,
)
    requires
        rows_hold(x, resident_rows_of(l, qubits, g, i, n)),
        0 <= j < n,
    ensures
        rows_hold(x, resident_rows_at(l, qubits, g, i, j)),
    decreases n,
{
    lemma_rows_append(
        x,
        resident_rows_of(l, qubits, g, i, n - 1),
        resident_rows_at(l, qubits, g, i, n - 1),
    );
    if j < n - 1 {
        lemma_resident_rows_of(x, l, qubits, g, i, n - 1, j);
    }
}

proof fn lemma_resident_rows(
    x: spec_fn(int) -> int,
    l: Layout,
    qubits: Seq<Qubit>,
    gates: Seq<Gate<Qubit>>,
    n: int,
    i: int,
)
    requires
        rows_hold(x, resident_rows(l, qubits, gates, n)),
        0 <= i < n,
    ensures
        rows_hold(x, resident_rows_of(l, qubits, gates[i], i, l.slots as int)),
    decreases n,
{
    lemma_rows_append(
        x,
        resident_rows(l, qubits, gates, n - 1),
        resident_rows_of(l, qubits, gates[n - 1], n - 1, l.slots as int),
    );
    if i < n - 1 {
        lemma_resident_rows(x, l, qubits, gates, n - 1, i);
    }
}

proof fn lemma_placed_resident(x: spec_fn(int) -> int, l: Layout, circ: Circuit, i: int)
    requires
        circ.wf(),
        l.indexed(),
        l.n_gates == circ.gates@.len(),
        l.n_qubits == circ.qubits@.len(),
        whole(x, l),
        rows_hold(x, resident_rows(l, circ.qubits@, circ.gates@, l.n_gates as int)),
        0 <= i < l.n_gates,
    ensures
        operands_resident(ones(x), l, circ.qubits@, circ.gates@[i], i),
{
    let a = ones(x);
    let all = circ.qubits@;
    let g = circ.gates@[i];
    lemma_resident_rows(x, l, all, circ.gates@, l.n_gates as int, i);
    assert forall|j: int, k: int|
        0 <= j < l.slots && 0 <= k < g.operands().len() && #[trigger] a(l.gate(i, j)) implies a(
        l.mem(qubit_position(all, #[trigger] g.operands()[k]), j),
    ) by {
        lemma_resident_rows_of(x, l, all, g, i, l.slots as int, j);
        let q = g.operands()[k];
        assert(g.operands().contains(q));
        assert(crate::circuit::acts_on(circ.gates@, q));
        assert(all.contains(q));
        let w = all.index_of(q);
        assert(all[w] == q);
        let p = qubit_position(all, q);
        assert(0 <= p < all.len());
        let row = resident_rows_at(l, all, g, i, j)[k];
        assert(row_holds(x, row));
        let s = term(l.gate(i, j), 1);
        let t = term(l.mem(p, j), -1);
        l.lemma_gate_index(i, j);
        l.lemma_qubit_index(p, j);
        let none = Seq::<(usize, i64)>::empty();
        assert(row.terms =~= none.push(s).push(t));
        lemma_row_sum_push(x, none, s);
        lemma_row_sum_push(x, none.push(s), t);
        assert(row_sum(x, none) == 0);
        let xs = x(l.gate(i, j));
        let xt = x(l.mem(p, j));
        assert(s.1 * xs == xs && t.1 * xt == -xt) by (nonlinear_arith)
            requires
                s.1 == 1,
                t.1 == -1,
        ;
        assert(xs == 1);
        assert(0 <= xt <= 1);
    }
}

proof fn lemma_placed_within(x: spec_fn(int) -> int, l: Layout, cap: int, j: int)
    requires
        l.indexed(),
        whole(x, l),
        rows_hold(x, capacity_rows(l, cap)),
        0 <= cap,
        0 <= j < l.slots,
    ensures
        slot_within(ones(x), l, cap, j),
{
    if cap < l.n_qubits {
        let row = capacity_rows(l, cap)[j];
        assert(row_holds(x, row));
        let ls = resident_lits(l, j);
        assert(l.n_qubits <= l.size()) by {
            l.lemma_products();
        }
        assert(row.upper == cap);
        assert forall|q: int| 0 <= q < row.terms.len() implies (#[trigger] row.terms[q]).1 == 1
            && 0 <= x(row.terms[q].0 as int) <= 1 && lit_true(ones(x), ls[q]) == (x(
            row.terms[q].0 as int,
        ) == 1) by {
            l.lemma_qubit_index(q, j);
            assert(0 <= x(l.mem(q, j)) <= 1);
        }
        lemma_sum_counts(x, row.terms, ls);
    }
}

/// The rows of the program on placements, order, residency and capacity.
pub open spec fn partition_rows_hold(
    x: spec_fn(int) -> int,
    l: Layout,
    circ: Circuit,
    cap: int,
) -> bool {
    &&& rows_hold(x, placement_rows(l))
    &&& rows_hold(x, order_rows(l, circ.gates@, l.n_gates as int))
    &&& rows_hold(x, resident_rows(l, circ.qubits@, circ.gates@, l.n_gates as int))
    &&& rows_hold(x, capacity_rows(l, cap))
}

/// The columns of placements and residency, where they are whole and meet the
/// rows of the program that are about them, describe a partition: every gate runs
/// in exactly one slot, no gate runs in a later slot than one that waits for it,
/// the operands of a gate are resident where it runs, and no slot has more than
/// `cap` resident qubits. Loads and stores may be fractional.
pub proof fn law_solutions_describe_partitions(
    x: spec_fn(int) -> int,
    l: Layout,
    circ: Circuit,
    cap: int,
)
    requires
        circ.wf(),
        l.indexed(),
        l.n_gates == circ.gates@.len(),
        l.n_qubits == circ.qubits@.len(),
        0 <= cap,
        whole(x, l),
        partition_rows_hold(x, l, circ, cap),
    ensures
        forall|i: int| 0 <= i < l.n_gates ==> #[trigger] runs_once(ones(x), l, i),
        forall|u: int, v: int|
            0 <= u < l.n_gates && #[trigger] successors_upto(
                circ.gates@,
                u,
                circ.gates@.len() as int,
            ).contains(v) ==> runs_in_order(ones(x), l, u, v),
        forall|i: int|
            0 <= i < l.n_gates ==> #[trigger] operands_resident(
                ones(x),
                l,
                circ.qubits@,
                circ.gates@[i],
                i,
            ),
        slots_within(ones(x), l, cap, l.slots as int),
{
    assert forall|i: int| 0 <= i < l.n_gates implies #[trigger] runs_once(ones(x), l, i) by {
        lemma_placed_once(x, l, i);
    }
    assert forall|u: int, v: int|
        0 <= u < l.n_gates && #[trigger] successors_upto(
            circ.gates@,
            u,
            circ.gates@.len() as int,
        ).contains(v) implies runs_in_order(ones(x), l, u, v) by {
        lemma_placed_in_order(x, l, circ.gates@, u, v);
    }
    assert forall|i: int| 0 <= i < l.n_gates implies #[trigger] operands_resident(
        ones(x),
        l,
        circ.qubits@,
        circ.gates@[i],
        i,
    ) by {
        lemma_placed_resident(x, l, circ, i);
    }
    assert forall|j: int| 0 <= j < l.slots implies #[trigger] slot_within(ones(x), l, cap, j) by {
        lemma_placed_within(x, l, cap, j);
    }
}

/// Every row of the program holding, so do those on placements, order, residency
/// and capacity.
pub proof fn law_partition_rows_are_rows(
    x: spec_fn(int) -> int,
    l: Layout,
    circ: Circuit,
    cap: int,
    cutoff: Option<usize>,
)
    requires
        rows_hold(x, mip_rows(l, circ.qubits@, circ.gates@, cap, cutoff)),
    ensures
        partition_rows_hold(x, l, circ, cap),
{
    let p = placement_rows(l);
    let o = order_rows(l, circ.gates@, l.n_gates as int);
    let r = resident_rows(l, circ.qubits@, circ.gates@, l.n_gates as int);
    let c = capacity_rows(l, cap);
    let t = transition_rows(l, l.n_qubits as int);
    let u = used_rows(l, l.slots as int);
    let f = prefix_rows(l);
    lemma_rows_append(x, p + o + r + c + t + u + f, cutoff_rows(l, cutoff));
    lemma_rows_append(x, p + o + r + c + t + u, f);
    lemma_rows_append(x, p + o + r + c + t, u);
    lemma_rows_append(x, p + o + r + c, t);
    lemma_rows_append(x, p + o + r, c);
    lemma_rows_append(x, p + o, r);
    lemma_rows_append(x, p, o);
}

/// The subcircuit of every slot of a solution acts on at most `cap` qubits.
pub proof fn law_solution_respects_capacity(
    x: spec_fn(int) -> int,
    l: Layout,
    circ: Circuit,
    cap: int,
    slot_of: Seq<usize>,
    j: int,
    sub: Circuit,
)
    requires
        circ.wf(),
        l.indexed(),
        l.n_gates == circ.gates@.len(),
        l.n_qubits == circ.qubits@.len(),
        0 <= cap,
        whole(x, l),
        partition_rows_hold(x, l, circ, cap),
        slot_of.len() == l.n_gates,
        forall|i: int| 0 <= i < l.n_gates ==> #[trigger] slot_of[i] == slot_from(ones(x), l, i, 0),
        0 <= j < l.slots,
        gathers(circ, gates_in_slot(slot_of, j, l.n_gates as int), sub),
    ensures
        sub.qubits@.len() <= cap,
{
    law_solutions_describe_partitions(x, l, circ, cap);
    assert(slot_within(ones(x), l, cap, j));
    lemma_within_capacity(ones(x), l, circ, cap, slot_of, j, sub);
}

/// No gate of a solution runs in an earlier subcircuit than one that it waits for.
pub proof fn law_solution_respects_dependencies(
    x: spec_fn(int) -> int,
    l: Layout,
    circ: Circuit,
    cap: int,
    slot_of: Seq<usize>,
    u: int,
    v: int,
)
    requires
        circ.wf(),
        l.indexed(),
        l.n_gates == circ.gates@.len(),
        l.n_qubits == circ.qubits@.len(),
        0 <= cap,
        whole(x, l),
        partition_rows_hold(x, l, circ, cap),
        slot_of.len() == l.n_gates,
        forall|i: int| 0 <= i < l.n_gates ==> #[trigger] slot_of[i] == slot_from(ones(x), l, i, 0),
        0 <= u < l.n_gates,
        0 <= v < l.n_gates,
        predecessors(circ.gates@, v).contains(u),
    ensures
        slot_of[u] <= slot_of[v],
{
    let a = ones(x);
    let gs = circ.gates@;
    law_solutions_describe_partitions(x, l, circ, cap);
    crate::partition::lemma_successors_upto(gs, u, gs.len() as int);
    assert(successors_upto(gs, u, gs.len() as int).contains(v));
    assert(runs_once(a, l, u) && runs_once(a, l, v));
    lemma_slot_from(a, l, u, 0);
    lemma_slot_from(a, l, v, 0);
    assert(slot_of[u] == slot_from(a, l, u, 0));
    assert(slot_of[v] == slot_from(a, l, v, 0));
    let i = slot_from(a, l, u, 0);
    let j = slot_from(a, l, v, 0);
    assert(a(l.gate(u, i)) && a(l.gate(v, j)));
}

} // verus!
