//! Greedy partitioning of a circuit into processor-sized subcircuits.

use vstd::prelude::*;

use crate::circuit::{Circuit, Gate, Qubit};
use crate::keyed::{sorted_contains, sorted_insert, sorted_remove};
#[allow(unused_imports)]
use crate::circuit::{
    acts_on, gate_positions, lemma_predecessors, lemma_predecessors_earlier, lemma_take_contains,
    predecessors, successors_upto,
};
#[allow(unused_imports)]
use crate::keyed::{increasing, key_lt, OrderedKey};

verus! {

/// Gate `g` is not done, and everything it waits for is.
pub open spec fn ready(gates: Seq<Gate<Qubit>>, done: Set<int>, g: int) -> bool {
    &&& 0 <= g < gates.len()
    &&& !done.contains(g)
    &&& forall|p: int| #[trigger] predecessors(gates, g).contains(p) ==> done.contains(p)
}

/// The number of listed qubits that are not active.
pub open spec fn inactive_count(qubits: Seq<Qubit>, active: Set<Qubit>) -> nat
    decreases qubits.len(),
{
    if qubits.len() == 0 {
        0
    } else {
        inactive_count(qubits.drop_last(), active) + if active.contains(qubits.last()) {
            0nat
        } else {
            1nat
        }
    }
}

/// Gate `g` is ready, and its qubits still fit beside the active ones.
pub open spec fn fits(
    gates: Seq<Gate<Qubit>>,
    done: Set<int>,
    active: Set<Qubit>,
    max_size: int,
    g: int,
) -> bool {
    &&& ready(gates, done, g)
    &&& active.len() + inactive_count(gates[g].operands(), active) <= max_size
}

/// Gate `g` is to be taken next: of those that fit, one that activates the
/// fewest qubits, and of these the first.
pub open spec fn greedy_choice(
    gates: Seq<Gate<Qubit>>,
    done: Set<int>,
    active: Set<Qubit>,
    max_size: int,
    g: int,
) -> bool {
    &&& fits(gates, done, active, max_size, g)
    &&& forall|h: int| #[trigger]
        fits(gates, done, active, max_size, h) ==> {
            let a = inactive_count(gates[g].operands(), active);
            let b = inactive_count(gates[h].operands(), active);
            a < b || (a == b && g <= h)
        }
}

/// The qubits that the gates at `picks` act on.
pub open spec fn active_set(gates: Seq<Gate<Qubit>>, picks: Seq<int>) -> Set<Qubit>
    decreases picks.len(),
{
    if picks.len() == 0 {
        Set::empty()
    } else {
        active_set(gates, picks.drop_last()).union(gates[picks.last()].operands().to_set())
    }
}

/// `picks` is what the greedy choice takes into one subcircuit, until nothing fits.
pub open spec fn greedy_block(
    gates: Seq<Gate<Qubit>>,
    done: Set<int>,
    max_size: int,
    picks: Seq<int>,
) -> bool {
    &&& picks.len() > 0
    &&& forall|k: int|
        0 <= k < picks.len() ==> greedy_choice(
            gates,
            done.union(picks.take(k).to_set()),
            active_set(gates, picks.take(k)),
            max_size,
            #[trigger] picks[k],
        )
    &&& forall|g: int|
        !#[trigger] fits(
            gates,
            done.union(picks.to_set()),
            active_set(gates, picks),
            max_size,
            g,
        )
}

/// The gates of the given blocks.
pub open spec fn done_by(blocks: Seq<Seq<int>>) -> Set<int>
    decreases blocks.len(),
{
    if blocks.len() == 0 {
        Set::empty()
    } else {
        done_by(blocks.drop_last()).union(blocks.last().to_set())
    }
}

/// The blocks are filled greedily, one after another, until every gate is done.
pub open spec fn greedy_partition(
    gates: Seq<Gate<Qubit>>,
    max_size: int,
    blocks: Seq<Seq<int>>,
) -> bool {
    &&& forall|b: int|
        0 <= b < blocks.len() ==> greedy_block(
            gates,
            done_by(blocks.take(b)),
            max_size,
            #[trigger] blocks[b],
        )
    &&& forall|g: int| 0 <= g < gates.len() ==> #[trigger] done_by(blocks).contains(g)
}

/// `sub` holds the gates of `gates` at `picks`, and the qubits they act on.
pub open spec fn subcircuit_of(gates: Seq<Gate<Qubit>>, picks: Seq<int>, sub: Circuit) -> bool {
    &&& sub.gates@ == picks.map_values(|g: int| gates[g])
    &&& increasing(sub.qubits@)
    &&& sub.qubits@.to_set() == active_set(gates, picks)
    &&& sub.num_qubits == sub.qubits@.len()
}

/// The number of listed gates that are not done.
spec fn unmet(preds: Seq<int>, done: Set<int>) -> nat
    decreases preds.len(),
{
    if preds.len() == 0 {
        0
    } else {
        unmet(preds.drop_last(), done) + if done.contains(preds.last()) {
            0nat
        } else {
            1nat
        }
    }
}

proof fn lemma_unmet_zero(preds: Seq<int>, done: Set<int>)
    ensures
        unmet(preds, done) <= preds.len(),
        unmet(preds, done) == 0 <==> (forall|p: int| #[trigger]
            preds.contains(p) ==> done.contains(p)),
    decreases preds.len(),
{
    if preds.len() > 0 {
        let t = preds.drop_last();
        lemma_unmet_zero(t, done);
        assert(preds[preds.len() - 1] == preds.last());
        if forall|p: int| #[trigger] preds.contains(p) ==> done.contains(p) {
            assert forall|p: int| #[trigger] t.contains(p) implies done.contains(p) by {
                assert(preds[t.index_of(p)] == p);
                assert(preds.contains(p));
            }
            assert(preds.contains(preds.last()));
        }
        if unmet(preds, done) == 0 {
            assert forall|p: int| #[trigger] preds.contains(p) implies done.contains(p) by {
                let i = preds.index_of(p);
                if i < t.len() {
                    assert(t[i] == p);
                    assert(t.contains(p));
                }
            }
        }
    }
}

proof fn lemma_unmet_insert(preds: Seq<int>, done: Set<int>, id: int)
    requires
        preds.no_duplicates(),
        !done.contains(id),
    ensures
        unmet(preds, done.insert(id)) == unmet(preds, done) - if preds.contains(id) {
            1int
        } else {
            0int
        },
    decreases preds.len(),
{
    if preds.len() > 0 {
        let t = preds.drop_last();
        assert(t.no_duplicates());
        lemma_unmet_insert(t, done, id);
        if preds.last() == id {
            assert(preds[preds.len() - 1] == id);
            if t.contains(id) {
                assert(preds[t.index_of(id)] == id);
            }
        } else if preds.contains(id) {
            let i = preds.index_of(id);
            assert(t[i] == id);
        } else if t.contains(id) {
            assert(preds[t.index_of(id)] == id);
        }
    }
}

/// The successors of `g` are the gates that wait for it, each listed once.
pub proof fn lemma_successors_upto(gates: Seq<Gate<Qubit>>, g: int, n: int)
    requires
        0 <= n <= gates.len(),
    ensures
        forall|i: int| #[trigger]
            successors_upto(gates, g, n).contains(i) <==> (0 <= i < n && predecessors(
                gates,
                i,
            ).contains(g)),
        successors_upto(gates, g, n).no_duplicates(),
    decreases n,
{
    if n > 0 {
        lemma_successors_upto(gates, g, n - 1);
        let before = successors_upto(gates, g, n - 1);
        let now = successors_upto(gates, g, n);
        if predecessors(gates, n - 1).contains(g) {
            assert(now == before.push(n - 1));
            assert forall|i: int| #[trigger] now.contains(i) <==> (before.contains(i) || i == n
                - 1) by {
                if before.contains(i) {
                    assert(now[before.index_of(i)] == i);
                }
                assert(now[before.len() as int] == n - 1);
                if now.contains(i) && i != n - 1 {
                    assert(before[now.index_of(i)] == i);
                }
            }
            assert(!before.contains(n - 1));
            assert forall|i: int, j: int|
                0 <= i < now.len() && 0 <= j < now.len() && i != j implies now[i] != now[j] by {
                if i < before.len() {
                    assert(before.contains(before[i]));
                }
                if j < before.len() {
                    assert(before.contains(before[j]));
                }
            }
        }
    } else {
        assert forall|i: int| #[trigger] successors_upto(gates, g, n).contains(i) implies false by {
        }
    }
}

/// The first gate that is not done.
proof fn lemma_first_not_done(done: Set<int>, n: int, k: int) -> (g: int)
    requires
        0 <= k <= n,
        forall|i: int| 0 <= i < k ==> done.contains(i),
        exists|i: int| 0 <= i < n && !done.contains(i),
    ensures
        0 <= g < n,
        !done.contains(g),
        forall|i: int| 0 <= i < g ==> done.contains(i),
    decreases n - k,
{
    if done.contains(k) {
        lemma_first_not_done(done, n, k + 1)
    } else {
        k
    }
}

proof fn lemma_not_all_done(done: Set<int>, n: int)
    requires
        done.finite(),
        done.len() < n,
    ensures
        exists|i: int| 0 <= i < n && !done.contains(i),
{
    let all = vstd::set_lib::set_int_range(0, n);
    vstd::set_lib::lemma_int_range(0, n);
    if forall|i: int| 0 <= i < n ==> done.contains(i) {
        assert(all.subset_of(done));
        vstd::set_lib::lemma_len_subset(all, done);
    }
}

/// An increasing list holds as many qubits as it is long.
pub proof fn lemma_increasing_len(v: Seq<Qubit>)
    requires
        increasing(v),
    ensures
        v.to_set().finite(),
        v.to_set().len() == v.len(),
{
    assert forall|i: int, j: int| 0 <= i < v.len() && 0 <= j < v.len() && i != j implies v[i]
        != v[j] by {
        if i < j {
            assert(key_lt(v[i].key(), v[j].key()));
        } else {
            assert(key_lt(v[j].key(), v[i].key()));
        }
    }
    v.unique_seq_to_set();
}

proof fn lemma_inactive_bound(qubits: Seq<Qubit>, active: Set<Qubit>)
    ensures
        inactive_count(qubits, active) <= qubits.len(),
    decreases qubits.len(),
{
    if qubits.len() > 0 {
        lemma_inactive_bound(qubits.drop_last(), active);
    }
}

/// Joining distinct qubits to a set adds as many elements as were inactive.
proof fn lemma_union_len(active: Set<Qubit>, qubits: Seq<Qubit>)
    requires
        active.finite(),
        qubits.no_duplicates(),
    ensures
        active.union(qubits.to_set()).finite(),
        active.union(qubits.to_set()).len() == active.len() + inactive_count(qubits, active),
    decreases qubits.len(),
{
    if qubits.len() == 0 {
        assert(active.union(qubits.to_set()) =~= active);
    } else {
        let t = qubits.drop_last();
        let q = qubits.last();
        lemma_union_len(active, t);
        assert(!t.contains(q)) by {
            if t.contains(q) {
                assert(qubits[t.index_of(q)] == qubits[qubits.len() - 1]);
            }
        }
        assert(active.union(qubits.to_set()) =~= active.union(t.to_set()).insert(q)) by {
            assert forall|x: Qubit| #[trigger] qubits.to_set().contains(x) <==> (
            t.to_set().contains(x) || x == q) by {
                if t.contains(x) {
                    assert(qubits[t.index_of(x)] == x);
                }
                assert(qubits[qubits.len() - 1] == q);
                if qubits.contains(x) && x != q {
                    assert(t[qubits.index_of(x)] == x);
                }
            }
        }
        if active.contains(q) {
            assert(active.union(t.to_set()).insert(q) =~= active.union(t.to_set()));
        } else {
            assert(!active.union(t.to_set()).contains(q));
        }
    }
}

/// The number of qubits of `qs` that `active` does not hold.
fn count_inactive(qs: &Vec<Qubit>, active: &Vec<Qubit>) -> (r: usize)
    requires
        increasing(active@),
    ensures
        r == inactive_count(qs@, active@.to_set()),
{
    let mut r: usize = 0;
    assert(qs@.take(0) =~= Seq::empty());
    for i in 0..qs.len()
        invariant
            increasing(active@),
            r <= i,
            r == inactive_count(qs@.take(i as int), active@.to_set()),
    {
        proof {
            assert(qs@.take(i + 1).drop_last() =~= qs@.take(i as int));
        }
        if !sorted_contains(active, &qs[i]) {
            r = r + 1;
        }
    }
    assert(qs@.take(qs@.len() as int) =~= qs@);
    r
}

/// Add the qubits of `qs` to `active`.
fn activate(active: &mut Vec<Qubit>, qs: &Vec<Qubit>)
    requires
        increasing(old(active)@),
    ensures
        increasing(final(active)@),
        final(active)@.to_set() == old(active)@.to_set().union(qs@.to_set()),
{
    let ghost before = active@;
    for i in 0..qs.len()
        invariant
            increasing(active@),
            forall|q: Qubit| #[trigger]
                active@.contains(q) <==> (before.contains(q) || qs@.take(i as int).contains(q)),
    {
        let _ = sorted_insert(active, qs[i]);
        proof {
            lemma_take_contains(qs@, i as int);
        }
    }
    assert(qs@.take(qs@.len() as int) =~= qs@);
    assert(active@.to_set() =~= before.to_set().union(qs@.to_set()));
}

/// Which gate to take next, among the ready ones.
fn choose_gate(
    gates: &Vec<Gate<Qubit>>,
    gate_qubits: &Vec<Vec<Qubit>>,
    ready_ids: &Vec<usize>,
    active: &Vec<Qubit>,
    max_size: usize,
    Ghost(done): Ghost<Set<int>>,
) -> (r: Option<usize>)
    requires
        gate_qubits@.len() == gates@.len(),
        forall|i: int|
            0 <= i < gates@.len() ==> (#[trigger] gate_qubits@[i])@ == gates@[i].operands(),
        increasing(ready_ids@),
        forall|g: usize| #[trigger] ready_ids@.contains(g) <==> ready(gates@, done, g as int),
        gates@.len() <= usize::MAX,
        increasing(active@),
        active@.len() <= max_size,
    ensures
        match r {
            Some(id) => greedy_choice(
                gates@,
                done,
                active@.to_set(),
                max_size as int,
                id as int,
            ),
            None => forall|g: int|
                !#[trigger] fits(gates@, done, active@.to_set(), max_size as int, g),
        },
{
    let ghost act = active@.to_set();
    proof {
        lemma_increasing_len(active@);
    }
    let mut best: Option<(usize, usize)> = None;
    for i in 0..ready_ids.len()
        invariant
            gate_qubits@.len() == gates@.len(),
            forall|i: int|
                0 <= i < gates@.len() ==> (#[trigger] gate_qubits@[i])@ == gates@[i].operands(),
            increasing(ready_ids@),
            forall|g: usize| #[trigger] ready_ids@.contains(g) <==> ready(gates@, done, g as int),
            increasing(active@),
            active@.len() <= max_size,
            act == active@.to_set(),
            act.len() == active@.len(),
            match best {
                Some((id, new)) => {
                    &&& ready_ids@.take(i as int).contains(id)
                    &&& fits(gates@, done, act, max_size as int, id as int)
                    &&& new == inactive_count(gates@[id as int].operands(), act)
                    &&& forall|j: int|
                        0 <= j < i && fits(
                            gates@,
                            done,
                            act,
                            max_size as int,
                            (#[trigger] ready_ids@[j]) as int,
                        ) ==> {
                            let b = inactive_count(gates@[ready_ids@[j] as int].operands(), act);
                            new < b || (new == b && id <= ready_ids@[j])
                        }
                },
                None => forall|j: int|
                    0 <= j < i ==> !fits(
                        gates@,
                        done,
                        act,
                        max_size as int,
                        (#[trigger] ready_ids@[j]) as int,
                    ),
            },
    {
        let id: usize = ready_ids[i];
        assert(ready_ids@.contains(id));
        let new: usize = count_inactive(&gate_qubits[id], active);
        let fitting = new <= max_size - active.len();
        assert(fitting == fits(gates@, done, act, max_size as int, id as int));
        proof {
            lemma_take_contains(ready_ids@, i as int);
            if let Some((b, _)) = best {
                let j = ready_ids@.take(i as int).index_of(b);
                assert(key_lt(ready_ids@[j].key(), ready_ids@[i as int].key()));
            }
        }
        if fitting {
            match best {
                None => {
                    best = Some((id, new));
                },
                Some((_, best_new)) => {
                    if new < best_new {
                        best = Some((id, new));
                    }
                },
            }
        }
    }
    proof {
        assert forall|g: int| #[trigger]
            fits(gates@, done, act, max_size as int, g) implies exists|j: int|
            0 <= j < ready_ids@.len() && #[trigger] ready_ids@[j] == g by {
            let gu = g as usize;
            assert(ready_ids@.contains(gu));
            let j = ready_ids@.index_of(gu);
            assert(ready_ids@[j] == g);
        }
    }
    match best {
        Some((id, _)) => Some(id),
        None => None,
    }
}

/// The counters and the list of ready gates agree with what is done.
spec fn bookkeeping(
    gates: Seq<Gate<Qubit>>,
    done: Set<int>,
    in_degree: Seq<usize>,
    ready_ids: Seq<usize>,
) -> bool {
    &&& in_degree.len() == gates.len()
    &&& forall|i: int|
        0 <= i < gates.len() ==> #[trigger] in_degree[i] == unmet(predecessors(gates, i), done)
    &&& increasing(ready_ids)
    &&& forall|g: usize| #[trigger] ready_ids.contains(g) <==> ready(gates, done, g as int)
    &&& forall|g: int|
        done.contains(g) ==> 0 <= g < gates.len() && (forall|p: int| #[trigger]
            predecessors(gates, g).contains(p) ==> done.contains(p))
}

/// No gate names a qubit twice.
pub open spec fn operands_distinct(gates: Seq<Gate<Qubit>>) -> bool {
    forall|i: int| 0 <= i < gates.len() ==> (#[trigger] gates[i]).operands().no_duplicates()
}

/// Mark gate `id` as done, and list the gates that become ready by it.
fn mark_done(
    gates: &Vec<Gate<Qubit>>,
    successors: &Vec<Vec<crate::circuit::GateId>>,
    in_degree: &mut Vec<usize>,
    ready_ids: &mut Vec<usize>,
    id: usize,
    Ghost(done): Ghost<Set<int>>,
)
    requires
        bookkeeping(gates@, done, old(in_degree)@, old(ready_ids)@),
        operands_distinct(gates@),
        ready(gates@, done, id as int),
        successors@.len() == gates@.len(),
        gate_positions(successors@[id as int]@) == successors_upto(
            gates@,
            id as int,
            gates@.len() as int,
        ),
    ensures
        bookkeeping(gates@, done.insert(id as int), final(in_degree)@, final(ready_ids)@),
{
    let ghost n = gates@.len() as int;
    let ghost gs = gates@;
    let ghost now = done.insert(id as int);
    let ghost deg0 = in_degree@;
    let ghost list = successors_upto(gs, id as int, n);
    let ghost ready0 = ready_ids@;
    let _ = sorted_remove(ready_ids, &id);
    let succ = &successors[id];
    proof {
        lemma_successors_upto(gs, id as int, n);
        assert(list.take(0) =~= Seq::empty());
        lemma_predecessors_earlier(gs, id as int, gs[id as int].operands().len() as int);
    }
    for j in 0..succ.len()
        invariant
            gs == gates@,
            n == gs.len(),
            operands_distinct(gs),
            bookkeeping(gs, done, deg0, ready0),
            ready(gs, done, id as int),
            now == done.insert(id as int),
            gate_positions(succ@) == list,
            list.no_duplicates(),
            forall|i: int| #[trigger]
                list.contains(i) <==> (0 <= i < n && predecessors(gs, i).contains(id as int)),
            in_degree@.len() == n,
            forall|i: int|
                0 <= i < n ==> #[trigger] in_degree@[i] == if list.take(j as int).contains(i) {
                    unmet(predecessors(gs, i), now) as int
                } else {
                    deg0[i] as int
                },
            increasing(ready_ids@),
            forall|g: usize| #[trigger]
                ready_ids@.contains(g) <==> ((ready0.contains(g) && g != id) || (list.take(
                    j as int,
                ).contains(g as int) && unmet(predecessors(gs, g as int), now) == 0)),
    {
        let s: usize = succ[j].0;
        proof {
            assert(gate_positions(succ@)[j as int] == s as int);
            assert(list[j as int] == s as int);
            assert(list.contains(s as int));
            assert(!list.take(j as int).contains(s as int)) by {
                if list.take(j as int).contains(s as int) {
                    let k = list.take(j as int).index_of(s as int);
                    assert(list[k] == list[j as int]);
                }
            }
            lemma_take_contains(list, j as int);
            lemma_predecessors(gs, s as int, gs[s as int].operands().len() as int);
            lemma_unmet_insert(predecessors(gs, s as int), done, id as int);
        }
        in_degree[s] = in_degree[s] - 1;
        if in_degree[s] == 0 {
            let _ = sorted_insert(ready_ids, s);
        }
    }
    proof {
        assert(list.take(list.len() as int) =~= list);
        assert(list.len() == succ@.len());
        assert forall|i: int| 0 <= i < n implies #[trigger] in_degree@[i] == unmet(
            predecessors(gs, i),
            now,
        ) by {
            lemma_predecessors(gs, i, gs[i].operands().len() as int);
            lemma_unmet_insert(predecessors(gs, i), done, id as int);
            assert(list.contains(i) <==> predecessors(gs, i).contains(id as int));
        }
        assert forall|g: usize| #[trigger] ready_ids@.contains(g) <==> ready(gs, now, g as int) by {
            let gi = g as int;
            if 0 <= gi < n {
                lemma_unmet_zero(predecessors(gs, gi), now);
                lemma_unmet_zero(predecessors(gs, gi), done);
                lemma_predecessors(gs, gi, gs[gi].operands().len() as int);
                lemma_unmet_insert(predecessors(gs, gi), done, id as int);
                if list.contains(gi) && done.contains(gi) {
                    assert(predecessors(gs, gi).contains(id as int));
                }
                if list.contains(id as int) {
                    let k = predecessors(gs, id as int).index_of(id as int);
                    assert(predecessors(gs, id as int)[k] == id);
                }
                if ready(gs, now, gi) && !list.contains(gi) {
                    assert forall|p: int| #[trigger] predecessors(gs, gi).contains(
                        p,
                    ) implies done.contains(p) by {
                    }
                    assert(ready(gs, done, gi));
                }
            }
        }
        assert forall|g: int| now.contains(g) implies 0 <= g < n && (forall|p: int| #[trigger]
            predecessors(gs, g).contains(p) ==> now.contains(p)) by {
        }
    }
}

/// Split a circuit into subcircuits of at most `max_size` qubits. Each
/// subcircuit takes, as long as one fits, the ready gate that activates the
/// fewest new qubits.
pub fn get_processor_subcircuits(circ: &Circuit, max_size: usize) -> (subs: Vec<Circuit>)
    requires
        operands_distinct(circ.gates@),
        forall|i: int|
            0 <= i < circ.gates@.len() ==> (#[trigger] circ.gates@[i]).operands().len() <= max_size,
    ensures
        exists|blocks: Seq<Seq<int>>|
            #[trigger] greedy_partition(circ.gates@, max_size as int, blocks) && blocks.len()
                == subs@.len() && (forall|b: int|
                0 <= b < blocks.len() ==> subcircuit_of(circ.gates@, blocks[b], #[trigger] subs@[b])),
{
    let ghost gs = circ.gates@;
    let dag = circ.to_dag();
    let n: usize = dag.n;
    let mut in_degree = dag.in_degree;
    let mut ready_ids: Vec<usize> = Vec::new();
    let ghost mut done: Set<int> = Set::empty();
    let ghost mut blocks: Seq<Seq<int>> = Seq::empty();
    let mut gate_qubits: Vec<Vec<Qubit>> = Vec::new();
    for i in 0..n
        invariant
            n == gs.len(),
            gs == circ.gates@,
            in_degree@.len() == n,
            forall|j: int| 0 <= j < n ==> #[trigger] in_degree@[j] == predecessors(gs, j).len(),
            gate_qubits@.len() == i,
            forall|j: int|
                0 <= j < i ==> (#[trigger] gate_qubits@[j])@ == gs[j].operands(),
            increasing(ready_ids@),
            forall|g: usize| #[trigger]
                ready_ids@.contains(g) <==> g < i && predecessors(gs, g as int).len() == 0,
            forall|j: int| 0 <= j < ready_ids@.len() ==> #[trigger] ready_ids@[j] < i,
    {
        gate_qubits.push(circ.gates[i].qubits());
        if in_degree[i] == 0 {
            let ghost before = ready_ids@;
            ready_ids.push(i);
            proof {
                assert forall|g: usize| #[trigger] ready_ids@.contains(g) <==> g < i + 1
                    && predecessors(gs, g as int).len() == 0 by {
                    if before.contains(g) {
                        assert(ready_ids@[before.index_of(g)] == g);
                    }
                    assert(ready_ids@[before.len() as int] == i);
                    if ready_ids@.contains(g) && g != i {
                        assert(before[ready_ids@.index_of(g)] == g);
                    }
                }
            }
        }
    }
    proof {
        assert forall|i: int| 0 <= i < n implies #[trigger] in_degree@[i] == unmet(
            predecessors(gs, i),
            done,
        ) by {
            lemma_unmet_empty(predecessors(gs, i));
        }
        assert forall|g: usize| #[trigger] ready_ids@.contains(g) <==> ready(gs, done, g as int) by {
            if g < n {
                lemma_unmet_empty(predecessors(gs, g as int));
                lemma_unmet_zero(predecessors(gs, g as int), done);
            }
        }
    }
    let mut subcircuits: Vec<Circuit> = Vec::new();
    let mut total_assigned: usize = 0;
    while total_assigned < n
        invariant
            n == gs.len(),
            gs == circ.gates@,
            operands_distinct(gs),
            forall|i: int| 0 <= i < gs.len() ==> (#[trigger] gs[i]).operands().len() <= max_size,
            dag.successors@.len() == n,
            forall|g: int|
                0 <= g < n ==> gate_positions((#[trigger] dag.successors@[g])@) == successors_upto(
                    gs,
                    g,
                    n as int,
                ),
            gate_qubits@.len() == n,
            forall|j: int| 0 <= j < n ==> (#[trigger] gate_qubits@[j])@ == gs[j].operands(),
            bookkeeping(gs, done, in_degree@, ready_ids@),
            done.finite(),
            done.len() == total_assigned,
            total_assigned <= n,
            done == done_by(blocks),
            blocks.len() == subcircuits@.len(),
            forall|b: int|
                0 <= b < blocks.len() ==> greedy_block(
                    gs,
                    done_by(blocks.take(b)),
                    max_size as int,
                    #[trigger] blocks[b],
                ),
            forall|b: int|
                0 <= b < blocks.len() ==> subcircuit_of(
                    gs,
                    blocks[b],
                    #[trigger] subcircuits@[b],
                ),
        decreases n - total_assigned,
    {
        let ghost start = done;
        let ghost assigned0 = total_assigned;
        let ghost mut picks: Seq<int> = Seq::empty();
        let mut active_qubits: Vec<Qubit> = Vec::new();
        let mut subcircuit_gates: Vec<Gate<Qubit>> = Vec::new();
        let mut made_progress = true;
        proof {
            assert(start.union(picks.to_set()) =~= start);
            assert(active_qubits@.to_set() =~= active_set(gs, picks));
            assert(subcircuit_gates@ =~= picks.map_values(|g: int| gs[g]));
            lemma_not_all_done(done, n as int);
            let g = lemma_first_not_done(done, n as int, 0);
            lemma_predecessors_earlier(gs, g, gs[g].operands().len() as int);
            assert forall|p: int| #[trigger] predecessors(gs, g).contains(
                p,
            ) implies done.contains(p) by {
                let k = predecessors(gs, g).index_of(p);
                assert(predecessors(gs, g)[k] == p);
            }
            lemma_inactive_bound(gs[g].operands(), Set::empty());
            assert(fits(gs, start, active_set(gs, picks), max_size as int, g));
        }
        while made_progress
            invariant
                n == gs.len(),
                gs == circ.gates@,
                operands_distinct(gs),
                dag.successors@.len() == n,
                forall|g: int|
                    0 <= g < n ==> gate_positions((#[trigger] dag.successors@[g])@)
                        == successors_upto(gs, g, n as int),
                gate_qubits@.len() == n,
                forall|j: int| 0 <= j < n ==> (#[trigger] gate_qubits@[j])@ == gs[j].operands(),
                bookkeeping(gs, done, in_degree@, ready_ids@),
                done.finite(),
                done.len() == total_assigned,
                total_assigned == assigned0 + picks.len(),
                total_assigned <= n,
                done == start.union(picks.to_set()),
                increasing(active_qubits@),
                active_qubits@.to_set() == active_set(gs, picks),
                active_qubits@.len() <= max_size,
                subcircuit_gates@ == picks.map_values(|g: int| gs[g]),
                forall|k: int|
                    0 <= k < picks.len() ==> greedy_choice(
                        gs,
                        start.union(picks.take(k).to_set()),
                        active_set(gs, picks.take(k)),
                        max_size as int,
                        #[trigger] picks[k],
                    ),
                exists|g: int| #[trigger]
                    fits(gs, start, active_set(gs, Seq::<int>::empty()), max_size as int, g),
                !made_progress ==> forall|g: int|
                    !#[trigger] fits(gs, done, active_set(gs, picks), max_size as int, g),
            decreases n - total_assigned, (if made_progress { 1int } else { 0int }),
        {
            let best = choose_gate(
                &circ.gates,
                &gate_qubits,
                &ready_ids,
                &active_qubits,
                max_size,
                Ghost(done),
            );
            made_progress = false;
            if let Some(id) = best {
                let ghost act = active_qubits@.to_set();
                proof {
                    lemma_increasing_len(active_qubits@);
                    lemma_union_len(act, gs[id as int].operands());
                    lemma_lt_len(done, id as int, n as int);
                }
                activate(&mut active_qubits, &gate_qubits[id]);
                subcircuit_gates.push(circ.gates[id]);
                mark_done(
                    &circ.gates,
                    &dag.successors,
                    &mut in_degree,
                    &mut ready_ids,
                    id,
                    Ghost(done),
                );
                total_assigned = total_assigned + 1;
                made_progress = true;
                proof {
                    let old_picks = picks;
                    picks = picks.push(id as int);
                    assert(picks.drop_last() =~= old_picks);
                    lemma_increasing_len(active_qubits@);
                    assert(picks.to_set() =~= old_picks.to_set().insert(id as int)) by {
                        lemma_take_contains(picks, old_picks.len() as int);
                        assert(picks.take(old_picks.len() as int + 1) =~= picks);
                        assert(picks.take(old_picks.len() as int) =~= old_picks);
                    }
                    assert(done.insert(id as int) =~= start.union(picks.to_set()));
                    done = done.insert(id as int);
                    assert(subcircuit_gates@ =~= picks.map_values(|g: int| gs[g]));
                    assert forall|k: int| 0 <= k < picks.len() implies greedy_choice(
                        gs,
                        start.union(picks.take(k).to_set()),
                        active_set(gs, picks.take(k)),
                        max_size as int,
                        #[trigger] picks[k],
                    ) by {
                        assert(picks.take(k) =~= old_picks.take(k));
                        if k == old_picks.len() {
                            assert(old_picks.take(k) =~= old_picks);
                        } else {
                            assert(picks[k] == old_picks[k]);
                        }
                    }
                }
            }
        }
        proof {
            if picks.len() == 0 {
                assert(picks =~= Seq::<int>::empty());
                assert(start.union(picks.to_set()) =~= start);
                assert(false);
            }
            let old_blocks = blocks;
            blocks = blocks.push(picks);
            assert(blocks.drop_last() =~= old_blocks);
            assert forall|b: int| 0 <= b < blocks.len() implies greedy_block(
                gs,
                done_by(blocks.take(b)),
                max_size as int,
                #[trigger] blocks[b],
            ) by {
                assert(blocks.take(b) =~= old_blocks.take(b));
                if b == old_blocks.len() {
                    assert(old_blocks.take(b) =~= old_blocks);
                } else {
                    assert(blocks[b] == old_blocks[b]);
                }
            }
        }
        let num_qubits: usize = active_qubits.len();
        let sub = Circuit { gates: subcircuit_gates, qubits: active_qubits, num_qubits };
        assert(subcircuit_of(gs, picks, sub));
        subcircuits.push(sub);
    }
    proof {
        assert forall|g: int| 0 <= g < gs.len() implies #[trigger] done_by(blocks).contains(g) by {
            if !done.contains(g) {
                let all = vstd::set_lib::set_int_range(0, n as int);
                vstd::set_lib::lemma_int_range(0, n as int);
                assert(done.subset_of(all.remove(g)));
                vstd::set_lib::lemma_len_subset(done, all.remove(g));
            }
        }
        assert(greedy_partition(gs, max_size as int, blocks));
    }
    subcircuits
}

proof fn lemma_unmet_empty(preds: Seq<int>)
    ensures
        unmet(preds, Set::empty()) == preds.len(),
    decreases preds.len(),
{
    if preds.len() > 0 {
        lemma_unmet_empty(preds.drop_last());
    }
}

/// A set of positions that misses one holds fewer than all.
proof fn lemma_lt_len(done: Set<int>, g: int, n: int)
    requires
        done.finite(),
        0 <= g < n,
        !done.contains(g),
    ensures
        (forall|i: int| done.contains(i) ==> 0 <= i < n) ==> done.len() < n,
{
    if forall|i: int| done.contains(i) ==> 0 <= i < n {
        let all = vstd::set_lib::set_int_range(0, n);
        vstd::set_lib::lemma_int_range(0, n);
        assert(done.insert(g).subset_of(all));
        vstd::set_lib::lemma_len_subset(done.insert(g), all);
    }
}

// ---------------------------------------------------------------------------
// What a greedy partition keeps
// ---------------------------------------------------------------------------
/// The gates of the blocks, one block after another.
pub open spec fn execution_order(blocks: Seq<Seq<int>>) -> Seq<int>
    decreases blocks.len(),
{
    if blocks.len() == 0 {
        Seq::empty()
    } else {
        execution_order(blocks.drop_last()) + blocks.last()
    }
}

/// Every gate of `order` comes after all gates that it waits for.
pub open spec fn dependencies_met(gates: Seq<Gate<Qubit>>, order: Seq<int>) -> bool {
    forall|k: int, p: int|
        0 <= k < order.len() && #[trigger] predecessors(gates, order[k]).contains(p)
            ==> order.take(k).contains(p)
}

proof fn lemma_block_order(
    gates: Seq<Gate<Qubit>>,
    max_size: int,
    before: Seq<int>,
    picks: Seq<int>,
    k: int,
)
    requires
        greedy_block(gates, before.to_set(), max_size, picks),
        before.no_duplicates(),
        dependencies_met(gates, before),
        forall|i: int| 0 <= i < before.len() ==> 0 <= #[trigger] before[i] < gates.len(),
        0 <= k <= picks.len(),
    ensures
        (before + picks.take(k)).no_duplicates(),
        dependencies_met(gates, before + picks.take(k)),
        forall|i: int|
            0 <= i < (before + picks.take(k)).len() ==> 0 <= #[trigger] (before + picks.take(k))[i]
                < gates.len(),
    decreases k,
{
    if k == 0 {
        assert(before + picks.take(0) =~= before);
    } else {
        lemma_block_order(gates, max_size, before, picks, k - 1);
        let prev = before + picks.take(k - 1);
        let now = before + picks.take(k);
        let g = picks[k - 1];
        assert(now =~= prev.push(g));
        assert(greedy_choice(
            gates,
            before.to_set().union(picks.take(k - 1).to_set()),
            active_set(gates, picks.take(k - 1)),
            max_size,
            picks[k - 1],
        ));
        assert forall|x: int| #[trigger] prev.contains(x) <==> before.to_set().union(
            picks.take(k - 1).to_set(),
        ).contains(x) by {
            if prev.contains(x) {
                let i = prev.index_of(x);
                if i < before.len() {
                    assert(before[i] == x);
                } else {
                    assert(picks.take(k - 1)[i - before.len()] == x);
                }
            }
            if before.contains(x) {
                assert(prev[before.index_of(x)] == x);
            }
            if picks.take(k - 1).contains(x) {
                assert(prev[before.len() + picks.take(k - 1).index_of(x)] == x);
            }
        }
        assert(!prev.contains(g));
        assert forall|i: int, j: int|
            0 <= i < now.len() && 0 <= j < now.len() && i != j implies now[i] != now[j] by {
            if i < prev.len() {
                assert(prev[i] == now[i]);
                assert(prev.contains(prev[i]));
            }
            if j < prev.len() {
                assert(prev[j] == now[j]);
                assert(prev.contains(prev[j]));
            }
        }
        assert forall|i: int, p: int|
            0 <= i < now.len() && #[trigger] predecessors(gates, now[i]).contains(
                p,
            ) implies now.take(i).contains(p) by {
            assert(now.take(i) =~= prev.take(i));
            if i == prev.len() {
                assert(prev.take(i) =~= prev);
            } else {
                assert(now[i] == prev[i]);
            }
        }
        assert forall|i: int| 0 <= i < now.len() implies 0 <= #[trigger] now[i] < gates.len() by {
            if i < prev.len() {
                assert(now[i] == prev[i]);
            }
        }
    }
}

proof fn lemma_partition_order(
    gates: Seq<Gate<Qubit>>,
    max_size: int,
    blocks: Seq<Seq<int>>,
    b: int,
)
    requires
        greedy_partition(gates, max_size, blocks),
        0 <= b <= blocks.len(),
    ensures
        execution_order(blocks.take(b)).to_set() == done_by(blocks.take(b)),
        execution_order(blocks.take(b)).no_duplicates(),
        dependencies_met(gates, execution_order(blocks.take(b))),
        forall|i: int|
            0 <= i < execution_order(blocks.take(b)).len() ==> 0
                <= #[trigger] execution_order(blocks.take(b))[i] < gates.len(),
    decreases b,
{
    if b == 0 {
        assert(execution_order(blocks.take(0)).to_set() =~= Set::empty());
    } else {
        lemma_partition_order(gates, max_size, blocks, b - 1);
        let before = execution_order(blocks.take(b - 1));
        let picks = blocks[b - 1];
        assert(blocks.take(b).drop_last() =~= blocks.take(b - 1));
        lemma_block_order(gates, max_size, before, picks, picks.len() as int);
        assert(picks.take(picks.len() as int) =~= picks);
        let now = before + picks;
        assert(now.to_set() =~= before.to_set().union(picks.to_set())) by {
            assert forall|x: int| #[trigger] now.contains(x) <==> (before.contains(x)
                || picks.contains(x)) by {
                if now.contains(x) {
                    let i = now.index_of(x);
                    if i < before.len() {
                        assert(before[i] == x);
                    } else {
                        assert(picks[i - before.len()] == x);
                    }
                }
                if before.contains(x) {
                    assert(now[before.index_of(x)] == x);
                }
                if picks.contains(x) {
                    assert(now[before.len() + picks.index_of(x)] == x);
                }
            }
        }
    }
}

/// A greedy partition runs every gate exactly once, and no gate before one
/// that it waits for.
pub proof fn law_greedy_runs_each_gate_once(
    gates: Seq<Gate<Qubit>>,
    max_size: int,
    blocks: Seq<Seq<int>>,
)
    requires
        greedy_partition(gates, max_size, blocks),
    ensures
        execution_order(blocks).no_duplicates(),
        forall|g: int| 0 <= g < gates.len() <==> #[trigger] execution_order(blocks).contains(g),
        execution_order(blocks).len() == gates.len(),
        dependencies_met(gates, execution_order(blocks)),
{
    lemma_partition_order(gates, max_size, blocks, blocks.len() as int);
    assert(blocks.take(blocks.len() as int) =~= blocks);
    let order = execution_order(blocks);
    assert forall|g: int| 0 <= g < gates.len() <==> #[trigger] order.contains(g) by {
        if order.contains(g) {
            assert(order[order.index_of(g)] == g);
        }
        if 0 <= g < gates.len() {
            assert(done_by(blocks).contains(g));
        }
    }
    order.unique_seq_to_set();
    let all = vstd::set_lib::set_int_range(0, gates.len() as int);
    vstd::set_lib::lemma_int_range(0, gates.len() as int);
    assert(order.to_set() =~= all);
}

/// No block of a greedy partition acts on more than `max_size` qubits.
pub proof fn law_greedy_respects_capacity(
    gates: Seq<Gate<Qubit>>,
    max_size: int,
    blocks: Seq<Seq<int>>,
    b: int,
)
    requires
        greedy_partition(gates, max_size, blocks),
        operands_distinct(gates),
        0 <= b < blocks.len(),
    ensures
        active_set(gates, blocks[b]).finite(),
        active_set(gates, blocks[b]).len() <= max_size,
{
    let picks = blocks[b];
    assert(greedy_block(gates, done_by(blocks.take(b)), max_size, blocks[b]));
    let k = picks.len() - 1;
    lemma_active_set_finite(gates, picks.take(k));
    assert(greedy_choice(
        gates,
        done_by(blocks.take(b)).union(picks.take(k).to_set()),
        active_set(gates, picks.take(k)),
        max_size,
        picks[k],
    ));
    assert(picks.drop_last() =~= picks.take(k));
    lemma_union_len(active_set(gates, picks.take(k)), gates[picks[k]].operands());
}

proof fn lemma_active_set_finite(gates: Seq<Gate<Qubit>>, picks: Seq<int>)
    ensures
        active_set(gates, picks).finite(),
    decreases picks.len(),
{
    if picks.len() > 0 {
        lemma_active_set_finite(gates, picks.drop_last());
    }
}

/// The active qubits are those that some picked gate acts on.
proof fn lemma_active_set(gates: Seq<Gate<Qubit>>, picks: Seq<int>, q: Qubit)
    ensures
        active_set(gates, picks).contains(q) <==> acts_on(picks.map_values(|g: int| gates[g]), q),
    decreases picks.len(),
{
    let all = picks.map_values(|g: int| gates[g]);
    if picks.len() > 0 {
        let t = picks.drop_last();
        lemma_active_set(gates, t, q);
        let before = t.map_values(|g: int| gates[g]);
        assert(all =~= before.push(gates[picks.last()]));
        crate::circuit::lemma_acts_on_push(before, gates[picks.last()], q);
    } else {
        assert(!acts_on(all, q));
    }
}

/// A subcircuit lists the qubits that its gates act on.
pub proof fn lemma_subcircuit_wf(gates: Seq<Gate<Qubit>>, picks: Seq<int>, sub: Circuit)
    requires
        subcircuit_of(gates, picks, sub),
    ensures
        sub.wf(),
{
    assert forall|q: Qubit| sub.qubits@.contains(q) <==> #[trigger] acts_on(sub.gates@, q) by {
        lemma_active_set(gates, picks, q);
        assert(sub.qubits@.contains(q) <==> sub.qubits@.to_set().contains(q));
    }
}

/// `picks` act on at most three qubits each.
pub proof fn lemma_active_set_len(gates: Seq<Gate<Qubit>>, picks: Seq<int>)
    requires
        operands_distinct(gates),
        forall|k: int| 0 <= k < picks.len() ==> 0 <= #[trigger] picks[k] < gates.len(),
    ensures
        active_set(gates, picks).finite(),
        active_set(gates, picks).len() <= 3 * picks.len(),
    decreases picks.len(),
{
    if picks.len() > 0 {
        let t = picks.drop_last();
        assert forall|k: int| 0 <= k < t.len() implies 0 <= #[trigger] t[k] < gates.len() by {
            assert(t[k] == picks[k]);
        }
        lemma_active_set_len(gates, t);
        assert(picks[picks.len() - 1] == picks.last());
        let ops = gates[picks.last()].operands();
        lemma_union_len(active_set(gates, t), ops);
        lemma_inactive_bound(ops, active_set(gates, t));
    }
}

} // verus!
