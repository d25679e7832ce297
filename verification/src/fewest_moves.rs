//! Evicting by furthest next use moves the fewest qubits.

use vstd::prelude::*;

#[allow(unused_imports)]
use crate::circuit::{Circuit, Qubit};
#[allow(unused_imports)]
use crate::compile::{move_count, LoadStoreOp};
#[allow(unused_imports)]
use crate::load_store::{
    after_loads, covers_gates, evicted, eviction_order, eviction_rank, gate_steps, held_before,
    kept, lemma_enough_to_evict, lemma_increasing_distinct, lemma_not_in_flight, lemma_same_missing,
    load_ops, load_store_steps, next_use_after, not_in_flight, store_ops, subcircuit_steps,
};
#[allow(unused_imports)]
use crate::replay::{
    fit_processor, lemma_eviction_order, lemma_kept, lemma_replay_loads, law_program_runs_its_subcircuits,
    sound_holding, Held,
};

verus! {

// ---------------------------------------------------------------------------
// Schedules
// ---------------------------------------------------------------------------
/// The qubits of the subcircuit are among those on the processor, which are at most
/// `size`.
pub open spec fn on_processor(sub: Circuit, size: int, on: Set<Qubit>) -> bool {
    &&& on.finite()
    &&& on.len() <= size
    &&& forall|q: Qubit| #[trigger] sub.qubits@.contains(q) ==> on.contains(q)
}

/// A schedule of the subcircuits: which qubits are on the processor while each of them
/// runs.
pub open spec fn is_schedule(subs: Seq<Circuit>, size: int, on: Seq<Set<Qubit>>) -> bool {
    &&& on.len() == subs.len()
    &&& forall|i: int| 0 <= i < subs.len() ==> on_processor(#[trigger] subs[i], size, on[i])
}

/// The qubits on the processor in front of subcircuit `i`.
pub open spec fn on_before(on: Seq<Set<Qubit>>, i: int) -> Set<Qubit> {
    if i <= 0 {
        Set::empty()
    } else {
        on[i - 1]
    }
}

/// The loads of the first `n` steps of a schedule.
pub open spec fn scheduled_loads(on: Seq<Set<Qubit>>, n: int) -> nat
    decreases n,
{
    if n <= 0 {
        0
    } else {
        scheduled_loads(on, n - 1) + on[n - 1].difference(on_before(on, n - 1)).len()
    }
}

/// The stores of the first `n` steps of a schedule.
pub open spec fn scheduled_stores(on: Seq<Set<Qubit>>, n: int) -> nat
    decreases n,
{
    if n <= 0 {
        0
    } else {
        scheduled_stores(on, n - 1) + on_before(on, n - 1).difference(on[n - 1]).len()
    }
}

/// The loads and stores of a schedule.
pub open spec fn scheduled_moves(on: Seq<Set<Qubit>>) -> nat {
    scheduled_loads(on, on.len() as int) + scheduled_stores(on, on.len() as int)
}

/// The schedule that a load/store program follows when qubits stay on the processor.
pub open spec fn program_schedule(subs: Seq<Circuit>, size: int) -> Seq<Set<Qubit>> {
    Seq::new(subs.len(), |i: int| held_before(subs, size, true, i + 1).dom())
}

// ---------------------------------------------------------------------------
// Counting
// ---------------------------------------------------------------------------
proof fn lemma_split(s: Set<Qubit>, t: Set<Qubit>)
    requires
        s.finite(),
    ensures
        s.intersect(t).finite(),
        s.difference(t).finite(),
        s.len() == s.intersect(t).len() + s.difference(t).len(),
{
    vstd::set_lib::lemma_set_disjoint_lens(s.intersect(t), s.difference(t));
    assert(s.intersect(t).union(s.difference(t)) =~= s);
}

proof fn lemma_move_count_add(a: Seq<LoadStoreOp>, b: Seq<LoadStoreOp>)
    ensures
        move_count(a + b) == move_count(a) + move_count(b),
    decreases b.len(),
{
    if b.len() == 0 {
        assert(a + b =~= a);
    } else {
        lemma_move_count_add(a, b.drop_last());
        assert((a + b).drop_last() =~= a + b.drop_last());
    }
}

proof fn lemma_all_moves(ops: Seq<LoadStoreOp>)
    requires
        forall|i: int| 0 <= i < ops.len() ==> #[trigger] ops[i] !is Gate,
    ensures
        move_count(ops) == ops.len(),
    decreases ops.len(),
{
    if ops.len() > 0 {
        lemma_all_moves(ops.drop_last());
    }
}

proof fn lemma_no_moves(ops: Seq<LoadStoreOp>)
    requires
        forall|i: int| 0 <= i < ops.len() ==> #[trigger] ops[i] is Gate,
    ensures
        move_count(ops) == 0,
    decreases ops.len(),
{
    if ops.len() > 0 {
        lemma_no_moves(ops.drop_last());
    }
}

proof fn lemma_loads_move(held: Held, qubits: Seq<Qubit>)
    ensures
        move_count(load_ops(held, qubits)) == qubits.len(),
    decreases qubits.len(),
{
    if qubits.len() > 0 {
        lemma_loads_move(held, qubits.drop_last());
        assert(load_ops(held, qubits).drop_last() =~= load_ops(held, qubits.drop_last()));
    }
}

/// What a step of the program does to the qubits on the processor.
#[verifier::spinoff_prover]
proof fn lemma_step(subs: Seq<Circuit>, size: int, i: int, held: Held)
    requires
        fit_processor(subs, size),
        size <= usize::MAX,
        0 <= i < subs.len(),
        sound_holding(held, size),
    ensures
        ({
            let out = evicted(subs, size, i, held).to_set();
            let wanted = subs[i].qubits@.to_set();
            let rest = kept(subs, size, i, held);
            let now = after_loads(rest, not_in_flight(subs[i].qubits@, rest.dom())).dom();
            &&& out.finite()
            &&& out.subset_of(held.dom())
            &&& out.disjoint(wanted)
            &&& now == held.dom().difference(out).union(wanted)
            &&& now.finite()
            &&& now.len() <= size
            &&& out.len() > 0 ==> now.len() == size
            &&& forall|e: Qubit, q: Qubit| #[trigger]
                out.contains(e) && #[trigger] held.dom().contains(q) && !out.contains(q)
                    && !wanted.contains(q) ==> next_use_after(subs, i, q) <= next_use_after(
                    subs,
                    i,
                    e,
                )
            &&& move_count(subcircuit_steps(subs, size, true, i, held)) == out.len()
                + wanted.difference(held.dom()).len()
        }),
{
    let qs = subs[i].qubits@;
    let wanted = qs.to_set();
    let order = eviction_order(subs, i, held.dom());
    let out = evicted(subs, size, i, held);
    let rest = kept(subs, size, i, held);
    let missing = not_in_flight(qs, held.dom());
    let lacking = not_in_flight(qs, rest.dom());
    let now = after_loads(rest, lacking);
    assert(covers_gates(subs[i]));
    lemma_increasing_distinct(qs);
    lemma_not_in_flight(qs, held.dom());
    lemma_not_in_flight(qs, rest.dom());
    lemma_eviction_order(subs, i, held.dom());
    lemma_enough_to_evict(subs, i, held.dom(), order, size);
    lemma_kept(subs, size, i, held);
    let surplus = held.dom().len() - (size - missing.len());
    let n = if surplus > 0 { surplus } else { 0 };
    assert(out == order.take(n));
    assert forall|k: int| 0 <= k < out.len() implies held.dom().contains(#[trigger] out[k])
        && !qs.contains(out[k]) by {
        assert(out[k] == order[k]);
        assert(order.contains(order[k]));
    }
    assert(out.no_duplicates()) by {
        assert forall|a: int, b: int|
            0 <= a < out.len() && 0 <= b < out.len() && a != b implies out[a] != out[b] by {
            assert(out[a] == order[a] && out[b] == order[b]);
        }
    }
    out.unique_seq_to_set();
    assert forall|q: Qubit| out.to_set().contains(q) implies held.dom().contains(q)
        && !wanted.contains(q) by {
        assert(out[out.index_of(q)] == q);
    }
    assert(rest.dom() =~= held.dom().difference(out.to_set()));
    vstd::set_lib::lemma_set_disjoint_lens(rest.dom(), out.to_set());
    assert(rest.dom().union(out.to_set()) =~= held.dom());
    assert forall|q: Qubit| qs.contains(q) implies held.dom().contains(q) == rest.dom().contains(
        q,
    ) by {
        assert(wanted.contains(q));
    }
    lemma_same_missing(qs, held.dom(), rest.dom());
    assert(lacking == missing);
    assert forall|k: int| 0 <= k < lacking.len() implies !rest.dom().contains(
        #[trigger] lacking[k],
    ) by {
        assert(lacking.contains(lacking[k]));
    }
    lemma_replay_loads(rest, Seq::empty(), size, lacking);
    assert(now.dom() =~= held.dom().difference(out.to_set()).union(wanted)) by {
        assert forall|q: Qubit| now.dom().contains(q) <==> held.dom().difference(
            out.to_set(),
        ).union(wanted).contains(q) by {
            assert(lacking.contains(q) <==> (qs.contains(q) && !rest.dom().contains(q)));
        }
    }
    missing.unique_seq_to_set();
    assert(missing.to_set() =~= wanted.difference(held.dom())) by {
        assert forall|q: Qubit| missing.to_set().contains(q) <==> wanted.difference(
            held.dom(),
        ).contains(q) by {
            assert(missing.contains(q) <==> (qs.contains(q) && !held.dom().contains(q)));
        }
    }
    assert forall|e: Qubit, q: Qubit| #[trigger]
        out.to_set().contains(e) && #[trigger] held.dom().contains(q) && !out.to_set().contains(q)
            && !wanted.contains(q) implies next_use_after(subs, i, q) <= next_use_after(
        subs,
        i,
        e,
    ) by {
        let a = out.index_of(e);
        assert(order[a] == e);
        assert(!qs.contains(q));
        assert(order.contains(q));
        let b = order.index_of(q);
        if b < n {
            assert(out[b] == q);
            assert(out.contains(q));
        }
        assert(a < b);
        let ra = eviction_rank(next_use_after(subs, i, order[a]), order[a]);
        let rb = eviction_rank(next_use_after(subs, i, order[b]), order[b]);
        assert(crate::keyed::key_lt(ra, rb));
    }
    let stores = store_ops(held, out);
    let loads = load_ops(rest, lacking);
    let steps = gate_steps(now, subs[i].gates@);
    lemma_all_moves(stores);
    lemma_loads_move(rest, lacking);
    lemma_no_moves(steps);
    lemma_move_count_add(stores, loads);
    lemma_move_count_add(stores + loads, steps);
}

// ---------------------------------------------------------------------------
// Against any other schedule
// ---------------------------------------------------------------------------
/// The qubits of `s` that are used again no later than in subcircuit `t`, where the next
/// one to run is subcircuit `n`.
spec fn used_until(subs: Seq<Circuit>, n: int, t: int, s: Set<Qubit>) -> Set<Qubit> {
    s.filter(|q: Qubit| next_use_after(subs, n - 1, q) <= t)
}

/// How far the other schedule is ahead with loads, `ahead`, bounds by how much it has
/// more of the qubits that are used soon.
spec fn never_better(subs: Seq<Circuit>, n: int, own: Set<Qubit>, other: Set<Qubit>, ahead: int) -> bool {
    &&& ahead >= 0
    &&& forall|t: int|
        n <= t ==> #[trigger] used_until(subs, n, t, other).len() <= used_until(subs, n, t, own).len()
            + ahead
}

/// A qubit's next use before and after a subcircuit runs.
proof fn lemma_next_use_steps(subs: Seq<Circuit>, n: int, q: Qubit)
    requires
        0 <= n < subs.len() <= usize::MAX,
    ensures
        subs[n].qubits@.contains(q) ==> next_use_after(subs, n - 1, q) == n,
        !subs[n].qubits@.contains(q) ==> next_use_after(subs, n - 1, q) > n && next_use_after(
            subs,
            n - 1,
            q,
        ) == next_use_after(subs, n, q),
{
    lemma_next_use_later(subs, n, q);
}

proof fn lemma_next_use_later(subs: Seq<Circuit>, i: int, q: Qubit)
    requires
        i < subs.len() <= usize::MAX,
    ensures
        i < next_use_after(subs, i, q) <= usize::MAX,
    decreases subs.len() - i,
{
    if i + 1 < subs.len() {
        lemma_next_use_later(subs, i + 1, q);
    }
}

/// The bound at one `t` survives a step.
#[verifier::spinoff_prover]
proof fn lemma_stays_behind(
    subs: Seq<Circuit>,
    size: int,
    n: int,
    t: int,
    own: Set<Qubit>,
    out: Set<Qubit>,
    other: Set<Qubit>,
    later: Set<Qubit>,
    ahead: int,
)
    requires
        0 <= n < subs.len() <= usize::MAX,
        n < t,
        own.finite(),
        other.finite(),
        later.finite(),
        later.len() <= size,
        subs[n].qubits@.to_set().subset_of(later),
        out.subset_of(own),
        out.disjoint(subs[n].qubits@.to_set()),
        out.len() > 0 ==> own.difference(out).union(subs[n].qubits@.to_set()).len() == size,
        forall|e: Qubit, q: Qubit| #[trigger]
            out.contains(e) && #[trigger] own.contains(q) && !out.contains(q)
                && !subs[n].qubits@.to_set().contains(q) ==> next_use_after(subs, n, q)
                <= next_use_after(subs, n, e),
        never_better(subs, n, own, other, ahead),
    ensures
        ({
            let wanted = subs[n].qubits@.to_set();
            let now = own.difference(out).union(wanted);
            let gain = ahead + later.difference(other).len() - wanted.difference(own).len();
            &&& gain >= 0
            &&& used_until(subs, n + 1, t, later).len() <= used_until(subs, n + 1, t, now).len()
                + gain
        }),
{
    let wanted = subs[n].qubits@.to_set();
    let now = own.difference(out).union(wanted);
    let soon = |q: Qubit| next_use_after(subs, n - 1, q) <= t;
    let after = |q: Qubit| next_use_after(subs, n, q) <= t;
    assert forall|q: Qubit| (#[trigger] wanted.contains(q) ==> next_use_after(subs, n - 1, q) == n)
        && (!wanted.contains(q) ==> next_use_after(subs, n - 1, q) > n && next_use_after(
        subs,
        n - 1,
        q,
    ) == next_use_after(subs, n, q)) by {
        lemma_next_use_steps(subs, n, q);
    }
    assert(wanted.finite());
    assert(used_until(subs, n, n, other) =~= other.intersect(wanted));
    assert(used_until(subs, n, n, own) =~= own.intersect(wanted));
    assert(wanted.intersect(own) =~= own.intersect(wanted));
    assert(wanted.intersect(other) =~= other.intersect(wanted));
    lemma_split(wanted, own);
    lemma_split(wanted, other);
    let fresh = later.difference(other);
    lemma_split(later, other);
    lemma_split(fresh, wanted);
    assert(fresh.intersect(wanted) =~= wanted.difference(other));
    let extra = fresh.difference(wanted);
    // The other schedule, split by what the subcircuit wants.
    let l0 = used_until(subs, n + 1, t, later);
    let n0 = used_until(subs, n + 1, t, now);
    later.lemma_len_filter(after);
    now.lemma_len_filter(after);
    other.lemma_len_filter(soon);
    own.lemma_len_filter(soon);
    assert(l0 == later.filter(after));
    assert(n0 == now.filter(after));
    lemma_split(l0, wanted);
    lemma_split(n0, wanted);
    assert(l0.intersect(wanted) =~= n0.intersect(wanted));
    let o1 = used_until(subs, n, t, other);
    let w1 = used_until(subs, n, t, own);
    assert(o1 == other.filter(soon));
    assert(w1 == own.filter(soon));
    lemma_split(o1, wanted);
    lemma_split(w1, wanted);
    assert(o1.intersect(wanted) =~= other.intersect(wanted));
    assert(w1.intersect(wanted) =~= own.intersect(wanted));
    let lr = l0.difference(wanted);
    let nr = n0.difference(wanted);
    let their = o1.difference(wanted);
    let wr = w1.difference(wanted);
    assert(lr.subset_of(their.union(extra)));
    vstd::set_lib::lemma_len_union(their, extra);
    vstd::set_lib::lemma_len_subset(lr, their.union(extra));
    if exists|e: Qubit| #[trigger] out.contains(e) && next_use_after(subs, n, e) <= t {
        let e = choose|e: Qubit| #[trigger] out.contains(e) && next_use_after(subs, n, e) <= t;
        assert(out.len() > 0) by {
            vstd::set_lib::lemma_len_subset(out, own);
            if out.len() == 0 {
                assert(out.remove(e).len() < out.len());
            }
        }
        lemma_split(now, wanted);
        lemma_split(later, wanted);
        assert(now.intersect(wanted) =~= wanted);
        assert(later.intersect(wanted) =~= wanted);
        assert(nr =~= now.difference(wanted));
        assert(lr.subset_of(later.difference(wanted)));
        vstd::set_lib::lemma_len_subset(lr, later.difference(wanted));
    } else {
        assert(nr =~= wr) by {
            assert forall|q: Qubit| nr.contains(q) <==> wr.contains(q) by {
                if wr.contains(q) && out.contains(q) {
                    assert(next_use_after(subs, n, q) <= t);
                }
            }
        }
    }
}

/// The program follows its schedule.
#[verifier::spinoff_prover]
proof fn lemma_follows(subs: Seq<Circuit>, size: int, n: int)
    requires
        fit_processor(subs, size),
        0 <= size <= usize::MAX,
        0 <= n <= subs.len(),
    ensures
        ({
            let own = program_schedule(subs, size);
            &&& on_before(own, n) == held_before(subs, size, true, n).dom()
            &&& n > 0 ==> on_processor(subs[n - 1], size, own[n - 1])
            &&& move_count(load_store_steps(subs, size, true, n)) == scheduled_loads(own, n)
                + scheduled_stores(own, n)
        }),
    decreases n,
{
    let own = program_schedule(subs, size);
    if n > 0 {
        lemma_follows(subs, size, n - 1);
        law_program_runs_its_subcircuits(subs, size, true, n - 1);
        let held = held_before(subs, size, true, n - 1);
        lemma_step(subs, size, n - 1, held);
        let out = evicted(subs, size, n - 1, held).to_set();
        let wanted = subs[n - 1].qubits@.to_set();
        assert(own[n - 1] == held_before(subs, size, true, n).dom());
        assert(own[n - 1].difference(held.dom()) =~= wanted.difference(held.dom()));
        assert(held.dom().difference(own[n - 1]) =~= out);
        assert forall|q: Qubit| #[trigger] subs[n - 1].qubits@.contains(q) implies own[n
            - 1].contains(q) by {
            assert(wanted.contains(q));
        }
        lemma_move_count_add(
            load_store_steps(subs, size, true, n - 1),
            subcircuit_steps(subs, size, true, n - 1, held),
        );
    }
}

/// A load/store program in which qubits stay on the processor follows a schedule, and
/// moves just the qubits that the schedule does.
pub proof fn law_program_follows_its_schedule(subs: Seq<Circuit>, size: int)
    requires
        fit_processor(subs, size),
        0 <= size <= usize::MAX,
    ensures
        is_schedule(subs, size, program_schedule(subs, size)),
        move_count(load_store_steps(subs, size, true, subs.len() as int)) == scheduled_moves(
            program_schedule(subs, size),
        ),
{
    lemma_follows(subs, size, subs.len() as int);
    assert forall|i: int| 0 <= i < subs.len() implies on_processor(
        #[trigger] subs[i],
        size,
        program_schedule(subs, size)[i],
    ) by {
        lemma_follows(subs, size, i + 1);
    }
}

#[verifier::spinoff_prover]
proof fn lemma_never_better(subs: Seq<Circuit>, size: int, on: Seq<Set<Qubit>>, n: int)
    requires
        fit_processor(subs, size),
        0 <= size <= usize::MAX,
        subs.len() <= usize::MAX,
        is_schedule(subs, size, on),
        0 <= n <= subs.len(),
    ensures
        never_better(
            subs,
            n,
            on_before(program_schedule(subs, size), n),
            on_before(on, n),
            scheduled_loads(on, n) - scheduled_loads(program_schedule(subs, size), n),
        ),
    decreases n,
{
    let own = program_schedule(subs, size);
    if n > 0 {
        let i = n - 1;
        lemma_never_better(subs, size, on, i);
        lemma_follows(subs, size, i);
        lemma_follows(subs, size, n);
        law_program_runs_its_subcircuits(subs, size, true, i);
        let held = held_before(subs, size, true, i);
        lemma_step(subs, size, i, held);
        let out = evicted(subs, size, i, held).to_set();
        let wanted = subs[i].qubits@.to_set();
        assert(on_processor(subs[i], size, on[i]));
        if i > 0 {
            assert(on_processor(subs[i - 1], size, on[i - 1]));
        }
        assert(on_before(own, n) == held.dom().difference(out).union(wanted));
        assert(own[i].difference(held.dom()) =~= wanted.difference(held.dom()));
        let ahead = scheduled_loads(on, i) - scheduled_loads(own, i);
        let gain = scheduled_loads(on, n) - scheduled_loads(own, n);
        assert(gain == ahead + on[i].difference(on_before(on, i)).len() - wanted.difference(
            held.dom(),
        ).len());
        assert(wanted.subset_of(on[i])) by {
            assert forall|q: Qubit| wanted.contains(q) implies on[i].contains(q) by {
                assert(subs[i].qubits@.contains(q));
            }
        }
        lemma_stays_behind(subs, size, i, n, held.dom(), out, on_before(on, i), on[i], ahead);
        assert forall|t: int| n <= t implies #[trigger] used_until(
            subs,
            n,
            t,
            on_before(on, n),
        ).len() <= used_until(subs, n, t, on_before(own, n)).len() + gain by {
            lemma_stays_behind(subs, size, i, t, held.dom(), out, on_before(on, i), on[i], ahead);
        }
    } else {
        assert forall|t: int| n <= t implies #[trigger] used_until(
            subs,
            n,
            t,
            on_before(on, n),
        ).len() <= used_until(subs, n, t, on_before(own, n)).len() by {}
    }
}

/// What was loaded and not stored is on the processor.
proof fn lemma_loads_and_stores(on: Seq<Set<Qubit>>, n: int)
    requires
        0 <= n <= on.len(),
        forall|i: int| 0 <= i < on.len() ==> (#[trigger] on[i]).finite(),
    ensures
        scheduled_loads(on, n) == scheduled_stores(on, n) + on_before(on, n).len(),
    decreases n,
{
    if n > 0 {
        lemma_loads_and_stores(on, n - 1);
        let x = on_before(on, n - 1);
        let y = on[n - 1];
        lemma_split(x, y);
        lemma_split(y, x);
        assert(x.intersect(y) =~= y.intersect(x));
    }
}

/// Of all schedules of the subcircuits, the program's has the fewest loads, and the fewest
/// loads and stores together: evicting the qubit whose next use is furthest away, and only
/// when its slot is wanted, is the best that can be done.
pub proof fn law_furthest_next_use_moves_least(subs: Seq<Circuit>, size: int, on: Seq<Set<Qubit>>)
    requires
        fit_processor(subs, size),
        0 <= size <= usize::MAX,
        subs.len() <= usize::MAX,
        is_schedule(subs, size, on),
    ensures
        scheduled_loads(program_schedule(subs, size), subs.len() as int) <= scheduled_loads(
            on,
            subs.len() as int,
        ),
        move_count(load_store_steps(subs, size, true, subs.len() as int)) <= scheduled_moves(on),
{
    let own = program_schedule(subs, size);
    let n = subs.len() as int;
    law_program_follows_its_schedule(subs, size);
    lemma_never_better(subs, size, on, n);
    assert forall|i: int| 0 <= i < on.len() implies (#[trigger] on[i]).finite() by {
        assert(on_processor(subs[i], size, on[i]));
    }
    assert forall|i: int| 0 <= i < own.len() implies (#[trigger] own[i]).finite() by {
        assert(on_processor(subs[i], size, own[i]));
    }
    lemma_loads_and_stores(on, n);
    lemma_loads_and_stores(own, n);
    let last = usize::MAX as int;
    let soon = n - 1;
    assert forall|q: Qubit| #[trigger] next_use_after(subs, soon, q) <= last by {
        if n > 0 {
            lemma_next_use_later(subs, soon, q);
        }
    }
    assert(used_until(subs, n, last, on_before(on, n)) =~= on_before(on, n));
    assert(used_until(subs, n, last, on_before(own, n)) =~= on_before(own, n));
}

} // verus!
