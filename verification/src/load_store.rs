//! Moving qubits between memory and processor around the subcircuits of a
//! partition, evicting by furthest next use.

use vstd::prelude::*;

use crate::circuit::{shift_register_hashmap, Circuit, Gate, Qubit};
use crate::compile::{LoadStoreCircuit, LoadStoreOp};
use crate::keyed::{sorted_contains, KeyedMap};
use crate::pbc::ArchitectureQubit;
#[allow(unused_imports)]
use crate::circuit::lemma_take_contains;
#[allow(unused_imports)]
use crate::compile::{meas_count, op_meas_count};
#[allow(unused_imports)]
use crate::keyed::{increasing, key_lt, OrderedKey};

verus! {

/// The subcircuit lists its qubits in order, and every qubit that a gate of it acts on.
pub open spec fn covers_gates(sub: Circuit) -> bool {
    &&& increasing(sub.qubits@)
    &&& forall|g: int, k: int|
        0 <= g < sub.gates@.len() && 0 <= k < sub.gates@[g].operands().len()
            ==> sub.qubits@.contains(#[trigger] sub.gates@[g].operands()[k])
}

/// The first subcircuit after `i` that acts on `q`, or the largest machine
/// integer when there is none.
pub open spec fn next_use_after(subs: Seq<Circuit>, i: int, q: Qubit) -> int
    decreases subs.len() - i,
{
    if i + 1 >= subs.len() {
        usize::MAX as int
    } else if subs[i + 1].qubits@.contains(q) {
        i + 1
    } else {
        next_use_after(subs, i + 1, q)
    }
}

/// What the eviction order compares: the furthest next use first, and of equally
/// far ones the qubit with the highest index.
pub open spec fn eviction_rank(next_use: int, q: Qubit) -> (int, int) {
    (-next_use, -(q.0 as int))
}

/// `order` lists the qubits in flight that subcircuit `i` does not act on,
/// in the order in which they are evicted.
pub open spec fn is_eviction_order(
    subs: Seq<Circuit>,
    i: int,
    in_flight: Set<Qubit>,
    order: Seq<Qubit>,
) -> bool {
    &&& forall|q: Qubit| #[trigger]
        order.contains(q) <==> (in_flight.contains(q) && !subs[i].qubits@.contains(q))
    &&& forall|a: int, b: int|
        0 <= a < b < order.len() ==> key_lt(
            eviction_rank(next_use_after(subs, i, #[trigger] order[a]), order[a]),
            eviction_rank(next_use_after(subs, i, #[trigger] order[b]), order[b]),
        )
}

/// The eviction order; there is exactly one.
pub open spec fn eviction_order(subs: Seq<Circuit>, i: int, in_flight: Set<Qubit>) -> Seq<Qubit> {
    choose|order: Seq<Qubit>| is_eviction_order(subs, i, in_flight, order)
}

/// The listed qubits that are not in flight.
pub open spec fn not_in_flight(qubits: Seq<Qubit>, in_flight: Set<Qubit>) -> Seq<Qubit>
    decreases qubits.len(),
{
    if qubits.len() == 0 {
        Seq::empty()
    } else if in_flight.contains(qubits.last()) {
        not_in_flight(qubits.drop_last(), in_flight)
    } else {
        not_in_flight(qubits.drop_last(), in_flight).push(qubits.last())
    }
}

/// Some qubit is held in processor slot `s`.
pub open spec fn slot_taken(held: Map<Qubit, ArchitectureQubit>, s: int) -> bool {
    exists|q: Qubit| #[trigger]
        held.dom().contains(q) && held[q] == ArchitectureQubit::Processor(s as usize)
}

/// `s` is the lowest free processor slot.
pub open spec fn is_lowest_free(held: Map<Qubit, ArchitectureQubit>, s: int) -> bool {
    &&& 0 <= s <= usize::MAX
    &&& !slot_taken(held, s)
    &&& forall|t: int| 0 <= t < s ==> #[trigger] slot_taken(held, t)
}

pub open spec fn lowest_free(held: Map<Qubit, ArchitectureQubit>) -> int {
    choose|s: int| is_lowest_free(held, s)
}

/// Where the qubits are held once those of `qubits` are loaded, in order, each
/// into the lowest free slot.
pub open spec fn after_loads(held: Map<Qubit, ArchitectureQubit>, qubits: Seq<Qubit>) -> Map<
    Qubit,
    ArchitectureQubit,
>
    decreases qubits.len(),
{
    if qubits.len() == 0 {
        held
    } else {
        let before = after_loads(held, qubits.drop_last());
        before.insert(qubits.last(), ArchitectureQubit::Processor(lowest_free(before) as usize))
    }
}

/// The loads that lead there.
pub open spec fn load_ops(held: Map<Qubit, ArchitectureQubit>, qubits: Seq<Qubit>) -> Seq<
    LoadStoreOp,
>
    decreases qubits.len(),
{
    if qubits.len() == 0 {
        Seq::empty()
    } else {
        load_ops(held, qubits.drop_last()).push(
            LoadStoreOp::Load(
                ArchitectureQubit::Memory(qubits.last().0),
                ArchitectureQubit::Processor(
                    lowest_free(after_loads(held, qubits.drop_last())) as usize,
                ),
            ),
        )
    }
}

/// The stores that bring the qubits back to memory, in order.
pub open spec fn store_ops(held: Map<Qubit, ArchitectureQubit>, qubits: Seq<Qubit>) -> Seq<
    LoadStoreOp,
> {
    qubits.map_values(|q: Qubit| LoadStoreOp::Store(held[q], ArchitectureQubit::Memory(q.0)))
}

/// The gates, acting on the slots that hold their qubits.
pub open spec fn gate_steps(held: Map<Qubit, ArchitectureQubit>, gates: Seq<Gate<Qubit>>) -> Seq<
    LoadStoreOp,
> {
    gates.map_values(|g: Gate<Qubit>| LoadStoreOp::Gate(g.mapped(|q: Qubit| held[q])))
}

/// The qubits to store in front of subcircuit `i`: as many as the missing
/// qubits need slots that are not free, or all that it does not act on where
/// those are fewer.
pub open spec fn evicted(
    subs: Seq<Circuit>,
    max_size: int,
    i: int,
    held: Map<Qubit, ArchitectureQubit>,
) -> Seq<Qubit> {
    let missing = not_in_flight(subs[i].qubits@, held.dom());
    let surplus = held.dom().len() - (max_size - missing.len());
    let order = eviction_order(subs, i, held.dom());
    order.take(
        if surplus <= 0 {
            0
        } else if surplus < order.len() {
            surplus
        } else {
            order.len() as int
        },
    )
}

/// What stays in flight once the evicted qubits are stored.
pub open spec fn kept(
    subs: Seq<Circuit>,
    max_size: int,
    i: int,
    held: Map<Qubit, ArchitectureQubit>,
) -> Map<Qubit, ArchitectureQubit> {
    held.remove_keys(evicted(subs, max_size, i, held).to_set())
}

/// Where the qubits are held in front of subcircuit `i`.
pub open spec fn held_before(
    subs: Seq<Circuit>,
    max_size: int,
    skip_redundant: bool,
    i: int,
) -> Map<Qubit, ArchitectureQubit>
    decreases i,
{
    if i <= 0 || !skip_redundant {
        Map::empty()
    } else {
        let rest = kept(
            subs,
            max_size,
            i - 1,
            held_before(subs, max_size, skip_redundant, i - 1),
        );
        after_loads(rest, not_in_flight(subs[i - 1].qubits@, rest.dom()))
    }
}

/// No subcircuit needs more qubits loaded than there are slots.
pub open spec fn loads_fit(subs: Seq<Circuit>, max_size: int) -> bool {
    forall|i: int|
        0 <= i < subs.len() ==> not_in_flight(
            subs[i].qubits@,
            (#[trigger] held_before(subs, max_size, true, i)).dom(),
        ).len() <= max_size
}

/// No subcircuit acts on more qubits than there are slots.
pub open spec fn each_fits(subs: Seq<Circuit>, max_size: int) -> bool {
    forall|i: int| 0 <= i < subs.len() ==> (#[trigger] subs[i]).qubits@.len() <= max_size
}

/// The operations around subcircuit `i`, given where the qubits are held.
pub open spec fn subcircuit_steps(
    subs: Seq<Circuit>,
    max_size: int,
    skip_redundant: bool,
    i: int,
    held: Map<Qubit, ArchitectureQubit>,
) -> Seq<LoadStoreOp> {
    let qubits = subs[i].qubits@;
    if skip_redundant {
        let rest = kept(subs, max_size, i, held);
        let missing = not_in_flight(qubits, rest.dom());
        store_ops(held, evicted(subs, max_size, i, held)) + load_ops(rest, missing) + gate_steps(
            after_loads(rest, missing),
            subs[i].gates@,
        )
    } else {
        let all = after_loads(Map::empty(), qubits);
        load_ops(Map::empty(), qubits) + gate_steps(all, subs[i].gates@) + store_ops(all, qubits)
    }
}

/// The operations around the first `i` subcircuits.
pub open spec fn load_store_steps(
    subs: Seq<Circuit>,
    max_size: int,
    skip_redundant: bool,
    i: int,
) -> Seq<LoadStoreOp>
    decreases i,
{
    if i <= 0 {
        Seq::empty()
    } else {
        load_store_steps(subs, max_size, skip_redundant, i - 1) + subcircuit_steps(
            subs,
            max_size,
            skip_redundant,
            i - 1,
            held_before(subs, max_size, skip_redundant, i - 1),
        )
    }
}

/// The qubits of the first `i` subcircuits, counted once for each.
pub open spec fn total_qubits(subs: Seq<Circuit>, i: int) -> nat
    decreases i,
{
    if i <= 0 {
        0
    } else {
        total_qubits(subs, i - 1) + subs[i - 1].qubits@.len()
    }
}

/// The gates of the first `i` subcircuits.
pub open spec fn total_gates(subs: Seq<Circuit>, i: int) -> nat
    decreases i,
{
    if i <= 0 {
        0
    } else {
        total_gates(subs, i - 1) + subs[i - 1].gates@.len()
    }
}

proof fn lemma_meas_count_add(a: Seq<LoadStoreOp>, b: Seq<LoadStoreOp>)
    ensures
        meas_count(a + b) == meas_count(a) + meas_count(b),
    decreases b.len(),
{
    if b.len() == 0 {
        assert(a + b =~= a);
    } else {
        lemma_meas_count_add(a, b.drop_last());
        assert((a + b).drop_last() =~= a + b.drop_last());
    }
}

/// No operation needs more than six measurement outcomes, and a load or store two.
proof fn lemma_meas_count_bound(ops: Seq<LoadStoreOp>, each: nat)
    requires
        forall|i: int| 0 <= i < ops.len() ==> op_meas_count(#[trigger] ops[i]) <= each,
    ensures
        meas_count(ops) <= each * ops.len(),
    decreases ops.len(),
{
    if ops.len() > 0 {
        lemma_meas_count_bound(ops.drop_last(), each);
        assert(each * ops.len() == each * (ops.len() - 1) + each) by (nonlinear_arith)
            requires
                ops.len() > 0,
        ;
    }
}

proof fn lemma_load_ops_len(held: Map<Qubit, ArchitectureQubit>, qubits: Seq<Qubit>)
    ensures
        load_ops(held, qubits).len() == qubits.len(),
        meas_count(load_ops(held, qubits)) == 2 * qubits.len(),
    decreases qubits.len(),
{
    if qubits.len() > 0 {
        lemma_load_ops_len(held, qubits.drop_last());
        let before = load_ops(held, qubits.drop_last());
        assert(load_ops(held, qubits).drop_last() =~= before);
    }
}

/// The measurement outcomes that the operations around a subcircuit need.
proof fn lemma_steps_meas_count(
    stores: Seq<LoadStoreOp>,
    loads: Seq<LoadStoreOp>,
    gates: Seq<LoadStoreOp>,
)
    requires
        forall|i: int| 0 <= i < stores.len() ==> #[trigger] stores[i] is Store,
    ensures
        meas_count(stores + loads + gates) <= 2 * stores.len() + meas_count(loads) + 6
            * gates.len(),
        meas_count(loads + gates + stores) <= 2 * stores.len() + meas_count(loads) + 6
            * gates.len(),
{
    lemma_meas_count_add(stores + loads, gates);
    lemma_meas_count_add(stores, loads);
    lemma_meas_count_add(loads + gates, stores);
    lemma_meas_count_add(loads, gates);
    lemma_meas_count_bound(stores, 2);
    lemma_meas_count_bound(gates, 6);
}

// ---------------------------------------------------------------------------
// Next uses
// ---------------------------------------------------------------------------
/// `uses` lists, for each qubit of the first `n` subcircuits, those that act on it.
pub open spec fn uses_listed(uses: Map<Qubit, Vec<usize>>, subs: Seq<Circuit>, n: int) -> bool {
    &&& forall|q: Qubit, t: int|
        0 <= t < n && #[trigger] subs[t].qubits@.contains(q) ==> uses.dom().contains(q)
    &&& forall|q: Qubit| #[trigger]
        uses.dom().contains(q) ==> {
            &&& forall|a: int, b: int|
                0 <= a < b < uses[q]@.len() ==> #[trigger] uses[q]@[a] < #[trigger] uses[q]@[b]
            &&& forall|t: usize| #[trigger]
                uses[q]@.contains(t) <==> (t < n && subs[t as int].qubits@.contains(q))
        }
}

fn list_uses(subs: &Vec<Circuit>) -> (uses: KeyedMap<Qubit, Vec<usize>>)
    requires
        forall|i: int| 0 <= i < subs@.len() ==> covers_gates(#[trigger] subs@[i]),
    ensures
        uses_listed(uses@, subs@, subs@.len() as int),
{
    let mut uses: KeyedMap<Qubit, Vec<usize>> = KeyedMap::new();
    for i in 0..subs.len()
        invariant
            forall|i: int| 0 <= i < subs@.len() ==> covers_gates(#[trigger] subs@[i]),
            uses_listed(uses@, subs@, i as int),
    {
        let qs = &subs[i].qubits;
        let ghost before = uses@;
        assert(covers_gates(subs@[i as int]));
        for k in 0..qs.len()
            invariant
                i < subs@.len(),
                qs@ == subs@[i as int].qubits@,
                increasing(qs@),
                uses_listed(before, subs@, i as int),
                forall|q: Qubit| #[trigger]
                    uses@.dom().contains(q) <==> (before.dom().contains(q) || qs@.take(
                        k as int,
                    ).contains(q)),
                forall|q: Qubit| #[trigger]
                    uses@.dom().contains(q) ==> uses@[q]@ == (if before.dom().contains(q) {
                        before[q]@
                    } else {
                        Seq::empty()
                    }) + if qs@.take(k as int).contains(q) {
                        seq![i]
                    } else {
                        Seq::empty()
                    },
        {
            let q = qs[k];
            proof {
                lemma_take_contains(qs@, k as int);
                if qs@.take(k as int).contains(q) {
                    let j = qs@.take(k as int).index_of(q);
                    assert(key_lt(qs@[j].key(), qs@[k as int].key()));
                }
            }
            let mut list: Vec<usize> = match uses.remove(&q) {
                Some(v) => v,
                None => Vec::new(),
            };
            let ghost list0 = list@;
            list.push(i);
            assert(list@ =~= list0 + seq![i]);
            assert(before.dom().contains(q) ==> list0 =~= before[q]@);
            assert(!before.dom().contains(q) ==> list0 =~= Seq::<usize>::empty());
            uses.insert(q, list);
            assert forall|p: Qubit| #[trigger] uses@.dom().contains(p) implies uses@[p]@ == (
            if before.dom().contains(p) {
                before[p]@
            } else {
                Seq::empty()
            }) + if qs@.take(k + 1).contains(p) {
                seq![i]
            } else {
                Seq::empty()
            } by {
                if p == q {
                    assert(uses@[p]@ =~= (if before.dom().contains(p) {
                        before[p]@
                    } else {
                        Seq::empty()
                    }) + seq![i]);
                }
            }
        }
        proof {
            assert(qs@.take(qs@.len() as int) =~= qs@);
            assert forall|q: Qubit, t: int|
                0 <= t < i + 1 && #[trigger] subs@[t].qubits@.contains(
                    q,
                ) implies uses@.dom().contains(q) by {
                if t < i {
                    assert(before.dom().contains(q));
                }
            }
            assert forall|q: Qubit| #[trigger] uses@.dom().contains(q) implies {
                &&& forall|a: int, b: int|
                    0 <= a < b < uses@[q]@.len() ==> #[trigger] uses@[q]@[a] < #[trigger] uses@[q]@[b]
                &&& forall|t: usize| #[trigger]
                    uses@[q]@.contains(t) <==> (t < i + 1 && subs@[t as int].qubits@.contains(q))
            } by {
                let prev = if before.dom().contains(q) {
                    before[q]@
                } else {
                    Seq::empty()
                };
                let now = uses@[q]@;
                assert forall|t: usize| #[trigger] prev.contains(t) <==> (t < i
                    && subs@[t as int].qubits@.contains(q)) by {
                    if t < i && subs@[t as int].qubits@.contains(q) {
                        assert(before.dom().contains(q));
                    }
                }
                assert forall|a: int, b: int| 0 <= a < b < now.len() implies #[trigger] now[a]
                    < #[trigger] now[b] by {
                    assert(prev.contains(prev[a]));
                    if b < prev.len() {
                        assert(prev[a] < prev[b]);
                    }
                }
                assert forall|t: usize| #[trigger] now.contains(t) <==> (t < i + 1
                    && subs@[t as int].qubits@.contains(q)) by {
                    if now.contains(t) {
                        let j = now.index_of(t);
                        if j < prev.len() {
                            assert(prev[j] == t);
                            assert(prev.contains(t));
                        }
                    }
                    if prev.contains(t) {
                        assert(now[prev.index_of(t)] == t);
                    }
                    if qs@.contains(q) {
                        assert(now[prev.len() as int] == i);
                    }
                }
            }
        }
    }
    uses
}

proof fn lemma_next_use(subs: Seq<Circuit>, i: int, q: Qubit, u: int)
    requires
        -1 <= i < u,
        u < subs.len() ==> subs[u].qubits@.contains(q),
        forall|t: int| i < t < u && t < subs.len() ==> !(#[trigger] subs[t].qubits@.contains(q)),
    ensures
        u < subs.len() ==> next_use_after(subs, i, q) == u,
        u >= subs.len() ==> next_use_after(subs, i, q) == usize::MAX,
    decreases u - i,
{
    if i + 1 >= subs.len() {
    } else if subs[i + 1].qubits@.contains(q) {
    } else {
        lemma_next_use(subs, i + 1, q, u);
    }
}

/// The first subcircuit after `i` that acts on `q`, looked up in the listed uses.
fn look_up_next_use(
    uses: &KeyedMap<Qubit, Vec<usize>>,
    i: usize,
    q: Qubit,
    Ghost(subs): Ghost<Seq<Circuit>>,
) -> (r: usize)
    requires
        uses_listed(uses@, subs, subs.len() as int),
        subs.len() <= usize::MAX,
    ensures
        r == next_use_after(subs, i as int, q),
{
    match uses.get(&q) {
        None => {
            proof {
                let u = if i < subs.len() {
                    subs.len() as int
                } else {
                    i + 1
                };
                lemma_next_use(subs, i as int, q, u);
            }
            usize::MAX
        },
        Some(list) => {
            let mut lo: usize = 0;
            let mut hi: usize = list.len();
            while lo < hi
                invariant
                    lo <= hi <= list@.len(),
                    forall|a: int, b: int|
                        0 <= a < b < list@.len() ==> #[trigger] list@[a] < #[trigger] list@[b],
                    forall|a: int| 0 <= a < lo ==> #[trigger] list@[a] <= i,
                    forall|a: int| hi <= a < list@.len() ==> #[trigger] list@[a] > i,
                decreases hi - lo,
            {
                let mid: usize = lo + (hi - lo) / 2;
                if list[mid] <= i {
                    lo = mid + 1;
                } else {
                    hi = mid;
                }
            }
            proof {
                let u = if lo < list@.len() {
                    list@[lo as int] as int
                } else if i < subs.len() {
                    subs.len() as int
                } else {
                    i + 1
                };
                assert(lo < list@.len() ==> list@.contains(list@[lo as int]));
                assert forall|t: int| i < t < u && t < subs.len() implies !(
                #[trigger] subs[t].qubits@.contains(q)) by {
                    if subs[t].qubits@.contains(q) {
                        let tu = t as usize;
                        assert(list@.contains(tu));
                        let a = list@.index_of(tu);
                        assert(list@[a] == tu);
                        if lo < list@.len() && lo < a {
                            assert(list@[lo as int] < list@[a]);
                        }
                    }
                }
                lemma_next_use(subs, i as int, q, u);
            }
            if lo < list.len() {
                list[lo]
            } else {
                usize::MAX
            }
        },
    }
}

proof fn lemma_eviction_order_unique(
    subs: Seq<Circuit>,
    i: int,
    s: Set<Qubit>,
    x: Seq<Qubit>,
    y: Seq<Qubit>,
)
    requires
        is_eviction_order(subs, i, s, x),
        is_eviction_order(subs, i, s, y),
    ensures
        x == y,
{
    let rank = |q: Qubit| eviction_rank(next_use_after(subs, i, q), q);
    lemma_ranked_unique(x, y, rank);
}

/// Two sequences with the same elements, both in strictly increasing order of
/// rank, are the same.
proof fn lemma_ranked_unique(x: Seq<Qubit>, y: Seq<Qubit>, rank: spec_fn(Qubit) -> (int, int))
    requires
        forall|q: Qubit| #[trigger] x.contains(q) <==> y.contains(q),
        forall|a: int, b: int|
            0 <= a < b < x.len() ==> key_lt(rank(#[trigger] x[a]), rank(#[trigger] x[b])),
        forall|a: int, b: int|
            0 <= a < b < y.len() ==> key_lt(rank(#[trigger] y[a]), rank(#[trigger] y[b])),
    ensures
        x == y,
    decreases x.len(),
{
    if x.len() == 0 {
        if y.len() > 0 {
            assert(y.contains(y[0]));
            assert(x.contains(y[0]));
        }
        assert(x =~= y);
    } else {
        assert(x.contains(x.last()));
        assert(y.contains(x.last()));
        let j = y.index_of(x.last());
        assert(y.contains(y.last()));
        assert(x.contains(y.last()));
        let k = x.index_of(y.last());
        if j < y.len() - 1 {
            assert(key_lt(rank(y[j]), rank(y[y.len() - 1])));
            if k < x.len() - 1 {
                assert(key_lt(rank(x[k]), rank(x[x.len() - 1])));
            }
        }
        assert(x.last() == y.last());
        let tx = x.drop_last();
        let ty = y.drop_last();
        assert forall|q: Qubit| #[trigger] tx.contains(q) <==> ty.contains(q) by {
            if tx.contains(q) {
                let a = tx.index_of(q);
                assert(x[a] == q);
                assert(x.contains(q));
                assert(key_lt(rank(x[a]), rank(x[x.len() - 1])));
                let b = y.index_of(q);
                assert(y[b] == q);
                assert(b < y.len() - 1);
                assert(ty[b] == q);
            }
            if ty.contains(q) {
                let a = ty.index_of(q);
                assert(y[a] == q);
                assert(y.contains(q));
                assert(key_lt(rank(y[a]), rank(y[y.len() - 1])));
                assert(x.contains(q) <==> y.contains(q));
                let b = x.index_of(q);
                assert(x[b] == q);
                assert(b < x.len() - 1);
                assert(tx[b] == q);
            }
        }
        lemma_ranked_unique(tx, ty, rank);
        assert(x =~= tx.push(x.last()));
        assert(y =~= ty.push(y.last()));
    }
}

/// The qubits in flight that subcircuit `i` does not act on, in the order in
/// which they are evicted: the one whose next use is furthest away comes first.
pub fn rank_evictable_qubits(
    in_flight: &KeyedMap<Qubit, ArchitectureQubit>,
    uses: &KeyedMap<Qubit, Vec<usize>>,
    i: usize,
    subs: &Vec<Circuit>,
) -> (r: Vec<Qubit>)
    requires
        i < subs@.len(),
        increasing(subs@[i as int].qubits@),
        uses_listed(uses@, subs@, subs@.len() as int),
    ensures
        is_eviction_order(subs@, i as int, in_flight@.dom(), r@),
        r@ == eviction_order(subs@, i as int, in_flight@.dom()),
{
    let keys = in_flight.keys();
    let mut ranked: Vec<Qubit> = Vec::new();
    let mut next: Vec<usize> = Vec::new();
    for k in 0..keys.len()
        invariant
            i < subs@.len(),
            increasing(subs@[i as int].qubits@),
            increasing(keys@),
            uses_listed(uses@, subs@, subs@.len() as int),
            next@.len() == ranked@.len(),
            forall|a: int|
                0 <= a < ranked@.len() ==> next@[a] == next_use_after(
                    subs@,
                    i as int,
                    #[trigger] ranked@[a],
                ),
            forall|q: Qubit| #[trigger]
                ranked@.contains(q) <==> (keys@.take(k as int).contains(q)
                    && !subs@[i as int].qubits@.contains(q)),
            forall|a: int, b: int|
                0 <= a < b < ranked@.len() ==> key_lt(
                    eviction_rank(
                        next_use_after(subs@, i as int, #[trigger] ranked@[a]),
                        ranked@[a],
                    ),
                    eviction_rank(
                        next_use_after(subs@, i as int, #[trigger] ranked@[b]),
                        ranked@[b],
                    ),
                ),
    {
        let q = keys[k];
        proof {
            lemma_take_contains(keys@, k as int);
        }
        if !sorted_contains(&subs[i].qubits, &q) {
            assert(subs.len() == subs@.len());
            let u: usize = look_up_next_use(uses, i, q, Ghost(subs@));
            let ghost rank = |x: Qubit| eviction_rank(next_use_after(subs@, i as int, x), x);
            let mut p: usize = ranked.len();
            while p > 0 && (next[p - 1] < u || (next[p - 1] == u && ranked[p - 1].0 < q.0))
                invariant
                    p <= ranked@.len(),
                    next@.len() == ranked@.len(),
                    u == next_use_after(subs@, i as int, q),
                    forall|a: int|
                        0 <= a < ranked@.len() ==> next@[a] == next_use_after(
                            subs@,
                            i as int,
                            #[trigger] ranked@[a],
                        ),
                    rank == (|x: Qubit| eviction_rank(next_use_after(subs@, i as int, x), x)),
                    forall|a: int|
                        p <= a < ranked@.len() ==> key_lt(rank(q), rank(#[trigger] ranked@[a])),
                decreases p,
            {
                assert(ranked@[p - 1] == ranked@[p - 1]);
                p = p - 1;
            }
            let ghost before = ranked@;
            proof {
                assert forall|a: int| 0 <= a < before.len() implies #[trigger] before[a] != q by {
                    assert(before.contains(before[a]));
                    if before[a] == q {
                        let j = keys@.take(k as int).index_of(q);
                        assert(key_lt(keys@[j].key(), keys@[k as int].key()));
                    }
                }
                if p > 0 {
                    assert(before[p - 1] != q);
                    assert(key_lt(rank(before[p - 1]), rank(q)));
                }
            }
            ranked.insert(p, q);
            next.insert(p, u);
            proof {
                let after = ranked@;
                assert forall|a: int, b: int| 0 <= a < b < after.len() implies key_lt(
                    rank(#[trigger] after[a]),
                    rank(#[trigger] after[b]),
                ) by {
                    if a != p {
                        assert(after[a] == before[if a < p { a } else { a - 1 }]);
                    }
                    if b != p {
                        assert(after[b] == before[if b < p { b } else { b - 1 }]);
                    }
                    if b == p && a < p - 1 {
                        assert(key_lt(rank(before[a]), rank(before[p - 1])));
                    }
                }
                assert forall|a: int, b: int| 0 <= a < b < after.len() implies key_lt(
                    eviction_rank(
                        next_use_after(subs@, i as int, #[trigger] after[a]),
                        after[a],
                    ),
                    eviction_rank(
                        next_use_after(subs@, i as int, #[trigger] after[b]),
                        after[b],
                    ),
                ) by {
                    assert(key_lt(rank(after[a]), rank(after[b])));
                }
                assert forall|x: Qubit| #[trigger] after.contains(x) <==> (before.contains(x) || x
                    == q) by {
                    if before.contains(x) {
                        let a = before.index_of(x);
                        assert(after[if a < p { a } else { a + 1 }] == x);
                    }
                    assert(after[p as int] == q);
                    if after.contains(x) && x != q {
                        let a = after.index_of(x);
                        assert(before[if a < p { a } else { a - 1 }] == x);
                    }
                }
                assert forall|a: int| 0 <= a < after.len() implies next@[a] == next_use_after(
                    subs@,
                    i as int,
                    #[trigger] after[a],
                ) by {
                    if a != p {
                        assert(after[a] == before[if a < p { a } else { a - 1 }]);
                    }
                }
            }
        }
    }
    proof {
        assert(keys@.take(keys@.len() as int) =~= keys@);
        assert(is_eviction_order(subs@, i as int, in_flight@.dom(), ranked@));
        lemma_eviction_order_unique(
            subs@,
            i as int,
            in_flight@.dom(),
            ranked@,
            eviction_order(subs@, i as int, in_flight@.dom()),
        );
    }
    ranked
}

// ---------------------------------------------------------------------------
// Loads, stores and gates
// ---------------------------------------------------------------------------
/// Every held qubit sits in a processor slot, no two in the same one.
pub open spec fn slots_distinct(held: Map<Qubit, ArchitectureQubit>) -> bool {
    &&& forall|q: Qubit| #[trigger] held.dom().contains(q) ==> held[q] is Processor
    &&& forall|p: Qubit, q: Qubit| #[trigger]
        held.dom().contains(p) && #[trigger] held.dom().contains(q) && held[p] == held[q] ==> p == q
}

/// No more than `max_size` qubits are held, all of them in slots below `max_size`.
pub open spec fn held_within(held: Map<Qubit, ArchitectureQubit>, max_size: int) -> bool {
    &&& held.dom().finite()
    &&& held.dom().len() <= max_size
    &&& forall|q: Qubit| #[trigger]
        held.dom().contains(q) ==> (held[q] matches ArchitectureQubit::Processor(s) && s < max_size)
}

/// The lowest free slot is no higher than the number of held qubits.
pub proof fn lemma_lowest_free_bound(held: Map<Qubit, ArchitectureQubit>, s: int)
    requires
        slots_distinct(held),
        held.dom().finite(),
        is_lowest_free(held, s),
    ensures
        s <= held.dom().len(),
{
    let holder = |t: int|
        choose|q: Qubit| #[trigger]
            held.dom().contains(q) && held[q] == ArchitectureQubit::Processor(t as usize);
    let qs = Seq::new(s as nat, |t: int| holder(t));
    assert forall|t: int| 0 <= t < s implies held.dom().contains(#[trigger] qs[t]) && held[qs[t]]
        == ArchitectureQubit::Processor(t as usize) by {
        assert(slot_taken(held, t));
    }
    assert forall|x: int, y: int| 0 <= x < qs.len() && 0 <= y < qs.len() && x != y implies qs[x]
        != qs[y] by {
        assert(held[qs[x]] == ArchitectureQubit::Processor(x as usize));
        assert(held[qs[y]] == ArchitectureQubit::Processor(y as usize));
        assert(x as usize != y as usize);
    }
    qs.unique_seq_to_set();
    assert(qs.to_set().subset_of(held.dom())) by {
        assert forall|q: Qubit| qs.to_set().contains(q) implies held.dom().contains(q) by {
            let t = qs.index_of(q);
            assert(qs[t] == q);
        }
    }
    vstd::set_lib::lemma_len_subset(qs.to_set(), held.dom());
}

/// `slots` tells which processor slots are taken.
spec fn slots_agree(held: Map<Qubit, ArchitectureQubit>, slots: Seq<bool>) -> bool {
    forall|s: int|
        0 <= s <= usize::MAX ==> (#[trigger] slot_taken(held, s) <==> (s < slots.len() && slots[s]))
}

pub proof fn lemma_lowest_free(held: Map<Qubit, ArchitectureQubit>, s: int)
    requires
        is_lowest_free(held, s),
    ensures
        lowest_free(held) == s,
{
    let t = lowest_free(held);
    assert(is_lowest_free(held, t));
    if t < s {
        assert(slot_taken(held, t));
    } else if s < t {
        assert(slot_taken(held, s));
    }
}

pub proof fn lemma_take_slot(held: Map<Qubit, ArchitectureQubit>, q: Qubit, s: usize)
    requires
        slots_distinct(held),
        !slot_taken(held, s as int),
        !held.dom().contains(q),
    ensures
        slots_distinct(held.insert(q, ArchitectureQubit::Processor(s))),
        forall|t: int|
            0 <= t <= usize::MAX ==> (#[trigger] slot_taken(
                held.insert(q, ArchitectureQubit::Processor(s)),
                t,
            ) <==> (slot_taken(held, t) || t == s)),
{
    let now = held.insert(q, ArchitectureQubit::Processor(s));
    assert forall|t: int| 0 <= t <= usize::MAX implies (#[trigger] slot_taken(now, t) <==> (
    slot_taken(held, t) || t == s)) by {
        if slot_taken(held, t) {
            let p = choose|p: Qubit| #[trigger]
                held.dom().contains(p) && held[p] == ArchitectureQubit::Processor(t as usize);
            assert(now.dom().contains(p) && now[p] == held[p]);
        }
        if t == s {
            assert(now.dom().contains(q));
        }
        if slot_taken(now, t) && t != s {
            let p = choose|p: Qubit| #[trigger]
                now.dom().contains(p) && now[p] == ArchitectureQubit::Processor(t as usize);
            assert(p != q);
            assert(held.dom().contains(p));
        }
    }
    assert forall|a: Qubit, b: Qubit| #[trigger]
        now.dom().contains(a) && #[trigger] now.dom().contains(b) && now[a] == now[b] implies a
        == b by {
        if a != b {
            if a == q {
                assert(held.dom().contains(b));
            } else if b == q {
                assert(held.dom().contains(a));
            } else {
                assert(held.dom().contains(a) && held.dom().contains(b));
            }
        }
    }
}

pub proof fn lemma_free_slot(held: Map<Qubit, ArchitectureQubit>, q: Qubit, s: usize)
    requires
        slots_distinct(held),
        held.dom().contains(q),
        held[q] == ArchitectureQubit::Processor(s),
    ensures
        slots_distinct(held.remove(q)),
        forall|t: int|
            0 <= t <= usize::MAX ==> (#[trigger] slot_taken(held.remove(q), t) <==> (slot_taken(
                held,
                t,
            ) && t != s)),
{
    let now = held.remove(q);
    assert forall|t: int| 0 <= t <= usize::MAX implies (#[trigger] slot_taken(now, t) <==> (
    slot_taken(held, t) && t != s)) by {
        if slot_taken(held, t) && t != s {
            let p = choose|p: Qubit| #[trigger]
                held.dom().contains(p) && held[p] == ArchitectureQubit::Processor(t as usize);
            assert(now.dom().contains(p));
        }
        if slot_taken(now, t) {
            let p = choose|p: Qubit| #[trigger]
                now.dom().contains(p) && now[p] == ArchitectureQubit::Processor(t as usize);
            assert(held.dom().contains(p));
            if t == s {
                assert(held[p] == held[q]);
            }
        }
    }
    assert forall|a: Qubit, b: Qubit| #[trigger]
        now.dom().contains(a) && #[trigger] now.dom().contains(b) && now[a] == now[b] implies a
        == b by {
        assert(held.dom().contains(a) && held.dom().contains(b));
    }
}

/// Load `qubits`, in order, each into the lowest free slot.
fn load_all(
    in_flight: &mut KeyedMap<Qubit, ArchitectureQubit>,
    slots: &mut Vec<bool>,
    qubits: &Vec<Qubit>,
    ops: &mut Vec<LoadStoreOp>,
)
    requires
        slots_distinct(old(in_flight)@),
        slots_agree(old(in_flight)@, old(slots)@),
        qubits@.no_duplicates(),
        forall|k: int|
            0 <= k < qubits@.len() ==> !old(in_flight)@.dom().contains(#[trigger] qubits@[k]),
    ensures
        final(in_flight)@ == after_loads(old(in_flight)@, qubits@),
        final(ops)@ == old(ops)@ + load_ops(old(in_flight)@, qubits@),
        slots_distinct(final(in_flight)@),
        slots_agree(final(in_flight)@, final(slots)@),
        forall|q: Qubit| #[trigger]
            final(in_flight)@.dom().contains(q) <==> (old(in_flight)@.dom().contains(q)
                || qubits@.contains(q)),
        old(in_flight)@.dom().finite() ==> final(in_flight)@.dom().finite()
            && final(in_flight)@.dom().len() == old(in_flight)@.dom().len() + qubits@.len(),
        forall|max: int|
            held_within(old(in_flight)@, max) && old(in_flight)@.dom().len() + qubits@.len() <= max
                ==> #[trigger] held_within(final(in_flight)@, max),
{
    let ghost held = in_flight@;
    let ghost ops0 = ops@;
    let mut s: usize = 0;
    proof {
        assert(qubits@.take(0) =~= Seq::empty());
        assert(ops0 + load_ops(held, qubits@.take(0)) =~= ops0);
    }
    for k in 0..qubits.len()
        invariant
            in_flight@ == after_loads(held, qubits@.take(k as int)),
            ops@ == ops0 + load_ops(held, qubits@.take(k as int)),
            slots_distinct(in_flight@),
            slots_agree(in_flight@, slots@),
            qubits@.no_duplicates(),
            forall|j: int| 0 <= j < qubits@.len() ==> !held.dom().contains(#[trigger] qubits@[j]),
            forall|q: Qubit| #[trigger]
                in_flight@.dom().contains(q) <==> (held.dom().contains(q) || qubits@.take(
                    k as int,
                ).contains(q)),
            s <= slots@.len(),
            forall|t: int| 0 <= t < s ==> #[trigger] slots@[t],
            held.dom().finite() ==> in_flight@.dom().finite() && in_flight@.dom().len()
                == held.dom().len() + k,
            forall|max: int|
                held_within(held, max) && held.dom().len() + qubits@.len() <= max
                    ==> #[trigger] held_within(in_flight@, max),
    {
        let q = qubits[k];
        while s < slots.len() && slots[s]
            invariant
                s <= slots@.len(),
                forall|t: int| 0 <= t < s ==> #[trigger] slots@[t],
            decreases slots@.len() - s,
        {
            s = s + 1;
        }
        let ghost now = in_flight@;
        proof {
            assert(slots.len() == slots@.len());
            assert forall|t: int| 0 <= t < s implies #[trigger] slot_taken(now, t) by {
                assert(slots@[t]);
            }
            assert(is_lowest_free(now, s as int));
            lemma_lowest_free(now, s as int);
            lemma_take_contains(qubits@, k as int);
            assert(!qubits@.take(k as int).contains(q)) by {
                if qubits@.take(k as int).contains(q) {
                    let j = qubits@.take(k as int).index_of(q);
                    assert(qubits@[j] == qubits@[k as int]);
                }
            }
            lemma_take_slot(now, q, s);
            assert(qubits@.take(k + 1).drop_last() =~= qubits@.take(k as int));
        }
        if s == slots.len() {
            slots.push(true);
        } else {
            slots[s] = true;
        }
        let proc = ArchitectureQubit::Processor(s);
        ops.push(LoadStoreOp::Load(ArchitectureQubit::Memory(q.0), proc));
        in_flight.insert(q, proc);
        proof {
            assert forall|t: int| 0 <= t <= usize::MAX implies (#[trigger] slot_taken(
                in_flight@,
                t,
            ) <==> (t < slots@.len() && slots@[t])) by {
                assert(slot_taken(in_flight@, t) <==> (slot_taken(now, t) || t == s));
            }
            assert(ops@ =~= ops0 + load_ops(held, qubits@.take(k + 1)));
            assert(!now.dom().contains(q));
            assert forall|max: int|
                held_within(held, max) && held.dom().len() + qubits@.len()
                    <= max implies #[trigger] held_within(in_flight@, max) by {
                assert(held_within(now, max));
                lemma_lowest_free_bound(now, s as int);
                assert forall|p: Qubit| #[trigger] in_flight@.dom().contains(p) implies (
                in_flight@[p] matches ArchitectureQubit::Processor(t) && t < max) by {
                    if p != q {
                        assert(now.dom().contains(p));
                    }
                }
            }
        }
    }
    assert(qubits@.take(qubits@.len() as int) =~= qubits@);
}

/// Store `qubits`, in order, and free their slots.
fn store_all(
    in_flight: &mut KeyedMap<Qubit, ArchitectureQubit>,
    slots: &mut Vec<bool>,
    qubits: &Vec<Qubit>,
    count: usize,
    ops: &mut Vec<LoadStoreOp>,
)
    requires
        count <= qubits@.len(),
        slots_distinct(old(in_flight)@),
        slots_agree(old(in_flight)@, old(slots)@),
        qubits@.no_duplicates(),
        forall|k: int|
            0 <= k < count ==> old(in_flight)@.dom().contains(#[trigger] qubits@[k]),
    ensures
        final(in_flight)@ == old(in_flight)@.remove_keys(qubits@.take(count as int).to_set()),
        final(ops)@ == old(ops)@ + store_ops(old(in_flight)@, qubits@.take(count as int)),
        slots_distinct(final(in_flight)@),
        slots_agree(final(in_flight)@, final(slots)@),
        old(in_flight)@.dom().finite() ==> final(in_flight)@.dom().finite()
            && final(in_flight)@.dom().len() == old(in_flight)@.dom().len() - count,
{
    let ghost held = in_flight@;
    let ghost ops0 = ops@;
    proof {
        assert(held.remove_keys(qubits@.take(0).to_set()) =~= held);
        assert(ops0 + store_ops(held, qubits@.take(0)) =~= ops0);
    }
    for k in 0..count
        invariant
            count <= qubits@.len(),
            in_flight@ == held.remove_keys(qubits@.take(k as int).to_set()),
            ops@ == ops0 + store_ops(held, qubits@.take(k as int)),
            slots_distinct(in_flight@),
            slots_agree(in_flight@, slots@),
            qubits@.no_duplicates(),
            forall|j: int| 0 <= j < count ==> held.dom().contains(#[trigger] qubits@[j]),
            held.dom().finite() ==> in_flight@.dom().finite() && in_flight@.dom().len()
                == held.dom().len() - k,
    {
        let q = qubits[k];
        let ghost now = in_flight@;
        proof {
            assert(!qubits@.take(k as int).contains(q)) by {
                if qubits@.take(k as int).contains(q) {
                    let j = qubits@.take(k as int).index_of(q);
                    assert(qubits@[j] == qubits@[k as int]);
                }
            }
            assert(held.dom().contains(qubits@[k as int]));
            assert(now.dom().contains(q));
            lemma_take_contains(qubits@, k as int);
        }
        let proc = in_flight.remove(&q).unwrap();
        ops.push(LoadStoreOp::Store(proc, ArchitectureQubit::Memory(q.0)));
        if let ArchitectureQubit::Processor(s) = proc {
            proof {
                assert(now.dom().contains(q) && now[q] == ArchitectureQubit::Processor(s));
                assert(slot_taken(now, s as int));
                lemma_free_slot(now, q, s);
            }
            slots[s] = false;
            proof {
                assert forall|t: int| 0 <= t <= usize::MAX implies (#[trigger] slot_taken(
                    in_flight@,
                    t,
                ) <==> (t < slots@.len() && slots@[t])) by {
                    assert(slot_taken(in_flight@, t) <==> (slot_taken(now, t) && t != s));
                }
            }
        }
        proof {
            assert(in_flight@ =~= held.remove_keys(qubits@.take(k + 1).to_set()));
            assert(ops@ =~= ops0 + store_ops(held, qubits@.take(k + 1)));
        }
    }
}

/// Let the gates act on the slots that hold their qubits.
fn push_gates(in_flight: &KeyedMap<Qubit, ArchitectureQubit>, sub: &Circuit, ops: &mut Vec<LoadStoreOp>)
    requires
        covers_gates(*sub),
        forall|q: Qubit| #[trigger] sub.qubits@.contains(q) ==> in_flight@.dom().contains(q),
    ensures
        final(ops)@ == old(ops)@ + gate_steps(in_flight@, sub.gates@),
{
    let ghost ops0 = ops@;
    assert(ops0 + gate_steps(in_flight@, sub.gates@.take(0)) =~= ops0);
    for g in 0..sub.gates.len()
        invariant
            covers_gates(*sub),
            forall|q: Qubit| #[trigger] sub.qubits@.contains(q) ==> in_flight@.dom().contains(q),
            ops@ == ops0 + gate_steps(in_flight@, sub.gates@.take(g as int)),
    {
        proof {
            assert forall|k: int|
                0 <= k < sub.gates@[g as int].operands().len() implies in_flight@.dom().contains(
                #[trigger] sub.gates@[g as int].operands()[k],
            ) by {
                assert(sub.qubits@.contains(sub.gates@[g as int].operands()[k]));
            }
        }
        ops.push(LoadStoreOp::Gate(shift_register_hashmap(&sub.gates[g], in_flight)));
        assert(ops@ =~= ops0 + gate_steps(in_flight@, sub.gates@.take(g + 1)));
    }
    assert(sub.gates@.take(sub.gates@.len() as int) =~= sub.gates@);
}

pub proof fn lemma_not_in_flight(qubits: Seq<Qubit>, in_flight: Set<Qubit>)
    requires
        qubits.no_duplicates(),
    ensures
        not_in_flight(qubits, in_flight).no_duplicates(),
        not_in_flight(qubits, in_flight).len() <= qubits.len(),
        forall|q: Qubit| #[trigger]
            not_in_flight(qubits, in_flight).contains(q) <==> (qubits.contains(q)
                && !in_flight.contains(q)),
    decreases qubits.len(),
{
    if qubits.len() > 0 {
        let t = qubits.drop_last();
        let l = qubits.last();
        lemma_not_in_flight(t, in_flight);
        let before = not_in_flight(t, in_flight);
        let now = not_in_flight(qubits, in_flight);
        assert(!t.contains(l)) by {
            if t.contains(l) {
                assert(qubits[t.index_of(l)] == qubits[qubits.len() - 1]);
            }
        }
        assert forall|q: Qubit| #[trigger] qubits.contains(q) <==> (t.contains(q) || q == l) by {
            if t.contains(q) {
                assert(qubits[t.index_of(q)] == q);
            }
            assert(qubits[qubits.len() - 1] == l);
            if qubits.contains(q) && q != l {
                assert(t[qubits.index_of(q)] == q);
            }
        }
        if !in_flight.contains(l) {
            assert(now == before.push(l));
            assert forall|q: Qubit| #[trigger] now.contains(q) <==> (before.contains(q) || q
                == l) by {
                if before.contains(q) {
                    assert(now[before.index_of(q)] == q);
                }
                assert(now[before.len() as int] == l);
                if now.contains(q) && q != l {
                    assert(before[now.index_of(q)] == q);
                }
            }
            assert(!before.contains(l));
            assert forall|i: int, j: int|
                0 <= i < now.len() && 0 <= j < now.len() && i != j implies now[i] != now[j] by {
                if i < before.len() {
                    assert(before.contains(before[i]));
                }
                if j < before.len() {
                    assert(before.contains(before[j]));
                }
            }
        }
    } else {
        assert(!exists|q: Qubit| not_in_flight(qubits, in_flight).contains(q));
    }
}

/// Which listed qubits are missing depends on those alone.
pub proof fn lemma_same_missing(qubits: Seq<Qubit>, a: Set<Qubit>, b: Set<Qubit>)
    requires
        forall|q: Qubit| qubits.contains(q) ==> a.contains(q) == b.contains(q),
    ensures
        not_in_flight(qubits, a) == not_in_flight(qubits, b),
    decreases qubits.len(),
{
    if qubits.len() > 0 {
        let t = qubits.drop_last();
        assert forall|q: Qubit| t.contains(q) implies a.contains(q) == b.contains(q) by {
            assert(qubits[t.index_of(q)] == q);
            assert(qubits.contains(q));
        }
        assert(qubits[qubits.len() - 1] == qubits.last());
        assert(qubits.contains(qubits.last()));
        lemma_same_missing(t, a, b);
    }
}

pub proof fn lemma_increasing_distinct(v: Seq<Qubit>)
    requires
        increasing(v),
    ensures
        v.no_duplicates(),
{
    assert forall|i: int, j: int| 0 <= i < v.len() && 0 <= j < v.len() && i != j implies v[i]
        != v[j] by {
        if i < j {
            assert(key_lt(v[i].key(), v[j].key()));
        } else {
            assert(key_lt(v[j].key(), v[i].key()));
        }
    }
}

/// The qubits of `qubits` that are not in flight.
fn missing_qubits(qubits: &Vec<Qubit>, in_flight: &KeyedMap<Qubit, ArchitectureQubit>) -> (r: Vec<
    Qubit,
>)
    ensures
        r@ == not_in_flight(qubits@, in_flight@.dom()),
{
    let mut r: Vec<Qubit> = Vec::new();
    assert(qubits@.take(0) =~= Seq::empty());
    for i in 0..qubits.len()
        invariant
            r@ == not_in_flight(qubits@.take(i as int), in_flight@.dom()),
    {
        assert(qubits@.take(i + 1).drop_last() =~= qubits@.take(i as int));
        if !in_flight.contains_key(&qubits[i]) {
            r.push(qubits[i]);
        }
    }
    assert(qubits@.take(qubits@.len() as int) =~= qubits@);
    r
}

/// Where every subcircuit fits the processor, so do the qubits that it lacks.
pub proof fn law_fitting_loads_fit(subs: Seq<Circuit>, max_size: int)
    requires
        each_fits(subs, max_size),
        forall|i: int| 0 <= i < subs.len() ==> increasing((#[trigger] subs[i]).qubits@),
    ensures
        loads_fit(subs, max_size),
{
    assert forall|i: int| 0 <= i < subs.len() implies not_in_flight(
        subs[i].qubits@,
        (#[trigger] held_before(subs, max_size, true, i)).dom(),
    ).len() <= max_size by {
        let qs = subs[i].qubits@;
        assert(qs.len() <= max_size);
        lemma_increasing_distinct(qs);
        lemma_not_in_flight(qs, held_before(subs, max_size, true, i).dom());
    }
}

proof fn lemma_order_distinct(
    subs: Seq<Circuit>,
    i: int,
    in_flight: Set<Qubit>,
    order: Seq<Qubit>,
)
    requires
        is_eviction_order(subs, i, in_flight, order),
    ensures
        order.no_duplicates(),
{
    assert forall|a: int, b: int|
        0 <= a < order.len() && 0 <= b < order.len() && a != b implies order[a] != order[b] by {
        let ra = eviction_rank(next_use_after(subs, i, order[a]), order[a]);
        let rb = eviction_rank(next_use_after(subs, i, order[b]), order[b]);
        if a < b {
            assert(key_lt(ra, rb));
        } else {
            assert(key_lt(rb, ra));
        }
    }
}

/// There are enough qubits to evict.
pub proof fn lemma_enough_to_evict(
    subs: Seq<Circuit>,
    i: int,
    in_flight: Set<Qubit>,
    order: Seq<Qubit>,
    max_size: int,
)
    requires
        0 <= i < subs.len(),
        increasing(subs[i].qubits@),
        subs[i].qubits@.len() <= max_size,
        in_flight.finite(),
        is_eviction_order(subs, i, in_flight, order),
    ensures
        order.no_duplicates(),
        in_flight.len() - (max_size - not_in_flight(subs[i].qubits@, in_flight).len())
            <= order.len(),
{
    let qs = subs[i].qubits@;
    lemma_increasing_distinct(qs);
    lemma_not_in_flight(qs, in_flight);
    let missing = not_in_flight(qs, in_flight);
    lemma_order_distinct(subs, i, in_flight, order);
    order.unique_seq_to_set();
    qs.unique_seq_to_set();
    missing.unique_seq_to_set();
    let qset = qs.to_set();
    vstd::set_lib::lemma_set_disjoint_lens(in_flight, missing.to_set());
    vstd::set_lib::lemma_set_disjoint_lens(qset, order.to_set());
    assert(in_flight.union(missing.to_set()) =~= qset.union(order.to_set())) by {
        assert forall|q: Qubit| in_flight.union(missing.to_set()).contains(q) <==> qset.union(
            order.to_set(),
        ).contains(q) by {
            assert(missing.contains(q) <==> (qs.contains(q) && !in_flight.contains(q)));
            assert(order.contains(q) <==> (in_flight.contains(q) && !qs.contains(q)));
        }
    }
}

/// The steps around subcircuit `i` when qubits stay on the processor until
/// their slot is needed.
#[verifier::spinoff_prover]
#[verifier::rlimit(40)]
fn carry_step(
    subcircuits: &Vec<Circuit>,
    i: usize,
    max_subcircuit_size: usize,
    uses: &KeyedMap<Qubit, Vec<usize>>,
    in_flight: &mut KeyedMap<Qubit, ArchitectureQubit>,
    slots: &mut Vec<bool>,
    ops: &mut Vec<LoadStoreOp>,
)
    requires
        i < subcircuits@.len(),
        covers_gates(subcircuits@[i as int]),
        not_in_flight(subcircuits@[i as int].qubits@, old(in_flight)@.dom()).len()
            <= max_subcircuit_size,
        uses_listed(uses@, subcircuits@, subcircuits@.len() as int),
        slots_distinct(old(in_flight)@),
        slots_agree(old(in_flight)@, old(slots)@),
        old(in_flight)@.dom().finite(),
    ensures
        final(ops)@ == old(ops)@ + subcircuit_steps(
            subcircuits@,
            max_subcircuit_size as int,
            true,
            i as int,
            old(in_flight)@,
        ),
        ({
            let rest = kept(
                subcircuits@,
                max_subcircuit_size as int,
                i as int,
                old(in_flight)@,
            );
            final(in_flight)@ == after_loads(
                rest,
                not_in_flight(subcircuits@[i as int].qubits@, rest.dom()),
            )
        }),
        slots_distinct(final(in_flight)@),
        slots_agree(final(in_flight)@, final(slots)@),
        final(in_flight)@.dom().finite(),
        subcircuits@[i as int].qubits@.len() <= max_subcircuit_size && held_within(
            old(in_flight)@,
            max_subcircuit_size as int,
        ) ==> held_within(final(in_flight)@, max_subcircuit_size as int),
        meas_count(final(ops)@) + 2 * final(in_flight)@.dom().len() <= meas_count(old(ops)@) + 2
            * old(in_flight)@.dom().len() + 4 * subcircuits@[i as int].qubits@.len() + 6
            * subcircuits@[i as int].gates@.len(),
{
    let ghost subs = subcircuits@;
    let ghost max = max_subcircuit_size as int;
    let sub = &subcircuits[i];
    let ghost held = in_flight@;
    let ghost ops0 = ops@;
    let ghost qs = sub.qubits@;
    let in_flight_count: usize = in_flight.len();
    let new_count: usize = missing_qubits(&sub.qubits, in_flight).len();
    let order = rank_evictable_qubits(in_flight, uses, i, subcircuits);
    proof {
        lemma_increasing_distinct(qs);
        lemma_not_in_flight(qs, held.dom());
        lemma_order_distinct(subs, i as int, held.dom(), order@);
        if qs.len() <= max {
            lemma_enough_to_evict(subs, i as int, held.dom(), order@, max);
        }
    }
    let free: usize = max_subcircuit_size - new_count;
    let surplus: usize = if in_flight_count > free {
        in_flight_count - free
    } else {
        0
    };
    let must_evict: usize = if surplus < order.len() {
        surplus
    } else {
        order.len()
    };
    let ghost out = order@.take(must_evict as int);
    proof {
        assert(evicted(subs, max, i as int, held) == out);
        assert forall|k: int| 0 <= k < must_evict implies held.dom().contains(
            #[trigger] order@[k],
        ) by {
            assert(order@.contains(order@[k]));
        }
    }
    store_all(in_flight, slots, &order, must_evict, ops);
    let ghost rest = in_flight@;
    let to_load = missing_qubits(&sub.qubits, in_flight);
    proof {
        lemma_not_in_flight(qs, rest.dom());
        assert forall|k: int| 0 <= k < to_load@.len() implies !rest.dom().contains(
            #[trigger] to_load@[k],
        ) by {
            assert(to_load@.contains(to_load@[k]));
        }
        assert forall|q: Qubit| qs.contains(q) implies held.dom().contains(q)
            == rest.dom().contains(q) by {
            assert(order@.contains(q) <==> (held.dom().contains(q) && !qs.contains(q)));
            if out.contains(q) {
                let k = out.index_of(q);
                assert(order@[k] == q);
            }
        }
        lemma_same_missing(qs, held.dom(), rest.dom());
        if qs.len() <= max && held_within(held, max) {
            assert forall|q: Qubit| #[trigger] rest.dom().contains(q) implies (
            rest[q] matches ArchitectureQubit::Processor(s) && s < max) by {
                assert(held.dom().contains(q));
            }
            assert(held_within(rest, max));
        }
    }
    load_all(in_flight, slots, &to_load, ops);
    proof {
        assert forall|q: Qubit| #[trigger] qs.contains(q) implies in_flight@.dom().contains(q) by {
            assert(to_load@.contains(q) <==> (qs.contains(q) && !rest.dom().contains(q)));
        }
    }
    push_gates(in_flight, sub, ops);
    proof {
        let stores = store_ops(held, out);
        let loads = load_ops(rest, to_load@);
        let steps = gate_steps(in_flight@, sub.gates@);
        assert(ops@ =~= ops0 + (stores + loads + steps));
        lemma_load_ops_len(rest, to_load@);
        lemma_steps_meas_count(stores, loads, steps);
        lemma_meas_count_add(ops0, stores + loads + steps);
    }
}

/// The steps around subcircuit `i` when it loads all its qubits and stores them
/// again.
#[verifier::spinoff_prover]
fn full_step(
    sub: &Circuit,
    in_flight: &mut KeyedMap<Qubit, ArchitectureQubit>,
    slots: &mut Vec<bool>,
    ops: &mut Vec<LoadStoreOp>,
)
    requires
        covers_gates(*sub),
        old(in_flight)@ == Map::<Qubit, ArchitectureQubit>::empty(),
        slots_agree(old(in_flight)@, old(slots)@),
    ensures
        ({
            let all = after_loads(Map::empty(), sub.qubits@);
            final(ops)@ == old(ops)@ + (load_ops(Map::empty(), sub.qubits@) + gate_steps(
                all,
                sub.gates@,
            ) + store_ops(all, sub.qubits@))
        }),
        final(in_flight)@ == Map::<Qubit, ArchitectureQubit>::empty(),
        slots_agree(final(in_flight)@, final(slots)@),
        meas_count(final(ops)@) <= meas_count(old(ops)@) + 4 * sub.qubits@.len() + 6
            * sub.gates@.len(),
{
    let ghost ops0 = ops@;
    let ghost qs = sub.qubits@;
    proof {
        lemma_increasing_distinct(qs);
    }
    load_all(in_flight, slots, &sub.qubits, ops);
    let ghost all = in_flight@;
    push_gates(in_flight, sub, ops);
    proof {
        assert(qs.take(qs.len() as int) =~= qs);
        assert forall|k: int| 0 <= k < qs.len() implies all.dom().contains(#[trigger] qs[k]) by {
            assert(qs.contains(qs[k]));
        }
    }
    store_all(in_flight, slots, &sub.qubits, sub.qubits.len(), ops);
    proof {
        assert(in_flight@ =~= Map::<Qubit, ArchitectureQubit>::empty());
        let stores = store_ops(all, qs);
        let loads = load_ops(Map::empty(), qs);
        let steps = gate_steps(all, sub.gates@);
        assert(ops@ =~= ops0 + (loads + steps + stores));
        lemma_load_ops_len(Map::empty(), qs);
        lemma_steps_meas_count(stores, loads, steps);
        lemma_meas_count_add(ops0, loads + steps + stores);
    }
}

/// Surround the subcircuits with the loads and stores that they need. With
/// `skip_redundant`, qubits stay on the processor until their slot is needed, and
/// the one whose next use is furthest away leaves first; otherwise every
/// subcircuit loads all its qubits and stores them again.
pub fn to_load_store_circuit(
    subcircuits: &Vec<Circuit>,
    max_subcircuit_size: usize,
    skip_redundant: bool,
) -> (r: LoadStoreCircuit)
    requires
        forall|i: int| 0 <= i < subcircuits@.len() ==> covers_gates(#[trigger] subcircuits@[i]),
        skip_redundant ==> loads_fit(subcircuits@, max_subcircuit_size as int),
    ensures
        r.ops@ == load_store_steps(
            subcircuits@,
            max_subcircuit_size as int,
            skip_redundant,
            subcircuits@.len() as int,
        ),
        skip_redundant && each_fits(subcircuits@, max_subcircuit_size as int) ==> forall|i: int|
            0 <= i <= subcircuits@.len() ==> held_within(
                #[trigger] held_before(
                    subcircuits@,
                    max_subcircuit_size as int,
                    skip_redundant,
                    i,
                ),
                max_subcircuit_size as int,
            ),
        meas_count(r.ops@) <= 4 * total_qubits(subcircuits@, subcircuits@.len() as int) + 6
            * total_gates(subcircuits@, subcircuits@.len() as int),
{
    let ghost subs = subcircuits@;
    let ghost max = max_subcircuit_size as int;
    let mut ops: Vec<LoadStoreOp> = Vec::new();
    let mut in_flight: KeyedMap<Qubit, ArchitectureQubit> = KeyedMap::new();
    let mut slots: Vec<bool> = Vec::new();
    let uses = if skip_redundant {
        list_uses(subcircuits)
    } else {
        KeyedMap::new()
    };
    proof {
        assert(in_flight@.dom() =~= Set::empty());
        if skip_redundant {
            assert(held_within(held_before(subs, max, skip_redundant, 0), max));
        }
    }
    for i in 0..subcircuits.len()
        invariant
            subs == subcircuits@,
            max == max_subcircuit_size,
            forall|i: int| 0 <= i < subs.len() ==> covers_gates(#[trigger] subs[i]),
            skip_redundant ==> loads_fit(subs, max),
            skip_redundant ==> uses_listed(uses@, subs, subs.len() as int),
            ops@ == load_store_steps(subs, max, skip_redundant, i as int),
            in_flight@ == held_before(subs, max, skip_redundant, i as int),
            slots_distinct(in_flight@),
            slots_agree(in_flight@, slots@),
            in_flight@.dom().finite(),
            skip_redundant && each_fits(subs, max) ==> forall|k: int|
                0 <= k <= i ==> held_within(
                    #[trigger] held_before(subs, max, skip_redundant, k),
                    max,
                ),
            meas_count(ops@) + 2 * in_flight@.dom().len() <= 4 * total_qubits(subs, i as int) + 6 * total_gates(subs, i as int),
    {
        let ghost held = in_flight@;
        assert(covers_gates(subs[i as int]));
        if skip_redundant {
            proof {
                let before = held_before(subs, max, skip_redundant, i as int);
                assert(not_in_flight(subs[i as int].qubits@, before.dom()).len() <= max);
                if each_fits(subs, max) {
                    assert(subs[i as int].qubits@.len() <= max);
                    assert(held_within(before, max));
                }
            }
            carry_step(
                subcircuits,
                i,
                max_subcircuit_size,
                &uses,
                &mut in_flight,
                &mut slots,
                &mut ops,
            );
            assert(in_flight@ == held_before(subs, max, skip_redundant, i + 1));
        } else {
            full_step(&subcircuits[i], &mut in_flight, &mut slots, &mut ops);
        }
    }
    LoadStoreCircuit { ops }
}

} // verus!
