//! Laws of counting and numbering: what the counts of a circuit count, and that a circuit with
//! its qubits numbered is the same circuit.

use vstd::prelude::*;

#[allow(unused_imports)]
use crate::keyed::{key_lt, OrderedKey};
#[allow(unused_imports)]
use crate::pbc::{insert_site, sort_sites, Pauli, PauliStringIndex, Sign};
#[allow(unused_imports)]
use crate::physical::{
    all_qubits, concatenation, flat_gate, flat_gates, flattened, gate_qubits, gate_total, highest,
    lemma_note_all_add, lemma_note_all_distinct, lemma_note_all_prefix, note_all, number_of,
    round_total, tick_total, total, trailing_run, widest_round, Counted, GateModel, PhysicalCircuit,
};
#[allow(unused_imports)]
use crate::records::{repeated, unrolled, unrolled_gate};
#[allow(unused_imports)]
use crate::values::{behind, behind_gate, clashes_with, times_site, without, Operator};

verus! {

// ---------------------------------------------------------------------------
// Ticks
// ---------------------------------------------------------------------------
/// The positions at which a circuit ticks.
pub open spec fn ticks_at<Q>(u: Seq<GateModel<Q>>) -> Set<int> {
    Set::new(|i: int| 0 <= i < u.len() && u[i] is Tick)
}

proof fn lemma_ticks_push<Q>(u: Seq<GateModel<Q>>)
    requires
        u.len() > 0,
        ticks_at(u.drop_last()).finite(),
    ensures
        ticks_at(u).finite(),
        ticks_at(u).len() == ticks_at(u.drop_last()).len() + if u.last() is Tick {
            1nat
        } else {
            0nat
        },
{
    let t = u.drop_last();
    if u.last() is Tick {
        assert(ticks_at(u) =~= ticks_at(t).insert(u.len() - 1));
    } else {
        assert(ticks_at(u) =~= ticks_at(t));
    }
}

proof fn lemma_ticks_finite<Q>(u: Seq<GateModel<Q>>)
    ensures
        ticks_at(u).finite(),
    decreases u.len(),
{
    if u.len() == 0 {
        assert(ticks_at(u) =~= Set::empty());
    } else {
        lemma_ticks_finite(u.drop_last());
        lemma_ticks_push(u);
    }
}

proof fn lemma_ticks_add<Q>(a: Seq<GateModel<Q>>, b: Seq<GateModel<Q>>)
    ensures
        ticks_at(a + b).len() == ticks_at(a).len() + ticks_at(b).len(),
    decreases b.len(),
{
    let s = a + b;
    lemma_ticks_finite(a);
    lemma_ticks_finite(b);
    if b.len() == 0 {
        assert(s =~= a);
        assert(ticks_at(b) =~= Set::empty());
    } else {
        lemma_ticks_add(a, b.drop_last());
        assert(s.drop_last() =~= a + b.drop_last());
        lemma_ticks_finite(s.drop_last());
        lemma_ticks_finite(b.drop_last());
        lemma_ticks_push(s);
        lemma_ticks_push(b);
    }
}

proof fn lemma_ticks_repeated<Q>(u: Seq<GateModel<Q>>, n: nat)
    ensures
        ticks_at(repeated(u, n)).len() == n * ticks_at(u).len(),
    decreases n,
{
    if n == 0 {
        assert(ticks_at(repeated(u, n)) =~= Set::empty());
        assert(0 * ticks_at(u).len() == 0);
    } else {
        lemma_ticks_repeated(u, (n - 1) as nat);
        lemma_ticks_add(repeated(u, (n - 1) as nat), u);
        let m = ticks_at(u).len();
        assert((n - 1) * m + m == n * m) by (nonlinear_arith);
    }
}

/// A circuit ticks as often as its count says.
pub proof fn law_ticks_are_counted<Q>(s: Seq<GateModel<Q>>)
    ensures
        ticks_at(unrolled(s)).len() == tick_total(s),
    decreases s,
{
    if s.len() == 0 {
        assert(ticks_at(unrolled(s)) =~= Set::empty());
    } else {
        let front = s.drop_last();
        let g = s.last();
        law_ticks_are_counted(front);
        lemma_ticks_add(unrolled(front), unrolled_gate(g));
        match g {
            GateModel::Repeat(n, body) => {
                assert(decreases_to!(s => g));
                law_ticks_are_counted(body);
                lemma_ticks_repeated(unrolled(body), n as nat);
                assert(unrolled_gate(g) == repeated(unrolled(body), n as nat));
                assert(gate_total(Counted::Ticks, g) == (n as nat) * total(Counted::Ticks, body));
            },
            _ => {
                let one = seq![g];
                assert(unrolled_gate(g) == one);
                assert(one.drop_last() =~= Seq::empty());
                assert(ticks_at(one.drop_last()) =~= Set::empty());
                lemma_ticks_push(one);
                assert(gate_total(Counted::Ticks, g) == if g is Tick {
                    1nat
                } else {
                    0nat
                });
            },
        }
    }
}

// ---------------------------------------------------------------------------
// Rounds
// ---------------------------------------------------------------------------
/// A round of products starts at `i`.
pub open spec fn starts_round<Q>(s: Seq<GateModel<Q>>, i: int) -> bool {
    0 <= i < s.len() && s[i] is MPP && (i == 0 || !(s[i - 1] is MPP))
}

/// Where the rounds of products start.
pub open spec fn round_starts<Q>(s: Seq<GateModel<Q>>) -> Set<int> {
    Set::new(|i: int| starts_round(s, i))
}

/// Nothing in the circuit repeats.
pub open spec fn plain_gates<Q>(s: Seq<GateModel<Q>>) -> bool {
    forall|i: int| 0 <= i < s.len() ==> !((#[trigger] s[i]) is Repeat)
}

/// Where nothing repeats, the count of rounds is the number of places at which one starts.
pub proof fn law_rounds_are_counted<Q>(s: Seq<GateModel<Q>>)
    requires
        plain_gates(s),
    ensures
        round_starts(s).finite(),
        round_starts(s).len() == round_total(s),
    decreases s.len(),
{
    if s.len() == 0 {
        assert(round_starts(s) =~= Set::empty());
    } else {
        let t = s.drop_last();
        let k = s.len() - 1;
        assert(plain_gates(t)) by {
            assert forall|i: int| 0 <= i < t.len() implies !((#[trigger] t[i]) is Repeat) by {
                assert(!(s[i] is Repeat));
            }
        }
        law_rounds_are_counted(t);
        assert(!(s[k] is Repeat));
        assert forall|i: int| i < k implies starts_round(s, i) == starts_round(t, i) by {}
        if starts_round(s, k) {
            assert(round_starts(s) =~= round_starts(t).insert(k));
        } else {
            assert(round_starts(s) =~= round_starts(t));
        }
    }
}

/// A repeated body counts as often as it runs, and circuits whose meeting ends do not make up
/// one round count together.
pub proof fn law_rounds_add_up<Q>(a: Seq<GateModel<Q>>, n: usize, body: Seq<GateModel<Q>>)
    ensures
        round_total(a.push(GateModel::Repeat(n, body))) == round_total(a) + (n as nat)
            * round_total(body),
        widest_round(a.push(GateModel::Repeat(n, body))) == if widest_round(a) < widest_round(
            body,
        ) {
            widest_round(body)
        } else {
            widest_round(a)
        },
{
    let s = a.push(GateModel::Repeat(n, body));
    assert(s.drop_last() =~= a);
}

/// The `k` gates from `i` on are products.
pub open spec fn run_at<Q>(s: Seq<GateModel<Q>>, i: int, k: int) -> bool {
    0 <= i && i + k <= s.len() && forall|j: int| i <= j < i + k ==> (#[trigger] s[j]) is MPP
}

proof fn lemma_trailing<Q>(s: Seq<GateModel<Q>>)
    ensures
        trailing_run(s) <= s.len(),
        run_at(s, s.len() - trailing_run(s), trailing_run(s) as int),
        forall|i: int, k: int| #[trigger] run_at(s, i, k) && i + k == s.len() ==> k <= trailing_run(s),
    decreases s.len(),
{
    if s.len() > 0 && s.last() is MPP {
        let t = s.drop_last();
        lemma_trailing(t);
        let r = trailing_run(t) as int;
        assert forall|j: int| s.len() - (r + 1) <= j < s.len() implies (#[trigger] s[j]) is MPP by {
            if j < t.len() {
                assert(t[j] is MPP);
            }
        }
        assert forall|i: int, k: int| #[trigger] run_at(s, i, k) && i + k == s.len() implies k
            <= trailing_run(s) by {
            if k > 0 {
                assert(run_at(t, i, k - 1)) by {
                    assert forall|j: int| i <= j < i + (k - 1) implies (#[trigger] t[j]) is MPP by {
                        assert(s[j] is MPP);
                    }
                }
            }
        }
    } else {
        assert forall|i: int, k: int| #[trigger] run_at(s, i, k) && i + k == s.len() implies k
            <= trailing_run(s) by {
            if k > 0 {
                assert(s[s.len() - 1] is MPP);
            }
        }
    }
}

/// Where nothing repeats, the widest round is a run of products, and no run of products is
/// longer.
pub proof fn law_widest_round_is_longest<Q>(s: Seq<GateModel<Q>>)
    requires
        plain_gates(s),
    ensures
        exists|i: int| #[trigger] run_at(s, i, widest_round(s) as int),
        forall|i: int, k: int| #[trigger] run_at(s, i, k) ==> k <= widest_round(s),
    decreases s.len(),
{
    if s.len() == 0 {
        assert(run_at(s, 0, widest_round(s) as int));
    } else {
        let t = s.drop_last();
        assert(plain_gates(t)) by {
            assert forall|i: int| 0 <= i < t.len() implies !((#[trigger] t[i]) is Repeat) by {
                assert(!(s[i] is Repeat));
            }
        }
        law_widest_round_is_longest(t);
        lemma_trailing(s);
        assert(!(s[s.len() - 1] is Repeat));
        let w = widest_round(t) as int;
        let i0 = choose|i: int| #[trigger] run_at(t, i, w);
        assert(run_at(s, i0, w)) by {
            assert forall|j: int| i0 <= j < i0 + w implies (#[trigger] s[j]) is MPP by {
                assert(t[j] is MPP);
            }
        }
        assert forall|i: int, k: int| #[trigger] run_at(s, i, k) implies k <= widest_round(s) by {
            if i + k < s.len() {
                assert(run_at(t, i, k)) by {
                    assert forall|j: int| i <= j < i + k implies (#[trigger] t[j]) is MPP by {
                        assert(s[j] is MPP);
                    }
                }
            } else if k > 0 {
                assert(s[s.len() - 1] is MPP);
            }
        }
        if s.last() is MPP && trailing_run(s) > w {
            assert(run_at(s, s.len() - trailing_run(s), widest_round(s) as int));
        } else {
            assert(widest_round(s) == w);
        }
    }
}

// ---------------------------------------------------------------------------
// Numbered qubits
// ---------------------------------------------------------------------------
/// An operator on numbers as one on the qubits that have them.
pub open spec fn named<Q>(o: Operator<usize>, seen: Seq<Q>) -> Operator<Q> {
    Operator {
        sign: o.sign,
        at: |q: Q|
            if seen.contains(q) {
                (o.at)(number_of(seen, q))
            } else {
                Pauli::I
            },
    }
}

/// [`named`] on what may be without a value.
pub open spec fn named_value<Q>(o: Option<Operator<usize>>, seen: Seq<Q>) -> Option<Operator<Q>> {
    match o {
        Some(x) => Some(named(x, seen)),
        None => None,
    }
}

/// The gates do the same, on whatever qubits.
pub open spec fn alike<Q, R>(g: GateModel<Q>, h: GateModel<R>) -> bool {
    match g {
        GateModel::Reset(b, _) => h matches GateModel::Reset(c, _) && b == c,
        GateModel::Measure(b, _, f) => h matches GateModel::Measure(c, _, e) && b == c && f == e,
        GateModel::XCorrection(k, _) => h matches GateModel::XCorrection(l, _) && k == l,
        GateModel::DeclareObservable(i, r) => h == GateModel::<R>::DeclareObservable(i, r),
        GateModel::DeclareDetector(r) => h == GateModel::<R>::DeclareDetector(r),
        GateModel::MPP(p) => h matches GateModel::MPP(r) && p.sign == r.sign,
        GateModel::Controlled(p, _, _) => h matches GateModel::Controlled(r, _, _) && p == r,
        GateModel::Tick => h is Tick,
        GateModel::Repeat(_, _) => false,
    }
}

proof fn lemma_numbers_differ<Q>(seen: Seq<Q>, a: Q, b: Q)
    requires
        seen.len() <= usize::MAX,
        seen.contains(a),
        seen.contains(b),
        number_of(seen, a) == number_of(seen, b),
    ensures
        a == b,
{
    assert(seen[seen.index_of(a)] == a);
    assert(seen[seen.index_of(b)] == b);
}

proof fn lemma_named_times<Q>(o: Operator<usize>, seen: Seq<Q>, q: Q, p: Pauli)
    requires
        seen.len() <= usize::MAX,
        seen.contains(q),
    ensures
        named(times_site(o, number_of(seen, q), p), seen) == times_site(named(o, seen), q, p),
{
    let a = named(times_site(o, number_of(seen, q), p), seen);
    let b = times_site(named(o, seen), q, p);
    assert forall|x: Q| #[trigger] (a.at)(x) == (b.at)(x) by {
        if seen.contains(x) && number_of(seen, x) == number_of(seen, q) {
            lemma_numbers_differ(seen, x, q);
        }
    }
    assert(a.at =~= b.at);
    assert(a =~= b);
}

proof fn lemma_named_without<Q>(o: Operator<usize>, seen: Seq<Q>, q: Q)
    requires
        seen.len() <= usize::MAX,
        seen.contains(q),
    ensures
        named(without(o, number_of(seen, q)), seen) == without(named(o, seen), q),
{
    let a = named(without(o, number_of(seen, q)), seen);
    let b = without(named(o, seen), q);
    assert forall|x: Q| #[trigger] (a.at)(x) == (b.at)(x) by {
        if seen.contains(x) && number_of(seen, x) == number_of(seen, q) {
            lemma_numbers_differ(seen, x, q);
        }
    }
    assert(a.at =~= b.at);
    assert(a =~= b);
}

proof fn lemma_clashes_insert<A: OrderedKey>(
    o: Operator<A>,
    s: Seq<(A, Pauli)>,
    site: (A, Pauli),
)
    ensures
        clashes_with(o, insert_site(s, site)) == clashes_with(o, s) + if (o.at)(
            site.0,
        ).anticommutes(site.1) {
            1nat
        } else {
            0nat
        },
    decreases s.len(),
{
    if s.len() == 0 || !key_lt(site.0.key(), s.last().0.key()) {
        assert(s.push(site).drop_last() =~= s);
    } else {
        let t = insert_site(s.drop_last(), site);
        lemma_clashes_insert(o, s.drop_last(), site);
        assert(t.push(s.last()).drop_last() =~= t);
    }
}

/// Sorting keeps what the sites clash with.
pub proof fn lemma_clashes_sorted<A: OrderedKey>(o: Operator<A>, s: Seq<(A, Pauli)>)
    ensures
        clashes_with(o, sort_sites(s)) == clashes_with(o, s),
    decreases s.len(),
{
    if s.len() > 0 {
        lemma_clashes_sorted(o, s.drop_last());
        lemma_clashes_insert(o, sort_sites(s.drop_last()), s.last());
    }
}

proof fn lemma_clashes_named<Q>(o: Operator<usize>, seen: Seq<Q>, sites: Seq<(Q, Pauli)>)
    requires
        forall|i: int| 0 <= i < sites.len() ==> seen.contains((#[trigger] sites[i]).0),
    ensures
        clashes_with(
            o,
            Seq::new(sites.len(), |i: int| (number_of(seen, sites[i].0), sites[i].1)),
        ) == clashes_with(named(o, seen), sites),
    decreases sites.len(),
{
    let all = Seq::new(sites.len(), |i: int| (number_of(seen, sites[i].0), sites[i].1));
    if sites.len() > 0 {
        let t = sites.drop_last();
        assert forall|i: int| 0 <= i < t.len() implies seen.contains((#[trigger] t[i]).0) by {
            assert(seen.contains(sites[i].0));
        }
        lemma_clashes_named(o, seen, t);
        assert(all.drop_last() =~= Seq::new(
            t.len(),
            |i: int| (number_of(seen, t[i].0), t[i].1),
        ));
        assert(seen.contains(sites[sites.len() - 1].0));
    }
}

/// Every qubit has a number.
spec fn has_numbers<Q>(g: GateModel<Q>, seen: Seq<Q>) -> bool {
    forall|i: int| 0 <= i < gate_qubits(g).len() ==> seen.contains(#[trigger] gate_qubits(g)[i])
}

#[verifier::spinoff_prover]
proof fn lemma_numbered_gate<Q: PauliStringIndex>(
    g: GateModel<Q>,
    seen: Seq<Q>,
    o: Operator<usize>,
)
    requires
        !(g is Repeat),
        seen.len() <= usize::MAX,
        has_numbers(g, seen),
    ensures
        behind_gate(g, named(o, seen)) == named_value(behind_gate(flat_gate(g, seen), o), seen),
        alike(g, flat_gate(g, seen)),
{
    match g {
        GateModel::Reset(b, q) => {
            assert(gate_qubits(g)[0] == q);
            lemma_named_without(o, seen, q);
        },
        GateModel::Measure(b, q, _) => {
            assert(gate_qubits(g)[0] == q);
        },
        GateModel::XCorrection(_, q) => {
            assert(gate_qubits(g)[0] == q);
        },
        GateModel::MPP(p) => {
            assert forall|i: int| 0 <= i < p.sites.len() implies seen.contains(
                (#[trigger] p.sites[i]).0,
            ) by {
                assert(gate_qubits(g)[i] == p.sites[i].0);
            }
            let all = Seq::new(
                p.sites.len(),
                |i: int| (number_of(seen, p.sites[i].0), p.sites[i].1),
            );
            lemma_clashes_named(o, seen, p.sites);
            lemma_clashes_sorted(o, all);
        },
        GateModel::Controlled(p, c, t) => {
            assert(gate_qubits(g)[0] == c);
            assert(gate_qubits(g)[1] == t);
            let m = number_of(seen, c);
            let n = number_of(seen, t);
            let flips = (o.at)(m).has_x();
            let clashes = (o.at)(n).anticommutes(p);
            let one = if clashes {
                times_site(o, m, Pauli::Z)
            } else {
                o
            };
            lemma_named_times(o, seen, c, Pauli::Z);
            lemma_named_times(one, seen, t, p);
            let two = if flips {
                times_site(one, n, p)
            } else {
                one
            };
            if flips && clashes {
                let a = Operator { sign: two.sign.times(Sign::NegOne), at: two.at };
                assert(named(a, seen).at =~= named(two, seen).at);
            }
        },
        _ => {},
    }
}

proof fn lemma_flat_add<Q: PauliStringIndex>(
    a: Seq<GateModel<Q>>,
    b: Seq<GateModel<Q>>,
    seen: Seq<Q>,
)
    ensures
        flat_gates(a + b, seen) == flat_gates(a, seen) + flat_gates(b, seen),
    decreases b.len(),
{
    if b.len() == 0 {
        assert(a + b =~= a);
        assert(flat_gates(a, seen) + flat_gates(b, seen) =~= flat_gates(a, seen));
    } else {
        lemma_flat_add(a, b.drop_last(), seen);
        assert((a + b).drop_last() =~= a + b.drop_last());
        assert(flat_gates(a + b, seen) =~= flat_gates(a, seen) + flat_gates(b, seen));
    }
}

proof fn lemma_flat_repeated<Q: PauliStringIndex>(u: Seq<GateModel<Q>>, n: nat, seen: Seq<Q>)
    ensures
        flat_gates(repeated(u, n), seen) == repeated(flat_gates(u, seen), n),
    decreases n,
{
    if n > 0 {
        lemma_flat_repeated(u, (n - 1) as nat, seen);
        lemma_flat_add(repeated(u, (n - 1) as nat), u, seen);
    }
}

proof fn lemma_flat_unrolled<Q: PauliStringIndex>(s: Seq<GateModel<Q>>, seen: Seq<Q>)
    ensures
        unrolled(flat_gates(s, seen)) == flat_gates(unrolled(s), seen),
    decreases s,
{
    if s.len() > 0 {
        let front = s.drop_last();
        let g = s.last();
        let f = flat_gates(s, seen);
        lemma_flat_unrolled(front, seen);
        lemma_flat_add(unrolled(front), unrolled_gate(g), seen);
        assert(f.drop_last() =~= flat_gates(front, seen));
        assert(f.last() == flat_gate(g, seen));
        match g {
            GateModel::Repeat(n, body) => {
                assert(decreases_to!(s => g));
                lemma_flat_unrolled(body, seen);
                lemma_flat_repeated(unrolled(body), n as nat, seen);
                assert(flat_gate(g, seen) == GateModel::Repeat(n, flat_gates(body, seen)));
                assert(unrolled_gate(g) == repeated(unrolled(body), n as nat));
                assert(unrolled_gate(flat_gate(g, seen)) == repeated(
                    unrolled(flat_gates(body, seen)),
                    n as nat,
                ));
            },
            _ => {
                let one = seq![g];
                assert(unrolled_gate(g) == one);
                assert(!(flat_gate(g, seen) is Repeat));
                assert(unrolled_gate(flat_gate(g, seen)) == seq![flat_gate(g, seen)]);
                let none = Seq::<GateModel<Q>>::empty();
                assert(one.drop_last() =~= none);
                assert(flat_gates(none, seen) =~= Seq::empty());
                assert(flat_gates(one, seen) == flat_gates(none, seen).push(
                    flat_gate(one.last(), seen),
                ));
                assert(flat_gates(one, seen) =~= seq![flat_gate(g, seen)]);
            },
        }
    }
}

proof fn lemma_flat_index<Q: PauliStringIndex>(s: Seq<GateModel<Q>>, seen: Seq<Q>)
    ensures
        flat_gates(s, seen).len() == s.len(),
        forall|i: int|
            0 <= i < s.len() ==> #[trigger] flat_gates(s, seen)[i] == flat_gate(s[i], seen),
    decreases s.len(),
{
    if s.len() > 0 {
        lemma_flat_index(s.drop_last(), seen);
    }
}

/// All gates of the circuit have numbers.
spec fn all_have_numbers<Q>(u: Seq<GateModel<Q>>, seen: Seq<Q>) -> bool {
    forall|i: int|
        0 <= i < u.len() ==> has_numbers(#[trigger] u[i], seen) && !(u[i] is Repeat)
}

proof fn lemma_repeated_numbers<Q>(u: Seq<GateModel<Q>>, n: nat, seen: Seq<Q>)
    requires
        all_have_numbers(u, seen),
    ensures
        all_have_numbers(repeated(u, n), seen),
    decreases n,
{
    if n > 0 {
        lemma_repeated_numbers(u, (n - 1) as nat, seen);
    }
}

proof fn lemma_unrolled_numbers<Q>(s: Seq<GateModel<Q>>, seen: Seq<Q>)
    requires
        forall|i: int|
            0 <= i < all_qubits(s).len() ==> seen.contains(#[trigger] all_qubits(s)[i]),
    ensures
        all_have_numbers(unrolled(s), seen),
    decreases s,
{
    if s.len() > 0 {
        let front = s.drop_last();
        let g = s.last();
        let qs = all_qubits(s);
        assert forall|i: int| 0 <= i < all_qubits(front).len() implies seen.contains(
            #[trigger] all_qubits(front)[i],
        ) by {
            assert(qs[i] == all_qubits(front)[i]);
        }
        assert(has_numbers(g, seen)) by {
            assert forall|i: int| 0 <= i < gate_qubits(g).len() implies seen.contains(
                #[trigger] gate_qubits(g)[i],
            ) by {
                assert(qs[all_qubits(front).len() + i] == gate_qubits(g)[i]);
            }
        }
        lemma_unrolled_numbers(front, seen);
        match g {
            GateModel::Repeat(n, body) => {
                assert(decreases_to!(s => g));
                assert(gate_qubits(g) == all_qubits(body));
                lemma_unrolled_numbers(body, seen);
                lemma_repeated_numbers(unrolled(body), n as nat, seen);
                assert(unrolled_gate(g) == repeated(unrolled(body), n as nat));
            },
            _ => {
                assert(unrolled_gate(g) == seq![g]);
            },
        }
    }
}

proof fn lemma_numbered<Q: PauliStringIndex>(
    u: Seq<GateModel<Q>>,
    seen: Seq<Q>,
    o: Operator<usize>,
)
    requires
        seen.len() <= usize::MAX,
        all_have_numbers(u, seen),
    ensures
        behind(u, named(o, seen)) == named_value(behind(flat_gates(u, seen), o), seen),
    decreases u.len(),
{
    if u.len() > 0 {
        let t = u.drop_last();
        let f = flat_gates(u, seen);
        assert(has_numbers(u[u.len() - 1], seen));
        lemma_numbered_gate(u.last(), seen, o);
        assert(f.drop_last() =~= flat_gates(t, seen));
        assert(f.last() == flat_gate(u.last(), seen));
        assert(all_have_numbers(t, seen)) by {
            assert forall|i: int| 0 <= i < t.len() implies has_numbers(#[trigger] t[i], seen)
                && !(t[i] is Repeat) by {
                assert(has_numbers(u[i], seen));
            }
        }
        match behind_gate(f.last(), o) {
            None => {},
            Some(x) => {
                lemma_numbered(t, seen, x);
            },
        }
    }
}

/// A circuit with its qubits numbered does, gate by gate, what the circuit does, and every
/// operator on the numbers comes from the one that stands for it on the qubits.
pub proof fn law_numbering_keeps_values<Q: PauliStringIndex>(
    s: Seq<GateModel<Q>>,
    o: Operator<usize>,
)
    requires
        note_all(Seq::empty(), all_qubits(s)).len() <= usize::MAX,
    ensures
        ({
            let seen = note_all(Seq::empty(), all_qubits(s));
            let u = unrolled(s);
            let f = unrolled(flattened(s));
            &&& behind(u, named(o, seen)) == named_value(behind(f, o), seen)
            &&& u.len() == f.len()
            &&& forall|i: int| 0 <= i < u.len() ==> alike(#[trigger] u[i], f[i])
        }),
{
    let qs = all_qubits(s);
    let seen = note_all(Seq::empty(), qs);
    let u = unrolled(s);
    let f = unrolled(flattened(s));
    lemma_note_all_prefix(Seq::empty(), qs);
    lemma_unrolled_numbers(s, seen);
    lemma_flat_unrolled(s, seen);
    lemma_numbered(u, seen, o);
    lemma_flat_index(u, seen);
    assert forall|i: int| 0 <= i < u.len() implies alike(#[trigger] u[i], f[i]) by {
        assert(has_numbers(u[i], seen) && !(u[i] is Repeat));
        assert(f[i] == flat_gate(u[i], seen));
        lemma_numbered_gate(u[i], seen, o);
    }
}

/// Qubits are numbered from 0 in the order in which a circuit first names them: the numbers
/// below that of a qubit are those of the qubits named before it.
pub proof fn law_numbers_follow_first_use<Q>(qs: Seq<Q>, i: int, k: usize)
    requires
        0 <= i < qs.len() <= usize::MAX,
        forall|j: int| 0 <= j < i ==> qs[j] != qs[i],
    ensures
        k < number_of(note_all(Seq::empty(), qs), qs[i]) <==> exists|j: int|
            0 <= j < i && number_of(note_all(Seq::empty(), qs), #[trigger] qs[j]) == k,
{
    let none = Seq::<Q>::empty();
    let head = qs.take(i);
    let before = note_all(none, head);
    let seen = note_all(none, qs);
    lemma_note_all_only(head);
    lemma_note_all_only(qs);
    lemma_note_all_distinct(none, qs);
    lemma_note_all_distinct(none, head);
    lemma_note_all_add(none, head, qs.skip(i));
    assert(head + qs.skip(i) =~= qs);
    lemma_note_all_prefix(before, qs.skip(i));
    lemma_note_all_prefix(none, head);
    let q = qs[i];
    assert(!before.contains(q)) by {
        if before.contains(q) {
            let j = head.index_of(q);
            assert(head.contains(q));
            assert(qs[j] == q);
        }
    }
    let after = note_all(before, qs.skip(i).take(1));
    lemma_note_all_add(before, qs.skip(i).take(1), qs.skip(i + 1));
    assert(qs.skip(i) =~= qs.skip(i).take(1) + qs.skip(i + 1));
    lemma_note_all_prefix(after, qs.skip(i + 1));
    let one = qs.skip(i).take(1);
    assert(one.drop_last() =~= none);
    assert(one.last() == q);
    assert(note_all(before, none) == before);
    assert(after == before.push(q));
    let n = before.len() as int;
    assert(after[n] == q);
    assert(seen[n] == q);
    assert(seen.index_of(q) == n) by {
        assert(seen.contains(q));
        assert(seen[seen.index_of(q)] == q);
    }
    lemma_note_all_length(qs);
    if k < n {
        let r = seen[k as int];
        assert(before[k as int] == r);
        assert(before.contains(r));
        assert(head.contains(r));
        let j = head.index_of(r);
        assert(qs[j] == r);
        assert(seen.contains(r));
        assert(seen[seen.index_of(r)] == r);
        assert(number_of(seen, qs[j]) == k);
    }
    if exists|j: int| 0 <= j < i && number_of(seen, #[trigger] qs[j]) == k {
        let j = choose|j: int| 0 <= j < i && number_of(seen, #[trigger] qs[j]) == k;
        assert(head[j] == qs[j]);
        assert(before.contains(head[j]));
        let l = before.index_of(qs[j]);
        assert(before[l] == qs[j]);
        assert(seen[l] == qs[j]);
        assert(seen.contains(qs[j]));
        assert(seen[seen.index_of(qs[j])] == qs[j]);
        assert(seen.index_of(qs[j]) == l);
    }
}

/// Nothing is noted that was not named.
proof fn lemma_note_all_only<Q>(qs: Seq<Q>)
    ensures
        forall|q: Q| #[trigger] note_all(Seq::empty(), qs).contains(q) ==> qs.contains(q),
    decreases qs.len(),
{
    if qs.len() > 0 {
        let t = qs.drop_last();
        lemma_note_all_only(t);
        let before = note_all(Seq::empty(), t);
        let now = note_all(Seq::empty(), qs);
        assert forall|q: Q| #[trigger] now.contains(q) implies qs.contains(q) by {
            let k = now.index_of(q);
            assert(now[k] == q);
            if q == qs.last() {
                assert(qs[qs.len() - 1] == q);
            } else {
                assert(before[k] == q);
                assert(before.contains(q));
                assert(t.contains(q));
                assert(qs[t.index_of(q)] == q);
            }
        }
    }
}

proof fn lemma_note_all_length<Q>(qs: Seq<Q>)
    ensures
        note_all(Seq::empty(), qs).len() <= qs.len(),
    decreases qs.len(),
{
    if qs.len() > 0 {
        lemma_note_all_length(qs.drop_last());
    }
}

// ---------------------------------------------------------------------------
// Several circuits, several numbers
// ---------------------------------------------------------------------------
/// Circuits run one after another: those of a first list before those of a second, and one
/// alone as it is.
pub proof fn law_circuits_run_in_order<Q: PauliStringIndex>(
    a: Seq<PhysicalCircuit<Q>>,
    b: Seq<PhysicalCircuit<Q>>,
    c: PhysicalCircuit<Q>,
)
    ensures
        concatenation(a + b) == concatenation(a) + concatenation(b),
        concatenation(seq![c]) == c@,
    decreases b.len(),
{
    let one = seq![c];
    let none = Seq::<PhysicalCircuit<Q>>::empty();
    assert(one.drop_last() =~= none);
    assert(concatenation(none) =~= Seq::empty());
    assert(concatenation(one) =~= c@);
    if b.len() == 0 {
        assert(a + b =~= a);
        assert(concatenation(a) + concatenation(b) =~= concatenation(a));
    } else {
        law_circuits_run_in_order(a, b.drop_last(), c);
        assert((a + b).drop_last() =~= a + b.drop_last());
        assert(concatenation(a + b) =~= concatenation(a) + concatenation(b));
    }
}

/// The highest of some numbers is one of them, and none is higher; there is none where there
/// are no numbers.
pub proof fn law_highest_is_the_largest(qs: Seq<usize>)
    ensures
        match highest(qs) {
            Some(m) => qs.contains(m) && forall|i: int| 0 <= i < qs.len() ==> qs[i] <= m,
            None => qs.len() == 0,
        },
    decreases qs.len(),
{
    if qs.len() > 0 {
        let t = qs.drop_last();
        law_highest_is_the_largest(t);
        assert(qs[qs.len() - 1] == qs.last());
        if let Some(m) = highest(t) {
            assert(qs[t.index_of(m)] == m);
            assert forall|i: int| 0 <= i < qs.len() implies qs[i] <= highest(qs)->0 by {
                if i < t.len() {
                    assert(t[i] <= m);
                }
            }
        }
    }
}

} // verus!
