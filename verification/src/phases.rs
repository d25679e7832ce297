//! Laws of a deformation as a whole: what is measured in which phase, and the states in which
//! data and edge qubits enter.

use vstd::prelude::*;

#[allow(unused_imports)]
use crate::circuit_to_checks::{Deformation, DeformedCheckSequence};
#[allow(unused_imports)]
use crate::graph_to_checks::{check_views, conjugate};
#[allow(unused_imports)]
use crate::lowering::{
    check_qubits, comparisons, deformation_gates, deformations_gates, is_in_order,
    lemma_in_order_exists, lowered, one_round, only_edges, readouts, resets, rounds_of, split_of,
    touched, touched_edges, MergedQubit,
};
#[allow(unused_imports)]
use crate::memory::idling;
#[allow(unused_imports)]
use crate::pbc::{Pauli, Sign, SignedPauli};
#[allow(unused_imports)]
use crate::physical::GateModel;
#[allow(unused_imports)]
use crate::records::{
    lemma_all_recorders, lemma_no_recorders, lemma_recorders_add, lemma_rounds_unrolled,
    lemma_split_flat, lemma_split_records, lemma_unrolled_add, lemma_unrolled_flat, makes_one,
    recorders, repeated, unrolled,
};
#[allow(unused_imports)]
use crate::values::{alone, behind, clashes_with, lemma_behind_add, without, Operator};

verus! {

// ---------------------------------------------------------------------------
// Rounds
// ---------------------------------------------------------------------------
/// Each of the checks measured once.
pub open spec fn each_measured(checks: Seq<SignedPauli<MergedQubit>>) -> Seq<
    GateModel<MergedQubit>,
> {
    Seq::new(checks.len(), |i: int| GateModel::MPP(checks[i]))
}

proof fn lemma_repeated_recorders(
    a: Seq<GateModel<MergedQubit>>,
    b: Seq<GateModel<MergedQubit>>,
    n: nat,
)
    requires
        recorders(a) == a,
        recorders(b).len() == 0,
    ensures
        recorders(repeated(a + b, n)) == repeated(a, n),
    decreases n,
{
    if n > 0 {
        let m = (n - 1) as nat;
        lemma_repeated_recorders(a, b, m);
        lemma_recorders_add(repeated(a + b, m), a + b);
        lemma_recorders_add(a, b);
        assert(recorders(repeated(a + b, n)) =~= repeated(a, n));
    } else {
        assert(recorders(repeated(a + b, n)) =~= repeated(a, n));
    }
}

proof fn lemma_repeated_front<T>(s: Seq<T>, n: nat)
    ensures
        s + repeated(s, n) == repeated(s, n + 1),
    decreases n,
{
    if n > 0 {
        lemma_repeated_front(s, (n - 1) as nat);
        assert(s + repeated(s, n) =~= (s + repeated(s, (n - 1) as nat)) + s);
    } else {
        assert(s + repeated(s, n) =~= repeated(s, n + 1));
    }
}

/// Rounds of checks measure every check once in each round, in order, and nothing else.
pub proof fn law_rounds_measure_each_check(checks: Seq<SignedPauli<MergedQubit>>, rounds: usize)
    ensures
        recorders(unrolled(rounds_of(checks, rounds))) == repeated(
            each_measured(checks),
            rounds as nat,
        ),
{
    let round = one_round(checks);
    let m = checks.len();
    assert(round =~= each_measured(checks));
    if rounds == 0 {
        assert(recorders(unrolled(rounds_of(checks, rounds))) =~= Seq::empty());
    } else {
        lemma_rounds_unrolled(checks, rounds);
        let n = (rounds - 1) as nat;
        assert forall|i: int| 0 <= i < round.len() implies makes_one(#[trigger] round[i]) by {}
        lemma_all_recorders(round);
        lemma_no_recorders(comparisons(m));
        lemma_recorders_add(round, repeated(round + comparisons(m), n));
        lemma_repeated_recorders(round, comparisons(m), n);
        lemma_repeated_front(round, n);
    }
}

// ---------------------------------------------------------------------------
// States that enter
// ---------------------------------------------------------------------------
/// The identity.
pub open spec fn nothing() -> Operator<MergedQubit> {
    Operator { sign: Sign::One, at: |q: MergedQubit| Pauli::I }
}

/// No operator enters with a value of its own, but the identity has the value 1 throughout.
proof fn lemma_nothing_kept(s: Seq<GateModel<MergedQubit>>)
    requires
        forall|i: int| 0 <= i < s.len() ==> !((#[trigger] s[i]) is Repeat) && !(s[i] is Controlled),
    ensures
        behind(s, nothing()) == Some(nothing()),
    decreases s.len(),
{
    if s.len() > 0 {
        let front = s.drop_last();
        assert forall|i: int| 0 <= i < front.len() implies !((#[trigger] front[i]) is Repeat) && !(
        front[i] is Controlled) by {
            assert(!(s[i] is Repeat) && !(s[i] is Controlled));
        }
        lemma_nothing_kept(front);
        assert(!(s[s.len() - 1] is Repeat) && !(s[s.len() - 1] is Controlled));
        match s.last() {
            GateModel::MPP(p) => {
                lemma_nothing_clashes(p.sites);
            },
            _ => {},
        }
    }
}

proof fn lemma_nothing_clashes(sites: Seq<(MergedQubit, Pauli)>)
    ensures
        clashes_with(nothing(), sites) == 0,
    decreases sites.len(),
{
    if sites.len() > 0 {
        lemma_nothing_clashes(sites.drop_last());
    }
}

/// A qubit that is reset has its basis with the value 1.
proof fn lemma_reset_value(basis: Pauli, qs: Seq<MergedQubit>, q: MergedQubit)
    requires
        !(basis is I),
        qs.contains(q),
    ensures
        behind(resets(basis, qs), alone(Sign::One, q, basis)) == Some(nothing()),
    decreases qs.len(),
{
    let s = resets(basis, qs);
    let o = alone(Sign::One, q, basis);
    let front = qs.drop_last();
    assert(s.drop_last() =~= resets(basis, front));
    assert(s.last() == GateModel::Reset(basis, qs.last()));
    if qs.last() == q {
        let n = without(o, q);
        assert(n.at =~= nothing().at);
        assert(n =~= nothing());
        lemma_nothing_kept(resets(basis, front));
    } else {
        let i = qs.index_of(q);
        assert(qs[i] == q);
        assert(front[i] == q);
        lemma_reset_value(basis, front, q);
    }
}

proof fn lemma_plain_rounds(checks: Seq<SignedPauli<MergedQubit>>, rounds: usize)
    ensures
        forall|i: int|
            0 <= i < unrolled(rounds_of(checks, rounds)).len() ==> (#[trigger] unrolled(
                rounds_of(checks, rounds),
            )[i]) is MPP || unrolled(rounds_of(checks, rounds))[i] is DeclareDetector,
{
    let round = one_round(checks);
    if rounds > 0 {
        lemma_rounds_unrolled(checks, rounds);
        let body = round + comparisons(checks.len());
        lemma_plain_repeated(body, (rounds - 1) as nat);
    }
}

proof fn lemma_plain_repeated(body: Seq<GateModel<MergedQubit>>, n: nat)
    requires
        forall|i: int|
            0 <= i < body.len() ==> (#[trigger] body[i]) is MPP || body[i] is DeclareDetector,
    ensures
        forall|i: int|
            0 <= i < repeated(body, n).len() ==> (#[trigger] repeated(body, n)[i]) is MPP
                || repeated(body, n)[i] is DeclareDetector,
    decreases n,
{
    if n > 0 {
        lemma_plain_repeated(body, (n - 1) as nat);
    }
}

/// How a deformation goes: the first `k` of its gates measure the base checks in every round,
/// and end with every edge qubit that the merged checks touch in the state of value 1 of the
/// Pauli in which it will be read out. The others measure the merged checks in every round,
/// and then every touched edge qubit, in order and uninverted, against the vertex checks.
pub open spec fn splits_at(
    d: Deformation,
    base: Seq<SignedPauli<MergedQubit>>,
    rounds: usize,
    k: int,
) -> bool {
    let checks = check_views(d.checks@);
    let u = unrolled(deformation_gates(d, base, rounds));
    &&& 0 <= k <= u.len()
    &&& recorders(u.take(k)) == repeated(each_measured(base), rounds as nat)
    &&& exists|p: Pauli, edges: Seq<MergedQubit>|
        {
            &&& p.anticommutes(d.edge_basis)
            &&& #[trigger] recorders(u.skip(k)) == repeated(each_measured(checks), rounds as nat)
                + #[trigger] readouts(p, edges)
            &&& is_in_order(edges, only_edges(check_qubits(checks)))
            &&& forall|e: MergedQubit| #[trigger]
                edges.contains(e) ==> behind(u.take(k), alone(Sign::One, e, p)) == Some(nothing())
        }
}

/// Every deformation goes in its phases, from reset to readout.
#[verifier::spinoff_prover]
pub proof fn law_deformations_measure_in_phases(
    d: Deformation,
    base: Seq<SignedPauli<MergedQubit>>,
    rounds: usize,
)
    requires
        d.edge_basis is X || d.edge_basis is Z,
    ensures
        exists|k: int| #[trigger] splits_at(d, base, rounds, k),
{
    let checks = check_views(d.checks@);
    let basis = conjugate(d.edge_basis);
    let edges = touched_edges(checks);
    let a = rounds_of(base, rounds);
    let b = resets(basis, edges);
    let c = rounds_of(checks, rounds);
    let e = split_of(checks, d.corrections@, basis);
    let u = unrolled(deformation_gates(d, base, rounds));
    lemma_unrolled_add(a + b + c, e);
    lemma_unrolled_add(a + b, c);
    lemma_unrolled_add(a, b);
    assert forall|i: int| 0 <= i < b.len() implies !((#[trigger] b[i]) is Repeat) by {}
    lemma_unrolled_flat(b);
    lemma_split_flat(checks, d.corrections@, basis);
    lemma_unrolled_flat(e);
    let k = (unrolled(a) + b).len() as int;
    assert(u == unrolled(a) + b + unrolled(c) + e);
    assert(u.take(k) =~= unrolled(a) + b);
    assert(u.skip(k) =~= unrolled(c) + e);
    law_rounds_measure_each_check(base, rounds);
    law_rounds_measure_each_check(checks, rounds);
    lemma_recorders_add(unrolled(a), b);
    assert forall|i: int| 0 <= i < b.len() implies !makes_one(#[trigger] b[i]) by {}
    lemma_no_recorders(b);
    assert(recorders(u.take(k)) =~= repeated(each_measured(base), rounds as nat));
    lemma_recorders_add(unrolled(c), e);
    lemma_split_records(checks, d.corrections@, basis);
    assert(recorders(u.skip(k)) == repeated(each_measured(checks), rounds as nat) + readouts(
        basis,
        edges,
    ));
    lemma_in_order_exists(only_edges(check_qubits(checks)));
    assert forall|x: MergedQubit| #[trigger] edges.contains(x) implies behind(
        u.take(k),
        alone(Sign::One, x, basis),
    ) == Some(nothing()) by {
        lemma_reset_value(basis, edges, x);
        lemma_behind_add(unrolled(a), b, alone(Sign::One, x, basis));
        lemma_plain_rounds(base, rounds);
        let first = unrolled(a);
        assert forall|i: int| 0 <= i < first.len() implies !((#[trigger] first[i]) is Repeat) && !(
        first[i] is Controlled) by {}
        lemma_nothing_kept(first);
    }
    assert(splits_at(d, base, rounds, k));
}

/// A lowered sequence starts with every data qubit that the base checks touch in the state of
/// value 1 of Z, before anything is measured.
pub proof fn law_data_start_in_zero_states(
    checks: DeformedCheckSequence,
    rounds: usize,
    q: MergedQubit,
)
    requires
        check_qubits(check_views(checks.base_checks@)).contains(q),
    ensures
        exists|k: int|
            0 <= k <= lowered(checks, rounds).len() && recorders(
                #[trigger] lowered(checks, rounds).take(k),
            ).len() == 0 && behind(
                lowered(checks, rounds).take(k),
                alone(Sign::One, q, Pauli::Z),
            ) == Some(nothing()) && lowered(checks, rounds).skip(k) == deformations_gates(
                checks.deformations@,
                check_views(checks.base_checks@),
                rounds,
            ),
{
    let base = check_views(checks.base_checks@);
    let qs = touched(base);
    let first = resets(Pauli::Z, qs);
    let rest = deformations_gates(checks.deformations@, base, rounds);
    let all = lowered(checks, rounds);
    let k = first.len() as int;
    assert(all.take(k) =~= first);
    assert(all.skip(k) =~= rest);
    assert forall|i: int| 0 <= i < first.len() implies !makes_one(#[trigger] first[i]) by {}
    lemma_no_recorders(first);
    lemma_in_order_exists(check_qubits(base));
    assert(qs.contains(q));
    lemma_reset_value(Pauli::Z, qs, q);
}

/// An idling code starts with every qubit that its checks touch in the state of value 1 of
/// the given basis, and measures every check once in each round.
pub proof fn law_idling_starts_in_its_basis(
    base: Seq<SignedPauli<MergedQubit>>,
    rounds: usize,
    basis: Pauli,
    q: MergedQubit,
)
    requires
        !(basis is I),
        check_qubits(base).contains(q),
    ensures
        exists|k: int|
            0 <= k <= idling(base, rounds, basis).len() && recorders(
                #[trigger] idling(base, rounds, basis).take(k),
            ).len() == 0 && behind(
                idling(base, rounds, basis).take(k),
                alone(Sign::One, q, basis),
            ) == Some(nothing()),
        recorders(unrolled(idling(base, rounds, basis))) == repeated(
            each_measured(base),
            rounds as nat,
        ),
{
    let qs = touched(base);
    let first = resets(basis, qs);
    let rest = rounds_of(base, rounds);
    let all = idling(base, rounds, basis);
    let k = first.len() as int;
    assert(all.take(k) =~= first);
    assert forall|i: int| 0 <= i < first.len() implies !makes_one(#[trigger] first[i]) by {}
    lemma_no_recorders(first);
    lemma_in_order_exists(check_qubits(base));
    assert(qs.contains(q));
    lemma_reset_value(basis, qs, q);
    assert forall|i: int| 0 <= i < first.len() implies !((#[trigger] first[i]) is Repeat) by {}
    lemma_unrolled_flat(first);
    lemma_unrolled_add(first, rest);
    lemma_recorders_add(first, unrolled(rest));
    law_rounds_measure_each_check(base, rounds);
    assert(recorders(unrolled(all)) =~= repeated(each_measured(base), rounds as nat));
}

} // verus!
