//! What the declarations of a memory experiment point to: the readouts of an operator's own
//! qubits, and the earlier records that determine it.

use vstd::prelude::*;

#[allow(unused_imports)]
use crate::circuit_to_checks::{
    pure_strings, pure_type, CodeData, Deformation, DeformedCheckSequence,
};
#[allow(unused_imports)]
use crate::frame::{listed, solution};
#[allow(unused_imports)]
use crate::graph_to_checks::check_views;
#[allow(unused_imports)]
use crate::lowering::{
    deformation_gates, deformations_gates, in_order, lemma_in_order_exists, lowered, one_round,
    readouts, resets, rounds_of, MergedQubit,
};
#[allow(unused_imports)]
use crate::matrix::string_views;
#[allow(unused_imports)]
use crate::memory::{
    declarations, determinism, determinism_gates, earlier_offsets, followed, have_places, idling,
    lemma_support_qubit, memory_stabs, numbered_bits, numbering, own_offsets, pinned, solutions,
    support_qubits, walked, with_readout,
};
#[allow(unused_imports)]
use crate::pbc::{Pauli, SignedPauli};
#[allow(unused_imports)]
use crate::physical::{gate_total, record_total, Counted, GateModel};
#[allow(unused_imports)]
use crate::records::{
    law_records_are_counted, lemma_all_recorders, lemma_no_recorders, lemma_recorders_add,
    lemma_unrolled_add, lemma_unrolled_flat, makes_one, record_back, recorders, repeated, unrolled,
    unrolled_gate,
};
#[allow(unused_imports)]
use crate::surgery::Site;

verus! {

// ---------------------------------------------------------------------------
// What offsets point to
// ---------------------------------------------------------------------------
/// The offsets `at` of gate `i` point to the readout of each qubit of the operator, in the
/// given basis, and then to the records with the numbers `earlier`.
pub open spec fn reads(
    u: Seq<GateModel<MergedQubit>>,
    i: int,
    at: Seq<usize>,
    sites: Seq<(MergedQubit, Pauli)>,
    earlier: Seq<int>,
    basis: Pauli,
) -> bool {
    &&& at.len() == sites.len() + earlier.len()
    &&& forall|k: int|
        0 <= k < sites.len() ==> record_back(u.take(i), #[trigger] at[k] as int) == Some(
            GateModel::Measure(basis, sites[k].0, false),
        )
    &&& forall|k: int|
        0 <= k < earlier.len() ==> recorders(u.take(i)).len() - #[trigger] at[sites.len() + k]
            == earlier[k]
}

/// Gate `i` declares observable `j`, by the readout of the operator and the records
/// `earlier`.
pub open spec fn declares_observable(
    u: Seq<GateModel<MergedQubit>>,
    i: int,
    j: int,
    sites: Seq<(MergedQubit, Pauli)>,
    earlier: Seq<int>,
    basis: Pauli,
) -> bool {
    u[i] matches GateModel::DeclareObservable(n, at) && n == j && reads(
        u,
        i,
        at,
        sites,
        earlier,
        basis,
    )
}

/// Gate `i` declares a detector, by the readout of the operator and the records `earlier`.
pub open spec fn declares_detector(
    u: Seq<GateModel<MergedQubit>>,
    i: int,
    sites: Seq<(MergedQubit, Pauli)>,
    earlier: Seq<int>,
    basis: Pauli,
) -> bool {
    u[i] matches GateModel::DeclareDetector(at) && reads(u, i, at, sites, earlier, basis)
}

/// The places of records.
pub open spec fn at_places(records: Seq<usize>, places: Seq<usize>) -> Seq<int> {
    Seq::new(records.len(), |i: int| places[records[i] as int] as int)
}

/// The operators, those that are determined: where each is declared, if it is.
spec fn declared_at(solved: Seq<Option<Seq<usize>>>, j: int) -> nat
    decreases j,
{
    if j <= 0 {
        0
    } else {
        declared_at(solved, j - 1) + if solved[j - 1] is Some {
            1nat
        } else {
            0nat
        }
    }
}

/// The declaration of operator `j` by these offsets.
spec fn declaration(observables: bool, j: int, at: Seq<usize>) -> GateModel<MergedQubit> {
    if observables {
        GateModel::DeclareObservable(j as usize, at)
    } else {
        GateModel::DeclareDetector(at)
    }
}

proof fn lemma_declarations(
    ops: Seq<Seq<(MergedQubit, Pauli)>>,
    solved: Seq<Option<Seq<usize>>>,
    observables: bool,
    read: Seq<MergedQubit>,
    places: Seq<usize>,
    running: nat,
    k: int,
)
    requires
        0 <= k <= ops.len() <= solved.len(),
    ensures
        ({
            let all = declarations(ops, solved, observables, read, places, running, k);
            &&& all.len() == declared_at(solved, k)
            &&& forall|j: int|
                0 <= j < k && (#[trigger] solved[j]) is Some ==> declared_at(solved, j) < all.len()
                    && all[declared_at(solved, j) as int] == declaration(
                    observables,
                    j,
                    pinned(ops[j], solved[j]->0, read, places, running),
                )
        }),
    decreases k,
{
    let all = declarations(ops, solved, observables, read, places, running, k);
    if k > 0 {
        lemma_declarations(ops, solved, observables, read, places, running, k - 1);
        let before = declarations(ops, solved, observables, read, places, running, k - 1);
        assert forall|j: int| 0 <= j < k && (#[trigger] solved[j]) is Some implies declared_at(
            solved,
            j,
        ) < all.len() && all[declared_at(solved, j) as int] == declaration(
            observables,
            j,
            pinned(ops[j], solved[j]->0, read, places, running),
        ) by {
            if j < k - 1 {
                assert(all[declared_at(solved, j) as int] == before[declared_at(
                    solved,
                    j,
                ) as int]);
            }
        }
    }
}

/// Every place holds the declaration of some operator.
proof fn lemma_whose_declaration(solved: Seq<Option<Seq<usize>>>, k: int, x: int) -> (j: int)
    requires
        0 <= k <= solved.len(),
        0 <= x < declared_at(solved, k),
    ensures
        0 <= j < k,
        solved[j] is Some,
        declared_at(solved, j) == x,
    decreases k,
{
    if x < declared_at(solved, k - 1) {
        lemma_whose_declaration(solved, k - 1, x)
    } else {
        k - 1
    }
}

/// With the readouts made last, the offsets that pin an operator point to its readout and
/// to the places of the records.
proof fn lemma_pinned_reads(
    u: Seq<GateModel<MergedQubit>>,
    i: int,
    made: Seq<GateModel<MergedQubit>>,
    sites: Seq<(MergedQubit, Pauli)>,
    records: Seq<usize>,
    read: Seq<MergedQubit>,
    places: Seq<usize>,
    basis: Pauli,
)
    requires
        recorders(u.take(i)) == made + readouts(basis, read),
        made.len() + read.len() <= usize::MAX,
        forall|k: int| 0 <= k < sites.len() ==> read.contains((#[trigger] sites[k]).0),
        have_places(records, places, made.len()),
    ensures
        reads(
            u,
            i,
            pinned(sites, records, read, places, made.len() + read.len()),
            sites,
            at_places(records, places),
            basis,
        ),
{
    let at = pinned(sites, records, read, places, made.len() + read.len());
    let all = made + readouts(basis, read);
    assert forall|k: int| 0 <= k < sites.len() implies record_back(
        u.take(i),
        #[trigger] at[k] as int,
    ) == Some(GateModel::Measure(basis, sites[k].0, false)) by {
        assert(read.contains(sites[k].0));
        let p = read.index_of(sites[k].0);
        assert(read[p] == sites[k].0);
        assert(at[k] == own_offsets(sites, read)[k]);
        assert(all[all.len() - at[k]] == readouts(basis, read)[p]);
    }
    assert forall|k: int| 0 <= k < records.len() implies all.len() - #[trigger] at[sites.len() + k]
        == at_places(records, places)[k] by {
        assert(records[k] < places.len());
        assert(at[sites.len() + k] == earlier_offsets(
            records,
            places,
            made.len() + read.len(),
        )[k]);
    }
}

/// The declarations behind the readout.
spec fn tail_of(
    single: Seq<GateModel<MergedQubit>>,
    deep: Seq<GateModel<MergedQubit>>,
    logicals: Seq<Seq<(MergedQubit, Pauli)>>,
    stabs: Seq<Seq<(MergedQubit, Pauli)>>,
) -> (Seq<GateModel<MergedQubit>>, Seq<GateModel<MergedQubit>>, Seq<GateModel<MergedQubit>>) {
    let ops = logicals + stabs;
    let seen = numbering(single, ops);
    let t = followed(single, seen)->0;
    let w = walked(single, deep)->0;
    let solved = solutions(t, ops, seen);
    let read = in_order(support_qubits(ops));
    let running = record_total(deep) + read.len();
    let k = logicals.len() as int;
    (
        declarations(logicals, solved.take(k), true, read, w.places, running, k),
        declarations(
            stabs,
            solved.skip(k),
            false,
            read,
            w.places,
            running,
            stabs.len() as int,
        ),
        determinism_gates(determinism(t.rec, t.rec.len() as int), w.places, running),
    )
}

spec fn only_declares(s: Seq<GateModel<MergedQubit>>) -> bool {
    forall|i: int|
        0 <= i < s.len() ==> (#[trigger] s[i]) is DeclareObservable || s[i] is DeclareDetector
}

proof fn lemma_only_declares(
    ops: Seq<Seq<(MergedQubit, Pauli)>>,
    solved: Seq<Option<Seq<usize>>>,
    observables: bool,
    read: Seq<MergedQubit>,
    places: Seq<usize>,
    running: nat,
    k: int,
)
    ensures
        only_declares(declarations(ops, solved, observables, read, places, running, k)),
        forall|i: int|
            0 <= i < declarations(ops, solved, observables, read, places, running, k).len()
                ==> (#[trigger] declarations(
                ops,
                solved,
                observables,
                read,
                places,
                running,
                k,
            )[i] is DeclareObservable) == observables,
    decreases k,
{
    if k > 0 {
        lemma_only_declares(ops, solved, observables, read, places, running, k - 1);
    }
}

/// The circuit with its readout, written out, and the records made by then.
#[verifier::spinoff_prover]
proof fn lemma_readout_records(
    single: Seq<GateModel<MergedQubit>>,
    deep: Seq<GateModel<MergedQubit>>,
    logicals: Seq<Seq<(MergedQubit, Pauli)>>,
    stabs: Seq<Seq<(MergedQubit, Pauli)>>,
    basis: Pauli,
)
    requires
        with_readout(single, deep, logicals, stabs, basis) is Some,
    ensures
        ({
            let read = in_order(support_qubits(logicals + stabs));
            let d = unrolled(deep);
            let (a, b, c) = tail_of(single, deep, logicals, stabs);
            let u = unrolled(with_readout(single, deep, logicals, stabs, basis)->0);
            &&& u == d + readouts(basis, read) + (a + b + c)
            &&& recorders(d).len() == record_total(deep)
            &&& forall|i: int|
                d.len() + read.len() <= i <= u.len() ==> recorders(#[trigger] u.take(i))
                    == recorders(d) + readouts(basis, read)
            &&& only_declares(a + b + c)
        }),
{
    let ops = logicals + stabs;
    let seen = numbering(single, ops);
    let t = followed(single, seen)->0;
    let w = walked(single, deep)->0;
    let solved = solutions(t, ops, seen);
    let read = in_order(support_qubits(ops));
    let running = record_total(deep) + read.len();
    let k = logicals.len() as int;
    let (a, b, c) = tail_of(single, deep, logicals, stabs);
    let d = unrolled(deep);
    let ro = readouts(basis, read);
    let rest = a + b + c;
    let s = with_readout(single, deep, logicals, stabs, basis)->0;
    assert(s =~= deep + ro + rest);
    lemma_only_declares(logicals, solved.take(k), true, read, w.places, running, k);
    lemma_only_declares(
        stabs,
        solved.skip(k),
        false,
        read,
        w.places,
        running,
        stabs.len() as int,
    );
    assert(only_declares(rest)) by {
        assert forall|i: int| 0 <= i < rest.len() implies (#[trigger] rest[i]) is DeclareObservable
            || rest[i] is DeclareDetector by {
            if i < a.len() {
                assert(rest[i] == a[i]);
            } else if i < a.len() + b.len() {
                assert(rest[i] == b[i - a.len()]);
            } else {
                assert(rest[i] == c[i - a.len() - b.len()]);
            }
        }
    }
    lemma_unrolled_add(deep + ro, rest);
    lemma_unrolled_add(deep, ro);
    assert forall|i: int| 0 <= i < ro.len() implies !((#[trigger] ro[i]) is Repeat) by {}
    assert forall|i: int| 0 <= i < rest.len() implies !((#[trigger] rest[i]) is Repeat) by {}
    lemma_unrolled_flat(ro);
    lemma_unrolled_flat(rest);
    law_records_are_counted(deep);
    let u = unrolled(s);
    assert(u == d + ro + rest);
    assert forall|i: int| d.len() + read.len() <= i <= u.len() implies recorders(
        #[trigger] u.take(i),
    ) == recorders(d) + ro by {
        let part = rest.take(i - d.len() - ro.len());
        assert(u.take(i) =~= d + ro + part);
        lemma_recorders_add(d + ro, part);
        lemma_recorders_add(d, ro);
        assert forall|x: int| 0 <= x < ro.len() implies makes_one(#[trigger] ro[x]) by {}
        lemma_all_recorders(ro);
        assert forall|x: int| 0 <= x < part.len() implies !makes_one(#[trigger] part[x]) by {
            assert(part[x] == rest[x]);
        }
        lemma_no_recorders(part);
        assert(recorders(d) + ro + Seq::<GateModel<MergedQubit>>::empty() =~= recorders(d) + ro);
    }
}

/// In a circuit with its readout, a logical operator that the frame determines is declared
/// as the observable with its number: by the readouts of its own qubits, and the places of
/// the records that determine it.
#[verifier::spinoff_prover]
pub proof fn law_observables_read_their_operators(
    single: Seq<GateModel<MergedQubit>>,
    deep: Seq<GateModel<MergedQubit>>,
    logicals: Seq<Seq<(MergedQubit, Pauli)>>,
    stabs: Seq<Seq<(MergedQubit, Pauli)>>,
    basis: Pauli,
    j: int,
)
    requires
        with_readout(single, deep, logicals, stabs, basis) is Some,
        0 <= j < logicals.len() <= usize::MAX,
    ensures
        ({
            let u = unrolled(with_readout(single, deep, logicals, stabs, basis)->0);
            let seen = numbering(single, logicals + stabs);
            let t = followed(single, seen)->0;
            let places = walked(single, deep)->0.places;
            match solution(t, numbered_bits(logicals[j], seen)) {
                Some(records) => exists|i: int|
                    unrolled(deep).len() <= i < u.len() && #[trigger] declares_observable(
                        u,
                        i,
                        j,
                        logicals[j],
                        at_places(listed(records), places),
                        basis,
                    ),
                None => forall|i: int|
                    unrolled(deep).len() <= i < u.len() ==> !((
                    #[trigger] u[i]) matches GateModel::DeclareObservable(n, at) && n == j),
            }
        }),
{
    let ops = logicals + stabs;
    let seen = numbering(single, ops);
    let t = followed(single, seen)->0;
    let w = walked(single, deep)->0;
    let solved = solutions(t, ops, seen);
    let read = in_order(support_qubits(ops));
    let running = record_total(deep) + read.len();
    let k = logicals.len() as int;
    let (a, b, c) = tail_of(single, deep, logicals, stabs);
    let d = unrolled(deep);
    let u = unrolled(with_readout(single, deep, logicals, stabs, basis)->0);
    let ro = readouts(basis, read);
    let first = solved.take(k);
    lemma_readout_records(single, deep, logicals, stabs, basis);
    lemma_declarations(logicals, first, true, read, w.places, running, k);
    assert(ops[j] == logicals[j]);
    assert(first[j] == solved[j]);
    if first[j] is Some {
        let records = solution(t, numbered_bits(logicals[j], seen))->0;
        assert(first[j]->0 == listed(records));
        let x = declared_at(first, j) as int;
        let i = d.len() + ro.len() + x;
        assert(u[i] == a[x]);
        lemma_operator_read(ops, j, read);
        assert(have_places(listed(records), w.places, record_total(deep))) by {
            assert(solved[j] is Some);
        }
        assert(recorders(u.take(i)) == recorders(d) + ro);
        lemma_pinned_reads(
            u,
            i,
            recorders(d),
            logicals[j],
            listed(records),
            read,
            w.places,
            basis,
        );
        assert(declares_observable(
            u,
            i,
            j,
            logicals[j],
            at_places(listed(records), w.places),
            basis,
        ));
    } else {
        assert forall|i: int| d.len() <= i < u.len() implies !((
        #[trigger] u[i]) matches GateModel::DeclareObservable(n, at) && n == j) by {
            if i < d.len() + ro.len() {
                assert(u[i] == ro[i - d.len()]);
            } else {
                let x = i - d.len() - ro.len();
                lemma_only_declares(
                    stabs,
                    solved.skip(k),
                    false,
                    read,
                    w.places,
                    running,
                    stabs.len() as int,
                );
                if x < a.len() {
                    assert(u[i] == a[x]);
                    let y = lemma_whose_declaration(first, k, x);
                    assert(first[y] is Some);
                } else if x < a.len() + b.len() {
                    assert(u[i] == b[x - a.len()]);
                } else {
                    assert(u[i] == c[x - a.len() - b.len()]);
                }
            }
        }
    }
}

/// Every qubit of an operator is read out.
proof fn lemma_operator_read(
    ops: Seq<Seq<(MergedQubit, Pauli)>>,
    j: int,
    read: Seq<MergedQubit>,
)
    requires
        0 <= j < ops.len(),
        read == in_order(support_qubits(ops)),
    ensures
        forall|k: int| 0 <= k < ops[j].len() ==> read.contains((#[trigger] ops[j][k]).0),
{
    lemma_in_order_exists(support_qubits(ops));
    assert forall|k: int| 0 <= k < ops[j].len() implies read.contains((#[trigger] ops[j][k]).0) by {
        lemma_support_qubit(ops, j, k);
    }
}

/// In a circuit with its readout, a stabilizer that the frame determines has a detector: the
/// readouts of its own qubits, and the places of the records that determine it.
#[verifier::spinoff_prover]
pub proof fn law_detectors_read_their_stabilizers(
    single: Seq<GateModel<MergedQubit>>,
    deep: Seq<GateModel<MergedQubit>>,
    logicals: Seq<Seq<(MergedQubit, Pauli)>>,
    stabs: Seq<Seq<(MergedQubit, Pauli)>>,
    basis: Pauli,
    j: int,
)
    requires
        with_readout(single, deep, logicals, stabs, basis) is Some,
        0 <= j < stabs.len(),
    ensures
        ({
            let u = unrolled(with_readout(single, deep, logicals, stabs, basis)->0);
            let seen = numbering(single, logicals + stabs);
            let t = followed(single, seen)->0;
            let places = walked(single, deep)->0.places;
            solution(t, numbered_bits(stabs[j], seen)) matches Some(records) ==> exists|i: int|
                unrolled(deep).len() <= i < u.len() && #[trigger] declares_detector(
                    u,
                    i,
                    stabs[j],
                    at_places(listed(records), places),
                    basis,
                )
        }),
{
    let ops = logicals + stabs;
    let seen = numbering(single, ops);
    let t = followed(single, seen)->0;
    let w = walked(single, deep)->0;
    let solved = solutions(t, ops, seen);
    let read = in_order(support_qubits(ops));
    let running = record_total(deep) + read.len();
    let k = logicals.len() as int;
    let (a, b, c) = tail_of(single, deep, logicals, stabs);
    let d = unrolled(deep);
    let u = unrolled(with_readout(single, deep, logicals, stabs, basis)->0);
    let ro = readouts(basis, read);
    let rest = solved.skip(k);
    lemma_readout_records(single, deep, logicals, stabs, basis);
    lemma_declarations(stabs, rest, false, read, w.places, running, stabs.len() as int);
    assert(ops[k + j] == stabs[j]);
    assert(rest[j] == solved[k + j]);
    if rest[j] is Some {
        let records = solution(t, numbered_bits(stabs[j], seen))->0;
        assert(rest[j]->0 == listed(records));
        let x = declared_at(rest, j) as int;
        let i = d.len() + ro.len() + a.len() + x;
        assert(u[i] == b[x]);
        lemma_operator_read(ops, k + j, read);
        assert(have_places(listed(records), w.places, record_total(deep))) by {
            assert(solved[k + j] is Some);
        }
        assert(recorders(u.take(i)) == recorders(d) + ro);
        lemma_pinned_reads(
            u,
            i,
            recorders(d),
            stabs[j],
            listed(records),
            read,
            w.places,
            basis,
        );
        assert(declares_detector(
            u,
            i,
            stabs[j],
            at_places(listed(records), w.places),
            basis,
        ));
    }
}

/// A record that earlier ones determine: that record and those.
proof fn lemma_determinism(rec: Seq<Set<usize>>, k: int, r: int)
    requires
        0 <= r < k <= rec.len(),
        !rec[r].contains(r as usize),
    ensures
        determinism(rec, k).contains(listed(rec[r].insert(r as usize))),
    decreases k,
{
    let all = determinism(rec, k);
    let one = listed(rec[r].insert(r as usize));
    if r == k - 1 {
        assert(all[all.len() - 1] == one);
    } else {
        lemma_determinism(rec, k - 1, r);
        let before = determinism(rec, k - 1);
        let x = before.index_of(one);
        assert(before[x] == one);
        assert(all[x] == one);
    }
}

/// In a circuit with its readout, every record that earlier ones determine has a detector
/// on its place and on theirs.
#[verifier::spinoff_prover]
pub proof fn law_determined_records_have_detectors(
    single: Seq<GateModel<MergedQubit>>,
    deep: Seq<GateModel<MergedQubit>>,
    logicals: Seq<Seq<(MergedQubit, Pauli)>>,
    stabs: Seq<Seq<(MergedQubit, Pauli)>>,
    basis: Pauli,
    r: int,
)
    requires
        with_readout(single, deep, logicals, stabs, basis) is Some,
        ({
            let t = followed(single, numbering(single, logicals + stabs))->0;
            0 <= r < t.rec.len() && !t.rec[r].contains(r as usize)
        }),
    ensures
        ({
            let u = unrolled(with_readout(single, deep, logicals, stabs, basis)->0);
            let t = followed(single, numbering(single, logicals + stabs))->0;
            let places = walked(single, deep)->0.places;
            exists|i: int|
                unrolled(deep).len() <= i < u.len() && #[trigger] declares_detector(
                    u,
                    i,
                    Seq::empty(),
                    at_places(listed(t.rec[r].insert(r as usize)), places),
                    basis,
                )
        }),
{
    let ops = logicals + stabs;
    let t = followed(single, numbering(single, ops))->0;
    let w = walked(single, deep)->0;
    let read = in_order(support_qubits(ops));
    let running = record_total(deep) + read.len();
    let (a, b, c) = tail_of(single, deep, logicals, stabs);
    let d = unrolled(deep);
    let u = unrolled(with_readout(single, deep, logicals, stabs, basis)->0);
    let ro = readouts(basis, read);
    lemma_readout_records(single, deep, logicals, stabs, basis);
    let certain = determinism(t.rec, t.rec.len() as int);
    let one = listed(t.rec[r].insert(r as usize));
    lemma_determinism(t.rec, t.rec.len() as int, r);
    let x = certain.index_of(one);
    assert(certain[x] == one);
    let i = d.len() + ro.len() + a.len() + b.len() + x;
    assert(u[i] == c[x]);
    assert(have_places(certain[x], w.places, record_total(deep)));
    let none = Seq::<(MergedQubit, Pauli)>::empty();
    lemma_pinned_reads(u, i, recorders(d), none, one, read, w.places, basis);
    assert(pinned(none, one, read, w.places, running) =~= earlier_offsets(
        one,
        w.places,
        running,
    ));
    assert(declares_detector(u, i, none, at_places(one, w.places), basis));
}

// ---------------------------------------------------------------------------
// Places in the deep circuit
// ---------------------------------------------------------------------------
/// The gates but for the repeated bodies.
pub open spec fn bare<Q>(s: Seq<GateModel<Q>>) -> Seq<GateModel<Q>>
    decreases s.len(),
{
    if s.len() == 0 {
        Seq::empty()
    } else if s.last() is Repeat {
        bare(s.drop_last())
    } else {
        bare(s.drop_last()).push(s.last())
    }
}

proof fn lemma_bare_add<Q>(a: Seq<GateModel<Q>>, b: Seq<GateModel<Q>>)
    ensures
        bare(a + b) == bare(a) + bare(b),
    decreases b.len(),
{
    if b.len() == 0 {
        assert(a + b =~= a);
        assert(bare(a) + bare(b) =~= bare(a));
    } else {
        lemma_bare_add(a, b.drop_last());
        assert((a + b).drop_last() =~= a + b.drop_last());
        assert((a + b).last() == b.last());
        assert(bare(a + b) =~= bare(a) + bare(b));
    }
}

proof fn lemma_bare_flat<Q>(s: Seq<GateModel<Q>>)
    requires
        forall|i: int| 0 <= i < s.len() ==> !((#[trigger] s[i]) is Repeat),
    ensures
        bare(s) == s,
    decreases s.len(),
{
    if s.len() > 0 {
        assert(!(s[s.len() - 1] is Repeat));
        let front = s.drop_last();
        assert forall|i: int| 0 <= i < front.len() implies !((#[trigger] front[i]) is Repeat) by {
            assert(!(s[i] is Repeat));
        }
        lemma_bare_flat(front);
        assert(front.push(s.last()) =~= s);
    } else {
        assert(bare(s) =~= s);
    }
}

/// The walk so far: the records of the gates passed have their places, and are made there by
/// the same gates.
#[verifier::spinoff_prover]
proof fn lemma_walk(
    single: Seq<GateModel<MergedQubit>>,
    deep: Seq<GateModel<MergedQubit>>,
    front: Seq<GateModel<MergedQubit>>,
    more: Seq<GateModel<MergedQubit>>,
)
    requires
        deep == front + more,
        single == bare(deep),
        walked(single, front) is Some,
    ensures
        ({
            let w = walked(single, front)->0;
            let made = recorders(unrolled(front));
            let here = recorders(bare(front));
            &&& w.gates == bare(front).len()
            &&& w.records == made.len()
            &&& w.places.len() == here.len()
            &&& forall|r: int|
                0 <= r < here.len() ==> (#[trigger] w.places[r]) < made.len()
                    && made[w.places[r] as int] == here[r]
        }),
    decreases front.len(),
{
    if front.len() > 0 {
        let f = front.drop_last();
        let g = front.last();
        assert(f + (seq![g] + more) =~= deep);
        lemma_walk(single, deep, f, seq![g] + more);
        let v = walked(single, f)->0;
        let w = walked(single, front)->0;
        let made = recorders(unrolled(f));
        let here = recorders(bare(f));
        lemma_recorders_add(unrolled(f), unrolled_gate(g));
        assert(unrolled(front) == unrolled(f) + unrolled_gate(g));
        law_records_are_counted(f);
        law_records_are_counted(front);
        assert(record_total(front) == record_total(f) + gate_total(Counted::Records, g));
        lemma_bare_add(front, more);
        match g {
            GateModel::Repeat(n, body) => {
                assert(gate_total(Counted::Records, g) == (n as nat) * record_total(body));
                assert(bare(front) == bare(f));
                let now = recorders(unrolled(front));
                assert forall|r: int| 0 <= r < here.len() implies (#[trigger] w.places[r])
                    < now.len() && now[w.places[r] as int] == here[r] by {
                    assert(v.places[r] < made.len());
                }
            },
            _ => {
                assert(unrolled_gate(g) == seq![g]);
                let one = seq![g];
                let none = Seq::<GateModel<MergedQubit>>::empty();
                assert(one.drop_last() =~= none);
                assert(recorders(none) == none);
                assert(bare(front) == bare(f).push(g));
                assert(single[bare(f).len() as int] == g);
                assert(bare(front).drop_last() =~= bare(f));
                let now = recorders(unrolled(front));
                if makes_one(g) {
                    assert(recorders(one) =~= seq![g]);
                    assert(recorders(bare(front)) == here.push(g));
                    assert forall|r: int| 0 <= r < here.len() + 1 implies (#[trigger] w.places[r])
                        < now.len() && now[w.places[r] as int] == here.push(g)[r] by {
                        if r < here.len() {
                            assert(v.places[r] < made.len());
                        } else {
                            assert(w.places[r] == v.records);
                        }
                    }
                } else {
                    assert(recorders(one) =~= none);
                    assert(recorders(bare(front)) == here);
                    assert forall|r: int| 0 <= r < here.len() implies (#[trigger] w.places[r])
                        < now.len() && now[w.places[r] as int] == here[r] by {
                        assert(v.places[r] < made.len());
                    }
                }
            },
        }
    }
}

/// Where the deep circuit is the single-round one with repeated bodies put in, every record
/// of the single-round circuit has a place in the deep one, and what makes the
/// record there is what makes it here.
pub proof fn law_places_hold_the_same_records(
    single: Seq<GateModel<MergedQubit>>,
    deep: Seq<GateModel<MergedQubit>>,
)
    requires
        single == bare(deep),
        walked(single, deep) is Some,
    ensures
        ({
            let places = walked(single, deep)->0.places;
            let made = recorders(unrolled(deep));
            let here = recorders(single);
            &&& places.len() == here.len()
            &&& forall|r: int|
                0 <= r < here.len() ==> (#[trigger] places[r]) < made.len()
                    && made[places[r] as int] == here[r]
        }),
{
    let none = Seq::<GateModel<MergedQubit>>::empty();
    assert(deep + none =~= deep);
    lemma_walk(single, deep, deep, none);
}

proof fn lemma_bare_rounds(checks: Seq<SignedPauli<MergedQubit>>, rounds: usize)
    requires
        rounds >= 1,
    ensures
        bare(rounds_of(checks, rounds)) == rounds_of(checks, 1),
{
    let round = one_round(checks);
    assert forall|i: int| 0 <= i < round.len() implies !((#[trigger] round[i]) is Repeat) by {}
    lemma_bare_flat(round);
    if rounds > 1 {
        assert(rounds_of(checks, rounds).drop_last() =~= round);
    }
}

proof fn lemma_bare_deformation(
    d: Deformation,
    base: Seq<SignedPauli<MergedQubit>>,
    rounds: usize,
)
    requires
        rounds >= 1,
    ensures
        bare(deformation_gates(d, base, rounds)) == deformation_gates(d, base, 1),
{
    let checks = check_views(d.checks@);
    let basis = crate::graph_to_checks::conjugate(d.edge_basis);
    let edges = crate::lowering::touched_edges(checks);
    let a = rounds_of(base, rounds);
    let b = resets(basis, edges);
    let c = rounds_of(checks, rounds);
    let e = crate::lowering::split_of(checks, d.corrections@, basis);
    lemma_bare_add(a + b + c, e);
    lemma_bare_add(a + b, c);
    lemma_bare_add(a, b);
    lemma_bare_rounds(base, rounds);
    lemma_bare_rounds(checks, rounds);
    assert forall|i: int| 0 <= i < b.len() implies !((#[trigger] b[i]) is Repeat) by {}
    lemma_bare_flat(b);
    crate::records::lemma_split_flat(checks, d.corrections@, basis);
    lemma_bare_flat(e);
}

proof fn lemma_bare_deformations(
    ds: Seq<Deformation>,
    base: Seq<SignedPauli<MergedQubit>>,
    rounds: usize,
)
    requires
        rounds >= 1,
    ensures
        bare(deformations_gates(ds, base, rounds)) == deformations_gates(ds, base, 1),
    decreases ds.len(),
{
    if ds.len() > 0 {
        lemma_bare_deformations(ds.drop_last(), base, rounds);
        lemma_bare_deformation(ds.last(), base, rounds);
        lemma_bare_add(
            deformations_gates(ds.drop_last(), base, rounds),
            deformation_gates(ds.last(), base, rounds),
        );
    } else {
        assert(bare(deformations_gates(ds, base, rounds)) =~= deformations_gates(ds, base, 1));
    }
}

/// The circuits of a memory experiment with many rounds are those with one round, with
/// repeated bodies put in.
pub proof fn law_deep_circuits_extend_single_ones(
    checks: DeformedCheckSequence,
    base: Seq<SignedPauli<MergedQubit>>,
    basis: Pauli,
    rounds: usize,
)
    requires
        rounds >= 1,
    ensures
        bare(lowered(checks, rounds)) == lowered(checks, 1),
        bare(idling(base, rounds, basis)) == idling(base, 1, basis),
{
    let own = check_views(checks.base_checks@);
    let a = resets(Pauli::Z, crate::lowering::touched(own));
    let b = resets(basis, crate::lowering::touched(base));
    assert forall|i: int| 0 <= i < a.len() implies !((#[trigger] a[i]) is Repeat) by {}
    assert forall|i: int| 0 <= i < b.len() implies !((#[trigger] b[i]) is Repeat) by {}
    lemma_bare_flat(a);
    lemma_bare_flat(b);
    lemma_bare_deformations(checks.deformations@, own, rounds);
    lemma_bare_add(a, deformations_gates(checks.deformations@, own, rounds));
    lemma_bare_rounds(base, rounds);
    lemma_bare_add(b, rounds_of(base, rounds));
}

// ---------------------------------------------------------------------------
// The operators
// ---------------------------------------------------------------------------
proof fn lemma_pure_strings(stabs: Seq<Seq<Site>>, basis: Pauli, i: int)
    requires
        0 <= i < pure_strings(stabs, basis).len(),
    ensures
        pure_type(pure_strings(stabs, basis)[i].sites, basis),
        stabs.contains(pure_strings(stabs, basis)[i].sites),
    decreases stabs.len(),
{
    let front = stabs.drop_last();
    let rest = pure_strings(front, basis);
    if i < rest.len() {
        lemma_pure_strings(front, basis, i);
        let k = front.index_of(rest[i].sites);
        assert(stabs[k] == rest[i].sites);
    } else {
        assert(stabs[stabs.len() - 1] == pure_strings(stabs, basis)[i].sites);
    }
}

/// The stabilizers that are read out have the readout basis on every qubit, so that their
/// readouts multiply to their value.
pub proof fn law_stabilizers_are_read_in_their_basis(code: CodeData, basis: Pauli, j: int, k: int)
    requires
        0 <= j < memory_stabs(code, basis).len(),
        0 <= k < memory_stabs(code, basis)[j].len(),
    ensures
        memory_stabs(code, basis)[j][k].1 == basis,
{
    lemma_pure_strings(string_views(code.memory.stabilizers@), basis, j);
}

} // verus!
