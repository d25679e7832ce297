//! Laws of following a circuit: what each gate makes of the values that are known.

use vstd::prelude::*;

#[allow(unused_imports)]
use crate::frame::{
    clash, corrected, determined, first_clash, fresh, is_complete, is_frame,
    law_correction_keeps_complete, law_correction_keeps_frame, law_fresh_is_complete,
    law_fresh_is_frame, law_measured_is_determined, law_measuring_keeps_complete,
    law_measuring_keeps_frame, law_reset_is_definite, law_reset_keeps_complete,
    law_reset_keeps_frame, lemma_clash_symmetric, lemma_first_clash, lemma_flipped_determined,
    lemma_unit_sees, measured, pair_parity, reset_bits, solution, toggled, unit_bits, Bits,
};
#[allow(unused_imports)]
use crate::lowering::MergedQubit;
#[allow(unused_imports)]
use crate::memory::{followed, has_part, numbered_bits};
#[allow(unused_imports)]
use crate::pbc::Pauli;
#[allow(unused_imports)]
use crate::physical::{gate_qubits, number_of, GateModel};
#[allow(unused_imports)]
use crate::records::{makes_one, recorders};

verus! {

/// All qubits of the gates have numbers of their own.
pub open spec fn names_all(seen: Seq<MergedQubit>, s: Seq<GateModel<MergedQubit>>) -> bool {
    &&& 2 * seen.len() <= usize::MAX
    &&& forall|i: int, k: int|
        0 <= i < s.len() && 0 <= k < gate_qubits(s[i]).len() ==> seen.contains(
            #[trigger] gate_qubits(s[i])[k],
        )
}

/// The records whose parity is the value of an operator behind gates.
pub open spec fn value_after(
    s: Seq<GateModel<MergedQubit>>,
    seen: Seq<MergedQubit>,
    sites: Seq<(MergedQubit, Pauli)>,
) -> Option<Set<usize>> {
    match followed(s, seen) {
        None => None,
        Some(t) => solution(t, numbered_bits(sites, seen)),
    }
}

/// The value of the last record of gates.
pub open spec fn last_record(s: Seq<GateModel<MergedQubit>>, seen: Seq<MergedQubit>) -> Set<usize> {
    followed(s, seen)->0.rec.last()
}

proof fn lemma_number(seen: Seq<MergedQubit>, q: MergedQubit)
    requires
        2 * seen.len() <= usize::MAX,
        seen.contains(q),
    ensures
        0 <= number_of(seen, q) < seen.len(),
        seen[number_of(seen, q) as int] == q,
{
    assert(seen[seen.index_of(q)] == q);
}

proof fn lemma_gate_named(
    seen: Seq<MergedQubit>,
    s: Seq<GateModel<MergedQubit>>,
    q: MergedQubit,
    k: int,
)
    requires
        names_all(seen, s),
        s.len() > 0,
        0 <= k < gate_qubits(s.last()).len(),
        gate_qubits(s.last())[k] == q,
    ensures
        0 <= number_of(seen, q) < seen.len(),
        seen.contains(q),
{
    assert(seen.contains(gate_qubits(s[s.len() - 1])[k]));
    lemma_number(seen, q);
}

proof fn lemma_names_front(seen: Seq<MergedQubit>, s: Seq<GateModel<MergedQubit>>, n: int)
    requires
        names_all(seen, s),
        0 <= n <= s.len(),
    ensures
        names_all(seen, s.take(n)),
{
    let t = s.take(n);
    assert forall|i: int, k: int|
        0 <= i < t.len() && 0 <= k < gate_qubits(t[i]).len() implies seen.contains(
        #[trigger] gate_qubits(t[i])[k],
    ) by {
        assert(t[i] == s[i]);
        assert(seen.contains(gate_qubits(s[i])[k]));
    }
}

/// Followed circuits have complete frames, with a value for each record.
proof fn lemma_followed(s: Seq<GateModel<MergedQubit>>, seen: Seq<MergedQubit>)
    requires
        names_all(seen, s),
    ensures
        followed(s, seen) matches Some(t) ==> is_frame(t) && is_complete(t) && t.n == seen.len()
            && t.rec.len() == recorders(s).len(),
    decreases s.len(),
{
    if s.len() == 0 {
        law_fresh_is_frame(seen.len());
        law_fresh_is_complete(seen.len());
    } else {
        let front = s.drop_last();
        assert(front =~= s.take(s.len() - 1));
        lemma_names_front(seen, s, s.len() - 1);
        lemma_followed(front, seen);
        if let Some(t) = followed(front, seen) {
            match s.last() {
                GateModel::Reset(b, q) => {
                    lemma_gate_named(seen, s, q, 0);
                    let n = number_of(seen, q) as int;
                    law_reset_keeps_frame(t, b, n);
                    law_reset_keeps_complete(t, b, n);
                },
                GateModel::Measure(p, q, _) => {
                    let bits = numbered_bits(seq![(q, p)], seen);
                    law_measuring_keeps_frame(t, bits);
                    law_measuring_keeps_complete(t, bits);
                },
                GateModel::MPP(p) => {
                    let bits = numbered_bits(p.sites, seen);
                    law_measuring_keeps_frame(t, bits);
                    law_measuring_keeps_complete(t, bits);
                },
                GateModel::XCorrection(k, q) => {
                    if 1 <= k <= t.rec.len() {
                        law_correction_keeps_frame(
                            t,
                            t.rec.len() - k,
                            number_of(seen, q) as int,
                        );
                        law_correction_keeps_complete(
                            t,
                            t.rec.len() - k,
                            number_of(seen, q) as int,
                        );
                    }
                },
                _ => {},
            }
        }
    }
}

/// A single Pauli by its parts.
proof fn lemma_one_site(seen: Seq<MergedQubit>, q: MergedQubit, p: Pauli)
    ensures
        numbered_bits(seq![(q, p)], seen) == unit_bits(
            seen.len(),
            number_of(seen, q) as int,
            p.has_x(),
            p.has_z(),
        ),
{
    let a = numbered_bits(seq![(q, p)], seen);
    let b = unit_bits(seen.len(), number_of(seen, q) as int, p.has_x(), p.has_z());
    let one = seq![(q, p)];
    assert(one[0] == (q, p));
    assert(a.x =~= b.x);
    assert(a.z =~= b.z);
}

/// Before any gate, operators of Z alone have the value 1, and all others have none.
pub proof fn law_following_starts_in_zero_states(
    seen: Seq<MergedQubit>,
    sites: Seq<(MergedQubit, Pauli)>,
)
    requires
        2 * seen.len() <= usize::MAX,
        forall|k: int| 0 <= k < sites.len() ==> seen.contains((#[trigger] sites[k]).0),
    ensures
        (forall|k: int| 0 <= k < sites.len() ==> (#[trigger] sites[k]).1 is Z) ==> value_after(
            Seq::empty(),
            seen,
            sites,
        ) == Some(Set::<usize>::empty()),
        (exists|k: int| 0 <= k < sites.len() && (#[trigger] sites[k]).1.has_x()) ==> value_after(
            Seq::empty(),
            seen,
            sites,
        ) is None,
{
    let n = seen.len();
    let t = fresh(n);
    let p = numbered_bits(sites, seen);
    let none = Seq::<GateModel<MergedQubit>>::empty();
    assert(followed(none, seen) == Some(t));
    lemma_first_clash(t.rows, p, n as int);
    lemma_fresh_determined(n, p, n as int);
    assert forall|r: int| n <= r < 2 * n implies clash((#[trigger] t.rows[r]).op, p) == p.x[r - n] by {
        lemma_unit_sees(n, r - n, false, true, p, n as int);
    }
    if forall|k: int| 0 <= k < sites.len() ==> (#[trigger] sites[k]).1 is Z {
        if let Some(r) = first_clash(t.rows, p, n as int) {
            assert(p.x[r - n]);
            assert(has_part(sites, seen, r - n, true));
        }
    }
    if exists|k: int| 0 <= k < sites.len() && (#[trigger] sites[k]).1.has_x() {
        let k = choose|k: int| 0 <= k < sites.len() && (#[trigger] sites[k]).1.has_x();
        lemma_number(seen, sites[k].0);
        let i = number_of(seen, sites[k].0) as int;
        assert(has_part(sites, seen, i, true));
        assert(p.x[i]);
        assert(clash(t.rows[n + i].op, p));
    }
}

proof fn lemma_fresh_determined(n: nat, p: Bits, k: int)
    requires
        0 <= k <= n,
    ensures
        determined(fresh(n), p, k) == Set::<usize>::empty(),
    decreases k,
{
    if k > 0 {
        lemma_fresh_determined(n, p, k - 1);
        assert(toggled(Set::empty(), Set::empty()) =~= Set::<usize>::empty());
    }
}

/// Behind a reset, the Pauli of its basis has the value 1 on its qubit.
pub proof fn law_following_a_reset(
    s: Seq<GateModel<MergedQubit>>,
    seen: Seq<MergedQubit>,
    basis: Pauli,
    q: MergedQubit,
)
    requires
        names_all(seen, s),
        seen.contains(q),
        basis is X || basis is Z,
        followed(s, seen) is Some,
    ensures
        value_after(s.push(GateModel::Reset(basis, q)), seen, seq![(q, basis)]) == Some(
            Set::<usize>::empty(),
        ),
{
    let t = followed(s, seen)->0;
    let u = s.push(GateModel::Reset(basis, q));
    assert(u.drop_last() =~= s);
    lemma_followed(s, seen);
    lemma_number(seen, q);
    lemma_one_site(seen, q, basis);
    law_reset_is_definite(t, basis, number_of(seen, q) as int);
    assert(reset_bits(t.n, basis, number_of(seen, q) as int) == numbered_bits(
        seq![(q, basis)],
        seen,
    ));
}

/// Behind a measurement, what was measured has the value of the record that it made.
pub proof fn law_following_a_measurement(
    s: Seq<GateModel<MergedQubit>>,
    seen: Seq<MergedQubit>,
    g: GateModel<MergedQubit>,
    sites: Seq<(MergedQubit, Pauli)>,
)
    requires
        names_all(seen, s),
        followed(s, seen) is Some,
        match g {
            GateModel::MPP(p) => sites == p.sites,
            GateModel::Measure(b, q, _) => sites == seq![(q, b)],
            _ => false,
        },
    ensures
        value_after(s.push(g), seen, sites) == Some(last_record(s.push(g), seen)),
        followed(s.push(g), seen)->0.rec.drop_last() == followed(s, seen)->0.rec,
{
    let t = followed(s, seen)->0;
    let u = s.push(g);
    assert(u.drop_last() =~= s);
    lemma_followed(s, seen);
    let bits = numbered_bits(sites, seen);
    law_measured_is_determined(t, bits);
    assert(measured(t, bits).rec.drop_last() =~= t.rec);
}

/// Records stay as they were made.
proof fn lemma_records_stay(
    a: Seq<GateModel<MergedQubit>>,
    b: Seq<GateModel<MergedQubit>>,
    seen: Seq<MergedQubit>,
)
    ensures
        followed(a + b, seen) matches Some(t) ==> followed(a, seen) matches Some(u)
            && u.rec.len() + recorders(b).len() == t.rec.len() && t.rec.take(u.rec.len() as int)
            == u.rec,
    decreases b.len(),
{
    let s = a + b;
    if b.len() == 0 {
        assert(s =~= a);
        if let Some(t) = followed(a, seen) {
            assert(t.rec.take(t.rec.len() as int) =~= t.rec);
        }
    } else {
        let c = b.drop_last();
        lemma_records_stay(a, c, seen);
        assert(s.drop_last() =~= a + c);
        assert(s.last() == b.last());
        if let Some(t) = followed(s, seen) {
            let v = followed(a + c, seen)->0;
            let u = followed(a, seen)->0;
            assert(t.rec.take(u.rec.len() as int) =~= v.rec.take(u.rec.len() as int));
        }
    }
}

/// Some site has a Z part on `q`.
pub open spec fn has_z_on(sites: Seq<(MergedQubit, Pauli)>, q: MergedQubit) -> bool {
    exists|k: int| 0 <= k < sites.len() && (#[trigger] sites[k]).0 == q && sites[k].1.has_z()
}

/// A correction flips the value of exactly the operators with a Z part on its qubit, and by
/// the record that it counts back to: that of `g`, behind which `b` made all but one
/// of the records counted.
pub proof fn law_following_a_correction(
    a: Seq<GateModel<MergedQubit>>,
    g: GateModel<MergedQubit>,
    b: Seq<GateModel<MergedQubit>>,
    seen: Seq<MergedQubit>,
    q: MergedQubit,
    sites: Seq<(MergedQubit, Pauli)>,
)
    requires
        makes_one(g),
        recorders(b).len() < usize::MAX,
        names_all(seen, a.push(g) + b),
        seen.contains(q),
        forall|k: int| 0 <= k < sites.len() ==> seen.contains((#[trigger] sites[k]).0),
        value_after(a.push(g) + b, seen, sites) is Some,
    ensures
        ({
            let s = a.push(g) + b;
            let c = GateModel::XCorrection((recorders(b).len() + 1) as usize, q);
            value_after(s.push(c), seen, sites) == Some(
                if has_z_on(sites, q) {
                    toggled(value_after(s, seen, sites)->0, last_record(a.push(g), seen))
                } else {
                    value_after(s, seen, sites)->0
                },
            )
        }),
{
    let s = a.push(g) + b;
    let k = (recorders(b).len() + 1) as usize;
    let c = GateModel::XCorrection(k, q);
    let t = followed(s, seen)->0;
    let u = followed(a.push(g), seen)->0;
    let i = number_of(seen, q) as int;
    let p = numbered_bits(sites, seen);
    let n = seen.len();
    let f = unit_bits(n, i, true, false);
    lemma_followed(s, seen);
    lemma_number(seen, q);
    lemma_records_stay(a.push(g), b, seen);
    assert(s.push(c).drop_last() =~= s);
    let front = a.push(g);
    assert(front =~= s.take(front.len() as int));
    lemma_names_front(seen, s, front.len() as int);
    lemma_followed(front, seen);
    assert(front.drop_last() =~= a);
    assert(recorders(front) == recorders(a).push(g));
    let rid = t.rec.len() - k;
    assert(t.rec[rid] == u.rec.last()) by {
        assert(t.rec.take(u.rec.len() as int)[u.rec.len() - 1] == u.rec[u.rec.len() - 1]);
    }
    let v = corrected(t, rid, i);
    assert(followed(s.push(c), seen) == Some(v));
    lemma_first_clash(t.rows, p, n as int);
    lemma_first_clash(v.rows, p, n as int);
    assert forall|r: int| t.n <= r < 2 * t.n implies !clash((#[trigger] t.rows[r]).op, p) by {}
    lemma_flipped_determined(t, v, p, f, t.rec[rid], n as int);
    assert(clash(p, f) == pair_parity(t, p, f, n as int));
    lemma_unit_sees(n, i, true, false, p, n as int);
    lemma_clash_symmetric(p, f, n as int);
    assert(clash(p, f) == p.z[i]);
    assert(p.z[i] == has_z_on(sites, q)) by {
        assert(p.z[i] == has_part(sites, seen, i, false));
        if has_part(sites, seen, i, false) {
            let x = choose|x: int|
                0 <= x < sites.len() && number_of(seen, (#[trigger] sites[x]).0) == i && if false {
                    sites[x].1.has_x()
                } else {
                    sites[x].1.has_z()
                };
            lemma_number(seen, sites[x].0);
            assert(sites[x].0 == q);
        }
        if has_z_on(sites, q) {
            let x = choose|x: int|
                0 <= x < sites.len() && (#[trigger] sites[x]).0 == q && sites[x].1.has_z();
            assert(number_of(seen, sites[x].0) == i);
        }
    }
    if let Some(r) = first_clash(v.rows, p, n as int) {
        assert(v.rows[r].op == t.rows[r].op);
    }
}

} // verus!
