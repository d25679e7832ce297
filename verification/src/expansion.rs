//! A circuit whose rounds are lowered does what the circuit does.

use vstd::prelude::*;

#[allow(unused_imports)]
use crate::coloring::{class_colors, law_classes_are_proper};
#[allow(unused_imports)]
use crate::completeness::{law_legacy_round_is_complete, law_sequential_round_is_complete};
#[allow(unused_imports)]
use crate::pbc::{Pauli, SignedPauli};
#[allow(unused_imports)]
use crate::physical::GateModel;
#[allow(unused_imports)]
use crate::records::{lemma_unrolled_add, lemma_unrolled_flat, repeated, unrolled, unrolled_gate};
#[allow(unused_imports)]
use crate::sec_schedule::{
    acts, all_replaced, checks_meet, legacy_layers, meeting, round_gates, rounds_replaced,
    sequential_layers, sites_meet, trailing_checks, SecSchedule,
};
#[allow(unused_imports)]
use crate::staggered::{lemma_layered_plain, no_repeats, staggerable};
#[allow(unused_imports)]
use crate::syndrome::{
    law_rounds_measure_their_checks, lemma_products, measurable, on_data, products,
};
#[allow(unused_imports)]
use crate::values::{behind, behind_gate, clashes_with, lemma_behind_add, Operator};

verus! {

/// Acts on qubits below `base` only.
pub open spec fn acts_below(g: GateModel<usize>, base: int) -> bool {
    match g {
        GateModel::Reset(_, q) => q < base,
        GateModel::Measure(_, q, _) => q < base,
        GateModel::XCorrection(_, q) => q < base,
        GateModel::Controlled(_, c, t) => c < base && t < base,
        _ => true,
    }
}

/// Every round of products in the circuit can be measured with ancillas from `base` on, and
/// all else acts below it.
pub open spec fn rounds_measurable(s: Seq<GateModel<usize>>, base: int) -> bool
    decreases s,
{
    s.len() == 0 || (rounds_measurable(s.drop_last(), base) && match s.last() {
        GateModel::MPP(_) => measurable(trailing_checks(s), base),
        GateModel::Repeat(_, body) => rounds_measurable(body, base),
        g => acts_below(g, base),
    })
}

/// Every operator on the data comes out the same, on the data again.
pub open spec fn same_on_data(
    a: Seq<GateModel<usize>>,
    b: Seq<GateModel<usize>>,
    base: int,
) -> bool {
    forall|o: Operator<usize>|
        on_data(o, base) ==> #[trigger] behind(a, o) == behind(b, o) && (behind(a, o) matches Some(
            x,
        ) ==> on_data(x, base))
}

proof fn lemma_data_add(
    a: Seq<GateModel<usize>>,
    c: Seq<GateModel<usize>>,
    b: Seq<GateModel<usize>>,
    d: Seq<GateModel<usize>>,
    base: int,
)
    requires
        same_on_data(a, c, base),
        same_on_data(b, d, base),
    ensures
        same_on_data(a + b, c + d, base),
{
    assert forall|o: Operator<usize>| on_data(o, base) implies #[trigger] behind(a + b, o)
        == behind(c + d, o) && (behind(a + b, o) matches Some(x) ==> on_data(x, base)) by {
        lemma_behind_add(a, b, o);
        lemma_behind_add(c, d, o);
        assert(behind(b, o) == behind(d, o));
        match behind(b, o) {
            None => {},
            Some(x) => {
                assert(behind(a, x) == behind(c, x));
            },
        }
    }
}

proof fn lemma_data_repeated(
    a: Seq<GateModel<usize>>,
    c: Seq<GateModel<usize>>,
    n: nat,
    base: int,
)
    requires
        same_on_data(a, c, base),
    ensures
        same_on_data(repeated(a, n), repeated(c, n), base),
    decreases n,
{
    if n > 0 {
        lemma_data_repeated(a, c, (n - 1) as nat, base);
        lemma_data_add(
            repeated(a, (n - 1) as nat),
            repeated(c, (n - 1) as nat),
            a,
            c,
            base,
        );
    }
}

/// A gate below the ancillas keeps operators on the data.
proof fn lemma_data_gate(g: GateModel<usize>, base: int)
    requires
        acts_below(g, base),
        !(g is Repeat),
        !(g is MPP),
    ensures
        same_on_data(seq![g], seq![g], base),
{
    let one = seq![g];
    assert forall|o: Operator<usize>| on_data(o, base) implies #[trigger] behind(one, o) == behind(
        one,
        o,
    ) && (behind(one, o) matches Some(x) ==> on_data(x, base)) by {
        let none = Seq::<GateModel<usize>>::empty();
        assert(one.drop_last() =~= none);
        assert(behind(one, o) == behind_gate(g, o)) by {
            match behind_gate(g, o) {
                None => {},
                Some(x) => {
                    assert(behind(none, x) == Some(x));
                },
            }
        }
        if let Some(x) = behind_gate(g, o) {
            assert forall|y: usize| base <= y implies #[trigger] (x.at)(y) is I by {
                assert((o.at)(y) is I);
            }
        }
    }
}

/// A lowered round and the products that it stands for.
proof fn lemma_data_round(schedule: SecSchedule, checks: Seq<SignedPauli<usize>>, base: int)
    requires
        checks.len() > 0 ==> measurable(checks, base),
    ensures
        same_on_data(round_gates(schedule, checks, base), products(checks), base),
        no_repeats(round_gates(schedule, checks, base)),
{
    let s = round_gates(schedule, checks, base);
    let m = checks.len();
    if m == 0 {
        assert(products(checks) =~= s);
    } else {
        law_rounds_measure_their_checks(schedule, checks, base);
        let x = (0usize, 0usize, Pauli::I);
        let layers = match schedule {
            SecSchedule::Legacy => {
                law_legacy_round_is_complete(checks, base, x);
                legacy_layers(checks, base)
            },
            SecSchedule::Lrc => {
                law_sequential_round_is_complete(checks, base, x);
                sequential_layers(checks, base)
            },
        };
        assert forall|k: int| 0 <= k < layers.len() implies no_repeats(#[trigger] layers[k]) by {}
        lemma_layered_plain(layers);
    }
    assert forall|o: Operator<usize>| on_data(o, base) implies #[trigger] behind(s, o) == behind(
        products(checks),
        o,
    ) && (behind(s, o) matches Some(x) ==> on_data(x, base)) by {
        lemma_products(checks, m as int, o);
        assert(products(checks).take(m as int) =~= products(checks));
        if forall|j: int| 0 <= j < m ==> clashes_with(o, (#[trigger] checks[j]).sites) % 2 == 0 {
        } else {
            let j = choose|j: int|
                0 <= j < m && clashes_with(o, (#[trigger] checks[j]).sites) % 2 != 0;
            assert(clashes_with(o, checks[j].sites) % 2 == 1);
        }
    }
}

/// The circuit without its trailing round.
spec fn without_round(s: Seq<GateModel<usize>>) -> Seq<GateModel<usize>>
    decreases s.len(),
{
    if s.len() > 0 && s.last() is MPP {
        without_round(s.drop_last())
    } else {
        s
    }
}

proof fn lemma_with_round(s: Seq<GateModel<usize>>)
    ensures
        s == without_round(s) + products(trailing_checks(s)),
    decreases s.len(),
{
    if s.len() > 0 && s.last() is MPP {
        let front = s.drop_last();
        lemma_with_round(front);
        assert(products(trailing_checks(s)) =~= products(trailing_checks(front)).push(s.last()));
        assert(without_round(s) == without_round(front));
        assert(s =~= front.push(s.last()));
        assert(front.push(s.last()) =~= without_round(front) + products(
            trailing_checks(front),
        ).push(s.last()));
    } else {
        assert(trailing_checks(s) =~= Seq::empty());
        assert(s =~= without_round(s) + products(trailing_checks(s)));
    }
}

proof fn lemma_trailing_measurable(s: Seq<GateModel<usize>>, base: int)
    requires
        rounds_measurable(s, base),
    ensures
        trailing_checks(s).len() > 0 ==> measurable(trailing_checks(s), base),
{
}

#[verifier::spinoff_prover]
proof fn lemma_rounds_lowered(schedule: SecSchedule, s: Seq<GateModel<usize>>, base: int)
    requires
        rounds_measurable(s, base),
    ensures
        same_on_data(
            unrolled(rounds_replaced(schedule, s, base)),
            unrolled(without_round(s)),
            base,
        ),
    decreases s, 0nat,
{
    if s.len() == 0 {
        assert(unrolled(rounds_replaced(schedule, s, base)) =~= Seq::empty());
        assert(unrolled(without_round(s)) =~= Seq::empty());
    } else {
        let front = s.drop_last();
        let g = s.last();
        match g {
            GateModel::MPP(_) => {
                lemma_rounds_lowered(schedule, front, base);
            },
            GateModel::Repeat(n, body) => {
                let h = GateModel::Repeat(n, all_replaced(schedule, body, base));
                assert(decreases_to!(s => g));
                lemma_all_lowered(schedule, front, base);
                lemma_all_lowered(schedule, body, base);
                let a = all_replaced(schedule, front, base);
                assert(a.push(h).drop_last() =~= a);
                assert(unrolled(a.push(h)) == unrolled(a) + unrolled_gate(h));
                assert(unrolled(s) == unrolled(front) + unrolled_gate(g));
                assert(unrolled_gate(h) == repeated(
                    unrolled(all_replaced(schedule, body, base)),
                    n as nat,
                ));
                assert(unrolled_gate(g) == repeated(unrolled(body), n as nat));
                lemma_data_repeated(
                    unrolled(all_replaced(schedule, body, base)),
                    unrolled(body),
                    n as nat,
                    base,
                );
                lemma_data_add(
                    unrolled(a),
                    unrolled(front),
                    unrolled_gate(h),
                    unrolled_gate(g),
                    base,
                );
            },
            _ => {
                lemma_all_lowered(schedule, front, base);
                let a = all_replaced(schedule, front, base);
                assert(a.push(g).drop_last() =~= a);
                assert(unrolled_gate(g) == seq![g]);
                assert(unrolled(a.push(g)) == unrolled(a) + seq![g]);
                assert(unrolled(s) == unrolled(front) + seq![g]);
                lemma_data_gate(g, base);
                lemma_data_add(unrolled(a), unrolled(front), seq![g], seq![g], base);
            },
        }
    }
}

proof fn lemma_all_lowered(schedule: SecSchedule, s: Seq<GateModel<usize>>, base: int)
    requires
        rounds_measurable(s, base),
    ensures
        same_on_data(unrolled(all_replaced(schedule, s, base)), unrolled(s), base),
    decreases s, 1nat,
{
    let checks = trailing_checks(s);
    let a = rounds_replaced(schedule, s, base);
    let b = round_gates(schedule, checks, base);
    lemma_rounds_lowered(schedule, s, base);
    lemma_trailing_measurable(s, base);
    lemma_data_round(schedule, checks, base);
    lemma_with_round(s);
    lemma_unrolled_add(a, b);
    lemma_unrolled_add(without_round(s), products(checks));
    lemma_unrolled_flat(b);
    let ps = products(checks);
    assert forall|i: int| 0 <= i < ps.len() implies !((#[trigger] ps[i]) is Repeat) by {}
    lemma_unrolled_flat(ps);
    lemma_data_add(unrolled(a), unrolled(without_round(s)), b, ps, base);
}

/// A circuit whose rounds are lowered, in repeated bodies too, does to the data what the
/// circuit does that measures the products: every operator on the data behind the one is in
/// front of it what it is in front of the other.
pub proof fn law_lowering_rounds_keeps_values(
    schedule: SecSchedule,
    s: Seq<GateModel<usize>>,
    base: int,
    o: Operator<usize>,
)
    requires
        rounds_measurable(s, base),
        on_data(o, base),
    ensures
        behind(unrolled(all_replaced(schedule, s, base)), o) == behind(unrolled(s), o),
{
    lemma_all_lowered(schedule, s, base);
}

/// Checks whose conflicts take two classes can be staggered.
pub proof fn law_two_conflict_classes_can_be_staggered(checks: Seq<SignedPauli<usize>>)
    requires
        ({
            let classes = class_colors(meeting(checks, true), checks.len());
            &&& classes.len() == checks.len()
            &&& forall|j: int| 0 <= j < classes.len() ==> 0 <= #[trigger] classes[j] <= 1
        }),
    ensures
        staggerable(checks, class_colors(meeting(checks, true), checks.len())),
{
    let m = checks.len();
    let adj = meeting(checks, true);
    let classes = class_colors(adj, m);
    assert forall|i: int, j: int| #[trigger] checks_meet(checks, true, i, j) implies classes[i]
        != classes[j] by {
        if i < j {
            assert(adj(i, j));
            law_classes_are_proper(adj, m, i, j);
        } else {
            let (x, y) = choose|x: int, y: int|
                sites_meet(
                    acts(checks, i),
                    acts(checks, j),
                    true,
                    x,
                    y,
                );
            assert(sites_meet(
                acts(checks, j),
                acts(checks, i),
                true,
                y,
                x,
            ));
            assert(adj(j, i));
            law_classes_are_proper(adj, m, j, i);
        }
    }
}

} // verus!
