//! A staggered segment measures its checks: taken apart, its rounds are rounds of the one
//! class and rounds of the other in turn.

use vstd::prelude::*;

#[allow(unused_imports)]
use crate::commuting::{
    all_simple, flat, lemma_flat_layers_add, lemma_flat_one, lemma_layered_flat, lemma_same_add,
    lemma_same_chain, lemma_side_by_side, lemma_swap, on_other_qubits, on_others, same_values,
    simple,
};
#[allow(unused_imports)]
use crate::completeness::{
    law_buckets_hold_every_site, lemma_occurs_add, lemma_part_occurs, lemma_round_occurs, occurs,
};
#[allow(unused_imports)]
use crate::extraction::law_segment_round_records;
#[allow(unused_imports)]
use crate::layers::{lemma_bucket_at, uses};
#[allow(unused_imports)]
use crate::pbc::{pauli_at, Pauli, SignedPauli};
#[allow(unused_imports)]
use crate::physical::{record_total, GateModel};
#[allow(unused_imports)]
use crate::records::{
    law_records_are_counted, lemma_all_recorders, lemma_no_recorders, lemma_recorders_add,
    lemma_unrolled_add, lemma_unrolled_flat, makes_one, recorders, repeated, unrolled,
    unrolled_gate,
};
#[allow(unused_imports)]
use crate::sec_schedule::{
    acts, bucket_at, bucket_layers, check_sites, checks_meet, class_rank, controlled_layer, layered,
    left_qubits, lemma_two_classes, measure_layer, members, part_sites, phase_buckets,
    record_position, reset_layer, round_sites, seg_model, SegModel, Site,
};
#[allow(unused_imports)]
use crate::syndrome::{
    group_sites, holds_round, in_front, joined_lists, lemma_absent, lemma_checks_agree,
    lemma_group_occurs, lemma_joined_occurs, lemma_layered_add, lemma_products, lemma_round_drawn,
    lemma_round_lifted, measurable, on_data, products,
};
#[allow(unused_imports)]
use crate::values::{
    alone, behind, behind_controlled, behind_gate, clashes_with, lemma_behind_add, operator_of,
    records_value, without, Operator,
};

verus! {

// ---------------------------------------------------------------------------
// A round of one class
// ---------------------------------------------------------------------------
/// The checks of a class.
pub open spec fn class_set(classes: Seq<int>, c: int) -> Set<int> {
    Set::new(|j: int| 0 <= j < classes.len() && classes[j] == c)
}

/// The members of a class are its checks, in order.
proof fn lemma_members_are(classes: Seq<int>, c: int, n: nat)
    requires
        n <= classes.len(),
    ensures
        forall|j: int| #[trigger]
            members(classes, c, n).contains(j) <==> 0 <= j < n && classes[j] == c,
        forall|i: int|
            0 <= i < members(classes, c, n).len() ==> 0 <= #[trigger] members(classes, c, n)[i] < n,
    decreases n,
{
    if n > 0 {
        let k = (n - 1) as nat;
        lemma_members_are(classes, c, k);
        let before = members(classes, c, k);
        let now = members(classes, c, n);
        assert forall|j: int| #[trigger] now.contains(j) <==> 0 <= j < n && classes[j] == c by {
            if now.contains(j) {
                let i = now.index_of(j);
                assert(now[i] == j);
                if i < before.len() {
                    assert(before[i] == j);
                    assert(before.contains(j));
                }
            }
            if before.contains(j) {
                assert(now[before.index_of(j)] == j);
            }
            if j == n - 1 && classes[j] == c {
                assert(now[before.len() as int] == j);
            }
        }
    }
}

/// The operator without its factors on the ancillas of some checks.
spec fn emptied(o: Operator<usize>, base: int, g: Seq<int>) -> Operator<usize> {
    Operator {
        sign: o.sign,
        at: |x: usize|
            if g.contains(x - base) {
                Pauli::I
            } else {
                (o.at)(x)
            },
    }
}

/// Behind the resets of some ancillas, these have X of value 1 and no Z.
proof fn lemma_group_resets(g: Seq<int>, m: nat, base: int, o: Operator<usize>)
    requires
        0 <= base,
        base + m <= usize::MAX,
        forall|i: int| 0 <= i < g.len() ==> 0 <= #[trigger] g[i] < m,
    ensures
        (forall|j: int| #[trigger]
            g.contains(j) ==> !(o.at)((base + j) as usize).anticommutes(Pauli::X)) ==> behind(
            reset_layer(g, base),
            o,
        ) == Some(emptied(o, base, g)),
        (exists|j: int| #[trigger]
            g.contains(j) && (o.at)((base + j) as usize).anticommutes(Pauli::X)) ==> behind(
            reset_layer(g, base),
            o,
        ) is None,
    decreases g.len(),
{
    let gates = reset_layer(g, base);
    if g.len() == 0 {
        assert(emptied(o, base, g).at =~= o.at);
        assert(emptied(o, base, g) =~= o);
    } else {
        let h = g.drop_last();
        let last = g.last();
        assert(0 <= g[g.len() - 1] < m);
        assert(g.contains(last));
        let q = (base + last) as usize;
        assert(gates.drop_last() =~= reset_layer(h, base));
        assert(gates.last() == GateModel::<usize>::Reset(Pauli::X, q));
        assert forall|i: int| 0 <= i < h.len() implies 0 <= #[trigger] h[i] < m by {
            assert(0 <= g[i] < m);
        }
        assert forall|j: int| #[trigger] g.contains(j) <==> h.contains(j) || j == last by {
            if g.contains(j) && j != last {
                assert(g[g.index_of(j)] == j);
                assert(h[g.index_of(j)] == j);
            }
            if h.contains(j) {
                assert(g[h.index_of(j)] == j);
            }
        }
        assert forall|j: int| #[trigger] h.contains(j) implies 0 <= j < m by {
            assert(0 <= h[h.index_of(j)] < m);
        }
        if !(o.at)(q).anticommutes(Pauli::X) {
            let n = if (o.at)(q) is I {
                o
            } else {
                without(o, q)
            };
            assert(behind_gate(gates.last(), o) == Some(n));
            lemma_group_resets(h, m, base, n);
            let a = emptied(o, base, g);
            let b = emptied(n, base, h);
            assert forall|x: usize| #[trigger] (a.at)(x) == (b.at)(x) by {
                if x == q {
                    assert(x - base == last);
                } else {
                    assert(x - base != last);
                }
            }
            assert(a.at =~= b.at);
            assert(a =~= b);
            if forall|j: int| #[trigger]
                g.contains(j) ==> !(o.at)((base + j) as usize).anticommutes(Pauli::X) {
                assert forall|j: int| #[trigger] h.contains(j) implies !(n.at)(
                    (base + j) as usize,
                ).anticommutes(Pauli::X) by {
                    assert(g.contains(j));
                }
            }
            if exists|j: int| #[trigger]
                g.contains(j) && (o.at)((base + j) as usize).anticommutes(Pauli::X) {
                let j = choose|j: int| #[trigger]
                    g.contains(j) && (o.at)((base + j) as usize).anticommutes(Pauli::X);
                assert(j != last);
                assert(h.contains(j));
                assert((base + j) as usize != q);
                assert((n.at)((base + j) as usize).anticommutes(Pauli::X));
            }
        }
    }
}

/// Measuring some ancillas keeps what commutes with X on them.
proof fn lemma_group_measures(
    checks: Seq<SignedPauli<usize>>,
    g: Seq<int>,
    base: int,
    o: Operator<usize>,
)
    requires
        forall|i: int|
            0 <= i < g.len() ==> !(o.at)((base + #[trigger] g[i]) as usize).anticommutes(Pauli::X),
    ensures
        behind(measure_layer(checks, g, base), o) == Some(o),
    decreases g.len(),
{
    let gates = measure_layer(checks, g, base);
    if g.len() > 0 {
        let h = g.drop_last();
        assert(gates.drop_last() =~= measure_layer(checks, h, base));
        assert(!(o.at)((base + g[g.len() - 1]) as usize).anticommutes(Pauli::X));
        assert forall|i: int| 0 <= i < h.len() implies !(o.at)(
            (base + #[trigger] h[i]) as usize,
        ).anticommutes(Pauli::X) by {
            assert(!(o.at)((base + g[i]) as usize).anticommutes(Pauli::X));
        }
        lemma_group_measures(checks, h, base, o);
    }
}

/// A class that can be measured on its own: the list has its sites.
spec fn holds_class(
    s: Seq<Site>,
    checks: Seq<SignedPauli<usize>>,
    classes: Seq<int>,
    c: int,
    base: int,
) -> bool {
    &&& measurable(checks, base)
    &&& classes.len() == checks.len()
    &&& holds_round(s, checks, class_set(classes, c))
}

/// The readout of a check of the class, followed back through its round.
#[verifier::spinoff_prover]
proof fn lemma_class_reads(
    s: Seq<Site>,
    checks: Seq<SignedPauli<usize>>,
    classes: Seq<int>,
    c: int,
    base: int,
    j: int,
)
    requires
        holds_class(s, checks, classes, c, base),
        0 <= j < checks.len(),
        classes[j] == c,
    ensures
        behind(
            reset_layer(members(classes, c, checks.len()), base) + controlled_layer(s, base),
            alone(checks[j].sign, (base + j) as usize, Pauli::X),
        ) == Some(operator_of(checks[j])),
{
    let m = checks.len();
    let g = members(classes, c, m);
    let who = class_set(classes, c);
    let q = (base + j) as usize;
    let sign = checks[j].sign;
    let o = alone(sign, q, Pauli::X);
    lemma_members_are(classes, c, m);
    lemma_behind_add(reset_layer(g, base), controlled_layer(s, base), o);
    lemma_round_drawn(s, checks, who, base, j, sign);
    let n = Operator {
        sign,
        at: |x: usize|
            if x == q {
                Pauli::X
            } else {
                pauli_at(checks[j].sites, x)
            },
    };
    assert(behind(controlled_layer(s, base), o) == Some(n));
    assert forall|i: int| #[trigger] g.contains(i) implies !(n.at)(
        (base + i) as usize,
    ).anticommutes(Pauli::X) by {
        if i != j {
            lemma_absent(checks, base, j, (base + i) as usize);
        }
    }
    lemma_group_resets(g, m, base, n);
    let done = emptied(n, base, g);
    let goal = operator_of(checks[j]);
    assert forall|x: usize| #[trigger] (done.at)(x) == (goal.at)(x) by {
        if x >= base {
            lemma_absent(checks, base, j, x);
            if x == q {
                assert(g.contains(x - base));
            }
        } else {
            assert(!g.contains(x - base));
        }
    }
    assert(done.at =~= goal.at);
    assert(done =~= goal);
}

/// The operator commutes with the checks of the class.
spec fn commutes_with(
    o: Operator<usize>,
    checks: Seq<SignedPauli<usize>>,
    classes: Seq<int>,
    c: int,
) -> bool {
    forall|j: int|
        0 <= j < checks.len() && classes[j] == c ==> clashes_with(
            o,
            (#[trigger] checks[j]).sites,
        ) % 2 == 0
}

/// What a round of a class leaves of the data.
#[verifier::spinoff_prover]
proof fn lemma_class_keeps(
    s: Seq<Site>,
    checks: Seq<SignedPauli<usize>>,
    classes: Seq<int>,
    c: int,
    base: int,
    o: Operator<usize>,
)
    requires
        holds_class(s, checks, classes, c, base),
        on_data(o, base),
    ensures
        behind(
            reset_layer(members(classes, c, checks.len()), base) + controlled_layer(s, base)
                + measure_layer(checks, members(classes, c, checks.len()), base),
            o,
        ) == if commutes_with(o, checks, classes, c) {
            Some(o)
        } else {
            None
        },
{
    let m = checks.len();
    let g = members(classes, c, m);
    let who = class_set(classes, c);
    let first = reset_layer(g, base);
    let mid = controlled_layer(s, base);
    let last = measure_layer(checks, g, base);
    lemma_members_are(classes, c, m);
    lemma_behind_add(first + mid, last, o);
    lemma_behind_add(first, mid, o);
    assert forall|i: int| 0 <= i < g.len() implies !(o.at)(
        (base + #[trigger] g[i]) as usize,
    ).anticommutes(Pauli::X) by {
        assert(0 <= g[i] < m);
        assert((o.at)((base + g[i]) as usize) is I);
    }
    lemma_group_measures(checks, g, base, o);
    lemma_round_lifted(s, checks, who, base, o);
    let n = Operator {
        sign: o.sign,
        at: |x: usize|
            if base <= x < base + m && who.contains(x - base) && clashes_with(
                o,
                checks[x - base].sites,
            ) % 2 == 1 {
                Pauli::Z
            } else {
                (o.at)(x)
            },
    };
    assert(behind(mid, o) == Some(n));
    lemma_group_resets(g, m, base, n);
    if commutes_with(o, checks, classes, c) {
        assert forall|j: int| #[trigger] g.contains(j) implies !(n.at)(
            (base + j) as usize,
        ).anticommutes(Pauli::X) by {
            assert(clashes_with(o, checks[j].sites) % 2 == 0);
            assert((o.at)((base + j) as usize) is I);
        }
        let done = emptied(n, base, g);
        assert forall|x: usize| #[trigger] (done.at)(x) == (o.at)(x) by {
            if x >= base {
                assert((o.at)(x) is I);
                if x < base + m && who.contains(x - base) {
                    assert(clashes_with(o, checks[x - base].sites) % 2 == 0);
                }
            } else {
                assert(!g.contains(x - base));
            }
        }
        assert(done.at =~= o.at);
        assert(done =~= o);
    } else {
        let j = choose|j: int|
            0 <= j < checks.len() && classes[j] == c && clashes_with(
                o,
                (#[trigger] checks[j]).sites,
            ) % 2 != 0;
        assert(g.contains(j));
        assert(who.contains(j));
        assert((n.at)((base + j) as usize).anticommutes(Pauli::X));
    }
}

// ---------------------------------------------------------------------------
// The parts of a segment
// ---------------------------------------------------------------------------
/// The classes can be staggered: there are two, and conflicting checks are in different ones.
pub open spec fn staggerable(checks: Seq<SignedPauli<usize>>, classes: Seq<int>) -> bool {
    &&& classes.len() == checks.len()
    &&& forall|j: int| 0 <= j < classes.len() ==> 0 <= #[trigger] classes[j] <= 1
    &&& forall|i: int, j: int| #[trigger]
        checks_meet(checks, true, i, j) ==> classes[i] != classes[j]
}

/// The sites of a class on one side.
spec fn side_list(checks: Seq<SignedPauli<usize>>, classes: Seq<int>, c: int, left: bool) -> Seq<
    Site,
> {
    joined_lists(phase_buckets(checks, classes, c, left))
}

spec fn left_of(checks: Seq<SignedPauli<usize>>, classes: Seq<int>) -> Set<usize> {
    left_qubits(round_sites(checks, checks.len()), classes)
}

proof fn lemma_side_occurs(
    checks: Seq<SignedPauli<usize>>,
    classes: Seq<int>,
    c: int,
    left: bool,
    x: Site,
)
    ensures
        occurs(side_list(checks, classes, c, left), x) == if classes[x.0 as int] == c && left
            == left_of(checks, classes).contains(x.1) {
            occurs(round_sites(checks, checks.len()), x)
        } else {
            0
        },
{
    let m = checks.len();
    let all = round_sites(checks, m);
    let sides = left_of(checks, classes);
    let bs = phase_buckets(checks, classes, c, left);
    lemma_joined_occurs(bs, x);
    law_buckets_hold_every_site(part_sites(all, classes, sides, c, Some(left)), m, x);
    lemma_part_occurs(all, classes, sides, c, Some(left), x);
}

/// Both sides of a class, one after the other in either order, hold the class.
proof fn lemma_holds_class(
    checks: Seq<SignedPauli<usize>>,
    classes: Seq<int>,
    c: int,
    base: int,
    first: bool,
)
    requires
        measurable(checks, base),
        staggerable(checks, classes),
    ensures
        holds_class(
            side_list(checks, classes, c, first) + side_list(checks, classes, c, !first),
            checks,
            classes,
            c,
            base,
        ),
{
    let m = checks.len();
    let a = side_list(checks, classes, c, first);
    let b = side_list(checks, classes, c, !first);
    let s = a + b;
    let who = class_set(classes, c);
    assert forall|x: Site| #[trigger] occurs(s, x) == occurs(group_sites(checks, who, m), x) by {
        lemma_occurs_add(a, b, x);
        lemma_side_occurs(checks, classes, c, first, x);
        lemma_side_occurs(checks, classes, c, !first, x);
        lemma_group_occurs(checks, who, m, x);
        lemma_round_occurs(checks, m, x);
    }
    assert forall|i: int, j: int| #[trigger] checks_meet(checks, true, i, j) implies in_front(
        s,
        i,
        j,
    ) || in_front(s, j, i) by {
        assert(classes[i] != classes[j]);
        if classes[i] != c {
            lemma_no_sites(s, checks, who, i);
        } else {
            lemma_no_sites(s, checks, who, j);
        }
    }
}

proof fn lemma_no_sites(
    s: Seq<Site>,
    checks: Seq<SignedPauli<usize>>,
    who: Set<int>,
    i: int,
)
    requires
        checks.len() <= usize::MAX,
        !who.contains(i),
        forall|x: Site| #[trigger]
            occurs(s, x) == occurs(group_sites(checks, who, checks.len()), x),
    ensures
        forall|a: int| 0 <= a < s.len() ==> (#[trigger] s[a]).0 != i,
{
    assert forall|a: int| 0 <= a < s.len() implies (#[trigger] s[a]).0 != i by {
        lemma_occurs_here(s, a);
        lemma_group_occurs(checks, who, checks.len(), s[a]);
        assert(occurs(s, s[a]) == occurs(group_sites(checks, who, checks.len()), s[a]));
    }
}

proof fn lemma_occurs_here(s: Seq<Site>, k: int)
    requires
        0 <= k < s.len(),
    ensures
        occurs(s, s[k]) >= 1,
    decreases s.len(),
{
    if k < s.len() - 1 {
        lemma_occurs_here(s.drop_last(), k);
    }
}

// ---------------------------------------------------------------------------
// Where the parts act
// ---------------------------------------------------------------------------
/// All qubits that the gates use are in the zone, and the gates are simple.
spec fn within(s: Seq<GateModel<usize>>, zone: Set<usize>) -> bool {
    &&& all_simple(s)
    &&& forall|i: int, q: usize|
        0 <= i < s.len() && #[trigger] uses(s[i], q) ==> zone.contains(q)
}

proof fn lemma_within_add(
    a: Seq<GateModel<usize>>,
    b: Seq<GateModel<usize>>,
    zone: Set<usize>,
)
    requires
        within(a, zone),
        within(b, zone),
    ensures
        within(a + b, zone),
{
    let s = a + b;
    assert forall|i: int| 0 <= i < s.len() implies simple(#[trigger] s[i]) by {
        if i < a.len() {
            assert(simple(a[i]));
        } else {
            assert(simple(b[i - a.len()]));
        }
    }
    assert forall|i: int, q: usize| 0 <= i < s.len() && #[trigger] uses(s[i], q) implies zone.contains(
    q) by {
        if i < a.len() {
            assert(uses(a[i], q));
        } else {
            assert(uses(b[i - a.len()], q));
        }
    }
}

proof fn lemma_within_wider(s: Seq<GateModel<usize>>, zone: Set<usize>, wide: Set<usize>)
    requires
        within(s, zone),
        forall|q: usize| #[trigger] zone.contains(q) ==> wide.contains(q),
    ensures
        within(s, wide),
{
}

/// Gates in different zones change places.
proof fn lemma_zones_swap(
    a: Seq<GateModel<usize>>,
    x: Set<usize>,
    b: Seq<GateModel<usize>>,
    y: Set<usize>,
)
    requires
        within(a, x),
        within(b, y),
        forall|q: usize| !(#[trigger] x.contains(q) && y.contains(q)),
    ensures
        on_other_qubits(a, b),
        same_values(a + b, b + a),
{
    assert forall|i: int, j: int|
        #![trigger a[i], b[j]]
        0 <= i < a.len() && 0 <= j < b.len() implies on_others(a[i], b[j]) by {
        assert forall|q: usize| #[trigger] uses(a[i], q) implies !uses(b[j], q) by {
            assert(x.contains(q));
        }
    }
    lemma_swap(a, b);
}

/// Gates in a zone in which an operator has nothing leave it alone.
proof fn lemma_untouched(s: Seq<GateModel<usize>>, zone: Set<usize>, o: Operator<usize>)
    requires
        within(s, zone),
        forall|q: usize| zone.contains(q) ==> #[trigger] (o.at)(q) is I,
    ensures
        behind(s, o) == Some(o),
    decreases s.len(),
{
    if s.len() > 0 {
        let t = s.drop_last();
        let g = s.last();
        assert(simple(s[s.len() - 1]));
        assert(within(t, zone)) by {
            assert forall|i: int| 0 <= i < t.len() implies simple(#[trigger] t[i]) by {
                assert(simple(s[i]));
            }
            assert forall|i: int, q: usize|
                0 <= i < t.len() && #[trigger] uses(t[i], q) implies zone.contains(q) by {
                assert(uses(s[i], q));
            }
        }
        lemma_untouched(t, zone, o);
        match g {
            GateModel::Controlled(p, c, u) => {
                assert(uses(s[s.len() - 1], c));
                assert(uses(s[s.len() - 1], u));
                assert((o.at)(c) is I && (o.at)(u) is I);
                assert(behind_controlled(p, c, u, o) == o);
            },
            GateModel::Reset(_, q) => {
                assert(uses(s[s.len() - 1], q));
                assert((o.at)(q) is I);
            },
            GateModel::Measure(_, q, _) => {
                assert(uses(s[s.len() - 1], q));
                assert((o.at)(q) is I);
            },
            _ => {},
        }
    }
}

/// The ancillas of a class, and the data on one side, on the other, on both or on none.
spec fn zone(
    checks: Seq<SignedPauli<usize>>,
    classes: Seq<int>,
    base: int,
    c: int,
    left: bool,
    right: bool,
) -> Set<usize> {
    Set::new(
        |q: usize|
            if q >= base {
                q < base + checks.len() && classes[q - base] == c
            } else if left_of(checks, classes).contains(q) {
                left
            } else {
                right
            },
    )
}

proof fn lemma_resets_within(
    checks: Seq<SignedPauli<usize>>,
    classes: Seq<int>,
    base: int,
    c: int,
)
    requires
        0 <= base,
        base + checks.len() <= usize::MAX,
        classes.len() == checks.len(),
    ensures
        within(
            reset_layer(members(classes, c, checks.len()), base),
            zone(checks, classes, base, c, false, false),
        ),
        within(
            measure_layer(checks, members(classes, c, checks.len()), base),
            zone(checks, classes, base, c, false, false),
        ),
{
    let g = members(classes, c, checks.len());
    lemma_members_are(classes, c, checks.len());
    let z = zone(checks, classes, base, c, false, false);
    let a = reset_layer(g, base);
    let b = measure_layer(checks, g, base);
    assert forall|i: int, q: usize| 0 <= i < a.len() && #[trigger] uses(a[i], q) implies z.contains(
    q) by {
        assert(g.contains(g[i]));
    }
    assert forall|i: int, q: usize| 0 <= i < b.len() && #[trigger] uses(b[i], q) implies z.contains(
    q) by {
        assert(g.contains(g[i]));
    }
}

proof fn lemma_controlled_within(
    checks: Seq<SignedPauli<usize>>,
    classes: Seq<int>,
    base: int,
    c: int,
    left: bool,
    bs: Seq<Seq<Site>>,
)
    requires
        measurable(checks, base),
        staggerable(checks, classes),
        bs == phase_buckets(checks, classes, c, left),
    ensures
        within(
            controlled_layer(joined_lists(bs), base),
            zone(checks, classes, base, c, left, !left),
        ),
{
    let s = side_list(checks, classes, c, left);
    let z = zone(checks, classes, base, c, left, !left);
    let gates = controlled_layer(s, base);
    assert forall|i: int| 0 <= i < s.len() implies (#[trigger] s[i]).0 < checks.len() && s[i].1
        < base && classes[s[i].0 as int] == c && left_of(checks, classes).contains(s[i].1)
        == left by {
        lemma_occurs_here(s, i);
        lemma_side_occurs(checks, classes, c, left, s[i]);
        lemma_holds_class(checks, classes, c, base, left);
        lemma_site_below(checks, base, s[i]);
    }
    assert forall|i: int| 0 <= i < gates.len() implies simple(#[trigger] gates[i]) by {
        assert(s[i].0 < checks.len() && s[i].1 < base);
    }
    assert forall|i: int, q: usize| 0 <= i < gates.len() && #[trigger] uses(
        gates[i],
        q,
    ) implies z.contains(q) by {
        assert(s[i].0 < checks.len() && s[i].1 < base);
    }
}

/// A site of the round is one of a check, on the data.
proof fn lemma_site_below(checks: Seq<SignedPauli<usize>>, base: int, x: Site)
    requires
        measurable(checks, base),
        occurs(round_sites(checks, checks.len()), x) >= 1,
    ensures
        x.0 < checks.len(),
        x.1 < base,
{
    lemma_round_occurs(checks, checks.len(), x);
    let j = x.0 as int;
    let own = check_sites(checks, j);
    let k = lemma_occurs_where(own, x);
    assert(acts(checks, j)[k].0 < base);
}

proof fn lemma_occurs_where(s: Seq<Site>, x: Site) -> (k: int)
    requires
        occurs(s, x) >= 1,
    ensures
        0 <= k < s.len(),
        s[k] == x,
    decreases s.len(),
{
    if s.last() == x {
        s.len() - 1
    } else {
        lemma_occurs_where(s.drop_last(), x)
    }
}

// ---------------------------------------------------------------------------
// Blocks
// ---------------------------------------------------------------------------
/// Layers of buckets, and empty ones past their end.
proof fn lemma_flat_buckets(bs: Seq<Seq<Site>>, n: nat, base: int)
    requires
        bs.len() <= n,
    ensures
        flat(Seq::new(n, |k: int| bucket_at(bs, k, base))) == controlled_layer(
            joined_lists(bs),
            base,
        ),
    decreases n,
{
    let layers = Seq::new(n, |k: int| bucket_at(bs, k, base));
    if n == 0 {
        assert(flat(layers) =~= controlled_layer(joined_lists(bs), base));
    } else if bs.len() < n {
        let m = (n - 1) as nat;
        lemma_flat_buckets(bs, m, base);
        assert(layers.drop_last() =~= Seq::new(m, |k: int| bucket_at(bs, k, base)));
        assert(layers.last() =~= Seq::empty());
        assert(flat(layers) =~= flat(layers.drop_last()));
    } else {
        let m = (n - 1) as nat;
        let front = bs.drop_last();
        lemma_flat_buckets(front, m, base);
        assert(layers.drop_last() =~= Seq::new(m, |k: int| bucket_at(front, k, base)));
        assert(layers.last() == controlled_layer(bs.last(), base));
        assert(flat(layers) =~= controlled_layer(joined_lists(front), base) + controlled_layer(
            bs.last(),
            base,
        ));
        assert(controlled_layer(joined_lists(bs), base) =~= controlled_layer(
            joined_lists(front),
            base,
        ) + controlled_layer(bs.last(), base));
    }
}

/// The parts of a segment.
struct Parts {
    pub rs1: Seq<GateModel<usize>>,
    pub a1: Seq<GateModel<usize>>,
    pub b1: Seq<GateModel<usize>>,
    pub m1: Seq<GateModel<usize>>,
    pub rs2: Seq<GateModel<usize>>,
    pub a2: Seq<GateModel<usize>>,
    pub b2: Seq<GateModel<usize>>,
    pub m2: Seq<GateModel<usize>>,
}

spec fn parts_of(checks: Seq<SignedPauli<usize>>, classes: Seq<int>, base: int) -> Parts {
    let m = checks.len();
    Parts {
        rs1: reset_layer(members(classes, 0, m), base),
        a1: controlled_layer(side_list(checks, classes, 0, true), base),
        b1: controlled_layer(side_list(checks, classes, 0, false), base),
        m1: measure_layer(checks, members(classes, 0, m), base),
        rs2: reset_layer(members(classes, 1, m), base),
        a2: controlled_layer(side_list(checks, classes, 1, true), base),
        b2: controlled_layer(side_list(checks, classes, 1, false), base),
        m2: measure_layer(checks, members(classes, 1, m), base),
    }
}

/// Where each part acts.
proof fn lemma_parts_within(checks: Seq<SignedPauli<usize>>, classes: Seq<int>, base: int)
    requires
        measurable(checks, base),
        staggerable(checks, classes),
    ensures
        ({
            let p = parts_of(checks, classes, base);
            &&& within(p.rs1, zone(checks, classes, base, 0, false, false))
            &&& within(p.m1, zone(checks, classes, base, 0, false, false))
            &&& within(p.rs2, zone(checks, classes, base, 1, false, false))
            &&& within(p.m2, zone(checks, classes, base, 1, false, false))
            &&& within(p.a1, zone(checks, classes, base, 0, true, false))
            &&& within(p.b1, zone(checks, classes, base, 0, false, true))
            &&& within(p.a2, zone(checks, classes, base, 1, true, false))
            &&& within(p.b2, zone(checks, classes, base, 1, false, true))
        }),
{
    lemma_resets_within(checks, classes, base, 0);
    lemma_resets_within(checks, classes, base, 1);
    lemma_controlled_within(checks, classes, base, 0, true, phase_buckets(checks, classes, 0, true));
    lemma_controlled_within(
        checks,
        classes,
        base,
        0,
        false,
        phase_buckets(checks, classes, 0, false),
    );
    lemma_controlled_within(checks, classes, base, 1, true, phase_buckets(checks, classes, 1, true));
    lemma_controlled_within(
        checks,
        classes,
        base,
        1,
        false,
        phase_buckets(checks, classes, 1, false),
    );
}

/// What a block does before it measures the first class.
spec fn opening(seg: SegModel, prologue: bool) -> Seq<Seq<GateModel<usize>>> {
    seq![reset_layer(seg.g1, seg.base)] + Seq::new(
        seg.first_length(prologue),
        |k: int| seg.first_phase(k, prologue),
    ) + Seq::new(seg.second_length(), |k: int| seg.second_phase(k, prologue))
}

proof fn lemma_first_phase(
    checks: Seq<SignedPauli<usize>>,
    classes: Seq<int>,
    base: int,
    prologue: bool,
)
    requires
        measurable(checks, base),
        staggerable(checks, classes),
    ensures
        ({
            let seg = seg_model(checks, classes, base);
            let p = parts_of(checks, classes, base);
            let layers = Seq::new(
                seg.first_length(prologue),
                |k: int| seg.first_phase(k, prologue),
            );
            &&& prologue ==> flat(layers) == p.a1
            &&& !prologue ==> same_values(flat(layers), p.a1 + p.b2)
        }),
{
    let seg = seg_model(checks, classes, base);
    let p = parts_of(checks, classes, base);
    let n = seg.first_length(prologue);
    let layers = Seq::new(n, |k: int| seg.first_phase(k, prologue));
    let x = Seq::new(n, |k: int| bucket_at(seg.l1, k, base));
    lemma_flat_buckets(seg.l1, n, base);
    assert(flat(x) == p.a1);
    if prologue {
        assert forall|k: int| 0 <= k < n implies layers[k] =~= x[k] by {}
        assert(layers =~= x);
    } else {
        let y = Seq::new(n, |k: int| bucket_at(seg.r2, k, base));
        lemma_flat_buckets(seg.r2, n, base);
        assert(flat(y) == p.b2);
        lemma_parts_within(checks, classes, base);
        lemma_zones_swap(
            p.a1,
            zone(checks, classes, base, 0, true, false),
            p.b2,
            zone(checks, classes, base, 1, false, true),
        );
        lemma_side_by_side(x, y);
        let both = Seq::new(x.len(), |k: int| x[k] + y[k]);
        assert forall|k: int| 0 <= k < n implies layers[k] =~= both[k] by {}
        assert(layers =~= both);
    }
}

/// What the second class does in the second phase.
spec fn turnover(p: Parts, prologue: bool) -> Seq<GateModel<usize>> {
    if prologue {
        p.rs2 + p.a2
    } else {
        p.m2 + (p.rs2 + p.a2)
    }
}

proof fn lemma_second_phase(
    checks: Seq<SignedPauli<usize>>,
    classes: Seq<int>,
    base: int,
    prologue: bool,
)
    requires
        measurable(checks, base),
        staggerable(checks, classes),
    ensures
        ({
            let seg = seg_model(checks, classes, base);
            let p = parts_of(checks, classes, base);
            let layers = Seq::new(seg.second_length(), |k: int| seg.second_phase(k, prologue));
            same_values(flat(layers), p.b1 + turnover(p, prologue))
        }),
{
    let seg = seg_model(checks, classes, base);
    let p = parts_of(checks, classes, base);
    let n = seg.second_length();
    let layers = Seq::new(n, |k: int| seg.second_phase(k, prologue));
    let x = Seq::new(n, |k: int| bucket_at(seg.r1, k, base));
    lemma_flat_buckets(seg.r1, n, base);
    assert(flat(x) == p.b1);
    let none = Seq::<GateModel<usize>>::empty();
    let start = if prologue {
        none
    } else {
        p.m2
    };
    let rest = Seq::new((n - 2) as nat, |k: int| bucket_at(seg.l2, k, base));
    let y = seq![start] + seq![p.rs2] + rest;
    lemma_flat_buckets(seg.l2, (n - 2) as nat, base);
    lemma_flat_layers_add(seq![start] + seq![p.rs2], rest);
    lemma_flat_layers_add(seq![start], seq![p.rs2]);
    lemma_flat_one(start);
    lemma_flat_one(p.rs2);
    assert(flat(y) =~= turnover(p, prologue));
    lemma_parts_within(checks, classes, base);
    let z = zone(checks, classes, base, 1, true, false);
    lemma_within_wider(p.rs2, zone(checks, classes, base, 1, false, false), z);
    lemma_within_wider(p.m2, zone(checks, classes, base, 1, false, false), z);
    lemma_within_add(p.rs2, p.a2, z);
    lemma_within_add(p.m2, p.rs2 + p.a2, z);
    assert(within(flat(y), z));
    lemma_zones_swap(p.b1, zone(checks, classes, base, 0, false, true), flat(y), z);
    lemma_side_by_side(x, y);
    let both = Seq::new(x.len(), |k: int| x[k] + y[k]);
    assert forall|k: int| 0 <= k < n implies layers[k] =~= both[k] by {
        if k >= 2 {
            assert(y[k] == rest[k - 2]);
        }
    }
    assert(layers =~= both);
}

/// The first class alone, before it is measured.
spec fn first_class(p: Parts) -> Seq<GateModel<usize>> {
    p.rs1 + (p.a1 + p.b1)
}

/// The block before its last layer: what is left of the second class, the first class, and
/// what begins of the second.
#[verifier::spinoff_prover]
proof fn lemma_opening(
    checks: Seq<SignedPauli<usize>>,
    classes: Seq<int>,
    base: int,
    prologue: bool,
)
    requires
        measurable(checks, base),
        staggerable(checks, classes),
    ensures
        ({
            let p = parts_of(checks, classes, base);
            let seg = seg_model(checks, classes, base);
            &&& prologue ==> same_values(
                flat(opening(seg, prologue)),
                first_class(p) + (p.rs2 + p.a2),
            )
            &&& !prologue ==> same_values(
                flat(opening(seg, prologue)),
                (p.b2 + p.m2) + (first_class(p) + (p.rs2 + p.a2)),
            )
        }),
{
    let p = parts_of(checks, classes, base);
    let seg = seg_model(checks, classes, base);
    let one = Seq::new(seg.first_length(prologue), |k: int| seg.first_phase(k, prologue));
    let two = Seq::new(seg.second_length(), |k: int| seg.second_phase(k, prologue));
    let f = flat(one);
    let g = flat(two);
    lemma_flat_layers_add(seq![p.rs1] + one, two);
    lemma_flat_layers_add(seq![p.rs1], one);
    lemma_flat_one(p.rs1);
    let all = flat(opening(seg, prologue));
    assert(all == p.rs1 + f + g);
    lemma_first_phase(checks, classes, base, prologue);
    lemma_second_phase(checks, classes, base, prologue);
    if prologue {
        lemma_same_add(p.rs1 + f, p.rs1 + f, g, p.b1 + turnover(p, prologue));
        assert((p.rs1 + p.a1) + (p.b1 + (p.rs2 + p.a2)) =~= first_class(p) + (p.rs2 + p.a2));
    } else {
        lemma_parts_within(checks, classes, base);
        let h = p.rs2 + p.a2;
        let x = p.rs1 + p.a1;
        let zl = zone(checks, classes, base, 0, true, false);
        let za = zone(checks, classes, base, 0, true, true);
        let z1 = zone(checks, classes, base, 0, false, false);
        lemma_within_wider(p.rs1, z1, zl);
        lemma_within_add(p.rs1, p.a1, zl);
        lemma_zones_swap(x, zl, p.b2, zone(checks, classes, base, 1, false, true));
        lemma_within_wider(x, zl, za);
        lemma_within_wider(p.b1, zone(checks, classes, base, 0, false, true), za);
        lemma_within_add(x, p.b1, za);
        lemma_zones_swap(x + p.b1, za, p.m2, zone(checks, classes, base, 1, false, false));
        // rs1 + f + g
        lemma_same_add(p.rs1, p.rs1, f, p.a1 + p.b2);
        lemma_same_add(p.rs1 + f, p.rs1 + (p.a1 + p.b2), g, p.b1 + (p.m2 + h));
        let s1 = (p.rs1 + (p.a1 + p.b2)) + (p.b1 + (p.m2 + h));
        // the rest of the second class goes first
        lemma_same_add(x + p.b2, p.b2 + x, p.b1 + (p.m2 + h), p.b1 + (p.m2 + h));
        assert(s1 =~= (x + p.b2) + (p.b1 + (p.m2 + h)));
        let s2 = (p.b2 + x) + (p.b1 + (p.m2 + h));
        lemma_same_chain(all, s1, s2);
        // and its measurement behind it
        lemma_same_add(p.b2, p.b2, (x + p.b1) + p.m2, p.m2 + (x + p.b1));
        lemma_same_add(
            p.b2 + ((x + p.b1) + p.m2),
            p.b2 + (p.m2 + (x + p.b1)),
            h,
            h,
        );
        assert(s2 =~= (p.b2 + ((x + p.b1) + p.m2)) + h);
        let s3 = (p.b2 + (p.m2 + (x + p.b1))) + h;
        lemma_same_chain(all, s2, s3);
        assert(s3 =~= (p.b2 + p.m2) + (first_class(p) + h));
    }
}

/// What a block does: the first class in full, and what begins of the second.
spec fn kernel(p: Parts) -> Seq<GateModel<usize>> {
    (first_class(p) + p.m1) + (p.rs2 + p.a2)
}

/// A block is its kernel, behind what is left of the second class.
#[verifier::spinoff_prover]
proof fn lemma_block(
    checks: Seq<SignedPauli<usize>>,
    classes: Seq<int>,
    base: int,
    prologue: bool,
)
    requires
        measurable(checks, base),
        staggerable(checks, classes),
    ensures
        ({
            let p = parts_of(checks, classes, base);
            let seg = seg_model(checks, classes, base);
            &&& prologue ==> same_values(layered(seg.round_layers(prologue)), kernel(p))
            &&& !prologue ==> same_values(
                layered(seg.round_layers(prologue)),
                (p.b2 + p.m2) + kernel(p),
            )
        }),
{
    let p = parts_of(checks, classes, base);
    let seg = seg_model(checks, classes, base);
    let all = seg.round_layers(prologue);
    lemma_layered_flat(all);
    assert(all =~= opening(seg, prologue) + seq![p.m1]);
    lemma_flat_layers_add(opening(seg, prologue), seq![p.m1]);
    lemma_flat_one(p.m1);
    lemma_opening(checks, classes, base, prologue);
    lemma_parts_within(checks, classes, base);
    let h = p.rs2 + p.a2;
    let z = zone(checks, classes, base, 1, true, false);
    lemma_within_wider(p.rs2, zone(checks, classes, base, 1, false, false), z);
    lemma_within_add(p.rs2, p.a2, z);
    lemma_zones_swap(h, z, p.m1, zone(checks, classes, base, 0, false, false));
    lemma_same_add(first_class(p), first_class(p), h + p.m1, p.m1 + h);
    assert(first_class(p) + (p.m1 + h) =~= kernel(p));
    let fl = flat(opening(seg, prologue));
    if prologue {
        lemma_same_add(fl, first_class(p) + h, p.m1, p.m1);
        assert((first_class(p) + h) + p.m1 =~= first_class(p) + (h + p.m1));
        lemma_same_chain(fl + p.m1, first_class(p) + (h + p.m1), kernel(p));
        lemma_same_chain(layered(all), fl + p.m1, kernel(p));
    } else {
        let t = p.b2 + p.m2;
        lemma_same_add(fl, t + (first_class(p) + h), p.m1, p.m1);
        lemma_same_add(t, t, first_class(p) + (h + p.m1), kernel(p));
        assert((t + (first_class(p) + h)) + p.m1 =~= t + (first_class(p) + (h + p.m1)));
        lemma_same_chain(fl + p.m1, t + (first_class(p) + (h + p.m1)), t + kernel(p));
        lemma_same_chain(layered(all), fl + p.m1, t + kernel(p));
    }
}

/// The end of a segment is what is left of the second class.
proof fn lemma_end(checks: Seq<SignedPauli<usize>>, classes: Seq<int>, base: int)
    ensures
        ({
            let p = parts_of(checks, classes, base);
            same_values(
                layered(seg_model(checks, classes, base).epilogue_layers()),
                p.b2 + p.m2,
            )
        }),
{
    let p = parts_of(checks, classes, base);
    let seg = seg_model(checks, classes, base);
    let all = seg.epilogue_layers();
    let ls = bucket_layers(seg.r2, base);
    lemma_layered_flat(all);
    lemma_flat_layers_add(ls, seq![p.m2]);
    lemma_flat_one(p.m2);
    lemma_flat_buckets(seg.r2, seg.r2.len(), base);
    assert(ls =~= Seq::new(seg.r2.len(), |k: int| bucket_at(seg.r2, k, base)));
}

// ---------------------------------------------------------------------------
// The whole segment
// ---------------------------------------------------------------------------
/// The first `n` blocks of a segment, written out.
spec fn blocks(seg: SegModel, n: int) -> Seq<GateModel<usize>>
    decreases n,
{
    if n <= 0 {
        Seq::empty()
    } else if n == 1 {
        layered(seg.round_layers(true))
    } else if n == 2 {
        blocks(seg, 1) + (layered(seg.round_layers(false)) + seg.g1_detectors())
    } else {
        blocks(seg, n - 1) + seg.steady_body()
    }
}

/// Nothing in the gates repeats.
pub(crate) open spec fn no_repeats(s: Seq<GateModel<usize>>) -> bool {
    forall|i: int| 0 <= i < s.len() ==> !((#[trigger] s[i]) is Repeat)
}

pub(crate) proof fn lemma_layered_plain(layers: Seq<Seq<GateModel<usize>>>)
    requires
        forall|k: int| 0 <= k < layers.len() ==> no_repeats(#[trigger] layers[k]),
    ensures
        no_repeats(layered(layers)),
    decreases layers.len(),
{
    if layers.len() > 0 {
        let front = layers.drop_last();
        assert forall|k: int| 0 <= k < front.len() implies no_repeats(#[trigger] front[k]) by {
            assert(no_repeats(layers[k]));
        }
        lemma_layered_plain(front);
        assert(no_repeats(layers[layers.len() - 1]));
    }
}

proof fn lemma_blocks_plain(seg: SegModel)
    ensures
        no_repeats(layered(seg.round_layers(true))),
        no_repeats(layered(seg.round_layers(false))),
        no_repeats(layered(seg.epilogue_layers())),
        no_repeats(seg.steady_body()),
{
    let a = seg.round_layers(true);
    let b = seg.round_layers(false);
    let c = seg.epilogue_layers();
    assert forall|k: int| 0 <= k < a.len() implies no_repeats(#[trigger] a[k]) by {}
    assert forall|k: int| 0 <= k < b.len() implies no_repeats(#[trigger] b[k]) by {}
    assert forall|k: int| 0 <= k < c.len() implies no_repeats(#[trigger] c[k]) by {}
    lemma_layered_plain(a);
    lemma_layered_plain(b);
    lemma_layered_plain(c);
}

proof fn lemma_blocks_repeated(seg: SegModel, n: nat)
    ensures
        blocks(seg, (n + 2) as int) == blocks(seg, 2) + repeated(seg.steady_body(), n),
    decreases n,
{
    if n == 0 {
        assert(blocks(seg, 2) + repeated(seg.steady_body(), n) =~= blocks(seg, 2));
    } else {
        lemma_blocks_repeated(seg, (n - 1) as nat);
        assert(blocks(seg, (n + 2) as int) =~= blocks(seg, 2) + repeated(seg.steady_body(), n));
    }
}

/// A segment written out: its blocks, and its end.
proof fn lemma_segment_unrolled(seg: SegModel, r: int)
    requires
        1 <= r <= usize::MAX,
    ensures
        unrolled(seg.gates(r)) == blocks(seg, r) + layered(seg.epilogue_layers()) + (if r >= 2 {
            seg.closing_detectors()
        } else {
            Seq::empty()
        }),
{
    let none = Seq::<GateModel<usize>>::empty();
    let p = layered(seg.round_layers(true));
    let s = if r >= 2 {
        layered(seg.round_layers(false)) + seg.g1_detectors()
    } else {
        none
    };
    let body = seg.steady_body();
    let g = GateModel::Repeat((r - 2) as usize, body);
    let t = if r >= 3 {
        seq![g]
    } else {
        none
    };
    let e = layered(seg.epilogue_layers());
    let d = if r >= 2 {
        seg.closing_detectors()
    } else {
        none
    };
    lemma_blocks_plain(seg);
    assert(seg.gates(r) == p + s + t + e + d);
    lemma_unrolled_add(p + s + t + e, d);
    lemma_unrolled_add(p + s + t, e);
    lemma_unrolled_add(p + s, t);
    lemma_unrolled_add(p, s);
    lemma_unrolled_flat(p);
    lemma_unrolled_flat(s);
    lemma_unrolled_flat(e);
    lemma_unrolled_flat(d);
    lemma_unrolled_flat(body);
    assert(blocks(seg, 1) == p);
    if r >= 3 {
        let n = (r - 2) as nat;
        assert(t.drop_last() =~= none);
        assert(unrolled(none) =~= none);
        assert(unrolled(t) == unrolled(t.drop_last()) + unrolled_gate(g));
        assert(unrolled_gate(g) == repeated(unrolled(body), n));
        assert(unrolled(t) =~= repeated(body, n));
        lemma_blocks_repeated(seg, n);
        assert(blocks(seg, 2) =~= p + s);
    } else {
        lemma_unrolled_flat(t);
        if r == 2 {
            assert(blocks(seg, 2) =~= p + s);
        }
    }
    assert(unrolled(seg.gates(r)) =~= blocks(seg, r) + e + d);
}

/// Declarations do nothing.
proof fn lemma_declarations(s: Seq<GateModel<usize>>)
    requires
        forall|i: int| 0 <= i < s.len() ==> (#[trigger] s[i]) is DeclareDetector,
    ensures
        same_values(s, Seq::empty()),
        recorders(s).len() == 0,
    decreases s.len(),
{
    lemma_no_recorders(s);
    if s.len() > 0 {
        let t = s.drop_last();
        assert forall|i: int| 0 <= i < t.len() implies (#[trigger] t[i]) is DeclareDetector by {
            assert(s[i] is DeclareDetector);
        }
        lemma_declarations(t);
        assert(s[s.len() - 1] is DeclareDetector);
        assert forall|o: Operator<usize>| #[trigger] behind(s, o) == behind(Seq::empty(), o) by {
            assert(behind(t, o) == behind(Seq::empty(), o));
        }
    }
}

proof fn lemma_then_nothing(
    a: Seq<GateModel<usize>>,
    c: Seq<GateModel<usize>>,
    s: Seq<GateModel<usize>>,
)
    requires
        same_values(a, c),
        same_values(s, Seq::empty()),
    ensures
        same_values(a + s, c),
{
    lemma_same_add(a, c, s, Seq::empty());
    assert(c + Seq::<GateModel<usize>>::empty() =~= c);
}

/// A round of the first class, and one of the second.
spec fn both_classes(p: Parts) -> Seq<GateModel<usize>> {
    (first_class(p) + p.m1) + ((p.rs2 + p.a2) + (p.b2 + p.m2))
}

/// The blocks are rounds of the two classes in turn, and the last of them leaves the second
/// class in the middle.
proof fn lemma_blocks(
    checks: Seq<SignedPauli<usize>>,
    classes: Seq<int>,
    base: int,
    n: int,
)
    requires
        measurable(checks, base),
        staggerable(checks, classes),
        1 <= n,
    ensures
        ({
            let p = parts_of(checks, classes, base);
            let seg = seg_model(checks, classes, base);
            same_values(
                blocks(seg, n),
                repeated(both_classes(p), (n - 1) as nat) + kernel(p),
            )
        }),
    decreases n,
{
    let p = parts_of(checks, classes, base);
    let seg = seg_model(checks, classes, base);
    let turn = both_classes(p);
    if n == 1 {
        lemma_block(checks, classes, base, true);
        assert(repeated(turn, 0) + kernel(p) =~= kernel(p));
    } else {
        lemma_blocks(checks, classes, base, n - 1);
        lemma_block(checks, classes, base, false);
        let s = layered(seg.round_layers(false));
        let t = p.b2 + p.m2;
        let head = repeated(turn, (n - 2) as nat);
        lemma_declarations(seg.g1_detectors());
        lemma_declarations(seg.g2_detectors());
        lemma_then_nothing(s, t + kernel(p), seg.g1_detectors());
        lemma_then_nothing(s + seg.g1_detectors(), t + kernel(p), seg.g2_detectors());
        let last = if n == 2 {
            s + seg.g1_detectors()
        } else {
            seg.steady_body()
        };
        assert(same_values(last, t + kernel(p)));
        lemma_same_add(blocks(seg, n - 1), head + kernel(p), last, t + kernel(p));
        assert(blocks(seg, n) == blocks(seg, n - 1) + last);
        assert((head + kernel(p)) + (t + kernel(p)) =~= (head + turn) + kernel(p));
        assert(repeated(turn, (n - 1) as nat) == head + turn);
    }
}

/// A list of two sides is their gates one after the other.
proof fn lemma_two_sides(checks: Seq<SignedPauli<usize>>, classes: Seq<int>, base: int, c: int)
    ensures
        controlled_layer(
            side_list(checks, classes, c, true) + side_list(checks, classes, c, false),
            base,
        ) == controlled_layer(side_list(checks, classes, c, true), base) + controlled_layer(
            side_list(checks, classes, c, false),
            base,
        ),
{
    let a = side_list(checks, classes, c, true);
    let b = side_list(checks, classes, c, false);
    assert(controlled_layer(a + b, base) =~= controlled_layer(a, base) + controlled_layer(b, base));
}

/// What a round of both classes leaves of the data.
#[verifier::spinoff_prover]
proof fn lemma_turn_keeps(
    checks: Seq<SignedPauli<usize>>,
    classes: Seq<int>,
    base: int,
    o: Operator<usize>,
)
    requires
        measurable(checks, base),
        staggerable(checks, classes),
        on_data(o, base),
    ensures
        ({
            let p = parts_of(checks, classes, base);
            &&& behind(both_classes(p), o) == behind(products(checks), o)
            &&& behind(both_classes(p), o) is Some ==> behind(both_classes(p), o) == Some(o)
            &&& commutes_with(o, checks, classes, 0) ==> behind(first_class(p) + p.m1, o) == Some(o)
            &&& (forall|j: int|
                0 <= j < checks.len() ==> clashes_with(o, (#[trigger] checks[j]).sites) % 2 == 0)
                ==> behind(both_classes(p), o) == Some(o)
        }),
{
    let m = checks.len();
    let p = parts_of(checks, classes, base);
    let a = first_class(p) + p.m1;
    let b = (p.rs2 + p.a2) + (p.b2 + p.m2);
    lemma_two_sides(checks, classes, base, 0);
    lemma_two_sides(checks, classes, base, 1);
    lemma_holds_class(checks, classes, 0, base, true);
    lemma_holds_class(checks, classes, 1, base, true);
    let s0 = side_list(checks, classes, 0, true) + side_list(checks, classes, 0, false);
    let s1 = side_list(checks, classes, 1, true) + side_list(checks, classes, 1, false);
    lemma_class_keeps(s0, checks, classes, 0, base, o);
    lemma_class_keeps(s1, checks, classes, 1, base, o);
    assert(a =~= p.rs1 + (p.a1 + p.b1) + p.m1);
    assert(b =~= p.rs2 + (p.a2 + p.b2) + p.m2);
    lemma_behind_add(a, b, o);
    lemma_products(checks, m as int, o);
    assert(products(checks).take(m as int) =~= products(checks));
    if commutes_with(o, checks, classes, 0) && commutes_with(o, checks, classes, 1) {
        assert forall|j: int| 0 <= j < m implies clashes_with(o, (#[trigger] checks[j]).sites) % 2
            == 0 by {
            assert(0 <= classes[j] <= 1);
        }
    } else {
        let c = if commutes_with(o, checks, classes, 0) {
            1int
        } else {
            0int
        };
        let j = choose|j: int|
            0 <= j < checks.len() && classes[j] == c && clashes_with(
                o,
                (#[trigger] checks[j]).sites,
            ) % 2 != 0;
        assert(clashes_with(o, checks[j].sites) % 2 == 1);
    }
}

proof fn lemma_turns_keep(
    checks: Seq<SignedPauli<usize>>,
    classes: Seq<int>,
    base: int,
    o: Operator<usize>,
    n: nat,
)
    requires
        measurable(checks, base),
        staggerable(checks, classes),
        on_data(o, base),
    ensures
        ({
            let p = parts_of(checks, classes, base);
            &&& n >= 1 ==> behind(repeated(both_classes(p), n), o) == behind(products(checks), o)
            &&& behind(both_classes(p), o) == Some(o) ==> behind(
                repeated(both_classes(p), n),
                o,
            ) == Some(o)
        }),
    decreases n,
{
    let turn = both_classes(parts_of(checks, classes, base));
    if n > 0 {
        lemma_turns_keep(checks, classes, base, o, (n - 1) as nat);
        lemma_turn_keeps(checks, classes, base, o);
        lemma_behind_add(repeated(turn, (n - 1) as nat), turn, o);
    }
}

/// A segment leaves the data as measuring the checks themselves leaves them.
pub proof fn law_segments_leave_measured_data(
    checks: Seq<SignedPauli<usize>>,
    classes: Seq<int>,
    base: int,
    r: int,
    o: Operator<usize>,
)
    requires
        measurable(checks, base),
        staggerable(checks, classes),
        1 <= r <= usize::MAX,
        on_data(o, base),
    ensures
        behind(unrolled(seg_model(checks, classes, base).gates(r)), o) == behind(
            products(checks),
            o,
        ),
{
    let p = parts_of(checks, classes, base);
    let seg = seg_model(checks, classes, base);
    let turn = both_classes(p);
    let e = layered(seg.epilogue_layers());
    let d = if r >= 2 {
        seg.closing_detectors()
    } else {
        Seq::empty()
    };
    lemma_segment_unrolled(seg, r);
    lemma_blocks(checks, classes, base, r);
    lemma_end(checks, classes, base);
    let head = repeated(turn, (r - 1) as nat);
    lemma_same_add(blocks(seg, r), head + kernel(p), e, p.b2 + p.m2);
    lemma_declarations(d);
    lemma_then_nothing(
        blocks(seg, r) + e,
        (head + kernel(p)) + (p.b2 + p.m2),
        d,
    );
    assert((head + kernel(p)) + (p.b2 + p.m2) =~= head + turn);
    assert(repeated(turn, r as nat) == head + turn);
    lemma_turns_keep(checks, classes, base, o, r as nat);
    assert(behind(unrolled(seg.gates(r)), o) == behind(repeated(turn, r as nat), o));
}

// ---------------------------------------------------------------------------
// The records of a segment
// ---------------------------------------------------------------------------
/// A check is listed in its class at its rank.
proof fn lemma_member_at_rank(classes: Seq<int>, j: int, n: nat)
    requires
        0 <= j < n <= classes.len(),
    ensures
        class_rank(classes, j) < members(classes, classes[j], n).len(),
        members(classes, classes[j], n)[class_rank(classes, j) as int] == j,
    decreases n,
{
    if j < n - 1 {
        lemma_member_at_rank(classes, j, (n - 1) as nat);
    }
}

proof fn lemma_plain_count(s: Seq<GateModel<usize>>)
    requires
        no_repeats(s),
    ensures
        recorders(s).len() == record_total(s),
{
    law_records_are_counted(s);
    lemma_unrolled_flat(s);
}

/// How many records the blocks make.
proof fn lemma_blocks_count(seg: SegModel, n: int)
    requires
        1 <= n,
    ensures
        recorders(blocks(seg, n)).len() == seg.g1.len() + (n - 1) * (seg.g1.len() + seg.g2.len()),
    decreases n,
{
    lemma_blocks_plain(seg);
    let w = (seg.g1.len() + seg.g2.len()) as int;
    if n == 1 {
        law_segment_round_records(seg, true);
        lemma_plain_count(layered(seg.round_layers(true)));
        assert(blocks(seg, 1) == layered(seg.round_layers(true)));
        assert((n - 1) * w == 0) by (nonlinear_arith)
            requires
                n == 1,
        ;
    } else {
        let s = layered(seg.round_layers(false));
        lemma_blocks_count(seg, n - 1);
        law_segment_round_records(seg, false);
        lemma_plain_count(s);
        lemma_declarations(seg.g1_detectors());
        lemma_declarations(seg.g2_detectors());
        lemma_recorders_add(s, seg.g1_detectors());
        lemma_recorders_add(s + seg.g1_detectors(), seg.g2_detectors());
        let last = if n == 2 {
            s + seg.g1_detectors()
        } else {
            seg.steady_body()
        };
        assert(blocks(seg, n) == blocks(seg, n - 1) + last);
        lemma_recorders_add(blocks(seg, n - 1), last);
        assert((n - 2) * w + w == (n - 1) * w) by (nonlinear_arith);
    }
}

/// The blocks start with fewer blocks.
proof fn lemma_blocks_start(seg: SegModel, n: int, r: int) -> (tail: Seq<GateModel<usize>>)
    requires
        0 <= n <= r,
    ensures
        blocks(seg, r) == blocks(seg, n) + tail,
    decreases r - n,
{
    if n == r {
        assert(blocks(seg, r) =~= blocks(seg, n) + Seq::empty());
        Seq::empty()
    } else {
        let tail = lemma_blocks_start(seg, n, r - 1);
        let more = lemma_next_block(seg, r);
        let last = layered(seg.round_layers(r == 1)) + more;
        assert(blocks(seg, r) =~= blocks(seg, n) + (tail + last));
        tail + last
    }
}

/// What a block adds, and what follows it.
proof fn lemma_next_block(seg: SegModel, n: int) -> (more: Seq<GateModel<usize>>)
    requires
        1 <= n,
    ensures
        blocks(seg, n) == blocks(seg, n - 1) + (layered(seg.round_layers(n == 1)) + more),
{
    let none = Seq::<GateModel<usize>>::empty();
    let block = layered(seg.round_layers(n == 1));
    if n == 1 {
        assert(blocks(seg, 0) =~= none);
        assert(blocks(seg, 1) == block);
        assert(block =~= none + (block + none));
        none
    } else if n == 2 {
        seg.g1_detectors()
    } else {
        let more = seg.g1_detectors() + seg.g2_detectors();
        assert(seg.steady_body() =~= block + more);
        more
    }
}

/// A place in a layer between others.
proof fn lemma_place<T>(head: Seq<T>, layer: Seq<T>, tail: Seq<T>, k: int)
    requires
        0 <= k < layer.len(),
    ensures
        head.len() + k < (head + layer + tail).len(),
        (head + layer + tail)[head.len() + k] == layer[k],
        (head + layer + tail).take(head.len() + k) == head + layer.take(k),
{
    assert((head + layer + tail).take(head.len() + k) =~= head + layer.take(k));
}

/// A measured check is read, and what came before keeps it.
#[verifier::spinoff_prover]
proof fn lemma_turns_hold_check(
    checks: Seq<SignedPauli<usize>>,
    classes: Seq<int>,
    base: int,
    j: int,
    n: nat,
)
    requires
        measurable(checks, base),
        staggerable(checks, classes),
        0 <= j < checks.len(),
    ensures
        ({
            let p = parts_of(checks, classes, base);
            let o = operator_of(checks[j]);
            &&& behind(repeated(both_classes(p), n), o) == Some(o)
            &&& behind(first_class(p) + p.m1, o) == Some(o)
        }),
{
    let o = operator_of(checks[j]);
    assert forall|i: int| 0 <= i < checks.len() implies clashes_with(
        o,
        (#[trigger] checks[i]).sites,
    ) % 2 == 0 by {
        lemma_checks_agree(checks, base, i, j);
    }
    lemma_checks_agree(checks, base, j, j);
    lemma_turn_keeps(checks, classes, base, o);
    lemma_turns_keep(checks, classes, base, o, n);
}

/// The measurements before a check's own.
proof fn lemma_earlier_measured(
    checks: Seq<SignedPauli<usize>>,
    classes: Seq<int>,
    base: int,
    j: int,
)
    requires
        measurable(checks, base),
        classes.len() == checks.len(),
        0 <= j < checks.len(),
    ensures
        ({
            let g = members(classes, classes[j], checks.len());
            let k = class_rank(classes, j) as int;
            let layer = measure_layer(checks, g, base);
            let o = alone(checks[j].sign, (base + j) as usize, Pauli::X);
            &&& 0 <= k < layer.len()
            &&& layer[k] == GateModel::<usize>::Measure(
                Pauli::X,
                (base + j) as usize,
                checks[j].sign is NegOne,
            )
            &&& behind(layer.take(k), o) == Some(o)
            &&& recorders(layer.take(k)).len() == k
            &&& recorders(layer).len() == layer.len()
        }),
{
    let m = checks.len();
    let g = members(classes, classes[j], m);
    let k = class_rank(classes, j) as int;
    let layer = measure_layer(checks, g, base);
    let o = alone(checks[j].sign, (base + j) as usize, Pauli::X);
    lemma_member_at_rank(classes, j, m);
    lemma_group_measures(checks, g.take(k), base, o);
    assert(layer.take(k) =~= measure_layer(checks, g.take(k), base));
    let head = layer.take(k);
    assert forall|i: int| 0 <= i < head.len() implies makes_one(#[trigger] head[i]) by {
        assert(head[i] == layer[i]);
    }
    assert forall|i: int| 0 <= i < layer.len() implies makes_one(#[trigger] layer[i]) by {}
    lemma_all_recorders(head);
    lemma_all_recorders(layer);
}

/// One layer with its tick.
proof fn lemma_ticked(layer: Seq<GateModel<usize>>)
    requires
        layer.len() > 0,
    ensures
        layered(seq![layer]) == layer.push(GateModel::Tick),
        recorders(layered(seq![layer])) == recorders(layer),
{
    let one = seq![layer];
    let none = Seq::<Seq<GateModel<usize>>>::empty();
    assert(one.drop_last() =~= none);
    assert(layered(none) =~= Seq::empty());
    assert(layered(one) =~= layer.push(GateModel::Tick));
    assert(layer.push(GateModel::Tick).drop_last() =~= layer);
}

/// X on the ancilla of a check of one class is not touched by what acts for the other.
proof fn lemma_other_class(
    checks: Seq<SignedPauli<usize>>,
    classes: Seq<int>,
    base: int,
    j: int,
    c: int,
    left: bool,
    right: bool,
    s: Seq<GateModel<usize>>,
)
    requires
        measurable(checks, base),
        0 <= j < checks.len(),
        classes[j] != c,
        within(s, zone(checks, classes, base, c, left, right)),
    ensures
        ({
            let o = alone(checks[j].sign, (base + j) as usize, Pauli::X);
            behind(s, o) == Some(o)
        }),
{
    let o = alone(checks[j].sign, (base + j) as usize, Pauli::X);
    let z = zone(checks, classes, base, c, left, right);
    assert forall|q: usize| z.contains(q) implies #[trigger] (o.at)(q) is I by {
        if q == base + j {
            assert(classes[q - base] == classes[j]);
        }
    }
    lemma_untouched(s, z, o);
}

/// Where the measurement of a check of the first class is.
#[verifier::spinoff_prover]
proof fn lemma_first_place(seg: SegModel, r: int, n: int, k: int)
    requires
        1 <= n <= r <= usize::MAX,
        0 <= k < seg.g1.len(),
    ensures
        ({
            let u = unrolled(seg.gates(r));
            let m1 = measure_layer(seg.checks, seg.g1, seg.base);
            let head = blocks(seg, n - 1) + layered(opening(seg, n == 1));
            &&& head.len() + k < u.len()
            &&& u[head.len() + k] == m1[k]
            &&& u.take(head.len() + k) == head + m1.take(k)
        }),
{
    let u = unrolled(seg.gates(r));
    let m1 = measure_layer(seg.checks, seg.g1, seg.base);
    let pro = n == 1;
    let before = blocks(seg, n - 1);
    let w = layered(opening(seg, pro));
    let block = layered(seg.round_layers(pro));
    lemma_segment_unrolled(seg, r);
    let tail = lemma_blocks_start(seg, n, r);
    let more = lemma_next_block(seg, n);
    lemma_ticked(m1);
    assert(seg.round_layers(pro) =~= opening(seg, pro) + seq![m1]);
    lemma_layered_add(opening(seg, pro), seq![m1]);
    let tick = seq![GateModel::<usize>::Tick];
    assert(m1.push(GateModel::Tick) =~= m1 + tick);
    let close = layered(seg.epilogue_layers());
    let d = if r >= 2 {
        seg.closing_detectors()
    } else {
        Seq::empty()
    };
    let rest = tick + more + tail + close + d;
    assert(u =~= (before + w) + m1 + rest);
    lemma_place(before + w, m1, rest, k);
}

/// What the opening of a block makes of X on the ancilla of a check of the first class.
#[verifier::spinoff_prover]
proof fn lemma_first_opening(
    checks: Seq<SignedPauli<usize>>,
    classes: Seq<int>,
    base: int,
    j: int,
    pro: bool,
)
    requires
        measurable(checks, base),
        staggerable(checks, classes),
        0 <= j < checks.len(),
        classes[j] == 0,
    ensures
        ({
            let p = parts_of(checks, classes, base);
            let w = layered(opening(seg_model(checks, classes, base), pro));
            let o = alone(checks[j].sign, (base + j) as usize, Pauli::X);
            let a = operator_of(checks[j]);
            &&& pro ==> behind(w, o) == Some(a)
            &&& !pro ==> behind(w, o) == behind(p.b2 + p.m2, a)
        }),
{
    let p = parts_of(checks, classes, base);
    let seg = seg_model(checks, classes, base);
    let w = layered(opening(seg, pro));
    let o = alone(checks[j].sign, (base + j) as usize, Pauli::X);
    let a = operator_of(checks[j]);
    let h = p.rs2 + p.a2;
    lemma_layered_flat(opening(seg, pro));
    lemma_opening(checks, classes, base, pro);
    lemma_parts_within(checks, classes, base);
    let z = zone(checks, classes, base, 1, true, false);
    lemma_within_wider(p.rs2, zone(checks, classes, base, 1, false, false), z);
    lemma_within_add(p.rs2, p.a2, z);
    lemma_other_class(checks, classes, base, j, 1, true, false, h);
    lemma_holds_class(checks, classes, 0, base, true);
    lemma_two_sides(checks, classes, base, 0);
    let s0 = side_list(checks, classes, 0, true) + side_list(checks, classes, 0, false);
    lemma_class_reads(s0, checks, classes, 0, base, j);
    assert(behind(first_class(p), o) == Some(a));
    lemma_behind_add(first_class(p), h, o);
    let fl = flat(opening(seg, pro));
    assert(behind(w, o) == behind(fl, o));
    if pro {
        assert(behind(fl, o) == behind(first_class(p) + h, o));
    } else {
        let t = p.b2 + p.m2;
        lemma_behind_add(t, first_class(p) + h, o);
        assert(behind(fl, o) == behind(t + (first_class(p) + h), o));
    }
}

/// The blocks so far and what is left of their second class keep a check.
proof fn lemma_blocks_hold_check(
    checks: Seq<SignedPauli<usize>>,
    classes: Seq<int>,
    base: int,
    n: int,
    j: int,
)
    requires
        measurable(checks, base),
        staggerable(checks, classes),
        1 <= n,
        0 <= j < checks.len(),
    ensures
        ({
            let p = parts_of(checks, classes, base);
            let a = operator_of(checks[j]);
            behind(blocks(seg_model(checks, classes, base), n) + (p.b2 + p.m2), a) == Some(a)
        }),
{
    let p = parts_of(checks, classes, base);
    let seg = seg_model(checks, classes, base);
    let a = operator_of(checks[j]);
    let t = p.b2 + p.m2;
    let turn = both_classes(p);
    let head = repeated(turn, (n - 1) as nat);
    lemma_blocks(checks, classes, base, n);
    lemma_same_add(blocks(seg, n), head + kernel(p), t, t);
    assert((head + kernel(p)) + t =~= head + turn);
    assert(repeated(turn, n as nat) == head + turn);
    lemma_turns_hold_check(checks, classes, base, j, n as nat);
    assert(behind(blocks(seg, n) + t, a) == behind((head + kernel(p)) + t, a));
}

/// The record of a check of the first class.
#[verifier::spinoff_prover]
proof fn lemma_first_records(
    checks: Seq<SignedPauli<usize>>,
    classes: Seq<int>,
    base: int,
    r: int,
    n: int,
    j: int,
) -> (i: int)
    requires
        measurable(checks, base),
        staggerable(checks, classes),
        1 <= n <= r <= usize::MAX,
        0 <= j < checks.len(),
        classes[j] == 0,
    ensures
        records_value(
            unrolled(seg_model(checks, classes, base).gates(r)),
            i,
            record_position(classes, n, j),
            operator_of(checks[j]),
        ),
{
    let p = parts_of(checks, classes, base);
    let seg = seg_model(checks, classes, base);
    let u = unrolled(seg.gates(r));
    let before = blocks(seg, n - 1);
    let w = layered(opening(seg, n == 1));
    let k = class_rank(classes, j) as int;
    let o = alone(checks[j].sign, (base + j) as usize, Pauli::X);
    let a = operator_of(checks[j]);
    let i = (before + w).len() + k;
    lemma_earlier_measured(checks, classes, base, j);
    lemma_first_place(seg, r, n, k);
    lemma_behind_add(before + w, p.m1.take(k), o);
    lemma_behind_add(before, w, o);
    lemma_first_opening(checks, classes, base, j, n == 1);
    if n == 1 {
        assert(before =~= Seq::empty());
    } else {
        lemma_blocks_hold_check(checks, classes, base, n - 1, j);
        lemma_behind_add(before, p.b2 + p.m2, a);
    }
    assert(behind(u.take(i), o) == Some(a));
    assert(checks[j].sign is One || checks[j].sign is NegOne);
    lemma_first_count(seg, n, k);
    lemma_two_classes(classes, checks.len());
    i
}

/// How many records come before one of the first class.
proof fn lemma_first_count(seg: SegModel, n: int, k: int)
    requires
        1 <= n,
        0 <= k < seg.g1.len(),
    ensures
        ({
            let m1 = measure_layer(seg.checks, seg.g1, seg.base);
            let head = blocks(seg, n - 1) + layered(opening(seg, n == 1));
            recorders(head + m1.take(k)).len() == if n == 1 {
                k
            } else {
                seg.g1.len() + (n - 2) * (seg.g1.len() + seg.g2.len()) + seg.g2.len() + k
            }
        }),
{
    let m1 = measure_layer(seg.checks, seg.g1, seg.base);
    let pro = n == 1;
    let before = blocks(seg, n - 1);
    let w = layered(opening(seg, pro));
    let block = layered(seg.round_layers(pro));
    let part = m1.take(k);
    lemma_ticked(m1);
    assert(seg.round_layers(pro) =~= opening(seg, pro) + seq![m1]);
    lemma_layered_add(opening(seg, pro), seq![m1]);
    lemma_recorders_add(before + w, part);
    lemma_recorders_add(before, w);
    lemma_recorders_add(w, m1.push(GateModel::Tick));
    assert forall|i: int| 0 <= i < m1.len() implies makes_one(#[trigger] m1[i]) by {}
    assert forall|i: int| 0 <= i < part.len() implies makes_one(#[trigger] part[i]) by {
        assert(part[i] == m1[i]);
    }
    lemma_all_recorders(m1);
    lemma_all_recorders(part);
    lemma_blocks_plain(seg);
    lemma_plain_count(block);
    law_segment_round_records(seg, pro);
    if n == 1 {
        assert(before =~= Seq::empty());
        assert(recorders(before).len() == 0);
    } else {
        lemma_blocks_count(seg, n - 1);
    }
}

/// What comes before the measurement of the second class in a block.
spec fn first_half(seg: SegModel) -> Seq<Seq<GateModel<usize>>> {
    seq![reset_layer(seg.g1, seg.base)] + Seq::new(
        seg.first_length(false),
        |k: int| seg.first_phase(k, false),
    )
}

/// What comes before the measurement of the second class of round `n` of `r`, behind the
/// blocks of the first `n` rounds.
spec fn lead(seg: SegModel, last: bool) -> Seq<GateModel<usize>> {
    if last {
        layered(bucket_layers(seg.r2, seg.base))
    } else {
        layered(first_half(seg)) + bucket_at(seg.r1, 0, seg.base)
    }
}

/// Where the measurement of a check of the second class is.
#[verifier::spinoff_prover]
proof fn lemma_second_place(seg: SegModel, r: int, n: int, k: int)
    requires
        1 <= n <= r <= usize::MAX,
        0 <= k < seg.g2.len(),
    ensures
        ({
            let u = unrolled(seg.gates(r));
            let m2 = measure_layer(seg.checks, seg.g2, seg.base);
            let head = blocks(seg, n) + lead(seg, n == r);
            &&& head.len() + k < u.len()
            &&& u[head.len() + k] == m2[k]
            &&& u.take(head.len() + k) == head + m2.take(k)
        }),
{
    let u = unrolled(seg.gates(r));
    let m2 = measure_layer(seg.checks, seg.g2, seg.base);
    let before = blocks(seg, n);
    let tick = seq![GateModel::<usize>::Tick];
    let close = layered(seg.epilogue_layers());
    let d = if r >= 2 {
        seg.closing_detectors()
    } else {
        Seq::empty()
    };
    lemma_segment_unrolled(seg, r);
    if n == r {
        let w = layered(bucket_layers(seg.r2, seg.base));
        lemma_ticked(m2);
        lemma_layered_add(bucket_layers(seg.r2, seg.base), seq![m2]);
        assert(m2.push(GateModel::Tick) =~= m2 + tick);
        assert(u =~= (before + w) + m2 + (tick + d));
        lemma_place(before + w, m2, tick + d, k);
    } else {
        let tail = lemma_blocks_start(seg, n + 1, r);
        let more = lemma_next_block(seg, n + 1);
        let z = lemma_half_block(seg);
        let w = lead(seg, false);
        let block = layered(seg.round_layers(false));
        let rest = (z + more) + (tail + close + d);
        lemma_regroup(before, w, m2, z, more);
        lemma_regroup_tail(before + w, m2, z + more, tail, close, d);
        assert(u == (before + w) + m2 + rest);
        lemma_place(before + w, m2, rest, k);
    }
}

proof fn lemma_regroup<T>(a: Seq<T>, b: Seq<T>, c: Seq<T>, d: Seq<T>, e: Seq<T>)
    ensures
        a + ((b + c + d) + e) == (a + b) + c + (d + e),
{
    assert(a + ((b + c + d) + e) =~= (a + b) + c + (d + e));
}

proof fn lemma_regroup_tail<T>(
    a: Seq<T>,
    b: Seq<T>,
    c: Seq<T>,
    d: Seq<T>,
    e: Seq<T>,
    f: Seq<T>,
)
    ensures
        ((a + b + c) + d) + e + f == a + b + (c + (d + e + f)),
{
    assert(((a + b + c) + d) + e + f =~= a + b + (c + (d + e + f)));
}

/// A block up to the measurement of the second class, and what follows.
proof fn lemma_half_block(seg: SegModel) -> (rest: Seq<GateModel<usize>>)
    requires
        seg.g2.len() > 0,
    ensures
        layered(seg.round_layers(false)) == lead(seg, false) + measure_layer(
            seg.checks,
            seg.g2,
            seg.base,
        ) + rest,
{
    let m1 = measure_layer(seg.checks, seg.g1, seg.base);
    let m2 = measure_layer(seg.checks, seg.g2, seg.base);
    let tick = seq![GateModel::<usize>::Tick];
    let b = bucket_at(seg.r1, 0, seg.base);
    let half = first_half(seg);
    let two = Seq::new(seg.second_length(), |k: int| seg.second_phase(k, false));
    let others = two.skip(1);
    assert(two[0] == b + m2);
    assert(two =~= seq![b + m2] + others);
    assert(seg.round_layers(false) =~= half + seq![b + m2] + (others + seq![m1]));
    lemma_layered_add(half + seq![b + m2], others + seq![m1]);
    lemma_layered_add(half, seq![b + m2]);
    lemma_ticked(b + m2);
    let rest = tick + layered(others + seq![m1]);
    assert(layered(seg.round_layers(false)) =~= lead(seg, false) + m2 + rest);
    rest
}

/// What leads to the measurement of the second class makes of X on an ancilla of it what the
/// rest of the class makes.
#[verifier::spinoff_prover]
proof fn lemma_second_lead(
    checks: Seq<SignedPauli<usize>>,
    classes: Seq<int>,
    base: int,
    j: int,
    last: bool,
)
    requires
        measurable(checks, base),
        staggerable(checks, classes),
        0 <= j < checks.len(),
        classes[j] == 1,
    ensures
        ({
            let p = parts_of(checks, classes, base);
            let o = alone(checks[j].sign, (base + j) as usize, Pauli::X);
            behind(lead(seg_model(checks, classes, base), last), o) == behind(p.b2, o)
        }),
{
    let p = parts_of(checks, classes, base);
    let seg = seg_model(checks, classes, base);
    let o = alone(checks[j].sign, (base + j) as usize, Pauli::X);
    if last {
        let ls = bucket_layers(seg.r2, base);
        lemma_layered_flat(ls);
        lemma_flat_buckets(seg.r2, seg.r2.len(), base);
        assert(ls =~= Seq::new(seg.r2.len(), |k: int| bucket_at(seg.r2, k, base)));
        assert(behind(layered(ls), o) == behind(flat(ls), o));
    } else {
        let half = first_half(seg);
        let b = bucket_at(seg.r1, 0, base);
        let one = Seq::new(seg.first_length(false), |k: int| seg.first_phase(k, false));
        let x = p.rs1 + p.a1;
        lemma_parts_within(checks, classes, base);
        let zl = zone(checks, classes, base, 0, true, false);
        lemma_within_wider(p.rs1, zone(checks, classes, base, 0, false, false), zl);
        lemma_within_add(p.rs1, p.a1, zl);
        lemma_zones_swap(x, zl, p.b2, zone(checks, classes, base, 1, false, true));
        lemma_first_phase(checks, classes, base, false);
        lemma_layered_flat(half);
        lemma_flat_layers_add(seq![p.rs1], one);
        lemma_flat_one(p.rs1);
        lemma_same_add(p.rs1, p.rs1, flat(one), p.a1 + p.b2);
        assert(p.rs1 + (p.a1 + p.b2) =~= x + p.b2);
        lemma_same_chain(flat(half), x + p.b2, p.b2 + x);
        lemma_same_chain(layered(half), flat(half), p.b2 + x);
        lemma_bucket_within(checks, classes, base);
        lemma_other_class(checks, classes, base, j, 0, false, true, b);
        lemma_behind_add(layered(half), b, o);
        assert(behind(layered(half), o) == behind(p.b2 + x, o));
        lemma_other_class(checks, classes, base, j, 0, true, false, x);
        lemma_behind_add(p.b2, x, o);
    }
}

proof fn lemma_bucket_within(checks: Seq<SignedPauli<usize>>, classes: Seq<int>, base: int)
    requires
        measurable(checks, base),
        staggerable(checks, classes),
    ensures
        within(
            bucket_at(seg_model(checks, classes, base).r1, 0, base),
            zone(checks, classes, base, 0, false, true),
        ),
{
    let bs = phase_buckets(checks, classes, 0, false);
    let z = zone(checks, classes, base, 0, false, true);
    let gates = bucket_at(bs, 0, base);
    lemma_bucket_at(checks, classes, 0, false, base, 0);
    if bs.len() > 0 {
        let b = bs[0];
        assert forall|i: int| 0 <= i < gates.len() implies simple(#[trigger] gates[i]) by {
            assert(b[i].0 < checks.len() && b[i].1 < base);
        }
        assert forall|i: int, q: usize| 0 <= i < gates.len() && #[trigger] uses(
            gates[i],
            q,
        ) implies z.contains(q) by {
            assert(b[i].0 < checks.len() && b[i].1 < base);
            assert(classes[b[i].0 as int] == 0);
        }
    }
}

/// The blocks and the rest of the second class make of X on an ancilla of it its check.
#[verifier::spinoff_prover]
proof fn lemma_second_value(
    checks: Seq<SignedPauli<usize>>,
    classes: Seq<int>,
    base: int,
    n: int,
    j: int,
)
    requires
        measurable(checks, base),
        staggerable(checks, classes),
        1 <= n,
        0 <= j < checks.len(),
        classes[j] == 1,
    ensures
        ({
            let p = parts_of(checks, classes, base);
            let o = alone(checks[j].sign, (base + j) as usize, Pauli::X);
            behind(blocks(seg_model(checks, classes, base), n) + p.b2, o) == Some(
                operator_of(checks[j]),
            )
        }),
{
    let p = parts_of(checks, classes, base);
    let seg = seg_model(checks, classes, base);
    let o = alone(checks[j].sign, (base + j) as usize, Pauli::X);
    let a = operator_of(checks[j]);
    let turn = both_classes(p);
    let head = repeated(turn, (n - 1) as nat);
    let f = first_class(p) + p.m1;
    let s = p.rs2 + (p.a2 + p.b2);
    lemma_blocks(checks, classes, base, n);
    lemma_same_add(blocks(seg, n), head + kernel(p), p.b2, p.b2);
    assert((head + kernel(p)) + p.b2 =~= (head + f) + s);
    assert(behind(blocks(seg, n) + p.b2, o) == behind((head + kernel(p)) + p.b2, o));
    lemma_holds_class(checks, classes, 1, base, true);
    lemma_two_sides(checks, classes, base, 1);
    let s1 = side_list(checks, classes, 1, true) + side_list(checks, classes, 1, false);
    lemma_class_reads(s1, checks, classes, 1, base, j);
    lemma_behind_add(head + f, s, o);
    lemma_behind_add(head, f, a);
    lemma_turns_hold_check(checks, classes, base, j, (n - 1) as nat);
}

/// How many records come before one of the second class.
proof fn lemma_second_count(seg: SegModel, n: int, k: int, last: bool)
    requires
        1 <= n,
        0 <= k < seg.g2.len(),
    ensures
        ({
            let m2 = measure_layer(seg.checks, seg.g2, seg.base);
            recorders(blocks(seg, n) + lead(seg, last) + m2.take(k)).len() == seg.g1.len() + (n - 1)
                * (seg.g1.len() + seg.g2.len()) + k
        }),
{
    let m2 = measure_layer(seg.checks, seg.g2, seg.base);
    let before = blocks(seg, n);
    let w = lead(seg, last);
    let part = m2.take(k);
    lemma_blocks_count(seg, n);
    lemma_recorders_add(before + w, part);
    lemma_recorders_add(before, w);
    assert forall|i: int| 0 <= i < part.len() implies makes_one(#[trigger] part[i]) by {
        assert(part[i] == m2[i]);
    }
    lemma_all_recorders(part);
    let layers = if last {
        bucket_layers(seg.r2, seg.base)
    } else {
        first_half(seg)
    };
    assert forall|x: int| 0 <= x < layers.len() implies unrecorded(#[trigger] layers[x]) by {}
    lemma_unrecorded(layers);
    if !last {
        let b = bucket_at(seg.r1, 0, seg.base);
        lemma_recorders_add(layered(layers), b);
        assert forall|i: int| 0 <= i < b.len() implies !makes_one(#[trigger] b[i]) by {}
        lemma_no_recorders(b);
    }
}

/// Nothing in the gates makes a record.
spec fn unrecorded(s: Seq<GateModel<usize>>) -> bool {
    forall|i: int| 0 <= i < s.len() ==> !makes_one(#[trigger] s[i])
}

proof fn lemma_unrecorded(layers: Seq<Seq<GateModel<usize>>>)
    requires
        forall|k: int| 0 <= k < layers.len() ==> unrecorded(#[trigger] layers[k]),
    ensures
        recorders(layered(layers)).len() == 0,
    decreases layers.len(),
{
    if layers.len() > 0 {
        let front = layers.drop_last();
        assert forall|k: int| 0 <= k < front.len() implies unrecorded(#[trigger] front[k]) by {
            assert(unrecorded(layers[k]));
        }
        lemma_unrecorded(front);
        let layer = layers.last();
        assert(unrecorded(layers[layers.len() - 1]));
        if layer.len() > 0 {
            let ticked = layer.push(GateModel::Tick);
            assert forall|i: int| 0 <= i < ticked.len() implies !makes_one(#[trigger] ticked[i]) by {
                if i < layer.len() {
                    assert(!makes_one(layer[i]));
                }
            }
            lemma_no_recorders(ticked);
            lemma_recorders_add(layered(front), ticked);
        }
    }
}

/// The record of a check of the second class.
#[verifier::spinoff_prover]
proof fn lemma_second_records(
    checks: Seq<SignedPauli<usize>>,
    classes: Seq<int>,
    base: int,
    r: int,
    n: int,
    j: int,
) -> (i: int)
    requires
        measurable(checks, base),
        staggerable(checks, classes),
        1 <= n <= r <= usize::MAX,
        0 <= j < checks.len(),
        classes[j] == 1,
    ensures
        records_value(
            unrolled(seg_model(checks, classes, base).gates(r)),
            i,
            record_position(classes, n, j),
            operator_of(checks[j]),
        ),
{
    let p = parts_of(checks, classes, base);
    let seg = seg_model(checks, classes, base);
    let u = unrolled(seg.gates(r));
    let before = blocks(seg, n);
    let w = lead(seg, n == r);
    let k = class_rank(classes, j) as int;
    let o = alone(checks[j].sign, (base + j) as usize, Pauli::X);
    let a = operator_of(checks[j]);
    let i = (before + w).len() + k;
    lemma_earlier_measured(checks, classes, base, j);
    lemma_second_place(seg, r, n, k);
    lemma_behind_add(before + w, p.m2.take(k), o);
    lemma_behind_add(before, w, o);
    lemma_second_lead(checks, classes, base, j, n == r);
    lemma_behind_add(before, p.b2, o);
    lemma_second_value(checks, classes, base, n, j);
    assert(behind(u.take(i), o) == Some(a));
    assert(checks[j].sign is One || checks[j].sign is NegOne);
    lemma_second_count(seg, n, k, n == r);
    lemma_two_classes(classes, checks.len());
    i
}

/// A segment of `r` rounds measures its checks in every round: the record of check `j` of
/// round `n` is where the positions say, and gives the value, with its sign, that the check
/// had in front of the segment.
pub proof fn law_segments_measure_their_checks(
    checks: Seq<SignedPauli<usize>>,
    classes: Seq<int>,
    base: int,
    r: int,
    n: int,
    j: int,
)
    requires
        measurable(checks, base),
        staggerable(checks, classes),
        1 <= n <= r <= usize::MAX,
        0 <= j < checks.len(),
    ensures
        exists|i: int| #[trigger]
            records_value(
                unrolled(seg_model(checks, classes, base).gates(r)),
                i,
                record_position(classes, n, j),
                operator_of(checks[j]),
            ),
{
    assert(0 <= classes[j] <= 1);
    if classes[j] == 0 {
        let i = lemma_first_records(checks, classes, base, r, n, j);
    } else {
        let i = lemma_second_records(checks, classes, base, r, n, j);
    }
}

} // verus!
