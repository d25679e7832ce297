//! A lowered round measures its checks: what the operators after gates are before them, and
//! that the readout of an ancilla is, before its round, the check that it stands for.

use vstd::prelude::*;

#[allow(unused_imports)]
use crate::coloring::{class_colors, greedy_colors};
#[allow(unused_imports)]
use crate::completeness::{
    class_sites, law_legacy_round_is_complete, law_sequential_round_is_complete, lemma_occurs_add,
    occurs, occurs_all, phase_sites,
};
#[allow(unused_imports)]
use crate::conjugation::clean;
#[allow(unused_imports)]
use crate::keyed::{has_key, key_lt, key_position, strictly_keyed, OrderedKey};
#[allow(unused_imports)]
use crate::layers::{
    acts_for, comes_before, data_below, law_legacy_order_is_consistent,
    law_sequential_order_is_consistent, works_at,
};
#[allow(unused_imports)]
use crate::pbc::{
    anticommuting_sites, law_sign_group, lemma_pauli_at_absent, lemma_pauli_at_first, pauli_at,
    strings_commute, Pauli, Sign, SignedPauli,
};
#[allow(unused_imports)]
use crate::physical::{active_sites, GateModel};
#[allow(unused_imports)]
use crate::records::{
    lemma_all_recorders, lemma_no_recorders, lemma_recorders_add, makes_one, recorders,
};
#[allow(unused_imports)]
use crate::sec_schedule::{
    acts, bucket_layers, check_sites, checks_meet, color_count, controlled_layer, everyone, layered,
    legacy_layers, measure_layer, meeting, reset_layer, round_fits, round_gates, round_sites,
    sequential_layers, sites_meet, SecSchedule, Site,
};
#[allow(unused_imports)]
use crate::values::{
    alone, behind, behind_controlled, behind_gate, clashes_with, lemma_behind_add, operator_of,
    records_value, without, Operator,
};

verus! {

// ---------------------------------------------------------------------------
// Sites in a row
// ---------------------------------------------------------------------------
/// The lists one after another.
pub(crate) open spec fn joined_lists(lists: Seq<Seq<Site>>) -> Seq<Site>
    decreases lists.len(),
{
    if lists.len() == 0 {
        Seq::empty()
    } else {
        joined_lists(lists.drop_last()) + lists.last()
    }
}

pub(crate) proof fn lemma_joined_occurs(lists: Seq<Seq<Site>>, x: Site)
    ensures
        occurs(joined_lists(lists), x) == occurs_all(lists, x),
    decreases lists.len(),
{
    if lists.len() > 0 {
        lemma_joined_occurs(lists.drop_last(), x);
        lemma_occurs_add(joined_lists(lists.drop_last()), lists.last(), x);
    }
}

/// Ticks do not matter.
proof fn lemma_layers_behind(lists: Seq<Seq<Site>>, base: int, o: Operator<usize>)
    ensures
        behind(layered(bucket_layers(lists, base)), o) == behind(
            controlled_layer(joined_lists(lists), base),
            o,
        ),
    decreases lists.len(),
{
    let layers = bucket_layers(lists, base);
    if lists.len() == 0 {
        assert(layers =~= Seq::empty());
        assert(controlled_layer(joined_lists(lists), base) =~= layered(layers));
    } else {
        let front = lists.drop_last();
        let last = lists.last();
        let layer = controlled_layer(last, base);
        let before = joined_lists(front);
        assert(layers.drop_last() =~= bucket_layers(front, base));
        assert(layers.last() == layer);
        assert(controlled_layer(before + last, base) =~= controlled_layer(before, base) + layer);
        lemma_behind_add(controlled_layer(before, base), layer, o);
        if layer.len() == 0 {
            assert(behind(layer, o) == Some(o));
            lemma_layers_behind(front, base, o);
        } else {
            let ticked = layer.push(GateModel::Tick);
            assert(ticked.drop_last() =~= layer);
            assert(behind(ticked, o) == behind(layer, o));
            lemma_behind_add(layered(bucket_layers(front, base)), ticked, o);
            match behind(layer, o) {
                None => {},
                Some(x) => {
                    lemma_layers_behind(front, base, x);
                },
            }
        }
    }
}

/// How often a property holds of the sites.
spec fn count_where(s: Seq<Site>, f: spec_fn(Site) -> bool) -> nat
    decreases s.len(),
{
    if s.len() == 0 {
        0
    } else {
        count_where(s.drop_last(), f) + if f(s.last()) {
            1nat
        } else {
            0nat
        }
    }
}

proof fn lemma_count_add(a: Seq<Site>, b: Seq<Site>, f: spec_fn(Site) -> bool)
    ensures
        count_where(a + b, f) == count_where(a, f) + count_where(b, f),
    decreases b.len(),
{
    if b.len() == 0 {
        assert(a + b =~= a);
    } else {
        lemma_count_add(a, b.drop_last(), f);
        assert((a + b).drop_last() =~= a + b.drop_last());
    }
}

proof fn lemma_occurs_at(s: Seq<Site>, k: int)
    requires
        0 <= k < s.len(),
    ensures
        occurs(s, s[k]) >= 1,
    decreases s.len(),
{
    if k < s.len() - 1 {
        lemma_occurs_at(s.drop_last(), k);
    }
}

proof fn lemma_occurs_twice(s: Seq<Site>, i: int, j: int)
    requires
        0 <= i < j < s.len(),
        s[i] == s[j],
    ensures
        occurs(s, s[i]) >= 2,
    decreases s.len(),
{
    let t = s.drop_last();
    if j < t.len() {
        lemma_occurs_twice(t, i, j);
    } else {
        lemma_occurs_at(t, i);
    }
}

proof fn lemma_occurs_somewhere(s: Seq<Site>, x: Site) -> (k: int)
    requires
        occurs(s, x) >= 1,
    ensures
        0 <= k < s.len(),
        s[k] == x,
    decreases s.len(),
{
    if s.last() == x {
        s.len() - 1
    } else {
        lemma_occurs_somewhere(s.drop_last(), x)
    }
}

/// A site taken out.
proof fn lemma_taken_out(s: Seq<Site>, k: int, x: Site, f: spec_fn(Site) -> bool)
    requires
        0 <= k < s.len(),
    ensures
        occurs(s, x) == occurs(s.remove(k), x) + if s[k] == x {
            1nat
        } else {
            0nat
        },
        count_where(s, f) == count_where(s.remove(k), f) + if f(s[k]) {
            1nat
        } else {
            0nat
        },
{
    let a = s.take(k);
    let b = seq![s[k]];
    let c = s.skip(k + 1);
    assert(s =~= a + b + c);
    assert(s.remove(k) =~= a + c);
    lemma_occurs_add(a + b, c, x);
    lemma_occurs_add(a, b, x);
    lemma_occurs_add(a, c, x);
    lemma_count_add(a + b, c, f);
    lemma_count_add(a, b, f);
    lemma_count_add(a, c, f);
    let none = Seq::<Site>::empty();
    assert(b.drop_last() =~= none);
    assert(occurs(none, x) == 0 && count_where(none, f) == 0);
    assert(occurs(b, x) == if s[k] == x {
        1nat
    } else {
        0nat
    });
    assert(count_where(b, f) == if f(s[k]) {
        1nat
    } else {
        0nat
    });
}

/// What occurs equally often counts equally often.
proof fn lemma_same_count(s: Seq<Site>, t: Seq<Site>, f: spec_fn(Site) -> bool)
    requires
        forall|x: Site| #[trigger] occurs(s, x) == occurs(t, x),
    ensures
        count_where(s, f) == count_where(t, f),
    decreases s.len(),
{
    if s.len() == 0 {
        if t.len() > 0 {
            lemma_occurs_at(t, 0);
            assert(occurs(s, t[0]) == occurs(t, t[0]));
        }
    } else {
        let y = s.last();
        let n = s.len() - 1;
        lemma_occurs_at(s, n);
        assert(occurs(s, y) == occurs(t, y));
        let k = lemma_occurs_somewhere(t, y);
        let front = s.drop_last();
        let rest = t.remove(k);
        assert forall|x: Site| #[trigger] occurs(front, x) == occurs(rest, x) by {
            lemma_taken_out(t, k, x, f);
            assert(occurs(s, x) == occurs(t, x));
        }
        lemma_same_count(front, rest, f);
        lemma_taken_out(t, k, y, f);
    }
}

// ---------------------------------------------------------------------------
// An ancilla's X behind controlled Paulis
// ---------------------------------------------------------------------------
/// The Pauli of check `j` on `q` among the sites from `k` on.
spec fn letter(s: Seq<Site>, k: int, j: int, q: usize) -> Pauli
    decreases s.len() - k,
{
    if k < 0 || k >= s.len() {
        Pauli::I
    } else if s[k].0 == j && s[k].1 == q {
        s[k].2
    } else {
        letter(s, k + 1, j, q)
    }
}

/// Whether an odd number of the sites of check `i` from `k` on anti-commute with what check
/// `j` has behind them.
spec fn odd(s: Seq<Site>, k: int, i: int, j: int) -> bool
    decreases s.len() - k,
{
    if k < 0 || k >= s.len() {
        false
    } else {
        odd(s, k + 1, i, j) != (s[k].0 == i && letter(s, k + 1, j, s[k].1).anticommutes(s[k].2))
    }
}

/// What X on ancilla `j` is in front of the sites from `k` on.
spec fn drawn(s: Seq<Site>, k: int, m: nat, base: int, j: int, sign: Sign) -> Operator<usize> {
    Operator {
        sign,
        at: |x: usize|
            if x == base + j {
                Pauli::X
            } else if x < base {
                letter(s, k, j, x)
            } else if x < base + m && odd(s, k, x - base, j) {
                Pauli::Z
            } else {
                Pauli::I
            },
    }
}

/// The sites lie below the ancillas, and no check has two on one qubit.
spec fn proper(s: Seq<Site>, m: nat, base: int) -> bool {
    &&& forall|k: int| 0 <= k < s.len() ==> (#[trigger] s[k]).0 < m && s[k].1 < base
    &&& forall|a: int, b: int|
        0 <= a < b < s.len() && (#[trigger] s[a]).0 == (#[trigger] s[b]).0 ==> s[a].1 != s[b].1
}

proof fn lemma_letter_none(s: Seq<Site>, k: int, j: int, q: usize)
    requires
        0 <= k,
        forall|e: int| k <= e < s.len() ==> !((#[trigger] s[e]).0 == j && s[e].1 == q),
    ensures
        letter(s, k, j, q) is I,
    decreases s.len() - k,
{
    if k < s.len() {
        assert(!(s[k].0 == j && s[k].1 == q));
        lemma_letter_none(s, k + 1, j, q);
    }
}

proof fn lemma_letter_at(s: Seq<Site>, k: int, j: int, q: usize, e: int, m: nat, base: int)
    requires
        proper(s, m, base),
        0 <= k <= e < s.len(),
        s[e].0 == j,
        s[e].1 == q,
    ensures
        letter(s, k, j, q) == s[e].2,
    decreases e - k,
{
    if k < e {
        assert(s[k].0 == s[e].0 ==> s[k].1 != s[e].1);
        lemma_letter_at(s, k + 1, j, q, e, m, base);
    }
}

#[verifier::spinoff_prover]
proof fn lemma_drawn_step(s: Seq<Site>, k: int, m: nat, base: int, j: int, sign: Sign)
    requires
        proper(s, m, base),
        0 <= k < s.len(),
        0 <= base,
        base + m <= usize::MAX,
        0 <= j < m,
    ensures
        behind_gate(controlled_layer(s, base)[k], drawn(s, k + 1, m, base, j, sign)) == Some(
            drawn(s, k, m, base, j, sign),
        ),
{
    let (i, q, p) = s[k];
    assert(s[k].0 < m && s[k].1 < base);
    let c = (base + i) as usize;
    let o = drawn(s, k + 1, m, base, j, sign);
    let n = drawn(s, k, m, base, j, sign);
    let r = behind_controlled(p, c, q, o);
    assert(controlled_layer(s, base)[k] == GateModel::Controlled(p, c, q));
    law_sign_group(sign, Sign::One, Sign::One);
    if i == j {
        assert forall|e: int| k + 1 <= e < s.len() implies !((#[trigger] s[e]).0 == j && s[e].1
            == q) by {
            assert(s[k].0 == s[e].0 ==> s[k].1 != s[e].1);
        }
        lemma_letter_none(s, k + 1, j, q);
        assert((o.at)(q) is I);
        assert((o.at)(c) is X);
        assert forall|x: usize| #[trigger] (r.at)(x) == (n.at)(x) by {
            if base <= x < base + m && x != c {
                assert(x - base != i);
            }
        }
    } else {
        let b = letter(s, k + 1, j, q).anticommutes(p);
        assert((o.at)(q) == letter(s, k + 1, j, q));
        assert(!(o.at)(c).has_x());
        assert forall|x: usize| #[trigger] (r.at)(x) == (n.at)(x) by {
            if base <= x < base + m && x != base + j {
                if x == c {
                    assert(odd(s, k, i as int, j) == (odd(s, k + 1, i as int, j) != b));
                } else {
                    assert(odd(s, k, x - base, j) == odd(s, k + 1, x - base, j));
                }
            }
        }
    }
    assert(r.at =~= n.at);
    assert(r =~= n);
}

proof fn lemma_drawn_back(s: Seq<Site>, k: int, m: nat, base: int, j: int, sign: Sign)
    requires
        proper(s, m, base),
        0 <= k <= s.len(),
        0 <= base,
        base + m <= usize::MAX,
        0 <= j < m,
    ensures
        behind(controlled_layer(s, base).take(k), drawn(s, k, m, base, j, sign)) == Some(
            drawn(s, 0, m, base, j, sign),
        ),
    decreases k,
{
    let gates = controlled_layer(s, base);
    if k > 0 {
        lemma_drawn_step(s, k - 1, m, base, j, sign);
        assert(gates.take(k).drop_last() =~= gates.take(k - 1));
        assert(gates.take(k).last() == gates[k - 1]);
        lemma_drawn_back(s, k - 1, m, base, j, sign);
    }
}

// ---------------------------------------------------------------------------
// Rounds of commuting checks
// ---------------------------------------------------------------------------
/// A round that can be measured: the checks have real signs and one Pauli on each of their
/// qubits, they commute, and the ancillas lie past their qubits.
pub open spec fn measurable(checks: Seq<SignedPauli<usize>>, base: int) -> bool {
    &&& 0 <= base
    &&& round_fits(checks, base)
    &&& data_below(checks, base)
    &&& forall|j: int|
        0 <= j < checks.len() ==> clean((#[trigger] checks[j]).sites) && (checks[j].sign is One
            || checks[j].sign is NegOne)
    &&& forall|i: int, j: int|
        #![trigger checks[i], checks[j]]
        0 <= i < checks.len() && 0 <= j < checks.len() ==> strings_commute(
            checks[i].sites,
            checks[j].sites,
        )
}

/// All sites of check `i` come before all of check `j`.
pub(crate) open spec fn in_front(s: Seq<Site>, i: int, j: int) -> bool {
    forall|a: int, b: int|
        0 <= a < s.len() && 0 <= b < s.len() && (#[trigger] s[a]).0 == i && (#[trigger] s[b]).0 == j
            ==> a < b
}

/// The sites of those of the first `n` checks that take part.
pub(crate) open spec fn group_sites(checks: Seq<SignedPauli<usize>>, who: Set<int>, n: nat) -> Seq<Site>
    decreases n,
{
    if n == 0 {
        Seq::empty()
    } else if who.contains(n - 1) {
        group_sites(checks, who, (n - 1) as nat) + check_sites(checks, n - 1)
    } else {
        group_sites(checks, who, (n - 1) as nat)
    }
}

/// Every check takes part.
spec fn anyone() -> Set<int> {
    Set::new(|j: int| true)
}

proof fn lemma_anyone(checks: Seq<SignedPauli<usize>>, n: nat)
    ensures
        group_sites(checks, anyone(), n) == round_sites(checks, n),
    decreases n,
{
    if n > 0 {
        lemma_anyone(checks, (n - 1) as nat);
    }
}

pub(crate) proof fn lemma_group_occurs(
    checks: Seq<SignedPauli<usize>>,
    who: Set<int>,
    n: nat,
    x: Site,
)
    requires
        n <= checks.len() <= usize::MAX,
    ensures
        occurs(group_sites(checks, who, n), x) == if x.0 < n && who.contains(x.0 as int) {
            occurs(check_sites(checks, x.0 as int), x)
        } else {
            0
        },
    decreases n,
{
    if n > 0 {
        lemma_group_occurs(checks, who, (n - 1) as nat, x);
        let here = check_sites(checks, n - 1);
        if who.contains(n - 1) {
            lemma_occurs_add(group_sites(checks, who, (n - 1) as nat), here, x);
            if x.0 != n - 1 && occurs(here, x) >= 1 {
                let k = lemma_occurs_somewhere(here, x);
                assert(here[k].0 == n - 1);
            }
        }
    }
}

/// The list has every site of the checks that take part once, and conflicting checks in one
/// order or the other.
pub(crate) open spec fn holds_round(s: Seq<Site>, checks: Seq<SignedPauli<usize>>, who: Set<int>) -> bool {
    &&& forall|x: Site| #[trigger]
        occurs(s, x) == occurs(group_sites(checks, who, checks.len()), x)
    &&& forall|i: int, j: int| #[trigger]
        checks_meet(checks, true, i, j) ==> in_front(s, i, j) || in_front(s, j, i)
}

proof fn lemma_active(sites: Seq<(usize, Pauli)>)
    requires
        clean(sites),
    ensures
        active_sites(sites) == sites,
    decreases sites.len(),
{
    if sites.len() > 0 {
        let front = sites.drop_last();
        assert(clean(front)) by {
            assert forall|i: int, j: int| 0 <= i < j < front.len() implies key_lt(
                (#[trigger] front[i]).0.key(),
                (#[trigger] front[j]).0.key(),
            ) by {
                assert(key_lt(sites[i].0.key(), sites[j].0.key()));
            }
            assert forall|i: int| 0 <= i < front.len() implies !((#[trigger] front[i]).1 is I) by {
                assert(!(sites[i].1 is I));
            }
        }
        lemma_active(front);
        assert(!(sites[sites.len() - 1].1 is I));
        assert(front.push(sites.last()) =~= sites);
    } else {
        assert(active_sites(sites) =~= sites);
    }
}

/// A clean string has its Paulis where its sites are.
proof fn lemma_pauli_at_site(sites: Seq<(usize, Pauli)>, e: int)
    requires
        clean(sites),
        0 <= e < sites.len(),
    ensures
        pauli_at(sites, sites[e].0) == sites[e].1,
{
    let q = sites[e].0;
    assert(has_key(sites, q));
    let p = key_position(sites, q);
    if p < e {
        assert(key_lt(sites[p].0.key(), sites[e].0.key()));
    } else if e < p {
        assert(key_lt(sites[e].0.key(), sites[p].0.key()));
    }
}

/// What the list holds: sites of the checks, each once.
#[verifier::spinoff_prover]
proof fn lemma_round_held(s: Seq<Site>, checks: Seq<SignedPauli<usize>>,
    who: Set<int>, base: int)
    requires
        measurable(checks, base),
        holds_round(s, checks, who),
    ensures
        proper(s, checks.len(), base),
        forall|e: int|
            0 <= e < s.len() ==> (#[trigger] s[e]).0 < checks.len() && pauli_at(
                checks[s[e].0 as int].sites,
                s[e].1,
            ) == s[e].2,
        forall|e: int| 0 <= e < s.len() ==> who.contains((#[trigger] s[e]).0 as int),
        forall|j: int, q: usize|
            0 <= j < checks.len() && who.contains(j) && !(#[trigger] pauli_at(
                checks[j].sites,
                q,
            ) is I) ==> exists|e: int| 0 <= e < s.len() && (#[trigger] s[e]).0 == j && s[e].1 == q,
{
    let m = checks.len();
    assert forall|e: int| 0 <= e < s.len() implies (#[trigger] s[e]).0 < m && s[e].1 < base
        && pauli_at(checks[s[e].0 as int].sites, s[e].1) == s[e].2 && who.contains(
        s[e].0 as int,
    ) by {
        lemma_which_site(s, checks, who, base, e);
    }
    assert forall|a: int, b: int|
        0 <= a < b < s.len() && (#[trigger] s[a]).0 == (#[trigger] s[b]).0 implies s[a].1
        != s[b].1 by {
        if s[a].1 == s[b].1 {
            assert(s[a].2 == s[b].2);
            lemma_occurs_twice(s, a, b);
            let x = s[a];
            assert(occurs(s, x) == occurs(group_sites(checks, who, m), x));
            lemma_group_occurs(checks, who, m, x);
            lemma_once(checks, base, x.0 as int, x);
        }
    }
    assert forall|j: int, q: usize|
        0 <= j < m && who.contains(j) && !(#[trigger] pauli_at(checks[j].sites, q) is I) implies exists|
        e: int,
    |
        0 <= e < s.len() && (#[trigger] s[e]).0 == j && s[e].1 == q by {
        let sites = checks[j].sites;
        let p = key_position(sites, q);
        lemma_active(sites);
        let x: Site = (j as usize, q, sites[p].1);
        let own = check_sites(checks, j);
        assert(own[p] == x);
        lemma_occurs_at(own, p);
        lemma_group_occurs(checks, who, m, x);
        assert(occurs(s, x) == occurs(group_sites(checks, who, m), x));
        let e = lemma_occurs_somewhere(s, x);
        assert(s[e].0 == j && s[e].1 == q);
    }
}

proof fn lemma_which_site(s: Seq<Site>, checks: Seq<SignedPauli<usize>>,
    who: Set<int>, base: int, e: int)
    requires
        measurable(checks, base),
        holds_round(s, checks, who),
        0 <= e < s.len(),
    ensures
        s[e].0 < checks.len(),
        s[e].1 < base,
        pauli_at(checks[s[e].0 as int].sites, s[e].1) == s[e].2,
        who.contains(s[e].0 as int),
{
    let m = checks.len();
    let x = s[e];
    lemma_occurs_at(s, e);
    assert(occurs(s, x) == occurs(group_sites(checks, who, m), x));
    lemma_group_occurs(checks, who, m, x);
    let j = x.0 as int;
    let own = check_sites(checks, j);
    let k = lemma_occurs_somewhere(own, x);
    let sites = checks[j].sites;
    lemma_active(sites);
    assert(acts(checks, j)[k].0 < base);
    lemma_pauli_at_site(sites, k);
}

proof fn lemma_once(checks: Seq<SignedPauli<usize>>, base: int, j: int, x: Site)
    requires
        measurable(checks, base),
        0 <= j < checks.len(),
    ensures
        occurs(check_sites(checks, j), x) <= 1,
{
    let sites = checks[j].sites;
    lemma_active(sites);
    let own = check_sites(checks, j);
    assert forall|a: int, b: int| 0 <= a < b < own.len() implies own[a] != own[b] by {
        assert(key_lt(sites[a].0.key(), sites[b].0.key()));
    }
    lemma_distinct_once(own, x);
}

proof fn lemma_distinct_once(s: Seq<Site>, x: Site)
    requires
        forall|a: int, b: int| 0 <= a < b < s.len() ==> s[a] != s[b],
    ensures
        occurs(s, x) <= 1,
    decreases s.len(),
{
    if s.len() > 0 {
        let front = s.drop_last();
        assert forall|a: int, b: int| 0 <= a < b < front.len() implies front[a] != front[b] by {
            assert(s[a] != s[b]);
        }
        lemma_distinct_once(front, x);
        if s.last() == x && occurs(front, x) >= 1 {
            let k = lemma_occurs_somewhere(front, x);
            assert(s[k] != s[s.len() - 1]);
        }
    }
}

/// Whether the site is one of check `i` that anti-commutes with the string.
spec fn clashing(i: int, other: Seq<(usize, Pauli)>) -> spec_fn(Site) -> bool {
    |x: Site| x.0 == i && pauli_at(other, x.1).anticommutes(x.2)
}

/// The sites of a check that anti-commute with a string, counted.
proof fn lemma_clashing_count(
    sites: Seq<(usize, Pauli)>,
    other: Seq<(usize, Pauli)>,
    i: usize,
)
    requires
        strictly_keyed(sites),
        strictly_keyed(other),
    ensures
        count_where(
            Seq::new(sites.len(), |k: int| (i, sites[k].0, sites[k].1)),
            clashing(i as int, other),
        ) == anticommuting_sites(sites, other),
    decreases sites.len() + other.len(),
{
    let f = clashing(i as int, other);
    let all = Seq::new(sites.len(), |k: int| (i, sites[k].0, sites[k].1));
    if sites.len() == 0 {
    } else if other.len() == 0 {
        assert forall|k: int| 0 <= k < all.len() implies !f(#[trigger] all[k]) by {}
        lemma_count_none(all, f);
    } else {
        let rest = sites.skip(1);
        let more = Seq::new(rest.len(), |k: int| (i, rest[k].0, rest[k].1));
        let first = seq![all[0]];
        assert(all =~= first + more);
        lemma_count_add(first, more, f);
        let none = Seq::<Site>::empty();
        assert(first.drop_last() =~= none);
        assert(count_where(none, f) == 0);
        assert(count_where(first, f) == if f(all[0]) {
            1nat
        } else {
            0nat
        });
        lemma_pauli_at_first(sites, sites[0].0);
        lemma_pauli_at_first(other, sites[0].0);
        if key_lt(sites[0].0.key(), other[0].0.key()) {
            lemma_clashing_count(rest, other, i);
            assert forall|k: int| 0 <= k < other.len() implies key_lt(
                sites[0].0.key(),
                (#[trigger] other[k]).0.key(),
            ) by {
                if k > 0 {
                    assert(key_lt(other[0].0.key(), other[k].0.key()));
                }
            }
            lemma_pauli_at_absent(other, sites[0].0);
        } else {
            let tail = other.skip(1);
            let g = clashing(i as int, tail);
            if key_lt(other[0].0.key(), sites[0].0.key()) {
                lemma_clashing_count(sites, tail, i);
                assert forall|k: int| 0 <= k < all.len() implies f(#[trigger] all[k]) == g(
                    all[k],
                ) by {
                    lemma_pauli_at_first(other, sites[k].0);
                    if k > 0 {
                        assert(key_lt(sites[0].0.key(), sites[k].0.key()));
                    }
                }
                lemma_count_same(all, f, g);
            } else {
                lemma_clashing_count(rest, tail, i);
                assert forall|k: int| 0 <= k < more.len() implies f(#[trigger] more[k]) == g(
                    more[k],
                ) by {
                    lemma_pauli_at_first(other, rest[k].0);
                    assert(rest[k] == sites[k + 1]);
                    assert(key_lt(sites[0].0.key(), sites[k + 1].0.key()));
                }
                lemma_count_same(more, f, g);
                assert(pauli_at(other, sites[0].0) == other[0].1);
                assert(sites[0].1.anticommutes(other[0].1) == other[0].1.anticommutes(
                    sites[0].1,
                ));
            }
        }
    }
}

proof fn lemma_count_none(s: Seq<Site>, f: spec_fn(Site) -> bool)
    requires
        forall|k: int| 0 <= k < s.len() ==> !f(#[trigger] s[k]),
    ensures
        count_where(s, f) == 0,
    decreases s.len(),
{
    if s.len() > 0 {
        let front = s.drop_last();
        assert(!f(s[s.len() - 1]));
        assert forall|k: int| 0 <= k < front.len() implies !f(#[trigger] front[k]) by {
            assert(!f(s[k]));
        }
        lemma_count_none(front, f);
    }
}

proof fn lemma_count_same(s: Seq<Site>, f: spec_fn(Site) -> bool, g: spec_fn(Site) -> bool)
    requires
        forall|k: int| 0 <= k < s.len() ==> f(#[trigger] s[k]) == g(s[k]),
    ensures
        count_where(s, f) == count_where(s, g),
    decreases s.len(),
{
    if s.len() > 0 {
        let front = s.drop_last();
        assert(f(s[s.len() - 1]) == g(s[s.len() - 1]));
        assert forall|k: int| 0 <= k < front.len() implies f(#[trigger] front[k]) == g(
            front[k],
        ) by {
            assert(f(s[k]) == g(s[k]));
        }
        lemma_count_same(front, f, g);
    }
}

/// Where check `i` comes in front of check `j`, each of its sites meets all of it.
proof fn lemma_odd_count(
    s: Seq<Site>,
    k: int,
    checks: Seq<SignedPauli<usize>>,
    who: Set<int>,
    base: int,
    i: int,
    j: int,
)
    requires
        measurable(checks, base),
        holds_round(s, checks, who),
        0 <= k <= s.len(),
        0 <= i < checks.len(),
        0 <= j < checks.len(),
        in_front(s, i, j),
        who.contains(j),
    ensures
        odd(s, k, i, j) == (count_where(s.skip(k), clashing(i, checks[j].sites)) % 2 == 1),
    decreases s.len() - k,
{
    let f = clashing(i, checks[j].sites);
    lemma_round_held(s, checks, who, base);
    if k < s.len() {
        lemma_odd_count(s, k + 1, checks, who, base, i, j);
        lemma_skip_count(s, k, f);
        if s[k].0 == i {
            let q = s[k].1;
            lemma_letter_whole(s, k + 1, checks, who, base, i, j, q, k);
        }
    } else {
        assert(s.skip(k) =~= Seq::empty());
    }
}

/// Behind a site of check `i`, in front of check `j`, all of check `j` is to come.
proof fn lemma_letter_whole(
    s: Seq<Site>,
    k: int,
    checks: Seq<SignedPauli<usize>>,
    who: Set<int>,
    base: int,
    i: int,
    j: int,
    q: usize,
    at: int,
)
    requires
        measurable(checks, base),
        holds_round(s, checks, who),
        0 <= at < s.len(),
        k == at + 1,
        s[at].0 == i,
        0 <= j < checks.len(),
        in_front(s, i, j),
        who.contains(j),
    ensures
        letter(s, k, j, q) == pauli_at(checks[j].sites, q),
{
    lemma_round_held(s, checks, who, base);
    if pauli_at(checks[j].sites, q) is I {
        assert forall|e: int| k <= e < s.len() implies !((#[trigger] s[e]).0 == j && s[e].1
            == q) by {
            if s[e].0 == j && s[e].1 == q {
                assert(s[e].2 is I);
                lemma_site_not_identity(s, checks, who, base, e);
            }
        }
        lemma_letter_none(s, k, j, q);
    } else {
        let e = choose|e: int| 0 <= e < s.len() && (#[trigger] s[e]).0 == j && s[e].1 == q;
        assert(at < e);
        lemma_letter_at(s, k, j, q, e, checks.len(), base);
    }
}

proof fn lemma_site_not_identity(
    s: Seq<Site>,
    checks: Seq<SignedPauli<usize>>,
    who: Set<int>,
    base: int,
    e: int,
)
    requires
        measurable(checks, base),
        holds_round(s, checks, who),
        0 <= e < s.len(),
    ensures
        !(s[e].2 is I),
{
    let m = checks.len();
    let x = s[e];
    lemma_occurs_at(s, e);
    assert(occurs(s, x) == occurs(group_sites(checks, who, m), x));
    lemma_group_occurs(checks, who, m, x);
    let own = check_sites(checks, x.0 as int);
    let k = lemma_occurs_somewhere(own, x);
    lemma_active(checks[x.0 as int].sites);
    assert(!(checks[x.0 as int].sites[k].1 is I));
}

/// In all, the sites of one check anti-commute with another check an even number of times.
#[verifier::spinoff_prover]
proof fn lemma_even(
    s: Seq<Site>,
    checks: Seq<SignedPauli<usize>>,
    who: Set<int>,
    base: int,
    i: int,
    j: int,
)
    requires
        measurable(checks, base),
        holds_round(s, checks, who),
        0 <= i < checks.len(),
        0 <= j < checks.len(),
        i != j,
        who.contains(j),
    ensures
        !odd(s, 0, i, j),
{
    let m = checks.len();
    lemma_round_held(s, checks, who, base);
    if who.contains(i) && checks_meet(checks, true, i, j) && in_front(s, i, j) {
        let f = clashing(i, checks[j].sites);
        lemma_odd_count(s, 0, checks, who, base, i, j);
        assert(s.skip(0) =~= s);
        lemma_same_count(s, group_sites(checks, who, m), f);
        lemma_round_count(checks, who, m, i, f);
        let sites = checks[i].sites;
        lemma_active(sites);
        lemma_clashing_count(sites, checks[j].sites, i as usize);
        assert(check_sites(checks, i) =~= Seq::new(
            sites.len(),
            |k: int| (i as usize, sites[k].0, sites[k].1),
        ));
    } else {
        lemma_never_odd(s, 0, checks, who, base, i, j);
    }
}

/// The sites of the round that are of check `i`.
proof fn lemma_round_count(
    checks: Seq<SignedPauli<usize>>,
    who: Set<int>,
    n: nat,
    i: int,
    f: spec_fn(Site) -> bool,
)
    requires
        n <= checks.len() <= usize::MAX,
        0 <= i < checks.len(),
        forall|x: Site| #[trigger] f(x) ==> x.0 == i,
    ensures
        count_where(group_sites(checks, who, n), f) == if i < n && who.contains(i) {
            count_where(check_sites(checks, i), f)
        } else {
            0
        },
    decreases n,
{
    if n > 0 {
        lemma_round_count(checks, who, (n - 1) as nat, i, f);
        let here = check_sites(checks, n - 1);
        lemma_count_add(group_sites(checks, who, (n - 1) as nat), here, f);
        if i != n - 1 && who.contains(n - 1) {
            assert forall|k: int| 0 <= k < here.len() implies !f(#[trigger] here[k]) by {
                assert(here[k].0 == n - 1);
            }
            lemma_count_none(here, f);
        }
    }
}

/// Where no site of check `i` has a clashing one of check `j` behind it, nothing is odd.
proof fn lemma_never_odd(
    s: Seq<Site>,
    k: int,
    checks: Seq<SignedPauli<usize>>,
    who: Set<int>,
    base: int,
    i: int,
    j: int,
)
    requires
        measurable(checks, base),
        holds_round(s, checks, who),
        0 <= i < checks.len(),
        0 <= j < checks.len(),
        i != j,
        0 <= k <= s.len(),
        !checks_meet(checks, true, i, j) || in_front(s, j, i),
    ensures
        !odd(s, k, i, j),
    decreases s.len() - k,
{
    if k < s.len() {
        lemma_never_odd(s, k + 1, checks, who, base, i, j);
        lemma_round_held(s, checks, who, base);
        if s[k].0 == i {
            let q = s[k].1;
            if exists|e: int| k + 1 <= e < s.len() && (#[trigger] s[e]).0 == j && s[e].1 == q {
                let e = choose|e: int|
                    k + 1 <= e < s.len() && (#[trigger] s[e]).0 == j && s[e].1 == q;
                lemma_letter_at(s, k + 1, j, q, e, checks.len(), base);
                if in_front(s, j, i) {
                    assert(e < k);
                }
                if s[e].2.anticommutes(s[k].2) {
                    assert(s[k].2.anticommutes(s[e].2));
                    lemma_meeting(checks, base, i, j, q);
                }
            } else {
                assert forall|e: int| k + 1 <= e < s.len() implies !((#[trigger] s[e]).0 == j
                    && s[e].1 == q) by {}
                lemma_letter_none(s, k + 1, j, q);
            }
        }
    }
}

/// Checks with different Paulis on one qubit meet.
proof fn lemma_meeting(
    checks: Seq<SignedPauli<usize>>,
    base: int,
    i: int,
    j: int,
    q: usize,
)
    requires
        measurable(checks, base),
        0 <= i < checks.len(),
        0 <= j < checks.len(),
        i != j,
        pauli_at(checks[i].sites, q).anticommutes(pauli_at(checks[j].sites, q)),
    ensures
        checks_meet(checks, true, i, j),
{
    let (a, b) = (checks[i].sites, checks[j].sites);
    lemma_active(a);
    lemma_active(b);
    let (x, y) = (key_position(a, q), key_position(b, q));
    assert(sites_meet(acts(checks, i), acts(checks, j), true, x, y));
}

/// X on the ancilla of a check is, in front of a list that holds the round, X on the ancilla
/// times the check.
pub(crate) proof fn lemma_round_drawn(
    s: Seq<Site>,
    checks: Seq<SignedPauli<usize>>,
    who: Set<int>,
    base: int,
    j: int,
    sign: Sign,
)
    requires
        measurable(checks, base),
        holds_round(s, checks, who),
        0 <= j < checks.len(),
        who.contains(j),
    ensures
        ({
            let a = (base + j) as usize;
            behind(controlled_layer(s, base), alone(sign, a, Pauli::X)) == Some(
                Operator {
                    sign,
                    at: |x: usize|
                        if x == a {
                            Pauli::X
                        } else {
                            pauli_at(checks[j].sites, x)
                        },
                },
            )
        }),
{
    let m = checks.len();
    let a = (base + j) as usize;
    let n = s.len() as int;
    lemma_round_held(s, checks, who, base);
    let start = drawn(s, n, m, base, j, sign);
    let x0 = alone(sign, a, Pauli::X);
    assert(start.at =~= x0.at);
    assert(start =~= x0);
    lemma_drawn_back(s, n, m, base, j, sign);
    let gates = controlled_layer(s, base);
    assert(gates.take(n) =~= gates);
    let end = drawn(s, 0, m, base, j, sign);
    let goal = Operator {
        sign,
        at: |x: usize|
            if x == a {
                Pauli::X
            } else {
                pauli_at(checks[j].sites, x)
            },
    };
    assert forall|x: usize| #[trigger] (end.at)(x) == (goal.at)(x) by {
        if x != a {
            if x >= base {
                assert(pauli_at(checks[j].sites, x) is I) by {
                    if !(pauli_at(checks[j].sites, x) is I) {
                        let e = choose|e: int|
                            0 <= e < s.len() && (#[trigger] s[e]).0 == j && s[e].1 == x;
                        assert(s[e].1 < base);
                    }
                }
                if x < base + m {
                    lemma_even(s, checks, who, base, x - base, j);
                }
            } else if pauli_at(checks[j].sites, x) is I {
                assert forall|e: int| 0 <= e < s.len() implies !((#[trigger] s[e]).0 == j
                    && s[e].1 == x) by {
                    if s[e].0 == j && s[e].1 == x {
                        lemma_site_not_identity(s, checks, who, base, e);
                    }
                }
                lemma_letter_none(s, 0, j, x);
            } else {
                let e = choose|e: int| 0 <= e < s.len() && (#[trigger] s[e]).0 == j && s[e].1 == x;
                lemma_letter_at(s, 0, j, x, e, m, base);
            }
        }
    }
    assert(end.at =~= goal.at);
    assert(end =~= goal);
}

// ---------------------------------------------------------------------------
// Operators on the data behind controlled Paulis
// ---------------------------------------------------------------------------
/// Whether the site is one of check `i` that anti-commutes with the operator.
spec fn opposed(i: int, o: Operator<usize>) -> spec_fn(Site) -> bool {
    |x: Site| x.0 == i && (o.at)(x.1).anticommutes(x.2)
}

/// What an operator on the data is in front of the sites from `k` on.
spec fn lifted(s: Seq<Site>, k: int, m: nat, base: int, o: Operator<usize>) -> Operator<usize> {
    Operator {
        sign: o.sign,
        at: |x: usize|
            if base <= x < base + m && count_where(s.skip(k), opposed(x - base, o)) % 2 == 1 {
                Pauli::Z
            } else {
                (o.at)(x)
            },
    }
}

/// The operator acts on the qubits below `base` only.
pub open spec fn on_data(o: Operator<usize>, base: int) -> bool {
    forall|x: usize| base <= x ==> #[trigger] (o.at)(x) is I
}

#[verifier::spinoff_prover]
proof fn lemma_lifted_step(s: Seq<Site>, k: int, m: nat, base: int, o: Operator<usize>)
    requires
        proper(s, m, base),
        on_data(o, base),
        0 <= k < s.len(),
        0 <= base,
        base + m <= usize::MAX,
    ensures
        behind_gate(controlled_layer(s, base)[k], lifted(s, k + 1, m, base, o)) == Some(
            lifted(s, k, m, base, o),
        ),
{
    let (i, q, p) = s[k];
    assert(s[k].0 < m && s[k].1 < base);
    let c = (base + i) as usize;
    let a = lifted(s, k + 1, m, base, o);
    let n = lifted(s, k, m, base, o);
    let r = behind_controlled(p, c, q, a);
    assert(controlled_layer(s, base)[k] == GateModel::Controlled(p, c, q));
    law_sign_group(o.sign, Sign::One, Sign::One);
    assert((o.at)(c) is I);
    assert((a.at)(q) == (o.at)(q));
    assert forall|x: usize| #[trigger] (r.at)(x) == (n.at)(x) by {
        if base <= x < base + m {
            lemma_skip_count(s, k, opposed(x - base, o));
            assert((o.at)(x) is I);
        }
    }
    assert(r.at =~= n.at);
    assert(r =~= n);
}

proof fn lemma_skip_count(s: Seq<Site>, k: int, f: spec_fn(Site) -> bool)
    requires
        0 <= k < s.len(),
    ensures
        count_where(s.skip(k), f) == count_where(s.skip(k + 1), f) + if f(s[k]) {
            1nat
        } else {
            0nat
        },
{
    let first = seq![s[k]];
    assert(s.skip(k) =~= first + s.skip(k + 1));
    lemma_count_add(first, s.skip(k + 1), f);
    let none = Seq::<Site>::empty();
    assert(first.drop_last() =~= none);
    assert(count_where(none, f) == 0);
    assert(count_where(first, f) == if f(s[k]) {
        1nat
    } else {
        0nat
    });
}

proof fn lemma_lifted_back(s: Seq<Site>, k: int, m: nat, base: int, o: Operator<usize>)
    requires
        proper(s, m, base),
        on_data(o, base),
        0 <= k <= s.len(),
        0 <= base,
        base + m <= usize::MAX,
    ensures
        behind(controlled_layer(s, base).take(k), lifted(s, k, m, base, o)) == Some(
            lifted(s, 0, m, base, o),
        ),
    decreases k,
{
    let gates = controlled_layer(s, base);
    if k > 0 {
        lemma_lifted_step(s, k - 1, m, base, o);
        assert(gates.take(k).drop_last() =~= gates.take(k - 1));
        assert(gates.take(k).last() == gates[k - 1]);
        lemma_lifted_back(s, k - 1, m, base, o);
    }
}

/// The sites of a check that oppose the operator, counted.
proof fn lemma_opposed_count(sites: Seq<(usize, Pauli)>, i: usize, o: Operator<usize>)
    ensures
        count_where(
            Seq::new(sites.len(), |k: int| (i, sites[k].0, sites[k].1)),
            opposed(i as int, o),
        ) == clashes_with(o, sites),
    decreases sites.len(),
{
    let all = Seq::new(sites.len(), |k: int| (i, sites[k].0, sites[k].1));
    if sites.len() > 0 {
        let front = sites.drop_last();
        lemma_opposed_count(front, i, o);
        assert(all.drop_last() =~= Seq::new(front.len(), |k: int| (i, front[k].0, front[k].1)));
        assert(all.last() == (i, sites.last().0, sites.last().1));
    }
}

/// An operator on the data in front of a list that holds the round: it has Z on the ancillas
/// of the checks that it anti-commutes with.
pub(crate) proof fn lemma_round_lifted(
    s: Seq<Site>,
    checks: Seq<SignedPauli<usize>>,
    who: Set<int>,
    base: int,
    o: Operator<usize>,
)
    requires
        measurable(checks, base),
        holds_round(s, checks, who),
        on_data(o, base),
    ensures
        ({
            let m = checks.len();
            behind(controlled_layer(s, base), o) == Some(
                Operator {
                    sign: o.sign,
                    at: |x: usize|
                        if base <= x < base + m && who.contains(x - base) && clashes_with(
                            o,
                            checks[x - base].sites,
                        ) % 2 == 1 {
                            Pauli::Z
                        } else {
                            (o.at)(x)
                        },
                },
            )
        }),
{
    let m = checks.len();
    let n = s.len() as int;
    lemma_round_held(s, checks, who, base);
    let start = lifted(s, n, m, base, o);
    assert(s.skip(n) =~= Seq::empty());
    assert(start.at =~= o.at);
    assert(start =~= o);
    lemma_lifted_back(s, n, m, base, o);
    let gates = controlled_layer(s, base);
    assert(gates.take(n) =~= gates);
    let end = lifted(s, 0, m, base, o);
    let goal = Operator {
        sign: o.sign,
        at: |x: usize|
            if base <= x < base + m && who.contains(x - base) && clashes_with(
                o,
                checks[x - base].sites,
            ) % 2 == 1 {
                Pauli::Z
            } else {
                (o.at)(x)
            },
    };
    assert(s.skip(0) =~= s);
    assert forall|x: usize| #[trigger] (end.at)(x) == (goal.at)(x) by {
        if base <= x < base + m {
            let i = x - base;
            let f = opposed(i, o);
            lemma_same_count(s, group_sites(checks, who, m), f);
            lemma_round_count(checks, who, m, i, f);
            let sites = checks[i].sites;
            lemma_active(sites);
            lemma_opposed_count(sites, i as usize, o);
            assert(check_sites(checks, i) =~= Seq::new(
                sites.len(),
                |k: int| (i as usize, sites[k].0, sites[k].1),
            ));
        }
    }
    assert(end.at =~= goal.at);
    assert(end =~= goal);
}

/// A check is an operator on the data that commutes with every check.
pub(crate) proof fn lemma_checks_agree(
    checks: Seq<SignedPauli<usize>>,
    base: int,
    i: int,
    j: int,
)
    requires
        measurable(checks, base),
        0 <= i < checks.len(),
        0 <= j < checks.len(),
    ensures
        clashes_with(operator_of(checks[j]), checks[i].sites) % 2 == 0,
        on_data(operator_of(checks[j]), base),
{
    let o = operator_of(checks[j]);
    let sites = checks[i].sites;
    let n = i as usize;
    let all = Seq::new(sites.len(), |k: int| (n, sites[k].0, sites[k].1));
    lemma_opposed_count(sites, n, o);
    lemma_clashing_count(sites, checks[j].sites, n);
    let f = opposed(n as int, o);
    let g = clashing(n as int, checks[j].sites);
    assert forall|k: int| 0 <= k < all.len() implies f(#[trigger] all[k]) == g(all[k]) by {}
    lemma_count_same(all, f, g);
    assert forall|x: usize| base <= x implies #[trigger] (o.at)(x) is I by {
        lemma_absent(checks, base, j, x);
    }
}

// ---------------------------------------------------------------------------
// Resets and measurements of the ancillas
// ---------------------------------------------------------------------------
/// The operator without its factors on the first `k` ancillas.
spec fn cleared(o: Operator<usize>, base: int, k: int) -> Operator<usize> {
    Operator {
        sign: o.sign,
        at: |x: usize|
            if base <= x < base + k {
                Pauli::I
            } else {
                (o.at)(x)
            },
    }
}

/// Behind the resets, the ancillas have X of value 1 and no Z.
proof fn lemma_resets(m: nat, k: int, base: int, o: Operator<usize>)
    requires
        0 <= k <= m,
        0 <= base,
        base + m <= usize::MAX,
    ensures
        (forall|j: int|
            0 <= j < k ==> !(#[trigger] (o.at)((base + j) as usize)).anticommutes(Pauli::X))
            ==> behind(reset_layer(everyone(m), base).take(k), o) == Some(cleared(o, base, k)),
        (exists|j: int|
            0 <= j < k && (#[trigger] (o.at)((base + j) as usize)).anticommutes(Pauli::X))
            ==> behind(reset_layer(everyone(m), base).take(k), o) is None,
    decreases k,
{
    let gates = reset_layer(everyone(m), base);
    if k == 0 {
        assert(cleared(o, base, k).at =~= o.at);
        assert(cleared(o, base, k) =~= o);
    } else {
        let q = (base + k - 1) as usize;
        assert(gates.take(k).drop_last() =~= gates.take(k - 1));
        assert(gates.take(k).last() == GateModel::<usize>::Reset(Pauli::X, q));
        assert((o.at)((base + (k - 1)) as usize) == (o.at)(q));
        if !(o.at)(q).anticommutes(Pauli::X) {
            let n = if (o.at)(q) is I {
                o
            } else {
                without(o, q)
            };
            assert(behind_gate(gates.take(k).last(), o) == Some(n));
            lemma_resets(m, k - 1, base, n);
            assert forall|j: int| 0 <= j < k - 1 implies #[trigger] (n.at)((base + j) as usize)
                == (o.at)((base + j) as usize) by {}
            let a = cleared(o, base, k);
            let b = cleared(n, base, k - 1);
            assert forall|x: usize| #[trigger] (a.at)(x) == (b.at)(x) by {}
            assert(a.at =~= b.at);
            assert(a =~= b);
            if exists|j: int|
                0 <= j < k && (#[trigger] (o.at)((base + j) as usize)).anticommutes(Pauli::X) {
                let j = choose|j: int|
                    0 <= j < k && (#[trigger] (o.at)((base + j) as usize)).anticommutes(Pauli::X);
                assert((n.at)((base + j) as usize).anticommutes(Pauli::X));
            }
        }
    }
}

/// A measurement keeps what commutes with it.
proof fn lemma_measurements(
    checks: Seq<SignedPauli<usize>>,
    k: int,
    base: int,
    o: Operator<usize>,
)
    requires
        0 <= k <= checks.len(),
        0 <= base,
        base + checks.len() <= usize::MAX,
        forall|j: int|
            0 <= j < k ==> !(#[trigger] (o.at)((base + j) as usize)).anticommutes(Pauli::X),
    ensures
        behind(measure_layer(checks, everyone(checks.len()), base).take(k), o) == Some(o),
    decreases k,
{
    let gates = measure_layer(checks, everyone(checks.len()), base);
    if k > 0 {
        assert(gates.take(k).drop_last() =~= gates.take(k - 1));
        assert(gates.take(k).last() == gates[k - 1]);
        assert(!(o.at)((base + (k - 1)) as usize).anticommutes(Pauli::X));
        lemma_measurements(checks, k - 1, base, o);
    }
}

// ---------------------------------------------------------------------------
// What a round measures
// ---------------------------------------------------------------------------
/// The checks measured as products.
pub open spec fn products(checks: Seq<SignedPauli<usize>>) -> Seq<GateModel<usize>> {
    Seq::new(checks.len(), |j: int| GateModel::MPP(checks[j]))
}

/// The gates measure the checks: record `j` gives the value that check `j` has in front of
/// them, there is no other record, and every operator on the data keeps or loses its value as
/// if the checks themselves had been measured.
pub open spec fn measures_checks(
    s: Seq<GateModel<usize>>,
    checks: Seq<SignedPauli<usize>>,
    base: int,
) -> bool {
    &&& recorders(s).len() == checks.len()
    &&& forall|j: int|
        0 <= j < checks.len() ==> exists|i: int| #[trigger]
            records_value(s, i, j, operator_of(#[trigger] checks[j]))
    &&& forall|o: Operator<usize>|
        on_data(o, base) ==> #[trigger] behind(s, o) == behind(products(checks), o)
}

/// Measured products keep what commutes with all of them, and nothing else.
pub(crate) proof fn lemma_products(checks: Seq<SignedPauli<usize>>, k: int, o: Operator<usize>)
    requires
        0 <= k <= checks.len(),
    ensures
        (forall|j: int| 0 <= j < k ==> clashes_with(o, (#[trigger] checks[j]).sites) % 2 == 0)
            ==> behind(products(checks).take(k), o) == Some(o),
        (exists|j: int| 0 <= j < k && clashes_with(o, (#[trigger] checks[j]).sites) % 2 == 1)
            ==> behind(products(checks).take(k), o) is None,
    decreases k,
{
    let gates = products(checks);
    if k > 0 {
        assert(gates.take(k).drop_last() =~= gates.take(k - 1));
        assert(gates.take(k).last() == GateModel::MPP(checks[k - 1]));
        lemma_products(checks, k - 1, o);
    }
}

pub(crate) proof fn lemma_layered_add(a: Seq<Seq<GateModel<usize>>>, b: Seq<Seq<GateModel<usize>>>)
    ensures
        layered(a + b) == layered(a) + layered(b),
    decreases b.len(),
{
    if b.len() == 0 {
        assert(a + b =~= a);
        assert(layered(a) + layered(b) =~= layered(a));
    } else {
        lemma_layered_add(a, b.drop_last());
        assert((a + b).drop_last() =~= a + b.drop_last());
        assert((a + b).last() == b.last());
        assert(layered(a + b) =~= layered(a) + layered(b));
    }
}

/// A layer without what follows it.
proof fn lemma_one_layer(layer: Seq<GateModel<usize>>, o: Operator<usize>)
    ensures
        layer.len() == 0 ==> layered(seq![layer]) == layer,
        layer.len() > 0 ==> layered(seq![layer]) == layer.push(GateModel::Tick),
        behind(layered(seq![layer]), o) == behind(layer, o),
        recorders(layered(seq![layer])) == recorders(layer),
{
    let none = Seq::<Seq<GateModel<usize>>>::empty();
    let one = seq![layer];
    assert(one.drop_last() =~= none);
    assert(layered(none) =~= Seq::empty());
    if layer.len() == 0 {
        assert(layered(one) =~= layer);
    } else {
        let ticked = layer.push(GateModel::Tick);
        assert(layered(one) =~= ticked);
        assert(ticked.drop_last() =~= layer);
    }
}

/// Where the sites come from: the list that holds site `a` of the joined lists.
spec fn home(lists: Seq<Seq<Site>>, a: int) -> int
    decreases lists.len(),
{
    if lists.len() == 0 {
        0
    } else if a >= joined_lists(lists.drop_last()).len() {
        lists.len() - 1
    } else {
        home(lists.drop_last(), a)
    }
}

proof fn lemma_home(lists: Seq<Seq<Site>>, a: int) -> (k: int)
    requires
        0 <= a < joined_lists(lists).len(),
    ensures
        0 <= home(lists, a) < lists.len(),
        0 <= k < lists[home(lists, a)].len(),
        lists[home(lists, a)][k] == joined_lists(lists)[a],
    decreases lists.len(),
{
    let front = lists.drop_last();
    let before = joined_lists(front);
    if a >= before.len() {
        a - before.len()
    } else {
        lemma_home(front, a)
    }
}

proof fn lemma_home_grows(lists: Seq<Seq<Site>>, a: int, b: int)
    requires
        0 <= a <= b < joined_lists(lists).len(),
    ensures
        home(lists, a) <= home(lists, b),
    decreases lists.len(),
{
    let front = lists.drop_last();
    if b < joined_lists(front).len() {
        lemma_home_grows(front, a, b);
    } else if a < joined_lists(front).len() {
        let k = lemma_home(front, a);
    }
}

/// Checks in one order in the layers are in that order in the joined lists.
proof fn lemma_in_front(
    lists: Seq<Seq<Site>>,
    first: Seq<GateModel<usize>>,
    last: Seq<GateModel<usize>>,
    base: int,
    m: nat,
    i: int,
    j: int,
)
    requires
        0 <= base,
        base + m <= usize::MAX,
        0 <= i < m,
        0 <= j < m,
        comes_before(seq![first] + bucket_layers(lists, base) + seq![last], base, i, j),
    ensures
        in_front(joined_lists(lists), i, j),
{
    let s = joined_lists(lists);
    let layers = seq![first] + bucket_layers(lists, base) + seq![last];
    assert forall|a: int, b: int|
        0 <= a < s.len() && 0 <= b < s.len() && (#[trigger] s[a]).0 == i && (#[trigger] s[b]).0
            == j implies a < b by {
        let x = home(lists, a);
        let y = home(lists, b);
        let k = lemma_home(lists, a);
        let l = lemma_home(lists, b);
        assert(layers[x + 1] == controlled_layer(lists[x], base));
        assert(layers[y + 1] == controlled_layer(lists[y], base));
        assert(acts_for(layers[x + 1][k], base, i, s[a].1));
        assert(acts_for(layers[y + 1][l], base, j, s[b].1));
        assert(works_at(layers[x + 1], base, i, s[a].1));
        assert(works_at(layers[y + 1], base, j, s[b].1));
        if b <= a {
            lemma_home_grows(lists, b, a);
        }
    }
}

/// Controlled Paulis make no records.
proof fn lemma_no_records(lists: Seq<Seq<Site>>, base: int)
    ensures
        recorders(layered(bucket_layers(lists, base))).len() == 0,
    decreases lists.len(),
{
    let layers = bucket_layers(lists, base);
    if lists.len() > 0 {
        let front = lists.drop_last();
        lemma_no_records(front, base);
        assert(layers.drop_last() =~= bucket_layers(front, base));
        let layer = layers.last();
        if layer.len() > 0 {
            let ticked = layer.push(GateModel::Tick);
            assert(ticked.drop_last() =~= layer);
            lemma_recorders_add(layered(layers.drop_last()), ticked);
            lemma_no_recorders(layer);
        }
    }
}

/// The three parts of a round.
spec fn framed(lists: Seq<Seq<Site>>, checks: Seq<SignedPauli<usize>>, base: int) -> Seq<
    GateModel<usize>,
> {
    layered(
        seq![reset_layer(everyone(checks.len()), base)] + bucket_layers(lists, base)
            + seq![measure_layer(checks, everyone(checks.len()), base)],
    )
}

proof fn lemma_framed(lists: Seq<Seq<Site>>, checks: Seq<SignedPauli<usize>>, base: int)
    ensures
        ({
            let m = checks.len();
            let a = layered(seq![reset_layer(everyone(m), base)]);
            let b = layered(bucket_layers(lists, base));
            let c = layered(seq![measure_layer(checks, everyone(m), base)]);
            &&& framed(lists, checks, base) == a + b + c
            &&& recorders(a).len() == 0
            &&& recorders(b).len() == 0
        }),
{
    let m = checks.len();
    let first = reset_layer(everyone(m), base);
    let last = measure_layer(checks, everyone(m), base);
    lemma_layered_add(seq![first] + bucket_layers(lists, base), seq![last]);
    lemma_layered_add(seq![first], bucket_layers(lists, base));
    lemma_no_recorders(first);
    lemma_one_layer(first, alone(Sign::One, 0, Pauli::X));
    lemma_no_records(lists, base);
}

/// The readout of check `j`.
#[verifier::spinoff_prover]
proof fn lemma_framed_reads(
    lists: Seq<Seq<Site>>,
    checks: Seq<SignedPauli<usize>>,
    base: int,
    j: int,
) -> (i: int)
    requires
        measurable(checks, base),
        holds_round(joined_lists(lists), checks, anyone()),
        0 <= j < checks.len(),
    ensures
        records_value(framed(lists, checks, base), i, j, operator_of(checks[j])),
{
    let m = checks.len();
    let s = framed(lists, checks, base);
    let first = reset_layer(everyone(m), base);
    let last = measure_layer(checks, everyone(m), base);
    let a = layered(seq![first]);
    let b = layered(bucket_layers(lists, base));
    let c = layered(seq![last]);
    lemma_framed(lists, checks, base);
    let i = (a + b).len() + j;
    let q = (base + j) as usize;
    let flip = checks[j].sign is NegOne;
    let sign = checks[j].sign;
    let o = alone(sign, q, Pauli::X);
    lemma_one_layer(last, o);
    lemma_one_layer(first, o);
    assert(s[i] == last[j]);
    assert(s[i] == GateModel::<usize>::Measure(Pauli::X, q, flip));
    let head = last.take(j);
    assert(s.take(i) =~= a + b + head);
    assert(sign == if flip {
        Sign::NegOne
    } else {
        Sign::One
    });
    assert forall|k: int| 0 <= k < j implies !(#[trigger] (o.at)(
        (base + k) as usize,
    )).anticommutes(Pauli::X) by {}
    lemma_measurements(checks, j, base, o);
    lemma_behind_add(a + b, head, o);
    lemma_behind_add(a, b, o);
    lemma_layers_behind(lists, base, o);
    lemma_round_drawn(joined_lists(lists), checks, anyone(), base, j, sign);
    let n = Operator {
        sign,
        at: |x: usize|
            if x == q {
                Pauli::X
            } else {
                pauli_at(checks[j].sites, x)
            },
    };
    assert(behind(b, o) == Some(n));
    lemma_one_layer(first, n);
    assert forall|k: int| 0 <= k < m implies !(#[trigger] (n.at)(
        (base + k) as usize,
    )).anticommutes(Pauli::X) by {
        if k != j {
            lemma_absent(checks, base, j, (base + k) as usize);
        }
    }
    lemma_resets(m, m as int, base, n);
    assert(first.take(m as int) =~= first);
    let done = cleared(n, base, m as int);
    let goal = operator_of(checks[j]);
    assert forall|x: usize| #[trigger] (done.at)(x) == (goal.at)(x) by {
        if x >= base {
            lemma_absent(checks, base, j, x);
        }
    }
    assert(done.at =~= goal.at);
    assert(done =~= goal);
    assert forall|k: int| 0 <= k < head.len() implies makes_one(#[trigger] head[k]) by {
        assert(head[k] == last[k]);
    }
    lemma_all_recorders(head);
    lemma_recorders_add(a + b, head);
    lemma_recorders_add(a, b);
    i
}

/// A check has nothing past the data.
pub(crate) proof fn lemma_absent(checks: Seq<SignedPauli<usize>>, base: int, j: int, q: usize)
    requires
        measurable(checks, base),
        0 <= j < checks.len(),
        base <= q,
    ensures
        pauli_at(checks[j].sites, q) is I,
{
    let sites = checks[j].sites;
    if has_key(sites, q) {
        let p = key_position(sites, q);
        lemma_active(sites);
        assert(acts(checks, j)[p].0 < base);
    }
}

/// What a round does to the data.
#[verifier::spinoff_prover]
proof fn lemma_framed_keeps(
    lists: Seq<Seq<Site>>,
    checks: Seq<SignedPauli<usize>>,
    base: int,
    o: Operator<usize>,
)
    requires
        measurable(checks, base),
        holds_round(joined_lists(lists), checks, anyone()),
        on_data(o, base),
    ensures
        behind(framed(lists, checks, base), o) == behind(products(checks), o),
{
    let m = checks.len();
    let s = framed(lists, checks, base);
    let first = reset_layer(everyone(m), base);
    let last = measure_layer(checks, everyone(m), base);
    let a = layered(seq![first]);
    let b = layered(bucket_layers(lists, base));
    let c = layered(seq![last]);
    lemma_framed(lists, checks, base);
    lemma_one_layer(last, o);
    assert forall|k: int| 0 <= k < m implies !(#[trigger] (o.at)(
        (base + k) as usize,
    )).anticommutes(Pauli::X) by {
        assert((o.at)((base + k) as usize) is I);
    }
    lemma_measurements(checks, m as int, base, o);
    assert(last.take(m as int) =~= last);
    lemma_behind_add(a + b, c, o);
    lemma_behind_add(a, b, o);
    lemma_layers_behind(lists, base, o);
    lemma_round_lifted(joined_lists(lists), checks, anyone(), base, o);
    let n = Operator {
        sign: o.sign,
        at: |x: usize|
            if base <= x < base + m && clashes_with(o, checks[x - base].sites) % 2 == 1 {
                Pauli::Z
            } else {
                (o.at)(x)
            },
    };
    assert(behind(b, o) == Some(n));
    lemma_one_layer(first, n);
    lemma_resets(m, m as int, base, n);
    assert(first.take(m as int) =~= first);
    lemma_products(checks, m as int, o);
    assert(products(checks).take(m as int) =~= products(checks));
    if exists|j: int| 0 <= j < m && clashes_with(o, (#[trigger] checks[j]).sites) % 2 == 1 {
        let j = choose|j: int|
            0 <= j < m && clashes_with(o, (#[trigger] checks[j]).sites) % 2 == 1;
        assert((n.at)((base + j) as usize).anticommutes(Pauli::X));
    } else {
        assert forall|j: int| 0 <= j < m implies clashes_with(o, (#[trigger] checks[j]).sites) % 2
            == 0 by {}
        assert forall|k: int| 0 <= k < m implies !(#[trigger] (n.at)(
            (base + k) as usize,
        )).anticommutes(Pauli::X) by {
            assert(clashes_with(o, checks[k].sites) % 2 == 0);
            assert((o.at)((base + k) as usize) is I);
        }
        let done = cleared(n, base, m as int);
        assert forall|x: usize| #[trigger] (done.at)(x) == (o.at)(x) by {
            if x >= base {
                assert((o.at)(x) is I);
            }
        }
        assert(done.at =~= o.at);
        assert(done =~= o);
    }
}

proof fn lemma_framed_measures(
    lists: Seq<Seq<Site>>,
    checks: Seq<SignedPauli<usize>>,
    base: int,
)
    requires
        measurable(checks, base),
        holds_round(joined_lists(lists), checks, anyone()),
    ensures
        measures_checks(framed(lists, checks, base), checks, base),
{
    let m = checks.len();
    let s = framed(lists, checks, base);
    let last = measure_layer(checks, everyone(m), base);
    let a = layered(seq![reset_layer(everyone(m), base)]);
    let b = layered(bucket_layers(lists, base));
    lemma_framed(lists, checks, base);
    lemma_one_layer(last, alone(Sign::One, 0, Pauli::X));
    assert forall|k: int| 0 <= k < last.len() implies makes_one(#[trigger] last[k]) by {}
    lemma_all_recorders(last);
    lemma_recorders_add(a + b, layered(seq![last]));
    lemma_recorders_add(a, b);
    assert forall|j: int| 0 <= j < m implies exists|i: int| #[trigger]
        records_value(s, i, j, operator_of(#[trigger] checks[j])) by {
        let i = lemma_framed_reads(lists, checks, base, j);
    }
    assert forall|o: Operator<usize>| on_data(o, base) implies #[trigger] behind(s, o) == behind(
        products(checks),
        o,
    ) by {
        lemma_framed_keeps(lists, checks, base, o);
    }
}

/// A round under either schedule measures its checks: followed back through the measurement
/// of its ancilla, the controlled Paulis and the reset, each record is the value, with its
/// sign, that the check had in front of the round, and the data are left as measuring the
/// checks themselves leaves them.
pub proof fn law_rounds_measure_their_checks(
    schedule: SecSchedule,
    checks: Seq<SignedPauli<usize>>,
    base: int,
)
    requires
        measurable(checks, base),
    ensures
        measures_checks(round_gates(schedule, checks, base), checks, base),
{
    let m = checks.len();
    if m == 0 {
        assert(products(checks) =~= Seq::empty());
    } else {
        match schedule {
            SecSchedule::Legacy => {
                law_lockstep_rounds_measure(checks, base);
            },
            SecSchedule::Lrc => {
                law_sequential_rounds_measure(checks, base);
            },
        }
    }
}

/// A round of conflict classes one after another measures its checks.
pub proof fn law_sequential_rounds_measure(checks: Seq<SignedPauli<usize>>, base: int)
    requires
        measurable(checks, base),
    ensures
        measures_checks(layered(sequential_layers(checks, base)), checks, base),
{
    let m = checks.len();
    let classes = class_colors(meeting(checks, true), m);
    let lists = phase_sites(checks, classes, color_count(classes));
    let s = joined_lists(lists);
    let first = reset_layer(everyone(m), base);
    let last = measure_layer(checks, everyone(m), base);
    law_sequential_round_is_complete(checks, base, (0, 0, Pauli::I));
    assert forall|x: Site| #[trigger] occurs(s, x) == occurs(
        group_sites(checks, anyone(), m),
        x,
    ) by {
        lemma_anyone(checks, m);
        law_sequential_round_is_complete(checks, base, x);
        lemma_joined_occurs(lists, x);
    }
    assert forall|i: int, j: int| #[trigger] checks_meet(checks, true, i, j) implies in_front(
        s,
        i,
        j,
    ) || in_front(s, j, i) by {
        law_sequential_order_is_consistent(checks, base, i, j);
        if comes_before(sequential_layers(checks, base), base, i, j) {
            lemma_in_front(lists, first, last, base, m, i, j);
        } else {
            lemma_in_front(lists, first, last, base, m, j, i);
        }
    }
    lemma_framed_measures(lists, checks, base);
}

/// A round in lockstep classes measures its checks.
pub proof fn law_lockstep_rounds_measure(checks: Seq<SignedPauli<usize>>, base: int)
    requires
        measurable(checks, base),
    ensures
        measures_checks(layered(legacy_layers(checks, base)), checks, base),
{
    let m = checks.len();
    let colors = greedy_colors(meeting(checks, false), m);
    let lists = class_sites(checks, colors, color_count(colors));
    let s = joined_lists(lists);
    let first = reset_layer(everyone(m), base);
    let last = measure_layer(checks, everyone(m), base);
    law_legacy_round_is_complete(checks, base, (0, 0, Pauli::I));
    assert forall|x: Site| #[trigger] occurs(s, x) == occurs(
        group_sites(checks, anyone(), m),
        x,
    ) by {
        lemma_anyone(checks, m);
        law_legacy_round_is_complete(checks, base, x);
        lemma_joined_occurs(lists, x);
    }
    assert forall|i: int, j: int| #[trigger] checks_meet(checks, true, i, j) implies in_front(
        s,
        i,
        j,
    ) || in_front(s, j, i) by {
        let (x, y) = choose|x: int, y: int|
            sites_meet(acts(checks, i), acts(checks, j), true, x, y);
        assert(sites_meet(acts(checks, i), acts(checks, j), false, x, y));
        law_legacy_order_is_consistent(checks, base, i, j);
        if comes_before(legacy_layers(checks, base), base, i, j) {
            lemma_in_front(lists, first, last, base, m, i, j);
        } else {
            lemma_in_front(lists, first, last, base, m, j, i);
        }
    }
    lemma_framed_measures(lists, checks, base);
}

} // verus!
