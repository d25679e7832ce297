//! Pauli operators as a group, and the Clifford frame as a conjugation on it.

use vstd::prelude::*;

#[allow(unused_imports)]
use crate::compile::frame_after;
#[allow(unused_imports)]
use crate::keyed::{has_key, key_lt, key_position, strictly_keyed, OrderedKey};
#[allow(unused_imports)]
use crate::pbc::{
    anticommuting_sites, law_commute_iff_products_agree, law_pauli_product,
    law_product_is_sitewise, law_sign_group, law_string_squares_to_identity,
    lemma_pauli_at_absent, lemma_pauli_at_first, pauli_at, signed_mul, single_site, string_mul,
    strings_commute, ArchitectureQubit, FrameModel, Pauli, ProductOp, Sign, SignedPauli,
};

verus! {

// ---------------------------------------------------------------------------
// Signs
// ---------------------------------------------------------------------------
/// Two products of signs, rearranged.
proof fn lemma_sign_swap(a: Sign, b: Sign, c: Sign, d: Sign)
    ensures
        a.times(b).times(c.times(d)) == a.times(c).times(b.times(d)),
{
    law_sign_group(a, b, c.times(d));
    law_sign_group(b, c, d);
    law_sign_group(c, b, d);
    law_sign_group(a, c, b.times(d));
}

proof fn lemma_sign_brackets(s: Sign, t: Sign, u: Sign, v: Sign, a: Sign, b: Sign, c: Sign)
    requires
        s.times(t) == u.times(v),
    ensures
        t.times(s.times(a.times(b)).times(c)) == v.times(a.times(u.times(b.times(c)))),
{
    let x = a.times(b).times(c);
    law_sign_group(a, b, c);
    law_sign_group(s, a.times(b), c);
    law_sign_group(t, s, x);
    law_sign_group(a, u, b.times(c));
    law_sign_group(u, a, b.times(c));
    law_sign_group(v, u, x);
}

// ---------------------------------------------------------------------------
// Strings without redundancy
// ---------------------------------------------------------------------------
/// At most one site per qubit, in order, and no identities.
pub open spec fn clean<A: OrderedKey>(s: Seq<(A, Pauli)>) -> bool {
    &&& strictly_keyed(s)
    &&& forall|i: int| 0 <= i < s.len() ==> !((#[trigger] s[i]).1 is I)
}

/// The operator of `s` on each qubit.
pub open spec fn at<A>(s: Seq<(A, Pauli)>) -> spec_fn(A) -> Pauli {
    |q: A| pauli_at(s, q)
}

/// The product of clean strings is clean.
proof fn lemma_mul_clean<A: OrderedKey>(a: Seq<(A, Pauli)>, b: Seq<(A, Pauli)>)
    requires
        clean(a),
        clean(b),
    ensures
        clean(string_mul(a, b).sites),
{
    if a.len() + b.len() > 0 {
        let q = if a.len() > 0 {
            a[0].0
        } else {
            b[0].0
        };
        law_product_is_sitewise(a, b, q);
    }
    lemma_mul_no_identity(a, b);
}

proof fn lemma_mul_no_identity<A: OrderedKey>(a: Seq<(A, Pauli)>, b: Seq<(A, Pauli)>)
    requires
        forall|i: int| 0 <= i < a.len() ==> !((#[trigger] a[i]).1 is I),
        forall|i: int| 0 <= i < b.len() ==> !((#[trigger] b[i]).1 is I),
    ensures
        forall|i: int|
            0 <= i < string_mul(a, b).sites.len() ==> !((#[trigger] string_mul(a, b).sites[i]).1 is I),
    decreases a.len() + b.len(),
{
    if a.len() == 0 && b.len() == 0 {
    } else if b.len() == 0 || (a.len() > 0 && key_lt(a[0].0.key(), b[0].0.key())) {
        lemma_mul_no_identity(a.skip(1), b);
    } else if a.len() == 0 || key_lt(b[0].0.key(), a[0].0.key()) {
        lemma_mul_no_identity(a, b.skip(1));
    } else {
        lemma_mul_no_identity(a.skip(1), b.skip(1));
    }
}

/// A clean string has a site exactly where it is not the identity.
proof fn lemma_has_key<A: OrderedKey>(s: Seq<(A, Pauli)>, q: A)
    requires
        clean(s),
    ensures
        has_key(s, q) <==> !(pauli_at(s, q) is I),
{
    if has_key(s, q) {
        let p = key_position(s, q);
        assert(!(s[p].1 is I));
    }
}

/// A clean string is what it is on every qubit.
pub proof fn law_clean_strings_are_determined<A: OrderedKey>(
    a: Seq<(A, Pauli)>,
    b: Seq<(A, Pauli)>,
)
    requires
        clean(a),
        clean(b),
        forall|q: A| #[trigger] pauli_at(a, q) == pauli_at(b, q),
    ensures
        a == b,
    decreases a.len(),
{
    if a.len() == 0 {
        if b.len() > 0 {
            lemma_pauli_at_first(b, b[0].0);
            assert(pauli_at(a, b[0].0) == pauli_at(b, b[0].0));
            assert(!has_key(a, b[0].0));
        }
        assert(a =~= b);
    } else {
        lemma_pauli_at_first(a, a[0].0);
        assert(pauli_at(a, a[0].0) == pauli_at(b, a[0].0));
        lemma_has_key(b, a[0].0);
        let p = key_position(b, a[0].0);
        assert(b[p].0 == a[0].0);
        lemma_pauli_at_first(b, b[0].0);
        assert(pauli_at(a, b[0].0) == pauli_at(b, b[0].0));
        lemma_has_key(a, b[0].0);
        let r = key_position(a, b[0].0);
        assert(a[r].0 == b[0].0);
        if p > 0 {
            assert(key_lt(b[0].0.key(), b[p].0.key()));
            assert(r > 0 ==> key_lt(a[0].0.key(), a[r].0.key()));
        }
        assert(p == 0);
        assert(a[0] == b[0]);
        let ta = a.skip(1);
        let tb = b.skip(1);
        assert(clean(ta)) by {
            assert forall|i: int| 0 <= i < ta.len() implies !((#[trigger] ta[i]).1 is I) by {
                assert(ta[i] == a[i + 1]);
            }
        }
        assert(clean(tb)) by {
            assert forall|i: int| 0 <= i < tb.len() implies !((#[trigger] tb[i]).1 is I) by {
                assert(tb[i] == b[i + 1]);
            }
        }
        assert forall|q: A| #[trigger] pauli_at(ta, q) == pauli_at(tb, q) by {
            lemma_pauli_at_first(a, q);
            lemma_pauli_at_first(b, q);
            assert(pauli_at(a, q) == pauli_at(b, q));
            if q == a[0].0 {
                lemma_pauli_at_absent(ta, q);
                lemma_pauli_at_absent(tb, q);
            }
        }
        law_clean_strings_are_determined(ta, tb);
        assert(a =~= seq![a[0]] + ta);
        assert(b =~= seq![b[0]] + tb);
    }
}

// ---------------------------------------------------------------------------
// Phases along a list of qubits
// ---------------------------------------------------------------------------
/// The qubits are in order.
pub open spec fn ordered<A: OrderedKey>(qs: Seq<A>) -> bool {
    forall|i: int, j: int|
        0 <= i < j < qs.len() ==> key_lt((#[trigger] qs[i]).key(), (#[trigger] qs[j]).key())
}

/// All sites of `s` are on qubits of `qs`.
pub open spec fn covers<A>(qs: Seq<A>, s: Seq<(A, Pauli)>) -> bool {
    forall|i: int| 0 <= i < s.len() ==> qs.contains((#[trigger] s[i]).0)
}

/// The phase that multiplying out the operators on the qubits of `qs` gives.
pub open spec fn phase_over<A>(
    qs: Seq<A>,
    f: spec_fn(A) -> Pauli,
    g: spec_fn(A) -> Pauli,
) -> Sign
    decreases qs.len(),
{
    if qs.len() == 0 {
        Sign::One
    } else {
        f(qs[0]).product_sign(g(qs[0])).times(phase_over(qs.skip(1), f, g))
    }
}

proof fn lemma_phase_same<A>(
    qs: Seq<A>,
    f: spec_fn(A) -> Pauli,
    g: spec_fn(A) -> Pauli,
    h: spec_fn(A) -> Pauli,
    k: spec_fn(A) -> Pauli,
)
    requires
        forall|i: int| 0 <= i < qs.len() ==> f(#[trigger] qs[i]) == h(qs[i]) && g(qs[i]) == k(qs[i]),
    ensures
        phase_over(qs, f, g) == phase_over(qs, h, k),
    decreases qs.len(),
{
    if qs.len() > 0 {
        let t = qs.skip(1);
        assert(f(qs[0]) == h(qs[0]));
        assert forall|i: int| 0 <= i < t.len() implies f(#[trigger] t[i]) == h(t[i]) && g(t[i]) == k(
            t[i],
        ) by {
            assert(t[i] == qs[i + 1]);
        }
        lemma_phase_same(t, f, g, h, k);
    }
}

/// The phase along a list that grows at its end.
proof fn lemma_phase_push<A>(
    qs: Seq<A>,
    q: A,
    f: spec_fn(A) -> Pauli,
    g: spec_fn(A) -> Pauli,
)
    ensures
        phase_over(qs.push(q), f, g) == phase_over(qs, f, g).times(f(q).product_sign(g(q))),
    decreases qs.len(),
{
    let one = f(q).product_sign(g(q));
    if qs.len() == 0 {
        let none = Seq::<A>::empty();
        assert(qs =~= none);
        assert(qs.push(q).skip(1) =~= none);
        assert(phase_over(none, f, g) == Sign::One);
        law_sign_group(one, one, one);
    } else {
        lemma_phase_push(qs.skip(1), q, f, g);
        assert(qs.push(q).skip(1) =~= qs.skip(1).push(q));
        law_sign_group(
            f(qs[0]).product_sign(g(qs[0])),
            phase_over(qs.skip(1), f, g),
            one,
        );
    }
}

/// What is left of a string once the first qubit of the list is dealt with.
spec fn past<A>(s: Seq<(A, Pauli)>, q: A) -> Seq<(A, Pauli)> {
    if s.len() > 0 && s[0].0 == q {
        s.skip(1)
    } else {
        s
    }
}

proof fn lemma_past<A: OrderedKey>(qs: Seq<A>, s: Seq<(A, Pauli)>)
    requires
        qs.len() > 0,
        ordered(qs),
        covers(qs, s),
        strictly_keyed(s),
    ensures
        covers(qs.skip(1), past(s, qs[0])),
        strictly_keyed(past(s, qs[0])),
        pauli_at(s, qs[0]) == if s.len() > 0 && s[0].0 == qs[0] {
            s[0].1
        } else {
            Pauli::I
        },
        s.len() > 0 && s[0].0 != qs[0] ==> key_lt(qs[0].key(), s[0].0.key()),
        forall|i: int|
            0 <= i < qs.skip(1).len() ==> pauli_at(s, #[trigger] qs.skip(1)[i]) == pauli_at(
                past(s, qs[0]),
                qs.skip(1)[i],
            ),
{
    let q = qs[0];
    let t = past(s, q);
    let rest = qs.skip(1);
    assert forall|i: int| 0 <= i < rest.len() implies key_lt(q.key(), (#[trigger] rest[i]).key()) by {
        assert(rest[i] == qs[i + 1]);
    }
    if s.len() > 0 {
        lemma_pauli_at_first(s, q);
        let w = qs.index_of(s[0].0);
        assert(qs[w] == s[0].0);
        if s[0].0 != q {
            assert(w > 0);
            assert(key_lt(qs[0].key(), qs[w].key()));
            assert forall|i: int| 0 <= i < s.len() implies key_lt(
                q.key(),
                (#[trigger] s[i]).0.key(),
            ) by {
                assert(i > 0 ==> key_lt(s[0].0.key(), s[i].0.key()));
            }
            lemma_pauli_at_absent(s, q);
        }
    }
    assert forall|i: int| 0 <= i < t.len() implies rest.contains((#[trigger] t[i]).0) by {
        let x = if s[0].0 == q {
            i + 1
        } else {
            i
        };
        assert(t[i] == s[x]);
        assert(x > 0 ==> key_lt(s[0].0.key(), s[x].0.key()));
        let w = qs.index_of(s[x].0);
        assert(qs[w] == s[x].0);
        assert(w > 0);
        assert(rest[w - 1] == s[x].0);
    }
    assert forall|i: int| 0 <= i < rest.len() implies pauli_at(s, #[trigger] rest[i]) == pauli_at(
        t,
        rest[i],
    ) by {
        if s.len() > 0 && s[0].0 == q {
            lemma_pauli_at_first(s, rest[i]);
        }
    }
    if s.len() > 0 && s[0].0 == q {
        lemma_pauli_at_first(s, q);
    }
}

/// How a product starts, at a qubit that no site of the factors comes before.
proof fn lemma_product_step<A: OrderedKey>(a: Seq<(A, Pauli)>, b: Seq<(A, Pauli)>, q: A)
    requires
        a.len() > 0 && a[0].0 != q ==> key_lt(q.key(), a[0].0.key()),
        b.len() > 0 && b[0].0 != q ==> key_lt(q.key(), b[0].0.key()),
    ensures
        string_mul(a, b).sign == if a.len() > 0 && a[0].0 == q && b.len() > 0 && b[0].0 == q {
            a[0].1.product_sign(b[0].1).times(string_mul(past(a, q), past(b, q)).sign)
        } else {
            string_mul(past(a, q), past(b, q)).sign
        },
{
}

/// The phase of a product is the phase along any list of qubits that covers the
/// factors.
#[verifier::spinoff_prover]
proof fn lemma_phase_of_product<A: OrderedKey>(
    qs: Seq<A>,
    a: Seq<(A, Pauli)>,
    b: Seq<(A, Pauli)>,
)
    requires
        ordered(qs),
        covers(qs, a),
        covers(qs, b),
        strictly_keyed(a),
        strictly_keyed(b),
    ensures
        string_mul(a, b).sign == phase_over(qs, at(a), at(b)),
    decreases qs.len(),
{
    if qs.len() == 0 {
        if a.len() > 0 {
            assert(qs.contains(a[0].0));
        }
        if b.len() > 0 {
            assert(qs.contains(b[0].0));
        }
    } else {
        let q = qs[0];
        let rest = qs.skip(1);
        lemma_past(qs, a);
        lemma_past(qs, b);
        let ta = past(a, q);
        let tb = past(b, q);
        assert(ordered(rest)) by {
            assert forall|i: int, j: int| 0 <= i < j < rest.len() implies key_lt(
                (#[trigger] rest[i]).key(),
                (#[trigger] rest[j]).key(),
            ) by {
                assert(rest[i] == qs[i + 1] && rest[j] == qs[j + 1]);
            }
        }
        lemma_phase_of_product(rest, ta, tb);
        lemma_phase_same(rest, at(a), at(b), at(ta), at(tb));
        let here = at(a)(q).product_sign(at(b)(q));
        law_sign_group(phase_over(rest, at(a), at(b)), here, here);
        lemma_product_step(a, b, q);
        assert(phase_over(qs, at(a), at(b)) == here.times(phase_over(rest, at(a), at(b))));
        assert(at(a)(q) == pauli_at(a, q));
        assert(at(b)(q) == pauli_at(b, q));
        if !(a.len() > 0 && a[0].0 == q && b.len() > 0 && b[0].0 == q) {
            assert(here == Sign::One);
        }
    }
}

/// A list of qubits that covers two strings.
proof fn lemma_cover<A: OrderedKey>(a: Seq<(A, Pauli)>, b: Seq<(A, Pauli)>) -> (qs: Seq<A>)
    requires
        strictly_keyed(a),
        strictly_keyed(b),
    ensures
        ordered(qs),
        covers(qs, a),
        covers(qs, b),
{
    let xs = Seq::new(a.len(), |i: int| (a[i].0, Pauli::X));
    let zs = Seq::new(b.len(), |i: int| (b[i].0, Pauli::Z));
    assert(strictly_keyed(xs));
    assert(strictly_keyed(zs));
    let w = string_mul(xs, zs).sites;
    let qs = Seq::new(w.len(), |i: int| w[i].0);
    if a.len() + b.len() > 0 {
        let q = if a.len() > 0 {
            a[0].0
        } else {
            b[0].0
        };
        law_product_is_sitewise(xs, zs, q);
    }
    assert(strictly_keyed(w));
    assert(ordered(qs));
    assert forall|q: A| (has_key(a, q) || has_key(b, q)) implies #[trigger] qs.contains(q) by {
        law_product_is_sitewise(xs, zs, q);
        if has_key(a, q) {
            assert(xs[key_position(a, q)].0 == q);
            assert(xs[key_position(xs, q)].1 is X);
        }
        if has_key(b, q) {
            assert(zs[key_position(b, q)].0 == q);
            assert(zs[key_position(zs, q)].1 is Z);
        }
        assert(pauli_at(xs, q) is X || pauli_at(xs, q) is I) by {
            if has_key(xs, q) {
                assert(xs[key_position(xs, q)].1 is X);
            }
        }
        assert(pauli_at(zs, q) is Z || pauli_at(zs, q) is I) by {
            if has_key(zs, q) {
                assert(zs[key_position(zs, q)].1 is Z);
            }
        }
        assert(!(pauli_at(w, q) is I));
        assert(has_key(w, q));
        assert(qs[key_position(w, q)] == q);
    }
    assert forall|i: int| 0 <= i < a.len() implies qs.contains((#[trigger] a[i]).0) by {
        assert(has_key(a, a[i].0));
    }
    assert forall|i: int| 0 <= i < b.len() implies qs.contains((#[trigger] b[i]).0) by {
        assert(has_key(b, b[i].0));
    }
    qs
}

/// A list of qubits that covers three strings.
proof fn lemma_cover_three<A: OrderedKey>(
    a: Seq<(A, Pauli)>,
    b: Seq<(A, Pauli)>,
    c: Seq<(A, Pauli)>,
) -> (qs: Seq<A>)
    requires
        strictly_keyed(a),
        strictly_keyed(b),
        strictly_keyed(c),
    ensures
        ordered(qs),
        covers(qs, a),
        covers(qs, b),
        covers(qs, c),
{
    let two = lemma_cover(a, b);
    let s = Seq::new(two.len(), |i: int| (two[i], Pauli::X));
    assert(strictly_keyed(s));
    let qs = lemma_cover(s, c);
    assert forall|q: A| two.contains(q) implies #[trigger] qs.contains(q) by {
        let i = two.index_of(q);
        assert(s[i].0 == q);
    }
    qs
}

/// A list that covers the factors covers the product.
proof fn lemma_product_covered<A: OrderedKey>(
    qs: Seq<A>,
    a: Seq<(A, Pauli)>,
    b: Seq<(A, Pauli)>,
)
    requires
        clean(a),
        clean(b),
        covers(qs, a),
        covers(qs, b),
    ensures
        covers(qs, string_mul(a, b).sites),
        clean(string_mul(a, b).sites),
{
    let w = string_mul(a, b).sites;
    lemma_mul_clean(a, b);
    assert forall|i: int| 0 <= i < w.len() implies qs.contains((#[trigger] w[i]).0) by {
        let q = w[i].0;
        assert(has_key(w, q));
        lemma_has_key(w, q);
        law_product_is_sitewise(a, b, q);
        lemma_has_key(a, q);
        lemma_has_key(b, q);
        if has_key(a, q) {
            assert(a[key_position(a, q)].0 == q);
        } else {
            assert(has_key(b, q));
            assert(b[key_position(b, q)].0 == q);
        }
    }
}

proof fn lemma_phase_assoc<A>(
    qs: Seq<A>,
    f: spec_fn(A) -> Pauli,
    g: spec_fn(A) -> Pauli,
    h: spec_fn(A) -> Pauli,
    fg: spec_fn(A) -> Pauli,
    gh: spec_fn(A) -> Pauli,
)
    requires
        forall|q: A| #[trigger] fg(q) == f(q).product(g(q)),
        forall|q: A| #[trigger] gh(q) == g(q).product(h(q)),
    ensures
        phase_over(qs, f, g).times(phase_over(qs, fg, h)) == phase_over(qs, g, h).times(
            phase_over(qs, f, gh),
        ),
    decreases qs.len(),
{
    if qs.len() > 0 {
        let q = qs[0];
        let t = qs.skip(1);
        lemma_phase_assoc(t, f, g, h, fg, gh);
        law_pauli_product(f(q), g(q), h(q));
        assert(fg(q) == f(q).product(g(q)));
        assert(gh(q) == g(q).product(h(q)));
        lemma_sign_swap(
            f(q).product_sign(g(q)),
            phase_over(t, f, g),
            fg(q).product_sign(h(q)),
            phase_over(t, fg, h),
        );
        lemma_sign_swap(
            g(q).product_sign(h(q)),
            phase_over(t, g, h),
            f(q).product_sign(gh(q)),
            phase_over(t, f, gh),
        );
    }
}

// ---------------------------------------------------------------------------
// The group of signed operators
// ---------------------------------------------------------------------------
/// The identity operator.
pub open spec fn unit<A>() -> SignedPauli<A> {
    SignedPauli { sign: Sign::One, sites: Seq::empty() }
}

/// The product of signed operators is associative.
pub proof fn law_product_is_associative<A: OrderedKey>(
    a: SignedPauli<A>,
    b: SignedPauli<A>,
    c: SignedPauli<A>,
)
    requires
        clean(a.sites),
        clean(b.sites),
        clean(c.sites),
    ensures
        signed_mul(signed_mul(a, b), c) == signed_mul(a, signed_mul(b, c)),
        clean(signed_mul(a, b).sites),
{
    let ab = string_mul(a.sites, b.sites);
    let bc = string_mul(b.sites, c.sites);
    let qs = lemma_cover_three(a.sites, b.sites, c.sites);
    lemma_product_covered(qs, a.sites, b.sites);
    lemma_product_covered(qs, b.sites, c.sites);
    lemma_phase_of_product(qs, a.sites, b.sites);
    lemma_phase_of_product(qs, b.sites, c.sites);
    lemma_phase_of_product(qs, ab.sites, c.sites);
    lemma_phase_of_product(qs, a.sites, bc.sites);
    assert forall|q: A| #[trigger] at(ab.sites)(q) == at(a.sites)(q).product(at(b.sites)(q)) by {
        law_product_is_sitewise(a.sites, b.sites, q);
    }
    assert forall|q: A| #[trigger] at(bc.sites)(q) == at(b.sites)(q).product(at(c.sites)(q)) by {
        law_product_is_sitewise(b.sites, c.sites, q);
    }
    lemma_phase_assoc(
        qs,
        at(a.sites),
        at(b.sites),
        at(c.sites),
        at(ab.sites),
        at(bc.sites),
    );
    let left = string_mul(ab.sites, c.sites);
    let right = string_mul(a.sites, bc.sites);
    lemma_mul_clean(ab.sites, c.sites);
    lemma_mul_clean(a.sites, bc.sites);
    assert forall|q: A| #[trigger] pauli_at(left.sites, q) == pauli_at(right.sites, q) by {
        law_product_is_sitewise(a.sites, b.sites, q);
        law_product_is_sitewise(b.sites, c.sites, q);
        law_product_is_sitewise(ab.sites, c.sites, q);
        law_product_is_sitewise(a.sites, bc.sites, q);
        law_pauli_product(pauli_at(a.sites, q), pauli_at(b.sites, q), pauli_at(c.sites, q));
    }
    law_clean_strings_are_determined(left.sites, right.sites);
    lemma_sign_brackets(
        ab.sign,
        left.sign,
        bc.sign,
        right.sign,
        a.sign,
        b.sign,
        c.sign,
    );
}

proof fn lemma_empty_string<A: OrderedKey>(a: Seq<(A, Pauli)>)
    ensures
        string_mul(a, Seq::empty()).sites == a,
        string_mul(a, Seq::empty()).sign == Sign::One,
        string_mul(Seq::empty(), a).sites == a,
        string_mul(Seq::empty(), a).sign == Sign::One,
    decreases a.len(),
{
    if a.len() > 0 {
        lemma_empty_string(a.skip(1));
        assert(seq![a[0]] + a.skip(1) =~= a);
    } else {
        assert(a =~= Seq::<(A, Pauli)>::empty());
    }
}

/// The identity is neutral.
pub proof fn law_unit_is_neutral<A: OrderedKey>(a: SignedPauli<A>)
    ensures
        signed_mul(a, unit()) == a,
        signed_mul(unit(), a) == a,
{
    lemma_empty_string(a.sites);
    law_sign_group(a.sign, Sign::One, Sign::One);
    assert(signed_mul(a, unit()) =~= a);
    assert(signed_mul(unit(), a) =~= a);
}

/// Phases can be taken out of a product.
pub proof fn law_phases_come_out<A: OrderedKey>(a: SignedPauli<A>, b: SignedPauli<A>, s: Sign)
    ensures
        signed_mul(a.scaled(s), b) == signed_mul(a, b).scaled(s),
        signed_mul(a, b.scaled(s)) == signed_mul(a, b).scaled(s),
{
    let p = string_mul(a.sites, b.sites).sign;
    law_sign_group(a.sign, s, b.sign);
    law_sign_group(s, b.sign, s);
    law_sign_group(a.sign, b.sign, s);
    law_sign_group(p, a.sign.times(b.sign), s);
    assert(signed_mul(a.scaled(s), b) =~= signed_mul(a, b).scaled(s));
    assert(signed_mul(a, b.scaled(s)) =~= signed_mul(a, b).scaled(s));
}

/// Scaling twice.
pub proof fn lemma_scaled_twice<A>(a: SignedPauli<A>, s: Sign, t: Sign)
    ensures
        a.scaled(s).scaled(t) == a.scaled(s.times(t)),
        a.scaled(Sign::One) == a,
{
    law_sign_group(a.sign, s, t);
    assert(a.scaled(s).scaled(t) =~= a.scaled(s.times(t)));
    assert(a.scaled(Sign::One) =~= a);
}

/// The sign that swapping the factors gives.
pub open spec fn swap_sign<A: OrderedKey>(a: SignedPauli<A>, b: SignedPauli<A>) -> Sign {
    if strings_commute(a.sites, b.sites) {
        Sign::One
    } else {
        Sign::NegOne
    }
}

/// Swapping the factors of a product negates it exactly when they do not commute.
pub proof fn law_swapping_factors<A: OrderedKey>(a: SignedPauli<A>, b: SignedPauli<A>)
    ensures
        signed_mul(a, b) == signed_mul(b, a).scaled(swap_sign(a, b)),
        strings_commute(a.sites, b.sites) == strings_commute(b.sites, a.sites),
{
    law_commute_iff_products_agree(a.sites, b.sites);
    let p = string_mul(a.sites, b.sites).sign;
    let r = string_mul(b.sites, a.sites).sign;
    let s = swap_sign(a, b);
    let x = a.sign.times(b.sign);
    law_sign_group(a.sign, b.sign, s);
    law_sign_group(r.times(x), Sign::NegOne, s);
    law_sign_group(Sign::NegOne, r, x);
    assert(signed_mul(a, b) =~= signed_mul(b, a).scaled(s));
}

/// Products of the four signs.
pub proof fn lemma_quarter_turns()
    ensures
        Sign::J.times(Sign::NegJ) == Sign::One,
        Sign::J.times(Sign::J) == Sign::NegOne,
        Sign::J.times(Sign::NegOne) == Sign::NegJ,
        Sign::NegOne.times(Sign::J) == Sign::NegJ,
        Sign::NegOne.times(Sign::NegJ) == Sign::J,
        Sign::NegOne.times(Sign::NegOne) == Sign::One,
        Sign::One.times(Sign::NegOne) == Sign::NegOne,
        Sign::NegOne.times(Sign::One) == Sign::NegOne,
        Sign::One.times(Sign::One) == Sign::One,
{
    reveal(Sign::times);
}

proof fn lemma_cancel(x: Sign, u: Sign, v: Sign)
    requires
        x.times(u) == x.times(v),
    ensures
        u == v,
{
    reveal(Sign::times);
}

/// The product of clean operators is clean.
pub proof fn lemma_clean_product<A: OrderedKey>(a: SignedPauli<A>, b: SignedPauli<A>)
    requires
        clean(a.sites),
        clean(b.sites),
    ensures
        clean(signed_mul(a, b).sites),
{
    lemma_mul_clean(a.sites, b.sites);
}

/// Whether an operator commutes with a product depends on its factors.
#[verifier::spinoff_prover]
#[verifier::rlimit(60)]
pub proof fn law_commuting_with_product<A: OrderedKey>(
    a: SignedPauli<A>,
    b: SignedPauli<A>,
    c: SignedPauli<A>,
)
    requires
        clean(a.sites),
        clean(b.sites),
        clean(c.sites),
    ensures
        strings_commute(a.sites, signed_mul(b, c).sites) == (strings_commute(a.sites, b.sites)
            == strings_commute(a.sites, c.sites)),
        strings_commute(signed_mul(b, c).sites, a.sites) == (strings_commute(a.sites, b.sites)
            == strings_commute(a.sites, c.sites)),
{
    let bc = signed_mul(b, c);
    let s1 = swap_sign(a, b);
    let s2 = swap_sign(a, c);
    let s3 = swap_sign(a, bc);
    lemma_clean_product(b, c);
    let turned = signed_mul(bc, a);
    law_swapping_factors(a, bc);
    assert(signed_mul(a, bc) == turned.scaled(s3));
    law_product_is_associative(a, b, c);
    assert(signed_mul(a, bc) == signed_mul(signed_mul(a, b), c));
    law_swapping_factors(a, b);
    law_phases_come_out(signed_mul(b, a), c, s1);
    assert(signed_mul(a, bc) == signed_mul(signed_mul(b, a), c).scaled(s1));
    law_product_is_associative(b, a, c);
    law_swapping_factors(a, c);
    law_phases_come_out(b, signed_mul(c, a), s2);
    assert(signed_mul(signed_mul(b, a), c) == signed_mul(b, signed_mul(c, a)).scaled(s2));
    law_product_is_associative(b, c, a);
    lemma_scaled_twice(turned, s2, s1);
    assert(signed_mul(a, bc) == turned.scaled(s2.times(s1)));
    lemma_cancel(turned.sign, s3, s2.times(s1));
    assert(s3 == s2.times(s1));
    lemma_quarter_turns();
}

/// An operator that is its own inverse.
pub open spec fn involution<A: OrderedKey>(e: SignedPauli<A>) -> bool {
    clean(e.sites) && signed_mul(e, e) == unit::<A>()
}

/// An operator without a phase of its own is its own inverse.
pub proof fn law_strings_are_involutions<A: OrderedKey>(e: SignedPauli<A>)
    requires
        clean(e.sites),
        e.sign is One || e.sign is NegOne,
    ensures
        involution(e),
{
    law_string_squares_to_identity(e.sites);
    reveal(Sign::times);
    assert(signed_mul(e, e) =~= unit());
}

// ---------------------------------------------------------------------------
// Conjugation by a rotation
// ---------------------------------------------------------------------------
/// What a PiOver4 rotation about `r` makes of `e`: nothing where the two commute,
/// and `i r e` where they do not.
pub open spec fn conjugated<A: OrderedKey>(r: SignedPauli<A>, e: SignedPauli<A>) -> SignedPauli<A> {
    if strings_commute(e.sites, r.sites) {
        e
    } else {
        signed_mul(r, e).scaled(Sign::J)
    }
}

/// The conjugate of a clean operator is clean.
pub proof fn lemma_conjugated_clean<A: OrderedKey>(r: SignedPauli<A>, e: SignedPauli<A>)
    requires
        clean(r.sites),
        clean(e.sites),
    ensures
        clean(conjugated(r, e).sites),
{
    lemma_clean_product(r, e);
}

proof fn lemma_conjugated_scaled<A: OrderedKey>(r: SignedPauli<A>, e: SignedPauli<A>, s: Sign)
    ensures
        conjugated(r, e.scaled(s)) == conjugated(r, e).scaled(s),
{
    law_phases_come_out(r, e, s);
    let p = signed_mul(r, e);
    lemma_scaled_twice(p, s, Sign::J);
    lemma_scaled_twice(p, Sign::J, s);
    law_sign_group(s, Sign::J, s);
}

/// `r (r e)` is `e`.
proof fn lemma_undone<A: OrderedKey>(r: SignedPauli<A>, e: SignedPauli<A>)
    requires
        involution(r),
        clean(e.sites),
    ensures
        signed_mul(r, signed_mul(r, e)) == e,
{
    law_product_is_associative(r, r, e);
    law_unit_is_neutral(e);
}

#[verifier::spinoff_prover]
#[verifier::rlimit(60)]
proof fn lemma_both_turned<A: OrderedKey>(
    r: SignedPauli<A>,
    e: SignedPauli<A>,
    g: SignedPauli<A>,
)
    requires
        involution(r),
        clean(e.sites),
        clean(g.sites),
        !strings_commute(e.sites, r.sites),
    ensures
        signed_mul(signed_mul(r, e).scaled(Sign::J), signed_mul(r, g).scaled(Sign::J))
            == signed_mul(e, g),
{
    let re = signed_mul(r, e);
    let rg = signed_mul(r, g);
    lemma_clean_product(r, e);
    lemma_clean_product(r, g);
    law_phases_come_out(re, rg.scaled(Sign::J), Sign::J);
    law_phases_come_out(re, rg, Sign::J);
    let p = signed_mul(re, rg);
    lemma_scaled_twice(p, Sign::J, Sign::J);
    law_swapping_factors(e, r);
    law_swapping_factors(r, e);
    assert(re == signed_mul(e, r).scaled(Sign::NegOne));
    law_phases_come_out(signed_mul(e, r), rg, Sign::NegOne);
    law_product_is_associative(e, r, rg);
    lemma_undone(r, g);
    assert(p == signed_mul(e, g).scaled(Sign::NegOne));
    lemma_scaled_twice(signed_mul(e, g), Sign::NegOne, Sign::J.times(Sign::J));
    lemma_quarter_turns();
    lemma_scaled_twice(signed_mul(e, g), Sign::One, Sign::One);
}

/// Conjugation respects products.
#[verifier::spinoff_prover]
pub proof fn law_conjugation_respects_products<A: OrderedKey>(
    r: SignedPauli<A>,
    e: SignedPauli<A>,
    g: SignedPauli<A>,
)
    requires
        involution(r),
        clean(e.sites),
        clean(g.sites),
    ensures
        signed_mul(conjugated(r, e), conjugated(r, g)) == conjugated(r, signed_mul(e, g)),
{
    let eg = signed_mul(e, g);
    let re = signed_mul(r, e);
    let rg = signed_mul(r, g);
    law_commuting_with_product(r, e, g);
    law_swapping_factors(e, r);
    law_swapping_factors(g, r);
    let ce = strings_commute(e.sites, r.sites);
    let cg = strings_commute(g.sites, r.sites);
    if ce && cg {
    } else if !ce && cg {
        law_phases_come_out(re, g, Sign::J);
        law_product_is_associative(r, e, g);
    } else if ce && !cg {
        law_phases_come_out(e, rg, Sign::J);
        law_product_is_associative(e, r, g);
        lemma_scaled_twice(signed_mul(r, e), Sign::One, Sign::One);
        assert(signed_mul(e, r) == signed_mul(r, e));
        law_product_is_associative(r, e, g);
    } else {
        lemma_both_turned(r, e, g);
    }
}

/// Conjugation keeps what is its own inverse so, and what commutes commuting.
#[verifier::spinoff_prover]
pub proof fn law_conjugation_keeps_relations<A: OrderedKey>(
    r: SignedPauli<A>,
    e: SignedPauli<A>,
    g: SignedPauli<A>,
)
    requires
        involution(r),
        clean(e.sites),
        clean(g.sites),
    ensures
        clean(conjugated(r, e).sites),
        involution(e) ==> involution(conjugated(r, e)),
        strings_commute(conjugated(r, e).sites, conjugated(r, g).sites) == strings_commute(
            e.sites,
            g.sites,
        ),
{
    let x = conjugated(r, e);
    let y = conjugated(r, g);
    lemma_conjugated_clean(r, e);
    law_conjugation_respects_products(r, e, e);
    law_conjugation_respects_products(r, e, g);
    law_conjugation_respects_products(r, g, e);
    assert(conjugated(r, unit::<A>()) == unit::<A>());
    law_swapping_factors(e, g);
    law_swapping_factors(x, y);
    let s = swap_sign(e, g);
    lemma_conjugated_scaled(r, signed_mul(g, e), s);
    let turned = signed_mul(y, x);
    assert(signed_mul(x, y) == turned.scaled(s));
    assert(signed_mul(x, y) == turned.scaled(swap_sign(x, y)));
    lemma_cancel(turned.sign, s, swap_sign(x, y));
}

// ---------------------------------------------------------------------------
// The Clifford frame
// ---------------------------------------------------------------------------
/// The frame is a conjugation: the images of the basis operators are their own
/// inverses and commute as the basis operators do.
pub open spec fn canonical(f: FrameModel) -> bool {
    &&& forall|q: ArchitectureQubit| involution(#[trigger] f.x_image(q))
    &&& forall|q: ArchitectureQubit| involution(#[trigger] f.z_image(q))
    &&& forall|q: ArchitectureQubit, r: ArchitectureQubit|
        strings_commute((#[trigger] f.x_image(q)).sites, (#[trigger] f.x_image(r)).sites)
    &&& forall|q: ArchitectureQubit, r: ArchitectureQubit|
        strings_commute((#[trigger] f.z_image(q)).sites, (#[trigger] f.z_image(r)).sites)
    &&& forall|q: ArchitectureQubit, r: ArchitectureQubit|
        strings_commute((#[trigger] f.x_image(q)).sites, (#[trigger] f.z_image(r)).sites) == (q
            != r)
}

/// `x z` with `x` and `z` anti-commuting.
#[verifier::spinoff_prover]
#[verifier::rlimit(60)]
pub(crate) proof fn lemma_third<A: OrderedKey>(x: SignedPauli<A>, z: SignedPauli<A>)
    requires
        involution(x),
        involution(z),
        !strings_commute(x.sites, z.sites),
    ensures
        ({
            let y = signed_mul(x, z).scaled(Sign::J);
            &&& involution(y)
            &&& signed_mul(x, z) == y.scaled(Sign::NegJ)
            &&& signed_mul(z, x) == y.scaled(Sign::J)
            &&& signed_mul(x, y) == z.scaled(Sign::J)
            &&& signed_mul(y, x) == z.scaled(Sign::NegJ)
            &&& signed_mul(y, z) == x.scaled(Sign::J)
            &&& signed_mul(z, y) == x.scaled(Sign::NegJ)
        }),
{
    let xz = signed_mul(x, z);
    let y = xz.scaled(Sign::J);
    lemma_clean_product(x, z);
    lemma_clean_product(z, x);
    lemma_quarter_turns();
    lemma_scaled_twice(xz, Sign::J, Sign::NegJ);
    law_swapping_factors(z, x);
    law_swapping_factors(x, z);
    lemma_scaled_twice(xz, Sign::J, Sign::J);
    assert(signed_mul(z, x) == xz.scaled(Sign::NegOne));
    // x (x z) and (x z) z
    lemma_undone(x, z);
    law_phases_come_out(x, xz, Sign::J);
    law_product_is_associative(x, z, z);
    law_unit_is_neutral(x);
    assert(signed_mul(xz, z) == x);
    law_phases_come_out(xz, z, Sign::J);
    // (x z) x
    law_product_is_associative(x, z, x);
    law_phases_come_out(x, xz, Sign::NegOne);
    assert(signed_mul(xz, x) == z.scaled(Sign::NegOne));
    law_phases_come_out(xz, x, Sign::J);
    lemma_scaled_twice(z, Sign::NegOne, Sign::J);
    // z (x z)
    law_product_is_associative(z, x, z);
    law_phases_come_out(xz, z, Sign::NegOne);
    assert(signed_mul(z, xz) == x.scaled(Sign::NegOne));
    law_phases_come_out(z, xz, Sign::J);
    lemma_scaled_twice(x, Sign::NegOne, Sign::J);
    // (x z) (x z)
    law_product_is_associative(x, z, xz);
    law_phases_come_out(x, x, Sign::NegOne);
    assert(signed_mul(xz, xz) == unit::<A>().scaled(Sign::NegOne));
    law_phases_come_out(xz, xz.scaled(Sign::J), Sign::J);
    law_phases_come_out(xz, xz, Sign::J);
    lemma_scaled_twice(signed_mul(xz, xz), Sign::J, Sign::J);
    lemma_scaled_twice(unit::<A>(), Sign::NegOne, Sign::NegOne);
    lemma_scaled_twice(unit::<A>(), Sign::One, Sign::One);
}

/// The image of every operator on one qubit is its own inverse.
pub(crate) proof fn lemma_image_involution(f: FrameModel, q: ArchitectureQubit, p: Pauli)
    requires
        canonical(f),
    ensures
        involution(f.image(q, p)),
{
    let x = f.x_image(q);
    let z = f.z_image(q);
    assert(involution(x) && involution(z));
    assert(!strings_commute(x.sites, z.sites));
    lemma_third(x, z);
    law_unit_is_neutral(unit::<ArchitectureQubit>());
}

proof fn lemma_unit_commutes<A: OrderedKey>(e: SignedPauli<A>)
    ensures
        strings_commute(unit::<A>().sites, e.sites),
        strings_commute(e.sites, unit::<A>().sites),
{
}

/// Images on different qubits commute.
#[verifier::spinoff_prover]
proof fn lemma_images_commute(
    f: FrameModel,
    q: ArchitectureQubit,
    p: Pauli,
    r: ArchitectureQubit,
    o: Pauli,
)
    requires
        canonical(f),
        q != r,
    ensures
        strings_commute(f.image(q, p).sites, f.image(r, o).sites),
{
    let x = f.x_image(q);
    let z = f.z_image(q);
    let u = f.x_image(r);
    let v = f.z_image(r);
    assert(involution(x) && involution(z) && involution(u) && involution(v));
    assert(strings_commute(x.sites, u.sites) && strings_commute(z.sites, v.sites));
    assert(strings_commute(x.sites, v.sites) && strings_commute(u.sites, z.sites));
    law_swapping_factors(u, z);
    law_commuting_with_product(x, u, v);
    law_commuting_with_product(z, u, v);
    let uv = signed_mul(u, v);
    lemma_clean_product(u, v);
    lemma_clean_product(x, z);
    law_swapping_factors(x, u);
    law_swapping_factors(z, u);
    law_swapping_factors(x, v);
    law_swapping_factors(z, v);
    law_commuting_with_product(u, x, z);
    law_commuting_with_product(v, x, z);
    law_swapping_factors(uv, x);
    law_swapping_factors(uv, z);
    law_commuting_with_product(uv, x, z);
    law_swapping_factors(uv, signed_mul(x, z));
    lemma_unit_commutes(f.image(q, p));
    lemma_unit_commutes(f.image(r, o));
}

/// On one qubit, the image of a product is the product of the images.
#[verifier::spinoff_prover]
proof fn lemma_image_product(f: FrameModel, q: ArchitectureQubit, p: Pauli, o: Pauli)
    requires
        canonical(f),
    ensures
        signed_mul(f.image(q, p), f.image(q, o)) == f.image(q, p.product(o)).scaled(
            p.product_sign(o),
        ),
{
    let x = f.x_image(q);
    let z = f.z_image(q);
    assert(involution(x) && involution(z));
    assert(!strings_commute(x.sites, z.sites));
    lemma_third(x, z);
    law_unit_is_neutral(f.image(q, p));
    law_unit_is_neutral(f.image(q, o));
    lemma_scaled_twice(f.image(q, p.product(o)), Sign::One, Sign::One);
    lemma_image_involution(f, q, p);
}

/// The product of the images of the operators on the qubits of `qs`, in order.
pub open spec fn image_over(
    f: FrameModel,
    qs: Seq<ArchitectureQubit>,
    g: spec_fn(ArchitectureQubit) -> Pauli,
) -> SignedPauli<ArchitectureQubit>
    decreases qs.len(),
{
    if qs.len() == 0 {
        unit()
    } else {
        signed_mul(image_over(f, qs.drop_last(), g), f.image(qs.last(), g(qs.last())))
    }
}

proof fn lemma_over_clean(
    f: FrameModel,
    qs: Seq<ArchitectureQubit>,
    g: spec_fn(ArchitectureQubit) -> Pauli,
)
    requires
        canonical(f),
    ensures
        clean(image_over(f, qs, g).sites),
    decreases qs.len(),
{
    if qs.len() > 0 {
        lemma_over_clean(f, qs.drop_last(), g);
        lemma_image_involution(f, qs.last(), g(qs.last()));
        lemma_clean_product(
            image_over(f, qs.drop_last(), g),
            f.image(qs.last(), g(qs.last())),
        );
    }
}

proof fn lemma_over_commutes(
    f: FrameModel,
    qs: Seq<ArchitectureQubit>,
    g: spec_fn(ArchitectureQubit) -> Pauli,
    q: ArchitectureQubit,
    p: Pauli,
)
    requires
        canonical(f),
        !qs.contains(q),
    ensures
        strings_commute(f.image(q, p).sites, image_over(f, qs, g).sites),
    decreases qs.len(),
{
    let e = f.image(q, p);
    lemma_image_involution(f, q, p);
    if qs.len() == 0 {
        lemma_unit_commutes(e);
    } else {
        let front = qs.drop_last();
        let r = qs.last();
        assert(qs[qs.len() - 1] == r);
        assert(!front.contains(q)) by {
            if front.contains(q) {
                let i = front.index_of(q);
                assert(qs[i] == q);
            }
        }
        lemma_over_commutes(f, front, g, q, p);
        lemma_over_clean(f, front, g);
        lemma_image_involution(f, r, g(r));
        lemma_images_commute(f, q, p, r, g(r));
        law_commuting_with_product(e, image_over(f, front, g), f.image(r, g(r)));
    }
}

/// `(a x) (b y)` where `x` and `b` commute.
proof fn lemma_four_factors<A: OrderedKey>(
    a: SignedPauli<A>,
    x: SignedPauli<A>,
    b: SignedPauli<A>,
    y: SignedPauli<A>,
)
    requires
        clean(a.sites),
        clean(x.sites),
        clean(b.sites),
        clean(y.sites),
        strings_commute(x.sites, b.sites),
    ensures
        signed_mul(signed_mul(a, x), signed_mul(b, y)) == signed_mul(
            signed_mul(a, b),
            signed_mul(x, y),
        ),
{
    let by = signed_mul(b, y);
    let xy = signed_mul(x, y);
    lemma_clean_product(b, y);
    lemma_clean_product(x, y);
    law_product_is_associative(a, x, by);
    law_product_is_associative(x, b, y);
    law_swapping_factors(x, b);
    lemma_scaled_twice(signed_mul(b, x), Sign::One, Sign::One);
    law_product_is_associative(b, x, y);
    law_product_is_associative(a, b, xy);
}

#[verifier::spinoff_prover]
proof fn lemma_over_product(
    f: FrameModel,
    qs: Seq<ArchitectureQubit>,
    g: spec_fn(ArchitectureQubit) -> Pauli,
    h: spec_fn(ArchitectureQubit) -> Pauli,
    gh: spec_fn(ArchitectureQubit) -> Pauli,
)
    requires
        canonical(f),
        qs.no_duplicates(),
        forall|q: ArchitectureQubit| #[trigger] gh(q) == g(q).product(h(q)),
    ensures
        signed_mul(image_over(f, qs, g), image_over(f, qs, h)) == image_over(f, qs, gh).scaled(
            phase_over(qs, g, h),
        ),
    decreases qs.len(),
{
    if qs.len() == 0 {
        let none = unit::<ArchitectureQubit>();
        law_unit_is_neutral(none);
        lemma_scaled_twice(none, Sign::One, Sign::One);
    } else {
        let front = qs.drop_last();
        let q = qs.last();
        assert(!front.contains(q)) by {
            if front.contains(q) {
                let i = front.index_of(q);
                assert(qs[i] == qs[qs.len() - 1]);
            }
        }
        lemma_over_product(f, front, g, h, gh);
        let a = image_over(f, front, g);
        let b = image_over(f, front, h);
        let c = image_over(f, front, gh);
        let x = f.image(q, g(q));
        let y = f.image(q, h(q));
        let w = f.image(q, gh(q));
        lemma_over_clean(f, front, g);
        lemma_over_clean(f, front, h);
        lemma_image_involution(f, q, g(q));
        lemma_image_involution(f, q, h(q));
        lemma_over_commutes(f, front, h, q, g(q));
        lemma_four_factors(a, x, b, y);
        lemma_image_product(f, q, g(q), h(q));
        assert(gh(q) == g(q).product(h(q)));
        let s = phase_over(front, g, h);
        let t = g(q).product_sign(h(q));
        law_phases_come_out(c, w.scaled(t), s);
        law_phases_come_out(c, w, t);
        lemma_scaled_twice(signed_mul(c, w), t, s);
        law_sign_group(s, t, s);
        lemma_phase_push(front, q, g, h);
        assert(front.push(q) =~= qs);
    }
}

/// `pauli_at` looks at the last site, and then at the others.
proof fn lemma_pauli_at_last<A: OrderedKey>(s: Seq<(A, Pauli)>, q: A)
    requires
        strictly_keyed(s),
        s.len() > 0,
    ensures
        pauli_at(s, q) == if q == s.last().0 {
            s.last().1
        } else {
            pauli_at(s.drop_last(), q)
        },
        strictly_keyed(s.drop_last()),
{
    let t = s.drop_last();
    let n = s.len() - 1;
    if q == s.last().0 {
        assert(s[n].0 == q);
        let p = key_position(s, q);
        assert(p < n ==> key_lt(s[p].0.key(), s[n].0.key()));
    } else if has_key(s, q) {
        let p = key_position(s, q);
        assert(t[p].0 == q);
        let r = key_position(t, q);
        assert(s[r].0 == q);
        assert(r < p ==> key_lt(s[r].0.key(), s[p].0.key()));
        assert(p < r ==> key_lt(s[p].0.key(), s[r].0.key()));
    } else if has_key(t, q) {
        assert(s[key_position(t, q)].0 == q);
    }
}

proof fn lemma_over_same(
    f: FrameModel,
    qs: Seq<ArchitectureQubit>,
    g: spec_fn(ArchitectureQubit) -> Pauli,
    h: spec_fn(ArchitectureQubit) -> Pauli,
)
    requires
        forall|i: int| 0 <= i < qs.len() ==> g(#[trigger] qs[i]) == h(qs[i]),
    ensures
        image_over(f, qs, g) == image_over(f, qs, h),
    decreases qs.len(),
{
    if qs.len() > 0 {
        let front = qs.drop_last();
        assert(g(qs[qs.len() - 1]) == h(qs[qs.len() - 1]));
        assert forall|i: int| 0 <= i < front.len() implies g(#[trigger] front[i]) == h(front[i]) by {
            assert(front[i] == qs[i]);
        }
        lemma_over_same(f, front, g, h);
    }
}

/// The image of a string is the product of the images along any list of qubits
/// that covers it.
proof fn lemma_string_image_over(
    f: FrameModel,
    qs: Seq<ArchitectureQubit>,
    s: Seq<(ArchitectureQubit, Pauli)>,
)
    requires
        strictly_keyed(s),
        ordered(qs),
        covers(qs, s),
    ensures
        f.string_image(s) == image_over(f, qs, at(s)),
    decreases qs.len(),
{
    if qs.len() == 0 {
        if s.len() > 0 {
            assert(qs.contains(s[0].0));
        }
    } else {
        let front = qs.drop_last();
        let n = qs.len() - 1;
        let q = qs[n];
        let ends = s.len() > 0 && s.last().0 == q;
        let t = if ends {
            s.drop_last()
        } else {
            s
        };
        assert(ordered(front));
        assert forall|i: int| 0 <= i < t.len() implies front.contains((#[trigger] t[i]).0) by {
            assert(t[i] == s[i]);
            let w = qs.index_of(s[i].0);
            assert(qs[w] == s[i].0);
            if w == n {
                let m = s.len() - 1;
                assert(i < m ==> key_lt(s[i].0.key(), s[m].0.key()));
                let v = qs.index_of(s[m].0);
                assert(qs[v] == s[m].0);
                assert(v < n ==> key_lt(qs[v].key(), qs[n].key()));
                assert(false);
            }
            assert(front[w] == s[i].0);
        }
        if ends {
            lemma_pauli_at_last(s, q);
        }
        assert(strictly_keyed(t));
        lemma_string_image_over(f, front, t);
        assert forall|i: int| 0 <= i < front.len() implies at(t)(#[trigger] front[i]) == at(s)(
            front[i],
        ) by {
            assert(key_lt(qs[i].key(), qs[n].key()));
            if ends {
                lemma_pauli_at_last(s, front[i]);
            }
        }
        lemma_over_same(f, front, at(t), at(s));
        if !ends {
            assert(!has_key(s, q)) by {
                if has_key(s, q) {
                    let i = key_position(s, q);
                    assert(front.contains(s[i].0));
                    let w = front.index_of(s[i].0);
                    assert(front[w] == q);
                    assert(key_lt(qs[w].key(), qs[n].key()));
                }
            }
            assert(at(s)(q) is I);
            law_unit_is_neutral(f.string_image(s));
        } else {
            assert(at(s)(q) == s.last().1);
        }
    }
}

/// A frame maps products to products.
#[verifier::spinoff_prover]
pub proof fn law_frame_is_homomorphism(
    f: FrameModel,
    a: SignedPauli<ArchitectureQubit>,
    b: SignedPauli<ArchitectureQubit>,
)
    requires
        canonical(f),
        clean(a.sites),
        clean(b.sites),
    ensures
        f.apply(signed_mul(a, b)) == signed_mul(f.apply(a), f.apply(b)),
        clean(f.apply(a).sites),
{
    let ab = string_mul(a.sites, b.sites);
    let qs = lemma_cover(a.sites, b.sites);
    lemma_product_covered(qs, a.sites, b.sites);
    lemma_string_image_over(f, qs, a.sites);
    lemma_string_image_over(f, qs, b.sites);
    lemma_string_image_over(f, qs, ab.sites);
    lemma_phase_of_product(qs, a.sites, b.sites);
    assert forall|q: ArchitectureQubit| #[trigger] at(ab.sites)(q) == at(a.sites)(q).product(
        at(b.sites)(q),
    ) by {
        law_product_is_sitewise(a.sites, b.sites, q);
    }
    assert(qs.no_duplicates());
    lemma_over_product(f, qs, at(a.sites), at(b.sites), at(ab.sites));
    lemma_over_clean(f, qs, at(a.sites));
    let ia = f.string_image(a.sites);
    let ib = f.string_image(b.sites);
    let iab = f.string_image(ab.sites);
    law_phases_come_out(ia, ib.scaled(b.sign), a.sign);
    law_phases_come_out(ia, ib, b.sign);
    lemma_scaled_twice(signed_mul(ia, ib), b.sign, a.sign);
    law_sign_group(a.sign, b.sign, a.sign);
    lemma_scaled_twice(iab, ab.sign, a.sign.times(b.sign));
}

/// A frame keeps phases.
pub proof fn lemma_apply_scaled(f: FrameModel, a: SignedPauli<ArchitectureQubit>, s: Sign)
    ensures
        f.apply(a.scaled(s)) == f.apply(a).scaled(s),
{
    lemma_scaled_twice(f.string_image(a.sites), a.sign, s);
}

/// A frame keeps what commutes commuting, and what anti-commutes anti-commuting.
pub proof fn law_frame_keeps_commutation(
    f: FrameModel,
    a: SignedPauli<ArchitectureQubit>,
    b: SignedPauli<ArchitectureQubit>,
)
    requires
        canonical(f),
        clean(a.sites),
        clean(b.sites),
    ensures
        strings_commute(f.apply(a).sites, f.apply(b).sites) == strings_commute(a.sites, b.sites),
{
    let x = f.apply(a);
    let y = f.apply(b);
    law_frame_is_homomorphism(f, a, b);
    law_frame_is_homomorphism(f, b, a);
    law_swapping_factors(a, b);
    law_swapping_factors(x, y);
    let s = swap_sign(a, b);
    lemma_apply_scaled(f, signed_mul(b, a), s);
    let turned = signed_mul(y, x);
    lemma_cancel(turned.sign, s, swap_sign(x, y));
}

/// A frame maps what is its own inverse to what is its own inverse.
pub proof fn law_frame_keeps_involutions(f: FrameModel, a: SignedPauli<ArchitectureQubit>)
    requires
        canonical(f),
        involution(a),
    ensures
        involution(f.apply(a)),
{
    law_frame_is_homomorphism(f, a, a);
    let none = unit::<ArchitectureQubit>();
    lemma_scaled_twice(none, Sign::One, Sign::One);
    assert(f.apply(none) == none);
}

pub(crate) proof fn lemma_apply_single(f: FrameModel, q: ArchitectureQubit, p: Pauli)
    ensures
        f.apply(single_site(q, p)) == f.image(q, p),
{
    let s = seq![(q, p)];
    assert(s.drop_last() =~= Seq::<(ArchitectureQubit, Pauli)>::empty());
    assert(f.string_image(s.drop_last()) == unit::<ArchitectureQubit>());
    law_unit_is_neutral(f.image(q, p));
    lemma_scaled_twice(f.image(q, p), Sign::One, Sign::One);
}

/// The images of a frame after a rotation are the conjugates of its images.
#[verifier::spinoff_prover]
proof fn lemma_updated_image(
    f: FrameModel,
    rotation: SignedPauli<ArchitectureQubit>,
    q: ArchitectureQubit,
    p: Pauli,
)
    requires
        canonical(f),
        involution(rotation),
    ensures
        f.update(rotation).image(q, p) == conjugated(f.apply(rotation), f.image(q, p)),
{
    let r = f.apply(rotation);
    let g = f.update(rotation);
    law_frame_keeps_involutions(f, rotation);
    lemma_apply_single(f, q, Pauli::X);
    lemma_apply_single(f, q, Pauli::Z);
    assert(clean(single_site(q, Pauli::X).sites));
    assert(clean(single_site(q, Pauli::Z).sites));
    law_frame_keeps_commutation(f, single_site(q, Pauli::X), rotation);
    law_frame_keeps_commutation(f, single_site(q, Pauli::Z), rotation);
    let x = f.x_image(q);
    let z = f.z_image(q);
    assert(g.x_image(q) == conjugated(r, x));
    assert(g.z_image(q) == conjugated(r, z));
    match p {
        Pauli::Y => {
            assert(involution(x) && involution(z));
            law_conjugation_respects_products(r, x, z);
            lemma_conjugated_scaled(r, signed_mul(x, z), Sign::J);
        },
        Pauli::I => {
            lemma_unit_commutes(r);
        },
        _ => {},
    }
}

/// A frame stays a conjugation after a rotation.
pub proof fn law_update_keeps_frame(f: FrameModel, rotation: SignedPauli<ArchitectureQubit>)
    requires
        canonical(f),
        involution(rotation),
    ensures
        canonical(f.update(rotation)),
{
    let r = f.apply(rotation);
    let g = f.update(rotation);
    law_frame_keeps_involutions(f, rotation);
    assert forall|q: ArchitectureQubit| involution(#[trigger] g.x_image(q)) by {
        lemma_updated_image(f, rotation, q, Pauli::X);
        assert(involution(f.x_image(q)));
        law_conjugation_keeps_relations(r, f.x_image(q), f.x_image(q));
    }
    assert forall|q: ArchitectureQubit| involution(#[trigger] g.z_image(q)) by {
        lemma_updated_image(f, rotation, q, Pauli::Z);
        assert(involution(f.z_image(q)));
        law_conjugation_keeps_relations(r, f.z_image(q), f.z_image(q));
    }
    assert forall|q: ArchitectureQubit, o: ArchitectureQubit|
        strings_commute((#[trigger] g.x_image(q)).sites, (#[trigger] g.x_image(o)).sites) by {
        lemma_updated_image(f, rotation, q, Pauli::X);
        lemma_updated_image(f, rotation, o, Pauli::X);
        assert(involution(f.x_image(q)) && involution(f.x_image(o)));
        law_conjugation_keeps_relations(r, f.x_image(q), f.x_image(o));
    }
    assert forall|q: ArchitectureQubit, o: ArchitectureQubit|
        strings_commute((#[trigger] g.z_image(q)).sites, (#[trigger] g.z_image(o)).sites) by {
        lemma_updated_image(f, rotation, q, Pauli::Z);
        lemma_updated_image(f, rotation, o, Pauli::Z);
        assert(involution(f.z_image(q)) && involution(f.z_image(o)));
        law_conjugation_keeps_relations(r, f.z_image(q), f.z_image(o));
    }
    assert forall|q: ArchitectureQubit, o: ArchitectureQubit|
        strings_commute((#[trigger] g.x_image(q)).sites, (#[trigger] g.z_image(o)).sites) == (q
            != o) by {
        lemma_updated_image(f, rotation, q, Pauli::X);
        lemma_updated_image(f, rotation, o, Pauli::Z);
        assert(involution(f.x_image(q)) && involution(f.z_image(o)));
        law_conjugation_keeps_relations(r, f.x_image(q), f.z_image(o));
    }
}

proof fn lemma_updated_string(
    f: FrameModel,
    rotation: SignedPauli<ArchitectureQubit>,
    s: Seq<(ArchitectureQubit, Pauli)>,
)
    requires
        canonical(f),
        involution(rotation),
    ensures
        f.update(rotation).string_image(s) == conjugated(f.apply(rotation), f.string_image(s)),
        clean(f.string_image(s).sites),
    decreases s.len(),
{
    let r = f.apply(rotation);
    law_frame_keeps_involutions(f, rotation);
    if s.len() == 0 {
        lemma_unit_commutes(r);
    } else {
        let (q, p) = s.last();
        lemma_updated_string(f, rotation, s.drop_last());
        lemma_updated_image(f, rotation, q, p);
        lemma_image_involution(f, q, p);
        lemma_clean_product(f.string_image(s.drop_last()), f.image(q, p));
        law_conjugation_respects_products(r, f.string_image(s.drop_last()), f.image(q, p));
    }
}

/// After a PiOver4 rotation, a frame maps what commutes with the rotation as
/// before, and what does not to `i` times the image of the rotation times the image
/// of the operator.
pub proof fn law_update_is_conjugation(
    f: FrameModel,
    rotation: SignedPauli<ArchitectureQubit>,
    a: SignedPauli<ArchitectureQubit>,
)
    requires
        canonical(f),
        involution(rotation),
        clean(a.sites),
    ensures
        f.update(rotation).apply(a) == if strings_commute(a.sites, rotation.sites) {
            f.apply(a)
        } else {
            signed_mul(f.apply(rotation), f.apply(a)).scaled(Sign::J)
        },
{
    lemma_updated_string(f, rotation, a.sites);
    lemma_conjugated_scaled(f.apply(rotation), f.string_image(a.sites), a.sign);
    law_frame_keeps_commutation(f, a, rotation);
}

/// Two PiOver4 rotations about one axis, a PiOver2 rotation, negate what does not
/// commute with the axis and leave the rest.
#[verifier::spinoff_prover]
#[verifier::rlimit(60)]
pub proof fn law_half_turn_negates(
    f: FrameModel,
    rotation: SignedPauli<ArchitectureQubit>,
    a: SignedPauli<ArchitectureQubit>,
)
    requires
        canonical(f),
        involution(rotation),
        clean(a.sites),
    ensures
        f.update(rotation).update(rotation).apply(a) == if strings_commute(
            a.sites,
            rotation.sites,
        ) {
            f.apply(a)
        } else {
            f.apply(a).scaled(Sign::NegOne)
        },
{
    let g = f.update(rotation);
    let r = f.apply(rotation);
    let e = f.apply(a);
    law_update_keeps_frame(f, rotation);
    law_update_is_conjugation(g, rotation, a);
    law_update_is_conjugation(f, rotation, a);
    law_update_is_conjugation(f, rotation, rotation);
    law_commute_iff_products_agree(rotation.sites, rotation.sites);
    assert(g.apply(rotation) == r);
    law_frame_keeps_involutions(f, rotation);
    law_frame_is_homomorphism(f, a, a);
    lemma_undone(r, e);
    law_phases_come_out(r, signed_mul(r, e), Sign::J);
    lemma_scaled_twice(e, Sign::J, Sign::J);
    lemma_quarter_turns();
}

// ---------------------------------------------------------------------------
// Frames as they arise
// ---------------------------------------------------------------------------
proof fn lemma_append_site<A: OrderedKey>(s: Seq<(A, Pauli)>, q: A, p: Pauli)
    requires
        forall|i: int| 0 <= i < s.len() ==> key_lt((#[trigger] s[i]).0.key(), q.key()),
    ensures
        string_mul(s, seq![(q, p)]).sites == s.push((q, p)),
        string_mul(s, seq![(q, p)]).sign == Sign::One,
    decreases s.len(),
{
    let last = seq![(q, p)];
    if s.len() == 0 {
        lemma_empty_string(last);
        assert(s =~= Seq::<(A, Pauli)>::empty());
        assert(s.push((q, p)) =~= last);
    } else {
        let t = s.skip(1);
        assert(key_lt(s[0].0.key(), q.key()));
        assert forall|i: int| 0 <= i < t.len() implies key_lt((#[trigger] t[i]).0.key(), q.key()) by {
            assert(t[i] == s[i + 1]);
        }
        lemma_append_site(t, q, p);
        assert(seq![s[0]] + t.push((q, p)) =~= s.push((q, p)));
    }
}

/// Sites on different qubits commute, and so do equal sites.
pub proof fn lemma_single_sites(
    q: ArchitectureQubit,
    p: Pauli,
    r: ArchitectureQubit,
    o: Pauli,
)
    ensures
        strings_commute(single_site(q, p).sites, single_site(r, o).sites) == !(q == r
            && p.anticommutes(o)),
{
    let a = seq![(q, p)];
    let b = seq![(r, o)];
    assert(a.skip(1) =~= Seq::<(ArchitectureQubit, Pauli)>::empty());
    assert(b.skip(1) =~= Seq::<(ArchitectureQubit, Pauli)>::empty());
    if !key_lt(q.key(), r.key()) && !key_lt(r.key(), q.key()) {
        ArchitectureQubit::key_injective(q, r);
    }
    assert(anticommuting_sites(a.skip(1), b) == 0);
    assert(anticommuting_sites(a, b.skip(1)) == 0);
    assert(anticommuting_sites(a.skip(1), b.skip(1)) == 0);
}

/// `i X Z` is `Y`.
proof fn lemma_y_image(q: ArchitectureQubit)
    ensures
        signed_mul(single_site(q, Pauli::X), single_site(q, Pauli::Z)).scaled(Sign::J)
            == single_site(q, Pauli::Y),
{
    let none = Seq::<(ArchitectureQubit, Pauli)>::empty();
    let a = seq![(q, Pauli::X)];
    let b = seq![(q, Pauli::Z)];
    assert(a.skip(1) =~= none);
    assert(b.skip(1) =~= none);
    assert(string_mul(none, none).sign == Sign::One);
    assert(string_mul(none, none).sites == none);
    assert(seq![(q, Pauli::Y)] + none =~= seq![(q, Pauli::Y)]);
    reveal(Sign::times);
    assert(signed_mul(single_site(q, Pauli::X), single_site(q, Pauli::Z)).scaled(Sign::J)
        =~= single_site(q, Pauli::Y));
}

/// A fresh frame maps every operator to itself.
pub proof fn law_fresh_frame_is_identity(a: SignedPauli<ArchitectureQubit>)
    requires
        clean(a.sites),
    ensures
        FrameModel::identity().apply(a) == a,
{
    lemma_identity_string(a.sites);
    law_sign_group(a.sign, Sign::One, Sign::One);
    assert(FrameModel::identity().apply(a) =~= a);
}

proof fn lemma_identity_string(s: Seq<(ArchitectureQubit, Pauli)>)
    requires
        clean(s),
    ensures
        FrameModel::identity().string_image(s) == (SignedPauli { sign: Sign::One, sites: s }),
    decreases s.len(),
{
    let f = FrameModel::identity();
    if s.len() == 0 {
        assert(s =~= Seq::<(ArchitectureQubit, Pauli)>::empty());
    } else {
        let t = s.drop_last();
        let n = s.len() - 1;
        let (q, p) = s[n];
        assert(clean(t)) by {
            assert forall|i: int| 0 <= i < t.len() implies !((#[trigger] t[i]).1 is I) by {
                assert(t[i] == s[i]);
            }
        }
        lemma_identity_string(t);
        lemma_y_image(q);
        assert(!(p is I));
        assert(f.image(q, p) == single_site(q, p));
        assert forall|i: int| 0 <= i < t.len() implies key_lt((#[trigger] t[i]).0.key(), q.key()) by {
            assert(t[i] == s[i]);
        }
        lemma_append_site(t, q, p);
        assert(t.push((q, p)) =~= s);
        lemma_quarter_turns();
    }
}

/// A fresh frame is a conjugation.
pub proof fn law_fresh_frame_is_canonical()
    ensures
        canonical(FrameModel::identity()),
{
    let f = FrameModel::identity();
    assert forall|q: ArchitectureQubit| involution(#[trigger] f.x_image(q)) by {
        law_strings_are_involutions(single_site(q, Pauli::X));
    }
    assert forall|q: ArchitectureQubit| involution(#[trigger] f.z_image(q)) by {
        law_strings_are_involutions(single_site(q, Pauli::Z));
    }
    assert forall|q: ArchitectureQubit, r: ArchitectureQubit|
        strings_commute((#[trigger] f.x_image(q)).sites, (#[trigger] f.x_image(r)).sites) by {
        lemma_single_sites(q, Pauli::X, r, Pauli::X);
    }
    assert forall|q: ArchitectureQubit, r: ArchitectureQubit|
        strings_commute((#[trigger] f.z_image(q)).sites, (#[trigger] f.z_image(r)).sites) by {
        lemma_single_sites(q, Pauli::Z, r, Pauli::Z);
    }
    assert forall|q: ArchitectureQubit, r: ArchitectureQubit|
        strings_commute((#[trigger] f.x_image(q)).sites, (#[trigger] f.z_image(r)).sites) == (q
            != r) by {
        lemma_single_sites(q, Pauli::X, r, Pauli::Z);
    }
}

/// The frame that absorbing rotations about Hermitian axes leaves is a conjugation,
/// as long as no qubit is reset.
pub proof fn law_absorbing_keeps_frame(ops: Seq<ProductOp>)
    requires
        forall|i: int| 0 <= i < ops.len() ==> !((#[trigger] ops[i]) is FrameReset),
        forall|i: int|
            0 <= i < ops.len() ==> ((#[trigger] ops[i]) matches ProductOp::Rotation { axis, .. }
                ==> clean(axis.sites) && (axis.sign is One || axis.sign is NegOne)),
    ensures
        canonical(frame_after(ops)),
    decreases ops.len(),
{
    if ops.len() == 0 {
        law_fresh_frame_is_canonical();
    } else {
        let front = ops.drop_last();
        let last = ops[ops.len() - 1];
        assert forall|i: int| 0 <= i < front.len() implies !((#[trigger] front[i]) is FrameReset) by {
            assert(front[i] == ops[i]);
        }
        assert forall|i: int| 0 <= i < front.len() implies ((
        #[trigger] front[i]) matches ProductOp::Rotation { axis, .. } ==> clean(axis.sites) && (
        axis.sign is One || axis.sign is NegOne)) by {
            assert(front[i] == ops[i]);
        }
        law_absorbing_keeps_frame(front);
        let f = frame_after(front);
        assert(!(last is FrameReset));
        if let ProductOp::Rotation { axis, angle } = last {
            law_strings_are_involutions(axis);
            law_update_keeps_frame(f, axis);
            law_update_keeps_frame(f.update(axis), axis);
        }
    }
}

} // verus!
