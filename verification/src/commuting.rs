//! Gates on different qubits can change places without changing what comes before them.

use vstd::prelude::*;

#[allow(unused_imports)]
use crate::layers::uses;
#[allow(unused_imports)]
use crate::pbc::{law_sign_group, Pauli, Sign};
#[allow(unused_imports)]
use crate::physical::GateModel;
#[allow(unused_imports)]
use crate::sec_schedule::layered;
#[allow(unused_imports)]
use crate::values::{behind, behind_controlled, behind_gate, lemma_behind_add, without, Operator};

verus! {

// ---------------------------------------------------------------------------
// Gates that do the same
// ---------------------------------------------------------------------------
/// Whatever operator comes behind, it is the same in front.
pub open spec fn same_values(a: Seq<GateModel<usize>>, b: Seq<GateModel<usize>>) -> bool {
    forall|o: Operator<usize>| #[trigger] behind(a, o) == behind(b, o)
}

pub proof fn lemma_same_add(
    a: Seq<GateModel<usize>>,
    c: Seq<GateModel<usize>>,
    b: Seq<GateModel<usize>>,
    d: Seq<GateModel<usize>>,
)
    requires
        same_values(a, c),
        same_values(b, d),
    ensures
        same_values(a + b, c + d),
{
    assert forall|o: Operator<usize>| #[trigger] behind(a + b, o) == behind(c + d, o) by {
        lemma_behind_add(a, b, o);
        lemma_behind_add(c, d, o);
        assert(behind(b, o) == behind(d, o));
        match behind(b, o) {
            None => {},
            Some(x) => {
                assert(behind(a, x) == behind(c, x));
            },
        }
    }
}

pub proof fn lemma_same_chain(
    a: Seq<GateModel<usize>>,
    b: Seq<GateModel<usize>>,
    c: Seq<GateModel<usize>>,
)
    requires
        same_values(a, b),
        same_values(b, c),
    ensures
        same_values(a, c),
{
    assert forall|o: Operator<usize>| #[trigger] behind(a, o) == behind(c, o) by {
        assert(behind(a, o) == behind(b, o));
    }
}

/// A gate of a round: one that acts on single qubits, or on two different ones.
pub open spec fn simple(g: GateModel<usize>) -> bool {
    match g {
        GateModel::Reset(_, _) => true,
        GateModel::Measure(_, _, _) => true,
        GateModel::Controlled(_, c, t) => c != t,
        GateModel::Tick => true,
        GateModel::DeclareDetector(_) => true,
        _ => false,
    }
}

/// No qubit is used by both.
pub open spec fn on_others(g: GateModel<usize>, h: GateModel<usize>) -> bool {
    forall|q: usize| #[trigger] uses(g, q) ==> !uses(h, q)
}

/// What a controlled Pauli makes of the Paulis on its control and its target, and the sign.
spec fn effect(p: Pauli, a: Pauli, b: Pauli) -> (Sign, Pauli, Pauli) {
    let flips = a.has_x();
    let clashes = b.anticommutes(p);
    let x = if clashes {
        a.product_sign(Pauli::Z)
    } else {
        Sign::One
    };
    let y = if flips {
        b.product_sign(p)
    } else {
        Sign::One
    };
    let z = if flips && clashes {
        Sign::NegOne
    } else {
        Sign::One
    };
    (
        x.times(y).times(z),
        if clashes {
            a.product(Pauli::Z)
        } else {
            a
        },
        if flips {
            b.product(p)
        } else {
            b
        },
    )
}

/// The operator with a sign taken in and two Paulis replaced.
spec fn changed(
    o: Operator<usize>,
    sign: Sign,
    c: usize,
    a: Pauli,
    t: usize,
    b: Pauli,
) -> Operator<usize> {
    Operator {
        sign: o.sign.times(sign),
        at: |x: usize|
            if x == c {
                a
            } else if x == t {
                b
            } else {
                (o.at)(x)
            },
    }
}

proof fn lemma_effect(p: Pauli, c: usize, t: usize, o: Operator<usize>)
    requires
        c != t,
    ensures
        ({
            let (sign, a, b) = effect(p, (o.at)(c), (o.at)(t));
            behind_controlled(p, c, t, o) == changed(o, sign, c, a, t, b)
        }),
{
    let (sign, a, b) = effect(p, (o.at)(c), (o.at)(t));
    let r = behind_controlled(p, c, t, o);
    let n = changed(o, sign, c, a, t, b);
    let x = (o.at)(c).product_sign(Pauli::Z);
    let y = (o.at)(t).product_sign(p);
    law_sign_group(o.sign, x, y);
    law_sign_group(o.sign, x, Sign::One);
    law_sign_group(o.sign, y, Sign::One);
    law_sign_group(x, y, Sign::NegOne);
    law_sign_group(o.sign, x.times(y), Sign::NegOne);
    law_sign_group(x, Sign::One, Sign::One);
    law_sign_group(y, Sign::One, Sign::One);
    law_sign_group(x.times(y), Sign::One, Sign::One);
    law_sign_group(Sign::One, Sign::One, Sign::One);
    assert forall|q: usize| #[trigger] (r.at)(q) == (n.at)(q) by {}
    assert(r.at =~= n.at);
    assert(r.sign == n.sign);
    assert(r =~= n);
}

/// One gate behind another.
spec fn behind_two(g: GateModel<usize>, h: GateModel<usize>, o: Operator<usize>) -> Option<
    Operator<usize>,
> {
    match behind_gate(h, o) {
        None => None,
        Some(x) => behind_gate(g, x),
    }
}

#[verifier::spinoff_prover]
proof fn lemma_controlled_swap(
    p: Pauli,
    c: usize,
    t: usize,
    r: Pauli,
    d: usize,
    u: usize,
    o: Operator<usize>,
)
    requires
        c != t,
        d != u,
        c != d,
        c != u,
        t != d,
        t != u,
    ensures
        behind_controlled(p, c, t, behind_controlled(r, d, u, o)) == behind_controlled(
            r,
            d,
            u,
            behind_controlled(p, c, t, o),
        ),
{
    let x = behind_controlled(r, d, u, o);
    let y = behind_controlled(p, c, t, o);
    lemma_effect(r, d, u, o);
    lemma_effect(p, c, t, o);
    lemma_effect(p, c, t, x);
    lemma_effect(r, d, u, y);
    let (s1, a1, b1) = effect(p, (o.at)(c), (o.at)(t));
    let (s2, a2, b2) = effect(r, (o.at)(d), (o.at)(u));
    assert((x.at)(c) == (o.at)(c) && (x.at)(t) == (o.at)(t));
    assert((y.at)(d) == (o.at)(d) && (y.at)(u) == (o.at)(u));
    let l = behind_controlled(p, c, t, x);
    let m = behind_controlled(r, d, u, y);
    law_sign_group(o.sign, s2, s1);
    law_sign_group(o.sign, s1, s2);
    law_sign_group(s1, s2, Sign::One);
    assert(l.sign == m.sign);
    assert forall|q: usize| #[trigger] (l.at)(q) == (m.at)(q) by {}
    assert(l.at =~= m.at);
    assert(l =~= m);
}

proof fn lemma_controlled_reset(
    p: Pauli,
    c: usize,
    t: usize,
    q: usize,
    o: Operator<usize>,
)
    requires
        c != t,
        q != c,
        q != t,
    ensures
        behind_controlled(p, c, t, without(o, q)) == without(behind_controlled(p, c, t, o), q),
        (behind_controlled(p, c, t, o).at)(q) == (o.at)(q),
{
    let x = without(o, q);
    lemma_effect(p, c, t, o);
    lemma_effect(p, c, t, x);
    let l = behind_controlled(p, c, t, x);
    let m = without(behind_controlled(p, c, t, o), q);
    assert forall|y: usize| #[trigger] (l.at)(y) == (m.at)(y) by {}
    assert(l.at =~= m.at);
    assert(l =~= m);
}

proof fn lemma_resets_swap(q: usize, r: usize, o: Operator<usize>)
    ensures
        without(without(o, q), r) == without(without(o, r), q),
{
    let l = without(without(o, q), r);
    let m = without(without(o, r), q);
    assert forall|y: usize| #[trigger] (l.at)(y) == (m.at)(y) by {}
    assert(l.at =~= m.at);
    assert(l =~= m);
}

#[verifier::spinoff_prover]
proof fn lemma_swap_gates(g: GateModel<usize>, h: GateModel<usize>, o: Operator<usize>)
    requires
        simple(g),
        simple(h),
        on_others(g, h),
    ensures
        behind_two(g, h, o) == behind_two(h, g, o),
{
    match g {
        GateModel::Controlled(p, c, t) => {
            assert(uses(g, c) && uses(g, t));
            assert(!uses(h, c) && !uses(h, t));
            match h {
                GateModel::Controlled(r, d, u) => {
                    lemma_controlled_swap(p, c, t, r, d, u, o);
                },
                GateModel::Reset(b, q) => {
                    lemma_controlled_reset(p, c, t, q, o);
                },
                GateModel::Measure(b, q, _) => {
                    lemma_controlled_reset(p, c, t, q, o);
                },
                _ => {},
            }
        },
        GateModel::Reset(b, q) => {
            assert(uses(g, q));
            assert(!uses(h, q));
            match h {
                GateModel::Controlled(r, d, u) => {
                    lemma_controlled_reset(r, d, u, q, o);
                },
                GateModel::Reset(_, r) => {
                    lemma_resets_swap(q, r, o);
                },
                _ => {},
            }
        },
        GateModel::Measure(b, q, _) => {
            assert(uses(g, q));
            assert(!uses(h, q));
            match h {
                GateModel::Controlled(r, d, u) => {
                    lemma_controlled_reset(r, d, u, q, o);
                },
                _ => {},
            }
        },
        _ => {},
    }
}

/// All gates of the list are simple.
pub open spec fn all_simple(s: Seq<GateModel<usize>>) -> bool {
    forall|i: int| 0 <= i < s.len() ==> simple(#[trigger] s[i])
}

/// No qubit is used by a gate of each list.
pub open spec fn on_other_qubits(a: Seq<GateModel<usize>>, b: Seq<GateModel<usize>>) -> bool {
    forall|i: int, j: int|
        #![trigger a[i], b[j]]
        0 <= i < a.len() && 0 <= j < b.len() ==> on_others(a[i], b[j])
}

proof fn lemma_two(s: Seq<GateModel<usize>>, g: GateModel<usize>, h: GateModel<usize>, o: Operator<usize>)
    ensures
        behind(s.push(g).push(h), o) == match behind_two(g, h, o) {
            None => None,
            Some(x) => behind(s, x),
        },
{
    let a = s.push(g);
    let b = a.push(h);
    assert(b.drop_last() =~= a);
    assert(a.drop_last() =~= s);
    match behind_gate(h, o) {
        None => {},
        Some(x) => {
            assert(behind(a, x) == match behind_gate(g, x) {
                None => None,
                Some(y) => behind(s, y),
            });
        },
    }
}

/// A gate moves to the front of gates on other qubits.
proof fn lemma_move_front(b: Seq<GateModel<usize>>, g: GateModel<usize>)
    requires
        simple(g),
        all_simple(b),
        forall|j: int| 0 <= j < b.len() ==> on_others(g, #[trigger] b[j]),
    ensures
        same_values(b.push(g), seq![g] + b),
    decreases b.len(),
{
    if b.len() == 0 {
        assert(b.push(g) =~= seq![g] + b);
    } else {
        let t = b.drop_last();
        let h = b.last();
        assert(simple(b[b.len() - 1]) && on_others(g, b[b.len() - 1]));
        assert(all_simple(t)) by {
            assert forall|i: int| 0 <= i < t.len() implies simple(#[trigger] t[i]) by {
                assert(simple(b[i]));
            }
        }
        assert forall|j: int| 0 <= j < t.len() implies on_others(g, #[trigger] t[j]) by {
            assert(on_others(g, b[j]));
        }
        lemma_move_front(t, g);
        assert(t.push(h) =~= b);
        assert forall|o: Operator<usize>| #[trigger] behind(b.push(g), o) == behind(
            seq![g] + b,
            o,
        ) by {
            lemma_two(t, h, g, o);
            lemma_two(t, g, h, o);
            lemma_swap_gates(g, h, o);
            let c = t.push(g).push(h);
            assert(c.drop_last() =~= t.push(g));
            let d = seq![g] + b;
            assert(d.drop_last() =~= seq![g] + t);
            assert(d.last() == h);
            match behind_gate(h, o) {
                None => {},
                Some(x) => {
                    assert(behind(t.push(g), x) == behind(seq![g] + t, x));
                },
            }
        }
    }
}

/// Gates on other qubits change places.
pub proof fn lemma_swap(a: Seq<GateModel<usize>>, b: Seq<GateModel<usize>>)
    requires
        all_simple(a),
        all_simple(b),
        on_other_qubits(a, b),
    ensures
        same_values(a + b, b + a),
    decreases a.len(),
{
    if a.len() == 0 {
        assert(a + b =~= b);
        assert(b + a =~= b);
    } else {
        let t = a.drop_last();
        let g = a.last();
        let one = seq![g];
        assert(simple(a[a.len() - 1]));
        assert(all_simple(t)) by {
            assert forall|i: int| 0 <= i < t.len() implies simple(#[trigger] t[i]) by {
                assert(simple(a[i]));
            }
        }
        assert(on_other_qubits(t, b)) by {
            assert forall|i: int, j: int|
                #![trigger t[i], b[j]]
                0 <= i < t.len() && 0 <= j < b.len() implies on_others(t[i], b[j]) by {
                assert(on_others(a[i], b[j]));
            }
        }
        assert forall|j: int| 0 <= j < b.len() implies on_others(g, #[trigger] b[j]) by {
            assert(on_others(a[a.len() - 1], b[j]));
        }
        lemma_swap(t, b);
        lemma_move_front(b, g);
        assert(same_values(one + b, b.push(g))) by {
            assert forall|o: Operator<usize>| #[trigger] behind(one + b, o) == behind(
                b.push(g),
                o,
            ) by {
                assert(behind(b.push(g), o) == behind(one + b, o));
            }
        }
        lemma_same_add(t, t, one + b, b.push(g));
        assert(t + (one + b) =~= a + b);
        lemma_same_add(t + b, b + t, one, one);
        assert(t + b.push(g) =~= (t + b) + one);
        assert((b + t) + one =~= b + a);
        lemma_same_chain(a + b, (t + b) + one, b + a);
    }
}

// ---------------------------------------------------------------------------
// Layers
// ---------------------------------------------------------------------------
/// The layers one after another.
pub open spec fn flat(layers: Seq<Seq<GateModel<usize>>>) -> Seq<GateModel<usize>>
    decreases layers.len(),
{
    if layers.len() == 0 {
        Seq::empty()
    } else {
        flat(layers.drop_last()) + layers.last()
    }
}

pub proof fn lemma_flat_layers_add(a: Seq<Seq<GateModel<usize>>>, b: Seq<Seq<GateModel<usize>>>)
    ensures
        flat(a + b) == flat(a) + flat(b),
    decreases b.len(),
{
    if b.len() == 0 {
        assert(a + b =~= a);
        assert(flat(a) + flat(b) =~= flat(a));
    } else {
        lemma_flat_layers_add(a, b.drop_last());
        assert((a + b).drop_last() =~= a + b.drop_last());
        assert((a + b).last() == b.last());
        assert(flat(a + b) =~= flat(a) + flat(b));
    }
}

pub proof fn lemma_flat_one(layer: Seq<GateModel<usize>>)
    ensures
        flat(seq![layer]) == layer,
{
    let one = seq![layer];
    assert(one.drop_last() =~= Seq::empty());
    assert(flat(one.drop_last()) + layer =~= layer);
}

/// Ticks between layers do not matter.
pub proof fn lemma_layered_flat(layers: Seq<Seq<GateModel<usize>>>)
    ensures
        same_values(layered(layers), flat(layers)),
    decreases layers.len(),
{
    if layers.len() > 0 {
        let front = layers.drop_last();
        let layer = layers.last();
        lemma_layered_flat(front);
        if layer.len() == 0 {
            assert(flat(front) + layer =~= flat(front));
        } else {
            let ticked = layer.push(GateModel::Tick);
            assert(same_values(ticked, layer)) by {
                assert forall|o: Operator<usize>| #[trigger] behind(ticked, o) == behind(
                    layer,
                    o,
                ) by {
                    assert(ticked.drop_last() =~= layer);
                }
            }
            lemma_same_add(layered(front), flat(front), ticked, layer);
        }
    }
}

/// Layers of two kinds side by side, on different qubits, come apart.
pub proof fn lemma_side_by_side(x: Seq<Seq<GateModel<usize>>>, y: Seq<Seq<GateModel<usize>>>)
    requires
        x.len() == y.len(),
        all_simple(flat(x)),
        all_simple(flat(y)),
        on_other_qubits(flat(x), flat(y)),
    ensures
        same_values(flat(Seq::new(x.len(), |k: int| x[k] + y[k])), flat(x) + flat(y)),
    decreases x.len(),
{
    let both = Seq::new(x.len(), |k: int| x[k] + y[k]);
    if x.len() == 0 {
        assert(flat(both) =~= flat(x) + flat(y));
    } else {
        let (a, b) = (x.drop_last(), y.drop_last());
        let (g, h) = (x.last(), y.last());
        let part = Seq::new(a.len(), |k: int| a[k] + b[k]);
        let (fx, fy) = (flat(x), flat(y));
        assert forall|i: int| 0 <= i < flat(a).len() implies simple(#[trigger] flat(a)[i]) by {
            assert(simple(fx[i]));
        }
        assert forall|i: int| 0 <= i < flat(b).len() implies simple(#[trigger] flat(b)[i]) by {
            assert(simple(fy[i]));
        }
        assert(on_other_qubits(flat(a), flat(b))) by {
            assert forall|i: int, j: int|
                #![trigger flat(a)[i], flat(b)[j]]
                0 <= i < flat(a).len() && 0 <= j < flat(b).len() implies on_others(
                flat(a)[i],
                flat(b)[j],
            ) by {
                assert(on_others(fx[i], fy[j]));
            }
        }
        lemma_side_by_side(a, b);
        assert(both.drop_last() =~= part);
        assert(both.last() == g + h);
        assert(all_simple(g)) by {
            assert forall|i: int| 0 <= i < g.len() implies simple(#[trigger] g[i]) by {
                assert(simple(fx[flat(a).len() + i]));
            }
        }
        assert(on_other_qubits(g, flat(b))) by {
            assert forall|i: int, j: int|
                #![trigger g[i], flat(b)[j]]
                0 <= i < g.len() && 0 <= j < flat(b).len() implies on_others(
                g[i],
                flat(b)[j],
            ) by {
                assert(on_others(fx[flat(a).len() + i], fy[j]));
            }
        }
        lemma_swap(g, flat(b));
        assert(same_values(flat(b) + g, g + flat(b))) by {
            assert forall|o: Operator<usize>| #[trigger] behind(flat(b) + g, o) == behind(
                g + flat(b),
                o,
            ) by {
                assert(behind(g + flat(b), o) == behind(flat(b) + g, o));
            }
        }
        lemma_same_add(flat(part), flat(a) + flat(b), g + h, g + h);
        lemma_same_add(flat(a), flat(a), flat(b) + g, g + flat(b));
        lemma_same_add(flat(a) + (flat(b) + g), flat(a) + (g + flat(b)), h, h);
        assert(flat(both) =~= flat(part) + (g + h));
        assert((flat(a) + flat(b)) + (g + h) =~= (flat(a) + (flat(b) + g)) + h);
        assert((flat(a) + (g + flat(b))) + h =~= fx + fy);
        lemma_same_chain(flat(both), (flat(a) + flat(b)) + (g + h), fx + fy);
    }
}

} // verus!
