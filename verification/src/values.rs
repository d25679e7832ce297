//! What the value of an operator behind gates is in front of them, and what records tell of
//! the operators in front of all gates.

use vstd::prelude::*;

#[allow(unused_imports)]
use crate::pbc::{pauli_at, Pauli, Sign, SignedPauli};
#[allow(unused_imports)]
use crate::physical::GateModel;
#[allow(unused_imports)]
use crate::records::{makes_one, recorders};

verus! {

// ---------------------------------------------------------------------------
// Operators
// ---------------------------------------------------------------------------
/// A Pauli operator on numbered qubits: its phase, and its Pauli on each qubit.
#[verifier::ext_equal]
#[verifier::reject_recursive_types(Q)]
pub struct Operator<Q> {
    pub sign: Sign,
    pub at: spec_fn(Q) -> Pauli,
}

/// The operator `p` on `q`.
pub open spec fn alone<Q>(sign: Sign, q: Q, p: Pauli) -> Operator<Q> {
    Operator {
        sign,
        at: |x: Q|
            if x == q {
                p
            } else {
                Pauli::I
            },
    }
}

/// The operator that a check measures.
pub open spec fn operator_of<Q>(check: SignedPauli<Q>) -> Operator<Q> {
    Operator { sign: check.sign, at: |x: Q| pauli_at(check.sites, x) }
}

/// The operator times `p` on `q`.
pub open spec fn times_site<Q>(o: Operator<Q>, q: Q, p: Pauli) -> Operator<Q> {
    Operator {
        sign: o.sign.times((o.at)(q).product_sign(p)),
        at: |x: Q|
            if x == q {
                (o.at)(q).product(p)
            } else {
                (o.at)(x)
            },
    }
}

/// The operator without its factor on `q`.
pub open spec fn without<Q>(o: Operator<Q>, q: Q) -> Operator<Q> {
    Operator {
        sign: o.sign,
        at: |x: Q|
            if x == q {
                Pauli::I
            } else {
                (o.at)(x)
            },
    }
}

/// What an operator behind a Pauli `p` on `t` that is controlled on `c` is in front of it.
/// What flips the control picks up `p` on the target, what anti-commutes with `p` on the
/// target picks up Z on the control, and the two pick up a sign from each other.
pub open spec fn behind_controlled<Q>(p: Pauli, c: Q, t: Q, o: Operator<Q>) -> Operator<Q> {
    let flips = (o.at)(c).has_x();
    let clashes = (o.at)(t).anticommutes(p);
    let one = if clashes {
        times_site(o, c, Pauli::Z)
    } else {
        o
    };
    let two = if flips {
        times_site(one, t, p)
    } else {
        one
    };
    if flips && clashes {
        Operator { sign: two.sign.times(Sign::NegOne), at: two.at }
    } else {
        two
    }
}

/// On how many of the sites the operator anti-commutes.
pub open spec fn clashes_with<Q>(o: Operator<Q>, sites: Seq<(Q, Pauli)>) -> nat
    decreases sites.len(),
{
    if sites.len() == 0 {
        0
    } else {
        clashes_with(o, sites.drop_last()) + if (o.at)(sites.last().0).anticommutes(sites.last().1) {
            1nat
        } else {
            0nat
        }
    }
}

/// What an operator behind a gate is in front of it: where the one has a value, so has the
/// other, and it is the same. A reset gives its basis on its qubit the value 1. `None` if the
/// gate leaves the operator without a value of its own.
pub open spec fn behind_gate<Q>(g: GateModel<Q>, o: Operator<Q>) -> Option<Operator<Q>> {
    match g {
        GateModel::Reset(b, q) => if (o.at)(q) is I {
            Some(o)
        } else if (o.at)(q) == b {
            Some(without(o, q))
        } else {
            None
        },
        GateModel::Measure(b, q, _) => if (o.at)(q).anticommutes(b) {
            None
        } else {
            Some(o)
        },
        GateModel::MPP(p) => if clashes_with(o, p.sites) % 2 == 0 {
            Some(o)
        } else {
            None
        },
        GateModel::Controlled(p, c, t) => Some(behind_controlled(p, c, t, o)),
        GateModel::XCorrection(_, q) => if (o.at)(q).anticommutes(Pauli::X) {
            None
        } else {
            Some(o)
        },
        GateModel::Repeat(_, _) => None,
        _ => Some(o),
    }
}

/// What an operator behind gates is in front of them.
pub open spec fn behind<Q>(s: Seq<GateModel<Q>>, o: Operator<Q>) -> Option<Operator<Q>>
    decreases s.len(),
{
    if s.len() == 0 {
        Some(o)
    } else {
        match behind_gate(s.last(), o) {
            None => None,
            Some(x) => behind(s.drop_last(), x),
        }
    }
}

pub proof fn lemma_behind_add<Q>(a: Seq<GateModel<Q>>, b: Seq<GateModel<Q>>, o: Operator<Q>)
    ensures
        behind(a + b, o) == match behind(b, o) {
            None => None,
            Some(x) => behind(a, x),
        },
    decreases b.len(),
{
    if b.len() == 0 {
        assert(a + b =~= a);
    } else {
        assert((a + b).drop_last() =~= a + b.drop_last());
        assert((a + b).last() == b.last());
        match behind_gate(b.last(), o) {
            None => {},
            Some(x) => {
                lemma_behind_add(a, b.drop_last(), x);
            },
        }
    }
}

/// The operator in front of all gates whose value is recorded at `i`, if it is the
/// value of one.
pub open spec fn recorded<Q>(s: Seq<GateModel<Q>>, i: int) -> Option<Operator<Q>> {
    match s[i] {
        GateModel::Measure(b, q, flip) => behind(
            s.take(i),
            alone(
                if flip {
                    Sign::NegOne
                } else {
                    Sign::One
                },
                q,
                b,
            ),
        ),
        GateModel::MPP(p) => behind(s.take(i), operator_of(p)),
        _ => None,
    }
}

/// Record `j` is made at `i`, and gives the value of `o` in front of all gates.
pub open spec fn records_value<Q>(
    s: Seq<GateModel<Q>>,
    i: int,
    j: int,
    o: Operator<Q>,
) -> bool {
    &&& 0 <= i < s.len()
    &&& makes_one(s[i])
    &&& recorders(s.take(i)).len() == j
    &&& recorded(s, i) == Some(o)
}

} // verus!
