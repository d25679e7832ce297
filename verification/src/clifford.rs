//! What absorbing rotations does to an operator, and that the rotations of H, S, CNOT
//! and the Pauli gates conjugate operators as they should.

use vstd::prelude::*;

#[allow(unused_imports)]
use crate::circuit::Gate;
#[allow(unused_imports)]
use crate::compile::{absorbed, frame_after, gate_ops, rotation_op};
#[allow(unused_imports)]
use crate::conjugation::{
    canonical, clean, conjugated, involution, law_absorbing_keeps_frame,
    law_commuting_with_product, law_frame_is_homomorphism, law_fresh_frame_is_identity,
    law_phases_come_out, law_product_is_associative, law_strings_are_involutions,
    law_update_is_conjugation, law_update_keeps_frame, lemma_apply_scaled,
    lemma_conjugated_clean, lemma_quarter_turns, lemma_scaled_twice, lemma_single_sites,
};
#[allow(unused_imports)]
use crate::keyed::{key_lt, OrderedKey};
#[allow(unused_imports)]
use crate::pbc::{
    insert_site, law_sign_group, signed_mul, single_site, sort_sites, string_mul,
    ArchitectureQubit, FrameModel, MeasId, PPRAngle, Pauli, ProductOp, Sign, SignedPauli,
};

verus! {

// ---------------------------------------------------------------------------
// Rotations one after another
// ---------------------------------------------------------------------------
/// What an operator after `ops` is before them: every rotation, from the last to the
/// first, conjugates it; a PiOver2 rotation is two PiOver4 rotations.
pub open spec fn drawn_back(
    ops: Seq<ProductOp>,
    a: SignedPauli<ArchitectureQubit>,
) -> SignedPauli<ArchitectureQubit>
    decreases ops.len(),
{
    if ops.len() == 0 {
        a
    } else {
        drawn_back(
            ops.drop_last(),
            match ops.last() {
                ProductOp::Rotation { axis, angle } => match angle {
                    PPRAngle::PiOver8 => a,
                    PPRAngle::PiOver4 => conjugated(axis, a),
                    PPRAngle::PiOver2 => conjugated(axis, conjugated(axis, a)),
                },
                _ => a,
            },
        )
    }
}

/// All operations are rotations about Hermitian axes, or measurements.
pub open spec fn hermitian(ops: Seq<ProductOp>) -> bool {
    &&& forall|i: int| 0 <= i < ops.len() ==> !((#[trigger] ops[i]) is FrameReset)
    &&& forall|i: int|
        0 <= i < ops.len() ==> ((#[trigger] ops[i]) matches ProductOp::Rotation { axis, .. }
            ==> clean(axis.sites) && (axis.sign is One || axis.sign is NegOne))
}

proof fn lemma_hermitian_front(ops: Seq<ProductOp>)
    requires
        ops.len() > 0,
        hermitian(ops),
    ensures
        hermitian(ops.drop_last()),
{
    let front = ops.drop_last();
    assert forall|i: int| 0 <= i < front.len() implies !((#[trigger] front[i]) is FrameReset) by {
        assert(front[i] == ops[i]);
    }
    assert forall|i: int| 0 <= i < front.len() implies ((
    #[trigger] front[i]) matches ProductOp::Rotation { axis, .. } ==> clean(axis.sites) && (
    axis.sign is One || axis.sign is NegOne)) by {
        assert(front[i] == ops[i]);
    }
}

/// A frame after a rotation sees an operator as the frame before sees its conjugate.
proof fn lemma_update_conjugates(
    f: FrameModel,
    rotation: SignedPauli<ArchitectureQubit>,
    a: SignedPauli<ArchitectureQubit>,
)
    requires
        canonical(f),
        involution(rotation),
        clean(a.sites),
    ensures
        f.update(rotation).apply(a) == f.apply(conjugated(rotation, a)),
        clean(conjugated(rotation, a).sites),
{
    law_update_is_conjugation(f, rotation, a);
    law_frame_is_homomorphism(f, rotation, a);
    lemma_apply_scaled(f, signed_mul(rotation, a), Sign::J);
    lemma_conjugated_clean(rotation, a);
}

/// The frame that absorbing `ops` leaves maps every operator to what it is before
/// them: measuring the image first is measuring the operator last.
pub proof fn law_absorbing_draws_back(ops: Seq<ProductOp>, a: SignedPauli<ArchitectureQubit>)
    requires
        hermitian(ops),
        clean(a.sites),
    ensures
        frame_after(ops).apply(a) == drawn_back(ops, a),
    decreases ops.len(),
{
    if ops.len() == 0 {
        law_fresh_frame_is_identity(a);
    } else {
        let front = ops.drop_last();
        let last = ops[ops.len() - 1];
        let f = frame_after(front);
        lemma_hermitian_front(ops);
        law_absorbing_keeps_frame(front);
        match last {
            ProductOp::Rotation { axis, angle } => {
                law_strings_are_involutions(axis);
                lemma_update_conjugates(f, axis, a);
                let once = conjugated(axis, a);
                match angle {
                    PPRAngle::PiOver8 => {
                        law_absorbing_draws_back(front, a);
                    },
                    PPRAngle::PiOver4 => {
                        law_absorbing_draws_back(front, once);
                    },
                    PPRAngle::PiOver2 => {
                        law_update_keeps_frame(f, axis);
                        lemma_update_conjugates(f.update(axis), axis, a);
                        lemma_update_conjugates(f, axis, once);
                        law_absorbing_draws_back(front, conjugated(axis, once));
                    },
                }
            },
            _ => {
                law_absorbing_draws_back(front, a);
            },
        }
    }
}

/// Absorbing keeps every measurement and every PiOver8 rotation, about what its axis is
/// before all operations in front of it.
pub proof fn law_absorbed_axes(ops: Seq<ProductOp>, i: int)
    requires
        hermitian(ops),
        0 <= i < ops.len(),
    ensures
        match ops[i] {
            ProductOp::Measurement { axis, id } => clean(axis.sites) ==> absorbed(ops).contains(
                ProductOp::Measurement { axis: drawn_back(ops.take(i), axis), id },
            ),
            ProductOp::Rotation { axis, angle } => angle is PiOver8 ==> absorbed(ops).contains(
                ProductOp::Rotation { axis: drawn_back(ops.take(i), axis), angle },
            ),
            _ => true,
        },
    decreases ops.len(),
{
    let front = ops.drop_last();
    let n = ops.len() - 1;
    lemma_hermitian_front(ops);
    let before = absorbed(front);
    let now = absorbed(ops);
    if i < n {
        law_absorbed_axes(front, i);
        assert(front[i] == ops[i]);
        assert(front.take(i) =~= ops.take(i));
        assert forall|op: ProductOp| before.contains(op) implies now.contains(op) by {
            let k = before.index_of(op);
            assert(now[k] == op);
        }
    } else {
        assert(ops.take(n) =~= front);
        match ops[n] {
            ProductOp::Measurement { axis, id } => {
                if clean(axis.sites) {
                    law_absorbing_draws_back(front, axis);
                    assert(now.last() == (ProductOp::Measurement {
                        axis: drawn_back(front, axis),
                        id,
                    }));
                    assert(now[now.len() - 1] == now.last());
                }
            },
            ProductOp::Rotation { axis, angle } => {
                if angle is PiOver8 {
                    law_absorbing_draws_back(front, axis);
                    assert(now[now.len() - 1] == now.last());
                }
            },
            _ => {},
        }
    }
}

// ---------------------------------------------------------------------------
// One and two sites
// ---------------------------------------------------------------------------
/// The operator `p` on `q`, with a sign.
pub open spec fn signed_site(sign: Sign, q: ArchitectureQubit, p: Pauli) -> SignedPauli<
    ArchitectureQubit,
> {
    SignedPauli { sign, sites: seq![(q, p)] }
}

/// The operator `p` on `q` together with `o` on `r`.
pub open spec fn two_sites(
    q: ArchitectureQubit,
    p: Pauli,
    r: ArchitectureQubit,
    o: Pauli,
) -> SignedPauli<ArchitectureQubit> {
    SignedPauli { sign: Sign::One, sites: sort_sites(seq![(q, p), (r, o)]) }
}

proof fn lemma_same_site(s: Sign, t: Sign, q: ArchitectureQubit, p: Pauli, o: Pauli)
    requires
        p.anticommutes(o),
    ensures
        signed_mul(signed_site(s, q, p), signed_site(t, q, o)) == signed_site(
            p.product_sign(o).times(s.times(t)),
            q,
            p.product(o),
        ),
{
    let none = Seq::<(ArchitectureQubit, Pauli)>::empty();
    let a = seq![(q, p)];
    let b = seq![(q, o)];
    assert(a.skip(1) =~= none);
    assert(b.skip(1) =~= none);
    assert(string_mul(none, none).sign == Sign::One);
    assert(string_mul(none, none).sites == none);
    law_sign_group(p.product_sign(o), Sign::One, Sign::One);
    assert(seq![(q, p.product(o))] + none =~= seq![(q, p.product(o))]);
    assert(signed_mul(signed_site(s, q, p), signed_site(t, q, o)) =~= signed_site(
        p.product_sign(o).times(s.times(t)),
        q,
        p.product(o),
    ));
}

/// Conjugation on one qubit.
proof fn lemma_conjugated_site(s: Sign, t: Sign, q: ArchitectureQubit, p: Pauli, o: Pauli)
    ensures
        conjugated(signed_site(s, q, p), signed_site(t, q, o)) == if p.anticommutes(o) {
            signed_site(p.product_sign(o).times(s.times(t)).times(Sign::J), q, p.product(o))
        } else {
            signed_site(t, q, o)
        },
{
    lemma_single_sites(q, o, q, p);
    if p.anticommutes(o) {
        lemma_same_site(s, t, q, p, o);
    }
}

/// Rotations about one qubit leave operators on others alone.
proof fn lemma_other_site(s: Sign, t: Sign, q: ArchitectureQubit, p: Pauli, r: ArchitectureQubit, o: Pauli)
    requires
        q != r,
    ensures
        conjugated(signed_site(s, q, p), signed_site(t, r, o)) == signed_site(t, r, o),
{
    lemma_single_sites(r, o, q, p);
}

/// The product of two sites on different qubits, in either order.
pub(crate) proof fn lemma_two_sites(q: ArchitectureQubit, p: Pauli, r: ArchitectureQubit, o: Pauli)
    requires
        q != r,
    ensures
        signed_mul(single_site(q, p), single_site(r, o)) == two_sites(q, p, r, o),
        signed_mul(single_site(r, o), single_site(q, p)) == two_sites(q, p, r, o),
{
    let none = Seq::<(ArchitectureQubit, Pauli)>::empty();
    let a = seq![(q, p)];
    let b = seq![(r, o)];
    let both = seq![(q, p), (r, o)];
    assert(a.skip(1) =~= none);
    assert(b.skip(1) =~= none);
    assert(both.drop_last() =~= a);
    assert(a.drop_last() =~= none);
    assert(sort_sites(none) == none);
    assert(none.push((q, p)) =~= a);
    assert(sort_sites(a) =~= a);
    assert(insert_site(none, (r, o)) =~= b);
    assert(sort_sites(both) == insert_site(a, (r, o)));
    assert(string_mul(none, none).sites == none && string_mul(none, none).sign == Sign::One);
    assert(string_mul(none, b).sites =~= b && string_mul(none, b).sign == Sign::One);
    assert(string_mul(a, none).sites =~= a && string_mul(a, none).sign == Sign::One);
    assert(string_mul(none, a).sites =~= a && string_mul(none, a).sign == Sign::One);
    assert(string_mul(b, none).sites =~= b && string_mul(b, none).sign == Sign::One);
    if !key_lt(q.key(), r.key()) && !key_lt(r.key(), q.key()) {
        ArchitectureQubit::key_injective(q, r);
    }
    if key_lt(q.key(), r.key()) {
        assert(sort_sites(both) =~= a + b);
        assert(string_mul(a, b).sites =~= a + b);
        assert(string_mul(b, a).sites =~= a + b);
    } else {
        assert(sort_sites(both) =~= b + a);
        assert(string_mul(a, b).sites =~= b + a);
        assert(string_mul(b, a).sites =~= b + a);
    }
    lemma_quarter_turns();
    assert(signed_mul(single_site(q, p), single_site(r, o)) =~= two_sites(q, p, r, o));
    assert(signed_mul(single_site(r, o), single_site(q, p)) =~= two_sites(q, p, r, o));
}

/// Conjugation of a site by a rotation about two: the site on the other qubit stays
/// a factor.
#[verifier::spinoff_prover]
proof fn lemma_conjugated_by_two(
    q: ArchitectureQubit,
    p: Pauli,
    r: ArchitectureQubit,
    o: Pauli,
    t: Sign,
    x: Pauli,
)
    requires
        q != r,
        !(p is I),
        !(o is I),
        !(x is I),
    ensures
        conjugated(two_sites(q, p, r, o), signed_site(t, q, x)) == if p.anticommutes(x) {
            two_sites(q, p.product(x), r, o).scaled(p.product_sign(x).times(t).times(Sign::J))
        } else {
            signed_site(t, q, x)
        },
{
    let a = single_site(q, p);
    let b = single_site(r, o);
    let e = signed_site(t, q, x);
    let ab = two_sites(q, p, r, o);
    lemma_two_sites(q, p, r, o);
    assert(clean(a.sites) && clean(b.sites) && clean(e.sites));
    lemma_single_sites(q, x, q, p);
    lemma_single_sites(q, x, r, o);
    law_commuting_with_product(e, a, b);
    if p.anticommutes(x) {
        law_product_is_associative(b, a, e);
        lemma_same_site(Sign::One, t, q, p, x);
        let s = p.product_sign(x).times(t);
        law_sign_group(t, Sign::One, Sign::One);
        assert(signed_mul(a, e) == signed_site(s, q, p.product(x)));
        law_sign_group(s, Sign::One, Sign::One);
        assert(signed_site(s, q, p.product(x)) =~= single_site(q, p.product(x)).scaled(s));
        law_phases_come_out(b, single_site(q, p.product(x)), s);
        lemma_two_sites(q, p.product(x), r, o);
        lemma_scaled_twice(two_sites(q, p.product(x), r, o), s, Sign::J);
    }
}

// ---------------------------------------------------------------------------
// Gates
// ---------------------------------------------------------------------------
pub(crate) proof fn lemma_sorted_site(q: ArchitectureQubit, p: Pauli)
    ensures
        sort_sites(seq![(q, p)]) == seq![(q, p)],
{
    let a = seq![(q, p)];
    let none = Seq::<(ArchitectureQubit, Pauli)>::empty();
    assert(a.drop_last() =~= none);
    assert(sort_sites(none) == none);
    assert(none.push((q, p)) =~= a);
}

proof fn lemma_one_op(op: ProductOp, a: SignedPauli<ArchitectureQubit>)
    ensures
        drawn_back(seq![op], a) == match op {
            ProductOp::Rotation { axis, angle } => match angle {
                PPRAngle::PiOver8 => a,
                PPRAngle::PiOver4 => conjugated(axis, a),
                PPRAngle::PiOver2 => conjugated(axis, conjugated(axis, a)),
            },
            _ => a,
        },
{
    let none = Seq::<ProductOp>::empty();
    assert(seq![op].drop_last() =~= none);
    let b = match op {
        ProductOp::Rotation { axis, angle } => match angle {
            PPRAngle::PiOver8 => a,
            PPRAngle::PiOver4 => conjugated(axis, a),
            PPRAngle::PiOver2 => conjugated(axis, conjugated(axis, a)),
        },
        _ => a,
    };
    assert(drawn_back(none, b) == b);
}

proof fn lemma_three_ops(
    f: ProductOp,
    g: ProductOp,
    h: ProductOp,
    r: SignedPauli<ArchitectureQubit>,
    s: SignedPauli<ArchitectureQubit>,
    t: SignedPauli<ArchitectureQubit>,
    a: SignedPauli<ArchitectureQubit>,
)
    requires
        f == (ProductOp::Rotation { axis: r, angle: PPRAngle::PiOver4 }),
        g == (ProductOp::Rotation { axis: s, angle: PPRAngle::PiOver4 }),
        h == (ProductOp::Rotation { axis: t, angle: PPRAngle::PiOver4 }),
    ensures
        drawn_back(seq![f, g, h], a) == conjugated(r, conjugated(s, conjugated(t, a))),
{
    let all = seq![f, g, h];
    let two = seq![f, g];
    let one = seq![f];
    let b = conjugated(t, a);
    let c = conjugated(s, b);
    assert(all.drop_last() =~= two);
    assert(all.last() == h);
    assert(drawn_back(all, a) == drawn_back(two, b));
    assert(two.drop_last() =~= one);
    assert(two.last() == g);
    assert(drawn_back(two, b) == drawn_back(one, c));
    lemma_one_op(f, c);
}

/// Two PiOver4 rotations about `p` on one qubit.
proof fn lemma_half_turn(q: ArchitectureQubit, p: Pauli, o: Pauli)
    requires
        !(p is I),
        !(o is I),
    ensures
        conjugated(single_site(q, p), conjugated(single_site(q, p), single_site(q, o)))
            == signed_site(
            if o == p {
                Sign::One
            } else {
                Sign::NegOne
            },
            q,
            o,
        ),
{
    lemma_conjugated_site(Sign::One, Sign::One, q, p, o);
    let s = p.product_sign(o).times(Sign::One.times(Sign::One)).times(Sign::J);
    lemma_conjugated_site(Sign::One, s, q, p, p.product(o));
    reveal(Sign::times);
}

/// A Pauli gate negates what anti-commutes with it on its qubit.
pub proof fn law_pauli_gates_negate(q: ArchitectureQubit, next: int, o: Pauli)
    requires
        !(o is I),
    ensures
        drawn_back(gate_ops(Gate::X(q), next), single_site(q, o)) == signed_site(
            if o is X {
                Sign::One
            } else {
                Sign::NegOne
            },
            q,
            o,
        ),
        drawn_back(gate_ops(Gate::Y(q), next), single_site(q, o)) == signed_site(
            if o is Y {
                Sign::One
            } else {
                Sign::NegOne
            },
            q,
            o,
        ),
        drawn_back(gate_ops(Gate::Z(q), next), single_site(q, o)) == signed_site(
            if o is Z {
                Sign::One
            } else {
                Sign::NegOne
            },
            q,
            o,
        ),
{
    lemma_sorted_site(q, Pauli::X);
    lemma_sorted_site(q, Pauli::Y);
    lemma_sorted_site(q, Pauli::Z);
    lemma_one_op(rotation_op(Sign::One, seq![(q, Pauli::X)], PPRAngle::PiOver2), single_site(q, o));
    lemma_one_op(rotation_op(Sign::One, seq![(q, Pauli::Y)], PPRAngle::PiOver2), single_site(q, o));
    lemma_one_op(rotation_op(Sign::One, seq![(q, Pauli::Z)], PPRAngle::PiOver2), single_site(q, o));
    lemma_half_turn(q, Pauli::X, o);
    lemma_half_turn(q, Pauli::Y, o);
    lemma_half_turn(q, Pauli::Z, o);
}

/// `S` and its inverse turn X into Y and back, with opposite signs, and keep Z.
pub proof fn law_phase_gates_turn(q: ArchitectureQubit, next: int)
    ensures
        drawn_back(gate_ops(Gate::S(q), next), single_site(q, Pauli::X)) == signed_site(
            Sign::NegOne,
            q,
            Pauli::Y,
        ),
        drawn_back(gate_ops(Gate::S(q), next), single_site(q, Pauli::Y)) == single_site(q, Pauli::X),
        drawn_back(gate_ops(Gate::S(q), next), single_site(q, Pauli::Z)) == single_site(q, Pauli::Z),
        drawn_back(gate_ops(Gate::Sdg(q), next), single_site(q, Pauli::X)) == single_site(
            q,
            Pauli::Y,
        ),
        drawn_back(gate_ops(Gate::Sdg(q), next), single_site(q, Pauli::Y)) == signed_site(
            Sign::NegOne,
            q,
            Pauli::X,
        ),
        drawn_back(gate_ops(Gate::Sdg(q), next), single_site(q, Pauli::Z)) == single_site(
            q,
            Pauli::Z,
        ),
{
    let s = rotation_op(Sign::One, seq![(q, Pauli::Z)], PPRAngle::PiOver4);
    let t = rotation_op(Sign::NegOne, seq![(q, Pauli::Z)], PPRAngle::PiOver4);
    lemma_sorted_site(q, Pauli::Z);
    lemma_one_op(s, single_site(q, Pauli::X));
    lemma_one_op(s, single_site(q, Pauli::Y));
    lemma_one_op(s, single_site(q, Pauli::Z));
    lemma_one_op(t, single_site(q, Pauli::X));
    lemma_one_op(t, single_site(q, Pauli::Y));
    lemma_one_op(t, single_site(q, Pauli::Z));
    lemma_turns(q);
    lemma_back_turns(q);
}

/// The turns about a negative axis.
proof fn lemma_back_turns(q: ArchitectureQubit)
    ensures
        conjugated(signed_site(Sign::NegOne, q, Pauli::Z), single_site(q, Pauli::X)) == single_site(
            q,
            Pauli::Y,
        ),
        conjugated(signed_site(Sign::NegOne, q, Pauli::Z), single_site(q, Pauli::Y)) == signed_site(
            Sign::NegOne,
            q,
            Pauli::X,
        ),
        conjugated(signed_site(Sign::NegOne, q, Pauli::Z), single_site(q, Pauli::Z)) == single_site(
            q,
            Pauli::Z,
        ),
{
    lemma_conjugated_site(Sign::NegOne, Sign::One, q, Pauli::Z, Pauli::X);
    lemma_conjugated_site(Sign::NegOne, Sign::One, q, Pauli::Z, Pauli::Y);
    lemma_conjugated_site(Sign::NegOne, Sign::One, q, Pauli::Z, Pauli::Z);
    reveal(Sign::times);
}

/// `H` exchanges X and Z, and negates Y.
pub proof fn law_h_exchanges_x_and_z(q: ArchitectureQubit, next: int)
    ensures
        drawn_back(gate_ops(Gate::H(q), next), single_site(q, Pauli::X)) == single_site(q, Pauli::Z),
        drawn_back(gate_ops(Gate::H(q), next), single_site(q, Pauli::Z)) == single_site(q, Pauli::X),
        drawn_back(gate_ops(Gate::H(q), next), single_site(q, Pauli::Y)) == signed_site(
            Sign::NegOne,
            q,
            Pauli::Y,
        ),
{
    let z = rotation_op(Sign::One, seq![(q, Pauli::Z)], PPRAngle::PiOver4);
    let x = rotation_op(Sign::One, seq![(q, Pauli::X)], PPRAngle::PiOver4);
    let rz = single_site(q, Pauli::Z);
    let rx = single_site(q, Pauli::X);
    lemma_sorted_site(q, Pauli::Z);
    lemma_sorted_site(q, Pauli::X);
    lemma_three_ops(z, x, z, rz, rx, rz, single_site(q, Pauli::X));
    lemma_three_ops(z, x, z, rz, rx, rz, single_site(q, Pauli::Y));
    lemma_three_ops(z, x, z, rz, rx, rz, single_site(q, Pauli::Z));
    lemma_turns(q);
}

/// The quarter turns that make up `H`.
proof fn lemma_turns(q: ArchitectureQubit)
    ensures
        conjugated(single_site(q, Pauli::Z), single_site(q, Pauli::X)) == signed_site(
            Sign::NegOne,
            q,
            Pauli::Y,
        ),
        conjugated(single_site(q, Pauli::X), signed_site(Sign::NegOne, q, Pauli::Y)) == single_site(
            q,
            Pauli::Z,
        ),
        conjugated(single_site(q, Pauli::Z), single_site(q, Pauli::Z)) == single_site(q, Pauli::Z),
        conjugated(single_site(q, Pauli::X), single_site(q, Pauli::Z)) == single_site(q, Pauli::Y),
        conjugated(single_site(q, Pauli::Z), single_site(q, Pauli::Y)) == single_site(q, Pauli::X),
        conjugated(single_site(q, Pauli::X), single_site(q, Pauli::X)) == single_site(q, Pauli::X),
{
    lemma_conjugated_site(Sign::One, Sign::One, q, Pauli::Z, Pauli::X);
    lemma_conjugated_site(Sign::One, Sign::NegOne, q, Pauli::X, Pauli::Y);
    lemma_conjugated_site(Sign::One, Sign::One, q, Pauli::Z, Pauli::Z);
    lemma_conjugated_site(Sign::One, Sign::One, q, Pauli::X, Pauli::Z);
    lemma_conjugated_site(Sign::One, Sign::One, q, Pauli::Z, Pauli::Y);
    lemma_conjugated_site(Sign::One, Sign::One, q, Pauli::X, Pauli::X);
    reveal(Sign::times);
}

/// `CNOT` spreads X from its control to its target and Z from its target to its
/// control, and keeps the Z of its control and the X of its target.
#[verifier::spinoff_prover]
pub proof fn law_cnot_spreads(control: ArchitectureQubit, target: ArchitectureQubit, next: int)
    requires
        control != target,
    ensures
        ({
            let ops = gate_ops(Gate::CNOT { control, target }, next);
            &&& drawn_back(ops, single_site(control, Pauli::X)) == two_sites(
                control,
                Pauli::X,
                target,
                Pauli::X,
            )
            &&& drawn_back(ops, single_site(target, Pauli::Z)) == two_sites(
                control,
                Pauli::Z,
                target,
                Pauli::Z,
            )
            &&& drawn_back(ops, single_site(control, Pauli::Z)) == single_site(control, Pauli::Z)
            &&& drawn_back(ops, single_site(target, Pauli::X)) == single_site(target, Pauli::X)
        }),
{
    let (c, t) = (control, target);
    let f = rotation_op(Sign::One, seq![(c, Pauli::Z), (t, Pauli::X)], PPRAngle::PiOver4);
    let g = rotation_op(Sign::NegOne, seq![(c, Pauli::Z)], PPRAngle::PiOver4);
    let h = rotation_op(Sign::NegOne, seq![(t, Pauli::X)], PPRAngle::PiOver4);
    let rf = two_sites(c, Pauli::Z, t, Pauli::X);
    let rg = signed_site(Sign::NegOne, c, Pauli::Z);
    let rh = signed_site(Sign::NegOne, t, Pauli::X);
    lemma_sorted_site(c, Pauli::Z);
    lemma_sorted_site(t, Pauli::X);
    lemma_three_ops(f, g, h, rf, rg, rh, single_site(c, Pauli::X));
    lemma_three_ops(f, g, h, rf, rg, rh, single_site(t, Pauli::Z));
    lemma_three_ops(f, g, h, rf, rg, rh, single_site(c, Pauli::Z));
    lemma_three_ops(f, g, h, rf, rg, rh, single_site(t, Pauli::X));
    reveal(Sign::times);
    // both ways of writing the two-qubit axis
    lemma_two_sites(c, Pauli::Z, t, Pauli::X);
    lemma_two_sites(t, Pauli::X, c, Pauli::Z);
    assert(rf == two_sites(t, Pauli::X, c, Pauli::Z));
    lemma_two_sites(c, Pauli::Z, t, Pauli::Z);
    lemma_two_sites(t, Pauli::Z, c, Pauli::Z);
    // X of the control
    lemma_other_site(Sign::NegOne, Sign::One, t, Pauli::X, c, Pauli::X);
    lemma_conjugated_site(Sign::NegOne, Sign::One, c, Pauli::Z, Pauli::X);
    lemma_conjugated_by_two(c, Pauli::Z, t, Pauli::X, Sign::One, Pauli::Y);
    lemma_scaled_twice(two_sites(c, Pauli::X, t, Pauli::X), Sign::One, Sign::One);
    // Z of the target
    lemma_conjugated_site(Sign::NegOne, Sign::One, t, Pauli::X, Pauli::Z);
    lemma_other_site(Sign::NegOne, Sign::NegOne, c, Pauli::Z, t, Pauli::Y);
    lemma_conjugated_by_two(t, Pauli::X, c, Pauli::Z, Sign::NegOne, Pauli::Y);
    lemma_scaled_twice(two_sites(t, Pauli::Z, c, Pauli::Z), Sign::One, Sign::One);
    // what stays
    lemma_other_site(Sign::NegOne, Sign::One, t, Pauli::X, c, Pauli::Z);
    lemma_conjugated_site(Sign::NegOne, Sign::One, c, Pauli::Z, Pauli::Z);
    lemma_conjugated_by_two(c, Pauli::Z, t, Pauli::X, Sign::One, Pauli::Z);
    lemma_conjugated_site(Sign::NegOne, Sign::One, t, Pauli::X, Pauli::X);
    lemma_other_site(Sign::NegOne, Sign::One, c, Pauli::Z, t, Pauli::X);
    lemma_conjugated_by_two(t, Pauli::X, c, Pauli::Z, Sign::One, Pauli::X);
}

/// The rotations of a `CZ`.
pub open spec fn cz_ops(a: ArchitectureQubit, b: ArchitectureQubit) -> Seq<ProductOp> {
    seq![
        rotation_op(Sign::One, seq![(a, Pauli::Z), (b, Pauli::Z)], PPRAngle::PiOver4),
        rotation_op(Sign::NegOne, seq![(a, Pauli::Z)], PPRAngle::PiOver4),
        rotation_op(Sign::NegOne, seq![(b, Pauli::Z)], PPRAngle::PiOver4),
    ]
}

/// The rotations, each waiting for the outcomes.
pub open spec fn waiting_for(ops: Seq<ProductOp>, ids: Seq<MeasId>) -> Seq<ProductOp> {
    Seq::new(
        ops.len(),
        |i: int|
            match ops[i] {
                ProductOp::Rotation { axis, angle } => ProductOp::ConditionalRotation {
                    axis,
                    angle,
                    condition: ids,
                },
                other => other,
            },
    )
}

/// `CZ` spreads X from each of its qubits to Z on the other, and keeps both Z.
#[verifier::spinoff_prover]
pub proof fn law_cz_spreads(a: ArchitectureQubit, b: ArchitectureQubit)
    requires
        a != b,
    ensures
        drawn_back(cz_ops(a, b), single_site(a, Pauli::X)) == two_sites(a, Pauli::X, b, Pauli::Z),
        drawn_back(cz_ops(a, b), single_site(b, Pauli::X)) == two_sites(b, Pauli::X, a, Pauli::Z),
        drawn_back(cz_ops(a, b), single_site(a, Pauli::Z)) == single_site(a, Pauli::Z),
        drawn_back(cz_ops(a, b), single_site(b, Pauli::Z)) == single_site(b, Pauli::Z),
{
    let f = rotation_op(Sign::One, seq![(a, Pauli::Z), (b, Pauli::Z)], PPRAngle::PiOver4);
    let g = rotation_op(Sign::NegOne, seq![(a, Pauli::Z)], PPRAngle::PiOver4);
    let h = rotation_op(Sign::NegOne, seq![(b, Pauli::Z)], PPRAngle::PiOver4);
    let rf = two_sites(a, Pauli::Z, b, Pauli::Z);
    let rg = signed_site(Sign::NegOne, a, Pauli::Z);
    let rh = signed_site(Sign::NegOne, b, Pauli::Z);
    lemma_sorted_site(a, Pauli::Z);
    lemma_sorted_site(b, Pauli::Z);
    lemma_three_ops(f, g, h, rf, rg, rh, single_site(a, Pauli::X));
    lemma_three_ops(f, g, h, rf, rg, rh, single_site(b, Pauli::X));
    lemma_three_ops(f, g, h, rf, rg, rh, single_site(a, Pauli::Z));
    lemma_three_ops(f, g, h, rf, rg, rh, single_site(b, Pauli::Z));
    reveal(Sign::times);
    // both ways of writing the two-qubit axis
    lemma_two_sites(a, Pauli::Z, b, Pauli::Z);
    lemma_two_sites(b, Pauli::Z, a, Pauli::Z);
    assert(rf == two_sites(b, Pauli::Z, a, Pauli::Z));
    // X of the first
    lemma_other_site(Sign::NegOne, Sign::One, b, Pauli::Z, a, Pauli::X);
    lemma_conjugated_site(Sign::NegOne, Sign::One, a, Pauli::Z, Pauli::X);
    lemma_conjugated_by_two(a, Pauli::Z, b, Pauli::Z, Sign::One, Pauli::Y);
    lemma_scaled_twice(two_sites(a, Pauli::X, b, Pauli::Z), Sign::One, Sign::One);
    // X of the second
    lemma_conjugated_site(Sign::NegOne, Sign::One, b, Pauli::Z, Pauli::X);
    lemma_other_site(Sign::NegOne, Sign::One, a, Pauli::Z, b, Pauli::Y);
    lemma_conjugated_by_two(b, Pauli::Z, a, Pauli::Z, Sign::One, Pauli::Y);
    lemma_scaled_twice(two_sites(b, Pauli::X, a, Pauli::Z), Sign::One, Sign::One);
    // what stays
    lemma_other_site(Sign::NegOne, Sign::One, b, Pauli::Z, a, Pauli::Z);
    lemma_conjugated_site(Sign::NegOne, Sign::One, a, Pauli::Z, Pauli::Z);
    lemma_conjugated_by_two(a, Pauli::Z, b, Pauli::Z, Sign::One, Pauli::Z);
    lemma_conjugated_site(Sign::NegOne, Sign::One, b, Pauli::Z, Pauli::Z);
    lemma_other_site(Sign::NegOne, Sign::One, a, Pauli::Z, b, Pauli::Z);
    lemma_conjugated_by_two(b, Pauli::Z, a, Pauli::Z, Sign::One, Pauli::Z);
}

/// The Clifford corrections of an injected `CCZ` are a `CZ` of each pair of its qubits,
/// all of whose rotations wait for the joint outcome of the third.
pub proof fn law_ccz_is_corrected_by_cz(
    control1: ArchitectureQubit,
    control2: ArchitectureQubit,
    target: ArchitectureQubit,
    next: int,
)
    ensures
        ({
            let ops = gate_ops(Gate::CCZ { control1, control2, target }, next);
            let joint = |k: int| seq![MeasId((next + k) as u32)];
            &&& ops.subrange(3, 6) == waiting_for(cz_ops(control2, target), joint(0))
            &&& ops.subrange(6, 9) == waiting_for(cz_ops(control1, target), joint(1))
            &&& ops.subrange(9, 12) == waiting_for(cz_ops(control1, control2), joint(2))
        }),
{
    let ops = gate_ops(Gate::CCZ { control1, control2, target }, next);
    let joint = |k: int| seq![MeasId((next + k) as u32)];
    assert(ops.subrange(3, 6) =~= waiting_for(cz_ops(control2, target), joint(0)));
    assert(ops.subrange(6, 9) =~= waiting_for(cz_ops(control1, target), joint(1)));
    assert(ops.subrange(9, 12) =~= waiting_for(cz_ops(control1, control2), joint(2)));
}

} // verus!
