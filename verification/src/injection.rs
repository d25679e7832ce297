//! What measuring and correcting does: states are carried over by loads and stores, and
//! turned by injected gates, whatever the outcomes.

use vstd::prelude::*;

#[allow(unused_imports)]
use crate::circuit::Gate;
#[allow(unused_imports)]
use crate::clifford::{lemma_sorted_site, lemma_two_sites, two_sites};
#[allow(unused_imports)]
use crate::compile::{
    axis_of, condition_holds, gate_ops, injection_ops, load_store_op_ops, resolved, teleport_ops,
    LoadStoreOp,
};
#[allow(unused_imports)]
use crate::conjugation::{
    clean, conjugated, law_commuting_with_product, law_product_is_associative,
    law_strings_are_involutions, law_swapping_factors, law_unit_is_neutral, lemma_single_sites,
};
#[allow(unused_imports)]
use crate::kept::{lemma_settled, lemma_settled_sorted, settled};
#[allow(unused_imports)]
use crate::pbc::{
    pauli_at, signed_mul, single_site, strings_commute, ArchitectureQubit, MeasId, PPRAngle, Pauli,
    ProductOp, Sign, SignedPauli,
};

verus! {

// ---------------------------------------------------------------------------
// Operators behind measurements and corrections
// ---------------------------------------------------------------------------
/// The outcomes in exactly one of the two sets.
pub open spec fn switched(ids: Set<MeasId>, id: MeasId) -> Set<MeasId> {
    if ids.contains(id) {
        ids.remove(id)
    } else {
        ids.insert(id)
    }
}

/// What an operator after `ops`, negated by the parity of the outcomes `waiting`, is before
/// them. A half turn that waits for an outcome negates what anti-commutes with it where the
/// outcome is 1; the outcome of a measurement is the sign of its axis, so the axis takes the
/// place of the sign. `None` if a measurement disturbs the operator, or a correction of
/// another kind does.
pub open spec fn carried_back(
    ops: Seq<ProductOp>,
    a: SignedPauli<ArchitectureQubit>,
    waiting: Set<MeasId>,
) -> Option<SignedPauli<ArchitectureQubit>>
    decreases ops.len(),
{
    if ops.len() == 0 {
        Some(a)
    } else {
        let front = ops.drop_last();
        match ops.last() {
            ProductOp::Measurement { axis, id } => if !strings_commute(axis.sites, a.sites) {
                None
            } else if waiting.contains(id) {
                carried_back(front, signed_mul(axis, a), waiting.remove(id))
            } else {
                carried_back(front, a, waiting)
            },
            ProductOp::ConditionalRotation { axis, angle, condition } => if strings_commute(
                axis.sites,
                a.sites,
            ) {
                carried_back(front, a, waiting)
            } else if angle is PiOver2 && condition.len() == 1 {
                carried_back(front, a, switched(waiting, condition[0]))
            } else {
                None
            },
            ProductOp::Rotation { axis, angle } => match angle {
                PPRAngle::PiOver8 => if strings_commute(axis.sites, a.sites) {
                    carried_back(front, a, waiting)
                } else {
                    None
                },
                PPRAngle::PiOver4 => carried_back(front, conjugated(axis, a), waiting),
                PPRAngle::PiOver2 => carried_back(
                    front,
                    conjugated(axis, conjugated(axis, a)),
                    waiting,
                ),
            },
            ProductOp::FrameReset(_) => carried_back(front, a, waiting),
        }
    }
}

/// The axes and conditions of a teleport, one step after another.
proof fn lemma_teleport_steps(
    from: ArchitectureQubit,
    to: ArchitectureQubit,
    joint: MeasId,
    source: MeasId,
)
    requires
        from != to,
    ensures
        ({
            let ops = teleport_ops(from, to, joint, source);
            &&& ops.len() == 4
            &&& ops[0] == (ProductOp::Measurement {
                axis: two_sites(from, Pauli::Z, to, Pauli::Z),
                id: joint,
            })
            &&& ops[1] == (ProductOp::ConditionalRotation {
                axis: single_site(to, Pauli::X),
                angle: PPRAngle::PiOver2,
                condition: seq![joint],
            })
            &&& ops[2] == (ProductOp::Measurement {
                axis: single_site(from, Pauli::X),
                id: source,
            })
            &&& ops[3] == (ProductOp::ConditionalRotation {
                axis: single_site(to, Pauli::Z),
                angle: PPRAngle::PiOver2,
                condition: seq![source],
            })
        }),
{
    lemma_sorted_site(to, Pauli::X);
    lemma_sorted_site(from, Pauli::X);
    lemma_sorted_site(to, Pauli::Z);
}

/// Four operations, from the last to the first.
proof fn lemma_four_back(ops: Seq<ProductOp>)
    requires
        ops.len() == 4,
    ensures
        ops.drop_last() == seq![ops[0], ops[1], ops[2]],
        ops.last() == ops[3],
        seq![ops[0], ops[1], ops[2]].drop_last() == seq![ops[0], ops[1]],
        seq![ops[0], ops[1], ops[2]].last() == ops[2],
        seq![ops[0], ops[1]].drop_last() == seq![ops[0]],
        seq![ops[0], ops[1]].last() == ops[1],
        seq![ops[0]].drop_last() == Seq::<ProductOp>::empty(),
        seq![ops[0]].last() == ops[0],
{
    assert(ops.drop_last() =~= seq![ops[0], ops[1], ops[2]]);
    assert(seq![ops[0], ops[1], ops[2]].drop_last() =~= seq![ops[0], ops[1]]);
    assert(seq![ops[0], ops[1]].drop_last() =~= seq![ops[0]]);
    assert(seq![ops[0]].drop_last() =~= Seq::<ProductOp>::empty());
}

/// A teleport carries the state of one qubit to another that starts in the state where X
/// is 1: whatever the outcomes, Z of the second afterwards is Z of the first before, and X
/// of the second afterwards is X of the first before, times the X that is 1.
#[verifier::spinoff_prover]
pub proof fn law_teleport_carries_the_state(
    from: ArchitectureQubit,
    to: ArchitectureQubit,
    joint: MeasId,
    source: MeasId,
)
    requires
        from != to,
        joint != source,
    ensures
        carried_back(
            teleport_ops(from, to, joint, source),
            single_site(to, Pauli::Z),
            Set::empty(),
        ) == Some(single_site(from, Pauli::Z)),
        carried_back(
            teleport_ops(from, to, joint, source),
            single_site(to, Pauli::X),
            Set::empty(),
        ) == Some(two_sites(from, Pauli::X, to, Pauli::X)),
{
    let none = Set::<MeasId>::empty();
    let ops = teleport_ops(from, to, joint, source);
    let (xt, zt) = (single_site(to, Pauli::X), single_site(to, Pauli::Z));
    let (xf, zf) = (single_site(from, Pauli::X), single_site(from, Pauli::Z));
    let zz = two_sites(from, Pauli::Z, to, Pauli::Z);
    let xx = two_sites(from, Pauli::X, to, Pauli::X);
    lemma_teleport_steps(from, to, joint, source);
    lemma_four_back(ops);
    lemma_two_sites(from, Pauli::Z, to, Pauli::Z);
    lemma_two_sites(from, Pauli::X, to, Pauli::X);
    assert(clean(xt.sites) && clean(zt.sites) && clean(xf.sites) && clean(zf.sites));
    lemma_single_sites(to, Pauli::Z, to, Pauli::Z);
    lemma_single_sites(to, Pauli::X, to, Pauli::Z);
    lemma_single_sites(to, Pauli::Z, to, Pauli::X);
    lemma_single_sites(to, Pauli::X, to, Pauli::X);
    lemma_single_sites(to, Pauli::Z, from, Pauli::X);
    lemma_single_sites(to, Pauli::Z, from, Pauli::Z);
    lemma_single_sites(to, Pauli::X, from, Pauli::X);
    lemma_single_sites(to, Pauli::X, from, Pauli::Z);
    lemma_single_sites(from, Pauli::X, from, Pauli::Z);
    lemma_single_sites(from, Pauli::X, to, Pauli::Z);
    lemma_single_sites(from, Pauli::X, to, Pauli::X);
    law_swapping_factors(xf, zf);
    law_swapping_factors(xf, zt);
    law_swapping_factors(xt, zf);
    law_swapping_factors(xt, zt);
    law_swapping_factors(xt, xf);
    // Z of the second
    law_commuting_with_product(zt, zf, zt);
    law_product_is_associative(zf, zt, zt);
    law_strings_are_involutions(zt);
    law_unit_is_neutral(zf);
    assert(signed_mul(zz, zt) == zf);
    let w1 = none.insert(joint);
    assert(w1.remove(joint) =~= none);
    assert(carried_back(seq![ops[0]], zt, w1) == carried_back(
        Seq::<ProductOp>::empty(),
        zf,
        w1.remove(joint),
    ));
    assert(carried_back(seq![ops[0], ops[1]], zt, none) == carried_back(seq![ops[0]], zt, w1));
    assert(carried_back(seq![ops[0], ops[1], ops[2]], zt, none) == carried_back(
        seq![ops[0], ops[1]],
        zt,
        none,
    ));
    assert(carried_back(ops, zt, none) == carried_back(
        seq![ops[0], ops[1], ops[2]],
        zt,
        none,
    ));
    // X of the second
    let w2 = none.insert(source);
    assert(w2.remove(source) =~= none);
    law_commuting_with_product(xt, xf, xt);
    law_commuting_with_product(zf, xf, xt);
    law_commuting_with_product(zt, xf, xt);
    assert(clean(xx.sites) && clean(zz.sites)) by {
        law_product_is_associative(xf, xt, xt);
        law_product_is_associative(zf, zt, zt);
    }
    law_swapping_factors(xx, zf);
    law_swapping_factors(xx, zt);
    law_commuting_with_product(xx, zf, zt);
    assert(carried_back(seq![ops[0]], xx, none) == carried_back(
        Seq::<ProductOp>::empty(),
        xx,
        none,
    ));
    assert(carried_back(seq![ops[0], ops[1]], xx, none) == carried_back(seq![ops[0]], xx, none));
    assert(carried_back(seq![ops[0], ops[1], ops[2]], xt, w2) == carried_back(
        seq![ops[0], ops[1]],
        xx,
        none,
    ));
    assert(carried_back(ops, xt, none) == carried_back(
        seq![ops[0], ops[1], ops[2]],
        xt,
        w2,
    ));
}

/// A load takes the state of the memory qubit to the processor qubit, and a store takes it
/// back, whatever the outcomes.
pub proof fn law_loads_and_stores_carry_states(
    mem: ArchitectureQubit,
    proc: ArchitectureQubit,
    next: int,
)
    requires
        mem != proc,
        0 <= next < u32::MAX,
    ensures
        carried_back(
            load_store_op_ops(LoadStoreOp::Load(mem, proc), next),
            single_site(proc, Pauli::Z),
            Set::empty(),
        ) == Some(single_site(mem, Pauli::Z)),
        carried_back(
            load_store_op_ops(LoadStoreOp::Load(mem, proc), next),
            single_site(proc, Pauli::X),
            Set::empty(),
        ) == Some(two_sites(mem, Pauli::X, proc, Pauli::X)),
        carried_back(
            load_store_op_ops(LoadStoreOp::Store(proc, mem), next),
            single_site(mem, Pauli::Z),
            Set::empty(),
        ) == Some(single_site(proc, Pauli::Z)),
        carried_back(
            load_store_op_ops(LoadStoreOp::Store(proc, mem), next),
            single_site(mem, Pauli::X),
            Set::empty(),
        ) == Some(two_sites(proc, Pauli::X, mem, Pauli::X)),
{
    let (j, s) = (MeasId(next as u32), MeasId((next + 1) as u32));
    law_teleport_carries_the_state(mem, proc, j, s);
    law_teleport_carries_the_state(proc, mem, j, s);
    let ops = teleport_ops(mem, proc, j, s);
    let reset = ProductOp::FrameReset(proc);
    lemma_reset_in_front(reset, ops, single_site(proc, Pauli::Z), Set::empty());
    lemma_reset_in_front(reset, ops, single_site(proc, Pauli::X), Set::empty());
}

/// A frame reset in front changes nothing that comes behind it.
proof fn lemma_reset_in_front(
    reset: ProductOp,
    ops: Seq<ProductOp>,
    a: SignedPauli<ArchitectureQubit>,
    waiting: Set<MeasId>,
)
    requires
        reset is FrameReset,
    ensures
        carried_back(seq![reset] + ops, a, waiting) == carried_back(ops, a, waiting),
    decreases ops.len(),
{
    let all = seq![reset] + ops;
    let none = Seq::<ProductOp>::empty();
    if ops.len() == 0 {
        assert(all =~= seq![reset]);
        assert(all.drop_last() =~= none);
        assert(carried_back(none, a, waiting) == Some(a));
    } else {
        let front = ops.drop_last();
        assert(all.drop_last() =~= seq![reset] + front);
        assert(all.last() == ops.last());
        match ops.last() {
            ProductOp::Measurement { axis, id } => {
                lemma_reset_in_front(reset, front, signed_mul(axis, a), waiting.remove(id));
                lemma_reset_in_front(reset, front, a, waiting);
            },
            ProductOp::ConditionalRotation { axis, angle, condition } => {
                lemma_reset_in_front(reset, front, a, waiting);
                if condition.len() == 1 {
                    lemma_reset_in_front(reset, front, a, switched(waiting, condition[0]));
                }
            },
            ProductOp::Rotation { axis, angle } => {
                lemma_reset_in_front(reset, front, a, waiting);
                lemma_reset_in_front(reset, front, conjugated(axis, a), waiting);
                lemma_reset_in_front(
                    reset,
                    front,
                    conjugated(axis, conjugated(axis, a)),
                    waiting,
                );
            },
            ProductOp::FrameReset(_) => {
                lemma_reset_in_front(reset, front, a, waiting);
            },
        }
    }
}

// ---------------------------------------------------------------------------
// Turns
// ---------------------------------------------------------------------------
/// The value of a real sign.
pub open spec fn sign_value(s: Sign) -> int {
    match s {
        Sign::One => 1,
        Sign::NegOne => -1,
        _ => 0,
    }
}

/// An outcome as the value of what was measured.
pub open spec fn outcome_value(outcome: bool) -> int {
    if outcome {
        -1
    } else {
        1
    }
}

/// How many eighth turns an angle is: a rotation by PiOver8 is one.
pub open spec fn eighths(angle: PPRAngle) -> int {
    match angle {
        PPRAngle::PiOver8 => 1,
        PPRAngle::PiOver4 => 2,
        PPRAngle::PiOver2 => 4,
    }
}

/// All the outcomes are 1.
pub open spec fn all_happen(ids: Seq<MeasId>, outcomes: spec_fn(MeasId) -> bool) -> bool {
    forall|i: int| 0 <= i < ids.len() ==> outcomes(#[trigger] ids[i])
}

/// By how many eighth turns about Z an operation turns qubit `q`, given the outcomes. A
/// rotation about Z turns by its angle, in the direction of its sign. A joint measurement
/// of Z on `q` and X on the magic qubit turns `q` by the eighth turn that the magic state
/// holds, forwards if the two agree and backwards if not. Measuring X on the magic qubit
/// alone leaves half a turn behind where the outcome is 1.
pub open spec fn turns_of(
    op: ProductOp,
    q: ArchitectureQubit,
    outcomes: spec_fn(MeasId) -> bool,
) -> int {
    match op {
        ProductOp::Rotation { axis, angle } => if axis.sites == single_site(q, Pauli::Z).sites {
            sign_value(axis.sign) * eighths(angle)
        } else {
            0
        },
        ProductOp::ConditionalRotation { axis, angle, condition } => if axis.sites
            == single_site(q, Pauli::Z).sites && all_happen(condition, outcomes) {
            sign_value(axis.sign) * eighths(angle)
        } else {
            0
        },
        ProductOp::Measurement { axis, id } => {
            let magic = ArchitectureQubit::Magic(0);
            if axis.sites == two_sites(q, Pauli::Z, magic, Pauli::X).sites {
                sign_value(axis.sign) * outcome_value(outcomes(id))
            } else if axis.sites == single_site(magic, Pauli::X).sites && sign_value(axis.sign)
                * outcome_value(outcomes(id)) == -1 {
                4
            } else {
                0
            }
        },
        ProductOp::FrameReset(_) => 0,
    }
}

/// By how many eighth turns about Z the operations turn qubit `q` together.
pub open spec fn all_turns(
    ops: Seq<ProductOp>,
    q: ArchitectureQubit,
    outcomes: spec_fn(MeasId) -> bool,
) -> int
    decreases ops.len(),
{
    if ops.len() == 0 {
        0
    } else {
        all_turns(ops.drop_last(), q, outcomes) + turns_of(ops.last(), q, outcomes)
    }
}

/// Every operation of the list keeps Z on `q`.
pub open spec fn keeps_z(ops: Seq<ProductOp>, q: ArchitectureQubit) -> bool {
    forall|i: int|
        0 <= i < ops.len() ==> match #[trigger] ops[i] {
            ProductOp::Rotation { axis, .. } => strings_commute(
                axis.sites,
                single_site(q, Pauli::Z).sites,
            ),
            ProductOp::ConditionalRotation { axis, .. } => strings_commute(
                axis.sites,
                single_site(q, Pauli::Z).sites,
            ),
            ProductOp::Measurement { axis, .. } => strings_commute(
                axis.sites,
                single_site(q, Pauli::Z).sites,
            ),
            ProductOp::FrameReset(_) => false,
        }
}

/// An injection keeps Z of its qubit and turns it by an eighth turn in the direction of the
/// sign, whatever the outcomes.
#[verifier::spinoff_prover]
proof fn lemma_injection_turns(
    sign: Sign,
    q: ArchitectureQubit,
    joint: MeasId,
    last: MeasId,
    outcomes: spec_fn(MeasId) -> bool,
)
    requires
        sign is One || sign is NegOne,
        q != ArchitectureQubit::Magic(0),
    ensures
        (all_turns(injection_ops(sign, q, joint, last), q, outcomes) - sign_value(sign)) % 8 == 0,
        keeps_z(injection_ops(sign, q, joint, last), q),
{
    let magic = ArchitectureQubit::Magic(0);
    let ops = injection_ops(sign, q, joint, last);
    let z = single_site(q, Pauli::Z);
    let x = single_site(magic, Pauli::X);
    let zx = two_sites(q, Pauli::Z, magic, Pauli::X);
    lemma_sorted_site(q, Pauli::Z);
    lemma_sorted_site(magic, Pauli::X);
    lemma_two_sites(q, Pauli::Z, magic, Pauli::X);
    lemma_four_back(ops);
    assert(z.sites[0] != x.sites[0]);
    assert(zx.sites != x.sites && zx.sites != z.sites) by {
        crate::pbc::law_product_is_sitewise(z.sites, x.sites, q);
        crate::pbc::law_product_is_sitewise(z.sites, x.sites, magic);
        crate::pbc::lemma_pauli_at_first(z.sites, q);
        crate::pbc::lemma_pauli_at_first(z.sites, magic);
        crate::pbc::lemma_pauli_at_first(x.sites, q);
        crate::pbc::lemma_pauli_at_first(x.sites, magic);
        assert(z.sites.skip(1) =~= Seq::empty());
        assert(x.sites.skip(1) =~= Seq::empty());
    }
    assert(ops[1] matches ProductOp::ConditionalRotation { axis, condition, .. } && axis.sites
        == z.sites && all_happen(condition, outcomes) == outcomes(joint)) by {
        let c = seq![joint];
        assert(c[0] == joint);
    }
    assert(ops[3] matches ProductOp::ConditionalRotation { axis, condition, .. } && axis.sites
        == z.sites && all_happen(condition, outcomes) == outcomes(last)) by {
        let c = seq![last];
        assert(c[0] == last);
    }
    let none = Seq::<ProductOp>::empty();
    assert(all_turns(none, q, outcomes) == 0);
    assert(all_turns(seq![ops[0]], q, outcomes) == turns_of(ops[0], q, outcomes));
    assert(all_turns(seq![ops[0], ops[1]], q, outcomes) == turns_of(ops[0], q, outcomes)
        + turns_of(ops[1], q, outcomes));
    assert(all_turns(seq![ops[0], ops[1], ops[2]], q, outcomes) == turns_of(ops[0], q, outcomes)
        + turns_of(ops[1], q, outcomes) + turns_of(ops[2], q, outcomes));
    let (s, a, b) = (sign_value(sign), outcomes(joint), outcomes(last));
    assert(turns_of(ops[0], q, outcomes) == s * outcome_value(a));
    assert(s * 2 == 2 * s && 1 * 4 == 4 && 1 * outcome_value(b) == outcome_value(b));
    assert(s * outcome_value(a) == if a {
        -s
    } else {
        s
    });
    assert(turns_of(ops[1], q, outcomes) == if a {
        2 * s
    } else {
        0
    });
    assert(turns_of(ops[2], q, outcomes) == if b {
        4int
    } else {
        0
    });
    assert(turns_of(ops[3], q, outcomes) == if b {
        4int
    } else {
        0
    });
    assert(clean(z.sites) && clean(x.sites));
    lemma_single_sites(q, Pauli::Z, q, Pauli::Z);
    lemma_single_sites(q, Pauli::Z, magic, Pauli::X);
    lemma_single_sites(magic, Pauli::X, q, Pauli::Z);
    law_commuting_with_product(z, z, x);
    law_swapping_factors(z, zx);
    assert(keeps_z(ops, q)) by {
        assert forall|i: int| 0 <= i < ops.len() implies match #[trigger] ops[i] {
            ProductOp::Rotation { axis, .. } => strings_commute(axis.sites, z.sites),
            ProductOp::ConditionalRotation { axis, .. } => strings_commute(axis.sites, z.sites),
            ProductOp::Measurement { axis, .. } => strings_commute(axis.sites, z.sites),
            ProductOp::FrameReset(_) => false,
        } by {
            assert(i == 0 || i == 1 || i == 2 || i == 3);
        }
    }
}

/// The diagonal gates turn their qubit about Z and keep its Z, whatever the outcomes: `T` by
/// an eighth turn, `S` by two and `Z` by four, and `Tdg` and `Sdg` backwards by as much. So
/// `Tdg` undoes `T`, and two `T` make an `S`.
pub proof fn law_diagonal_gates_turn(
    q: ArchitectureQubit,
    next: int,
    outcomes: spec_fn(MeasId) -> bool,
)
    requires
        q != ArchitectureQubit::Magic(0),
    ensures
        (all_turns(gate_ops(Gate::T(q), next), q, outcomes) - 1) % 8 == 0,
        (all_turns(gate_ops(Gate::Tdg(q), next), q, outcomes) + 1) % 8 == 0,
        (all_turns(gate_ops(Gate::S(q), next), q, outcomes) - 2) % 8 == 0,
        (all_turns(gate_ops(Gate::Sdg(q), next), q, outcomes) + 2) % 8 == 0,
        (all_turns(gate_ops(Gate::Z(q), next), q, outcomes) - 4) % 8 == 0,
        keeps_z(gate_ops(Gate::T(q), next), q),
        keeps_z(gate_ops(Gate::Tdg(q), next), q),
        keeps_z(gate_ops(Gate::S(q), next), q),
        keeps_z(gate_ops(Gate::Sdg(q), next), q),
        keeps_z(gate_ops(Gate::Z(q), next), q),
{
    let (j, l) = (MeasId((next + 0) as u32), MeasId((next + 1) as u32));
    lemma_injection_turns(Sign::One, q, j, l, outcomes);
    lemma_injection_turns(Sign::NegOne, q, j, l, outcomes);
    lemma_sorted_site(q, Pauli::Z);
    lemma_single_sites(q, Pauli::Z, q, Pauli::Z);
    let none = Seq::<ProductOp>::empty();
    assert(all_turns(none, q, outcomes) == 0);
    let s = gate_ops(Gate::S(q), next);
    let t = gate_ops(Gate::Sdg(q), next);
    let z = gate_ops(Gate::Z(q), next);
    assert(s.drop_last() =~= none && t.drop_last() =~= none && z.drop_last() =~= none);
}

/// The injections of `T` and of `Tdg` mirror each other: the joint measurement and the
/// quarter turn that corrects it have the same axes with opposite signs, and the rest is
/// alike.
pub proof fn law_tdg_mirrors_t(q: ArchitectureQubit, next: int)
    ensures
        ({
            let t = gate_ops(Gate::T(q), next);
            let d = gate_ops(Gate::Tdg(q), next);
            &&& t.len() == 4
            &&& d.len() == 4
            &&& t[0] matches ProductOp::Measurement { axis, id } && d[0] == (
            ProductOp::Measurement { axis: axis.scaled(Sign::NegOne), id })
            &&& t[1] matches ProductOp::ConditionalRotation { axis, angle, condition } && d[1] == (
            ProductOp::ConditionalRotation { axis: axis.scaled(Sign::NegOne), angle, condition })
            &&& d[2] == t[2]
            &&& d[3] == t[3]
        }),
{
    crate::conjugation::lemma_quarter_turns();
}

/// What is done once the outcomes are known is what was to be done: the operations turn every
/// qubit as far as before, wait for nothing, and measure the same axes under the same numbers
/// in the same order.
pub proof fn law_resolving_does_what_was_waited_for(
    ops: Seq<ProductOp>,
    outcomes: Map<MeasId, bool>,
    q: ArchitectureQubit,
)
    ensures
        ({
            let known = |id: MeasId| outcomes.dom().contains(id) && outcomes[id];
            &&& all_turns(resolved(ops, outcomes), q, known) == all_turns(ops, q, known)
            &&& measurements(resolved(ops, outcomes)) == measurements(ops)
            &&& forall|i: int|
                0 <= i < resolved(ops, outcomes).len() ==> !((#[trigger] resolved(
                    ops,
                    outcomes,
                )[i]) is ConditionalRotation)
        }),
    decreases ops.len(),
{
    let known = |id: MeasId| outcomes.dom().contains(id) && outcomes[id];
    if ops.len() > 0 {
        let front = ops.drop_last();
        let op = ops.last();
        let before = resolved(front, outcomes);
        let now = resolved(ops, outcomes);
        law_resolving_does_what_was_waited_for(front, outcomes, q);
        match op {
            ProductOp::ConditionalRotation { axis, angle, condition } => {
                assert(condition_holds(condition, outcomes) == all_happen(condition, known)) by {
                    if condition_holds(condition, outcomes) {
                        assert forall|i: int| 0 <= i < condition.len() implies known(
                            #[trigger] condition[i],
                        ) by {}
                    }
                    if all_happen(condition, known) {
                        assert forall|i: int|
                            0 <= i < condition.len() implies outcomes.dom().contains(
                            #[trigger] condition[i],
                        ) && outcomes[condition[i]] by {
                            assert(known(condition[i]));
                        }
                    }
                }
                if condition_holds(condition, outcomes) {
                    assert(now.drop_last() =~= before);
                }
            },
            _ => {
                assert(now.drop_last() =~= before);
                assert(now.last() == op);
            },
        }
    }
}

/// The measurements among the operations, in order.
pub open spec fn measurements(ops: Seq<ProductOp>) -> Seq<ProductOp>
    decreases ops.len(),
{
    if ops.len() == 0 {
        Seq::empty()
    } else if ops.last() is Measurement {
        measurements(ops.drop_last()).push(ops.last())
    } else {
        measurements(ops.drop_last())
    }
}

// ---------------------------------------------------------------------------
// Three qubits
// ---------------------------------------------------------------------------
/// The axis has Paulis on two qubits, the second of which may be the first, and nothing else.
pub open spec fn acts_as(
    axis: SignedPauli<ArchitectureQubit>,
    a: ArchitectureQubit,
    p: Pauli,
    b: ArchitectureQubit,
    r: Pauli,
) -> bool {
    &&& axis.sign is One
    &&& forall|x: ArchitectureQubit| #[trigger]
        pauli_at(axis.sites, x) == if x == a {
            p
        } else if x == b {
            r
        } else {
            Pauli::I
        }
}

proof fn lemma_axis_of_two(a: ArchitectureQubit, p: Pauli, b: ArchitectureQubit, r: Pauli)
    requires
        a != b,
    ensures
        acts_as(axis_of(Sign::One, seq![(a, p), (b, r)]), a, p, b, r),
{
    let s = seq![(a, p), (b, r)];
    let axis = axis_of(Sign::One, s);
    assert forall|x: ArchitectureQubit| #[trigger] pauli_at(axis.sites, x) == if x == a {
        p
    } else if x == b {
        r
    } else {
        Pauli::I
    } by {
        let v = if x == a {
            p
        } else if x == b {
            r
        } else {
            Pauli::I
        };
        assert(s[0] == (a, p));
        assert(s[1] == (b, r));
        assert(settled(s, x, v));
        lemma_settled_sorted(s, x, v);
        lemma_settled(axis.sites, x, v);
    }
}

proof fn lemma_axis_of_one(a: ArchitectureQubit, p: Pauli)
    ensures
        acts_as(axis_of(Sign::One, seq![(a, p)]), a, p, a, p),
{
    let s = seq![(a, p)];
    let axis = axis_of(Sign::One, s);
    assert forall|x: ArchitectureQubit| #[trigger] pauli_at(axis.sites, x) == if x == a {
        p
    } else {
        Pauli::I
    } by {
        let v = if x == a {
            p
        } else {
            Pauli::I
        };
        assert(s[0] == (a, p));
        assert(settled(s, x, v));
        lemma_settled_sorted(s, x, v);
        lemma_settled(axis.sites, x, v);
    }
}

/// How a `CCZ` treats its qubit `i`: Z on it is measured together with X on a magic qubit of
/// its own, that X is measured alone once the Clifford corrections are done, and half a turn
/// about Z waits for that outcome and for the joint outcomes of the other two qubits, and for
/// nothing else.
pub open spec fn injected(ops: Seq<ProductOp>, qs: Seq<ArchitectureQubit>, i: int) -> bool {
    let magic = ArchitectureQubit::Magic(i as usize);
    match (ops[i], ops[i + 12], ops[i + 15]) {
        (
            ProductOp::Measurement { axis: joint, .. },
            ProductOp::Measurement { axis: own, id: last },
            ProductOp::ConditionalRotation { axis, angle, condition },
        ) => {
            &&& acts_as(joint, qs[i], Pauli::Z, magic, Pauli::X)
            &&& acts_as(own, magic, Pauli::X, magic, Pauli::X)
            &&& acts_as(axis, qs[i], Pauli::Z, qs[i], Pauli::Z)
            &&& angle is PiOver2
            &&& condition.len() == 3
            &&& forall|id: MeasId| #[trigger]
                condition.contains(id) <==> id == last || exists|j: int|
                    0 <= j < 3 && j != i && (#[trigger] ops[j] matches ProductOp::Measurement {
                        id: other,
                        ..
                    } && other == id)
        },
        _ => false,
    }
}

/// A `CCZ` treats its three qubits alike, each with a magic qubit of its own.
#[verifier::spinoff_prover]
pub proof fn law_ccz_treats_its_qubits_alike(qs: Seq<ArchitectureQubit>, next: int, i: int)
    requires
        qs.len() == 3,
        forall|k: int| 0 <= k < 3 ==> !((#[trigger] qs[k]) is Magic),
        0 <= i < 3,
    ensures
        gate_ops(Gate::CCZ { control1: qs[0], control2: qs[1], target: qs[2] }, next).len() == 18,
        injected(
            gate_ops(Gate::CCZ { control1: qs[0], control2: qs[1], target: qs[2] }, next),
            qs,
            i,
        ),
{
    let ops = gate_ops(Gate::CCZ { control1: qs[0], control2: qs[1], target: qs[2] }, next);
    let magic = ArchitectureQubit::Magic(i as usize);
    let m = |k: int| MeasId((next + k) as u32);
    assert(!(qs[i] is Magic));
    lemma_axis_of_two(qs[i], Pauli::Z, magic, Pauli::X);
    lemma_axis_of_one(magic, Pauli::X);
    lemma_axis_of_one(qs[i], Pauli::Z);
    let condition = ops[i + 15]->condition;
    assert(condition.len() == 3);
    assert(ops[0]->id == m(0) && ops[1]->id == m(1) && ops[2]->id == m(2));
    assert(ops[i + 12]->Measurement_id == m(i + 3));
    assert forall|id: MeasId| #[trigger] condition.contains(id) <==> id == m(i + 3) || exists|
        j: int,
    |
        0 <= j < 3 && j != i && (#[trigger] ops[j] matches ProductOp::Measurement {
            id: other,
            ..
        } && other == id) by {
        assert(condition.contains(condition[0]));
        assert(condition.contains(condition[1]));
        assert(condition.contains(condition[2]));
        if condition.contains(id) {
            let k = condition.index_of(id);
            assert(condition[k] == id);
            if id == m(0) && i != 0 {
                assert(ops[0] is Measurement);
            } else if id == m(1) && i != 1 {
                assert(ops[1] is Measurement);
            } else if id == m(2) && i != 2 {
                assert(ops[2] is Measurement);
            }
        }
    }
}

} // verus!
