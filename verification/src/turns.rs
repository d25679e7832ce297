//! Clifford frames as they are built up, turn by turn: axes with identity factors,
//! turns that undo one another, and what every such frame keeps.

use vstd::prelude::*;

#[allow(unused_imports)]
use crate::conjugation::{
    canonical, clean, law_frame_is_homomorphism, law_frame_keeps_commutation,
    law_fresh_frame_is_canonical, law_fresh_frame_is_identity, law_half_turn_negates,
    law_phases_come_out, law_strings_are_involutions, law_unit_is_neutral,
    law_update_is_conjugation, law_update_keeps_frame, lemma_apply_scaled, lemma_apply_single,
    lemma_image_involution, lemma_scaled_twice,
};
#[allow(unused_imports)]
use crate::keyed::{key_lt, strictly_keyed, OrderedKey};
#[allow(unused_imports)]
use crate::pbc::{
    anticommuting_sites, law_sign_group, signed_mul, single_site, strings_commute,
    ArchitectureQubit, FrameModel, Pauli, Sign, SignedPauli,
};

verus! {

/// The sites that are not identities.
pub open spec fn stripped<A>(s: Seq<(A, Pauli)>) -> Seq<(A, Pauli)>
    decreases s.len(),
{
    if s.len() == 0 {
        Seq::empty()
    } else if s[0].1 is I {
        stripped(s.skip(1))
    } else {
        seq![s[0]] + stripped(s.skip(1))
    }
}

/// The axis without its identity factors.
pub open spec fn plain<A>(r: SignedPauli<A>) -> SignedPauli<A> {
    SignedPauli { sign: r.sign, sites: stripped(r.sites) }
}

proof fn lemma_stripped_push<A>(s: Seq<(A, Pauli)>, x: (A, Pauli))
    ensures
        stripped(s.push(x)) == if x.1 is I {
            stripped(s)
        } else {
            stripped(s).push(x)
        },
    decreases s.len(),
{
    if s.len() == 0 {
        let one = s.push(x);
        assert(one.skip(1) =~= Seq::<(A, Pauli)>::empty());
        assert(stripped(one.skip(1)) =~= Seq::<(A, Pauli)>::empty());
        assert(stripped(s) =~= Seq::<(A, Pauli)>::empty());
        assert(one[0] == x);
        assert(stripped(one) =~= if x.1 is I {
            stripped(s)
        } else {
            stripped(s).push(x)
        });
    } else {
        let rest = s.skip(1);
        lemma_stripped_push(rest, x);
        assert(s.push(x).skip(1) =~= rest.push(x));
        assert(stripped(s.push(x)) =~= if x.1 is I {
            stripped(s)
        } else {
            stripped(s).push(x)
        });
    }
}

/// The sites of a stripped string are sites of the string, none of them an identity.
proof fn lemma_stripped_from<A>(s: Seq<(A, Pauli)>, i: int) -> (j: int)
    requires
        0 <= i < stripped(s).len(),
    ensures
        0 <= j < s.len(),
        i <= j,
        stripped(s)[i] == s[j],
        !(s[j].1 is I),
    decreases s.len(),
{
    let rest = s.skip(1);
    if s[0].1 is I {
        let j = lemma_stripped_from(rest, i);
        assert(rest[j] == s[j + 1]);
        j + 1
    } else if i == 0 {
        0
    } else {
        let j = lemma_stripped_from(rest, i - 1);
        assert(rest[j] == s[j + 1]);
        j + 1
    }
}

proof fn lemma_stripped_clean<A: OrderedKey>(s: Seq<(A, Pauli)>)
    requires
        strictly_keyed(s),
    ensures
        clean(stripped(s)),
    decreases s.len(),
{
    if s.len() > 0 {
        let rest = s.skip(1);
        assert(strictly_keyed(rest)) by {
            assert forall|i: int, j: int| 0 <= i < j < rest.len() implies key_lt(
                (#[trigger] rest[i]).0.key(),
                (#[trigger] rest[j]).0.key(),
            ) by {
                assert(rest[i] == s[i + 1] && rest[j] == s[j + 1]);
            }
        }
        lemma_stripped_clean(rest);
        let kept = stripped(rest);
        let all = stripped(s);
        if !(s[0].1 is I) {
            assert forall|i: int, j: int| 0 <= i < j < all.len() implies key_lt(
                (#[trigger] all[i]).0.key(),
                (#[trigger] all[j]).0.key(),
            ) by {
                assert(all[j] == kept[j - 1]);
                if i == 0 {
                    let k = lemma_stripped_from(rest, j - 1);
                    assert(rest[k] == s[k + 1]);
                } else {
                    assert(all[i] == kept[i - 1]);
                }
            }
            assert forall|i: int| 0 <= i < all.len() implies !((#[trigger] all[i]).1 is I) by {
                if i > 0 {
                    assert(all[i] == kept[i - 1]);
                }
            }
        }
    }
}

proof fn lemma_none_meets<A: OrderedKey>(q: A, p: Pauli, s: Seq<(A, Pauli)>)
    requires
        forall|i: int| 0 <= i < s.len() ==> key_lt(q.key(), (#[trigger] s[i]).0.key()),
    ensures
        anticommuting_sites(seq![(q, p)], s) == 0,
{
    let a = seq![(q, p)];
    assert(a.skip(1) =~= Seq::<(A, Pauli)>::empty());
    if s.len() > 0 {
        assert(key_lt(q.key(), s[0].0.key()));
        assert(anticommuting_sites(a.skip(1), s) == 0);
    }
}

/// Identities do not bear on what commutes with a single site.
proof fn lemma_stripped_commutes<A: OrderedKey>(q: A, p: Pauli, s: Seq<(A, Pauli)>)
    requires
        strictly_keyed(s),
    ensures
        strings_commute(seq![(q, p)], stripped(s)) == strings_commute(seq![(q, p)], s),
        anticommuting_sites(seq![(q, p)], stripped(s)) == anticommuting_sites(seq![(q, p)], s),
    decreases s.len(),
{
    let a = seq![(q, p)];
    assert(a.skip(1) =~= Seq::<(A, Pauli)>::empty());
    if s.len() > 0 {
        let rest = s.skip(1);
        assert(strictly_keyed(rest)) by {
            assert forall|i: int, j: int| 0 <= i < j < rest.len() implies key_lt(
                (#[trigger] rest[i]).0.key(),
                (#[trigger] rest[j]).0.key(),
            ) by {
                assert(rest[i] == s[i + 1] && rest[j] == s[j + 1]);
            }
        }
        lemma_stripped_commutes(q, p, rest);
        let kept = stripped(rest);
        assert(anticommuting_sites(a.skip(1), rest) == 0);
        assert(anticommuting_sites(a.skip(1), kept) == 0);
        assert(anticommuting_sites(a.skip(1), s) == 0);
        if !(s[0].1 is I) {
            assert(stripped(s).skip(1) =~= kept);
        }
        if !key_lt(s[0].0.key(), q.key()) {
            assert forall|i: int| 0 <= i < kept.len() implies key_lt(
                q.key(),
                (#[trigger] kept[i]).0.key(),
            ) by {
                let k = lemma_stripped_from(rest, i);
                assert(rest[k] == s[k + 1]);
                assert(key_lt(s[0].0.key(), s[k + 1].0.key()));
            }
            lemma_none_meets(q, p, kept);
            if key_lt(q.key(), s[0].0.key()) {
                assert forall|i: int| 0 <= i < s.len() implies key_lt(
                    q.key(),
                    (#[trigger] s[i]).0.key(),
                ) by {
                    if i > 0 {
                        assert(key_lt(s[0].0.key(), s[i].0.key()));
                    }
                }
                lemma_none_meets(q, p, s);
                assert forall|i: int| 0 <= i < stripped(s).len() implies key_lt(
                    q.key(),
                    (#[trigger] stripped(s)[i]).0.key(),
                ) by {
                    let k = lemma_stripped_from(s, i);
                }
                lemma_none_meets(q, p, stripped(s));
            }
        }
    }
}

proof fn lemma_stripped_image(f: FrameModel, s: Seq<(ArchitectureQubit, Pauli)>)
    ensures
        f.string_image(stripped(s)) == f.string_image(s),
    decreases s.len(),
{
    if s.len() > 0 {
        let front = s.drop_last();
        lemma_stripped_image(f, front);
        assert(front.push(s.last()) =~= s);
        lemma_stripped_push(front, s.last());
        if s.last().1 is I {
            law_unit_is_neutral(f.string_image(front));
        } else {
            let kept = stripped(front).push(s.last());
            assert(kept.drop_last() =~= stripped(front));
        }
    }
}

/// Identity factors do nothing: an axis is mapped, and turns a frame, as it does
/// without them.
pub proof fn law_identity_factors_do_nothing(
    f: FrameModel,
    rotation: SignedPauli<ArchitectureQubit>,
)
    requires
        strictly_keyed(rotation.sites),
    ensures
        clean(plain(rotation).sites),
        f.apply(plain(rotation)) == f.apply(rotation),
        f.update(plain(rotation)) == f.update(rotation),
{
    lemma_stripped_clean(rotation.sites);
    lemma_stripped_image(f, rotation.sites);
    assert forall|q: ArchitectureQubit, p: Pauli| #[trigger]
        strings_commute(seq![(q, p)], stripped(rotation.sites)) == strings_commute(
            seq![(q, p)],
            rotation.sites,
        ) by {
        lemma_stripped_commutes(q, p, rotation.sites);
    }
    let a = f.update(plain(rotation));
    let b = f.update(rotation);
    assert(a.x =~= b.x);
    assert(a.z =~= b.z);
}

/// An axis about which a frame is turned: one operator per qubit, and a real sign.
pub open spec fn turning(r: SignedPauli<ArchitectureQubit>) -> bool {
    strictly_keyed(r.sites) && (r.sign is One || r.sign is NegOne)
}

/// The frame after PiOver4 rotations about the axes, one after another.
pub open spec fn turned(axes: Seq<SignedPauli<ArchitectureQubit>>) -> FrameModel
    decreases axes.len(),
{
    if axes.len() == 0 {
        FrameModel::identity()
    } else {
        turned(axes.drop_last()).update(axes.last())
    }
}

pub open spec fn all_turning(axes: Seq<SignedPauli<ArchitectureQubit>>) -> bool {
    forall|i: int| 0 <= i < axes.len() ==> turning(#[trigger] axes[i])
}

/// Every frame that turns lead to is a conjugation.
pub proof fn law_turns_keep_frame(axes: Seq<SignedPauli<ArchitectureQubit>>)
    requires
        all_turning(axes),
    ensures
        canonical(turned(axes)),
    decreases axes.len(),
{
    if axes.len() == 0 {
        law_fresh_frame_is_canonical();
    } else {
        let front = axes.drop_last();
        let r = axes[axes.len() - 1];
        assert forall|i: int| 0 <= i < front.len() implies turning(#[trigger] front[i]) by {
            assert(front[i] == axes[i]);
        }
        law_turns_keep_frame(front);
        law_identity_factors_do_nothing(turned(front), r);
        law_strings_are_involutions(plain(r));
        law_update_keeps_frame(turned(front), plain(r));
    }
}

/// The images under every such frame have a real sign.
pub proof fn law_images_have_real_signs(
    axes: Seq<SignedPauli<ArchitectureQubit>>,
    q: ArchitectureQubit,
    p: Pauli,
)
    requires
        all_turning(axes),
    ensures
        turned(axes).image(q, p).sign is One || turned(axes).image(q, p).sign is NegOne,
{
    law_turns_keep_frame(axes);
    lemma_image_involution(turned(axes), q, p);
    let e = turned(axes).image(q, p);
    crate::pbc::law_string_squares_to_identity(e.sites);
    law_sign_group(e.sign.times(e.sign), Sign::One, Sign::One);
    lemma_real_root(e.sign);
}

proof fn lemma_real_root(s: Sign)
    requires
        s.times(s) == Sign::One,
    ensures
        s is One || s is NegOne,
{
    reveal(Sign::times);
}

/// Every such frame maps products to products and keeps what commutes; a fresh one
/// maps every operator to itself.
pub proof fn law_turned_frames_multiply(
    axes: Seq<SignedPauli<ArchitectureQubit>>,
    a: SignedPauli<ArchitectureQubit>,
    b: SignedPauli<ArchitectureQubit>,
)
    requires
        all_turning(axes),
        clean(a.sites),
        clean(b.sites),
    ensures
        turned(axes).apply(signed_mul(a, b)) == signed_mul(
            turned(axes).apply(a),
            turned(axes).apply(b),
        ),
        strings_commute(turned(axes).apply(a).sites, turned(axes).apply(b).sites)
            == strings_commute(a.sites, b.sites),
        FrameModel::identity().apply(a) == a,
{
    law_turns_keep_frame(axes);
    law_frame_is_homomorphism(turned(axes), a, b);
    law_frame_keeps_commutation(turned(axes), a, b);
    law_fresh_frame_is_identity(a);
}

/// A turn about an axis, and then about the same axis, negates what does not commute
/// with it.
pub proof fn law_turning_twice_negates(
    axes: Seq<SignedPauli<ArchitectureQubit>>,
    rotation: SignedPauli<ArchitectureQubit>,
    q: ArchitectureQubit,
    p: Pauli,
)
    requires
        all_turning(axes),
        turning(rotation),
        !(p is I),
    ensures
        turned(axes).update(rotation).update(rotation).image(q, p) == if strings_commute(
            seq![(q, p)],
            rotation.sites,
        ) {
            turned(axes).image(q, p)
        } else {
            turned(axes).image(q, p).scaled(Sign::NegOne)
        },
{
    let f = turned(axes);
    let r = plain(rotation);
    law_turns_keep_frame(axes);
    law_identity_factors_do_nothing(f, rotation);
    law_identity_factors_do_nothing(f.update(rotation), rotation);
    law_strings_are_involutions(r);
    let a = single_site(q, p);
    assert(clean(a.sites));
    law_half_turn_negates(f, r, a);
    lemma_apply_single(f, q, p);
    lemma_apply_single(f.update(r).update(r), q, p);
    lemma_stripped_commutes(q, p, rotation.sites);
}

/// A turn about an axis, and then about its negative, leaves every image as it was.
pub proof fn law_opposite_turns_cancel(
    axes: Seq<SignedPauli<ArchitectureQubit>>,
    rotation: SignedPauli<ArchitectureQubit>,
    q: ArchitectureQubit,
    p: Pauli,
)
    requires
        all_turning(axes),
        turning(rotation),
    ensures
        turned(axes).update(rotation).update(rotation.scaled(Sign::NegOne)).image(q, p) == turned(
            axes,
        ).image(q, p),
{
    let f = turned(axes);
    let r = plain(rotation);
    let back = rotation.scaled(Sign::NegOne);
    law_turns_keep_frame(axes);
    law_identity_factors_do_nothing(f, rotation);
    law_identity_factors_do_nothing(f.update(r), back);
    assert(plain(back) == r.scaled(Sign::NegOne));
    lemma_opposite(f, r, q, p);
}

proof fn lemma_negated_real(s: Sign)
    requires
        s is One || s is NegOne,
    ensures
        s.times(Sign::NegOne) is One || s.times(Sign::NegOne) is NegOne,
        Sign::NegOne.times(Sign::NegOne) == Sign::One,
        Sign::NegOne.times(Sign::J) == Sign::J.times(Sign::NegOne),
{
    reveal(Sign::times);
}

#[verifier::spinoff_prover]
#[verifier::rlimit(60)]
proof fn lemma_opposite(
    f: FrameModel,
    r: SignedPauli<ArchitectureQubit>,
    q: ArchitectureQubit,
    p: Pauli,
)
    requires
        canonical(f),
        clean(r.sites),
        r.sign is One || r.sign is NegOne,
    ensures
        f.update(r).update(r.scaled(Sign::NegOne)).image(q, p) == f.image(q, p),
{
    let g = f.update(r);
    let b = r.scaled(Sign::NegOne);
    lemma_negated_real(r.sign);
    law_strings_are_involutions(r);
    law_strings_are_involutions(b);
    law_update_keeps_frame(f, r);
    let h = g.update(b);
    if !(p is I) {
        let a = single_site(q, p);
        assert(clean(a.sites));
        lemma_apply_single(f, q, p);
        lemma_apply_single(h, q, p);
        law_half_turn_negates(f, r, a);
        law_update_is_conjugation(g, r, a);
        law_update_is_conjugation(g, b, a);
        law_update_is_conjugation(f, r, a);
        lemma_apply_scaled(g, r, Sign::NegOne);
        if !strings_commute(a.sites, r.sites) {
            let x = g.apply(r);
            let y = g.apply(a);
            let prod = signed_mul(x, y);
            law_phases_come_out(x, y, Sign::NegOne);
            lemma_scaled_twice(prod, Sign::NegOne, Sign::J);
            lemma_scaled_twice(prod, Sign::J, Sign::NegOne);
            assert(h.apply(a) == prod.scaled(Sign::J).scaled(Sign::NegOne));
            lemma_scaled_twice(f.apply(a), Sign::NegOne, Sign::NegOne);
        }
    }
}

} // verus!
