//! Logical operators act on the blocks as the operators that they stand for: the map from
//! logical operators to their physical supports respects products and phases.

use vstd::prelude::*;

#[allow(unused_imports)]
use crate::circuit_to_checks::{image_of, site_applied, support_of, BasesModel, SupportModel};
#[allow(unused_imports)]
use crate::conjugation::{
    clean, involution, law_commuting_with_product, law_phases_come_out, law_product_is_associative,
    law_strings_are_involutions, law_swapping_factors, law_unit_is_neutral, lemma_clean_product,
    lemma_scaled_twice, lemma_third, unit,
};
#[allow(unused_imports)]
use crate::keyed::{key_lt, OrderedKey};
#[allow(unused_imports)]
use crate::pbc::{
    anticommuting_sites, law_sign_group, signed_mul, single_site, string_mul, strings_commute,
    ArchitectureQubit, Pauli, PhysicalQubit, Sign, SignedPauli,
};
#[allow(unused_imports)]
use crate::surgery::Site;

verus! {

// ---------------------------------------------------------------------------
// The blocks side by side
// ---------------------------------------------------------------------------
/// Physical qubit `i` of block `b`: the memory, the processor, or the magic block.
pub open spec fn qubit_in(b: int, i: usize) -> ArchitectureQubit {
    if b == 0 {
        ArchitectureQubit::Memory(i)
    } else if b == 1 {
        ArchitectureQubit::Processor(i)
    } else {
        ArchitectureQubit::Magic(i)
    }
}

/// The sites of block `b` among the qubits of all blocks.
pub open spec fn placed(b: int, s: Seq<Site>) -> Seq<(ArchitectureQubit, Pauli)> {
    Seq::new(s.len(), |i: int| (qubit_in(b, s[i].0.0), s[i].1))
}

/// An operator of block `b` among the qubits of all blocks.
pub open spec fn placed_operator(b: int, a: SignedPauli<PhysicalQubit>) -> SignedPauli<
    ArchitectureQubit,
> {
    SignedPauli { sign: a.sign, sites: placed(b, a.sites) }
}

/// A support as one operator on the physical qubits of all blocks.
pub open spec fn whole(s: SupportModel) -> SignedPauli<ArchitectureQubit> {
    SignedPauli {
        sign: s.sign,
        sites: placed(0, s.memory) + placed(1, s.processor) + placed(2, s.magic),
    }
}

/// The block that a logical qubit belongs to.
pub open spec fn block_of(q: ArchitectureQubit) -> int {
    match q {
        ArchitectureQubit::Memory(_) => 0,
        ArchitectureQubit::Processor(_) => 1,
        ArchitectureQubit::Magic(_) => 2,
    }
}

/// Its number there.
pub open spec fn index_of(q: ArchitectureQubit) -> usize {
    match q {
        ArchitectureQubit::Memory(i) => i,
        ArchitectureQubit::Processor(i) => i,
        ArchitectureQubit::Magic(i) => i,
    }
}

/// The logical operators of a block.
pub open spec fn basis_in(bases: BasesModel, b: int) -> Seq<Seq<Site>> {
    if b == 0 {
        bases.memory
    } else if b == 1 {
        bases.processor
    } else {
        bases.magic
    }
}

/// A logical basis: the first half are the X operators and the second half the Z operators
/// of the logical qubits, and they commute as X and Z of as many qubits do.
pub open spec fn symplectic(ops: Seq<Seq<Site>>) -> bool {
    let k = (ops.len() / 2) as int;
    &&& ops.len() == 2 * k
    &&& forall|i: int| 0 <= i < ops.len() ==> clean(#[trigger] ops[i])
    &&& forall|i: int, j: int|
        #![trigger ops[i], ops[j]]
        0 <= i < ops.len() && 0 <= j < ops.len() ==> strings_commute(ops[i], ops[j]) == (i != j + k
            && j != i + k)
}

/// All blocks have a logical basis.
pub open spec fn symplectic_bases(bases: BasesModel) -> bool {
    symplectic(bases.memory) && symplectic(bases.processor) && symplectic(bases.magic)
}

/// The logical qubit is there.
pub open spec fn encoded(bases: BasesModel, q: ArchitectureQubit) -> bool {
    index_of(q) < basis_in(bases, block_of(q)).len() / 2
}

/// Every logical qubit of the operator is there.
pub open spec fn all_encoded(
    bases: BasesModel,
    sites: Seq<(ArchitectureQubit, Pauli)>,
) -> bool {
    forall|i: int| 0 <= i < sites.len() ==> encoded(bases, (#[trigger] sites[i]).0)
}

/// What one site of a logical operator stands for.
pub open spec fn site_image(bases: BasesModel, q: ArchitectureQubit, p: Pauli) -> SignedPauli<
    ArchitectureQubit,
> {
    placed_operator(block_of(q), image_of(basis_in(bases, block_of(q)), index_of(q), p))
}

/// What a logical operator stands for.
pub open spec fn physical(bases: BasesModel, a: SignedPauli<ArchitectureQubit>) -> SignedPauli<
    ArchitectureQubit,
> {
    whole(support_of(a.sites, bases)).scaled(a.sign)
}

// ---------------------------------------------------------------------------
// Products block by block
// ---------------------------------------------------------------------------
proof fn lemma_placed_mul(b: int, x: Seq<Site>, y: Seq<Site>)
    ensures
        string_mul(placed(b, x), placed(b, y)).sign == string_mul(x, y).sign,
        string_mul(placed(b, x), placed(b, y)).sites == placed(b, string_mul(x, y).sites),
    decreases x.len() + y.len(),
{
    let px = placed(b, x);
    let py = placed(b, y);
    if x.len() > 0 {
        assert(px.skip(1) =~= placed(b, x.skip(1)));
        assert(px[0] == (qubit_in(b, x[0].0.0), x[0].1));
    }
    if y.len() > 0 {
        assert(py.skip(1) =~= placed(b, y.skip(1)));
        assert(py[0] == (qubit_in(b, y[0].0.0), y[0].1));
    }
    if x.len() == 0 && y.len() == 0 {
        assert(string_mul(px, py).sites =~= placed(b, string_mul(x, y).sites));
    } else if y.len() == 0 || (x.len() > 0 && key_lt(x[0].0.key(), y[0].0.key())) {
        lemma_placed_mul(b, x.skip(1), y);
        assert(string_mul(px, py).sites =~= placed(b, string_mul(x, y).sites));
    } else if x.len() == 0 || key_lt(y[0].0.key(), x[0].0.key()) {
        lemma_placed_mul(b, x, y.skip(1));
        assert(string_mul(px, py).sites =~= placed(b, string_mul(x, y).sites));
    } else {
        lemma_placed_mul(b, x.skip(1), y.skip(1));
        assert(string_mul(px, py).sites =~= placed(b, string_mul(x, y).sites));
    }
}

proof fn lemma_placed_commute(b: int, x: Seq<Site>, y: Seq<Site>)
    ensures
        anticommuting_sites(placed(b, x), placed(b, y)) == anticommuting_sites(x, y),
    decreases x.len() + y.len(),
{
    let px = placed(b, x);
    let py = placed(b, y);
    if x.len() > 0 && y.len() > 0 {
        assert(px.skip(1) =~= placed(b, x.skip(1)));
        assert(py.skip(1) =~= placed(b, y.skip(1)));
        assert(px[0] == (qubit_in(b, x[0].0.0), x[0].1));
        assert(py[0] == (qubit_in(b, y[0].0.0), y[0].1));
        lemma_placed_commute(b, x.skip(1), y);
        lemma_placed_commute(b, x, y.skip(1));
        lemma_placed_commute(b, x.skip(1), y.skip(1));
    }
}

proof fn lemma_placed_clean(b: int, x: Seq<Site>)
    requires
        clean(x),
    ensures
        clean(placed(b, x)),
{
    let px = placed(b, x);
    assert forall|i: int, j: int| 0 <= i < j < px.len() implies key_lt(
        (#[trigger] px[i]).0.key(),
        (#[trigger] px[j]).0.key(),
    ) by {
        assert(key_lt(x[i].0.key(), x[j].0.key()));
    }
    assert forall|i: int| 0 <= i < px.len() implies !((#[trigger] px[i]).1 is I) by {
        assert(!(x[i].1 is I));
    }
}

/// Everything in `a` comes before everything in `b`.
spec fn apart<A: OrderedKey>(a: Seq<(A, Pauli)>, b: Seq<(A, Pauli)>) -> bool {
    forall|i: int, j: int|
        0 <= i < a.len() && 0 <= j < b.len() ==> key_lt(
            (#[trigger] a[i]).0.key(),
            (#[trigger] b[j]).0.key(),
        )
}

proof fn lemma_apart_commute<A: OrderedKey>(a: Seq<(A, Pauli)>, b: Seq<(A, Pauli)>)
    requires
        apart(a, b),
    ensures
        anticommuting_sites(a, b) == 0,
        anticommuting_sites(b, a) == 0,
    decreases a.len(),
{
    if a.len() > 0 && b.len() > 0 {
        assert(key_lt(a[0].0.key(), b[0].0.key()));
        assert forall|i: int, j: int|
            0 <= i < a.skip(1).len() && 0 <= j < b.len() implies key_lt(
            (#[trigger] a.skip(1)[i]).0.key(),
            (#[trigger] b[j]).0.key(),
        ) by {
            assert(a.skip(1)[i] == a[i + 1]);
        }
        lemma_apart_commute(a.skip(1), b);
    }
}

proof fn lemma_nothing<A: OrderedKey>(a: Seq<(A, Pauli)>)
    ensures
        string_mul(a, Seq::empty()).sites == a,
        string_mul(a, Seq::empty()).sign == Sign::One,
        string_mul(Seq::empty(), a).sites == a,
        string_mul(Seq::empty(), a).sign == Sign::One,
{
    let e = SignedPauli { sign: Sign::One, sites: a };
    law_unit_is_neutral(e);
    law_sign_group(string_mul(a, Seq::empty()).sign, Sign::One, Sign::One);
    law_sign_group(string_mul(Seq::empty(), a).sign, Sign::One, Sign::One);
    law_sign_group(Sign::One, Sign::One, Sign::One);
}

/// Products of strings whose parts lie apart, part by part.
proof fn lemma_mul_parts<A: OrderedKey>(
    a: Seq<(A, Pauli)>,
    b: Seq<(A, Pauli)>,
    c: Seq<(A, Pauli)>,
    d: Seq<(A, Pauli)>,
)
    requires
        apart(a, b),
        apart(a, d),
        apart(c, b),
        apart(c, d),
    ensures
        string_mul(a + b, c + d).sign == string_mul(a, c).sign.times(string_mul(b, d).sign),
        string_mul(a + b, c + d).sites == string_mul(a, c).sites + string_mul(b, d).sites,
    decreases a.len() + c.len(),
{
    let none = Seq::<(A, Pauli)>::empty();
    let x = a + b;
    let y = c + d;
    let rest = string_mul(b, d);
    if a.len() == 0 && c.len() == 0 {
        assert(x =~= b && y =~= d);
        assert(string_mul(a, c).sites =~= none && string_mul(a, c).sign == Sign::One);
        law_sign_group(rest.sign, Sign::One, Sign::One);
        assert(none + rest.sites =~= rest.sites);
    } else {
        let (p, q) = (a.skip(1), c.skip(1));
        if a.len() > 0 {
            assert(x[0] == a[0]);
            assert(x.skip(1) =~= p + b);
            lemma_apart_skip(a, b);
            lemma_apart_skip(a, d);
        }
        if c.len() > 0 {
            assert(y[0] == c[0]);
            assert(y.skip(1) =~= q + d);
            lemma_apart_skip(c, b);
            lemma_apart_skip(c, d);
        }
        if c.len() == 0 || (a.len() > 0 && key_lt(a[0].0.key(), c[0].0.key())) {
            if c.len() == 0 && d.len() > 0 {
                assert(y[0] == d[0]);
                assert(key_lt(a[0].0.key(), d[0].0.key()));
            }
            lemma_mul_parts(p, b, c, d);
            assert(seq![a[0]] + (string_mul(p, c).sites + rest.sites) =~= (seq![a[0]]
                + string_mul(p, c).sites) + rest.sites);
        } else if a.len() == 0 || key_lt(c[0].0.key(), a[0].0.key()) {
            if a.len() == 0 && b.len() > 0 {
                assert(x[0] == b[0]);
                assert(key_lt(c[0].0.key(), b[0].0.key()));
            }
            lemma_mul_parts(a, b, q, d);
            assert(seq![c[0]] + (string_mul(a, q).sites + rest.sites) =~= (seq![c[0]]
                + string_mul(a, q).sites) + rest.sites);
        } else {
            lemma_mul_parts(p, b, q, d);
            let both = string_mul(p, q);
            law_sign_group(a[0].1.product_sign(c[0].1), both.sign, rest.sign);
            let one = seq![(a[0].0, a[0].1.product(c[0].1))];
            assert(one + (both.sites + rest.sites) =~= (one + both.sites) + rest.sites);
        }
    }
}

proof fn lemma_apart_skip<A: OrderedKey>(a: Seq<(A, Pauli)>, b: Seq<(A, Pauli)>)
    requires
        apart(a, b),
        a.len() > 0,
    ensures
        apart(a.skip(1), b),
{
    assert forall|i: int, j: int| 0 <= i < a.skip(1).len() && 0 <= j < b.len() implies key_lt(
        (#[trigger] a.skip(1)[i]).0.key(),
        (#[trigger] b[j]).0.key(),
    ) by {
        assert(a.skip(1)[i] == a[i + 1]);
    }
}

proof fn lemma_placed_apart(b: int, x: Seq<Site>, c: int, y: Seq<Site>)
    requires
        0 <= b < c <= 2,
    ensures
        apart(placed(b, x), placed(c, y)),
{
    let (px, py) = (placed(b, x), placed(c, y));
    assert forall|i: int, j: int| 0 <= i < px.len() && 0 <= j < py.len() implies key_lt(
        (#[trigger] px[i]).0.key(),
        (#[trigger] py[j]).0.key(),
    ) by {}
}

proof fn lemma_apart_add<A: OrderedKey>(
    a: Seq<(A, Pauli)>,
    b: Seq<(A, Pauli)>,
    c: Seq<(A, Pauli)>,
)
    requires
        apart(a, b),
        apart(a, c),
    ensures
        apart(a, b + c),
{
    let d = b + c;
    assert forall|i: int, j: int| 0 <= i < a.len() && 0 <= j < d.len() implies key_lt(
        (#[trigger] a[i]).0.key(),
        (#[trigger] d[j]).0.key(),
    ) by {
        if j < b.len() {
            assert(d[j] == b[j]);
        } else {
            assert(d[j] == c[j - b.len()]);
        }
    }
}

/// Multiplying an operator of one block in changes that block's part only.
#[verifier::spinoff_prover]
proof fn lemma_part_multiplied(b: int, e: Seq<Site>, s: SupportModel)
    requires
        0 <= b <= 2,
    ensures
        ({
            let part = if b == 0 {
                s.memory
            } else if b == 1 {
                s.processor
            } else {
                s.magic
            };
            let prod = string_mul(e, part);
            let after = if b == 0 {
                SupportModel { memory: prod.sites, ..s }
            } else if b == 1 {
                SupportModel { processor: prod.sites, ..s }
            } else {
                SupportModel { magic: prod.sites, ..s }
            };
            &&& string_mul(placed(b, e), whole(s).sites).sites == whole(after).sites
            &&& string_mul(placed(b, e), whole(s).sites).sign == prod.sign
        }),
{
    let none = Seq::<(ArchitectureQubit, Pauli)>::empty();
    let pe = placed(b, e);
    let m = placed(0, s.memory);
    let p = placed(1, s.processor);
    let g = placed(2, s.magic);
    lemma_nothing(m);
    lemma_nothing(p);
    lemma_nothing(g);
    lemma_nothing(p + g);
    lemma_placed_apart(0, s.memory, 1, s.processor);
    lemma_placed_apart(0, s.memory, 2, s.magic);
    lemma_placed_apart(1, s.processor, 2, s.magic);
    lemma_apart_add(m, p, g);
    assert(whole(s).sites =~= m + (p + g));
    if b == 0 {
        lemma_placed_mul(0, e, s.memory);
        lemma_placed_apart(0, e, 1, s.processor);
        lemma_placed_apart(0, e, 2, s.magic);
        lemma_apart_add(pe, p, g);
        lemma_mul_parts(pe, none, m, p + g);
        assert(pe + none =~= pe);
        law_sign_group(string_mul(e, s.memory).sign, Sign::One, Sign::One);
        let x = placed(0, string_mul(e, s.memory).sites);
        assert(x + (p + g) =~= x + p + g);
    } else if b == 1 {
        lemma_placed_mul(1, e, s.processor);
        lemma_placed_apart(0, s.memory, 1, e);
        lemma_placed_apart(1, e, 2, s.magic);
        lemma_mul_parts(pe, none, p, g);
        assert(pe + none =~= pe);
        lemma_mul_parts(none, pe, m, p + g);
        assert(none + pe =~= pe);
        let x = string_mul(e, s.processor);
        law_sign_group(x.sign, Sign::One, Sign::One);
        assert(m + (placed(1, x.sites) + g) =~= m + placed(1, x.sites) + g);
    } else {
        lemma_placed_mul(2, e, s.magic);
        lemma_placed_apart(0, s.memory, 2, e);
        lemma_placed_apart(1, s.processor, 2, e);
        lemma_mul_parts(none, pe, p, g);
        assert(none + pe =~= pe);
        lemma_mul_parts(none, pe, m, p + g);
        let x = string_mul(e, s.magic);
        law_sign_group(x.sign, Sign::One, Sign::One);
        assert(m + (p + placed(2, x.sites)) =~= m + p + placed(2, x.sites));
    }
}

/// One more site multiplies the support by what the site stands for.
proof fn lemma_site_multiplied(acc: SupportModel, bases: BasesModel, q: ArchitectureQubit, p: Pauli)
    ensures
        whole(site_applied(acc, bases, (q, p))) == signed_mul(site_image(bases, q, p), whole(acc)),
{
    let b = block_of(q);
    let e = image_of(basis_in(bases, b), index_of(q), p);
    lemma_part_multiplied(b, e.sites, acc);
    let prod = string_mul(placed(b, e.sites), whole(acc).sites);
    law_sign_group(acc.sign, e.sign, prod.sign);
    law_sign_group(prod.sign, e.sign, acc.sign);
    law_sign_group(prod.sign, e.sign.times(acc.sign), Sign::One);
    law_sign_group(acc.sign.times(e.sign), prod.sign, Sign::One);
    assert(whole(site_applied(acc, bases, (q, p))) =~= signed_mul(
        site_image(bases, q, p),
        whole(acc),
    ));
}

// ---------------------------------------------------------------------------
// Images of single sites
// ---------------------------------------------------------------------------
/// The rows of a logical basis as operators among the qubits of all blocks.
pub open spec fn row(bases: BasesModel, b: int, i: int) -> SignedPauli<ArchitectureQubit> {
    SignedPauli { sign: Sign::One, sites: placed(b, basis_in(bases, b)[i]) }
}

proof fn lemma_rows(bases: BasesModel, b: int, i: int, c: int, j: int)
    requires
        symplectic_bases(bases),
        0 <= b <= 2,
        0 <= c <= 2,
        0 <= i < basis_in(bases, b).len(),
        0 <= j < basis_in(bases, c).len(),
    ensures
        involution(row(bases, b, i)),
        ({
            let k = (basis_in(bases, b).len() / 2) as int;
            strings_commute(row(bases, b, i).sites, row(bases, c, j).sites) == (b != c || (i != j
                + k && j != i + k))
        }),
{
    let x = basis_in(bases, b)[i];
    let y = basis_in(bases, c)[j];
    lemma_placed_clean(b, x);
    law_strings_are_involutions(row(bases, b, i));
    if b == c {
        lemma_placed_commute(b, x, y);
    } else if b < c {
        lemma_placed_apart(b, x, c, y);
        lemma_apart_commute(placed(b, x), placed(c, y));
    } else {
        lemma_placed_apart(c, y, b, x);
        lemma_apart_commute(placed(c, y), placed(b, x));
    }
}

/// What the Paulis on a logical qubit stand for: X is the row of the logical basis with its
/// number, Z that row of the second half, Y is i times the product of the two, and the
/// identity is the identity.
proof fn lemma_site_images(bases: BasesModel, q: ArchitectureQubit)
    requires
        symplectic_bases(bases),
        encoded(bases, q),
    ensures
        ({
            let b = block_of(q);
            let k = (basis_in(bases, b).len() / 2) as int;
            let x = row(bases, b, index_of(q) as int);
            let z = row(bases, b, index_of(q) + k);
            &&& site_image(bases, q, Pauli::X) == x
            &&& site_image(bases, q, Pauli::Z) == z
            &&& site_image(bases, q, Pauli::Y) == signed_mul(x, z).scaled(Sign::J)
            &&& site_image(bases, q, Pauli::I) == unit::<ArchitectureQubit>()
            &&& involution(x)
            &&& involution(z)
            &&& !strings_commute(x.sites, z.sites)
        }),
{
    let b = block_of(q);
    let k = (basis_in(bases, b).len() / 2) as int;
    let i = index_of(q) as int;
    let x = row(bases, b, i);
    let z = row(bases, b, i + k);
    lemma_rows(bases, b, i, b, i + k);
    lemma_rows(bases, b, i + k, b, i);
    lemma_placed_mul(b, basis_in(bases, b)[i], basis_in(bases, b)[i + k]);
    let xz = string_mul(basis_in(bases, b)[i], basis_in(bases, b)[i + k]);
    law_sign_group(Sign::One, Sign::One, Sign::One);
    law_sign_group(xz.sign, Sign::One, Sign::One);
    assert(site_image(bases, q, Pauli::X) =~= x);
    assert(site_image(bases, q, Pauli::Z) =~= z);
    assert(site_image(bases, q, Pauli::Y) =~= signed_mul(x, z).scaled(Sign::J));
    assert(site_image(bases, q, Pauli::I) =~= unit::<ArchitectureQubit>());
}

/// On one logical qubit, what the Paulis stand for multiplies as the Paulis do, phases
/// included, and each of them is its own inverse, so that it can be measured.
pub proof fn law_logical_images_multiply(
    bases: BasesModel,
    q: ArchitectureQubit,
    p: Pauli,
    o: Pauli,
)
    requires
        symplectic_bases(bases),
        encoded(bases, q),
    ensures
        signed_mul(site_image(bases, q, p), site_image(bases, q, o)) == site_image(
            bases,
            q,
            p.product(o),
        ).scaled(p.product_sign(o)),
        involution(site_image(bases, q, p)),
        strings_commute(site_image(bases, q, p).sites, site_image(bases, q, o).sites)
            == !p.anticommutes(o),
{
    let b = block_of(q);
    let k = (basis_in(bases, b).len() / 2) as int;
    let x = row(bases, b, index_of(q) as int);
    let z = row(bases, b, index_of(q) + k);
    let y = signed_mul(x, z).scaled(Sign::J);
    let (ip, io) = (site_image(bases, q, p), site_image(bases, q, o));
    lemma_site_images(bases, q);
    lemma_third(x, z);
    law_unit_is_neutral(unit::<ArchitectureQubit>());
    law_unit_is_neutral(ip);
    law_unit_is_neutral(io);
    lemma_scaled_twice(site_image(bases, q, p.product(o)), Sign::One, Sign::One);
    law_swapping_factors(x, z);
    law_swapping_factors(ip, io);
    law_swapping_factors(io, ip);
    law_commuting_with_product(x, x, z);
    law_commuting_with_product(z, x, z);
    law_swapping_factors(x, x);
    lemma_self_commutes(x);
    lemma_self_commutes(z);
    lemma_self_commutes(y);
}

proof fn lemma_self_commutes<A: OrderedKey>(e: SignedPauli<A>)
    ensures
        strings_commute(e.sites, e.sites),
        strings_commute(e.sites, unit::<A>().sites),
        strings_commute(unit::<A>().sites, e.sites),
    decreases e.sites.len(),
{
    if e.sites.len() > 0 {
        lemma_self_commutes(SignedPauli { sign: e.sign, sites: e.sites.skip(1) });
    }
}

/// What operators on different logical qubits stand for commutes.
#[verifier::spinoff_prover]
pub proof fn law_logical_images_commute(
    bases: BasesModel,
    q: ArchitectureQubit,
    p: Pauli,
    r: ArchitectureQubit,
    o: Pauli,
)
    requires
        symplectic_bases(bases),
        encoded(bases, q),
        encoded(bases, r),
        q != r,
    ensures
        strings_commute(site_image(bases, q, p).sites, site_image(bases, r, o).sites),
{
    let (b, c) = (block_of(q), block_of(r));
    let (i, j) = (index_of(q) as int, index_of(r) as int);
    let k = (basis_in(bases, b).len() / 2) as int;
    let l = (basis_in(bases, c).len() / 2) as int;
    let (x, z) = (row(bases, b, i), row(bases, b, i + k));
    let (u, v) = (row(bases, c, j), row(bases, c, j + l));
    lemma_site_images(bases, q);
    lemma_site_images(bases, r);
    lemma_rows(bases, b, i, c, j);
    lemma_rows(bases, b, i, c, j + l);
    lemma_rows(bases, b, i + k, c, j);
    lemma_rows(bases, b, i + k, c, j + l);
    assert(b == c ==> i != j);
    lemma_clean_product(x, z);
    lemma_clean_product(u, v);
    let uv = signed_mul(u, v);
    law_commuting_with_product(x, u, v);
    law_commuting_with_product(z, u, v);
    law_swapping_factors(x, u);
    law_swapping_factors(x, v);
    law_swapping_factors(z, u);
    law_swapping_factors(z, v);
    law_swapping_factors(x, uv);
    law_swapping_factors(z, uv);
    law_commuting_with_product(u, x, z);
    law_commuting_with_product(v, x, z);
    law_commuting_with_product(uv, x, z);
    law_swapping_factors(uv, signed_mul(x, z));
    law_swapping_factors(u, signed_mul(x, z));
    law_swapping_factors(v, signed_mul(x, z));
    lemma_self_commutes(site_image(bases, q, p));
    lemma_self_commutes(site_image(bases, r, o));
}

// ---------------------------------------------------------------------------
// Images of operators
// ---------------------------------------------------------------------------
proof fn lemma_image_clean(bases: BasesModel, q: ArchitectureQubit, p: Pauli)
    requires
        symplectic_bases(bases),
        encoded(bases, q),
    ensures
        clean(site_image(bases, q, p).sites),
{
    law_logical_images_multiply(bases, q, p, p);
}

/// What the sites together stand for.
spec fn image(bases: BasesModel, s: Seq<(ArchitectureQubit, Pauli)>) -> SignedPauli<
    ArchitectureQubit,
> {
    whole(support_of(s, bases))
}

proof fn lemma_encoded_parts(bases: BasesModel, s: Seq<(ArchitectureQubit, Pauli)>)
    requires
        all_encoded(bases, s),
        s.len() > 0,
    ensures
        all_encoded(bases, s.drop_last()),
        all_encoded(bases, s.skip(1)),
        encoded(bases, s[0].0),
        encoded(bases, s.last().0),
{
    assert forall|i: int| 0 <= i < s.drop_last().len() implies encoded(
        bases,
        (#[trigger] s.drop_last()[i]).0,
    ) by {
        assert(encoded(bases, s[i].0));
    }
    assert forall|i: int| 0 <= i < s.skip(1).len() implies encoded(
        bases,
        (#[trigger] s.skip(1)[i]).0,
    ) by {
        assert(encoded(bases, s[i + 1].0));
    }
    assert(encoded(bases, s[s.len() - 1].0));
}

proof fn lemma_image_step(bases: BasesModel, s: Seq<(ArchitectureQubit, Pauli)>)
    requires
        s.len() > 0,
    ensures
        image(bases, s) == signed_mul(
            site_image(bases, s.last().0, s.last().1),
            image(bases, s.drop_last()),
        ),
{
    lemma_site_multiplied(support_of(s.drop_last(), bases), bases, s.last().0, s.last().1);
}

proof fn lemma_image_none(bases: BasesModel)
    ensures
        image(bases, Seq::empty()) == unit::<ArchitectureQubit>(),
{
    assert(image(bases, Seq::empty()) =~= unit::<ArchitectureQubit>());
}

proof fn lemma_whole_clean(bases: BasesModel, s: Seq<(ArchitectureQubit, Pauli)>)
    requires
        symplectic_bases(bases),
        all_encoded(bases, s),
    ensures
        clean(image(bases, s).sites),
    decreases s.len(),
{
    if s.len() == 0 {
        assert(s =~= Seq::empty());
        lemma_image_none(bases);
    } else {
        lemma_encoded_parts(bases, s);
        lemma_image_step(bases, s);
        lemma_whole_clean(bases, s.drop_last());
        lemma_image_clean(bases, s.last().0, s.last().1);
        lemma_clean_product(
            site_image(bases, s.last().0, s.last().1),
            image(bases, s.drop_last()),
        );
    }
}

/// The first site comes last in the product.
proof fn lemma_image_first(bases: BasesModel, s: Seq<(ArchitectureQubit, Pauli)>)
    requires
        symplectic_bases(bases),
        all_encoded(bases, s),
        s.len() > 0,
    ensures
        image(bases, s) == signed_mul(
            image(bases, s.skip(1)),
            site_image(bases, s[0].0, s[0].1),
        ),
    decreases s.len(),
{
    let first = site_image(bases, s[0].0, s[0].1);
    lemma_encoded_parts(bases, s);
    lemma_image_step(bases, s);
    lemma_image_none(bases);
    if s.len() == 1 {
        assert(s.drop_last() =~= Seq::empty());
        assert(s.skip(1) =~= Seq::empty());
        law_unit_is_neutral(first);
    } else {
        let front = s.drop_last();
        let back = s.skip(1);
        let mid = front.skip(1);
        let last = site_image(bases, s.last().0, s.last().1);
        assert(mid =~= back.drop_last());
        assert(back.last() == s.last());
        assert(front[0] == s[0]);
        lemma_image_first(bases, front);
        lemma_image_step(bases, back);
        lemma_encoded_parts(bases, front);
        lemma_whole_clean(bases, mid);
        lemma_image_clean(bases, s[0].0, s[0].1);
        lemma_image_clean(bases, s.last().0, s.last().1);
        law_product_is_associative(last, image(bases, mid), first);
    }
}

/// What stands for an operator commutes with what stands for a site on another qubit.
proof fn lemma_image_commutes(
    bases: BasesModel,
    s: Seq<(ArchitectureQubit, Pauli)>,
    q: ArchitectureQubit,
    p: Pauli,
)
    requires
        symplectic_bases(bases),
        all_encoded(bases, s),
        encoded(bases, q),
        forall|i: int| 0 <= i < s.len() ==> (#[trigger] s[i]).0 != q,
    ensures
        strings_commute(site_image(bases, q, p).sites, image(bases, s).sites),
    decreases s.len(),
{
    let e = site_image(bases, q, p);
    if s.len() == 0 {
        assert(s =~= Seq::empty());
        lemma_image_none(bases);
        lemma_self_commutes(e);
    } else {
        let front = s.drop_last();
        let last = site_image(bases, s.last().0, s.last().1);
        lemma_encoded_parts(bases, s);
        assert forall|i: int| 0 <= i < front.len() implies (#[trigger] front[i]).0 != q by {
            assert(s[i].0 != q);
        }
        assert(s[s.len() - 1].0 != q);
        lemma_image_commutes(bases, front, q, p);
        lemma_image_step(bases, s);
        law_logical_images_commute(bases, q, p, s.last().0, s.last().1);
        lemma_image_clean(bases, q, p);
        lemma_image_clean(bases, s.last().0, s.last().1);
        lemma_whole_clean(bases, front);
        law_commuting_with_product(e, last, image(bases, front));
    }
}

/// A clean string, and the rest of it behind its first site.
proof fn lemma_clean_rest<A: OrderedKey>(s: Seq<(A, Pauli)>)
    requires
        clean(s),
        s.len() > 0,
    ensures
        clean(s.skip(1)),
        forall|i: int| 0 <= i < s.skip(1).len() ==> key_lt(s[0].0.key(), (#[trigger] s.skip(1)[i]).0.key()),
{
    let t = s.skip(1);
    assert forall|i: int, j: int| 0 <= i < j < t.len() implies key_lt(
        (#[trigger] t[i]).0.key(),
        (#[trigger] t[j]).0.key(),
    ) by {
        assert(key_lt(s[i + 1].0.key(), s[j + 1].0.key()));
    }
    assert forall|i: int| 0 <= i < t.len() implies !((#[trigger] t[i]).1 is I) by {
        assert(!(s[i + 1].1 is I));
    }
    assert forall|i: int| 0 <= i < t.len() implies key_lt(s[0].0.key(), (#[trigger] t[i]).0.key()) by {
        assert(key_lt(s[0].0.key(), s[i + 1].0.key()));
    }
}

/// Strings of sites: what the product stands for is the product of what they stand for.
#[verifier::spinoff_prover]
#[verifier::rlimit(60)]
proof fn lemma_strings_multiply(
    bases: BasesModel,
    a: Seq<(ArchitectureQubit, Pauli)>,
    b: Seq<(ArchitectureQubit, Pauli)>,
)
    requires
        symplectic_bases(bases),
        all_encoded(bases, a),
        all_encoded(bases, b),
        clean(a),
        clean(b),
    ensures
        signed_mul(image(bases, a), image(bases, b)) == image(
            bases,
            string_mul(a, b).sites,
        ).scaled(string_mul(a, b).sign),
        all_encoded(bases, string_mul(a, b).sites),
    decreases a.len() + b.len(), 1nat,
{
    let ab = string_mul(a, b);
    let (la, lb) = (image(bases, a), image(bases, b));
    lemma_whole_clean(bases, a);
    lemma_whole_clean(bases, b);
    if a.len() == 0 && b.len() == 0 {
        assert(a =~= Seq::empty() && b =~= Seq::empty());
        lemma_image_none(bases);
        law_unit_is_neutral(unit::<ArchitectureQubit>());
        lemma_scaled_twice(unit::<ArchitectureQubit>(), Sign::One, Sign::One);
    } else if b.len() == 0 || (a.len() > 0 && key_lt(a[0].0.key(), b[0].0.key())) {
        let rest = a.skip(1);
        let first = site_image(bases, a[0].0, a[0].1);
        lemma_encoded_parts(bases, a);
        lemma_clean_rest(a);
        lemma_strings_multiply(bases, rest, b);
        let rb = string_mul(rest, b);
        assert(ab.sites.skip(1) =~= rb.sites);
        assert(ab.sites[0] == a[0]);
        assert(all_encoded(bases, ab.sites)) by {
            assert forall|i: int| 0 <= i < ab.sites.len() implies encoded(
                bases,
                (#[trigger] ab.sites[i]).0,
            ) by {
                if i > 0 {
                    assert(ab.sites[i] == rb.sites[i - 1]);
                }
            }
        }
        lemma_image_first(bases, a);
        lemma_image_first(bases, ab.sites);
        lemma_whole_clean(bases, rest);
        lemma_image_clean(bases, a[0].0, a[0].1);
        assert forall|i: int| 0 <= i < b.len() implies (#[trigger] b[i]).0 != a[0].0 by {
            if i > 0 {
                assert(key_lt(b[0].0.key(), b[i].0.key()));
            }
        }
        lemma_image_commutes(bases, b, a[0].0, a[0].1);
        law_swapping_factors(first, lb);
        lemma_scaled_twice(signed_mul(lb, first), Sign::One, Sign::One);
        law_product_is_associative(image(bases, rest), first, lb);
        law_product_is_associative(image(bases, rest), lb, first);
        law_phases_come_out(image(bases, rb.sites), first, rb.sign);
    } else if a.len() == 0 || key_lt(b[0].0.key(), a[0].0.key()) {
        let rest = b.skip(1);
        let first = site_image(bases, b[0].0, b[0].1);
        lemma_encoded_parts(bases, b);
        lemma_clean_rest(b);
        lemma_strings_multiply(bases, a, rest);
        let ar = string_mul(a, rest);
        assert(ab.sites.skip(1) =~= ar.sites);
        assert(ab.sites[0] == b[0]);
        assert(all_encoded(bases, ab.sites)) by {
            assert forall|i: int| 0 <= i < ab.sites.len() implies encoded(
                bases,
                (#[trigger] ab.sites[i]).0,
            ) by {
                if i > 0 {
                    assert(ab.sites[i] == ar.sites[i - 1]);
                }
            }
        }
        lemma_image_first(bases, b);
        lemma_image_first(bases, ab.sites);
        lemma_whole_clean(bases, rest);
        lemma_image_clean(bases, b[0].0, b[0].1);
        law_product_is_associative(la, image(bases, rest), first);
        law_phases_come_out(image(bases, ar.sites), first, ar.sign);
    } else {
        lemma_same_qubit(bases, a, b);
    }
}

/// The strings start on the same qubit.
#[verifier::spinoff_prover]
#[verifier::rlimit(60)]
proof fn lemma_same_qubit(
    bases: BasesModel,
    a: Seq<(ArchitectureQubit, Pauli)>,
    b: Seq<(ArchitectureQubit, Pauli)>,
)
    requires
        symplectic_bases(bases),
        all_encoded(bases, a),
        all_encoded(bases, b),
        clean(a),
        clean(b),
        a.len() > 0,
        b.len() > 0,
        !key_lt(a[0].0.key(), b[0].0.key()),
        !key_lt(b[0].0.key(), a[0].0.key()),
    ensures
        signed_mul(image(bases, a), image(bases, b)) == image(
            bases,
            string_mul(a, b).sites,
        ).scaled(string_mul(a, b).sign),
        all_encoded(bases, string_mul(a, b).sites),
    decreases a.len() + b.len(), 0nat,
{
    let ab = string_mul(a, b);
    let (ra, rb) = (a.skip(1), b.skip(1));
    let q = a[0].0;
    ArchitectureQubit::key_injective(a[0].0, b[0].0);
    let (p, o) = (a[0].1, b[0].1);
    let (ip, io) = (site_image(bases, q, p), site_image(bases, q, o));
    let (ia, ib) = (image(bases, ra), image(bases, rb));
    lemma_encoded_parts(bases, a);
    lemma_encoded_parts(bases, b);
    lemma_clean_rest(a);
    lemma_clean_rest(b);
    lemma_strings_multiply(bases, ra, rb);
    let rest = string_mul(ra, rb);
    let ir = image(bases, rest.sites);
    lemma_image_first(bases, a);
    lemma_image_first(bases, b);
    lemma_whole_clean(bases, ra);
    lemma_whole_clean(bases, rb);
    lemma_whole_clean(bases, rest.sites);
    lemma_image_clean(bases, q, p);
    lemma_image_clean(bases, q, o);
    lemma_image_clean(bases, q, p.product(o));
    assert forall|i: int| 0 <= i < rb.len() implies (#[trigger] rb[i]).0 != q by {
        assert(key_lt(b[0].0.key(), rb[i].0.key()));
    }
    lemma_image_commutes(bases, rb, q, p);
    law_swapping_factors(ip, ib);
    lemma_scaled_twice(signed_mul(ib, ip), Sign::One, Sign::One);
    law_logical_images_multiply(bases, q, p, o);
    let po = p.product(o);
    let ipo = site_image(bases, q, po);
    let s = p.product_sign(o);
    lemma_clean_product(ia, ip);
    lemma_clean_product(ib, io);
    lemma_clean_product(ip, io);
    lemma_clean_product(ia, ib);
    // (ra p)(rb o) = ra rb p o
    law_product_is_associative(ia, ip, signed_mul(ib, io));
    law_product_is_associative(ip, ib, io);
    law_product_is_associative(ib, ip, io);
    law_product_is_associative(ia, ib, signed_mul(ip, io));
    assert(signed_mul(image(bases, a), image(bases, b)) == signed_mul(
        signed_mul(ia, ib),
        signed_mul(ip, io),
    ));
    law_phases_come_out(ir, ipo.scaled(s), rest.sign);
    law_phases_come_out(ir, ipo, s);
    let both = signed_mul(ir, ipo);
    lemma_scaled_twice(both, s, rest.sign);
    assert(signed_mul(image(bases, a), image(bases, b)) == both.scaled(s.times(rest.sign)));
    if po is I {
        assert(ab.sites == rest.sites);
        lemma_site_images(bases, q);
        law_unit_is_neutral(ir);
    } else {
        assert(ab.sites.skip(1) =~= rest.sites);
        assert(ab.sites[0] == (q, po));
        assert forall|i: int| 0 <= i < ab.sites.len() implies encoded(
            bases,
            (#[trigger] ab.sites[i]).0,
        ) by {
            if i > 0 {
                assert(ab.sites[i] == rest.sites[i - 1]);
            }
        }
        lemma_image_first(bases, ab.sites);
    }
}

/// The map from logical operators to what they stand for respects products, phases
/// included.
pub proof fn law_supports_respect_products(
    bases: BasesModel,
    a: SignedPauli<ArchitectureQubit>,
    b: SignedPauli<ArchitectureQubit>,
)
    requires
        symplectic_bases(bases),
        all_encoded(bases, a.sites),
        all_encoded(bases, b.sites),
        clean(a.sites),
        clean(b.sites),
    ensures
        signed_mul(physical(bases, a), physical(bases, b)) == physical(bases, signed_mul(a, b)),
{
    let (ia, ib) = (image(bases, a.sites), image(bases, b.sites));
    let ab = string_mul(a.sites, b.sites);
    let iab = image(bases, ab.sites);
    lemma_strings_multiply(bases, a.sites, b.sites);
    law_phases_come_out(ia, ib.scaled(b.sign), a.sign);
    law_phases_come_out(ia, ib, b.sign);
    lemma_scaled_twice(signed_mul(ia, ib), b.sign, a.sign);
    lemma_scaled_twice(iab, ab.sign, b.sign.times(a.sign));
    law_sign_group(a.sign, b.sign, Sign::One);
    assert(signed_mul(a, b).sites == ab.sites);
    assert(signed_mul(a, b).sign == ab.sign.times(a.sign.times(b.sign)));
}

/// X on a logical qubit stands for the row of the logical basis with its number, and Z for
/// that row of the second half.
pub proof fn law_basis_operators(bases: BasesModel, q: ArchitectureQubit)
    requires
        symplectic_bases(bases),
        encoded(bases, q),
    ensures
        ({
            let b = block_of(q);
            let ops = basis_in(bases, b);
            &&& physical(bases, single_site(q, Pauli::X)) == (SignedPauli {
                sign: Sign::One,
                sites: placed(b, ops[index_of(q) as int]),
            })
            &&& physical(bases, single_site(q, Pauli::Z)) == (SignedPauli {
                sign: Sign::One,
                sites: placed(b, ops[index_of(q) + ops.len() / 2]),
            })
        }),
{
    lemma_site_images(bases, q);
    lemma_image_none(bases);
    let x = single_site(q, Pauli::X).sites;
    let z = single_site(q, Pauli::Z).sites;
    assert(x.drop_last() =~= Seq::empty());
    assert(z.drop_last() =~= Seq::empty());
    lemma_image_step(bases, x);
    lemma_image_step(bases, z);
    law_unit_is_neutral(site_image(bases, q, Pauli::X));
    law_unit_is_neutral(site_image(bases, q, Pauli::Z));
    lemma_scaled_twice(site_image(bases, q, Pauli::X), Sign::One, Sign::One);
    lemma_scaled_twice(site_image(bases, q, Pauli::Z), Sign::One, Sign::One);
}

} // verus!
