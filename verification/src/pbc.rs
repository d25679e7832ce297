//! Pauli operators, Pauli-product circuits and the Clifford frame.

use vstd::prelude::*;
use vstd::string::*;

use crate::keyed::{
    has_key, key_lt, key_position, strictly_keyed, KeyedMap, OrderedKey,
};
use crate::text::{push_decimal, push_joined, Text};
#[allow(unused_imports)]
use crate::text::{decimal, joined};

verus! {

/// A stable identifier for a measurement outcome (classical bit).
#[derive(Clone, Copy, Debug, PartialEq, Eq, PartialOrd, Ord, Hash, Structural)]
pub struct MeasId(pub u32);

impl OrderedKey for MeasId {
    open spec fn key(self) -> (int, int) {
        (0, self.0 as int)
    }

    proof fn key_injective(a: Self, b: Self) {
    }

    fn precedes(&self, other: &Self) -> (r: bool) {
        self.0 < other.0
    }

    fn same(&self, other: &Self) -> (r: bool) {
        self.0 == other.0
    }
}

/// A conjunction of measurement outcomes: satisfied when all listed bits are 1.
/// The identifiers are kept in strictly increasing order.
#[derive(Debug)]
pub struct AllOf(pub Vec<MeasId>);

impl View for AllOf {
    type V = Seq<MeasId>;

    open spec fn view(&self) -> Seq<MeasId> {
        self.0@
    }
}

/// The identifiers increase strictly.
pub open spec fn ids_increasing(ids: Seq<MeasId>) -> bool {
    forall|i: int, j: int| 0 <= i < j < ids.len() ==> (#[trigger] ids[i]).0 < (#[trigger] ids[j]).0
}

impl AllOf {
    pub fn single(id: MeasId) -> (r: Self)
        ensures
            r@ == seq![id],
    {
        let r = AllOf(vec![id]);
        assert(r@ =~= seq![id]);
        r
    }

    /// Add `id` to the conjunction, unless it is listed already.
    pub fn and(self, id: MeasId) -> (r: Self)
        requires
            ids_increasing(self@),
        ensures
            ids_increasing(r@),
            forall|m: MeasId| r@.contains(m) <==> (self@.contains(m) || m == id),
    {
        let mut ids: Vec<MeasId> = self.0;
        let ghost before = ids@;
        let mut lo: usize = 0;
        let mut hi: usize = ids.len();
        while lo < hi
            invariant
                lo <= hi <= ids@.len(),
                ids_increasing(ids@),
                ids@ == before,
                forall|i: int| 0 <= i < lo ==> (#[trigger] ids@[i]).0 < id.0,
                forall|i: int| hi <= i < ids@.len() ==> (#[trigger] ids@[i]).0 >= id.0,
            decreases hi - lo,
        {
            let mid: usize = lo + (hi - lo) / 2;
            if ids[mid].0 < id.0 {
                lo = mid + 1;
            } else {
                hi = mid;
            }
        }
        if lo < ids.len() && ids[lo].0 == id.0 {
            assert(ids@[lo as int] == id);
        } else {
            ids.insert(lo, id);
            proof {
                let after = ids@;
                assert forall|i: int, j: int| 0 <= i < j < after.len() implies (
                #[trigger] after[i]).0 < (#[trigger] after[j]).0 by {
                    if i != lo {
                        assert(after[i] == before[if i < lo { i } else { i - 1 }]);
                    }
                    if j != lo {
                        assert(after[j] == before[if j < lo { j } else { j - 1 }]);
                    }
                    if lo < before.len() {
                        assert(before[lo as int].0 > id.0);
                    }
                }
                assert forall|m: MeasId| after.contains(m) <==> (before.contains(m) || m == id) by {
                    if before.contains(m) {
                        let i = before.index_of(m);
                        assert(after[if i < lo { i } else { i + 1 }] == m);
                    }
                    assert(after[lo as int] == id);
                    if after.contains(m) && m != id {
                        let i = after.index_of(m);
                        assert(before[if i < lo { i } else { i - 1 }] == m);
                    }
                }
            }
        }
        AllOf(ids)
    }
}

impl Clone for AllOf {
    fn clone(&self) -> (r: Self)
        ensures
            r@ == self@,
    {
        let r = AllOf(self.0.clone());
        assert(r@ =~= self@);
        r
    }
}

impl Default for AllOf {
    fn default() -> (r: Self)
        ensures
            r@ == Seq::<MeasId>::empty(),
    {
        AllOf(Vec::new())
    }
}

/// A fourth root of unity.
#[derive(Clone, Debug, Copy, PartialEq, Eq, Hash, Structural)]
pub enum Sign {
    One,
    NegOne,
    J,
    NegJ,
}

impl Sign {
    /// The exponent `e`, from 0 to 3, with `self == i^e`.
    pub open spec fn phase(self) -> int {
        match self {
            Sign::One => 0,
            Sign::J => 1,
            Sign::NegOne => 2,
            Sign::NegJ => 3,
        }
    }

    /// The root of unity `i^e`.
    pub open spec fn of_phase(e: int) -> Sign {
        if e % 4 == 0 {
            Sign::One
        } else if e % 4 == 1 {
            Sign::J
        } else if e % 4 == 2 {
            Sign::NegOne
        } else {
            Sign::NegJ
        }
    }

    /// The product of two roots of unity: the exponents add.
    #[verifier::opaque]
    pub open spec fn times(self, rhs: Sign) -> Sign {
        Sign::of_phase(self.phase() + rhs.phase())
    }
}

impl vstd::std_specs::ops::MulSpecImpl for Sign {
    open spec fn obeys_mul_spec() -> bool {
        true
    }

    open spec fn mul_req(self, rhs: Sign) -> bool {
        true
    }

    open spec fn mul_spec(self, rhs: Sign) -> Sign {
        self.times(rhs)
    }
}

impl core::ops::Mul for Sign {
    type Output = Sign;

    fn mul(self, rhs: Self) -> (r: Sign) {
        proof {
            reveal(Sign::times);
        }
        match (self, rhs) {
            (Sign::One, x) => x,
            (x, Sign::One) => x,
            (Sign::NegOne, Sign::NegOne) => Sign::One,
            (Sign::J, Sign::NegJ) => Sign::One,
            (Sign::NegJ, Sign::J) => Sign::One,
            (Sign::J, Sign::J) => Sign::NegOne,
            (Sign::NegJ, Sign::NegJ) => Sign::NegOne,
            (Sign::NegOne, Sign::J) => Sign::NegJ,
            (Sign::J, Sign::NegOne) => Sign::NegJ,
            (Sign::NegOne, Sign::NegJ) => Sign::J,
            (Sign::NegJ, Sign::NegOne) => Sign::J,
        }
    }
}

impl Default for Sign {
    fn default() -> (r: Self)
        ensures
            r == Sign::One,
    {
        Sign::One
    }
}

/// Signs form a commutative group under multiplication, with `One` as the unit.
pub proof fn law_sign_group(a: Sign, b: Sign, c: Sign)
    ensures
        a.times(b) == b.times(a),
        a.times(b).times(c) == a.times(b.times(c)),
        a.times(Sign::One) == a,
        Sign::One.times(a) == a,
        exists|inv: Sign| a.times(inv) == Sign::One,
{
    reveal(Sign::times);
    assert(a.times(Sign::of_phase(4 - a.phase())) == Sign::One);
}

/// A single-qubit Pauli operator.
#[derive(Clone, Copy, PartialEq, Eq, Hash, Debug, Structural)]
pub enum Pauli {
    X,
    Y,
    Z,
    I,
}

impl Pauli {
    /// Whether the operator flips the qubit.
    pub open spec fn has_x(self) -> bool {
        self is X || self is Y
    }

    /// Whether the operator flips the phase.
    pub open spec fn has_z(self) -> bool {
        self is Z || self is Y
    }

    /// The operator with the given flips.
    pub open spec fn of_flips(x: bool, z: bool) -> Pauli {
        if x && z {
            Pauli::Y
        } else if x {
            Pauli::X
        } else if z {
            Pauli::Z
        } else {
            Pauli::I
        }
    }

    /// Whether the two operators anti-commute.
    pub open spec fn anticommutes(self, other: Pauli) -> bool {
        (self.has_x() && other.has_z()) != (self.has_z() && other.has_x())
    }

    /// The operator part of a product: the flips add.
    pub open spec fn product(self, other: Pauli) -> Pauli {
        Pauli::of_flips(self.has_x() != other.has_x(), self.has_z() != other.has_z())
    }

    /// The phase of a product: `i` when the factors follow one another in the
    /// cycle X, Y, Z, and `-i` when they do so backwards.
    pub open spec fn product_sign(self, other: Pauli) -> Sign {
        if !self.anticommutes(other) {
            Sign::One
        } else if (self is X && other is Y) || (self is Y && other is Z) || (self is Z
            && other is X) {
            Sign::J
        } else {
            Sign::NegJ
        }
    }
}

fn pauli_mul(a: Pauli, b: Pauli) -> (r: (Sign, Pauli))
    ensures
        r.0 == a.product_sign(b),
        r.1 == a.product(b),
{
    match (a, b) {
        (Pauli::I, x) => (Sign::One, x),
        (x, Pauli::I) => (Sign::One, x),
        (Pauli::X, Pauli::X) => (Sign::One, Pauli::I),
        (Pauli::Y, Pauli::Y) => (Sign::One, Pauli::I),
        (Pauli::Z, Pauli::Z) => (Sign::One, Pauli::I),
        (Pauli::X, Pauli::Y) => (Sign::J, Pauli::Z),
        (Pauli::Y, Pauli::X) => (Sign::NegJ, Pauli::Z),
        (Pauli::Y, Pauli::Z) => (Sign::J, Pauli::X),
        (Pauli::Z, Pauli::Y) => (Sign::NegJ, Pauli::X),
        (Pauli::Z, Pauli::X) => (Sign::J, Pauli::Y),
        (Pauli::X, Pauli::Z) => (Sign::NegJ, Pauli::Y),
    }
}

/// The product of single-qubit Pauli operators is associative, and swapping
/// the factors negates it exactly when they anti-commute.
pub proof fn law_pauli_product(a: Pauli, b: Pauli, c: Pauli)
    ensures
        a.product(b).product(c) == a.product(b.product(c)),
        a.product_sign(b).times(a.product(b).product_sign(c)) == b.product_sign(c).times(
            a.product_sign(b.product(c)),
        ),
        a.product(b) == b.product(a),
        a.anticommutes(b) ==> a.product_sign(b) == Sign::NegOne.times(b.product_sign(a)),
        !a.anticommutes(b) ==> a.product_sign(b) == b.product_sign(a),
{
    reveal(Sign::times);
}

/// An index type that the sites of a Pauli string can range over.
pub trait PauliStringIndex: OrderedKey {

}

/// Flat integer qubit index, used by the lowered physical circuit.
impl PauliStringIndex for usize {

}

/// The sites are in order of their qubits.
pub open spec fn sites_sorted<A: OrderedKey>(s: Seq<(A, Pauli)>) -> bool {
    forall|i: int, j: int|
        0 <= i < j < s.len() ==> !key_lt((#[trigger] s[j]).0.key(), (#[trigger] s[i]).0.key())
}

/// `s` with `site` put behind every site whose qubit does not come after its own.
pub open spec fn insert_site<A: OrderedKey>(s: Seq<(A, Pauli)>, site: (A, Pauli)) -> Seq<(A, Pauli)>
    decreases s.len(),
{
    if s.len() == 0 || !key_lt(site.0.key(), s.last().0.key()) {
        s.push(site)
    } else {
        insert_site(s.drop_last(), site).push(s.last())
    }
}

/// The sites of `s` in order of their qubits; sites on one qubit keep their order.
pub open spec fn sort_sites<A: OrderedKey>(s: Seq<(A, Pauli)>) -> Seq<(A, Pauli)>
    decreases s.len(),
{
    if s.len() == 0 {
        Seq::empty()
    } else {
        insert_site(sort_sites(s.drop_last()), s.last())
    }
}

proof fn lemma_insert_site<A: OrderedKey>(s: Seq<(A, Pauli)>, site: (A, Pauli))
    requires
        sites_sorted(s),
    ensures
        sites_sorted(insert_site(s, site)),
        insert_site(s, site).to_multiset() =~= s.to_multiset().insert(site),
        insert_site(s, site).len() == s.len() + 1,
        s.len() > 0 ==> insert_site(s, site).last() == if key_lt(site.0.key(), s.last().0.key()) {
            s.last()
        } else {
            site
        },
    decreases s.len(),
{
    broadcast use vstd::seq_lib::group_to_multiset_ensures;

    if s.len() == 0 || !key_lt(site.0.key(), s.last().0.key()) {
    } else {
        let t = s.drop_last();
        lemma_insert_site(t, site);
        let r = insert_site(t, site);
        assert(t.push(s.last()) =~= s);
        assert(r.len() > 0);
        assert forall|i: int| 0 <= i < r.len() implies !key_lt(
            s.last().0.key(),
            (#[trigger] r[i]).0.key(),
        ) by {
            if t.len() > 0 {
                assert(!key_lt(s[s.len() - 1].0.key(), s[s.len() - 2].0.key()));
            }
            assert(!key_lt(s.last().0.key(), r.last().0.key()));
            if i < r.len() - 1 {
                assert(!key_lt(r[r.len() - 1].0.key(), r[i].0.key()));
            }
        }
        assert(r.push(s.last()).to_multiset() =~= r.to_multiset().insert(s.last()));
        assert(s.to_multiset() =~= t.to_multiset().insert(s.last()));
    }
}

/// Sorting puts the sites in order and keeps them all.
pub proof fn law_sort_sites<A: OrderedKey>(s: Seq<(A, Pauli)>)
    ensures
        sites_sorted(sort_sites(s)),
        sort_sites(s).to_multiset() == s.to_multiset(),
        sort_sites(s).len() == s.len(),
    decreases s.len(),
{
    broadcast use vstd::seq_lib::group_to_multiset_ensures;

    if s.len() > 0 {
        law_sort_sites(s.drop_last());
        lemma_insert_site(sort_sites(s.drop_last()), s.last());
        assert(s.drop_last().push(s.last()) =~= s);
    } else {
        assert(sort_sites(s) =~= s);
    }
}

/// Sorting leaves sorted sites as they are.
pub proof fn law_sort_sorted_sites<A: OrderedKey>(s: Seq<(A, Pauli)>)
    requires
        sites_sorted(s),
    ensures
        sort_sites(s) == s,
    decreases s.len(),
{
    if s.len() > 0 {
        let t = s.drop_last();
        assert(sites_sorted(t));
        law_sort_sorted_sites(t);
        if t.len() > 0 {
            assert(!key_lt(s[s.len() - 1].0.key(), s[s.len() - 2].0.key()));
        }
        assert(t.push(s.last()) =~= s);
    }
}

proof fn lemma_insert_site_at<A: OrderedKey>(s: Seq<(A, Pauli)>, site: (A, Pauli), p: int)
    requires
        0 <= p <= s.len(),
        forall|i: int| p <= i < s.len() ==> key_lt(site.0.key(), (#[trigger] s[i]).0.key()),
        p > 0 ==> !key_lt(site.0.key(), s[p - 1].0.key()),
    ensures
        insert_site(s, site) == s.insert(p, site),
    decreases s.len(),
{
    if p == s.len() {
        assert(s.insert(p, site) =~= s.push(site));
    } else {
        assert(key_lt(site.0.key(), s[s.len() - 1].0.key()));
        lemma_insert_site_at(s.drop_last(), site, p);
        assert(s.insert(p, site) =~= s.drop_last().insert(p, site).push(s.last()));
    }
}

/// A product of single-qubit Pauli operators, its sites in order of their qubits.
#[derive(Debug, PartialEq, Eq, Hash)]
pub struct PauliString<A: PauliStringIndex>(Vec<(A, Pauli)>);

impl<A: PauliStringIndex> View for PauliString<A> {
    type V = Seq<(A, Pauli)>;

    closed spec fn view(&self) -> Seq<(A, Pauli)> {
        self.0@
    }
}

impl<A: PauliStringIndex> PauliString<A> {
    #[verifier::type_invariant]
    spec fn well_formed(self) -> bool {
        sites_sorted(self.0@)
    }

    pub fn new(pairs: Vec<(A, Pauli)>) -> (r: Self)
        ensures
            r@ == sort_sites(pairs@),
    {
        let mut out: Vec<(A, Pauli)> = Vec::new();
        for i in 0..pairs.len()
            invariant
                out@ == sort_sites(pairs@.take(i as int)),
        {
            let site = pairs[i];
            let mut p: usize = out.len();
            while p > 0 && site.0.precedes(&out[p - 1].0)
                invariant
                    p <= out@.len(),
                    forall|j: int|
                        p <= j < out@.len() ==> key_lt(site.0.key(), (#[trigger] out@[j]).0.key()),
                decreases p,
            {
                p = p - 1;
            }
            proof {
                lemma_insert_site_at(out@, site, p as int);
                assert(pairs@.take(i + 1).drop_last() =~= pairs@.take(i as int));
            }
            out.insert(p, site);
        }
        proof {
            assert(pairs@.take(pairs@.len() as int) =~= pairs@);
            law_sort_sites(pairs@);
        }
        PauliString(out)
    }

    /// The sites, in order of their qubits.
    pub fn sites(&self) -> (s: &Vec<(A, Pauli)>)
        ensures
            s@ == self@,
            sites_sorted(s@),
    {
        proof {
            use_type_invariant(self);
        }
        &self.0
    }

    /// Relabel every qubit index by `f`, keeping the Pauli at each site. The
    /// result is sorted again, so `f` need not be monotone.
    pub fn map_index<B: PauliStringIndex>(&self, f: impl Fn(A) -> B) -> (r: PauliString<B>)
        requires
            forall|i: int| 0 <= i < self@.len() ==> call_requires(f, ((#[trigger] self@[i]).0,)),
        ensures
            exists|m: Seq<(B, Pauli)>| relabelled(self@, f, m) && r@ == sort_sites(m),
    {
        let mut out: Vec<(B, Pauli)> = Vec::new();
        for i in 0..self.0.len()
            invariant
                forall|i: int|
                    0 <= i < self@.len() ==> call_requires(f, ((#[trigger] self@[i]).0,)),
                relabelled(self@.take(i as int), f, out@),
        {
            let (q, p) = self.0[i];
            assert(self@[i as int] == (q, p));
            let b = f(q);
            out.push((b, p));
        }
        assert(self@.take(self@.len() as int) =~= self@);
        let ghost m = out@;
        assert(relabelled(self@, f, m));
        PauliString::new(out)
    }
}

/// `m` holds the sites of `s` with every qubit sent through `f`.
pub open spec fn relabelled<A, B, F: Fn(A) -> B>(
    s: Seq<(A, Pauli)>,
    f: F,
    m: Seq<(B, Pauli)>,
) -> bool {
    &&& m.len() == s.len()
    &&& forall|i: int|
        0 <= i < s.len() ==> call_ensures(f, (s[i].0,), (#[trigger] m[i]).0) && m[i].1 == s[i].1
}

impl<A: PauliStringIndex> Clone for PauliString<A> {
    fn clone(&self) -> (r: Self)
        ensures
            r@ == self@,
    {
        proof {
            use_type_invariant(self);
        }
        let mut out: Vec<(A, Pauli)> = Vec::new();
        for i in 0..self.0.len()
            invariant
                out@ == self@.take(i as int),
        {
            out.push(self.0[i]);
            assert(out@ =~= self@.take(i + 1));
        }
        assert(out@ =~= self@);
        PauliString(out)
    }
}

impl<A: PauliStringIndex> Default for PauliString<A> {
    fn default() -> (r: Self)
        ensures
            r@ == Seq::<(A, Pauli)>::empty(),
    {
        PauliString(Vec::new())
    }
}

/// A Pauli operator with its phase: the mathematical content of a [`PauliAxis`].
#[verifier::ext_equal]
pub struct SignedPauli<A> {
    pub sign: Sign,
    pub sites: Seq<(A, Pauli)>,
}

impl<A> SignedPauli<A> {
    /// The same operator with its phase multiplied by `s`.
    pub open spec fn scaled(self, s: Sign) -> SignedPauli<A> {
        SignedPauli { sign: self.sign.times(s), sites: self.sites }
    }
}

/// The product of two Pauli strings whose sites are in order: sites on one
/// qubit are multiplied, their phases collected and identities left out.
pub open spec fn string_mul<A: OrderedKey>(a: Seq<(A, Pauli)>, b: Seq<(A, Pauli)>) -> SignedPauli<A>
    decreases a.len() + b.len(),
{
    if a.len() == 0 && b.len() == 0 {
        SignedPauli { sign: Sign::One, sites: Seq::empty() }
    } else if b.len() == 0 || (a.len() > 0 && key_lt(a[0].0.key(), b[0].0.key())) {
        let rest = string_mul(a.skip(1), b);
        SignedPauli { sign: rest.sign, sites: seq![a[0]] + rest.sites }
    } else if a.len() == 0 || key_lt(b[0].0.key(), a[0].0.key()) {
        let rest = string_mul(a, b.skip(1));
        SignedPauli { sign: rest.sign, sites: seq![b[0]] + rest.sites }
    } else {
        let rest = string_mul(a.skip(1), b.skip(1));
        let p = a[0].1.product(b[0].1);
        SignedPauli {
            sign: a[0].1.product_sign(b[0].1).times(rest.sign),
            sites: if p is I {
                rest.sites
            } else {
                seq![(a[0].0, p)] + rest.sites
            },
        }
    }
}

/// The number of qubits on which the two strings anti-commute.
pub open spec fn anticommuting_sites<A: OrderedKey>(
    a: Seq<(A, Pauli)>,
    b: Seq<(A, Pauli)>,
) -> nat
    decreases a.len() + b.len(),
{
    if a.len() == 0 || b.len() == 0 {
        0
    } else if key_lt(a[0].0.key(), b[0].0.key()) {
        anticommuting_sites(a.skip(1), b)
    } else if key_lt(b[0].0.key(), a[0].0.key()) {
        anticommuting_sites(a, b.skip(1))
    } else {
        (if a[0].1.anticommutes(b[0].1) {
            1nat
        } else {
            0nat
        }) + anticommuting_sites(a.skip(1), b.skip(1))
    }
}

/// Two Pauli strings commute: they anti-commute on an even number of qubits.
pub open spec fn strings_commute<A: OrderedKey>(a: Seq<(A, Pauli)>, b: Seq<(A, Pauli)>) -> bool {
    anticommuting_sites(a, b) % 2 == 0
}

/// The product of two signed operators.
pub open spec fn signed_mul<A: OrderedKey>(a: SignedPauli<A>, b: SignedPauli<A>) -> SignedPauli<A> {
    string_mul(a.sites, b.sites).scaled(a.sign.times(b.sign))
}

/// Every site of `s` comes from a site of `a` or of `b`.
proof fn lemma_string_mul_lower_bound<A: OrderedKey>(
    a: Seq<(A, Pauli)>,
    b: Seq<(A, Pauli)>,
    low: (int, int),
)
    requires
        forall|i: int| 0 <= i < a.len() ==> !key_lt((#[trigger] a[i]).0.key(), low),
        forall|i: int| 0 <= i < b.len() ==> !key_lt((#[trigger] b[i]).0.key(), low),
    ensures
        forall|i: int|
            0 <= i < string_mul(a, b).sites.len() ==> !key_lt(
                (#[trigger] string_mul(a, b).sites[i]).0.key(),
                low,
            ),
    decreases a.len() + b.len(),
{
    let ta = a.skip(1);
    let tb = b.skip(1);
    if a.len() == 0 && b.len() == 0 {
    } else if b.len() == 0 || (a.len() > 0 && key_lt(a[0].0.key(), b[0].0.key())) {
        lemma_string_mul_lower_bound(ta, b, low);
        assert(!key_lt(a[0].0.key(), low));
    } else if a.len() == 0 || key_lt(b[0].0.key(), a[0].0.key()) {
        lemma_string_mul_lower_bound(a, tb, low);
        assert(!key_lt(b[0].0.key(), low));
    } else {
        lemma_string_mul_lower_bound(ta, tb, low);
        assert(!key_lt(a[0].0.key(), low));
    }
}

/// The product of two ordered strings is ordered.
proof fn lemma_string_mul_sorted<A: OrderedKey>(a: Seq<(A, Pauli)>, b: Seq<(A, Pauli)>)
    requires
        sites_sorted(a),
        sites_sorted(b),
    ensures
        sites_sorted(string_mul(a, b).sites),
    decreases a.len() + b.len(),
{
    let ta = a.skip(1);
    let tb = b.skip(1);
    if a.len() == 0 && b.len() == 0 {
    } else if b.len() == 0 || (a.len() > 0 && key_lt(a[0].0.key(), b[0].0.key())) {
        lemma_string_mul_sorted(ta, b);
        assert forall|i: int| 0 <= i < b.len() implies !key_lt(
            (#[trigger] b[i]).0.key(),
            a[0].0.key(),
        ) by {
            assert(i > 0 ==> !key_lt(b[i].0.key(), b[0].0.key()));
        }
        lemma_string_mul_lower_bound(ta, b, a[0].0.key());
    } else if a.len() == 0 || key_lt(b[0].0.key(), a[0].0.key()) {
        lemma_string_mul_sorted(a, tb);
        assert forall|i: int| 0 <= i < a.len() implies !key_lt(
            (#[trigger] a[i]).0.key(),
            b[0].0.key(),
        ) by {
            assert(i > 0 ==> !key_lt(a[i].0.key(), a[0].0.key()));
        }
        lemma_string_mul_lower_bound(a, tb, b[0].0.key());
    } else {
        lemma_string_mul_sorted(ta, tb);
        lemma_string_mul_lower_bound(ta, tb, a[0].0.key());
    }
}

/// The product of two Pauli strings, with the phase that multiplying out the
/// shared sites gives.
pub fn pauli_string_mult<A: PauliStringIndex>(a: &PauliString<A>, b: &PauliString<A>) -> (r:
    PauliAxis<A>)
    ensures
        r@ == string_mul(a@, b@),
{
    proof {
        use_type_invariant(a);
        use_type_invariant(b);
        lemma_string_mul_sorted(a@, b@);
    }
    let mut sign = Sign::One;
    let mut out: Vec<(A, Pauli)> = Vec::new();
    let mut i: usize = 0;
    let mut j: usize = 0;
    proof {
        assert(a.0@.skip(0) =~= a.0@);
        assert(b.0@.skip(0) =~= b.0@);
        assert(out@ + string_mul(a.0@, b.0@).sites =~= string_mul(a.0@, b.0@).sites);
        law_sign_group(string_mul(a.0@, b.0@).sign, Sign::One, Sign::One);
    }
    while i < a.0.len() || j < b.0.len()
        invariant
            i <= a.0@.len(),
            j <= b.0@.len(),
            string_mul(a.0@, b.0@).sign == sign.times(
                string_mul(a.0@.skip(i as int), b.0@.skip(j as int)).sign,
            ),
            string_mul(a.0@, b.0@).sites == out@ + string_mul(
                a.0@.skip(i as int),
                b.0@.skip(j as int),
            ).sites,
        decreases a.0@.len() + b.0@.len() - i - j,
    {
        let ghost ta = a.0@.skip(i as int);
        let ghost tb = b.0@.skip(j as int);
        let ghost before = out@;
        proof {
            if i < a.0@.len() {
                assert(ta.skip(1) =~= a.0@.skip(i + 1));
            }
            if j < b.0@.len() {
                assert(tb.skip(1) =~= b.0@.skip(j + 1));
            }
        }
        if j >= b.0.len() || (i < a.0.len() && a.0[i].0.precedes(&b.0[j].0)) {
            out.push(a.0[i]);
            i = i + 1;
            assert(before + string_mul(ta, tb).sites =~= out@ + string_mul(ta.skip(1), tb).sites);
        } else if i >= a.0.len() || b.0[j].0.precedes(&a.0[i].0) {
            out.push(b.0[j]);
            j = j + 1;
            assert(before + string_mul(ta, tb).sites =~= out@ + string_mul(ta, tb.skip(1)).sites);
        } else {
            let (s, p) = pauli_mul(a.0[i].1, b.0[j].1);
            proof {
                law_sign_group(sign, s, string_mul(ta.skip(1), tb.skip(1)).sign);
            }
            sign = sign * s;
            if !matches!(p, Pauli::I) {
                out.push((a.0[i].0, p));
            }
            i = i + 1;
            j = j + 1;
            assert(before + string_mul(ta, tb).sites =~= out@ + string_mul(
                ta.skip(1),
                tb.skip(1),
            ).sites);
        }
    }
    proof {
        let rest = string_mul(a.0@.skip(i as int), b.0@.skip(j as int));
        assert(rest.sites =~= Seq::empty());
        assert(out@ =~= string_mul(a@, b@).sites);
        law_sign_group(sign, Sign::One, Sign::One);
    }
    PauliAxis { sign, pauli_string: PauliString(out) }
}

/// Whether two Pauli strings commute.
pub fn axes_commute<A: PauliStringIndex>(a: &PauliString<A>, b: &PauliString<A>) -> (r: bool)
    ensures
        r == strings_commute(a@, b@),
{
    let mut anti: usize = 0;
    let mut i: usize = 0;
    let mut j: usize = 0;
    proof {
        assert(a.0@.skip(0) =~= a.0@);
        assert(b.0@.skip(0) =~= b.0@);
    }
    while i < a.0.len() && j < b.0.len()
        invariant
            i <= a.0@.len(),
            j <= b.0@.len(),
            anti <= i,
            anticommuting_sites(a.0@, b.0@) == anti + anticommuting_sites(
                a.0@.skip(i as int),
                b.0@.skip(j as int),
            ),
        decreases a.0@.len() + b.0@.len() - i - j,
    {
        proof {
            assert(a.0@.skip(i as int).skip(1) =~= a.0@.skip(i + 1));
            assert(b.0@.skip(j as int).skip(1) =~= b.0@.skip(j + 1));
        }
        if a.0[i].0.precedes(&b.0[j].0) {
            i = i + 1;
        } else if b.0[j].0.precedes(&a.0[i].0) {
            j = j + 1;
        } else {
            let commuting = match (a.0[i].1, b.0[j].1) {
                (Pauli::I, _) => true,
                (_, Pauli::I) => true,
                (Pauli::X, Pauli::X) => true,
                (Pauli::Y, Pauli::Y) => true,
                (Pauli::Z, Pauli::Z) => true,
                _ => false,
            };
            if !commuting {
                anti = anti + 1;
            }
            i = i + 1;
            j = j + 1;
        }
    }
    anti % 2 == 0
}

/// Swapping the factors of a product of Pauli strings leaves the sites as they
/// are, and negates the phase exactly when the strings do not commute.
#[verifier::spinoff_prover]
#[verifier::rlimit(60)]
pub proof fn law_commute_iff_products_agree<A: OrderedKey>(
    a: Seq<(A, Pauli)>,
    b: Seq<(A, Pauli)>,
)
    ensures
        string_mul(a, b).sites == string_mul(b, a).sites,
        strings_commute(a, b) == strings_commute(b, a),
        strings_commute(a, b) <==> string_mul(a, b).sign == string_mul(b, a).sign,
        !strings_commute(a, b) <==> string_mul(a, b).sign == Sign::NegOne.times(
            string_mul(b, a).sign,
        ),
    decreases a.len() + b.len(),
{
    reveal(Sign::times);
    if a.len() == 0 && b.len() == 0 {
    } else if b.len() == 0 || (a.len() > 0 && key_lt(a[0].0.key(), b[0].0.key())) {
        law_commute_iff_products_agree(a.skip(1), b);
    } else if a.len() == 0 || key_lt(b[0].0.key(), a[0].0.key()) {
        law_commute_iff_products_agree(a, b.skip(1));
    } else {
        law_commute_iff_products_agree(a.skip(1), b.skip(1));
        law_pauli_product(a[0].1, b[0].1, Pauli::I);
        A::key_injective(a[0].0, b[0].0);
    }
}

/// A Pauli string is its own inverse.
pub proof fn law_string_squares_to_identity<A: OrderedKey>(a: Seq<(A, Pauli)>)
    ensures
        string_mul(a, a).sign == Sign::One,
        string_mul(a, a).sites == Seq::<(A, Pauli)>::empty(),
    decreases a.len(),
{
    if a.len() > 0 {
        law_sign_group(Sign::One, Sign::One, Sign::One);
        law_string_squares_to_identity(a.skip(1));
    }
}

/// The Pauli operator of `s` on qubit `q`: the identity where `s` has no site.
pub open spec fn pauli_at<A>(s: Seq<(A, Pauli)>, q: A) -> Pauli {
    if has_key(s, q) {
        s[key_position(s, q)].1
    } else {
        Pauli::I
    }
}

/// `pauli_at` looks at the first site, and then at the others.
pub proof fn lemma_pauli_at_first<A: OrderedKey>(s: Seq<(A, Pauli)>, q: A)
    requires
        strictly_keyed(s),
        s.len() > 0,
    ensures
        pauli_at(s, q) == if q == s[0].0 {
            s[0].1
        } else {
            pauli_at(s.skip(1), q)
        },
        strictly_keyed(s.skip(1)),
        forall|i: int| 0 <= i < s.skip(1).len() ==> key_lt(s[0].0.key(), (#[trigger] s.skip(1)[i]).0.key()),
{
    let t = s.skip(1);
    assert forall|i: int| 0 <= i < t.len() implies key_lt(s[0].0.key(), (#[trigger] t[i]).0.key()) by {
        assert(t[i] == s[i + 1]);
    }
    if q == s[0].0 {
        assert(s[0].0 == q);
        let p = key_position(s, q);
        assert(p > 0 ==> key_lt(s[0].0.key(), s[p].0.key()));
    } else if has_key(s, q) {
        let p = key_position(s, q);
        assert(t[p - 1].0 == q);
        let r = key_position(t, q);
        assert(s[r + 1].0 == q);
        assert(r + 1 < p ==> key_lt(s[r + 1].0.key(), s[p].0.key()));
        assert(p < r + 1 ==> key_lt(s[p].0.key(), s[r + 1].0.key()));
    } else if has_key(t, q) {
        assert(s[key_position(t, q) + 1].0 == q);
    }
}

/// The sites of a product come after what both factors come after.
pub proof fn lemma_string_mul_above<A: OrderedKey>(
    a: Seq<(A, Pauli)>,
    b: Seq<(A, Pauli)>,
    low: (int, int),
)
    requires
        forall|i: int| 0 <= i < a.len() ==> key_lt(low, (#[trigger] a[i]).0.key()),
        forall|i: int| 0 <= i < b.len() ==> key_lt(low, (#[trigger] b[i]).0.key()),
    ensures
        forall|i: int|
            0 <= i < string_mul(a, b).sites.len() ==> key_lt(
                low,
                (#[trigger] string_mul(a, b).sites[i]).0.key(),
            ),
    decreases a.len() + b.len(),
{
    let ta = a.skip(1);
    let tb = b.skip(1);
    if a.len() == 0 && b.len() == 0 {
    } else if b.len() == 0 || (a.len() > 0 && key_lt(a[0].0.key(), b[0].0.key())) {
        lemma_string_mul_above(ta, b, low);
        assert(key_lt(low, a[0].0.key()));
    } else if a.len() == 0 || key_lt(b[0].0.key(), a[0].0.key()) {
        lemma_string_mul_above(a, tb, low);
        assert(key_lt(low, b[0].0.key()));
    } else {
        lemma_string_mul_above(ta, tb, low);
        assert(key_lt(low, a[0].0.key()));
    }
}

/// `s` with a site put in front of it, on a qubit before all of its own.
proof fn lemma_pauli_at_cons<A: OrderedKey>(head: (A, Pauli), s: Seq<(A, Pauli)>, q: A)
    requires
        strictly_keyed(s),
        forall|i: int| 0 <= i < s.len() ==> key_lt(head.0.key(), (#[trigger] s[i]).0.key()),
    ensures
        strictly_keyed(seq![head] + s),
        pauli_at(seq![head] + s, q) == if q == head.0 {
            head.1
        } else {
            pauli_at(s, q)
        },
{
    let t = seq![head] + s;
    assert(strictly_keyed(t));
    lemma_pauli_at_first(t, q);
    assert(t.skip(1) =~= s);
}

/// A qubit before all sites has none.
pub proof fn lemma_pauli_at_absent<A: OrderedKey>(s: Seq<(A, Pauli)>, q: A)
    requires
        forall|i: int| 0 <= i < s.len() ==> key_lt(q.key(), (#[trigger] s[i]).0.key()),
    ensures
        pauli_at(s, q) is I,
{
    if has_key(s, q) {
        assert(key_lt(q.key(), s[key_position(s, q)].0.key()));
    }
}

/// On strings with at most one site per qubit, the product has at most one site
/// per qubit, and its operator on each qubit is the product of the factors'.
pub proof fn law_product_is_sitewise<A: OrderedKey>(
    a: Seq<(A, Pauli)>,
    b: Seq<(A, Pauli)>,
    q: A,
)
    requires
        strictly_keyed(a),
        strictly_keyed(b),
    ensures
        strictly_keyed(string_mul(a, b).sites),
        pauli_at(string_mul(a, b).sites, q) == pauli_at(a, q).product(pauli_at(b, q)),
    decreases a.len() + b.len(),
{
    if a.len() > 0 {
        lemma_pauli_at_first(a, q);
    }
    if b.len() > 0 {
        lemma_pauli_at_first(b, q);
    }
    let ta = a.skip(1);
    let tb = b.skip(1);
    if a.len() == 0 && b.len() == 0 {
    } else if b.len() == 0 || (a.len() > 0 && key_lt(a[0].0.key(), b[0].0.key())) {
        law_product_is_sitewise(ta, b, q);
        assert forall|i: int| 0 <= i < b.len() implies key_lt(
            a[0].0.key(),
            (#[trigger] b[i]).0.key(),
        ) by {
            assert(i > 0 ==> key_lt(b[0].0.key(), b[i].0.key()));
        }
        lemma_string_mul_above(ta, b, a[0].0.key());
        lemma_pauli_at_cons(a[0], string_mul(ta, b).sites, q);
        if q == a[0].0 {
            lemma_pauli_at_absent(b, q);
        }
    } else if a.len() == 0 || key_lt(b[0].0.key(), a[0].0.key()) {
        law_product_is_sitewise(a, tb, q);
        assert forall|i: int| 0 <= i < a.len() implies key_lt(
            b[0].0.key(),
            (#[trigger] a[i]).0.key(),
        ) by {
            assert(i > 0 ==> key_lt(a[0].0.key(), a[i].0.key()));
        }
        lemma_string_mul_above(a, tb, b[0].0.key());
        lemma_pauli_at_cons(b[0], string_mul(a, tb).sites, q);
        if q == b[0].0 {
            lemma_pauli_at_absent(a, q);
        }
    } else {
        law_product_is_sitewise(ta, tb, q);
        A::key_injective(a[0].0, b[0].0);
        lemma_string_mul_above(ta, tb, a[0].0.key());
        let p = a[0].1.product(b[0].1);
        lemma_pauli_at_cons((a[0].0, p), string_mul(ta, tb).sites, q);
        if q == a[0].0 {
            lemma_pauli_at_absent(string_mul(ta, tb).sites, q);
        }
    }
}

/// A Pauli operator together with its overall phase.
#[derive(Debug)]
pub struct PauliAxis<A: PauliStringIndex> {
    pub sign: Sign,
    pub pauli_string: PauliString<A>,
}

impl<A: PauliStringIndex> View for PauliAxis<A> {
    type V = SignedPauli<A>;

    open spec fn view(&self) -> SignedPauli<A> {
        SignedPauli { sign: self.sign, sites: self.pauli_string@ }
    }
}

impl<A: PauliStringIndex> Clone for PauliAxis<A> {
    fn clone(&self) -> (r: Self)
        ensures
            r@ == self@,
    {
        PauliAxis { sign: self.sign, pauli_string: self.pauli_string.clone() }
    }
}

impl<A: PauliStringIndex> PauliAxis<A> {
    /// Relabel every qubit index by `f`, preserving the sign. See
    /// [`PauliString::map_index`].
    pub fn map_index<B: PauliStringIndex>(&self, f: impl Fn(A) -> B) -> (r: PauliAxis<B>)
        requires
            forall|i: int|
                0 <= i < self@.sites.len() ==> call_requires(f, ((#[trigger] self@.sites[i]).0,)),
        ensures
            r@.sign == self@.sign,
            exists|m: Seq<(B, Pauli)>| relabelled(self@.sites, f, m) && r@.sites == sort_sites(m),
    {
        PauliAxis { sign: self.sign, pauli_string: self.pauli_string.map_index(f) }
    }
}

// ---------------------------------------------------------------------------
// Qubit index types
//
// The qubit identifiers a Pauli string can range over, in pipeline order: a
// physical qubit of one block, a code qubit of a (bridged) merged code, and a
// qubit of the surgery code built over a measurement graph.
// ---------------------------------------------------------------------------
/// A physical qubit of a single code block, identified by its within-block index.
#[derive(Clone, Copy, PartialEq, Eq, PartialOrd, Ord, Hash, Debug, Structural)]
pub struct PhysicalQubit(pub usize);

impl OrderedKey for PhysicalQubit {
    open spec fn key(self) -> (int, int) {
        (0, self.0 as int)
    }

    proof fn key_injective(a: Self, b: Self) {
    }

    fn precedes(&self, other: &Self) -> (r: bool) {
        self.0 < other.0
    }

    fn same(&self, other: &Self) -> (r: bool) {
        self.0 == other.0
    }
}

impl PauliStringIndex for PhysicalQubit {

}

/// A Pauli string over the physical qubits of one code block.
pub type PhysicalPauliString = PauliString<PhysicalQubit>;

/// A name for a code block. Blocks are ordered, and told apart, by their rank.
pub trait BlockLabel: Copy {
    spec fn rank(self) -> nat;

    proof fn rank_injective(a: Self, b: Self)
        requires
            a.rank() == b.rank(),
        ensures
            a == b,
    ;

    fn rank_of(&self) -> (r: usize)
        ensures
            r == self.rank(),
    ;
}

/// A code qubit of a (possibly bridged) merged code: a within-block physical qubit
/// `index` together with the `block` it belongs to. Carried as the surgery graph's
/// label on the port vertices: `Some(CodeQubit { .. })` on a port, `None` on every
/// other (ancilla / check) vertex.
#[derive(Clone, Copy, PartialEq, Eq, PartialOrd, Ord, Debug)]
pub struct CodeQubit<K> {
    pub block: K,
    pub index: usize,
}

impl<K: BlockLabel> OrderedKey for CodeQubit<K> {
    open spec fn key(self) -> (int, int) {
        (self.block.rank() as int, self.index as int)
    }

    proof fn key_injective(a: Self, b: Self) {
        K::rank_injective(a.block, b.block);
    }

    fn precedes(&self, other: &Self) -> (r: bool) {
        let a: usize = self.block.rank_of();
        let b: usize = other.block.rank_of();
        a < b || (a == b && self.index < other.index)
    }

    fn same(&self, other: &Self) -> (r: bool) {
        proof {
            if self.key() == other.key() {
                Self::key_injective(*self, *other);
            }
        }
        self.block.rank_of() == other.block.rank_of() && self.index == other.index
    }
}

impl<K: BlockLabel> PauliStringIndex for CodeQubit<K> {

}

/// A Pauli operator over a single (possibly bridged) code's code qubits.
pub type CodePauli<K> = PauliAxis<CodeQubit<K>>;

/// A qubit of the merged surgery code: either an `EdgeQubit` (ancilla / edge
/// qubit, keyed by edge id) or an original `CodeQubit` of a code block. Edge
/// qubits come before code qubits.
#[derive(Clone, Copy, PartialEq, Eq, PartialOrd, Ord, Hash, Debug)]
pub enum MergedCodeQubit<K> {
    EdgeQubit(usize),
    CodeQubit { block: K, index: usize },
}

impl<K: BlockLabel> OrderedKey for MergedCodeQubit<K> {
    open spec fn key(self) -> (int, int) {
        match self {
            MergedCodeQubit::EdgeQubit(n) => (-1, n as int),
            MergedCodeQubit::CodeQubit { block, index } => (block.rank() as int, index as int),
        }
    }

    proof fn key_injective(a: Self, b: Self) {
        if let MergedCodeQubit::CodeQubit { block: k1, index: i1 } = a {
            if let MergedCodeQubit::CodeQubit { block: k2, index: i2 } = b {
                K::rank_injective(k1, k2);
            }
        }
    }

    fn precedes(&self, other: &Self) -> (r: bool) {
        match (self, other) {
            (MergedCodeQubit::EdgeQubit(a), MergedCodeQubit::EdgeQubit(b)) => *a < *b,
            (MergedCodeQubit::EdgeQubit(_), MergedCodeQubit::CodeQubit { .. }) => true,
            (MergedCodeQubit::CodeQubit { .. }, MergedCodeQubit::EdgeQubit(_)) => false,
            (
                MergedCodeQubit::CodeQubit { block: k1, index: i1 },
                MergedCodeQubit::CodeQubit { block: k2, index: i2 },
            ) => {
                let a: usize = k1.rank_of();
                let b: usize = k2.rank_of();
                a < b || (a == b && *i1 < *i2)
            },
        }
    }

    fn same(&self, other: &Self) -> (r: bool) {
        proof {
            if self.key() == other.key() {
                Self::key_injective(*self, *other);
            }
        }
        match (self, other) {
            (MergedCodeQubit::EdgeQubit(a), MergedCodeQubit::EdgeQubit(b)) => *a == *b,
            (
                MergedCodeQubit::CodeQubit { block: k1, index: i1 },
                MergedCodeQubit::CodeQubit { block: k2, index: i2 },
            ) => k1.rank_of() == k2.rank_of() && *i1 == *i2,
            _ => false,
        }
    }
}

impl<K: BlockLabel> PauliStringIndex for MergedCodeQubit<K> {

}

impl<K> vstd::std_specs::convert::FromSpecImpl<CodeQubit<K>> for MergedCodeQubit<K> {
    open spec fn obeys_from_spec() -> bool {
        true
    }

    open spec fn from_spec(q: CodeQubit<K>) -> Self {
        MergedCodeQubit::CodeQubit { block: q.block, index: q.index }
    }
}

impl<K> From<CodeQubit<K>> for MergedCodeQubit<K> {
    fn from(q: CodeQubit<K>) -> (r: Self) {
        MergedCodeQubit::CodeQubit { block: q.block, index: q.index }
    }
}

/// A Pauli operator over the merged surgery code's qubits.
pub type GraphPauli<K> = PauliAxis<MergedCodeQubit<K>>;

/// `s` with every code qubit tagged as a qubit of the merged code.
pub open spec fn lifted_sites<K>(s: Seq<(CodeQubit<K>, Pauli)>) -> Seq<
    (MergedCodeQubit<K>, Pauli),
> {
    Seq::new(
        s.len(),
        |i: int|
            (MergedCodeQubit::CodeQubit { block: s[i].0.block, index: s[i].0.index }, s[i].1),
    )
}

/// Lift a single code's Pauli operator into the merged surgery code by tagging
/// each `CodeQubit` as a `MergedCodeQubit::CodeQubit`.
pub fn lift_code_to_merged<K: BlockLabel>(code_pauli: &CodePauli<K>) -> (r: GraphPauli<K>)
    ensures
        r@.sign == code_pauli@.sign,
        r@.sites == lifted_sites(code_pauli@.sites),
{
    let tag = |q: CodeQubit<K>| -> (m: MergedCodeQubit<K>)
        ensures
            m == (MergedCodeQubit::CodeQubit { block: q.block, index: q.index }),
        { MergedCodeQubit::from(q) };
    let r = code_pauli.map_index(tag);
    proof {
        use_type_invariant(&code_pauli.pauli_string);
        let s = code_pauli@.sites;
        let m = choose|m: Seq<(MergedCodeQubit<K>, Pauli)>|
            relabelled(s, tag, m) && r@.sites == sort_sites(m);
        assert(m =~= lifted_sites(s));
        assert forall|i: int, j: int| 0 <= i < j < m.len() implies !key_lt(
            (#[trigger] m[j]).0.key(),
            (#[trigger] m[i]).0.key(),
        ) by {
            assert(!key_lt(s[j].0.key(), s[i].0.key()));
        }
        law_sort_sorted_sites(m);
    }
    r
}

/// A *logical* qubit of the target architecture, tagged by the region it lives in
/// (the memory / processor / magic-state blocks). The index type final compiled
/// Pauli-product operations range over.
#[derive(Clone, PartialEq, Eq, Hash, Copy, PartialOrd, Ord, Debug, Structural)]
pub enum ArchitectureQubit {
    Memory(usize),
    Processor(usize),
    Magic(usize),
}

impl OrderedKey for ArchitectureQubit {
    open spec fn key(self) -> (int, int) {
        match self {
            ArchitectureQubit::Memory(n) => (0, n as int),
            ArchitectureQubit::Processor(n) => (1, n as int),
            ArchitectureQubit::Magic(n) => (2, n as int),
        }
    }

    proof fn key_injective(a: Self, b: Self) {
    }

    fn precedes(&self, other: &Self) -> (r: bool) {
        match (self, other) {
            (ArchitectureQubit::Memory(a), ArchitectureQubit::Memory(b)) => *a < *b,
            (ArchitectureQubit::Processor(a), ArchitectureQubit::Processor(b)) => *a < *b,
            (ArchitectureQubit::Magic(a), ArchitectureQubit::Magic(b)) => *a < *b,
            (ArchitectureQubit::Memory(_), _) => true,
            (ArchitectureQubit::Processor(_), ArchitectureQubit::Magic(_)) => true,
            _ => false,
        }
    }

    fn same(&self, other: &Self) -> (r: bool) {
        *self == *other
    }
}

impl PauliStringIndex for ArchitectureQubit {

}

#[derive(Clone, Copy, Debug, PartialEq, Eq, Structural)]
pub enum PPRAngle {
    PiOver8,
    PiOver4,
    PiOver2,
}

/// One operation of a Pauli-product circuit.
#[derive(Debug)]
pub enum PauliProductOperation {
    Rotation { axis: PauliAxis<ArchitectureQubit>, angle: PPRAngle },
    /// Classically-controlled Clifford correction: apply iff all bits in the condition are 1.
    /// Only PiOver4 (Clifford) angles are meaningful here; PiOver2 corrections are software-only.
    ConditionalRotation {
        axis: PauliAxis<ArchitectureQubit>,
        angle: PPRAngle,
        condition: AllOf,
    },
    Measurement { axis: PauliAxis<ArchitectureQubit>, id: MeasId },
    /// Internal compiler marker: clear the Clifford frame for this qubit. Emitted
    /// before Load operations; consumed when Cliffords are absorbed, never in
    /// final output.
    FrameReset(ArchitectureQubit),
}

/// The mathematical content of a [`PauliProductOperation`].
pub enum ProductOp {
    Rotation { axis: SignedPauli<ArchitectureQubit>, angle: PPRAngle },
    ConditionalRotation {
        axis: SignedPauli<ArchitectureQubit>,
        angle: PPRAngle,
        condition: Seq<MeasId>,
    },
    Measurement { axis: SignedPauli<ArchitectureQubit>, id: MeasId },
    FrameReset(ArchitectureQubit),
}

impl View for PauliProductOperation {
    type V = ProductOp;

    open spec fn view(&self) -> ProductOp {
        match *self {
            PauliProductOperation::Rotation { axis, angle } => ProductOp::Rotation {
                axis: axis@,
                angle,
            },
            PauliProductOperation::ConditionalRotation { axis, angle, condition } => {
                ProductOp::ConditionalRotation { axis: axis@, angle, condition: condition@ }
            },
            PauliProductOperation::Measurement { axis, id } => ProductOp::Measurement {
                axis: axis@,
                id,
            },
            PauliProductOperation::FrameReset(q) => ProductOp::FrameReset(q),
        }
    }
}

impl Clone for PauliProductOperation {
    fn clone(&self) -> (r: Self)
        ensures
            r@ == self@,
    {
        match self {
            PauliProductOperation::Rotation { axis, angle } => PauliProductOperation::Rotation {
                axis: axis.clone(),
                angle: *angle,
            },
            PauliProductOperation::ConditionalRotation { axis, angle, condition } => {
                PauliProductOperation::ConditionalRotation {
                    axis: axis.clone(),
                    angle: *angle,
                    condition: condition.clone(),
                }
            },
            PauliProductOperation::Measurement { axis, id } => PauliProductOperation::Measurement {
                axis: axis.clone(),
                id: *id,
            },
            PauliProductOperation::FrameReset(q) => PauliProductOperation::FrameReset(*q),
        }
    }
}

/// The contents of each operation, in order.
pub open spec fn product_ops(s: Seq<PauliProductOperation>) -> Seq<ProductOp> {
    s.map_values(|op: PauliProductOperation| op@)
}

/// The contents of a sequence of operations grow with it.
pub proof fn lemma_product_ops_push(s: Seq<PauliProductOperation>, op: PauliProductOperation)
    ensures
        product_ops(s.push(op)) == product_ops(s).push(op@),
{
    assert(product_ops(s.push(op)) =~= product_ops(s).push(op@));
}

/// A sequence of Pauli-product operations, and the measurement identifier to
/// hand out next.
#[derive(Debug)]
pub struct PauliProductCircuit {
    pub instructions: Vec<PauliProductOperation>,
    pub next_meas_id: u32,
}

impl View for PauliProductCircuit {
    type V = Seq<ProductOp>;

    open spec fn view(&self) -> Seq<ProductOp> {
        product_ops(self.instructions@)
    }
}

impl PauliProductCircuit {
    pub fn new() -> (r: Self)
        ensures
            r@ == Seq::<ProductOp>::empty(),
            r.next_meas_id == 0,
    {
        let r = PauliProductCircuit { instructions: Vec::new(), next_meas_id: 0 };
        assert(r@ =~= Seq::<ProductOp>::empty());
        r
    }

    /// Hand out a measurement identifier that was not handed out before.
    pub fn allocate_meas_id(&mut self) -> (id: MeasId)
        requires
            old(self).next_meas_id < u32::MAX,
        ensures
            id == MeasId(old(self).next_meas_id),
            final(self).next_meas_id == old(self).next_meas_id + 1,
            final(self)@ == old(self)@,
    {
        let id = MeasId(self.next_meas_id);
        self.next_meas_id = self.next_meas_id + 1;
        id
    }
}

impl Default for PauliProductCircuit {
    fn default() -> (r: Self)
        ensures
            r@ == Seq::<ProductOp>::empty(),
            r.next_meas_id == 0,
    {
        Self::new()
    }
}

impl Clone for PauliProductCircuit {
    fn clone(&self) -> (r: Self)
        ensures
            r@ == self@,
            r.next_meas_id == self.next_meas_id,
    {
        let mut out: Vec<PauliProductOperation> = Vec::new();
        assert(product_ops(out@) =~= self@.take(0));
        for i in 0..self.instructions.len()
            invariant
                product_ops(out@) == self@.take(i as int),
        {
            let op = self.instructions[i].clone();
            proof {
                lemma_product_ops_push(out@, op);
                assert(self@.take(i + 1) =~= self@.take(i as int).push(self@[i as int]));
            }
            out.push(op);
        }
        assert(self@.take(self@.len() as int) =~= self@);
        PauliProductCircuit { instructions: out, next_meas_id: self.next_meas_id }
    }
}

// ---------------------------------------------------------------------------
// Clifford frame
// ---------------------------------------------------------------------------
/// The images of the basis operators that a frame records.
#[verifier::ext_equal]
pub struct FrameModel {
    pub x: Map<ArchitectureQubit, SignedPauli<ArchitectureQubit>>,
    pub z: Map<ArchitectureQubit, SignedPauli<ArchitectureQubit>>,
}

/// The operator `p` on the single qubit `q`.
pub open spec fn single_site(q: ArchitectureQubit, p: Pauli) -> SignedPauli<ArchitectureQubit> {
    SignedPauli { sign: Sign::One, sites: seq![(q, p)] }
}

impl FrameModel {
    /// The frame that maps every operator to itself.
    pub open spec fn identity() -> FrameModel {
        FrameModel { x: Map::empty(), z: Map::empty() }
    }

    /// The image of `X` on `q`.
    pub open spec fn x_image(self, q: ArchitectureQubit) -> SignedPauli<ArchitectureQubit> {
        if self.x.dom().contains(q) {
            self.x[q]
        } else {
            single_site(q, Pauli::X)
        }
    }

    /// The image of `Z` on `q`.
    pub open spec fn z_image(self, q: ArchitectureQubit) -> SignedPauli<ArchitectureQubit> {
        if self.z.dom().contains(q) {
            self.z[q]
        } else {
            single_site(q, Pauli::Z)
        }
    }

    /// The image of `p` on `q`; that of `Y` follows from `Y = i X Z`.
    pub open spec fn image(self, q: ArchitectureQubit, p: Pauli) -> SignedPauli<ArchitectureQubit> {
        match p {
            Pauli::X => self.x_image(q),
            Pauli::Z => self.z_image(q),
            Pauli::Y => signed_mul(self.x_image(q), self.z_image(q)).scaled(Sign::J),
            Pauli::I => SignedPauli { sign: Sign::One, sites: Seq::empty() },
        }
    }

    /// The product of the images of the sites of `s`, in order.
    pub open spec fn string_image(self, s: Seq<(ArchitectureQubit, Pauli)>) -> SignedPauli<
        ArchitectureQubit,
    >
        decreases s.len(),
    {
        if s.len() == 0 {
            SignedPauli { sign: Sign::One, sites: Seq::empty() }
        } else {
            signed_mul(self.string_image(s.drop_last()), self.image(s.last().0, s.last().1))
        }
    }

    /// The image of a signed operator.
    pub open spec fn apply(self, axis: SignedPauli<ArchitectureQubit>) -> SignedPauli<
        ArchitectureQubit,
    > {
        self.string_image(axis.sites).scaled(axis.sign)
    }

    /// The image of the basis operator `p` on `q` once a PiOver4 rotation about
    /// `rotation`, which anti-commutes with it, comes before the frame.
    pub open spec fn rotated_image(
        self,
        rotation: SignedPauli<ArchitectureQubit>,
        q: ArchitectureQubit,
        p: Pauli,
    ) -> SignedPauli<ArchitectureQubit> {
        signed_mul(self.apply(rotation), self.image(q, p)).scaled(Sign::J)
    }

    /// The frame after a PiOver4 rotation about `rotation`: the basis operators
    /// that anti-commute with it get a new image, the others keep theirs.
    pub open spec fn update(self, rotation: SignedPauli<ArchitectureQubit>) -> FrameModel {
        FrameModel {
            x: Map::new(
                |q: ArchitectureQubit|
                    self.x.dom().contains(q) || !strings_commute(
                        seq![(q, Pauli::X)],
                        rotation.sites,
                    ),
                |q: ArchitectureQubit|
                    if strings_commute(seq![(q, Pauli::X)], rotation.sites) {
                        self.x[q]
                    } else {
                        self.rotated_image(rotation, q, Pauli::X)
                    },
            ),
            z: Map::new(
                |q: ArchitectureQubit|
                    self.z.dom().contains(q) || !strings_commute(
                        seq![(q, Pauli::Z)],
                        rotation.sites,
                    ),
                |q: ArchitectureQubit|
                    if strings_commute(seq![(q, Pauli::Z)], rotation.sites) {
                        self.z[q]
                    } else {
                        self.rotated_image(rotation, q, Pauli::Z)
                    },
            ),
        }
    }

    /// The frame with nothing recorded for `q`.
    pub open spec fn reset(self, q: ArchitectureQubit) -> FrameModel {
        FrameModel { x: self.x.remove(q), z: self.z.remove(q) }
    }
}

/// Tracks where X[q] and Z[q] map to under accumulated unconditional Clifford
/// corrections. Absent qubits are identity (X[q]→X[q], Z[q]→Z[q]).
pub struct CliffordFrame {
    x: KeyedMap<ArchitectureQubit, PauliAxis<ArchitectureQubit>>,
    z: KeyedMap<ArchitectureQubit, PauliAxis<ArchitectureQubit>>,
}

/// The recorded images, each by its content.
pub open spec fn axis_views(
    m: Map<ArchitectureQubit, PauliAxis<ArchitectureQubit>>,
) -> Map<ArchitectureQubit, SignedPauli<ArchitectureQubit>> {
    m.map_values(|a: PauliAxis<ArchitectureQubit>| a@)
}

impl View for CliffordFrame {
    type V = FrameModel;

    closed spec fn view(&self) -> FrameModel {
        FrameModel { x: axis_views(self.x@), z: axis_views(self.z@) }
    }
}

fn single_axis(q: ArchitectureQubit, p: Pauli) -> (r: PauliAxis<ArchitectureQubit>)
    ensures
        r@ == single_site(q, p),
{
    let pairs: Vec<(ArchitectureQubit, Pauli)> = vec![(q, p)];
    proof {
        assert(pairs@ =~= seq![(q, p)]);
        law_sort_sorted_sites(pairs@);
    }
    let pauli_string = PauliString::new(pairs);
    PauliAxis { sign: Sign::One, pauli_string }
}

/// A phase on the left factor of a product is a phase on the product.
proof fn lemma_scaled_product(
    a: SignedPauli<ArchitectureQubit>,
    s: Sign,
    b: SignedPauli<ArchitectureQubit>,
)
    ensures
        signed_mul(a.scaled(s), b) == signed_mul(a, b).scaled(s),
        signed_mul(a, b).sign == a.sign.times(b.sign).times(string_mul(a.sites, b.sites).sign),
{
    let p = string_mul(a.sites, b.sites).sign;
    law_sign_group(a.sign, s, b.sign);
    law_sign_group(s, b.sign, a.sign);
    law_sign_group(a.sign, b.sign, s);
    law_sign_group(p, a.sign.times(b.sign), s);
    law_sign_group(a.sign.times(b.sign), p, s);
}

impl CliffordFrame {
    pub fn new() -> (r: Self)
        ensures
            r@ == FrameModel::identity(),
    {
        let r = CliffordFrame { x: KeyedMap::new(), z: KeyedMap::new() };
        assert(r@ =~= FrameModel::identity());
        r
    }

    /// Returns the image of basis element `p` on qubit `q` under the frame.
    pub fn image(&self, q: ArchitectureQubit, p: Pauli) -> (r: PauliAxis<ArchitectureQubit>)
        ensures
            r@ == self@.image(q, p),
        decreases (if p is Y { 1int } else { 0int }),
    {
        match p {
            Pauli::X => match self.x.get(&q) {
                Some(a) => a.clone(),
                None => single_axis(q, Pauli::X),
            },
            Pauli::Z => match self.z.get(&q) {
                Some(a) => a.clone(),
                None => single_axis(q, Pauli::Z),
            },
            Pauli::Y => {
                let xi = self.image(q, Pauli::X);
                let zi = self.image(q, Pauli::Z);
                let prod = pauli_string_mult(&xi.pauli_string, &zi.pauli_string);
                proof {
                    law_sign_group(xi.sign.times(zi.sign), prod.sign, Sign::J);
                }
                PauliAxis {
                    sign: xi.sign * zi.sign * prod.sign * Sign::J,
                    pauli_string: prod.pauli_string,
                }
            },
            Pauli::I => PauliAxis { sign: Sign::One, pauli_string: PauliString::default() },
        }
    }

    /// Conjugates `axis` by the frame: replaces each (q, p) factor with its frame image.
    pub fn apply(&self, axis: &PauliAxis<ArchitectureQubit>) -> (r: PauliAxis<ArchitectureQubit>)
        ensures
            r@ == self@.apply(axis@),
    {
        let mut acc: PauliAxis<ArchitectureQubit> = PauliAxis {
            sign: axis.sign,
            pauli_string: PauliString::default(),
        };
        let sites = axis.pauli_string.sites();
        proof {
            law_sign_group(axis.sign, Sign::One, Sign::One);
            assert(sites@.take(0) =~= Seq::empty());
        }
        for i in 0..sites.len()
            invariant
                sites@ == axis@.sites,
                acc@ == self@.string_image(sites@.take(i as int)).scaled(axis.sign),
        {
            let (q, p) = sites[i];
            let img = self.image(q, p);
            let prod = pauli_string_mult(&acc.pauli_string, &img.pauli_string);
            proof {
                let t = sites@.take(i + 1);
                assert(t.drop_last() =~= sites@.take(i as int));
                let prev = self@.string_image(sites@.take(i as int));
                lemma_scaled_product(prev, axis.sign, img@);
                law_sign_group(acc.sign.times(img.sign), prod.sign, Sign::One);
            }
            acc = PauliAxis {
                sign: acc.sign * img.sign * prod.sign,
                pauli_string: prod.pauli_string,
            };
        }
        assert(sites@.take(sites@.len() as int) =~= sites@);
        acc
    }

    /// The new images of the basis operators `p` that anti-commute with `rotation`.
    fn rotated_images(&self, rotation: &PauliAxis<ArchitectureQubit>, p: Pauli) -> (r: KeyedMap<
        ArchitectureQubit,
        PauliAxis<ArchitectureQubit>,
    >)
        ensures
            forall|q: ArchitectureQubit| #[trigger]
                r@.dom().contains(q) <==> !strings_commute(seq![(q, p)], rotation@.sites),
            forall|q: ArchitectureQubit|
                r@.dom().contains(q) ==> (#[trigger] r@[q])@ == self@.rotated_image(
                    rotation@,
                    q,
                    p,
                ),
    {
        let rotation_image = self.apply(rotation);
        let mut r: KeyedMap<ArchitectureQubit, PauliAxis<ArchitectureQubit>> = KeyedMap::new();
        let sites = rotation.pauli_string.sites();
        for i in 0..sites.len()
            invariant
                sites@ == rotation@.sites,
                rotation_image@ == self@.apply(rotation@),
                forall|q: ArchitectureQubit| #[trigger]
                    r@.dom().contains(q) <==> (!strings_commute(seq![(q, p)], rotation@.sites)
                        && has_key(sites@.take(i as int), q)),
                forall|q: ArchitectureQubit|
                    r@.dom().contains(q) ==> (#[trigger] r@[q])@ == self@.rotated_image(
                        rotation@,
                        q,
                        p,
                    ),
        {
            let q = sites[i].0;
            let row = single_axis(q, p);
            proof {
                let t = sites@.take(i + 1);
                assert forall|k: ArchitectureQubit| #[trigger] has_key(t, k) <==> (has_key(
                    sites@.take(i as int),
                    k,
                ) || k == q) by {
                    assert(t[i as int].0 == q);
                    if has_key(sites@.take(i as int), k) {
                        assert(t[key_position(sites@.take(i as int), k)].0 == k);
                    }
                    if has_key(t, k) && k != q {
                        assert(sites@.take(i as int)[key_position(t, k)].0 == k);
                    }
                }
            }
            if !axes_commute(&row.pauli_string, &rotation.pauli_string) {
                let row_image = self.image(q, p);
                let prod = pauli_string_mult(&rotation_image.pauli_string, &row_image.pauli_string);
                proof {
                    law_sign_group(prod.sign, row_image.sign, rotation_image.sign);
                    law_sign_group(row_image.sign, rotation_image.sign, Sign::One);
                    law_sign_group(
                        Sign::J,
                        prod.sign,
                        row_image.sign.times(rotation_image.sign),
                    );
                    law_sign_group(
                        Sign::J,
                        prod.sign.times(row_image.sign.times(rotation_image.sign)),
                        Sign::One,
                    );
                    law_sign_group(Sign::J.times(prod.sign), row_image.sign, rotation_image.sign);
                }
                let sign = Sign::J * prod.sign * row_image.sign * rotation_image.sign;
                r.insert(q, PauliAxis { sign, pauli_string: prod.pauli_string });
            }
        }
        proof {
            assert(sites@.take(sites@.len() as int) =~= sites@);
            assert forall|q: ArchitectureQubit| !strings_commute(
                seq![(q, p)],
                rotation@.sites,
            ) implies has_key(sites@, q) by {
                lemma_anticommuting_site(q, p, sites@);
            }
        }
        r
    }

    /// Updates the frame by composing a PiOver4 rotation about `rotation` on the left.
    /// Also initializes frame entries for qubits in `rotation` whose default basis
    /// element anti-commutes with the rotation.
    pub fn update(&mut self, rotation: &PauliAxis<ArchitectureQubit>)
        ensures
            final(self)@ == old(self)@.update(rotation@),
    {
        let ghost before = self@;
        let new_x = self.rotated_images(rotation, Pauli::X);
        let new_z = self.rotated_images(rotation, Pauli::Z);
        record_images(&mut self.x, new_x);
        record_images(&mut self.z, new_z);
        assert(self@ =~= before.update(rotation@));
    }

    /// Clears the frame entries for `q` (called when `q` is loaded from memory).
    pub fn reset(&mut self, q: ArchitectureQubit)
        ensures
            final(self)@ == old(self)@.reset(q),
    {
        let ghost before = self@;
        let _ = self.x.remove(&q);
        let _ = self.z.remove(&q);
        assert(self@ =~= before.reset(q));
    }
}

impl Default for CliffordFrame {
    fn default() -> (r: Self)
        ensures
            r@ == FrameModel::identity(),
    {
        Self::new()
    }
}

/// A string anti-commutes with a single-site one only if it has that site.
proof fn lemma_anticommuting_site(
    q: ArchitectureQubit,
    p: Pauli,
    s: Seq<(ArchitectureQubit, Pauli)>,
)
    requires
        anticommuting_sites(seq![(q, p)], s) > 0,
    ensures
        has_key(s, q),
    decreases s.len(),
{
    let a = seq![(q, p)];
    if s.len() > 0 {
        assert(a.skip(1) =~= Seq::empty());
        if key_lt(a[0].0.key(), s[0].0.key()) {
            assert(anticommuting_sites(a.skip(1), s) == 0);
        } else if key_lt(s[0].0.key(), a[0].0.key()) {
            lemma_anticommuting_site(q, p, s.skip(1));
            let i = key_position(s.skip(1), q);
            assert(s[i + 1].0 == q);
        } else {
            assert(s[0].0 == q);
        }
    }
}

/// Record every image of `fresh` in `target`, in place of what stood there.
fn record_images(
    target: &mut KeyedMap<ArchitectureQubit, PauliAxis<ArchitectureQubit>>,
    fresh: KeyedMap<ArchitectureQubit, PauliAxis<ArchitectureQubit>>,
)
    ensures
        axis_views(final(target)@) == axis_views(old(target)@).union_prefer_right(
            axis_views(fresh@),
        ),
{
    let ghost before = target@;
    let keys = fresh.keys();
    for i in 0..keys.len()
        invariant
            forall|q: ArchitectureQubit| keys@.contains(q) <==> #[trigger] fresh@.dom().contains(q),
            forall|q: ArchitectureQubit| #[trigger]
                target@.dom().contains(q) <==> (before.dom().contains(q) || keys@.take(
                    i as int,
                ).contains(q)),
            forall|q: ArchitectureQubit|
                target@.dom().contains(q) ==> (#[trigger] target@[q])@ == if keys@.take(
                    i as int,
                ).contains(q) {
                    fresh@[q]@
                } else {
                    before[q]@
                },
    {
        let q = keys[i];
        assert(keys@.contains(q));
        proof {
            let t = keys@.take(i + 1);
            assert forall|k: ArchitectureQubit| #[trigger] t.contains(k) <==> (keys@.take(
                i as int,
            ).contains(k) || k == q) by {
                assert(t[i as int] == q);
                if keys@.take(i as int).contains(k) {
                    assert(t[keys@.take(i as int).index_of(k)] == k);
                }
                if t.contains(k) && k != q {
                    assert(keys@.take(i as int)[t.index_of(k)] == k);
                }
            }
        }
        if let Some(axis) = fresh.get(&q) {
            target.insert(q, axis.clone());
        }
    }
    proof {
        assert(keys@.take(keys@.len() as int) =~= keys@);
        assert(axis_views(target@) =~= axis_views(before).union_prefer_right(axis_views(fresh@)));
    }
}

// ---------------------------------------------------------------------------
// Textual forms
// ---------------------------------------------------------------------------
impl Text for Pauli {
    open spec fn text(&self) -> Seq<char> {
        match *self {
            Pauli::X => "X"@,
            Pauli::Y => "Y"@,
            Pauli::Z => "Z"@,
            Pauli::I => "I"@,
        }
    }

    fn write_text(&self, out: &mut String) {
        match *self {
            Pauli::X => out.append("X"),
            Pauli::Y => out.append("Y"),
            Pauli::Z => out.append("Z"),
            Pauli::I => out.append("I"),
        }
    }
}

impl Text for Sign {
    open spec fn text(&self) -> Seq<char> {
        match *self {
            Sign::One => "+"@,
            Sign::NegOne => "-"@,
            Sign::J => "+i"@,
            Sign::NegJ => "-i"@,
        }
    }

    fn write_text(&self, out: &mut String) {
        match *self {
            Sign::One => out.append("+"),
            Sign::NegOne => out.append("-"),
            Sign::J => out.append("+i"),
            Sign::NegJ => out.append("-i"),
        }
    }
}

impl Text for PPRAngle {
    open spec fn text(&self) -> Seq<char> {
        match *self {
            PPRAngle::PiOver8 => "π/8"@,
            PPRAngle::PiOver4 => "π/4"@,
            PPRAngle::PiOver2 => "π/2"@,
        }
    }

    fn write_text(&self, out: &mut String) {
        match *self {
            PPRAngle::PiOver8 => out.append("π/8"),
            PPRAngle::PiOver4 => out.append("π/4"),
            PPRAngle::PiOver2 => out.append("π/2"),
        }
    }
}

impl Text for ArchitectureQubit {
    open spec fn text(&self) -> Seq<char> {
        match *self {
            ArchitectureQubit::Memory(n) => "Mem"@ + decimal(n as nat),
            ArchitectureQubit::Processor(n) => "Proc"@ + decimal(n as nat),
            ArchitectureQubit::Magic(n) => "Magic"@ + decimal(n as nat),
        }
    }

    fn write_text(&self, out: &mut String) {
        let ghost before = out@;
        match *self {
            ArchitectureQubit::Memory(n) => {
                out.append("Mem");
                push_decimal(out, n);
            },
            ArchitectureQubit::Processor(n) => {
                out.append("Proc");
                push_decimal(out, n);
            },
            ArchitectureQubit::Magic(n) => {
                out.append("Magic");
                push_decimal(out, n);
            },
        }
        assert(out@ =~= before + self.text());
    }
}

impl<K: Text> Text for MergedCodeQubit<K> {
    open spec fn text(&self) -> Seq<char> {
        match *self {
            MergedCodeQubit::EdgeQubit(n) => "Edge"@ + decimal(n as nat),
            MergedCodeQubit::CodeQubit { block, index } => block.text() + decimal(index as nat),
        }
    }

    fn write_text(&self, out: &mut String) {
        let ghost before = out@;
        match self {
            MergedCodeQubit::EdgeQubit(n) => {
                out.append("Edge");
                push_decimal(out, *n);
            },
            MergedCodeQubit::CodeQubit { block, index } => {
                block.write_text(out);
                push_decimal(out, *index);
            },
        }
        assert(out@ =~= before + self.text());
    }
}

impl Text for MeasId {
    open spec fn text(&self) -> Seq<char> {
        "m"@ + decimal(self.0 as nat)
    }

    fn write_text(&self, out: &mut String) {
        let ghost before = out@;
        out.append("m");
        push_decimal(out, self.0 as usize);
        assert(out@ =~= before + self.text());
    }
}

/// One site: the operator, and its qubit in brackets.
impl<A: Text> Text for (A, Pauli) {
    open spec fn text(&self) -> Seq<char> {
        self.1.text() + "["@ + self.0.text() + "]"@
    }

    fn write_text(&self, out: &mut String) {
        let ghost before = out@;
        self.1.write_text(out);
        out.append("[");
        self.0.write_text(out);
        out.append("]");
        assert(out@ =~= before + self.text());
    }
}

impl<A: PauliStringIndex + Text> Text for PauliString<A> {
    open spec fn text(&self) -> Seq<char> {
        joined(self@, "⊗"@)
    }

    fn write_text(&self, out: &mut String) {
        push_joined(out, &self.0, "⊗");
    }
}

impl<A: PauliStringIndex + Text> Text for PauliAxis<A> {
    open spec fn text(&self) -> Seq<char> {
        self.sign.text() + self.pauli_string.text()
    }

    fn write_text(&self, out: &mut String) {
        let ghost before = out@;
        self.sign.write_text(out);
        self.pauli_string.write_text(out);
        assert(out@ =~= before + self.text());
    }
}

impl Text for AllOf {
    open spec fn text(&self) -> Seq<char> {
        if self@.len() == 0 {
            "never"@
        } else if self@.len() == 1 {
            self@[0].text()
        } else {
            "("@ + joined(self@, "∧"@) + ")"@
        }
    }

    fn write_text(&self, out: &mut String) {
        let ghost before = out@;
        if self.0.len() == 0 {
            out.append("never");
        } else if self.0.len() == 1 {
            self.0[0].write_text(out);
        } else {
            out.append("(");
            push_joined(out, &self.0, "∧");
            out.append(")");
        }
        assert(out@ =~= before + self.text());
    }
}

impl Text for PauliProductOperation {
    open spec fn text(&self) -> Seq<char> {
        match *self {
            PauliProductOperation::Rotation { axis, angle } => "R("@ + angle.text() + ", "@
                + axis.text() + ")"@,
            PauliProductOperation::ConditionalRotation { axis, angle, condition } => "R("@
                + angle.text() + ", "@ + axis.text() + ") if "@ + condition.text(),
            PauliProductOperation::Measurement { axis, id } => "["@ + id.text() + "] Meas("@
                + axis.text() + ")"@,
            PauliProductOperation::FrameReset(q) => "FrameReset("@ + q.text() + ")"@,
        }
    }

    fn write_text(&self, out: &mut String) {
        let ghost before = out@;
        match self {
            PauliProductOperation::Rotation { axis, angle } => {
                out.append("R(");
                angle.write_text(out);
                out.append(", ");
                axis.write_text(out);
                out.append(")");
            },
            PauliProductOperation::ConditionalRotation { axis, angle, condition } => {
                out.append("R(");
                angle.write_text(out);
                out.append(", ");
                axis.write_text(out);
                out.append(") if ");
                condition.write_text(out);
            },
            PauliProductOperation::Measurement { axis, id } => {
                out.append("[");
                id.write_text(out);
                out.append("] Meas(");
                axis.write_text(out);
                out.append(")");
            },
            PauliProductOperation::FrameReset(q) => {
                out.append("FrameReset(");
                q.write_text(out);
                out.append(")");
            },
        }
        assert(out@ =~= before + self.text());
    }
}

/// One operation per line.
impl Text for PauliProductCircuit {
    open spec fn text(&self) -> Seq<char> {
        joined(self.instructions@, "\n"@)
    }

    fn write_text(&self, out: &mut String) {
        push_joined(out, &self.instructions, "\n");
    }
}

} // verus!
