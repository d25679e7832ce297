//! Lowering sequences of checks to physical circuits.

use vstd::prelude::*;

use crate::circuit_to_checks::{BlockKind, Deformation, DeformedCheckSequence};
use crate::graph_to_checks::{conjugate_basis, CorrectionSupport};
#[allow(unused_imports)]
use crate::graph_to_checks::{check_views, conjugate};
use crate::keyed::{sorted_insert, OrderedKey};
#[allow(unused_imports)]
use crate::keyed::{increasing, key_lt};
#[allow(unused_imports)]
use crate::pbc::SignedPauli;
use crate::pbc::{GraphPauli, MergedCodeQubit, Pauli};
use crate::physical::{
    clone_gates, concatenate_circuits, count_syndrome_rounds, widest_syndrome_round, PhysicalCircuit,
    PhysicalGate,
};
#[allow(unused_imports)]
use crate::physical::{
    all_qubits, concatenation, gate_model, gate_models, gate_qubits, lemma_gate_models,
    lemma_gate_models_add, lemma_gate_models_push, round_total, widest_round, GateModel,
};

verus! {

/// The qubit type gates range over while a circuit is being built: an edge qubit, or a
/// code qubit of some block.
pub type MergedQubit = MergedCodeQubit<BlockKind>;

// ---------------------------------------------------------------------------
// Sets in order
// ---------------------------------------------------------------------------
/// `r` holds what `s` holds, each once and in increasing order.
pub open spec fn is_in_order<Q: OrderedKey>(r: Seq<Q>, s: Seq<Q>) -> bool {
    increasing(r) && forall|q: Q| #[trigger] r.contains(q) <==> s.contains(q)
}

/// What `s` holds, each once and in increasing order.
pub open spec fn in_order<Q: OrderedKey>(s: Seq<Q>) -> Seq<Q> {
    choose|r: Seq<Q>| is_in_order(r, s)
}

proof fn lemma_last_is_largest<Q: OrderedKey>(a: Seq<Q>, q: Q)
    requires
        increasing(a),
        a.contains(q),
        q != a.last(),
    ensures
        key_lt(q.key(), a.last().key()),
        a.drop_last().contains(q),
{
    let i = a.index_of(q);
    assert(a[i] == q);
    assert(i < a.len() - 1);
    assert(a.drop_last()[i] == q);
}

/// Increasing sequences with the same elements are the same.
pub proof fn lemma_in_order_unique<Q: OrderedKey>(a: Seq<Q>, b: Seq<Q>)
    requires
        increasing(a),
        increasing(b),
        forall|q: Q| #[trigger] a.contains(q) <==> b.contains(q),
    ensures
        a == b,
    decreases a.len(),
{
    if a.len() == 0 {
        if b.len() > 0 {
            assert(b.contains(b[0]));
            assert(a.contains(b[0]));
        }
        assert(a =~= b);
    } else {
        let x = a.last();
        assert(a[a.len() - 1] == x);
        assert(a.contains(x));
        assert(b.contains(x));
        let y = b.last();
        assert(b[b.len() - 1] == y);
        assert(b.contains(y));
        assert(a.contains(y));
        if x != y {
            lemma_last_is_largest(a, y);
            lemma_last_is_largest(b, x);
        }
        let c = a.drop_last();
        let d = b.drop_last();
        assert forall|q: Q| #[trigger] c.contains(q) <==> d.contains(q) by {
            if c.contains(q) {
                let i = c.index_of(q);
                assert(a[i] == q);
                assert(a.contains(q));
                assert(key_lt(a[i].key(), a[a.len() - 1].key()));
                lemma_last_is_largest(b, q);
            }
            if d.contains(q) {
                let i = d.index_of(q);
                assert(b[i] == q);
                assert(b.contains(q));
                assert(key_lt(b[i].key(), b[b.len() - 1].key()));
                lemma_last_is_largest(a, q);
            }
        }
        lemma_in_order_unique(c, d);
        assert(a =~= c.push(x));
        assert(b =~= d.push(y));
    }
}

/// `q` put into an increasing sequence.
spec fn put_in_order<Q: OrderedKey>(s: Seq<Q>, q: Q) -> Seq<Q>
    decreases s.len(),
{
    if s.len() == 0 {
        seq![q]
    } else if key_lt(s.last().key(), q.key()) {
        s.push(q)
    } else {
        put_in_order(s.drop_last(), q).push(s.last())
    }
}

proof fn lemma_put_in_order<Q: OrderedKey>(s: Seq<Q>, q: Q)
    requires
        increasing(s),
        !s.contains(q),
    ensures
        increasing(put_in_order(s, q)),
        forall|x: Q| #[trigger] put_in_order(s, q).contains(x) <==> s.contains(x) || x == q,
    decreases s.len(),
{
    let r = put_in_order(s, q);
    if s.len() == 0 {
        assert(r[0] == q);
    } else if key_lt(s.last().key(), q.key()) {
        assert forall|x: Q| #[trigger] r.contains(x) <==> s.contains(x) || x == q by {
            lemma_push_contains(s, q, x);
        }
        assert forall|i: int, j: int| 0 <= i < j < r.len() implies key_lt(
            (#[trigger] r[i]).key(),
            (#[trigger] r[j]).key(),
        ) by {
            if j == s.len() && i < s.len() - 1 {
                assert(key_lt(s[i].key(), s[s.len() - 1].key()));
            }
        }
    } else {
        let t = s.drop_last();
        let last = s.last();
        assert(t.push(last) =~= s);
        assert(s[s.len() - 1] == last);
        if last.key() == q.key() {
            Q::key_injective(last, q);
        }
        assert(!t.contains(q)) by {
            lemma_push_contains(t, last, q);
        }
        lemma_put_in_order(t, q);
        let u = put_in_order(t, q);
        assert forall|x: Q| #[trigger] r.contains(x) <==> s.contains(x) || x == q by {
            lemma_push_contains(u, last, x);
            lemma_push_contains(t, last, x);
            assert(u.contains(x) <==> t.contains(x) || x == q);
        }
        assert forall|i: int, j: int| 0 <= i < j < r.len() implies key_lt(
            (#[trigger] r[i]).key(),
            (#[trigger] r[j]).key(),
        ) by {
            if j == u.len() {
                assert(u.contains(u[i]));
                assert(t.contains(u[i]) || u[i] == q);
                if t.contains(u[i]) {
                    let k = t.index_of(u[i]);
                    assert(s[k] == u[i]);
                    assert(key_lt(s[k].key(), s[s.len() - 1].key()));
                }
            } else {
                assert(r[i] == u[i] && r[j] == u[j]);
            }
        }
    }
}

/// Any elements can be put in order.
pub proof fn lemma_in_order_exists<Q: OrderedKey>(s: Seq<Q>)
    ensures
        is_in_order(in_order(s), s),
    decreases s.len(),
{
    if s.len() == 0 {
        assert(is_in_order(s, s));
    } else {
        let t = s.drop_last();
        let q = s.last();
        lemma_in_order_exists(t);
        let r = in_order(t);
        assert(t.push(q) =~= s);
        let now = if r.contains(q) {
            r
        } else {
            put_in_order(r, q)
        };
        if !r.contains(q) {
            lemma_put_in_order(r, q);
        }
        assert forall|x: Q| #[trigger] now.contains(x) <==> s.contains(x) by {
            lemma_push_contains(t, q, x);
            assert(r.contains(x) <==> t.contains(x));
        }
        assert(is_in_order(now, s));
    }
}

/// What is in order is the elements in order.
pub proof fn lemma_in_order<Q: OrderedKey>(r: Seq<Q>, s: Seq<Q>)
    requires
        is_in_order(r, s),
    ensures
        in_order(s) == r,
{
    let t = in_order(s);
    assert(is_in_order(t, s));
    assert forall|q: Q| #[trigger] r.contains(q) <==> t.contains(q) by {
        assert(r.contains(q) <==> s.contains(q));
    }
    lemma_in_order_unique(r, t);
}

// ---------------------------------------------------------------------------
// The qubits of checks
// ---------------------------------------------------------------------------
/// The qubits of a check.
pub open spec fn site_qubits<Q>(check: SignedPauli<Q>) -> Seq<Q> {
    Seq::new(check.sites.len(), |i: int| check.sites[i].0)
}

/// The qubits of checks, one check after another.
pub open spec fn check_qubits<Q>(checks: Seq<SignedPauli<Q>>) -> Seq<Q>
    decreases checks.len(),
{
    if checks.len() == 0 {
        Seq::empty()
    } else {
        check_qubits(checks.drop_last()) + site_qubits(checks.last())
    }
}

/// The edge qubits among these.
pub open spec fn only_edges(qs: Seq<MergedQubit>) -> Seq<MergedQubit>
    decreases qs.len(),
{
    if qs.len() == 0 {
        Seq::empty()
    } else if qs.last() is EdgeQubit {
        only_edges(qs.drop_last()).push(qs.last())
    } else {
        only_edges(qs.drop_last())
    }
}

/// The qubits that checks touch, in increasing order.
pub open spec fn touched(checks: Seq<SignedPauli<MergedQubit>>) -> Seq<MergedQubit> {
    in_order(check_qubits(checks))
}

/// The edge qubits that checks touch, in increasing order.
pub open spec fn touched_edges(checks: Seq<SignedPauli<MergedQubit>>) -> Seq<MergedQubit> {
    in_order(only_edges(check_qubits(checks)))
}

pub proof fn lemma_add_contains<Q>(a: Seq<Q>, b: Seq<Q>, q: Q)
    ensures
        (a + b).contains(q) <==> a.contains(q) || b.contains(q),
{
    let c = a + b;
    if c.contains(q) {
        let i = c.index_of(q);
        assert(c[i] == q);
        if i < a.len() {
            assert(a[i] == q);
        } else {
            assert(b[i - a.len()] == q);
        }
    }
    if a.contains(q) {
        assert(c[a.index_of(q)] == q);
    }
    if b.contains(q) {
        assert(c[a.len() + b.index_of(q)] == q);
    }
}

pub proof fn lemma_push_contains<Q>(a: Seq<Q>, x: Q, q: Q)
    ensures
        a.push(x).contains(q) <==> a.contains(q) || q == x,
{
    lemma_add_contains(a, seq![x], q);
    assert(a.push(x) =~= a + seq![x]);
    assert(seq![x][0] == x);
    if seq![x].contains(q) {
        assert(seq![x].index_of(q) == 0);
    }
}

/// The edge qubits among these are those that are there and are edge qubits.
pub proof fn lemma_only_edges(qs: Seq<MergedQubit>, q: MergedQubit)
    ensures
        only_edges(qs).contains(q) <==> qs.contains(q) && q is EdgeQubit,
    decreases qs.len(),
{
    if qs.len() > 0 {
        lemma_only_edges(qs.drop_last(), q);
        lemma_push_contains(qs.drop_last(), qs.last(), q);
        assert(qs.drop_last().push(qs.last()) =~= qs);
        if qs.last() is EdgeQubit {
            lemma_push_contains(only_edges(qs.drop_last()), qs.last(), q);
        }
    }
}

/// The qubits of checks with one more site.
spec fn sites_so_far<Q>(checks: Seq<SignedPauli<Q>>, i: int, k: int) -> Seq<Q> {
    check_qubits(checks.take(i)) + site_qubits(checks[i]).take(k)
}

/// Which qubits are wanted.
pub(crate) open spec fn wanted(q: MergedQubit, edges_only: bool) -> bool {
    !edges_only || q is EdgeQubit
}

/// The qubits of checks, or the edge qubits among them, in increasing order.
pub(crate) fn collect_qubits(checks: &Vec<GraphPauli<BlockKind>>, edges_only: bool) -> (r: Vec<MergedQubit>)
    ensures
        r@ == if edges_only {
            touched_edges(check_views(checks@))
        } else {
            touched(check_views(checks@))
        },
        increasing(r@),
        forall|q: MergedQubit| #[trigger]
            r@.contains(q) <==> check_qubits(check_views(checks@)).contains(q) && wanted(
                q,
                edges_only,
            ),
{
    let ghost views = check_views(checks@);
    let mut r: Vec<MergedQubit> = Vec::new();
    assert(views.take(0) =~= Seq::empty());
    for i in 0..checks.len()
        invariant
            views == check_views(checks@),
            increasing(r@),
            forall|q: MergedQubit| #[trigger]
                r@.contains(q) <==> check_qubits(views.take(i as int)).contains(q) && wanted(
                    q,
                    edges_only,
                ),
    {
        let sites = checks[i].pauli_string.sites();
        let n: usize = sites.len();
        let ghost here = site_qubits(views[i as int]);
        proof {
            assert(sites@ == views[i as int].sites);
            assert(here.take(0) =~= Seq::empty());
            assert(sites_so_far(views, i as int, 0) =~= check_qubits(views.take(i as int)));
        }
        for k in 0..n
            invariant
                n == sites@.len(),
                i < views.len(),
                sites@ == views[i as int].sites,
                here == site_qubits(views[i as int]),
                increasing(r@),
                forall|q: MergedQubit| #[trigger]
                    r@.contains(q) <==> sites_so_far(views, i as int, k as int).contains(q)
                        && wanted(q, edges_only),
        {
            let q = sites[k].0;
            let ghost before = r@;
            let take = !edges_only || match q {
                MergedCodeQubit::EdgeQubit(_) => true,
                _ => false,
            };
            if take {
                let added = sorted_insert(&mut r, q);
            }
            proof {
                let now = sites_so_far(views, i as int, k + 1);
                assert(here[k as int] == q);
                assert(here.take(k + 1) =~= here.take(k as int).push(q));
                assert(now =~= sites_so_far(views, i as int, k as int).push(q));
                assert forall|x: MergedQubit| #[trigger] r@.contains(x) <==> now.contains(x)
                    && wanted(x, edges_only) by {
                    lemma_push_contains(sites_so_far(views, i as int, k as int), q, x);
                    assert(before.contains(x) <==> sites_so_far(views, i as int, k as int).contains(
                        x,
                    ) && wanted(x, edges_only));
                }
            }
        }
        proof {
            assert(here.take(n as int) =~= here);
            assert(views.take(i + 1).drop_last() =~= views.take(i as int));
            assert(check_qubits(views.take(i + 1)) =~= sites_so_far(views, i as int, n as int));
        }
    }
    proof {
        assert(views.take(views.len() as int) =~= views);
        let all = check_qubits(views);
        if edges_only {
            assert forall|q: MergedQubit| #[trigger] r@.contains(q) <==> only_edges(all).contains(
                q,
            ) by {
                lemma_only_edges(all, q);
            }
            lemma_in_order(r@, only_edges(all));
        } else {
            assert(is_in_order(r@, all));
            lemma_in_order(r@, all);
        }
    }
    r
}

// ---------------------------------------------------------------------------
// The parts of a deformation
// ---------------------------------------------------------------------------
/// Resets of qubits in one basis.
pub open spec fn resets(basis: Pauli, qs: Seq<MergedQubit>) -> Seq<GateModel<MergedQubit>> {
    Seq::new(qs.len(), |i: int| GateModel::Reset(basis, qs[i]))
}

/// Measurements of qubits in one basis.
pub open spec fn readouts(basis: Pauli, qs: Seq<MergedQubit>) -> Seq<GateModel<MergedQubit>> {
    Seq::new(qs.len(), |i: int| GateModel::Measure(basis, qs[i], false))
}

/// One round of checks.
pub open spec fn one_round(checks: Seq<SignedPauli<MergedQubit>>) -> Seq<GateModel<MergedQubit>> {
    Seq::new(checks.len(), |i: int| GateModel::MPP(checks[i]))
}

/// The comparison of each of `m` checks with its value one round earlier.
pub open spec fn comparisons(m: nat) -> Seq<GateModel<MergedQubit>> {
    Seq::new(
        m,
        |j: int| GateModel::DeclareDetector(seq![(j + 1) as usize, (m + j + 1) as usize]),
    )
}

/// Rounds of checks: the first sets the reference, and each of the others is compared
/// with the one before.
pub open spec fn rounds_of(checks: Seq<SignedPauli<MergedQubit>>, rounds: usize) -> Seq<
    GateModel<MergedQubit>,
> {
    if rounds == 0 {
        Seq::empty()
    } else if rounds == 1 {
        one_round(checks)
    } else {
        one_round(checks).push(
            GateModel::Repeat(
                (rounds - 1) as usize,
                one_round(checks) + comparisons(checks.len()),
            ),
        )
    }
}

/// The byproducts on one qubit: an X controlled on each edge outcome on its path.
pub open spec fn byproducts(
    edges: Seq<MergedQubit>,
    c: CorrectionSupport<BlockKind>,
    n: int,
) -> Seq<GateModel<MergedQubit>>
    decreases n,
{
    if n <= 0 {
        Seq::empty()
    } else {
        let before = byproducts(edges, c, n - 1);
        if c.path@.contains(edges[n - 1]) {
            before.push(GateModel::XCorrection((edges.len() - (n - 1)) as usize, c.qubit))
        } else {
            before
        }
    }
}

/// The byproducts on all corrected qubits.
pub open spec fn all_byproducts(
    edges: Seq<MergedQubit>,
    corrections: Seq<CorrectionSupport<BlockKind>>,
) -> Seq<GateModel<MergedQubit>>
    decreases corrections.len(),
{
    if corrections.len() == 0 {
        Seq::empty()
    } else {
        all_byproducts(edges, corrections.drop_last()) + byproducts(
            edges,
            corrections.last(),
            edges.len() as int,
        )
    }
}

/// The split: every edge qubit is measured, and the byproducts follow from the outcomes.
pub open spec fn split_of(
    checks: Seq<SignedPauli<MergedQubit>>,
    corrections: Seq<CorrectionSupport<BlockKind>>,
    basis: Pauli,
) -> Seq<GateModel<MergedQubit>> {
    let edges = touched_edges(checks);
    readouts(basis, edges) + all_byproducts(edges, corrections)
}

/// One deformation: rounds of the base checks, the edge qubits reset in the basis
/// conjugate to that of the vertex checks, rounds of the merged checks, and the split.
pub open spec fn deformation_gates(
    d: Deformation,
    base: Seq<SignedPauli<MergedQubit>>,
    rounds: usize,
) -> Seq<GateModel<MergedQubit>> {
    let checks = check_views(d.checks@);
    let basis = conjugate(d.edge_basis);
    rounds_of(base, rounds) + resets(basis, touched_edges(checks)) + rounds_of(checks, rounds)
        + split_of(checks, d.corrections@, basis)
}

/// The deformations one after another.
pub open spec fn deformations_gates(
    ds: Seq<Deformation>,
    base: Seq<SignedPauli<MergedQubit>>,
    rounds: usize,
) -> Seq<GateModel<MergedQubit>>
    decreases ds.len(),
{
    if ds.len() == 0 {
        Seq::empty()
    } else {
        deformations_gates(ds.drop_last(), base, rounds) + deformation_gates(
            ds.last(),
            base,
            rounds,
        )
    }
}

/// The circuit of a sequence of deformed checks: the data qubits are reset, and the
/// deformations follow.
pub open spec fn lowered(checks: DeformedCheckSequence, rounds: usize) -> Seq<
    GateModel<MergedQubit>,
> {
    let base = check_views(checks.base_checks@);
    resets(Pauli::Z, touched(base)) + deformations_gates(checks.deformations@, base, rounds)
}

/// The records that two rounds of the checks make can be counted.
pub open spec fn rounds_countable(checks: nat) -> bool {
    2 * checks <= usize::MAX
}

/// Every round of the sequence can be counted, and the edge bases are X or Z.
pub open spec fn lowerable(checks: DeformedCheckSequence) -> bool {
    &&& rounds_countable(checks.base_checks@.len())
    &&& forall|i: int|
        0 <= i < checks.deformations@.len() ==> #[trigger] deformation_lowerable(
            checks.deformations@[i],
        )
}

pub open spec fn deformation_lowerable(d: Deformation) -> bool {
    rounds_countable(d.checks@.len()) && (d.edge_basis is X || d.edge_basis is Z)
}

/// Whether the sequence can be lowered.
pub fn can_lower_checks(checks: &DeformedCheckSequence) -> (r: bool)
    ensures
        r == lowerable(*checks),
{
    if checks.base_checks.len() > usize::MAX / 2 {
        return false;
    }
    let mut i: usize = 0;
    while i < checks.deformations.len()
        invariant
            i <= checks.deformations@.len(),
            rounds_countable(checks.base_checks@.len()),
            forall|k: int|
                0 <= k < i ==> #[trigger] deformation_lowerable(checks.deformations@[k]),
        decreases checks.deformations@.len() - i,
    {
        let d = &checks.deformations[i];
        let basis_fits = d.edge_basis == Pauli::X || d.edge_basis == Pauli::Z;
        if d.checks.len() > usize::MAX / 2 || !basis_fits {
            assert(!deformation_lowerable(checks.deformations@[i as int]));
            return false;
        }
        i = i + 1;
    }
    true
}

pub(crate) fn push_resets(out: &mut Vec<PhysicalGate<MergedQubit>>, basis: Pauli, qs: &Vec<MergedQubit>)
    ensures
        gate_models(final(out)@) == gate_models(old(out)@) + resets(basis, qs@),
{
    let ghost before = gate_models(out@);
    let ghost goal = resets(basis, qs@);
    assert(before + goal.take(0) =~= before);
    for i in 0..qs.len()
        invariant
            goal == resets(basis, qs@),
            gate_models(out@) == before + goal.take(i as int),
    {
        let g = PhysicalGate::Reset(basis, qs[i]);
        proof {
            lemma_gate_models_push(out@, g);
            assert(goal.take(i + 1) =~= goal.take(i as int).push(goal[i as int]));
            assert(before + goal.take(i + 1) =~= (before + goal.take(i as int)).push(
                goal[i as int],
            ));
        }
        out.push(g);
    }
    assert(goal.take(goal.len() as int) =~= goal);
}

pub(crate) fn push_readouts(out: &mut Vec<PhysicalGate<MergedQubit>>, basis: Pauli, qs: &Vec<MergedQubit>)
    ensures
        gate_models(final(out)@) == gate_models(old(out)@) + readouts(basis, qs@),
{
    let ghost before = gate_models(out@);
    let ghost goal = readouts(basis, qs@);
    assert(before + goal.take(0) =~= before);
    for i in 0..qs.len()
        invariant
            goal == readouts(basis, qs@),
            gate_models(out@) == before + goal.take(i as int),
    {
        let g = PhysicalGate::Measure(basis, qs[i], false);
        proof {
            lemma_gate_models_push(out@, g);
            assert(goal.take(i + 1) =~= goal.take(i as int).push(goal[i as int]));
            assert(before + goal.take(i + 1) =~= (before + goal.take(i as int)).push(
                goal[i as int],
            ));
        }
        out.push(g);
    }
    assert(goal.take(goal.len() as int) =~= goal);
}

/// Rounds of checks: the first sets the reference, and each of the others is compared
/// with the one before.
pub fn d_rounds(checks: &Vec<GraphPauli<BlockKind>>, rounds: usize) -> (r: PhysicalCircuit<
    MergedQubit,
>)
    requires
        rounds_countable(checks@.len()),
    ensures
        r@ == rounds_of(check_views(checks@), rounds),
{
    let ghost views = check_views(checks@);
    let mut gates: Vec<PhysicalGate<MergedQubit>> = Vec::new();
    if rounds == 0 {
        return PhysicalCircuit { gates };
    }
    let ghost round = one_round(views);
    assert(gate_models(gates@) =~= round.take(0));
    for i in 0..checks.len()
        invariant
            views == check_views(checks@),
            round == one_round(views),
            gate_models(gates@) == round.take(i as int),
    {
        let g = PhysicalGate::MPP(checks[i].clone());
        proof {
            lemma_gate_models_push(gates@, g);
            assert(round.take(i + 1) =~= round.take(i as int).push(round[i as int]));
        }
        gates.push(g);
    }
    assert(round.take(round.len() as int) =~= round);
    if rounds > 1 {
        let n: usize = checks.len();
        let mut body = clone_gates(&gates);
        let ghost tail = comparisons(views.len());
        assert(round + tail.take(0) =~= round);
        for j in 0..n
            invariant
                n == views.len(),
                2 * n <= usize::MAX,
                tail == comparisons(views.len()),
                gate_models(body@) == round + tail.take(j as int),
        {
            let g: PhysicalGate<MergedQubit> = PhysicalGate::DeclareDetector(
                vec![j + 1, n + j + 1],
            );
            proof {
                lemma_gate_models_push(body@, g);
                assert(gate_model(g) == tail[j as int]) by {
                    assert(g->DeclareDetector_0@ =~= seq![
                        (j + 1) as usize,
                        (views.len() + j + 1) as usize,
                    ]);
                }
                assert(tail.take(j + 1) =~= tail.take(j as int).push(tail[j as int]));
                assert(round + tail.take(j + 1) =~= (round + tail.take(j as int)).push(
                    tail[j as int],
                ));
            }
            body.push(g);
        }
        assert(tail.take(tail.len() as int) =~= tail);
        let again = PhysicalGate::Repeat(rounds - 1, body);
        proof {
            lemma_gate_models_push(gates@, again);
        }
        gates.push(again);
    }
    PhysicalCircuit { gates }
}

/// Reset the edge qubits of the checks.
pub fn initialization(checks: &Vec<GraphPauli<BlockKind>>, basis: Pauli) -> (r: PhysicalCircuit<
    MergedQubit,
>)
    ensures
        r@ == resets(basis, touched_edges(check_views(checks@))),
{
    let edges = collect_qubits(checks, true);
    let mut gates: Vec<PhysicalGate<MergedQubit>> = Vec::new();
    push_resets(&mut gates, basis, &edges);
    assert(gate_models(gates@) =~= resets(basis, edges@));
    PhysicalCircuit { gates }
}

fn contains_qubit(path: &Vec<MergedQubit>, q: &MergedQubit) -> (r: bool)
    ensures
        r == path@.contains(*q),
{
    let mut i: usize = 0;
    while i < path.len()
        invariant
            i <= path@.len(),
            forall|k: int| 0 <= k < i ==> path@[k] != *q,
        decreases path@.len() - i,
    {
        if path[i].same(q) {
            assert(path@[i as int] == *q);
            return true;
        }
        i = i + 1;
    }
    false
}

fn push_byproducts(
    out: &mut Vec<PhysicalGate<MergedQubit>>,
    edges: &Vec<MergedQubit>,
    c: &CorrectionSupport<BlockKind>,
)
    ensures
        gate_models(final(out)@) == gate_models(old(out)@) + byproducts(
            edges@,
            *c,
            edges@.len() as int,
        ),
{
    let ghost before = gate_models(out@);
    let n: usize = edges.len();
    assert(before + byproducts(edges@, *c, 0) =~= before);
    for i in 0..n
        invariant
            n == edges@.len(),
            gate_models(out@) == before + byproducts(edges@, *c, i as int),
    {
        if contains_qubit(&c.path, &edges[i]) {
            let g = PhysicalGate::XCorrection(n - i, c.qubit);
            proof {
                lemma_gate_models_push(out@, g);
                assert(before + byproducts(edges@, *c, i + 1) =~= (before + byproducts(
                    edges@,
                    *c,
                    i as int,
                )).push(gate_model(g)));
            }
            out.push(g);
        }
    }
}

/// Measure the edge qubits of the checks, and correct by the outcomes.
pub fn split_and_correct(
    checks: &Vec<GraphPauli<BlockKind>>,
    corrections: &Vec<CorrectionSupport<BlockKind>>,
    split_basis: Pauli,
) -> (r: PhysicalCircuit<MergedQubit>)
    ensures
        r@ == split_of(check_views(checks@), corrections@, split_basis),
{
    let edges = collect_qubits(checks, true);
    let mut gates: Vec<PhysicalGate<MergedQubit>> = Vec::new();
    push_readouts(&mut gates, split_basis, &edges);
    let ghost head = readouts(split_basis, edges@);
    assert(gate_models(gates@) =~= head);
    assert(corrections@.take(0) =~= Seq::empty());
    assert(head + all_byproducts(edges@, corrections@.take(0)) =~= head);
    for i in 0..corrections.len()
        invariant
            gate_models(gates@) == head + all_byproducts(edges@, corrections@.take(i as int)),
    {
        let ghost before = all_byproducts(edges@, corrections@.take(i as int));
        push_byproducts(&mut gates, &edges, &corrections[i]);
        proof {
            assert(corrections@.take(i + 1).drop_last() =~= corrections@.take(i as int));
            let more = byproducts(edges@, corrections@[i as int], edges@.len() as int);
            assert(head + (before + more) =~= (head + before) + more);
        }
    }
    assert(corrections@.take(corrections@.len() as int) =~= corrections@);
    PhysicalCircuit { gates }
}

/// The gates of one deformation.
pub fn one_ppm_to_physical_circuit(
    d: &Deformation,
    base_checks: &Vec<GraphPauli<BlockKind>>,
    rounds: usize,
) -> (r: PhysicalCircuit<MergedQubit>)
    requires
        rounds_countable(base_checks@.len()),
        deformation_lowerable(*d),
    ensures
        r@ == deformation_gates(*d, check_views(base_checks@), rounds),
{
    let basis = conjugate_basis(d.edge_basis);
    let step0 = d_rounds(base_checks, rounds);
    let init = initialization(&d.checks, basis);
    let merge = d_rounds(&d.checks, rounds);
    let split = split_and_correct(&d.checks, &d.corrections, basis);
    let ghost parts = seq![step0, init, merge, split];
    let circuits = vec![step0, init, merge, split];
    proof {
        assert(circuits@ =~= parts);
        assert(parts.drop_last() =~= seq![step0, init, merge]);
        assert(parts.drop_last().drop_last() =~= seq![step0, init]);
        assert(parts.drop_last().drop_last().drop_last() =~= seq![step0]);
        let none = Seq::<PhysicalCircuit<MergedQubit>>::empty();
        assert(seq![step0].drop_last() =~= none);
        assert(concatenation(none) =~= Seq::<GateModel<MergedQubit>>::empty());
        assert(concatenation(seq![step0]) =~= step0@);
        assert(concatenation(seq![step0, init]) =~= step0@ + init@);
        assert(concatenation(seq![step0, init, merge]) =~= step0@ + init@ + merge@);
    }
    concatenate_circuits(circuits)
}

/// The circuit of a sequence of deformed checks.
pub fn checks_to_physical_circuit(checks: &DeformedCheckSequence, rounds: usize) -> (r:
    PhysicalCircuit<MergedQubit>)
    requires
        lowerable(*checks),
    ensures
        r@ == lowered(*checks, rounds),
{
    let ghost base = check_views(checks.base_checks@);
    let ghost ds = checks.deformations@;
    let qubits = collect_qubits(&checks.base_checks, false);
    let mut gates: Vec<PhysicalGate<MergedQubit>> = Vec::new();
    push_resets(&mut gates, Pauli::Z, &qubits);
    let ghost head = resets(Pauli::Z, touched(base));
    assert(gate_models(gates@) =~= head);
    assert(ds.take(0) =~= Seq::empty());
    assert(head + deformations_gates(ds.take(0), base, rounds) =~= head);
    for i in 0..checks.deformations.len()
        invariant
            lowerable(*checks),
            base == check_views(checks.base_checks@),
            ds == checks.deformations@,
            gate_models(gates@) == head + deformations_gates(ds.take(i as int), base, rounds),
    {
        assert(deformation_lowerable(ds[i as int]));
        let sub = one_ppm_to_physical_circuit(
            &checks.deformations[i],
            &checks.base_checks,
            rounds,
        );
        let mut more = sub.gates;
        proof {
            lemma_gate_models_add(gates@, more@);
            assert(ds.take(i + 1).drop_last() =~= ds.take(i as int));
            let before = deformations_gates(ds.take(i as int), base, rounds);
            assert(head + (before + sub@) =~= (head + before) + sub@);
        }
        gates.append(&mut more);
    }
    assert(ds.take(ds.len() as int) =~= ds);
    PhysicalCircuit { gates }
}

// ---------------------------------------------------------------------------
// Statistics
// ---------------------------------------------------------------------------
/// Qubit counts and depths of a compiled circuit.
#[derive(Clone, Copy, PartialEq, Eq, Debug, Structural)]
pub struct CircuitStats {
    /// Distinct code qubits the circuit touches.
    pub code_qubits: usize,
    /// Distinct edge qubits the circuit touches.
    pub edge_qubits: usize,
    /// The widest round: the number of ancillas that extracting the syndrome takes.
    pub sec_ancilla_pool: usize,
    /// The number of rounds, with repeated bodies counted as often as they run.
    pub syndrome_cycles: usize,
    /// The number of layers once every round is lowered to ancilla gadgets.
    pub sec_depth: usize,
}

/// How many of these are edge qubits.
pub open spec fn edge_count(qs: Seq<MergedQubit>) -> nat {
    only_edges(qs).len()
}

/// The distinct qubits of a circuit, in increasing order.
pub open spec fn circuit_qubits(s: Seq<GateModel<MergedQubit>>) -> Seq<MergedQubit> {
    in_order(all_qubits(s))
}

/// The statistics of a circuit.
pub open spec fn stats_of(s: Seq<GateModel<MergedQubit>>, sec_depth: usize, stats: CircuitStats) -> bool {
    &&& stats.edge_qubits == edge_count(circuit_qubits(s))
    &&& stats.code_qubits + stats.edge_qubits == circuit_qubits(s).len()
    &&& stats.sec_ancilla_pool == widest_round(s)
    &&& stats.syndrome_cycles == round_total(s)
    &&& stats.sec_depth == sec_depth
}

/// `now` holds what `before` held and what `qs` holds, in increasing order.
spec fn gathered(before: Seq<MergedQubit>, qs: Seq<MergedQubit>, now: Seq<MergedQubit>) -> bool {
    increasing(now) && forall|q: MergedQubit| #[trigger]
        now.contains(q) <==> before.contains(q) || qs.contains(q)
}

proof fn lemma_gathered_insert(
    before: Seq<MergedQubit>,
    qs: Seq<MergedQubit>,
    now: Seq<MergedQubit>,
    q: MergedQubit,
    after: Seq<MergedQubit>,
)
    requires
        gathered(before, qs, now),
        increasing(after),
        forall|x: MergedQubit| #[trigger] after.contains(x) <==> now.contains(x) || x == q,
    ensures
        gathered(before, qs.push(q), after),
{
    assert forall|x: MergedQubit| #[trigger] after.contains(x) <==> before.contains(x) || qs.push(
        q,
    ).contains(x) by {
        lemma_push_contains(qs, q, x);
        assert(now.contains(x) <==> before.contains(x) || qs.contains(x));
    }
}

proof fn lemma_gathered_add(
    before: Seq<MergedQubit>,
    a: Seq<MergedQubit>,
    b: Seq<MergedQubit>,
    mid: Seq<MergedQubit>,
    now: Seq<MergedQubit>,
)
    requires
        gathered(before, a, mid),
        gathered(mid, b, now),
    ensures
        gathered(before, a + b, now),
{
    assert forall|x: MergedQubit| #[trigger] now.contains(x) <==> before.contains(x) || (a
        + b).contains(x) by {
        lemma_add_contains(a, b, x);
        assert(mid.contains(x) <==> before.contains(x) || a.contains(x));
    }
}

/// Gather one qubit.
fn gather(out: &mut Vec<MergedQubit>, q: MergedQubit, Ghost(start): Ghost<Seq<MergedQubit>>, Ghost(
    qs,
): Ghost<Seq<MergedQubit>>)
    requires
        gathered(start, qs, old(out)@),
    ensures
        gathered(start, qs.push(q), final(out)@),
{
    let ghost now = out@;
    let added = sorted_insert(out, q);
    proof {
        lemma_gathered_insert(start, qs, now, q, out@);
    }
}

fn collect_gate_qubits(gate: &PhysicalGate<MergedQubit>, out: &mut Vec<MergedQubit>)
    requires
        increasing(old(out)@),
    ensures
        gathered(old(out)@, gate_qubits(gate_model(*gate)), final(out)@),
    decreases *gate,
{
    let ghost start = out@;
    let ghost none = Seq::<MergedQubit>::empty();
    assert(gathered(start, none, start));
    match gate {
        PhysicalGate::Reset(_, q) => {
            gather(out, *q, Ghost(start), Ghost(none));
            assert(none.push(*q) =~= seq![*q]);
        },
        PhysicalGate::Measure(_, q, _) => {
            gather(out, *q, Ghost(start), Ghost(none));
            assert(none.push(*q) =~= seq![*q]);
        },
        PhysicalGate::XCorrection(_, q) => {
            gather(out, *q, Ghost(start), Ghost(none));
            assert(none.push(*q) =~= seq![*q]);
        },
        PhysicalGate::Controlled(_, c, t) => {
            gather(out, *c, Ghost(start), Ghost(none));
            gather(out, *t, Ghost(start), Ghost(none.push(*c)));
            assert(none.push(*c).push(*t) =~= seq![*c, *t]);
        },
        PhysicalGate::MPP(p) => {
            let sites = p.pauli_string.sites();
            let ghost all = gate_qubits(gate_model(*gate));
            assert(all.take(0) =~= none);
            for k in 0..sites.len()
                invariant
                    sites@ == p@.sites,
                    all == Seq::new(p@.sites.len(), |i: int| p@.sites[i].0),
                    gathered(start, all.take(k as int), out@),
            {
                gather(out, sites[k].0, Ghost(start), Ghost(all.take(k as int)));
                assert(all.take(k + 1) =~= all.take(k as int).push(all[k as int]));
            }
            assert(all.take(all.len() as int) =~= all);
        },
        PhysicalGate::Repeat(_, body) => {
            collect_merged_qubits(body, out);
        },
        _ => {},
    }
}

/// Gather every qubit that the gates touch, in repeated bodies too.
fn collect_merged_qubits(gates: &Vec<PhysicalGate<MergedQubit>>, out: &mut Vec<MergedQubit>)
    requires
        increasing(old(out)@),
    ensures
        gathered(old(out)@, all_qubits(gate_models(gates@)), final(out)@),
    decreases *gates,
{
    let ghost start = out@;
    let ghost s = gate_models(gates@);
    proof {
        lemma_gate_models(gates@);
        assert(s.take(0) =~= Seq::empty());
        assert(gathered(start, Seq::empty(), start));
    }
    for i in 0..gates.len()
        invariant
            s == gate_models(gates@),
            s.len() == gates@.len(),
            forall|i: int| 0 <= i < gates@.len() ==> #[trigger] s[i] == gate_model(gates@[i]),
            gathered(start, all_qubits(s.take(i as int)), out@),
    {
        let ghost mid = out@;
        collect_gate_qubits(&gates[i], out);
        proof {
            assert(s.take(i + 1).drop_last() =~= s.take(i as int));
            assert(s.take(i + 1).last() == s[i as int]);
            lemma_gathered_add(
                start,
                all_qubits(s.take(i as int)),
                gate_qubits(s[i as int]),
                mid,
                out@,
            );
        }
    }
    assert(s.take(s.len() as int) =~= s);
}

/// The qubits of a circuit in increasing order.
fn qubits_of(gates: &Vec<PhysicalGate<MergedQubit>>) -> (r: Vec<MergedQubit>)
    ensures
        r@ == circuit_qubits(gate_models(gates@)),
{
    let mut r: Vec<MergedQubit> = Vec::new();
    collect_merged_qubits(gates, &mut r);
    proof {
        let qs = all_qubits(gate_models(gates@));
        assert forall|q: MergedQubit| #[trigger] r@.contains(q) <==> qs.contains(q) by {
            assert(!Seq::<MergedQubit>::empty().contains(q));
        }
        lemma_in_order(r@, qs);
    }
    r
}

/// How many of the qubits are edge qubits.
pub(crate) fn count_edges(qs: &Vec<MergedQubit>) -> (r: usize)
    ensures
        r == edge_count(qs@),
        r <= qs@.len(),
{
    let mut n: usize = 0;
    assert(qs@.take(0) =~= Seq::empty());
    for i in 0..qs.len()
        invariant
            n == edge_count(qs@.take(i as int)),
            n <= i,
    {
        proof {
            assert(qs@.take(i + 1).drop_last() =~= qs@.take(i as int));
        }
        match qs[i] {
            MergedCodeQubit::EdgeQubit(_) => {
                n = n + 1;
            },
            _ => {},
        }
    }
    assert(qs@.take(qs@.len() as int) =~= qs@);
    n
}

impl CircuitStats {
    /// The statistics of a circuit whose lowering has `sec_depth` layers.
    pub fn compute(merged: &PhysicalCircuit<MergedQubit>, sec_depth: usize) -> (r: CircuitStats)
        requires
            round_total(merged@) <= usize::MAX,
        ensures
            stats_of(merged@, sec_depth, r),
    {
        let qubits = qubits_of(&merged.gates);
        let edges: usize = count_edges(&qubits);
        CircuitStats {
            code_qubits: qubits.len() - edges,
            edge_qubits: edges,
            sec_ancilla_pool: widest_syndrome_round(&merged.gates),
            syndrome_cycles: count_syndrome_rounds(&merged.gates),
            sec_depth,
        }
    }
}

} // verus!
