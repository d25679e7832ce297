//! Which gate made a record, and what the offsets in a circuit point to.

use vstd::prelude::*;

#[allow(unused_imports)]
use crate::circuit_to_checks::BlockKind;
#[allow(unused_imports)]
use crate::graph_to_checks::{conjugate, CorrectionSupport};
#[allow(unused_imports)]
use crate::circuit_to_checks::Deformation;
#[allow(unused_imports)]
use crate::graph_to_checks::check_views;
#[allow(unused_imports)]
use crate::keyed::{increasing, key_lt, OrderedKey};
#[allow(unused_imports)]
use crate::lowering::{
    all_byproducts, byproducts, check_qubits, comparisons, deformation_gates, lemma_in_order_exists,
    lemma_only_edges, one_round, only_edges, readouts, resets, rounds_of, split_of, touched_edges,
    MergedQubit,
};
#[allow(unused_imports)]
use crate::pbc::{Pauli, SignedPauli};
#[allow(unused_imports)]
use crate::physical::{gate_total, record_total, total, Counted, GateModel};

verus! {

// ---------------------------------------------------------------------------
// The gates behind the records
// ---------------------------------------------------------------------------
/// `s` run `n` times.
pub open spec fn repeated<T>(s: Seq<T>, n: nat) -> Seq<T>
    decreases n,
{
    if n == 0 {
        Seq::empty()
    } else {
        repeated(s, (n - 1) as nat) + s
    }
}

/// The gates with every repeated body written out as often as it runs.
pub open spec fn unrolled<Q>(s: Seq<GateModel<Q>>) -> Seq<GateModel<Q>>
    decreases s,
{
    if s.len() == 0 {
        Seq::empty()
    } else {
        unrolled(s.drop_last()) + unrolled_gate(s.last())
    }
}

/// A gate, or a repeated body written out.
pub open spec fn unrolled_gate<Q>(g: GateModel<Q>) -> Seq<GateModel<Q>>
    decreases g,
{
    match g {
        GateModel::Repeat(n, body) => repeated(unrolled(body), n as nat),
        _ => seq![g],
    }
}

/// Makes a record.
pub open spec fn makes_one<Q>(g: GateModel<Q>) -> bool {
    g is Measure || g is MPP
}

/// The gates of an unrolled circuit that make a record, in order, one for each record.
pub open spec fn recorders<Q>(u: Seq<GateModel<Q>>) -> Seq<GateModel<Q>>
    decreases u.len(),
{
    if u.len() == 0 {
        Seq::empty()
    } else if makes_one(u.last()) {
        recorders(u.drop_last()).push(u.last())
    } else {
        recorders(u.drop_last())
    }
}

/// What made the record `k` back from the end of an unrolled circuit: 1 is the last.
pub open spec fn record_back<Q>(u: Seq<GateModel<Q>>, k: int) -> Option<GateModel<Q>> {
    let made = recorders(u);
    if 1 <= k <= made.len() {
        Some(made[made.len() - k])
    } else {
        None
    }
}

pub proof fn lemma_recorders_add<Q>(a: Seq<GateModel<Q>>, b: Seq<GateModel<Q>>)
    ensures
        recorders(a + b) == recorders(a) + recorders(b),
    decreases b.len(),
{
    if b.len() == 0 {
        assert(a + b =~= a);
        assert(recorders(a) + recorders(b) =~= recorders(a));
    } else {
        lemma_recorders_add(a, b.drop_last());
        assert((a + b).drop_last() =~= a + b.drop_last());
        assert((a + b).last() == b.last());
        assert(recorders(a + b) =~= recorders(a) + recorders(b));
    }
}

pub proof fn lemma_all_recorders<Q>(u: Seq<GateModel<Q>>)
    requires
        forall|i: int| 0 <= i < u.len() ==> makes_one(#[trigger] u[i]),
    ensures
        recorders(u) == u,
    decreases u.len(),
{
    if u.len() > 0 {
        assert(makes_one(u[u.len() - 1]));
        let front = u.drop_last();
        assert forall|i: int| 0 <= i < front.len() implies makes_one(#[trigger] front[i]) by {
            assert(makes_one(u[i]));
        }
        lemma_all_recorders(front);
        assert(front.push(u.last()) =~= u);
    } else {
        assert(recorders(u) =~= u);
    }
}

pub proof fn lemma_no_recorders<Q>(u: Seq<GateModel<Q>>)
    requires
        forall|i: int| 0 <= i < u.len() ==> !makes_one(#[trigger] u[i]),
    ensures
        recorders(u) == Seq::<GateModel<Q>>::empty(),
    decreases u.len(),
{
    if u.len() > 0 {
        assert(!makes_one(u[u.len() - 1]));
        let front = u.drop_last();
        assert forall|i: int| 0 <= i < front.len() implies !makes_one(#[trigger] front[i]) by {
            assert(!makes_one(u[i]));
        }
        lemma_no_recorders(front);
    }
}

/// Gates without repeated bodies are as they are when written out.
pub proof fn lemma_unrolled_flat<Q>(s: Seq<GateModel<Q>>)
    requires
        forall|i: int| 0 <= i < s.len() ==> !((#[trigger] s[i]) is Repeat),
    ensures
        unrolled(s) == s,
    decreases s.len(),
{
    if s.len() > 0 {
        assert(!(s[s.len() - 1] is Repeat));
        let front = s.drop_last();
        assert forall|i: int| 0 <= i < front.len() implies !((#[trigger] front[i]) is Repeat) by {
            assert(!(s[i] is Repeat));
        }
        lemma_unrolled_flat(front);
        assert(unrolled_gate(s.last()) == seq![s.last()]);
        assert(front + seq![s.last()] =~= s);
    } else {
        assert(unrolled(s) =~= s);
    }
}

pub proof fn lemma_unrolled_add<Q>(a: Seq<GateModel<Q>>, b: Seq<GateModel<Q>>)
    ensures
        unrolled(a + b) == unrolled(a) + unrolled(b),
    decreases b.len(),
{
    if b.len() == 0 {
        assert(a + b =~= a);
        assert(unrolled(a) + unrolled(b) =~= unrolled(a));
    } else {
        lemma_unrolled_add(a, b.drop_last());
        assert((a + b).drop_last() =~= a + b.drop_last());
        assert((a + b).last() == b.last());
        assert(unrolled(a + b) =~= unrolled(a) + unrolled(b));
    }
}

proof fn lemma_repeated_records<Q>(u: Seq<GateModel<Q>>, n: nat)
    ensures
        recorders(repeated(u, n)).len() == n * recorders(u).len(),
    decreases n,
{
    if n == 0 {
        assert(0 * recorders(u).len() == 0);
    } else {
        lemma_repeated_records(u, (n - 1) as nat);
        lemma_recorders_add(repeated(u, (n - 1) as nat), u);
        let m = recorders(u).len();
        assert((n - 1) * m + m == n * m) by (nonlinear_arith);
    }
}

/// A circuit makes as many records as its count says.
pub proof fn law_records_are_counted<Q>(s: Seq<GateModel<Q>>)
    ensures
        recorders(unrolled(s)).len() == record_total(s),
    decreases s,
{
    if s.len() > 0 {
        let front = s.drop_last();
        let g = s.last();
        law_records_are_counted(front);
        lemma_recorders_add(unrolled(front), unrolled_gate(g));
        match g {
            GateModel::Repeat(n, body) => {
                assert(decreases_to!(s => g));
                law_records_are_counted(body);
                lemma_repeated_records(unrolled(body), n as nat);
                assert(unrolled_gate(g) == repeated(unrolled(body), n as nat));
                assert(gate_total(Counted::Records, g) == (n as nat) * total(
                    Counted::Records,
                    body,
                ));
            },
            _ => {
                let one = seq![g];
                assert(unrolled_gate(g) == one);
                assert(one.drop_last() =~= Seq::empty());
                assert(recorders(one.drop_last()).len() == 0);
            },
        }
        assert(unrolled(s) == unrolled(front) + unrolled_gate(g));
        assert(total(Counted::Records, s) == total(Counted::Records, front) + gate_total(
            Counted::Records,
            g,
        ));
    }
}

// ---------------------------------------------------------------------------
// The split
// ---------------------------------------------------------------------------
/// Gate `i` is an X on `q`, controlled on the readout of `e`.
pub open spec fn corrects(
    u: Seq<GateModel<MergedQubit>>,
    i: int,
    q: MergedQubit,
    e: MergedQubit,
    basis: Pauli,
) -> bool {
    u[i] matches GateModel::XCorrection(k, r) && r == q && record_back(u.take(i), k as int) == Some(
        GateModel::Measure(basis, e, false),
    )
}

/// How many of the gates from `lo` up to `hi` correct `q` by the readout of `e`.
pub open spec fn corrections_by(
    u: Seq<GateModel<MergedQubit>>,
    lo: int,
    hi: int,
    q: MergedQubit,
    e: MergedQubit,
    basis: Pauli,
) -> nat
    decreases hi - lo,
{
    if hi <= lo {
        0
    } else {
        corrections_by(u, lo, hi - 1, q, e, basis) + if corrects(u, hi - 1, q, e, basis) {
            1nat
        } else {
            0nat
        }
    }
}

/// How many of the correction paths of `q` have `e` on them.
pub open spec fn paths_over(
    corrections: Seq<CorrectionSupport<BlockKind>>,
    q: MergedQubit,
    e: MergedQubit,
) -> nat
    decreases corrections.len(),
{
    if corrections.len() == 0 {
        0
    } else {
        let c = corrections.last();
        paths_over(corrections.drop_last(), q, e) + if c.qubit == q && c.path@.contains(e) {
            1nat
        } else {
            0nat
        }
    }
}

/// Only corrections.
spec fn only_corrections(s: Seq<GateModel<MergedQubit>>) -> bool {
    forall|i: int| 0 <= i < s.len() ==> (#[trigger] s[i]) is XCorrection
}

proof fn lemma_byproducts_correct(
    edges: Seq<MergedQubit>,
    c: CorrectionSupport<BlockKind>,
    n: int,
)
    ensures
        only_corrections(byproducts(edges, c, n)),
    decreases n,
{
    if n > 0 {
        lemma_byproducts_correct(edges, c, n - 1);
    }
}

proof fn lemma_all_correct(
    edges: Seq<MergedQubit>,
    corrections: Seq<CorrectionSupport<BlockKind>>,
)
    ensures
        only_corrections(all_byproducts(edges, corrections)),
    decreases corrections.len(),
{
    if corrections.len() > 0 {
        lemma_all_correct(edges, corrections.drop_last());
        lemma_byproducts_correct(edges, corrections.last(), edges.len() as int);
    }
}

/// Behind the readouts nothing makes a record until the corrections are over.
proof fn lemma_readouts_stay(
    u: Seq<GateModel<MergedQubit>>,
    read: Seq<GateModel<MergedQubit>>,
    more: Seq<GateModel<MergedQubit>>,
    i: int,
)
    requires
        only_corrections(more),
        forall|k: int| 0 <= k < read.len() ==> makes_one(#[trigger] read[k]),
        u.len() + read.len() <= i <= u.len() + read.len() + more.len(),
    ensures
        recorders((u + read + more).take(i)) == recorders(u) + read,
{
    let j = i - u.len() - read.len();
    let tail = more.take(j);
    assert((u + read + more).take(i) =~= u + read + tail);
    lemma_recorders_add(u + read, tail);
    lemma_recorders_add(u, read);
    lemma_all_recorders(read);
    assert forall|k: int| 0 <= k < tail.len() implies !makes_one(#[trigger] tail[k]) by {
        assert(more[k] is XCorrection);
    }
    lemma_no_recorders(tail);
    assert(recorders(u) + read + Seq::<GateModel<MergedQubit>>::empty() =~= recorders(u) + read);
}

/// The records of a split are the readouts of the edges.
pub(crate) proof fn lemma_split_records(
    checks: Seq<SignedPauli<MergedQubit>>,
    corrections: Seq<CorrectionSupport<BlockKind>>,
    basis: Pauli,
)
    ensures
        recorders(split_of(checks, corrections, basis)) == readouts(basis, touched_edges(checks)),
{
    let edges = touched_edges(checks);
    let read = readouts(basis, edges);
    let more = all_byproducts(edges, corrections);
    let none = Seq::<GateModel<MergedQubit>>::empty();
    let all = split_of(checks, corrections, basis);
    lemma_all_correct(edges, corrections);
    assert forall|k: int| 0 <= k < read.len() implies makes_one(#[trigger] read[k]) by {}
    lemma_readouts_stay(none, read, more, all.len() as int);
    assert((none + read + more).take(all.len() as int) =~= all);
    assert(recorders(none) + read =~= read);
}

/// How many gates of a list correct `q` by the readout of `e`, with these records made.
spec fn tally(
    made: Seq<GateModel<MergedQubit>>,
    s: Seq<GateModel<MergedQubit>>,
    q: MergedQubit,
    e: MergedQubit,
    basis: Pauli,
) -> nat
    decreases s.len(),
{
    if s.len() == 0 {
        0
    } else {
        tally(made, s.drop_last(), q, e, basis) + match s.last() {
            GateModel::XCorrection(k, r) => if r == q && 1 <= k <= made.len() && made[made.len()
                - k] == GateModel::Measure(basis, e, false) {
                1nat
            } else {
                0nat
            },
            _ => 0,
        }
    }
}

proof fn lemma_tally_add(
    made: Seq<GateModel<MergedQubit>>,
    a: Seq<GateModel<MergedQubit>>,
    b: Seq<GateModel<MergedQubit>>,
    q: MergedQubit,
    e: MergedQubit,
    basis: Pauli,
)
    ensures
        tally(made, a + b, q, e, basis) == tally(made, a, q, e, basis) + tally(
            made,
            b,
            q,
            e,
            basis,
        ),
    decreases b.len(),
{
    if b.len() == 0 {
        assert(a + b =~= a);
    } else {
        lemma_tally_add(made, a, b.drop_last(), q, e, basis);
        assert((a + b).drop_last() =~= a + b.drop_last());
        assert((a + b).last() == b.last());
    }
}

proof fn lemma_byproducts_tally(
    before: Seq<GateModel<MergedQubit>>,
    edges: Seq<MergedQubit>,
    c: CorrectionSupport<BlockKind>,
    n: int,
    q: MergedQubit,
    e: MergedQubit,
    basis: Pauli,
)
    requires
        0 <= n <= edges.len() <= usize::MAX,
        increasing(edges),
    ensures
        tally(before + readouts(basis, edges), byproducts(edges, c, n), q, e, basis) == if c.qubit
            == q && c.path@.contains(e) && edges.take(n).contains(e) {
            1nat
        } else {
            0
        },
    decreases n,
{
    let made = before + readouts(basis, edges);
    if n == 0 {
        assert(edges.take(0) =~= Seq::empty());
    } else {
        lemma_byproducts_tally(before, edges, c, n - 1, q, e, basis);
        let x = edges[n - 1];
        let k = edges.len() - (n - 1);
        let rest = byproducts(edges, c, n - 1);
        assert(edges.take(n) =~= edges.take(n - 1).push(x));
        crate::lowering::lemma_push_contains(edges.take(n - 1), x, e);
        assert(made[made.len() - k] == GateModel::Measure(basis, x, false));
        if edges.take(n - 1).contains(x) {
            let j = edges.take(n - 1).index_of(x);
            assert(edges[j] == x);
            assert(key_lt(edges[j].key(), edges[n - 1].key()));
        }
        if c.path@.contains(x) {
            let now = rest.push(GateModel::XCorrection(k as usize, c.qubit));
            assert(now.drop_last() =~= rest);
        }
    }
}

proof fn lemma_split_tally(
    before: Seq<GateModel<MergedQubit>>,
    edges: Seq<MergedQubit>,
    corrections: Seq<CorrectionSupport<BlockKind>>,
    q: MergedQubit,
    e: MergedQubit,
    basis: Pauli,
)
    requires
        edges.len() <= usize::MAX,
        increasing(edges),
    ensures
        tally(before + readouts(basis, edges), all_byproducts(edges, corrections), q, e, basis)
            == if edges.contains(e) {
            paths_over(corrections, q, e)
        } else {
            0
        },
    decreases corrections.len(),
{
    if corrections.len() > 0 {
        let front = corrections.drop_last();
        let c = corrections.last();
        lemma_split_tally(before, edges, front, q, e, basis);
        lemma_byproducts_tally(before, edges, c, edges.len() as int, q, e, basis);
        assert(edges.take(edges.len() as int) =~= edges);
        lemma_tally_add(
            before + readouts(basis, edges),
            all_byproducts(edges, front),
            byproducts(edges, c, edges.len() as int),
            q,
            e,
            basis,
        );
    }
}

proof fn lemma_tally_is_count(
    u: Seq<GateModel<MergedQubit>>,
    read: Seq<GateModel<MergedQubit>>,
    more: Seq<GateModel<MergedQubit>>,
    j: int,
    q: MergedQubit,
    e: MergedQubit,
    basis: Pauli,
)
    requires
        only_corrections(more),
        forall|k: int| 0 <= k < read.len() ==> makes_one(#[trigger] read[k]),
        0 <= j <= more.len(),
    ensures
        corrections_by(
            u + read + more,
            (u.len() + read.len()) as int,
            u.len() + read.len() + j,
            q,
            e,
            basis,
        ) == tally(recorders(u) + read, more.take(j), q, e, basis),
    decreases j,
{
    if j > 0 {
        let all = u + read + more;
        let i = u.len() + read.len() + j - 1;
        lemma_tally_is_count(u, read, more, j - 1, q, e, basis);
        lemma_readouts_stay(u, read, more, i);
        assert(more.take(j).drop_last() =~= more.take(j - 1));
        assert(more.take(j).last() == all[i]);
        assert(more[j - 1] is XCorrection);
    }
}

proof fn lemma_no_corrections_before(
    u: Seq<GateModel<MergedQubit>>,
    lo: int,
    hi: int,
    end: int,
    q: MergedQubit,
    e: MergedQubit,
    basis: Pauli,
)
    requires
        0 <= lo <= hi <= end <= u.len(),
        forall|i: int| lo <= i < hi ==> !((#[trigger] u[i]) is XCorrection),
    ensures
        corrections_by(u, lo, end, q, e, basis) == corrections_by(u, hi, end, q, e, basis),
    decreases end - lo,
{
    if end > hi {
        lemma_no_corrections_before(u, lo, hi, end - 1, q, e, basis);
    } else if hi > lo {
        lemma_no_corrections_before(u, lo, hi - 1, hi - 1, q, e, basis);
    }
}

/// A split has no repeated bodies.
pub(crate) proof fn lemma_split_flat(
    checks: Seq<SignedPauli<MergedQubit>>,
    corrections: Seq<CorrectionSupport<BlockKind>>,
    basis: Pauli,
)
    ensures
        forall|i: int|
            0 <= i < split_of(checks, corrections, basis).len() ==> !((#[trigger] split_of(
                checks,
                corrections,
                basis,
            )[i]) is Repeat),
{
    let edges = touched_edges(checks);
    lemma_all_correct(edges, corrections);
    let r = readouts(basis, edges);
    let m = all_byproducts(edges, corrections);
    assert forall|i: int| 0 <= i < (r + m).len() implies !((#[trigger] (r + m)[i]) is Repeat) by {
        if i >= r.len() {
            assert(m[i - r.len()] is XCorrection);
        }
    }
}

/// A split reads out every edge qubit that the checks touch, once and in the given basis,
/// and then corrects. A qubit is corrected by the readout of an edge exactly as often as
/// one of its correction paths has the edge on it: the record that a correction counts back
/// to is the readout of that edge, whatever came before the split.
#[verifier::spinoff_prover]
pub proof fn law_split_corrects_by_its_paths(
    u: Seq<GateModel<MergedQubit>>,
    checks: Seq<SignedPauli<MergedQubit>>,
    corrections: Seq<CorrectionSupport<BlockKind>>,
    basis: Pauli,
    q: MergedQubit,
    e: MergedQubit,
)
    requires
        touched_edges(checks).len() <= usize::MAX,
    ensures
        ({
            let all = u + split_of(checks, corrections, basis);
            let touched = check_qubits(checks).contains(e) && e is EdgeQubit;
            &&& corrections_by(all, u.len() as int, all.len() as int, q, e, basis) == if touched {
                paths_over(corrections, q, e)
            } else {
                0
            }
            &&& touched <==> recorders(split_of(checks, corrections, basis)).contains(
                GateModel::Measure(basis, e, false),
            )
            &&& recorders(split_of(checks, corrections, basis)).no_duplicates()
        }),
{
    let edges = touched_edges(checks);
    let read = readouts(basis, edges);
    let more = all_byproducts(edges, corrections);
    let all = u + split_of(checks, corrections, basis);
    assert(all =~= u + read + more);
    lemma_in_order_exists(only_edges(check_qubits(checks)));
    lemma_only_edges(check_qubits(checks), e);
    lemma_all_correct(edges, corrections);
    assert forall|k: int| 0 <= k < read.len() implies makes_one(#[trigger] read[k]) by {}
    let start = u.len() + read.len();
    assert forall|i: int| u.len() <= i < start implies !((#[trigger] all[i]) is XCorrection) by {
        assert(all[i] == read[i - u.len()]);
    }
    lemma_no_corrections_before(
        all,
        u.len() as int,
        start as int,
        all.len() as int,
        q,
        e,
        basis,
    );
    lemma_tally_is_count(u, read, more, more.len() as int, q, e, basis);
    assert(more.take(more.len() as int) =~= more);
    lemma_split_tally(recorders(u), edges, corrections, q, e, basis);
    // the records of the split
    let none = Seq::<GateModel<MergedQubit>>::empty();
    lemma_readouts_stay(none, read, more, (read.len() + more.len()) as int);
    assert((none + read + more).take((read.len() + more.len()) as int) =~= read + more);
    assert(recorders(none) + read =~= read);
    assert(recorders(read + more) == read);
    let g = GateModel::Measure(basis, e, false);
    if edges.contains(e) {
        assert(read[edges.index_of(e)] == g);
    }
    if read.contains(g) {
        assert(edges[read.index_of(g)] == e);
    }
    assert forall|i: int, j: int| 0 <= i < read.len() && 0 <= j < read.len() && i != j implies read[i]
        != read[j] by {
        if i < j {
            assert(key_lt(edges[i].key(), edges[j].key()));
        } else {
            assert(key_lt(edges[j].key(), edges[i].key()));
        }
    }
}

/// Every correction of a split reads the record of an edge on a correction path of the
/// qubit that it corrects.
#[verifier::spinoff_prover]
pub proof fn law_corrections_read_their_paths(
    u: Seq<GateModel<MergedQubit>>,
    checks: Seq<SignedPauli<MergedQubit>>,
    corrections: Seq<CorrectionSupport<BlockKind>>,
    basis: Pauli,
    i: int,
)
    requires
        touched_edges(checks).len() <= usize::MAX,
        u.len() <= i < (u + split_of(checks, corrections, basis)).len(),
        (u + split_of(checks, corrections, basis))[i] is XCorrection,
    ensures
        exists|c: int, e: MergedQubit|
            0 <= c < corrections.len() && corrects(
                u + split_of(checks, corrections, basis),
                i,
                (#[trigger] corrections[c]).qubit,
                e,
                basis,
            ) && #[trigger] corrections[c].path@.contains(e),
{
    let edges = touched_edges(checks);
    let read = readouts(basis, edges);
    let more = all_byproducts(edges, corrections);
    let all = u + split_of(checks, corrections, basis);
    assert(all =~= u + read + more);
    lemma_in_order_exists(only_edges(check_qubits(checks)));
    lemma_all_correct(edges, corrections);
    assert forall|k: int| 0 <= k < read.len() implies makes_one(#[trigger] read[k]) by {}
    let start = u.len() + read.len();
    if i < start {
        assert(all[i] == read[i - u.len()]);
    }
    let j = i - start;
    assert(all[i] == more[j]);
    lemma_readouts_stay(u, read, more, i);
    lemma_whose_correction(edges, corrections, j);
    let (c, n) = choose|c: int, n: int|
        0 <= c < corrections.len() && 0 <= n < edges.len() && #[trigger] corrections[c].path@.contains(
            #[trigger] edges[n],
        ) && more[j] == GateModel::<MergedQubit>::XCorrection(
            (edges.len() - n) as usize,
            corrections[c].qubit,
        );
    let made = recorders(u) + read;
    assert(made[made.len() - (edges.len() - n)] == read[n]);
    assert(corrects(all, i, corrections[c].qubit, edges[n], basis));
}

proof fn lemma_whose_byproduct(
    edges: Seq<MergedQubit>,
    c: CorrectionSupport<BlockKind>,
    m: int,
    j: int,
)
    requires
        0 <= m <= edges.len(),
        0 <= j < byproducts(edges, c, m).len(),
    ensures
        exists|n: int|
            0 <= n < m && c.path@.contains(#[trigger] edges[n]) && byproducts(edges, c, m)[j]
                == GateModel::<MergedQubit>::XCorrection((edges.len() - n) as usize, c.qubit),
    decreases m,
{
    let before = byproducts(edges, c, m - 1);
    if j < before.len() {
        lemma_whose_byproduct(edges, c, m - 1, j);
        let n = choose|n: int|
            0 <= n < m - 1 && c.path@.contains(#[trigger] edges[n]) && before[j] == GateModel::<
                MergedQubit,
            >::XCorrection((edges.len() - n) as usize, c.qubit);
        assert(c.path@.contains(edges[n]));
    } else {
        assert(c.path@.contains(edges[m - 1]));
    }
}

proof fn lemma_whose_correction(
    edges: Seq<MergedQubit>,
    corrections: Seq<CorrectionSupport<BlockKind>>,
    j: int,
)
    requires
        0 <= j < all_byproducts(edges, corrections).len(),
    ensures
        exists|c: int, n: int|
            0 <= c < corrections.len() && 0 <= n < edges.len() && #[trigger] corrections[c].path@.contains(
                #[trigger] edges[n],
            ) && all_byproducts(edges, corrections)[j] == GateModel::<MergedQubit>::XCorrection(
                (edges.len() - n) as usize,
                corrections[c].qubit,
            ),
    decreases corrections.len(),
{
    let front = corrections.drop_last();
    let before = all_byproducts(edges, front);
    if j < before.len() {
        lemma_whose_correction(edges, front, j);
        let (c, n) = choose|c: int, n: int|
            0 <= c < front.len() && 0 <= n < edges.len() && #[trigger] front[c].path@.contains(
                #[trigger] edges[n],
            ) && before[j] == GateModel::<MergedQubit>::XCorrection(
                (edges.len() - n) as usize,
                front[c].qubit,
            );
        assert(corrections[c] == front[c]);
        assert(corrections[c].path@.contains(edges[n]));
    } else {
        let c = corrections.len() - 1;
        lemma_whose_byproduct(edges, corrections[c], edges.len() as int, j - before.len());
        let n = choose|n: int|
            0 <= n < edges.len() && corrections[c].path@.contains(#[trigger] edges[n])
                && byproducts(edges, corrections[c], edges.len() as int)[j - before.len()]
                == GateModel::<MergedQubit>::XCorrection(
                (edges.len() - n) as usize,
                corrections[c].qubit,
            );
        assert(corrections[c].path@.contains(edges[n]));
    }
}

/// The basis in which a deformation resets and reads out its edge qubits anti-commutes with
/// the Pauli that its vertex checks have on them, so that no edge readout tells a factor of
/// the measured operator.
pub proof fn law_edges_are_read_against_vertex_checks(
    d: Deformation,
    base: Seq<SignedPauli<MergedQubit>>,
    rounds: usize,
    i: int,
)
    requires
        d.edge_basis is X || d.edge_basis is Z,
        0 <= i < deformation_gates(d, base, rounds).len(),
    ensures
        match deformation_gates(d, base, rounds)[i] {
            GateModel::Reset(p, q) => p.anticommutes(d.edge_basis) && q is EdgeQubit,
            GateModel::Measure(p, q, flip) => p.anticommutes(d.edge_basis) && q is EdgeQubit
                && !flip,
            _ => true,
        },
{
    let checks = check_views(d.checks@);
    let basis = conjugate(d.edge_basis);
    let edges = touched_edges(checks);
    let a = rounds_of(base, rounds);
    let b = resets(basis, edges);
    let c = rounds_of(checks, rounds);
    let r = readouts(basis, edges);
    let m = all_byproducts(edges, d.corrections@);
    let all = deformation_gates(d, base, rounds);
    assert(all =~= a + b + c + (r + m));
    lemma_in_order_exists(only_edges(check_qubits(checks)));
    assert forall|k: int| 0 <= k < edges.len() implies (#[trigger] edges[k]) is EdgeQubit by {
        assert(edges.contains(edges[k]));
        lemma_only_edges(check_qubits(checks), edges[k]);
    }
    lemma_all_correct(edges, d.corrections@);
    if i < a.len() {
        assert(all[i] == a[i]);
    } else if i < a.len() + b.len() {
        assert(all[i] == b[i - a.len()]);
    } else if i < a.len() + b.len() + c.len() {
        assert(all[i] == c[i - a.len() - b.len()]);
    } else if i < a.len() + b.len() + c.len() + r.len() {
        assert(all[i] == r[i - a.len() - b.len() - c.len()]);
    } else {
        assert(all[i] == m[i - a.len() - b.len() - c.len() - r.len()]);
    }
}

// ---------------------------------------------------------------------------
// Rounds
// ---------------------------------------------------------------------------
/// Detector `i` compares a check with its value one round earlier: its two records are
/// measurements of the same check, as many records apart as a round has.
pub open spec fn compares(
    u: Seq<GateModel<MergedQubit>>,
    i: int,
    checks: Seq<SignedPauli<MergedQubit>>,
    c: int,
) -> bool {
    u[i] matches GateModel::DeclareDetector(at) && at.len() == 2 && at[1] == at[0] + checks.len()
        && at[0] <= checks.len() && record_back(u.take(i), at[0] as int) == Some(
        GateModel::MPP(checks[c]),
    ) && record_back(u.take(i), at[1] as int) == Some(GateModel::MPP(checks[c]))
}

/// What is declared after a round of the checks that follows another: for each check a
/// detector that compares it with the round before.
proof fn lemma_round_compared(
    u: Seq<GateModel<MergedQubit>>,
    checks: Seq<SignedPauli<MergedQubit>>,
    before: Seq<GateModel<MergedQubit>>,
    i: int,
)
    requires
        2 * checks.len() <= usize::MAX,
        recorders(u) == before + one_round(checks),
        u.len() + checks.len() <= i < u.len() + 2 * checks.len(),
    ensures
        compares(
            u + (one_round(checks) + comparisons(checks.len())),
            i,
            checks,
            2 * checks.len() + u.len() - i - 1,
        ),
{
    let m = checks.len();
    let round = one_round(checks);
    let tail = comparisons(m);
    let all = u + (round + tail);
    let j = i - u.len() - m;
    let part = tail.take(j);
    assert(all.take(i) =~= u + round + part);
    lemma_recorders_add(u + round, part);
    lemma_recorders_add(u, round);
    assert forall|k: int| 0 <= k < round.len() implies makes_one(#[trigger] round[k]) by {}
    lemma_all_recorders(round);
    assert forall|k: int| 0 <= k < part.len() implies !makes_one(#[trigger] part[k]) by {
        assert(part[k] == tail[k]);
    }
    lemma_no_recorders(part);
    let made = before + round + round;
    assert(recorders(all.take(i)) =~= made);
    assert(all[i] == tail[j]);
    let c = m - 1 - j;
    assert(made[made.len() - (j + 1)] == round[c]);
    assert(made[made.len() - (m + j + 1)] == round[c]);
}

/// Rounds of checks written out: in every round after the first, every check is compared
/// with its value one round earlier.
#[verifier::spinoff_prover]
pub proof fn law_rounds_compare_every_check(
    checks: Seq<SignedPauli<MergedQubit>>,
    rounds: usize,
    t: nat,
    c: int,
)
    requires
        2 * checks.len() <= usize::MAX,
        1 <= t < rounds,
        0 <= c < checks.len(),
    ensures
        exists|i: int| #[trigger]
            compares(unrolled(rounds_of(checks, rounds)), i, checks, c) && 0 <= i < unrolled(
                rounds_of(checks, rounds),
            ).len() && recorders(unrolled(rounds_of(checks, rounds)).take(i)).len() == (t + 1)
                * checks.len(),
{
    let m = checks.len();
    let round = one_round(checks);
    let body = round + comparisons(m);
    let all = unrolled(rounds_of(checks, rounds));
    lemma_rounds_unrolled(checks, rounds);
    let n = (rounds - 1) as nat;
    assert(all == round + repeated(body, n));
    lemma_repeated_prefix(body, (t - 1) as nat, n);
    lemma_repeated_prefix(body, t, n);
    let u = round + repeated(body, (t - 1) as nat);
    lemma_rounds_recorded(checks, (t - 1) as nat);
    let before = repeated(round, (t - 1) as nat);
    assert(recorders(u) == before + round);
    let i = u.len() + 2 * m - 1 - c;
    lemma_round_compared(u, checks, before, i);
    let v = u + body;
    assert(repeated(body, t) == repeated(body, (t - 1) as nat) + body);
    assert(v =~= round + repeated(body, t));
    assert(all.take(v.len() as int) =~= v) by {
        let r = repeated(body, n);
        assert(r.take(repeated(body, t).len() as int) == repeated(body, t));
        assert(all.take(v.len() as int) =~= round + r.take(repeated(body, t).len() as int));
    }
    assert(all.take(i) =~= v.take(i));
    assert(all[i] == v[i]) by {
        assert(all.take(v.len() as int)[i] == v[i]);
    }
    assert(compares(all, i, checks, c));
    // how many records there are by then
    let tail = comparisons(m).take(i - u.len() - m);
    assert(v.take(i) =~= u + round + tail);
    lemma_recorders_add(u + round, tail);
    lemma_recorders_add(u, round);
    assert forall|k: int| 0 <= k < round.len() implies makes_one(#[trigger] round[k]) by {}
    lemma_all_recorders(round);
    assert forall|k: int| 0 <= k < tail.len() implies !makes_one(#[trigger] tail[k]) by {
        assert(tail[k] == comparisons(m)[k]);
    }
    lemma_no_recorders(tail);
    lemma_repeated_len(round, (t - 1) as nat);
    assert((t - 1) * m + m + m == (t + 1) * m) by (nonlinear_arith);
}

proof fn lemma_repeated_len<T>(s: Seq<T>, n: nat)
    ensures
        repeated(s, n).len() == n * s.len(),
    decreases n,
{
    if n == 0 {
        assert(0 * s.len() == 0);
    } else {
        lemma_repeated_len(s, (n - 1) as nat);
        let m = s.len();
        assert((n - 1) * m + m == n * m) by (nonlinear_arith);
    }
}

proof fn lemma_repeated_prefix<T>(s: Seq<T>, k: nat, n: nat)
    requires
        k <= n,
    ensures
        repeated(s, k).len() <= repeated(s, n).len(),
        repeated(s, n).take(repeated(s, k).len() as int) == repeated(s, k),
    decreases n,
{
    let a = repeated(s, k);
    let b = repeated(s, n);
    if k == n {
        assert(b.take(a.len() as int) =~= a);
    } else {
        let c = repeated(s, (n - 1) as nat);
        lemma_repeated_prefix(s, k, (n - 1) as nat);
        assert(b == c + s);
        assert(b.take(a.len() as int) =~= c.take(a.len() as int));
    }
}

pub(crate) proof fn lemma_rounds_unrolled(checks: Seq<SignedPauli<MergedQubit>>, rounds: usize)
    requires
        rounds >= 1,
    ensures
        unrolled(rounds_of(checks, rounds)) == one_round(checks) + repeated(
            one_round(checks) + comparisons(checks.len()),
            (rounds - 1) as nat,
        ),
{
    let round = one_round(checks);
    let body = round + comparisons(checks.len());
    assert forall|i: int| 0 <= i < round.len() implies !((#[trigger] round[i]) is Repeat) by {}
    assert forall|i: int| 0 <= i < body.len() implies !((#[trigger] body[i]) is Repeat) by {}
    lemma_unrolled_flat(round);
    lemma_unrolled_flat(body);
    if rounds == 1 {
        assert(round + repeated(body, 0) =~= round);
    } else {
        let again = GateModel::Repeat((rounds - 1) as usize, body);
        let s = rounds_of(checks, rounds);
        assert(s.drop_last() =~= round);
        assert(s.last() == again);
        assert(unrolled_gate(again) == repeated(unrolled(body), (rounds - 1) as nat));
    }
}

proof fn lemma_rounds_recorded(checks: Seq<SignedPauli<MergedQubit>>, n: nat)
    ensures
        ({
            let round = one_round(checks);
            let body = round + comparisons(checks.len());
            recorders(round + repeated(body, n)) == repeated(round, n) + round
        }),
    decreases n,
{
    let round = one_round(checks);
    let tail = comparisons(checks.len());
    let body = round + tail;
    assert forall|k: int| 0 <= k < round.len() implies makes_one(#[trigger] round[k]) by {}
    lemma_all_recorders(round);
    assert forall|k: int| 0 <= k < tail.len() implies !makes_one(#[trigger] tail[k]) by {}
    lemma_no_recorders(tail);
    lemma_recorders_add(round, tail);
    assert(recorders(body) =~= round);
    if n == 0 {
        assert(round + repeated(body, 0) =~= round);
        assert(repeated(round, 0) + round =~= round);
    } else {
        lemma_rounds_recorded(checks, (n - 1) as nat);
        let r = repeated(body, (n - 1) as nat);
        assert(round + repeated(body, n) =~= (round + r) + body);
        lemma_recorders_add(round + r, body);
    }
}

} // verus!
