//! The checks of a merged code form a stabilizer group, and the measured operator is in
//! it.

use vstd::prelude::*;

#[allow(unused_imports)]
use crate::cellulation::{all_joined, closed_list, simple_list};
#[allow(unused_imports)]
use crate::graph::{
    edge_between, edges_at, joined, lemma_edge_between, lemma_edges_at, touching,
    Edge,
};
#[allow(unused_imports)]
use crate::graph_construction::{cycle_views, ends_at};
#[allow(unused_imports)]
use crate::graph_to_checks::{
    conjugate, edge_basis, edge_sites, listed_sites, merged_checks, path_of, pauli_on,
    port_site, vertex_check, MergedSite,
};
#[allow(unused_imports)]
use crate::keyed::{has_key, key_lt, key_position, strictly_keyed, OrderedKey};
#[allow(unused_imports)]
use crate::pbc::{
    anticommuting_sites, insert_site, law_commute_iff_products_agree, law_product_is_sitewise,
    law_sign_group, law_sort_sorted_sites, lifted_sites, pauli_at, signed_mul, sort_sites,
    string_mul, strings_commute, BlockLabel, CodeQubit, MergedCodeQubit, Pauli, Sign,
    SignedPauli,
};
#[allow(unused_imports)]
use crate::surgery::SurgeryGraph;

verus! {

// ---------------------------------------------------------------------------
// Counting anti-commuting sites
// ---------------------------------------------------------------------------
/// No two sites are on one qubit.
pub open spec fn one_site_each<A>(s: Seq<(A, Pauli)>) -> bool {
    forall|i: int, j: int| 0 <= i < j < s.len() ==> (#[trigger] s[i]).0 != (#[trigger] s[j]).0
}

/// 1 where the site anti-commutes with what `f` has on its qubit.
pub open spec fn site_clash<A>(site: (A, Pauli), f: spec_fn(A) -> Pauli) -> nat {
    if site.1.anticommutes(f(site.0)) {
        1
    } else {
        0
    }
}

/// The number of sites that anti-commute with what `f` has on their qubits.
pub open spec fn site_clashes<A>(s: Seq<(A, Pauli)>, f: spec_fn(A) -> Pauli) -> nat
    decreases s.len(),
{
    if s.len() == 0 {
        0
    } else {
        site_clashes(s.drop_last(), f) + site_clash(s.last(), f)
    }
}

proof fn lemma_clashes_first<A>(s: Seq<(A, Pauli)>, f: spec_fn(A) -> Pauli)
    requires
        s.len() > 0,
    ensures
        site_clashes(s, f) == site_clash(s[0], f) + site_clashes(s.skip(1), f),
    decreases s.len(),
{
    if s.len() > 1 {
        lemma_clashes_first(s.drop_last(), f);
        assert(s.drop_last().skip(1) =~= s.skip(1).drop_last());
    } else {
        assert(s.drop_last() =~= Seq::empty());
        assert(s.skip(1) =~= Seq::empty());
    }
}

proof fn lemma_clashes_add<A>(s: Seq<(A, Pauli)>, t: Seq<(A, Pauli)>, f: spec_fn(A) -> Pauli)
    ensures
        site_clashes(s + t, f) == site_clashes(s, f) + site_clashes(t, f),
    decreases t.len(),
{
    if t.len() > 0 {
        assert((s + t).drop_last() =~= s + t.drop_last());
        lemma_clashes_add(s, t.drop_last(), f);
    } else {
        assert(s + t =~= s);
    }
}

/// Only what is on the sites' own qubits matters.
proof fn lemma_clashes_agree<A>(
    s: Seq<(A, Pauli)>,
    f: spec_fn(A) -> Pauli,
    g: spec_fn(A) -> Pauli,
)
    requires
        forall|i: int| 0 <= i < s.len() ==> site_clash(#[trigger] s[i], f) == site_clash(s[i], g),
    ensures
        site_clashes(s, f) == site_clashes(s, g),
    decreases s.len(),
{
    if s.len() > 0 {
        assert(s.last() == s[s.len() - 1]);
        lemma_clashes_agree(s.drop_last(), f, g);
    }
}

pub proof fn lemma_no_clashes<A>(s: Seq<(A, Pauli)>, f: spec_fn(A) -> Pauli)
    requires
        forall|i: int| 0 <= i < s.len() ==> site_clash(#[trigger] s[i], f) == 0,
    ensures
        site_clashes(s, f) == 0,
    decreases s.len(),
{
    if s.len() > 0 {
        assert(s.last() == s[s.len() - 1]);
        lemma_no_clashes(s.drop_last(), f);
    }
}

proof fn lemma_clashes_insert<A: OrderedKey>(
    s: Seq<(A, Pauli)>,
    site: (A, Pauli),
    f: spec_fn(A) -> Pauli,
)
    ensures
        site_clashes(insert_site(s, site), f) == site_clashes(s, f) + site_clash(site, f),
    decreases s.len(),
{
    if s.len() == 0 || !key_lt(site.0.key(), s.last().0.key()) {
        assert(s.push(site).drop_last() =~= s);
    } else {
        let t = insert_site(s.drop_last(), site);
        lemma_clashes_insert(s.drop_last(), site, f);
        assert(t.push(s.last()).drop_last() =~= t);
    }
}

proof fn lemma_clashes_sorted<A: OrderedKey>(s: Seq<(A, Pauli)>, f: spec_fn(A) -> Pauli)
    ensures
        site_clashes(sort_sites(s), f) == site_clashes(s, f),
    decreases s.len(),
{
    if s.len() > 0 {
        lemma_clashes_sorted(s.drop_last(), f);
        lemma_clashes_insert(sort_sites(s.drop_last()), s.last(), f);
    }
}

// ---------------------------------------------------------------------------
// Sorted strings
// ---------------------------------------------------------------------------
proof fn lemma_insert_strict<A: OrderedKey>(s: Seq<(A, Pauli)>, site: (A, Pauli))
    requires
        strictly_keyed(s),
        forall|i: int| 0 <= i < s.len() ==> (#[trigger] s[i]).0 != site.0,
    ensures
        strictly_keyed(insert_site(s, site)),
        forall|x: (A, Pauli)| #[trigger]
            insert_site(s, site).contains(x) <==> s.contains(x) || x == site,
        s.len() > 0 && key_lt(site.0.key(), s.last().0.key()) ==> forall|i: int|
            0 <= i < insert_site(s.drop_last(), site).len() ==> key_lt(
                (#[trigger] insert_site(s.drop_last(), site)[i]).0.key(),
                s.last().0.key(),
            ),
    decreases s.len(),
{
    let r = insert_site(s, site);
    if s.len() == 0 || !key_lt(site.0.key(), s.last().0.key()) {
        if s.len() > 0 {
            assert(s[s.len() - 1].0 != site.0);
            if s.last().0.key() == site.0.key() {
                A::key_injective(s.last().0, site.0);
            }
        }
        assert forall|i: int, j: int| 0 <= i < j < r.len() implies key_lt(
            (#[trigger] r[i]).0.key(),
            (#[trigger] r[j]).0.key(),
        ) by {
            if j == s.len() && i < s.len() - 1 {
                assert(key_lt(s[i].0.key(), s[s.len() - 1].0.key()));
            }
        }
        assert forall|x: (A, Pauli)| #[trigger] r.contains(x) <==> s.contains(x) || x == site by {
            if s.contains(x) {
                assert(r[s.index_of(x)] == x);
            }
            if x == site {
                assert(r[s.len() as int] == x);
            }
            if r.contains(x) {
                let k = r.index_of(x);
                if k < s.len() {
                    assert(s[k] == x);
                }
            }
        }
    } else {
        let front = s.drop_last();
        let t = insert_site(front, site);
        lemma_insert_strict(front, site);
        assert forall|i: int| 0 <= i < t.len() implies key_lt(
            (#[trigger] t[i]).0.key(),
            s.last().0.key(),
        ) by {
            assert(t.contains(t[i]));
            if front.contains(t[i]) {
                let k = front.index_of(t[i]);
                assert(key_lt(s[k].0.key(), s[s.len() - 1].0.key()));
            }
        }
        assert forall|x: (A, Pauli)| #[trigger] r.contains(x) <==> s.contains(x) || x == site by {
            if s.contains(x) {
                let k = s.index_of(x);
                if k < front.len() {
                    assert(front[k] == x);
                    assert(t.contains(x));
                    assert(r[t.index_of(x)] == x);
                } else {
                    assert(r[t.len() as int] == x);
                }
            }
            if x == site {
                assert(t.contains(x));
                assert(r[t.index_of(x)] == x);
            }
            if r.contains(x) {
                let k = r.index_of(x);
                if k < t.len() {
                    assert(t[k] == x);
                    assert(t.contains(x));
                    if front.contains(x) {
                        assert(s[front.index_of(x)] == x);
                    }
                } else {
                    assert(s[s.len() - 1] == x);
                }
            }
        }
    }
}

/// Sorting sites that are on different qubits.
pub proof fn lemma_sort_strict<A: OrderedKey>(s: Seq<(A, Pauli)>)
    requires
        one_site_each(s),
    ensures
        strictly_keyed(sort_sites(s)),
        forall|x: (A, Pauli)| #[trigger] sort_sites(s).contains(x) <==> s.contains(x),
    decreases s.len(),
{
    if s.len() > 0 {
        let front = s.drop_last();
        let t = sort_sites(front);
        assert forall|i: int, j: int| 0 <= i < j < front.len() implies (#[trigger] front[i]).0 != (
        #[trigger] front[j]).0 by {
            assert(front[i] == s[i] && front[j] == s[j]);
        }
        lemma_sort_strict(front);
        assert forall|i: int| 0 <= i < t.len() implies (#[trigger] t[i]).0 != s.last().0 by {
            assert(t.contains(t[i]));
            let k = front.index_of(t[i]);
            assert(s[k].0 != s[s.len() - 1].0);
        }
        lemma_insert_strict(t, s.last());
        assert forall|x: (A, Pauli)| #[trigger] sort_sites(s).contains(x) <==> s.contains(x) by {
            assert(sort_sites(s).contains(x) <==> t.contains(x) || x == s.last());
            assert(t.contains(x) <==> front.contains(x));
            if front.contains(x) {
                assert(s[front.index_of(x)] == x);
            }
            if x == s.last() {
                assert(s[s.len() - 1] == x);
            }
            if s.contains(x) {
                let k = s.index_of(x);
                if k < front.len() {
                    assert(front[k] == x);
                }
            }
        }
    }
}

/// What a string has on a qubit: what its site there says, or nothing.
pub proof fn lemma_pauli_at<A>(s: Seq<(A, Pauli)>, q: A)
    requires
        one_site_each(s),
    ensures
        has_key(s, q) ==> s.contains((q, pauli_at(s, q))),
        !has_key(s, q) ==> pauli_at(s, q) is I,
        forall|p: Pauli| #[trigger] s.contains((q, p)) ==> pauli_at(s, q) == p,
{
    if has_key(s, q) {
        let k = key_position(s, q);
        assert(s[k] == (q, pauli_at(s, q)));
        assert forall|p: Pauli| #[trigger] s.contains((q, p)) implies pauli_at(s, q) == p by {
            let i = s.index_of((q, p));
            assert(s[i].0 == s[k].0);
        }
    }
    assert forall|p: Pauli| #[trigger] s.contains((q, p)) implies has_key(s, q) by {
        assert(s[s.index_of((q, p))].0 == q);
    }
}

pub proof fn lemma_strict_is_single<A: OrderedKey>(s: Seq<(A, Pauli)>)
    requires
        strictly_keyed(s),
    ensures
        one_site_each(s),
{
    assert forall|i: int, j: int| 0 <= i < j < s.len() implies (#[trigger] s[i]).0 != (
    #[trigger] s[j]).0 by {
        assert(key_lt(s[i].0.key(), s[j].0.key()));
    }
}

/// Sorting does not change what a string has on a qubit.
pub proof fn lemma_sorted_at<A: OrderedKey>(s: Seq<(A, Pauli)>, q: A)
    requires
        one_site_each(s),
    ensures
        pauli_at(sort_sites(s), q) == pauli_at(s, q),
{
    let t = sort_sites(s);
    lemma_sort_strict(s);
    lemma_strict_is_single(t);
    lemma_pauli_at(s, q);
    lemma_pauli_at(t, q);
    if has_key(s, q) {
        assert(t.contains((q, pauli_at(s, q))));
    } else if has_key(t, q) {
        assert(t.contains((q, pauli_at(t, q))));
        assert(s.contains((q, pauli_at(t, q))));
        assert(s[s.index_of((q, pauli_at(t, q)))].0 == q);
    }
}

proof fn lemma_tail_at<A: OrderedKey>(s: Seq<(A, Pauli)>, q: A)
    requires
        strictly_keyed(s),
        s.len() > 0,
        q != s[0].0,
    ensures
        strictly_keyed(s.skip(1)),
        pauli_at(s.skip(1), q) == pauli_at(s, q),
{
    let t = s.skip(1);
    lemma_strict_is_single(s);
    assert(strictly_keyed(t));
    lemma_strict_is_single(t);
    lemma_pauli_at(s, q);
    lemma_pauli_at(t, q);
    if has_key(s, q) {
        let i = s.index_of((q, pauli_at(s, q)));
        assert(t[i - 1] == s[i]);
        assert(t.contains((q, pauli_at(s, q))));
    } else if has_key(t, q) {
        let i = t.index_of((q, pauli_at(t, q)));
        assert(s[i + 1] == t[i]);
    }
}

/// On strings with at most one site per qubit, the anti-commuting sites are those of
/// one string that anti-commute with the other.
pub proof fn lemma_anticommuting_sites<A: OrderedKey>(a: Seq<(A, Pauli)>, b: Seq<(A, Pauli)>)
    requires
        strictly_keyed(a),
        strictly_keyed(b),
    ensures
        anticommuting_sites(a, b) == site_clashes(a, |q: A| pauli_at(b, q)),
    decreases a.len() + b.len(),
{
    let f = |q: A| pauli_at(b, q);
    if a.len() == 0 {
    } else if b.len() == 0 {
        lemma_strict_is_single(b);
        assert forall|i: int| 0 <= i < a.len() implies site_clash(#[trigger] a[i], f) == 0 by {
            lemma_pauli_at(b, a[i].0);
        }
        lemma_no_clashes(a, f);
    } else {
        let ta = a.skip(1);
        let tb = b.skip(1);
        let g = |q: A| pauli_at(tb, q);
        assert(strictly_keyed(ta));
        assert(strictly_keyed(tb));
        lemma_strict_is_single(b);
        lemma_clashes_first(a, f);
        if key_lt(a[0].0.key(), b[0].0.key()) {
            lemma_anticommuting_sites(ta, b);
            lemma_pauli_at(b, a[0].0);
            if has_key(b, a[0].0) {
                let k = key_position(b, a[0].0);
                assert(k > 0 ==> key_lt(b[0].0.key(), b[k].0.key()));
            }
        } else if key_lt(b[0].0.key(), a[0].0.key()) {
            lemma_anticommuting_sites(a, tb);
            assert forall|i: int| 0 <= i < a.len() implies site_clash(#[trigger] a[i], f)
                == site_clash(a[i], g) by {
                assert(i > 0 ==> key_lt(a[0].0.key(), a[i].0.key()));
                lemma_tail_at(b, a[i].0);
            }
            lemma_clashes_agree(a, f, g);
        } else {
            A::key_injective(a[0].0, b[0].0);
            lemma_anticommuting_sites(ta, tb);
            lemma_pauli_at(b, a[0].0);
            assert(b.contains((a[0].0, b[0].1))) by {
                assert(b[0] == (a[0].0, b[0].1));
            }
            assert forall|i: int| 0 <= i < ta.len() implies site_clash(#[trigger] ta[i], f)
                == site_clash(ta[i], g) by {
                assert(ta[i] == a[i + 1]);
                assert(key_lt(a[0].0.key(), a[i + 1].0.key()));
                lemma_tail_at(b, ta[i].0);
            }
            lemma_clashes_agree(ta, f, g);
        }
    }
}

/// Strings given by sites on different qubits commute where an even number of the
/// sites of one anti-commute with the other.
proof fn lemma_commute_by_sites<A: OrderedKey>(a: Seq<(A, Pauli)>, b: Seq<(A, Pauli)>)
    requires
        one_site_each(a),
        one_site_each(b),
    ensures
        strings_commute(sort_sites(a), sort_sites(b)) <==> site_clashes(a, |q: A| pauli_at(b, q))
            % 2 == 0,
{
    let f = |q: A| pauli_at(b, q);
    let g = |q: A| pauli_at(sort_sites(b), q);
    lemma_sort_strict(a);
    lemma_sort_strict(b);
    lemma_anticommuting_sites(sort_sites(a), sort_sites(b));
    lemma_clashes_sorted(a, g);
    assert forall|i: int| 0 <= i < a.len() implies site_clash(#[trigger] a[i], g) == site_clash(
        a[i],
        f,
    ) by {
        lemma_sorted_at(b, a[i].0);
    }
    lemma_clashes_agree(a, g, f);
}


// ---------------------------------------------------------------------------
// Surgery graphs that measure an operator
// ---------------------------------------------------------------------------
/// The operator and a stabilizer anti-commute on the qubit that the label names.
pub open spec fn port_clash<K>(
    label: Option<CodeQubit<K>>,
    stabilizer: Seq<(CodeQubit<K>, Pauli)>,
    operator: Seq<(CodeQubit<K>, Pauli)>,
) -> bool {
    label matches Some(q) && pauli_on(operator, q).anticommutes(pauli_at(stabilizer, q))
}

/// The paths end at the ports where the operator and the stabilizer anti-commute.
pub open spec fn matches_ports<K>(
    labels: Seq<Option<CodeQubit<K>>>,
    path: Seq<Edge>,
    stabilizer: Seq<(CodeQubit<K>, Pauli)>,
    operator: Seq<(CodeQubit<K>, Pauli)>,
) -> bool {
    forall|v: int|
        0 <= v < labels.len() ==> (#[trigger] ends_at(path, v as usize) % 2 == 1 <==> port_clash(
            labels[v],
            stabilizer,
            operator,
        ))
}

/// The graph measures the operator on the code: its cycle checks are cycles, and its
/// path matchings end where the stabilizers anti-commute with the operator.
pub open spec fn measures<K: BlockLabel>(
    graph: SurgeryGraph<K>,
    stabilizers: Seq<SignedPauli<CodeQubit<K>>>,
    operator: Seq<(CodeQubit<K>, Pauli)>,
) -> bool {
    &&& graph.wf()
    &&& forall|k: int|
        0 <= k < graph.cycle_checks@.len() ==> simple_list(
            (#[trigger] graph.cycle_checks@[k])@,
        ) && closed_list(graph.cycle_checks@[k]@)
    &&& forall|k: int|
        0 <= k < stabilizers.len() ==> simple_list(#[trigger] path_of(graph, k)) && matches_ports(
            graph.labels@,
            path_of(graph, k),
            stabilizers[k].sites,
            operator,
        )
}

/// The stabilizers commute with one another, and each has one site per qubit.
pub open spec fn stabilizers_commute<K: BlockLabel>(
    stabilizers: Seq<SignedPauli<CodeQubit<K>>>,
) -> bool {
    &&& forall|k: int| 0 <= k < stabilizers.len() ==> strictly_keyed((#[trigger] stabilizers[k]).sites)
    &&& forall|i: int, j: int|
        #![trigger stabilizers[i], stabilizers[j]]
        0 <= i < stabilizers.len() && 0 <= j < stabilizers.len() ==> strings_commute(
            stabilizers[i].sites,
            stabilizers[j].sites,
        )
}

/// A code qubit of the merged code.
pub open spec fn lifted<K>(q: CodeQubit<K>) -> MergedCodeQubit<K> {
    MergedCodeQubit::CodeQubit { block: q.block, index: q.index }
}

/// The sites of a vertex check, before they are sorted.
spec fn vertex_sites<K>(
    edges: Seq<Edge>,
    v: usize,
    label: Option<CodeQubit<K>>,
    operator: Seq<(CodeQubit<K>, Pauli)>,
) -> Seq<MergedSite<K>> {
    edge_sites(edges, v, edge_basis(operator)) + port_site(label, operator)
}

/// The sites of a cycle check or a code check, before they are sorted. A cycle check
/// has no stabilizer.
spec fn face_sites<K>(
    edges: Seq<Edge>,
    stabilizer: Seq<(CodeQubit<K>, Pauli)>,
    list: Seq<Edge>,
    p: Pauli,
) -> Seq<MergedSite<K>> {
    lifted_sites(stabilizer) + listed_sites(edges, list, p)
}

/// What a vertex check has on each qubit.
proof fn lemma_vertex_sites<K: BlockLabel>(
    edges: Seq<Edge>,
    v: usize,
    label: Option<CodeQubit<K>>,
    operator: Seq<(CodeQubit<K>, Pauli)>,
)
    requires
        edges.len() <= u32::MAX,
    ensures
        one_site_each(vertex_sites(edges, v, label, operator)),
        forall|k: usize| #[trigger]
            pauli_at(vertex_sites(edges, v, label, operator), MergedCodeQubit::EdgeQubit(k)) == if k
                < edges.len() && (edges[k as int].0 == v || edges[k as int].1 == v) {
                edge_basis(operator)
            } else {
                Pauli::I
            },
        forall|q: CodeQubit<K>|
            pauli_at(vertex_sites(edges, v, label, operator), #[trigger] lifted(q)) == if label
                == Some(q) {
                pauli_on(operator, q)
            } else {
                Pauli::I
            },
{
    let at = edges_at(edges, v);
    let p = edge_basis(operator);
    let s = vertex_sites(edges, v, label, operator);
    lemma_edges_at(edges, v);
    assert forall|i: int| 0 <= i < at.len() implies 0 <= #[trigger] at[i] < edges.len() by {
        assert(touching(edges, v, at[i]));
    }
    assert forall|i: int, j: int| 0 <= i < j < s.len() implies (#[trigger] s[i]).0 != (
    #[trigger] s[j]).0 by {
        if j < at.len() {
            assert(at[i] != at[j]);
        }
    }
    assert forall|k: usize| #[trigger] pauli_at(s, MergedCodeQubit::EdgeQubit(k)) == if k
        < edges.len() && (edges[k as int].0 == v || edges[k as int].1 == v) {
        p
    } else {
        Pauli::I
    } by {
        let q = MergedCodeQubit::<K>::EdgeQubit(k);
        lemma_pauli_at(s, q);
        if k < edges.len() && (edges[k as int].0 == v || edges[k as int].1 == v) {
            assert(touching(edges, v, k as int));
            assert(at.contains(k as int));
            assert(s[at.index_of(k as int)] == (q, p));
        } else if has_key(s, q) {
            let i = key_position(s, q);
            assert(s[i].0 == q);
            assert(i < at.len());
            assert(touching(edges, v, at[i]));
        }
    }
    assert forall|c: CodeQubit<K>| pauli_at(s, #[trigger] lifted(c)) == if label == Some(c) {
        pauli_on(operator, c)
    } else {
        Pauli::I
    } by {
        let q = lifted(c);
        lemma_pauli_at(s, q);
        if label == Some(c) {
            assert(s[at.len() as int] == (q, pauli_on(operator, c)));
        } else if has_key(s, q) {
            let i = key_position(s, q);
            assert(s[i].0 == q);
            assert(i == at.len());
        }
    }
}

spec fn is_or_none(x: Pauli, p: Pauli) -> bool {
    x == p || x is I
}

/// What a cycle check or a code check has on each qubit.
proof fn lemma_face_sites<K: BlockLabel>(
    edges: Seq<Edge>,
    stabilizer: Seq<(CodeQubit<K>, Pauli)>,
    list: Seq<Edge>,
    p: Pauli,
)
    requires
        edges.len() <= u32::MAX,
        all_joined(edges, list),
        simple_list(list),
        strictly_keyed(stabilizer),
    ensures
        one_site_each(face_sites(edges, stabilizer, list, p)),
        one_site_each(lifted_sites(stabilizer)),
        forall|k: usize|
            is_or_none(
                #[trigger] pauli_at(
                    face_sites(edges, stabilizer, list, p),
                    MergedCodeQubit::<K>::EdgeQubit(k),
                ),
                p,
            ),
        forall|q: CodeQubit<K>|
            pauli_at(face_sites(edges, stabilizer, list, p), #[trigger] lifted(q)) == pauli_at(
                lifted_sites(stabilizer),
                lifted(q),
            ),
{
    let a = lifted_sites(stabilizer);
    let b = listed_sites::<K>(edges, list, p);
    let s = face_sites(edges, stabilizer, list, p);
    lemma_strict_is_single(stabilizer);
    assert forall|i: int, j: int| 0 <= i < j < a.len() implies (#[trigger] a[i]).0 != (
    #[trigger] a[j]).0 by {
        assert(stabilizer[i].0 != stabilizer[j].0);
    }
    assert forall|i: int, j: int| 0 <= i < j < s.len() implies (#[trigger] s[i]).0 != (
    #[trigger] s[j]).0 by {
        if j < a.len() {
            assert(a[i].0 != a[j].0);
        } else if i >= a.len() {
            let (e, f) = (list[i - a.len()], list[j - a.len()]);
            assert(joined(edges, e.0, e.1));
            assert(joined(edges, f.0, f.1));
            lemma_edge_between(edges, e.0, e.1);
            lemma_edge_between(edges, f.0, f.1);
        }
    }
    assert forall|k: usize|
        is_or_none(#[trigger] pauli_at(s, MergedCodeQubit::<K>::EdgeQubit(k)), p) by {
        let q = MergedCodeQubit::<K>::EdgeQubit(k);
        lemma_pauli_at(s, q);
        if has_key(s, q) {
            let i = s.index_of((q, pauli_at(s, q)));
            assert(i >= a.len());
        }
    }
    assert forall|c: CodeQubit<K>| pauli_at(s, #[trigger] lifted(c)) == pauli_at(a, lifted(c)) by {
        let q = lifted(c);
        lemma_pauli_at(s, q);
        lemma_pauli_at(a, q);
        if has_key(s, q) {
            let i = s.index_of((q, pauli_at(s, q)));
            assert(i < a.len());
            assert(a[i] == s[i]);
        } else if has_key(a, q) {
            let i = key_position(a, q);
            assert(s[i].0 == q);
        }
    }
}

/// An edge qubit of a face anti-commutes with the check of each vertex that the edge
/// ends at.
proof fn lemma_listed_clashes<K: BlockLabel>(
    edges: Seq<Edge>,
    list: Seq<Edge>,
    v: usize,
    label: Option<CodeQubit<K>>,
    operator: Seq<(CodeQubit<K>, Pauli)>,
)
    requires
        edges.len() <= u32::MAX,
        all_joined(edges, list),
        simple_list(list),
    ensures
        site_clashes(
            listed_sites::<K>(edges, list, conjugate(edge_basis(operator))),
            |q: MergedCodeQubit<K>| pauli_at(vertex_sites(edges, v, label, operator), q),
        ) == ends_at(list, v),
    decreases list.len(),
{
    let f = |q: MergedCodeQubit<K>| pauli_at(vertex_sites(edges, v, label, operator), q);
    let p = conjugate(edge_basis(operator));
    let s = listed_sites::<K>(edges, list, p);
    if list.len() > 0 {
        let front = list.drop_last();
        assert(s.drop_last() =~= listed_sites::<K>(edges, front, p));
        assert forall|i: int| 0 <= i < front.len() implies joined(
            edges,
            (#[trigger] front[i]).0,
            front[i].1,
        ) by {
            assert(front[i] == list[i]);
        }
        assert(simple_list(front));
        lemma_listed_clashes(edges, front, v, label, operator);
        let e = list[list.len() - 1];
        assert(e.0 != e.1);
        assert(joined(edges, e.0, e.1));
        lemma_edge_between(edges, e.0, e.1);
        lemma_vertex_sites(edges, v, label, operator);
        let k = edge_between(edges, e.0, e.1)->0 as usize;
        assert(s.last() == (MergedCodeQubit::<K>::EdgeQubit(k), p));
        assert(pauli_at(
            vertex_sites(edges, v, label, operator),
            MergedCodeQubit::<K>::EdgeQubit(k),
        ) == f(MergedCodeQubit::<K>::EdgeQubit(k)));
    }
}

/// A stabilizer anti-commutes with a vertex check at most on the label's qubit.
proof fn lemma_port_clashes<K: BlockLabel>(
    stabilizer: Seq<(CodeQubit<K>, Pauli)>,
    edges: Seq<Edge>,
    v: usize,
    label: Option<CodeQubit<K>>,
    operator: Seq<(CodeQubit<K>, Pauli)>,
)
    requires
        edges.len() <= u32::MAX,
        one_site_each(stabilizer),
    ensures
        site_clashes(
            lifted_sites(stabilizer),
            |q: MergedCodeQubit<K>| pauli_at(vertex_sites(edges, v, label, operator), q),
        ) == if port_clash(label, stabilizer, operator) {
            1nat
        } else {
            0nat
        },
    decreases stabilizer.len(),
{
    let f = |q: MergedCodeQubit<K>| pauli_at(vertex_sites(edges, v, label, operator), q);
    let s = lifted_sites(stabilizer);
    if label is Some {
        lemma_pauli_at(stabilizer, label->0);
    }
    if stabilizer.len() > 0 {
        let front = stabilizer.drop_last();
        let last = stabilizer.last();
        assert(s.drop_last() =~= lifted_sites(front));
        assert forall|i: int, j: int| 0 <= i < j < front.len() implies (#[trigger] front[i]).0 != (
        #[trigger] front[j]).0 by {
            assert(front[i] == stabilizer[i] && front[j] == stabilizer[j]);
        }
        lemma_port_clashes(front, edges, v, label, operator);
        lemma_vertex_sites(edges, v, label, operator);
        assert(s.last() == (lifted(last.0), last.1));
        assert(f(lifted(last.0)) == pauli_at(
            vertex_sites(edges, v, label, operator),
            lifted(last.0),
        ));
        if let Some(q) = label {
            lemma_pauli_at(front, q);
            if last.0 == q {
                assert(stabilizer[stabilizer.len() - 1] == (q, last.1));
                if has_key(front, q) {
                    let i = key_position(front, q);
                    assert(stabilizer[i].0 != stabilizer[stabilizer.len() - 1].0);
                }
            } else if has_key(stabilizer, q) {
                let i = stabilizer.index_of((q, pauli_at(stabilizer, q)));
                assert(front[i] == stabilizer[i]);
            } else if has_key(front, q) {
                assert(stabilizer[key_position(front, q)].0 == q);
            }
        }
    }
}


proof fn lemma_vertices_commute<K: BlockLabel>(
    edges: Seq<Edge>,
    u: usize,
    v: usize,
    a: Option<CodeQubit<K>>,
    b: Option<CodeQubit<K>>,
    operator: Seq<(CodeQubit<K>, Pauli)>,
)
    requires
        edges.len() <= u32::MAX,
    ensures
        strings_commute(
            sort_sites(vertex_sites(edges, u, a, operator)),
            sort_sites(vertex_sites(edges, v, b, operator)),
        ),
{
    let s = vertex_sites(edges, u, a, operator);
    let t = vertex_sites(edges, v, b, operator);
    let f = |q: MergedCodeQubit<K>| pauli_at(t, q);
    let at = edges_at(edges, u);
    lemma_vertex_sites(edges, u, a, operator);
    lemma_vertex_sites(edges, v, b, operator);
    assert forall|i: int| 0 <= i < s.len() implies site_clash(#[trigger] s[i], f) == 0 by {
        if i < at.len() {
            let k = at[i] as usize;
            assert(s[i].0 == MergedCodeQubit::<K>::EdgeQubit(k));
            assert(is_or_none(pauli_at(t, MergedCodeQubit::<K>::EdgeQubit(k)), edge_basis(operator)));
        } else {
            let q = a->0;
            assert(s[i] == (lifted(q), pauli_on(operator, q)));
            assert(is_or_none(pauli_at(t, lifted(q)), pauli_on(operator, q)));
        }
    }
    lemma_no_clashes(s, f);
    lemma_commute_by_sites(s, t);
}

proof fn lemma_face_commutes_with_vertex<K: BlockLabel>(
    edges: Seq<Edge>,
    stabilizer: Seq<(CodeQubit<K>, Pauli)>,
    list: Seq<Edge>,
    v: usize,
    label: Option<CodeQubit<K>>,
    operator: Seq<(CodeQubit<K>, Pauli)>,
)
    requires
        edges.len() <= u32::MAX,
        all_joined(edges, list),
        simple_list(list),
        strictly_keyed(stabilizer),
        ends_at(list, v) % 2 == 1 <==> port_clash(label, stabilizer, operator),
    ensures
        strings_commute(
            sort_sites(face_sites(edges, stabilizer, list, conjugate(edge_basis(operator)))),
            sort_sites(vertex_sites(edges, v, label, operator)),
        ),
{
    let p = conjugate(edge_basis(operator));
    let s = face_sites(edges, stabilizer, list, p);
    let t = vertex_sites(edges, v, label, operator);
    let f = |q: MergedCodeQubit<K>| pauli_at(t, q);
    lemma_face_sites(edges, stabilizer, list, p);
    lemma_vertex_sites(edges, v, label, operator);
    lemma_strict_is_single(stabilizer);
    lemma_clashes_add(lifted_sites(stabilizer), listed_sites::<K>(edges, list, p), f);
    lemma_listed_clashes(edges, list, v, label, operator);
    lemma_port_clashes(stabilizer, edges, v, label, operator);
    lemma_commute_by_sites(s, t);
}

proof fn lemma_lifted_anticommuting<K: BlockLabel>(
    a: Seq<(CodeQubit<K>, Pauli)>,
    b: Seq<(CodeQubit<K>, Pauli)>,
)
    ensures
        anticommuting_sites(lifted_sites(a), lifted_sites(b)) == anticommuting_sites(a, b),
    decreases a.len() + b.len(),
{
    if a.len() > 0 && b.len() > 0 {
        assert(lifted_sites(a).skip(1) =~= lifted_sites(a.skip(1)));
        assert(lifted_sites(b).skip(1) =~= lifted_sites(b.skip(1)));
        lemma_lifted_anticommuting(a.skip(1), b);
        lemma_lifted_anticommuting(a, b.skip(1));
        lemma_lifted_anticommuting(a.skip(1), b.skip(1));
    }
}

proof fn lemma_lifted_strict<K: BlockLabel>(a: Seq<(CodeQubit<K>, Pauli)>)
    requires
        strictly_keyed(a),
    ensures
        strictly_keyed(lifted_sites(a)),
{
    let s = lifted_sites(a);
    assert forall|i: int, j: int| 0 <= i < j < s.len() implies key_lt(
        (#[trigger] s[i]).0.key(),
        (#[trigger] s[j]).0.key(),
    ) by {
        assert(key_lt(a[i].0.key(), a[j].0.key()));
    }
}

proof fn lemma_faces_commute<K: BlockLabel>(
    edges: Seq<Edge>,
    a: Seq<(CodeQubit<K>, Pauli)>,
    b: Seq<(CodeQubit<K>, Pauli)>,
    la: Seq<Edge>,
    lb: Seq<Edge>,
    p: Pauli,
)
    requires
        edges.len() <= u32::MAX,
        all_joined(edges, la),
        all_joined(edges, lb),
        simple_list(la),
        simple_list(lb),
        strictly_keyed(a),
        strictly_keyed(b),
        strings_commute(a, b),
    ensures
        strings_commute(
            sort_sites(face_sites(edges, a, la, p)),
            sort_sites(face_sites(edges, b, lb, p)),
        ),
{
    let s = face_sites(edges, a, la, p);
    let t = face_sites(edges, b, lb, p);
    let (x, y) = (lifted_sites(a), lifted_sites(b));
    let listed = listed_sites::<K>(edges, la, p);
    let f = |q: MergedCodeQubit<K>| pauli_at(t, q);
    let g = |q: MergedCodeQubit<K>| pauli_at(y, q);
    lemma_face_sites(edges, a, la, p);
    lemma_face_sites(edges, b, lb, p);
    lemma_clashes_add(x, listed, f);
    assert forall|i: int| 0 <= i < listed.len() implies site_clash(#[trigger] listed[i], f) == 0 by {
        let k = edge_between(edges, la[i].0, la[i].1)->0 as usize;
        assert(is_or_none(pauli_at(t, MergedCodeQubit::<K>::EdgeQubit(k)), p));
    }
    lemma_no_clashes(listed, f);
    assert forall|i: int| 0 <= i < x.len() implies site_clash(#[trigger] x[i], f) == site_clash(
        x[i],
        g,
    ) by {
        assert(x[i].0 == lifted(a[i].0));
    }
    lemma_clashes_agree(x, f, g);
    lemma_lifted_strict(a);
    lemma_lifted_strict(b);
    lemma_anticommuting_sites(x, y);
    lemma_lifted_anticommuting(a, b);
    lemma_commute_by_sites(s, t);
}

// ---------------------------------------------------------------------------
// The checks commute
// ---------------------------------------------------------------------------
/// The stabilizer of check `i`; none for a cycle check.
spec fn face_stabilizer<K: BlockLabel>(
    graph: SurgeryGraph<K>,
    stabilizers: Seq<SignedPauli<CodeQubit<K>>>,
    i: int,
) -> Seq<(CodeQubit<K>, Pauli)> {
    let first = graph.graph@.nodes + graph.cycle_checks@.len();
    if i < first {
        Seq::empty()
    } else {
        stabilizers[i - first].sites
    }
}

/// The edges of check `i`.
spec fn face_list<K: BlockLabel>(graph: SurgeryGraph<K>, i: int) -> Seq<Edge> {
    let n = graph.graph@.nodes;
    if i < n + graph.cycle_checks@.len() {
        graph.cycle_checks@[i - n]@
    } else {
        path_of(graph, i - n - graph.cycle_checks@.len())
    }
}

/// A check behind the vertex checks is a stabilizer, or none, with the edges of a face.
proof fn lemma_face_of<K: BlockLabel>(
    graph: SurgeryGraph<K>,
    stabilizers: Seq<SignedPauli<CodeQubit<K>>>,
    operator: Seq<(CodeQubit<K>, Pauli)>,
    i: int,
)
    requires
        measures(graph, stabilizers, operator),
        stabilizers_commute(stabilizers),
        graph.graph@.nodes <= i < merged_checks(graph, stabilizers, operator).len(),
    ensures
        merged_checks(graph, stabilizers, operator)[i].sites == sort_sites(
            face_sites(
                graph.graph@.edges,
                face_stabilizer(graph, stabilizers, i),
                face_list(graph, i),
                conjugate(edge_basis(operator)),
            ),
        ),
        all_joined(graph.graph@.edges, face_list(graph, i)),
        simple_list(face_list(graph, i)),
        strictly_keyed(face_stabilizer(graph, stabilizers, i)),
        matches_ports(
            graph.labels@,
            face_list(graph, i),
            face_stabilizer(graph, stabilizers, i),
            operator,
        ),
{
    let edges = graph.graph@.edges;
    let n = graph.graph@.nodes as int;
    let c = graph.cycle_checks@.len() as int;
    let p = conjugate(edge_basis(operator));
    let list = face_list(graph, i);
    let stabilizer = face_stabilizer(graph, stabilizers, i);
    if i < n + c {
        let k = i - n;
        assert(cycle_views(graph.cycle_checks@)[k] == list);
        assert(simple_list(graph.cycle_checks@[k]@));
        assert(face_sites(edges, stabilizer, list, p) =~= listed_sites::<K>(edges, list, p));
        assert forall|v: int| 0 <= v < graph.labels@.len() implies (#[trigger] ends_at(
            list,
            v as usize,
        ) % 2 == 1 <==> port_clash(graph.labels@[v], stabilizer, operator)) by {
            if let Some(q) = graph.labels@[v] {
                lemma_pauli_at(stabilizer, q);
            }
        }
    } else {
        let k = i - n - c;
        assert(stabilizers[k].sites == stabilizer);
        assert(path_of(graph, k) == list);
        if k < graph.path_matching@.len() {
            assert(cycle_views(graph.path_matching@)[k] == list);
        }
        lemma_lifted_strict(stabilizer);
        if list.len() == 0 {
            let x = lifted_sites(stabilizer);
            assert(face_sites(edges, stabilizer, list, p) =~= x);
            assert forall|a: int, b: int| 0 <= a < b < x.len() implies !key_lt(
                (#[trigger] x[b]).0.key(),
                (#[trigger] x[a]).0.key(),
            ) by {
                assert(key_lt(x[a].0.key(), x[b].0.key()));
            }
            law_sort_sorted_sites(x);
        }
    }
}

proof fn lemma_later_face_commutes<K: BlockLabel>(
    graph: SurgeryGraph<K>,
    stabilizers: Seq<SignedPauli<CodeQubit<K>>>,
    operator: Seq<(CodeQubit<K>, Pauli)>,
    i: int,
    j: int,
)
    requires
        measures(graph, stabilizers, operator),
        stabilizers_commute(stabilizers),
        0 <= i < merged_checks(graph, stabilizers, operator).len(),
        graph.graph@.nodes <= j < merged_checks(graph, stabilizers, operator).len(),
    ensures
        strings_commute(
            merged_checks(graph, stabilizers, operator)[j].sites,
            merged_checks(graph, stabilizers, operator)[i].sites,
        ),
{
    let edges = graph.graph@.edges;
    let n = graph.graph@.nodes as int;
    let first = n + graph.cycle_checks@.len();
    lemma_face_of(graph, stabilizers, operator, j);
    let (s, list) = (face_stabilizer(graph, stabilizers, j), face_list(graph, j));
    if i < n {
        assert(ends_at(list, i as usize) % 2 == 1 <==> port_clash(
            graph.labels@[i],
            s,
            operator,
        ));
        lemma_face_commutes_with_vertex(edges, s, list, i as usize, graph.labels@[i], operator);
    } else {
        lemma_face_of(graph, stabilizers, operator, i);
        let t = face_stabilizer(graph, stabilizers, i);
        if i >= first && j >= first {
            assert(stabilizers[j - first].sites == s && stabilizers[i - first].sites == t);
        }
        lemma_faces_commute(
            edges,
            s,
            t,
            list,
            face_list(graph, i),
            conjugate(edge_basis(operator)),
        );
    }
}

/// The checks of a merged code commute with one another, where the graph measures the
/// operator and the stabilizers of the code commute.
pub proof fn law_checks_commute<K: BlockLabel>(
    graph: SurgeryGraph<K>,
    stabilizers: Seq<SignedPauli<CodeQubit<K>>>,
    operator: Seq<(CodeQubit<K>, Pauli)>,
    i: int,
    j: int,
)
    requires
        measures(graph, stabilizers, operator),
        stabilizers_commute(stabilizers),
        0 <= i < merged_checks(graph, stabilizers, operator).len(),
        0 <= j < merged_checks(graph, stabilizers, operator).len(),
    ensures
        strings_commute(
            merged_checks(graph, stabilizers, operator)[i].sites,
            merged_checks(graph, stabilizers, operator)[j].sites,
        ),
{
    let n = graph.graph@.nodes as int;
    let all = merged_checks(graph, stabilizers, operator);
    if i >= n {
        lemma_later_face_commutes(graph, stabilizers, operator, j, i);
    } else if j >= n {
        lemma_later_face_commutes(graph, stabilizers, operator, i, j);
        law_commute_iff_products_agree(all[j].sites, all[i].sites);
    } else {
        lemma_vertices_commute(
            graph.graph@.edges,
            i as usize,
            j as usize,
            graph.labels@[i],
            graph.labels@[j],
            operator,
        );
    }
}


// ---------------------------------------------------------------------------
// The measured operator
// ---------------------------------------------------------------------------
/// The product of signed operators, in order.
pub open spec fn product_of<A: OrderedKey>(ops: Seq<SignedPauli<A>>) -> SignedPauli<A>
    decreases ops.len(),
{
    if ops.len() == 0 {
        SignedPauli { sign: Sign::One, sites: Seq::empty() }
    } else {
        signed_mul(product_of(ops.drop_last()), ops.last())
    }
}

/// No site is the identity.
pub open spec fn no_identities<A>(s: Seq<(A, Pauli)>) -> bool {
    forall|i: int| 0 <= i < s.len() ==> !((#[trigger] s[i]).1 is I)
}

/// Every qubit of the operator labels one vertex, and no other qubit does.
pub open spec fn ports_carry<K>(
    labels: Seq<Option<CodeQubit<K>>>,
    operator: Seq<(CodeQubit<K>, Pauli)>,
) -> bool {
    &&& forall|u: int, v: int|
        0 <= u < v < labels.len() && #[trigger] labels[u] is Some ==> labels[u]
            != #[trigger] labels[v]
    &&& forall|v: int|
        0 <= v < labels.len() ==> (#[trigger] labels[v] matches Some(q) ==> has_key(operator, q))
    &&& forall|i: int| 0 <= i < operator.len() ==> labels.contains(Some((#[trigger] operator[i]).0))
}

/// No edge joins a vertex to itself.
pub open spec fn without_loops(edges: Seq<Edge>) -> bool {
    forall|e: int| 0 <= e < edges.len() ==> (#[trigger] edges[e]).0 != edges[e].1
}

pub proof fn lemma_pauli_on<K>(s: Seq<(CodeQubit<K>, Pauli)>, q: CodeQubit<K>)
    requires
        one_site_each(s),
    ensures
        pauli_on(s, q) == pauli_at(s, q),
    decreases s.len(),
{
    lemma_pauli_at(s, q);
    if s.len() > 0 {
        let t = s.skip(1);
        assert forall|i: int, j: int| 0 <= i < j < t.len() implies (#[trigger] t[i]).0 != (
        #[trigger] t[j]).0 by {
            assert(s[i + 1].0 != s[j + 1].0);
        }
        lemma_pauli_on(t, q);
        lemma_pauli_at(t, q);
        if s[0].0 == q {
            assert(s[0] == (q, s[0].1));
        } else if has_key(s, q) {
            let i = s.index_of((q, pauli_at(s, q)));
            assert(t[i - 1] == s[i]);
        } else if has_key(t, q) {
            assert(s[key_position(t, q) + 1].0 == q);
        }
    }
}

/// Strings that anti-commute on no qubit multiply without a phase.
proof fn lemma_no_phase<A: OrderedKey>(a: Seq<(A, Pauli)>, b: Seq<(A, Pauli)>)
    requires
        anticommuting_sites(a, b) == 0,
    ensures
        string_mul(a, b).sign == Sign::One,
    decreases a.len() + b.len(),
{
    law_sign_group(Sign::One, Sign::One, Sign::One);
    if a.len() == 0 && b.len() == 0 {
    } else if b.len() == 0 || (a.len() > 0 && key_lt(a[0].0.key(), b[0].0.key())) {
        lemma_no_phase(a.skip(1), b);
    } else if a.len() == 0 || key_lt(b[0].0.key(), a[0].0.key()) {
        lemma_no_phase(a, b.skip(1));
    } else {
        lemma_no_phase(a.skip(1), b.skip(1));
    }
}

proof fn lemma_product_identities<A: OrderedKey>(a: Seq<(A, Pauli)>, b: Seq<(A, Pauli)>)
    requires
        no_identities(a),
        no_identities(b),
    ensures
        no_identities(string_mul(a, b).sites),
    decreases a.len() + b.len(),
{
    let (ta, tb) = (a.skip(1), b.skip(1));
    assert(a.len() > 0 ==> no_identities(ta));
    assert(b.len() > 0 ==> no_identities(tb));
    if a.len() == 0 && b.len() == 0 {
    } else if b.len() == 0 || (a.len() > 0 && key_lt(a[0].0.key(), b[0].0.key())) {
        lemma_product_identities(ta, b);
    } else if a.len() == 0 || key_lt(b[0].0.key(), a[0].0.key()) {
        lemma_product_identities(a, tb);
    } else {
        lemma_product_identities(ta, tb);
    }
}

/// A string without identities is told by what it has on each qubit.
proof fn lemma_same_string<A: OrderedKey>(s: Seq<(A, Pauli)>, t: Seq<(A, Pauli)>)
    requires
        strictly_keyed(s),
        strictly_keyed(t),
        no_identities(s),
        no_identities(t),
        forall|q: A| #[trigger] pauli_at(s, q) == pauli_at(t, q),
    ensures
        s == t,
    decreases s.len() + t.len(),
{
    lemma_strict_is_single(s);
    lemma_strict_is_single(t);
    if s.len() > 0 {
        lemma_first_at(s, t);
    }
    if t.len() > 0 {
        lemma_first_at(t, s);
    }
    if s.len() > 0 && t.len() > 0 {
        let (a, b) = (s.skip(1), t.skip(1));
        assert(strictly_keyed(a) && strictly_keyed(b));
        assert(no_identities(a) && no_identities(b));
        lemma_strict_is_single(a);
        lemma_strict_is_single(b);
        A::key_injective(s[0].0, t[0].0);
        assert forall|q: A| #[trigger] pauli_at(a, q) == pauli_at(b, q) by {
            if q == s[0].0 {
                lemma_pauli_at(a, q);
                lemma_pauli_at(b, q);
                if has_key(a, q) {
                    let i = key_position(a, q);
                    assert(s[0].0 != s[i + 1].0);
                }
                if has_key(b, q) {
                    let i = key_position(b, q);
                    assert(t[0].0 != t[i + 1].0);
                }
            } else {
                lemma_tail_at(s, q);
                lemma_tail_at(t, q);
                assert(pauli_at(s, q) == pauli_at(t, q));
            }
        }
        lemma_same_string(a, b);
        assert(s =~= seq![s[0]] + a);
        assert(t =~= seq![t[0]] + b);
    } else {
        assert(s =~= t);
    }
}

proof fn lemma_first_at<A: OrderedKey>(s: Seq<(A, Pauli)>, t: Seq<(A, Pauli)>)
    requires
        strictly_keyed(s),
        strictly_keyed(t),
        no_identities(s),
        s.len() > 0,
        forall|q: A| #[trigger] pauli_at(s, q) == pauli_at(t, q),
    ensures
        t.len() > 0,
        !key_lt(s[0].0.key(), t[0].0.key()),
        s[0].0 == t[0].0 ==> s[0].1 == t[0].1,
{
    let q = s[0].0;
    lemma_strict_is_single(s);
    lemma_strict_is_single(t);
    lemma_pauli_at(s, q);
    lemma_pauli_at(t, q);
    assert(s[0] == (q, s[0].1));
    assert(s.contains((q, s[0].1)));
    assert(pauli_at(s, q) == pauli_at(t, q));
    let k = key_position(t, q);
    assert(k > 0 ==> key_lt(t[0].0.key(), t[k].0.key()));
    if t[0].0 == q {
        assert(t[0] == (q, t[0].1));
        assert(t.contains((q, t[0].1)));
    }
}

/// The edge has exactly one end among the first `n` vertices.
spec fn crossing(e: Edge, n: int) -> bool {
    (e.0 < n) != (e.1 < n)
}

/// The sites of the first vertex checks' product.
spec fn partial_product<K: BlockLabel>(
    graph: SurgeryGraph<K>,
    operator: Seq<(CodeQubit<K>, Pauli)>,
    n: int,
    r: SignedPauli<MergedCodeQubit<K>>,
) -> bool {
    let edges = graph.graph@.edges;
    &&& r.sign == Sign::One
    &&& strictly_keyed(r.sites)
    &&& no_identities(r.sites)
    &&& forall|k: usize| #[trigger]
        pauli_at(r.sites, MergedCodeQubit::<K>::EdgeQubit(k)) == if k < edges.len() && crossing(
            edges[k as int],
            n,
        ) {
            edge_basis(operator)
        } else {
            Pauli::I
        }
    &&& forall|q: CodeQubit<K>|
        pauli_at(r.sites, #[trigger] lifted(q)) == if graph.labels@.take(n).contains(Some(q)) {
            pauli_on(operator, q)
        } else {
            Pauli::I
        }
}

/// The vertices, labels and operator of a graph whose ports carry the operator.
spec fn carries<K: BlockLabel>(
    graph: SurgeryGraph<K>,
    operator: Seq<(CodeQubit<K>, Pauli)>,
) -> bool {
    &&& graph.wf()
    &&& without_loops(graph.graph@.edges)
    &&& strictly_keyed(operator)
    &&& no_identities(operator)
    &&& ports_carry(graph.labels@, operator)
}

/// A vertex check has no identities.
proof fn lemma_vertex_identities<K: BlockLabel>(
    graph: SurgeryGraph<K>,
    operator: Seq<(CodeQubit<K>, Pauli)>,
    n: int,
)
    requires
        carries(graph, operator),
        0 <= n < graph.graph@.nodes,
    ensures
        no_identities(
            sort_sites(
                vertex_sites(graph.graph@.edges, n as usize, graph.labels@[n], operator),
            ),
        ),
{
    let edges = graph.graph@.edges;
    let v = n as usize;
    let label = graph.labels@[n];
    let sites = vertex_sites(edges, v, label, operator);
    let t = sort_sites(sites);
    lemma_vertex_sites(edges, v, label, operator);
    lemma_sort_strict(sites);
    lemma_strict_is_single(operator);
    assert forall|i: int| 0 <= i < t.len() implies !((#[trigger] t[i]).1 is I) by {
        assert(t.contains(t[i]));
        let k = sites.index_of(t[i]);
        if k >= edges_at(edges, v).len() {
            let q = label->0;
            lemma_pauli_on(operator, q);
            lemma_pauli_at(operator, q);
            let j = operator.index_of((q, pauli_at(operator, q)));
            assert(!(operator[j].1 is I));
        }
    }
}

/// The product so far and the next vertex check anti-commute on no qubit.
proof fn lemma_next_is_clear<K: BlockLabel>(
    graph: SurgeryGraph<K>,
    operator: Seq<(CodeQubit<K>, Pauli)>,
    n: int,
    r: SignedPauli<MergedCodeQubit<K>>,
)
    requires
        carries(graph, operator),
        0 <= n < graph.graph@.nodes,
        partial_product(graph, operator, n, r),
    ensures
        anticommuting_sites(
            r.sites,
            sort_sites(
                vertex_sites(graph.graph@.edges, n as usize, graph.labels@[n], operator),
            ),
        ) == 0,
{
    let edges = graph.graph@.edges;
    let v = n as usize;
    let label = graph.labels@[n];
    let p = edge_basis(operator);
    let sites = vertex_sites(edges, v, label, operator);
    let t = sort_sites(sites);
    let a = r.sites;
    let f = |q: MergedCodeQubit<K>| pauli_at(t, q);
    lemma_vertex_sites(edges, v, label, operator);
    lemma_sort_strict(sites);
    lemma_strict_is_single(a);
    assert forall|i: int| 0 <= i < a.len() implies site_clash(#[trigger] a[i], f) == 0 by {
        lemma_pauli_at(a, a[i].0);
        assert(a.contains((a[i].0, a[i].1)));
        lemma_sorted_at(sites, a[i].0);
        match a[i].0 {
            MergedCodeQubit::EdgeQubit(k) => {
                assert(pauli_at(a, MergedCodeQubit::<K>::EdgeQubit(k)) == a[i].1);
                assert(is_or_none(pauli_at(sites, MergedCodeQubit::<K>::EdgeQubit(k)), p));
            },
            MergedCodeQubit::CodeQubit { block, index } => {
                let q = CodeQubit { block, index };
                assert(pauli_at(a, lifted(q)) == a[i].1);
                assert(is_or_none(pauli_at(sites, lifted(q)), pauli_on(operator, q)));
            },
        }
    }
    lemma_no_clashes(a, f);
    lemma_anticommuting_sites(a, t);
}

proof fn lemma_next_edge<K: BlockLabel>(
    graph: SurgeryGraph<K>,
    operator: Seq<(CodeQubit<K>, Pauli)>,
    n: int,
    r: SignedPauli<MergedCodeQubit<K>>,
    k: usize,
)
    requires
        carries(graph, operator),
        0 <= n < graph.graph@.nodes,
        partial_product(graph, operator, n, r),
    ensures
        pauli_at(
            string_mul(
                r.sites,
                sort_sites(
                    vertex_sites(graph.graph@.edges, n as usize, graph.labels@[n], operator),
                ),
            ).sites,
            MergedCodeQubit::<K>::EdgeQubit(k),
        ) == if k < graph.graph@.edges.len() && crossing(graph.graph@.edges[k as int], n + 1) {
            edge_basis(operator)
        } else {
            Pauli::I
        },
{
    let edges = graph.graph@.edges;
    let v = n as usize;
    let label = graph.labels@[n];
    let p = edge_basis(operator);
    let sites = vertex_sites(edges, v, label, operator);
    let q = MergedCodeQubit::<K>::EdgeQubit(k);
    lemma_vertex_sites(edges, v, label, operator);
    lemma_sort_strict(sites);
    law_product_is_sitewise(r.sites, sort_sites(sites), q);
    lemma_sorted_at(sites, q);
    assert(pauli_at(r.sites, MergedCodeQubit::<K>::EdgeQubit(k)) == if k < edges.len() && crossing(
        edges[k as int],
        n,
    ) {
        p
    } else {
        Pauli::I
    });
    assert(pauli_at(sites, MergedCodeQubit::<K>::EdgeQubit(k)) == if k < edges.len() && (
    edges[k as int].0 == v || edges[k as int].1 == v) {
        p
    } else {
        Pauli::I
    });
    if k < edges.len() {
        assert(edges[k as int].0 != edges[k as int].1);
    }
}

proof fn lemma_next_port<K: BlockLabel>(
    graph: SurgeryGraph<K>,
    operator: Seq<(CodeQubit<K>, Pauli)>,
    n: int,
    r: SignedPauli<MergedCodeQubit<K>>,
    q: CodeQubit<K>,
)
    requires
        carries(graph, operator),
        0 <= n < graph.graph@.nodes,
        partial_product(graph, operator, n, r),
    ensures
        pauli_at(
            string_mul(
                r.sites,
                sort_sites(
                    vertex_sites(graph.graph@.edges, n as usize, graph.labels@[n], operator),
                ),
            ).sites,
            lifted(q),
        ) == if graph.labels@.take(n + 1).contains(Some(q)) {
            pauli_on(operator, q)
        } else {
            Pauli::I
        },
{
    let edges = graph.graph@.edges;
    let label = graph.labels@[n];
    let sites = vertex_sites(edges, n as usize, label, operator);
    let taken = graph.labels@.take(n);
    let more = graph.labels@.take(n + 1);
    lemma_vertex_sites(edges, n as usize, label, operator);
    lemma_sort_strict(sites);
    law_product_is_sitewise(r.sites, sort_sites(sites), lifted(q));
    lemma_sorted_at(sites, lifted(q));
    if taken.contains(Some(q)) {
        let u = taken.index_of(Some(q));
        assert(more[u] == Some(q));
        assert(graph.labels@[u] == Some(q));
        assert(graph.labels@[u] != graph.labels@[n]);
    }
    if label == Some(q) {
        assert(more[n] == Some(q));
    }
    if more.contains(Some(q)) {
        let u = more.index_of(Some(q));
        if u < n {
            assert(taken[u] == Some(q));
        }
    }
}

proof fn lemma_next_product<K: BlockLabel>(
    graph: SurgeryGraph<K>,
    operator: Seq<(CodeQubit<K>, Pauli)>,
    n: int,
    r: SignedPauli<MergedCodeQubit<K>>,
)
    requires
        carries(graph, operator),
        0 <= n < graph.graph@.nodes,
        partial_product(graph, operator, n, r),
    ensures
        partial_product(
            graph,
            operator,
            n + 1,
            signed_mul(
                r,
                vertex_check(graph.graph@.edges, n as usize, graph.labels@[n], operator),
            ),
        ),
{
    let edges = graph.graph@.edges;
    let sites = vertex_sites(edges, n as usize, graph.labels@[n], operator);
    let t = sort_sites(sites);
    let m = string_mul(r.sites, t);
    lemma_vertex_sites(edges, n as usize, graph.labels@[n], operator);
    lemma_sort_strict(sites);
    lemma_vertex_identities(graph, operator, n);
    lemma_next_is_clear(graph, operator, n, r);
    lemma_no_phase(r.sites, t);
    lemma_product_identities(r.sites, t);
    law_sign_group(Sign::One, Sign::One, Sign::One);
    law_product_is_sitewise(r.sites, t, MergedCodeQubit::<K>::EdgeQubit(0));
    assert forall|k: usize| #[trigger] pauli_at(m.sites, MergedCodeQubit::<K>::EdgeQubit(k))
        == if k < edges.len() && crossing(edges[k as int], n + 1) {
        edge_basis(operator)
    } else {
        Pauli::I
    } by {
        lemma_next_edge(graph, operator, n, r, k);
    }
    assert forall|q: CodeQubit<K>| pauli_at(m.sites, #[trigger] lifted(q))
        == if graph.labels@.take(n + 1).contains(Some(q)) {
        pauli_on(operator, q)
    } else {
        Pauli::I
    } by {
        lemma_next_port(graph, operator, n, r, q);
    }
}

proof fn lemma_products<K: BlockLabel>(
    graph: SurgeryGraph<K>,
    stabilizers: Seq<SignedPauli<CodeQubit<K>>>,
    operator: Seq<(CodeQubit<K>, Pauli)>,
    n: int,
)
    requires
        carries(graph, operator),
        0 <= n <= graph.graph@.nodes,
    ensures
        partial_product(
            graph,
            operator,
            n,
            product_of(merged_checks(graph, stabilizers, operator).take(n)),
        ),
    decreases n,
{
    let all = merged_checks(graph, stabilizers, operator);
    let r = product_of(all.take(n));
    if n == 0 {
        let none = Seq::<MergedSite<K>>::empty();
        assert(r.sites =~= none);
        assert forall|q: MergedCodeQubit<K>| #[trigger] pauli_at(none, q) is I by {
            lemma_pauli_at(none, q);
        }
    } else {
        lemma_products(graph, stabilizers, operator, n - 1);
        assert(all.take(n).drop_last() =~= all.take(n - 1));
        lemma_next_product(graph, operator, n - 1, product_of(all.take(n - 1)));
    }
}

/// The measured operator is the product of the vertex checks: every edge qubit is in
/// the checks of its two ends and cancels, and each port contributes the operator's
/// Pauli on its code qubit.
pub proof fn law_operator_is_product_of_vertex_checks<K: BlockLabel>(
    graph: SurgeryGraph<K>,
    stabilizers: Seq<SignedPauli<CodeQubit<K>>>,
    operator: Seq<(CodeQubit<K>, Pauli)>,
)
    requires
        graph.wf(),
        without_loops(graph.graph@.edges),
        strictly_keyed(operator),
        no_identities(operator),
        ports_carry(graph.labels@, operator),
    ensures
        product_of(
            merged_checks(graph, stabilizers, operator).take(graph.graph@.nodes as int),
        ) == (SignedPauli { sign: Sign::One, sites: lifted_sites(operator) }),
{
    let n = graph.graph@.nodes as int;
    let edges = graph.graph@.edges;
    let r = product_of(merged_checks(graph, stabilizers, operator).take(n));
    let goal = lifted_sites(operator);
    lemma_products(graph, stabilizers, operator, n);
    lemma_lifted_strict(operator);
    lemma_strict_is_single(goal);
    lemma_strict_is_single(operator);
    assert(graph.labels@.take(n) =~= graph.labels@);
    assert forall|i: int| 0 <= i < goal.len() implies !((#[trigger] goal[i]).1 is I) by {
        assert(!(operator[i].1 is I));
    }
    assert forall|q: MergedCodeQubit<K>| #[trigger] pauli_at(r.sites, q) == pauli_at(goal, q) by {
        lemma_pauli_at(goal, q);
        match q {
            MergedCodeQubit::EdgeQubit(k) => {
                assert(pauli_at(r.sites, MergedCodeQubit::<K>::EdgeQubit(k)) is I) by {
                    if k < edges.len() {
                        assert(edges[k as int].0 < n && edges[k as int].1 < n);
                    }
                }
                if has_key(goal, q) {
                    assert(goal[key_position(goal, q)].0 == q);
                }
            },
            MergedCodeQubit::CodeQubit { block, index } => {
                let c = CodeQubit { block, index };
                assert(q == lifted(c));
                lemma_pauli_on(operator, c);
                lemma_pauli_at(operator, c);
                if has_key(operator, c) {
                    let i = operator.index_of((c, pauli_at(operator, c)));
                    assert(graph.labels@.contains(Some(operator[i].0)));
                    assert(goal[i] == (q, pauli_at(operator, c)));
                } else {
                    if graph.labels@.contains(Some(c)) {
                        let v = graph.labels@.index_of(Some(c));
                        assert(graph.labels@[v] == Some(c));
                    }
                    if has_key(goal, q) {
                        assert(operator[key_position(goal, q)].0 == c);
                    }
                }
            },
        }
    }
    lemma_same_string(r.sites, goal);
}

} // verus!
