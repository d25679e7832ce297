//! Laws of the checks that a measurement keeps: every stabilizer of every block is measured
//! before, during and after a deformation, on its own block and with its own sign.

use vstd::prelude::*;

#[allow(unused_imports)]
use crate::circuit_to_checks::{
    base_forms, code_forms, code_sites, deformed, graph_for, is_deformation, joint_sites,
    merged_form, merged_forms, only_block, others, pair_deformation, part_of,
    single_deformation, single_statics, stabs_of, third, two_blocks, BlockKind, CodeData,
    Deformation, SupportModel,
};
#[allow(unused_imports)]
use crate::graph::{
    edge_between, is_walk, joined, lemma_edge_between, path_found, AncillaGraph, Edge,
};
#[allow(unused_imports)]
use crate::graph_to_checks::{
    check_views, code_check, conjugate, correction_of, edge_basis, listed_sites, merged_checks,
    path_of, path_qubits, port_of, CorrectionSupport,
};
#[allow(unused_imports)]
use crate::keyed::{has_key, key_lt, key_position, strictly_keyed, OrderedKey};
#[allow(unused_imports)]
use crate::memory::memory_sites;
#[allow(unused_imports)]
use crate::pbc::{
    law_sort_sites, lifted_sites, pauli_at, sort_sites, CodeQubit, MergedCodeQubit, Pauli,
    PhysicalPauliString, PhysicalQubit, Sign, SignedPauli,
};
#[allow(unused_imports)]
use crate::surgery::{Site, SurgeryGraph, SurgeryGraphConfig};

verus! {

/// The check has, on the code qubits of all blocks, the string of one block and nothing else.
pub open spec fn carries(
    check: SignedPauli<MergedCodeQubit<BlockKind>>,
    sites: Seq<Site>,
    kind: BlockKind,
) -> bool {
    &&& check.sign is One
    &&& forall|block: BlockKind, index: usize| #[trigger]
        pauli_at(check.sites, MergedCodeQubit::CodeQubit { block, index }) == if block == kind {
            pauli_at(sites, PhysicalQubit(index))
        } else {
            Pauli::I
        }
}

/// Every entry on `q` has the Pauli `p`, and there is one unless it is the identity.
pub(crate) open spec fn settled<A>(s: Seq<(A, Pauli)>, q: A, p: Pauli) -> bool {
    &&& forall|i: int| 0 <= i < s.len() && (#[trigger] s[i]).0 == q ==> s[i].1 == p
    &&& !(p is I) ==> s.contains((q, p))
}

pub(crate) proof fn lemma_settled<A>(s: Seq<(A, Pauli)>, q: A, p: Pauli)
    requires
        settled(s, q, p),
    ensures
        pauli_at(s, q) == p,
{
    if !(p is I) {
        let i = s.index_of((q, p));
        assert(s[i].0 == q);
        assert(has_key(s, q));
    }
}

pub(crate) proof fn lemma_settled_sorted<A: OrderedKey>(s: Seq<(A, Pauli)>, q: A, p: Pauli)
    requires
        settled(s, q, p),
    ensures
        settled(sort_sites(s), q, p),
{
    broadcast use vstd::seq_lib::group_to_multiset_ensures;

    let t = sort_sites(s);
    law_sort_sites(s);
    assert forall|i: int| 0 <= i < t.len() && (#[trigger] t[i]).0 == q implies t[i].1 == p by {
        assert(t.contains(t[i]));
        assert(t.to_multiset().count(t[i]) > 0);
        assert(s.contains(t[i]));
        let k = s.index_of(t[i]);
        assert(s[k].0 == q);
    }
    if !(p is I) {
        assert(s.to_multiset().count((q, p)) > 0);
        assert(t.contains((q, p)));
    }
}

/// The lifted string of a block has its Paulis on the block's own qubits.
proof fn lemma_lifted(sites: Seq<Site>, kind: BlockKind, block: BlockKind, index: usize)
    requires
        strictly_keyed(sites),
    ensures
        settled(
            lifted_sites(code_sites(sites, kind)),
            MergedCodeQubit::CodeQubit { block, index },
            if block == kind {
                pauli_at(sites, PhysicalQubit(index))
            } else {
                Pauli::I
            },
        ),
{
    let l = lifted_sites(code_sites(sites, kind));
    let q = MergedCodeQubit::CodeQubit { block, index };
    let x = PhysicalQubit(index);
    let p = if block == kind {
        pauli_at(sites, x)
    } else {
        Pauli::I
    };
    assert forall|i: int| 0 <= i < l.len() && (#[trigger] l[i]).0 == q implies l[i].1 == p by {
        assert(sites[i].0 == x);
        assert(has_key(sites, x));
        let k = key_position(sites, x);
        if k < i {
            assert(key_lt(sites[k].0.key(), sites[i].0.key()));
        } else if i < k {
            assert(key_lt(sites[i].0.key(), sites[k].0.key()));
        }
    }
    if !(p is I) {
        let k = key_position(sites, x);
        assert(l[k] == (q, p));
    }
}

/// A lifted string carries its string.
proof fn lemma_merged_carries(sites: Seq<Site>, kind: BlockKind)
    requires
        strictly_keyed(sites),
    ensures
        carries(merged_form(sites, kind), sites, kind),
{
    let check = merged_form(sites, kind);
    assert forall|block: BlockKind, index: usize| #[trigger]
        pauli_at(check.sites, MergedCodeQubit::CodeQubit { block, index }) == if block == kind {
            pauli_at(sites, PhysicalQubit(index))
        } else {
            Pauli::I
        } by {
        lemma_lifted(sites, kind, block, index);
        lemma_settled(
            check.sites,
            MergedCodeQubit::CodeQubit { block, index },
            if block == kind {
                pauli_at(sites, PhysicalQubit(index))
            } else {
                Pauli::I
            },
        );
    }
}

/// A string extended by edge qubits still carries it.
proof fn lemma_extended_carries(
    edges: Seq<Edge>,
    path: Seq<Edge>,
    sites: Seq<Site>,
    kind: BlockKind,
    operator: Seq<(CodeQubit<BlockKind>, Pauli)>,
)
    requires
        strictly_keyed(sites),
    ensures
        carries(
            code_check(
                edges,
                path,
                (SignedPauli { sign: Sign::One, sites: code_sites(sites, kind) }),
                operator,
            ),
            sites,
            kind,
        ),
{
    let stab = SignedPauli { sign: Sign::One, sites: code_sites(sites, kind) };
    let check = code_check(edges, path, stab, operator);
    assert forall|block: BlockKind, index: usize| #[trigger]
        pauli_at(check.sites, MergedCodeQubit::CodeQubit { block, index }) == if block == kind {
            pauli_at(sites, PhysicalQubit(index))
        } else {
            Pauli::I
        } by {
        let q = MergedCodeQubit::CodeQubit { block, index };
        let p = if block == kind {
            pauli_at(sites, PhysicalQubit(index))
        } else {
            Pauli::I
        };
        let l = lifted_sites(code_sites(sites, kind));
        lemma_lifted(sites, kind, block, index);
        if path.len() > 0 {
            let basis = conjugate(edge_basis(operator));
            let more = listed_sites::<BlockKind>(edges, path, basis);
            let all = l + more;
            assert(settled(all, q, p)) by {
                assert forall|i: int| 0 <= i < all.len() && (#[trigger] all[i]).0 == q implies all[i].1
                    == p by {
                    if i < l.len() {
                        assert(l[i].0 == q);
                    } else {
                        assert(more[i - l.len()].0 is EdgeQubit);
                    }
                }
                if !(p is I) {
                    assert(all[l.index_of((q, p))] == (q, p));
                }
            }
            lemma_settled_sorted(all, q, p);
        }
        lemma_settled(check.sites, q, p);
    }
}

/// The stabilizers of a block.
pub open spec fn held_by(codes: CodeData, kind: BlockKind) -> Seq<PhysicalPauliString> {
    if kind is Memory {
        codes.memory.stabilizers@
    } else if kind is Processor {
        codes.processor.stabilizers@
    } else {
        codes.magic.stabilizers@
    }
}

/// Some of the checks carries the stabilizer.
pub open spec fn is_kept(
    checks: Seq<SignedPauli<MergedCodeQubit<BlockKind>>>,
    sites: Seq<Site>,
    kind: BlockKind,
) -> bool {
    exists|k: int| 0 <= k < checks.len() && carries(#[trigger] checks[k], sites, kind)
}

/// The checks before any measurement hold every stabilizer of every block, on its own block,
/// and no others.
pub proof fn law_base_checks_hold_every_stabilizer(codes: CodeData, kind: BlockKind, i: int)
    requires
        0 <= i < held_by(codes, kind).len(),
        strictly_keyed(held_by(codes, kind)[i]@),
    ensures
        is_kept(base_forms(codes), held_by(codes, kind)[i]@, kind),
        base_forms(codes).len() == codes.memory.stabilizers@.len()
            + codes.processor.stabilizers@.len() + codes.magic.stabilizers@.len(),
{
    let a = codes.processor.stabilizers@.len() as int;
    let b = codes.memory.stabilizers@.len() as int;
    let k = if kind is Processor {
        i
    } else if kind is Memory {
        a + i
    } else {
        a + b + i
    };
    lemma_merged_carries(held_by(codes, kind)[i]@, kind);
    assert(base_forms(codes)[k] == merged_form(held_by(codes, kind)[i]@, kind));
}

/// A deformation on one block keeps every stabilizer of every block, extended by edge qubits
/// alone.
pub proof fn law_single_deformations_keep_every_stabilizer<F: Fn(&AncillaGraph) -> usize>(
    codes: CodeData,
    s: SupportModel,
    at: BlockKind,
    distance: usize,
    config: SurgeryGraphConfig,
    expansion: F,
    d: Deformation,
    kind: BlockKind,
    i: int,
)
    requires
        only_block(s, at),
        is_deformation(codes, s, distance, config, expansion, d),
        0 <= i < held_by(codes, kind).len(),
        strictly_keyed(held_by(codes, kind)[i]@),
    ensures
        is_kept(check_views(d.checks@), held_by(codes, kind)[i]@, kind),
{
    assert(single_deformation(codes, s, at, config, expansion, d));
    let sites = held_by(codes, kind)[i]@;
    let operator = code_sites(part_of(s, at), at);
    let stabs = code_forms(stabs_of(codes, at), at);
    let statics = single_statics(codes, at);
    let g = choose|g: SurgeryGraph<BlockKind>| #[trigger]
        graph_for(
            stabs_of(codes, at),
            part_of(s, at),
            at,
            config,
            expansion,
            g,
        ) && deformed(g, stabs, operator, statics, d);
    let own = merged_checks(g, stabs, operator);
    let all = check_views(d.checks@);
    let n = (g.graph@.nodes + g.cycle_checks@.len()) as int;
    lemma_merged_carries(sites, kind);
    if kind == at {
        lemma_extended_carries(g.graph@.edges, path_of(g, i), sites, kind, operator);
        assert(stabs[i] == SignedPauli { sign: Sign::One, sites: code_sites(sites, kind) });
        assert(all[n + i] == code_check(g.graph@.edges, path_of(g, i), stabs[i], operator));
    } else {
        let (a, b) = others(at);
        let k = if kind == a {
            i
        } else {
            stabs_of(codes, a).len() + i
        };
        assert(statics[k] == merged_form(sites, kind));
        assert(all[own.len() + k] == statics[k]);
    }
}

/// A deformation on two blocks keeps every stabilizer of every block, extended by edge qubits
/// alone.
pub proof fn law_pair_deformations_keep_every_stabilizer<F: Fn(&AncillaGraph) -> usize>(
    codes: CodeData,
    s: SupportModel,
    at: BlockKind,
    and: BlockKind,
    distance: usize,
    config: SurgeryGraphConfig,
    expansion: F,
    d: Deformation,
    kind: BlockKind,
    i: int,
)
    requires
        two_blocks(s, at, and),
        is_deformation(codes, s, distance, config, expansion, d),
        0 <= i < held_by(codes, kind).len(),
        strictly_keyed(held_by(codes, kind)[i]@),
    ensures
        is_kept(check_views(d.checks@), held_by(codes, kind)[i]@, kind),
{
    assert(pair_deformation(codes, s, at, and, distance, config, expansion, d));
    let sites = held_by(codes, kind)[i]@;
    let operator = joint_sites(s, at, and);
    let first = code_forms(stabs_of(codes, at), at);
    let stabs = first + code_forms(stabs_of(codes, and), and);
    let left = third(at, and);
    let statics = merged_forms(stabs_of(codes, left), left);
    assert(exists|g: SurgeryGraph<BlockKind>| deformed(g, stabs, operator, statics, d));
    let g = choose|g: SurgeryGraph<BlockKind>| deformed(g, stabs, operator, statics, d);
    let own = merged_checks(g, stabs, operator);
    let all = check_views(d.checks@);
    let n = (g.graph@.nodes + g.cycle_checks@.len()) as int;
    lemma_merged_carries(sites, kind);
    if kind == at || kind == and {
        let k = if kind == at {
            i
        } else {
            first.len() + i
        };
        lemma_extended_carries(g.graph@.edges, path_of(g, k), sites, kind, operator);
        assert(stabs[k] == SignedPauli { sign: Sign::One, sites: code_sites(sites, kind) });
        assert(all[n + k] == code_check(g.graph@.edges, path_of(g, k), stabs[k], operator));
    } else {
        assert(left == kind);
        assert(statics[i] == merged_form(sites, kind));
        assert(all[own.len() + i] == statics[i]);
    }
}

/// The operators that a memory experiment reads act on the memory block, as they are.
pub proof fn law_memory_operators_stay_on_their_block(
    op: SignedPauli<PhysicalQubit>,
    block: BlockKind,
    index: usize,
)
    requires
        strictly_keyed(op.sites),
    ensures
        pauli_at(memory_sites(op), MergedCodeQubit::CodeQubit { block, index }) == if block
            is Memory {
            pauli_at(op.sites, PhysicalQubit(index))
        } else {
            Pauli::I
        },
{
    let l = lifted_sites(code_sites(op.sites, BlockKind::Memory));
    assert(memory_sites(op) =~= l);
    let p = if block is Memory {
        pauli_at(op.sites, PhysicalQubit(index))
    } else {
        Pauli::I
    };
    lemma_lifted(op.sites, BlockKind::Memory, block, index);
    lemma_settled(l, MergedCodeQubit::CodeQubit { block, index }, p);
}

// ---------------------------------------------------------------------------
// Correction paths
// ---------------------------------------------------------------------------
/// An odd number of the edge qubits on the path has one end at `u`.
pub open spec fn odd_at(
    edges: Seq<Edge>,
    path: Seq<MergedCodeQubit<BlockKind>>,
    u: usize,
) -> bool
    decreases path.len(),
{
    if path.len() == 0 {
        false
    } else {
        odd_at(edges, path.drop_last(), u) != match path.last() {
            MergedCodeQubit::EdgeQubit(e) => (edges[e as int].0 == u) != (edges[e as int].1 == u),
            _ => false,
        }
    }
}

proof fn lemma_walk_parity(edges: Seq<Edge>, walk: Seq<usize>, s: usize, u: usize)
    requires
        edges.len() <= usize::MAX,
        is_walk(edges, walk, s, walk.last()),
    ensures
        odd_at(edges, path_qubits::<BlockKind>(edges, walk), u) == ((u == s) != (u
            == walk.last())),
    decreases walk.len(),
{
    let path = path_qubits::<BlockKind>(edges, walk);
    if walk.len() > 1 {
        let front = walk.drop_last();
        let n = walk.len() - 2;
        assert(is_walk(edges, front, s, front.last())) by {
            assert forall|i: int| 0 <= i < front.len() - 1 implies joined(
                edges,
                #[trigger] front[i],
                front[i + 1],
            ) by {
                assert(joined(edges, walk[i], walk[i + 1]));
            }
        }
        lemma_walk_parity(edges, front, s, u);
        assert(path.drop_last() =~= path_qubits::<BlockKind>(edges, front));
        assert(joined(edges, walk[n], walk[n + 1]));
        lemma_edge_between(edges, walk[n], walk[n + 1]);
        assert(path.last() == MergedCodeQubit::<BlockKind>::EdgeQubit(
            edge_between(edges, walk[n], walk[n + 1])->0 as usize,
        ));
        assert(front.last() == walk[n]);
    } else {
        assert(path =~= Seq::empty());
    }
}

proof fn lemma_port(labels: Seq<Option<CodeQubit<BlockKind>>>, q: CodeQubit<BlockKind>)
    requires
        labels.len() <= usize::MAX,
    ensures
        port_of(labels, q) matches Some(v) ==> v < labels.len() && labels[v as int] == Some(q),
    decreases labels.len(),
{
    if labels.len() > 0 {
        lemma_port(labels.drop_last(), q);
    }
}

/// The edges on the path of a correction lead from the port of its qubit to the vertex 0:
/// every other vertex meets an even number of them, and, unless they are one, the two ends an
/// odd number. So flipping the edges on the path flips the checks of the two ends alone.
pub proof fn law_correction_paths_lead_from_port_to_root(
    graph: SurgeryGraph<BlockKind>,
    q: CodeQubit<BlockKind>,
    c: CorrectionSupport<BlockKind>,
    u: usize,
)
    requires
        correction_of(graph, q, c),
        graph.graph@.edges.len() <= usize::MAX,
        graph.labels@.len() <= usize::MAX,
    ensures
        exists|v: usize|
            v < graph.labels@.len() && #[trigger] graph.labels@[v as int] == Some(q) && odd_at(
                graph.graph@.edges,
                c.path@,
                u,
            ) == ((u == v) != (u == 0)),
        c.qubit == (MergedCodeQubit::CodeQubit { block: q.block, index: q.index }),
{
    let edges = graph.graph@.edges;
    lemma_port(graph.labels@, q);
    let v = port_of(graph.labels@, q)->0;
    let p = path_found(graph.graph@.nodes, edges, v, 0)->0;
    lemma_walk_parity(edges, p, v, u);
    assert(graph.labels@[v as int] == Some(q));
}

} // verus!
