//! The stabilizers of the merged code that a surgery graph stands for.

use vstd::prelude::*;

use crate::cellulation::all_joined;
use crate::graph::{AncillaGraph, Edge};
#[allow(unused_imports)]
use crate::graph::{
    edge_between, edges_at, is_walk, joined, lemma_edge_between, path_found, reachable,
};
#[allow(unused_imports)]
use crate::graph_construction::cycle_views;
#[allow(unused_imports)]
use crate::keyed::OrderedKey;
use crate::pbc::{
    lift_code_to_merged, BlockLabel, CodePauli, CodeQubit, GraphPauli, MergedCodeQubit, Pauli,
    PauliAxis, PauliString, Sign,
};
#[allow(unused_imports)]
use crate::pbc::{lifted_sites, sort_sites, SignedPauli};
use crate::surgery::SurgeryGraph;

verus! {

/// A site of the merged code.
pub type MergedSite<K> = (MergedCodeQubit<K>, Pauli);

/// The Pauli that the vertex checks put on edge qubits: X where the operator has an X
/// or Y factor, else Z. The byproduct of the split is tracked correctly in this basis.
pub open spec fn edge_basis<K>(sites: Seq<(CodeQubit<K>, Pauli)>) -> Pauli {
    if exists|i: int| 0 <= i < sites.len() && ((#[trigger] sites[i]).1 is X || sites[i].1 is Y) {
        Pauli::X
    } else {
        Pauli::Z
    }
}

/// The other edge basis, which anticommutes.
pub open spec fn conjugate(p: Pauli) -> Pauli {
    if p is X {
        Pauli::Z
    } else {
        Pauli::X
    }
}

/// The Pauli that the vertex checks put on edge qubits.
pub fn operator_edge_basis<K: BlockLabel>(operator: &CodePauli<K>) -> (r: Pauli)
    ensures
        r == edge_basis(operator@.sites),
{
    let sites = operator.pauli_string.sites();
    let mut i: usize = 0;
    while i < sites.len()
        invariant
            i <= sites@.len(),
            sites@ == operator@.sites,
            forall|k: int|
                0 <= k < i ==> !((#[trigger] sites@[k]).1 is X) && !(sites@[k].1 is Y),
        decreases sites@.len() - i,
    {
        let p = sites[i].1;
        if p == Pauli::X || p == Pauli::Y {
            assert(sites@[i as int].1 is X || sites@[i as int].1 is Y);
            return Pauli::X;
        }
        i = i + 1;
    }
    Pauli::Z
}

/// The Pauli on the cycle and code checks, given the one on the vertex checks.
pub fn conjugate_basis(p: Pauli) -> (r: Pauli)
    requires
        p is X || p is Z,
    ensures
        r == conjugate(p),
{
    if p == Pauli::X {
        Pauli::Z
    } else {
        Pauli::X
    }
}

/// The Pauli of the operator on `q`; the identity if it has none.
pub open spec fn pauli_on<K>(sites: Seq<(CodeQubit<K>, Pauli)>, q: CodeQubit<K>) -> Pauli
    decreases sites.len(),
{
    if sites.len() == 0 {
        Pauli::I
    } else if sites[0].0 == q {
        sites[0].1
    } else {
        pauli_on(sites.skip(1), q)
    }
}

/// The edge qubits at `v` with the Pauli `p`.
pub open spec fn edge_sites<K>(edges: Seq<Edge>, v: usize, p: Pauli) -> Seq<MergedSite<K>> {
    let at = edges_at(edges, v);
    Seq::new(at.len(), |i: int| (MergedCodeQubit::EdgeQubit(at[i] as usize), p))
}

/// The code qubit that a label names, with the operator's Pauli on it.
pub open spec fn port_site<K>(
    label: Option<CodeQubit<K>>,
    operator: Seq<(CodeQubit<K>, Pauli)>,
) -> Seq<MergedSite<K>> {
    match label {
        Some(q) => seq![(
            MergedCodeQubit::CodeQubit { block: q.block, index: q.index },
            pauli_on(operator, q),
        )],
        None => Seq::empty(),
    }
}

/// The check of vertex `v`: the edge basis on every edge there and, at a port, the
/// operator's Pauli on the port's code qubit.
pub open spec fn vertex_check<K: BlockLabel>(
    edges: Seq<Edge>,
    v: usize,
    label: Option<CodeQubit<K>>,
    operator: Seq<(CodeQubit<K>, Pauli)>,
) -> SignedPauli<MergedCodeQubit<K>> {
    SignedPauli {
        sign: Sign::One,
        sites: sort_sites(
            edge_sites(edges, v, edge_basis(operator)) + port_site(label, operator),
        ),
    }
}

/// The edge qubits of listed edges with the Pauli `p`.
pub open spec fn listed_sites<K>(edges: Seq<Edge>, list: Seq<Edge>, p: Pauli) -> Seq<
    MergedSite<K>,
> {
    Seq::new(
        list.len(),
        |i: int|
            (
                MergedCodeQubit::EdgeQubit(
                    edge_between(edges, list[i].0, list[i].1)->0 as usize,
                ),
                p,
            ),
    )
}

/// The check of a cycle: the conjugate basis on every edge of it.
pub open spec fn cycle_check<K: BlockLabel>(
    edges: Seq<Edge>,
    cycle: Seq<Edge>,
    operator: Seq<(CodeQubit<K>, Pauli)>,
) -> SignedPauli<MergedCodeQubit<K>> {
    SignedPauli {
        sign: Sign::One,
        sites: sort_sites(listed_sites(edges, cycle, conjugate(edge_basis(operator)))),
    }
}

/// A code stabilizer extended by the conjugate basis on its path-matching edges.
pub open spec fn code_check<K: BlockLabel>(
    edges: Seq<Edge>,
    path: Seq<Edge>,
    stabilizer: SignedPauli<CodeQubit<K>>,
    operator: Seq<(CodeQubit<K>, Pauli)>,
) -> SignedPauli<MergedCodeQubit<K>> {
    SignedPauli {
        sign: stabilizer.sign,
        sites: if path.len() == 0 {
            lifted_sites(stabilizer.sites)
        } else {
            sort_sites(
                lifted_sites(stabilizer.sites) + listed_sites(
                    edges,
                    path,
                    conjugate(edge_basis(operator)),
                ),
            )
        },
    }
}

/// The path matching of stabilizer `i`; empty where none is listed.
pub open spec fn path_of<K>(graph: SurgeryGraph<K>, i: int) -> Seq<Edge> {
    if i < graph.path_matching@.len() {
        graph.path_matching@[i]@
    } else {
        Seq::empty()
    }
}

/// The contents of signed Pauli operators.
pub open spec fn axis_views<K: BlockLabel>(axes: Seq<CodePauli<K>>) -> Seq<
    SignedPauli<CodeQubit<K>>,
> {
    Seq::new(axes.len(), |i: int| axes[i]@)
}

pub open spec fn check_views<K: BlockLabel>(checks: Seq<GraphPauli<K>>) -> Seq<
    SignedPauli<MergedCodeQubit<K>>,
> {
    Seq::new(checks.len(), |i: int| checks[i]@)
}

/// The checks of the merged code: of the vertices, of the cycles, and the code
/// stabilizers.
pub open spec fn merged_checks<K: BlockLabel>(
    graph: SurgeryGraph<K>,
    stabilizers: Seq<SignedPauli<CodeQubit<K>>>,
    operator: Seq<(CodeQubit<K>, Pauli)>,
) -> Seq<SignedPauli<MergedCodeQubit<K>>> {
    let edges = graph.graph@.edges;
    Seq::new(
        graph.graph@.nodes,
        |v: int| vertex_check(edges, v as usize, graph.labels@[v], operator),
    ) + Seq::new(
        graph.cycle_checks@.len(),
        |i: int| cycle_check(edges, graph.cycle_checks@[i]@, operator),
    ) + Seq::new(
        stabilizers.len(),
        |i: int| code_check(edges, path_of(graph, i), stabilizers[i], operator),
    )
}

fn find_pauli_on<K: BlockLabel>(sites: &Vec<(CodeQubit<K>, Pauli)>, q: &CodeQubit<K>) -> (r: Pauli)
    ensures
        r == pauli_on(sites@, *q),
{
    let mut i: usize = 0;
    assert(sites@.skip(0) =~= sites@);
    while i < sites.len()
        invariant
            i <= sites@.len(),
            pauli_on(sites@, *q) == pauli_on(sites@.skip(i as int), *q),
        decreases sites@.len() - i,
    {
        assert(sites@.skip(i as int)[0] == sites@[i as int]);
        if sites[i].0.same(q) {
            return sites[i].1;
        }
        assert(sites@.skip(i as int).skip(1) =~= sites@.skip(i + 1));
        i = i + 1;
    }
    Pauli::I
}

/// Push the edge qubits of listed edges.
fn push_listed<K: BlockLabel>(
    g: &AncillaGraph,
    list: &Vec<Edge>,
    p: Pauli,
    out: &mut Vec<MergedSite<K>>,
)
    requires
        all_joined(g@.edges, list@),
    ensures
        final(out)@ == old(out)@ + listed_sites::<K>(g@.edges, list@, p),
{
    let ghost before = out@;
    let ghost all = listed_sites::<K>(g@.edges, list@, p);
    let n: usize = g.node_count();
    assert(before + all.take(0) =~= before);
    for i in 0..list.len()
        invariant
            n == g@.nodes,
            g@.wf(),
            all_joined(g@.edges, list@),
            all == listed_sites::<K>(g@.edges, list@, p),
            out@ == before + all.take(i as int),
    {
        let (a, b) = list[i];
        proof {
            assert(list@[i as int] == (a, b));
            assert(joined(g@.edges, list@[i as int].0, list@[i as int].1));
            lemma_edge_between(g@.edges, a, b);
            let e = edge_between(g@.edges, a, b)->0;
            assert(g@.edges[e].0 < g@.nodes && g@.edges[e].1 < g@.nodes);
        }
        match g.find_edge(a, b) {
            Some(e) => {
                out.push((MergedCodeQubit::EdgeQubit(e), p));
            },
            None => {},
        }
        assert(out@ =~= before + all.take(i + 1));
    }
    assert(all.take(all.len() as int) =~= all);
}

/// The check of vertex `v`.
fn vertex_axis<K: BlockLabel>(
    graph: &SurgeryGraph<K>,
    v: usize,
    operator: &Vec<(CodeQubit<K>, Pauli)>,
    basis: Pauli,
) -> (r: GraphPauli<K>)
    requires
        graph.wf(),
        v < graph.graph@.nodes,
        basis == edge_basis(operator@),
    ensures
        r@ == vertex_check(graph.graph@.edges, v, graph.labels@[v as int], operator@),
{
    let at = graph.graph.edges(v);
    let ghost edges = graph.graph@.edges;
    let ghost all = edge_sites::<K>(edges, v, basis);
    let mut pairs: Vec<MergedSite<K>> = Vec::new();
    for i in 0..at.len()
        invariant
            edges == graph.graph@.edges,
            all == edge_sites::<K>(edges, v, basis),
            at@.len() == edges_at(edges, v).len(),
            forall|k: int| 0 <= k < at@.len() ==> #[trigger] at@[k] == edges_at(edges, v)[k],
            pairs@ == all.take(i as int),
    {
        pairs.push((MergedCodeQubit::EdgeQubit(at[i]), basis));
        assert(pairs@ =~= all.take(i + 1));
    }
    assert(all.take(all.len() as int) =~= all);
    match &graph.labels[v] {
        Some(q) => {
            let p = find_pauli_on(operator, q);
            pairs.push((MergedCodeQubit::CodeQubit { block: q.block, index: q.index }, p));
        },
        None => {},
    }
    assert(pairs@ =~= all + port_site(graph.labels@[v as int], operator@));
    PauliAxis { sign: Sign::One, pauli_string: PauliString::new(pairs) }
}

/// The check of a code stabilizer.
fn code_axis<K: BlockLabel>(
    graph: &SurgeryGraph<K>,
    i: usize,
    stabilizer: &CodePauli<K>,
    operator: &Vec<(CodeQubit<K>, Pauli)>,
    cycle_edge: Pauli,
) -> (r: GraphPauli<K>)
    requires
        graph.wf(),
        cycle_edge == conjugate(edge_basis(operator@)),
    ensures
        r@ == code_check(graph.graph@.edges, path_of(*graph, i as int), stabilizer@, operator@),
{
    let lifted = lift_code_to_merged(stabilizer);
    if i >= graph.path_matching.len() || graph.path_matching[i].len() == 0 {
        return lifted;
    }
    let path = &graph.path_matching[i];
    let sites = lifted.pauli_string.sites();
    let mut pairs: Vec<MergedSite<K>> = Vec::new();
    for k in 0..sites.len()
        invariant
            pairs@ == sites@.take(k as int),
    {
        pairs.push(sites[k]);
        assert(pairs@ =~= sites@.take(k + 1));
    }
    assert(sites@.take(sites@.len() as int) =~= sites@);
    proof {
        assert(cycle_views(graph.path_matching@)[i as int] == path@);
    }
    push_listed(&graph.graph, path, cycle_edge, &mut pairs);
    PauliAxis { sign: stabilizer.sign, pauli_string: PauliString::new(pairs) }
}

/// The stabilizers of the merged code, from a surgery graph, the code stabilizers and
/// the measured operator. The qubits of the merged code are the graph's edges and the
/// code qubits. `code_stabilizers` is in the order of the graph's path matchings.
pub fn graph_to_checks<K: BlockLabel>(
    graph: &SurgeryGraph<K>,
    code_stabilizers: &Vec<CodePauli<K>>,
    operator: &CodePauli<K>,
) -> (checks: Vec<GraphPauli<K>>)
    requires
        graph.wf(),
    ensures
        check_views(checks@) == merged_checks(
            *graph,
            axis_views(code_stabilizers@),
            operator@.sites,
        ),
{
    let vertex_edge = operator_edge_basis(operator);
    let cycle_edge = conjugate_basis(vertex_edge);
    let op = operator.pauli_string.sites();
    let n: usize = graph.graph.node_count();
    let ghost edges = graph.graph@.edges;
    let ghost goal = merged_checks(*graph, axis_views(code_stabilizers@), op@);
    let mut checks: Vec<GraphPauli<K>> = Vec::new();
    for v in 0..n
        invariant
            n == graph.graph@.nodes,
            graph.wf(),
            vertex_edge == edge_basis(op@),
            goal == merged_checks(*graph, axis_views(code_stabilizers@), op@),
            check_views(checks@) == goal.take(v as int),
    {
        let check = vertex_axis(graph, v, op, vertex_edge);
        proof {
            assert(goal[v as int] == check@);
            assert(check_views(checks@.push(check)) =~= check_views(checks@).push(check@));
            assert(goal.take(v + 1) =~= goal.take(v as int).push(check@));
        }
        checks.push(check);
    }
    let n_cycles: usize = graph.cycle_checks.len();
    for i in 0..n_cycles
        invariant
            n == graph.graph@.nodes,
            n_cycles == graph.cycle_checks@.len(),
            graph.wf(),
            cycle_edge == conjugate(edge_basis(op@)),
            edges == graph.graph@.edges,
            goal == merged_checks(*graph, axis_views(code_stabilizers@), op@),
            check_views(checks@) == goal.take(n + i),
    {
        let mut pairs: Vec<MergedSite<K>> = Vec::new();
        proof {
            assert(cycle_views(graph.cycle_checks@)[i as int] == graph.cycle_checks@[i as int]@);
            assert(all_joined(edges, graph.cycle_checks@[i as int]@));
        }
        push_listed(&graph.graph, &graph.cycle_checks[i], cycle_edge, &mut pairs);
        assert(pairs@ =~= listed_sites::<K>(edges, graph.cycle_checks@[i as int]@, cycle_edge));
        let check = PauliAxis { sign: Sign::One, pauli_string: PauliString::new(pairs) };
        proof {
            assert(goal[n + i] == check@);
            assert(check_views(checks@.push(check)) =~= check_views(checks@).push(check@));
            assert(goal.take(n + i + 1) =~= goal.take(n + i).push(check@));
        }
        checks.push(check);
    }
    for i in 0..code_stabilizers.len()
        invariant
            n == graph.graph@.nodes,
            n_cycles == graph.cycle_checks@.len(),
            graph.wf(),
            cycle_edge == conjugate(edge_basis(op@)),
            goal == merged_checks(*graph, axis_views(code_stabilizers@), op@),
            check_views(checks@) == goal.take(n + n_cycles + i),
    {
        let check = code_axis(graph, i, &code_stabilizers[i], op, cycle_edge);
        proof {
            assert(axis_views(code_stabilizers@)[i as int] == code_stabilizers@[i as int]@);
            assert(goal[n + n_cycles + i] == check@);
            assert(check_views(checks@.push(check)) =~= check_views(checks@).push(check@));
            assert(goal.take(n + n_cycles + i + 1) =~= goal.take(n + n_cycles + i).push(check@));
        }
        checks.push(check);
    }
    assert(goal.take(goal.len() as int) =~= goal);
    checks
}

// ---------------------------------------------------------------------------
// Corrections
// ---------------------------------------------------------------------------
/// A code qubit with the edge qubits on a path from its port to vertex 0.
pub struct CorrectionSupport<K> {
    pub qubit: MergedCodeQubit<K>,
    pub path: Vec<MergedCodeQubit<K>>,
}

/// The first vertex labelled with `q`.
pub open spec fn port_of<K>(labels: Seq<Option<CodeQubit<K>>>, q: CodeQubit<K>) -> Option<usize>
    decreases labels.len(),
{
    if labels.len() == 0 {
        None
    } else {
        match port_of(labels.drop_last(), q) {
            Some(v) => Some(v),
            None => if labels.last() == Some(q) {
                Some((labels.len() - 1) as usize)
            } else {
                None
            },
        }
    }
}

/// The edge qubits along a path of vertices.
pub open spec fn path_qubits<K>(edges: Seq<Edge>, path: Seq<usize>) -> Seq<MergedCodeQubit<K>> {
    Seq::new(
        if path.len() == 0 {
            0
        } else {
            (path.len() - 1) as nat
        },
        |i: int|
            MergedCodeQubit::EdgeQubit(edge_between(edges, path[i], path[i + 1])->0 as usize),
    )
}

/// The correction of a code qubit, where it labels a port and a path leads from there
/// to vertex 0.
pub open spec fn correction_of<K>(graph: SurgeryGraph<K>, q: CodeQubit<K>, c: CorrectionSupport<K>) -> bool {
    &&& port_of(graph.labels@, q) matches Some(v)
    &&& path_found(graph.graph@.nodes, graph.graph@.edges, v, 0) matches Some(p)
    &&& is_walk(graph.graph@.edges, p, v, 0)
    &&& forall|walk: Seq<usize>| #[trigger]
        is_walk(graph.graph@.edges, walk, v, 0) ==> p.len() <= walk.len()
    &&& c.qubit == (MergedCodeQubit::CodeQubit { block: q.block, index: q.index })
    &&& c.path@ == path_qubits::<K>(graph.graph@.edges, p)
}

/// The code qubit labels a port from which vertex 0 can be reached.
pub open spec fn correctable<K>(graph: SurgeryGraph<K>, q: CodeQubit<K>) -> bool {
    port_of(graph.labels@, q) matches Some(v) && reachable(graph.graph@.edges, v, 0)
}

fn find_port<K: BlockLabel>(labels: &Vec<Option<CodeQubit<K>>>, q: &CodeQubit<K>) -> (r: Option<usize>)
    ensures
        r == port_of(labels@, *q),
        r matches Some(v) ==> v < labels@.len(),
{
    let mut v: usize = 0;
    assert(labels@.take(0) =~= Seq::empty());
    while v < labels.len()
        invariant
            v <= labels@.len(),
            port_of(labels@.take(v as int), *q) is None,
        decreases labels@.len() - v,
    {
        assert(labels@.take(v + 1).drop_last() =~= labels@.take(v as int));
        if let Some(l) = &labels[v] {
            if l.same(q) {
                proof {
                    lemma_port_prefix(labels@, *q, v + 1);
                }
                return Some(v);
            }
        }
        v = v + 1;
    }
    assert(labels@.take(labels@.len() as int) =~= labels@);
    None
}

proof fn lemma_port_prefix<K>(labels: Seq<Option<CodeQubit<K>>>, q: CodeQubit<K>, n: int)
    requires
        0 <= n <= labels.len(),
        port_of(labels.take(n), q) is Some,
    ensures
        port_of(labels, q) == port_of(labels.take(n), q),
    decreases labels.len() - n,
{
    if n < labels.len() {
        assert(labels.take(n + 1).drop_last() =~= labels.take(n));
        lemma_port_prefix(labels, q, n + 1);
    } else {
        assert(labels.take(n) =~= labels);
    }
}

/// The edge qubits on a shortest path from `source` to vertex 0; `None` if there is no
/// path.
pub fn edge_path_to_root<K: BlockLabel>(g: &AncillaGraph, source: usize) -> (r: Option<
    Vec<MergedCodeQubit<K>>,
>)
    requires
        source < g@.nodes,
    ensures
        r is Some <==> reachable(g@.edges, source, 0),
        r matches Some(qubits) ==> path_found(g@.nodes, g@.edges, source, 0) matches Some(p)
            && is_walk(g@.edges, p, source, 0) && (forall|walk: Seq<usize>| #[trigger]
            is_walk(g@.edges, walk, source, 0) ==> p.len() <= walk.len()) && qubits@
            == path_qubits::<K>(g@.edges, p),
{
    let n: usize = g.node_count();
    match g.shortest_path(source, 0) {
        None => None,
        Some(p) => {
            let mut qubits: Vec<MergedCodeQubit<K>> = Vec::new();
            let ghost all = path_qubits::<K>(g@.edges, p@);
            assert(is_walk(g@.edges, p@, source, 0));
            let mut i: usize = 1;
            while i < p.len()
                invariant
                    n == g@.nodes,
                    g@.wf(),
                    is_walk(g@.edges, p@, source, 0),
                    1 <= i <= p@.len(),
                    all == path_qubits::<K>(g@.edges, p@),
                    qubits@ == all.take(i - 1),
                decreases p@.len() - i,
            {
                let (a, b) = (p[i - 1], p[i]);
                proof {
                    assert(joined(g@.edges, p@[i - 1], p@[i - 1 + 1]));
                    lemma_edge_between(g@.edges, a, b);
                    let e = edge_between(g@.edges, a, b)->0;
                    assert(g@.edges[e].0 < g@.nodes && g@.edges[e].1 < g@.nodes);
                }
                match g.find_edge(a, b) {
                    Some(e) => {
                        qubits.push(MergedCodeQubit::EdgeQubit(e));
                    },
                    None => {},
                }
                assert(qubits@ =~= all.take(i as int));
                i = i + 1;
            }
            assert(all.take(all.len() as int) =~= all);
            Some(qubits)
        },
    }
}

/// The corrections of the operator's qubits, one each in order; `None` if some qubit
/// labels no port, or no path leads from there to vertex 0.
pub fn try_correction_support<K: BlockLabel>(
    graph: &SurgeryGraph<K>,
    operator: &CodePauli<K>,
) -> (r: Option<Vec<CorrectionSupport<K>>>)
    requires
        graph.wf(),
    ensures
        r is Some <==> forall|i: int|
            0 <= i < operator@.sites.len() ==> correctable(
                *graph,
                (#[trigger] operator@.sites[i]).0,
            ),
        r matches Some(cs) ==> cs@.len() == operator@.sites.len() && forall|i: int|
            0 <= i < cs@.len() ==> correction_of(*graph, operator@.sites[i].0, #[trigger] cs@[i]),
{
    let sites = operator.pauli_string.sites();
    let mut out: Vec<CorrectionSupport<K>> = Vec::new();
    let mut i: usize = 0;
    while i < sites.len()
        invariant
            i <= sites@.len(),
            sites@ == operator@.sites,
            graph.wf(),
            out@.len() == i,
            forall|k: int|
                0 <= k < i ==> correctable(*graph, (#[trigger] sites@[k]).0),
            forall|k: int|
                0 <= k < i ==> correction_of(*graph, sites@[k].0, #[trigger] out@[k]),
        decreases sites@.len() - i,
    {
        let q = sites[i].0;
        let ghost before = out@;
        assert(sites@[i as int].0 == q);
        let v = match find_port(&graph.labels, &q) {
            None => {
                assert(!correctable(*graph, sites@[i as int].0));
                return None;
            },
            Some(v) => v,
        };
        let path = match edge_path_to_root::<K>(&graph.graph, v) {
            None => {
                assert(!correctable(*graph, sites@[i as int].0));
                return None;
            },
            Some(p) => p,
        };
        out.push(
            CorrectionSupport {
                qubit: MergedCodeQubit::CodeQubit { block: q.block, index: q.index },
                path,
            },
        );
        proof {
            assert forall|k: int| 0 <= k < i + 1 implies correction_of(
                *graph,
                sites@[k].0,
                #[trigger] out@[k],
            ) by {
                if k < i {
                    assert(out@[k] == before[k]);
                }
            }
        }
        i = i + 1;
    }
    Some(out)
}

/// The corrections of the operator's qubits, one each in order.
pub fn get_correction_support<K: BlockLabel>(
    graph: &SurgeryGraph<K>,
    operator: &CodePauli<K>,
) -> (cs: Vec<CorrectionSupport<K>>)
    requires
        graph.wf(),
        forall|i: int|
            0 <= i < operator@.sites.len() ==> correctable(
                *graph,
                (#[trigger] operator@.sites[i]).0,
            ),
    ensures
        cs@.len() == operator@.sites.len(),
        forall|i: int|
            0 <= i < cs@.len() ==> correction_of(*graph, operator@.sites[i].0, #[trigger] cs@[i]),
{
    match try_correction_support(graph, operator) {
        Some(cs) => cs,
        None => Vec::new(),
    }
}

} // verus!
