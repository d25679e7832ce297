use std::cell::Cell;
use std::collections::{HashMap, HashSet, VecDeque};

use qleave::cellulation::{cellulate, cycle_vertex_order, thicken, zigzag_faces};
use qleave::circuit_to_checks::BlockKind;
use qleave::components::connected_components;
use qleave::decongestion::decongestion_cycle_basis;
use qleave::expander::{
    bfs_spanning_forest, candidate_pairs, conditioned_expander_graph, congestion_aware_expander,
    pair_weights,
};
use qleave::graph::AncillaGraph;
use qleave::graph_construction::{
    canonical_edge, dynamic_cycle_basis_update, CyclePartition, SpanningForest,
};
use qleave::pbc::{CodeQubit, Pauli, PauliString, PhysicalQubit};
use qleave::random::{pick_below, seeded};
use qleave::surgery::{
    bridge_surgery_graphs, build_congestion_aware_expander, skiptree_labeling, surgery_graph,
    surgery_graph_cached, ShapeCache, SurgeryGraph, SurgeryGraphConfig,
};

type Edge = (usize, usize);

fn graph_from_edges(n: usize, edges: &[Edge]) -> AncillaGraph {
    let mut g = AncillaGraph::new();
    for _ in 0..n {
        g.add_node();
    }
    for &(i, j) in edges {
        g.add_edge(i, j);
    }
    g
}

/// The eigenvalues of a symmetric matrix, in increasing order, by Jacobi rotations.
fn symmetric_eigenvalues(mut a: Vec<f64>, n: usize) -> Vec<f64> {
    for _ in 0..100 {
        let mut off = 0.0;
        for p in 0..n {
            for q in (p + 1)..n {
                off += a[p * n + q] * a[p * n + q];
            }
        }
        if off < 1e-12 {
            break;
        }
        for p in 0..n {
            for q in (p + 1)..n {
                let apq = a[p * n + q];
                if apq.abs() < 1e-300 {
                    continue;
                }
                let theta = (a[q * n + q] - a[p * n + p]) / (2.0 * apq);
                let t = if theta == 0.0 {
                    1.0
                } else {
                    theta.signum() / (theta.abs() + (theta * theta + 1.0).sqrt())
                };
                let c = 1.0 / (t * t + 1.0).sqrt();
                let s = t * c;
                for i in 0..n {
                    let (x, y) = (a[i * n + p], a[i * n + q]);
                    a[i * n + p] = c * x - s * y;
                    a[i * n + q] = s * x + c * y;
                }
                for j in 0..n {
                    let (x, y) = (a[p * n + j], a[q * n + j]);
                    a[p * n + j] = c * x - s * y;
                    a[q * n + j] = s * x + c * y;
                }
            }
        }
    }
    let mut values: Vec<f64> = (0..n).map(|i| a[i * n + i]).collect();
    values.sort_by(|x, y| x.partial_cmp(y).unwrap());
    values
}

/// The second smallest eigenvalue of the Laplacian.
fn lambda2(g: &AncillaGraph) -> f64 {
    let n = g.node_count();
    if n < 2 {
        return 0.0;
    }
    let mut lap = vec![0.0; n * n];
    for i in 0..n {
        for j in g.neighbors(i) {
            lap[i * n + i] += 1.0;
            lap[i * n + j] -= 1.0;
        }
    }
    symmetric_eigenvalues(lap, n)[1]
}

fn layers_needed(l: f64) -> usize {
    if l > 1e-12 {
        (2.0 / l).ceil() as usize
    } else {
        usize::MAX
    }
}

fn expansion(g: &AncillaGraph) -> usize {
    layers_needed(lambda2(g))
}

fn all_edges(g: &AncillaGraph) -> Vec<Edge> {
    (0..g.edge_count()).map(|e| g.edge_endpoints(e)).collect()
}

#[test]
fn expander_construction_reaches_threshold() {
    // The path P6 is below the target, so augmentation runs.
    let g0 = graph_from_edges(6, &[(0, 1), (1, 2), (2, 3), (3, 4), (4, 5)]);
    let beta = 0.3;
    let mut rng = seeded(42);
    let g = conditioned_expander_graph(&g0, 50, &mut rng, &|g: &AncillaGraph| {
        lambda2(g) >= 2.0 * beta
    })
    .unwrap();
    assert!(lambda2(&g) >= 2.0 * beta);
    // Edges are only added, never removed.
    assert!(g.edge_count() >= g0.edge_count());
    assert_eq!(&all_edges(&g)[..5], &all_edges(&g0)[..]);
}

#[test]
fn build_keeps_a_graph_meeting_threshold() {
    let g0 = graph_from_edges(6, &[(0, 1), (1, 2), (2, 3), (3, 4), (4, 5)]);
    let beta = 0.3;
    let mut rng = seeded(7);
    let g = build_congestion_aware_expander(
        &g0,
        &SurgeryGraphConfig::default(),
        &mut rng,
        &expansion,
    )
    .unwrap();
    assert!(lambda2(&g.graph) >= 2.0 * beta);
}

#[test]
fn forest_path_and_dynamic_cycle() {
    // Triangle 0-1-2 with forest edges {0-1, 1-2}; adding 0-2 closes a cycle.
    let mut forest = SpanningForest::new(3);
    forest.add_edge(0, 1);
    forest.add_edge(1, 2);
    assert_eq!(forest.path(0, 2), Some(vec![0, 1, 2]));

    let cycle = dynamic_cycle_basis_update(&mut forest, 0, 2).expect("closes a cycle");
    let edges: HashSet<Edge> = cycle.into_iter().collect();
    assert_eq!(
        edges,
        HashSet::from([(0, 1), (1, 2), (0, 2)]),
        "fundamental cycle is the path plus the closing edge"
    );
    // A bridge between separate trees forms no cycle.
    let mut forest2 = SpanningForest::new(4);
    forest2.add_edge(0, 1);
    forest2.add_edge(2, 3);
    assert!(dynamic_cycle_basis_update(&mut forest2, 1, 2).is_none());
}

#[test]
fn greedy_partition_layers_count_overlap() {
    // Edge-disjoint cycles share no layer pressure: 1 layer.
    let mut p = CyclePartition::with_max_load(1);
    p.insert(&vec![(0, 1), (1, 2), (0, 2)]);
    assert_eq!(p.insert(&vec![(3, 4), (4, 5), (3, 5)]), 1);

    // A cycle overlapping the first layer needs a second layer.
    let mut q = CyclePartition::with_max_load(1);
    q.insert(&vec![(0, 1), (1, 2), (0, 2)]);
    assert_eq!(q.insert(&vec![(0, 1), (1, 3), (0, 3)]), 2);
}

#[test]
fn degree_constrained_partition_packs_under_load_bound() {
    // With a bound of 2, two cycles sharing edge (0,1) can coexist in one layer
    // (load on (0,1) reaches 2), but a third pushes it over: new layer.
    let mut p = CyclePartition::with_max_load(2);
    assert_eq!(p.insert(&vec![(0, 1), (1, 2), (0, 2)]), 1);
    assert_eq!(p.insert(&vec![(0, 1), (1, 3), (0, 3)]), 1);
    assert_eq!(p.insert(&vec![(0, 1), (1, 4), (0, 4)]), 2);

    // A larger bound never needs more layers than a smaller one on the same input.
    let cycles = [
        vec![(0, 1), (1, 2), (0, 2)],
        vec![(0, 1), (1, 3), (0, 3)],
        vec![(0, 1), (1, 4), (0, 4)],
        vec![(2, 3), (3, 4), (2, 4)],
    ];
    let layers = |d_q: usize| {
        let mut part = CyclePartition::with_max_load(d_q);
        let mut t = 0;
        for c in &cycles {
            t = part.insert(c);
        }
        t
    };
    assert!(layers(3) <= layers(2));
    assert!(layers(2) <= layers(1));
}

/// Cycle rank |E| - |V| + (#components) of a simple edge set on `n` vertices.
fn cycle_rank(n: usize, edges: &[Edge]) -> usize {
    let mut parent: Vec<usize> = (0..n).collect();
    fn find(p: &mut [usize], mut x: usize) -> usize {
        while p[x] != x {
            p[x] = p[p[x]];
            x = p[x];
        }
        x
    }
    let mut touched = vec![false; n];
    for &(a, b) in edges {
        touched[a] = true;
        touched[b] = true;
        let (ra, rb) = (find(&mut parent, a), find(&mut parent, b));
        if ra != rb {
            parent[ra] = rb;
        }
    }
    let components = (0..n).filter(|&v| touched[v] && find(&mut parent, v) == v).count();
    edges.len() + components - (0..n).filter(|&v| touched[v]).count()
}

/// Every vertex must touch an even number of a cycle's edges (it is a cycle).
fn is_closed_chain(cycle: &[Edge]) -> bool {
    let mut deg: HashMap<usize, usize> = HashMap::new();
    for &(a, b) in cycle {
        *deg.entry(a).or_default() += 1;
        *deg.entry(b).or_default() += 1;
    }
    deg.values().all(|&d| d % 2 == 0)
}

#[test]
fn decongestion_basis_is_valid_for_triangle() {
    let edges = vec![(0, 1), (1, 2), (0, 2)];
    let mut rng = seeded(1);
    let basis = decongestion_cycle_basis(3, &edges, &mut rng);
    assert_eq!(basis.len(), 1);
    let cycle: HashSet<Edge> = basis[0].iter().copied().collect();
    assert_eq!(cycle, HashSet::from([(0, 1), (1, 2), (0, 2)]));
}

#[test]
fn decongestion_basis_has_correct_rank_and_closed_cycles() {
    // A graph with several independent cycles across two components.
    let edges = vec![
        (0, 1),
        (1, 2),
        (2, 3),
        (3, 0),
        (0, 2), // component A: 4-cycle plus a chord, rank 2
        (4, 5),
        (5, 6),
        (6, 4), // component B: triangle, rank 1
        (6, 7), // pendant edge on component B (not in any cycle)
    ];
    let n = 8;
    for seed in 0..16 {
        let mut rng = seeded(seed);
        let basis = decongestion_cycle_basis(n, &edges, &mut rng);
        assert_eq!(basis.len(), cycle_rank(n, &edges), "basis size must equal the cycle rank");
        for cycle in &basis {
            assert!(!cycle.is_empty());
            assert!(is_closed_chain(cycle), "each basis element is a cycle");
            // Cycles use real graph edges only.
            for e in cycle {
                assert!(edges.contains(e), "cycle edge {:?} exists in G", e);
            }
        }
    }
}

#[test]
fn decongestion_basis_keeps_congestion_low() {
    // On a random sparse graph, no edge should appear in too many cycles.
    let n = 60;
    let mut rng = seeded(99);
    let mut edge_set: HashSet<Edge> = HashSet::new();
    // A connecting cycle through all vertices, plus random extra chords.
    for i in 0..n {
        edge_set.insert(canonical_edge(i, (i + 1) % n));
    }
    for _ in 0..40 {
        let a = pick_below(&mut rng, n);
        let b = pick_below(&mut rng, n);
        if a != b {
            edge_set.insert(canonical_edge(a, b));
        }
    }
    let edges: Vec<Edge> = edge_set.into_iter().collect();
    let basis = decongestion_cycle_basis(n, &edges, &mut rng);
    assert_eq!(basis.len(), cycle_rank(n, &edges));

    let mut appearances: HashMap<Edge, usize> = HashMap::new();
    for cycle in &basis {
        for &e in cycle {
            *appearances.entry(e).or_default() += 1;
        }
    }
    let max_congestion = appearances.values().copied().max().unwrap_or(0);
    // About 34 for 60 vertices; allow slack but catch blow-ups.
    assert!(max_congestion <= 20, "max congestion {max_congestion} unexpectedly high");
}

#[test]
fn congestion_aware_construction_balances_and_terminates() {
    // Start from a sparse path: edges are added until expansion and congestion balance,
    // with a connected, valid result.
    let g0 = graph_from_edges(8, &[(0, 1), (1, 2), (2, 3), (3, 4), (4, 5), (5, 6), (6, 7)]);
    let mut rng = seeded(123);
    let result = congestion_aware_expander(&g0, 4, 50, 1, &mut rng, &expansion).unwrap();

    assert!(result.graph.edge_count() >= g0.edge_count());
    // Terminated at the balance point: layers reached the expansion budget.
    let l = lambda2(&result.graph);
    assert!(result.decongestion_layers >= layers_needed(l));
    assert_eq!(result.needed, layers_needed(l));
    // A meaningful expander has positive algebraic connectivity.
    assert!(l > 0.0);
    // The cycle basis has the right cardinality: |E| - |V| + #components, and the graph
    // is connected here, so |E| - |V| + 1.
    let expected_cycles =
        result.graph.edge_count() as isize - result.graph.node_count() as isize + 1;
    assert_eq!(result.cycle_basis.len() as isize, expected_cycles);
}

/// XOR (symmetric difference over GF(2)) of a collection of edge sets.
fn xor_edges(faces: &Vec<Vec<Edge>>) -> HashSet<Edge> {
    let mut acc: HashSet<Edge> = HashSet::new();
    for face in faces {
        for &e in face {
            if !acc.remove(&e) {
                acc.insert(e);
            }
        }
    }
    acc
}

#[test]
fn zigzag_faces_partition_a_cycle() {
    // A 9-cycle cellulated into small faces: they tile the disk, so their XOR is
    // exactly the original cycle and each face is small.
    let verts: Vec<usize> = (0..9).collect();
    let cycle_edges: Vec<Edge> = (0..9).map(|i| canonical_edge(i, (i + 1) % 9)).collect();
    for d_c in [3usize, 4, 5] {
        let faces = zigzag_faces(&verts, d_c);
        for f in &faces {
            assert!(f.len() <= d_c, "face weight {} exceeds d_c {}", f.len(), d_c);
            assert!(f.len() >= 3);
        }
        let boundary = xor_edges(&faces);
        let expected: HashSet<Edge> = cycle_edges.iter().copied().collect();
        assert_eq!(boundary, expected, "faces must generate the cycle (d_c={d_c})");
    }
}

#[test]
fn thicken_has_product_structure() {
    // Build a small expander, thicken it, and check the dimensions of the product.
    let g0 = graph_from_edges(6, &[(0, 1), (1, 2), (2, 3), (3, 4), (4, 5), (5, 0)]);
    let mut rng = seeded(5);
    let result = congestion_aware_expander(&g0, 4, 50, 1, &mut rng, &expansion).unwrap();
    let thick = thicken(&result).unwrap();

    let n1 = result.graph.node_count();
    let e1 = result.graph.edge_count();
    let l = thick.levels;
    assert!(l >= 1);
    assert_eq!(thick.graph.node_count(), l * n1);
    // Copies of the graph plus vertical path edges at each vertex.
    assert_eq!(thick.graph.edge_count(), l * e1 + (l - 1) * n1);
    // Total placed cycles = the whole basis.
    let placed: usize = thick.level_cycles.iter().map(|c| c.len()).sum();
    assert_eq!(placed, result.cycle_basis.len());
}

#[test]
fn cellulate_respects_check_degree_and_generates_cycles() {
    let g0 = graph_from_edges(8, &[(0, 1), (1, 2), (2, 3), (3, 4), (4, 5), (5, 6), (6, 7)]);
    let mut rng = seeded(321);
    let result = congestion_aware_expander(&g0, 4, 50, 1, &mut rng, &expansion).unwrap();
    let thick = thicken(&result).unwrap();

    for d_c in [3usize, 4, 5, 6] {
        let cell = cellulate(&thick, d_c).unwrap();
        // Every cycle check has weight at most d_c.
        for check in &cell.checks {
            assert!(check.len() <= d_c, "check weight {} > d_c {}", check.len(), d_c);
        }
        let mut all_placed: Vec<Vec<Edge>> = Vec::new();
        for level in &thick.level_cycles {
            all_placed.extend(level.iter().cloned());
        }
        // Cellulate each cycle individually to check the generation property.
        for cycle in &all_placed {
            let order = cycle_vertex_order(cycle);
            let faces = zigzag_faces(&order, d_c);
            let boundary = xor_edges(&faces);
            let expected: HashSet<Edge> = cycle.iter().copied().collect();
            assert_eq!(boundary, expected);
        }
        // There is at least one check whenever there are cycles.
        if !all_placed.is_empty() {
            assert!(!cell.checks.is_empty());
        }

        // The returned graph is the thickened graph plus the chord edges.
        assert_eq!(cell.graph.node_count(), thick.graph.node_count());
        assert_eq!(cell.graph.edge_count(), thick.graph.edge_count() + cell.chords.len());
        // Every chord and every check edge is present in the cellulated graph.
        for &(a, b) in &cell.chords {
            assert!(cell.graph.find_edge(a, b).is_some());
        }
        for check in &cell.checks {
            for &(a, b) in check {
                assert!(cell.graph.find_edge(a, b).is_some());
            }
        }
    }
}

/// A connected random graph on `n` vertices: a spanning cycle plus random chords.
fn random_connected_graph(n: usize, extra: usize, rng: &mut rand::rngs::StdRng) -> AncillaGraph {
    let mut edges: HashSet<Edge> = HashSet::new();
    for i in 0..n {
        edges.insert(canonical_edge(i, (i + 1) % n));
    }
    for _ in 0..extra {
        let (a, b) = (pick_below(rng, n), pick_below(rng, n));
        if a != b {
            edges.insert(canonical_edge(a, b));
        }
    }
    let edge_vec: Vec<Edge> = edges.into_iter().collect();
    graph_from_edges(n, &edge_vec)
}

/// GF(2) rank of a set of edge-indexed bit-rows via Gaussian elimination.
fn gf2_rank(mut rows: Vec<HashSet<usize>>) -> usize {
    let mut rank = 0;
    let mut pivots: Vec<HashSet<usize>> = Vec::new();
    for row in &mut rows {
        // Reduce against existing pivots (each keyed by its minimum element).
        loop {
            let Some(&lead) = row.iter().min() else { break };
            if let Some(p) = pivots.iter().find(|p| p.iter().min() == Some(&lead)) {
                for &e in p {
                    if !row.remove(&e) {
                        row.insert(e);
                    }
                }
            } else {
                break;
            }
        }
        if !row.is_empty() {
            pivots.push(row.clone());
            rank += 1;
        }
    }
    rank
}

#[test]
fn decongestion_basis_is_linearly_independent() {
    // A right-sized set of cycles is only a basis if it is also independent.
    let n = 50;
    let mut rng = seeded(7);
    for trial in 0..12 {
        let g = random_connected_graph(n, 30, &mut rng);
        let mut edges: Vec<Edge> =
            all_edges(&g).into_iter().map(|(a, b)| canonical_edge(a, b)).collect();
        edges.sort_unstable();
        edges.dedup();
        let basis = decongestion_cycle_basis(n, &edges, &mut rng);

        // Map each edge to a column index, each cycle to a GF(2) row.
        let edge_index: HashMap<Edge, usize> =
            edges.iter().enumerate().map(|(i, &e)| (e, i)).collect();
        let rows: Vec<HashSet<usize>> = basis
            .iter()
            .map(|cycle| cycle.iter().map(|e| edge_index[e]).collect())
            .collect();

        let rank = gf2_rank(rows);
        assert_eq!(rank, basis.len(), "trial {trial}: cycle basis is not GF(2) independent");
        assert_eq!(
            basis.len(),
            cycle_rank(n, &edges),
            "trial {trial}: basis size must equal the cycle rank"
        );
    }
}

/// A simple cycle has every vertex at degree exactly two.
fn is_simple_cycle(cycle: &[Edge]) -> bool {
    let mut deg: HashMap<usize, usize> = HashMap::new();
    for &(a, b) in cycle {
        *deg.entry(a).or_default() += 1;
        *deg.entry(b).or_default() += 1;
    }
    !cycle.is_empty() && deg.values().all(|&d| d == 2)
}

fn graph_is_connected(g: &AncillaGraph) -> bool {
    g.node_count() == 0 || connected_components(g) == 1
}

#[test]
fn end_to_end_pipeline_invariants() {
    // Expand, thicken, cellulate, asserting what holds across the stages over several
    // seeds.
    for seed in 0..6u64 {
        let mut rng = seeded(seed);
        // A sparse connected starting graph (path) on 10 vertices.
        let g0 = graph_from_edges(10, &(0..9).map(|i| (i, i + 1)).collect::<Vec<_>>());
        let d_q = 1 + (seed as usize % 2);
        let result = congestion_aware_expander(&g0, 4, 80, d_q, &mut rng, &expansion).unwrap();

        // A real expander: connected, positive algebraic connectivity.
        assert!(lambda2(&result.graph) > 0.0, "seed {seed}: expander not connected");
        assert!(graph_is_connected(&result.graph));
        // Every maintained cycle is a simple cycle (cellulation depends on it).
        for cycle in &result.cycle_basis {
            assert!(is_simple_cycle(cycle), "seed {seed}: non-simple cycle in basis");
        }
        // Cycle basis cardinality is the cycle rank.
        let expected = result.graph.edge_count() + 1 - result.graph.node_count();
        assert_eq!(result.cycle_basis.len(), expected);

        // Thickening preserves the product structure.
        let thick = thicken(&result).unwrap();
        let (n1, e1, l) =
            (result.graph.node_count(), result.graph.edge_count(), thick.levels);
        assert_eq!(thick.graph.node_count(), l * n1);
        assert_eq!(thick.graph.edge_count(), l * e1 + (l - 1) * n1);
        // Placed cycles remain simple in thickened coordinates.
        for level in &thick.level_cycles {
            for cycle in level {
                assert!(is_simple_cycle(cycle));
            }
        }

        // Cellulation yields a connected graph whose checks are bounded-weight and live
        // on real edges, and regenerate cycles.
        let d_c = 3 + (seed as usize % 3);
        let cell = cellulate(&thick, d_c).unwrap();
        assert!(graph_is_connected(&cell.graph), "seed {seed}: cellulated graph disconnected");
        assert_eq!(cell.graph.edge_count(), thick.graph.edge_count() + cell.chords.len());
        for check in &cell.checks {
            assert!(check.len() <= d_c);
            for &(a, b) in check {
                assert!(cell.graph.find_edge(a, b).is_some());
            }
        }
        // The faces covering each placed cycle XOR back to exactly that cycle.
        for level in &thick.level_cycles {
            for cycle in level {
                let faces = zigzag_faces(&cycle_vertex_order(cycle), d_c);
                let expected: HashSet<Edge> = cycle.iter().copied().collect();
                assert_eq!(xor_edges(&faces), expected);
            }
        }
    }
}

/// Cycle rank of a graph (|E| - |V| + #components).
fn graph_cycle_rank(g: &AncillaGraph) -> usize {
    g.edge_count() + connected_components(g) - g.node_count()
}

/// A surgery graph with `ports` labelled as code qubits of `block`.
fn surgery_graph_with_ports(
    n: usize,
    edges: &[Edge],
    block: BlockKind,
    ports: &[usize],
) -> SurgeryGraph<BlockKind> {
    let mut labels = vec![None; n];
    for &p in ports {
        labels[p] = Some(CodeQubit { block, index: p });
    }
    SurgeryGraph {
        graph: graph_from_edges(n, edges),
        labels,
        cycle_checks: vec![],
        path_matching: vec![],
    }
}

fn all_ports(s: &SurgeryGraph<BlockKind>) -> Vec<usize> {
    s.ports_by_block().into_iter().flat_map(|(_, v)| v).collect()
}

#[test]
fn bridge_connects_ports_and_adds_expected_cycles() {
    // Two connected measurement graphs with designated ports, in different blocks.
    let s1 = surgery_graph_with_ports(
        4,
        &[(0, 1), (1, 2), (2, 3), (3, 0)],
        BlockKind::Memory,
        &[0, 1, 2],
    );
    let s2 = surgery_graph_with_ports(
        3,
        &[(0, 1), (1, 2), (2, 0)],
        BlockKind::Processor,
        &[0, 1, 2],
    );
    let d = 2;
    let bridged = bridge_surgery_graphs(&s1, &s2, d).unwrap();

    // Disjoint union plus exactly d bridge edges.
    assert_eq!(bridged.graph.node_count(), 4 + 3);
    assert_eq!(bridged.graph.edge_count(), 4 + 3 + d);
    // The ports are those of both sides.
    assert_eq!(all_ports(&bridged).len(), all_ports(&s1).len() + all_ports(&s2).len());

    // Exactly d edges cross from the left side to the right side, and each crossing edge
    // joins a left port to a right port.
    let offset = 4;
    let mut crossings = 0;
    let left_ports: HashSet<usize> = all_ports(&s1).into_iter().collect();
    let right_ports: HashSet<usize> = all_ports(&s2).into_iter().map(|p| offset + p).collect();
    for (a, b) in all_edges(&bridged.graph) {
        if (a < offset) != (b < offset) {
            crossings += 1;
            let (l, r) = if a < offset { (a, b) } else { (b, a) };
            assert!(left_ports.contains(&l) && right_ports.contains(&r));
        }
    }
    assert_eq!(crossings, d);

    // Bridging two connected graphs with d edges adds d-1 cycles.
    let before = graph_cycle_rank(&s1.graph) + graph_cycle_rank(&s2.graph);
    assert_eq!(graph_cycle_rank(&bridged.graph), before + (d - 1));
}

#[test]
fn bridge_caps_distance_at_available_ports() {
    let triangle = [(0, 1), (1, 2), (2, 0)];
    // Only one port available on the left.
    let s1 = surgery_graph_with_ports(3, &triangle, BlockKind::Memory, &[0]);
    let s2 = surgery_graph_with_ports(3, &triangle, BlockKind::Processor, &[0, 1]);
    // Requested distance 5 is capped at min(1, 2) = 1 bridge edge.
    let bridged = bridge_surgery_graphs(&s1, &s2, 5).unwrap();
    assert_eq!(bridged.graph.edge_count(), 3 + 3 + 1);
}

#[test]
fn bridge_two_surgery_graphs_end_to_end() {
    // Build two real surgery graphs and bridge them into one for the product.
    let ps = |paulis: Vec<Pauli>| {
        PauliString::new(
            paulis.into_iter().enumerate().map(|(i, p)| (PhysicalQubit(i), p)).collect(),
        )
    };
    let op1 = ps(vec![Pauli::X, Pauli::X, Pauli::X, Pauli::X]);
    let stabs1 = vec![
        ps(vec![Pauli::Z, Pauli::Z, Pauli::I, Pauli::I]),
        ps(vec![Pauli::I, Pauli::I, Pauli::Z, Pauli::Z]),
    ];
    let op2 = ps(vec![Pauli::X, Pauli::X, Pauli::X, Pauli::X]);
    let stabs2 = vec![
        ps(vec![Pauli::Z, Pauli::Z, Pauli::I, Pauli::I]),
        ps(vec![Pauli::I, Pauli::I, Pauli::Z, Pauli::Z]),
    ];
    let config = SurgeryGraphConfig::default();
    let s1 = surgery_graph(&stabs1, &op1, BlockKind::Memory, &config, &expansion).unwrap();
    let s2 = surgery_graph(&stabs2, &op2, BlockKind::Processor, &config, &expansion).unwrap();
    let (n1, e1) = (s1.graph.node_count(), s1.graph.edge_count());
    let (n2, e2) = (s2.graph.node_count(), s2.graph.edge_count());

    let d = 3;
    let bridged = bridge_surgery_graphs(&s1, &s2, d).unwrap();

    assert_eq!(bridged.graph.node_count(), n1 + n2);
    assert_eq!(all_ports(&bridged).len(), all_ports(&s1).len() + all_ports(&s2).len());

    // The bridge edges: a matching of size at most d, each joining a left port to a
    // right port.
    let left_ports: HashSet<usize> = all_ports(&s1).into_iter().collect();
    let right_ports: HashSet<usize> = all_ports(&s2).into_iter().map(|p| n1 + p).collect();
    let mut bridge_edges = 0;
    let (mut used_left, mut used_right): (HashSet<usize>, HashSet<usize>) =
        (HashSet::new(), HashSet::new());
    for (a, b) in all_edges(&bridged.graph) {
        if (a < n1) != (b < n1) {
            bridge_edges += 1;
            let (l, r) = if a < n1 { (a, b) } else { (b, a) };
            assert!(left_ports.contains(&l) && right_ports.contains(&r));
            assert!(used_left.insert(l) && used_right.insert(r), "bridge is a matching");
        }
    }
    assert_eq!(bridged.graph.edge_count(), e1 + e2 + bridge_edges);
    assert!(bridge_edges >= 1 && bridge_edges <= d);
    // The two graphs are now one connected graph.
    assert!(graph_is_connected(&bridged.graph));
}

/// Shortest-path hop distance between two vertices.
fn bfs_distance(g: &AncillaGraph, src: usize, dst: usize) -> usize {
    let mut dist: HashMap<usize, usize> = HashMap::from([(src, 0)]);
    let mut queue = VecDeque::from([src]);
    while let Some(u) = queue.pop_front() {
        if u == dst {
            return dist[&u];
        }
        let du = dist[&u];
        for w in g.neighbors(u) {
            dist.entry(w).or_insert_with(|| {
                queue.push_back(w);
                du + 1
            });
        }
    }
    usize::MAX
}

#[test]
fn skiptree_consecutive_labels_are_close() {
    // Consecutive labels are within a short path.
    let test_graphs = [
        // A path.
        graph_from_edges(8, &(0..7).map(|i| (i, i + 1)).collect::<Vec<_>>()),
        // A balanced binary tree on 7 nodes.
        graph_from_edges(7, &[(0, 1), (0, 2), (1, 3), (1, 4), (2, 5), (2, 6)]),
        // A denser connected graph.
        graph_from_edges(
            9,
            &[
                (0, 1),
                (1, 2),
                (2, 3),
                (3, 4),
                (4, 5),
                (5, 6),
                (6, 7),
                (7, 8),
                (0, 4),
                (2, 7),
            ],
        ),
    ];
    for g in &test_graphs {
        let ports: Vec<usize> = (0..g.node_count()).collect();
        let order = skiptree_labeling(g, &ports);
        assert_eq!(order.len(), ports.len(), "all ports labeled when connected");
        // Labels form a permutation of the ports.
        let distinct: HashSet<usize> = order.iter().copied().collect();
        assert_eq!(distinct.len(), order.len());
        for w in order.windows(2) {
            let dist = bfs_distance(g, w[0], w[1]);
            assert!(
                dist <= 3,
                "consecutive labels {:?}->{:?} are {} apart",
                w[0],
                w[1],
                dist
            );
        }
    }
}

#[test]
fn graphs_remember_what_was_added() {
    let mut g = AncillaGraph::new();
    assert_eq!(g.node_count(), 0);
    for _ in 0..4 {
        g.add_node();
    }
    g.add_edge(2, 0);
    g.add_edge(0, 1);
    g.add_edge(0, 2);
    assert_eq!((g.node_count(), g.edge_count()), (4, 3));
    assert_eq!(all_edges(&g), vec![(2, 0), (0, 1), (0, 2)]);
    let mut near: Vec<usize> = g.neighbors(0);
    near.sort();
    assert_eq!(near, vec![1, 2, 2]);
    assert_eq!(g.neighbors(3), Vec::<usize>::new());
    assert!(g.find_edge(1, 2).is_none());
    let e = g.find_edge(1, 0).unwrap();
    assert_eq!(g.edge_endpoints(e), (0, 1));
    let mut at: Vec<usize> = g.edges(2);
    at.sort();
    assert_eq!(at, vec![0, 2]);
    assert_eq!(all_edges(&g.clone()), all_edges(&g));
}

#[test]
fn shortest_paths_are_shortest() {
    let g = graph_from_edges(7, &[(0, 1), (1, 2), (2, 3), (3, 4), (4, 0), (5, 6)]);
    assert_eq!(g.shortest_path(0, 3), Some(vec![0, 4, 3]));
    assert_eq!(g.shortest_path(2, 2), Some(vec![2]));
    assert_eq!(g.shortest_path(0, 5), None);
}

#[test]
fn components_are_counted() {
    assert_eq!(connected_components(&graph_from_edges(0, &[])), 0);
    assert_eq!(connected_components(&graph_from_edges(4, &[])), 4);
    assert_eq!(connected_components(&graph_from_edges(4, &[(0, 1), (2, 3)])), 2);
    assert_eq!(connected_components(&graph_from_edges(5, &[(4, 1), (1, 0), (3, 2), (0, 4)])), 2);
    assert_eq!(connected_components(&graph_from_edges(3, &[(2, 1), (1, 0)])), 1);
}

#[test]
fn spanning_forests_span() {
    let g = graph_from_edges(6, &[(0, 1), (1, 2), (2, 0), (3, 4)]);
    let f = bfs_spanning_forest(&g);
    assert_eq!(f.path(1, 2), Some(vec![1, 0, 2]));
    assert_eq!(f.path(3, 4), Some(vec![3, 4]));
    assert_eq!(f.path(0, 3), None);
    assert_eq!(f.path(5, 5), Some(vec![5]));
}

#[test]
fn forest_depth_is_distance() {
    let g = graph_from_edges(
        9,
        &[(0, 1), (1, 2), (2, 3), (3, 4), (4, 5), (5, 0), (2, 6), (6, 5), (7, 8)],
    );
    let f = bfs_spanning_forest(&g);
    for v in 0..7 {
        assert_eq!(f.path(0, v).unwrap().len(), bfs_distance(&g, 0, v) + 1);
    }
    assert_eq!(f.path(7, 8), Some(vec![7, 8]));
    assert_eq!(f.path(0, 7), None);
}

#[test]
fn pairs_are_weighted_by_what_they_lack() {
    let g = graph_from_edges(4, &[(0, 1)]);
    let pairs = candidate_pairs(&g, 2);
    assert_eq!(pairs, vec![(0, 2), (0, 3), (1, 2), (1, 3), (2, 3)]);
    assert_eq!(pair_weights(&g, 2, &pairs), Some(vec![2, 2, 2, 2, 4]));
    // Vertices of full degree are no candidates.
    assert_eq!(candidate_pairs(&g, 1), vec![(2, 3)]);
    assert_eq!(candidate_pairs(&g, 0), vec![]);
}

#[test]
fn a_balanced_graph_is_left_alone() {
    let edges = [(0, 1), (1, 2), (2, 3), (0, 2)];
    let g0 = graph_from_edges(4, &edges);
    let mut rng = seeded(3);
    let r = congestion_aware_expander(&g0, 4, 50, 1, &mut rng, &|_: &AncillaGraph| 0).unwrap();
    assert_eq!(all_edges(&r.graph), edges.to_vec());
    assert_eq!(r.needed, 0);
    assert_eq!(r.cycle_basis.len(), 1);
}

#[test]
fn growth_stops_where_the_expansion_is_enough() {
    let g0 = graph_from_edges(8, &(0..7).map(|i| (i, i + 1)).collect::<Vec<_>>());
    // The first graph with ten edges is enough: no edge more is added.
    let enough = |g: &AncillaGraph| g.edge_count() >= 10;
    let mut rng = seeded(11);
    let g = conditioned_expander_graph(&g0, 50, &mut rng, &enough).unwrap();
    assert_eq!(g.edge_count(), 10);
    // A graph that is enough at once is left as it is.
    let g = conditioned_expander_graph(&g0, 50, &mut rng, &|_: &AncillaGraph| true).unwrap();
    assert_eq!(all_edges(&g), all_edges(&g0));
}

#[test]
fn the_first_cycle_is_a_shortest_one() {
    // Every vertex of the complete graph on four has degree three: nothing is peeled
    // or merged before the first cycle, which is a triangle.
    let edges = vec![(0, 1), (0, 2), (0, 3), (1, 2), (1, 3), (2, 3)];
    for seed in 0..16 {
        let mut rng = seeded(seed);
        let basis = decongestion_cycle_basis(4, &edges, &mut rng);
        assert_eq!(basis.len(), 3);
        assert_eq!(basis[0].len(), 3);
    }
}

/// The edges of the path between two vertices of a tree.
fn tree_path(g: &AncillaGraph, src: usize, dst: usize) -> Vec<Edge> {
    let mut from: HashMap<usize, usize> = HashMap::from([(src, src)]);
    let mut queue = VecDeque::from([src]);
    while let Some(u) = queue.pop_front() {
        for w in g.neighbors(u) {
            from.entry(w).or_insert_with(|| {
                queue.push_back(w);
                u
            });
        }
    }
    let mut path = Vec::new();
    let mut at = dst;
    while at != src {
        path.push(canonical_edge(at, from[&at]));
        at = from[&at];
    }
    path
}

#[test]
fn labels_share_few_tree_edges() {
    let trees = [
        graph_from_edges(8, &(0..7).map(|i| (i, i + 1)).collect::<Vec<_>>()),
        graph_from_edges(7, &[(0, 1), (0, 2), (1, 3), (1, 4), (2, 5), (2, 6)]),
        graph_from_edges(6, &(1..6).map(|i| (0, i)).collect::<Vec<_>>()),
    ];
    for g in &trees {
        let ports: Vec<usize> = (0..g.node_count()).collect();
        let order = skiptree_labeling(g, &ports);
        let mut uses: HashMap<Edge, usize> = HashMap::new();
        for w in order.windows(2) {
            let path = tree_path(g, w[0], w[1]);
            assert!(path.len() <= 3);
            for e in path {
                *uses.entry(e).or_default() += 1;
            }
        }
        assert!(uses.values().all(|&n| n <= 2));
    }
}

#[test]
fn labels_alternate_along_the_tree() {
    // A path: every other vertex on the way out, the others on the way back.
    let g = graph_from_edges(5, &[(0, 1), (1, 2), (2, 3), (3, 4)]);
    let ports: Vec<usize> = (0..5).collect();
    assert_eq!(skiptree_labeling(&g, &ports), vec![0, 2, 4, 3, 1]);
    // Only what the first port reaches through ports is labelled.
    assert_eq!(skiptree_labeling(&g, &vec![3, 4, 0, 1]), vec![3, 4]);
    assert_eq!(skiptree_labeling(&g, &vec![]), Vec::<usize>::new());
}

#[test]
fn a_stored_shape_is_used_again() {
    let ps = |paulis: Vec<Pauli>, at: usize| {
        PauliString::new(
            paulis.into_iter().enumerate().map(|(i, p)| (PhysicalQubit(at + i), p)).collect(),
        )
    };
    let calls = Cell::new(0usize);
    let counted = |g: &AncillaGraph| {
        calls.set(calls.get() + 1);
        expansion(g)
    };
    let config = SurgeryGraphConfig { caching: true, ..SurgeryGraphConfig::default() };
    let mut cache = ShapeCache::new();
    let mut graphs = Vec::new();
    // The same shape on other qubits.
    for at in [0, 10] {
        let op = ps(vec![Pauli::X; 4], at);
        let stabs = vec![
            ps(vec![Pauli::Z, Pauli::Z, Pauli::I, Pauli::I], at),
            ps(vec![Pauli::I, Pauli::I, Pauli::Z, Pauli::Z], at),
        ];
        let s =
            surgery_graph_cached(&stabs, &op, BlockKind::Memory, &config, &mut cache, &counted)
                .unwrap();
        graphs.push((all_edges(&s.graph), s.cycle_checks.clone(), calls.get()));
    }
    assert!(graphs[0].2 > 0);
    // The second time nothing is built.
    assert_eq!(graphs[0], graphs[1]);
}
