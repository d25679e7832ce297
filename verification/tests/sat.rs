use qleave::circuit::{Circuit, Gate, Qubit};
use qleave::compile::{count_moves, partition_with_solver};
use qleave::keyed::KeyedMap;
use qleave::load_store::to_load_store_circuit;
use qleave::mip_partition::{mip_problem, read_solution};
use qleave::partition::get_processor_subcircuits;
use qleave::sat_partition::{
    encode_counted, encode_partition, optimize_partition, slice_and_optimize, subcircuits_of,
    Counters, PartitionProblem, PropLit, SolveReply, UpperBounds,
};

fn make_circuit(num_qubits: usize, gates: Vec<Gate<Qubit>>) -> Circuit {
    let mut c = Circuit::new(num_qubits);
    for g in gates {
        c.apply(g);
    }
    c
}

fn four_qubit_circuit() -> Circuit {
    // H(q0), H(q1), H(q2), H(q3), CNOT(q0,q2), CNOT(q1,q3)
    // DAG: H(qi) -> CNOT that uses qi
    // Greedy with proc_cap=2 yields 4 subcircuits, 12 load/store ops (with Belady skip).
    // SAT optimum rearranges into {q0,q2} / {q0,q2} / {q1,q3} / {q1,q3}, giving 6 ops.
    make_circuit(
        4,
        vec![
            Gate::H(Qubit(0)),
            Gate::H(Qubit(1)),
            Gate::H(Qubit(2)),
            Gate::H(Qubit(3)),
            Gate::CNOT { control: Qubit(0), target: Qubit(2) },
            Gate::CNOT { control: Qubit(1), target: Qubit(3) },
        ],
    )
}

fn code(l: &PropLit) -> usize {
    2 * l.var as usize + usize::from(!l.positive)
}

/// A small conflict-driven solver. Literal `2v` is variable `v`, `2v + 1` its negation.
struct Solver {
    clauses: Vec<Vec<usize>>,
    watches: Vec<Vec<usize>>,
    value: Vec<Option<bool>>,
    level: Vec<usize>,
    reason: Vec<Option<usize>>,
    trail: Vec<usize>,
    marks: Vec<usize>,
    head: usize,
    activity: Vec<u64>,
    bump: u64,
}

impl Solver {
    fn new(vars: usize) -> Self {
        Solver {
            clauses: Vec::new(),
            watches: vec![Vec::new(); 2 * vars],
            value: vec![None; vars],
            level: vec![0; vars],
            reason: vec![None; vars],
            trail: Vec::new(),
            marks: Vec::new(),
            head: 0,
            activity: vec![0; vars],
            bump: 1,
        }
    }

    fn lit_value(&self, l: usize) -> Option<bool> {
        self.value[l / 2].map(|v| v == (l % 2 == 0))
    }

    fn set(&mut self, l: usize, reason: Option<usize>) {
        self.value[l / 2] = Some(l % 2 == 0);
        self.level[l / 2] = self.marks.len();
        self.reason[l / 2] = reason;
        self.trail.push(l);
    }

    /// Add a clause while no decision stands. False: the clauses contradict each other.
    fn add(&mut self, mut c: Vec<usize>) -> bool {
        c.sort();
        c.dedup();
        if c.windows(2).any(|w| w[0] / 2 == w[1] / 2) {
            return true;
        }
        match c.len() {
            0 => false,
            1 => match self.lit_value(c[0]) {
                Some(b) => b,
                None => {
                    self.set(c[0], None);
                    true
                }
            },
            _ => {
                self.attach(c);
                true
            }
        }
    }

    fn attach(&mut self, c: Vec<usize>) -> usize {
        let id = self.clauses.len();
        self.watches[c[0]].push(id);
        self.watches[c[1]].push(id);
        self.clauses.push(c);
        id
    }

    fn propagate(&mut self) -> Option<usize> {
        while self.head < self.trail.len() {
            let falsified = self.trail[self.head] ^ 1;
            self.head += 1;
            let watching = std::mem::take(&mut self.watches[falsified]);
            let mut conflict = None;
            for (k, &id) in watching.iter().enumerate() {
                if self.clauses[id][0] == falsified {
                    self.clauses[id].swap(0, 1);
                }
                let first = self.clauses[id][0];
                if self.lit_value(first) == Some(true) {
                    self.watches[falsified].push(id);
                    continue;
                }
                let other = (2..self.clauses[id].len())
                    .find(|&j| self.lit_value(self.clauses[id][j]) != Some(false));
                if let Some(j) = other {
                    self.clauses[id].swap(1, j);
                    let l = self.clauses[id][1];
                    self.watches[l].push(id);
                    continue;
                }
                self.watches[falsified].push(id);
                if self.lit_value(first) == Some(false) {
                    let rest = watching[k + 1..].to_vec();
                    self.watches[falsified].extend(rest);
                    conflict = Some(id);
                    break;
                }
                self.set(first, Some(id));
            }
            if conflict.is_some() {
                return conflict;
            }
        }
        None
    }

    /// The first-unique-implication-point clause, and the level it jumps back to.
    fn analyze(&mut self, mut conflict: usize) -> (Vec<usize>, usize) {
        let mut seen = vec![false; self.value.len()];
        let mut learnt: Vec<usize> = vec![0];
        let mut open = 0;
        let mut at = self.trail.len();
        let mut pivot: Option<usize> = None;
        loop {
            for l in self.clauses[conflict].clone() {
                if Some(l) == pivot || seen[l / 2] || self.level[l / 2] == 0 {
                    continue;
                }
                seen[l / 2] = true;
                self.activity[l / 2] += self.bump;
                if self.level[l / 2] == self.marks.len() {
                    open += 1;
                } else {
                    learnt.push(l);
                }
            }
            at -= 1;
            while !seen[self.trail[at] / 2] {
                at -= 1;
            }
            let l = self.trail[at];
            open -= 1;
            if open == 0 {
                learnt[0] = l ^ 1;
                break;
            }
            pivot = Some(l);
            conflict = self.reason[l / 2].expect("an implied literal has a reason");
        }
        self.bump += self.bump / 16 + 1;
        if self.bump > 1 << 40 {
            self.activity.iter_mut().for_each(|a| *a >>= 30);
            self.bump >>= 30;
        }
        let back = learnt[1..].iter().map(|&l| self.level[l / 2]).max().unwrap_or(0);
        if let Some(k) = (1..learnt.len()).find(|&k| self.level[learnt[k] / 2] == back) {
            learnt.swap(1, k);
        }
        (learnt, back)
    }

    fn undo_to(&mut self, level: usize) {
        while self.marks.len() > level {
            let start = self.marks.pop().unwrap();
            for l in self.trail.drain(start..) {
                self.value[l / 2] = None;
            }
        }
        self.head = self.trail.len();
    }

    fn solve(&mut self, mut budget: usize) -> SolveReply {
        loop {
            if let Some(conflict) = self.propagate() {
                if self.marks.is_empty() {
                    return SolveReply::Unsat;
                }
                if budget == 0 {
                    return SolveReply::Interrupted;
                }
                budget -= 1;
                let (learnt, back) = self.analyze(conflict);
                self.undo_to(back);
                if learnt.len() == 1 {
                    self.set(learnt[0], None);
                } else {
                    let first = learnt[0];
                    let id = self.attach(learnt);
                    self.set(first, Some(id));
                }
                continue;
            }
            let next = (0..self.value.len())
                .filter(|&v| self.value[v].is_none())
                .max_by_key(|&v| (self.activity[v], self.value.len() - v));
            match next {
                None => return SolveReply::Sat(self.value.iter().map(|v| *v == Some(true)).collect()),
                Some(v) => {
                    self.marks.push(self.trail.len());
                    self.set(2 * v + 1, None);
                }
            }
        }
    }
}

fn solve(p: &PartitionProblem, assumptions: &Vec<PropLit>) -> SolveReply {
    let mut s = Solver::new(p.next_var as usize);
    for c in &p.clauses {
        if !s.add(c.iter().map(code).collect()) {
            return SolveReply::Unsat;
        }
    }
    for a in assumptions {
        if !s.add(vec![code(a)]) {
            return SolveReply::Unsat;
        }
    }
    let reply = s.solve(3000);
    if let SolveReply::Sat(model) = &reply {
        let holds = |l: &PropLit| model[l.var as usize] == l.positive;
        assert!(p.clauses.iter().all(|c| c.iter().any(holds)));
        assert!(assumptions.iter().all(holds));
    }
    reply
}

fn never(_: &PartitionProblem, _: &Vec<PropLit>) -> SolveReply {
    SolveReply::Interrupted
}

fn any_time(_: usize, _: usize) -> bool {
    true
}

/// Every gate runs once, and after each earlier gate that shares a qubit with it.
fn assert_valid(circ: &Circuit, subs: &[Circuit]) {
    let total: usize = subs.iter().map(|s| s.gates.len()).sum();
    assert_eq!(total, circ.gates.len());
    for q in 0..circ.num_qubits {
        let on = |g: &&Gate<Qubit>| g.qubits().contains(&Qubit(q));
        let before: Vec<Gate<Qubit>> = circ.gates.iter().filter(on).copied().collect();
        let after: Vec<Gate<Qubit>> =
            subs.iter().flat_map(|s| s.gates.iter()).filter(on).copied().collect();
        assert_eq!(before, after);
    }
}

#[test]
fn test_sat_respects_capacity() {
    let circ = four_qubit_circuit();
    let subs = optimize_partition(&circ, 2, 8, Some(12), &KeyedMap::new(), &solve).unwrap().0;
    for sub in &subs {
        assert!(sub.qubits.len() <= 2, "SAT subcircuit exceeds proc_cap=2");
    }
    assert_valid(&circ, &subs);
}

#[test]
fn test_sat_finds_better_partition() {
    let circ = four_qubit_circuit();
    let greedy_subs = get_processor_subcircuits(&circ, 2);
    let max_k = greedy_subs.len() * 2;
    let greedy_count = count_moves(&to_load_store_circuit(&greedy_subs, 2, true));
    let sat_subs =
        optimize_partition(&circ, 2, max_k, Some(greedy_count), &KeyedMap::new(), &solve)
            .unwrap()
            .0;
    let sat_count = count_moves(&to_load_store_circuit(&sat_subs, 2, true));
    assert!(
        sat_count < greedy_count,
        "SAT ({sat_count}) should beat greedy ({greedy_count})"
    );
    assert_eq!(sat_count, 6, "expected optimal 4 loads + 2 stores = 6");
}

#[test]
fn no_answer_leaves_no_partition() {
    let circ = four_qubit_circuit();
    assert!(optimize_partition(&circ, 2, 4, None, &KeyedMap::new(), &never).is_none());
    // Nothing to partition needs no answer.
    let empty = Circuit::new(2);
    assert!(optimize_partition(&empty, 2, 4, None, &KeyedMap::new(), &never).unwrap().0.is_empty());
}

#[test]
fn without_answers_the_partition_is_greedy() {
    let circ = four_qubit_circuit();
    let subs = partition_with_solver(&circ, 2, &never, &any_time);
    let greedy = get_processor_subcircuits(&circ, 2);
    assert_eq!(subs.len(), greedy.len());
    for (a, b) in subs.iter().zip(&greedy) {
        assert_eq!(a.gates, b.gates);
    }
}

#[test]
fn partitions_found_by_slices_are_valid() {
    let circ = four_qubit_circuit();
    if let Some(subs) = slice_and_optimize(&circ, 2, 4, 3, None, &solve, &any_time) {
        assert_valid(&circ, &subs);
        assert!(subs.iter().all(|s| s.qubits.len() <= 2));
    }
    let subs = partition_with_solver(&circ, 2, &solve, &any_time);
    assert_valid(&circ, &subs);
}

#[test]
fn the_encoding_has_the_variables_of_its_layout() {
    let circ = four_qubit_circuit();
    let p = encode_partition(&circ, 2, 3, &KeyedMap::new()).unwrap();
    assert_eq!((p.layout.n_gates, p.layout.n_qubits, p.layout.slots), (6, 4, 3));
    // A load and a store for each qubit in each slot.
    assert_eq!(p.objective.len(), 2 * 4 * 3);
    assert_eq!(p.layout.gate_var(1, 2), 5);
    assert!(p.next_var as usize >= 6 * 3 + 3 * 4 * 3 + 3);
}

#[test]
fn without_a_qubit_nothing_is_counted() {
    let p = encode_partition(&Circuit::new(2), 0, 3, &KeyedMap::new()).unwrap();
    assert_eq!((p.layout.n_gates, p.layout.n_qubits, p.layout.slots), (0, 0, 3));
    assert!(p.objective.is_empty() && p.limits.is_empty());
    assert_eq!(p.next_var, 3);
    // No slot is used, and slots are used from the first on.
    let no = |var| PropLit { var, positive: false };
    let yes = |var| PropLit { var, positive: true };
    assert_eq!(
        p.clauses,
        vec![
            vec![no(0)],
            vec![no(1)],
            vec![no(2)],
            vec![no(1), yes(0)],
            vec![no(2), yes(1)],
        ]
    );
}

#[test]
fn a_circuit_beyond_the_index_range_is_not_encoded() {
    let circ = four_qubit_circuit();
    assert!(encode_partition(&circ, 4, 100_000_000, &KeyedMap::new()).is_none());
}

/// Counters over the load and the store of one qubit in one slot.
fn one_slot_counters(slots: Vec<UpperBounds>) -> Counters {
    let no = |var| PropLit { var, positive: false };
    Counters {
        slots,
        objective: UpperBounds {
            clauses: vec![vec![no(2), no(3), PropLit { var: 6, positive: true }]],
            limits: vec![vec![no(2), no(3)], vec![no(6)]],
            next_var: 7,
        },
    }
}

#[test]
fn a_problem_is_made_of_its_counters() {
    let circ = make_circuit(1, vec![Gate::H(Qubit(0))]);
    let none = KeyedMap::new();
    let none_fit = UpperBounds { clauses: vec![], limits: vec![], next_var: 0 };
    let unasked = Counters { slots: vec![], objective: none_fit };
    assert!(encode_counted(&circ, 1, 100_000_000, &none, unasked).is_none());
    let p = encode_counted(&circ, 1, 1, &none, one_slot_counters(vec![])).unwrap();
    assert_eq!(p.clauses.len(), 8);
    assert_eq!(p.clauses[7], one_slot_counters(vec![]).objective.clauses[0]);
    assert_eq!(p.limits, one_slot_counters(vec![]).objective.limits);
    assert_eq!(p.next_var, 7);
    // The qubit has to be loaded, and need not be stored.
    assert!(matches!(solve(&p, &p.limits[0]), SolveReply::Unsat));
    assert!(matches!(solve(&p, &p.limits[1]), SolveReply::Sat(_)));
    // No room for the qubit: the bound of the slot stands before the objective.
    let full = UpperBounds {
        clauses: vec![],
        limits: vec![vec![PropLit { var: 1, positive: false }]],
        next_var: 6,
    };
    let p = encode_counted(&circ, 0, 1, &none, one_slot_counters(vec![full])).unwrap();
    assert_eq!(p.clauses.len(), 9);
    assert_eq!(p.clauses[7], vec![PropLit { var: 1, positive: false }]);
    assert!(matches!(solve(&p, &vec![]), SolveReply::Unsat));
}

#[test]
fn a_solution_is_read_off_the_columns() {
    let circ = four_qubit_circuit();
    let p = mip_problem(&circ, 2, 2, None).unwrap();
    let mut chosen = vec![false; p.columns.len()];
    // Gates on qubits 0 and 2 in the first slot, the others in the second.
    for (gate, slot) in [(0, 0), (1, 1), (2, 0), (3, 1), (4, 0), (5, 1)] {
        chosen[p.layout.gate_column(gate, slot)] = true;
    }
    let subs = read_solution(&circ, &p, &chosen).unwrap();
    assert_eq!(subs.len(), 2);
    assert_eq!(subs[0].gates, vec![circ.gates[0], circ.gates[2], circ.gates[4]]);
    assert_eq!(subs[1].gates, vec![circ.gates[1], circ.gates[3], circ.gates[5]]);
    assert_valid(&circ, &subs);
    // A gate without a slot leaves nothing to read.
    chosen[p.layout.gate_column(3, 1)] = false;
    assert!(read_solution(&circ, &p, &chosen).is_none());
}

#[test]
fn a_slice_that_may_not_start_is_refused() {
    let circ = four_qubit_circuit();
    let no_time = |_: usize, _: usize| false;
    assert!(slice_and_optimize(&circ, 2, 4, 3, None, &solve, &no_time).is_none());
    assert!(slice_and_optimize(&circ, 2, 4, 3, None, &never, &any_time).is_none());
    // Two gates per slice: the solver is asked for each in turn.
    let subs = slice_and_optimize(&circ, 2, 4, 3, None, &solve, &any_time).unwrap();
    assert_valid(&circ, &subs);
}

#[test]
fn a_problem_without_models_has_no_partition() {
    // A gate on two qubits does not fit a processor of one.
    let circ = make_circuit(2, vec![Gate::CNOT { control: Qubit(0), target: Qubit(1) }]);
    assert!(optimize_partition(&circ, 1, 2, None, &KeyedMap::new(), &solve).is_none());
    let (subs, _) = optimize_partition(&circ, 2, 2, None, &KeyedMap::new(), &solve).unwrap();
    assert_eq!(subs.len(), 1);
}

#[test]
fn no_partition_moves_fewer_qubits_than_the_one_found() {
    // Three chains on three qubits, which a processor of two must interleave.
    let circ = make_circuit(
        3,
        vec![
            Gate::H(Qubit(0)),
            Gate::CNOT { control: Qubit(1), target: Qubit(2) },
            Gate::CNOT { control: Qubit(0), target: Qubit(1) },
            Gate::T(Qubit(2)),
            Gate::CNOT { control: Qubit(2), target: Qubit(0) },
        ],
    );
    let waits: [(usize, usize); 5] = [(0, 2), (1, 2), (1, 3), (2, 4), (3, 4)];
    let slots = 3usize;
    let mut fewest = usize::MAX;
    for code in 0..243usize {
        let slot_of: Vec<usize> = (0..5u32).map(|g| code / 3usize.pow(g) % 3).collect();
        let gap_free = slot_of.iter().all(|&s| s == 0 || slot_of.contains(&(s - 1)));
        if !gap_free || waits.iter().any(|&(u, v)| slot_of[u] > slot_of[v]) {
            continue;
        }
        let subs = subcircuits_of(&circ, &slot_of, slots);
        if subs.iter().any(|s| s.qubits.len() > 2) {
            continue;
        }
        fewest = fewest.min(count_moves(&to_load_store_circuit(&subs, 2, true)));
    }
    let (subs, _) =
        optimize_partition(&circ, 2, slots, None, &KeyedMap::new(), &solve).unwrap();
    assert_eq!(count_moves(&to_load_store_circuit(&subs, 2, true)), fewest);
    assert_eq!(fewest, 6);
    // Starting below the optimum, nothing is found.
    assert!(optimize_partition(&circ, 2, slots, Some(5), &KeyedMap::new(), &solve).is_none());
}

#[test]
fn a_partition_is_a_solution_that_counts_its_moves() {
    let circ = four_qubit_circuit();
    let p = mip_problem(&circ, 2, 2, Some(6)).unwrap();
    let l = p.layout;
    let mut x = vec![0i64; p.columns.len()];
    // Qubits 0 and 2 in the first slot, 1 and 3 in the second.
    for (gate, slot) in [(0, 0), (1, 1), (2, 0), (3, 1), (4, 0), (5, 1)] {
        x[l.gate_var(gate, slot) as usize] = 1;
    }
    for (qubit, slot) in [(0, 0), (2, 0), (1, 1), (3, 1)] {
        x[l.mem_var(qubit, slot) as usize] = 1;
        x[l.load_var(qubit, slot) as usize] = 1;
    }
    x[l.store_var(0, 1) as usize] = 1;
    x[l.store_var(2, 1) as usize] = 1;
    x[l.used_var(0) as usize] = 1;
    x[l.used_var(1) as usize] = 1;
    let sum = |terms: &Vec<(usize, i64)>| terms.iter().map(|&(c, w)| w * x[c]).sum::<i64>();
    for row in &p.rows {
        let s = sum(&row.terms);
        assert!(s <= row.upper && row.lower.map_or(true, |low| low <= s));
    }
    let cost: i64 = p.columns.iter().zip(&x).map(|(c, v)| c.objective * v).sum();
    let chosen: Vec<bool> = x.iter().map(|&v| v == 1).collect();
    let subs = read_solution(&circ, &p, &chosen).unwrap();
    assert_eq!(cost, 6);
    assert_eq!(count_moves(&to_load_store_circuit(&subs, 2, true)), 6);
    // The objective counts every load, and every store after the first slot.
    let weights: i64 = p.columns.iter().map(|c| c.objective).sum();
    assert_eq!(weights, 4 * 2 + 4);
    // One load less breaks a row.
    x[l.load_var(1, 1) as usize] = 0;
    let sum = |terms: &Vec<(usize, i64)>| terms.iter().map(|&(c, w)| w * x[c]).sum::<i64>();
    assert!(p.rows.iter().any(|row| sum(&row.terms) > row.upper));
}
