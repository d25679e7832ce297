//! Optimal partitioning by SAT: the propositional encoding of the problem, the
//! search for the cheapest model, and what a model says about the partition.

use vstd::prelude::*;

use rustsat::encodings::card::{BoundUpper, Totalizer};
use rustsat::instances::{BasicVarManager, Cnf, ManageVars};
use rustsat::types::{Lit, Var};

use crate::circuit::{Circuit, Qubit};
use crate::keyed::KeyedMap;
#[allow(unused_imports)]
use crate::circuit::{gate_positions, predecessors, successors_upto, Gate};
#[allow(unused_imports)]
use crate::keyed::{increasing, key_lt, OrderedKey};

verus! {

/// A propositional variable or its negation.
#[derive(Clone, Copy, Debug, PartialEq, Eq, Structural)]
pub struct PropLit {
    pub var: u32,
    pub positive: bool,
}

fn prop_lit(var: u32, positive: bool) -> (l: PropLit)
    ensures
        l == (PropLit { var, positive }),
{
    PropLit { var, positive }
}

/// The largest variable index that a solver accepts.
pub const MAX_VAR: u32 = 2147483647;

/// Under assignment `a`, the literal is true.
pub open spec fn lit_true(a: spec_fn(int) -> bool, l: PropLit) -> bool {
    a(l.var as int) == l.positive
}

/// Under assignment `a`, some literal of the clause is true.
pub open spec fn clause_true(a: spec_fn(int) -> bool, c: Seq<PropLit>) -> bool {
    exists|i: int| 0 <= i < c.len() && lit_true(a, #[trigger] c[i])
}

/// Under assignment `a`, every clause is true.
pub open spec fn cnf_true(a: spec_fn(int) -> bool, cs: Seq<Seq<PropLit>>) -> bool {
    forall|i: int| 0 <= i < cs.len() ==> clause_true(a, #[trigger] cs[i])
}

/// Under assignment `a`, every literal is true.
pub open spec fn all_true(a: spec_fn(int) -> bool, ls: Seq<PropLit>) -> bool {
    forall|i: int| 0 <= i < ls.len() ==> lit_true(a, #[trigger] ls[i])
}

/// The number of literals that are true under assignment `a`.
pub open spec fn true_count(a: spec_fn(int) -> bool, ls: Seq<PropLit>) -> nat
    decreases ls.len(),
{
    if ls.len() == 0 {
        0
    } else {
        true_count(a, ls.drop_last()) + if lit_true(a, ls.last()) {
            1nat
        } else {
            0nat
        }
    }
}

/// The two assignments agree on the variables below `n`.
pub open spec fn agree_below(a: spec_fn(int) -> bool, b: spec_fn(int) -> bool, n: int) -> bool {
    forall|v: int| 0 <= v < n ==> #[trigger] a(v) == b(v)
}

/// All variables of the clauses are below `n`.
pub open spec fn vars_below(cs: Seq<Seq<PropLit>>, n: int) -> bool {
    forall|i: int, k: int|
        0 <= i < cs.len() && 0 <= k < cs[i].len() ==> (#[trigger] cs[i][k]).var < n
}

/// All variables of the literals are below `n`.
pub open spec fn lits_below(ls: Seq<PropLit>, n: int) -> bool {
    forall|k: int| 0 <= k < ls.len() ==> (#[trigger] ls[k]).var < n
}

/// The contents of a list of clauses.
pub open spec fn clause_views(cs: Seq<Vec<PropLit>>) -> Seq<Seq<PropLit>> {
    cs.map_values(|c: Vec<PropLit>| c@)
}

/// Clauses that count how many of some literals are true, and for each bound
/// the literals that enforce it.
pub struct UpperBounds {
    pub clauses: Vec<Vec<PropLit>>,
    pub limits: Vec<Vec<PropLit>>,
    pub next_var: u32,
}

/// Some assignment that agrees with `a` below `next_var` satisfies the clauses,
/// and the literals of every bound that `a` keeps.
pub open spec fn extends_to_model(
    a: spec_fn(int) -> bool,
    lits: Seq<PropLit>,
    next_var: int,
    u: UpperBounds,
) -> bool {
    exists|b: spec_fn(int) -> bool|
        #[trigger] agree_below(a, b, next_var) && cnf_true(b, clause_views(u.clauses@)) && (
        forall|k: int|
            0 <= k < u.limits@.len() && true_count(a, lits) <= k ==> all_true(
                b,
                (#[trigger] u.limits@[k])@,
            ))
}

/// The number of binary digits of `n`.
pub open spec fn digits(n: nat) -> nat
    decreases n,
{
    if n == 0 {
        0
    } else {
        1 + digits(n / 2)
    }
}

proof fn lemma_digits_small(n: nat)
    ensures
        digits(n) <= n,
    decreases n,
{
    if n > 0 {
        lemma_digits_small(n / 2);
    }
}

fn count_digits_long(n: u64) -> (r: u64)
    ensures
        r == digits(n as nat),
{
    let mut left: u64 = n;
    let mut r: u64 = 0;
    proof {
        lemma_digits_small(n as nat);
    }
    while left > 0
        invariant
            r + digits(left as nat) == digits(n as nat),
            digits(n as nat) <= n,
        decreases left,
    {
        r = r + 1;
        left = left / 2;
    }
    r
}

fn count_digits(n: usize) -> (r: u64)
    ensures
        r == digits(n as nat),
{
    count_digits_long(n as u64)
}

/// `u` counts `lits` with new variables from `next_var` on, for each literal at most
/// as many as their number has digits, and has the literals that enforce each bound
/// below `bounds`. In a model of the clauses in which the literals for bound `k` hold, at
/// most `k` of `lits` are true; and every assignment extends over the new variables to a
/// model in which the literals of every bound that it keeps hold.
pub open spec fn counts(u: UpperBounds, lits: Seq<PropLit>, bounds: int, next_var: int) -> bool {
    &&& next_var <= u.next_var <= next_var + lits.len() * digits(lits.len())
    &&& u.limits@.len() == bounds
    &&& vars_below(clause_views(u.clauses@), u.next_var as int)
    &&& forall|k: int|
        0 <= k < bounds ==> lits_below((#[trigger] u.limits@[k])@, u.next_var as int)
    &&& forall|a: spec_fn(int) -> bool, k: int|
        0 <= k < bounds && cnf_true(a, clause_views(u.clauses@)) && #[trigger] all_true(
            a,
            u.limits@[k]@,
        ) ==> true_count(a, lits) <= k
    &&& forall|a: spec_fn(int) -> bool| #[trigger] extends_to_model(a, lits, next_var, u)
}

/// `Totalizer` encodes the sum of `lits` (`BoundUpper::encode_ub`), and hands out
/// for each bound below `bounds` the literals that enforce it
/// (`BoundUpper::enforce_ub`). Its tree is built in passes, one for each binary digit
/// of the number of literals; an inner node takes at most one new variable for each
/// literal below it, and a pass has no literal below two nodes. The only error is that
/// memory runs out, which ends the program here as it does wherever a vector grows.
#[verifier::external_body]
fn upper_bounds(lits: &Vec<PropLit>, bounds: usize, next_var: u32) -> (u: UpperBounds)
    requires
        lits_below(lits@, next_var as int),
        next_var + lits@.len() * digits(lits@.len()) <= MAX_VAR,
    ensures
        counts(u, lits@, bounds as int, next_var as int),
{
    let mut tot = Totalizer::from_iter(lits.iter().map(|l| Lit::new(l.var, !l.positive)));
    let mut vars = BasicVarManager::from_next_free(Var::new(next_var));
    let mut cnf = Cnf::new();
    tot.encode_ub(..bounds, &mut cnf, &mut vars).unwrap();
    let plain = |l: &Lit| prop_lit(l.vidx32(), l.is_pos());
    let mut limits = vec![];
    for k in 0..bounds {
        limits.push(tot.enforce_ub(k).unwrap().iter().map(plain).collect())
    }
    UpperBounds {
        clauses: cnf.iter().map(|c| c.iter().map(plain).collect()).collect(),
        limits,
        next_var: vars.n_used(),
    }
}

/// Where the variables of the problem stand: for `slots` subcircuits, which gate
/// runs in which, which qubit is resident, loaded or stored in which, which of
/// them is used, and which qubit is resident beforehand.
#[derive(Clone, Copy, Debug)]
pub struct Layout {
    pub n_gates: usize,
    pub n_qubits: usize,
    pub slots: usize,
}

impl Layout {
    pub open spec fn gate(self, i: int, j: int) -> int {
        i * self.slots + j
    }

    pub open spec fn mem(self, q: int, j: int) -> int {
        self.n_gates * self.slots + q * self.slots + j
    }

    pub open spec fn load(self, q: int, j: int) -> int {
        self.n_gates * self.slots + self.n_qubits * self.slots + q * self.slots + j
    }

    pub open spec fn store(self, q: int, j: int) -> int {
        self.n_gates * self.slots + 2 * (self.n_qubits * self.slots) + q * self.slots + j
    }

    pub open spec fn used(self, j: int) -> int {
        self.n_gates * self.slots + 3 * (self.n_qubits * self.slots) + j
    }

    pub open spec fn pre(self, q: int) -> int {
        self.n_gates * self.slots + 3 * (self.n_qubits * self.slots) + self.slots + q
    }

    /// The number of variables.
    pub open spec fn size(self) -> int {
        self.n_gates * self.slots + 3 * (self.n_qubits * self.slots) + self.slots + self.n_qubits
    }

    /// All variables have an index.
    pub open spec fn indexed(self) -> bool {
        self.size() <= MAX_VAR
    }

    /// How many variables the counters may take: one for the residents of each slot,
    /// and one for all loads and stores.
    pub open spec fn counter_size(self) -> int {
        (self.n_qubits * self.slots) * digits(self.n_qubits as nat) + (2 * (self.n_qubits
            * self.slots)) * digits((2 * (self.n_qubits * self.slots)) as nat)
    }

    /// All variables, and those of the counters over them, have an index.
    pub open spec fn fits(self) -> bool {
        &&& self.indexed()
        &&& self.size() + self.counter_size() <= MAX_VAR
    }

    /// The layout for a circuit, if its variables and those of the counters have an
    /// index.
    pub fn new(n_gates: usize, n_qubits: usize, slots: usize) -> (r: Option<Layout>)
        ensures
            match r {
                Some(l) => l.fits() && l.n_gates == n_gates && l.n_qubits == n_qubits && l.slots
                    == slots,
                None => !(Layout { n_gates, n_qubits, slots }).fits(),
            },
    {
        let l: Layout = match Layout::without_counters(n_gates, n_qubits, slots) {
            Some(l) => l,
            None => return None,
        };
        proof {
            l.lemma_products();
            lemma_digits_small(n_qubits as nat);
            lemma_digits_small((2 * (n_qubits * slots)) as nat);
        }
        let qubit_vars: u128 = (n_qubits * slots) as u128;
        let size: u128 = l.size_vars() as u128;
        let each: u128 = count_digits(n_qubits) as u128;
        let all: u128 = count_digits_long(2 * (n_qubits as u64 * slots as u64)) as u128;
        assert(qubit_vars * each <= 0x7fff_ffff * 0x7fff_ffff) by (nonlinear_arith)
            requires
                0 <= qubit_vars <= 0x7fff_ffff,
                0 <= each <= 0x7fff_ffff,
        ;
        assert((2 * qubit_vars) * all <= 0xffff_fffe * 0xffff_fffe) by (nonlinear_arith)
            requires
                0 <= 2 * qubit_vars <= 0xffff_fffe,
                0 <= all <= 0xffff_fffe,
        ;
        if size + qubit_vars * each + (2 * qubit_vars) * all <= MAX_VAR as u128 {
            Some(l)
        } else {
            None
        }
    }

    /// The layout for a circuit, if its variables have an index.
    pub fn without_counters(n_gates: usize, n_qubits: usize, slots: usize) -> (r: Option<Layout>)
        ensures
            match r {
                Some(l) => l.indexed() && l.n_gates == n_gates && l.n_qubits == n_qubits && l.slots
                    == slots,
                None => !(Layout { n_gates, n_qubits, slots }).indexed(),
            },
    {
        let l = Layout { n_gates, n_qubits, slots };
        proof {
            l.lemma_products();
        }
        let gate_vars: usize = match n_gates.checked_mul(slots) {
            Some(v) => v,
            None => return None,
        };
        let qubit_vars: usize = match n_qubits.checked_mul(slots) {
            Some(v) => v,
            None => return None,
        };
        if gate_vars > MAX_VAR as usize || qubit_vars > MAX_VAR as usize || slots > MAX_VAR as usize
            || n_qubits > MAX_VAR as usize {
            return None;
        }
        let total: u64 = gate_vars as u64 + 3 * (qubit_vars as u64) + slots as u64 + n_qubits as u64;
        if total <= MAX_VAR as u64 {
            Some(l)
        } else {
            None
        }
    }

    /// The number of variables.
    fn size_vars(&self) -> (v: u32)
        requires
            self.indexed(),
        ensures
            v == self.size(),
    {
        proof {
            self.lemma_products();
        }
        (self.n_gates * self.slots + 3 * (self.n_qubits * self.slots) + self.slots + self.n_qubits) as u32
    }

    proof fn lemma_index(self, rows: int, i: int, j: int)
        requires
            0 <= i < rows,
            0 <= j < self.slots,
        ensures
            0 <= i * self.slots,
            i * self.slots + j < rows * self.slots,
    {
        assert(0 <= i * self.slots) by (nonlinear_arith)
            requires
                0 <= i,
                0 <= self.slots,
        ;
        assert((i + 1) * self.slots <= rows * self.slots) by (nonlinear_arith)
            requires
                i + 1 <= rows,
                0 <= self.slots,
        ;
        assert((i + 1) * self.slots == i * self.slots + self.slots) by (nonlinear_arith);
    }

    /// The products that positions are made of are not negative.
    pub proof fn lemma_products(self)
        ensures
            0 <= self.n_gates * self.slots,
            0 <= self.n_qubits * self.slots,
    {
        assert(0 <= self.n_gates * self.slots) by (nonlinear_arith);
        assert(0 <= self.n_qubits * self.slots) by (nonlinear_arith);
    }

    pub fn gate_var(&self, i: usize, j: usize) -> (v: u32)
        requires
            self.indexed(),
            i < self.n_gates,
            j < self.slots,
        ensures
            v == self.gate(i as int, j as int),
            v < self.size(),
    {
        proof {
            self.lemma_products();
            self.lemma_index(self.n_gates as int, i as int, j as int);
        }
        (i * self.slots + j) as u32
    }

    pub fn mem_var(&self, q: usize, j: usize) -> (v: u32)
        requires
            self.indexed(),
            q < self.n_qubits,
            j < self.slots,
        ensures
            v == self.mem(q as int, j as int),
            v < self.size(),
    {
        proof {
            self.lemma_products();
            self.lemma_index(self.n_qubits as int, q as int, j as int);
        }
        (self.n_gates * self.slots + q * self.slots + j) as u32
    }

    pub fn load_var(&self, q: usize, j: usize) -> (v: u32)
        requires
            self.indexed(),
            q < self.n_qubits,
            j < self.slots,
        ensures
            v == self.load(q as int, j as int),
            v < self.size(),
    {
        proof {
            self.lemma_products();
            self.lemma_index(self.n_qubits as int, q as int, j as int);
        }
        (self.n_gates * self.slots + self.n_qubits * self.slots + q * self.slots + j) as u32
    }

    pub fn store_var(&self, q: usize, j: usize) -> (v: u32)
        requires
            self.indexed(),
            q < self.n_qubits,
            j < self.slots,
        ensures
            v == self.store(q as int, j as int),
            v < self.size(),
    {
        proof {
            self.lemma_products();
            self.lemma_index(self.n_qubits as int, q as int, j as int);
        }
        (self.n_gates * self.slots + 2 * (self.n_qubits * self.slots) + q * self.slots + j) as u32
    }

    pub fn used_var(&self, j: usize) -> (v: u32)
        requires
            self.indexed(),
            j < self.slots,
        ensures
            v == self.used(j as int),
            v < self.size(),
    {
        proof {
            self.lemma_products();
        }
        (self.n_gates * self.slots + 3 * (self.n_qubits * self.slots) + j) as u32
    }

    /// Numbers of slots and qubits are small where the variables have an index.
    pub proof fn lemma_slots_fit(self)
        requires
            self.indexed(),
        ensures
            self.slots <= MAX_VAR,
            self.n_qubits <= MAX_VAR,
    {
        self.lemma_products();
    }

    /// The column of a placement.
    pub fn gate_column(&self, i: usize, j: usize) -> (c: usize)
        requires
            self.indexed(),
            i < self.n_gates,
            j < self.slots,
        ensures
            c == self.gate(i as int, j as int),
            c < self.n_gates * self.slots,
    {
        proof {
            self.lemma_products();
            self.lemma_index(self.n_gates as int, i as int, j as int);
        }
        i * self.slots + j
    }

    fn pre_var(&self, q: usize) -> (v: u32)
        requires
            self.indexed(),
            q < self.n_qubits,
        ensures
            v == self.pre(q as int),
            v < self.size(),
    {
        proof {
            self.lemma_products();
        }
        (self.n_gates * self.slots + 3 * (self.n_qubits * self.slots) + self.slots + q) as u32
    }
}

pub open spec fn pos(v: int) -> PropLit {
    PropLit { var: v as u32, positive: true }
}

pub open spec fn neg(v: int) -> PropLit {
    PropLit { var: v as u32, positive: false }
}

// ---------------------------------------------------------------------------
// The clauses
// ---------------------------------------------------------------------------
/// Gate `i` does not run both in slot `x` and in a later one.
pub open spec fn not_twice_after(l: Layout, i: int, x: int) -> Seq<Seq<PropLit>> {
    Seq::new(
        (l.slots - x - 1) as nat,
        |t: int| seq![neg(l.gate(i, x)), neg(l.gate(i, x + 1 + t))],
    )
}

pub open spec fn not_twice(l: Layout, i: int, x: int) -> Seq<Seq<PropLit>>
    decreases x,
{
    if x <= 0 {
        Seq::empty()
    } else {
        not_twice(l, i, x - 1) + not_twice_after(l, i, x - 1)
    }
}

/// Each of the first `i` gates runs in exactly one slot.
pub open spec fn placement_clauses(l: Layout, i: int) -> Seq<Seq<PropLit>>
    decreases i,
{
    if i <= 0 {
        Seq::empty()
    } else {
        placement_clauses(l, i - 1).push(
            Seq::new(l.slots as nat, |j: int| pos(l.gate(i - 1, j))),
        ) + not_twice(l, i - 1, l.slots as int)
    }
}

/// Gate `u` does not run in slot `i` while `v` runs in an earlier one.
pub open spec fn not_before(l: Layout, u: int, v: int, i: int) -> Seq<Seq<PropLit>> {
    Seq::new(i as nat, |j: int| seq![neg(l.gate(u, i)), neg(l.gate(v, j))])
}

pub open spec fn order_of_pair(l: Layout, u: int, v: int, i: int) -> Seq<Seq<PropLit>>
    decreases i,
{
    if i <= 0 {
        Seq::empty()
    } else {
        order_of_pair(l, u, v, i - 1) + not_before(l, u, v, i - 1)
    }
}

pub open spec fn order_of_successors(l: Layout, u: int, succ: Seq<int>) -> Seq<Seq<PropLit>>
    decreases succ.len(),
{
    if succ.len() == 0 {
        Seq::empty()
    } else {
        order_of_successors(l, u, succ.drop_last()) + order_of_pair(l, u, succ.last(), l.slots as int)
    }
}

/// No gate runs in a later slot than a gate that waits for it.
pub open spec fn order_clauses(l: Layout, gates: Seq<Gate<Qubit>>, u: int) -> Seq<Seq<PropLit>>
    decreases u,
{
    if u <= 0 {
        Seq::empty()
    } else {
        order_clauses(l, gates, u - 1) + order_of_successors(
            l,
            u - 1,
            successors_upto(gates, u - 1, gates.len() as int),
        )
    }
}

/// The position of `q` among the qubits of the circuit.
pub open spec fn qubit_position(qubits: Seq<Qubit>, q: Qubit) -> int {
    choose|i: int| 0 <= i < qubits.len() && qubits[i] == q
}

/// A gate in slot `j` has its operands resident there.
pub open spec fn resident_in_slot(l: Layout, qubits: Seq<Qubit>, g: Gate<Qubit>, i: int, j: int) -> Seq<
    Seq<PropLit>,
> {
    Seq::new(
        g.operands().len(),
        |k: int|
            seq![
                neg(l.gate(i, j)),
                pos(l.mem(qubit_position(qubits, g.operands()[k]), j)),
            ],
    )
}

pub open spec fn resident_of_gate(l: Layout, qubits: Seq<Qubit>, g: Gate<Qubit>, i: int, j: int) -> Seq<
    Seq<PropLit>,
>
    decreases j,
{
    if j <= 0 {
        Seq::empty()
    } else {
        resident_of_gate(l, qubits, g, i, j - 1) + resident_in_slot(l, qubits, g, i, j - 1)
    }
}

pub open spec fn resident_clauses(
    l: Layout,
    qubits: Seq<Qubit>,
    gates: Seq<Gate<Qubit>>,
    i: int,
) -> Seq<Seq<PropLit>>
    decreases i,
{
    if i <= 0 {
        Seq::empty()
    } else {
        resident_clauses(l, qubits, gates, i - 1) + resident_of_gate(
            l,
            qubits,
            gates[i - 1],
            i - 1,
            l.slots as int,
        )
    }
}

/// Whether `q` is on the processor beforehand.
pub open spec fn is_preloaded(pre_loaded: Map<Qubit, bool>, q: Qubit) -> bool {
    pre_loaded.dom().contains(q) && pre_loaded[q]
}

/// A qubit that is resident in slot 0 and was not before is loaded, one that was
/// and is not is stored; who was resident before is fixed.
pub open spec fn entry_clauses(
    l: Layout,
    qubits: Seq<Qubit>,
    pre_loaded: Map<Qubit, bool>,
    q: int,
) -> Seq<Seq<PropLit>>
    decreases q,
{
    if q <= 0 {
        Seq::empty()
    } else {
        entry_clauses(l, qubits, pre_loaded, q - 1) + seq![
            seq![pos(l.pre(q - 1)), neg(l.mem(q - 1, 0)), pos(l.load(q - 1, 0))],
            seq![neg(l.pre(q - 1)), pos(l.mem(q - 1, 0)), pos(l.store(q - 1, 0))],
            seq![
                if is_preloaded(pre_loaded, qubits[q - 1]) {
                    pos(l.pre(q - 1))
                } else {
                    neg(l.pre(q - 1))
                },
            ],
        ]
    }
}

/// The same between slot `i` and the next.
pub open spec fn step_clauses(l: Layout, i: int, q: int) -> Seq<Seq<PropLit>>
    decreases q,
{
    if q <= 0 {
        Seq::empty()
    } else {
        step_clauses(l, i, q - 1) + seq![
            seq![pos(l.mem(q - 1, i)), neg(l.mem(q - 1, i + 1)), pos(l.load(q - 1, i + 1))],
            seq![neg(l.mem(q - 1, i)), pos(l.mem(q - 1, i + 1)), pos(l.store(q - 1, i + 1))],
        ]
    }
}

pub open spec fn transition_clauses(l: Layout, i: int) -> Seq<Seq<PropLit>>
    decreases i,
{
    if i <= 0 {
        Seq::empty()
    } else {
        transition_clauses(l, i - 1) + step_clauses(l, i - 1, l.n_qubits as int)
    }
}

/// A slot with a gate is used.
pub open spec fn used_by_gates(l: Layout, j: int) -> Seq<Seq<PropLit>> {
    Seq::new(l.n_gates as nat, |i: int| seq![neg(l.gate(i, j)), pos(l.used(j))])
}

pub open spec fn used_if_gate(l: Layout, j: int) -> Seq<Seq<PropLit>>
    decreases j,
{
    if j <= 0 {
        Seq::empty()
    } else {
        used_if_gate(l, j - 1) + used_by_gates(l, j - 1)
    }
}

/// A used slot has a gate.
pub open spec fn gate_if_used(l: Layout) -> Seq<Seq<PropLit>> {
    Seq::new(
        l.slots as nat,
        |j: int|
            Seq::new(
                l.n_gates as nat + 1,
                |t: int|
                    if t == 0 {
                        neg(l.used(j))
                    } else {
                        pos(l.gate(t - 1, j))
                    },
            ),
    )
}

/// The used slots form a prefix.
pub open spec fn no_gaps(l: Layout) -> Seq<Seq<PropLit>> {
    Seq::new(
        (if l.slots > 0 {
            l.slots - 1
        } else {
            0
        }) as nat,
        |j: int| seq![neg(l.used(j + 1)), pos(l.used(j))],
    )
}

/// All clauses but those that bound the number of resident qubits.
pub open spec fn structure_clauses(
    l: Layout,
    qubits: Seq<Qubit>,
    gates: Seq<Gate<Qubit>>,
    pre_loaded: Map<Qubit, bool>,
) -> Seq<Seq<PropLit>> {
    placement_clauses(l, l.n_gates as int) + order_clauses(l, gates, l.n_gates as int)
        + resident_clauses(l, qubits, gates, l.n_gates as int) + entry_clauses(
        l,
        qubits,
        pre_loaded,
        l.n_qubits as int,
    ) + transition_clauses(l, l.slots - 1) + used_if_gate(l, l.slots as int) + gate_if_used(l)
        + no_gaps(l)
}

fn positive(var: u32) -> (l: PropLit)
    ensures
        l == pos(var as int),
{
    prop_lit(var, true)
}

fn negative(var: u32) -> (l: PropLit)
    ensures
        l == neg(var as int),
{
    prop_lit(var, false)
}

proof fn lemma_clause_views_push(cs: Seq<Vec<PropLit>>, c: Vec<PropLit>)
    ensures
        clause_views(cs.push(c)) == clause_views(cs).push(c@),
{
    assert(clause_views(cs.push(c)) =~= clause_views(cs).push(c@));
}

fn push_clause(cs: &mut Vec<Vec<PropLit>>, c: Vec<PropLit>)
    ensures
        clause_views(final(cs)@) == clause_views(old(cs)@).push(c@),
        forall|n: int|
            vars_below(clause_views(old(cs)@), n) && lits_below(c@, n) ==> #[trigger] vars_below(
                clause_views(final(cs)@),
                n,
            ),
{
    proof {
        lemma_clause_views_push(cs@, c);
    }
    cs.push(c);
}

fn push_pair(cs: &mut Vec<Vec<PropLit>>, x: PropLit, y: PropLit)
    ensures
        clause_views(final(cs)@) == clause_views(old(cs)@).push(seq![x, y]),
        forall|n: int|
            vars_below(clause_views(old(cs)@), n) && x.var < n && y.var < n ==> #[trigger] vars_below(
                clause_views(final(cs)@),
                n,
            ),
{
    let c: Vec<PropLit> = vec![x, y];
    assert(c@ =~= seq![x, y]);
    push_clause(cs, c);
}

fn push_triple(cs: &mut Vec<Vec<PropLit>>, x: PropLit, y: PropLit, z: PropLit)
    ensures
        clause_views(final(cs)@) == clause_views(old(cs)@).push(seq![x, y, z]),
        forall|n: int|
            vars_below(clause_views(old(cs)@), n) && x.var < n && y.var < n && z.var < n ==> #[trigger] vars_below(
                clause_views(final(cs)@),
                n,
            ),
{
    let c: Vec<PropLit> = vec![x, y, z];
    assert(c@ =~= seq![x, y, z]);
    push_clause(cs, c);
}

fn push_unit(cs: &mut Vec<Vec<PropLit>>, x: PropLit)
    ensures
        clause_views(final(cs)@) == clause_views(old(cs)@).push(seq![x]),
        forall|n: int|
            vars_below(clause_views(old(cs)@), n) && x.var < n ==> #[trigger] vars_below(
                clause_views(final(cs)@),
                n,
            ),
{
    let c: Vec<PropLit> = vec![x];
    assert(c@ =~= seq![x]);
    push_clause(cs, c);
}

/// Every gate runs in exactly one slot.
fn push_placement(cs: &mut Vec<Vec<PropLit>>, l: &Layout)
    requires
        l.indexed(),
        vars_below(clause_views(old(cs)@), l.size()),
    ensures
        vars_below(clause_views(final(cs)@), l.size()),
        clause_views(final(cs)@) == clause_views(old(cs)@) + placement_clauses(
            *l,
            l.n_gates as int,
        ),
{
    let ghost base = clause_views(cs@);
    assert(base + placement_clauses(*l, 0) =~= base);
    for i in 0..l.n_gates
        invariant
            l.indexed(),
            vars_below(clause_views(cs@), l.size()),
            clause_views(cs@) == base + placement_clauses(*l, i as int),
    {
        let mut some_slot: Vec<PropLit> = Vec::new();
        let ghost all = Seq::new(l.slots as nat, |j: int| pos(l.gate(i as int, j)));
        for j in 0..l.slots
            invariant
                l.indexed(),
                i < l.n_gates,
                all == Seq::new(l.slots as nat, |j: int| pos(l.gate(i as int, j))),
                some_slot@ == all.take(j as int),
                lits_below(some_slot@, l.size()),
        {
            some_slot.push(positive(l.gate_var(i, j)));
            assert(some_slot@ =~= all.take(j + 1));
        }
        assert(some_slot@ =~= all);
        push_clause(cs, some_slot);
        let ghost mid = clause_views(cs@);
        assert(mid + not_twice(*l, i as int, 0) =~= mid);
        for x in 0..l.slots
            invariant
                l.indexed(),
                i < l.n_gates,
                vars_below(clause_views(cs@), l.size()),
                clause_views(cs@) == mid + not_twice(*l, i as int, x as int),
        {
            let ghost here = clause_views(cs@);
            let ghost rest = not_twice_after(*l, i as int, x as int);
            assert(here + rest.take(0) =~= here);
            for y in (x + 1)..l.slots
                invariant
                    l.indexed(),
                    i < l.n_gates,
                    x < l.slots,
                    rest == not_twice_after(*l, i as int, x as int),
                    vars_below(clause_views(cs@), l.size()),
                    clause_views(cs@) == here + rest.take(y - x - 1),
            {
                push_pair(cs, negative(l.gate_var(i, x)), negative(l.gate_var(i, y)));
                assert(rest[y - x - 1] == seq![
                    neg(l.gate(i as int, x as int)),
                    neg(l.gate(i as int, x + 1 + (y - x - 1))),
                ]);
                assert(clause_views(cs@) =~= here + rest.take(y - x));
            }
            assert(rest.take(rest.len() as int) =~= rest);
            assert(clause_views(cs@) =~= mid + not_twice(*l, i as int, x + 1));
        }
        assert(clause_views(cs@) =~= base + placement_clauses(*l, i + 1));
    }
}

/// No gate runs in a later slot than a gate that waits for it.
fn push_order(cs: &mut Vec<Vec<PropLit>>, l: &Layout, circ: &Circuit)
    requires
        l.indexed(),
        vars_below(clause_views(old(cs)@), l.size()),
        l.n_gates == circ.gates@.len(),
    ensures
        vars_below(clause_views(final(cs)@), l.size()),
        clause_views(final(cs)@) == clause_views(old(cs)@) + order_clauses(
            *l,
            circ.gates@,
            l.n_gates as int,
        ),
{
    let dag = circ.to_dag();
    let ghost gs = circ.gates@;
    let ghost base = clause_views(cs@);
    assert(base + order_clauses(*l, gs, 0) =~= base);
    for u in 0..l.n_gates
        invariant
            l.indexed(),
            gs == circ.gates@,
            l.n_gates == gs.len(),
            dag.successors@.len() == gs.len(),
            forall|g: int|
                0 <= g < gs.len() ==> gate_positions((#[trigger] dag.successors@[g])@)
                    == successors_upto(gs, g, gs.len() as int),
            vars_below(clause_views(cs@), l.size()),
            clause_views(cs@) == base + order_clauses(*l, gs, u as int),
    {
        let succ = &dag.successors[u];
        let ghost list = successors_upto(gs, u as int, gs.len() as int);
        let ghost here = clause_views(cs@);
        proof {
            crate::partition::lemma_successors_upto(gs, u as int, gs.len() as int);
            assert(list.take(0) =~= Seq::empty());
            assert(here + order_of_successors(*l, u as int, list.take(0)) =~= here);
        }
        for k in 0..succ.len()
            invariant
                l.indexed(),
                u < l.n_gates,
                l.n_gates == gs.len(),
                gate_positions(succ@) == list,
                forall|i: int| #[trigger]
                    list.contains(i) ==> 0 <= i < gs.len(),
                vars_below(clause_views(cs@), l.size()),
                clause_views(cs@) == here + order_of_successors(
                    *l,
                    u as int,
                    list.take(k as int),
                ),
        {
            let v: usize = succ[k].0;
            proof {
                assert(gate_positions(succ@)[k as int] == v as int);
                assert(list.contains(list[k as int]));
                assert(list.take(k + 1).drop_last() =~= list.take(k as int));
            }
            let ghost mid = clause_views(cs@);
            assert(mid + order_of_pair(*l, u as int, v as int, 0) =~= mid);
            for i in 0..l.slots
                invariant
                    l.indexed(),
                    u < l.n_gates,
                    v < l.n_gates,
                    vars_below(clause_views(cs@), l.size()),
                    clause_views(cs@) == mid + order_of_pair(*l, u as int, v as int, i as int),
            {
                let ghost deep = clause_views(cs@);
                let ghost rest = not_before(*l, u as int, v as int, i as int);
                assert(deep + rest.take(0) =~= deep);
                for j in 0..i
                    invariant
                        l.indexed(),
                        u < l.n_gates,
                        v < l.n_gates,
                        i < l.slots,
                        rest == not_before(*l, u as int, v as int, i as int),
                        vars_below(clause_views(cs@), l.size()),
                        clause_views(cs@) == deep + rest.take(j as int),
                {
                    push_pair(cs, negative(l.gate_var(u, i)), negative(l.gate_var(v, j)));
                    assert(clause_views(cs@) =~= deep + rest.take(j + 1));
                }
                assert(rest.take(rest.len() as int) =~= rest);
                assert(clause_views(cs@) =~= mid + order_of_pair(*l, u as int, v as int, i + 1));
            }
            assert(clause_views(cs@) =~= here + order_of_successors(
                *l,
                u as int,
                list.take(k + 1),
            ));
        }
        assert(list.take(list.len() as int) =~= list);
        assert(clause_views(cs@) =~= base + order_clauses(*l, gs, u + 1));
    }
}

/// The positions of the operands of `ops` among `qubits`.
pub fn operand_positions(qubits: &Vec<Qubit>, ops: &Vec<Qubit>) -> (r: Vec<usize>)
    requires
        increasing(qubits@),
        forall|k: int| 0 <= k < ops@.len() ==> qubits@.contains(#[trigger] ops@[k]),
    ensures
        r@.len() == ops@.len(),
        forall|k: int|
            0 <= k < ops@.len() ==> #[trigger] r@[k] == qubit_position(qubits@, ops@[k]) && r@[k]
                < qubits@.len(),
{
    let mut r: Vec<usize> = Vec::new();
    for k in 0..ops.len()
        invariant
            increasing(qubits@),
            forall|k: int| 0 <= k < ops@.len() ==> qubits@.contains(#[trigger] ops@[k]),
            r@.len() == k,
            forall|j: int|
                0 <= j < k ==> #[trigger] r@[j] == qubit_position(qubits@, ops@[j]) && r@[j]
                    < qubits@.len(),
    {
        let q = ops[k];
        assert(qubits@.contains(ops@[k as int]));
        let ghost p = qubits@.index_of(q);
        let mut i: usize = 0;
        while qubits[i].0 != q.0
            invariant
                i <= p < qubits.len(),
                qubits@[p] == q,
            decreases p - i,
        {
            i = i + 1;
        }
        proof {
            lemma_qubit_position(qubits@, i as int);
        }
        r.push(i);
    }
    r
}

proof fn lemma_qubit_position(qubits: Seq<Qubit>, i: int)
    requires
        increasing(qubits),
        0 <= i < qubits.len(),
    ensures
        qubit_position(qubits, qubits[i]) == i,
{
    let p = qubit_position(qubits, qubits[i]);
    assert(0 <= p < qubits.len() && qubits[p] == qubits[i]);
    if p < i {
        assert(key_lt(qubits[p].key(), qubits[i].key()));
    } else if i < p {
        assert(key_lt(qubits[i].key(), qubits[p].key()));
    }
}

/// A gate has its operands resident where it runs.
fn push_resident(cs: &mut Vec<Vec<PropLit>>, l: &Layout, circ: &Circuit)
    requires
        l.indexed(),
        vars_below(clause_views(old(cs)@), l.size()),
        circ.wf(),
        l.n_gates == circ.gates@.len(),
        l.n_qubits == circ.qubits@.len(),
    ensures
        vars_below(clause_views(final(cs)@), l.size()),
        clause_views(final(cs)@) == clause_views(old(cs)@) + resident_clauses(
            *l,
            circ.qubits@,
            circ.gates@,
            l.n_gates as int,
        ),
{
    let ghost base = clause_views(cs@);
    let ghost qs = circ.qubits@;
    assert(base + resident_clauses(*l, qs, circ.gates@, 0) =~= base);
    for i in 0..l.n_gates
        invariant
            l.indexed(),
            circ.wf(),
            qs == circ.qubits@,
            l.n_gates == circ.gates@.len(),
            l.n_qubits == circ.qubits@.len(),
            vars_below(clause_views(cs@), l.size()),
            clause_views(cs@) == base + resident_clauses(*l, qs, circ.gates@, i as int),
    {
        let ghost g = circ.gates@[i as int];
        let ops = circ.gates[i].qubits();
        proof {
            assert forall|k: int| 0 <= k < ops@.len() implies qs.contains(#[trigger] ops@[k]) by {
                assert(g.operands().contains(ops@[k]));
                assert(crate::circuit::acts_on(circ.gates@, ops@[k]));
            }
        }
        let positions = operand_positions(&circ.qubits, &ops);
        let ghost here = clause_views(cs@);
        assert(here + resident_of_gate(*l, qs, g, i as int, 0) =~= here);
        for j in 0..l.slots
            invariant
                l.indexed(),
                i < l.n_gates,
                l.n_qubits == qs.len(),
                ops@ == g.operands(),
                positions@.len() == ops@.len(),
                forall|k: int|
                    0 <= k < ops@.len() ==> #[trigger] positions@[k] == qubit_position(
                        qs,
                        ops@[k],
                    ) && positions@[k] < qs.len(),
                vars_below(clause_views(cs@), l.size()),
                clause_views(cs@) == here + resident_of_gate(*l, qs, g, i as int, j as int),
        {
            let ghost mid = clause_views(cs@);
            let ghost rest = resident_in_slot(*l, qs, g, i as int, j as int);
            assert(mid + rest.take(0) =~= mid);
            for k in 0..positions.len()
                invariant
                    l.indexed(),
                    i < l.n_gates,
                    j < l.slots,
                    l.n_qubits == qs.len(),
                    ops@ == g.operands(),
                    positions@.len() == ops@.len(),
                    forall|k: int|
                        0 <= k < ops@.len() ==> #[trigger] positions@[k] == qubit_position(
                            qs,
                            ops@[k],
                        ) && positions@[k] < qs.len(),
                    rest == resident_in_slot(*l, qs, g, i as int, j as int),
                    vars_below(clause_views(cs@), l.size()),
                    clause_views(cs@) == mid + rest.take(k as int),
            {
                let p: usize = positions[k];
                push_pair(cs, negative(l.gate_var(i, j)), positive(l.mem_var(p, j)));
                assert(clause_views(cs@) =~= mid + rest.take(k + 1));
            }
            assert(rest.take(rest.len() as int) =~= rest);
            assert(clause_views(cs@) =~= here + resident_of_gate(*l, qs, g, i as int, j + 1));
        }
        assert(clause_views(cs@) =~= base + resident_clauses(*l, qs, circ.gates@, i + 1));
    }
}

/// Becoming resident is a load, ceasing to be is a store.
fn push_transitions(
    cs: &mut Vec<Vec<PropLit>>,
    l: &Layout,
    circ: &Circuit,
    pre_loaded: &KeyedMap<Qubit, bool>,
)
    requires
        l.indexed(),
        vars_below(clause_views(old(cs)@), l.size()),
        l.slots > 0,
        l.n_qubits == circ.qubits@.len(),
    ensures
        vars_below(clause_views(final(cs)@), l.size()),
        clause_views(final(cs)@) == clause_views(old(cs)@) + entry_clauses(
            *l,
            circ.qubits@,
            pre_loaded@,
            l.n_qubits as int,
        ) + transition_clauses(*l, l.slots - 1),
{
    let ghost base = clause_views(cs@);
    let ghost qs = circ.qubits@;
    assert(base + entry_clauses(*l, qs, pre_loaded@, 0) =~= base);
    for q in 0..l.n_qubits
        invariant
            l.indexed(),
            l.slots > 0,
            qs == circ.qubits@,
            l.n_qubits == qs.len(),
            vars_below(clause_views(cs@), l.size()),
            clause_views(cs@) == base + entry_clauses(*l, qs, pre_loaded@, q as int),
    {
        push_triple(
            cs,
            positive(l.pre_var(q)),
            negative(l.mem_var(q, 0)),
            positive(l.load_var(q, 0)),
        );
        push_triple(
            cs,
            negative(l.pre_var(q)),
            positive(l.mem_var(q, 0)),
            positive(l.store_var(q, 0)),
        );
        let before = match pre_loaded.get(&circ.qubits[q]) {
            Some(b) => *b,
            None => false,
        };
        if before {
            push_unit(cs, positive(l.pre_var(q)));
        } else {
            push_unit(cs, negative(l.pre_var(q)));
        }
        assert(clause_views(cs@) =~= base + entry_clauses(*l, qs, pre_loaded@, q + 1));
    }
    let ghost mid = clause_views(cs@);
    assert(mid + transition_clauses(*l, 0) =~= mid);
    for i in 0..(l.slots - 1)
        invariant
            l.indexed(),
            l.slots > 0,
            vars_below(clause_views(cs@), l.size()),
            clause_views(cs@) == mid + transition_clauses(*l, i as int),
    {
        let ghost here = clause_views(cs@);
        assert(here + step_clauses(*l, i as int, 0) =~= here);
        for q in 0..l.n_qubits
            invariant
                l.indexed(),
                i < l.slots - 1,
                vars_below(clause_views(cs@), l.size()),
                clause_views(cs@) == here + step_clauses(*l, i as int, q as int),
        {
            push_triple(
                cs,
                positive(l.mem_var(q, i)),
                negative(l.mem_var(q, i + 1)),
                positive(l.load_var(q, i + 1)),
            );
            push_triple(
                cs,
                negative(l.mem_var(q, i)),
                positive(l.mem_var(q, i + 1)),
                positive(l.store_var(q, i + 1)),
            );
            assert(clause_views(cs@) =~= here + step_clauses(*l, i as int, q + 1));
        }
        assert(clause_views(cs@) =~= mid + transition_clauses(*l, i + 1));
    }
}

/// The used slots are those with a gate, and form a prefix.
fn push_used(cs: &mut Vec<Vec<PropLit>>, l: &Layout)
    requires
        l.indexed(),
        vars_below(clause_views(old(cs)@), l.size()),
        l.slots > 0,
        l.n_gates < usize::MAX,
    ensures
        vars_below(clause_views(final(cs)@), l.size()),
        clause_views(final(cs)@) == clause_views(old(cs)@) + used_if_gate(*l, l.slots as int)
            + gate_if_used(*l) + no_gaps(*l),
{
    let ghost base = clause_views(cs@);
    assert(base + used_if_gate(*l, 0) =~= base);
    for j in 0..l.slots
        invariant
            l.indexed(),
            vars_below(clause_views(cs@), l.size()),
            clause_views(cs@) == base + used_if_gate(*l, j as int),
    {
        let ghost here = clause_views(cs@);
        let ghost rest = used_by_gates(*l, j as int);
        assert(here + rest.take(0) =~= here);
        for i in 0..l.n_gates
            invariant
                l.indexed(),
                j < l.slots,
                rest == used_by_gates(*l, j as int),
                vars_below(clause_views(cs@), l.size()),
                clause_views(cs@) == here + rest.take(i as int),
        {
            push_pair(cs, negative(l.gate_var(i, j)), positive(l.used_var(j)));
            assert(clause_views(cs@) =~= here + rest.take(i + 1));
        }
        assert(rest.take(rest.len() as int) =~= rest);
        assert(clause_views(cs@) =~= base + used_if_gate(*l, j + 1));
    }
    let ghost mid = clause_views(cs@);
    let ghost fwd = gate_if_used(*l);
    assert(mid + fwd.take(0) =~= mid);
    for j in 0..l.slots
        invariant
            l.indexed(),
            fwd == gate_if_used(*l),
            vars_below(clause_views(cs@), l.size()),
            clause_views(cs@) == mid + fwd.take(j as int),
    {
        let mut c: Vec<PropLit> = vec![negative(l.used_var(j))];
        let ghost goal = fwd[j as int];
        assert(c@ =~= goal.take(1));
        for i in 0..l.n_gates
            invariant
                l.indexed(),
                j < l.slots,
                fwd == gate_if_used(*l),
                goal == fwd[j as int],
                c@ == goal.take(i + 1),
                lits_below(c@, l.size()),
        {
            c.push(positive(l.gate_var(i, j)));
            assert(c@ =~= goal.take(i + 2));
        }
        assert(c@ =~= goal);
        push_clause(cs, c);
        assert(clause_views(cs@) =~= mid + fwd.take(j + 1));
    }
    assert(fwd.take(fwd.len() as int) =~= fwd);
    let ghost end = clause_views(cs@);
    let ghost gaps = no_gaps(*l);
    assert(end + gaps.take(0) =~= end);
    for j in 0..(l.slots - 1)
        invariant
            l.indexed(),
            l.slots > 0,
            gaps == no_gaps(*l),
            vars_below(clause_views(cs@), l.size()),
            clause_views(cs@) == end + gaps.take(j as int),
    {
        push_pair(cs, negative(l.used_var(j + 1)), positive(l.used_var(j)));
        assert(clause_views(cs@) =~= end + gaps.take(j + 1));
    }
    assert(gaps.take(gaps.len() as int) =~= gaps);
}

// ---------------------------------------------------------------------------
// What the clauses mean
// ---------------------------------------------------------------------------
/// What a model of the structure says: every gate runs in exactly one slot, with
/// its operands resident and no earlier than what it waits for; residency only
/// changes by loads and stores; and the used slots are those with a gate, and
/// form a prefix.
pub open spec fn describes_partition(
    a: spec_fn(int) -> bool,
    l: Layout,
    qubits: Seq<Qubit>,
    gates: Seq<Gate<Qubit>>,
    pre_loaded: Map<Qubit, bool>,
) -> bool {
    &&& forall|i: int| 0 <= i < l.n_gates ==> #[trigger] runs_once(a, l, i)
    &&& forall|u: int, v: int|
        0 <= u < l.n_gates && #[trigger] successors_upto(gates, u, gates.len() as int).contains(v)
            ==> runs_in_order(a, l, u, v)
    &&& forall|i: int| 0 <= i < l.n_gates ==> #[trigger] operands_resident(a, l, qubits, gates[i], i)
    &&& forall|q: int|
        0 <= q < l.n_qubits ==> #[trigger] a(l.pre(q)) == is_preloaded(pre_loaded, qubits[q])
            && moved(a, l, q, a(l.pre(q)), 0)
    &&& forall|i: int, q: int|
        0 <= i < l.slots - 1 && 0 <= q < l.n_qubits ==> moved(
            a,
            l,
            q,
            #[trigger] a(l.mem(q, i)),
            i + 1,
        )
    &&& forall|j: int| 0 <= j < l.slots ==> #[trigger] a(l.used(j)) == slot_has_gate(a, l, j)
    &&& forall|j: int| 0 <= j < l.slots - 1 && #[trigger] a(l.used(j + 1)) ==> a(l.used(j))
}

/// Gate `i` runs in exactly one slot.
pub open spec fn runs_once(a: spec_fn(int) -> bool, l: Layout, i: int) -> bool {
    &&& exists|j: int| 0 <= j < l.slots && #[trigger] a(l.gate(i, j))
    &&& forall|x: int, y: int|
        0 <= x < y < l.slots && #[trigger] a(l.gate(i, x)) ==> !#[trigger] a(l.gate(i, y))
}

/// Gate `u` does not run in a later slot than `v`.
pub open spec fn runs_in_order(a: spec_fn(int) -> bool, l: Layout, u: int, v: int) -> bool {
    forall|i: int, j: int|
        0 <= j < i < l.slots && #[trigger] a(l.gate(u, i)) ==> !#[trigger] a(l.gate(v, j))
}

/// Where gate `i` runs, its operands are resident.
pub open spec fn operands_resident(
    a: spec_fn(int) -> bool,
    l: Layout,
    qubits: Seq<Qubit>,
    g: Gate<Qubit>,
    i: int,
) -> bool {
    forall|j: int, k: int|
        0 <= j < l.slots && 0 <= k < g.operands().len() && #[trigger] a(l.gate(i, j)) ==> a(
            l.mem(qubit_position(qubits, #[trigger] g.operands()[k]), j),
        )
}

/// If qubit `q` enters residency in slot `j` it is loaded there, and if it leaves
/// it is stored there.
pub open spec fn moved(a: spec_fn(int) -> bool, l: Layout, q: int, before: bool, j: int) -> bool {
    &&& (!before && a(l.mem(q, j)) ==> a(l.load(q, j)))
    &&& (before && !a(l.mem(q, j)) ==> a(l.store(q, j)))
}

/// Some gate runs in slot `j`.
pub open spec fn slot_has_gate(a: spec_fn(int) -> bool, l: Layout, j: int) -> bool {
    exists|i: int| 0 <= i < l.n_gates && #[trigger] a(l.gate(i, j))
}

proof fn lemma_cnf_append(a: spec_fn(int) -> bool, x: Seq<Seq<PropLit>>, y: Seq<Seq<PropLit>>)
    ensures
        cnf_true(a, x + y) <==> cnf_true(a, x) && cnf_true(a, y),
{
    let z = x + y;
    if cnf_true(a, z) {
        assert forall|i: int| 0 <= i < x.len() implies clause_true(a, #[trigger] x[i]) by {
            assert(z[i] == x[i]);
        }
        assert forall|i: int| 0 <= i < y.len() implies clause_true(a, #[trigger] y[i]) by {
            assert(z[x.len() + i] == y[i]);
        }
    }
}

proof fn lemma_cnf_push(a: spec_fn(int) -> bool, x: Seq<Seq<PropLit>>, c: Seq<PropLit>)
    ensures
        cnf_true(a, x.push(c)) <==> cnf_true(a, x) && clause_true(a, c),
{
    let z = x.push(c);
    if cnf_true(a, z) {
        assert forall|i: int| 0 <= i < x.len() implies clause_true(a, #[trigger] x[i]) by {
            assert(z[i] == x[i]);
        }
        assert(z[x.len() as int] == c);
    }
}

proof fn lemma_pair(a: spec_fn(int) -> bool, x: PropLit, y: PropLit)
    ensures
        clause_true(a, seq![x, y]) <==> lit_true(a, x) || lit_true(a, y),
{
    let c = seq![x, y];
    assert(c[0] == x && c[1] == y);
}

proof fn lemma_triple(a: spec_fn(int) -> bool, x: PropLit, y: PropLit, z: PropLit)
    ensures
        clause_true(a, seq![x, y, z]) <==> lit_true(a, x) || lit_true(a, y) || lit_true(a, z),
{
    let c = seq![x, y, z];
    assert(c[0] == x && c[1] == y && c[2] == z);
}

proof fn lemma_unit(a: spec_fn(int) -> bool, x: PropLit)
    ensures
        clause_true(a, seq![x]) <==> lit_true(a, x),
{
    let c = seq![x];
    assert(c[0] == x);
}

impl Layout {
    /// Where a placement stands.
    pub proof fn lemma_gate_index(self, i: int, j: int)
        requires
            self.indexed(),
            0 <= i < self.n_gates,
            0 <= j < self.slots,
        ensures
            0 <= self.gate(i, j) < self.size(),
            self.size() <= MAX_VAR,
    {
        self.lemma_products();
        self.lemma_index(self.n_gates as int, i, j);
    }

    /// Where the variables of a qubit in a slot stand.
    pub proof fn lemma_qubit_index(self, q: int, j: int)
        requires
            self.indexed(),
            0 <= q < self.n_qubits,
            0 <= j < self.slots,
        ensures
            0 <= self.mem(q, j) < self.size(),
            0 <= self.load(q, j) < self.size(),
            0 <= self.store(q, j) < self.size(),
            0 <= self.pre(q) < self.size(),
            0 <= self.used(j) < self.size(),
            self.size() <= MAX_VAR,
    {
        self.lemma_products();
        self.lemma_index(self.n_qubits as int, q, j);
    }

    proof fn lemma_used_index(self, j: int)
        requires
            self.indexed(),
            0 <= j < self.slots,
        ensures
            0 <= self.used(j) < self.size(),
            self.size() <= MAX_VAR,
    {
        self.lemma_products();
    }
}

proof fn lemma_not_twice(a: spec_fn(int) -> bool, l: Layout, i: int, n: int)
    requires
        l.indexed(),
        0 <= i < l.n_gates,
        0 <= n <= l.slots,
    ensures
        cnf_true(a, not_twice(l, i, n)) <==> forall|x: int, y: int|
            0 <= x < n && x < y < l.slots && #[trigger] a(l.gate(i, x)) ==> !#[trigger] a(
                l.gate(i, y),
            ),
    decreases n,
{
    if n > 0 {
        let x = n - 1;
        let rest = not_twice_after(l, i, x);
        lemma_not_twice(a, l, i, n - 1);
        lemma_cnf_append(a, not_twice(l, i, n - 1), rest);
        l.lemma_gate_index(i, x);
        if cnf_true(a, rest) {
            assert forall|y: int| x < y < l.slots && a(l.gate(i, x)) implies !#[trigger] a(
                l.gate(i, y),
            ) by {
                let t = y - x - 1;
                l.lemma_gate_index(i, y);
                assert(rest[t] == seq![neg(l.gate(i, x)), neg(l.gate(i, x + 1 + t))]);
                assert(clause_true(a, rest[t]));
                lemma_pair(a, neg(l.gate(i, x)), neg(l.gate(i, y)));
            }
        }
        if forall|y: int| x < y < l.slots && a(l.gate(i, x)) ==> !#[trigger] a(l.gate(i, y)) {
            assert forall|t: int| 0 <= t < rest.len() implies clause_true(a, #[trigger] rest[t]) by {
                let y = x + 1 + t;
                l.lemma_gate_index(i, y);
                lemma_pair(a, neg(l.gate(i, x)), neg(l.gate(i, y)));
                assert(a(l.gate(i, y)) || !a(l.gate(i, y)));
            }
        }
        if cnf_true(a, not_twice(l, i, n)) {
            assert forall|u: int, y: int|
                0 <= u < n && u < y < l.slots && #[trigger] a(l.gate(i, u)) implies !#[trigger] a(
                l.gate(i, y),
            ) by {
                if u == x {
                }
            }
        }
    }
}

proof fn lemma_placement(a: spec_fn(int) -> bool, l: Layout, n: int)
    requires
        l.indexed(),
        0 <= n <= l.n_gates,
    ensures
        cnf_true(a, placement_clauses(l, n)) <==> forall|i: int|
            0 <= i < n ==> #[trigger] runs_once(a, l, i),
    decreases n,
{
    if n > 0 {
        let i = n - 1;
        let some = Seq::new(l.slots as nat, |j: int| pos(l.gate(i, j)));
        lemma_placement(a, l, i);
        lemma_cnf_push(a, placement_clauses(l, i), some);
        lemma_cnf_append(a, placement_clauses(l, i).push(some), not_twice(l, i, l.slots as int));
        lemma_not_twice(a, l, i, l.slots as int);
        if clause_true(a, some) {
            let j = choose|j: int| 0 <= j < some.len() && lit_true(a, #[trigger] some[j]);
            l.lemma_gate_index(i, j);
            assert(a(l.gate(i, j)));
        }
        if exists|j: int| 0 <= j < l.slots && #[trigger] a(l.gate(i, j)) {
            let j = choose|j: int| 0 <= j < l.slots && #[trigger] a(l.gate(i, j));
            l.lemma_gate_index(i, j);
            assert(lit_true(a, some[j]));
        }
        if cnf_true(a, placement_clauses(l, n)) {
            assert(runs_once(a, l, i));
        }
        if forall|k: int| 0 <= k < n ==> #[trigger] runs_once(a, l, k) {
            assert(runs_once(a, l, i));
        }
    }
}

proof fn lemma_order_of_pair(a: spec_fn(int) -> bool, l: Layout, u: int, v: int, n: int)
    requires
        l.indexed(),
        0 <= u < l.n_gates,
        0 <= v < l.n_gates,
        0 <= n <= l.slots,
    ensures
        cnf_true(a, order_of_pair(l, u, v, n)) <==> forall|i: int, j: int|
            0 <= j < i < n && #[trigger] a(l.gate(u, i)) ==> !#[trigger] a(l.gate(v, j)),
    decreases n,
{
    if n > 0 {
        let i = n - 1;
        let rest = not_before(l, u, v, i);
        lemma_order_of_pair(a, l, u, v, i);
        lemma_cnf_append(a, order_of_pair(l, u, v, i), rest);
        l.lemma_gate_index(u, i);
        if cnf_true(a, rest) {
            assert forall|j: int| 0 <= j < i && a(l.gate(u, i)) implies !#[trigger] a(
                l.gate(v, j),
            ) by {
                l.lemma_gate_index(v, j);
                assert(clause_true(a, rest[j]));
                lemma_pair(a, neg(l.gate(u, i)), neg(l.gate(v, j)));
            }
        }
        if forall|j: int| 0 <= j < i && a(l.gate(u, i)) ==> !#[trigger] a(l.gate(v, j)) {
            assert forall|j: int| 0 <= j < rest.len() implies clause_true(a, #[trigger] rest[j]) by {
                l.lemma_gate_index(v, j);
                lemma_pair(a, neg(l.gate(u, i)), neg(l.gate(v, j)));
                assert(a(l.gate(v, j)) || !a(l.gate(v, j)));
            }
        }
    }
}

proof fn lemma_order_of_successors(a: spec_fn(int) -> bool, l: Layout, u: int, succ: Seq<int>)
    requires
        l.indexed(),
        0 <= u < l.n_gates,
        forall|v: int| #[trigger] succ.contains(v) ==> 0 <= v < l.n_gates,
    ensures
        cnf_true(a, order_of_successors(l, u, succ)) <==> forall|v: int| #[trigger]
            succ.contains(v) ==> runs_in_order(a, l, u, v),
    decreases succ.len(),
{
    if succ.len() > 0 {
        let t = succ.drop_last();
        let last = succ.last();
        assert(succ[succ.len() - 1] == last);
        assert forall|v: int| #[trigger] t.contains(v) implies succ.contains(v) by {
            assert(succ[t.index_of(v)] == v);
        }
        assert(succ.contains(last));
        lemma_order_of_successors(a, l, u, t);
        lemma_cnf_append(a, order_of_successors(l, u, t), order_of_pair(l, u, last, l.slots as int));
        lemma_order_of_pair(a, l, u, last, l.slots as int);
        if cnf_true(a, order_of_successors(l, u, succ)) {
            assert forall|v: int| #[trigger] succ.contains(v) implies runs_in_order(a, l, u, v) by {
                if v != last {
                    assert(t[succ.index_of(v)] == v);
                    assert(t.contains(v));
                }
            }
        }
    } else {
        assert forall|v: int| #[trigger] succ.contains(v) implies runs_in_order(a, l, u, v) by {
        }
    }
}

proof fn lemma_order(a: spec_fn(int) -> bool, l: Layout, gates: Seq<Gate<Qubit>>, n: int)
    requires
        l.indexed(),
        l.n_gates == gates.len(),
        0 <= n <= l.n_gates,
    ensures
        cnf_true(a, order_clauses(l, gates, n)) <==> forall|u: int, v: int|
            0 <= u < n && #[trigger] successors_upto(gates, u, gates.len() as int).contains(v)
                ==> runs_in_order(a, l, u, v),
    decreases n,
{
    if n > 0 {
        let succ = successors_upto(gates, n - 1, gates.len() as int);
        crate::partition::lemma_successors_upto(gates, n - 1, gates.len() as int);
        lemma_order(a, l, gates, n - 1);
        lemma_order_of_successors(a, l, n - 1, succ);
        lemma_cnf_append(a, order_clauses(l, gates, n - 1), order_of_successors(l, n - 1, succ));
    }
}

proof fn lemma_resident_of_gate(
    a: spec_fn(int) -> bool,
    l: Layout,
    qubits: Seq<Qubit>,
    g: Gate<Qubit>,
    i: int,
    n: int,
)
    requires
        l.indexed(),
        0 <= i < l.n_gates,
        l.n_qubits == qubits.len(),
        forall|k: int| 0 <= k < g.operands().len() ==> qubits.contains(#[trigger] g.operands()[k]),
        0 <= n <= l.slots,
    ensures
        cnf_true(a, resident_of_gate(l, qubits, g, i, n)) <==> forall|j: int, k: int|
            0 <= j < n && 0 <= k < g.operands().len() && #[trigger] a(l.gate(i, j)) ==> a(
                l.mem(qubit_position(qubits, #[trigger] g.operands()[k]), j),
            ),
    decreases n,
{
    if n > 0 {
        let j = n - 1;
        let rest = resident_in_slot(l, qubits, g, i, j);
        lemma_resident_of_gate(a, l, qubits, g, i, j);
        lemma_cnf_append(a, resident_of_gate(l, qubits, g, i, j), rest);
        l.lemma_gate_index(i, j);
        assert forall|k: int| 0 <= k < g.operands().len() implies (clause_true(a, #[trigger] rest[k])
            <==> (a(l.gate(i, j)) ==> a(l.mem(qubit_position(qubits, g.operands()[k]), j)))) by {
            assert(qubits.contains(g.operands()[k]));
            let w = qubits.index_of(g.operands()[k]);
            assert(qubits[w] == g.operands()[k]);
            let p = qubit_position(qubits, g.operands()[k]);
            assert(0 <= p < qubits.len());
            l.lemma_qubit_index(p, j);
            lemma_pair(a, neg(l.gate(i, j)), pos(l.mem(p, j)));
        }
        if cnf_true(a, resident_of_gate(l, qubits, g, i, n)) {
            assert forall|x: int, k: int|
                0 <= x < n && 0 <= k < g.operands().len() && #[trigger] a(
                    l.gate(i, x),
                ) implies a(l.mem(qubit_position(qubits, #[trigger] g.operands()[k]), x)) by {
                if x == j {
                    assert(clause_true(a, rest[k]));
                }
            }
        } else if cnf_true(a, resident_of_gate(l, qubits, g, i, j)) {
            let k = choose|k: int| 0 <= k < rest.len() && !clause_true(a, #[trigger] rest[k]);
            assert(a(l.gate(i, j)));
            assert(g.operands()[k] == g.operands()[k]);
        }
    }
}

proof fn lemma_resident(
    a: spec_fn(int) -> bool,
    l: Layout,
    qubits: Seq<Qubit>,
    gates: Seq<Gate<Qubit>>,
    n: int,
)
    requires
        l.indexed(),
        l.n_gates == gates.len(),
        l.n_qubits == qubits.len(),
        forall|i: int, k: int|
            0 <= i < gates.len() && 0 <= k < gates[i].operands().len() ==> qubits.contains(
                #[trigger] gates[i].operands()[k],
            ),
        0 <= n <= l.n_gates,
    ensures
        cnf_true(a, resident_clauses(l, qubits, gates, n)) <==> forall|i: int|
            0 <= i < n ==> #[trigger] operands_resident(a, l, qubits, gates[i], i),
    decreases n,
{
    if n > 0 {
        let i = n - 1;
        lemma_resident(a, l, qubits, gates, i);
        lemma_resident_of_gate(a, l, qubits, gates[i], i, l.slots as int);
        lemma_cnf_append(
            a,
            resident_clauses(l, qubits, gates, i),
            resident_of_gate(l, qubits, gates[i], i, l.slots as int),
        );
        if cnf_true(a, resident_clauses(l, qubits, gates, n)) {
            assert(operands_resident(a, l, qubits, gates[i], i));
        }
        if forall|k: int| 0 <= k < n ==> #[trigger] operands_resident(a, l, qubits, gates[k], k) {
            assert(operands_resident(a, l, qubits, gates[i], i));
        }
    }
}

proof fn lemma_entry(
    a: spec_fn(int) -> bool,
    l: Layout,
    qubits: Seq<Qubit>,
    pre_loaded: Map<Qubit, bool>,
    n: int,
)
    requires
        l.indexed(),
        l.slots > 0,
        0 <= n <= l.n_qubits,
    ensures
        cnf_true(a, entry_clauses(l, qubits, pre_loaded, n)) <==> forall|q: int|
            0 <= q < n ==> #[trigger] a(l.pre(q)) == is_preloaded(pre_loaded, qubits[q]) && moved(
                a,
                l,
                q,
                a(l.pre(q)),
                0,
            ),
    decreases n,
{
    if n > 0 {
        let q = n - 1;
        lemma_entry(a, l, qubits, pre_loaded, q);
        l.lemma_qubit_index(q, 0);
        let fix = if is_preloaded(pre_loaded, qubits[q]) {
            pos(l.pre(q))
        } else {
            neg(l.pre(q))
        };
        let c0 = seq![pos(l.pre(q)), neg(l.mem(q, 0)), pos(l.load(q, 0))];
        let c1 = seq![neg(l.pre(q)), pos(l.mem(q, 0)), pos(l.store(q, 0))];
        let c2 = seq![fix];
        let rest = seq![c0, c1, c2];
        lemma_triple(a, pos(l.pre(q)), neg(l.mem(q, 0)), pos(l.load(q, 0)));
        lemma_triple(a, neg(l.pre(q)), pos(l.mem(q, 0)), pos(l.store(q, 0)));
        lemma_unit(a, fix);
        lemma_cnf_append(a, entry_clauses(l, qubits, pre_loaded, q), rest);
        assert(cnf_true(a, rest) <==> clause_true(a, c0) && clause_true(a, c1) && clause_true(a, c2))
            by {
            assert(rest[0] == c0 && rest[1] == c1 && rest[2] == c2);
        }
        assert(cnf_true(a, rest) <==> (a(l.pre(q)) == is_preloaded(pre_loaded, qubits[q]) && moved(
            a,
            l,
            q,
            a(l.pre(q)),
            0,
        )));
    }
}

proof fn lemma_step(a: spec_fn(int) -> bool, l: Layout, i: int, n: int)
    requires
        l.indexed(),
        0 <= i < l.slots - 1,
        0 <= n <= l.n_qubits,
    ensures
        cnf_true(a, step_clauses(l, i, n)) <==> forall|q: int|
            0 <= q < n ==> moved(a, l, q, #[trigger] a(l.mem(q, i)), i + 1),
    decreases n,
{
    if n > 0 {
        let q = n - 1;
        lemma_step(a, l, i, q);
        l.lemma_qubit_index(q, i);
        l.lemma_qubit_index(q, i + 1);
        let c0 = seq![pos(l.mem(q, i)), neg(l.mem(q, i + 1)), pos(l.load(q, i + 1))];
        let c1 = seq![neg(l.mem(q, i)), pos(l.mem(q, i + 1)), pos(l.store(q, i + 1))];
        let rest = seq![c0, c1];
        lemma_triple(a, pos(l.mem(q, i)), neg(l.mem(q, i + 1)), pos(l.load(q, i + 1)));
        lemma_triple(a, neg(l.mem(q, i)), pos(l.mem(q, i + 1)), pos(l.store(q, i + 1)));
        lemma_cnf_append(a, step_clauses(l, i, q), rest);
        assert(cnf_true(a, rest) <==> clause_true(a, c0) && clause_true(a, c1)) by {
            assert(rest[0] == c0 && rest[1] == c1);
        }
        assert(cnf_true(a, rest) <==> moved(a, l, q, a(l.mem(q, i)), i + 1));
    }
}

proof fn lemma_transitions(a: spec_fn(int) -> bool, l: Layout, n: int)
    requires
        l.indexed(),
        0 <= n < l.slots,
    ensures
        cnf_true(a, transition_clauses(l, n)) <==> forall|i: int, q: int|
            0 <= i < n && 0 <= q < l.n_qubits ==> moved(a, l, q, #[trigger] a(l.mem(q, i)), i + 1),
    decreases n,
{
    if n > 0 {
        lemma_transitions(a, l, n - 1);
        lemma_step(a, l, n - 1, l.n_qubits as int);
        lemma_cnf_append(
            a,
            transition_clauses(l, n - 1),
            step_clauses(l, n - 1, l.n_qubits as int),
        );
    }
}

proof fn lemma_used_if_gate(a: spec_fn(int) -> bool, l: Layout, n: int)
    requires
        l.indexed(),
        0 <= n <= l.slots,
    ensures
        cnf_true(a, used_if_gate(l, n)) <==> forall|j: int|
            0 <= j < n ==> (#[trigger] slot_has_gate(a, l, j) ==> a(l.used(j))),
    decreases n,
{
    if n > 0 {
        let j = n - 1;
        let rest = used_by_gates(l, j);
        lemma_used_if_gate(a, l, j);
        lemma_cnf_append(a, used_if_gate(l, j), rest);
        l.lemma_used_index(j);
        assert forall|i: int| 0 <= i < l.n_gates implies (clause_true(a, #[trigger] rest[i]) <==> (a(
            l.gate(i, j),
        ) ==> a(l.used(j)))) by {
            l.lemma_gate_index(i, j);
            lemma_pair(a, neg(l.gate(i, j)), pos(l.used(j)));
        }
        if cnf_true(a, rest) && slot_has_gate(a, l, j) {
            let i = choose|i: int| 0 <= i < l.n_gates && #[trigger] a(l.gate(i, j));
            assert(clause_true(a, rest[i]));
        }
        if slot_has_gate(a, l, j) ==> a(l.used(j)) {
            assert forall|i: int| 0 <= i < rest.len() implies clause_true(a, #[trigger] rest[i]) by {
                if a(l.gate(i, j)) {
                    assert(slot_has_gate(a, l, j));
                }
            }
        }
    }
}

proof fn lemma_gate_if_used(a: spec_fn(int) -> bool, l: Layout)
    requires
        l.indexed(),
    ensures
        cnf_true(a, gate_if_used(l)) <==> forall|j: int|
            0 <= j < l.slots ==> (#[trigger] a(l.used(j)) ==> slot_has_gate(a, l, j)),
{
    let cs = gate_if_used(l);
    assert forall|j: int| 0 <= j < l.slots implies (clause_true(a, #[trigger] cs[j]) <==> (a(
        l.used(j),
    ) ==> slot_has_gate(a, l, j))) by {
        l.lemma_used_index(j);
        let c = cs[j];
        assert(c[0] == neg(l.used(j)));
        if clause_true(a, c) && a(l.used(j)) {
            let t = choose|t: int| 0 <= t < c.len() && lit_true(a, #[trigger] c[t]);
            assert(t > 0);
            l.lemma_gate_index(t - 1, j);
            assert(a(l.gate(t - 1, j)));
        }
        if slot_has_gate(a, l, j) {
            let i = choose|i: int| 0 <= i < l.n_gates && #[trigger] a(l.gate(i, j));
            l.lemma_gate_index(i, j);
            assert(c[i + 1] == pos(l.gate(i, j)));
            assert(lit_true(a, c[i + 1]));
        }
        if !a(l.used(j)) {
            assert(lit_true(a, c[0]));
        }
    }
    if cnf_true(a, cs) {
        assert forall|j: int| 0 <= j < l.slots implies (#[trigger] a(l.used(j)) ==> slot_has_gate(
            a,
            l,
            j,
        )) by {
            assert(clause_true(a, cs[j]));
        }
    }
}

proof fn lemma_no_gaps(a: spec_fn(int) -> bool, l: Layout)
    requires
        l.indexed(),
    ensures
        cnf_true(a, no_gaps(l)) <==> forall|j: int|
            0 <= j < l.slots - 1 && #[trigger] a(l.used(j + 1)) ==> a(l.used(j)),
{
    let cs = no_gaps(l);
    assert forall|j: int| 0 <= j < l.slots - 1 implies (clause_true(a, #[trigger] cs[j]) <==> (a(
        l.used(j + 1),
    ) ==> a(l.used(j)))) by {
        l.lemma_used_index(j);
        l.lemma_used_index(j + 1);
        lemma_pair(a, neg(l.used(j + 1)), pos(l.used(j)));
    }
    if cnf_true(a, cs) {
        assert forall|j: int| 0 <= j < l.slots - 1 && #[trigger] a(l.used(j + 1)) implies a(
            l.used(j),
        ) by {
            assert(clause_true(a, cs[j]));
        }
    }
}

/// The models of the structure clauses are exactly the assignments that
/// describe a partition.
pub proof fn law_models_describe_partitions(
    a: spec_fn(int) -> bool,
    l: Layout,
    qubits: Seq<Qubit>,
    gates: Seq<Gate<Qubit>>,
    pre_loaded: Map<Qubit, bool>,
)
    requires
        l.indexed(),
        l.slots > 0,
        l.n_gates == gates.len(),
        l.n_qubits == qubits.len(),
        forall|i: int, k: int|
            0 <= i < gates.len() && 0 <= k < gates[i].operands().len() ==> qubits.contains(
                #[trigger] gates[i].operands()[k],
            ),
    ensures
        cnf_true(a, structure_clauses(l, qubits, gates, pre_loaded)) <==> describes_partition(
            a,
            l,
            qubits,
            gates,
            pre_loaded,
        ),
{
    let n = l.n_gates as int;
    let g1 = placement_clauses(l, n);
    let g2 = order_clauses(l, gates, n);
    let g3 = resident_clauses(l, qubits, gates, n);
    let g4 = entry_clauses(l, qubits, pre_loaded, l.n_qubits as int);
    let g5 = transition_clauses(l, l.slots - 1);
    let g6 = used_if_gate(l, l.slots as int);
    let g7 = gate_if_used(l);
    let g8 = no_gaps(l);
    lemma_cnf_append(a, g1, g2);
    lemma_cnf_append(a, g1 + g2, g3);
    lemma_cnf_append(a, g1 + g2 + g3, g4);
    lemma_cnf_append(a, g1 + g2 + g3 + g4, g5);
    lemma_cnf_append(a, g1 + g2 + g3 + g4 + g5, g6);
    lemma_cnf_append(a, g1 + g2 + g3 + g4 + g5 + g6, g7);
    lemma_cnf_append(a, g1 + g2 + g3 + g4 + g5 + g6 + g7, g8);
    lemma_placement(a, l, n);
    lemma_order(a, l, gates, n);
    lemma_resident(a, l, qubits, gates, n);
    lemma_entry(a, l, qubits, pre_loaded, l.n_qubits as int);
    lemma_transitions(a, l, l.slots - 1);
    lemma_used_if_gate(a, l, l.slots as int);
    lemma_gate_if_used(a, l);
    lemma_no_gaps(a, l);
    assert((cnf_true(a, g6) && cnf_true(a, g7)) <==> forall|j: int|
        0 <= j < l.slots ==> #[trigger] a(l.used(j)) == slot_has_gate(a, l, j)) by {
        if cnf_true(a, g6) && cnf_true(a, g7) {
            assert forall|j: int| 0 <= j < l.slots implies #[trigger] a(l.used(j))
                == slot_has_gate(a, l, j) by {
            }
        }
        if forall|j: int| 0 <= j < l.slots ==> #[trigger] a(l.used(j)) == slot_has_gate(a, l, j) {
            assert forall|j: int| 0 <= j < l.slots implies (#[trigger] slot_has_gate(a, l, j) ==> a(
                l.used(j),
            )) by {
                assert(a(l.used(j)) == slot_has_gate(a, l, j));
            }
        }
    }
}

// ---------------------------------------------------------------------------
// The problem handed to a solver
// ---------------------------------------------------------------------------
/// Qubit by qubit, whether it is resident in slot `j`.
pub open spec fn resident_lits(l: Layout, j: int) -> Seq<PropLit> {
    Seq::new(l.n_qubits as nat, |q: int| pos(l.mem(q, j)))
}

/// At most `cap` qubits are resident in slot `j`.
pub open spec fn slot_within(a: spec_fn(int) -> bool, l: Layout, cap: int, j: int) -> bool {
    cap < l.n_qubits ==> true_count(a, resident_lits(l, j)) <= cap
}

pub open spec fn slots_within(a: spec_fn(int) -> bool, l: Layout, cap: int, n: int) -> bool {
    forall|j: int| 0 <= j < n ==> #[trigger] slot_within(a, l, cap, j)
}

/// The loads of the first `q` qubits.
pub open spec fn load_lits(l: Layout, q: int) -> Seq<PropLit>
    decreases q,
{
    if q <= 0 {
        Seq::empty()
    } else {
        load_lits(l, q - 1) + Seq::new(l.slots as nat, |j: int| pos(l.load(q - 1, j)))
    }
}

/// The stores of the first `q` qubits.
pub open spec fn store_lits(l: Layout, q: int) -> Seq<PropLit>
    decreases q,
{
    if q <= 0 {
        Seq::empty()
    } else {
        store_lits(l, q - 1) + Seq::new(l.slots as nat, |j: int| pos(l.store(q - 1, j)))
    }
}

/// What is to be minimised: all loads and stores.
pub open spec fn objective_lits(l: Layout) -> Seq<PropLit> {
    load_lits(l, l.n_qubits as int) + store_lits(l, l.n_qubits as int)
}

/// A partitioning problem in clausal form.
pub struct PartitionProblem {
    pub layout: Layout,
    pub clauses: Vec<Vec<PropLit>>,
    /// The literals of which as few as possible should be true.
    pub objective: Vec<PropLit>,
    /// `limits[k]` enforces that at most `k` of the objective are true.
    pub limits: Vec<Vec<PropLit>>,
    pub next_var: u32,
}

/// `a` is a partition within capacity.
pub open spec fn feasible(
    a: spec_fn(int) -> bool,
    l: Layout,
    circ: Circuit,
    cap: int,
    pre_loaded: Map<Qubit, bool>,
) -> bool {
    &&& describes_partition(a, l, circ.qubits@, circ.gates@, pre_loaded)
    &&& slots_within(a, l, cap, l.slots as int)
}

/// Some model of the problem agrees with `a` on the partition, and keeps every
/// limit that the cost of `a` keeps.
pub open spec fn has_model(a: spec_fn(int) -> bool, p: PartitionProblem) -> bool {
    exists|b: spec_fn(int) -> bool|
        #[trigger] agree_below(a, b, p.layout.size()) && cnf_true(b, clause_views(p.clauses@)) && (
        forall|k: int|
            0 <= k < p.limits@.len() && true_count(a, objective_lits(p.layout)) <= k ==> all_true(
                b,
                (#[trigger] p.limits@[k])@,
            ))
}

/// The problem encodes the partitioning of `circ`: its models are the partitions
/// within capacity, and its limits bound their cost.
pub open spec fn encodes(
    p: PartitionProblem,
    circ: Circuit,
    cap: int,
    slots: int,
    pre_loaded: Map<Qubit, bool>,
) -> bool {
    let l = p.layout;
    &&& l.n_gates == circ.gates@.len()
    &&& l.n_qubits == circ.qubits@.len()
    &&& l.slots == slots
    &&& l.fits()
    &&& p.objective@ == objective_lits(l)
    &&& p.limits@.len() == p.objective@.len()
    &&& l.size() <= p.next_var <= MAX_VAR
    &&& vars_below(clause_views(p.clauses@), p.next_var as int)
    &&& forall|a: spec_fn(int) -> bool| #[trigger]
        cnf_true(a, clause_views(p.clauses@)) ==> feasible(a, l, circ, cap, pre_loaded)
    &&& forall|a: spec_fn(int) -> bool, k: int|
        0 <= k < p.limits@.len() && cnf_true(a, clause_views(p.clauses@)) && #[trigger] all_true(
            a,
            p.limits@[k]@,
        ) ==> true_count(a, objective_lits(l)) <= k
    &&& forall|a: spec_fn(int) -> bool|
        feasible(a, l, circ, cap, pre_loaded) ==> #[trigger] has_model(a, p)
}

proof fn lemma_same_truth(
    a: spec_fn(int) -> bool,
    b: spec_fn(int) -> bool,
    cs: Seq<Seq<PropLit>>,
    n: int,
)
    requires
        agree_below(a, b, n),
        vars_below(cs, n),
        cnf_true(a, cs),
    ensures
        cnf_true(b, cs),
{
    assert forall|i: int| 0 <= i < cs.len() implies clause_true(b, #[trigger] cs[i]) by {
        assert(clause_true(a, cs[i]));
        let k = choose|k: int| 0 <= k < cs[i].len() && lit_true(a, #[trigger] cs[i][k]);
        assert(a(cs[i][k].var as int) == b(cs[i][k].var as int));
        assert(lit_true(b, cs[i][k]));
    }
}

proof fn lemma_same_count(
    a: spec_fn(int) -> bool,
    b: spec_fn(int) -> bool,
    ls: Seq<PropLit>,
    n: int,
)
    requires
        agree_below(a, b, n),
        lits_below(ls, n),
    ensures
        true_count(a, ls) == true_count(b, ls),
    decreases ls.len(),
{
    if ls.len() > 0 {
        assert(ls[ls.len() - 1].var < n);
        assert(lits_below(ls.drop_last(), n));
        lemma_same_count(a, b, ls.drop_last(), n);
        assert(a(ls.last().var as int) == b(ls.last().var as int));
    }
}

/// Append clauses.
fn push_all(cs: &mut Vec<Vec<PropLit>>, more: &Vec<Vec<PropLit>>)
    ensures
        clause_views(final(cs)@) == clause_views(old(cs)@) + clause_views(more@),
{
    let ghost base = clause_views(cs@);
    assert(base + clause_views(more@).take(0) =~= base);
    for i in 0..more.len()
        invariant
            clause_views(cs@) == base + clause_views(more@).take(i as int),
    {
        let c = more[i].clone();
        assert(c@ =~= more@[i as int]@);
        push_clause(cs, c);
        assert(clause_views(cs@) =~= base + clause_views(more@).take(i + 1));
    }
    assert(clause_views(more@).take(more@.len() as int) =~= clause_views(more@));
}

/// Append each literal as a clause of its own.
fn push_units(cs: &mut Vec<Vec<PropLit>>, lits: &Vec<PropLit>)
    ensures
        clause_views(final(cs)@) == clause_views(old(cs)@) + Seq::new(
            lits@.len(),
            |k: int| seq![lits@[k]],
        ),
{
    let ghost base = clause_views(cs@);
    let ghost units = Seq::new(lits@.len(), |k: int| seq![lits@[k]]);
    assert(base + units.take(0) =~= base);
    for k in 0..lits.len()
        invariant
            units == Seq::new(lits@.len(), |k: int| seq![lits@[k]]),
            clause_views(cs@) == base + units.take(k as int),
    {
        push_unit(cs, lits[k]);
        assert(clause_views(cs@) =~= base + units.take(k + 1));
    }
    assert(units.take(units.len() as int) =~= units);
}

proof fn lemma_units(a: spec_fn(int) -> bool, lits: Seq<PropLit>)
    ensures
        cnf_true(a, Seq::new(lits.len(), |k: int| seq![lits[k]])) <==> all_true(a, lits),
{
    let units = Seq::new(lits.len(), |k: int| seq![lits[k]]);
    if cnf_true(a, units) {
        assert forall|k: int| 0 <= k < lits.len() implies lit_true(a, #[trigger] lits[k]) by {
            assert(clause_true(a, units[k]));
            lemma_unit(a, lits[k]);
        }
    }
    if all_true(a, lits) {
        assert forall|k: int| 0 <= k < units.len() implies clause_true(a, #[trigger] units[k]) by {
            lemma_unit(a, lits[k]);
        }
    }
}

fn resident_literals(l: &Layout, j: usize) -> (r: Vec<PropLit>)
    requires
        l.indexed(),
        j < l.slots,
    ensures
        r@ == resident_lits(*l, j as int),
        lits_below(r@, l.size()),
{
    let mut r: Vec<PropLit> = Vec::new();
    for q in 0..l.n_qubits
        invariant
            l.indexed(),
            j < l.slots,
            r@ == resident_lits(*l, j as int).take(q as int),
            lits_below(r@, l.size()),
    {
        r.push(positive(l.mem_var(q, j)));
        assert(r@ =~= resident_lits(*l, j as int).take(q + 1));
    }
    assert(r@ =~= resident_lits(*l, j as int));
    r
}

fn objective_literals(l: &Layout) -> (r: Vec<PropLit>)
    requires
        l.indexed(),
    ensures
        r@ == objective_lits(*l),
        lits_below(r@, l.size()),
        r@.len() == 2 * (l.n_qubits * l.slots),
{
    let mut r: Vec<PropLit> = Vec::new();
    assert(r@ =~= load_lits(*l, 0));
    assert(0 * l.slots == 0) by (nonlinear_arith);
    for q in 0..l.n_qubits
        invariant
            l.indexed(),
            r@ == load_lits(*l, q as int),
            lits_below(r@, l.size()),
            r@.len() == q * l.slots,
    {
        let ghost here = r@;
        let ghost rest = Seq::new(l.slots as nat, |j: int| pos(l.load(q as int, j)));
        assert(here + rest.take(0) =~= here);
        for j in 0..l.slots
            invariant
                l.indexed(),
                q < l.n_qubits,
                rest == Seq::new(l.slots as nat, |j: int| pos(l.load(q as int, j))),
                r@ == here + rest.take(j as int),
                lits_below(r@, l.size()),
        {
            r.push(positive(l.load_var(q, j)));
            assert(r@ =~= here + rest.take(j + 1));
        }
        assert(rest.take(rest.len() as int) =~= rest);
        assert((q + 1) * l.slots == q * l.slots + l.slots) by (nonlinear_arith);
    }
    let ghost mid = r@;
    assert(mid + store_lits(*l, 0) =~= mid);
    for q in 0..l.n_qubits
        invariant
            l.indexed(),
            r@ == mid + store_lits(*l, q as int),
            lits_below(r@, l.size()),
            mid.len() == l.n_qubits * l.slots,
            r@.len() == mid.len() + q * l.slots,
    {
        let ghost here = r@;
        let ghost rest = Seq::new(l.slots as nat, |j: int| pos(l.store(q as int, j)));
        assert(here + rest.take(0) =~= here);
        for j in 0..l.slots
            invariant
                l.indexed(),
                q < l.n_qubits,
                rest == Seq::new(l.slots as nat, |j: int| pos(l.store(q as int, j))),
                r@ == here + rest.take(j as int),
                lits_below(r@, l.size()),
        {
            r.push(positive(l.store_var(q, j)));
            assert(r@ =~= here + rest.take(j + 1));
        }
        assert(rest.take(rest.len() as int) =~= rest);
        assert((q + 1) * l.slots == q * l.slots + l.slots) by (nonlinear_arith);
        assert(r@ =~= mid + store_lits(*l, q + 1));
    }
    r
}

/// The counters of a problem: one for each slot in which more qubits than the
/// capacity could be resident, and one for the objective.
pub struct Counters {
    pub slots: Vec<UpperBounds>,
    pub objective: UpperBounds,
}

/// The layout of the variables for partitioning `circ` into `slots` subcircuits.
pub open spec fn layout_of(circ: Circuit, slots: usize) -> Layout {
    Layout { n_gates: circ.gates@.len() as usize, n_qubits: circ.qubits@.len() as usize, slots }
}

/// The first variable behind those of the layout and of the counters of the
/// first `j` slots.
pub open spec fn free_after(l: Layout, us: Seq<UpperBounds>, j: int) -> int {
    if j <= 0 {
        l.size()
    } else {
        us[j - 1].next_var as int
    }
}

/// The counter of slot `j` counts its residents up to the capacity, with
/// variables behind those of the slots before.
pub open spec fn slot_counted(l: Layout, cap: int, us: Seq<UpperBounds>, j: int) -> bool {
    counts(us[j], resident_lits(l, j), cap + 1, free_after(l, us, j))
}

/// Every slot has its counter, unless all qubits fit on the processor at once:
/// then none has one.
pub open spec fn slots_counted(l: Layout, cap: int, us: Seq<UpperBounds>) -> bool {
    &&& us.len() == if cap < l.n_qubits {
        l.slots as int
    } else {
        0
    }
    &&& forall|j: int| 0 <= j < us.len() ==> #[trigger] slot_counted(l, cap, us, j)
}

/// `c` holds the counters that a problem asks for: those of the slots, and one
/// over all loads and stores behind them.
pub open spec fn counted(l: Layout, cap: int, c: Counters) -> bool {
    &&& slots_counted(l, cap, c.slots@)
    &&& counts(
        c.objective,
        objective_lits(l),
        objective_lits(l).len() as int,
        free_after(l, c.slots@, c.slots@.len() as int),
    )
}

/// What keeps the first `n` slots within capacity: the clauses of their counters,
/// and the literals of the bound `cap`.
pub open spec fn capacity_clauses(us: Seq<UpperBounds>, cap: int, n: int) -> Seq<Seq<PropLit>>
    decreases n,
{
    if n <= 0 {
        Seq::empty()
    } else {
        capacity_clauses(us, cap, n - 1) + clause_views(us[n - 1].clauses@) + Seq::new(
            us[n - 1].limits@[cap]@.len(),
            |k: int| seq![us[n - 1].limits@[cap]@[k]],
        )
    }
}

/// `p` is the problem of partitioning `circ` with the counters `c`: the clauses
/// of the structure, of the capacity and of the counter over the objective, in
/// this order, and the bounds of that counter.
pub open spec fn assembled(
    p: PartitionProblem,
    circ: Circuit,
    cap: int,
    slots: usize,
    pre_loaded: Map<Qubit, bool>,
    c: Counters,
) -> bool {
    let l = layout_of(circ, slots);
    &&& p.layout == l
    &&& clause_views(p.clauses@) == structure_clauses(l, circ.qubits@, circ.gates@, pre_loaded)
        + capacity_clauses(c.slots@, cap, c.slots@.len() as int) + clause_views(c.objective.clauses@)
    &&& p.objective@ == objective_lits(l)
    &&& p.limits@ == c.objective.limits@
    &&& p.next_var == c.objective.next_var
}

/// Some model of `cs` agrees with `a` below `n`.
spec fn extends_below(a: spec_fn(int) -> bool, n: int, cs: Seq<Seq<PropLit>>) -> bool {
    exists|b: spec_fn(int) -> bool| #[trigger] agree_below(a, b, n) && cnf_true(b, cs)
}

/// The clauses of the first `n` slots bound their residents, and cost no
/// partition that keeps the bounds.
proof fn lemma_capacity(
    l: Layout,
    cap: int,
    us: Seq<UpperBounds>,
    structure: Seq<Seq<PropLit>>,
    n: int,
)
    requires
        l.fits(),
        0 <= cap,
        slots_counted(l, cap, us),
        vars_below(structure, l.size()),
        0 <= n <= us.len(),
    ensures
        l.size() <= free_after(l, us, n),
        vars_below(structure + capacity_clauses(us, cap, n), free_after(l, us, n)),
        forall|a: spec_fn(int) -> bool| #[trigger]
            cnf_true(a, structure + capacity_clauses(us, cap, n)) ==> cnf_true(a, structure)
                && slots_within(a, l, cap, n),
        forall|a: spec_fn(int) -> bool|
            cnf_true(a, structure) && slots_within(a, l, cap, n) ==> #[trigger] extends_below(
                a,
                l.size(),
                structure + capacity_clauses(us, cap, n),
            ),
    decreases n,
{
    let size = l.size();
    let now = structure + capacity_clauses(us, cap, n);
    if n == 0 {
        assert(now =~= structure);
        assert forall|a: spec_fn(int) -> bool| cnf_true(a, structure) implies #[trigger] extends_below(
            a,
            size,
            now,
        ) by {
            assert(agree_below(a, a, size));
        }
    } else {
        let j = n - 1;
        lemma_capacity(l, cap, us, structure, j);
        assert(slot_counted(l, cap, us, j));
        let u = us[j];
        let lits = resident_lits(l, j);
        let next = free_after(l, us, j);
        let before = structure + capacity_clauses(us, cap, j);
        let counted = clause_views(u.clauses@);
        let limit = u.limits@[cap]@;
        let units = Seq::new(limit.len(), |k: int| seq![limit[k]]);
        assert(now =~= before + counted + units);
        lemma_resident_below(l, j);
        assert forall|i: int, k: int| 0 <= i < now.len() && 0 <= k < now[i].len() implies (
        #[trigger] now[i][k]).var < u.next_var by {
            if i < before.len() {
                assert(now[i] == before[i]);
                assert(before[i][k].var < next);
            } else if i < before.len() + counted.len() {
                assert(now[i] == counted[i - before.len()]);
                assert(counted[i - before.len()][k].var < u.next_var);
            } else {
                let t = i - before.len() - counted.len();
                assert(now[i] == units[t]);
                assert(limit[t].var < u.next_var);
            }
        }
        assert forall|a: spec_fn(int) -> bool| #[trigger] cnf_true(a, now) implies cnf_true(
            a,
            structure,
        ) && slots_within(a, l, cap, n) by {
            lemma_cnf_append(a, before + counted, units);
            lemma_cnf_append(a, before, counted);
            lemma_units(a, limit);
            assert(all_true(a, u.limits@[cap]@));
            assert(slots_within(a, l, cap, j));
            assert forall|t: int| 0 <= t < n implies #[trigger] slot_within(a, l, cap, t) by {
            }
        }
        assert forall|a: spec_fn(int) -> bool|
            cnf_true(a, structure) && slots_within(a, l, cap, n) implies #[trigger] extends_below(
            a,
            size,
            now,
        ) by {
            assert forall|t: int| 0 <= t < j implies #[trigger] slot_within(a, l, cap, t) by {
            }
            assert(slots_within(a, l, cap, j));
            assert(slot_within(a, l, cap, j));
            assert(extends_below(a, size, before));
            let b = choose|b: spec_fn(int) -> bool|
                #[trigger] agree_below(a, b, size) && cnf_true(b, before);
            lemma_same_count(a, b, lits, size);
            assert(extends_to_model(b, lits, next, u));
            let c = choose|c: spec_fn(int) -> bool|
                #[trigger] agree_below(b, c, next) && cnf_true(c, counted) && (forall|k: int|
                    0 <= k < u.limits@.len() && true_count(b, lits) <= k ==> all_true(
                        c,
                        (#[trigger] u.limits@[k])@,
                    ));
            lemma_same_truth(b, c, before, next);
            lemma_cnf_append(c, before + counted, units);
            lemma_cnf_append(c, before, counted);
            lemma_units(c, limit);
            assert(all_true(c, u.limits@[cap]@));
            assert forall|v: int| 0 <= v < size implies #[trigger] a(v) == c(v) by {
                assert(b(v) == c(v));
            }
            assert(agree_below(a, c, size));
        }
    }
}

proof fn lemma_resident_below(l: Layout, j: int)
    requires
        l.indexed(),
        0 <= j < l.slots,
    ensures
        lits_below(resident_lits(l, j), l.size()),
{
    let lits = resident_lits(l, j);
    assert forall|q: int| 0 <= q < lits.len() implies (#[trigger] lits[q]).var < l.size() by {
        l.lemma_products();
        l.lemma_index(l.n_qubits as int, q, j);
    }
}

/// With the counters that it asks for, a problem encodes the partitioning.
proof fn lemma_assembled_encodes(
    p: PartitionProblem,
    circ: Circuit,
    cap: int,
    slots: usize,
    pre_loaded: Map<Qubit, bool>,
    c: Counters,
)
    requires
        circ.wf(),
        slots > 0,
        0 <= cap,
        layout_of(circ, slots).fits(),
        layout_of(circ, slots).n_gates == circ.gates@.len(),
        layout_of(circ, slots).n_qubits == circ.qubits@.len(),
        vars_below(
            structure_clauses(layout_of(circ, slots), circ.qubits@, circ.gates@, pre_loaded),
            layout_of(circ, slots).size(),
        ),
        lits_below(objective_lits(layout_of(circ, slots)), layout_of(circ, slots).size()),
        assembled(p, circ, cap, slots, pre_loaded, c),
        counted(layout_of(circ, slots), cap, c),
    ensures
        encodes(p, circ, cap, slots as int, pre_loaded),
{
    let l = layout_of(circ, slots);
    let size = l.size();
    let us = c.slots@;
    let u = c.objective;
    let next = free_after(l, us, us.len() as int);
    let structure = structure_clauses(l, circ.qubits@, circ.gates@, pre_loaded);
    let before = structure + capacity_clauses(us, cap, us.len() as int);
    let counted = clause_views(u.clauses@);
    let now = clause_views(p.clauses@);
    lemma_capacity(l, cap, us, structure, us.len() as int);
    lemma_structure(l, circ, pre_loaded);
    lemma_counters_fit(l, cap, c);
    assert forall|i: int, k: int| 0 <= i < now.len() && 0 <= k < now[i].len() implies (
    #[trigger] now[i][k]).var < u.next_var by {
        if i < before.len() {
            assert(now[i] == before[i]);
            assert(before[i][k].var < next);
        } else {
            assert(now[i] == counted[i - before.len()]);
            assert(counted[i - before.len()][k].var < u.next_var);
        }
    }
    assert forall|a: spec_fn(int) -> bool|
        slots_within(a, l, cap, us.len() as int) <==> #[trigger] slots_within(
            a,
            l,
            cap,
            l.slots as int,
        ) by {
        if slots_within(a, l, cap, us.len() as int) {
            assert forall|t: int| 0 <= t < l.slots implies #[trigger] slot_within(a, l, cap, t) by {
            }
        }
    }
    assert forall|a: spec_fn(int) -> bool| #[trigger] cnf_true(a, now) implies feasible(
        a,
        l,
        circ,
        cap,
        pre_loaded,
    ) by {
        lemma_cnf_append(a, before, counted);
        assert(cnf_true(a, structure));
        assert(slots_within(a, l, cap, us.len() as int));
        assert(slots_within(a, l, cap, l.slots as int));
    }
    assert forall|a: spec_fn(int) -> bool, k: int|
        0 <= k < p.limits@.len() && cnf_true(a, now) && #[trigger] all_true(
            a,
            p.limits@[k]@,
        ) implies true_count(a, objective_lits(l)) <= k by {
        lemma_cnf_append(a, before, counted);
        assert(all_true(a, u.limits@[k]@));
    }
    assert forall|a: spec_fn(int) -> bool|
        feasible(a, l, circ, cap, pre_loaded) implies #[trigger] has_model(a, p) by {
        assert(cnf_true(a, structure));
        assert(slots_within(a, l, cap, l.slots as int));
        assert(extends_below(a, size, before));
        let b = choose|b: spec_fn(int) -> bool|
            #[trigger] agree_below(a, b, size) && cnf_true(b, before);
        lemma_same_count(a, b, p.objective@, size);
        assert(extends_to_model(b, p.objective@, next, u));
        let d = choose|d: spec_fn(int) -> bool|
            #[trigger] agree_below(b, d, next) && cnf_true(d, counted) && (forall|k: int|
                0 <= k < u.limits@.len() && true_count(b, p.objective@) <= k ==> all_true(
                    d,
                    (#[trigger] u.limits@[k])@,
                ));
        lemma_same_truth(b, d, before, next);
        lemma_cnf_append(d, before, counted);
        assert forall|v: int| 0 <= v < size implies #[trigger] a(v) == d(v) by {
            assert(b(v) == d(v));
        }
        assert forall|k: int|
            0 <= k < p.limits@.len() && true_count(a, objective_lits(p.layout)) <= k implies all_true(
            d,
            (#[trigger] p.limits@[k])@,
        ) by {
            assert(p.limits@[k] == u.limits@[k]);
        }
        assert(cnf_true(d, clause_views(p.clauses@)));
        assert(agree_below(a, d, p.layout.size()));
    }
}

/// The models of the structure are the partitions.
proof fn lemma_structure(l: Layout, circ: Circuit, pre_loaded: Map<Qubit, bool>)
    requires
        circ.wf(),
        l.slots > 0,
        l.fits(),
        l.n_gates == circ.gates@.len(),
        l.n_qubits == circ.qubits@.len(),
    ensures
        forall|a: spec_fn(int) -> bool| #[trigger]
            cnf_true(a, structure_clauses(l, circ.qubits@, circ.gates@, pre_loaded))
                <==> describes_partition(a, l, circ.qubits@, circ.gates@, pre_loaded),
{
    assert forall|i: int, k: int|
        0 <= i < circ.gates@.len() && 0 <= k < circ.gates@[i].operands().len() implies circ.qubits@.contains(
        #[trigger] circ.gates@[i].operands()[k],
    ) by {
        assert(circ.gates@[i].operands().contains(circ.gates@[i].operands()[k]));
        assert(crate::circuit::acts_on(circ.gates@, circ.gates@[i].operands()[k]));
    }
    assert forall|a: spec_fn(int) -> bool| #[trigger]
        cnf_true(a, structure_clauses(l, circ.qubits@, circ.gates@, pre_loaded))
            <==> describes_partition(a, l, circ.qubits@, circ.gates@, pre_loaded) by {
        law_models_describe_partitions(a, l, circ.qubits@, circ.gates@, pre_loaded);
    }
}

/// The variables of all counters have an index.
proof fn lemma_counters_fit(l: Layout, cap: int, c: Counters)
    requires
        l.fits(),
        counted(l, cap, c),
    ensures
        l.size() <= c.objective.next_var <= MAX_VAR,
{
    let us = c.slots@;
    lemma_slots_fit(l, cap, us, us.len() as int);
    lemma_slots_share(l, us.len() as int);
    l.lemma_products();
    lemma_load_store_len(l, l.n_qubits as int);
}

/// The counters of `n` slots take their share of the variables.
proof fn lemma_slots_share(l: Layout, n: int)
    requires
        0 <= n <= l.slots,
    ensures
        (l.n_qubits * digits(l.n_qubits as nat)) * n <= (l.n_qubits * l.slots) * digits(
            l.n_qubits as nat,
        ),
{
    let q = l.n_qubits as int;
    let d = digits(l.n_qubits as nat) as int;
    let k = l.slots as int;
    assert((q * d) * n <= (q * k) * d) by (nonlinear_arith)
        requires
            0 <= q,
            0 <= d,
            0 <= n <= k,
    ;
}

proof fn lemma_slots_fit(l: Layout, cap: int, us: Seq<UpperBounds>, n: int)
    requires
        0 <= n <= us.len(),
        forall|j: int| 0 <= j < us.len() ==> #[trigger] slot_counted(l, cap, us, j),
    ensures
        l.size() <= free_after(l, us, n) <= l.size() + (l.n_qubits * digits(l.n_qubits as nat)) * n,
    decreases n,
{
    let each = l.n_qubits * digits(l.n_qubits as nat);
    if n > 0 {
        lemma_slots_fit(l, cap, us, n - 1);
        assert(slot_counted(l, cap, us, n - 1));
        assert(each * n == each * (n - 1) + each) by (nonlinear_arith);
    } else {
        assert(each * n == 0) by (nonlinear_arith)
            requires
                n == 0,
        ;
    }
}

/// The problem of partitioning `circ` into at most `slots` subcircuits of at most
/// `proc_cap` resident qubits each, from the counters of its slots and of its
/// objective. `None` when the variables outrun the index range of a solver.
pub fn encode_counted(
    circ: &Circuit,
    proc_cap: usize,
    slots: usize,
    pre_loaded: &KeyedMap<Qubit, bool>,
    c: Counters,
) -> (r: Option<PartitionProblem>)
    requires
        circ.wf(),
        slots > 0,
        forall|j: int|
            0 <= j < c.slots@.len() ==> proc_cap < (#[trigger] c.slots@[j]).limits@.len(),
    ensures
        match r {
            Some(p) => {
                &&& layout_of(*circ, slots).fits()
                &&& assembled(p, *circ, proc_cap as int, slots, pre_loaded@, c)
                &&& counted(p.layout, proc_cap as int, c) ==> encodes(
                    p,
                    *circ,
                    proc_cap as int,
                    slots as int,
                    pre_loaded@,
                )
            },
            None => !layout_of(*circ, slots).fits(),
        },
{
    let l: Layout = match Layout::new(circ.gates.len(), circ.qubits.len(), slots) {
        Some(l) => l,
        None => return None,
    };
    let ghost cap = proc_cap as int;
    proof {
        l.lemma_products();
        assert(circ.gates.len() == circ.gates@.len());
        assert(l == layout_of(*circ, slots));
        assert(l.n_gates <= l.n_gates * l.slots) by (nonlinear_arith)
            requires
                l.slots >= 1,
        ;
    }
    let mut cs: Vec<Vec<PropLit>> = Vec::new();
    push_placement(&mut cs, &l);
    push_order(&mut cs, &l, circ);
    push_resident(&mut cs, &l, circ);
    push_transitions(&mut cs, &l, circ, pre_loaded);
    push_used(&mut cs, &l);
    let ghost structure = structure_clauses(l, circ.qubits@, circ.gates@, pre_loaded@);
    assert(clause_views(cs@) =~= structure);
    assert(structure + capacity_clauses(c.slots@, cap, 0) =~= structure);
    for j in 0..c.slots.len()
        invariant
            cap == proc_cap,
            forall|j: int|
                0 <= j < c.slots@.len() ==> proc_cap < (#[trigger] c.slots@[j]).limits@.len(),
            clause_views(cs@) == structure + capacity_clauses(c.slots@, cap, j as int),
    {
        push_all(&mut cs, &c.slots[j].clauses);
        push_units(&mut cs, &c.slots[j].limits[proc_cap]);
        assert(clause_views(cs@) =~= structure + capacity_clauses(c.slots@, cap, j + 1));
    }
    push_all(&mut cs, &c.objective.clauses);
    let p = PartitionProblem {
        layout: l,
        clauses: cs,
        objective: objective_literals(&l),
        limits: c.objective.limits,
        next_var: c.objective.next_var,
    };
    proof {
        if counted(l, cap, c) {
            lemma_assembled_encodes(p, *circ, cap, slots, pre_loaded@, c);
        }
    }
    Some(p)
}

/// The counters of the slots of a problem.
fn count_slots(l: &Layout, proc_cap: usize) -> (us: Vec<UpperBounds>)
    requires
        l.fits(),
    ensures
        slots_counted(*l, proc_cap as int, us@),
{
    let ghost cap = proc_cap as int;
    let mut us: Vec<UpperBounds> = Vec::new();
    if proc_cap >= l.n_qubits {
        return us;
    }
    let mut next: u32 = l.size_vars();
    for j in 0..l.slots
        invariant
            l.fits(),
            cap == proc_cap,
            proc_cap < l.n_qubits,
            us@.len() == j,
            next == free_after(*l, us@, j as int),
            forall|t: int| 0 <= t < us@.len() ==> #[trigger] slot_counted(*l, cap, us@, t),
    {
        let lits = resident_literals(l, j);
        let ghost old_us = us@;
        proof {
            l.lemma_products();
            lemma_slots_fit(*l, cap, us@, j as int);
            lemma_slots_share(*l, j + 1);
            let each = l.n_qubits * digits(l.n_qubits as nat);
            assert(each * (j + 1) == each * j + each) by (nonlinear_arith);
            assert(0 <= (2 * (l.n_qubits * l.slots)) * digits((2 * (l.n_qubits * l.slots)) as nat))
                by (nonlinear_arith)
                requires
                    0 <= 2 * (l.n_qubits * l.slots),
            ;
        }
        let u = upper_bounds(&lits, proc_cap + 1, next);
        next = u.next_var;
        us.push(u);
        proof {
            assert forall|t: int| 0 <= t < us@.len() implies #[trigger] slot_counted(
                *l,
                cap,
                us@,
                t,
            ) by {
                assert(free_after(*l, us@, t) == free_after(*l, old_us, t));
                if t < j {
                    assert(slot_counted(*l, cap, old_us, t));
                }
            }
        }
    }
    us
}

/// The counters that a problem asks for.
fn count_all(l: &Layout, proc_cap: usize) -> (c: Counters)
    requires
        l.fits(),
    ensures
        counted(*l, proc_cap as int, c),
{
    let slots = count_slots(l, proc_cap);
    let ghost us = slots@;
    let next: u32 = if slots.len() == 0 {
        l.size_vars()
    } else {
        slots[slots.len() - 1].next_var
    };
    let lits = objective_literals(l);
    proof {
        l.lemma_products();
        lemma_slots_fit(*l, proc_cap as int, us, us.len() as int);
        lemma_slots_share(*l, us.len() as int);
    }
    if lits.len() == 0 {
        let objective = UpperBounds { clauses: Vec::new(), limits: Vec::new(), next_var: next };
        proof {
            assert forall|a: spec_fn(int) -> bool| #[trigger] extends_to_model(
                a,
                lits@,
                next as int,
                objective,
            ) by {
                assert(agree_below(a, a, next as int));
            }
        }
        return Counters { slots, objective };
    }
    let objective = upper_bounds(&lits, lits.len(), next);
    Counters { slots, objective }
}

/// The clausal form of partitioning `circ` into at most `slots` subcircuits of
/// at most `proc_cap` resident qubits each. `None` when the variables outrun the
/// index range of a solver.
pub fn encode_partition(
    circ: &Circuit,
    proc_cap: usize,
    slots: usize,
    pre_loaded: &KeyedMap<Qubit, bool>,
) -> (r: Option<PartitionProblem>)
    requires
        circ.wf(),
        slots > 0,
    ensures
        r is None <==> !layout_of(*circ, slots).fits(),
        r matches Some(p) ==> encodes(p, *circ, proc_cap as int, slots as int, pre_loaded@),
        r matches Some(p) ==> exists|c: Counters| #[trigger]
            counted(p.layout, proc_cap as int, c) && assembled(
                p,
                *circ,
                proc_cap as int,
                slots,
                pre_loaded@,
                c,
            ),
{
    let l: Layout = match Layout::new(circ.gates.len(), circ.qubits.len(), slots) {
        Some(l) => l,
        None => return None,
    };
    assert(l == layout_of(*circ, slots));
    let c = count_all(&l, proc_cap);
    proof {
        assert forall|j: int| 0 <= j < c.slots@.len() implies proc_cap
            < (#[trigger] c.slots@[j]).limits@.len() by {
            assert(slot_counted(l, proc_cap as int, c.slots@, j));
        }
    }
    encode_counted(circ, proc_cap, slots, pre_loaded, c)
}

// ---------------------------------------------------------------------------
// Reading models
// ---------------------------------------------------------------------------
/// What a solver answers. A model gives a value to every variable.
pub enum SolveReply {
    Sat(Vec<bool>),
    Unsat,
    Interrupted,
}

/// The assignment that a model stands for.
pub open spec fn assignment_of(model: Seq<bool>) -> spec_fn(int) -> bool {
    |v: int| 0 <= v < model.len() && model[v]
}

/// The first slot from `j` on in which gate `i` runs, or 0.
pub open spec fn slot_from(a: spec_fn(int) -> bool, l: Layout, i: int, j: int) -> int
    decreases l.slots - j,
{
    if j >= l.slots {
        0
    } else if a(l.gate(i, j)) {
        j
    } else {
        slot_from(a, l, i, j + 1)
    }
}

/// `slots` tells in which slot each gate runs, and `resident` which qubits are
/// resident in the last slot.
pub open spec fn reads_model(
    a: spec_fn(int) -> bool,
    l: Layout,
    slots: Seq<usize>,
    resident: Seq<bool>,
) -> bool {
    &&& slots.len() == l.n_gates
    &&& forall|i: int| 0 <= i < l.n_gates ==> #[trigger] slots[i] == slot_from(a, l, i, 0)
    &&& resident.len() == l.n_qubits
    &&& forall|q: int| 0 <= q < l.n_qubits ==> #[trigger] resident[q] == a(l.mem(q, l.slots - 1))
}

/// The first slot of a gate that has one.
pub proof fn lemma_slot_from(a: spec_fn(int) -> bool, l: Layout, i: int, j: int)
    requires
        0 <= j,
        l.slots > 0,
    ensures
        0 <= slot_from(a, l, i, j) < l.slots,
        (exists|k: int| j <= k < l.slots && #[trigger] a(l.gate(i, k))) ==> a(
            l.gate(i, slot_from(a, l, i, j)),
        ),
    decreases l.slots - j,
{
    if j < l.slots && !a(l.gate(i, j)) {
        lemma_slot_from(a, l, i, j + 1);
        if exists|k: int| j <= k < l.slots && #[trigger] a(l.gate(i, k)) {
            let k = choose|k: int| j <= k < l.slots && #[trigger] a(l.gate(i, k));
            assert(j + 1 <= k);
        }
    }
}

/// In which slot each gate runs under a model.
fn read_slots(l: &Layout, model: &Vec<bool>) -> (r: Vec<usize>)
    requires
        l.indexed(),
        l.slots > 0,
        l.size() <= model@.len(),
    ensures
        r@.len() == l.n_gates,
        forall|i: int|
            0 <= i < l.n_gates ==> #[trigger] r@[i] == slot_from(
                assignment_of(model@),
                *l,
                i,
                0,
            ),
{
    let ghost a = assignment_of(model@);
    let mut r: Vec<usize> = Vec::new();
    for i in 0..l.n_gates
        invariant
            l.indexed(),
            l.slots > 0,
            l.size() <= model@.len(),
            a == assignment_of(model@),
            r@.len() == i,
            forall|k: int| 0 <= k < i ==> #[trigger] r@[k] == slot_from(a, *l, k, 0),
    {
        let mut j: usize = 0;
        while j < l.slots && !model[l.gate_var(i, j) as usize]
            invariant
                l.indexed(),
                l.size() <= model@.len(),
                a == assignment_of(model@),
                i < l.n_gates,
                j <= l.slots,
                slot_from(a, *l, i as int, 0) == slot_from(a, *l, i as int, j as int),
            decreases l.slots - j,
        {
            proof {
                l.lemma_gate_index(i as int, j as int);
            }
            j = j + 1;
        }
        if j < l.slots {
            proof {
                l.lemma_gate_index(i as int, j as int);
            }
            r.push(j);
        } else {
            r.push(0);
        }
    }
    r
}

/// Which qubits are resident in the last slot under a model.
fn read_residents(l: &Layout, model: &Vec<bool>) -> (r: Vec<bool>)
    requires
        l.indexed(),
        l.slots > 0,
        l.size() <= model@.len(),
    ensures
        r@.len() == l.n_qubits,
        forall|q: int|
            0 <= q < l.n_qubits ==> #[trigger] r@[q] == assignment_of(model@)(
                l.mem(q, l.slots - 1),
            ),
{
    let ghost a = assignment_of(model@);
    let mut r: Vec<bool> = Vec::new();
    for q in 0..l.n_qubits
        invariant
            l.indexed(),
            l.slots > 0,
            l.size() <= model@.len(),
            a == assignment_of(model@),
            r@.len() == q,
            forall|k: int| 0 <= k < q ==> #[trigger] r@[k] == a(l.mem(k, l.slots - 1)),
    {
        proof {
            l.lemma_qubit_index(q as int, l.slots - 1);
        }
        r.push(model[l.mem_var(q, l.slots - 1) as usize]);
    }
    r
}

/// How many of the literals a model makes true.
fn count_true(lits: &Vec<PropLit>, model: &Vec<bool>) -> (r: usize)
    requires
        lits_below(lits@, model@.len() as int),
    ensures
        r == true_count(assignment_of(model@), lits@),
{
    let ghost a = assignment_of(model@);
    let mut r: usize = 0;
    assert(lits@.take(0) =~= Seq::empty());
    for i in 0..lits.len()
        invariant
            lits_below(lits@, model@.len() as int),
            a == assignment_of(model@),
            r <= i,
            r == true_count(a, lits@.take(i as int)),
    {
        proof {
            assert(lits@.take(i + 1).drop_last() =~= lits@.take(i as int));
            assert(lits@[i as int].var < model@.len());
        }
        if model[lits[i].var as usize] == lits[i].positive {
            r = r + 1;
        }
    }
    assert(lits@.take(lits@.len() as int) =~= lits@);
    r
}

/// The gates among the first `n` that run in slot `j`.
pub open spec fn gates_in_slot(slots: Seq<usize>, j: int, n: int) -> Seq<int>
    decreases n,
{
    if n <= 0 {
        Seq::empty()
    } else if slots[n - 1] == j {
        gates_in_slot(slots, j, n - 1).push(n - 1)
    } else {
        gates_in_slot(slots, j, n - 1)
    }
}

/// The gates of each of the first `j` slots, without the empty ones.
pub open spec fn occupied_slots(slots: Seq<usize>, j: int) -> Seq<Seq<int>>
    decreases j,
{
    if j <= 0 {
        Seq::empty()
    } else {
        let here = gates_in_slot(slots, j - 1, slots.len() as int);
        if here.len() == 0 {
            occupied_slots(slots, j - 1)
        } else {
            occupied_slots(slots, j - 1).push(here)
        }
    }
}

/// `sub` holds the gates of `circ` at `picks`.
pub open spec fn gathers(circ: Circuit, picks: Seq<int>, sub: Circuit) -> bool {
    &&& sub.gates@ == picks.map_values(|g: int| circ.gates@[g])
    &&& sub.wf()
    &&& sub.num_qubits == circ.num_qubits
}

/// `subs` holds the gates of `circ`, group by group.
pub open spec fn gathers_all(circ: Circuit, groups: Seq<Seq<int>>, subs: Seq<Circuit>) -> bool {
    &&& subs.len() == groups.len()
    &&& forall|b: int| 0 <= b < groups.len() ==> gathers(circ, groups[b], #[trigger] subs[b])
}

/// The subcircuits that running each gate in its slot gives.
pub fn subcircuits_of(circ: &Circuit, slot_of: &Vec<usize>, slots: usize) -> (subs: Vec<Circuit>)
    requires
        slot_of@.len() == circ.gates@.len(),
    ensures
        gathers_all(*circ, occupied_slots(slot_of@, slots as int), subs@),
{
    let ghost n = slot_of@.len() as int;
    let mut subs: Vec<Circuit> = Vec::new();
    for j in 0..slots
        invariant
            slot_of@.len() == circ.gates@.len(),
            n == slot_of@.len(),
            gathers_all(*circ, occupied_slots(slot_of@, j as int), subs@),
    {
        let mut sub = Circuit::new(circ.num_qubits);
        assert(sub.gates@ =~= gates_in_slot(slot_of@, j as int, 0).map_values(
            |g: int| circ.gates@[g],
        ));
        for i in 0..circ.gates.len()
            invariant
                slot_of@.len() == circ.gates@.len(),
                gathers(*circ, gates_in_slot(slot_of@, j as int, i as int), sub),
        {
            if slot_of[i] == j {
                let ghost before = gates_in_slot(slot_of@, j as int, i as int);
                sub.apply(circ.gates[i]);
                assert(sub.gates@ =~= before.push(i as int).map_values(|g: int| circ.gates@[g]));
            }
        }
        if sub.gates.len() > 0 {
            let ghost before = subs@;
            let ghost groups = occupied_slots(slot_of@, j as int);
            let ghost here = gates_in_slot(slot_of@, j as int, n);
            subs.push(sub);
            proof {
                assert(here.len() == sub.gates@.len());
                let now = groups.push(here);
                assert forall|b: int| 0 <= b < now.len() implies gathers(
                    *circ,
                    now[b],
                    #[trigger] subs@[b],
                ) by {
                    if b < groups.len() {
                        assert(subs@[b] == before[b]);
                    }
                }
            }
        }
    }
    subs
}

// ---------------------------------------------------------------------------
// The search
// ---------------------------------------------------------------------------
/// The literals that enforce a cost of at most `k`; none when every model keeps it.
pub open spec fn limit_lits(p: PartitionProblem, k: int) -> Seq<PropLit> {
    if k < p.limits@.len() {
        p.limits@[k]@
    } else {
        Seq::empty()
    }
}

/// A model that a solver answers with satisfies the clauses and the assumptions.
pub open spec fn honest<F: Fn(&PartitionProblem, &Vec<PropLit>) -> SolveReply>(solve: F) -> bool {
    &&& forall|p: &PartitionProblem, assumptions: &Vec<PropLit>| #[trigger]
        call_requires(solve, (p, assumptions))
    &&& forall|p: &PartitionProblem, assumptions: &Vec<PropLit>, reply: SolveReply| #[trigger]
        call_ensures(solve, (p, assumptions), reply) ==> (reply matches SolveReply::Sat(model) ==> {
            &&& p.next_var <= model@.len()
            &&& cnf_true(assignment_of(model@), clause_views(p.clauses@))
            &&& all_true(assignment_of(model@), assumptions@)
        })
}

/// Nothing is cheaper than `cost`, as far as the solver could tell: it answered
/// otherwise than with a model when asked for one.
pub open spec fn not_improved<F: Fn(&PartitionProblem, &Vec<PropLit>) -> SolveReply>(
    solve: F,
    p: PartitionProblem,
    cost: int,
) -> bool {
    cost == 0 || exists|assumptions: Vec<PropLit>, reply: SolveReply|
        #[trigger] call_ensures(solve, (&p, &assumptions), reply) && assumptions@ == limit_lits(
            p,
            cost - 1,
        ) && reply !is Sat
}

/// The search ended with this model of the problem.
pub open spec fn best_model<F: Fn(&PartitionProblem, &Vec<PropLit>) -> SolveReply>(
    solve: F,
    p: PartitionProblem,
    first: int,
    slots: Seq<usize>,
    resident: Seq<bool>,
) -> bool {
    exists|a: spec_fn(int) -> bool|
        #[trigger] cnf_true(a, clause_views(p.clauses@)) && reads_model(
            a,
            p.layout,
            slots,
            resident,
        ) && true_count(a, objective_lits(p.layout)) < first && not_improved(
            solve,
            p,
            true_count(a, objective_lits(p.layout)) as int,
        )
}

proof fn lemma_true_count_len(a: spec_fn(int) -> bool, ls: Seq<PropLit>)
    ensures
        true_count(a, ls) <= ls.len(),
    decreases ls.len(),
{
    if ls.len() > 0 {
        lemma_true_count_len(a, ls.drop_last());
    }
}

/// Ask for cheaper and cheaper models, each cheaper than the last and the first
/// cheaper than `first`, until the solver does not answer with one. Hands back
/// the slot of each gate and the final residents of the last model.
fn search<F: Fn(&PartitionProblem, &Vec<PropLit>) -> SolveReply>(
    p: &PartitionProblem,
    first: usize,
    solve: &F,
    Ghost(circ): Ghost<Circuit>,
    Ghost(cap): Ghost<int>,
    Ghost(slots): Ghost<int>,
    Ghost(pre_loaded): Ghost<Map<Qubit, bool>>,
) -> (r: Option<(Vec<usize>, Vec<bool>)>)
    requires
        honest(*solve),
        slots > 0,
        encodes(*p, circ, cap, slots, pre_loaded),
    ensures
        match r {
            Some((slot_of, resident)) => best_model(
                *solve,
                *p,
                first as int,
                slot_of@,
                resident@,
            ),
            None => not_improved(*solve, *p, first as int),
        },
{
    let mut best: Option<(Vec<usize>, Vec<bool>)> = None;
    let mut best_cost: usize = first;
    let ghost mut found: spec_fn(int) -> bool = |v: int| false;
    let ghost l = p.layout;
    loop
        invariant
            honest(*solve),
            slots > 0,
            l == p.layout,
            encodes(*p, circ, cap, slots, pre_loaded),
            match best {
                Some((slot_of, resident)) => {
                    &&& cnf_true(found, clause_views(p.clauses@))
                    &&& reads_model(found, l, slot_of@, resident@)
                    &&& true_count(found, objective_lits(l)) == best_cost
                    &&& best_cost < first
                },
                None => best_cost == first,
            },
        ensures
            match best {
                Some((slot_of, resident)) => {
                    &&& cnf_true(found, clause_views(p.clauses@))
                    &&& reads_model(found, l, slot_of@, resident@)
                    &&& true_count(found, objective_lits(l)) == best_cost
                    &&& best_cost < first
                },
                None => best_cost == first,
            },
            not_improved(*solve, *p, best_cost as int),
        decreases best_cost,
    {
        if best_cost == 0 {
            break;
        }
        let assumptions: Vec<PropLit> = if best_cost - 1 < p.limits.len() {
            p.limits[best_cost - 1].clone()
        } else {
            Vec::new()
        };
        assert(assumptions@ =~= limit_lits(*p, best_cost - 1));
        let reply = solve(p, &assumptions);
        match reply {
            SolveReply::Sat(model) => {
                proof {
                    let a = assignment_of(model@);
                    lemma_true_count_len(a, p.objective@);
                    if best_cost - 1 < p.limits@.len() {
                        assert(all_true(a, p.limits@[best_cost - 1]@));
                    }
                    found = a;
                    l.lemma_products();
                    lemma_objective_below(l);
                }
                let slot_of = read_slots(&p.layout, &model);
                let resident = read_residents(&p.layout, &model);
                best_cost = count_true(&p.objective, &model);
                best = Some((slot_of, resident));
            },
            SolveReply::Unsat => {
                break;
            },
            SolveReply::Interrupted => {
                break;
            },
        }
    }
    best
}

proof fn lemma_objective_below(l: Layout)
    requires
        l.indexed(),
    ensures
        lits_below(objective_lits(l), l.size()),
{
    lemma_load_store_below(l, l.n_qubits as int);
    let x = load_lits(l, l.n_qubits as int);
    let y = store_lits(l, l.n_qubits as int);
    assert forall|k: int| 0 <= k < (x + y).len() implies (#[trigger] (x + y)[k]).var
        < l.size() by {
        if k < x.len() {
            assert((x + y)[k] == x[k]);
        } else {
            assert((x + y)[k] == y[k - x.len()]);
        }
    }
}

proof fn lemma_load_store_below(l: Layout, n: int)
    requires
        l.indexed(),
        0 <= n <= l.n_qubits,
    ensures
        lits_below(load_lits(l, n), l.size()),
        lits_below(store_lits(l, n), l.size()),
    decreases n,
{
    if n > 0 {
        lemma_load_store_below(l, n - 1);
        let a = load_lits(l, n - 1);
        let b = Seq::new(l.slots as nat, |j: int| pos(l.load(n - 1, j)));
        assert forall|k: int| 0 <= k < (a + b).len() implies (#[trigger] (a + b)[k]).var
            < l.size() by {
            if k < a.len() {
                assert((a + b)[k] == a[k]);
            } else {
                l.lemma_qubit_index(n - 1, k - a.len());
            }
        }
        let c = store_lits(l, n - 1);
        let d = Seq::new(l.slots as nat, |j: int| pos(l.store(n - 1, j)));
        assert forall|k: int| 0 <= k < (c + d).len() implies (#[trigger] (c + d)[k]).var
            < l.size() by {
            if k < c.len() {
                assert((c + d)[k] == c[k]);
            } else {
                l.lemma_qubit_index(n - 1, k - c.len());
            }
        }
    }
}

/// One above the cost that is known to be reached, or above every cost.
pub open spec fn first_bound(n_obj: int, initial_best_cost: Option<usize>) -> int {
    match initial_best_cost {
        Some(g) => if g < n_obj {
            g + 1
        } else {
            n_obj + 1
        },
        None => n_obj + 1,
    }
}

/// `mem` tells of every qubit whether it is resident at the end.
pub open spec fn final_mem_of(qubits: Seq<Qubit>, resident: Seq<bool>, mem: Map<Qubit, bool>) -> bool {
    &&& forall|q: Qubit| #[trigger] mem.dom().contains(q) <==> qubits.contains(q)
    &&& forall|i: int| 0 <= i < qubits.len() ==> mem[#[trigger] qubits[i]] == resident[i]
}

/// What partitioning hands back, for the problem handed to the solver.
pub open spec fn optimized<F: Fn(&PartitionProblem, &Vec<PropLit>) -> SolveReply>(
    circ: Circuit,
    slots: int,
    initial_best_cost: Option<usize>,
    solve: F,
    p: PartitionProblem,
    r: Option<(Vec<Circuit>, KeyedMap<Qubit, bool>)>,
) -> bool {
    let first = first_bound(p.objective@.len() as int, initial_best_cost);
    match r {
        Some((subs, mem)) => exists|slot_of: Seq<usize>, resident: Seq<bool>|
            #[trigger] best_model(solve, p, first, slot_of, resident) && gathers_all(
                circ,
                occupied_slots(slot_of, slots),
                subs@,
            ) && final_mem_of(circ.qubits@, resident, mem@),
        None => not_improved(solve, p, first),
    }
}

/// The cheapest partition that the solver finds for the encoded problem, and
/// which qubits are on the processor in the end. The search starts just above
/// `initial_best_cost`, and ends when the solver does not answer with a cheaper
/// model; `None` when it never answers with one.
pub fn optimize_encoded<F: Fn(&PartitionProblem, &Vec<PropLit>) -> SolveReply>(
    circ: &Circuit,
    proc_cap: usize,
    max_subcircuits: usize,
    initial_best_cost: Option<usize>,
    pre_loaded: &KeyedMap<Qubit, bool>,
    p: &PartitionProblem,
    solve: &F,
) -> (r: Option<(Vec<Circuit>, KeyedMap<Qubit, bool>)>)
    requires
        circ.wf(),
        honest(*solve),
        max_subcircuits > 0,
        encodes(*p, *circ, proc_cap as int, max_subcircuits as int, pre_loaded@),
    ensures
        optimized(*circ, max_subcircuits as int, initial_best_cost, *solve, *p, r),
        r matches Some((subs, mem)) ==> all_within(subs@, proc_cap as int),
{
    let n_obj: usize = p.objective.len();
    proof {
        p.layout.lemma_products();
        lemma_objective_len(p.layout);
    }
    let first: usize = match initial_best_cost {
        Some(g) => if g < n_obj {
            g + 1
        } else {
            n_obj + 1
        },
        None => n_obj + 1,
    };
    let found = search(
        p,
        first,
        solve,
        Ghost(*circ),
        Ghost(proc_cap as int),
        Ghost(max_subcircuits as int),
        Ghost(pre_loaded@),
    );
    assert(first == first_bound(p.objective@.len() as int, initial_best_cost));
    match found {
        None => {
            assert(not_improved(*solve, *p, first as int));
            None
        },
        Some((slot_of, resident)) => {
            proof {
                let a = choose|a: spec_fn(int) -> bool|
                    #[trigger] cnf_true(a, clause_views(p.clauses@)) && reads_model(
                        a,
                        p.layout,
                        slot_of@,
                        resident@,
                    ) && true_count(a, objective_lits(p.layout)) < first && not_improved(
                        *solve,
                        *p,
                        true_count(a, objective_lits(p.layout)) as int,
                    );
                assert(reads_model(a, p.layout, slot_of@, resident@));
            }
            let subs = subcircuits_of(circ, &slot_of, max_subcircuits);
            let mut mem: KeyedMap<Qubit, bool> = KeyedMap::new();
            for i in 0..circ.qubits.len()
                invariant
                    increasing(circ.qubits@),
                    resident@.len() == circ.qubits@.len(),
                    forall|q: Qubit| #[trigger]
                        mem@.dom().contains(q) <==> circ.qubits@.take(i as int).contains(q),
                    forall|k: int|
                        0 <= k < i ==> mem@[#[trigger] circ.qubits@[k]] == resident@[k],
            {
                proof {
                    crate::circuit::lemma_take_contains(circ.qubits@, i as int);
                    assert forall|k: int| 0 <= k < i implies #[trigger] circ.qubits@[k]
                        != circ.qubits@[i as int] by {
                        assert(key_lt(circ.qubits@[k].key(), circ.qubits@[i as int].key()));
                    }
                }
                mem.insert(circ.qubits[i], resident[i]);
            }
            assert(circ.qubits@.take(circ.qubits@.len() as int) =~= circ.qubits@);
            assert(final_mem_of(circ.qubits@, resident@, mem@));
            assert(gathers_all(*circ, occupied_slots(slot_of@, max_subcircuits as int), subs@));
            assert(best_model(*solve, *p, first as int, slot_of@, resident@));
            proof {
                let a = choose|a: spec_fn(int) -> bool|
                    #[trigger] cnf_true(a, clause_views(p.clauses@)) && reads_model(
                        a,
                        p.layout,
                        slot_of@,
                        resident@,
                    ) && true_count(a, objective_lits(p.layout)) < first && not_improved(
                        *solve,
                        *p,
                        true_count(a, objective_lits(p.layout)) as int,
                    );
                let groups = occupied_slots(slot_of@, max_subcircuits as int);
                assert forall|b: int| 0 <= b < subs@.len() implies (#[trigger] subs@[b]).wf()
                    && subs@[b].qubits@.len() <= proc_cap by {
                    let j = lemma_occupied_slot(slot_of@, max_subcircuits as int, b);
                    assert(gathers(*circ, groups[b], subs@[b]));
                    law_model_respects_capacity(
                        a,
                        p.layout,
                        *circ,
                        proc_cap as int,
                        pre_loaded@,
                        slot_of@,
                        resident@,
                        j,
                        subs@[b],
                    );
                }
            }
            Some((subs, mem))
        },
    }
}

/// The assignment of gates to at most `max_subcircuits` subcircuits with the
/// fewest loads and stores that the solver finds, subject to processor capacity,
/// and which qubits are on the processor in the end. `None` when the problem
/// cannot be encoded, or the solver never answers with a model.
pub fn optimize_partition<F: Fn(&PartitionProblem, &Vec<PropLit>) -> SolveReply>(
    circ: &Circuit,
    proc_cap: usize,
    max_subcircuits: usize,
    initial_best_cost: Option<usize>,
    pre_loaded: &KeyedMap<Qubit, bool>,
    solve: &F,
) -> (r: Option<(Vec<Circuit>, KeyedMap<Qubit, bool>)>)
    requires
        circ.wf(),
        honest(*solve),
    ensures
        (circ.gates@.len() == 0 || max_subcircuits == 0) ==> (r matches Some((subs, mem))
            && subs@.len() == 0 && mem@ == Map::<Qubit, bool>::empty()),
        circ.gates@.len() > 0 && max_subcircuits > 0 && !layout_of(*circ, max_subcircuits).fits()
            ==> r is None,
        circ.gates@.len() > 0 && max_subcircuits > 0 && layout_of(*circ, max_subcircuits).fits()
            ==> exists|p: PartitionProblem| #[trigger]
            encodes(p, *circ, proc_cap as int, max_subcircuits as int, pre_loaded@) && optimized(
                *circ,
                max_subcircuits as int,
                initial_best_cost,
                *solve,
                p,
                r,
            ),
        r matches Some((subs, mem)) ==> all_within(subs@, proc_cap as int),
{
    if circ.gates.len() == 0 || max_subcircuits == 0 {
        return Some((Vec::new(), KeyedMap::new()));
    }
    match encode_partition(circ, proc_cap, max_subcircuits, pre_loaded) {
        Some(p) => optimize_encoded(
            circ,
            proc_cap,
            max_subcircuits,
            initial_best_cost,
            pre_loaded,
            &p,
            solve,
        ),
        None => None,
    }
}

proof fn lemma_objective_len(l: Layout)
    requires
        l.indexed(),
    ensures
        objective_lits(l).len() == 2 * (l.n_qubits * l.slots),
        objective_lits(l).len() < MAX_VAR,
{
    l.lemma_products();
    lemma_load_store_len(l, l.n_qubits as int);
}

proof fn lemma_load_store_len(l: Layout, n: int)
    requires
        0 <= n,
    ensures
        load_lits(l, n).len() == n * l.slots,
        store_lits(l, n).len() == n * l.slots,
    decreases n,
{
    if n > 0 {
        lemma_load_store_len(l, n - 1);
        assert(n * l.slots == (n - 1) * l.slots + l.slots) by (nonlinear_arith);
    } else {
        assert(0 * l.slots == 0) by (nonlinear_arith);
    }
}

/// Every subcircuit lists the qubits it acts on, at most `cap` of them.
pub open spec fn all_within(subs: Seq<Circuit>, cap: int) -> bool {
    forall|i: int|
        0 <= i < subs.len() ==> (#[trigger] subs[i]).wf() && subs[i].qubits@.len() <= cap
}

proof fn lemma_occupied_slot(slots: Seq<usize>, n: int, b: int) -> (j: int)
    requires
        0 <= n,
        0 <= b < occupied_slots(slots, n).len(),
    ensures
        0 <= j < n,
        occupied_slots(slots, n)[b] == gates_in_slot(slots, j, slots.len() as int),
    decreases n,
{
    if n <= 0 {
        0
    } else {
        let before = occupied_slots(slots, n - 1);
        if b < before.len() {
            lemma_occupied_slot(slots, n - 1, b)
        } else {
            n - 1
        }
    }
}

// ---------------------------------------------------------------------------
// Slicing
// ---------------------------------------------------------------------------
/// The number of gates of a slice, when `n` gates are cut into `num_slices`.
pub open spec fn slice_size(n: int, num_slices: int) -> int {
    (n + num_slices - 1) / num_slices
}

/// `subs` and `after` are what partitioning gates `lo` to `hi` gave, with the
/// qubits of `before` on the processor beforehand.
pub open spec fn slice_partitioned<F: Fn(&PartitionProblem, &Vec<PropLit>) -> SolveReply>(
    circ: Circuit,
    cap: int,
    slots: int,
    initial_best_cost: Option<usize>,
    solve: F,
    lo: int,
    hi: int,
    before: Map<Qubit, bool>,
    subs: Seq<Circuit>,
    after: Map<Qubit, bool>,
) -> bool {
    exists|slice: Circuit, r: (Vec<Circuit>, KeyedMap<Qubit, bool>)|
        #[trigger] slice_result(
            circ,
            cap,
            slots,
            initial_best_cost,
            solve,
            lo,
            hi,
            before,
            slice,
            r,
        ) && r.0@ == subs && r.1@ == after
}

/// `r` is what partitioning `slice`, gates `lo` to `hi` of `circ`, gave.
pub open spec fn slice_result<F: Fn(&PartitionProblem, &Vec<PropLit>) -> SolveReply>(
    circ: Circuit,
    cap: int,
    slots: int,
    initial_best_cost: Option<usize>,
    solve: F,
    lo: int,
    hi: int,
    before: Map<Qubit, bool>,
    slice: Circuit,
    r: (Vec<Circuit>, KeyedMap<Qubit, bool>),
) -> bool {
    &&& slice.gates@ == circ.gates@.subrange(lo, hi)
    &&& slice.wf()
    &&& slice.num_qubits == circ.num_qubits
    &&& slots == 0 ==> r.0@.len() == 0 && r.1@ == Map::<Qubit, bool>::empty()
    &&& slots > 0 ==> exists|p: PartitionProblem| #[trigger]
        encodes(p, slice, cap, slots, before) && optimized(
            slice,
            slots,
            initial_best_cost,
            solve,
            p,
            Some(r),
        )
}

/// The first `k` slices were partitioned one after another, each starting from
/// the qubits that the one before left on the processor.
pub open spec fn slices_partitioned<F: Fn(&PartitionProblem, &Vec<PropLit>) -> SolveReply>(
    circ: Circuit,
    cap: int,
    slots: int,
    initial_best_cost: Option<usize>,
    solve: F,
    size: int,
    pieces: Seq<Seq<Circuit>>,
    mems: Seq<Map<Qubit, bool>>,
) -> bool {
    &&& mems.len() == pieces.len() + 1
    &&& mems[0] == Map::<Qubit, bool>::empty()
    &&& forall|k: int|
        0 <= k < pieces.len() ==> slice_partitioned(
            circ,
            cap,
            slots,
            initial_best_cost,
            solve,
            k * size,
            if (k + 1) * size < circ.gates@.len() {
                (k + 1) * size
            } else {
                circ.gates@.len() as int
            },
            mems[k],
            #[trigger] pieces[k],
            mems[k + 1],
        )
}

/// The end of the slice of `size` gates from `lo` on.
pub open spec fn slice_end(n: int, size: int, lo: int) -> int {
    if lo + size < n {
        lo + size
    } else {
        n
    }
}

/// Before each of the first `k` slices, `may_start` said yes.
pub open spec fn slices_started<G: Fn(usize, usize) -> bool>(
    may_start: G,
    n: int,
    size: int,
    k: int,
) -> bool {
    forall|t: int| 0 <= t < k ==> #[trigger] slice_answered(may_start, n, size, t, true)
}

/// Asked with the size of slice `k` and the number of gates left, `may_start` gave
/// this answer.
pub open spec fn slice_answered<G: Fn(usize, usize) -> bool>(
    may_start: G,
    n: int,
    size: int,
    k: int,
    answer: bool,
) -> bool {
    call_ensures(
        may_start,
        ((slice_end(n, size, k * size) - k * size) as usize, (n - k * size) as usize),
        answer,
    )
}

/// Partitioning `slice`, gates `lo` to `hi` of `circ`, gave nothing: the problem
/// outruns the index range of a solver, or the solver never answered with a model.
pub open spec fn slice_unsolved<F: Fn(&PartitionProblem, &Vec<PropLit>) -> SolveReply>(
    circ: Circuit,
    cap: int,
    slots: usize,
    initial_best_cost: Option<usize>,
    solve: F,
    lo: int,
    hi: int,
    before: Map<Qubit, bool>,
    slice: Circuit,
) -> bool {
    &&& slice.gates@ == circ.gates@.subrange(lo, hi)
    &&& slice.wf()
    &&& slice.num_qubits == circ.num_qubits
    &&& slots > 0
    &&& !layout_of(slice, slots).fits() || exists|p: PartitionProblem| #[trigger]
        encodes(p, slice, cap, slots as int, before) && not_improved(
            solve,
            p,
            first_bound(p.objective@.len() as int, initial_best_cost),
        )
}

/// The slices before one were started and partitioned; then `may_start` said no, or
/// no partition of that slice was found.
pub open spec fn slices_refused<
    F: Fn(&PartitionProblem, &Vec<PropLit>) -> SolveReply,
    G: Fn(usize, usize) -> bool,
>(
    circ: Circuit,
    cap: int,
    slots: usize,
    initial_best_cost: Option<usize>,
    solve: F,
    may_start: G,
    size: int,
) -> bool {
    exists|pieces: Seq<Seq<Circuit>>, mems: Seq<Map<Qubit, bool>>|
        #[trigger] slices_partitioned(
            circ,
            cap,
            slots as int,
            initial_best_cost,
            solve,
            size,
            pieces,
            mems,
        ) && refused_after(
            circ,
            cap,
            slots,
            initial_best_cost,
            solve,
            may_start,
            size,
            pieces.len() as int,
            mems,
        )
}

/// The first `k` slices were started; slice `k` was not, or no partition of it was
/// found.
pub open spec fn refused_after<
    F: Fn(&PartitionProblem, &Vec<PropLit>) -> SolveReply,
    G: Fn(usize, usize) -> bool,
>(
    circ: Circuit,
    cap: int,
    slots: usize,
    initial_best_cost: Option<usize>,
    solve: F,
    may_start: G,
    size: int,
    k: int,
    mems: Seq<Map<Qubit, bool>>,
) -> bool {
    let n = circ.gates@.len() as int;
    &&& k * size < n
    &&& slices_started(may_start, n, size, k)
    &&& slice_answered(may_start, n, size, k, false) || slice_answered(may_start, n, size, k, true)
        && exists|slice: Circuit| #[trigger]
        slice_unsolved(
            circ,
            cap,
            slots,
            initial_best_cost,
            solve,
            k * size,
            slice_end(n, size, k * size),
            mems[k],
            slice,
        )
}

/// Gates `lo` to `hi` of a circuit.
pub fn slice_circuit(circ: &Circuit, lo: usize, hi: usize) -> (r: Circuit)
    requires
        lo <= hi <= circ.gates@.len(),
    ensures
        r.wf(),
        r.gates@ == circ.gates@.subrange(lo as int, hi as int),
        r.num_qubits == circ.num_qubits,
{
    let mut r = Circuit::new(circ.num_qubits);
    assert(r.gates@ =~= circ.gates@.subrange(lo as int, lo as int));
    for i in lo..hi
        invariant
            lo <= hi <= circ.gates@.len(),
            r.wf(),
            r.gates@ == circ.gates@.subrange(lo as int, i as int),
            r.num_qubits == circ.num_qubits,
    {
        r.apply(circ.gates[i]);
        assert(r.gates@ =~= circ.gates@.subrange(lo as int, i + 1));
    }
    r
}

/// Cuts `circ` into `num_slices` contiguous slices of gates and partitions each
/// in sequence. Before each slice `may_start` is asked, with the size of the
/// slice and the number of gates left, whether to go on. `None` when it says no,
/// or when no partition of a slice is found.
pub fn slice_and_optimize<
    F: Fn(&PartitionProblem, &Vec<PropLit>) -> SolveReply,
    G: Fn(usize, usize) -> bool,
>(
    circ: &Circuit,
    proc_cap: usize,
    max_subcircuits: usize,
    num_slices: usize,
    initial_best_cost: Option<usize>,
    solve: &F,
    may_start: &G,
) -> (r: Option<Vec<Circuit>>)
    requires
        honest(*solve),
        circ.gates@.len() + num_slices <= usize::MAX,
        forall|a: usize, b: usize| call_requires(*may_start, (a, b)),
    ensures
        circ.gates@.len() == 0 || num_slices == 0 ==> (r matches Some(subs) && subs@.len() == 0),
        circ.gates@.len() > 0 && num_slices > 0 ==> (r matches Some(subs) ==> exists|
            pieces: Seq<Seq<Circuit>>,
            mems: Seq<Map<Qubit, bool>>,
        | #[trigger]
            slices_partitioned(
                *circ,
                proc_cap as int,
                max_subcircuits as int,
                initial_best_cost,
                *solve,
                slice_size(circ.gates@.len() as int, num_slices as int),
                pieces,
                mems,
            ) && slices_started(
                *may_start,
                circ.gates@.len() as int,
                slice_size(circ.gates@.len() as int, num_slices as int),
                pieces.len() as int,
            ) && pieces.len() * slice_size(circ.gates@.len() as int, num_slices as int)
                >= circ.gates@.len() && subs@ == pieces.flatten()),
        r is None ==> slices_refused(
            *circ,
            proc_cap as int,
            max_subcircuits,
            initial_best_cost,
            *solve,
            *may_start,
            slice_size(circ.gates@.len() as int, num_slices as int),
        ),
        r matches Some(subs) ==> all_within(subs@, proc_cap as int),
{
    if circ.gates.len() == 0 || num_slices == 0 {
        return Some(Vec::new());
    }
    let n: usize = circ.gates.len();
    let size: usize = (n + num_slices - 1) / num_slices;
    assert(size > 0) by {
        assert((n + num_slices - 1) / (num_slices as int) >= 1) by (nonlinear_arith)
            requires
                n >= 1,
                num_slices >= 1,
        ;
    }
    let mut result: Vec<Circuit> = Vec::new();
    let mut pre_loaded: KeyedMap<Qubit, bool> = KeyedMap::new();
    let mut start: usize = 0;
    let ghost mut pieces: Seq<Seq<Circuit>> = Seq::empty();
    let ghost mut mems: Seq<Map<Qubit, bool>> = seq![Map::empty()];
    proof {
        assert(0 * size == 0) by (nonlinear_arith);
        assert(pieces.flatten() =~= Seq::<Circuit>::empty());
    }
    while start < n
        invariant
            honest(*solve),
            n == circ.gates@.len(),
            num_slices > 0,
            size > 0,
            size == slice_size(n as int, num_slices as int),
            forall|a: usize, b: usize| call_requires(*may_start, (a, b)),
            slices_partitioned(
                *circ,
                proc_cap as int,
                max_subcircuits as int,
                initial_best_cost,
                *solve,
                size as int,
                pieces,
                mems,
            ),
            slices_started(*may_start, n as int, size as int, pieces.len() as int),
            mems[pieces.len() as int] == pre_loaded@,
            start < n ==> start == pieces.len() * size,
            start >= n ==> pieces.len() * size >= n,
            result@ == pieces.flatten(),
            all_within(result@, proc_cap as int),
        decreases n - start,
    {
        let end: usize = if n - start <= size {
            n
        } else {
            start + size
        };
        let ghost k = pieces.len() as int;
        assert(end == slice_end(n as int, size as int, k * size));
        if !may_start(end - start, n - start) {
            assert(slice_answered(*may_start, n as int, size as int, k, false));
            return None;
        }
        assert(slice_answered(*may_start, n as int, size as int, k, true));
        let slice = slice_circuit(circ, start, end);
        let outcome = optimize_partition(
            &slice,
            proc_cap,
            max_subcircuits,
            initial_best_cost,
            &pre_loaded,
            solve,
        );
        match outcome {
            None => {
                assert(slice_unsolved(
                    *circ,
                    proc_cap as int,
                    max_subcircuits,
                    initial_best_cost,
                    *solve,
                    k * size,
                    end as int,
                    mems[k],
                    slice,
                ));
                return None;
            },
            Some(found) => {
                let ghost piece = found.0@;
                let ghost after = found.1@;
                proof {
                    assert((k + 1) * size == k * size + size) by (nonlinear_arith);
                    assert(slice_result(
                        *circ,
                        proc_cap as int,
                        max_subcircuits as int,
                        initial_best_cost,
                        *solve,
                        start as int,
                        end as int,
                        pre_loaded@,
                        slice,
                        found,
                    ));
                }
                let (mut partitioned, final_mem) = found;
                result.append(&mut partitioned);
                proof {
                    let before = pieces;
                    let mems0 = mems;
                    pieces = pieces.push(piece);
                    mems = mems.push(after);
                    before.lemma_flatten_push(piece);
                    assert forall|t: int| 0 <= t < pieces.len() implies slice_partitioned(
                        *circ,
                        proc_cap as int,
                        max_subcircuits as int,
                        initial_best_cost,
                        *solve,
                        t * size,
                        if (t + 1) * size < circ.gates@.len() {
                            (t + 1) * size
                        } else {
                            circ.gates@.len() as int
                        },
                        mems[t],
                        #[trigger] pieces[t],
                        mems[t + 1],
                    ) by {
                        if t < before.len() {
                            assert(pieces[t] == before[t]);
                            assert(mems[t] == mems0[t]);
                            assert(mems[t + 1] == mems0[t + 1]);
                        }
                    }
                }
                pre_loaded = final_mem;
                start = end;
            },
        }
    }
    Some(result)
}

// ---------------------------------------------------------------------------
// What a partition from a model keeps
// ---------------------------------------------------------------------------
/// The positions below `n` whose literal is true.
spec fn true_positions(a: spec_fn(int) -> bool, ls: Seq<PropLit>) -> Set<int>
    decreases ls.len(),
{
    if ls.len() == 0 {
        Set::empty()
    } else if lit_true(a, ls.last()) {
        true_positions(a, ls.drop_last()).insert(ls.len() - 1)
    } else {
        true_positions(a, ls.drop_last())
    }
}

proof fn lemma_true_positions(a: spec_fn(int) -> bool, ls: Seq<PropLit>)
    ensures
        true_positions(a, ls).finite(),
        true_positions(a, ls).len() == true_count(a, ls),
        forall|t: int| #[trigger]
            true_positions(a, ls).contains(t) <==> (0 <= t < ls.len() && lit_true(a, ls[t])),
    decreases ls.len(),
{
    if ls.len() > 0 {
        lemma_true_positions(a, ls.drop_last());
        assert(!true_positions(a, ls.drop_last()).contains(ls.len() - 1));
    }
}

pub(crate) proof fn lemma_gates_in_slot(slots: Seq<usize>, j: int, n: int)
    requires
        0 <= n <= slots.len(),
    ensures
        forall|k: int|
            0 <= k < gates_in_slot(slots, j, n).len() ==> 0 <= (
            #[trigger] gates_in_slot(slots, j, n)[k]) < n && slots[gates_in_slot(slots, j, n)[k]]
                == j,
    decreases n,
{
    if n > 0 {
        lemma_gates_in_slot(slots, j, n - 1);
        let before = gates_in_slot(slots, j, n - 1);
        let now = gates_in_slot(slots, j, n);
        assert forall|k: int| 0 <= k < now.len() implies 0 <= (#[trigger] now[k]) < n
            && slots[now[k]] == j by {
            if k < before.len() {
                assert(now[k] == before[k]);
            }
        }
    }
}

/// Where every gate runs in one slot, with its operands resident there, and at
/// most `cap` qubits are resident in slot `j`, the subcircuit of that slot acts on
/// at most `cap` qubits.
pub proof fn lemma_within_capacity(
    a: spec_fn(int) -> bool,
    l: Layout,
    circ: Circuit,
    cap: int,
    slot_of: Seq<usize>,
    j: int,
    sub: Circuit,
)
    requires
        circ.wf(),
        l.indexed(),
        l.n_gates == circ.gates@.len(),
        l.n_qubits == circ.qubits@.len(),
        l.n_qubits <= cap || slot_within(a, l, cap, j),
        forall|i: int| 0 <= i < l.n_gates ==> #[trigger] runs_once(a, l, i),
        forall|i: int|
            0 <= i < l.n_gates ==> #[trigger] operands_resident(
                a,
                l,
                circ.qubits@,
                circ.gates@[i],
                i,
            ),
        slot_of.len() == l.n_gates,
        forall|i: int| 0 <= i < l.n_gates ==> #[trigger] slot_of[i] == slot_from(a, l, i, 0),
        0 <= j < l.slots,
        gathers(circ, gates_in_slot(slot_of, j, l.n_gates as int), sub),
    ensures
        sub.qubits@.len() <= cap,
{
    let qs = sub.qubits@;
    let all = circ.qubits@;
    let picks = gates_in_slot(slot_of, j, l.n_gates as int);
    lemma_gates_in_slot(slot_of, j, l.n_gates as int);
    let lits = resident_lits(l, j);
    let ps = Seq::new(qs.len(), |k: int| qubit_position(all, qs[k]));
    assert forall|k: int| 0 <= k < qs.len() implies 0 <= #[trigger] ps[k] < all.len() && all[ps[k]]
        == qs[k] && lit_true(a, lits[ps[k]]) by {
        let q = qs[k];
        assert(qs.contains(q));
        assert(crate::circuit::acts_on(sub.gates@, q));
        let m = choose|m: int|
            0 <= m < sub.gates@.len() && (#[trigger] sub.gates@[m]).operands().contains(q);
        let i = picks[m];
        assert(sub.gates@[m] == circ.gates@[i]);
        assert(crate::circuit::acts_on(circ.gates@, q)) by {
            assert(circ.gates@[i].operands().contains(q));
        }
        assert(all.contains(q));
        let w = all.index_of(q);
        assert(all[w] == q);
        assert(0 <= ps[k] < all.len() && all[ps[k]] == q);
        assert(runs_once(a, l, i));
        lemma_slot_from(a, l, i, 0);
        assert(slot_of[i] == slot_from(a, l, i, 0));
        assert(a(l.gate(i, j)));
        assert(operands_resident(a, l, all, circ.gates@[i], i));
        let o = circ.gates@[i].operands().index_of(q);
        assert(circ.gates@[i].operands()[o] == q);
        assert(a(l.mem(ps[k], j)));
        l.lemma_qubit_index(ps[k], j);
    }
    assert forall|x: int, y: int| 0 <= x < ps.len() && 0 <= y < ps.len() && x != y implies ps[x]
        != ps[y] by {
        if x < y {
            assert(key_lt(qs[x].key(), qs[y].key()));
        } else {
            assert(key_lt(qs[y].key(), qs[x].key()));
        }
        assert(all[ps[x]] == qs[x] && all[ps[y]] == qs[y]);
    }
    ps.unique_seq_to_set();
    if cap < l.n_qubits {
        lemma_true_positions(a, lits);
        assert(ps.to_set().subset_of(true_positions(a, lits))) by {
            assert forall|t: int| ps.to_set().contains(t) implies true_positions(a, lits).contains(
                t,
            ) by {
                let k = ps.index_of(t);
                assert(ps[k] == t);
            }
        }
        vstd::set_lib::lemma_len_subset(ps.to_set(), true_positions(a, lits));
        assert(slot_within(a, l, cap, j));
    } else {
        let range = vstd::set_lib::set_int_range(0, all.len() as int);
        vstd::set_lib::lemma_int_range(0, all.len() as int);
        assert(ps.to_set().subset_of(range)) by {
            assert forall|t: int| ps.to_set().contains(t) implies range.contains(t) by {
                let k = ps.index_of(t);
                assert(ps[k] == t);
            }
        }
        vstd::set_lib::lemma_len_subset(ps.to_set(), range);
    }
}

/// Where a model is a partition within capacity, the subcircuit of every slot
/// acts on at most `cap` qubits.
pub proof fn law_model_respects_capacity(
    a: spec_fn(int) -> bool,
    l: Layout,
    circ: Circuit,
    cap: int,
    pre_loaded: Map<Qubit, bool>,
    slot_of: Seq<usize>,
    resident: Seq<bool>,
    j: int,
    sub: Circuit,
)
    requires
        circ.wf(),
        l.indexed(),
        l.n_gates == circ.gates@.len(),
        l.n_qubits == circ.qubits@.len(),
        feasible(a, l, circ, cap, pre_loaded),
        reads_model(a, l, slot_of, resident),
        0 <= j < l.slots,
        gathers(circ, gates_in_slot(slot_of, j, l.n_gates as int), sub),
    ensures
        sub.qubits@.len() <= cap,
{
    assert(cap < l.n_qubits ==> slot_within(a, l, cap, j));
    lemma_within_capacity(a, l, circ, cap, slot_of, j, sub);
}

/// Where a model is a partition, no gate runs in an earlier subcircuit than one
/// that it waits for.
pub proof fn law_model_respects_dependencies(
    a: spec_fn(int) -> bool,
    l: Layout,
    circ: Circuit,
    pre_loaded: Map<Qubit, bool>,
    slot_of: Seq<usize>,
    resident: Seq<bool>,
    u: int,
    v: int,
)
    requires
        l.slots > 0,
        l.n_gates == circ.gates@.len(),
        describes_partition(a, l, circ.qubits@, circ.gates@, pre_loaded),
        reads_model(a, l, slot_of, resident),
        0 <= u < l.n_gates,
        0 <= v < l.n_gates,
        predecessors(circ.gates@, v).contains(u),
    ensures
        slot_of[u] <= slot_of[v],
{
    let gs = circ.gates@;
    crate::partition::lemma_successors_upto(gs, u, gs.len() as int);
    assert(successors_upto(gs, u, gs.len() as int).contains(v));
    assert(runs_in_order(a, l, u, v));
    assert(runs_once(a, l, u) && runs_once(a, l, v));
    lemma_slot_from(a, l, u, 0);
    lemma_slot_from(a, l, v, 0);
    assert(slot_of[u] == slot_from(a, l, u, 0));
    assert(slot_of[v] == slot_from(a, l, v, 0));
    let i = slot_from(a, l, u, 0);
    let j = slot_from(a, l, v, 0);
    assert(a(l.gate(u, i)) && a(l.gate(v, j)));
}

// ---------------------------------------------------------------------------
// What a complete solver finds
// ---------------------------------------------------------------------------
/// A solver that answers otherwise than with a model only where there is none.
pub open spec fn complete<F: Fn(&PartitionProblem, &Vec<PropLit>) -> SolveReply>(solve: F) -> bool {
    forall|p: &PartitionProblem, assumptions: &Vec<PropLit>, reply: SolveReply| #[trigger]
        call_ensures(solve, (p, assumptions), reply) && reply !is Sat ==> no_model(
            *p,
            assumptions@,
        )
}

/// No assignment satisfies the clauses and the assumptions.
pub open spec fn no_model(p: PartitionProblem, assumptions: Seq<PropLit>) -> bool {
    forall|a: spec_fn(int) -> bool| #[trigger]
        cnf_true(a, clause_views(p.clauses@)) ==> !all_true(a, assumptions)
}

/// With a complete solver, no partition within capacity costs less than a cost that was
/// not improved.
pub proof fn law_complete_search_misses_nothing<
    F: Fn(&PartitionProblem, &Vec<PropLit>) -> SolveReply,
>(
    solve: F,
    p: PartitionProblem,
    circ: Circuit,
    cap: int,
    slots: int,
    pre_loaded: Map<Qubit, bool>,
    cost: int,
    a: spec_fn(int) -> bool,
)
    requires
        complete(solve),
        encodes(p, circ, cap, slots, pre_loaded),
        not_improved(solve, p, cost),
        feasible(a, p.layout, circ, cap, pre_loaded),
    ensures
        cost <= true_count(a, objective_lits(p.layout)),
{
    let count = true_count(a, objective_lits(p.layout));
    if count < cost {
        let (assumptions, reply) = choose|assumptions: Vec<PropLit>, reply: SolveReply|
            #[trigger] call_ensures(solve, (&p, &assumptions), reply) && assumptions@ == limit_lits(
                p,
                cost - 1,
            ) && reply !is Sat;
        assert(no_model(p, assumptions@));
        assert(has_model(a, p));
        let b = choose|b: spec_fn(int) -> bool|
            #[trigger] agree_below(a, b, p.layout.size()) && cnf_true(b, clause_views(p.clauses@))
                && (forall|k: int|
                0 <= k < p.limits@.len() && true_count(a, objective_lits(p.layout)) <= k ==> all_true(
                    b,
                    (#[trigger] p.limits@[k])@,
                ));
        if cost - 1 < p.limits@.len() {
            assert(all_true(b, p.limits@[cost - 1]@));
        }
        assert(all_true(b, limit_lits(p, cost - 1)));
    }
}

/// With a complete solver, the partition that the search hands back has the fewest loads
/// and stores of all partitions within capacity; and where it hands back none, every one
/// of them costs at least as much as the bound that the search started from, if there is
/// one at all.
pub proof fn law_complete_search_is_optimal<
    F: Fn(&PartitionProblem, &Vec<PropLit>) -> SolveReply,
>(
    solve: F,
    p: PartitionProblem,
    circ: Circuit,
    cap: int,
    slots: int,
    pre_loaded: Map<Qubit, bool>,
    initial_best_cost: Option<usize>,
    r: Option<(Vec<Circuit>, KeyedMap<Qubit, bool>)>,
)
    requires
        complete(solve),
        encodes(p, circ, cap, slots, pre_loaded),
        optimized(circ, slots, initial_best_cost, solve, p, r),
    ensures
        match r {
            Some((subs, mem)) => exists|
                a: spec_fn(int) -> bool,
                slot_of: Seq<usize>,
                resident: Seq<bool>,
            |
                #[trigger] cheapest(a, p.layout, circ, cap, pre_loaded) && #[trigger] reads_model(
                    a,
                    p.layout,
                    slot_of,
                    resident,
                ) && gathers_all(circ, occupied_slots(slot_of, slots), subs@) && final_mem_of(
                    circ.qubits@,
                    resident,
                    mem@,
                ),
            None => forall|a: spec_fn(int) -> bool| #[trigger]
                feasible(a, p.layout, circ, cap, pre_loaded) ==> first_bound(
                    p.objective@.len() as int,
                    initial_best_cost,
                ) <= true_count(a, objective_lits(p.layout)),
        },
{
    let first = first_bound(p.objective@.len() as int, initial_best_cost);
    match r {
        None => {
            assert forall|a: spec_fn(int) -> bool| #[trigger]
                feasible(a, p.layout, circ, cap, pre_loaded) implies first <= true_count(
                a,
                objective_lits(p.layout),
            ) by {
                law_complete_search_misses_nothing(
                    solve,
                    p,
                    circ,
                    cap,
                    slots,
                    pre_loaded,
                    first,
                    a,
                );
            }
        },
        Some((subs, mem)) => {
            let (slot_of, resident) = choose|slot_of: Seq<usize>, resident: Seq<bool>|
                #[trigger] best_model(solve, p, first, slot_of, resident) && gathers_all(
                    circ,
                    occupied_slots(slot_of, slots),
                    subs@,
                ) && final_mem_of(circ.qubits@, resident, mem@);
            let a = choose|a: spec_fn(int) -> bool|
                #[trigger] cnf_true(a, clause_views(p.clauses@)) && reads_model(
                    a,
                    p.layout,
                    slot_of,
                    resident,
                ) && true_count(a, objective_lits(p.layout)) < first && not_improved(
                    solve,
                    p,
                    true_count(a, objective_lits(p.layout)) as int,
                );
            assert(feasible(a, p.layout, circ, cap, pre_loaded));
            assert forall|b: spec_fn(int) -> bool| #[trigger]
                feasible(b, p.layout, circ, cap, pre_loaded) implies true_count(
                a,
                objective_lits(p.layout),
            ) <= true_count(b, objective_lits(p.layout)) by {
                law_complete_search_misses_nothing(
                    solve,
                    p,
                    circ,
                    cap,
                    slots,
                    pre_loaded,
                    true_count(a, objective_lits(p.layout)) as int,
                    b,
                );
            }
            assert(cheapest(a, p.layout, circ, cap, pre_loaded));
            assert(reads_model(a, p.layout, slot_of, resident));
        },
    }
}

/// `a` is a partition within capacity with the fewest loads and stores.
pub open spec fn cheapest(
    a: spec_fn(int) -> bool,
    l: Layout,
    circ: Circuit,
    cap: int,
    pre_loaded: Map<Qubit, bool>,
) -> bool {
    &&& feasible(a, l, circ, cap, pre_loaded)
    &&& forall|b: spec_fn(int) -> bool| #[trigger]
        feasible(b, l, circ, cap, pre_loaded) ==> true_count(a, objective_lits(l)) <= true_count(
            b,
            objective_lits(l),
        )
}

} // verus!
