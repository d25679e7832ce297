//! A stabilizer frame whose signs are sets of measurement records.
//!
//! The frame is a tableau of destabilizer rows and stabilizer rows. The sign of a row is
//! kept as the set of records whose parity gives it; constant phases are dropped, since
//! they do not bear on whether an outcome is determined.

use vstd::prelude::*;

use crate::keyed::{sorted_contains, sorted_insert, sorted_remove};
#[allow(unused_imports)]
use crate::keyed::increasing;
use crate::pbc::Pauli;

verus! {

// ---------------------------------------------------------------------------
// Sets of records
// ---------------------------------------------------------------------------
/// The records that an increasing list holds.
pub open spec fn record_set(v: Seq<usize>) -> Set<usize> {
    Set::new(|q: usize| v.contains(q))
}

/// The records in exactly one of two sets.
pub open spec fn toggled(a: Set<usize>, b: Set<usize>) -> Set<usize> {
    Set::new(|q: usize| a.contains(q) != b.contains(q))
}

/// `v` lists the set in increasing order.
pub open spec fn lists(v: Seq<usize>, s: Set<usize>) -> bool {
    increasing(v) && record_set(v) == s
}

/// The set in increasing order.
pub open spec fn listed(s: Set<usize>) -> Seq<usize> {
    choose|v: Seq<usize>| lists(v, s)
}

/// What lists a set is the set in increasing order.
pub proof fn lemma_listed(v: Seq<usize>, s: Set<usize>)
    requires
        lists(v, s),
    ensures
        listed(s) == v,
{
    let w = listed(s);
    assert(lists(w, s));
    assert forall|q: usize| #[trigger] v.contains(q) <==> w.contains(q) by {
        assert(record_set(v).contains(q) <==> record_set(w).contains(q));
    }
    crate::lowering::lemma_in_order_unique(v, w);
}

/// The records in exactly one of two lists.
fn toggle(a: &Vec<usize>, b: &Vec<usize>) -> (r: Vec<usize>)
    requires
        increasing(a@),
        increasing(b@),
    ensures
        lists(r@, toggled(record_set(a@), record_set(b@))),
{
    let mut r: Vec<usize> = a.clone();
    assert(r@ =~= a@);
    assert(b@.take(0) =~= Seq::empty());
    for i in 0..b.len()
        invariant
            increasing(b@),
            increasing(r@),
            forall|q: usize| #[trigger]
                r@.contains(q) <==> (a@.contains(q) != b@.take(i as int).contains(q)),
    {
        let ghost before = r@;
        let k: usize = b[i];
        proof {
            assert forall|q: usize| #[trigger] b@.take(i + 1).contains(q) <==> b@.take(
                i as int,
            ).contains(q) || q == k by {
                crate::circuit::lemma_take_contains(b@, i as int);
            }
            if b@.take(i as int).contains(k) {
                let j = b@.take(i as int).index_of(k);
                assert(b@[j] == k);
                assert(crate::keyed::key_lt(crate::keyed::OrderedKey::key(b@[j]), crate::keyed::OrderedKey::key(b@[i as int])));
            }
        }
        if sorted_contains(&r, &k) {
            let removed = sorted_remove(&mut r, &k);
        } else {
            let added = sorted_insert(&mut r, k);
        }
        assert forall|q: usize| #[trigger] r@.contains(q) <==> (a@.contains(q) != b@.take(
            i + 1,
        ).contains(q)) by {
            assert(before.contains(q) <==> (a@.contains(q) != b@.take(i as int).contains(q)));
        }
    }
    assert(b@.take(b@.len() as int) =~= b@);
    assert(record_set(r@) =~= toggled(record_set(a@), record_set(b@)));
    r
}

// ---------------------------------------------------------------------------
// The frame
// ---------------------------------------------------------------------------
/// A Pauli operator by the qubits on which it has an X part and a Z part.
#[verifier::ext_equal]
pub struct Bits {
    pub x: Seq<bool>,
    pub z: Seq<bool>,
}

/// A row: its operator, and the records that give its sign.
#[verifier::ext_equal]
pub struct RowModel {
    pub op: Bits,
    pub sign: Set<usize>,
}

/// A frame on `n` qubits: the destabilizer rows, the stabilizer rows, and the value of
/// each record.
#[verifier::ext_equal]
pub struct FrameSimModel {
    pub n: nat,
    pub rows: Seq<RowModel>,
    pub rec: Seq<Set<usize>>,
}

/// Whether an odd number of the first `k` qubits has anticommuting Paulis.
pub open spec fn clash_parity(a: Bits, b: Bits, k: int) -> bool
    decreases k,
{
    if k <= 0 {
        false
    } else {
        clash_parity(a, b, k - 1) != ((a.x[k - 1] && b.z[k - 1]) != (a.z[k - 1] && b.x[k - 1]))
    }
}

/// Two operators anticommute.
pub open spec fn clash(a: Bits, b: Bits) -> bool {
    clash_parity(a, b, a.x.len() as int)
}

/// The product of two operators, up to phase.
pub open spec fn bits_product(a: Bits, b: Bits) -> Bits {
    Bits {
        x: Seq::new(a.x.len(), |i: int| a.x[i] != b.x[i]),
        z: Seq::new(a.z.len(), |i: int| a.z[i] != b.z[i]),
    }
}

/// The product of two rows.
pub open spec fn row_product(a: RowModel, b: RowModel) -> RowModel {
    RowModel { op: bits_product(a.op, b.op), sign: toggled(a.sign, b.sign) }
}

/// The Pauli on one of `n` qubits.
pub open spec fn unit_bits(n: nat, q: int, x: bool, z: bool) -> Bits {
    Bits { x: Seq::new(n, |i: int| x && i == q), z: Seq::new(n, |i: int| z && i == q) }
}

/// A frame has two rows for each qubit, each on all qubits.
pub open spec fn shaped(t: FrameSimModel) -> bool {
    &&& t.rows.len() == 2 * t.n
    &&& forall|r: int| 0 <= r < t.rows.len() ==> #[trigger] bits_fit(t.rows[r].op, t.n)
}

pub open spec fn bits_fit(b: Bits, n: nat) -> bool {
    b.x.len() == n && b.z.len() == n
}

/// The frame of `n` qubits in the all-zero state.
pub open spec fn fresh(n: nat) -> FrameSimModel {
    FrameSimModel {
        n,
        rows: Seq::new(
            2 * n,
            |r: int|
                RowModel {
                    op: unit_bits(
                        n,
                        if r < n {
                            r
                        } else {
                            r - n
                        },
                        r < n,
                        r >= n,
                    ),
                    sign: Set::empty(),
                },
        ),
        rec: Seq::empty(),
    }
}

/// The first row from `r` on whose operator anticommutes with `p`.
pub open spec fn first_clash(rows: Seq<RowModel>, p: Bits, r: int) -> Option<int>
    decreases rows.len() - r,
{
    if r < 0 || r >= rows.len() {
        None
    } else if clash(rows[r].op, p) {
        Some(r)
    } else {
        first_clash(rows, p, r + 1)
    }
}

/// The sign of `p` where it is determined: that of the product of the stabilizers whose
/// destabilizer, among the first `k`, anticommutes with it.
pub open spec fn determined(t: FrameSimModel, p: Bits, k: int) -> Set<usize>
    decreases k,
{
    if k <= 0 {
        Set::empty()
    } else {
        let before = determined(t, p, k - 1);
        if clash(t.rows[k - 1].op, p) {
            toggled(before, t.rows[t.n + k - 1].sign)
        } else {
            before
        }
    }
}

/// The rows once the stabilizer at `pivot` is replaced by `p` with that sign.
pub open spec fn projected(t: FrameSimModel, p: Bits, pivot: int, sign: Set<usize>) -> Seq<RowModel> {
    Seq::new(
        t.rows.len(),
        |r: int|
            if r == pivot {
                RowModel { op: p, sign }
            } else if r == pivot - t.n {
                t.rows[pivot]
            } else if clash(t.rows[r].op, p) {
                row_product(t.rows[r], t.rows[pivot])
            } else {
                t.rows[r]
            },
    )
}

/// The frame after measuring `p`: the outcome is a fresh record if some stabilizer
/// anticommutes with `p`, and is determined otherwise.
pub open spec fn measured(t: FrameSimModel, p: Bits) -> FrameSimModel {
    match first_clash(t.rows, p, t.n as int) {
        Some(pivot) => {
            let own = Set::empty().insert(t.rec.len() as usize);
            FrameSimModel { rows: projected(t, p, pivot, own), rec: t.rec.push(own), ..t }
        },
        None => FrameSimModel { rec: t.rec.push(determined(t, p, t.n as int)), ..t },
    }
}

/// The rows that anticommute with `f` pick up a sign.
pub open spec fn flipped(t: FrameSimModel, f: Bits, sign: Set<usize>) -> Seq<RowModel> {
    Seq::new(
        t.rows.len(),
        |r: int|
            if clash(t.rows[r].op, f) {
                RowModel { op: t.rows[r].op, sign: toggled(t.rows[r].sign, sign) }
            } else {
                t.rows[r]
            },
    )
}

/// The Pauli that a reset makes a stabilizer: X for the basis X, and Z otherwise.
pub open spec fn reset_bits(n: nat, basis: Pauli, q: int) -> Bits {
    unit_bits(n, q, basis is X, !(basis is X))
}

/// The Pauli that undoes a wrong outcome of a reset.
pub open spec fn flip_bits(n: nat, basis: Pauli, q: int) -> Bits {
    unit_bits(n, q, !(basis is X), basis is X)
}

/// The frame after a reset of qubit `q`.
pub open spec fn reset_to(t: FrameSimModel, basis: Pauli, q: int) -> FrameSimModel {
    let p = reset_bits(t.n, basis, q);
    match first_clash(t.rows, p, t.n as int) {
        Some(pivot) => FrameSimModel { rows: projected(t, p, pivot, Set::empty()), ..t },
        None => FrameSimModel {
            rows: flipped(t, flip_bits(t.n, basis, q), determined(t, p, t.n as int)),
            ..t
        },
    }
}

/// The frame after an X on qubit `q` controlled on a record.
pub open spec fn corrected(t: FrameSimModel, rid: int, q: int) -> FrameSimModel {
    FrameSimModel { rows: flipped(t, unit_bits(t.n, q, true, false), t.rec[rid]), ..t }
}

/// The records whose parity is the sign of `p`; `None` if it is not determined.
pub open spec fn solution(t: FrameSimModel, p: Bits) -> Option<Set<usize>> {
    if first_clash(t.rows, p, t.n as int) is Some {
        None
    } else {
        Some(determined(t, p, t.n as int))
    }
}

// ---------------------------------------------------------------------------
// Execution
// ---------------------------------------------------------------------------
/// A Pauli operator by the qubits on which it has an X part and a Z part.
pub struct PauliBits {
    pub x: Vec<bool>,
    pub z: Vec<bool>,
}

impl View for PauliBits {
    type V = Bits;

    open spec fn view(&self) -> Bits {
        Bits { x: self.x@, z: self.z@ }
    }
}

/// A row of the frame.
struct Row {
    op: PauliBits,
    sign: Vec<usize>,
}

spec fn row_model(r: Row) -> RowModel {
    RowModel { op: r.op@, sign: record_set(r.sign@) }
}

spec fn row_models(rows: Seq<Row>) -> Seq<RowModel> {
    Seq::new(rows.len(), |i: int| row_model(rows[i]))
}

spec fn record_sets(rec: Seq<Vec<usize>>) -> Seq<Set<usize>> {
    Seq::new(rec.len(), |i: int| record_set(rec[i]@))
}

spec fn signs_sorted(rows: Seq<Row>) -> bool {
    forall|i: int| 0 <= i < rows.len() ==> increasing((#[trigger] rows[i]).sign@)
}

spec fn records_sorted(rec: Seq<Vec<usize>>) -> bool {
    forall|i: int| 0 <= i < rec.len() ==> increasing((#[trigger] rec[i])@)
}

/// A frame that follows a circuit.
pub struct FrameSim {
    n: usize,
    rows: Vec<Row>,
    rec: Vec<Vec<usize>>,
}

impl View for FrameSim {
    type V = FrameSimModel;

    closed spec fn view(&self) -> FrameSimModel {
        FrameSimModel {
            n: self.n as nat,
            rows: row_models(self.rows@),
            rec: record_sets(self.rec@),
        }
    }
}

fn zeros(n: usize) -> (r: Vec<bool>)
    ensures
        r@ == Seq::new(n as nat, |i: int| false),
{
    let mut r: Vec<bool> = Vec::new();
    for i in 0..n
        invariant
            r@ == Seq::new(i as nat, |i: int| false),
    {
        r.push(false);
        assert(r@ =~= Seq::new((i + 1) as nat, |i: int| false));
    }
    r
}

/// The Pauli on one of `n` qubits.
fn unit(n: usize, q: usize, x: bool, z: bool) -> (r: PauliBits)
    requires
        q < n,
    ensures
        r@ == unit_bits(n as nat, q as int, x, z),
{
    let mut xs = zeros(n);
    let mut zs = zeros(n);
    xs.set(q, x);
    zs.set(q, z);
    let r = PauliBits { x: xs, z: zs };
    assert(r@ =~= unit_bits(n as nat, q as int, x, z));
    r
}

fn copy_bits(b: &PauliBits) -> (r: PauliBits)
    ensures
        r@ == b@,
{
    let x = b.x.clone();
    let z = b.z.clone();
    assert(x@ =~= b.x@);
    assert(z@ =~= b.z@);
    PauliBits { x, z }
}

/// Whether two operators anticommute.
fn anticommutes(a: &PauliBits, b: &PauliBits) -> (r: bool)
    requires
        a@.x.len() == a@.z.len() == b@.x.len() == b@.z.len(),
    ensures
        r == clash(a@, b@),
{
    let n: usize = a.x.len();
    let mut odd = false;
    for k in 0..n
        invariant
            n == a@.x.len() == a@.z.len() == b@.x.len() == b@.z.len(),
            odd == clash_parity(a@, b@, k as int),
    {
        let here = (a.x[k] && b.z[k]) != (a.z[k] && b.x[k]);
        odd = odd != here;
    }
    odd
}

/// The product of two rows.
fn row_mul(a: &Row, b: &Row) -> (r: Row)
    requires
        a.op@.x.len() == a.op@.z.len() == b.op@.x.len() == b.op@.z.len(),
        increasing(a.sign@),
        increasing(b.sign@),
    ensures
        row_model(r) == row_product(row_model(*a), row_model(*b)),
        increasing(r.sign@),
{
    let n: usize = a.op.x.len();
    let mut x: Vec<bool> = Vec::new();
    let mut z: Vec<bool> = Vec::new();
    let ghost goal = bits_product(a.op@, b.op@);
    for k in 0..n
        invariant
            n == a.op@.x.len() == a.op@.z.len() == b.op@.x.len() == b.op@.z.len(),
            goal == bits_product(a.op@, b.op@),
            x@ == goal.x.take(k as int),
            z@ == goal.z.take(k as int),
    {
        x.push(a.op.x[k] != b.op.x[k]);
        z.push(a.op.z[k] != b.op.z[k]);
        assert(x@ =~= goal.x.take(k + 1));
        assert(z@ =~= goal.z.take(k + 1));
    }
    let sign = toggle(&a.sign, &b.sign);
    let r = Row { op: PauliBits { x, z }, sign };
    assert(r.op@ =~= goal);
    r
}

fn copy_row(a: &Row) -> (r: Row)
    ensures
        row_model(r) == row_model(*a),
        r.sign@ == a.sign@,
{
    let op = copy_bits(&a.op);
    let sign = a.sign.clone();
    assert(sign@ =~= a.sign@);
    Row { op, sign }
}

impl FrameSim {
    /// The rows fit the qubits, and every set is listed in order.
    pub closed spec fn wf(self) -> bool {
        &&& shaped(self@)
        &&& signs_sorted(self.rows@)
        &&& records_sorted(self.rec@)
    }

    /// The frame of `n` qubits in the all-zero state.
    pub fn new(n: usize) -> (r: Self)
        requires
            2 * n <= usize::MAX,
        ensures
            r.wf(),
            r@ == fresh(n as nat),
    {
        let mut rows: Vec<Row> = Vec::new();
        let ghost goal = fresh(n as nat).rows;
        assert(row_models(rows@) =~= goal.take(0));
        for r in 0..2 * n
            invariant
                2 * n <= usize::MAX,
                goal == fresh(n as nat).rows,
                row_models(rows@) == goal.take(r as int),
                signs_sorted(rows@),
        {
            let op = if r < n {
                unit(n, r, true, false)
            } else {
                unit(n, r - n, false, true)
            };
            let row = Row { op, sign: Vec::new() };
            proof {
                assert(record_set(row.sign@) =~= Set::empty());
                assert(row_model(row) == goal[r as int]);
                assert(row_models(rows@.push(row)) =~= row_models(rows@).push(row_model(row)));
                assert(goal.take(r + 1) =~= goal.take(r as int).push(goal[r as int]));
            }
            rows.push(row);
        }
        assert(goal.take(goal.len() as int) =~= goal);
        let r = FrameSim { n, rows, rec: Vec::new() };
        assert(record_sets(r.rec@) =~= Seq::<Set<usize>>::empty());
        r
    }

    /// The first stabilizer that anticommutes with `p`.
    fn find_clash(&self, p: &PauliBits) -> (r: Option<usize>)
        requires
            self.wf(),
            bits_fit(p@, self@.n),
        ensures
            match first_clash(self@.rows, p@, self@.n as int) {
                Some(k) => r matches Some(i) && i == k && self@.n <= k < self@.rows.len(),
                None => r is None,
            },
    {
        let mut r: usize = self.n;
        while r < self.rows.len()
            invariant
                self.wf(),
                bits_fit(p@, self@.n),
                self.n <= r <= self.rows@.len(),
                first_clash(self@.rows, p@, self@.n as int) == first_clash(
                    self@.rows,
                    p@,
                    r as int,
                ),
            decreases self.rows@.len() - r,
        {
            assert(bits_fit(self@.rows[r as int].op, self@.n));
            if anticommutes(&self.rows[r].op, p) {
                return Some(r);
            }
            r = r + 1;
        }
        None
    }

    /// The sign of `p` by the destabilizers that anticommute with it.
    fn determined_sign(&self, p: &PauliBits) -> (r: Vec<usize>)
        requires
            self.wf(),
            bits_fit(p@, self@.n),
        ensures
            lists(r@, determined(self@, p@, self@.n as int)),
    {
        let mut s: Vec<usize> = Vec::new();
        let m: usize = self.rows.len();
        assert(record_set(s@) =~= Set::empty());
        for d in 0..self.n
            invariant
                self.wf(),
                m == self.rows@.len(),
                bits_fit(p@, self@.n),
                lists(s@, determined(self@, p@, d as int)),
        {
            assert(bits_fit(self@.rows[d as int].op, self@.n));
            assert(self.rows@.len() == 2 * self.n);
            if anticommutes(&self.rows[d].op, p) {
                assert(increasing(self.rows@[self.n + d].sign@));
                s = toggle(&s, &self.rows[self.n + d].sign);
            }
        }
        s
    }

    /// Replace the stabilizer at `pivot` by `p`.
    fn project(&mut self, p: PauliBits, pivot: usize, sign: Vec<usize>)
        requires
            old(self).wf(),
            bits_fit(p@, old(self)@.n),
            old(self)@.n <= pivot < 2 * old(self)@.n,
            increasing(sign@),
        ensures
            final(self).wf(),
            final(self)@ == (FrameSimModel {
                rows: projected(old(self)@, p@, pivot as int, record_set(sign@)),
                ..old(self)@
            }),
    {
        let ghost t = self@;
        let ghost goal = projected(t, p@, pivot as int, record_set(sign@));
        let mut rows: Vec<Row> = Vec::new();
        let n: usize = self.n;
        let m: usize = self.rows.len();
        let dest: usize = pivot - n;
        assert(row_models(rows@) =~= goal.take(0));
        for r in 0..m
            invariant
                self.wf(),
                t == self@,
                n == self.n,
                m == self.rows@.len(),
                m == 2 * n,
                n <= pivot < m,
                dest == pivot - n,
                bits_fit(p@, t.n),
                increasing(sign@),
                goal == projected(t, p@, pivot as int, record_set(sign@)),
                row_models(rows@) == goal.take(r as int),
                signs_sorted(rows@),
        {
            proof {
                assert(bits_fit(t.rows[r as int].op, t.n));
                assert(bits_fit(t.rows[pivot as int].op, t.n));
                assert(increasing(self.rows@[r as int].sign@));
                assert(increasing(self.rows@[pivot as int].sign@));
            }
            let row = if r == pivot {
                let copy = sign.clone();
                assert(copy@ =~= sign@);
                Row { op: copy_bits(&p), sign: copy }
            } else if r == dest {
                copy_row(&self.rows[pivot])
            } else if anticommutes(&self.rows[r].op, &p) {
                row_mul(&self.rows[r], &self.rows[pivot])
            } else {
                copy_row(&self.rows[r])
            };
            proof {
                assert(row_model(row) == goal[r as int]);
                assert(row_models(rows@.push(row)) =~= row_models(rows@).push(row_model(row)));
                assert(goal.take(r + 1) =~= goal.take(r as int).push(goal[r as int]));
            }
            rows.push(row);
        }
        assert(goal.take(goal.len() as int) =~= goal);
        proof {
            assert forall|r: int| 0 <= r < goal.len() implies #[trigger] bits_fit(
                goal[r].op,
                t.n,
            ) by {
                assert(bits_fit(t.rows[r].op, t.n));
                assert(bits_fit(t.rows[pivot as int].op, t.n));
            }
        }
        self.rows = rows;
    }

    /// Let the rows that anticommute with `f` pick up a sign.
    fn flip(&mut self, f: &PauliBits, sign: &Vec<usize>)
        requires
            old(self).wf(),
            bits_fit(f@, old(self)@.n),
            increasing(sign@),
        ensures
            final(self).wf(),
            final(self)@ == (FrameSimModel {
                rows: flipped(old(self)@, f@, record_set(sign@)),
                ..old(self)@
            }),
    {
        let ghost t = self@;
        let ghost goal = flipped(t, f@, record_set(sign@));
        let mut rows: Vec<Row> = Vec::new();
        let m: usize = self.rows.len();
        assert(row_models(rows@) =~= goal.take(0));
        for r in 0..m
            invariant
                self.wf(),
                t == self@,
                m == self.rows@.len(),
                bits_fit(f@, t.n),
                increasing(sign@),
                goal == flipped(t, f@, record_set(sign@)),
                row_models(rows@) == goal.take(r as int),
                signs_sorted(rows@),
        {
            proof {
                assert(bits_fit(t.rows[r as int].op, t.n));
                assert(increasing(self.rows@[r as int].sign@));
            }
            let row = if anticommutes(&self.rows[r].op, f) {
                Row { op: copy_bits(&self.rows[r].op), sign: toggle(&self.rows[r].sign, sign) }
            } else {
                copy_row(&self.rows[r])
            };
            proof {
                assert(row_model(row) == goal[r as int]);
                assert(row_models(rows@.push(row)) =~= row_models(rows@).push(row_model(row)));
                assert(goal.take(r + 1) =~= goal.take(r as int).push(goal[r as int]));
            }
            rows.push(row);
        }
        assert(goal.take(goal.len() as int) =~= goal);
        proof {
            assert forall|r: int| 0 <= r < goal.len() implies #[trigger] bits_fit(
                goal[r].op,
                t.n,
            ) by {
                assert(bits_fit(t.rows[r].op, t.n));
            }
        }
        self.rows = rows;
    }

    /// Measure `p`; the outcome is the next record.
    pub fn measure(&mut self, p: PauliBits)
        requires
            old(self).wf(),
            bits_fit(p@, old(self)@.n),
        ensures
            final(self).wf(),
            final(self)@ == measured(old(self)@, p@),
    {
        let ghost t = self@;
        let ghost p0 = p@;
        let rid: usize = self.rec.len();
        match self.find_clash(&p) {
            Some(pivot) => {
                let mut own: Vec<usize> = Vec::new();
                own.push(rid);
                let mut record: Vec<usize> = Vec::new();
                record.push(rid);
                proof {
                    assert(own@ =~= seq![rid]);
                    assert(record_set(own@) =~= Set::empty().insert(rid)) by {
                        assert(own@[0] == rid);
                    }
                    assert(record@ =~= own@);
                }
                self.project(p, pivot, own);
                let ghost before = self.rec@;
                self.rec.push(record);
                proof {
                    assert(record_sets(self.rec@) =~= record_sets(before).push(
                        record_set(record@),
                    ));
                    assert(self@ =~= measured(t, p0));
                }
            },
            None => {
                let s = self.determined_sign(&p);
                let ghost before = self.rec@;
                self.rec.push(s);
                proof {
                    assert(record_sets(self.rec@) =~= record_sets(before).push(record_set(s@)));
                    assert(self@ =~= measured(t, p0));
                }
            },
        }
    }

    /// Reset qubit `q` into the `+1` state of the basis. Makes no record.
    pub fn reset(&mut self, basis: Pauli, q: usize)
        requires
            old(self).wf(),
            q < old(self)@.n,
        ensures
            final(self).wf(),
            final(self)@ == reset_to(old(self)@, basis, q as int),
    {
        let n: usize = self.n;
        let in_x = basis == Pauli::X;
        let p = unit(n, q, in_x, !in_x);
        match self.find_clash(&p) {
            Some(pivot) => {
                let none: Vec<usize> = Vec::new();
                assert(record_set(none@) =~= Set::empty());
                self.project(p, pivot, none);
            },
            None => {
                let s = self.determined_sign(&p);
                let f = unit(n, q, !in_x, in_x);
                self.flip(&f, &s);
            },
        }
    }

    /// Apply X on qubit `q` where record `rid` is one.
    pub fn x_correction(&mut self, rid: usize, q: usize)
        requires
            old(self).wf(),
            q < old(self)@.n,
            rid < old(self)@.rec.len(),
        ensures
            final(self).wf(),
            final(self)@ == corrected(old(self)@, rid as int, q as int),
    {
        let ctrl = self.rec[rid].clone();
        assert(ctrl@ =~= self.rec@[rid as int]@);
        let f = unit(self.n, q, true, false);
        self.flip(&f, &ctrl);
    }

    /// The records whose parity is the sign of `p`; `None` if it is not determined.
    pub fn solve(&self, p: &PauliBits) -> (r: Option<Vec<usize>>)
        requires
            self.wf(),
            bits_fit(p@, self@.n),
        ensures
            match solution(self@, p@) {
                Some(s) => r matches Some(v) && lists(v@, s),
                None => r is None,
            },
    {
        match self.find_clash(p) {
            Some(_) => None,
            None => Some(self.determined_sign(p)),
        }
    }

    /// How many records there are.
    pub fn records(&self) -> (r: usize)
        ensures
            r == self@.rec.len(),
    {
        self.rec.len()
    }

    /// The value of a record.
    pub fn record(&self, rid: usize) -> (r: &Vec<usize>)
        requires
            self.wf(),
            rid < self@.rec.len(),
        ensures
            lists(r@, self@.rec[rid as int]),
    {
        assert(increasing(self.rec@[rid as int]@));
        &self.rec[rid]
    }
}

// ---------------------------------------------------------------------------
// Laws
// ---------------------------------------------------------------------------
pub(crate) proof fn lemma_clash_symmetric(a: Bits, b: Bits, k: int)
    ensures
        clash_parity(a, b, k) == clash_parity(b, a, k),
    decreases k,
{
    if k > 0 {
        lemma_clash_symmetric(a, b, k - 1);
    }
}

proof fn lemma_clash_self(a: Bits, k: int)
    ensures
        !clash_parity(a, a, k),
    decreases k,
{
    if k > 0 {
        lemma_clash_self(a, k - 1);
    }
}

proof fn lemma_clash_product(a: Bits, b: Bits, c: Bits, k: int)
    requires
        k <= a.x.len(),
        a.x.len() == a.z.len(),
    ensures
        clash_parity(bits_product(a, b), c, k) == (clash_parity(a, c, k) != clash_parity(b, c, k)),
    decreases k,
{
    if k > 0 {
        lemma_clash_product(a, b, c, k - 1);
    }
}

/// Row `s` is the partner of row `r`.
pub open spec fn partners(n: nat, r: int, s: int) -> bool {
    r == s + n || s == r + n
}

/// The rows are a frame: each row anticommutes with its partner and with no other.
pub open spec fn is_frame(t: FrameSimModel) -> bool {
    &&& shaped(t)
    &&& forall|r: int, s: int|
        0 <= r < t.rows.len() && 0 <= s < t.rows.len() ==> #[trigger] clash(
            t.rows[r].op,
            t.rows[s].op,
        ) == partners(t.n, r, s)
}

proof fn lemma_unit_clash(n: nat, p: int, px: bool, pz: bool, q: int, qx: bool, qz: bool, k: int)
    requires
        0 <= k <= n,
        0 <= p < n,
        0 <= q < n,
    ensures
        clash_parity(unit_bits(n, p, px, pz), unit_bits(n, q, qx, qz), k) == (p == q && p < k && ((px
            && qz) != (pz && qx))),
    decreases k,
{
    if k > 0 {
        lemma_unit_clash(n, p, px, pz, q, qx, qz, k - 1);
    }
}

/// The frame of the all-zero state is a frame.
pub proof fn law_fresh_is_frame(n: nat)
    ensures
        is_frame(fresh(n)),
{
    let t = fresh(n);
    assert forall|r: int| 0 <= r < t.rows.len() implies #[trigger] bits_fit(t.rows[r].op, n) by {}
    assert forall|r: int, s: int|
        0 <= r < t.rows.len() && 0 <= s < t.rows.len() implies #[trigger] clash(
        t.rows[r].op,
        t.rows[s].op,
    ) == partners(n, r, s) by {
        let p = if r < n {
            r
        } else {
            r - n
        };
        let q = if s < n {
            s
        } else {
            s - n
        };
        lemma_unit_clash(n, p, r < n, r >= n, q, s < n, s >= n, n as int);
    }
}

/// A frame seen through one pair of rows.
proof fn lemma_frame_pair(t: FrameSimModel, r: int, s: int)
    requires
        is_frame(t),
        0 <= r < t.rows.len(),
        0 <= s < t.rows.len(),
    ensures
        clash(t.rows[r].op, t.rows[s].op) == partners(t.n, r, s),
        bits_fit(t.rows[r].op, t.n),
        bits_fit(t.rows[s].op, t.n),
{
}

pub(crate) proof fn lemma_first_clash(rows: Seq<RowModel>, p: Bits, r: int)
    requires
        0 <= r,
    ensures
        first_clash(rows, p, r) matches Some(k) ==> r <= k < rows.len() && clash(rows[k].op, p),
        first_clash(rows, p, r) is None ==> forall|k: int|
            r <= k < rows.len() ==> !clash((#[trigger] rows[k]).op, p),
    decreases rows.len() - r,
{
    if r < rows.len() && !clash(rows[r].op, p) {
        lemma_first_clash(rows, p, r + 1);
    }
}

/// What a row becomes when the stabilizer at `pivot` is replaced by `p`.
proof fn lemma_projected_row(t: FrameSimModel, p: Bits, pivot: int, sign: Set<usize>, r: int)
    requires
        is_frame(t),
        bits_fit(p, t.n),
        t.n <= pivot < 2 * t.n,
        clash(t.rows[pivot].op, p),
        0 <= r < 2 * t.n,
    ensures
        ({
            let op = projected(t, p, pivot, sign)[r].op;
            &&& bits_fit(op, t.n)
            &&& clash(op, p) == (r == pivot - t.n)
            &&& clash(p, op) == (r == pivot - t.n)
            &&& r != pivot ==> clash(op, t.rows[pivot].op) == false
        }),
{
    let n = t.n as int;
    let op = projected(t, p, pivot, sign)[r].op;
    let old_op = t.rows[r].op;
    let piv = t.rows[pivot].op;
    lemma_frame_pair(t, r, pivot);
    lemma_clash_self(p, n);
    lemma_clash_self(piv, n);
    if r != pivot && r != pivot - n && clash(old_op, p) {
        lemma_clash_product(old_op, piv, p, n);
        lemma_clash_product(old_op, piv, piv, n);
    }
    lemma_clash_symmetric(op, p, n);
}

proof fn lemma_projected_pair(
    t: FrameSimModel,
    p: Bits,
    pivot: int,
    sign: Set<usize>,
    r: int,
    s: int,
)
    requires
        is_frame(t),
        bits_fit(p, t.n),
        t.n <= pivot < 2 * t.n,
        clash(t.rows[pivot].op, p),
        0 <= r < 2 * t.n,
        0 <= s < 2 * t.n,
    ensures
        clash(projected(t, p, pivot, sign)[r].op, projected(t, p, pivot, sign)[s].op) == partners(
            t.n,
            r,
            s,
        ),
{
    let n = t.n as int;
    let rows = projected(t, p, pivot, sign);
    let dest = pivot - n;
    let piv = t.rows[pivot].op;
    lemma_projected_row(t, p, pivot, sign, r);
    lemma_projected_row(t, p, pivot, sign, s);
    lemma_clash_self(p, n);
    lemma_frame_pair(t, r, s);
    lemma_frame_pair(t, r, pivot);
    lemma_frame_pair(t, s, pivot);
    lemma_frame_pair(t, pivot, s);
    lemma_clash_self(piv, n);
    if r != pivot && s != pivot {
        if r == dest {
            lemma_clash_symmetric(rows[s].op, piv, n);
        } else if s != dest {
            let a = t.rows[r].op;
            let b = t.rows[s].op;
            let c = rows[s].op;
            if clash(b, p) {
                lemma_clash_product(b, piv, a, n);
                lemma_clash_symmetric(c, a, n);
                lemma_clash_symmetric(b, a, n);
                lemma_clash_symmetric(piv, a, n);
            }
            assert(clash(a, c) == partners(t.n, r, s));
            if clash(a, p) {
                lemma_clash_product(a, piv, c, n);
                lemma_clash_symmetric(piv, c, n);
            }
        }
    }
}

proof fn lemma_projected_frame(t: FrameSimModel, p: Bits, pivot: int, sign: Set<usize>, rec: Seq<
    Set<usize>,
>)
    requires
        is_frame(t),
        bits_fit(p, t.n),
        t.n <= pivot < 2 * t.n,
        clash(t.rows[pivot].op, p),
    ensures
        is_frame(FrameSimModel { rows: projected(t, p, pivot, sign), rec, ..t }),
{
    let u = FrameSimModel { rows: projected(t, p, pivot, sign), rec, ..t };
    assert forall|r: int| 0 <= r < u.rows.len() implies #[trigger] bits_fit(
        u.rows[r].op,
        u.n,
    ) by {
        lemma_projected_row(t, p, pivot, sign, r);
    }
    assert forall|r: int, s: int|
        0 <= r < u.rows.len() && 0 <= s < u.rows.len() implies #[trigger] clash(
        u.rows[r].op,
        u.rows[s].op,
    ) == partners(u.n, r, s) by {
        lemma_projected_pair(t, p, pivot, sign, r, s);
    }
}

/// Measuring keeps a frame a frame.
pub proof fn law_measuring_keeps_frame(t: FrameSimModel, p: Bits)
    requires
        is_frame(t),
        bits_fit(p, t.n),
    ensures
        is_frame(measured(t, p)),
{
    lemma_first_clash(t.rows, p, t.n as int);
    if let Some(pivot) = first_clash(t.rows, p, t.n as int) {
        let own = Set::empty().insert(t.rec.len() as usize);
        lemma_projected_frame(t, p, pivot, own, t.rec.push(own));
    }
}

/// Picking up signs keeps a frame a frame.
proof fn lemma_flipped_frame(t: FrameSimModel, f: Bits, sign: Set<usize>)
    requires
        is_frame(t),
    ensures
        is_frame(FrameSimModel { rows: flipped(t, f, sign), ..t }),
{
    let u = FrameSimModel { rows: flipped(t, f, sign), ..t };
    assert forall|r: int| 0 <= r < u.rows.len() implies #[trigger] bits_fit(
        u.rows[r].op,
        u.n,
    ) by {
        assert(bits_fit(t.rows[r].op, t.n));
    }
    assert forall|r: int, s: int|
        0 <= r < u.rows.len() && 0 <= s < u.rows.len() implies #[trigger] clash(
        u.rows[r].op,
        u.rows[s].op,
    ) == partners(u.n, r, s) by {
        lemma_frame_pair(t, r, s);
    }
}

/// A reset keeps a frame a frame.
pub proof fn law_reset_keeps_frame(t: FrameSimModel, basis: Pauli, q: int)
    requires
        is_frame(t),
        0 <= q < t.n,
    ensures
        is_frame(reset_to(t, basis, q)),
{
    let p = reset_bits(t.n, basis, q);
    lemma_first_clash(t.rows, p, t.n as int);
    match first_clash(t.rows, p, t.n as int) {
        Some(pivot) => {
            lemma_projected_frame(t, p, pivot, Set::empty(), t.rec);
        },
        None => {
            lemma_flipped_frame(t, flip_bits(t.n, basis, q), determined(t, p, t.n as int));
        },
    }
}

/// A correction keeps a frame a frame.
pub proof fn law_correction_keeps_frame(t: FrameSimModel, rid: int, q: int)
    requires
        is_frame(t),
    ensures
        is_frame(corrected(t, rid, q)),
{
    lemma_flipped_frame(t, unit_bits(t.n, q, true, false), t.rec[rid]);
}

/// The sign of `p` when one destabilizer alone anticommutes with it.
proof fn lemma_determined_by_one(t: FrameSimModel, p: Bits, d: int, k: int)
    requires
        0 <= k <= t.n,
        0 <= d < t.n,
        forall|r: int| 0 <= r < t.n ==> #[trigger] clash(t.rows[r].op, p) == (r == d),
    ensures
        determined(t, p, k) == if d < k {
            t.rows[t.n + d].sign
        } else {
            Set::empty()
        },
    decreases k,
{
    if k > 0 {
        lemma_determined_by_one(t, p, d, k - 1);
        assert(clash(t.rows[k - 1].op, p) == (k - 1 == d));
        assert(toggled(Set::empty(), t.rows[t.n + d].sign) =~= t.rows[t.n + d].sign);
    }
}

proof fn lemma_determined_same(t: FrameSimModel, u: FrameSimModel, p: Bits, k: int)
    requires
        t.rows == u.rows,
        t.n == u.n,
    ensures
        determined(t, p, k) == determined(u, p, k),
    decreases k,
{
    if k > 0 {
        lemma_determined_same(t, u, p, k - 1);
    }
}

proof fn lemma_projected_determined(t: FrameSimModel, p: Bits, pivot: int, sign: Set<usize>, u:
    FrameSimModel)
    requires
        is_frame(t),
        bits_fit(p, t.n),
        t.n <= pivot < 2 * t.n,
        clash(t.rows[pivot].op, p),
        u.rows == projected(t, p, pivot, sign),
        u.n == t.n,
    ensures
        solution(u, p) == Some(sign),
{
    lemma_first_clash(u.rows, p, u.n as int);
    if let Some(k) = first_clash(u.rows, p, u.n as int) {
        lemma_projected_row(t, p, pivot, sign, k);
    }
    assert forall|r: int| 0 <= r < u.n implies #[trigger] clash(u.rows[r].op, p) == (r == pivot
        - u.n) by {
        lemma_projected_row(t, p, pivot, sign, r);
    }
    lemma_determined_by_one(u, p, pivot - u.n, u.n as int);
}

/// A Pauli that was measured is determined: its sign is that of the record.
pub proof fn law_measured_is_determined(t: FrameSimModel, p: Bits)
    requires
        is_frame(t),
        bits_fit(p, t.n),
    ensures
        solution(measured(t, p), p) == Some(measured(t, p).rec.last()),
{
    let u = measured(t, p);
    lemma_first_clash(t.rows, p, t.n as int);
    match first_clash(t.rows, p, t.n as int) {
        Some(pivot) => {
            let own = Set::empty().insert(t.rec.len() as usize);
            lemma_projected_determined(t, p, pivot, own, u);
        },
        None => {
            lemma_determined_same(t, u, p, t.n as int);
        },
    }
}

/// Measuring twice gives the same value twice.
pub proof fn law_measuring_again_agrees(t: FrameSimModel, p: Bits)
    requires
        is_frame(t),
        bits_fit(p, t.n),
    ensures
        measured(measured(t, p), p).rec.last() == measured(t, p).rec.last(),
        measured(measured(t, p), p).rows == measured(t, p).rows,
{
    law_measured_is_determined(t, p);
}

// ---------------------------------------------------------------------------
// Completeness
// ---------------------------------------------------------------------------
/// How the first `k` pairs of rows see two operators: the parity of the pairs of
/// which one row anticommutes with `a` and the other with `b`.
pub open spec fn pair_parity(t: FrameSimModel, a: Bits, b: Bits, k: int) -> bool
    decreases k,
{
    if k <= 0 {
        false
    } else {
        let d = t.rows[k - 1].op;
        let s = t.rows[t.n + k - 1].op;
        pair_parity(t, a, b, k - 1) != ((clash(d, a) && clash(s, b)) != (clash(s, a) && clash(d, b)))
    }
}

/// The rows tell all operators apart: whether two operators anticommute can be read
/// off how they do with the rows.
pub open spec fn is_complete(t: FrameSimModel) -> bool {
    forall|a: Bits, b: Bits|
        bits_fit(a, t.n) && bits_fit(b, t.n) ==> clash(a, b) == #[trigger] pair_parity(
            t,
            a,
            b,
            t.n as int,
        )
}

pub(crate) proof fn lemma_unit_sees(n: nat, q: int, x: bool, z: bool, a: Bits, k: int)
    requires
        0 <= k <= n,
        0 <= q < n,
    ensures
        clash_parity(unit_bits(n, q, x, z), a, k) == (q < k && ((x && a.z[q]) != (z && a.x[q]))),
    decreases k,
{
    if k > 0 {
        lemma_unit_sees(n, q, x, z, a, k - 1);
    }
}

proof fn lemma_fresh_pairs(n: nat, a: Bits, b: Bits, k: int)
    requires
        0 <= k <= n,
        bits_fit(a, n),
        bits_fit(b, n),
    ensures
        pair_parity(fresh(n), a, b, k) == clash_parity(a, b, k),
    decreases k,
{
    if k > 0 {
        let t = fresh(n);
        lemma_fresh_pairs(n, a, b, k - 1);
        lemma_unit_sees(n, k - 1, true, false, a, n as int);
        lemma_unit_sees(n, k - 1, true, false, b, n as int);
        lemma_unit_sees(n, k - 1, false, true, a, n as int);
        lemma_unit_sees(n, k - 1, false, true, b, n as int);
        assert(t.rows[k - 1].op == unit_bits(n, k - 1, true, false));
        assert(t.rows[n + k - 1].op == unit_bits(n, k - 1, false, true));
    }
}

/// The frame of the all-zero state is complete.
pub proof fn law_fresh_is_complete(n: nat)
    ensures
        is_complete(fresh(n)),
{
    let t = fresh(n);
    assert forall|a: Bits, b: Bits| bits_fit(a, t.n) && bits_fit(b, t.n) implies clash(a, b)
        == #[trigger] pair_parity(t, a, b, t.n as int) by {
        lemma_fresh_pairs(n, a, b, n as int);
    }
}

/// How a row sees an operator once the stabilizer at `pivot` is replaced by `p`.
proof fn lemma_projected_sees(
    t: FrameSimModel,
    p: Bits,
    pivot: int,
    sign: Set<usize>,
    r: int,
    a: Bits,
)
    requires
        shaped(t),
        bits_fit(p, t.n),
        t.n <= pivot < 2 * t.n,
        0 <= r < 2 * t.n,
    ensures
        clash(projected(t, p, pivot, sign)[r].op, a) == if r == pivot {
            clash(p, a)
        } else if r == pivot - t.n {
            clash(t.rows[pivot].op, a)
        } else {
            clash(t.rows[r].op, a) != (clash(t.rows[r].op, p) && clash(t.rows[pivot].op, a))
        },
{
    assert(bits_fit(t.rows[r].op, t.n));
    assert(bits_fit(t.rows[pivot].op, t.n));
    lemma_clash_product(t.rows[r].op, t.rows[pivot].op, a, t.n as int);
}

#[verifier::spinoff_prover]
proof fn lemma_projected_pairs(
    t: FrameSimModel,
    p: Bits,
    pivot: int,
    sign: Set<usize>,
    u: FrameSimModel,
    a: Bits,
    b: Bits,
    k: int,
)
    requires
        shaped(t),
        bits_fit(p, t.n),
        t.n <= pivot < 2 * t.n,
        clash(t.rows[pivot].op, p),
        u.rows == projected(t, p, pivot, sign),
        u.n == t.n,
        0 <= k <= t.n,
    ensures
        ({
            let av = clash(t.rows[pivot].op, a);
            let bv = clash(t.rows[pivot].op, b);
            let turned = k > pivot - t.n && ((av && clash(p, b)) != (bv && clash(p, a)));
            pair_parity(u, a, b, k) == (((pair_parity(t, a, b, k) != (bv && pair_parity(
                t,
                a,
                p,
                k,
            ))) != (av && pair_parity(t, p, b, k))) != turned)
        }),
    decreases k,
{
    if k > 0 {
        lemma_projected_pairs(t, p, pivot, sign, u, a, b, k - 1);
        let d = k - 1;
        let s = t.n + k - 1;
        lemma_projected_sees(t, p, pivot, sign, d, a);
        lemma_projected_sees(t, p, pivot, sign, d, b);
        lemma_projected_sees(t, p, pivot, sign, s, a);
        lemma_projected_sees(t, p, pivot, sign, s, b);
    }
}

proof fn lemma_projected_complete(
    t: FrameSimModel,
    p: Bits,
    pivot: int,
    sign: Set<usize>,
    u: FrameSimModel,
)
    requires
        shaped(t),
        is_complete(t),
        bits_fit(p, t.n),
        t.n <= pivot < 2 * t.n,
        clash(t.rows[pivot].op, p),
        u.rows == projected(t, p, pivot, sign),
        u.n == t.n,
    ensures
        is_complete(u),
{
    let n = t.n as int;
    assert forall|a: Bits, b: Bits| bits_fit(a, u.n) && bits_fit(b, u.n) implies clash(a, b)
        == #[trigger] pair_parity(u, a, b, u.n as int) by {
        lemma_projected_pairs(t, p, pivot, sign, u, a, b, n);
        assert(pair_parity(t, a, b, n) == clash(a, b));
        assert(pair_parity(t, a, p, n) == clash(a, p));
        assert(pair_parity(t, p, b, n) == clash(p, b));
        lemma_clash_symmetric(a, p, n);
    }
}

/// Whether rows are complete depends on their operators alone.
proof fn lemma_same_pairs(t: FrameSimModel, u: FrameSimModel, a: Bits, b: Bits, k: int)
    requires
        t.n == u.n,
        0 <= k <= t.n,
        t.rows.len() == 2 * t.n,
        u.rows.len() == 2 * t.n,
        forall|r: int| 0 <= r < 2 * t.n ==> (#[trigger] u.rows[r]).op == t.rows[r].op,
    ensures
        pair_parity(t, a, b, k) == pair_parity(u, a, b, k),
    decreases k,
{
    if k > 0 {
        lemma_same_pairs(t, u, a, b, k - 1);
        assert(u.rows[k - 1].op == t.rows[k - 1].op);
        assert(u.rows[t.n + k - 1].op == t.rows[t.n + k - 1].op);
    }
}

proof fn lemma_same_complete(t: FrameSimModel, u: FrameSimModel)
    requires
        is_complete(t),
        t.n == u.n,
        t.rows.len() == 2 * t.n,
        u.rows.len() == 2 * t.n,
        forall|r: int| 0 <= r < 2 * t.n ==> (#[trigger] u.rows[r]).op == t.rows[r].op,
    ensures
        is_complete(u),
{
    assert forall|a: Bits, b: Bits| bits_fit(a, u.n) && bits_fit(b, u.n) implies clash(a, b)
        == #[trigger] pair_parity(u, a, b, u.n as int) by {
        lemma_same_pairs(t, u, a, b, t.n as int);
        assert(pair_parity(t, a, b, t.n as int) == clash(a, b));
    }
}

/// Measuring keeps a frame complete.
pub proof fn law_measuring_keeps_complete(t: FrameSimModel, p: Bits)
    requires
        shaped(t),
        is_complete(t),
        bits_fit(p, t.n),
    ensures
        is_complete(measured(t, p)),
{
    let u = measured(t, p);
    lemma_first_clash(t.rows, p, t.n as int);
    match first_clash(t.rows, p, t.n as int) {
        Some(pivot) => {
            let own = Set::empty().insert(t.rec.len() as usize);
            lemma_projected_complete(t, p, pivot, own, u);
        },
        None => {
            lemma_same_complete(t, u);
        },
    }
}

/// A reset keeps a frame complete.
pub proof fn law_reset_keeps_complete(t: FrameSimModel, basis: Pauli, q: int)
    requires
        shaped(t),
        is_complete(t),
        0 <= q < t.n,
    ensures
        is_complete(reset_to(t, basis, q)),
{
    let p = reset_bits(t.n, basis, q);
    let u = reset_to(t, basis, q);
    lemma_first_clash(t.rows, p, t.n as int);
    match first_clash(t.rows, p, t.n as int) {
        Some(pivot) => {
            lemma_projected_complete(t, p, pivot, Set::empty(), u);
        },
        None => {
            lemma_same_complete(t, u);
        },
    }
}

/// A correction keeps a frame complete.
pub proof fn law_correction_keeps_complete(t: FrameSimModel, rid: int, q: int)
    requires
        shaped(t),
        is_complete(t),
    ensures
        is_complete(corrected(t, rid, q)),
{
    lemma_same_complete(t, corrected(t, rid, q));
}

/// The sign of an operator that commutes with the stabilizers, once the rows that
/// anticommute with `f` have picked up `sign`.
pub(crate) proof fn lemma_flipped_determined(
    t: FrameSimModel,
    u: FrameSimModel,
    p: Bits,
    f: Bits,
    sign: Set<usize>,
    k: int,
)
    requires
        shaped(t),
        u.n == t.n,
        u.rows == flipped(t, f, sign),
        forall|r: int| t.n <= r < 2 * t.n ==> !clash((#[trigger] t.rows[r]).op, p),
        0 <= k <= t.n,
    ensures
        determined(u, p, k) == if pair_parity(t, p, f, k) {
            toggled(determined(t, p, k), sign)
        } else {
            determined(t, p, k)
        },
    decreases k,
{
    if k > 0 {
        lemma_flipped_determined(t, u, p, f, sign, k - 1);
        let s = t.n + k - 1;
        assert(!clash(t.rows[s].op, p));
        assert(u.rows[k - 1].op == t.rows[k - 1].op);
        let before = determined(t, p, k - 1);
        let own = t.rows[s].sign;
        assert(toggled(toggled(before, sign), toggled(own, sign)) =~= toggled(before, own));
        assert(toggled(before, toggled(own, sign)) =~= toggled(toggled(before, own), sign));
        assert(toggled(toggled(before, sign), own) =~= toggled(toggled(before, own), sign));
    }
}

/// A reset leaves the reset Pauli with a sign that no record bears on.
pub proof fn law_reset_is_definite(t: FrameSimModel, basis: Pauli, q: int)
    requires
        is_frame(t),
        is_complete(t),
        0 <= q < t.n,
    ensures
        solution(reset_to(t, basis, q), reset_bits(t.n, basis, q)) == Some(Set::<usize>::empty()),
{
    let n = t.n as int;
    let p = reset_bits(t.n, basis, q);
    let u = reset_to(t, basis, q);
    lemma_first_clash(t.rows, p, n);
    match first_clash(t.rows, p, n) {
        Some(pivot) => {
            lemma_projected_determined(t, p, pivot, Set::empty(), u);
        },
        None => {
            let f = flip_bits(t.n, basis, q);
            let value = determined(t, p, n);
            lemma_flipped_determined(t, u, p, f, value, n);
            lemma_unit_clash(t.n, q, basis is X, !(basis is X), q, !(basis is X), basis is X, n);
            assert(clash(p, f) == pair_parity(t, p, f, n));
            assert(toggled(value, value) =~= Set::<usize>::empty());
            lemma_first_clash(u.rows, p, n);
            if let Some(r) = first_clash(u.rows, p, n) {
                assert(u.rows[r].op == t.rows[r].op);
            }
        },
    }
}

/// The value of an operator that is determined is the value that measuring it gives.
pub proof fn law_solution_predicts_measurement(t: FrameSimModel, p: Bits)
    requires
        solution(t, p) is Some,
    ensures
        measured(t, p).rec.last() == solution(t, p)->0,
        measured(t, p).rows == t.rows,
{
}

/// The sign of an operator that commutes with the stabilizers, once the one at
/// `pivot` is replaced by `m`.
#[verifier::spinoff_prover]
proof fn lemma_determined_after(
    t: FrameSimModel,
    m: Bits,
    pivot: int,
    sign: Set<usize>,
    u: FrameSimModel,
    p: Bits,
    k: int,
)
    requires
        shaped(t),
        bits_fit(m, t.n),
        t.n <= pivot < 2 * t.n,
        clash(t.rows[pivot].op, m),
        u.rows == projected(t, m, pivot, sign),
        u.n == t.n,
        forall|r: int| t.n <= r < 2 * t.n ==> !clash((#[trigger] t.rows[r]).op, p),
        0 <= k <= t.n,
    ensures
        determined(u, p, k) == if pair_parity(t, p, m, k) {
            toggled(determined(t, p, k), t.rows[pivot].sign)
        } else {
            determined(t, p, k)
        },
    decreases k,
{
    if k > 0 {
        lemma_determined_after(t, m, pivot, sign, u, p, k - 1);
        let d = k - 1;
        let s = t.n + k - 1;
        lemma_projected_sees(t, m, pivot, sign, d, p);
        assert(!clash(t.rows[s].op, p));
        assert(!clash(t.rows[pivot].op, p));
        let before = determined(t, p, k - 1);
        let own = t.rows[s].sign;
        let piv = t.rows[pivot].sign;
        assert(toggled(toggled(before, piv), toggled(own, piv)) =~= toggled(before, own));
        assert(toggled(before, toggled(own, piv)) =~= toggled(toggled(before, own), piv));
        assert(toggled(toggled(before, piv), own) =~= toggled(toggled(before, own), piv));
        assert(toggled(toggled(before, piv), piv) =~= before);
    }
}

/// Measuring an operator leaves the value of every operator that commutes with it
/// as it was.
pub proof fn law_measuring_keeps_solutions(t: FrameSimModel, m: Bits, p: Bits)
    requires
        is_frame(t),
        is_complete(t),
        bits_fit(m, t.n),
        bits_fit(p, t.n),
        !clash(p, m),
        solution(t, p) is Some,
    ensures
        solution(measured(t, m), p) == solution(t, p),
{
    let n = t.n as int;
    let u = measured(t, m);
    lemma_first_clash(t.rows, p, n);
    lemma_first_clash(t.rows, m, n);
    match first_clash(t.rows, m, n) {
        Some(pivot) => {
            let own = Set::empty().insert(t.rec.len() as usize);
            lemma_determined_after(t, m, pivot, own, u, p, n);
            assert(pair_parity(t, p, m, n) == clash(p, m));
            lemma_first_clash(u.rows, p, n);
            if let Some(r) = first_clash(u.rows, p, n) {
                lemma_projected_sees(t, m, pivot, own, r, p);
                lemma_clash_symmetric(m, p, n);
            }
        },
        None => {
            lemma_determined_same(t, u, p, n);
        },
    }
}

} // verus!
