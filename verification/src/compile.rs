//! From a circuit to a Pauli-product circuit: partition the gates into
//! processor-sized subcircuits, move qubits between memory and processor, turn
//! gates into Pauli-product operations, and absorb the Cliffords.

use vstd::prelude::*;
use vstd::string::*;

use crate::circuit::{Circuit, Gate};
use crate::keyed::KeyedMap;
use crate::load_store::to_load_store_circuit;
use crate::partition::get_processor_subcircuits;
use crate::pbc::{
    AllOf, ArchitectureQubit, CliffordFrame, MeasId, PPRAngle, Pauli, PauliAxis,
    PauliProductCircuit, PauliProductOperation, PauliString, Sign,
};
#[allow(unused_imports)]
use crate::circuit::{acts_on, lemma_take_contains, Qubit};
#[allow(unused_imports)]
use crate::load_store::{
    covers_gates, law_fitting_loads_fit, load_store_steps, total_gates, total_qubits,
};
#[allow(unused_imports)]
use crate::partition::{
    execution_order, greedy_partition, law_greedy_respects_capacity,
    law_greedy_runs_each_gate_once, lemma_active_set_len, lemma_subcircuit_wf, operands_distinct,
    subcircuit_of,
};
use crate::sat_partition::{slice_and_optimize, PartitionProblem, PropLit, SolveReply};
#[allow(unused_imports)]
use crate::sat_partition::{
    all_within, honest, slice_size, slices_partitioned, slices_refused, slices_started,
};
#[allow(unused_imports)]
use crate::pbc::{lemma_product_ops_push, product_ops, sort_sites, FrameModel, ProductOp, SignedPauli};
use crate::text::Text;

verus! {

/// One step of a program that moves qubits between memory and processor.
#[derive(Clone, Copy, Debug, PartialEq, Eq)]
pub enum LoadStoreOp {
    Load(ArchitectureQubit, ArchitectureQubit),
    Store(ArchitectureQubit, ArchitectureQubit),
    Gate(Gate<ArchitectureQubit>),
}

#[derive(Debug)]
pub struct LoadStoreCircuit {
    pub ops: Vec<LoadStoreOp>,
}

impl Text for LoadStoreOp {
    open spec fn text(&self) -> Seq<char> {
        match *self {
            LoadStoreOp::Load(src, dst) => "Load("@ + src.text() + " -> "@ + dst.text() + ")"@,
            LoadStoreOp::Store(src, dst) => "Store("@ + src.text() + " -> "@ + dst.text() + ")"@,
            LoadStoreOp::Gate(g) => g.text(),
        }
    }

    fn write_text(&self, out: &mut String) {
        let ghost before = out@;
        match self {
            LoadStoreOp::Load(src, dst) => {
                out.append("Load(");
                src.write_text(out);
                out.append(" -> ");
                dst.write_text(out);
                out.append(")");
            },
            LoadStoreOp::Store(src, dst) => {
                out.append("Store(");
                src.write_text(out);
                out.append(" -> ");
                dst.write_text(out);
                out.append(")");
            },
            LoadStoreOp::Gate(g) => g.write_text(out),
        }
        assert(out@ =~= before + self.text());
    }
}

/// The text of each operation on a line of its own.
pub open spec fn load_store_lines(ops: Seq<LoadStoreOp>) -> Seq<char>
    decreases ops.len(),
{
    if ops.len() == 0 {
        Seq::empty()
    } else {
        load_store_lines(ops.drop_last()) + ops.last().text() + "\n"@
    }
}

proof fn lemma_joined(a: Seq<char>, b: Seq<char>, c: Seq<char>, d: Seq<char>)
    ensures
        a + b + c + d == a + (b + c + d),
{
    assert(a + b + c + d =~= a + (b + c + d));
}

impl Text for LoadStoreCircuit {
    open spec fn text(&self) -> Seq<char> {
        load_store_lines(self.ops@)
    }

    fn write_text(&self, out: &mut String) {
        let ghost before = out@;
        assert(self.ops@.take(0) =~= Seq::empty());
        assert(out@ =~= before + load_store_lines(self.ops@.take(0)));
        for i in 0..self.ops.len()
            invariant
                out@ == before + load_store_lines(self.ops@.take(i as int)),
        {
            let ghost lines = load_store_lines(self.ops@.take(i as int));
            let ghost piece = self.ops@[i as int].text();
            self.ops[i].write_text(out);
            out.append("\n");
            proof {
                let t = self.ops@.take(i + 1);
                assert(t.drop_last() =~= self.ops@.take(i as int));
                assert(t.last() == self.ops@[i as int]);
                assert(load_store_lines(t) == lines + piece + "\n"@);
                lemma_joined(before, lines, piece, "\n"@);
            }
        }
        assert(self.ops@.take(self.ops@.len() as int) =~= self.ops@);
    }
}

// ---------------------------------------------------------------------------
// Gates as Pauli-product operations
// ---------------------------------------------------------------------------
/// The operator with the given sites, put in order.
pub open spec fn axis_of(sign: Sign, sites: Seq<(ArchitectureQubit, Pauli)>) -> SignedPauli<
    ArchitectureQubit,
> {
    SignedPauli { sign, sites: sort_sites(sites) }
}

/// A rotation about the operator with the given sites.
pub open spec fn rotation_op(
    sign: Sign,
    sites: Seq<(ArchitectureQubit, Pauli)>,
    angle: PPRAngle,
) -> ProductOp {
    ProductOp::Rotation { axis: axis_of(sign, sites), angle }
}

/// A rotation to apply when all outcomes of `ids` are 1.
pub open spec fn conditional_op(
    sign: Sign,
    sites: Seq<(ArchitectureQubit, Pauli)>,
    angle: PPRAngle,
    ids: Seq<MeasId>,
) -> ProductOp {
    ProductOp::ConditionalRotation { axis: axis_of(sign, sites), angle, condition: ids }
}

/// A measurement of the operator with the given sites.
pub open spec fn measurement_op(
    sign: Sign,
    sites: Seq<(ArchitectureQubit, Pauli)>,
    id: MeasId,
) -> ProductOp {
    ProductOp::Measurement { axis: axis_of(sign, sites), id }
}

fn axis(sign: Sign, pairs: Vec<(ArchitectureQubit, Pauli)>) -> (r: PauliAxis<ArchitectureQubit>)
    ensures
        r@ == axis_of(sign, pairs@),
{
    PauliAxis { sign, pauli_string: PauliString::new(pairs) }
}

fn one_site(q: ArchitectureQubit, p: Pauli) -> (r: Vec<(ArchitectureQubit, Pauli)>)
    ensures
        r@ == seq![(q, p)],
{
    let r: Vec<(ArchitectureQubit, Pauli)> = vec![(q, p)];
    assert(r@ =~= seq![(q, p)]);
    r
}

fn two_sites(q1: ArchitectureQubit, p1: Pauli, q2: ArchitectureQubit, p2: Pauli) -> (r: Vec<
    (ArchitectureQubit, Pauli),
>)
    ensures
        r@ == seq![(q1, p1), (q2, p2)],
{
    let r: Vec<(ArchitectureQubit, Pauli)> = vec![(q1, p1), (q2, p2)];
    assert(r@ =~= seq![(q1, p1), (q2, p2)]);
    r
}

fn rotation(sign: Sign, pairs: Vec<(ArchitectureQubit, Pauli)>, angle: PPRAngle) -> (r:
    PauliProductOperation)
    ensures
        r@ == rotation_op(sign, pairs@, angle),
{
    PauliProductOperation::Rotation { axis: axis(sign, pairs), angle }
}

fn conditional(
    sign: Sign,
    pairs: Vec<(ArchitectureQubit, Pauli)>,
    angle: PPRAngle,
    condition: AllOf,
) -> (r: PauliProductOperation)
    ensures
        r@ == conditional_op(sign, pairs@, angle, condition@),
{
    PauliProductOperation::ConditionalRotation { axis: axis(sign, pairs), angle, condition }
}

fn measurement(sign: Sign, pairs: Vec<(ArchitectureQubit, Pauli)>, id: MeasId) -> (r:
    PauliProductOperation)
    ensures
        r@ == measurement_op(sign, pairs@, id),
{
    PauliProductOperation::Measurement { axis: axis(sign, pairs), id }
}

fn all_of_three(a: MeasId, b: MeasId, c: MeasId) -> (r: AllOf)
    ensures
        r@ == seq![a, b, c],
{
    let r = AllOf(vec![a, b, c]);
    assert(r@ =~= seq![a, b, c]);
    r
}

/// The number of measurement outcomes that a gate needs.
pub open spec fn gate_meas_count(gate: Gate<ArchitectureQubit>) -> nat {
    match gate {
        Gate::T(_) => 2,
        Gate::Tdg(_) => 2,
        Gate::CCZ { .. } => 6,
        _ => 0,
    }
}

/// The Pauli-product operations that realise a gate, its measurements numbered
/// from `next`. `T` gates and `CCZ` are injected from magic states.
pub open spec fn gate_ops(gate: Gate<ArchitectureQubit>, next: int) -> Seq<ProductOp> {
    let m = |k: int| MeasId((next + k) as u32);
    let magic = |k: int| ArchitectureQubit::Magic(k as usize);
    match gate {
        Gate::X(q) => seq![rotation_op(Sign::One, seq![(q, Pauli::X)], PPRAngle::PiOver2)],
        Gate::Y(q) => seq![rotation_op(Sign::One, seq![(q, Pauli::Y)], PPRAngle::PiOver2)],
        Gate::Z(q) => seq![rotation_op(Sign::One, seq![(q, Pauli::Z)], PPRAngle::PiOver2)],
        Gate::H(q) => seq![
            rotation_op(Sign::One, seq![(q, Pauli::Z)], PPRAngle::PiOver4),
            rotation_op(Sign::One, seq![(q, Pauli::X)], PPRAngle::PiOver4),
            rotation_op(Sign::One, seq![(q, Pauli::Z)], PPRAngle::PiOver4),
        ],
        Gate::S(q) => seq![rotation_op(Sign::One, seq![(q, Pauli::Z)], PPRAngle::PiOver4)],
        Gate::Sdg(q) => seq![rotation_op(Sign::NegOne, seq![(q, Pauli::Z)], PPRAngle::PiOver4)],
        Gate::T(q) => injection_ops(Sign::One, q, m(0), m(1)),
        Gate::Tdg(q) => injection_ops(Sign::NegOne, q, m(0), m(1)),
        Gate::CNOT { control, target } => seq![
            rotation_op(
                Sign::One,
                seq![(control, Pauli::Z), (target, Pauli::X)],
                PPRAngle::PiOver4,
            ),
            rotation_op(Sign::NegOne, seq![(control, Pauli::Z)], PPRAngle::PiOver4),
            rotation_op(Sign::NegOne, seq![(target, Pauli::X)], PPRAngle::PiOver4),
        ],
        Gate::CCZ { control1, control2, target } => seq![
            measurement_op(Sign::One, seq![(control1, Pauli::Z), (magic(0), Pauli::X)], m(0)),
            measurement_op(Sign::One, seq![(control2, Pauli::Z), (magic(1), Pauli::X)], m(1)),
            measurement_op(Sign::One, seq![(target, Pauli::Z), (magic(2), Pauli::X)], m(2)),
            // conditional CZ of control2 and target
            conditional_op(
                Sign::One,
                seq![(control2, Pauli::Z), (target, Pauli::Z)],
                PPRAngle::PiOver4,
                seq![m(0)],
            ),
            conditional_op(Sign::NegOne, seq![(control2, Pauli::Z)], PPRAngle::PiOver4, seq![m(0)]),
            conditional_op(Sign::NegOne, seq![(target, Pauli::Z)], PPRAngle::PiOver4, seq![m(0)]),
            // conditional CZ of control1 and target
            conditional_op(
                Sign::One,
                seq![(control1, Pauli::Z), (target, Pauli::Z)],
                PPRAngle::PiOver4,
                seq![m(1)],
            ),
            conditional_op(Sign::NegOne, seq![(control1, Pauli::Z)], PPRAngle::PiOver4, seq![m(1)]),
            conditional_op(Sign::NegOne, seq![(target, Pauli::Z)], PPRAngle::PiOver4, seq![m(1)]),
            // conditional CZ of control1 and control2
            conditional_op(
                Sign::One,
                seq![(control1, Pauli::Z), (control2, Pauli::Z)],
                PPRAngle::PiOver4,
                seq![m(2)],
            ),
            conditional_op(Sign::NegOne, seq![(control1, Pauli::Z)], PPRAngle::PiOver4, seq![m(2)]),
            conditional_op(Sign::NegOne, seq![(control2, Pauli::Z)], PPRAngle::PiOver4, seq![m(2)]),
            measurement_op(Sign::One, seq![(magic(0), Pauli::X)], m(3)),
            measurement_op(Sign::One, seq![(magic(1), Pauli::X)], m(4)),
            measurement_op(Sign::One, seq![(magic(2), Pauli::X)], m(5)),
            conditional_op(
                Sign::One,
                seq![(control1, Pauli::Z)],
                PPRAngle::PiOver2,
                seq![m(1), m(2), m(3)],
            ),
            conditional_op(
                Sign::One,
                seq![(control2, Pauli::Z)],
                PPRAngle::PiOver2,
                seq![m(0), m(2), m(4)],
            ),
            conditional_op(
                Sign::One,
                seq![(target, Pauli::Z)],
                PPRAngle::PiOver2,
                seq![m(0), m(1), m(5)],
            ),
        ],
    }
}

/// The injection of a `T` gate, or of its inverse when `sign` is negative: a
/// joint measurement with the magic state, its Clifford correction, and the
/// measurement that disentangles the magic state.
pub open spec fn injection_ops(
    sign: Sign,
    q: ArchitectureQubit,
    joint: MeasId,
    magic: MeasId,
) -> Seq<ProductOp> {
    seq![
        measurement_op(sign, seq![(q, Pauli::Z), (ArchitectureQubit::Magic(0), Pauli::X)], joint),
        conditional_op(sign, seq![(q, Pauli::Z)], PPRAngle::PiOver4, seq![joint]),
        measurement_op(Sign::One, seq![(ArchitectureQubit::Magic(0), Pauli::X)], magic),
        conditional_op(Sign::One, seq![(q, Pauli::Z)], PPRAngle::PiOver2, seq![magic]),
    ]
}

fn fresh_id(next_id: &mut u32) -> (id: MeasId)
    requires
        *old(next_id) < u32::MAX,
    ensures
        id == MeasId(*old(next_id)),
        *final(next_id) == *old(next_id) + 1,
{
    let id = MeasId(*next_id);
    *next_id = *next_id + 1;
    id
}

fn injection(sign: Sign, q: ArchitectureQubit, next_id: &mut u32) -> (r: Vec<
    PauliProductOperation,
>)
    requires
        *old(next_id) + 2 <= u32::MAX,
    ensures
        product_ops(r@) == injection_ops(
            sign,
            q,
            MeasId(*old(next_id)),
            MeasId((*old(next_id) + 1) as u32),
        ),
        *final(next_id) == *old(next_id) + 2,
{
    let ghost n0 = *next_id as int;
    let m0 = fresh_id(next_id);
    let m1 = fresh_id(next_id);
    let magic = ArchitectureQubit::Magic(0);
    let r: Vec<PauliProductOperation> = vec![
        measurement(sign, two_sites(q, Pauli::Z, magic, Pauli::X), m0),
        conditional(sign, one_site(q, Pauli::Z), PPRAngle::PiOver4, AllOf::single(m0)),
        measurement(Sign::One, one_site(magic, Pauli::X), m1),
        conditional(Sign::One, one_site(q, Pauli::Z), PPRAngle::PiOver2, AllOf::single(m1)),
    ];
    assert(product_ops(r@) =~= injection_ops(sign, q, m0, m1));
    r
}

/// The Pauli-product operations of one gate. Measurements are numbered from
/// `next_id`, which moves past them.
pub fn gate_to_pbc_instructions(gate: &Gate<ArchitectureQubit>, next_id: &mut u32) -> (r: Vec<
    PauliProductOperation,
>)
    requires
        *old(next_id) + gate_meas_count(*gate) <= u32::MAX,
    ensures
        product_ops(r@) == gate_ops(*gate, *old(next_id) as int),
        *final(next_id) == *old(next_id) + gate_meas_count(*gate),
{
    let ghost n0 = *next_id as int;
    match *gate {
        Gate::X(q) => {
            let r = vec![rotation(Sign::One, one_site(q, Pauli::X), PPRAngle::PiOver2)];
            assert(product_ops(r@) =~= gate_ops(*gate, n0));
            r
        },
        Gate::Y(q) => {
            let r = vec![rotation(Sign::One, one_site(q, Pauli::Y), PPRAngle::PiOver2)];
            assert(product_ops(r@) =~= gate_ops(*gate, n0));
            r
        },
        Gate::Z(q) => {
            let r = vec![rotation(Sign::One, one_site(q, Pauli::Z), PPRAngle::PiOver2)];
            assert(product_ops(r@) =~= gate_ops(*gate, n0));
            r
        },
        Gate::H(q) => {
            let r = vec![
                rotation(Sign::One, one_site(q, Pauli::Z), PPRAngle::PiOver4),
                rotation(Sign::One, one_site(q, Pauli::X), PPRAngle::PiOver4),
                rotation(Sign::One, one_site(q, Pauli::Z), PPRAngle::PiOver4),
            ];
            assert(product_ops(r@) =~= gate_ops(*gate, n0));
            r
        },
        Gate::S(q) => {
            let r = vec![rotation(Sign::One, one_site(q, Pauli::Z), PPRAngle::PiOver4)];
            assert(product_ops(r@) =~= gate_ops(*gate, n0));
            r
        },
        Gate::Sdg(q) => {
            let r = vec![rotation(Sign::NegOne, one_site(q, Pauli::Z), PPRAngle::PiOver4)];
            assert(product_ops(r@) =~= gate_ops(*gate, n0));
            r
        },
        Gate::T(q) => injection(Sign::One, q, next_id),
        Gate::Tdg(q) => injection(Sign::NegOne, q, next_id),
        Gate::CNOT { control, target } => {
            let r = vec![
                rotation(
                    Sign::One,
                    two_sites(control, Pauli::Z, target, Pauli::X),
                    PPRAngle::PiOver4,
                ),
                rotation(Sign::NegOne, one_site(control, Pauli::Z), PPRAngle::PiOver4),
                rotation(Sign::NegOne, one_site(target, Pauli::X), PPRAngle::PiOver4),
            ];
            assert(product_ops(r@) =~= gate_ops(*gate, n0));
            r
        },
        Gate::CCZ { control1, control2, target } => {
            let m0 = fresh_id(next_id);
            let m1 = fresh_id(next_id);
            let m2 = fresh_id(next_id);
            let m3 = fresh_id(next_id);
            let m4 = fresh_id(next_id);
            let m5 = fresh_id(next_id);
            let magic0 = ArchitectureQubit::Magic(0);
            let magic1 = ArchitectureQubit::Magic(1);
            let magic2 = ArchitectureQubit::Magic(2);
            let r = vec![
                measurement(Sign::One, two_sites(control1, Pauli::Z, magic0, Pauli::X), m0),
                measurement(Sign::One, two_sites(control2, Pauli::Z, magic1, Pauli::X), m1),
                measurement(Sign::One, two_sites(target, Pauli::Z, magic2, Pauli::X), m2),
                conditional(
                    Sign::One,
                    two_sites(control2, Pauli::Z, target, Pauli::Z),
                    PPRAngle::PiOver4,
                    AllOf::single(m0),
                ),
                conditional(
                    Sign::NegOne,
                    one_site(control2, Pauli::Z),
                    PPRAngle::PiOver4,
                    AllOf::single(m0),
                ),
                conditional(
                    Sign::NegOne,
                    one_site(target, Pauli::Z),
                    PPRAngle::PiOver4,
                    AllOf::single(m0),
                ),
                conditional(
                    Sign::One,
                    two_sites(control1, Pauli::Z, target, Pauli::Z),
                    PPRAngle::PiOver4,
                    AllOf::single(m1),
                ),
                conditional(
                    Sign::NegOne,
                    one_site(control1, Pauli::Z),
                    PPRAngle::PiOver4,
                    AllOf::single(m1),
                ),
                conditional(
                    Sign::NegOne,
                    one_site(target, Pauli::Z),
                    PPRAngle::PiOver4,
                    AllOf::single(m1),
                ),
                conditional(
                    Sign::One,
                    two_sites(control1, Pauli::Z, control2, Pauli::Z),
                    PPRAngle::PiOver4,
                    AllOf::single(m2),
                ),
                conditional(
                    Sign::NegOne,
                    one_site(control1, Pauli::Z),
                    PPRAngle::PiOver4,
                    AllOf::single(m2),
                ),
                conditional(
                    Sign::NegOne,
                    one_site(control2, Pauli::Z),
                    PPRAngle::PiOver4,
                    AllOf::single(m2),
                ),
                measurement(Sign::One, one_site(magic0, Pauli::X), m3),
                measurement(Sign::One, one_site(magic1, Pauli::X), m4),
                measurement(Sign::One, one_site(magic2, Pauli::X), m5),
                conditional(
                    Sign::One,
                    one_site(control1, Pauli::Z),
                    PPRAngle::PiOver2,
                    all_of_three(m1, m2, m3),
                ),
                conditional(
                    Sign::One,
                    one_site(control2, Pauli::Z),
                    PPRAngle::PiOver2,
                    all_of_three(m0, m2, m4),
                ),
                conditional(
                    Sign::One,
                    one_site(target, Pauli::Z),
                    PPRAngle::PiOver2,
                    all_of_three(m0, m1, m5),
                ),
            ];
            assert(product_ops(r@) =~= gate_ops(*gate, n0));
            r
        },
    }
}

/// The number of measurement outcomes that an operation needs.
pub open spec fn op_meas_count(op: LoadStoreOp) -> nat {
    match op {
        LoadStoreOp::Gate(gate) => gate_meas_count(gate),
        _ => 2,
    }
}

/// The measurements and corrections that teleport the state of `from` to `to`.
pub open spec fn teleport_ops(
    from: ArchitectureQubit,
    to: ArchitectureQubit,
    joint: MeasId,
    source: MeasId,
) -> Seq<ProductOp> {
    seq![
        measurement_op(Sign::One, seq![(from, Pauli::Z), (to, Pauli::Z)], joint),
        conditional_op(Sign::One, seq![(to, Pauli::X)], PPRAngle::PiOver2, seq![joint]),
        measurement_op(Sign::One, seq![(from, Pauli::X)], source),
        conditional_op(Sign::One, seq![(to, Pauli::Z)], PPRAngle::PiOver2, seq![source]),
    ]
}

/// The Pauli-product operations of a load, a store or a gate, its measurements
/// numbered from `next`. A load first clears the frame of the processor qubit.
pub open spec fn load_store_op_ops(op: LoadStoreOp, next: int) -> Seq<ProductOp> {
    match op {
        LoadStoreOp::Load(mem, proc) => seq![ProductOp::FrameReset(proc)] + teleport_ops(
            mem,
            proc,
            MeasId(next as u32),
            MeasId((next + 1) as u32),
        ),
        LoadStoreOp::Store(proc, mem) => teleport_ops(
            proc,
            mem,
            MeasId(next as u32),
            MeasId((next + 1) as u32),
        ),
        LoadStoreOp::Gate(gate) => gate_ops(gate, next),
    }
}

/// The Pauli-product operations of one load, store or gate. Measurements are
/// numbered from `next_id`, which moves past them.
pub fn ls_circuit_op_to_pbc_op(op: &LoadStoreOp, next_id: &mut u32) -> (r: Vec<
    PauliProductOperation,
>)
    requires
        *old(next_id) + op_meas_count(*op) <= u32::MAX,
    ensures
        product_ops(r@) == load_store_op_ops(*op, *old(next_id) as int),
        *final(next_id) == *old(next_id) + op_meas_count(*op),
{
    let ghost n0 = *next_id as int;
    match *op {
        LoadStoreOp::Load(mem, proc) => {
            let m0 = fresh_id(next_id);
            let m1 = fresh_id(next_id);
            let r = vec![
                PauliProductOperation::FrameReset(proc),
                measurement(Sign::One, two_sites(mem, Pauli::Z, proc, Pauli::Z), m0),
                conditional(
                    Sign::One,
                    one_site(proc, Pauli::X),
                    PPRAngle::PiOver2,
                    AllOf::single(m0),
                ),
                measurement(Sign::One, one_site(mem, Pauli::X), m1),
                conditional(
                    Sign::One,
                    one_site(proc, Pauli::Z),
                    PPRAngle::PiOver2,
                    AllOf::single(m1),
                ),
            ];
            assert(product_ops(r@) =~= load_store_op_ops(*op, n0));
            r
        },
        LoadStoreOp::Store(proc, mem) => {
            let m0 = fresh_id(next_id);
            let m1 = fresh_id(next_id);
            let r = vec![
                measurement(Sign::One, two_sites(proc, Pauli::Z, mem, Pauli::Z), m0),
                conditional(
                    Sign::One,
                    one_site(mem, Pauli::X),
                    PPRAngle::PiOver2,
                    AllOf::single(m0),
                ),
                measurement(Sign::One, one_site(proc, Pauli::X), m1),
                conditional(
                    Sign::One,
                    one_site(mem, Pauli::Z),
                    PPRAngle::PiOver2,
                    AllOf::single(m1),
                ),
            ];
            assert(product_ops(r@) =~= load_store_op_ops(*op, n0));
            r
        },
        LoadStoreOp::Gate(gate) => gate_to_pbc_instructions(&gate, next_id),
    }
}

/// The measurement outcomes that a program needs in all.
pub open spec fn meas_count(ops: Seq<LoadStoreOp>) -> nat
    decreases ops.len(),
{
    if ops.len() == 0 {
        0
    } else {
        meas_count(ops.drop_last()) + op_meas_count(ops.last())
    }
}

/// The operations without the conditional rotations.
pub open spec fn unconditional(ops: Seq<ProductOp>) -> Seq<ProductOp>
    decreases ops.len(),
{
    if ops.len() == 0 {
        Seq::empty()
    } else if ops.last() is ConditionalRotation {
        unconditional(ops.drop_last())
    } else {
        unconditional(ops.drop_last()).push(ops.last())
    }
}

/// The Pauli-product operations of a program, measurements numbered from 0; the
/// corrections are kept only when they are to be simulated.
pub open spec fn program_ops(ops: Seq<LoadStoreOp>, simulate_corrections: bool) -> Seq<ProductOp>
    decreases ops.len(),
{
    if ops.len() == 0 {
        Seq::empty()
    } else {
        let last = load_store_op_ops(ops.last(), meas_count(ops.drop_last()) as int);
        program_ops(ops.drop_last(), simulate_corrections) + if simulate_corrections {
            last
        } else {
            unconditional(last)
        }
    }
}

proof fn lemma_meas_count_take(ops: Seq<LoadStoreOp>, i: int)
    requires
        0 <= i <= ops.len(),
    ensures
        meas_count(ops.take(i)) <= meas_count(ops),
    decreases ops.len() - i,
{
    if i < ops.len() {
        lemma_meas_count_take(ops, i + 1);
        assert(ops.take(i + 1).drop_last() =~= ops.take(i));
    } else {
        assert(ops.take(i) =~= ops);
    }
}

/// The ids of the measurements, in order.
pub open spec fn measured_ids(ops: Seq<ProductOp>) -> Seq<int>
    decreases ops.len(),
{
    if ops.len() == 0 {
        Seq::empty()
    } else {
        match ops.last() {
            ProductOp::Measurement { id, .. } => measured_ids(ops.drop_last()).push(id.0 as int),
            _ => measured_ids(ops.drop_last()),
        }
    }
}

proof fn lemma_measured_add(a: Seq<ProductOp>, b: Seq<ProductOp>)
    ensures
        measured_ids(a + b) == measured_ids(a) + measured_ids(b),
    decreases b.len(),
{
    if b.len() == 0 {
        assert(a + b =~= a);
        assert(measured_ids(a) + measured_ids(b) =~= measured_ids(a));
    } else {
        lemma_measured_add(a, b.drop_last());
        assert((a + b).drop_last() =~= a + b.drop_last());
        assert((a + b).last() == b.last());
        assert(measured_ids(a + b) =~= measured_ids(a) + measured_ids(b));
    }
}

proof fn lemma_unconditional_add(a: Seq<ProductOp>, b: Seq<ProductOp>)
    ensures
        unconditional(a + b) == unconditional(a) + unconditional(b),
    decreases b.len(),
{
    if b.len() == 0 {
        assert(a + b =~= a);
        assert(unconditional(a) + unconditional(b) =~= unconditional(a));
    } else {
        lemma_unconditional_add(a, b.drop_last());
        assert((a + b).drop_last() =~= a + b.drop_last());
        assert((a + b).last() == b.last());
        assert(unconditional(a + b) =~= unconditional(a) + unconditional(b));
    }
}

proof fn lemma_unconditional_measured(ops: Seq<ProductOp>)
    ensures
        measured_ids(unconditional(ops)) == measured_ids(ops),
        forall|i: int|
            0 <= i < unconditional(ops).len() ==> !(#[trigger] unconditional(
                ops,
            )[i] is ConditionalRotation),
    decreases ops.len(),
{
    if ops.len() > 0 {
        lemma_unconditional_measured(ops.drop_last());
        if !(ops.last() is ConditionalRotation) {
            let kept = unconditional(ops.drop_last());
            assert(unconditional(ops).drop_last() =~= kept);
            assert forall|i: int| 0 <= i < unconditional(ops).len() implies !(
            #[trigger] unconditional(ops)[i] is ConditionalRotation) by {
                if i < kept.len() {
                    assert(unconditional(ops)[i] == kept[i]);
                }
            }
        }
    }
}

proof fn lemma_op_measured(op: LoadStoreOp, next: int)
    requires
        0 <= next,
        next + op_meas_count(op) <= u32::MAX,
    ensures
        measured_ids(load_store_op_ops(op, next)) == Seq::new(
            op_meas_count(op),
            |i: int| next + i,
        ),
{
    reveal_with_fuel(measured_ids, 20);
    let ops = load_store_op_ops(op, next);
    let goal = Seq::new(op_meas_count(op), |i: int| next + i);
    assert(measured_ids(ops) =~= goal);
}

/// Measurements are numbered from 0 on, in the order in which they are made, whether
/// or not the corrections are kept.
pub proof fn law_ids_run_from_zero(ops: Seq<LoadStoreOp>, simulate_corrections: bool)
    requires
        meas_count(ops) <= u32::MAX,
    ensures
        measured_ids(program_ops(ops, simulate_corrections)) == Seq::new(
            meas_count(ops),
            |i: int| i,
        ),
    decreases ops.len(),
{
    if ops.len() == 0 {
        assert(measured_ids(program_ops(ops, simulate_corrections)) =~= Seq::new(
            meas_count(ops),
            |i: int| i,
        ));
    } else {
        law_ids_run_from_zero(ops.drop_last(), simulate_corrections);
        let next = meas_count(ops.drop_last()) as int;
        let last = load_store_op_ops(ops.last(), next);
        let front = program_ops(ops.drop_last(), simulate_corrections);
        lemma_op_measured(ops.last(), next);
        lemma_unconditional_measured(last);
        lemma_measured_add(front, last);
        lemma_measured_add(front, unconditional(last));
        assert(measured_ids(program_ops(ops, simulate_corrections)) =~= Seq::new(
            meas_count(ops),
            |i: int| i,
        ));
    }
}

/// Without simulated corrections, the program is the one with them, its conditional
/// rotations left out: none is there, and the other operations and their ids are the
/// same.
pub proof fn law_dropping_corrections_is_a_filter(ops: Seq<LoadStoreOp>)
    ensures
        program_ops(ops, false) == unconditional(program_ops(ops, true)),
        forall|i: int|
            0 <= i < program_ops(ops, false).len() ==> !(#[trigger] program_ops(
                ops,
                false,
            )[i] is ConditionalRotation),
    decreases ops.len(),
{
    if ops.len() > 0 {
        law_dropping_corrections_is_a_filter(ops.drop_last());
        let last = load_store_op_ops(ops.last(), meas_count(ops.drop_last()) as int);
        lemma_unconditional_add(program_ops(ops.drop_last(), true), last);
    }
    lemma_unconditional_measured(program_ops(ops, true));
}

/// Turn a load/store program into Pauli-product operations.
pub fn to_pauli_product_circuit(load_store: &LoadStoreCircuit, simulate_corrections: bool) -> (r:
    PauliProductCircuit)
    requires
        meas_count(load_store.ops@) <= u32::MAX,
    ensures
        r@ == program_ops(load_store.ops@, simulate_corrections),
        r.next_meas_id == meas_count(load_store.ops@),
{
    let mut instructions: Vec<PauliProductOperation> = Vec::new();
    let mut next_meas_id: u32 = 0;
    let ghost ops = load_store.ops@;
    proof {
        assert(ops.take(0) =~= Seq::empty());
        assert(product_ops(instructions@) =~= Seq::empty());
    }
    for i in 0..load_store.ops.len()
        invariant
            ops == load_store.ops@,
            meas_count(ops) <= u32::MAX,
            product_ops(instructions@) == program_ops(ops.take(i as int), simulate_corrections),
            next_meas_id == meas_count(ops.take(i as int)),
    {
        proof {
            lemma_meas_count_take(ops, i + 1);
            assert(ops.take(i + 1).drop_last() =~= ops.take(i as int));
        }
        let instrs = ls_circuit_op_to_pbc_op(&load_store.ops[i], &mut next_meas_id);
        let ghost before = product_ops(instructions@);
        let ghost step = product_ops(instrs@);
        proof {
            assert(step.take(0) =~= Seq::empty());
            assert(before + Seq::<ProductOp>::empty() =~= before);
        }
        for j in 0..instrs.len()
            invariant
                step == product_ops(instrs@),
                product_ops(instructions@) == before + if simulate_corrections {
                    step.take(j as int)
                } else {
                    unconditional(step.take(j as int))
                },
        {
            let keep = simulate_corrections || !matches!(
                &instrs[j],
                PauliProductOperation::ConditionalRotation { .. }
            );
            proof {
                assert(step.take(j + 1).drop_last() =~= step.take(j as int));
                assert(step.take(j + 1) =~= step.take(j as int).push(step[j as int]));
                assert(step[j as int] == instrs@[j as int]@);
            }
            if keep {
                let op = instrs[j].clone();
                proof {
                    lemma_product_ops_push(instructions@, op);
                }
                instructions.push(op);
            }
            assert(product_ops(instructions@) =~= before + if simulate_corrections {
                step.take(j + 1)
            } else {
                unconditional(step.take(j + 1))
            });
        }
        assert(step.take(step.len() as int) =~= step);
    }
    assert(ops.take(ops.len() as int) =~= ops);
    PauliProductCircuit { instructions, next_meas_id }
}

// ---------------------------------------------------------------------------
// Corrections and Cliffords
// ---------------------------------------------------------------------------
/// The Clifford frame once `ops` have been absorbed.
pub open spec fn frame_after(ops: Seq<ProductOp>) -> FrameModel
    decreases ops.len(),
{
    if ops.len() == 0 {
        FrameModel::identity()
    } else {
        let f = frame_after(ops.drop_last());
        match ops.last() {
            ProductOp::FrameReset(q) => f.reset(q),
            ProductOp::Rotation { axis, angle } => match angle {
                PPRAngle::PiOver8 => f,
                PPRAngle::PiOver4 => f.update(axis),
                PPRAngle::PiOver2 => f.update(axis).update(axis),
            },
            _ => f,
        }
    }
}

/// What is left of `ops` once the Cliffords are absorbed: the PiOver8 rotations
/// and the measurements, each seen through the frame in front of it.
pub open spec fn absorbed(ops: Seq<ProductOp>) -> Seq<ProductOp>
    decreases ops.len(),
{
    if ops.len() == 0 {
        Seq::empty()
    } else {
        let f = frame_after(ops.drop_last());
        let before = absorbed(ops.drop_last());
        match ops.last() {
            ProductOp::Rotation { axis, angle } => if angle is PiOver8 {
                before.push(ProductOp::Rotation { axis: f.apply(axis), angle })
            } else {
                before
            },
            ProductOp::Measurement { axis, id } => before.push(
                ProductOp::Measurement { axis: f.apply(axis), id },
            ),
            _ => before,
        }
    }
}

/// Absorb every Clifford rotation into a frame, and conjugate the rest by it.
pub fn absorb_cliffords(circ: &PauliProductCircuit) -> (r: PauliProductCircuit)
    ensures
        r@ == absorbed(circ@),
        r.next_meas_id == circ.next_meas_id,
{
    let mut instructions: Vec<PauliProductOperation> = Vec::new();
    let mut frame = CliffordFrame::new();
    let ghost ops = circ@;
    proof {
        assert(ops.take(0) =~= Seq::empty());
        assert(product_ops(instructions@) =~= Seq::empty());
    }
    for i in 0..circ.instructions.len()
        invariant
            ops == circ@,
            frame@ == frame_after(ops.take(i as int)),
            product_ops(instructions@) == absorbed(ops.take(i as int)),
    {
        proof {
            assert(ops.take(i + 1).drop_last() =~= ops.take(i as int));
            assert(ops.take(i + 1).last() == circ.instructions@[i as int]@);
        }
        match &circ.instructions[i] {
            PauliProductOperation::FrameReset(q) => {
                frame.reset(*q);
            },
            PauliProductOperation::Rotation { axis, angle } => match angle {
                PPRAngle::PiOver4 => {
                    frame.update(axis);
                },
                PPRAngle::PiOver2 => {
                    frame.update(axis);
                    frame.update(axis);
                },
                PPRAngle::PiOver8 => {
                    let op = PauliProductOperation::Rotation {
                        axis: frame.apply(axis),
                        angle: PPRAngle::PiOver8,
                    };
                    proof {
                        lemma_product_ops_push(instructions@, op);
                    }
                    instructions.push(op);
                },
            },
            PauliProductOperation::ConditionalRotation { .. } => {},
            PauliProductOperation::Measurement { axis, id } => {
                let op = PauliProductOperation::Measurement { axis: frame.apply(axis), id: *id };
                proof {
                    lemma_product_ops_push(instructions@, op);
                }
                instructions.push(op);
            },
        }
    }
    assert(ops.take(ops.len() as int) =~= ops);
    PauliProductCircuit { instructions, next_meas_id: circ.next_meas_id }
}

/// All outcomes of `ids` are known, and are 1.
pub open spec fn condition_holds(ids: Seq<MeasId>, outcomes: Map<MeasId, bool>) -> bool {
    forall|i: int|
        0 <= i < ids.len() ==> outcomes.dom().contains(#[trigger] ids[i]) && outcomes[ids[i]]
}

/// `ops` with each conditional rotation made unconditional where its condition
/// holds, and left out where it does not.
pub open spec fn resolved(ops: Seq<ProductOp>, outcomes: Map<MeasId, bool>) -> Seq<ProductOp>
    decreases ops.len(),
{
    if ops.len() == 0 {
        Seq::empty()
    } else {
        let before = resolved(ops.drop_last(), outcomes);
        match ops.last() {
            ProductOp::ConditionalRotation { axis, angle, condition } => if condition_holds(
                condition,
                outcomes,
            ) {
                before.push(ProductOp::Rotation { axis, angle })
            } else {
                before
            },
            op => before.push(op),
        }
    }
}

/// Some conditional rotation of `ops` waits for `id`.
pub open spec fn awaited(ops: Seq<ProductOp>, id: MeasId) -> bool {
    exists|i: int|
        0 <= i < ops.len() && ((#[trigger] ops[i]) matches ProductOp::ConditionalRotation {
            condition,
            ..
        } && condition.contains(id))
}

/// Resolve the conditional rotations for the given measurement outcomes.
pub fn resolve_corrections_with(circ: &PauliProductCircuit, outcomes: &KeyedMap<MeasId, bool>) -> (r:
    PauliProductCircuit)
    ensures
        r@ == resolved(circ@, outcomes@),
        r.next_meas_id == circ.next_meas_id,
{
    let mut instructions: Vec<PauliProductOperation> = Vec::new();
    let ghost ops = circ@;
    proof {
        assert(ops.take(0) =~= Seq::empty());
        assert(product_ops(instructions@) =~= Seq::empty());
    }
    for i in 0..circ.instructions.len()
        invariant
            ops == circ@,
            product_ops(instructions@) == resolved(ops.take(i as int), outcomes@),
    {
        proof {
            assert(ops.take(i + 1).drop_last() =~= ops.take(i as int));
            assert(ops.take(i + 1).last() == circ.instructions@[i as int]@);
        }
        match &circ.instructions[i] {
            PauliProductOperation::ConditionalRotation { axis, angle, condition } => {
                let ids = &condition.0;
                let mut all = true;
                for j in 0..ids.len()
                    invariant
                        all == condition_holds(ids@.take(j as int), outcomes@),
                {
                    let is_one = match outcomes.get(&ids[j]) {
                        Some(b) => *b,
                        None => false,
                    };
                    proof {
                        let t = ids@.take(j + 1);
                        assert(t[j as int] == ids@[j as int]);
                        assert(forall|k: int| 0 <= k < j ==> t[k] == ids@.take(j as int)[k]);
                        if condition_holds(t, outcomes@) {
                            assert forall|k: int| 0 <= k < j implies outcomes@.dom().contains(
                                #[trigger] ids@.take(j as int)[k],
                            ) && outcomes@[ids@.take(j as int)[k]] by {
                                assert(t[k] == ids@.take(j as int)[k]);
                            }
                        }
                        if all && is_one {
                            assert forall|k: int| 0 <= k < t.len() implies outcomes@.dom().contains(
                                #[trigger] t[k],
                            ) && outcomes@[t[k]] by {
                                if k < j {
                                    assert(t[k] == ids@.take(j as int)[k]);
                                }
                            }
                        }
                    }
                    if !is_one {
                        all = false;
                    }
                }
                assert(ids@.take(ids@.len() as int) =~= ids@);
                if all {
                    let op = PauliProductOperation::Rotation { axis: axis.clone(), angle: *angle };
                    proof {
                        lemma_product_ops_push(instructions@, op);
                    }
                    instructions.push(op);
                }
            },
            other => {
                let op = other.clone();
                proof {
                    lemma_product_ops_push(instructions@, op);
                }
                instructions.push(op);
            },
        }
    }
    assert(ops.take(ops.len() as int) =~= ops);
    PauliProductCircuit { instructions, next_meas_id: circ.next_meas_id }
}

/// `rand::random` draws a bit. Nothing is promised of which bit comes out.
#[verifier::external_body]
fn random_bit() -> (b: bool) {
    rand::random::<bool>()
}

/// Resolve the conditional rotations for outcomes drawn at random, one for each
/// measurement that some condition waits for.
pub fn resolve_corrections(circ: &PauliProductCircuit) -> (r: PauliProductCircuit)
    ensures
        exists|outcomes: Map<MeasId, bool>|
            (forall|id: MeasId| #[trigger] outcomes.dom().contains(id) <==> awaited(circ@, id))
                && r@ == #[trigger] resolved(circ@, outcomes),
        r.next_meas_id == circ.next_meas_id,
{
    let mut outcomes: KeyedMap<MeasId, bool> = KeyedMap::new();
    let ghost ops = circ@;
    for i in 0..circ.instructions.len()
        invariant
            ops == circ@,
            forall|id: MeasId| #[trigger]
                outcomes@.dom().contains(id) <==> awaited(ops.take(i as int), id),
    {
        let ghost known = outcomes@;
        proof {
            assert(ops.take(i + 1).last() == circ.instructions@[i as int]@);
            assert(ops.take(i + 1) =~= ops.take(i as int).push(ops[i as int]));
            assert forall|id: MeasId| #[trigger] awaited(ops.take(i + 1), id) <==> (awaited(
                ops.take(i as int),
                id,
            ) || (ops[i as int] matches ProductOp::ConditionalRotation { condition, .. }
                && condition.contains(id))) by {
                lemma_awaited_push(ops.take(i as int), ops[i as int], id);
            }
        }
        if let PauliProductOperation::ConditionalRotation { condition, .. } = &circ.instructions[i] {
            let ids = &condition.0;
            for j in 0..ids.len()
                invariant
                    forall|id: MeasId| #[trigger]
                        outcomes@.dom().contains(id) <==> (known.dom().contains(id) || ids@.take(
                            j as int,
                        ).contains(id)),
            {
                if !outcomes.contains_key(&ids[j]) {
                    outcomes.insert(ids[j], random_bit());
                }
                proof {
                    lemma_take_contains(ids@, j as int);
                }
            }
            assert(ids@.take(ids@.len() as int) =~= ids@);
        }
    }
    assert(ops.take(ops.len() as int) =~= ops);
    resolve_corrections_with(circ, &outcomes)
}

proof fn lemma_awaited_push(ops: Seq<ProductOp>, op: ProductOp, id: MeasId)
    ensures
        awaited(ops.push(op), id) <==> (awaited(ops, id) || (
        op matches ProductOp::ConditionalRotation { condition, .. } && condition.contains(id))),
{
    let after = ops.push(op);
    if awaited(ops, id) {
        let i = choose|i: int|
            0 <= i < ops.len() && ((#[trigger] ops[i]) matches ProductOp::ConditionalRotation {
                condition,
                ..
            } && condition.contains(id));
        assert(after[i] == ops[i]);
    }
    assert(after[ops.len() as int] == op);
    if awaited(after, id) {
        let i = choose|i: int|
            0 <= i < after.len() && ((#[trigger] after[i]) matches ProductOp::ConditionalRotation {
                condition,
                ..
            } && condition.contains(id));
        if i < ops.len() {
            assert(ops[i] == after[i]);
        }
    }
}

// ---------------------------------------------------------------------------
// The whole pipeline
// ---------------------------------------------------------------------------
/// `subs` is a greedy partition of the gates.
pub open spec fn is_greedy(gates: Seq<Gate<Qubit>>, max_size: int, subs: Seq<Circuit>) -> bool {
    exists|blocks: Seq<Seq<int>>|
        #[trigger] greedy_partition(gates, max_size, blocks) && blocks.len() == subs.len() && (
        forall|b: int|
            0 <= b < blocks.len() ==> subcircuit_of(gates, blocks[b], #[trigger] subs[b]))
}

/// What the pipeline makes of a partition: `pbc` before and `out` after the
/// corrections are resolved and the Cliffords absorbed.
pub open spec fn compiled(
    subs: Seq<Circuit>,
    max_size: int,
    simulate_corrections: bool,
    skip_redundant: bool,
    pbc: Seq<ProductOp>,
    out: Seq<ProductOp>,
) -> bool {
    &&& pbc == program_ops(
        load_store_steps(subs, max_size, skip_redundant, subs.len() as int),
        simulate_corrections,
    )
    &&& if simulate_corrections {
        exists|outcomes: Map<MeasId, bool>|
            (forall|id: MeasId| #[trigger] outcomes.dom().contains(id) <==> awaited(pbc, id))
                && out == absorbed(#[trigger] resolved(pbc, outcomes))
    } else {
        out == absorbed(pbc)
    }
}

/// The number of loads and stores.
pub open spec fn move_count(ops: Seq<LoadStoreOp>) -> nat
    decreases ops.len(),
{
    if ops.len() == 0 {
        0
    } else {
        move_count(ops.drop_last()) + if ops.last() is Gate {
            0nat
        } else {
            1nat
        }
    }
}

/// Count the loads and stores of a program.
pub fn count_moves(circ: &LoadStoreCircuit) -> (n: usize)
    ensures
        n == move_count(circ.ops@),
{
    let mut n: usize = 0;
    assert(circ.ops@.take(0) =~= Seq::empty());
    for i in 0..circ.ops.len()
        invariant
            n <= i,
            n == move_count(circ.ops@.take(i as int)),
    {
        assert(circ.ops@.take(i + 1).drop_last() =~= circ.ops@.take(i as int));
        match circ.ops[i] {
            LoadStoreOp::Load(_, _) => {
                n = n + 1;
            },
            LoadStoreOp::Store(_, _) => {
                n = n + 1;
            },
            LoadStoreOp::Gate(_) => {},
        }
    }
    assert(circ.ops@.take(circ.ops@.len() as int) =~= circ.ops@);
    n
}

/// Every gate of the circuit names distinct qubits, no more than `max_size`.
pub open spec fn gates_fit(circ: Circuit, max_size: int) -> bool {
    &&& operands_distinct(circ.gates@)
    &&& forall|i: int|
        0 <= i < circ.gates@.len() ==> (#[trigger] circ.gates@[i]).operands().len() <= max_size
}

proof fn lemma_wf_covers(sub: Circuit)
    requires
        sub.wf(),
    ensures
        covers_gates(sub),
{
    assert forall|g: int, k: int|
        0 <= g < sub.gates@.len() && 0 <= k
            < sub.gates@[g].operands().len() implies sub.qubits@.contains(
        #[trigger] sub.gates@[g].operands()[k],
    ) by {
        assert(sub.gates@[g].operands().contains(sub.gates@[g].operands()[k]));
        assert(acts_on(sub.gates@, sub.gates@[g].operands()[k]));
    }
}

proof fn lemma_greedy_totals(
    gates: Seq<Gate<Qubit>>,
    max_size: int,
    blocks: Seq<Seq<int>>,
    subs: Seq<Circuit>,
    b: int,
)
    requires
        operands_distinct(gates),
        greedy_partition(gates, max_size, blocks),
        blocks.len() == subs.len(),
        forall|b: int| 0 <= b < blocks.len() ==> subcircuit_of(gates, blocks[b], #[trigger] subs[b]),
        0 <= b <= blocks.len(),
    ensures
        total_gates(subs, b) == execution_order(blocks.take(b)).len(),
        total_qubits(subs, b) <= 3 * total_gates(subs, b),
    decreases b,
{
    if b > 0 {
        lemma_greedy_totals(gates, max_size, blocks, subs, b - 1);
        assert(blocks.take(b).drop_last() =~= blocks.take(b - 1));
        let picks = blocks[b - 1];
        assert(subcircuit_of(gates, picks, subs[b - 1]));
        assert(crate::partition::greedy_block(
            gates,
            crate::partition::done_by(blocks.take(b - 1)),
            max_size,
            blocks[b - 1],
        ));
        assert forall|k: int| 0 <= k < picks.len() implies 0 <= #[trigger] picks[k]
            < gates.len() by {
            assert(crate::partition::greedy_choice(
                gates,
                crate::partition::done_by(blocks.take(b - 1)).union(picks.take(k).to_set()),
                crate::partition::active_set(gates, picks.take(k)),
                max_size,
                picks[k],
            ));
        }
        lemma_active_set_len(gates, picks);
        crate::partition::lemma_increasing_len(subs[b - 1].qubits@);
    } else {
        assert(blocks.take(0) =~= Seq::empty());
    }
}

/// A greedy partition can be surrounded by loads and stores.
proof fn lemma_greedy_usable(circ: Circuit, max_size: int, subs: Seq<Circuit>)
    requires
        gates_fit(circ, max_size),
        is_greedy(circ.gates@, max_size, subs),
    ensures
        all_within(subs, max_size),
        forall|i: int| 0 <= i < subs.len() ==> covers_gates(#[trigger] subs[i]),
        total_gates(subs, subs.len() as int) == circ.gates@.len(),
        total_qubits(subs, subs.len() as int) <= 3 * circ.gates@.len(),
{
    let gates = circ.gates@;
    let blocks = choose|blocks: Seq<Seq<int>>|
        #[trigger] greedy_partition(gates, max_size, blocks) && blocks.len() == subs.len() && (
        forall|b: int|
            0 <= b < blocks.len() ==> subcircuit_of(gates, blocks[b], #[trigger] subs[b]));
    assert forall|i: int| 0 <= i < subs.len() implies (#[trigger] subs[i]).wf()
        && subs[i].qubits@.len() <= max_size && covers_gates(subs[i]) by {
        lemma_subcircuit_wf(gates, blocks[i], subs[i]);
        law_greedy_respects_capacity(gates, max_size, blocks, i);
        crate::partition::lemma_increasing_len(subs[i].qubits@);
        lemma_wf_covers(subs[i]);
    }
    lemma_greedy_totals(gates, max_size, blocks, subs, blocks.len() as int);
    assert(blocks.take(blocks.len() as int) =~= blocks);
    law_greedy_runs_each_gate_once(gates, max_size, blocks);
}

/// Compile a partition; also hands back the load/store program and the
/// Pauli-product circuit before the Cliffords are absorbed.
pub fn compile_subcircuits(
    subcircuits: &Vec<Circuit>,
    max_subcircuit_size: usize,
    simulate_corrections: bool,
    skip_redundant: bool,
) -> (r: (LoadStoreCircuit, PauliProductCircuit, PauliProductCircuit))
    requires
        all_within(subcircuits@, max_subcircuit_size as int),
        4 * total_qubits(subcircuits@, subcircuits@.len() as int) + 6 * total_gates(
            subcircuits@,
            subcircuits@.len() as int,
        ) <= u32::MAX || meas_count(
            load_store_steps(
                subcircuits@,
                max_subcircuit_size as int,
                skip_redundant,
                subcircuits@.len() as int,
            ),
        ) <= u32::MAX,
    ensures
        r.0.ops@ == load_store_steps(
            subcircuits@,
            max_subcircuit_size as int,
            skip_redundant,
            subcircuits@.len() as int,
        ),
        compiled(
            subcircuits@,
            max_subcircuit_size as int,
            simulate_corrections,
            skip_redundant,
            r.1@,
            r.2@,
        ),
        r.1.next_meas_id == meas_count(r.0.ops@),
        r.2.next_meas_id == meas_count(r.0.ops@),
{
    proof {
        assert forall|i: int| 0 <= i < subcircuits@.len() implies covers_gates(
            #[trigger] subcircuits@[i],
        ) by {
            lemma_wf_covers(subcircuits@[i]);
        }
        law_fitting_loads_fit(subcircuits@, max_subcircuit_size as int);
    }
    let load_store = to_load_store_circuit(subcircuits, max_subcircuit_size, skip_redundant);
    let pbc = to_pauli_product_circuit(&load_store, simulate_corrections);
    if simulate_corrections {
        let out = absorb_cliffords(&resolve_corrections(&pbc));
        (load_store, pbc, out)
    } else {
        let out = absorb_cliffords(&pbc);
        (load_store, pbc, out)
    }
}

/// The measurements of the compiled circuit can be numbered.
pub open spec fn ids_fit(circ: Circuit, max_size: int, skip_redundant: bool) -> bool {
    forall|subs: Seq<Circuit>| #[trigger]
        is_greedy(circ.gates@, max_size, subs) ==> meas_count(
            load_store_steps(subs, max_size, skip_redundant, subs.len() as int),
        ) <= u32::MAX
}

/// Compile a circuit for a processor of `max_subcircuit_size` qubits, its gates
/// partitioned greedily. Hands back the load/store program, the Pauli-product
/// circuit before the Cliffords are absorbed, and the final one.
pub fn compile_steps(
    circ: &Circuit,
    max_subcircuit_size: usize,
    simulate_corrections: bool,
    skip_redundant: bool,
) -> (r: (LoadStoreCircuit, PauliProductCircuit, PauliProductCircuit))
    requires
        gates_fit(*circ, max_subcircuit_size as int),
        18 * circ.gates@.len() <= u32::MAX || ids_fit(
            *circ,
            max_subcircuit_size as int,
            skip_redundant,
        ),
    ensures
        exists|subs: Seq<Circuit>|
            is_greedy(circ.gates@, max_subcircuit_size as int, subs) && r.0.ops@
                == #[trigger] load_store_steps(
                subs,
                max_subcircuit_size as int,
                skip_redundant,
                subs.len() as int,
            ) && compiled(
                subs,
                max_subcircuit_size as int,
                simulate_corrections,
                skip_redundant,
                r.1@,
                r.2@,
            ),
        r.1.next_meas_id == meas_count(r.0.ops@),
        r.2.next_meas_id == meas_count(r.0.ops@),
{
    let subcircuits = get_processor_subcircuits(circ, max_subcircuit_size);
    proof {
        assert(is_greedy(circ.gates@, max_subcircuit_size as int, subcircuits@));
        lemma_greedy_usable(*circ, max_subcircuit_size as int, subcircuits@);
    }
    compile_subcircuits(&subcircuits, max_subcircuit_size, simulate_corrections, skip_redundant)
}

/// Compile a circuit for a processor of `max_subcircuit_size` qubits, its gates
/// partitioned greedily.
pub fn compile(
    circ: &Circuit,
    max_subcircuit_size: usize,
    simulate_corrections: bool,
    skip_redundant: bool,
) -> (r: PauliProductCircuit)
    requires
        gates_fit(*circ, max_subcircuit_size as int),
        18 * circ.gates@.len() <= u32::MAX || ids_fit(
            *circ,
            max_subcircuit_size as int,
            skip_redundant,
        ),
    ensures
        exists|subs: Seq<Circuit>, pbc: Seq<ProductOp>|
            is_greedy(circ.gates@, max_subcircuit_size as int, subs) && #[trigger] compiled(
                subs,
                max_subcircuit_size as int,
                simulate_corrections,
                skip_redundant,
                pbc,
                r@,
            ) && r.next_meas_id == meas_count(
                load_store_steps(
                    subs,
                    max_subcircuit_size as int,
                    skip_redundant,
                    subs.len() as int,
                ),
            ),
{
    let (_, _, out) = compile_steps(
        circ,
        max_subcircuit_size,
        simulate_corrections,
        skip_redundant,
    );
    out
}

/// Partition a circuit with the help of a solver: look for a partition with no
/// more subcircuits, and no more loads and stores, than the greedy one, and
/// fall back on the greedy one where none is found.
#[verifier::spinoff_prover]
pub fn partition_with_solver<
    F: Fn(&PartitionProblem, &Vec<PropLit>) -> SolveReply,
    G: Fn(usize, usize) -> bool,
>(circ: &Circuit, max_subcircuit_size: usize, solve: &F, may_start: &G) -> (subs: Vec<Circuit>)
    requires
        gates_fit(*circ, max_subcircuit_size as int),
        honest(*solve),
        circ.gates@.len() + 3 <= usize::MAX,
        forall|a: usize, b: usize| call_requires(*may_start, (a, b)),
    ensures
        all_within(subs@, max_subcircuit_size as int),
        exists|greedy: Seq<Circuit>| #[trigger]
            is_greedy(circ.gates@, max_subcircuit_size as int, greedy) && solver_outcome(
                *circ,
                max_subcircuit_size as int,
                greedy,
                *solve,
                *may_start,
                subs@,
            ),
{
    let greedy = get_processor_subcircuits(circ, max_subcircuit_size);
    proof {
        assert(is_greedy(circ.gates@, max_subcircuit_size as int, greedy@));
        lemma_greedy_usable(*circ, max_subcircuit_size as int, greedy@);
    }
    let gate_count: usize = circ.gates.len();
    let at_least_one: usize = if gate_count > 1 {
        gate_count
    } else {
        1
    };
    let max_k: usize = if greedy.len() < at_least_one {
        greedy.len()
    } else {
        at_least_one
    };
    proof {
        law_fitting_loads_fit(greedy@, max_subcircuit_size as int);
    }
    let greedy_ls = to_load_store_circuit(&greedy, max_subcircuit_size, true);
    let initial_best: usize = count_moves(&greedy_ls);
    match slice_and_optimize(
        circ,
        max_subcircuit_size,
        max_k,
        3,
        Some(initial_best),
        solve,
        may_start,
    ) {
        Some(subcircuits) => {
            assert(found_by_solver(
                *circ,
                max_subcircuit_size as int,
                max_k as int,
                initial_best,
                *solve,
                *may_start,
                subcircuits@,
            ));
            assert(solver_outcome(
                *circ,
                max_subcircuit_size as int,
                greedy@,
                *solve,
                *may_start,
                subcircuits@,
            ));
            subcircuits
        },
        None => {
            assert(solver_outcome(
                *circ,
                max_subcircuit_size as int,
                greedy@,
                *solve,
                *may_start,
                greedy@,
            ));
            greedy
        },
    }
}

/// How many subcircuits the solver may use per slice: as many as the greedy
/// partition has, and no more than there are gates.
pub open spec fn solver_slots(greedy_len: int, n_gates: int) -> int {
    let at_least_one = if n_gates > 1 {
        n_gates
    } else {
        1
    };
    if greedy_len < at_least_one {
        greedy_len
    } else {
        at_least_one
    }
}

/// `subs` is what the solver found when asked to do as well as the greedy
/// partition, or the greedy partition where a slice was refused.
pub open spec fn solver_outcome<
    F: Fn(&PartitionProblem, &Vec<PropLit>) -> SolveReply,
    G: Fn(usize, usize) -> bool,
>(
    circ: Circuit,
    max_size: int,
    greedy: Seq<Circuit>,
    solve: F,
    may_start: G,
    subs: Seq<Circuit>,
) -> bool {
    let max_k = solver_slots(greedy.len() as int, circ.gates@.len() as int);
    let initial = move_count(
        load_store_steps(greedy, max_size, true, greedy.len() as int),
    ) as usize;
    ||| found_by_solver(circ, max_size, max_k, initial, solve, may_start, subs)
    ||| subs == greedy && circ.gates@.len() > 0 && slices_refused(
        circ,
        max_size,
        max_k as usize,
        Some(initial),
        solve,
        may_start,
        slice_size(circ.gates@.len() as int, 3),
    )
}

/// `subs` is what the solver found, slice by slice, when asked for at most
/// `max_k` subcircuits per slice and at most `initial` loads and stores.
pub open spec fn found_by_solver<
    F: Fn(&PartitionProblem, &Vec<PropLit>) -> SolveReply,
    G: Fn(usize, usize) -> bool,
>(
    circ: Circuit,
    max_size: int,
    max_k: int,
    initial: usize,
    solve: F,
    may_start: G,
    subs: Seq<Circuit>,
) -> bool {
    if circ.gates@.len() == 0 {
        subs.len() == 0
    } else {
        exists|pieces: Seq<Seq<Circuit>>, mems: Seq<Map<Qubit, bool>>| #[trigger]
            slices_partitioned(
                circ,
                max_size,
                max_k,
                Some(initial),
                solve,
                slice_size(circ.gates@.len() as int, 3),
                pieces,
                mems,
            ) && slices_started(
                may_start,
                circ.gates@.len() as int,
                slice_size(circ.gates@.len() as int, 3),
                pieces.len() as int,
            ) && pieces.len() * slice_size(circ.gates@.len() as int, 3) >= circ.gates@.len() && subs
                == pieces.flatten()
    }
}

} // verus!
