//! Lowering Pauli-product measurements to sequences of deformed stabilizer checks.

use vstd::prelude::*;
use vstd::string::*;

use crate::graph::AncillaGraph;
use crate::graph_to_checks::{
    graph_to_checks, operator_edge_basis, try_correction_support, CorrectionSupport,
};
#[allow(unused_imports)]
use crate::graph_to_checks::{
    axis_views, check_views, correctable, correction_of, edge_basis, merged_checks,
};
use crate::matrix::{get_stabilizers, CSSCodeBlock};
#[allow(unused_imports)]
use crate::matrix::{checks_of, string_views, width_of};
use crate::pbc::{
    lift_code_to_merged, pauli_string_mult, ArchitectureQubit, BlockLabel, CodePauli, CodeQubit,
    GraphPauli, MergedCodeQubit, Pauli, PauliAxis, PauliProductCircuit, PauliProductOperation,
    PauliString, PhysicalPauliString, PhysicalQubit, Sign,
};
#[allow(unused_imports)]
use crate::pbc::{
    law_sort_sorted_sites, lifted_sites, product_ops, sites_sorted, sort_sites, string_mul,
    ProductOp, SignedPauli,
};
use crate::surgery::{
    bridge_surgery_graphs, surgery_graph_cached, ShapeCache, Site, SurgeryGraph,
    SurgeryGraphConfig,
};
#[allow(unused_imports)]
use crate::surgery::{
    bridged, built_for_shape, finished, same_graph, labeled, law_empty_cache_is_valid, path_graph, shape_of,
    strings, too_large,
};
#[allow(unused_imports)]
use crate::cellulation::Cellulation;
#[allow(unused_imports)]
use crate::keyed::{key_lt, OrderedKey};
use crate::text::Text;

verus! {

// ---------------------------------------------------------------------------
// Blocks
// ---------------------------------------------------------------------------
/// One of the architecture's code blocks.
#[derive(Clone, Copy, PartialEq, Eq, PartialOrd, Ord, Hash, Debug, Structural)]
pub enum BlockKind {
    Memory,
    Processor,
    Magic,
}

impl BlockLabel for BlockKind {
    open spec fn rank(self) -> nat {
        match self {
            BlockKind::Memory => 0,
            BlockKind::Processor => 1,
            BlockKind::Magic => 2,
        }
    }

    proof fn rank_injective(a: Self, b: Self) {
    }

    fn rank_of(&self) -> (r: usize) {
        match self {
            BlockKind::Memory => 0,
            BlockKind::Processor => 1,
            BlockKind::Magic => 2,
        }
    }
}

impl Text for BlockKind {
    open spec fn text(&self) -> Seq<char> {
        match *self {
            BlockKind::Memory => "Mem"@,
            BlockKind::Processor => "Proc"@,
            BlockKind::Magic => "Magic"@,
        }
    }

    fn write_text(&self, out: &mut String) {
        match self {
            BlockKind::Memory => out.append("Mem"),
            BlockKind::Processor => out.append("Proc"),
            BlockKind::Magic => out.append("Magic"),
        }
    }
}

/// What the lowering reads of a block: its logical operators, the X ones before the Z
/// ones, and its stabilizer generators.
pub struct BlockData {
    pub logical_basis: Vec<PhysicalPauliString>,
    pub stabilizers: Vec<PhysicalPauliString>,
}

impl BlockData {
    /// The data of a code with this logical basis.
    pub fn new(block: &CSSCodeBlock, logical_basis: Vec<PhysicalPauliString>) -> (r: Self)
        ensures
            r.logical_basis == logical_basis,
            string_views(r.stabilizers@) == checks_of(block.hx, Pauli::X) + checks_of(
                block.hz,
                Pauli::Z,
            ),
    {
        BlockData { logical_basis, stabilizers: get_stabilizers(block) }
    }
}

/// Whether the weights of a block's logical basis are to be reduced: its cost grows
/// steeply with the number of qubits.
pub fn reduces_basis(block: &CSSCodeBlock, reduce_max_qubits: usize) -> (r: bool)
    ensures
        r == (width_of(block.hx) <= reduce_max_qubits),
{
    block.hx.ncols() <= reduce_max_qubits
}

/// What is derived from an architecture's three code blocks.
pub struct CodeData {
    pub memory: BlockData,
    pub processor: BlockData,
    pub magic: BlockData,
}

/// Both strings, X before Z, of each logical qubit multiplied.
pub open spec fn logical_ys(ops: Seq<Seq<Site>>) -> Seq<SignedPauli<PhysicalQubit>> {
    let k = ops.len() / 2;
    Seq::new(k, |i: int| string_mul(ops[i], ops[k + i]))
}

/// Strings without a phase.
pub open spec fn plain(ops: Seq<Seq<Site>>) -> Seq<SignedPauli<PhysicalQubit>> {
    Seq::new(ops.len(), |i: int| SignedPauli { sign: Sign::One, sites: ops[i] })
}

/// The logical operators of one Pauli type.
pub open spec fn basis_of(ops: Seq<Seq<Site>>, basis: Pauli) -> Seq<SignedPauli<PhysicalQubit>> {
    let k = (ops.len() / 2) as int;
    match basis {
        Pauli::X => plain(ops.take(k)),
        Pauli::Z => plain(ops.skip(k)),
        Pauli::Y => logical_ys(ops),
        Pauli::I => Seq::empty(),
    }
}

/// A string that has only this Pauli, on one qubit at least.
pub open spec fn pure_type(sites: Seq<Site>, basis: Pauli) -> bool {
    sites.len() > 0 && forall|i: int| 0 <= i < sites.len() ==> (#[trigger] sites[i]).1 == basis
}

/// The strings of one pure type, in order.
pub open spec fn pure_strings(stabs: Seq<Seq<Site>>, basis: Pauli) -> Seq<
    SignedPauli<PhysicalQubit>,
>
    decreases stabs.len(),
{
    if stabs.len() == 0 {
        Seq::empty()
    } else {
        let rest = pure_strings(stabs.drop_last(), basis);
        if pure_type(stabs.last(), basis) {
            rest.push(SignedPauli { sign: Sign::One, sites: stabs.last() })
        } else {
            rest
        }
    }
}

/// The contents of physical axes.
pub open spec fn physical_views(v: Seq<PauliAxis<PhysicalQubit>>) -> Seq<
    SignedPauli<PhysicalQubit>,
> {
    Seq::new(v.len(), |i: int| v[i]@)
}

impl CodeData {
    /// The data of three codes with these logical bases.
    pub fn from_blocks(
        memory: &CSSCodeBlock,
        processor: &CSSCodeBlock,
        magic: &CSSCodeBlock,
        memory_basis: Vec<PhysicalPauliString>,
        processor_basis: Vec<PhysicalPauliString>,
        magic_basis: Vec<PhysicalPauliString>,
    ) -> (r: Self)
        ensures
            r.memory.logical_basis == memory_basis,
            r.processor.logical_basis == processor_basis,
            r.magic.logical_basis == magic_basis,
            string_views(r.memory.stabilizers@) == checks_of(memory.hx, Pauli::X) + checks_of(
                memory.hz,
                Pauli::Z,
            ),
            string_views(r.processor.stabilizers@) == checks_of(processor.hx, Pauli::X)
                + checks_of(processor.hz, Pauli::Z),
            string_views(r.magic.stabilizers@) == checks_of(magic.hx, Pauli::X) + checks_of(
                magic.hz,
                Pauli::Z,
            ),
    {
        CodeData {
            memory: BlockData::new(memory, memory_basis),
            processor: BlockData::new(processor, processor_basis),
            magic: BlockData::new(magic, magic_basis),
        }
    }

    /// The number of logical qubits of the memory, the processor and the magic block.
    pub fn logical_qubit_counts(&self) -> (r: (usize, usize, usize))
        ensures
            r.0 == self.memory.logical_basis@.len() / 2,
            r.1 == self.processor.logical_basis@.len() / 2,
            r.2 == self.magic.logical_basis@.len() / 2,
    {
        (
            self.memory.logical_basis.len() / 2,
            self.processor.logical_basis.len() / 2,
            self.magic.logical_basis.len() / 2,
        )
    }

    /// The logical operators of the memory block of one Pauli type; the logical Y of a
    /// qubit is the product of its X and its Z.
    pub fn memory_basis(&self, basis: Pauli) -> (r: Vec<PauliAxis<PhysicalQubit>>)
        ensures
            physical_views(r@) == basis_of(string_views(self.memory.logical_basis@), basis),
    {
        let ops = &self.memory.logical_basis;
        let ghost views = string_views(ops@);
        let ghost goal = basis_of(views, basis);
        let len: usize = ops.len();
        let half: usize = len / 2;
        let mut r: Vec<PauliAxis<PhysicalQubit>> = Vec::new();
        if basis == Pauli::I {
            assert(physical_views(r@) =~= goal);
            return r;
        }
        let (start, end) = if basis == Pauli::Z {
            (half, len)
        } else {
            (0usize, half)
        };
        assert(physical_views(r@) =~= goal.take(0));
        let mut i: usize = start;
        while i < end
            invariant
                start <= i <= end <= len,
                len == ops@.len(),
                half == len / 2,
                views == string_views(ops@),
                goal == basis_of(views, basis),
                goal.len() == end - start,
                basis is Z ==> start == half,
                !(basis is Z) ==> start == 0,
                basis is Y || basis is X ==> end == half,
                !(basis is I),
                physical_views(r@) == goal.take(i - start),
            decreases end - i,
        {
            let axis = if basis == Pauli::Y {
                pauli_string_mult(&ops[i], &ops[half + i])
            } else {
                PauliAxis { sign: Sign::One, pauli_string: ops[i].clone() }
            };
            proof {
                assert(goal[i - start] == axis@);
                assert(physical_views(r@.push(axis)) =~= physical_views(r@).push(axis@));
                assert(goal.take(i - start + 1) =~= goal.take(i - start).push(axis@));
            }
            r.push(axis);
            i = i + 1;
        }
        assert(goal.take(goal.len() as int) =~= goal);
        r
    }

    /// The stabilizers of the memory block that have only the Pauli `basis`: those that
    /// a transversal readout in that basis gives back.
    pub fn memory_stabilizers(&self, basis: Pauli) -> (r: Vec<PauliAxis<PhysicalQubit>>)
        ensures
            physical_views(r@) == pure_strings(string_views(self.memory.stabilizers@), basis),
    {
        let stabs = &self.memory.stabilizers;
        let ghost views = string_views(stabs@);
        let mut r: Vec<PauliAxis<PhysicalQubit>> = Vec::new();
        assert(views.take(0) =~= Seq::empty());
        assert(physical_views(r@) =~= pure_strings(views.take(0), basis));
        for i in 0..stabs.len()
            invariant
                views == string_views(stabs@),
                physical_views(r@) == pure_strings(views.take(i as int), basis),
        {
            proof {
                assert(views.take(i + 1).drop_last() =~= views.take(i as int));
                assert(views.take(i + 1).last() == stabs@[i as int]@);
            }
            if has_pure_type(stabs[i].sites(), basis) {
                let axis = PauliAxis { sign: Sign::One, pauli_string: stabs[i].clone() };
                assert(physical_views(r@.push(axis)) =~= physical_views(r@).push(axis@));
                r.push(axis);
            }
        }
        assert(views.take(views.len() as int) =~= views);
        r
    }
}

fn has_pure_type(sites: &Vec<Site>, basis: Pauli) -> (r: bool)
    ensures
        r == pure_type(sites@, basis),
{
    if sites.len() == 0 {
        return false;
    }
    let mut i: usize = 0;
    while i < sites.len()
        invariant
            i <= sites@.len(),
            forall|k: int| 0 <= k < i ==> (#[trigger] sites@[k]).1 == basis,
        decreases sites@.len() - i,
    {
        if sites[i].1 != basis {
            assert(sites@[i as int].1 != basis);
            return false;
        }
        i = i + 1;
    }
    true
}

// ---------------------------------------------------------------------------
// Supports
// ---------------------------------------------------------------------------
/// The physical support of a logical measurement on the three blocks.
#[derive(Debug, PartialEq, Eq, Hash)]
pub struct PhysicalSupport {
    pub sign: Sign,
    pub memory: PhysicalPauliString,
    pub processor: PhysicalPauliString,
    pub magic: PhysicalPauliString,
}

/// The content of a [`PhysicalSupport`].
#[verifier::ext_equal]
pub struct SupportModel {
    pub sign: Sign,
    pub memory: Seq<Site>,
    pub processor: Seq<Site>,
    pub magic: Seq<Site>,
}

impl View for PhysicalSupport {
    type V = SupportModel;

    open spec fn view(&self) -> SupportModel {
        SupportModel {
            sign: self.sign,
            memory: self.memory@,
            processor: self.processor@,
            magic: self.magic@,
        }
    }
}

impl SupportModel {
    /// How many blocks the support touches.
    pub open spec fn blocks(self) -> nat {
        (if self.memory.len() > 0 {
            1nat
        } else {
            0
        }) + (if self.processor.len() > 0 {
            1nat
        } else {
            0
        }) + (if self.magic.len() > 0 {
            1nat
        } else {
            0
        })
    }
}

/// The operator that the Pauli `p` on logical qubit `q` stands for. `Y` is `iXZ`.
pub open spec fn image_of(ops: Seq<Seq<Site>>, q: usize, p: Pauli) -> SignedPauli<PhysicalQubit> {
    let k = ops.len() / 2;
    match p {
        Pauli::I => SignedPauli { sign: Sign::One, sites: Seq::empty() },
        Pauli::X => SignedPauli { sign: Sign::One, sites: ops[q as int] },
        Pauli::Z => SignedPauli { sign: Sign::One, sites: ops[q + k] },
        Pauli::Y => string_mul(ops[q as int], ops[q + k]).scaled(Sign::J),
    }
}

/// The logical operators that the Pauli needs are there.
pub open spec fn has_image(ops: nat, q: usize, p: Pauli) -> bool {
    match p {
        Pauli::I => true,
        Pauli::X => q < ops,
        Pauli::Z => q + ops / 2 < ops,
        Pauli::Y => q < ops && q + ops / 2 < ops,
    }
}

/// The operator that a Pauli on a logical qubit stands for.
pub fn logical_image(ops: &Vec<PhysicalPauliString>, q: usize, pauli: Pauli) -> (r: PauliAxis<
    PhysicalQubit,
>)
    requires
        has_image(ops@.len(), q, pauli),
    ensures
        r@ == image_of(string_views(ops@), q, pauli),
{
    let len: usize = ops.len();
    let k: usize = len / 2;
    match pauli {
        Pauli::I => {
            let none: Vec<Site> = Vec::new();
            PauliAxis { sign: Sign::One, pauli_string: PauliString::new(none) }
        },
        Pauli::X => PauliAxis { sign: Sign::One, pauli_string: ops[q].clone() },
        Pauli::Z => PauliAxis { sign: Sign::One, pauli_string: ops[q + k].clone() },
        Pauli::Y => {
            let xz = pauli_string_mult(&ops[q], &ops[q + k]);
            PauliAxis { sign: xz.sign * Sign::J, pauli_string: xz.pauli_string }
        },
    }
}

/// The logical operators of the three blocks.
pub struct BasesModel {
    pub memory: Seq<Seq<Site>>,
    pub processor: Seq<Seq<Site>>,
    pub magic: Seq<Seq<Site>>,
}

/// One more site of a logical operator multiplied into its support.
pub open spec fn site_applied(
    acc: SupportModel,
    bases: BasesModel,
    site: (ArchitectureQubit, Pauli),
) -> SupportModel {
    match site.0 {
        ArchitectureQubit::Memory(q) => {
            let image = image_of(bases.memory, q, site.1);
            let prod = string_mul(image.sites, acc.memory);
            SupportModel {
                sign: acc.sign.times(image.sign).times(prod.sign),
                memory: prod.sites,
                ..acc
            }
        },
        ArchitectureQubit::Processor(q) => {
            let image = image_of(bases.processor, q, site.1);
            let prod = string_mul(image.sites, acc.processor);
            SupportModel {
                sign: acc.sign.times(image.sign).times(prod.sign),
                processor: prod.sites,
                ..acc
            }
        },
        ArchitectureQubit::Magic(q) => {
            let image = image_of(bases.magic, q, site.1);
            let prod = string_mul(image.sites, acc.magic);
            SupportModel {
                sign: acc.sign.times(image.sign).times(prod.sign),
                magic: prod.sites,
                ..acc
            }
        },
    }
}

/// The support of a logical operator.
pub open spec fn support_of(sites: Seq<(ArchitectureQubit, Pauli)>, bases: BasesModel) -> SupportModel
    decreases sites.len(),
{
    if sites.len() == 0 {
        SupportModel {
            sign: Sign::One,
            memory: Seq::empty(),
            processor: Seq::empty(),
            magic: Seq::empty(),
        }
    } else {
        site_applied(support_of(sites.drop_last(), bases), bases, sites.last())
    }
}

/// Every site's logical operators are there.
pub open spec fn sites_have_images(
    sites: Seq<(ArchitectureQubit, Pauli)>,
    bases: BasesModel,
) -> bool {
    forall|i: int| 0 <= i < sites.len() ==> site_has_image(#[trigger] sites[i], bases)
}

pub open spec fn site_has_image(site: (ArchitectureQubit, Pauli), bases: BasesModel) -> bool {
    match site.0 {
        ArchitectureQubit::Memory(q) => has_image(bases.memory.len(), q, site.1),
        ArchitectureQubit::Processor(q) => has_image(bases.processor.len(), q, site.1),
        ArchitectureQubit::Magic(q) => has_image(bases.magic.len(), q, site.1),
    }
}

/// The logical operators of code data.
pub open spec fn bases_of(codes: CodeData) -> BasesModel {
    BasesModel {
        memory: string_views(codes.memory.logical_basis@),
        processor: string_views(codes.processor.logical_basis@),
        magic: string_views(codes.magic.logical_basis@),
    }
}

/// A measurement whose logical operators are there.
pub open spec fn lowers(op: ProductOp, bases: BasesModel) -> bool {
    op matches ProductOp::Measurement { axis, id } && sites_have_images(axis.sites, bases)
}

/// The support of what a measurement measures.
pub open spec fn measured_support(op: ProductOp, bases: BasesModel) -> SupportModel {
    match op {
        ProductOp::Measurement { axis, id } => support_of(axis.sites, bases),
        _ => support_of(Seq::empty(), bases),
    }
}

/// The support of a measurement.
pub fn operation_to_physical_support(op: &PauliProductOperation, codes: &CodeData) -> (r:
    PhysicalSupport)
    requires
        lowers(op@, bases_of(*codes)),
    ensures
        r@ == measured_support(op@, bases_of(*codes)),
{
    let ghost bases = bases_of(*codes);
    let mut sign = Sign::One;
    let mut memory: PhysicalPauliString = PauliString::new(Vec::new());
    let mut processor: PhysicalPauliString = PauliString::new(Vec::new());
    let mut magic: PhysicalPauliString = PauliString::new(Vec::new());
    if let PauliProductOperation::Measurement { axis, id } = op {
        let sites = axis.pauli_string.sites();
        assert(sites@.take(0) =~= Seq::empty());
        let ghost start = SupportModel {
            sign,
            memory: memory@,
            processor: processor@,
            magic: magic@,
        };
        assert(start =~= support_of(sites@.take(0), bases));
        for i in 0..sites.len()
            invariant
                bases == bases_of(*codes),
                sites_have_images(sites@, bases),
                (SupportModel { sign, memory: memory@, processor: processor@, magic: magic@ })
                    == support_of(sites@.take(i as int), bases),
        {
            let (qubit, pauli) = sites[i];
            proof {
                assert(site_has_image(sites@[i as int], bases));
                assert(sites@.take(i + 1).drop_last() =~= sites@.take(i as int));
            }
            match qubit {
                ArchitectureQubit::Memory(q) => {
                    let image = logical_image(&codes.memory.logical_basis, q, pauli);
                    let prod = pauli_string_mult(&image.pauli_string, &memory);
                    sign = sign * image.sign * prod.sign;
                    memory = prod.pauli_string;
                },
                ArchitectureQubit::Processor(q) => {
                    let image = logical_image(&codes.processor.logical_basis, q, pauli);
                    let prod = pauli_string_mult(&image.pauli_string, &processor);
                    sign = sign * image.sign * prod.sign;
                    processor = prod.pauli_string;
                },
                ArchitectureQubit::Magic(q) => {
                    let image = logical_image(&codes.magic.logical_basis, q, pauli);
                    let prod = pauli_string_mult(&image.pauli_string, &magic);
                    sign = sign * image.sign * prod.sign;
                    magic = prod.pauli_string;
                },
            }
        }
        assert(sites@.take(sites@.len() as int) =~= sites@);
    }
    PhysicalSupport { sign, memory, processor, magic }
}

/// Every operation of the circuit is a measurement whose logical operators are there.
pub open spec fn circuit_lowers(ops: Seq<ProductOp>, bases: BasesModel) -> bool {
    forall|i: int| 0 <= i < ops.len() ==> lowers(#[trigger] ops[i], bases)
}

fn image_exists(ops: usize, q: usize, p: Pauli) -> (r: bool)
    ensures
        r == has_image(ops as nat, q, p),
{
    let k: usize = ops / 2;
    match p {
        Pauli::I => true,
        Pauli::X => q < ops,
        Pauli::Z => q < ops - k,
        Pauli::Y => q < ops && q < ops - k,
    }
}

/// Whether every operation of the circuit is a measurement whose logical operators are
/// there.
pub fn can_lower_circuit(circuit: &PauliProductCircuit, codes: &CodeData) -> (r: bool)
    ensures
        r == circuit_lowers(product_ops(circuit.instructions@), bases_of(*codes)),
{
    let ghost bases = bases_of(*codes);
    let ghost ops = product_ops(circuit.instructions@);
    let (m, p, g) = (
        codes.memory.logical_basis.len(),
        codes.processor.logical_basis.len(),
        codes.magic.logical_basis.len(),
    );
    let mut i: usize = 0;
    while i < circuit.instructions.len()
        invariant
            i <= circuit.instructions@.len(),
            ops == product_ops(circuit.instructions@),
            bases == bases_of(*codes),
            m == bases.memory.len(),
            p == bases.processor.len(),
            g == bases.magic.len(),
            forall|k: int| 0 <= k < i ==> lowers(#[trigger] ops[k], bases),
        decreases circuit.instructions@.len() - i,
    {
        assert(ops[i as int] == circuit.instructions@[i as int]@);
        match &circuit.instructions[i] {
            PauliProductOperation::Measurement { axis, id } => {
                let sites = axis.pauli_string.sites();
                let mut k: usize = 0;
                while k < sites.len()
                    invariant
                        i < circuit.instructions@.len(),
                        k <= sites@.len(),
                        ops == product_ops(circuit.instructions@),
                        bases == bases_of(*codes),
                        m == bases.memory.len(),
                        p == bases.processor.len(),
                        g == bases.magic.len(),
                        ops[i as int] matches ProductOp::Measurement { axis, id } && axis.sites
                            == sites@,
                        forall|q: int|
                            0 <= q < k ==> site_has_image(#[trigger] sites@[q], bases),
                    decreases sites@.len() - k,
                {
                    let (qubit, pauli) = sites[k];
                    let ok = match qubit {
                        ArchitectureQubit::Memory(q) => image_exists(m, q, pauli),
                        ArchitectureQubit::Processor(q) => image_exists(p, q, pauli),
                        ArchitectureQubit::Magic(q) => image_exists(g, q, pauli),
                    };
                    if !ok {
                        assert(!site_has_image(sites@[k as int], bases));
                        assert(!lowers(ops[i as int], bases));
                        return false;
                    }
                    k = k + 1;
                }
            },
            _ => {
                assert(!lowers(ops[i as int], bases));
                return false;
            },
        }
        i = i + 1;
    }
    true
}

/// The supports of a circuit of measurements, in order.
pub fn pauli_product_circuit_to_physical_supports(
    circuit: &PauliProductCircuit,
    codes: &CodeData,
) -> (r: Vec<PhysicalSupport>)
    requires
        circuit_lowers(product_ops(circuit.instructions@), bases_of(*codes)),
    ensures
        r@.len() == circuit.instructions@.len(),
        forall|i: int|
            0 <= i < r@.len() ==> (#[trigger] r@[i])@ == measured_support(
                circuit.instructions@[i]@,
                bases_of(*codes),
            ),
{
    let ghost ops = product_ops(circuit.instructions@);
    let mut r: Vec<PhysicalSupport> = Vec::new();
    for i in 0..circuit.instructions.len()
        invariant
            ops == product_ops(circuit.instructions@),
            circuit_lowers(ops, bases_of(*codes)),
            r@.len() == i,
            forall|k: int|
                0 <= k < i ==> (#[trigger] r@[k])@ == measured_support(
                    circuit.instructions@[k]@,
                    bases_of(*codes),
                ),
    {
        assert(ops[i as int] == circuit.instructions@[i as int]@);
        let support = operation_to_physical_support(&circuit.instructions[i], codes);
        r.push(support);
    }
    r
}

// ---------------------------------------------------------------------------
// Lifting
// ---------------------------------------------------------------------------
/// The sites of a block as sites of its code qubits.
pub open spec fn code_sites(sites: Seq<Site>, kind: BlockKind) -> Seq<
    (CodeQubit<BlockKind>, Pauli),
> {
    Seq::new(
        sites.len(),
        |i: int| (CodeQubit { block: kind, index: sites[i].0.0 }, sites[i].1),
    )
}

/// A block's string as an operator on its code qubits.
pub fn lift_physical_to_code(p: &PhysicalPauliString, kind: BlockKind) -> (r: CodePauli<BlockKind>)
    ensures
        r@ == (SignedPauli { sign: Sign::One, sites: code_sites(p@, kind) }),
{
    let sites = p.sites();
    let ghost goal = code_sites(p@, kind);
    let mut pairs: Vec<(CodeQubit<BlockKind>, Pauli)> = Vec::new();
    for i in 0..sites.len()
        invariant
            sites@ == p@,
            goal == code_sites(p@, kind),
            pairs@ == goal.take(i as int),
    {
        let (q, x) = sites[i];
        pairs.push((CodeQubit { block: kind, index: q.0 }, x));
        assert(pairs@ =~= goal.take(i + 1));
    }
    proof {
        assert(goal.take(goal.len() as int) =~= goal);
        lemma_code_sorted(p@, kind);
        law_sort_sorted_sites(goal);
    }
    PauliAxis { sign: Sign::One, pauli_string: PauliString::new(pairs) }
}

proof fn lemma_code_sorted(sites: Seq<Site>, kind: BlockKind)
    requires
        sites_sorted(sites),
    ensures
        sites_sorted(code_sites(sites, kind)),
{
    let out = code_sites(sites, kind);
    assert forall|i: int, j: int| 0 <= i < j < out.len() implies !key_lt(
        (#[trigger] out[j]).0.key(),
        (#[trigger] out[i]).0.key(),
    ) by {
        assert(!key_lt(sites[j].0.key(), sites[i].0.key()));
    }
}

/// A block's string as an operator on the merged code's qubits.
pub open spec fn merged_form(sites: Seq<Site>, kind: BlockKind) -> SignedPauli<
    MergedCodeQubit<BlockKind>,
> {
    SignedPauli { sign: Sign::One, sites: lifted_sites(code_sites(sites, kind)) }
}

pub fn lift_physical_to_merged(p: &PhysicalPauliString, kind: BlockKind) -> (r: GraphPauli<
    BlockKind,
>)
    ensures
        r@ == merged_form(p@, kind),
{
    lift_code_to_merged(&lift_physical_to_code(p, kind))
}

/// A block's strings as operators on the merged code's qubits.
pub open spec fn merged_forms(stabs: Seq<PhysicalPauliString>, kind: BlockKind) -> Seq<
    SignedPauli<MergedCodeQubit<BlockKind>>,
> {
    Seq::new(stabs.len(), |i: int| merged_form(stabs[i]@, kind))
}

fn push_merged(
    stabs: &Vec<PhysicalPauliString>,
    kind: BlockKind,
    out: &mut Vec<GraphPauli<BlockKind>>,
)
    ensures
        check_views(final(out)@) == check_views(old(out)@) + merged_forms(stabs@, kind),
{
    let ghost before = check_views(out@);
    let ghost goal = merged_forms(stabs@, kind);
    assert(before + goal.take(0) =~= before);
    for i in 0..stabs.len()
        invariant
            goal == merged_forms(stabs@, kind),
            check_views(out@) == before + goal.take(i as int),
    {
        let check = lift_physical_to_merged(&stabs[i], kind);
        proof {
            assert(check_views(out@.push(check)) =~= check_views(out@).push(check@));
            assert(before + goal.take(i + 1) =~= (before + goal.take(i as int)).push(
                goal[i as int],
            ));
        }
        out.push(check);
    }
    assert(goal.take(goal.len() as int) =~= goal);
}

/// A block's strings as operators on its code qubits.
pub open spec fn code_forms(stabs: Seq<PhysicalPauliString>, kind: BlockKind) -> Seq<
    SignedPauli<CodeQubit<BlockKind>>,
> {
    Seq::new(
        stabs.len(),
        |i: int| SignedPauli { sign: Sign::One, sites: code_sites(stabs[i]@, kind) },
    )
}

fn push_code(
    stabs: &Vec<PhysicalPauliString>,
    kind: BlockKind,
    out: &mut Vec<CodePauli<BlockKind>>,
)
    ensures
        axis_views(final(out)@) == axis_views(old(out)@) + code_forms(stabs@, kind),
{
    let ghost before = axis_views(out@);
    let ghost goal = code_forms(stabs@, kind);
    assert(before + goal.take(0) =~= before);
    for i in 0..stabs.len()
        invariant
            goal == code_forms(stabs@, kind),
            axis_views(out@) == before + goal.take(i as int),
    {
        let s = lift_physical_to_code(&stabs[i], kind);
        proof {
            assert(axis_views(out@.push(s)) =~= axis_views(out@).push(s@));
            assert(before + goal.take(i + 1) =~= (before + goal.take(i as int)).push(
                goal[i as int],
            ));
        }
        out.push(s);
    }
    assert(goal.take(goal.len() as int) =~= goal);
}

// ---------------------------------------------------------------------------
// Deformations
// ---------------------------------------------------------------------------
/// A logical measurement lowered to checks of the merged code: the checks, the
/// corrections at the split, and the Pauli of the vertex checks on edge qubits.
pub struct Deformation {
    pub checks: Vec<GraphPauli<BlockKind>>,
    pub corrections: Vec<CorrectionSupport<BlockKind>>,
    pub edge_basis: Pauli,
}

/// The checks before any measurement, and the deformation of each measurement.
pub struct DeformedCheckSequence {
    pub base_checks: Vec<GraphPauli<BlockKind>>,
    pub deformations: Vec<Deformation>,
}

/// `g` is a surgery graph of the support.
pub open spec fn graph_for<F: Fn(&AncillaGraph) -> usize>(
    stabs: Seq<PhysicalPauliString>,
    support: Seq<Site>,
    kind: BlockKind,
    config: SurgeryGraphConfig,
    expansion: F,
    g: SurgeryGraph<BlockKind>,
) -> bool {
    &&& g.wf()
    &&& exists|c: Cellulation| #[trigger]
        finished(strings(stabs), support, kind, c, g) && built_for_shape(
            shape_of(path_graph(strings(stabs), support)),
            config,
            expansion,
            c,
        )
}

/// `d` measures the operator on the surgery graph `g`.
pub open spec fn deformed(
    g: SurgeryGraph<BlockKind>,
    stabs: Seq<SignedPauli<CodeQubit<BlockKind>>>,
    operator: Seq<(CodeQubit<BlockKind>, Pauli)>,
    statics: Seq<SignedPauli<MergedCodeQubit<BlockKind>>>,
    d: Deformation,
) -> bool {
    &&& check_views(d.checks@) == merged_checks(g, stabs, operator) + statics
    &&& d.edge_basis == edge_basis(operator)
    &&& d.corrections@.len() == operator.len()
    &&& forall|i: int|
        0 <= i < operator.len() ==> correction_of(g, operator[i].0, #[trigger] d.corrections@[i])
}

/// The checks, corrections and basis of an operator on a graph; `None` if some qubit
/// of the operator cannot be corrected there.
fn deform(
    g: &SurgeryGraph<BlockKind>,
    stabs: &Vec<CodePauli<BlockKind>>,
    operator: &CodePauli<BlockKind>,
    statics: Vec<GraphPauli<BlockKind>>,
) -> (r: Option<Deformation>)
    requires
        g.wf(),
    ensures
        r matches Some(d) ==> deformed(
            *g,
            axis_views(stabs@),
            operator@.sites,
            check_views(statics@),
            d,
        ),
        r is None ==> exists|i: int|
            0 <= i < operator@.sites.len() && !correctable(*g, (#[trigger] operator@.sites[i]).0),
{
    let edge_basis = operator_edge_basis(operator);
    let mut checks = graph_to_checks(g, stabs, operator);
    let ghost own = check_views(checks@);
    let ghost rest = check_views(statics@);
    let mut tail = statics;
    let ghost checks0 = checks@;
    let ghost tail0 = tail@;
    checks.append(&mut tail);
    assert(check_views(checks@) =~= own + rest);
    match try_correction_support(g, operator) {
        None => None,
        Some(corrections) => Some(Deformation { checks, corrections, edge_basis }),
    }
}

/// Surgery graphs by block and support, and structures by shape.
struct SurgeryCaches {
    kinds: Vec<BlockKind>,
    supports: Vec<PhysicalPauliString>,
    graphs: Vec<SurgeryGraph<BlockKind>>,
    shape: ShapeCache,
}

/// The stabilizers of a block.
pub open spec fn stabs_of(codes: CodeData, kind: BlockKind) -> Seq<PhysicalPauliString> {
    match kind {
        BlockKind::Memory => codes.memory.stabilizers@,
        BlockKind::Processor => codes.processor.stabilizers@,
        BlockKind::Magic => codes.magic.stabilizers@,
    }
}

fn block_stabilizers(codes: &CodeData, kind: BlockKind) -> (r: &Vec<PhysicalPauliString>)
    ensures
        r@ == stabs_of(*codes, kind),
{
    match kind {
        BlockKind::Memory => &codes.memory.stabilizers,
        BlockKind::Processor => &codes.processor.stabilizers,
        BlockKind::Magic => &codes.magic.stabilizers,
    }
}

impl SurgeryCaches {
    spec fn valid<F: Fn(&AncillaGraph) -> usize>(
        self,
        codes: CodeData,
        config: SurgeryGraphConfig,
        expansion: F,
    ) -> bool {
        &&& self.kinds@.len() == self.graphs@.len()
        &&& self.supports@.len() == self.graphs@.len()
        &&& self.shape.valid_for(config, expansion)
        &&& forall|i: int|
            0 <= i < self.graphs@.len() ==> graph_for(
                stabs_of(codes, self.kinds@[i]),
                self.supports@[i]@,
                self.kinds@[i],
                config,
                expansion,
                #[trigger] self.graphs@[i],
            )
    }

    fn new() -> (r: Self)
        ensures
            r.kinds@.len() == 0,
            r.supports@.len() == 0,
            r.graphs@.len() == 0,
            r.shape.is_empty(),
    {
        SurgeryCaches {
            kinds: Vec::new(),
            supports: Vec::new(),
            graphs: Vec::new(),
            shape: ShapeCache::new(),
        }
    }
}

fn same_sites(a: &Vec<Site>, b: &Vec<Site>) -> (r: bool)
    ensures
        r == (a@ == b@),
{
    if a.len() != b.len() {
        return false;
    }
    let mut i: usize = 0;
    while i < a.len()
        invariant
            i <= a@.len(),
            a@.len() == b@.len(),
            forall|k: int| 0 <= k < i ==> a@[k] == b@[k],
        decreases a@.len() - i,
    {
        let (x, y) = (a[i], b[i]);
        if x.0.0 != y.0.0 || x.1 != y.1 {
            assert(a@[i as int] != b@[i as int]);
            return false;
        }
        i = i + 1;
    }
    assert(a@ =~= b@);
    true
}

/// The place of the surgery graph of a support, which is built on first use, or anew
/// where caching is off. `None` if a graph is too large to number.
#[verifier::spinoff_prover]
fn cached_surgery_graph<F: Fn(&AncillaGraph) -> usize>(
    caches: &mut SurgeryCaches,
    codes: &CodeData,
    support: &PhysicalPauliString,
    kind: BlockKind,
    config: &SurgeryGraphConfig,
    expansion: &F,
) -> (r: Option<usize>)
    requires
        old(caches).valid(*codes, *config, *expansion),
        forall|g: &AncillaGraph| call_requires(*expansion, (g,)),
    ensures
        final(caches).valid(*codes, *config, *expansion),
        r matches Some(i) ==> i < final(caches).graphs@.len() && graph_for(
            stabs_of(*codes, kind),
            support@,
            kind,
            *config,
            *expansion,
            final(caches).graphs@[i as int],
        ),
        r is None ==> too_large(
            path_graph(strings(stabs_of(*codes, kind)), support@),
            *config,
            *expansion,
        ),
{
    let stabs = block_stabilizers(codes, kind);
    let n: usize = caches.graphs.len();
    let mut at: usize = 0;
    while at < n && !(caches.kinds[at] == kind && same_sites(
        caches.supports[at].sites(),
        support.sites(),
    ))
        invariant
            at <= n,
            n == caches.graphs@.len(),
            caches.kinds@.len() == n,
            caches.supports@.len() == n,
        decreases n - at,
    {
        at = at + 1;
    }
    if config.caching && at < n {
        return Some(at);
    }
    match surgery_graph_cached(stabs, support, kind, config, &mut caches.shape, expansion) {
        None => None,
        Some(g) => {
            assert(graph_for(stabs_of(*codes, kind), support@, kind, *config, *expansion, g));
            let ghost graphs0 = caches.graphs@;
            if at < n {
                caches.graphs.set(at, g);
            } else {
                caches.kinds.push(kind);
                caches.supports.push(support.clone());
                caches.graphs.push(g);
            }
            proof {
                assert forall|i: int| 0 <= i < caches.graphs@.len() implies graph_for(
                    stabs_of(*codes, caches.kinds@[i]),
                    caches.supports@[i]@,
                    caches.kinds@[i],
                    *config,
                    *expansion,
                    #[trigger] caches.graphs@[i],
                ) by {
                    if i != at {
                        assert(caches.graphs@[i] == graphs0[i]);
                    }
                }
            }
            Some(at)
        },
    }
}

/// One of the blocks that a support touches, with its part of the support.
pub struct BlockPart<'a> {
    pub support: &'a PhysicalPauliString,
    pub kind: BlockKind,
}

/// Which blocks a support touches: one of them, or two in the order memory, processor,
/// magic.
pub enum BlockSupport<'a> {
    Single(BlockPart<'a>),
    Pair(BlockPart<'a>, BlockPart<'a>),
}

/// The part of a support on a block.
pub open spec fn part_of(s: SupportModel, kind: BlockKind) -> Seq<Site> {
    match kind {
        BlockKind::Memory => s.memory,
        BlockKind::Processor => s.processor,
        BlockKind::Magic => s.magic,
    }
}

/// The only block that a support touches.
pub open spec fn only_block(s: SupportModel, kind: BlockKind) -> bool {
    s.blocks() == 1 && part_of(s, kind).len() > 0
}

/// The two blocks that a support touches, in order.
pub open spec fn two_blocks(s: SupportModel, a: BlockKind, b: BlockKind) -> bool {
    s.blocks() == 2 && part_of(s, a).len() > 0 && part_of(s, b).len() > 0 && a.rank() < b.rank()
}

impl PhysicalSupport {
    /// The support of nothing.
    pub fn new() -> (r: Self)
        ensures
            r@ == support_of(
                Seq::empty(),
                (BasesModel { memory: Seq::empty(), processor: Seq::empty(), magic: Seq::empty() }),
            ),
    {
        let r = PhysicalSupport {
            sign: Sign::One,
            memory: PauliString::new(Vec::new()),
            processor: PauliString::new(Vec::new()),
            magic: PauliString::new(Vec::new()),
        };
        assert(r@ =~= support_of(
            Seq::empty(),
            (BasesModel { memory: Seq::empty(), processor: Seq::empty(), magic: Seq::empty() }),
        ));
        r
    }

    /// The blocks that this support touches. It touches one or two.
    pub fn block_support(&self) -> (r: BlockSupport<'_>)
        requires
            1 <= self@.blocks() <= 2,
        ensures
            match r {
                BlockSupport::Single(a) => only_block(self@, a.kind) && a.support@ == part_of(
                    self@,
                    a.kind,
                ),
                BlockSupport::Pair(a, b) => two_blocks(self@, a.kind, b.kind) && a.support@
                    == part_of(self@, a.kind) && b.support@ == part_of(self@, b.kind),
            },
    {
        let memory = BlockPart { support: &self.memory, kind: BlockKind::Memory };
        let processor = BlockPart { support: &self.processor, kind: BlockKind::Processor };
        let magic = BlockPart { support: &self.magic, kind: BlockKind::Magic };
        let m = self.memory.sites().len() > 0;
        let p = self.processor.sites().len() > 0;
        let g = self.magic.sites().len() > 0;
        if m && p {
            BlockSupport::Pair(memory, processor)
        } else if m && g {
            BlockSupport::Pair(memory, magic)
        } else if p && g {
            BlockSupport::Pair(processor, magic)
        } else if m {
            BlockSupport::Single(memory)
        } else if p {
            BlockSupport::Single(processor)
        } else {
            BlockSupport::Single(magic)
        }
    }
}

/// The blocks other than `kind`, in order.
pub open spec fn others(kind: BlockKind) -> (BlockKind, BlockKind) {
    match kind {
        BlockKind::Memory => (BlockKind::Processor, BlockKind::Magic),
        BlockKind::Processor => (BlockKind::Memory, BlockKind::Magic),
        BlockKind::Magic => (BlockKind::Memory, BlockKind::Processor),
    }
}

/// The block that is neither of the two.
pub open spec fn third(a: BlockKind, b: BlockKind) -> BlockKind {
    if !(a is Memory) && !(b is Memory) {
        BlockKind::Memory
    } else if !(a is Processor) && !(b is Processor) {
        BlockKind::Processor
    } else {
        BlockKind::Magic
    }
}

/// The stabilizers of the blocks that a measurement on one block leaves alone.
pub open spec fn single_statics(codes: CodeData, kind: BlockKind) -> Seq<
    SignedPauli<MergedCodeQubit<BlockKind>>,
> {
    let (a, b) = others(kind);
    merged_forms(stabs_of(codes, a), a) + merged_forms(stabs_of(codes, b), b)
}

/// The operator on two blocks.
pub open spec fn joint_sites(s: SupportModel, a: BlockKind, b: BlockKind) -> Seq<
    (CodeQubit<BlockKind>, Pauli),
> {
    sort_sites(code_sites(part_of(s, a), a) + code_sites(part_of(s, b), b))
}

/// `d` is a deformation that measures a support on one block.
pub open spec fn single_deformation<F: Fn(&AncillaGraph) -> usize>(
    codes: CodeData,
    s: SupportModel,
    kind: BlockKind,
    config: SurgeryGraphConfig,
    expansion: F,
    d: Deformation,
) -> bool {
    exists|g: SurgeryGraph<BlockKind>| #[trigger]
        graph_for(stabs_of(codes, kind), part_of(s, kind), kind, config, expansion, g) && deformed(
            g,
            code_forms(stabs_of(codes, kind), kind),
            code_sites(part_of(s, kind), kind),
            single_statics(codes, kind),
            d,
        )
}

/// `d` is a deformation that measures a support on two blocks.
pub open spec fn pair_deformation<F: Fn(&AncillaGraph) -> usize>(
    codes: CodeData,
    s: SupportModel,
    a: BlockKind,
    b: BlockKind,
    distance: usize,
    config: SurgeryGraphConfig,
    expansion: F,
    d: Deformation,
) -> bool {
    exists|
        ga: SurgeryGraph<BlockKind>,
        gb: SurgeryGraph<BlockKind>,
        g: SurgeryGraph<BlockKind>,
        lo: Seq<usize>,
        ro: Seq<usize>,
    |
        {
            &&& graph_for(stabs_of(codes, a), part_of(s, a), a, config, expansion, ga)
            &&& graph_for(stabs_of(codes, b), part_of(s, b), b, config, expansion, gb)
            &&& labeled(ga, lo)
            &&& labeled(gb, ro)
            &&& #[trigger] bridged(ga, gb, lo, ro, distance, g)
            &&& g.wf()
            &&& deformed(
                g,
                code_forms(stabs_of(codes, a), a) + code_forms(stabs_of(codes, b), b),
                joint_sites(s, a, b),
                merged_forms(stabs_of(codes, third(a, b)), third(a, b)),
                d,
            )
        }
}

/// `d` is a deformation that measures the support.
pub open spec fn is_deformation<F: Fn(&AncillaGraph) -> usize>(
    codes: CodeData,
    s: SupportModel,
    distance: usize,
    config: SurgeryGraphConfig,
    expansion: F,
    d: Deformation,
) -> bool {
    &&& forall|kind: BlockKind| #[trigger]
        only_block(s, kind) ==> single_deformation(codes, s, kind, config, expansion, d)
    &&& forall|a: BlockKind, b: BlockKind| #[trigger]
        two_blocks(s, a, b) ==> pair_deformation(codes, s, a, b, distance, config, expansion, d)
}

/// Some surgery graph of the support has an operator qubit that cannot be corrected.
pub open spec fn uncorrectable(
    g: SurgeryGraph<BlockKind>,
    operator: Seq<(CodeQubit<BlockKind>, Pauli)>,
) -> bool {
    exists|i: int| 0 <= i < operator.len() && !correctable(g, (#[trigger] operator[i]).0)
}

/// What stands in the way of measuring a support: a graph that is too large to number,
/// or one on which some qubit of the operator cannot be corrected.
pub open spec fn obstructed<F: Fn(&AncillaGraph) -> usize>(
    codes: CodeData,
    s: SupportModel,
    distance: usize,
    config: SurgeryGraphConfig,
    expansion: F,
) -> bool {
    ||| exists|kind: BlockKind|
        part_of(s, kind).len() > 0 && too_large(
            #[trigger] path_graph(strings(stabs_of(codes, kind)), part_of(s, kind)),
            config,
            expansion,
        )
    ||| exists|kind: BlockKind, g: SurgeryGraph<BlockKind>|
        only_block(s, kind) && #[trigger] graph_for(
            stabs_of(codes, kind),
            part_of(s, kind),
            kind,
            config,
            expansion,
            g,
        ) && uncorrectable(g, code_sites(part_of(s, kind), kind))
    ||| exists|
        a: BlockKind,
        b: BlockKind,
        ga: SurgeryGraph<BlockKind>,
        gb: SurgeryGraph<BlockKind>,
    |
        two_blocks(s, a, b) && #[trigger] graph_for(
            stabs_of(codes, a),
            part_of(s, a),
            a,
            config,
            expansion,
            ga,
        ) && #[trigger] graph_for(stabs_of(codes, b), part_of(s, b), b, config, expansion, gb)
            && bridge_fails(s, a, b, ga, gb, distance)
}

/// The bridge between two graphs is too large to number, or leaves some qubit of the
/// operator that cannot be corrected.
pub open spec fn bridge_fails(
    s: SupportModel,
    a: BlockKind,
    b: BlockKind,
    ga: SurgeryGraph<BlockKind>,
    gb: SurgeryGraph<BlockKind>,
    distance: usize,
) -> bool {
    ||| ga.graph@.nodes + gb.graph@.nodes > u32::MAX
    ||| ga.graph@.edges.len() + gb.graph@.edges.len() + distance > u32::MAX
    ||| exists|g: SurgeryGraph<BlockKind>, lo: Seq<usize>, ro: Seq<usize>| #[trigger]
        bridged(ga, gb, lo, ro, distance, g) && uncorrectable(g, joint_sites(s, a, b))
}

/// The deformation of a measurement on one block: the graph of that block alone.
fn single_block_checks<F: Fn(&AncillaGraph) -> usize>(
    codes: &CodeData,
    support: &PhysicalSupport,
    part: BlockPart<'_>,
    config: &SurgeryGraphConfig,
    expansion: &F,
    caches: &mut SurgeryCaches,
) -> (r: Option<Deformation>)
    requires
        old(caches).valid(*codes, *config, *expansion),
        forall|g: &AncillaGraph| call_requires(*expansion, (g,)),
        only_block(support@, part.kind),
        part.support@ == part_of(support@, part.kind),
    ensures
        final(caches).valid(*codes, *config, *expansion),
        r matches Some(d) ==> single_deformation(
            *codes,
            support@,
            part.kind,
            *config,
            *expansion,
            d,
        ),
        r is None ==> forall|distance: usize| #[trigger]
            obstructed(*codes, support@, distance, *config, *expansion),
{
    let kind = part.kind;
    let at = match cached_surgery_graph(caches, codes, part.support, kind, config, expansion) {
        None => {
            return None;
        },
        Some(i) => i,
    };
    let g = &caches.graphs[at];
    let mut stabs: Vec<CodePauli<BlockKind>> = Vec::new();
    push_code(block_stabilizers(codes, kind), kind, &mut stabs);
    assert(axis_views(stabs@) =~= code_forms(stabs_of(*codes, kind), kind));
    let operator = lift_physical_to_code(part.support, kind);
    let (x, y) = match kind {
        BlockKind::Memory => (BlockKind::Processor, BlockKind::Magic),
        BlockKind::Processor => (BlockKind::Memory, BlockKind::Magic),
        BlockKind::Magic => (BlockKind::Memory, BlockKind::Processor),
    };
    let mut statics: Vec<GraphPauli<BlockKind>> = Vec::new();
    push_merged(block_stabilizers(codes, x), x, &mut statics);
    push_merged(block_stabilizers(codes, y), y, &mut statics);
    assert(check_views(statics@) =~= single_statics(*codes, kind));
    let r = deform(g, &stabs, &operator, statics);
    proof {
        assert(graph_for(
            stabs_of(*codes, kind),
            part_of(support@, kind),
            kind,
            *config,
            *expansion,
            *g,
        ));
        if r is None {
            assert(uncorrectable(*g, code_sites(part_of(support@, kind), kind)));
        }
    }
    r
}

/// The deformation of a measurement on two blocks: their graphs are bridged, and both
/// blocks' stabilizers are lifted in that order.
#[verifier::spinoff_prover]
fn bridged_checks<F: Fn(&AncillaGraph) -> usize>(
    codes: &CodeData,
    support: &PhysicalSupport,
    a: BlockPart<'_>,
    b: BlockPart<'_>,
    distance: usize,
    config: &SurgeryGraphConfig,
    expansion: &F,
    caches: &mut SurgeryCaches,
) -> (r: Option<Deformation>)
    requires
        old(caches).valid(*codes, *config, *expansion),
        forall|g: &AncillaGraph| call_requires(*expansion, (g,)),
        two_blocks(support@, a.kind, b.kind),
        a.support@ == part_of(support@, a.kind),
        b.support@ == part_of(support@, b.kind),
    ensures
        final(caches).valid(*codes, *config, *expansion),
        r matches Some(d) ==> pair_deformation(
            *codes,
            support@,
            a.kind,
            b.kind,
            distance,
            *config,
            *expansion,
            d,
        ),
        r is None ==> obstructed(*codes, support@, distance, *config, *expansion),
{
    let ghost s = support@;
    let ghost (ka, kb) = (a.kind, b.kind);
    let ia = match cached_surgery_graph(caches, codes, a.support, a.kind, config, expansion) {
        None => {
            return None;
        },
        Some(i) => i,
    };
    let copy = caches.graphs[ia].clone();
    let ghost first = caches.graphs@[ia as int];
    let ib = match cached_surgery_graph(caches, codes, b.support, b.kind, config, expansion) {
        None => {
            return None;
        },
        Some(i) => i,
    };
    let gb = &caches.graphs[ib];
    proof {
        lemma_copy_is_graph(
            stabs_of(*codes, ka),
            part_of(s, ka),
            ka,
            *config,
            *expansion,
            first,
            copy,
        );
        assert(graph_for(stabs_of(*codes, kb), part_of(s, kb), kb, *config, *expansion, *gb));
    }
    let g = match bridge_surgery_graphs(&copy, gb, distance) {
        None => {
            assert(bridge_fails(s, ka, kb, copy, *gb, distance));
            return None;
        },
        Some(g) => g,
    };
    let mut stabs: Vec<CodePauli<BlockKind>> = Vec::new();
    push_code(block_stabilizers(codes, a.kind), a.kind, &mut stabs);
    push_code(block_stabilizers(codes, b.kind), b.kind, &mut stabs);
    assert(axis_views(stabs@) =~= code_forms(stabs_of(*codes, ka), ka) + code_forms(
        stabs_of(*codes, kb),
        kb,
    ));
    let operator = joint_operator(&a, &b, support.sign);
    let c = if a.kind != BlockKind::Memory && b.kind != BlockKind::Memory {
        BlockKind::Memory
    } else if a.kind != BlockKind::Processor && b.kind != BlockKind::Processor {
        BlockKind::Processor
    } else {
        BlockKind::Magic
    };
    let mut statics: Vec<GraphPauli<BlockKind>> = Vec::new();
    push_merged(block_stabilizers(codes, c), c, &mut statics);
    assert(check_views(statics@) =~= merged_forms(stabs_of(*codes, c), c));
    let r = deform(&g, &stabs, &operator, statics);
    proof {
        let (lo, ro) = choose|lo: Seq<usize>, ro: Seq<usize>| #[trigger]
            labeled(copy, lo) && #[trigger] labeled(*gb, ro) && bridged(
                copy,
                *gb,
                lo,
                ro,
                distance,
                g,
            );
        assert(bridged(copy, *gb, lo, ro, distance, g));
        if r is None {
            assert(uncorrectable(g, joint_sites(s, ka, kb)));
            assert(bridge_fails(s, ka, kb, copy, *gb, distance));
        }
    }
    r
}

/// The operator on two blocks.
fn joint_operator(a: &BlockPart<'_>, b: &BlockPart<'_>, sign: Sign) -> (r: CodePauli<BlockKind>)
    ensures
        r@.sites == sort_sites(code_sites(a.support@, a.kind) + code_sites(b.support@, b.kind)),
        r@.sign == sign,
{
    let x = lift_physical_to_code(a.support, a.kind);
    let y = lift_physical_to_code(b.support, b.kind);
    let mut pairs: Vec<(CodeQubit<BlockKind>, Pauli)> = Vec::new();
    push_code_sites(x.pauli_string.sites(), &mut pairs);
    push_code_sites(y.pauli_string.sites(), &mut pairs);
    assert(pairs@ =~= code_sites(a.support@, a.kind) + code_sites(b.support@, b.kind));
    PauliAxis { sign, pauli_string: PauliString::new(pairs) }
}

fn push_code_sites(
    sites: &Vec<(CodeQubit<BlockKind>, Pauli)>,
    out: &mut Vec<(CodeQubit<BlockKind>, Pauli)>,
)
    ensures
        final(out)@ == old(out)@ + sites@,
{
    let ghost before = out@;
    assert(before + sites@.take(0) =~= before);
    for i in 0..sites.len()
        invariant
            out@ == before + sites@.take(i as int),
    {
        out.push(sites[i]);
        assert(out@ =~= before + sites@.take(i + 1));
    }
    assert(sites@.take(sites@.len() as int) =~= sites@);
}

/// A copy of a surgery graph is one too.
proof fn lemma_copy_is_graph<F: Fn(&AncillaGraph) -> usize>(
    stabs: Seq<PhysicalPauliString>,
    support: Seq<Site>,
    kind: BlockKind,
    config: SurgeryGraphConfig,
    expansion: F,
    g: SurgeryGraph<BlockKind>,
    copy: SurgeryGraph<BlockKind>,
)
    requires
        graph_for(stabs, support, kind, config, expansion, g),
        same_graph(g, copy),
    ensures
        graph_for(stabs, support, kind, config, expansion, copy),
{
    let c = choose|c: Cellulation| #[trigger]
        finished(strings(stabs), support, kind, c, g) && built_for_shape(
            shape_of(path_graph(strings(stabs), support)),
            config,
            expansion,
            c,
        );
    assert(finished(strings(stabs), support, kind, c, copy));
}

/// Two deformations with the same contents.
pub open spec fn same_deformation(a: Deformation, b: Deformation) -> bool {
    &&& check_views(a.checks@) == check_views(b.checks@)
    &&& a.edge_basis == b.edge_basis
    &&& a.corrections@.len() == b.corrections@.len()
    &&& forall|i: int|
        0 <= i < a.corrections@.len() ==> a.corrections@[i].qubit == (
        #[trigger] b.corrections@[i]).qubit && a.corrections@[i].path@ == b.corrections@[i].path@
}

impl Clone for Deformation {
    fn clone(&self) -> (r: Self)
        ensures
            same_deformation(*self, r),
    {
        let mut checks: Vec<GraphPauli<BlockKind>> = Vec::new();
        let ghost goal = check_views(self.checks@);
        assert(check_views(checks@) =~= goal.take(0));
        for i in 0..self.checks.len()
            invariant
                goal == check_views(self.checks@),
                check_views(checks@) == goal.take(i as int),
        {
            let check = self.checks[i].clone();
            proof {
                assert(check_views(checks@.push(check)) =~= check_views(checks@).push(check@));
                assert(goal.take(i + 1) =~= goal.take(i as int).push(goal[i as int]));
            }
            checks.push(check);
        }
        assert(goal.take(goal.len() as int) =~= goal);
        let mut corrections: Vec<CorrectionSupport<BlockKind>> = Vec::new();
        for i in 0..self.corrections.len()
            invariant
                corrections@.len() == i,
                forall|k: int|
                    0 <= k < i ==> self.corrections@[k].qubit == (
                    #[trigger] corrections@[k]).qubit && self.corrections@[k].path@
                        == corrections@[k].path@,
        {
            let path = &self.corrections[i].path;
            let mut copy: Vec<MergedCodeQubit<BlockKind>> = Vec::new();
            for k in 0..path.len()
                invariant
                    copy@ == path@.take(k as int),
            {
                copy.push(path[k]);
                assert(copy@ =~= path@.take(k + 1));
            }
            assert(path@.take(path@.len() as int) =~= path@);
            corrections.push(
                CorrectionSupport { qubit: self.corrections[i].qubit, path: copy },
            );
        }
        Deformation { checks, corrections, edge_basis: self.edge_basis }
    }
}

/// A copy of a deformation measures the same.
proof fn lemma_copy_is_deformation<F: Fn(&AncillaGraph) -> usize>(
    codes: CodeData,
    s: SupportModel,
    distance: usize,
    config: SurgeryGraphConfig,
    expansion: F,
    d: Deformation,
    copy: Deformation,
)
    requires
        is_deformation(codes, s, distance, config, expansion, d),
        same_deformation(d, copy),
    ensures
        is_deformation(codes, s, distance, config, expansion, copy),
{
    assert forall|kind: BlockKind| #[trigger] only_block(s, kind) implies single_deformation(
        codes,
        s,
        kind,
        config,
        expansion,
        copy,
    ) by {
        let g = choose|g: SurgeryGraph<BlockKind>| #[trigger]
            graph_for(stabs_of(codes, kind), part_of(s, kind), kind, config, expansion, g)
                && deformed(
                g,
                code_forms(stabs_of(codes, kind), kind),
                code_sites(part_of(s, kind), kind),
                single_statics(codes, kind),
                d,
            );
        lemma_copy_deformed(
            g,
            code_forms(stabs_of(codes, kind), kind),
            code_sites(part_of(s, kind), kind),
            single_statics(codes, kind),
            d,
            copy,
        );
    }
    assert forall|a: BlockKind, b: BlockKind| #[trigger]
        two_blocks(s, a, b) implies pair_deformation(
        codes,
        s,
        a,
        b,
        distance,
        config,
        expansion,
        copy,
    ) by {
        let stabs = code_forms(stabs_of(codes, a), a) + code_forms(stabs_of(codes, b), b);
        let statics = merged_forms(stabs_of(codes, third(a, b)), third(a, b));
        let (ga, gb, g, lo, ro) = choose|
            ga: SurgeryGraph<BlockKind>,
            gb: SurgeryGraph<BlockKind>,
            g: SurgeryGraph<BlockKind>,
            lo: Seq<usize>,
            ro: Seq<usize>,
        |
            {
                &&& graph_for(stabs_of(codes, a), part_of(s, a), a, config, expansion, ga)
                &&& graph_for(stabs_of(codes, b), part_of(s, b), b, config, expansion, gb)
                &&& labeled(ga, lo)
                &&& labeled(gb, ro)
                &&& #[trigger] bridged(ga, gb, lo, ro, distance, g)
                &&& deformed(g, stabs, joint_sites(s, a, b), statics, d)
            };
        lemma_copy_deformed(g, stabs, joint_sites(s, a, b), statics, d, copy);
        assert(bridged(ga, gb, lo, ro, distance, g));
    }
}

proof fn lemma_copy_deformed(
    g: SurgeryGraph<BlockKind>,
    stabs: Seq<SignedPauli<CodeQubit<BlockKind>>>,
    operator: Seq<(CodeQubit<BlockKind>, Pauli)>,
    statics: Seq<SignedPauli<MergedCodeQubit<BlockKind>>>,
    d: Deformation,
    copy: Deformation,
)
    requires
        deformed(g, stabs, operator, statics, d),
        same_deformation(d, copy),
    ensures
        deformed(g, stabs, operator, statics, copy),
{
    assert forall|i: int| 0 <= i < operator.len() implies correction_of(
        g,
        operator[i].0,
        #[trigger] copy.corrections@[i],
    ) by {
        assert(correction_of(g, operator[i].0, d.corrections@[i]));
        assert(d.corrections@[i].qubit == copy.corrections@[i].qubit);
    }
}

fn same_support(a: &PhysicalSupport, b: &PhysicalSupport) -> (r: bool)
    ensures
        r == (a@ == b@),
{
    let r = a.sign == b.sign && same_sites(a.memory.sites(), b.memory.sites()) && same_sites(
        a.processor.sites(),
        b.processor.sites(),
    ) && same_sites(a.magic.sites(), b.magic.sites());
    assert(r ==> a@ =~= b@);
    r
}

/// The deformation of a measurement; `None` if a graph is too large to number, or some
/// qubit of the operator cannot be corrected.
fn lower_support<F: Fn(&AncillaGraph) -> usize>(
    codes: &CodeData,
    support: &PhysicalSupport,
    distance: usize,
    config: &SurgeryGraphConfig,
    expansion: &F,
    caches: &mut SurgeryCaches,
) -> (r: Option<Deformation>)
    requires
        old(caches).valid(*codes, *config, *expansion),
        forall|g: &AncillaGraph| call_requires(*expansion, (g,)),
        1 <= support@.blocks() <= 2,
    ensures
        final(caches).valid(*codes, *config, *expansion),
        r matches Some(d) ==> is_deformation(
            *codes,
            support@,
            distance,
            *config,
            *expansion,
            d,
        ),
        r is None ==> obstructed(*codes, support@, distance, *config, *expansion),
{
    let ghost s = support@;
    match support.block_support() {
        BlockSupport::Single(a) => {
            let ghost ka = a.kind;
            let r = single_block_checks(codes, support, a, config, expansion, caches);
            proof {
                assert forall|kind: BlockKind| #[trigger] only_block(s, kind) implies kind == ka by {
                    assert(part_of(s, kind).len() > 0);
                    assert(part_of(s, ka).len() > 0);
                }
            }
            r
        },
        BlockSupport::Pair(a, b) => {
            let ghost (ka, kb) = (a.kind, b.kind);
            let r = bridged_checks(codes, support, a, b, distance, config, expansion, caches);
            proof {
                assert forall|x: BlockKind, y: BlockKind| #[trigger]
                    two_blocks(s, x, y) implies x == ka && y == kb by {
                    assert(part_of(s, x).len() > 0 && part_of(s, y).len() > 0);
                    assert(part_of(s, ka).len() > 0 && part_of(s, kb).len() > 0);
                }
            }
            r
        },
    }
}

/// The deformation of each measurement, in order. With caching, equal supports get
/// equal deformations. `None` if a graph is too large to number, or some qubit of an
/// operator cannot be corrected.
#[verifier::spinoff_prover]
pub fn physical_supports_to_stabilizer_sets<F: Fn(&AncillaGraph) -> usize>(
    codes: &CodeData,
    distance: usize,
    supports: &Vec<PhysicalSupport>,
    config: &SurgeryGraphConfig,
    expansion: &F,
) -> (r: Option<Vec<Deformation>>)
    requires
        forall|g: &AncillaGraph| call_requires(*expansion, (g,)),
        forall|i: int| 0 <= i < supports@.len() ==> 1 <= (#[trigger] supports@[i])@.blocks() <= 2,
    ensures
        r matches Some(ds) ==> ds@.len() == supports@.len() && (forall|i: int|
            0 <= i < ds@.len() ==> is_deformation(
                *codes,
                supports@[i]@,
                distance,
                *config,
                *expansion,
                #[trigger] ds@[i],
            )) && (config.caching ==> forall|i: int, j: int|
            #![trigger ds@[i], ds@[j]]
            0 <= i < j < ds@.len() && supports@[i]@ == supports@[j]@ ==> same_deformation(
                ds@[i],
                ds@[j],
            )),
        r is None ==> exists|i: int|
            0 <= i < supports@.len() && obstructed(
                *codes,
                (#[trigger] supports@[i])@,
                distance,
                *config,
                *expansion,
            ),
{
    let mut caches = SurgeryCaches::new();
    proof {
        law_empty_cache_is_valid(caches.shape, *config, *expansion);
    }
    let mut ds: Vec<Deformation> = Vec::new();
    let mut i: usize = 0;
    while i < supports.len()
        invariant
            i <= supports@.len(),
            forall|g: &AncillaGraph| call_requires(*expansion, (g,)),
            forall|k: int|
                0 <= k < supports@.len() ==> 1 <= (#[trigger] supports@[k])@.blocks() <= 2,
            caches.valid(*codes, *config, *expansion),
            ds@.len() == i,
            forall|k: int|
                0 <= k < i ==> is_deformation(
                    *codes,
                    supports@[k]@,
                    distance,
                    *config,
                    *expansion,
                    #[trigger] ds@[k],
                ),
            config.caching ==> forall|a: int, b: int|
                #![trigger ds@[a], ds@[b]]
                0 <= a < b < i && supports@[a]@ == supports@[b]@ ==> same_deformation(
                    ds@[a],
                    ds@[b],
                ),
        decreases supports@.len() - i,
    {
        let ghost before = ds@;
        let hit: usize = if config.caching {
            find_support(supports, i)
        } else {
            i
        };
        if hit < i {
            let copy = ds[hit].clone();
            proof {
                assert(is_deformation(
                    *codes,
                    supports@[hit as int]@,
                    distance,
                    *config,
                    *expansion,
                    ds@[hit as int],
                ));
                lemma_copy_is_deformation(
                    *codes,
                    supports@[i as int]@,
                    distance,
                    *config,
                    *expansion,
                    ds@[hit as int],
                    copy,
                );
            }
            ds.push(copy);
        } else {
            assert(1 <= supports@[i as int]@.blocks() <= 2);
            match lower_support(codes, &supports[i], distance, config, expansion, &mut caches) {
                None => {
                    assert(obstructed(
                        *codes,
                        supports@[i as int]@,
                        distance,
                        *config,
                        *expansion,
                    ));
                    return None;
                },
                Some(d) => {
                    ds.push(d);
                },
            }
        }
        proof {
            assert forall|k: int| 0 <= k < i + 1 implies is_deformation(
                *codes,
                supports@[k]@,
                distance,
                *config,
                *expansion,
                #[trigger] ds@[k],
            ) by {
                if k < i {
                    assert(ds@[k] == before[k]);
                }
            }
            if config.caching {
                assert forall|a: int, b: int|
                    #![trigger ds@[a], ds@[b]]
                    0 <= a < b < i + 1 && supports@[a]@ == supports@[b]@ implies same_deformation(
                    ds@[a],
                    ds@[b],
                ) by {
                    assert(ds@[a] == before[a]);
                    if b < i {
                        assert(ds@[b] == before[b]);
                    } else {
                        assert(same_deformation(before[hit as int], ds@[i as int]));
                        if a < hit {
                            assert(same_deformation(before[a], before[hit as int]));
                            lemma_same_trans(before[a], before[hit as int], ds@[i as int]);
                        }
                    }
                }
            }
        }
        i = i + 1;
    }
    Some(ds)
}

proof fn lemma_same_trans(a: Deformation, b: Deformation, c: Deformation)
    requires
        same_deformation(a, b),
        same_deformation(b, c),
    ensures
        same_deformation(a, c),
{
    assert forall|i: int| 0 <= i < a.corrections@.len() implies a.corrections@[i].qubit == (
    #[trigger] c.corrections@[i]).qubit && a.corrections@[i].path@ == c.corrections@[i].path@ by {
        assert(a.corrections@[i].qubit == b.corrections@[i].qubit);
    }
}

/// The first support that equals support `i`.
fn find_support(supports: &Vec<PhysicalSupport>, i: usize) -> (r: usize)
    requires
        i < supports@.len(),
    ensures
        r <= i,
        supports@[r as int]@ == supports@[i as int]@,
        forall|k: int| 0 <= k < r ==> (#[trigger] supports@[k])@ != supports@[i as int]@,
{
    let mut k: usize = 0;
    while k < i && !same_support(&supports[k], &supports[i])
        invariant
            k <= i < supports@.len(),
            forall|q: int| 0 <= q < k ==> (#[trigger] supports@[q])@ != supports@[i as int]@,
        decreases i - k,
    {
        k = k + 1;
    }
    k
}

/// The checks before any measurement: those of the processor, the memory and the magic
/// block.
pub open spec fn base_forms(codes: CodeData) -> Seq<SignedPauli<MergedCodeQubit<BlockKind>>> {
    merged_forms(stabs_of(codes, BlockKind::Processor), BlockKind::Processor) + merged_forms(
        stabs_of(codes, BlockKind::Memory),
        BlockKind::Memory,
    ) + merged_forms(stabs_of(codes, BlockKind::Magic), BlockKind::Magic)
}

/// The checks before any measurement.
pub fn base_checks(codes: &CodeData) -> (r: Vec<GraphPauli<BlockKind>>)
    ensures
        check_views(r@) == base_forms(*codes),
{
    let mut checks: Vec<GraphPauli<BlockKind>> = Vec::new();
    push_merged(&codes.processor.stabilizers, BlockKind::Processor, &mut checks);
    push_merged(&codes.memory.stabilizers, BlockKind::Memory, &mut checks);
    push_merged(&codes.magic.stabilizers, BlockKind::Magic, &mut checks);
    assert(check_views(checks@) =~= base_forms(*codes));
    checks
}

/// The deformed check sequence of a circuit of measurements. `None` if a graph is too
/// large to number, or some qubit of an operator cannot be corrected.
pub fn physical_supports_to_stabilizer_checks<F: Fn(&AncillaGraph) -> usize>(
    supports: &Vec<PhysicalSupport>,
    codes: &CodeData,
    distance: usize,
    config: &SurgeryGraphConfig,
    expansion: &F,
) -> (r: Option<DeformedCheckSequence>)
    requires
        forall|g: &AncillaGraph| call_requires(*expansion, (g,)),
        forall|i: int| 0 <= i < supports@.len() ==> 1 <= (#[trigger] supports@[i])@.blocks() <= 2,
    ensures
        r matches Some(c) ==> check_views(c.base_checks@) == base_forms(*codes)
            && c.deformations@.len() == supports@.len() && (forall|i: int|
            0 <= i < c.deformations@.len() ==> is_deformation(
                *codes,
                supports@[i]@,
                distance,
                *config,
                *expansion,
                #[trigger] c.deformations@[i],
            )) && (config.caching ==> forall|i: int, j: int|
            #![trigger c.deformations@[i], c.deformations@[j]]
            0 <= i < j < c.deformations@.len() && supports@[i]@ == supports@[j]@
                ==> same_deformation(c.deformations@[i], c.deformations@[j])),
        r is None ==> exists|i: int|
            0 <= i < supports@.len() && obstructed(
                *codes,
                (#[trigger] supports@[i])@,
                distance,
                *config,
                *expansion,
            ),
{
    let base_checks = base_checks(codes);
    match physical_supports_to_stabilizer_sets(codes, distance, supports, config, expansion) {
        None => None,
        Some(deformations) => Some(DeformedCheckSequence { base_checks, deformations }),
    }
}

/// Whether every support touches one or two blocks.
pub fn supports_are_surgical(supports: &Vec<PhysicalSupport>) -> (r: bool)
    ensures
        r == forall|i: int|
            0 <= i < supports@.len() ==> 1 <= (#[trigger] supports@[i])@.blocks() <= 2,
{
    let mut i: usize = 0;
    while i < supports.len()
        invariant
            i <= supports@.len(),
            forall|k: int| 0 <= k < i ==> 1 <= (#[trigger] supports@[k])@.blocks() <= 2,
        decreases supports@.len() - i,
    {
        let s = &supports[i];
        let m = s.memory.sites().len() > 0;
        let p = s.processor.sites().len() > 0;
        let g = s.magic.sites().len() > 0;
        if (!m && !p && !g) || (m && p && g) {
            assert(!(1 <= supports@[i as int]@.blocks() <= 2));
            return false;
        }
        assert(1 <= supports@[i as int]@.blocks() <= 2);
        i = i + 1;
    }
    true
}

} // verus!
