//! The ancillas of syndrome extraction come from a pool as large as the widest round,
//! right behind the qubits of the circuit.

use vstd::prelude::*;

#[allow(unused_imports)]
use crate::coloring::{class_colors, edge_colors, greedy_colors};
#[allow(unused_imports)]
use crate::extraction::{lemma_class_colors, lemma_step_records};
#[allow(unused_imports)]
use crate::layers::{
    data_below, lemma_active_sites, lemma_highest, lemma_members_differ, lemma_round_sites_below,
    proper_group, sites_below,
};
#[allow(unused_imports)]
use crate::pbc::SignedPauli;
#[allow(unused_imports)]
use crate::physical::{all_qubits, gate_qubits, trailing_run, widest_round, GateModel};
#[allow(unused_imports)]
use crate::sec_schedule::{
    acts, all_replaced, ancilla_base, bucket_at, bucket_layers, buckets, class_layers,
    color_count, controlled_layer, everyone, layered, leading_checks, left_qubits,
    lemma_leading, lockstep, lockstep_layers, lrc, lrc_step, measure_layer, meeting, part_sites,
    phase_layers, repeats, reset_layer, round_detectors, round_gates, round_sites,
    rounds_replaced, sec_gates, seg_model, sequential_layers, site_edges, sites_of_color,
    trailing_checks, SecSchedule, SegModel, Site,
};

verus! {

/// All qubits of the operation are below `b`.
pub open spec fn gate_below(g: GateModel<usize>, b: int) -> bool {
    forall|x: int| 0 <= x < gate_qubits(g).len() ==> (#[trigger] gate_qubits(g)[x]) < b
}

/// All qubits of the operations are below `b`.
pub open spec fn below(s: Seq<GateModel<usize>>, b: int) -> bool {
    forall|i: int| 0 <= i < s.len() ==> gate_below(#[trigger] s[i], b)
}

pub open spec fn each_below(layers: Seq<Seq<GateModel<usize>>>, b: int) -> bool {
    forall|k: int| 0 <= k < layers.len() ==> below(#[trigger] layers[k], b)
}

proof fn lemma_all_below(s: Seq<GateModel<usize>>, b: int)
    requires
        below(s, b),
    ensures
        forall|x: int| 0 <= x < all_qubits(s).len() ==> (#[trigger] all_qubits(s)[x]) < b,
    decreases s.len(),
{
    if s.len() > 0 {
        let front = s.drop_last();
        assert forall|i: int| 0 <= i < front.len() implies gate_below(#[trigger] front[i], b) by {
            assert(front[i] == s[i]);
        }
        lemma_all_below(front, b);
        assert(gate_below(s[s.len() - 1], b));
        let all = all_qubits(s);
        let before = all_qubits(front);
        assert forall|x: int| 0 <= x < all.len() implies (#[trigger] all[x]) < b by {
            if x < before.len() {
                assert(all[x] == before[x]);
            } else {
                assert(all[x] == gate_qubits(s.last())[x - before.len()]);
            }
        }
    }
}

proof fn lemma_below_all(s: Seq<GateModel<usize>>, b: int)
    requires
        forall|x: int| 0 <= x < all_qubits(s).len() ==> (#[trigger] all_qubits(s)[x]) < b,
    ensures
        below(s, b),
    decreases s.len(),
{
    if s.len() > 0 {
        let front = s.drop_last();
        let all = all_qubits(s);
        let before = all_qubits(front);
        assert forall|x: int| 0 <= x < before.len() implies (#[trigger] before[x]) < b by {
            assert(all[x] == before[x]);
        }
        lemma_below_all(front, b);
        let last = s[s.len() - 1];
        assert(gate_below(last, b)) by {
            assert forall|x: int| 0 <= x < gate_qubits(last).len() implies (#[trigger] gate_qubits(
                last,
            )[x]) < b by {
                assert(all[before.len() + x] == gate_qubits(last)[x]);
            }
        }
        assert forall|i: int| 0 <= i < s.len() implies gate_below(#[trigger] s[i], b) by {
            if i < front.len() {
                assert(front[i] == s[i]);
            }
        }
    }
}

proof fn lemma_below_add(s: Seq<GateModel<usize>>, t: Seq<GateModel<usize>>, b: int)
    requires
        below(s, b),
        below(t, b),
    ensures
        below(s + t, b),
{
    let all = s + t;
    assert forall|i: int| 0 <= i < all.len() implies gate_below(#[trigger] all[i], b) by {
        if i < s.len() {
            assert(all[i] == s[i]);
        } else {
            assert(all[i] == t[i - s.len()]);
        }
    }
}

proof fn lemma_below_push(s: Seq<GateModel<usize>>, g: GateModel<usize>, b: int)
    requires
        below(s, b),
        gate_below(g, b),
    ensures
        below(s.push(g), b),
{
    let all = s.push(g);
    assert forall|i: int| 0 <= i < all.len() implies gate_below(#[trigger] all[i], b) by {
        if i < s.len() {
            assert(all[i] == s[i]);
        }
    }
}

proof fn lemma_below_more(s: Seq<GateModel<usize>>, b: int, c: int)
    requires
        below(s, b),
        b <= c,
    ensures
        below(s, c),
{
    assert forall|i: int| 0 <= i < s.len() implies gate_below(#[trigger] s[i], c) by {
        assert(gate_below(s[i], b));
    }
}

proof fn lemma_each_below_add(
    s: Seq<Seq<GateModel<usize>>>,
    t: Seq<Seq<GateModel<usize>>>,
    b: int,
)
    requires
        each_below(s, b),
        each_below(t, b),
    ensures
        each_below(s + t, b),
{
    let all = s + t;
    assert forall|k: int| 0 <= k < all.len() implies below(#[trigger] all[k], b) by {
        if k < s.len() {
            assert(all[k] == s[k]);
        } else {
            assert(all[k] == t[k - s.len()]);
        }
    }
}

proof fn lemma_layered_below(layers: Seq<Seq<GateModel<usize>>>, b: int)
    requires
        each_below(layers, b),
    ensures
        below(layered(layers), b),
    decreases layers.len(),
{
    if layers.len() > 0 {
        let front = layers.drop_last();
        let last = layers[layers.len() - 1];
        assert forall|k: int| 0 <= k < front.len() implies below(#[trigger] front[k], b) by {
            assert(front[k] == layers[k]);
        }
        lemma_layered_below(front, b);
        assert(below(last, b));
        if last.len() > 0 {
            lemma_below_push(last, GateModel::Tick, b);
            lemma_below_add(layered(front), last.push(GateModel::Tick), b);
        }
    }
}

// ---------------------------------------------------------------------------
// Sites
// ---------------------------------------------------------------------------
proof fn lemma_color_members(part: Seq<Site>, colors: Seq<int>, k: int, m: nat, base: int)
    requires
        sites_below(part, m, base),
    ensures
        sites_below(sites_of_color(part, colors, k), m, base),
    decreases part.len(),
{
    if part.len() > 0 {
        let front = part.drop_last();
        assert forall|i: int| 0 <= i < front.len() implies (#[trigger] front[i]).0 < m && front[i].1
            < base by {
            assert(front[i] == part[i]);
        }
        lemma_color_members(front, colors, k, m, base);
        assert(part[part.len() - 1].0 < m);
    }
}

proof fn lemma_part_members(
    part: Seq<Site>,
    classes: Seq<int>,
    left: Set<usize>,
    class: int,
    side: Option<bool>,
    m: nat,
    base: int,
)
    requires
        sites_below(part, m, base),
    ensures
        sites_below(part_sites(part, classes, left, class, side), m, base),
    decreases part.len(),
{
    if part.len() > 0 {
        let front = part.drop_last();
        assert forall|i: int| 0 <= i < front.len() implies (#[trigger] front[i]).0 < m && front[i].1
            < base by {
            assert(front[i] == part[i]);
        }
        lemma_part_members(front, classes, left, class, side, m, base);
        assert(part[part.len() - 1].0 < m);
    }
}

proof fn lemma_lockstep_members(
    checks: Seq<SignedPauli<usize>>,
    colors: Seq<int>,
    c: int,
    k: int,
    n: nat,
    base: int,
)
    requires
        n <= checks.len() <= usize::MAX,
        0 <= k,
        data_below(checks, base),
    ensures
        sites_below(lockstep(checks, colors, c, k, n), checks.len(), base),
    decreases n,
{
    if n > 0 {
        lemma_lockstep_members(checks, colors, c, k, (n - 1) as nat, base);
        if colors[n - 1] == c && k < acts(checks, n - 1).len() {
            assert(acts(checks, n - 1)[k].0 < base);
        }
    }
}

proof fn lemma_controlled_below(part: Seq<Site>, m: nat, base: int)
    requires
        sites_below(part, m, base),
        0 <= base,
        base + m <= usize::MAX,
    ensures
        below(controlled_layer(part, base), base + m),
{
    let layer = controlled_layer(part, base);
    assert forall|i: int| 0 <= i < layer.len() implies gate_below(#[trigger] layer[i], base + m) by {
        assert(part[i].0 < m && part[i].1 < base);
    }
}

proof fn lemma_group_below(checks: Seq<SignedPauli<usize>>, group: Seq<int>, m: nat, base: int)
    requires
        proper_group(group, m),
        0 <= base,
        base + m <= usize::MAX,
    ensures
        below(reset_layer(group, base), base + m),
        below(measure_layer(checks, group, base), base + m),
{
    let a = reset_layer(group, base);
    let b = measure_layer(checks, group, base);
    assert forall|i: int| 0 <= i < a.len() implies gate_below(#[trigger] a[i], base + m) by {
        assert(group[i] < m);
    }
    assert forall|i: int| 0 <= i < b.len() implies gate_below(#[trigger] b[i], base + m) by {
        assert(group[i] < m);
    }
}

/// The checks of a round stay within their qubits and their ancillas.
pub open spec fn round_ready(checks: Seq<SignedPauli<usize>>, base: int) -> bool {
    &&& 0 <= base
    &&& base + checks.len() <= usize::MAX
    &&& data_below(checks, base)
}

proof fn lemma_buckets_below(
    checks: Seq<SignedPauli<usize>>,
    classes: Seq<int>,
    left: Set<usize>,
    class: int,
    side: Option<bool>,
    base: int,
)
    requires
        round_ready(checks, base),
    ensures
        each_below(
            bucket_layers(
                buckets(
                    part_sites(round_sites(checks, checks.len()), classes, left, class, side),
                    checks.len(),
                ),
                base,
            ),
            base + checks.len(),
        ),
{
    let m = checks.len();
    let all = round_sites(checks, m);
    lemma_round_sites_below(checks, m, base);
    lemma_part_members(all, classes, left, class, side, m, base);
    let part = part_sites(all, classes, left, class, side);
    let colors = edge_colors(site_edges(part, m), part.len());
    let layers = bucket_layers(buckets(part, m), base);
    assert forall|k: int| 0 <= k < layers.len() implies below(#[trigger] layers[k], base + m) by {
        lemma_color_members(part, colors, k, m, base);
        lemma_controlled_below(sites_of_color(part, colors, k), m, base);
    }
}

proof fn lemma_phase_layers_below(
    checks: Seq<SignedPauli<usize>>,
    classes: Seq<int>,
    n: nat,
    base: int,
)
    requires
        round_ready(checks, base),
    ensures
        each_below(phase_layers(checks, classes, n, base), base + checks.len()),
    decreases n,
{
    if n > 0 {
        let none = Set::<usize>::empty();
        lemma_phase_layers_below(checks, classes, (n - 1) as nat, base);
        lemma_buckets_below(checks, classes, none, n - 1, None, base);
        let part = part_sites(round_sites(checks, checks.len()), classes, none, n - 1, None);
        lemma_each_below_add(
            phase_layers(checks, classes, (n - 1) as nat, base),
            bucket_layers(buckets(part, checks.len()), base),
            base + checks.len(),
        );
    }
}

proof fn lemma_class_layers_below(
    checks: Seq<SignedPauli<usize>>,
    colors: Seq<int>,
    n: nat,
    base: int,
)
    requires
        round_ready(checks, base),
    ensures
        each_below(class_layers(checks, colors, n, base), base + checks.len()),
    decreases n,
{
    if n > 0 {
        let m = checks.len();
        lemma_class_layers_below(checks, colors, (n - 1) as nat, base);
        let here = lockstep_layers(checks, colors, n - 1, base);
        assert forall|k: int| 0 <= k < here.len() implies below(#[trigger] here[k], base + m) by {
            lemma_lockstep_members(checks, colors, n - 1, k, m, base);
            lemma_controlled_below(lockstep(checks, colors, n - 1, k, m), m, base);
        }
        lemma_each_below_add(class_layers(checks, colors, (n - 1) as nat, base), here, base + m);
    }
}

proof fn lemma_framed_below(
    checks: Seq<SignedPauli<usize>>,
    group: Seq<int>,
    inner: Seq<Seq<GateModel<usize>>>,
    m: nat,
    base: int,
)
    requires
        proper_group(group, m),
        0 <= base,
        base + m <= usize::MAX,
        each_below(inner, base + m),
    ensures
        below(
            layered(
                seq![reset_layer(group, base)] + inner + seq![measure_layer(checks, group, base)],
            ),
            base + m,
        ),
{
    lemma_group_below(checks, group, m, base);
    let front = seq![reset_layer(group, base)];
    let back = seq![measure_layer(checks, group, base)];
    assert(each_below(front, base + m));
    assert(each_below(back, base + m));
    lemma_each_below_add(front, inner, base + m);
    lemma_each_below_add(front + inner, back, base + m);
    lemma_layered_below(front + inner + back, base + m);
}

proof fn lemma_round_below(schedule: SecSchedule, checks: Seq<SignedPauli<usize>>, base: int)
    requires
        round_ready(checks, base),
    ensures
        below(round_gates(schedule, checks, base), base + checks.len()),
        schedule is Lrc ==> below(layered(sequential_layers(checks, base)), base + checks.len()),
{
    let m = checks.len();
    match schedule {
        SecSchedule::Legacy => {
            let colors = greedy_colors(meeting(checks, false), m);
            lemma_class_layers_below(checks, colors, color_count(colors), base);
            lemma_framed_below(
                checks,
                everyone(m),
                class_layers(checks, colors, color_count(colors), base),
                m,
                base,
            );
        },
        SecSchedule::Lrc => {
            let classes = class_colors(meeting(checks, true), m);
            lemma_phase_layers_below(checks, classes, color_count(classes), base);
            lemma_framed_below(
                checks,
                everyone(m),
                phase_layers(checks, classes, color_count(classes), base),
                m,
                base,
            );
        },
    }
}

proof fn lemma_detectors_below(s: Seq<GateModel<usize>>, b: int)
    requires
        forall|i: int| 0 <= i < s.len() ==> (#[trigger] s[i]) is DeclareDetector,
    ensures
        below(s, b),
{
    assert forall|i: int| 0 <= i < s.len() implies gate_below(#[trigger] s[i], b) by {
        assert(s[i] is DeclareDetector);
    }
}

proof fn lemma_bucket_at_below(layers: Seq<Seq<Site>>, k: int, base: int, b: int)
    requires
        each_below(bucket_layers(layers, base), b),
    ensures
        below(bucket_at(layers, k, base), b),
{
    if 0 <= k < layers.len() {
        assert(below(bucket_layers(layers, base)[k], b));
    }
}

proof fn lemma_repeat_below(n: usize, body: Seq<GateModel<usize>>, b: int)
    requires
        below(body, b),
    ensures
        gate_below(GateModel::Repeat(n, body), b),
{
    let g = GateModel::Repeat(n, body);
    lemma_all_below(body, b);
    assert(gate_qubits(g) == all_qubits(body));
    assert forall|x: int| 0 <= x < gate_qubits(g).len() implies (#[trigger] gate_qubits(g)[x]) < b by {
        assert(all_qubits(body)[x] < b);
    }
}

/// The segment's parts stay within the pool.
spec fn parts_below(seg: SegModel, b: int) -> bool {
    &&& each_below(bucket_layers(seg.l1, seg.base), b)
    &&& each_below(bucket_layers(seg.r1, seg.base), b)
    &&& each_below(bucket_layers(seg.l2, seg.base), b)
    &&& each_below(bucket_layers(seg.r2, seg.base), b)
}

proof fn lemma_segment_round_below(seg: SegModel, prologue: bool, m: nat)
    requires
        parts_below(seg, seg.base + m),
        proper_group(seg.g1, m),
        proper_group(seg.g2, m),
        0 <= seg.base,
        seg.base + m <= usize::MAX,
    ensures
        below(layered(seg.round_layers(prologue)), seg.base + m),
{
    let b = seg.base + m;
    let one = Seq::new(seg.first_length(prologue), |k: int| seg.first_phase(k, prologue));
    let two = Seq::new(seg.second_length(), |k: int| seg.second_phase(k, prologue));
    lemma_group_below(seg.checks, seg.g2, m, seg.base);
    let none = Seq::<GateModel<usize>>::empty();
    assert(below(none, b));
    assert forall|k: int| 0 <= k < one.len() implies below(#[trigger] one[k], b) by {
        lemma_bucket_at_below(seg.l1, k, seg.base, b);
        lemma_bucket_at_below(seg.r2, k, seg.base, b);
        lemma_below_add(
            bucket_at(seg.l1, k, seg.base),
            if prologue {
                none
            } else {
                bucket_at(seg.r2, k, seg.base)
            },
            b,
        );
    }
    assert forall|k: int| 0 <= k < two.len() implies below(#[trigger] two[k], b) by {
        lemma_bucket_at_below(seg.r1, k, seg.base, b);
        lemma_bucket_at_below(seg.l2, k - 2, seg.base, b);
        let second = if k == 0 {
            if prologue {
                none
            } else {
                measure_layer(seg.checks, seg.g2, seg.base)
            }
        } else if k == 1 {
            reset_layer(seg.g2, seg.base)
        } else {
            bucket_at(seg.l2, k - 2, seg.base)
        };
        lemma_below_add(bucket_at(seg.r1, k, seg.base), second, b);
    }
    lemma_each_below_add(one, two, b);
    lemma_framed_below(seg.checks, seg.g1, one + two, m, seg.base);
    assert(seg.round_layers(prologue) =~= seq![reset_layer(seg.g1, seg.base)] + (one + two) + seq![
        measure_layer(seg.checks, seg.g1, seg.base),
    ]);
}

proof fn lemma_segment_below(
    checks: Seq<SignedPauli<usize>>,
    classes: Seq<int>,
    base: int,
    r: int,
)
    requires
        round_ready(checks, base),
        classes.len() == checks.len(),
    ensures
        below(seg_model(checks, classes, base).gates(r), base + checks.len()),
{
    let seg = seg_model(checks, classes, base);
    let m = checks.len();
    let b = base + m;
    let left = left_qubits(round_sites(checks, m), classes);
    lemma_buckets_below(checks, classes, left, 0, Some(true), base);
    lemma_buckets_below(checks, classes, left, 0, Some(false), base);
    lemma_buckets_below(checks, classes, left, 1, Some(true), base);
    lemma_buckets_below(checks, classes, left, 1, Some(false), base);
    lemma_members_differ(classes, 0, m);
    lemma_members_differ(classes, 1, m);
    lemma_group_below(checks, seg.g2, m, base);
    lemma_segment_round_below(seg, true, m);
    lemma_segment_round_below(seg, false, m);
    lemma_detectors_below(seg.g1_detectors(), b);
    lemma_detectors_below(seg.g2_detectors(), b);
    lemma_detectors_below(seg.closing_detectors(), b);
    let none = Seq::<GateModel<usize>>::empty();
    assert(below(none, b));
    let steady = layered(seg.round_layers(false));
    lemma_below_add(steady, seg.g1_detectors(), b);
    lemma_below_add(steady + seg.g1_detectors(), seg.g2_detectors(), b);
    let body = seg.steady_body();
    let again = GateModel::Repeat((r - 2) as usize, body);
    lemma_repeat_below((r - 2) as usize, body, b);
    lemma_below_push(none, again, b);
    assert(none.push(again) =~= seq![again]);
    let back = seq![measure_layer(checks, seg.g2, base)];
    assert(each_below(back, b));
    lemma_each_below_add(bucket_layers(seg.r2, base), back, b);
    lemma_layered_below(seg.epilogue_layers(), b);
    let p = layered(seg.round_layers(true));
    let q = if r >= 2 {
        steady + seg.g1_detectors()
    } else {
        none
    };
    let s = if r >= 3 {
        seq![again]
    } else {
        none
    };
    let t = layered(seg.epilogue_layers());
    let u = if r >= 2 {
        seg.closing_detectors()
    } else {
        none
    };
    lemma_below_add(p, q, b);
    lemma_below_add(p + q, s, b);
    lemma_below_add(p + q + s, t, b);
    lemma_below_add(p + q + s + t, u, b);
}

// ---------------------------------------------------------------------------
// Whole circuits
// ---------------------------------------------------------------------------
/// Checks that are measured in a circuit below `base` act below `base`.
proof fn lemma_checks_below(
    s: Seq<GateModel<usize>>,
    checks: Seq<SignedPauli<usize>>,
    base: int,
)
    requires
        below(s, base),
        forall|j: int| 0 <= j < checks.len() ==> s.contains(GateModel::MPP(#[trigger] checks[j])),
    ensures
        data_below(checks, base),
{
    assert forall|j: int, x: int|
        0 <= j < checks.len() && 0 <= x < acts(checks, j).len() implies (#[trigger] acts(
        checks,
        j,
    )[x]).0 < base by {
        let p = checks[j];
        let g = GateModel::MPP(p);
        let i = s.index_of(g);
        assert(s[i] == g);
        assert(gate_below(s[i], base));
        lemma_active_sites(p.sites, x);
        let k = p.sites.index_of(acts(checks, j)[x]);
        assert(gate_qubits(g)[k] == acts(checks, j)[x].0);
    }
}

proof fn lemma_trailing(s: Seq<GateModel<usize>>)
    ensures
        trailing_checks(s).len() == trailing_run(s),
        trailing_run(s) <= widest_round(s),
        forall|j: int|
            0 <= j < trailing_checks(s).len() ==> s.contains(
                GateModel::MPP(#[trigger] trailing_checks(s)[j]),
            ),
    decreases s.len(),
{
    if s.len() > 0 && s.last() is MPP {
        let front = s.drop_last();
        lemma_trailing(front);
        let c = trailing_checks(s);
        let before = trailing_checks(front);
        assert forall|j: int| 0 <= j < c.len() implies s.contains(
            GateModel::MPP(#[trigger] c[j]),
        ) by {
            if j < before.len() {
                assert(c[j] == before[j]);
                let g = GateModel::MPP(before[j]);
                let i = front.index_of(g);
                assert(s[i] == g);
            } else {
                assert(s[s.len() - 1] == GateModel::MPP(c[j]));
            }
        }
    }
}

proof fn lemma_below_front(s: Seq<GateModel<usize>>, b: int)
    requires
        below(s, b),
        s.len() > 0,
    ensures
        below(s.drop_last(), b),
        gate_below(s.last(), b),
{
    let front = s.drop_last();
    assert forall|i: int| 0 <= i < front.len() implies gate_below(#[trigger] front[i], b) by {
        assert(front[i] == s[i]);
    }
    assert(gate_below(s[s.len() - 1], b));
}

/// Replacing every round in place needs no ancilla beyond the pool.
pub proof fn law_replacing_stays_in_pool(
    schedule: SecSchedule,
    s: Seq<GateModel<usize>>,
    base: int,
)
    requires
        below(s, base),
        0 <= base,
        base + widest_round(s) <= usize::MAX,
    ensures
        below(all_replaced(schedule, s, base), base + widest_round(s)),
    decreases s, 1nat,
{
    lemma_rounds_below(schedule, s, base);
    let checks = trailing_checks(s);
    lemma_trailing(s);
    lemma_checks_below(s, checks, base);
    lemma_round_below(schedule, checks, base);
    lemma_below_more(
        round_gates(schedule, checks, base),
        base + checks.len(),
        base + widest_round(s),
    );
    lemma_below_add(
        rounds_replaced(schedule, s, base),
        round_gates(schedule, checks, base),
        base + widest_round(s),
    );
}

proof fn lemma_rounds_below(schedule: SecSchedule, s: Seq<GateModel<usize>>, base: int)
    requires
        below(s, base),
        0 <= base,
        base + widest_round(s) <= usize::MAX,
    ensures
        below(rounds_replaced(schedule, s, base), base + widest_round(s)),
    decreases s, 0nat,
{
    if s.len() > 0 {
        let front = s.drop_last();
        let b = base + widest_round(s);
        lemma_below_front(s, base);
        match s.last() {
            GateModel::MPP(_) => {
                lemma_rounds_below(schedule, front, base);
                lemma_below_more(
                    rounds_replaced(schedule, front, base),
                    base + widest_round(front),
                    b,
                );
            },
            GateModel::Repeat(n, body) => {
                law_replacing_stays_in_pool(schedule, front, base);
                lemma_below_more(
                    all_replaced(schedule, front, base),
                    base + widest_round(front),
                    b,
                );
                assert forall|x: int| 0 <= x < all_qubits(body).len() implies (
                #[trigger] all_qubits(body)[x]) < base by {
                    assert(gate_qubits(s.last())[x] < base);
                }
                lemma_below_all(body, base);
                law_replacing_stays_in_pool(schedule, body, base);
                let lowered = all_replaced(schedule, body, base);
                lemma_below_more(lowered, base + widest_round(body), b);
                let again = GateModel::Repeat(n, lowered);
                lemma_repeat_below(n, lowered, b);
                lemma_below_push(all_replaced(schedule, front, base), again, b);
            },
            g => {
                law_replacing_stays_in_pool(schedule, front, base);
                lemma_below_more(
                    all_replaced(schedule, front, base),
                    base + widest_round(front),
                    b,
                );
                assert(gate_below(g, base));
                assert(gate_below(g, b));
                lemma_below_push(all_replaced(schedule, front, base), g, b);
            },
        }
    }
}

proof fn lemma_widest_skip(s: Seq<GateModel<usize>>, i: int)
    requires
        0 <= i <= s.len(),
    ensures
        widest_round(s.skip(i)) <= widest_round(s),
        trailing_run(s.skip(i)) <= trailing_run(s),
    decreases s.len(),
{
    if i < s.len() {
        lemma_widest_skip(s.drop_last(), i);
        assert(s.skip(i).drop_last() =~= s.drop_last().skip(i));
        assert(s.skip(i).last() == s.last());
    } else {
        assert(s.skip(i) =~= Seq::<GateModel<usize>>::empty());
    }
}

proof fn lemma_widest_take(s: Seq<GateModel<usize>>, i: int)
    requires
        0 <= i <= s.len(),
    ensures
        widest_round(s.take(i)) <= widest_round(s),
    decreases s.len() - i,
{
    if i < s.len() {
        lemma_widest_take(s, i + 1);
        assert(s.take(i + 1).drop_last() =~= s.take(i));
    } else {
        assert(s.take(i) =~= s);
    }
}

proof fn lemma_run_length(s: Seq<GateModel<usize>>)
    requires
        forall|i: int| 0 <= i < s.len() ==> (#[trigger] s[i]) is MPP,
    ensures
        trailing_run(s) == s.len(),
    decreases s.len(),
{
    if s.len() > 0 {
        let front = s.drop_last();
        assert(s[s.len() - 1] is MPP);
        assert forall|i: int| 0 <= i < front.len() implies (#[trigger] front[i]) is MPP by {
            assert(front[i] == s[i]);
        }
        lemma_run_length(front);
    }
}

/// The round at the start of a circuit is no wider than its widest.
proof fn lemma_leading_width(s: Seq<GateModel<usize>>)
    ensures
        leading_checks(s).len() <= widest_round(s),
{
    lemma_leading(s);
    let m = leading_checks(s).len() as int;
    let t = s.take(m);
    assert forall|i: int| 0 <= i < t.len() implies (#[trigger] t[i]) is MPP by {
        assert(s[i] == GateModel::MPP(leading_checks(s)[i]));
    }
    lemma_run_length(t);
    lemma_trailing(t);
    lemma_widest_take(s, m);
}

#[verifier::spinoff_prover]
proof fn lemma_step_below(s: Seq<GateModel<usize>>, base: int, map: Seq<usize>)
    requires
        s.len() > 0,
        below(s, base),
        0 <= base,
        base + widest_round(s) <= usize::MAX,
    ensures
        below(lrc_step(s, base, map).0, base + widest_round(s)),
{
    let b = base + widest_round(s);
    let step = lrc_step(s, base, map);
    let none = Seq::<GateModel<usize>>::empty();
    assert(below(none, b));
    assert(gate_below(s[0], base));
    match s[0] {
        GateModel::MPP(_) => {
            lemma_leading(s);
            lemma_leading_width(s);
            let checks = leading_checks(s);
            let m = checks.len();
            assert forall|j: int| 0 <= j < m implies s.contains(
                GateModel::MPP(#[trigger] checks[j]),
            ) by {
                assert(s[j] == GateModel::MPP(checks[j]));
            }
            lemma_checks_below(s, checks, base);
            let classes = class_colors(meeting(checks, true), m);
            lemma_class_colors(meeting(checks, true), m);
            let again = repeats(s);
            let r: int = 1 + match again {
                Some(n) => n as int,
                None => 0,
            };
            lemma_segment_below(checks, classes, base, r);
            lemma_below_more(seg_model(checks, classes, base).gates(r), base + m, b);
            let round = layered(sequential_layers(checks, base));
            lemma_round_below(SecSchedule::Lrc, checks, base);
            lemma_below_more(round, base + m, b);
            let compare = round_detectors(m);
            lemma_detectors_below(compare, b);
            lemma_below_add(round, compare, b);
            if let Some(n) = again {
                lemma_repeat_below(n, round + compare, b);
                lemma_below_push(round, GateModel::Repeat(n, round + compare), b);
            }
        },
        GateModel::Repeat(n, body) => {
            assert forall|x: int| 0 <= x < all_qubits(body).len() implies (
            #[trigger] all_qubits(body)[x]) < base by {
                assert(gate_qubits(s[0])[x] < base);
            }
            lemma_below_all(body, base);
            lemma_widest_take(s, 1);
            assert(s.take(1).drop_last() =~= none);
            assert(s.take(1).last() == s[0]);
            assert(widest_round(none) == 0);
            assert(widest_round(body) <= widest_round(s));
            law_replacing_stays_in_pool(SecSchedule::Lrc, body, base);
            let lowered = all_replaced(SecSchedule::Lrc, body, base);
            lemma_below_more(lowered, base + widest_round(body), b);
            lemma_repeat_below(n, lowered, b);
            lemma_below_push(none, GateModel::Repeat(n, lowered), b);
            assert(step.0 =~= none.push(GateModel::Repeat(n, lowered)));
        },
        _ => {
            let g = step.0[0];
            assert(gate_qubits(g) =~= gate_qubits(s[0]));
            assert(gate_below(g, b)) by {
                assert forall|x: int| 0 <= x < gate_qubits(g).len() implies (#[trigger] gate_qubits(
                    g,
                )[x]) < b by {
                    assert(gate_qubits(s[0])[x] < base);
                }
            }
            lemma_below_push(none, g, b);
            assert(step.0 =~= none.push(g));
        },
    }
}

proof fn lemma_lrc_below(s: Seq<GateModel<usize>>, base: int, map: Seq<usize>)
    requires
        below(s, base),
        0 <= base,
        base + widest_round(s) <= usize::MAX,
    ensures
        below(lrc(s, base, map).0, base + widest_round(s)),
    decreases s.len(),
{
    if s.len() > 0 {
        let b = base + widest_round(s);
        let step = lrc_step(s, base, map);
        lemma_step_records(s, base, map);
        lemma_step_below(s, base, map);
        let rest = s.skip(step.2);
        assert forall|i: int| 0 <= i < rest.len() implies gate_below(#[trigger] rest[i], base) by {
            assert(rest[i] == s[step.2 + i]);
        }
        lemma_widest_skip(s, step.2);
        lemma_lrc_below(rest, base, step.1);
        let tail = lrc(rest, base, step.1).0;
        lemma_below_more(tail, base + widest_round(rest), b);
        lemma_below_add(step.0, tail, b);
    }
}

/// The lowered circuit uses no qubits but those of the circuit and as many ancillas
/// right behind them as the widest round has checks.
pub proof fn law_ancillas_come_from_pool(schedule: SecSchedule, s: Seq<GateModel<usize>>)
    requires
        ancilla_base(s) + widest_round(s) <= usize::MAX,
    ensures
        below(sec_gates(schedule, s), ancilla_base(s) + widest_round(s)),
{
    let base = ancilla_base(s);
    assert forall|x: int| 0 <= x < all_qubits(s).len() implies (#[trigger] all_qubits(s)[x])
        < base by {
        lemma_highest(all_qubits(s), x);
    }
    lemma_below_all(s, base);
    match schedule {
        SecSchedule::Lrc => lemma_lrc_below(s, base, Seq::empty()),
        SecSchedule::Legacy => law_replacing_stays_in_pool(SecSchedule::Legacy, s, base),
    }
}

} // verus!
