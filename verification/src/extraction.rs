//! What lowering syndrome extraction keeps: the number of measurement records, and
//! every record, at a place of its own.

use vstd::prelude::*;

#[allow(unused_imports)]
use crate::coloring::{
    class_colors, greedy_colors, least_two_coloring, lemma_greedy_step, lemma_least_exists,
    two_colorable,
};
#[allow(unused_imports)]
use crate::pbc::SignedPauli;
#[allow(unused_imports)]
use crate::physical::{
    gate_total, lemma_total_add, lemma_total_push, record_total, Counted, GateModel,
};
#[allow(unused_imports)]
use crate::sec_schedule::{
    all_replaced, ancilla_base, bucket_at, bucket_layers, buckets, class_layers, class_rank,
    color_count, everyone, extended, layered, leading_checks, lemma_color_count,
    lemma_detectors_total, lemma_extended_within, lemma_leading, lemma_members_grow,
    lemma_rank_bound, lemma_segment_total, lemma_total_skip, lemma_two_classes, lockstep_layers,
    lrc, lrc_step, map_within, measure_layer, meeting, members, part_sites, phase_layers,
    record_position, record_positions, repeats, reset_layer, round_detectors, round_gates,
    round_sites, rounds_replaced, sec_gates, seg_model, sequential_layers, trailing_checks,
    SecSchedule, SegModel, Site,
};

verus! {

// ---------------------------------------------------------------------------
// The number of records
// ---------------------------------------------------------------------------
/// The records of all layers.
pub open spec fn layer_records(layers: Seq<Seq<GateModel<usize>>>) -> nat
    decreases layers.len(),
{
    if layers.len() == 0 {
        0
    } else {
        layer_records(layers.drop_last()) + record_total(layers.last())
    }
}

/// No gate of the layers measures.
pub open spec fn quiet_layers(layers: Seq<Seq<GateModel<usize>>>) -> bool {
    forall|k: int| 0 <= k < layers.len() ==> record_total(#[trigger] layers[k]) == 0
}

proof fn lemma_layered_records(layers: Seq<Seq<GateModel<usize>>>)
    ensures
        record_total(layered(layers)) == layer_records(layers),
    decreases layers.len(),
{
    if layers.len() > 0 {
        lemma_layered_records(layers.drop_last());
        if layers.last().len() > 0 {
            lemma_total_add(
                Counted::Records,
                layered(layers.drop_last()),
                layers.last().push(GateModel::Tick),
            );
            lemma_total_push(Counted::Records, layers.last(), GateModel::Tick);
        }
    }
}

proof fn lemma_layer_records_add(a: Seq<Seq<GateModel<usize>>>, b: Seq<Seq<GateModel<usize>>>)
    ensures
        layer_records(a + b) == layer_records(a) + layer_records(b),
    decreases b.len(),
{
    if b.len() == 0 {
        assert(a + b =~= a);
    } else {
        lemma_layer_records_add(a, b.drop_last());
        assert((a + b).drop_last() =~= a + b.drop_last());
    }
}

proof fn lemma_quiet_records(layers: Seq<Seq<GateModel<usize>>>)
    requires
        quiet_layers(layers),
    ensures
        layer_records(layers) == 0,
    decreases layers.len(),
{
    if layers.len() > 0 {
        assert(record_total(layers[layers.len() - 1]) == 0);
        assert forall|k: int| 0 <= k < layers.drop_last().len() implies record_total(
            #[trigger] layers.drop_last()[k],
        ) == 0 by {
            assert(record_total(layers[k]) == 0);
        }
        lemma_quiet_records(layers.drop_last());
    }
}

proof fn lemma_one_layer(layer: Seq<GateModel<usize>>)
    ensures
        layer_records(seq![layer]) == record_total(layer),
{
    assert(seq![layer].drop_last() =~= Seq::<Seq<GateModel<usize>>>::empty());
    assert(layer_records(Seq::<Seq<GateModel<usize>>>::empty()) == 0);
}

/// Gates that do not measure leave no record.
proof fn lemma_no_records(s: Seq<GateModel<usize>>)
    requires
        forall|i: int| 0 <= i < s.len() ==> (#[trigger] s[i]) is Controlled || s[i] is Reset,
    ensures
        record_total(s) == 0,
    decreases s.len(),
{
    if s.len() > 0 {
        assert(s[s.len() - 1] is Controlled || s[s.len() - 1] is Reset);
        assert forall|i: int| 0 <= i < s.drop_last().len() implies (
        #[trigger] s.drop_last()[i]) is Controlled || s.drop_last()[i] is Reset by {
            assert(s[i] is Controlled || s[i] is Reset);
        }
        lemma_no_records(s.drop_last());
        assert(gate_total(Counted::Records, s.last()) == 0);
    }
}

proof fn lemma_measure_records(checks: Seq<SignedPauli<usize>>, group: Seq<int>, base: int)
    ensures
        record_total(measure_layer(checks, group, base)) == group.len(),
    decreases group.len(),
{
    let layer = measure_layer(checks, group, base);
    if group.len() > 0 {
        lemma_measure_records(checks, group.drop_last(), base);
        assert(layer.drop_last() =~= measure_layer(checks, group.drop_last(), base));
        assert(layer.last() is Measure);
        assert(gate_total(Counted::Records, layer.last()) == 1);
    } else {
        assert(layer =~= Seq::<GateModel<usize>>::empty());
    }
}

proof fn lemma_class_layers_quiet(
    checks: Seq<SignedPauli<usize>>,
    colors: Seq<int>,
    n: nat,
    base: int,
)
    ensures
        quiet_layers(class_layers(checks, colors, n, base)),
    decreases n,
{
    if n > 0 {
        lemma_class_layers_quiet(checks, colors, (n - 1) as nat, base);
        let before = class_layers(checks, colors, (n - 1) as nat, base);
        let here = lockstep_layers(checks, colors, n - 1, base);
        let all = class_layers(checks, colors, n, base);
        assert forall|k: int| 0 <= k < all.len() implies record_total(#[trigger] all[k]) == 0 by {
            if k < before.len() {
                assert(all[k] == before[k]);
            } else {
                assert(all[k] == here[k - before.len()]);
                lemma_no_records(all[k]);
            }
        }
    }
}

proof fn lemma_bucket_layers_quiet(bs: Seq<Seq<Site>>, base: int)
    ensures
        quiet_layers(bucket_layers(bs, base)),
{
    let all = bucket_layers(bs, base);
    assert forall|k: int| 0 <= k < all.len() implies record_total(#[trigger] all[k]) == 0 by {
        lemma_no_records(all[k]);
    }
}

proof fn lemma_phase_layers_quiet(
    checks: Seq<SignedPauli<usize>>,
    classes: Seq<int>,
    n: nat,
    base: int,
)
    ensures
        quiet_layers(phase_layers(checks, classes, n, base)),
    decreases n,
{
    if n > 0 {
        lemma_phase_layers_quiet(checks, classes, (n - 1) as nat, base);
        let part = part_sites(
            round_sites(checks, checks.len()),
            classes,
            Set::empty(),
            n - 1,
            None,
        );
        let before = phase_layers(checks, classes, (n - 1) as nat, base);
        let here = bucket_layers(buckets(part, checks.len()), base);
        lemma_bucket_layers_quiet(buckets(part, checks.len()), base);
        let all = phase_layers(checks, classes, n, base);
        assert forall|k: int| 0 <= k < all.len() implies record_total(#[trigger] all[k]) == 0 by {
            if k < before.len() {
                assert(all[k] == before[k]);
            } else {
                assert(all[k] == here[k - before.len()]);
            }
        }
    }
}

/// A reset, layers that do not measure, and a measurement of `group`.
proof fn lemma_framed_records(
    first: Seq<int>,
    inner: Seq<Seq<GateModel<usize>>>,
    checks: Seq<SignedPauli<usize>>,
    group: Seq<int>,
    base: int,
)
    ensures
        record_total(
            layered(
                seq![reset_layer(first, base)] + inner + seq![measure_layer(checks, group, base)],
            ),
        ) == layer_records(inner) + group.len(),
{
    let front = seq![reset_layer(first, base)];
    let back = seq![measure_layer(checks, group, base)];
    lemma_layered_records(front + inner + back);
    lemma_layer_records_add(front + inner, back);
    lemma_layer_records_add(front, inner);
    lemma_one_layer(reset_layer(first, base));
    lemma_one_layer(measure_layer(checks, group, base));
    lemma_no_records(reset_layer(first, base));
    lemma_measure_records(checks, group, base);
}

/// One round of checks yields one record for each, under either schedule.
pub proof fn law_round_has_a_record_per_check(
    schedule: SecSchedule,
    checks: Seq<SignedPauli<usize>>,
    base: int,
)
    ensures
        record_total(round_gates(schedule, checks, base)) == checks.len(),
{
    let m = checks.len();
    if m > 0 {
        match schedule {
            SecSchedule::Legacy => {
                let colors = greedy_colors(meeting(checks, false), m);
                let inner = class_layers(checks, colors, color_count(colors), base);
                lemma_class_layers_quiet(checks, colors, color_count(colors), base);
                lemma_quiet_records(inner);
                lemma_framed_records(everyone(m), inner, checks, everyone(m), base);
            },
            SecSchedule::Lrc => {
                let classes = class_colors(meeting(checks, true), m);
                let inner = phase_layers(checks, classes, color_count(classes), base);
                lemma_phase_layers_quiet(checks, classes, color_count(classes), base);
                lemma_quiet_records(inner);
                lemma_framed_records(everyone(m), inner, checks, everyone(m), base);
            },
        }
    }
}

/// Only the first layer measures.
proof fn lemma_first_layer(layers: Seq<Seq<GateModel<usize>>>)
    requires
        layers.len() > 0,
        forall|k: int| 1 <= k < layers.len() ==> record_total(#[trigger] layers[k]) == 0,
    ensures
        layer_records(layers) == record_total(layers[0]),
{
    let rest = layers.skip(1);
    assert(layers =~= seq![layers[0]] + rest);
    lemma_layer_records_add(seq![layers[0]], rest);
    lemma_one_layer(layers[0]);
    assert forall|k: int| 0 <= k < rest.len() implies record_total(#[trigger] rest[k]) == 0 by {
        assert(rest[k] == layers[k + 1]);
    }
    lemma_quiet_records(rest);
}

proof fn lemma_bucket_at_records(bs: Seq<Seq<Site>>, k: int, base: int)
    ensures
        record_total(bucket_at(bs, k, base)) == 0,
{
    lemma_no_records(bucket_at(bs, k, base));
}

/// A round of a segment measures `g1`, and the `g2` of the round before, which the
/// first round has none of.
pub proof fn law_segment_round_records(seg: SegModel, prologue: bool)
    ensures
        record_total(layered(seg.round_layers(prologue))) == seg.g1.len() + if prologue {
            0
        } else {
            seg.g2.len()
        },
{
    let one = Seq::new(seg.first_length(prologue), |k: int| seg.first_phase(k, prologue));
    let two = Seq::new(seg.second_length(), |k: int| seg.second_phase(k, prologue));
    assert forall|k: int| 0 <= k < one.len() implies record_total(#[trigger] one[k]) == 0 by {
        lemma_no_records(one[k]);
    }
    lemma_quiet_records(one);
    assert forall|k: int| 1 <= k < two.len() implies record_total(#[trigger] two[k]) == 0 by {
        lemma_no_records(two[k]);
    }
    lemma_first_layer(two);
    let left = bucket_at(seg.r1, 0, seg.base);
    let right = measure_layer(seg.checks, seg.g2, seg.base);
    lemma_bucket_at_records(seg.r1, 0, seg.base);
    if prologue {
        assert(two[0] =~= left);
    } else {
        assert(two[0] =~= left + right);
        lemma_total_add(Counted::Records, left, right);
        lemma_measure_records(seg.checks, seg.g2, seg.base);
    }
    lemma_layer_records_add(one, two);
    lemma_framed_records(seg.g1, one + two, seg.checks, seg.g1, seg.base);
    assert(seg.round_layers(prologue) =~= seq![reset_layer(seg.g1, seg.base)] + (one + two) + seq![
        measure_layer(seg.checks, seg.g1, seg.base),
    ]);
}

/// A segment of `r` rounds yields as many records as `r` rounds of checks.
pub proof fn law_segment_records(seg: SegModel, r: int)
    requires
        1 <= r <= usize::MAX + 1,
        seg.g1.len() + seg.g2.len() == seg.checks.len(),
    ensures
        record_total(seg.gates(r)) == r * seg.checks.len(),
{
    let m = seg.checks.len() as int;
    let none = Seq::<GateModel<usize>>::empty();
    assert(record_total(none) == 0);
    let a = layered(seg.round_layers(true));
    let steady = layered(seg.round_layers(false));
    let b = if r >= 2 {
        steady + seg.g1_detectors()
    } else {
        none
    };
    let body = seg.steady_body();
    let c = if r >= 3 {
        seq![GateModel::Repeat((r - 2) as usize, body)]
    } else {
        none
    };
    let d = layered(seg.epilogue_layers());
    let e = if r >= 2 {
        seg.closing_detectors()
    } else {
        none
    };
    law_segment_round_records(seg, true);
    law_segment_round_records(seg, false);
    lemma_detectors_total(seg.g1_detectors());
    lemma_detectors_total(seg.g2_detectors());
    lemma_detectors_total(seg.closing_detectors());
    lemma_total_add(Counted::Records, steady, seg.g1_detectors());
    lemma_total_add(Counted::Records, steady + seg.g1_detectors(), seg.g2_detectors());
    assert(record_total(body) == m);
    if r >= 3 {
        assert(c =~= none.push(GateModel::Repeat((r - 2) as usize, body)));
        lemma_total_push(Counted::Records, none, GateModel::Repeat((r - 2) as usize, body));
        assert(record_total(c) == (r - 2) * m);
    }
    lemma_layered_records(seg.epilogue_layers());
    lemma_layer_records_add(
        bucket_layers(seg.r2, seg.base),
        seq![measure_layer(seg.checks, seg.g2, seg.base)],
    );
    lemma_bucket_layers_quiet(seg.r2, seg.base);
    lemma_quiet_records(bucket_layers(seg.r2, seg.base));
    lemma_one_layer(measure_layer(seg.checks, seg.g2, seg.base));
    lemma_measure_records(seg.checks, seg.g2, seg.base);
    lemma_total_add(Counted::Records, a, b);
    lemma_total_add(Counted::Records, a + b, c);
    lemma_total_add(Counted::Records, a + b + c, d);
    lemma_total_add(Counted::Records, a + b + c + d, e);
    assert((r - 2) * m == r * m - 2 * m) by (nonlinear_arith);
    if r == 1 {
        assert(r * m == m) by (nonlinear_arith)
            requires
                r == 1,
        ;
    } else if r == 2 {
        assert(r * m == 2 * m) by (nonlinear_arith)
            requires
                r == 2,
        ;
    }
}

/// Every class is a natural number.
pub proof fn lemma_class_colors(adj: spec_fn(int, int) -> bool, n: nat)
    ensures
        class_colors(adj, n).len() == n,
        forall|j: int| 0 <= j < n ==> 0 <= #[trigger] class_colors(adj, n)[j],
{
    if two_colorable(adj, n) {
        let least = lemma_least_exists(adj, n);
        assert(least_two_coloring(adj, n, class_colors(adj, n)));
    } else {
        lemma_greedy_natural(adj, n);
    }
}

/// Every color is a natural number.
pub proof fn lemma_greedy_natural(adj: spec_fn(int, int) -> bool, n: nat)
    ensures
        greedy_colors(adj, n).len() == n,
        forall|j: int| 0 <= j < n ==> 0 <= #[trigger] greedy_colors(adj, n)[j],
    decreases n,
{
    if n > 0 {
        lemma_greedy_natural(adj, (n - 1) as nat);
        lemma_greedy_step(adj, greedy_colors(adj, (n - 1) as nat), n - 1);
    }
}

/// Where two colors are enough, every class is one of two.
pub proof fn lemma_one_of_two(checks: Seq<SignedPauli<usize>>)
    requires
        color_count(class_colors(meeting(checks, true), checks.len())) == 2,
    ensures
        class_colors(meeting(checks, true), checks.len()).len() == checks.len(),
        forall|j: int|
            0 <= j < checks.len() ==> 0 <= #[trigger] class_colors(
                meeting(checks, true),
                checks.len(),
            )[j] <= 1,
{
    let classes = class_colors(meeting(checks, true), checks.len());
    lemma_class_colors(meeting(checks, true), checks.len());
    assert forall|j: int| 0 <= j < checks.len() implies 0 <= #[trigger] classes[j] <= 1 by {
        lemma_color_count(classes, j);
    }
}

/// Replacing every round by its gadget, in place, keeps the number of records.
pub proof fn law_replacing_keeps_records(
    schedule: SecSchedule,
    s: Seq<GateModel<usize>>,
    base: int,
)
    ensures
        record_total(all_replaced(schedule, s, base)) == record_total(s),
    decreases s, 1nat,
{
    lemma_rounds_replaced(schedule, s, base);
    let checks = trailing_checks(s);
    lemma_total_add(
        Counted::Records,
        rounds_replaced(schedule, s, base),
        round_gates(schedule, checks, base),
    );
    law_round_has_a_record_per_check(schedule, checks, base);
}

proof fn lemma_rounds_replaced(schedule: SecSchedule, s: Seq<GateModel<usize>>, base: int)
    ensures
        record_total(rounds_replaced(schedule, s, base)) + trailing_checks(s).len()
            == record_total(s),
    decreases s, 0nat,
{
    if s.len() > 0 {
        let front = s.drop_last();
        match s.last() {
            GateModel::MPP(_) => {
                lemma_rounds_replaced(schedule, front, base);
                assert(gate_total(Counted::Records, s.last()) == 1);
            },
            GateModel::Repeat(n, body) => {
                law_replacing_keeps_records(schedule, front, base);
                law_replacing_keeps_records(schedule, body, base);
                lemma_total_push(
                    Counted::Records,
                    all_replaced(schedule, front, base),
                    GateModel::Repeat(n, all_replaced(schedule, body, base)),
                );
                let lowered = GateModel::Repeat(n, all_replaced(schedule, body, base));
                assert(gate_total(Counted::Records, lowered) == n * record_total(body));
                assert(gate_total(Counted::Records, s.last()) == n * record_total(body));
                assert(rounds_replaced(schedule, s, base) == all_replaced(
                    schedule,
                    front,
                    base,
                ).push(lowered));
            },
            g => {
                law_replacing_keeps_records(schedule, front, base);
                lemma_total_push(Counted::Records, all_replaced(schedule, front, base), g);
            },
        }
    }
}

proof fn lemma_single(g: GateModel<usize>)
    ensures
        record_total(seq![g]) == gate_total(Counted::Records, g),
{
    let none = Seq::<GateModel<usize>>::empty();
    assert(seq![g] =~= none.push(g));
    lemma_total_push(Counted::Records, none, g);
    assert(record_total(none) == 0);
}

/// What one step of the staggered schedule emits has the records of the gates that
/// it deals with.
#[verifier::spinoff_prover]
pub proof fn lemma_step_records(s: Seq<GateModel<usize>>, base: int, map: Seq<usize>)
    requires
        s.len() > 0,
    ensures
        0 < lrc_step(s, base, map).2 <= s.len(),
        record_total(lrc_step(s, base, map).0) == record_total(s.take(lrc_step(s, base, map).2)),
{
    let step = lrc_step(s, base, map);
    match s[0] {
        GateModel::MPP(_) => {
            lemma_leading(s);
            lemma_segment_total(s);
            let checks = leading_checks(s);
            let m = checks.len() as int;
            let again = repeats(s);
            let n: int = match again {
                Some(n) => n as int,
                None => 0,
            };
            let classes = class_colors(meeting(checks, true), checks.len());
            assert((1 + n) * m == m + n * m) by (nonlinear_arith);
            if color_count(classes) == 2 && 1 + n >= 2 {
                lemma_one_of_two(checks);
                lemma_two_classes(classes, checks.len());
                law_segment_records(seg_model(checks, classes, base), 1 + n);
            } else {
                let round = layered(sequential_layers(checks, base));
                law_round_has_a_record_per_check(SecSchedule::Lrc, checks, base);
                assert(record_total(round) == m);
                if let Some(k) = again {
                    let compare = round_detectors(checks.len());
                    lemma_detectors_total(compare);
                    lemma_total_add(Counted::Records, round, compare);
                    lemma_total_push(
                        Counted::Records,
                        round,
                        GateModel::Repeat(k, round + compare),
                    );
                }
            }
        },
        GateModel::Repeat(n, body) => {
            law_replacing_keeps_records(SecSchedule::Lrc, body, base);
            lemma_single(GateModel::Repeat(n, all_replaced(SecSchedule::Lrc, body, base)));
            lemma_single(s[0]);
            assert(s.take(1) =~= seq![s[0]]);
        },
        _ => {
            assert(step.2 == 1);
            assert(step.0.len() == 1);
            assert(step.0 =~= seq![step.0[0]]);
            lemma_single(step.0[0]);
            lemma_single(s[0]);
            assert(s.take(1) =~= seq![s[0]]);
        },
    }
}

proof fn lemma_lrc_records(s: Seq<GateModel<usize>>, base: int, map: Seq<usize>)
    ensures
        record_total(lrc(s, base, map).0) == record_total(s),
    decreases s.len(),
{
    if s.len() > 0 {
        let step = lrc_step(s, base, map);
        lemma_step_records(s, base, map);
        let rest = lrc(s.skip(step.2), base, step.1);
        lemma_lrc_records(s.skip(step.2), base, step.1);
        lemma_total_add(Counted::Records, step.0, rest.0);
        lemma_total_skip(Counted::Records, s, step.2);
    }
}

/// The lowered circuit has as many measurement records as the circuit.
pub proof fn law_lowering_keeps_records(schedule: SecSchedule, s: Seq<GateModel<usize>>)
    ensures
        record_total(sec_gates(schedule, s)) == record_total(s),
{
    match schedule {
        SecSchedule::Lrc => lemma_lrc_records(s, ancilla_base(s), Seq::empty()),
        SecSchedule::Legacy => law_replacing_keeps_records(SecSchedule::Legacy, s, ancilla_base(s)),
    }
}

// ---------------------------------------------------------------------------
// Where the records land
// ---------------------------------------------------------------------------
/// Where the record of check `j` lands within the records of its round: those of
/// `g1` first, then those of `g2`.
pub open spec fn place_in_round(classes: Seq<int>, j: int) -> int {
    if classes[j] == 0 {
        class_rank(classes, j) as int
    } else {
        (members(classes, 0, classes.len()).len() + class_rank(classes, j)) as int
    }
}

/// The records of a segment come round by round.
pub proof fn law_records_come_round_by_round(classes: Seq<int>, n: int, j: int)
    requires
        forall|j: int| 0 <= j < classes.len() ==> 0 <= #[trigger] classes[j] <= 1,
        0 <= j < classes.len(),
        1 <= n,
    ensures
        record_position(classes, n, j) == (n - 1) * classes.len() + place_in_round(classes, j),
        0 <= place_in_round(classes, j) < classes.len(),
{
    let m = classes.len() as int;
    lemma_rank_bound(classes, j);
    assert(classes[j] == 0 || classes[j] == 1);
    assert((n - 2) * m + m == (n - 1) * m) by (nonlinear_arith);
    if n == 1 {
        assert((n - 1) * m == 0) by (nonlinear_arith)
            requires
                n == 1,
        ;
    }
}

/// Different checks have different places in their round.
pub proof fn law_places_differ(classes: Seq<int>, i: int, j: int)
    requires
        forall|j: int| 0 <= j < classes.len() ==> 0 <= #[trigger] classes[j] <= 1,
        0 <= i < classes.len(),
        0 <= j < classes.len(),
        i != j,
    ensures
        place_in_round(classes, i) != place_in_round(classes, j),
{
    lemma_rank_bound(classes, i);
    lemma_rank_bound(classes, j);
    assert(classes[i] == 0 || classes[i] == 1);
    assert(classes[j] == 0 || classes[j] == 1);
    if classes[i] == classes[j] {
        if i < j {
            lemma_members_grow(classes, classes[i], i as nat, j as nat);
        } else {
            lemma_members_grow(classes, classes[i], j as nat, i as nat);
        }
    }
}

/// The records of a segment fill the places after the records before it, each
/// place once.
pub proof fn law_segment_permutes_records(classes: Seq<int>, start: int, r: nat)
    requires
        forall|j: int| 0 <= j < classes.len() ==> 0 <= #[trigger] classes[j] <= 1,
        0 <= start,
        start + r * classes.len() <= usize::MAX,
    ensures
        record_positions(classes, start, r).len() == r * classes.len(),
        record_positions(classes, start, r).no_duplicates(),
        forall|i: int|
            0 <= i < r * classes.len() ==> start <= #[trigger] record_positions(classes, start, r)[i]
                < start + r * classes.len(),
    decreases r,
{
    let m = classes.len() as int;
    if r == 0 {
        assert(0 * m == 0);
    } else {
        assert((r - 1) * m + m == r * m) by (nonlinear_arith);
        law_segment_permutes_records(classes, start, (r - 1) as nat);
        let before = record_positions(classes, start, (r - 1) as nat);
        let all = record_positions(classes, start, r);
        assert forall|i: int| before.len() <= i < all.len() implies #[trigger] all[i] == start + (r
            - 1) * m + place_in_round(classes, i - before.len()) && start + (r - 1) * m <= all[i]
            < start + r * m by {
            let j = i - before.len();
            law_records_come_round_by_round(classes, r as int, j);
            assert((r - 1) * m >= 0) by (nonlinear_arith)
                requires
                    r >= 1,
                    m >= 0,
            ;
            assert(all[i] == (start + record_position(classes, r as int, j)) as usize);
        }
        assert forall|i: int| 0 <= i < before.len() implies #[trigger] all[i] == before[i] by {}
        assert forall|i: int, j: int| 0 <= i < all.len() && 0 <= j < all.len() && i != j implies
            all[i] != all[j] by {
            if i >= before.len() && j >= before.len() {
                law_places_differ(classes, i - before.len(), j - before.len());
            } else if i < before.len() && j < before.len() {
                assert(all[i] == before[i] && all[j] == before[j]);
            } else if i < before.len() {
                assert(all[i] == before[i]);
            } else {
                assert(all[j] == before[j]);
            }
        }
    }
}

proof fn lemma_extended_distinct(map: Seq<usize>, n: int)
    requires
        map_within(map),
        map.no_duplicates(),
        0 <= n,
        map.len() + n <= usize::MAX,
    ensures
        extended(map, n).no_duplicates(),
{
    let after = extended(map, n);
    assert forall|i: int, j: int| 0 <= i < after.len() && 0 <= j < after.len() && i != j implies
        after[i] != after[j] by {
        if i < map.len() {
            assert(map[i] < map.len());
        }
        if j < map.len() {
            assert(map[j] < map.len());
        }
    }
}

#[verifier::spinoff_prover]
proof fn lemma_step_permutes(s: Seq<GateModel<usize>>, base: int, map: Seq<usize>)
    requires
        s.len() > 0,
        map_within(map),
        map.no_duplicates(),
        map.len() + record_total(s) <= usize::MAX,
    ensures
        ({
            let step = lrc_step(s, base, map);
            &&& map_within(step.1)
            &&& step.1.no_duplicates()
            &&& step.1.len() == map.len() + record_total(s.take(step.2))
        }),
{
    let step = lrc_step(s, base, map);
    lemma_step_records(s, base, map);
    lemma_total_skip(Counted::Records, s, step.2);
    match s[0] {
        GateModel::MPP(_) => {
            lemma_leading(s);
            lemma_segment_total(s);
            let checks = leading_checks(s);
            let m = checks.len() as int;
            let again = repeats(s);
            let n: int = match again {
                Some(n) => n as int,
                None => 0,
            };
            let classes = class_colors(meeting(checks, true), checks.len());
            assert((1 + n) * m == m + n * m) by (nonlinear_arith);
            assert(n * m >= 0) by (nonlinear_arith)
                requires
                    n >= 0,
                    m >= 0,
            ;
            if color_count(classes) == 2 && 1 + n >= 2 {
                lemma_one_of_two(checks);
                let start = map.len() as int;
                law_segment_permutes_records(classes, start, (1 + n) as nat);
                let more = record_positions(classes, start, (1 + n) as nat);
                let after = map + more;
                assert(step.1 == after);
                assert forall|i: int| 0 <= i < after.len() implies (#[trigger] after[i])
                    < after.len() by {
                    if i < map.len() {
                        assert(map[i] < map.len());
                    } else {
                        assert(after[i] == more[i - map.len()]);
                    }
                }
                assert forall|i: int, j: int|
                    0 <= i < after.len() && 0 <= j < after.len() && i != j implies after[i]
                    != after[j] by {
                    if i < map.len() {
                        assert(map[i] < map.len());
                    } else {
                        assert(after[i] == more[i - map.len()]);
                    }
                    if j < map.len() {
                        assert(map[j] < map.len());
                    } else {
                        assert(after[j] == more[j - map.len()]);
                    }
                }
            } else {
                lemma_extended_within(map, (1 + n) * m);
                lemma_extended_distinct(map, (1 + n) * m);
            }
        },
        GateModel::Repeat(n, body) => {
            lemma_single(s[0]);
            assert(s.take(1) =~= seq![s[0]]);
            lemma_extended_within(map, n * record_total(body));
            lemma_extended_distinct(map, n * record_total(body));
        },
        GateModel::Measure(b, q, i) => {
            lemma_single(s[0]);
            assert(s.take(1) =~= seq![s[0]]);
            lemma_extended_within(map, 1);
            lemma_extended_distinct(map, 1);
        },
        _ => {
            lemma_single(s[0]);
            assert(s.take(1) =~= seq![s[0]]);
        },
    }
}

/// The record map of the staggered schedule is a permutation of the records: every
/// record has a place, and no place is taken twice.
pub proof fn law_record_map_is_permutation(
    s: Seq<GateModel<usize>>,
    base: int,
    map: Seq<usize>,
)
    requires
        map_within(map),
        map.no_duplicates(),
        map.len() + record_total(s) <= usize::MAX,
    ensures
        lrc(s, base, map).1.len() == map.len() + record_total(s),
        map_within(lrc(s, base, map).1),
        lrc(s, base, map).1.no_duplicates(),
    decreases s.len(),
{
    if s.len() > 0 {
        let step = lrc_step(s, base, map);
        lemma_step_records(s, base, map);
        lemma_step_permutes(s, base, map);
        lemma_total_skip(Counted::Records, s, step.2);
        law_record_map_is_permutation(s.skip(step.2), base, step.1);
    }
}

// ---------------------------------------------------------------------------
// Detectors
// ---------------------------------------------------------------------------
/// The detector compares the records at the two positions, counted from the start
/// of the segment, where `done` records of the segment have been made.
pub open spec fn compares(g: GateModel<usize>, done: int, now: int, before: int) -> bool {
    g == GateModel::<usize>::DeclareDetector(
        seq![(done - now) as usize, (done - before) as usize],
    ) && 0 <= before < now < done && done - before <= usize::MAX
}

/// The records of a segment after its round `n`: `g2` is one round late.
pub open spec fn records_after(seg: SegModel, n: int) -> int {
    seg.g1.len() + (n - 1) * seg.checks.len()
}

/// In every round from the second, the detectors of `g1` compare each check with
/// its value one round earlier.
pub proof fn law_g1_detectors_compare_rounds(
    checks: Seq<SignedPauli<usize>>,
    classes: Seq<int>,
    base: int,
    n: int,
    j: int,
)
    requires
        classes.len() == checks.len(),
        2 * checks.len() <= usize::MAX,
        forall|j: int| 0 <= j < classes.len() ==> 0 <= #[trigger] classes[j] <= 1,
        0 <= j < classes.len(),
        classes[j] == 0,
        2 <= n,
    ensures
        ({
            let seg = seg_model(checks, classes, base);
            compares(
                seg.g1_detectors()[class_rank(classes, j) as int],
                records_after(seg, n),
                record_position(classes, n, j),
                record_position(classes, n - 1, j),
            )
        }),
{
    let seg = seg_model(checks, classes, base);
    let m = classes.len() as int;
    lemma_rank_bound(classes, j);
    law_records_come_round_by_round(classes, n, j);
    law_records_come_round_by_round(classes, n - 1, j);
    lemma_rounds_between(n, m);
    let p = class_rank(classes, j) as int;
    assert(seg.g1_detectors()[p] == GateModel::<usize>::DeclareDetector(
        seq![(seg.g1.len() - p) as usize, (m + seg.g1.len() - p) as usize],
    ));
}

/// In every steady round, which is the third or later, the detectors of `g2`
/// compare each check of the round before with its value one round earlier.
pub proof fn law_g2_detectors_compare_rounds(
    checks: Seq<SignedPauli<usize>>,
    classes: Seq<int>,
    base: int,
    n: int,
    j: int,
)
    requires
        classes.len() == checks.len(),
        2 * checks.len() <= usize::MAX,
        forall|j: int| 0 <= j < classes.len() ==> 0 <= #[trigger] classes[j] <= 1,
        0 <= j < classes.len(),
        classes[j] == 1,
        3 <= n,
    ensures
        ({
            let seg = seg_model(checks, classes, base);
            compares(
                seg.g2_detectors()[class_rank(classes, j) as int],
                records_after(seg, n),
                record_position(classes, n - 1, j),
                record_position(classes, n - 2, j),
            )
        }),
{
    let seg = seg_model(checks, classes, base);
    let m = classes.len() as int;
    lemma_rank_bound(classes, j);
    law_records_come_round_by_round(classes, n - 1, j);
    law_records_come_round_by_round(classes, n - 2, j);
    lemma_rounds_between(n, m);
    lemma_rounds_between(n - 1, m);
    let q = class_rank(classes, j) as int;
    assert(seg.g2_detectors()[q] == GateModel::<usize>::DeclareDetector(
        seq![(m - q) as usize, (2 * m - q) as usize],
    ));
}

/// The closing detectors of a segment of `r` rounds compare each check of `g2` in
/// the last round with its value one round earlier.
pub proof fn law_closing_detectors_compare_rounds(
    checks: Seq<SignedPauli<usize>>,
    classes: Seq<int>,
    base: int,
    r: int,
    j: int,
)
    requires
        classes.len() == checks.len(),
        2 * checks.len() <= usize::MAX,
        forall|j: int| 0 <= j < classes.len() ==> 0 <= #[trigger] classes[j] <= 1,
        0 <= j < classes.len(),
        classes[j] == 1,
        2 <= r,
    ensures
        ({
            let seg = seg_model(checks, classes, base);
            compares(
                seg.closing_detectors()[class_rank(classes, j) as int],
                r * checks.len(),
                record_position(classes, r, j),
                record_position(classes, r - 1, j),
            )
        }),
{
    let seg = seg_model(checks, classes, base);
    let m = classes.len() as int;
    lemma_rank_bound(classes, j);
    law_records_come_round_by_round(classes, r, j);
    law_records_come_round_by_round(classes, r - 1, j);
    lemma_rounds_between(r, m);
    assert((r - 1) * m + m == r * m) by (nonlinear_arith);
    let q = class_rank(classes, j) as int;
    let b = seg.g2.len() as int;
    assert(seg.closing_detectors()[q] == GateModel::<usize>::DeclareDetector(
        seq![(b - q) as usize, (m + b - q) as usize],
    ));
}

proof fn lemma_rounds_between(n: int, m: int)
    requires
        2 <= n,
        0 <= m,
    ensures
        (n - 2) * m + m == (n - 1) * m,
        0 <= (n - 2) * m,
{
    assert((n - 2) * m + m == (n - 1) * m) by (nonlinear_arith);
    assert(0 <= (n - 2) * m) by (nonlinear_arith)
        requires
            2 <= n,
            0 <= m,
    ;
}

} // verus!
