//! Every site of every check of a round gets its controlled Pauli exactly once,
//! whatever the schedule.

use vstd::prelude::*;

#[allow(unused_imports)]
use crate::coloring::{
    class_colors, edge_colors, greedy_colors, law_edge_coloring, lemma_edge_colors_len,
};
#[allow(unused_imports)]
use crate::extraction::{lemma_class_colors, lemma_greedy_natural};
#[allow(unused_imports)]
use crate::pbc::SignedPauli;
#[allow(unused_imports)]
use crate::sec_schedule::{
    acts, bucket_layers, buckets, check_sites, class_layers, class_weight, color_count,
    everyone, left_qubits, legacy_layers, lemma_color_count, lockstep, lockstep_layers,
    measure_layer, meeting, part_sites, phase_layers, reset_layer, round_sites, seg_model,
    sequential_layers, site_edges, sites_of_color, Site,
};

verus! {

/// How often the site occurs.
pub open spec fn occurs(part: Seq<Site>, x: Site) -> nat
    decreases part.len(),
{
    if part.len() == 0 {
        0
    } else {
        occurs(part.drop_last(), x) + if part.last() == x {
            1nat
        } else {
            0nat
        }
    }
}

/// How often the site occurs in all lists together.
pub open spec fn occurs_all(lists: Seq<Seq<Site>>, x: Site) -> nat
    decreases lists.len(),
{
    if lists.len() == 0 {
        0
    } else {
        occurs_all(lists.drop_last(), x) + occurs(lists.last(), x)
    }
}

proof fn lemma_occurs_push(part: Seq<Site>, y: Site, x: Site)
    ensures
        occurs(part.push(y), x) == occurs(part, x) + if y == x {
            1nat
        } else {
            0nat
        },
{
    assert(part.push(y).drop_last() =~= part);
}

pub(crate) proof fn lemma_occurs_add(a: Seq<Site>, b: Seq<Site>, x: Site)
    ensures
        occurs(a + b, x) == occurs(a, x) + occurs(b, x),
    decreases b.len(),
{
    if b.len() == 0 {
        assert(a + b =~= a);
    } else {
        lemma_occurs_add(a, b.drop_last(), x);
        assert((a + b).drop_last() =~= a + b.drop_last());
    }
}

proof fn lemma_occurs_all_add(a: Seq<Seq<Site>>, b: Seq<Seq<Site>>, x: Site)
    ensures
        occurs_all(a + b, x) == occurs_all(a, x) + occurs_all(b, x),
    decreases b.len(),
{
    if b.len() == 0 {
        assert(a + b =~= a);
    } else {
        lemma_occurs_all_add(a, b.drop_last(), x);
        assert((a + b).drop_last() =~= a + b.drop_last());
    }
}

// ---------------------------------------------------------------------------
// Colors
// ---------------------------------------------------------------------------
/// How often the site occurs with a color below `n`.
spec fn occurs_below(part: Seq<Site>, colors: Seq<int>, n: int, x: Site) -> nat
    decreases part.len(),
{
    if part.len() == 0 {
        0
    } else {
        occurs_below(part.drop_last(), colors, n, x) + if part.last() == x && colors[part.len() - 1]
            < n {
            1nat
        } else {
            0nat
        }
    }
}

proof fn lemma_occurs_below_next(part: Seq<Site>, colors: Seq<int>, n: int, x: Site)
    ensures
        occurs_below(part, colors, n + 1, x) == occurs_below(part, colors, n, x) + occurs(
            sites_of_color(part, colors, n),
            x,
        ),
    decreases part.len(),
{
    if part.len() > 0 {
        lemma_occurs_below_next(part.drop_last(), colors, n, x);
        lemma_occurs_push(sites_of_color(part.drop_last(), colors, n), part.last(), x);
    }
}

proof fn lemma_color_lists(part: Seq<Site>, colors: Seq<int>, n: nat, x: Site)
    requires
        part.len() <= colors.len(),
        forall|i: int| 0 <= i < part.len() ==> 0 <= #[trigger] colors[i],
    ensures
        occurs_all(Seq::new(n, |k: int| sites_of_color(part, colors, k)), x) == occurs_below(
            part,
            colors,
            n as int,
            x,
        ),
    decreases n,
{
    let lists = Seq::new(n, |k: int| sites_of_color(part, colors, k));
    if n == 0 {
        lemma_none_below(part, colors, x);
    } else {
        lemma_color_lists(part, colors, (n - 1) as nat, x);
        assert(lists.drop_last() =~= Seq::new(
            (n - 1) as nat,
            |k: int| sites_of_color(part, colors, k),
        ));
        lemma_occurs_below_next(part, colors, n - 1, x);
    }
}

proof fn lemma_none_below(part: Seq<Site>, colors: Seq<int>, x: Site)
    requires
        part.len() <= colors.len(),
        forall|i: int| 0 <= i < part.len() ==> 0 <= #[trigger] colors[i],
    ensures
        occurs_below(part, colors, 0, x) == 0,
    decreases part.len(),
{
    if part.len() > 0 {
        assert(0 <= colors[part.len() - 1]);
        lemma_none_below(part.drop_last(), colors, x);
    }
}

proof fn lemma_all_below(part: Seq<Site>, colors: Seq<int>, n: int, x: Site)
    requires
        part.len() <= colors.len(),
        forall|i: int| 0 <= i < part.len() ==> #[trigger] colors[i] < n,
    ensures
        occurs_below(part, colors, n, x) == occurs(part, x),
    decreases part.len(),
{
    if part.len() > 0 {
        assert(colors[part.len() - 1] < n);
        lemma_all_below(part.drop_last(), colors, n, x);
    }
}

/// Sorting sites by color loses none and adds none.
pub proof fn law_buckets_hold_every_site(part: Seq<Site>, m: nat, x: Site)
    ensures
        occurs_all(buckets(part, m), x) == occurs(part, x),
{
    let edges = site_edges(part, m);
    let colors = edge_colors(edges, part.len());
    lemma_edge_colors_len(edges, part.len());
    assert forall|i: int| 0 <= i < part.len() implies 0 <= #[trigger] colors[i] by {
        law_edge_coloring(edges, i);
    }
    assert forall|i: int| 0 <= i < part.len() implies #[trigger] colors[i] < color_count(
        colors,
    ) by {
        lemma_color_count(colors, i);
    }
    lemma_color_lists(part, colors, color_count(colors), x);
    lemma_all_below(part, colors, color_count(colors) as int, x);
}

// ---------------------------------------------------------------------------
// Conflict classes
// ---------------------------------------------------------------------------
pub(crate) proof fn lemma_part_occurs(
    part: Seq<Site>,
    classes: Seq<int>,
    left: Set<usize>,
    class: int,
    side: Option<bool>,
    x: Site,
)
    ensures
        occurs(part_sites(part, classes, left, class, side), x) == if classes[x.0 as int] == class
            && (side is None || side == Some(left.contains(x.1))) {
            occurs(part, x)
        } else {
            0
        },
    decreases part.len(),
{
    if part.len() > 0 {
        let before = part_sites(part.drop_last(), classes, left, class, side);
        lemma_part_occurs(part.drop_last(), classes, left, class, side, x);
        lemma_occurs_push(before, part.last(), x);
    }
}

/// The sites of the conflict classes below `n`, layer by layer.
pub open spec fn phase_sites(checks: Seq<SignedPauli<usize>>, classes: Seq<int>, n: nat) -> Seq<
    Seq<Site>,
>
    decreases n,
{
    if n == 0 {
        Seq::empty()
    } else {
        phase_sites(checks, classes, (n - 1) as nat) + buckets(
            part_sites(
                round_sites(checks, checks.len()),
                classes,
                Set::empty(),
                n - 1,
                None,
            ),
            checks.len(),
        )
    }
}

proof fn lemma_phase_sites(
    checks: Seq<SignedPauli<usize>>,
    classes: Seq<int>,
    n: nat,
    base: int,
    x: Site,
)
    ensures
        phase_layers(checks, classes, n, base) == bucket_layers(
            phase_sites(checks, classes, n),
            base,
        ),
        occurs_all(phase_sites(checks, classes, n), x) == if 0 <= classes[x.0 as int] < n {
            occurs(round_sites(checks, checks.len()), x)
        } else {
            0
        },
    decreases n,
{
    if n == 0 {
        assert(phase_layers(checks, classes, n, base) =~= bucket_layers(
            phase_sites(checks, classes, n),
            base,
        ));
    } else {
        lemma_phase_sites(checks, classes, (n - 1) as nat, base, x);
        let all = round_sites(checks, checks.len());
        let none = Set::<usize>::empty();
        let part = part_sites(all, classes, none, n - 1, None);
        let before = phase_sites(checks, classes, (n - 1) as nat);
        let here = buckets(part, checks.len());
        assert(bucket_layers(before + here, base) =~= bucket_layers(before, base) + bucket_layers(
            here,
            base,
        ));
        lemma_occurs_all_add(before, here, x);
        law_buckets_hold_every_site(part, checks.len(), x);
        lemma_part_occurs(all, classes, none, n - 1, None, x);
    }
}

/// The sites of a round are those of its checks.
pub(crate) proof fn lemma_round_occurs(checks: Seq<SignedPauli<usize>>, n: nat, x: Site)
    requires
        n <= checks.len() <= usize::MAX,
    ensures
        occurs(round_sites(checks, n), x) == if x.0 < n {
            occurs(check_sites(checks, x.0 as int), x)
        } else {
            0
        },
    decreases n,
{
    if n > 0 {
        lemma_round_occurs(checks, (n - 1) as nat, x);
        let here = check_sites(checks, n - 1);
        lemma_occurs_add(round_sites(checks, (n - 1) as nat), here, x);
        if x.0 != n - 1 {
            lemma_other_check(here, n - 1, x);
        }
    }
}

proof fn lemma_other_check(part: Seq<Site>, j: int, x: Site)
    requires
        forall|i: int| 0 <= i < part.len() ==> (#[trigger] part[i]).0 == j,
        x.0 != j,
    ensures
        occurs(part, x) == 0,
    decreases part.len(),
{
    if part.len() > 0 {
        assert(part[part.len() - 1].0 == j);
        assert forall|i: int| 0 <= i < part.drop_last().len() implies (
        #[trigger] part.drop_last()[i]).0 == j by {
            assert(part[i].0 == j);
        }
        lemma_other_check(part.drop_last(), j, x);
    }
}

/// A round whose conflict classes run one after another is a reset, layers of
/// controlled Paulis that hold every site of the round once, and a measurement.
pub proof fn law_sequential_round_is_complete(
    checks: Seq<SignedPauli<usize>>,
    base: int,
    x: Site,
)
    requires
        checks.len() <= usize::MAX,
    ensures
        ({
            let m = checks.len();
            let classes = class_colors(meeting(checks, true), m);
            let lists = phase_sites(checks, classes, color_count(classes));
            &&& sequential_layers(checks, base) == seq![reset_layer(everyone(m), base)]
                + bucket_layers(lists, base) + seq![measure_layer(checks, everyone(m), base)]
            &&& occurs_all(lists, x) == occurs(round_sites(checks, m), x)
        }),
{
    let m = checks.len();
    let classes = class_colors(meeting(checks, true), m);
    lemma_class_colors(meeting(checks, true), m);
    lemma_phase_sites(checks, classes, color_count(classes), base, x);
    lemma_round_occurs(checks, m, x);
    if x.0 < m {
        lemma_color_count(classes, x.0 as int);
    }
}

/// The four parts of a staggered segment hold every site of the round once.
pub proof fn law_segment_is_complete(
    checks: Seq<SignedPauli<usize>>,
    classes: Seq<int>,
    base: int,
    x: Site,
)
    requires
        checks.len() <= usize::MAX,
        classes.len() == checks.len(),
        forall|j: int| 0 <= j < classes.len() ==> 0 <= #[trigger] classes[j] <= 1,
    ensures
        ({
            let seg = seg_model(checks, classes, base);
            occurs_all(seg.l1, x) + occurs_all(seg.r1, x) + occurs_all(seg.l2, x) + occurs_all(
                seg.r2,
                x,
            ) == occurs(round_sites(checks, checks.len()), x)
        }),
{
    let m = checks.len();
    let all = round_sites(checks, m);
    let left = left_qubits(all, classes);
    law_buckets_hold_every_site(part_sites(all, classes, left, 0, Some(true)), m, x);
    law_buckets_hold_every_site(part_sites(all, classes, left, 0, Some(false)), m, x);
    law_buckets_hold_every_site(part_sites(all, classes, left, 1, Some(true)), m, x);
    law_buckets_hold_every_site(part_sites(all, classes, left, 1, Some(false)), m, x);
    lemma_part_occurs(all, classes, left, 0, Some(true), x);
    lemma_part_occurs(all, classes, left, 0, Some(false), x);
    lemma_part_occurs(all, classes, left, 1, Some(true), x);
    lemma_part_occurs(all, classes, left, 1, Some(false), x);
    lemma_round_occurs(checks, m, x);
    if x.0 < m {
        assert(0 <= classes[x.0 as int] <= 1);
    }
}

// ---------------------------------------------------------------------------
// Lockstep classes
// ---------------------------------------------------------------------------
/// Site `x` is the `k`-th of its check, which is among the first `n` and of class
/// `c`.
spec fn in_step(
    checks: Seq<SignedPauli<usize>>,
    colors: Seq<int>,
    c: int,
    k: int,
    n: int,
    x: Site,
) -> bool {
    &&& x.0 < n
    &&& colors[x.0 as int] == c
    &&& k < acts(checks, x.0 as int).len()
    &&& acts(checks, x.0 as int)[k] == (x.1, x.2)
}

proof fn lemma_lockstep_occurs(
    checks: Seq<SignedPauli<usize>>,
    colors: Seq<int>,
    c: int,
    k: int,
    n: nat,
    x: Site,
)
    requires
        n <= checks.len() <= usize::MAX,
    ensures
        occurs(lockstep(checks, colors, c, k, n), x) == if in_step(
            checks,
            colors,
            c,
            k,
            n as int,
            x,
        ) {
            1nat
        } else {
            0nat
        },
    decreases n,
{
    if n > 0 {
        let j = n - 1;
        lemma_lockstep_occurs(checks, colors, c, k, j as nat, x);
        if colors[j] == c && k < acts(checks, j).len() {
            lemma_occurs_push(
                lockstep(checks, colors, c, k, j as nat),
                (j as usize, acts(checks, j)[k].0, acts(checks, j)[k].1),
                x,
            );
        }
    }
}

/// The first `w` steps of class `c`.
spec fn step_lists(
    checks: Seq<SignedPauli<usize>>,
    colors: Seq<int>,
    c: int,
    w: nat,
) -> Seq<Seq<Site>> {
    Seq::new(w, |k: int| lockstep(checks, colors, c, k, checks.len()))
}

proof fn lemma_step_lists(
    checks: Seq<SignedPauli<usize>>,
    colors: Seq<int>,
    c: int,
    w: nat,
    x: Site,
)
    requires
        checks.len() <= usize::MAX,
    ensures
        ({
            let mine = check_sites(checks, x.0 as int);
            occurs_all(step_lists(checks, colors, c, w), x) == if x.0 < checks.len()
                && colors[x.0 as int] == c {
                occurs(
                    mine.take(
                        if w < mine.len() {
                            w as int
                        } else {
                            mine.len() as int
                        },
                    ),
                    x,
                )
            } else {
                0
            }
        }),
    decreases w,
{
    let mine = check_sites(checks, x.0 as int);
    let lists = step_lists(checks, colors, c, w);
    if w == 0 {
        assert(mine.take(0) =~= Seq::<Site>::empty());
    } else {
        lemma_step_lists(checks, colors, c, (w - 1) as nat, x);
        assert(lists.drop_last() =~= step_lists(checks, colors, c, (w - 1) as nat));
        lemma_lockstep_occurs(checks, colors, c, w - 1, checks.len(), x);
        if w <= mine.len() {
            assert(mine.take(w as int) =~= mine.take(w - 1).push(mine[w - 1]));
            lemma_occurs_push(mine.take(w - 1), mine[w - 1], x);
        }
    }
}

proof fn lemma_class_weight(
    checks: Seq<SignedPauli<usize>>,
    colors: Seq<int>,
    c: int,
    n: nat,
    j: int,
)
    requires
        0 <= j < n,
        colors[j] == c,
    ensures
        acts(checks, j).len() <= class_weight(checks, colors, c, n),
    decreases n,
{
    if j < n - 1 {
        lemma_class_weight(checks, colors, c, (n - 1) as nat, j);
    }
}

/// The sites of the lockstep classes below `n`, layer by layer.
pub open spec fn class_sites(checks: Seq<SignedPauli<usize>>, colors: Seq<int>, n: nat) -> Seq<
    Seq<Site>,
>
    decreases n,
{
    if n == 0 {
        Seq::empty()
    } else {
        class_sites(checks, colors, (n - 1) as nat) + Seq::new(
            class_weight(checks, colors, n - 1, checks.len()),
            |k: int| lockstep(checks, colors, n - 1, k, checks.len()),
        )
    }
}

proof fn lemma_class_sites(
    checks: Seq<SignedPauli<usize>>,
    colors: Seq<int>,
    n: nat,
    base: int,
    x: Site,
)
    requires
        checks.len() <= usize::MAX,
    ensures
        class_layers(checks, colors, n, base) == bucket_layers(
            class_sites(checks, colors, n),
            base,
        ),
        occurs_all(class_sites(checks, colors, n), x) == if x.0 < checks.len() && 0
            <= colors[x.0 as int] < n {
            occurs(check_sites(checks, x.0 as int), x)
        } else {
            0
        },
    decreases n,
{
    if n == 0 {
        assert(class_layers(checks, colors, n, base) =~= bucket_layers(
            class_sites(checks, colors, n),
            base,
        ));
    } else {
        lemma_class_sites(checks, colors, (n - 1) as nat, base, x);
        let before = class_sites(checks, colors, (n - 1) as nat);
        let w = class_weight(checks, colors, n - 1, checks.len());
        let here = step_lists(checks, colors, n - 1, w);
        assert(class_sites(checks, colors, n) =~= before + here);
        assert(bucket_layers(before + here, base) =~= bucket_layers(before, base)
            + lockstep_layers(checks, colors, n - 1, base));
        lemma_occurs_all_add(before, here, x);
        lemma_step_lists(checks, colors, n - 1, w, x);
        if x.0 < checks.len() && colors[x.0 as int] == n - 1 {
            lemma_class_weight(checks, colors, n - 1, checks.len(), x.0 as int);
            let mine = check_sites(checks, x.0 as int);
            assert(mine.take(mine.len() as int) =~= mine);
        }
    }
}

/// A round in lockstep classes is a reset, layers of controlled Paulis that hold
/// every site of the round once, and a measurement.
pub proof fn law_legacy_round_is_complete(
    checks: Seq<SignedPauli<usize>>,
    base: int,
    x: Site,
)
    requires
        checks.len() <= usize::MAX,
    ensures
        ({
            let m = checks.len();
            let colors = greedy_colors(meeting(checks, false), m);
            let lists = class_sites(checks, colors, color_count(colors));
            &&& legacy_layers(checks, base) == seq![reset_layer(everyone(m), base)]
                + bucket_layers(lists, base) + seq![measure_layer(checks, everyone(m), base)]
            &&& occurs_all(lists, x) == occurs(round_sites(checks, m), x)
        }),
{
    let m = checks.len();
    let colors = greedy_colors(meeting(checks, false), m);
    lemma_greedy_natural(meeting(checks, false), m);
    lemma_class_sites(checks, colors, color_count(colors), base, x);
    lemma_round_occurs(checks, m, x);
    if x.0 < m {
        lemma_color_count(colors, x.0 as int);
    }
}

} // verus!
