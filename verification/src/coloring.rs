//! Graph colorings: greedy vertex coloring, two-coloring, and the edge coloring
//! of bipartite graphs with as few colors as the largest degree.

use vstd::prelude::*;

verus! {

// ---------------------------------------------------------------------------
// Vertex colorings
// ---------------------------------------------------------------------------
/// `c` is the smallest natural number that is not in `used`.
pub open spec fn is_least_free(used: Set<int>, c: int) -> bool {
    &&& 0 <= c
    &&& !used.contains(c)
    &&& forall|d: int| 0 <= d < c ==> #[trigger] used.contains(d)
}

/// The smallest natural number that is not in `used`.
pub open spec fn least_free(used: Set<int>) -> int {
    choose|c: int| is_least_free(used, c)
}

pub proof fn lemma_least_free(used: Set<int>, c: int)
    requires
        is_least_free(used, c),
    ensures
        least_free(used) == c,
{
    let d = least_free(used);
    assert(is_least_free(used, d));
    if d < c {
        assert(used.contains(d));
    }
    if c < d {
        assert(used.contains(c));
    }
}

/// The colors of the vertices that are adjacent to `j` and have a color.
pub open spec fn neighbour_colors(adj: spec_fn(int, int) -> bool, colors: Seq<int>, j: int) -> Set<
    int,
> {
    Set::new(|c: int| exists|i: int| 0 <= i < colors.len() && adj(i, j) && #[trigger] colors[i] == c)
}

/// The greedy coloring of the first `n` vertices: each gets the smallest color
/// that no earlier neighbour has.
pub open spec fn greedy_colors(adj: spec_fn(int, int) -> bool, n: nat) -> Seq<int>
    decreases n,
{
    if n == 0 {
        Seq::empty()
    } else {
        let before = greedy_colors(adj, (n - 1) as nat);
        before.push(least_free(neighbour_colors(adj, before, n - 1)))
    }
}

/// The numbers as integers.
pub open spec fn ints(s: Seq<usize>) -> Seq<int> {
    Seq::new(s.len(), |i: int| s[i] as int)
}

/// `lists` holds, for each vertex, its neighbours.
pub open spec fn lists_hold(lists: Seq<Vec<usize>>, adj: spec_fn(int, int) -> bool) -> bool {
    &&& forall|i: int, k: int|
        0 <= i < lists.len() && 0 <= k < lists[i]@.len() ==> (#[trigger] lists[i]@[k]) < lists.len()
            && adj(lists[i]@[k] as int, i)
    &&& forall|i: int, j: usize|
        0 <= i < lists.len() && 0 <= j < lists.len() && adj(j as int, i)
            ==> #[trigger] lists[i]@.contains(j)
}

/// Color the vertices greedily in order.
pub fn greedy_coloring(lists: &Vec<Vec<usize>>, Ghost(adj): Ghost<spec_fn(int, int) -> bool>) -> (r:
    Vec<usize>)
    requires
        lists_hold(lists@, adj),
    ensures
        ints(r@) == greedy_colors(adj, lists@.len()),
        forall|i: int| 0 <= i < r@.len() ==> #[trigger] r@[i] <= i,
{
    let mut color: Vec<usize> = Vec::new();
    let mut count: usize = 0;
    assert(ints(color@) =~= greedy_colors(adj, 0));
    for j in 0..lists.len()
        invariant
            lists_hold(lists@, adj),
            color@.len() == j,
            count <= j,
            forall|i: int| 0 <= i < j ==> #[trigger] color@[i] < count,
            forall|i: int| 0 <= i < j ==> #[trigger] color@[i] <= i,
            ints(color@) == greedy_colors(adj, j as nat),
    {
        let ghost before = ints(color@);
        let ghost used = neighbour_colors(adj, before, j as int);
        let mut taken: Vec<bool> = Vec::new();
        for k in 0..count
            invariant
                taken@.len() == k,
                forall|i: int| 0 <= i < k ==> !#[trigger] taken@[i],
        {
            taken.push(false);
        }
        let list = &lists[j];
        for k in 0..list.len()
            invariant
                lists_hold(lists@, adj),
                0 <= j < lists@.len(),
                *list == lists@[j as int],
                color@.len() == j,
                before == ints(color@),
                used == neighbour_colors(adj, before, j as int),
                taken@.len() == count,
                forall|i: int| 0 <= i < j ==> #[trigger] color@[i] < count,
                forall|c: int| 0 <= c < count && #[trigger] taken@[c] ==> used.contains(c),
                forall|l: int|
                    0 <= l < k && (#[trigger] list@[l]) < j ==> taken@[color@[list@[l] as int] as int],
        {
            let i: usize = list[k];
            if i < j {
                let c: usize = color[i];
                proof {
                    assert(lists@[j as int]@[k as int] == i);
                    assert(adj(i as int, j as int));
                    assert(before[i as int] == c);
                    assert(used.contains(c as int));
                }
                taken.set(c, true);
            }
        }
        let mut c: usize = 0;
        while c < count && taken[c]
            invariant
                c <= count,
                taken@.len() == count,
                forall|d: int| 0 <= d < c ==> #[trigger] taken@[d],
            decreases count - c,
        {
            c = c + 1;
        }
        proof {
            assert forall|d: int| 0 <= d < c implies #[trigger] used.contains(d) by {
                assert(taken@[d]);
            }
            if used.contains(c as int) {
                let i = choose|i: int|
                    0 <= i < before.len() && adj(i, j as int) && #[trigger] before[i] == c;
                assert(before[i] == color@[i]);
                let iu = i as usize;
                assert(list@.contains(iu));
                let l = list@.index_of(iu);
                assert(list@[l] == iu);
                assert(taken@[color@[i] as int]);
            }
            assert(is_least_free(used, c as int));
            lemma_least_free(used, c as int);
        }
        color.push(c);
        if c == count {
            count = count + 1;
        }
        assert(ints(color@) =~= before.push(c as int));
    }
    color
}

/// The greedy coloring gives adjacent vertices different colors.
pub proof fn law_greedy_coloring_is_proper(adj: spec_fn(int, int) -> bool, n: nat, i: int, j: int)
    requires
        0 <= i < j < n,
        adj(i, j),
    ensures
        greedy_colors(adj, n).len() == n,
        greedy_colors(adj, n)[i] != greedy_colors(adj, n)[j],
    decreases n,
{
    lemma_greedy_colors(adj, n);
    lemma_greedy_colors(adj, (n - 1) as nat);
    if j < n - 1 {
        law_greedy_coloring_is_proper(adj, (n - 1) as nat, i, j);
    } else {
        let before = greedy_colors(adj, (n - 1) as nat);
        let used = neighbour_colors(adj, before, n - 1);
        lemma_greedy_step(adj, before, n - 1);
        assert(used.contains(before[i]));
    }
}

pub proof fn lemma_greedy_colors(adj: spec_fn(int, int) -> bool, n: nat)
    ensures
        greedy_colors(adj, n).len() == n,
    decreases n,
{
    if n > 0 {
        lemma_greedy_colors(adj, (n - 1) as nat);
    }
}

/// There is always a free color.
pub proof fn lemma_greedy_step(adj: spec_fn(int, int) -> bool, before: Seq<int>, j: int)
    ensures
        is_least_free(
            neighbour_colors(adj, before, j),
            least_free(neighbour_colors(adj, before, j)),
        ),
{
    let used = neighbour_colors(adj, before, j);
    let big = lemma_bound(before);
    assert(!used.contains(big));
    lemma_free_below(used, 0, big);
    let c = choose|c: int| is_least_free(used, c);
    assert(is_least_free(used, c));
}

proof fn lemma_bound(s: Seq<int>) -> (b: int)
    ensures
        0 <= b,
        forall|i: int| 0 <= i < s.len() ==> #[trigger] s[i] < b,
    decreases s.len(),
{
    if s.len() == 0 {
        0
    } else {
        let b = lemma_bound(s.drop_last());
        let r = if s.last() < b {
            b
        } else {
            s.last() + 1
        };
        assert forall|i: int| 0 <= i < s.len() implies #[trigger] s[i] < r by {
            if i < s.len() - 1 {
                assert(s.drop_last()[i] == s[i]);
            }
        }
        r
    }
}

/// Searching upwards from `c` finds the least free color.
pub proof fn lemma_free_below(used: Set<int>, c: int, big: int)
    requires
        0 <= c <= big,
        !used.contains(big),
        forall|d: int| 0 <= d < c ==> #[trigger] used.contains(d),
    ensures
        exists|r: int| is_least_free(used, r),
    decreases big - c,
{
    if !used.contains(c) {
        assert(is_least_free(used, c));
    } else {
        lemma_free_below(used, c + 1, big);
    }
}

/// A coloring of `n` vertices with the colors 0 and 1 that gives adjacent
/// vertices different colors.
pub open spec fn two_coloring(adj: spec_fn(int, int) -> bool, n: nat, c: Seq<int>) -> bool {
    &&& c.len() == n
    &&& forall|i: int| 0 <= i < n ==> 0 <= #[trigger] c[i] <= 1
    &&& forall|i: int, j: int|
        0 <= i < n && 0 <= j < n && adj(i, j) ==> #[trigger] c[i] != #[trigger] c[j]
}

pub open spec fn two_colorable(adj: spec_fn(int, int) -> bool, n: nat) -> bool {
    exists|c: Seq<int>| two_coloring(adj, n, c)
}

/// `c` comes no later than `d` in lexicographic order.
pub open spec fn lexicographically_le(c: Seq<int>, d: Seq<int>) -> bool {
    c == d || exists|k: int|
        0 <= k < c.len() && c.take(k) == d.take(k) && #[trigger] c[k] < #[trigger] d[k]
}

/// The lexicographically least two-coloring.
pub open spec fn least_two_coloring(adj: spec_fn(int, int) -> bool, n: nat, c: Seq<int>) -> bool {
    &&& two_coloring(adj, n, c)
    &&& forall|d: Seq<int>| #[trigger] two_coloring(adj, n, d) ==> lexicographically_le(c, d)
}

pub proof fn lemma_least_two_coloring_unique(
    adj: spec_fn(int, int) -> bool,
    n: nat,
    c: Seq<int>,
    d: Seq<int>,
)
    requires
        least_two_coloring(adj, n, c),
        least_two_coloring(adj, n, d),
    ensures
        c == d,
{
    assert(lexicographically_le(c, d));
    assert(lexicographically_le(d, c));
    if c != d {
        let k = choose|k: int|
            0 <= k < c.len() && c.take(k) == d.take(k) && #[trigger] c[k] < #[trigger] d[k];
        let l = choose|k: int|
            0 <= k < d.len() && d.take(k) == c.take(k) && #[trigger] d[k] < #[trigger] c[k];
        if k < l {
            assert(d.take(l)[k] == c.take(l)[k]);
        } else if l < k {
            assert(d.take(k)[l] == c.take(k)[l]);
        }
    }
}

/// The classes of the vertices: the least two-coloring where there is one, else
/// the greedy coloring.
pub open spec fn class_colors(adj: spec_fn(int, int) -> bool, n: nat) -> Seq<int> {
    if two_colorable(adj, n) {
        choose|c: Seq<int>| least_two_coloring(adj, n, c)
    } else {
        greedy_colors(adj, n)
    }
}

/// Every vertex has a representative no larger than itself, and in any
/// two-coloring the two differ exactly when `flip` says so.
pub open spec fn represented(
    adj: spec_fn(int, int) -> bool,
    root: Seq<usize>,
    flip: Seq<bool>,
) -> bool {
    &&& flip.len() == root.len()
    &&& forall|v: int|
        0 <= v < root.len() ==> (#[trigger] root[v]) <= v && root[root[v] as int] == root[v]
            && !flip[root[v] as int]
    &&& forall|v: int, d: Seq<int>|
        #![trigger root[v], two_coloring(adj, root.len(), d)]
        0 <= v < root.len() && two_coloring(adj, root.len(), d) ==> (d[v] != d[root[v] as int])
            == flip[v]
}

/// The neighbours `i` and `j` have the same representative and different colors.
pub open spec fn settled(root: Seq<usize>, flip: Seq<bool>, i: int, j: int) -> bool {
    root[i] == root[j] && flip[i] != flip[j]
}

/// Give the component of `from` the representative `to`, given that the two
/// representatives differ in color exactly when `turn` says so.
fn relabel(
    root: &mut Vec<usize>,
    flip: &mut Vec<bool>,
    from: usize,
    to: usize,
    turn: bool,
    Ghost(adj): Ghost<spec_fn(int, int) -> bool>,
)
    requires
        represented(adj, old(root)@, old(flip)@),
        to < from < old(root)@.len(),
        old(root)@[from as int] == from,
        old(root)@[to as int] == to,
        forall|d: Seq<int>| #[trigger]
            two_coloring(adj, old(root)@.len(), d) ==> (d[from as int] != d[to as int]) == turn,
    ensures
        final(root)@.len() == old(root)@.len(),
        represented(adj, final(root)@, final(flip)@),
        forall|v: int|
            #![trigger final(root)@[v]]
            0 <= v < old(root)@.len() ==> final(root)@[v] == (if old(root)@[v] == from {
                to
            } else {
                old(root)@[v]
            }) && final(flip)@[v] == (if old(root)@[v] == from {
                old(flip)@[v] != turn
            } else {
                old(flip)@[v]
            }),
{
    let ghost root0 = root@;
    let ghost flip0 = flip@;
    let n: usize = root.len();
    for v in 0..n
        invariant
            n == root0.len(),
            root@.len() == root0.len(),
            flip@.len() == root0.len(),
            flip0.len() == root0.len(),
            forall|w: int|
                #![trigger root@[w]]
                0 <= w < v ==> root@[w] == (if root0[w] == from {
                    to
                } else {
                    root0[w]
                }),
            forall|w: int|
                #![trigger flip@[w]]
                0 <= w < v ==> flip@[w] == (if root0[w] == from {
                    flip0[w] != turn
                } else {
                    flip0[w]
                }),
            forall|w: int| v <= w < root0.len() ==> #[trigger] root@[w] == root0[w],
            forall|w: int| v <= w < root0.len() ==> #[trigger] flip@[w] == flip0[w],
    {
        if root[v] == from {
            root.set(v, to);
            let f = flip[v];
            flip.set(v, f != turn);
        }
    }
    proof {
        assert forall|v: int| 0 <= v < root@.len() implies (#[trigger] root@[v]) <= v && root@[root@[v] as int]
            == root@[v] && !flip@[root@[v] as int] by {
            assert(root0[v] <= v);
            assert(root0[from as int] == from);
            assert(root0[to as int] == to);
            assert(root@[root0[v] as int] == root@[root0[v] as int]);
            assert(root@[to as int] == to);
        }
        assert forall|v: int, d: Seq<int>|
            #![trigger root@[v], two_coloring(adj, root@.len(), d)]
            0 <= v < root@.len() && two_coloring(adj, root@.len(), d) implies (d[v]
            != d[root@[v] as int]) == flip@[v] by {
            assert(root0[v] <= v);
            assert((d[v] != d[root0[v] as int]) == flip0[v]);
            if root0[v] == from {
                assert(0 <= d[v] <= 1 && 0 <= d[from as int] <= 1 && 0 <= d[to as int] <= 1);
            }
        }
    }
}

/// Take the adjacency of `i` and `j` into account; `false` when no two-coloring
/// can.
fn join(
    root: &mut Vec<usize>,
    flip: &mut Vec<bool>,
    i: usize,
    j: usize,
    Ghost(adj): Ghost<spec_fn(int, int) -> bool>,
) -> (r: bool)
    requires
        represented(adj, old(root)@, old(flip)@),
        i < old(root)@.len(),
        j < old(root)@.len(),
        adj(i as int, j as int),
    ensures
        final(root)@.len() == old(root)@.len(),
        represented(adj, final(root)@, final(flip)@),
        r ==> settled(final(root)@, final(flip)@, i as int, j as int),
        forall|v: int, w: int|
            #![trigger settled(final(root)@, final(flip)@, v, w)]
            0 <= v < old(root)@.len() && 0 <= w < old(root)@.len() && settled(
                old(root)@,
                old(flip)@,
                v,
                w,
            ) ==> settled(final(root)@, final(flip)@, v, w),
        !r ==> !two_colorable(adj, final(root)@.len()),
{
    let a: usize = root[i];
    let b: usize = root[j];
    let fa = flip[i];
    let fb = flip[j];
    let ghost n = root@.len();
    let ghost root0 = root@;
    proof {
        assert(root@[i as int] <= i && root@[j as int] <= j);
        assert forall|d: Seq<int>| #[trigger] two_coloring(adj, n, d) implies (d[a as int]
            != d[b as int]) == (fa == fb) by {
            assert((d[i as int] != d[a as int]) == fa);
            assert((d[j as int] != d[b as int]) == fb);
            assert(d[i as int] != d[j as int]);
            assert(0 <= d[i as int] <= 1 && 0 <= d[j as int] <= 1 && 0 <= d[a as int] <= 1 && 0
                <= d[b as int] <= 1);
        }
    }
    if a == b {
        if fa == fb {
            proof {
                if two_colorable(adj, n) {
                    let d = choose|d: Seq<int>| two_coloring(adj, n, d);
                    assert(two_coloring(adj, n, d));
                }
            }
            return false;
        }
        true
    } else if a < b {
        relabel(root, flip, b, a, fa == fb, Ghost(adj));
        proof {
            assert(root@[i as int] == a && root@[j as int] == a);
            assert forall|v: int, w: int|
                #![trigger settled(root@, flip@, v, w)]
                0 <= v < n && 0 <= w < n && settled(root0, old(flip)@, v, w) implies settled(
                root@,
                flip@,
                v,
                w,
            ) by {
                assert(root@[v] == root@[w]);
            }
        }
        true
    } else {
        relabel(root, flip, a, b, fa == fb, Ghost(adj));
        proof {
            assert(root@[i as int] == b && root@[j as int] == b);
            assert forall|v: int, w: int|
                #![trigger settled(root@, flip@, v, w)]
                0 <= v < n && 0 <= w < n && settled(root0, old(flip)@, v, w) implies settled(
                root@,
                flip@,
                v,
                w,
            ) by {
                assert(root@[v] == root@[w]);
            }
        }
        true
    }
}

/// The least two-coloring, if there is a two-coloring.
pub fn two_coloring_of(lists: &Vec<Vec<usize>>, Ghost(adj): Ghost<spec_fn(int, int) -> bool>) -> (r:
    Option<Vec<usize>>)
    requires
        lists_hold(lists@, adj),
    ensures
        match r {
            Some(c) => two_colorable(adj, lists@.len()) && least_two_coloring(
                adj,
                lists@.len(),
                ints(c@),
            ),
            None => !two_colorable(adj, lists@.len()),
        },
{
    let n: usize = lists.len();
    let mut root: Vec<usize> = Vec::new();
    let mut flip: Vec<bool> = Vec::new();
    for v in 0..n
        invariant
            root@.len() == v,
            flip@.len() == v,
            forall|w: int| 0 <= w < v ==> #[trigger] root@[w] == w,
            forall|w: int| 0 <= w < v ==> !#[trigger] flip@[w],
    {
        root.push(v);
        flip.push(false);
    }
    let mut i: usize = 0;
    while i < n
        invariant
            i <= n,
            n == lists@.len(),
            n == root@.len(),
            lists_hold(lists@, adj),
            represented(adj, root@, flip@),
            forall|v: int, k: int|
                0 <= v < i && 0 <= k < lists@[v]@.len() ==> settled(
                    root@,
                    flip@,
                    (#[trigger] lists@[v]@[k]) as int,
                    v,
                ),
        decreases n - i,
    {
        let list = &lists[i];
        let mut k: usize = 0;
        while k < list.len()
            invariant
                i < n,
                n == lists@.len(),
                n == root@.len(),
                *list == lists@[i as int],
                k <= list@.len(),
                lists_hold(lists@, adj),
                represented(adj, root@, flip@),
                forall|v: int, k: int|
                    0 <= v < i && 0 <= k < lists@[v]@.len() ==> settled(
                        root@,
                        flip@,
                        (#[trigger] lists@[v]@[k]) as int,
                        v,
                    ),
                forall|l: int|
                    0 <= l < k ==> settled(root@, flip@, (#[trigger] list@[l]) as int, i as int),
            decreases list@.len() - k,
        {
            assert(adj(lists@[i as int]@[k as int] as int, i as int));
            let ghost root0 = root@;
            let ghost flip0 = flip@;
            if !join(&mut root, &mut flip, list[k], i, Ghost(adj)) {
                return None;
            }
            proof {
                assert forall|v: int, k: int| 0 <= v < i && 0 <= k < lists@[v]@.len() implies settled(
                    root@,
                    flip@,
                    (#[trigger] lists@[v]@[k]) as int,
                    v,
                ) by {
                    assert(settled(root0, flip0, lists@[v]@[k] as int, v));
                }
                assert forall|l: int| 0 <= l < k implies settled(
                    root@,
                    flip@,
                    (#[trigger] list@[l]) as int,
                    i as int,
                ) by {
                    assert(lists@[i as int]@[l] < n);
                    assert(settled(root0, flip0, list@[l] as int, i as int));
                }
            }
            k = k + 1;
        }
        i = i + 1;
    }
    let mut color: Vec<usize> = Vec::new();
    for v in 0..n
        invariant
            n == flip@.len(),
            color@.len() == v,
            forall|w: int|
                0 <= w < v ==> #[trigger] color@[w] == (if flip@[w] {
                    1usize
                } else {
                    0usize
                }),
    {
        color.push(
            if flip[v] {
                1
            } else {
                0
            },
        );
    }
    proof {
        let c = ints(color@);
        assert forall|i: int, j: int| 0 <= i < n && 0 <= j < n && adj(i, j) implies #[trigger] c[i]
            != #[trigger] c[j] by {
            let iu = i as usize;
            assert(lists@[j]@.contains(iu));
            let k = lists@[j]@.index_of(iu);
            assert(lists@[j]@[k] == iu);
            assert(settled(root@, flip@, i, j));
        }
        assert(two_coloring(adj, n as nat, c));
        assert forall|d: Seq<int>| #[trigger] two_coloring(adj, n as nat, d) implies lexicographically_le(
            c,
            d,
        ) by {
            assert(c.take(0) =~= d.take(0));
            lemma_rooted_is_least(adj, root@, flip@, c, d, 0);
        }
    }
    Some(color)
}

/// A two-coloring in which every representative has color 0 comes no later than
/// any other.
proof fn lemma_rooted_is_least(
    adj: spec_fn(int, int) -> bool,
    root: Seq<usize>,
    flip: Seq<bool>,
    c: Seq<int>,
    d: Seq<int>,
    k: int,
)
    requires
        represented(adj, root, flip),
        two_coloring(adj, root.len(), c),
        two_coloring(adj, root.len(), d),
        forall|v: int|
            0 <= v < root.len() ==> #[trigger] c[v] == (if flip[v] {
                1int
            } else {
                0int
            }),
        0 <= k <= c.len(),
        c.take(k) == d.take(k),
    ensures
        lexicographically_le(c, d),
    decreases c.len() - k,
{
    if k == c.len() {
        assert(c.take(k) =~= c);
        assert(d.take(k) =~= d);
    } else if c[k] == d[k] {
        assert(c.take(k + 1) =~= c.take(k).push(c[k]));
        assert(d.take(k + 1) =~= d.take(k).push(d[k]));
        lemma_rooted_is_least(adj, root, flip, c, d, k + 1);
    } else {
        let r = root[k] as int;
        assert(r <= k);
        assert((d[k] != d[r]) == flip[k]);
        assert(0 <= c[k] <= 1 && 0 <= d[k] <= 1 && 0 <= d[r] <= 1);
        assert(c[r] == 0);
        if r < k {
            assert(c.take(k)[r] == c[r]);
            assert(d.take(k)[r] == d[r]);
        }
        assert(c[k] < d[k]);
    }
}

/// The classes of the vertices: a two-coloring where there is one, with color 0
/// wherever there is a choice; else the greedy coloring.
pub fn color_classes(lists: &Vec<Vec<usize>>, Ghost(adj): Ghost<spec_fn(int, int) -> bool>) -> (r:
    Vec<usize>)
    requires
        lists_hold(lists@, adj),
    ensures
        ints(r@) == class_colors(adj, lists@.len()),
        r@.len() == lists@.len(),
        forall|i: int| 0 <= i < r@.len() ==> #[trigger] r@[i] <= i || r@[i] <= 1,
{
    match two_coloring_of(lists, Ghost(adj)) {
        Some(c) => {
            proof {
                let chosen = class_colors(adj, lists@.len());
                assert(least_two_coloring(adj, lists@.len(), ints(c@)));
                assert(least_two_coloring(adj, lists@.len(), chosen));
                lemma_least_two_coloring_unique(adj, lists@.len(), ints(c@), chosen);
                assert forall|i: int| 0 <= i < c@.len() implies #[trigger] c@[i] <= i || c@[i]
                    <= 1 by {
                    assert(0 <= ints(c@)[i] <= 1);
                }
            }
            c
        },
        None => {
            let c = greedy_coloring(lists, Ghost(adj));
            proof {
                lemma_greedy_colors(adj, lists@.len());
            }
            c
        },
    }
}

spec fn prefix_le(c: Seq<int>, d: Seq<int>, k: int) -> bool {
    c.take(k) == d.take(k) || exists|l: int|
        0 <= l < k && c.take(l) == d.take(l) && #[trigger] c[l] < #[trigger] d[l]
}

/// A two-coloring whose first `k` colors come no later than those of any other.
proof fn lemma_least_prefix(adj: spec_fn(int, int) -> bool, n: nat, k: nat) -> (c: Seq<int>)
    requires
        two_colorable(adj, n),
        k <= n,
    ensures
        two_coloring(adj, n, c),
        forall|d: Seq<int>| #[trigger] two_coloring(adj, n, d) ==> prefix_le(c, d, k as int),
    decreases k,
{
    if k == 0 {
        let c = choose|c: Seq<int>| two_coloring(adj, n, c);
        assert forall|d: Seq<int>| #[trigger] two_coloring(adj, n, d) implies prefix_le(c, d, 0) by {
            assert(c.take(0) =~= d.take(0));
        }
        c
    } else {
        let i = k - 1;
        let b = lemma_least_prefix(adj, n, i as nat);
        let c = if exists|d: Seq<int>| #[trigger]
            two_coloring(adj, n, d) && d.take(i) == b.take(i) && d[i] == 0 {
            choose|d: Seq<int>| #[trigger]
                two_coloring(adj, n, d) && d.take(i) == b.take(i) && d[i] == 0
        } else {
            b
        };
        assert forall|d: Seq<int>| #[trigger] two_coloring(adj, n, d) implies prefix_le(
            c,
            d,
            k as int,
        ) by {
            assert(prefix_le(b, d, i));
            assert(c.take(i) == b.take(i));
            assert(0 <= c[i] <= 1 && 0 <= d[i] <= 1);
            if b.take(i) == d.take(i) {
                if c[i] == d[i] {
                    assert(c.take(k as int) =~= c.take(i).push(c[i]));
                    assert(d.take(k as int) =~= d.take(i).push(d[i]));
                } else {
                    assert(c[i] < d[i]);
                }
            } else {
                let l = choose|l: int|
                    0 <= l < i && b.take(l) == d.take(l) && #[trigger] b[l] < #[trigger] d[l];
                assert(c.take(i)[l] == b.take(i)[l]);
                assert(c.take(l) =~= c.take(i).take(l));
                assert(b.take(l) =~= b.take(i).take(l));
                assert(c[l] < d[l]);
            }
        }
        c
    }
}

/// Where there is a two-coloring, there is a least one.
pub proof fn lemma_least_exists(adj: spec_fn(int, int) -> bool, n: nat) -> (least: Seq<int>)
    requires
        two_colorable(adj, n),
    ensures
        least_two_coloring(adj, n, least),
{
    let least = lemma_least_prefix(adj, n, n);
    assert forall|d: Seq<int>| #[trigger] two_coloring(adj, n, d) implies lexicographically_le(
        least,
        d,
    ) by {
        assert(least.take(n as int) =~= least);
        assert(d.take(n as int) =~= d);
        assert(prefix_le(least, d, n as int));
    }
    least
}

/// Adjacent vertices are in different classes.
pub proof fn law_classes_are_proper(adj: spec_fn(int, int) -> bool, n: nat, i: int, j: int)
    requires
        0 <= i < j < n,
        adj(i, j),
    ensures
        class_colors(adj, n)[i] != class_colors(adj, n)[j],
{
    if two_colorable(adj, n) {
        let least = lemma_least_exists(adj, n);
        assert(least_two_coloring(adj, n, class_colors(adj, n)));
    } else {
        law_greedy_coloring_is_proper(adj, n, i, j);
    }
}

// ---------------------------------------------------------------------------
// Edge colorings of bipartite graphs
// ---------------------------------------------------------------------------
/// `x` is an end of the edge.
pub open spec fn touches(edge: (usize, usize), x: usize) -> bool {
    edge.0 == x || edge.1 == x
}

/// The other end of the edge.
pub open spec fn other_end(edge: (usize, usize), x: usize) -> usize {
    if edge.0 == x {
        edge.1
    } else {
        edge.0
    }
}

/// One of the first edges, those that have a color, meets `x` in color `c`.
pub open spec fn colored_at(edges: Seq<(usize, usize)>, colors: Seq<int>, x: usize, c: int, i: int) -> bool {
    0 <= i < colors.len() && touches(edges[i], x) && colors[i] == c
}

/// The colors at `x`.
pub open spec fn colors_at(edges: Seq<(usize, usize)>, colors: Seq<int>, x: usize) -> Set<int> {
    Set::new(|c: int| exists|i: int| colored_at(edges, colors, x, c, i))
}

/// The edge of color `c` at `x`.
pub open spec fn edge_at(edges: Seq<(usize, usize)>, colors: Seq<int>, x: usize, c: int) -> int {
    choose|i: int| colored_at(edges, colors, x, c, i)
}

/// The path that starts at `x` and takes edges of the colors `c`, `d`, `c`, ...
/// as far as it goes, but at most `fuel` edges.
pub open spec fn alternating_path(
    edges: Seq<(usize, usize)>,
    colors: Seq<int>,
    x: usize,
    c: int,
    d: int,
    fuel: nat,
) -> Seq<int>
    decreases fuel,
{
    if fuel == 0 || !colors_at(edges, colors, x).contains(c) {
        Seq::empty()
    } else {
        let i = edge_at(edges, colors, x, c);
        seq![i] + alternating_path(
            edges,
            colors,
            other_end(edges[i], x),
            d,
            c,
            (fuel - 1) as nat,
        )
    }
}

/// The colors with `a` and `b` exchanged along `path`.
pub open spec fn exchanged(colors: Seq<int>, path: Seq<int>, a: int, b: int) -> Seq<int> {
    Seq::new(
        colors.len(),
        |i: int|
            if path.contains(i) {
                if colors[i] == a {
                    b
                } else {
                    a
                }
            } else {
                colors[i]
            },
    )
}

/// The colors of the first `e` edges: a new edge from `u` to `v` gets the
/// smallest color free at `u`; where that color is taken at `v`, it is first
/// exchanged, along the alternating path from `v`, with the smallest color free
/// at `v`.
pub open spec fn edge_colors(edges: Seq<(usize, usize)>, e: nat) -> Seq<int>
    decreases e,
{
    if e == 0 {
        Seq::empty()
    } else {
        let colors = edge_colors(edges, (e - 1) as nat);
        let (u, v) = edges[e - 1];
        let a = least_free(colors_at(edges, colors, u));
        let b = least_free(colors_at(edges, colors, v));
        if colors_at(edges, colors, v).contains(a) {
            let path = alternating_path(edges, colors, v, a, b, colors.len());
            exchanged(colors, path, a, b).push(a)
        } else {
            colors.push(a)
        }
    }
}

/// Edges that meet have different colors.
pub open spec fn proper_edge_coloring(edges: Seq<(usize, usize)>, colors: Seq<int>) -> bool {
    &&& colors.len() <= edges.len()
    &&& forall|i: int, j: int, x: usize|
        0 <= i < colors.len() && 0 <= j < colors.len() && i != j && #[trigger] touches(edges[i], x)
            && #[trigger] touches(edges[j], x) ==> colors[i] != colors[j]
}

/// Every edge joins the two sides.
pub open spec fn crosses(edges: Seq<(usize, usize)>, side: spec_fn(usize) -> bool) -> bool {
    forall|i: int| 0 <= i < edges.len() ==> side((#[trigger] edges[i]).0) != side(edges[i].1)
}

/// The vertices have two sides, and every edge joins them, whichever end it names
/// first: the graph is bipartite.
pub open spec fn two_sided(edges: Seq<(usize, usize)>) -> bool {
    exists|side: spec_fn(usize) -> bool| crosses(edges, side)
}

proof fn lemma_edge_at(edges: Seq<(usize, usize)>, colors: Seq<int>, x: usize, c: int, i: int)
    requires
        proper_edge_coloring(edges, colors),
        colored_at(edges, colors, x, c, i),
    ensures
        edge_at(edges, colors, x, c) == i,
        colors_at(edges, colors, x).contains(c),
{
    let k = edge_at(edges, colors, x, c);
    assert(colored_at(edges, colors, x, c, k));
    if k != i {
        assert(touches(edges[i], x) && touches(edges[k], x));
    }
}

/// There is always a color free at a vertex.
proof fn lemma_free_at(edges: Seq<(usize, usize)>, colors: Seq<int>, x: usize)
    ensures
        is_least_free(colors_at(edges, colors, x), least_free(colors_at(edges, colors, x))),
{
    let used = colors_at(edges, colors, x);
    let big = lemma_bound(colors);
    assert(!used.contains(big));
    lemma_free_below(used, 0, big);
    let c = choose|c: int| is_least_free(used, c);
    assert(is_least_free(used, c));
}

/// `ws` and `ps` are the vertices and the edges of an alternating path from `v`:
/// `ps[i]` joins `ws[i]` and `ws[i + 1]` and has color `a` for even `i`, else `b`.
pub open spec fn path_ok(
    edges: Seq<(usize, usize)>,
    colors: Seq<int>,
    v: usize,
    a: int,
    b: int,
    ws: Seq<usize>,
    ps: Seq<int>,
) -> bool {
    &&& ws.len() == ps.len() + 1
    &&& ws[0] == v
    &&& ws.no_duplicates()
    &&& forall|i: int|
        #![trigger ps[i]]
        0 <= i < ps.len() ==> 0 <= ps[i] < colors.len() && touches(edges[ps[i]], ws[i]) && touches(
            edges[ps[i]],
            ws[i + 1],
        ) && ws[i + 1] == other_end(edges[ps[i]], ws[i]) && colors[ps[i]] == (if i % 2 == 0 {
            a
        } else {
            b
        })
}

/// The path can be made longer by the edge `p` of the next color.
proof fn lemma_path_extends(
    edges: Seq<(usize, usize)>,
    colors: Seq<int>,
    v: usize,
    a: int,
    b: int,
    ws: Seq<usize>,
    ps: Seq<int>,
    p: int,
)
    requires
        path_ok(edges, colors, v, a, b, ws, ps),
        proper_edge_coloring(edges, colors),
        two_sided(edges),
        a != b,
        !colors_at(edges, colors, v).contains(b),
        colored_at(
            edges,
            colors,
            ws.last(),
            if ps.len() % 2 == 0 {
                a
            } else {
                b
            },
            p,
        ),
    ensures
        path_ok(edges, colors, v, a, b, ws.push(other_end(edges[p], ws.last())), ps.push(p)),
{
    let k = ps.len() as int;
    let cur = ws[k];
    assert(cur == ws.last());
    let next = other_end(edges[p], cur);
    let c = if k % 2 == 0 {
        a
    } else {
        b
    };
    assert(colors[p] == c);
    let side = choose|side: spec_fn(usize) -> bool| crosses(edges, side);
    assert(side(edges[p].0) != side(edges[p].1));
    assert(touches(edges[p], next) && touches(edges[p], cur));
    assert(next != cur);
    if ws.contains(next) {
        let i = ws.index_of(next);
        assert(ws[i] == next);
        assert(i < k);
        // The path enters `next` by `ps[i - 1]` and leaves it by `ps[i]`.
        assert(touches(edges[ps[i]], ws[i]));
        if i == 0 {
            if c == b {
                assert(colored_at(edges, colors, v, b, p));
                assert(false);
            }
            assert(colors[ps[0]] == a);
            assert(p == ps[0]);
            assert(ws[1] == other_end(edges[ps[0]], ws[0]));
            assert(cur == ws[1]);
            assert(k == 1);
            assert(false);
        } else {
            assert(touches(edges[ps[i - 1]], ws[i]));
            assert(colors[ps[i]] != colors[ps[i - 1]]);
            if colors[ps[i]] == c {
                assert(p == ps[i]);
                assert(ws[i + 1] == cur);
                assert(i + 1 == k);
                assert(false);
            } else {
                assert(colors[ps[i - 1]] == c);
                assert(p == ps[i - 1]);
                assert(ws[i - 1] == cur);
                assert(i - 1 == k);
                assert(false);
            }
        }
    }
    let ws2 = ws.push(next);
    let ps2 = ps.push(p);
    assert(ws2.no_duplicates());
    assert forall|i: int|
        #![trigger ps2[i]]
        0 <= i < ps2.len() implies 0 <= ps2[i] < colors.len() && touches(edges[ps2[i]], ws2[i])
        && touches(edges[ps2[i]], ws2[i + 1]) && ws2[i + 1] == other_end(edges[ps2[i]], ws2[i])
        && colors[ps2[i]] == (if i % 2 == 0 {
        a
    } else {
        b
    }) by {
        if i < k {
            assert(ps2[i] == ps[i]);
        }
    }
}

/// The edges of a path are distinct, so there are no more of them than edges.
proof fn lemma_path_short(
    edges: Seq<(usize, usize)>,
    colors: Seq<int>,
    v: usize,
    a: int,
    b: int,
    ws: Seq<usize>,
    ps: Seq<int>,
)
    requires
        path_ok(edges, colors, v, a, b, ws, ps),
    ensures
        ps.no_duplicates(),
        ps.len() <= colors.len(),
{
    assert forall|i: int, j: int| 0 <= i < j < ps.len() implies ps[i] != ps[j] by {
        if ps[i] == ps[j] {
            let e = edges[ps[i]];
            assert(touches(e, ws[i]) && touches(e, ws[i + 1]));
            assert(touches(edges[ps[j]], ws[j]) && touches(edges[ps[j]], ws[j + 1]));
            assert(ws[j] != ws[i] && ws[j + 1] != ws[i] && ws[j] != ws[j + 1]);
            assert(ws[j + 1] != ws[i + 1]);
        }
    }
    lemma_distinct_below(ps, colors.len());
}

/// Distinct numbers below `n` are at most `n` many.
pub proof fn lemma_distinct_below(s: Seq<int>, n: nat)
    requires
        s.no_duplicates(),
        forall|i: int| 0 <= i < s.len() ==> 0 <= #[trigger] s[i] < n,
    ensures
        s.len() <= n,
{
    s.unique_seq_to_set();
    let range = vstd::set_lib::set_int_range(0, n as int);
    vstd::set_lib::lemma_int_range(0, n as int);
    assert(s.to_set().subset_of(range)) by {
        assert forall|x: int| s.to_set().contains(x) implies range.contains(x) by {
            let i = s.index_of(x);
            assert(s[i] == x);
        }
    }
    vstd::set_lib::lemma_len_subset(s.to_set(), range);
}

/// The vertices of a path lie alternately on the two sides.
proof fn lemma_path_sides(
    edges: Seq<(usize, usize)>,
    colors: Seq<int>,
    v: usize,
    a: int,
    b: int,
    ws: Seq<usize>,
    ps: Seq<int>,
    side: spec_fn(usize) -> bool,
    t: int,
)
    requires
        path_ok(edges, colors, v, a, b, ws, ps),
        colors.len() <= edges.len(),
        crosses(edges, side),
        0 <= t < ws.len(),
    ensures
        side(ws[t]) == (side(v) == (t % 2 == 0)),
    decreases t,
{
    if t > 0 {
        lemma_path_sides(edges, colors, v, a, b, ws, ps, side, t - 1);
        let p = ps[t - 1];
        assert(touches(edges[p], ws[t - 1]));
        assert(side(edges[p].0) != side(edges[p].1));
    }
}

/// A path that cannot be made longer holds every edge of the two colors that
/// meets it.
proof fn lemma_path_closed(
    edges: Seq<(usize, usize)>,
    colors: Seq<int>,
    v: usize,
    a: int,
    b: int,
    ws: Seq<usize>,
    ps: Seq<int>,
    f: int,
    g: int,
    x: usize,
)
    requires
        path_ok(edges, colors, v, a, b, ws, ps),
        proper_edge_coloring(edges, colors),
        a != b,
        !colors_at(edges, colors, v).contains(b),
        !colors_at(edges, colors, ws.last()).contains(
            if ps.len() % 2 == 0 {
                a
            } else {
                b
            },
        ),
        ps.contains(f),
        0 <= g < colors.len(),
        colors[g] == a || colors[g] == b,
        touches(edges[f], x),
        touches(edges[g], x),
    ensures
        ps.contains(g),
{
    let i = ps.index_of(f);
    assert(ps[i] == f);
    assert(ws[i + 1] == other_end(edges[f], ws[i]));
    let t = if x == ws[i] {
        i
    } else {
        i + 1
    };
    assert(ws[t] == x);
    if t < ps.len() {
        assert(touches(edges[ps[t]], ws[t]));
        if colors[g] == colors[ps[t]] {
            assert(g == ps[t]);
        } else if t == 0 {
            assert(colored_at(edges, colors, v, b, g));
        } else {
            assert(touches(edges[ps[t - 1]], ws[t]));
            assert(colors[g] == colors[ps[t - 1]]);
            assert(g == ps[t - 1]);
        }
    } else {
        assert(ws.last() == x);
        assert(touches(edges[ps[t - 1]], ws[t]));
        if colors[g] == colors[ps[t - 1]] {
            assert(g == ps[t - 1]);
        } else {
            assert(colored_at(
                edges,
                colors,
                x,
                if ps.len() % 2 == 0 {
                    a
                } else {
                    b
                },
                g,
            ));
        }
    }
}

/// Exchanging the colors along such a path keeps the coloring proper and frees
/// the color `a` at both ends of the new edge.
proof fn lemma_exchange(
    edges: Seq<(usize, usize)>,
    colors: Seq<int>,
    a: int,
    b: int,
    ws: Seq<usize>,
    ps: Seq<int>,
)
    requires
        colors.len() < edges.len(),
        path_ok(edges, colors, edges[colors.len() as int].1, a, b, ws, ps),
        proper_edge_coloring(edges, colors),
        two_sided(edges),
        a != b,
        !colors_at(edges, colors, edges[colors.len() as int].0).contains(a),
        !colors_at(edges, colors, edges[colors.len() as int].1).contains(b),
        !colors_at(edges, colors, ws.last()).contains(
            if ps.len() % 2 == 0 {
                a
            } else {
                b
            },
        ),
    ensures
        proper_edge_coloring(edges, exchanged(colors, ps, a, b)),
        !colors_at(edges, exchanged(colors, ps, a, b), edges[colors.len() as int].0).contains(a),
        !colors_at(edges, exchanged(colors, ps, a, b), edges[colors.len() as int].1).contains(a),
{
    let e = colors.len() as int;
    let (u, v) = edges[e];
    let after = exchanged(colors, ps, a, b);
    assert forall|i: int| 0 <= i < colors.len() && ps.contains(i) implies #[trigger] colors[i] == a
        || colors[i] == b by {
        let k = ps.index_of(i);
        assert(ps[k] == i);
    }
    assert forall|i: int, j: int, x: usize|
        0 <= i < after.len() && 0 <= j < after.len() && i != j && #[trigger] touches(edges[i], x)
            && #[trigger] touches(edges[j], x) implies after[i] != after[j] by {
        assert(colors[i] != colors[j]);
        if ps.contains(i) && !ps.contains(j) && (colors[j] == a || colors[j] == b) {
            lemma_path_closed(edges, colors, v, a, b, ws, ps, i, j, x);
        }
        if ps.contains(j) && !ps.contains(i) && (colors[i] == a || colors[i] == b) {
            lemma_path_closed(edges, colors, v, a, b, ws, ps, j, i, x);
        }
    }
    if colors_at(edges, after, u).contains(a) {
        let i = choose|i: int| colored_at(edges, after, u, a, i);
        assert(colored_at(edges, after, u, a, i));
        if !ps.contains(i) {
            assert(colored_at(edges, colors, u, a, i));
        } else {
            let k = ps.index_of(i);
            assert(ps[k] == i);
            assert(ws[k + 1] == other_end(edges[i], ws[k]));
            let t = if ws[k] == u {
                k
            } else {
                k + 1
            };
            assert(ws[t] == u);
            let side = choose|side: spec_fn(usize) -> bool| crosses(edges, side);
            lemma_path_sides(edges, colors, v, a, b, ws, ps, side, t);
            assert(side(edges[e].0) != side(edges[e].1));
            if t % 2 == 1 {
                assert(touches(edges[ps[t - 1]], ws[t]));
                assert(colored_at(edges, colors, u, a, ps[t - 1]));
            }
        }
    }
    if colors_at(edges, after, v).contains(a) {
        let i = choose|i: int| colored_at(edges, after, v, a, i);
        assert(colored_at(edges, after, v, a, i));
        if ps.contains(i) {
            assert(colored_at(edges, colors, v, b, i));
        } else {
            lemma_edge_at(edges, colors, v, a, i);
            if ps.len() == 0 {
                assert(ws.last() == v);
            } else {
                assert(touches(edges[ps[0]], ws[0]));
                assert(ps[0] == i);
            }
        }
    }
}

/// Adding an edge in a color that is free at both ends keeps the coloring proper.
proof fn lemma_add_edge(edges: Seq<(usize, usize)>, colors: Seq<int>, a: int)
    requires
        colors.len() < edges.len(),
        proper_edge_coloring(edges, colors),
        !colors_at(edges, colors, edges[colors.len() as int].0).contains(a),
        !colors_at(edges, colors, edges[colors.len() as int].1).contains(a),
    ensures
        proper_edge_coloring(edges, colors.push(a)),
{
    let after = colors.push(a);
    let e = colors.len() as int;
    assert forall|i: int, j: int, x: usize|
        0 <= i < after.len() && 0 <= j < after.len() && i != j && #[trigger] touches(edges[i], x)
            && #[trigger] touches(edges[j], x) implies after[i] != after[j] by {
        if i == e && after[j] == a {
            assert(colored_at(edges, colors, x, a, j));
        }
        if j == e && after[i] == a {
            assert(colored_at(edges, colors, x, a, i));
        }
    }
}

// The table of the edges at each vertex, by color.
spec fn entry(at: Seq<Vec<Option<usize>>>, x: int, c: int) -> Option<usize> {
    if 0 <= c < at[x]@.len() {
        at[x]@[c]
    } else {
        None
    }
}

/// The table holds exactly the edges of `live`.
spec fn table_of(
    at: Seq<Vec<Option<usize>>>,
    edges: Seq<(usize, usize)>,
    colors: Seq<int>,
    live: spec_fn(int) -> bool,
) -> bool {
    &&& forall|x: usize, c: int|
        #![trigger entry(at, x as int, c)]
        x < at.len() && entry(at, x as int, c) is Some ==> live(
            entry(at, x as int, c)->0 as int,
        ) && colored_at(edges, colors, x, c, entry(at, x as int, c)->0 as int)
    &&& forall|x: usize, c: int, i: int|
        #![trigger entry(at, x as int, c), colored_at(edges, colors, x, c, i)]
        x < at.len() && 0 <= c && entry(at, x as int, c) is None && live(i) ==> !colored_at(
            edges,
            colors,
            x,
            c,
            i,
        )
}

fn lookup(at: &Vec<Vec<Option<usize>>>, x: usize, c: usize) -> (r: Option<usize>)
    requires
        x < at@.len(),
    ensures
        r == entry(at@, x as int, c as int),
{
    if c < at[x].len() {
        at[x][c]
    } else {
        None
    }
}

fn put(at: &mut Vec<Vec<Option<usize>>>, x: usize, c: usize, i: Option<usize>)
    requires
        x < old(at)@.len(),
    ensures
        final(at)@.len() == old(at)@.len(),
        forall|y: int, d: int|
            #![trigger entry(final(at)@, y, d)]
            0 <= y < old(at)@.len() ==> entry(final(at)@, y, d) == (if y == x && d == c {
                i
            } else {
                entry(old(at)@, y, d)
            }),
{
    let ghost at0 = at@;
    let mut row: Vec<Option<usize>> = Vec::new();
    core::mem::swap(&mut row, &mut at[x]);
    let ghost row0 = row@;
    while row.len() <= c
        invariant
            row0.len() <= row@.len(),
            row@.len() <= row0.len() || row@.len() <= c + 1,
            forall|d: int| 0 <= d < row0.len() ==> #[trigger] row@[d] == row0[d],
            forall|d: int| row0.len() <= d < row@.len() ==> #[trigger] row@[d] is None,
        decreases c + 1 - row@.len(),
    {
        row.push(None);
    }
    row.set(c, i);
    core::mem::swap(&mut row, &mut at[x]);
    proof {
        assert forall|y: int, d: int|
            #![trigger entry(at@, y, d)]
            0 <= y < at0.len() implies entry(at@, y, d) == (if y == x && d == c {
            i
        } else {
            entry(at0, y, d)
        }) by {
            if y != x {
                assert(at@[y] == at0[y]);
            }
        }
    }
}

/// The smallest color free at `x`.
fn free_color(
    at: &Vec<Vec<Option<usize>>>,
    x: usize,
    Ghost(edges): Ghost<Seq<(usize, usize)>>,
    Ghost(colors): Ghost<Seq<int>>,
) -> (c: usize)
    requires
        x < at@.len(),
        table_of(at@, edges, colors, |i: int| true),
    ensures
        c == least_free(colors_at(edges, colors, x)),
        is_least_free(colors_at(edges, colors, x), c as int),
{
    let ghost used = colors_at(edges, colors, x);
    let mut c: usize = 0;
    while c < at[x].len() && at[x][c].is_some()
        invariant
            x < at@.len(),
            c <= at@[x as int]@.len(),
            forall|d: int| 0 <= d < c ==> (#[trigger] at@[x as int]@[d]) is Some,
        decreases at@[x as int]@.len() - c,
    {
        c = c + 1;
    }
    proof {
        assert forall|d: int| 0 <= d < c implies #[trigger] used.contains(d) by {
            assert(at@[x as int]@[d] is Some);
            assert(entry(at@, x as int, d) is Some);
            assert(colored_at(edges, colors, x, d, entry(at@, x as int, d)->0 as int));
        }
        assert(entry(at@, x as int, c as int) is None);
        if used.contains(c as int) {
            let i = choose|i: int| colored_at(edges, colors, x, c as int, i);
            assert(colored_at(edges, colors, x, c as int, i));
        }
        lemma_least_free(used, c as int);
    }
    c
}

/// Collect the maximal path from `v` that alternates between the colors `a` and
/// `b`.
#[verifier::spinoff_prover]
fn collect_path(
    edges: &Vec<(usize, usize)>,
    at: &Vec<Vec<Option<usize>>>,
    v: usize,
    a: usize,
    b: usize,
    Ghost(colors): Ghost<Seq<int>>,
) -> (r: (Vec<usize>, Ghost<Seq<usize>>))
    requires
        proper_edge_coloring(edges@, colors),
        two_sided(edges@),
        table_of(at@, edges@, colors, |i: int| true),
        forall|i: int|
            0 <= i < edges@.len() ==> (#[trigger] edges@[i]).0 < at@.len() && edges@[i].1
                < at@.len(),
        v < at@.len(),
        a != b,
        !colors_at(edges@, colors, v).contains(b as int),
    ensures
        path_ok(edges@, colors, v, a as int, b as int, r.1@, ints(r.0@)),
        !colors_at(edges@, colors, r.1@.last()).contains(
            if r.0@.len() % 2 == 0 {
                a as int
            } else {
                b as int
            },
        ),
        ints(r.0@) == alternating_path(edges@, colors, v, a as int, b as int, colors.len()),
{
    let ghost mut ws: Seq<usize> = seq![v];
    let mut path: Vec<usize> = Vec::new();
    let mut cur: usize = v;
    let mut c: usize = a;
    let mut d: usize = b;
    let ghost whole = alternating_path(edges@, colors, v, a as int, b as int, colors.len());
    proof {
        assert(ints(path@) + whole =~= whole);
        assert(ws.no_duplicates());
    }
    loop
        invariant
            proper_edge_coloring(edges@, colors),
            two_sided(edges@),
            table_of(at@, edges@, colors, |i: int| true),
            forall|i: int|
                0 <= i < edges@.len() ==> (#[trigger] edges@[i]).0 < at@.len() && edges@[i].1
                    < at@.len(),
            a != b,
            !colors_at(edges@, colors, v).contains(b as int),
            path_ok(edges@, colors, v, a as int, b as int, ws, ints(path@)),
            cur < at@.len(),
            cur == ws.last(),
            path@.len() <= colors.len(),
            path@.len() % 2 == 0 ==> c == a && d == b,
            path@.len() % 2 == 1 ==> c == b && d == a,
            whole == alternating_path(edges@, colors, v, a as int, b as int, colors.len()),
            whole == ints(path@) + alternating_path(
                edges@,
                colors,
                cur,
                c as int,
                d as int,
                (colors.len() - path@.len()) as nat,
            ),
        ensures
            path_ok(edges@, colors, v, a as int, b as int, ws, ints(path@)),
            !colors_at(edges@, colors, ws.last()).contains(
                if path@.len() % 2 == 0 {
                    a as int
                } else {
                    b as int
                },
            ),
            ints(path@) == whole,
        decreases colors.len() - path@.len(),
    {
        match lookup(at, cur, c) {
            None => {
                proof {
                    assert(entry(at@, cur as int, c as int) is None);
                    if colors_at(edges@, colors, cur).contains(c as int) {
                        let i = choose|i: int| colored_at(edges@, colors, cur, c as int, i);
                        assert(colored_at(edges@, colors, cur, c as int, i));
                    }
                    assert(ints(path@) + Seq::<int>::empty() =~= ints(path@));
                }
                break;
            },
            Some(p) => {
                let ghost path0 = path@;
                let ghost cur0 = cur;
                let ghost fuel = (colors.len() - path@.len()) as nat;
                proof {
                    assert(entry(at@, cur as int, c as int) is Some);
                    assert(colored_at(edges@, colors, cur, c as int, p as int));
                    lemma_edge_at(edges@, colors, cur, c as int, p as int);
                    lemma_path_extends(
                        edges@,
                        colors,
                        v,
                        a as int,
                        b as int,
                        ws,
                        ints(path@),
                        p as int,
                    );
                    assert(ints(path@.push(p)) =~= ints(path@).push(p as int));
                    ws = ws.push(other_end(edges@[p as int], cur));
                    lemma_path_short(
                        edges@,
                        colors,
                        v,
                        a as int,
                        b as int,
                        ws,
                        ints(path@.push(p)),
                    );
                }
                path.push(p);
                let (x, y) = edges[p];
                cur = if x == cur {
                    y
                } else {
                    x
                };
                let e: usize = c;
                c = d;
                d = e;
                proof {
                    let rest = alternating_path(
                        edges@,
                        colors,
                        cur,
                        c as int,
                        d as int,
                        (fuel - 1) as nat,
                    );
                    assert(ints(path0) + (seq![p as int] + rest) =~= ints(path@) + rest);
                }
            },
        }
    }
    (path, Ghost(ws))
}

/// Take an edge out of the table.
fn detach(
    at: &mut Vec<Vec<Option<usize>>>,
    edges: &Vec<(usize, usize)>,
    p: usize,
    c: usize,
    Ghost(colors): Ghost<Seq<int>>,
    Ghost(live): Ghost<spec_fn(int) -> bool>,
)
    requires
        proper_edge_coloring(edges@, colors),
        table_of(old(at)@, edges@, colors, live),
        p < colors.len(),
        colors[p as int] == c,
        edges@[p as int].0 < old(at)@.len(),
        edges@[p as int].1 < old(at)@.len(),
    ensures
        final(at)@.len() == old(at)@.len(),
        table_of(final(at)@, edges@, colors, |i: int| live(i) && i != p),
{
    let (x, y) = edges[p];
    let ghost at0 = at@;
    put(at, x, c, None);
    put(at, y, c, None);
    proof {
        assert forall|z: usize, d: int|
            #![trigger entry(at@, z as int, d)]
            z < at@.len() && entry(at@, z as int, d) is Some implies live(
            entry(at@, z as int, d)->0 as int,
        ) && entry(at@, z as int, d)->0 != p && colored_at(
            edges@,
            colors,
            z,
            d,
            entry(at@, z as int, d)->0 as int,
        ) by {
            assert(entry(at@, z as int, d) == entry(at0, z as int, d));
            if entry(at@, z as int, d)->0 == p {
                assert(colored_at(edges@, colors, z, d, p as int));
            }
        }
        assert forall|z: usize, d: int, i: int|
            #![trigger entry(at@, z as int, d), colored_at(edges@, colors, z, d, i)]
            z < at@.len() && 0 <= d && entry(at@, z as int, d) is None && live(i) && i
                != p implies !colored_at(edges@, colors, z, d, i) by {
            if (z == x || z == y) && d == c {
                if colored_at(edges@, colors, z, d, i) {
                    assert(touches(edges@[i], z) && touches(edges@[p as int], z));
                }
            } else {
                assert(entry(at0, z as int, d) is None);
            }
        }
    }
}

/// Put an edge into the table.
fn attach(
    at: &mut Vec<Vec<Option<usize>>>,
    edges: &Vec<(usize, usize)>,
    p: usize,
    c: usize,
    Ghost(colors): Ghost<Seq<int>>,
    Ghost(live): Ghost<spec_fn(int) -> bool>,
)
    requires
        table_of(old(at)@, edges@, colors, live),
        p < colors.len(),
        p < edges@.len(),
        colors[p as int] == c,
        edges@[p as int].0 < old(at)@.len(),
        edges@[p as int].1 < old(at)@.len(),
    ensures
        final(at)@.len() == old(at)@.len(),
        table_of(final(at)@, edges@, colors, |i: int| live(i) || i == p),
{
    let (x, y) = edges[p];
    let ghost at0 = at@;
    put(at, x, c, Some(p));
    put(at, y, c, Some(p));
    proof {
        assert forall|z: usize, d: int|
            #![trigger entry(at@, z as int, d)]
            z < at@.len() && entry(at@, z as int, d) is Some implies (live(
            entry(at@, z as int, d)->0 as int,
        ) || entry(at@, z as int, d)->0 == p) && colored_at(
            edges@,
            colors,
            z,
            d,
            entry(at@, z as int, d)->0 as int,
        ) by {
            if (z == x || z == y) && d == c {
                assert(touches(edges@[p as int], z));
            } else {
                assert(entry(at@, z as int, d) == entry(at0, z as int, d));
            }
        }
        assert forall|z: usize, d: int, i: int|
            #![trigger entry(at@, z as int, d), colored_at(edges@, colors, z, d, i)]
            z < at@.len() && 0 <= d && entry(at@, z as int, d) is None && (live(i) || i
                == p) implies !colored_at(edges@, colors, z, d, i) by {
            assert(entry(at0, z as int, d) is None);
        }
    }
}

proof fn lemma_table_live(
    at: Seq<Vec<Option<usize>>>,
    edges: Seq<(usize, usize)>,
    colors: Seq<int>,
    live: spec_fn(int) -> bool,
    colors2: Seq<int>,
    live2: spec_fn(int) -> bool,
)
    requires
        table_of(at, edges, colors, live),
        forall|i: int|
            #![trigger colors[i]]
            0 <= i < colors.len() && live(i) ==> i < colors2.len() && live2(i) && colors2[i]
                == colors[i],
        forall|i: int|
            #![trigger colors2[i]]
            0 <= i < colors2.len() && live2(i) ==> i < colors.len() && live(i) && colors2[i]
                == colors[i],
    ensures
        table_of(at, edges, colors2, live2),
{
    assert forall|x: usize, c: int|
        #![trigger entry(at, x as int, c)]
        x < at.len() && entry(at, x as int, c) is Some implies live2(
        entry(at, x as int, c)->0 as int,
    ) && colored_at(edges, colors2, x, c, entry(at, x as int, c)->0 as int) by {
        let i = entry(at, x as int, c)->0 as int;
        assert(colored_at(edges, colors, x, c, i));
        assert(colors[i] == c);
    }
    assert forall|x: usize, c: int, i: int|
        #![trigger entry(at, x as int, c), colored_at(edges, colors2, x, c, i)]
        x < at.len() && 0 <= c && entry(at, x as int, c) is None && live2(i) implies !colored_at(
        edges,
        colors2,
        x,
        c,
        i,
    ) by {
        if colored_at(edges, colors2, x, c, i) {
            assert(colors2[i] == c);
            assert(colored_at(edges, colors, x, c, i));
        }
    }
}

/// Exchange the colors `a` and `b` along the path.
#[verifier::spinoff_prover]
fn exchange(
    at: &mut Vec<Vec<Option<usize>>>,
    edges: &Vec<(usize, usize)>,
    color: &mut Vec<usize>,
    path: &Vec<usize>,
    a: usize,
    b: usize,
)
    requires
        proper_edge_coloring(edges@, ints(old(color)@)),
        table_of(old(at)@, edges@, ints(old(color)@), |i: int| true),
        forall|i: int|
            0 <= i < edges@.len() ==> (#[trigger] edges@[i]).0 < old(at)@.len() && edges@[i].1
                < old(at)@.len(),
        forall|k: int| 0 <= k < path@.len() ==> (#[trigger] path@[k]) < old(color)@.len(),
        path@.no_duplicates(),
    ensures
        final(at)@.len() == old(at)@.len(),
        ints(final(color)@) == exchanged(ints(old(color)@), ints(path@), a as int, b as int),
        table_of(final(at)@, edges@, ints(final(color)@), |i: int| true),
{
    let ghost colors = ints(color@);
    let ghost ps = ints(path@);
    let ghost n = at@.len();
    let ghost live0 = |i: int| !ps.take(0).contains(i);
    proof {
        lemma_table_live(at@, edges@, colors, |i: int| true, colors, live0);
    }
    for k in 0..path.len()
        invariant
            at@.len() == n,
            colors == ints(color@),
            ps == ints(path@),
            proper_edge_coloring(edges@, colors),
            forall|i: int|
                0 <= i < edges@.len() ==> (#[trigger] edges@[i]).0 < n && edges@[i].1 < n,
            forall|k: int| 0 <= k < path@.len() ==> (#[trigger] path@[k]) < color@.len(),
            table_of(at@, edges@, colors, |i: int| !ps.take(k as int).contains(i)),
    {
        let p: usize = path[k];
        let ghost live = |i: int| !ps.take(k as int).contains(i);
        assert(edges@[p as int].0 < n);
        detach(at, edges, p, color[p], Ghost(colors), Ghost(live));
        proof {
            let live1 = |i: int| live(i) && i != p;
            let live2 = |i: int| !ps.take(k + 1).contains(i);
            assert(ps.take(k + 1) =~= ps.take(k as int).push(p as int));
            assert forall|i: int| #[trigger] live1(i) == live2(i) by {
                let t = ps.take(k as int);
                if t.contains(i) {
                    let j = t.index_of(i);
                    assert(ps.take(k + 1)[j] == i);
                }
                if ps.take(k + 1).contains(i) && i != p {
                    let j = ps.take(k + 1).index_of(i);
                    assert(t[j] == i);
                }
                assert(ps.take(k + 1)[k as int] == p);
            }
            lemma_table_live(at@, edges@, colors, live1, colors, live2);
        }
    }
    let ghost after = exchanged(colors, ps, a as int, b as int);
    let ghost mixed = |k: int, i: int| !ps.contains(i) || ps.take(k).contains(i);
    proof {
        assert(ps.take(ps.len() as int) =~= ps);
        let live1 = |i: int| !ps.take(ps.len() as int).contains(i);
        let live2 = |i: int| mixed(0, i);
        assert(ps.take(0) =~= Seq::<int>::empty());
        lemma_table_live(at@, edges@, colors, live1, after, live2);
    }
    for k in 0..path.len()
        invariant
            at@.len() == n,
            color@.len() == colors.len(),
            ps == ints(path@),
            colors.len() <= edges@.len(),
            after == exchanged(colors, ps, a as int, b as int),
            mixed == (|k: int, i: int| !ps.contains(i) || ps.take(k).contains(i)),
            forall|i: int|
                0 <= i < edges@.len() ==> (#[trigger] edges@[i]).0 < n && edges@[i].1 < n,
            forall|k: int| 0 <= k < path@.len() ==> (#[trigger] path@[k]) < color@.len(),
            path@.no_duplicates(),
            table_of(at@, edges@, after, |i: int| mixed(k as int, i)),
            forall|i: int|
                0 <= i < colors.len() ==> #[trigger] color@[i] == (if mixed(k as int, i) {
                    after[i]
                } else {
                    colors[i]
                }),
    {
        let p: usize = path[k];
        let ghost color0 = color@;
        proof {
            assert(ps[k as int] == p);
            assert(ps.contains(p as int));
            if ps.take(k as int).contains(p as int) {
                let j = ps.take(k as int).index_of(p as int);
                assert(ps.take(k as int)[j] == p);
                assert(path@[j] == path@[k as int]);
            }
            assert(color@[p as int] == colors[p as int]);
        }
        let swapped: usize = if color[p] == a {
            b
        } else {
            a
        };
        color.set(p, swapped);
        let ghost live = |i: int| mixed(k as int, i);
        assert(after[p as int] == swapped);
        assert(edges@[p as int].0 < n);
        attach(at, edges, p, swapped, Ghost(after), Ghost(live));
        proof {
            let live1 = |i: int| live(i) || i == p;
            let live2 = |i: int| mixed(k + 1, i);
            assert(ps.take(k + 1) =~= ps.take(k as int).push(p as int));
            assert forall|i: int| #[trigger] live1(i) == live2(i) by {
                let t = ps.take(k as int);
                if t.contains(i) {
                    let j = t.index_of(i);
                    assert(ps.take(k + 1)[j] == i);
                }
                if ps.take(k + 1).contains(i) && i != p {
                    let j = ps.take(k + 1).index_of(i);
                    assert(t[j] == i);
                }
                assert(ps.take(k + 1)[k as int] == p);
            }
            lemma_table_live(at@, edges@, after, live1, after, live2);
            assert forall|i: int| 0 <= i < colors.len() implies #[trigger] color@[i] == (if mixed(
                k + 1,
                i,
            ) {
                after[i]
            } else {
                colors[i]
            }) by {
                assert(live1(i) == live2(i));
                if i != p {
                    assert(color@[i] == color0[i]);
                }
            }
        }
    }
    proof {
        assert(ps.take(ps.len() as int) =~= ps);
        let live1 = |i: int| mixed(ps.len() as int, i);
        assert(ints(color@) =~= after) by {
            assert forall|i: int| 0 <= i < colors.len() implies ints(color@)[i] == after[i] by {
                assert(color@[i] == after[i]);
            }
        }
        lemma_table_live(at@, edges@, after, live1, after, |i: int| true);
    }
}

/// Color one more edge.
#[verifier::spinoff_prover]
fn color_edge(
    at: &mut Vec<Vec<Option<usize>>>,
    edges: &Vec<(usize, usize)>,
    color: &mut Vec<usize>,
)
    requires
        old(color)@.len() < edges@.len(),
        two_sided(edges@),
        proper_edge_coloring(edges@, ints(old(color)@)),
        ints(old(color)@) == edge_colors(edges@, old(color)@.len()),
        table_of(old(at)@, edges@, ints(old(color)@), |i: int| true),
        forall|i: int|
            0 <= i < edges@.len() ==> (#[trigger] edges@[i]).0 < old(at)@.len() && edges@[i].1
                < old(at)@.len(),
    ensures
        final(at)@.len() == old(at)@.len(),
        final(color)@.len() == old(color)@.len() + 1,
        proper_edge_coloring(edges@, ints(final(color)@)),
        ints(final(color)@) == edge_colors(edges@, final(color)@.len()),
        table_of(final(at)@, edges@, ints(final(color)@), |i: int| true),
{
    let e: usize = color.len();
    let (u, v) = edges[e];
    let ghost colors = ints(color@);
    assert(edges@[e as int].0 < at@.len());
    let a: usize = free_color(at, u, Ghost(edges@), Ghost(colors));
    if lookup(at, v, a).is_some() {
        let b: usize = free_color(at, v, Ghost(edges@), Ghost(colors));
        proof {
            let i = entry(at@, v as int, a as int)->0 as int;
            assert(colored_at(edges@, colors, v, a as int, i));
            assert(colors_at(edges@, colors, v).contains(a as int));
        }
        let (path, ws) = collect_path(edges, at, v, a, b, Ghost(colors));
        proof {
            lemma_path_short(edges@, colors, v, a as int, b as int, ws@, ints(path@));
            assert forall|i: int, j: int| 0 <= i < j < path@.len() implies path@[i] != path@[j] by {
                assert(ints(path@)[i] != ints(path@)[j]);
            }
            assert(path@.no_duplicates());
            assert forall|k: int| 0 <= k < path@.len() implies (#[trigger] path@[k])
                < color@.len() by {
                assert(ints(path@)[k] < colors.len());
            }
            lemma_exchange(edges@, colors, a as int, b as int, ws@, ints(path@));
        }
        exchange(at, edges, color, &path, a, b);
    } else {
        proof {
            assert(entry(at@, v as int, a as int) is None);
            if colors_at(edges@, colors, v).contains(a as int) {
                let i = choose|i: int| colored_at(edges@, colors, v, a as int, i);
                assert(colored_at(edges@, colors, v, a as int, i));
            }
        }
    }
    let ghost mid = ints(color@);
    proof {
        lemma_add_edge(edges@, mid, a as int);
    }
    color.push(a);
    proof {
        assert(ints(color@) =~= mid.push(a as int));
        lemma_table_live(
            at@,
            edges@,
            mid,
            |i: int| true,
            ints(color@),
            |i: int| i != e,
        );
    }
    attach(at, edges, e, a, Ghost(ints(color@)), Ghost(|i: int| i != e));
    proof {
        lemma_table_live(
            at@,
            edges@,
            ints(color@),
            |i: int| (|i: int| i != e)(i) || i == e,
            ints(color@),
            |i: int| true,
        );
    }
}

/// Proper edge coloring of a bipartite graph whose vertices are numbered below
/// `n_vertices`, with no more colors than the largest degree. Each new edge takes the smallest
/// color free at its first end; where that color is taken at the second end, it
/// is exchanged there along an alternating path, which cannot reach the first
/// end.
pub fn bipartite_edge_coloring(n_vertices: usize, edges: &Vec<(usize, usize)>) -> (color: Vec<usize>)
    requires
        two_sided(edges@),
        forall|i: int|
            0 <= i < edges@.len() ==> (#[trigger] edges@[i]).0 < n_vertices && edges@[i].1
                < n_vertices,
    ensures
        ints(color@) == edge_colors(edges@, edges@.len()),
        color@.len() == edges@.len(),
        proper_edge_coloring(edges@, ints(color@)),
        forall|i: int| 0 <= i < color@.len() ==> (#[trigger] color@[i]) < edges@.len(),
        forall|i: int| 0 <= i < color@.len() ==> below_some_degree(edges@, #[trigger] color@[i]),
{
    let mut at: Vec<Vec<Option<usize>>> = Vec::new();
    for x in 0..n_vertices
        invariant
            at@.len() == x,
            forall|y: int| 0 <= y < x ==> (#[trigger] at@[y])@.len() == 0,
    {
        at.push(Vec::new());
    }
    let mut color: Vec<usize> = Vec::new();
    proof {
        assert(ints(color@) =~= edge_colors(edges@, 0));
        assert forall|x: usize, c: int| #![trigger entry(at@, x as int, c)] x < at@.len() implies entry(
            at@,
            x as int,
            c,
        ) is None by {
            assert(at@[x as int]@.len() == 0);
        }
    }
    for e in 0..edges.len()
        invariant
            at@.len() == n_vertices,
            color@.len() == e,
            two_sided(edges@),
            forall|i: int|
                0 <= i < edges@.len() ==> (#[trigger] edges@[i]).0 < n_vertices && edges@[i].1
                    < n_vertices,
            proper_edge_coloring(edges@, ints(color@)),
            ints(color@) == edge_colors(edges@, e as nat),
            table_of(at@, edges@, ints(color@), |i: int| true),
    {
        color_edge(&mut at, edges, &mut color);
    }
    proof {
        assert forall|i: int| 0 <= i < color@.len() implies (#[trigger] color@[i])
            < edges@.len() by {
            law_edge_coloring(edges@, i);
            assert(ints(color@)[i] == color@[i]);
            let x = choose|x: usize|
                edge_colors(edges@, edges@.len())[i] < #[trigger] degree(edges@, x);
            lemma_degree(edges@, x);
        }
        assert forall|i: int| 0 <= i < color@.len() implies below_some_degree(
            edges@,
            #[trigger] color@[i],
        ) by {
            law_edge_coloring(edges@, i);
            assert(ints(color@)[i] == color@[i]);
        }
    }
    color
}

/// The edges at `x`.
pub open spec fn incident(edges: Seq<(usize, usize)>, x: usize) -> Set<int> {
    Set::new(|i: int| 0 <= i < edges.len() && touches(edges[i], x))
}

/// The color is below the degree of some vertex, and so below the largest degree.
pub open spec fn below_some_degree(edges: Seq<(usize, usize)>, c: usize) -> bool {
    exists|x: usize| c < #[trigger] degree(edges, x)
}

/// The degree of `x`.
pub open spec fn degree(edges: Seq<(usize, usize)>, x: usize) -> nat {
    incident(edges, x).len()
}

proof fn lemma_degree(edges: Seq<(usize, usize)>, x: usize)
    ensures
        incident(edges, x).finite(),
        degree(edges, x) <= edges.len(),
{
    let range = vstd::set_lib::set_int_range(0, edges.len() as int);
    vstd::set_lib::lemma_int_range(0, edges.len() as int);
    assert(incident(edges, x).subset_of(range));
    vstd::set_lib::lemma_len_subset(incident(edges, x), range);
}

/// The smallest color free at an end of the next edge is below the degree there.
proof fn lemma_free_below_degree(edges: Seq<(usize, usize)>, colors: Seq<int>, x: usize, c: int)
    requires
        colors.len() < edges.len(),
        touches(edges[colors.len() as int], x),
        is_least_free(colors_at(edges, colors, x), c),
    ensures
        c < degree(edges, x),
{
    let f = |d: int| edge_at(edges, colors, x, d);
    let fs = Seq::new(c as nat, f);
    assert forall|d: int| 0 <= d < c implies colored_at(edges, colors, x, d, #[trigger] fs[d]) by {
        assert(colors_at(edges, colors, x).contains(d));
        let i = choose|i: int| colored_at(edges, colors, x, d, i);
        assert(colored_at(edges, colors, x, d, i));
    }
    let all = fs.push(colors.len() as int);
    assert forall|i: int, j: int| 0 <= i < j < all.len() implies all[i] != all[j] by {
        assert(colored_at(edges, colors, x, i, fs[i]));
        if j < fs.len() {
            assert(colored_at(edges, colors, x, j, fs[j]));
        }
    }
    assert(all.no_duplicates());
    all.unique_seq_to_set();
    lemma_degree(edges, x);
    assert(all.to_set().subset_of(incident(edges, x))) by {
        assert forall|y: int| all.to_set().contains(y) implies incident(edges, x).contains(y) by {
            let i = all.index_of(y);
            assert(all[i] == y);
            if i < fs.len() {
                assert(colored_at(edges, colors, x, i, fs[i]));
            }
        }
    }
    vstd::set_lib::lemma_len_subset(all.to_set(), incident(edges, x));
}

proof fn lemma_edge_colors(edges: Seq<(usize, usize)>, e: nat, i: int)
    requires
        e <= edges.len(),
        0 <= i < e,
    ensures
        edge_colors(edges, e).len() == e,
        0 <= edge_colors(edges, e)[i],
        exists|x: usize| edge_colors(edges, e)[i] < #[trigger] degree(edges, x),
    decreases e,
{
    let colors = edge_colors(edges, (e - 1) as nat);
    lemma_edge_colors_len(edges, (e - 1) as nat);
    let (u, v) = edges[e - 1];
    let a = least_free(colors_at(edges, colors, u));
    let b = least_free(colors_at(edges, colors, v));
    lemma_free_at(edges, colors, u);
    lemma_free_at(edges, colors, v);
    lemma_free_below_degree(edges, colors, u, a);
    lemma_free_below_degree(edges, colors, v, b);
    lemma_edge_colors_len(edges, e);
    if i < e - 1 {
        lemma_edge_colors(edges, (e - 1) as nat, i);
        let x = choose|x: usize| colors[i] < #[trigger] degree(edges, x);
        assert(edge_colors(edges, e)[i] == colors[i] || edge_colors(edges, e)[i] == a
            || edge_colors(edges, e)[i] == b);
        if edge_colors(edges, e)[i] == colors[i] {
            assert(edge_colors(edges, e)[i] < degree(edges, x));
        } else if edge_colors(edges, e)[i] == a {
            assert(edge_colors(edges, e)[i] < degree(edges, u));
        } else {
            assert(edge_colors(edges, e)[i] < degree(edges, v));
        }
    } else {
        assert(edge_colors(edges, e)[i] == a);
        assert(edge_colors(edges, e)[i] < degree(edges, u));
    }
}

pub proof fn lemma_edge_colors_len(edges: Seq<(usize, usize)>, e: nat)
    ensures
        edge_colors(edges, e).len() == e,
    decreases e,
{
    if e > 0 {
        lemma_edge_colors_len(edges, (e - 1) as nat);
    }
}

/// Every color is below the degree of some vertex: the coloring needs no more
/// colors than the largest degree.
pub proof fn law_edge_coloring(edges: Seq<(usize, usize)>, i: int)
    requires
        0 <= i < edges.len(),
    ensures
        0 <= edge_colors(edges, edges.len())[i],
        exists|x: usize| edge_colors(edges, edges.len())[i] < #[trigger] degree(edges, x),
{
    lemma_edge_colors(edges, edges.len(), i);
}

/// The alternating path, followed to its end from a path already taken.
proof fn lemma_alternating_path(
    edges: Seq<(usize, usize)>,
    colors: Seq<int>,
    v: usize,
    a: int,
    b: int,
    ws: Seq<usize>,
    ps: Seq<int>,
    c: int,
    d: int,
) -> (r: Seq<usize>)
    requires
        path_ok(edges, colors, v, a, b, ws, ps),
        proper_edge_coloring(edges, colors),
        two_sided(edges),
        a != b,
        !colors_at(edges, colors, v).contains(b),
        ps.len() <= colors.len(),
        ps.len() % 2 == 0 ==> c == a && d == b,
        ps.len() % 2 == 1 ==> c == b && d == a,
    ensures
        ({
            let path = ps + alternating_path(
                edges,
                colors,
                ws.last(),
                c,
                d,
                (colors.len() - ps.len()) as nat,
            );
            &&& path_ok(edges, colors, v, a, b, r, path)
            &&& !colors_at(edges, colors, r.last()).contains(
                if path.len() % 2 == 0 {
                    a
                } else {
                    b
                },
            )
        }),
    decreases colors.len() - ps.len(),
{
    let cur = ws.last();
    let fuel = (colors.len() - ps.len()) as nat;
    if !colors_at(edges, colors, cur).contains(c) {
        assert(ps + Seq::<int>::empty() =~= ps);
        ws
    } else {
        let p = edge_at(edges, colors, cur, c);
        let i = choose|i: int| colored_at(edges, colors, cur, c, i);
        assert(colored_at(edges, colors, cur, c, i));
        assert(colored_at(edges, colors, cur, c, p));
        lemma_path_extends(edges, colors, v, a, b, ws, ps, p);
        let next = other_end(edges[p], cur);
        lemma_path_short(edges, colors, v, a, b, ws.push(next), ps.push(p));
        let r = lemma_alternating_path(edges, colors, v, a, b, ws.push(next), ps.push(p), d, c);
        let rest = alternating_path(edges, colors, next, d, c, (fuel - 1) as nat);
        assert(ps.push(p) + rest =~= ps + (seq![p] + rest));
        r
    }
}

/// Edges that meet get different colors.
pub proof fn law_edge_coloring_is_proper(edges: Seq<(usize, usize)>, e: nat)
    requires
        two_sided(edges),
        e <= edges.len(),
    ensures
        proper_edge_coloring(edges, edge_colors(edges, e)),
    decreases e,
{
    if e > 0 {
        law_edge_coloring_is_proper(edges, (e - 1) as nat);
        let colors = edge_colors(edges, (e - 1) as nat);
        lemma_edge_colors_len(edges, (e - 1) as nat);
        let (u, v) = edges[e - 1];
        let a = least_free(colors_at(edges, colors, u));
        let b = least_free(colors_at(edges, colors, v));
        lemma_free_at(edges, colors, u);
        lemma_free_at(edges, colors, v);
        if colors_at(edges, colors, v).contains(a) {
            let path = alternating_path(edges, colors, v, a, b, colors.len());
            let ws0 = seq![v];
            assert(ws0.no_duplicates());
            assert(path_ok(edges, colors, v, a, b, ws0, Seq::empty()));
            let ws = lemma_alternating_path(edges, colors, v, a, b, ws0, Seq::empty(), a, b);
            assert(Seq::<int>::empty() + path =~= path);
            lemma_exchange(edges, colors, a, b, ws, path);
            lemma_add_edge(edges, exchanged(colors, path, a, b), a);
        } else {
            lemma_add_edge(edges, colors, a);
        }
    }
}

} // verus!
