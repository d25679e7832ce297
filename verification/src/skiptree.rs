//! SkipTree labelings: an order of the vertices of a tree in which consecutive ones
//! are close.

use vstd::prelude::*;

verus! {

/// The labels of the subtree at `v`. A vertex that is labelled first comes before its
/// children's subtrees, which are labelled last; one that is labelled last comes
/// behind its children's subtrees, which are labelled first. `depth` bounds how far
/// down the labelling goes.
pub open spec fn tree_label(
    children: Seq<Seq<usize>>,
    v: usize,
    first: bool,
    depth: nat,
) -> Seq<usize>
    decreases depth, 0nat,
{
    if depth == 0 {
        Seq::empty()
    } else {
        let below = labels_of(children, children[v as int], !first, (depth - 1) as nat);
        if first {
            seq![v] + below
        } else {
            below.push(v)
        }
    }
}

/// The labels of several subtrees, one behind the other.
pub open spec fn labels_of(
    children: Seq<Seq<usize>>,
    list: Seq<usize>,
    first: bool,
    depth: nat,
) -> Seq<usize>
    decreases depth, list.len() + 1,
{
    if list.len() == 0 {
        Seq::empty()
    } else {
        labels_of(children, list.drop_last(), first, depth) + tree_label(
            children,
            list.last(),
            first,
            depth,
        )
    }
}

/// The lists form trees: every child comes after its parent by `rank`, is a child of
/// no other vertex, and is listed once.
pub open spec fn is_tree(children: Seq<Seq<usize>>, rank: Seq<int>, bound: int) -> bool {
    &&& rank.len() == children.len()
    &&& forall|v: int| 0 <= v < children.len() ==> 0 <= #[trigger] rank[v] < bound
    &&& forall|v: int| 0 <= v < children.len() ==> (#[trigger] children[v]).no_duplicates()
    &&& forall|v: int, c: usize|
        #![trigger children[v].contains(c)]
        0 <= v < children.len() && children[v].contains(c) ==> c < children.len() && rank[c as int]
            > rank[v]
    &&& forall|u: int, v: int, c: usize|
        #![trigger children[u].contains(c), children[v].contains(c)]
        0 <= u < children.len() && 0 <= v < children.len() && children[u].contains(c)
            && children[v].contains(c) ==> u == v
}

/// Label a subtree.
pub fn label_tree(
    children: &Vec<Vec<usize>>,
    v: usize,
    first: bool,
    out: &mut Vec<usize>,
    Ghost(rank): Ghost<Seq<int>>,
    Ghost(bound): Ghost<int>,
    Ghost(depth): Ghost<nat>,
)
    requires
        is_tree(lists_of(children@), rank, bound),
        v < children@.len(),
        depth >= bound - rank[v as int],
    ensures
        final(out)@ == old(out)@ + tree_label(lists_of(children@), v, first, depth),
    decreases bound - rank[v as int],
{
    let ghost lists = lists_of(children@);
    let ghost before = out@;
    assert(0 <= rank[v as int] < bound);
    if first {
        out.push(v);
    }
    let ghost mid = out@;
    let list = &children[v];
    assert(lists[v as int] == list@);
    assert(list@.take(0) =~= Seq::empty());
    for i in 0..list.len()
        invariant
            lists == lists_of(children@),
            is_tree(lists, rank, bound),
            v < children@.len(),
            list@ == lists[v as int],
            depth >= bound - rank[v as int],
            rank[v as int] < bound,
            out@ == mid + labels_of(lists, list@.take(i as int), !first, (depth - 1) as nat),
    {
        let c = list[i];
        proof {
            assert(lists[v as int].contains(c));
            assert(list@.take(i + 1).drop_last() =~= list@.take(i as int));
            assert(0 <= rank[c as int] < bound);
        }
        let ghost now = out@;
        label_tree(
            children,
            c,
            !first,
            out,
            Ghost(rank),
            Ghost(bound),
            Ghost((depth - 1) as nat),
        );
        assert(out@ =~= mid + labels_of(lists, list@.take(i + 1), !first, (depth - 1) as nat));
    }
    assert(list@.take(list@.len() as int) =~= list@);
    if !first {
        out.push(v);
    }
    assert(out@ =~= before + tree_label(lists, v, first, depth));
}

/// The contents of adjacency lists.
pub open spec fn lists_of(lists: Seq<Vec<usize>>) -> Seq<Seq<usize>> {
    Seq::new(lists.len(), |v: int| lists[v]@)
}

// ---------------------------------------------------------------------------
// Consecutive labels are close
// ---------------------------------------------------------------------------
/// The vertices are the same, or one is a child of the other.
pub open spec fn hop(children: Seq<Seq<usize>>, a: usize, b: usize) -> bool {
    ||| a == b
    ||| (a < children.len() && children[a as int].contains(b))
    ||| (b < children.len() && children[b as int].contains(a))
}

/// At most three links lie between the vertices.
pub open spec fn near(children: Seq<Seq<usize>>, a: usize, b: usize) -> bool {
    exists|x: usize, y: usize| #[trigger]
        hop(children, a, x) && #[trigger] hop(children, x, y) && hop(children, y, b)
}

/// Where the labels of a subtree start and end.
spec fn label_start(children: Seq<Seq<usize>>, v: usize, first: bool) -> usize {
    if first || children[v as int].len() == 0 {
        v
    } else {
        children[v as int][0]
    }
}

spec fn label_end(children: Seq<Seq<usize>>, v: usize, first: bool) -> usize {
    if !first || children[v as int].len() == 0 {
        v
    } else {
        children[v as int].last()
    }
}

proof fn lemma_label_ends(
    children: Seq<Seq<usize>>,
    rank: Seq<int>,
    bound: int,
    v: usize,
    first: bool,
    depth: nat,
)
    requires
        is_tree(children, rank, bound),
        v < children.len(),
        depth >= bound - rank[v as int],
    ensures
        tree_label(children, v, first, depth).len() > 0,
        tree_label(children, v, first, depth)[0] == label_start(children, v, first),
        tree_label(children, v, first, depth).last() == label_end(children, v, first),
    decreases depth, 0nat,
{
    let list = children[v as int];
    assert(rank[v as int] < bound);
    lemma_labels_ends(children, rank, bound, v, list.len() as int, !first, (depth - 1) as nat);
    assert(list.take(list.len() as int) =~= list);
    let below = labels_of(children, list, !first, (depth - 1) as nat);
    if list.len() == 0 {
        assert(below =~= Seq::<usize>::empty());
    }
}

proof fn lemma_labels_ends(
    children: Seq<Seq<usize>>,
    rank: Seq<int>,
    bound: int,
    v: usize,
    n: int,
    first: bool,
    depth: nat,
)
    requires
        is_tree(children, rank, bound),
        v < children.len(),
        depth >= bound - rank[v as int] - 1,
        0 <= n <= children[v as int].len(),
    ensures
        ({
            let all = labels_of(children, children[v as int].take(n), first, depth);
            n > 0 ==> all.len() > 0 && all[0] == label_start(children, children[v as int][0], first)
                && all.last() == label_end(children, children[v as int][n - 1], first)
        }),
    decreases depth, n + 1,
{
    if n > 0 {
        let list = children[v as int];
        let c = list[n - 1];
        assert(list.contains(c));
        lemma_labels_ends(children, rank, bound, v, n - 1, first, depth);
        lemma_label_ends(children, rank, bound, c, first, depth);
        assert(list.take(n).drop_last() =~= list.take(n - 1));
        if n == 1 {
            assert(labels_of(children, list.take(0), first, depth) =~= Seq::<usize>::empty());
        }
    }
}

proof fn lemma_near(children: Seq<Seq<usize>>, a: usize, x: usize, y: usize, b: usize)
    requires
        hop(children, a, x),
        hop(children, x, y),
        hop(children, y, b),
    ensures
        near(children, a, b),
{
}

/// Consecutive labels of a subtree are at most three links apart.
pub proof fn law_labels_are_close(
    children: Seq<Seq<usize>>,
    rank: Seq<int>,
    bound: int,
    v: usize,
    first: bool,
    depth: nat,
)
    requires
        is_tree(children, rank, bound),
        v < children.len(),
        depth >= bound - rank[v as int],
    ensures
        forall|i: int|
            0 <= i < tree_label(children, v, first, depth).len() - 1 ==> near(
                children,
                #[trigger] tree_label(children, v, first, depth)[i],
                tree_label(children, v, first, depth)[i + 1],
            ),
    decreases depth, 0nat,
{
    let list = children[v as int];
    let n = list.len() as int;
    assert(rank[v as int] < bound);
    let below = labels_of(children, list, !first, (depth - 1) as nat);
    let all = tree_label(children, v, first, depth);
    assert(list.take(n) =~= list);
    lemma_siblings_close(children, rank, bound, v, n, !first, (depth - 1) as nat);
    lemma_labels_ends(children, rank, bound, v, n, !first, (depth - 1) as nat);
    assert forall|i: int| 0 <= i < all.len() - 1 implies near(
        children,
        #[trigger] all[i],
        all[i + 1],
    ) by {
        if first {
            assert(all[i + 1] == below[i]);
            if i > 0 {
                assert(all[i] == below[i - 1]);
                assert(near(children, below[i - 1], below[i - 1 + 1]));
            } else {
                let c = list[0];
                assert(list.contains(c));
                let start = label_start(children, c, false);
                assert(hop(children, c, start)) by {
                    if children[c as int].len() > 0 {
                        assert(children[c as int].contains(children[c as int][0]));
                    }
                }
                lemma_near(children, v, v, c, start);
            }
        } else {
            assert(all[i] == below[i]);
            if i + 1 < below.len() {
                assert(all[i + 1] == below[i + 1]);
                assert(near(children, below[i], below[i + 1]));
            } else {
                let c = list[n - 1];
                assert(list.contains(c));
                let end = label_end(children, c, true);
                assert(hop(children, end, c)) by {
                    if children[c as int].len() > 0 {
                        let k = children[c as int].len() - 1;
                        assert(children[c as int].contains(children[c as int][k]));
                    }
                }
                assert(below.last() == end);
                lemma_near(children, end, c, v, v);
            }
        }
    }
}

proof fn lemma_siblings_close(
    children: Seq<Seq<usize>>,
    rank: Seq<int>,
    bound: int,
    v: usize,
    n: int,
    first: bool,
    depth: nat,
)
    requires
        is_tree(children, rank, bound),
        v < children.len(),
        depth >= bound - rank[v as int] - 1,
        0 <= n <= children[v as int].len(),
    ensures
        ({
            let all = labels_of(children, children[v as int].take(n), first, depth);
            forall|i: int| 0 <= i < all.len() - 1 ==> near(children, #[trigger] all[i], all[i + 1])
        }),
    decreases depth, n + 1,
{
    if n > 0 {
        let list = children[v as int];
        let c = list[n - 1];
        assert(list.contains(c));
        let front = labels_of(children, list.take(n - 1), first, depth);
        let last = tree_label(children, c, first, depth);
        let all = labels_of(children, list.take(n), first, depth);
        assert(list.take(n).drop_last() =~= list.take(n - 1));
        assert(all =~= front + last);
        lemma_siblings_close(children, rank, bound, v, n - 1, first, depth);
        law_labels_are_close(children, rank, bound, c, first, depth);
        lemma_labels_ends(children, rank, bound, v, n - 1, first, depth);
        lemma_label_ends(children, rank, bound, c, first, depth);
        let m = front.len() as int;
        assert forall|i: int| 0 <= i < all.len() - 1 implies near(
            children,
            #[trigger] all[i],
            all[i + 1],
        ) by {
            if i + 1 < m {
                assert(near(children, front[i], front[i + 1]));
            } else if i >= m {
                assert(near(children, last[i - m], last[i - m + 1]));
            } else {
                assert(n > 1) by {
                    if n == 1 {
                        assert(list.take(0) =~= Seq::<usize>::empty());
                        assert(front =~= Seq::<usize>::empty());
                    }
                }
                let b = list[n - 2];
                assert(list.contains(b));
                let end = label_end(children, b, first);
                let start = label_start(children, c, first);
                assert(all[i] == end && all[i + 1] == start);
                if first {
                    assert(start == c);
                    assert(hop(children, end, b)) by {
                        if children[b as int].len() > 0 {
                            let k = children[b as int].len() - 1;
                            assert(children[b as int].contains(children[b as int][k]));
                        }
                    }
                    lemma_near(children, end, b, v, c);
                } else {
                    assert(end == b);
                    assert(hop(children, c, start)) by {
                        if children[c as int].len() > 0 {
                            assert(children[c as int].contains(children[c as int][0]));
                        }
                    }
                    lemma_near(children, b, v, c, start);
                }
            }
        }
    }
}

// ---------------------------------------------------------------------------
// No vertex is labelled twice
// ---------------------------------------------------------------------------
/// `v` is `x`, or above it.
spec fn above(parent: Seq<usize>, rank: Seq<int>, v: usize, x: usize) -> bool
    decreases rank[x as int],
{
    v == x || (0 <= rank[parent[x as int] as int] < rank[x as int] && above(
        parent,
        rank,
        v,
        parent[x as int],
    ))
}

/// Every child knows its parent.
spec fn parents(children: Seq<Seq<usize>>, parent: Seq<usize>) -> bool {
    forall|v: usize, c: usize|
        #![trigger children[v as int].contains(c)]
        v < children.len() && children[v as int].contains(c) ==> parent[c as int] == v
}

proof fn lemma_above_rank(parent: Seq<usize>, rank: Seq<int>, v: usize, x: usize)
    requires
        above(parent, rank, v, x),
    ensures
        rank[v as int] <= rank[x as int],
    decreases rank[x as int],
{
    if v != x {
        lemma_above_rank(parent, rank, v, parent[x as int]);
    }
}

proof fn lemma_above_parent(parent: Seq<usize>, rank: Seq<int>, c: usize, v: usize, x: usize)
    requires
        above(parent, rank, c, x),
        parent[c as int] == v,
        0 <= rank[v as int] < rank[c as int],
    ensures
        above(parent, rank, v, x),
    decreases rank[x as int],
{
    if x == c {
        assert(above(parent, rank, v, v));
    } else {
        lemma_above_parent(parent, rank, c, v, parent[x as int]);
    }
}

proof fn lemma_same_child(
    parent: Seq<usize>,
    rank: Seq<int>,
    a: usize,
    b: usize,
    v: usize,
    x: usize,
)
    requires
        above(parent, rank, a, x),
        above(parent, rank, b, x),
        parent[a as int] == v,
        parent[b as int] == v,
        rank[v as int] < rank[a as int],
        rank[v as int] < rank[b as int],
    ensures
        a == b,
    decreases rank[x as int],
{
    if x == a && x != b {
        lemma_above_rank(parent, rank, b, v);
    } else if x == b && x != a {
        lemma_above_rank(parent, rank, a, v);
    } else if x != a {
        lemma_same_child(parent, rank, a, b, v, parent[x as int]);
    }
}

spec fn count_of(s: Seq<usize>, x: usize) -> nat
    decreases s.len(),
{
    if s.len() == 0 {
        0
    } else {
        count_of(s.drop_last(), x) + if s.last() == x {
            1nat
        } else {
            0
        }
    }
}

proof fn lemma_count_add(a: Seq<usize>, b: Seq<usize>, x: usize)
    ensures
        count_of(a + b, x) == count_of(a, x) + count_of(b, x),
    decreases b.len(),
{
    if b.len() == 0 {
        assert(a + b =~= a);
    } else {
        assert((a + b).drop_last() =~= a + b.drop_last());
        lemma_count_add(a, b.drop_last(), x);
    }
}

proof fn lemma_count_positions(s: Seq<usize>, i: int)
    requires
        0 <= i < s.len(),
    ensures
        count_of(s, s[i]) >= 1,
        forall|j: int| i < j < s.len() && s[j] == s[i] ==> count_of(s, s[i]) >= 2,
    decreases s.len(),
{
    let front = s.drop_last();
    if i < front.len() {
        lemma_count_positions(front, i);
        assert(front[i] == s[i]);
        assert forall|j: int| i < j < s.len() && s[j] == s[i] implies count_of(s, s[i]) >= 2 by {
            if j < front.len() {
                assert(front[j] == s[j]);
            }
        }
    }
}

proof fn lemma_count_tree(
    children: Seq<Seq<usize>>,
    rank: Seq<int>,
    bound: int,
    parent: Seq<usize>,
    v: usize,
    first: bool,
    depth: nat,
    x: usize,
)
    requires
        is_tree(children, rank, bound),
        parents(children, parent),
        v < children.len(),
    ensures
        count_of(tree_label(children, v, first, depth), x) <= 1,
        count_of(tree_label(children, v, first, depth), x) > 0 ==> above(parent, rank, v, x),
    decreases depth, 0nat,
{
    if depth > 0 {
        let list = children[v as int];
        let n = list.len() as int;
        let below = labels_of(children, list, !first, (depth - 1) as nat);
        assert(list.take(n) =~= list);
        lemma_count_list(children, rank, bound, parent, v, n, !first, (depth - 1) as nat, x);
        assert(seq![v].drop_last() =~= Seq::<usize>::empty());
        assert(count_of(Seq::<usize>::empty(), x) == 0);
        lemma_count_add(seq![v], below, x);
        assert(below.push(v).drop_last() =~= below);
        if count_of(below, x) > 0 {
            let i = choose|i: int| 0 <= i < n && above(parent, rank, #[trigger] list[i], x);
            let c = list[i];
            assert(children[v as int].contains(c));
            assert(0 <= rank[v as int]);
            if x == v {
                lemma_above_rank(parent, rank, c, x);
            }
            lemma_above_parent(parent, rank, c, v, x);
        }
    }
}

proof fn lemma_count_list(
    children: Seq<Seq<usize>>,
    rank: Seq<int>,
    bound: int,
    parent: Seq<usize>,
    v: usize,
    n: int,
    first: bool,
    depth: nat,
    x: usize,
)
    requires
        is_tree(children, rank, bound),
        parents(children, parent),
        v < children.len(),
        0 <= n <= children[v as int].len(),
    ensures
        ({
            let all = labels_of(children, children[v as int].take(n), first, depth);
            &&& count_of(all, x) <= 1
            &&& count_of(all, x) > 0 ==> exists|i: int|
                0 <= i < n && above(parent, rank, #[trigger] children[v as int][i], x)
        }),
    decreases depth, n + 1,
{
    if n > 0 {
        let list = children[v as int];
        let c = list[n - 1];
        assert(list.contains(c));
        assert(list.take(n).drop_last() =~= list.take(n - 1));
        lemma_count_list(children, rank, bound, parent, v, n - 1, first, depth, x);
        lemma_count_tree(children, rank, bound, parent, c, first, depth, x);
        let front = labels_of(children, list.take(n - 1), first, depth);
        lemma_count_add(front, tree_label(children, c, first, depth), x);
        if count_of(front, x) > 0 {
            let i = choose|i: int| 0 <= i < n - 1 && above(parent, rank, #[trigger] list[i], x);
            assert(above(parent, rank, list[i], x));
            if count_of(tree_label(children, c, first, depth), x) > 0 {
                assert(list.contains(list[i]));
                lemma_same_child(parent, rank, list[i], c, v, x);
            }
        } else if count_of(tree_label(children, c, first, depth), x) > 0 {
            assert(above(parent, rank, list[n - 1], x));
        }
    } else {
        assert(children[v as int].take(0) =~= Seq::<usize>::empty());
    }
}

/// No vertex of a tree is labelled twice.
pub proof fn law_labels_are_distinct(
    children: Seq<Seq<usize>>,
    rank: Seq<int>,
    bound: int,
    v: usize,
    first: bool,
    depth: nat,
)
    requires
        is_tree(children, rank, bound),
        v < children.len(),
    ensures
        tree_label(children, v, first, depth).no_duplicates(),
{
    let parent = Seq::new(
        children.len(),
        |c: int|
            choose|p: usize| p < children.len() && #[trigger] children[p as int].contains(c as usize),
    );
    assert forall|u: usize, c: usize|
        #![trigger children[u as int].contains(c)]
        u < children.len() && children[u as int].contains(c) implies parent[c as int] == u by {
        let p = parent[c as int];
        assert(c < children.len());
        assert(p < children.len() && children[p as int].contains(c));
    }
    let all = tree_label(children, v, first, depth);
    assert forall|i: int, j: int| 0 <= i < all.len() && 0 <= j < all.len() && i != j implies all[i]
        != all[j] by {
        lemma_count_tree(children, rank, bound, parent, v, first, depth, all[i]);
        lemma_count_positions(all, i);
        lemma_count_positions(all, j);
    }
}

/// Only vertices of the tree are labelled.
pub proof fn lemma_labels_below(
    children: Seq<Seq<usize>>,
    rank: Seq<int>,
    bound: int,
    v: usize,
    first: bool,
    depth: nat,
)
    requires
        is_tree(children, rank, bound),
        v < children.len(),
    ensures
        forall|i: int|
            0 <= i < tree_label(children, v, first, depth).len() ==> (
            #[trigger] tree_label(children, v, first, depth)[i]) < children.len(),
    decreases depth, 0nat,
{
    if depth > 0 {
        let list = children[v as int];
        lemma_list_below(
            children,
            rank,
            bound,
            v,
            list.len() as int,
            !first,
            (depth - 1) as nat,
        );
        assert(list.take(list.len() as int) =~= list);
        let below = labels_of(children, list, !first, (depth - 1) as nat);
        let all = tree_label(children, v, first, depth);
        assert forall|i: int| 0 <= i < all.len() implies (#[trigger] all[i]) < children.len() by {
            if first && i > 0 {
                assert(all[i] == below[i - 1]);
            } else if !first && i < below.len() {
                assert(all[i] == below[i]);
            }
        }
    }
}

proof fn lemma_list_below(
    children: Seq<Seq<usize>>,
    rank: Seq<int>,
    bound: int,
    v: usize,
    n: int,
    first: bool,
    depth: nat,
)
    requires
        is_tree(children, rank, bound),
        v < children.len(),
        0 <= n <= children[v as int].len(),
    ensures
        forall|i: int|
            0 <= i < labels_of(children, children[v as int].take(n), first, depth).len() ==> (
            #[trigger] labels_of(children, children[v as int].take(n), first, depth)[i])
                < children.len(),
    decreases depth, n + 1,
{
    if n > 0 {
        let list = children[v as int];
        let c = list[n - 1];
        assert(list.contains(c));
        assert(list.take(n).drop_last() =~= list.take(n - 1));
        lemma_list_below(children, rank, bound, v, n - 1, first, depth);
        lemma_labels_below(children, rank, bound, c, first, depth);
        let front = labels_of(children, list.take(n - 1), first, depth);
        let last = tree_label(children, c, first, depth);
        let all = labels_of(children, list.take(n), first, depth);
        assert forall|i: int| 0 <= i < all.len() implies (#[trigger] all[i]) < children.len() by {
            if i < front.len() {
                assert(all[i] == front[i]);
            } else {
                assert(all[i] == last[i - front.len()]);
            }
        }
    } else {
        assert(children[v as int].take(0) =~= Seq::<usize>::empty());
    }
}

// ---------------------------------------------------------------------------
// Every vertex below a labelled one is labelled
// ---------------------------------------------------------------------------
proof fn lemma_list_contains(
    children: Seq<Seq<usize>>,
    list: Seq<usize>,
    first: bool,
    depth: nat,
    x: usize,
)
    ensures
        labels_of(children, list, first, depth).contains(x) <==> exists|i: int|
            0 <= i < list.len() && tree_label(
                children,
                #[trigger] list[i],
                first,
                depth,
            ).contains(x),
    decreases list.len(),
{
    let all = labels_of(children, list, first, depth);
    if list.len() == 0 {
        assert(all =~= Seq::<usize>::empty());
    } else {
        let front = list.drop_last();
        let rest = labels_of(children, front, first, depth);
        let last = tree_label(children, list.last(), first, depth);
        lemma_list_contains(children, front, first, depth, x);
        assert(all =~= rest + last);
        if all.contains(x) {
            let k = all.index_of(x);
            if k < rest.len() {
                assert(rest[k] == x);
                let i = choose|i: int|
                    0 <= i < front.len() && tree_label(
                        children,
                        #[trigger] front[i],
                        first,
                        depth,
                    ).contains(x);
                assert(list[i] == front[i]);
            } else {
                assert(last[k - rest.len()] == x);
                assert(tree_label(children, list[list.len() - 1], first, depth).contains(x));
            }
        }
        if exists|i: int|
            0 <= i < list.len() && tree_label(
                children,
                #[trigger] list[i],
                first,
                depth,
            ).contains(x) {
            let i = choose|i: int|
                0 <= i < list.len() && tree_label(
                    children,
                    #[trigger] list[i],
                    first,
                    depth,
                ).contains(x);
            if i < front.len() {
                assert(front[i] == list[i]);
                let k = rest.index_of(x);
                assert(all[k] == x);
            } else {
                let k = last.index_of(x);
                assert(all[rest.len() + k] == x);
            }
        }
    }
}

proof fn lemma_label_contains(
    children: Seq<Seq<usize>>,
    v: usize,
    first: bool,
    depth: nat,
    x: usize,
)
    requires
        depth > 0,
    ensures
        tree_label(children, v, first, depth).contains(x) <==> x == v || labels_of(
            children,
            children[v as int],
            !first,
            (depth - 1) as nat,
        ).contains(x),
{
    let below = labels_of(children, children[v as int], !first, (depth - 1) as nat);
    let all = tree_label(children, v, first, depth);
    if first {
        assert(all[0] == v);
        if below.contains(x) {
            assert(all[below.index_of(x) + 1] == x);
        }
        if all.contains(x) && all.index_of(x) > 0 {
            assert(below[all.index_of(x) - 1] == x);
        }
    } else {
        assert(all[below.len() as int] == v);
        if below.contains(x) {
            assert(all[below.index_of(x)] == x);
        }
        if all.contains(x) && all.index_of(x) < below.len() {
            assert(below[all.index_of(x)] == x);
        }
    }
}

/// The children of a labelled vertex are labelled.
pub proof fn law_labels_are_closed(
    children: Seq<Seq<usize>>,
    rank: Seq<int>,
    bound: int,
    v: usize,
    first: bool,
    depth: nat,
    x: usize,
    c: usize,
)
    requires
        is_tree(children, rank, bound),
        v < children.len(),
        x < children.len(),
        depth >= bound - rank[v as int],
        tree_label(children, v, first, depth).contains(x),
        children[x as int].contains(c),
    ensures
        tree_label(children, v, first, depth).contains(c),
    decreases depth,
{
    assert(rank[v as int] < bound);
    let list = children[v as int];
    let d = (depth - 1) as nat;
    lemma_label_contains(children, v, first, depth, x);
    lemma_label_contains(children, v, first, depth, c);
    lemma_list_contains(children, list, !first, d, x);
    lemma_list_contains(children, list, !first, d, c);
    if x == v {
        let i = list.index_of(c);
        assert(list[i] == c);
        assert(rank[c as int] < bound);
        lemma_label_contains(children, c, !first, d, c);
        assert(tree_label(children, list[i], !first, d).contains(c));
    } else {
        let i = choose|i: int|
            0 <= i < list.len() && tree_label(children, #[trigger] list[i], !first, d).contains(x);
        assert(list.contains(list[i]));
        law_labels_are_closed(children, rank, bound, list[i], !first, d, x, c);
        assert(tree_label(children, list[i], !first, d).contains(c));
    }
}

/// A vertex labels itself.
pub proof fn lemma_labels_self(children: Seq<Seq<usize>>, v: usize, first: bool, depth: nat)
    requires
        depth > 0,
    ensures
        tree_label(children, v, first, depth).contains(v),
{
    lemma_label_contains(children, v, first, depth, v);
}

// ---------------------------------------------------------------------------
// Breadth-first trees
// ---------------------------------------------------------------------------
/// The entries of `list` that are not in `seen`, each where it first stands.
pub open spec fn fresh(list: Seq<usize>, seen: Seq<usize>) -> Seq<usize>
    decreases list.len(),
{
    if list.len() == 0 {
        Seq::empty()
    } else {
        let before = fresh(list.drop_last(), seen);
        let w = list.last();
        if seen.contains(w) || before.contains(w) {
            before
        } else {
            before.push(w)
        }
    }
}

/// The vertices that a breadth-first search from vertex 0 has come upon, in that
/// order, once it has gone through the lists of the first `k` of them.
pub open spec fn found(lists: Seq<Seq<usize>>, k: nat) -> Seq<usize>
    decreases k,
{
    if k == 0 {
        seq![0usize]
    } else {
        let before = found(lists, (k - 1) as nat);
        if k - 1 < before.len() {
            before + fresh(lists[before[k - 1] as int], before)
        } else {
            before
        }
    }
}

/// The breadth-first tree from vertex 0: the children of a vertex are those that the
/// search first comes upon in its list, in that order.
pub open spec fn breadth_first_tree(lists: Seq<Seq<usize>>, children: Seq<Seq<usize>>) -> bool {
    let reached = found(lists, lists.len());
    &&& children.len() == lists.len()
    &&& forall|k: int|
        0 <= k < reached.len() ==> children[(#[trigger] reached[k]) as int] == fresh(
            lists[reached[k] as int],
            found(lists, k as nat),
        )
    &&& forall|v: usize|
        v < lists.len() && !#[trigger] reached.contains(v) ==> children[v as int].len() == 0
}

proof fn lemma_found_stays(lists: Seq<Seq<usize>>, k: nat, m: nat)
    requires
        found(lists, k).len() <= k <= m,
    ensures
        found(lists, m) == found(lists, k),
    decreases m,
{
    if k < m {
        lemma_found_stays(lists, k, (m - 1) as nat);
    }
}

/// A breadth-first tree under construction.
struct Sprout {
    visited: Vec<bool>,
    children: Vec<Vec<usize>>,
    queue: Vec<usize>,
    rank: Ghost<Seq<int>>,
}

impl Sprout {
    spec fn holds(self, lists: Seq<Seq<usize>>) -> bool {
        let n = lists.len() as int;
        &&& self.visited@.len() == n
        &&& self.children@.len() == n
        &&& is_tree(lists_of(self.children@), self.rank@, n)
        &&& self.queue@.no_duplicates()
        &&& self.queue@.len() > 0
        &&& self.queue@[0] == 0
        &&& forall|k: int|
            0 <= k < self.queue@.len() ==> (#[trigger] self.queue@[k]) < n
                && self.rank@[self.queue@[k] as int] == k
        &&& forall|v: usize|
            v < n ==> (#[trigger] self.visited@[v as int] <==> self.queue@.contains(v))
        &&& forall|v: int, c: usize|
            #![trigger self.children@[v]@.contains(c)]
            0 <= v < n && self.children@[v]@.contains(c) ==> self.queue@.contains(c)
                && self.queue@.contains(v as usize) && lists[v].contains(c)
        &&& forall|k: int|
            0 < k < self.queue@.len() ==> has_parent(self.children@, #[trigger] self.queue@[k])
    }

    /// The lists of the first `head` vertices have been gone through.
    spec fn searched(self, lists: Seq<Seq<usize>>, head: nat) -> bool {
        &&& head <= self.queue@.len()
        &&& self.queue@ == found(lists, head)
        &&& forall|k: int, w: usize|
            #![trigger lists[self.queue@[k] as int].contains(w)]
            0 <= k < head && lists[self.queue@[k] as int].contains(w) ==> self.queue@.contains(w)
        &&& forall|k: int|
            0 <= k < head ==> self.children@[(#[trigger] self.queue@[k]) as int]@ == fresh(
                lists[self.queue@[k] as int],
                found(lists, k as nat),
            )
        &&& forall|v: int|
            0 <= v < lists.len() && (#[trigger] self.children@[v])@.len() > 0
                ==> self.queue@.take(head as int).contains(v as usize)
    }
}

spec fn has_parent(children: Seq<Vec<usize>>, c: usize) -> bool {
    exists|p: int| 0 <= p < children.len() && (#[trigger] children[p])@.contains(c)
}

/// Make `w` a child of `u`.
fn sprout(s: &mut Sprout, u: usize, w: usize, Ghost(lists): Ghost<Seq<Seq<usize>>>)
    requires
        old(s).holds(lists),
        u < lists.len(),
        w < lists.len(),
        old(s).queue@.contains(u),
        !old(s).queue@.contains(w),
        lists[u as int].contains(w),
    ensures
        final(s).holds(lists),
        final(s).queue@ == old(s).queue@.push(w),
        final(s).children@[u as int]@ == old(s).children@[u as int]@.push(w),
        forall|v: int|
            0 <= v < lists.len() && v != u ==> #[trigger] final(s).children@[v] == old(
                s,
            ).children@[v],
{
    let ghost q0 = s.queue@;
    let ghost c0 = s.children@;
    let ghost rank0 = s.rank@;
    let ghost n = lists.len() as int;
    s.visited.set(w, true);
    let mut row: Vec<usize> = Vec::new();
    core::mem::swap(&mut row, &mut s.children[u]);
    let ghost row0 = row@;
    row.push(w);
    core::mem::swap(&mut row, &mut s.children[u]);
    s.queue.push(w);
    proof {
        s.rank@ = rank0.update(w as int, q0.len() as int);
        let q = s.queue@;
        let ch = s.children@;
        let rank = s.rank@;
        let ints = Seq::new(q.len(), |i: int| q[i] as int);
        assert(q[q0.len() as int] == w);
        assert forall|i: int, j: int| 0 <= i < q.len() && 0 <= j < q.len() && i != j implies q[i]
            != q[j] by {
            if i < q0.len() {
                assert(q0.contains(q0[i]));
            }
            if j < q0.len() {
                assert(q0.contains(q0[j]));
            }
        }
        assert forall|i: int| 0 <= i < ints.len() implies 0 <= #[trigger] ints[i] < n by {
            if i < q0.len() {
                assert(q[i] == q0[i]);
            }
        }
        crate::coloring::lemma_distinct_below(ints, n as nat);
        assert forall|k: int| 0 <= k < q.len() implies (#[trigger] q[k]) < n && rank[q[k] as int]
            == k by {
            if k < q0.len() {
                assert(q[k] == q0[k]);
                assert(q0.contains(q0[k]));
            }
        }
        assert forall|v: usize| #[trigger] q.contains(v) <==> q0.contains(v) || v == w by {
            if q0.contains(v) {
                assert(q[q0.index_of(v)] == v);
            }
            if q.contains(v) && q.index_of(v) < q0.len() {
                assert(q0[q.index_of(v)] == v);
            }
        }
        assert forall|v: int, c: usize|
            #![trigger ch[v]@.contains(c)]
            0 <= v < n implies (ch[v]@.contains(c) <==> c0[v]@.contains(c) || (v == u && c == w)) by {
            if v == u {
                let r = row0.push(w);
                assert(ch[v]@ == r);
                assert(r[row0.len() as int] == w);
                if row0.contains(c) {
                    assert(r[row0.index_of(c)] == c);
                }
                if r.contains(c) && r.index_of(c) < row0.len() {
                    assert(row0[r.index_of(c)] == c);
                }
            }
        }
        assert(rank0[u as int] < q0.len()) by {
            assert(rank0[q0[q0.index_of(u)] as int] == q0.index_of(u));
        }
        if c0[w as int]@.len() > 0 {
            assert(c0[w as int]@.contains(c0[w as int]@[0]));
        }
        lemma_sprouted(c0, rank0, n, ch, rank, u as int, w, q0);
        assert forall|k: int| 0 < k < q.len() implies has_parent(ch, #[trigger] q[k]) by {
            if k < q0.len() {
                assert(q[k] == q0[k]);
                let p = choose|p: int| 0 <= p < c0.len() && (#[trigger] c0[p])@.contains(q0[k]);
                assert(ch[p]@.contains(q[k]));
            } else {
                assert(ch[u as int]@.contains(w));
            }
        }
        assert forall|v: int, c: usize|
            #![trigger ch[v]@.contains(c)]
            0 <= v < n && ch[v]@.contains(c) implies q.contains(c) && q.contains(v as usize)
            && lists[v].contains(c) by {
            if c0[v]@.contains(c) {
                assert(q0.contains(c));
            }
        }
    }
}

proof fn lemma_sprouted(
    c0: Seq<Vec<usize>>,
    rank0: Seq<int>,
    n: int,
    ch: Seq<Vec<usize>>,
    rank: Seq<int>,
    u: int,
    w: usize,
    q0: Seq<usize>,
)
    requires
        is_tree(lists_of(c0), rank0, n),
        c0.len() == n,
        ch.len() == n,
        0 <= u < n,
        w < n,
        q0.len() < n,
        rank == rank0.update(w as int, q0.len() as int),
        rank0[u] < q0.len(),
        u != w,
        !q0.contains(w),
        ch[u]@ == c0[u]@.push(w),
        forall|v: int| 0 <= v < n && v != u ==> ch[v] == c0[v],
        forall|v: int, c: usize|
            #![trigger ch[v]@.contains(c)]
            0 <= v < n ==> (ch[v]@.contains(c) <==> c0[v]@.contains(c) || (v == u && c == w)),
        forall|v: int, c: usize|
            #![trigger c0[v]@.contains(c)]
            0 <= v < n && c0[v]@.contains(c) ==> q0.contains(c),
        c0[w as int]@.len() == 0,
    ensures
        is_tree(lists_of(ch), rank, n),
{
    let a = lists_of(c0);
    let b = lists_of(ch);
    assert forall|v: int| 0 <= v < n implies (#[trigger] b[v]).no_duplicates() by {
        assert(a[v].no_duplicates());
        if v == u {
            let row = c0[u]@;
            assert forall|i: int, j: int|
                0 <= i < b[v].len() && 0 <= j < b[v].len() && i != j implies b[v][i]
                != b[v][j] by {
                if i < row.len() {
                    assert(c0[u]@.contains(row[i]));
                }
                if j < row.len() {
                    assert(c0[u]@.contains(row[j]));
                }
            }
        }
    }
    assert forall|v: int, c: usize|
        #![trigger b[v].contains(c)]
        0 <= v < n && b[v].contains(c) implies c < n && rank[c as int] > rank[v] by {
        assert(ch[v]@.contains(c));
        if c0[v]@.contains(c) {
            assert(a[v].contains(c));
            assert(c != w);
            assert(v != w);
        }
    }
    assert forall|x: int, y: int, c: usize|
        #![trigger b[x].contains(c), b[y].contains(c)]
        0 <= x < n && 0 <= y < n && b[x].contains(c) && b[y].contains(c) implies x == y by {
        assert(ch[x]@.contains(c) && ch[y]@.contains(c));
        if c != w {
            assert(a[x].contains(c) && a[y].contains(c));
        } else {
            if c0[x]@.contains(w) || c0[y]@.contains(w) {
                assert(q0.contains(w));
            }
        }
    }
    assert forall|v: int| 0 <= v < n implies 0 <= #[trigger] rank[v] < n by {
        assert(0 <= rank0[v] < n);
    }
}

/// The neighbours that a vertex has not reached yet become its children.
fn sprout_all(s: &mut Sprout, lists: &Vec<Vec<usize>>, u: usize)
    requires
        old(s).holds(lists_of(lists@)),
        u < lists@.len(),
        old(s).queue@.contains(u),
        forall|i: int| 0 <= i < lists@[u as int]@.len() ==> #[trigger] lists@[u as int]@[i] < lists@.len(),
    ensures
        final(s).holds(lists_of(lists@)),
        old(s).queue@.len() <= final(s).queue@.len(),
        forall|k: int| 0 <= k < old(s).queue@.len() ==> final(s).queue@[k] == old(s).queue@[k],
        forall|w: usize| lists@[u as int]@.contains(w) ==> #[trigger] final(s).queue@.contains(w),
        final(s).queue@ == old(s).queue@ + fresh(lists@[u as int]@, old(s).queue@),
        final(s).children@[u as int]@ == old(s).children@[u as int]@ + fresh(
            lists@[u as int]@,
            old(s).queue@,
        ),
        forall|v: int|
            0 <= v < lists@.len() && v != u ==> #[trigger] final(s).children@[v] == old(
                s,
            ).children@[v],
{
    let ghost q0 = s.queue@;
    let ghost c0 = s.children@;
    let ghost list = lists@[u as int]@;
    let ghost all = lists_of(lists@);
    proof {
        assert(list.take(0) =~= Seq::empty());
        assert(q0 + fresh(list.take(0), q0) =~= q0);
        assert(c0[u as int]@ + fresh(list.take(0), q0) =~= c0[u as int]@);
    }
    let n_at: usize = lists[u].len();
    let mut i: usize = 0;
    while i < n_at
        invariant
            n_at == lists@[u as int]@.len(),
            u < lists@.len(),
            all == lists_of(lists@),
            s.holds(all),
            i <= n_at,
            q0.contains(u),
            q0.len() <= s.queue@.len(),
            forall|k: int| 0 <= k < q0.len() ==> s.queue@[k] == q0[k],
            forall|k: int| 0 <= k < n_at ==> #[trigger] lists@[u as int]@[k] < lists@.len(),
            forall|k: int| 0 <= k < i ==> s.queue@.contains(#[trigger] lists@[u as int]@[k]),
            list == lists@[u as int]@,
            s.queue@ == q0 + fresh(list.take(i as int), q0),
            s.children@[u as int]@ == c0[u as int]@ + fresh(list.take(i as int), q0),
            forall|v: int| 0 <= v < lists@.len() && v != u ==> #[trigger] s.children@[v] == c0[v],
        decreases n_at - i,
    {
        let w = lists[u][i];
        let ghost before = s.queue@;
        let ghost row = s.children@[u as int]@;
        let ghost new = fresh(list.take(i as int), q0);
        proof {
            assert(list.take(i + 1).drop_last() =~= list.take(i as int));
            assert(list.take(i + 1).last() == w);
            assert(before.contains(w) <==> q0.contains(w) || new.contains(w)) by {
                if q0.contains(w) {
                    assert(before[q0.index_of(w)] == w);
                }
                if new.contains(w) {
                    assert(before[q0.len() + new.index_of(w)] == w);
                }
                if before.contains(w) {
                    let k = before.index_of(w);
                    if k < q0.len() {
                        assert(q0[k] == w);
                    } else {
                        assert(new[k - q0.len()] == w);
                    }
                }
            }
            assert(all[u as int].contains(w)) by {
                assert(all[u as int][i as int] == w);
            }
            assert(s.queue@.contains(u)) by {
                assert(s.queue@[q0.index_of(u)] == u);
            }
        }
        if !s.visited[w] {
            sprout(s, u, w, Ghost(all));
            assert(s.queue@ =~= q0 + new.push(w));
            assert(s.children@[u as int]@ =~= c0[u as int]@ + new.push(w));
        }
        proof {
            assert forall|k: int| 0 <= k < i + 1 implies s.queue@.contains(
                #[trigger] lists@[u as int]@[k],
            ) by {
                let x = lists@[u as int]@[k];
                if k < i || before.contains(x) {
                    assert(before.contains(x));
                    assert(s.queue@[before.index_of(x)] == x);
                } else {
                    assert(s.queue@[before.len() as int] == w);
                }
            }
        }
        i = i + 1;
    }
    proof {
        assert(list.take(list.len() as int) =~= list);
        assert forall|w: usize| lists@[u as int]@.contains(w) implies #[trigger] s.queue@.contains(
            w,
        ) by {
            let k = lists@[u as int]@.index_of(w);
            assert(lists@[u as int]@[k] == w);
        }
    }
}

/// Go through the list of the next vertex.
#[verifier::spinoff_prover]
#[verifier::rlimit(60)]
fn search_next(s: &mut Sprout, lists: &Vec<Vec<usize>>, head: usize)
    requires
        old(s).holds(lists_of(lists@)),
        old(s).searched(lists_of(lists@), head as nat),
        head < old(s).queue@.len(),
        forall|v: int, i: int|
            0 <= v < lists@.len() && 0 <= i < lists@[v]@.len() ==> #[trigger] lists@[v]@[i]
                < lists@.len(),
    ensures
        final(s).holds(lists_of(lists@)),
        final(s).searched(lists_of(lists@), (head + 1) as nat),
{
    let ghost all = lists_of(lists@);
    let n: usize = lists.len();
    let u = s.queue[head];
    let ghost q0 = s.queue@;
    let ghost c0 = s.children@;
    proof {
        assert(q0[head as int] == u);
        assert(q0.contains(u));
        assert(c0[u as int]@.len() == 0) by {
            if q0.take(head as int).contains(u) {
                assert(q0[q0.take(head as int).index_of(u)] == u);
            }
        }
    }
    sprout_all(s, lists, u);
    proof {
        let new = fresh(all[u as int], q0);
        assert(lists@[u as int]@ == all[u as int]);
        assert(s.children@[u as int]@ =~= new);
        assert forall|k: int| 0 <= k < head + 1 implies s.children@[(
        #[trigger] s.queue@[k]) as int]@ == fresh(all[s.queue@[k] as int], found(all, k as nat)) by {
            assert(s.queue@[k] == q0[k]);
            if k < head {
                assert(s.children@[q0[k] as int] == c0[q0[k] as int]);
            }
        }
        assert forall|v: int|
            0 <= v < n && (#[trigger] s.children@[v])@.len() > 0 implies s.queue@.take(
            head + 1,
        ).contains(v as usize) by {
            let t = s.queue@.take(head + 1);
            if v == u {
                assert(t[head as int] == u);
            } else {
                assert(c0[v]@.len() > 0);
                let k = q0.take(head as int).index_of(v as usize);
                assert(q0.take(head as int)[k] == v as usize);
                assert(t[k] == v as usize);
            }
        }
        assert forall|k: int, w: usize|
            #![trigger all[s.queue@[k] as int].contains(w)]
            0 <= k < head + 1 && all[s.queue@[k] as int].contains(w) implies s.queue@.contains(
            w,
        ) by {
            assert(s.queue@[k] == q0[k]);
            if k < head {
                assert(all[q0[k] as int].contains(w));
                assert(s.queue@[q0.index_of(w)] == w);
            } else {
                assert(lists@[u as int]@.contains(w));
            }
        }
    }
}

/// The vertices are the same, or one lists the other.
pub open spec fn list_hop(lists: Seq<Seq<usize>>, a: usize, b: usize) -> bool {
    ||| a == b
    ||| (a < lists.len() && lists[a as int].contains(b))
    ||| (b < lists.len() && lists[b as int].contains(a))
}

/// At most three steps along the lists lie between the vertices.
pub open spec fn list_near(lists: Seq<Seq<usize>>, a: usize, b: usize) -> bool {
    exists|x: usize, y: usize| #[trigger]
        list_hop(lists, a, x) && #[trigger] list_hop(lists, x, y) && list_hop(lists, y, b)
}

/// `order` is the SkipTree labelling along the tree `children`.
pub open spec fn labels_tree(
    order: Seq<usize>,
    children: Seq<Seq<usize>>,
    rank: Seq<int>,
) -> bool {
    &&& is_tree(children, rank, children.len() as int)
    &&& order == tree_label(children, 0, true, children.len())
}

/// The SkipTree order of the vertices that can be reached from vertex 0: the
/// labelling along the breadth-first tree. It has each of them once, and consecutive
/// ones at most three steps apart.
pub open spec fn skip_order(lists: Seq<Seq<usize>>, order: Seq<usize>) -> bool {
    &&& exists|children: Seq<Seq<usize>>, rank: Seq<int>| #[trigger]
        labels_tree(order, children, rank) && breadth_first_tree(lists, children)
    &&& order.no_duplicates()
    &&& order.contains(0)
    &&& forall|i: int| 0 <= i < order.len() ==> #[trigger] order[i] < lists.len()
    &&& forall|u: usize, w: usize|
        #![trigger order.contains(u), lists[u as int].contains(w)]
        order.contains(u) && lists[u as int].contains(w) ==> order.contains(w)
    &&& forall|i: int|
        0 <= i < order.len() - 1 ==> list_near(lists, #[trigger] order[i], order[i + 1])
}

/// The SkipTree order of the vertices that can be reached from vertex 0, along a
/// breadth-first tree.
pub fn skiptree_order(lists: &Vec<Vec<usize>>) -> (order: Vec<usize>)
    requires
        lists@.len() > 0,
        forall|v: int, i: int|
            0 <= v < lists@.len() && 0 <= i < lists@[v]@.len() ==> #[trigger] lists@[v]@[i]
                < lists@.len(),
    ensures
        skip_order(lists_of(lists@), order@),
        order@[0] == 0,
{
    let n: usize = lists.len();
    let ghost all = lists_of(lists@);
    let mut visited: Vec<bool> = Vec::new();
    let mut children: Vec<Vec<usize>> = Vec::new();
    for v in 0..n
        invariant
            visited@.len() == v,
            children@.len() == v,
            forall|k: int| 0 <= k < v ==> !#[trigger] visited@[k],
            forall|k: int| 0 <= k < v ==> (#[trigger] children@[k])@ == Seq::<usize>::empty(),
    {
        visited.push(false);
        children.push(Vec::new());
    }
    visited.set(0, true);
    let mut queue: Vec<usize> = Vec::new();
    queue.push(0);
    let mut s = Sprout {
        visited,
        children,
        queue,
        rank: Ghost(Seq::new(n as nat, |v: int| 0int)),
    };
    proof {
        assert(s.queue@ =~= seq![0usize]);
        assert forall|v: int, c: usize|
            #![trigger s.children@[v]@.contains(c)]
            0 <= v < n implies !s.children@[v]@.contains(c) by {
            assert(s.children@[v]@ == Seq::<usize>::empty());
        }
        let ch = lists_of(s.children@);
        assert forall|v: int| 0 <= v < n implies #[trigger] ch[v] == Seq::<usize>::empty() by {
            assert(s.children@[v]@ == Seq::<usize>::empty());
        }
        assert forall|v: usize| v < n implies (#[trigger] s.visited@[v as int]
            <==> s.queue@.contains(v)) by {
            if v == 0 {
                assert(s.queue@[0] == 0);
            }
        }
    }
    let mut head: usize = 0;
    while head < s.queue.len()
        invariant
            n == lists@.len(),
            all == lists_of(lists@),
            forall|v: int, i: int|
                0 <= v < lists@.len() && 0 <= i < lists@[v]@.len() ==> #[trigger] lists@[v]@[i]
                    < lists@.len(),
            s.holds(all),
            s.searched(all, head as nat),
        decreases n - head,
    {
        proof {
            let q = s.queue@;
            let ints = Seq::new(q.len(), |i: int| q[i] as int);
            crate::coloring::lemma_distinct_below(ints, n as nat);
        }
        search_next(&mut s, lists, head);
        head = head + 1;
    }
    let mut order: Vec<usize> = Vec::new();
    proof {
        assert(s.rank@[s.queue@[0] as int] == 0);
    }
    label_tree(&s.children, 0, true, &mut order, Ghost(s.rank@), Ghost(n as int), Ghost(n as nat));
    proof {
        let ch = lists_of(s.children@);
        let label = tree_label(ch, 0, true, n as nat);
        assert(order@ =~= label);
        law_labels_are_distinct(ch, s.rank@, n as int, 0, true, n as nat);
        law_labels_are_close(ch, s.rank@, n as int, 0, true, n as nat);
        lemma_labels_below(ch, s.rank@, n as int, 0, true, n as nat);
        lemma_labels_self(ch, 0, true, n as nat);
        lemma_label_ends(ch, s.rank@, n as int, 0, true, n as nat);
        lemma_tree_covers(s, all, n as nat);
        let ints = Seq::new(s.queue@.len(), |i: int| s.queue@[i] as int);
        crate::coloring::lemma_distinct_below(ints, n as nat);
        lemma_found_stays(all, head as nat, n as nat);
        assert(breadth_first_tree(all, ch)) by {
            let reached = found(all, n as nat);
            assert(reached == s.queue@);
            assert forall|v: usize| v < n && !#[trigger] reached.contains(v) implies ch[
                v as int].len() == 0 by {
                if s.children@[v as int]@.len() > 0 {
                    let k = s.queue@.take(head as int).index_of(v);
                    assert(reached[k] == v);
                }
            }
        }
        assert(labels_tree(order@, ch, s.rank@));
        assert forall|u: usize, w: usize|
            #![trigger label.contains(u), all[u as int].contains(w)]
            label.contains(u) && all[u as int].contains(w) implies label.contains(w) by {
            lemma_labels_visited(s, all, n as nat, u);
            let k = s.queue@.index_of(u);
            assert(s.queue@[k] == u);
            assert(all[s.queue@[k] as int].contains(w));
            assert(s.queue@.contains(w));
        }
        assert forall|i: int| 0 <= i < label.len() - 1 implies list_near(
            all,
            #[trigger] label[i],
            label[i + 1],
        ) by {
            assert(near(ch, label[i], label[i + 1]));
            let (x, y) = choose|x: usize, y: usize| #[trigger]
                hop(ch, label[i], x) && #[trigger] hop(ch, x, y) && hop(ch, y, label[i + 1]);
            lemma_hop_listed(s, all, label[i], x);
            lemma_hop_listed(s, all, x, y);
            lemma_hop_listed(s, all, y, label[i + 1]);
        }
    }
    order
}

proof fn lemma_hop_listed(s: Sprout, lists: Seq<Seq<usize>>, a: usize, b: usize)
    requires
        s.holds(lists),
        hop(lists_of(s.children@), a, b),
    ensures
        list_hop(lists, a, b),
{
    if a != b {
        if a < lists.len() && s.children@[a as int]@.contains(b) {
            assert(lists[a as int].contains(b));
        } else {
            assert(s.children@[b as int]@.contains(a));
        }
    }
}

/// Every vertex that was reached is labelled.
proof fn lemma_tree_covers(s: Sprout, lists: Seq<Seq<usize>>, n: nat)
    requires
        s.holds(lists),
        n == lists.len(),
        n <= usize::MAX,
    ensures
        forall|w: usize| #[trigger]
            s.queue@.contains(w) ==> tree_label(lists_of(s.children@), 0, true, n).contains(w),
{
    assert forall|w: usize| #[trigger] s.queue@.contains(w) implies tree_label(
        lists_of(s.children@),
        0,
        true,
        n,
    ).contains(w) by {
        lemma_covered(s, lists, n, s.queue@.index_of(w));
    }
}

proof fn lemma_covered(s: Sprout, lists: Seq<Seq<usize>>, n: nat, k: int)
    requires
        s.holds(lists),
        n == lists.len(),
        n <= usize::MAX,
        0 <= k < s.queue@.len(),
    ensures
        tree_label(lists_of(s.children@), 0, true, n).contains(s.queue@[k]),
    decreases k,
{
    let ch = lists_of(s.children@);
    assert(s.queue@[0] < n && s.rank@[s.queue@[0] as int] == 0);
    if k == 0 {
        lemma_labels_self(ch, 0, true, n);
    } else {
        let c = s.queue@[k];
        assert(has_parent(s.children@, c));
        let p = choose|p: int| 0 <= p < s.children@.len() && (#[trigger] s.children@[p])@.contains(c);
        assert(ch[p].contains(c));
        let j = s.queue@.index_of(p as usize);
        assert(s.queue@[j] == p);
        assert(s.rank@[p] == j);
        assert(s.rank@[c as int] == k);
        lemma_covered(s, lists, n, j);
        law_labels_are_closed(ch, s.rank@, n as int, 0, true, n, p as usize, c);
    }
}

/// Only vertices that were reached are labelled.
proof fn lemma_labels_visited(s: Sprout, lists: Seq<Seq<usize>>, n: nat, x: usize)
    requires
        s.holds(lists),
        n == lists.len(),
        tree_label(lists_of(s.children@), 0, true, n).contains(x),
    ensures
        s.queue@.contains(x),
{
    assert(s.queue@.contains(0)) by {
        assert(s.queue@[0] == 0);
    }
    lemma_subtree_visited(s, lists, 0, true, n, x);
}

proof fn lemma_subtree_visited(
    s: Sprout,
    lists: Seq<Seq<usize>>,
    v: usize,
    first: bool,
    depth: nat,
    x: usize,
)
    requires
        s.holds(lists),
        v < lists.len(),
        s.queue@.contains(v),
        tree_label(lists_of(s.children@), v, first, depth).contains(x),
    ensures
        s.queue@.contains(x),
    decreases depth,
{
    let ch = lists_of(s.children@);
    if depth > 0 {
        lemma_label_contains(ch, v, first, depth, x);
        if x != v {
            let list = ch[v as int];
            let d = (depth - 1) as nat;
            lemma_list_contains(ch, list, !first, d, x);
            let i = choose|i: int|
                0 <= i < list.len() && tree_label(ch, #[trigger] list[i], !first, d).contains(x);
            assert(s.children@[v as int]@.contains(list[i]));
            lemma_subtree_visited(s, lists, list[i], !first, d, x);
        }
    }
}

// ---------------------------------------------------------------------------
// Walks between consecutive labels
// ---------------------------------------------------------------------------
/// One of the vertices is a child of the other.
pub open spec fn link(children: Seq<Seq<usize>>, a: usize, b: usize) -> bool {
    ||| (a < children.len() && children[a as int].contains(b))
    ||| (b < children.len() && children[b as int].contains(a))
}

/// A walk from `a` to `b` along links.
pub open spec fn link_walk(
    children: Seq<Seq<usize>>,
    walk: Seq<usize>,
    a: usize,
    b: usize,
) -> bool {
    &&& walk.len() > 0
    &&& walk[0] == a
    &&& walk.last() == b
    &&& forall|t: int| 0 <= t < walk.len() - 1 ==> link(children, #[trigger] walk[t], walk[t + 1])
}

/// The walk steps from one of the vertices to the other.
pub open spec fn steps_over(walk: Seq<usize>, u: usize, w: usize) -> bool {
    exists|t: int|
        0 <= t < walk.len() - 1 && ((#[trigger] walk[t] == u && walk[t + 1] == w) || (walk[t] == w
            && walk[t + 1] == u))
}

/// Three of the walks step over the same pair of vertices.
pub open spec fn thrice_over(walks: Seq<Seq<usize>>, u: usize, w: usize) -> bool {
    exists|i: int, j: int, k: int|
        #![trigger walks[i], walks[j], walks[k]]
        0 <= i < j < k < walks.len() && steps_over(walks[i], u, w) && steps_over(walks[j], u, w)
            && steps_over(walks[k], u, w)
}

/// Walks of at most three links from each label to the next, no link on more than two
/// of them.
pub open spec fn label_walks(
    children: Seq<Seq<usize>>,
    order: Seq<usize>,
    walks: Seq<Seq<usize>>,
) -> bool {
    &&& walks.len() + 1 == order.len()
    &&& forall|i: int|
        0 <= i < walks.len() ==> (#[trigger] walks[i]).len() <= 4 && link_walk(
            children,
            walks[i],
            order[i],
            order[i + 1],
        )
    &&& forall|u: usize, w: usize| !#[trigger] thrice_over(walks, u, w)
}

proof fn lemma_above_transitive(parent: Seq<usize>, rank: Seq<int>, c: usize, v: usize, x: usize)
    requires
        above(parent, rank, c, v),
        above(parent, rank, v, x),
    ensures
        above(parent, rank, c, x),
    decreases rank[x as int],
{
    if x != v {
        lemma_above_transitive(parent, rank, c, v, parent[x as int]);
    }
}

proof fn lemma_above_either(parent: Seq<usize>, rank: Seq<int>, a: usize, b: usize, x: usize)
    requires
        above(parent, rank, a, x),
        above(parent, rank, b, x),
    ensures
        above(parent, rank, a, b) || above(parent, rank, b, a),
    decreases rank[x as int],
{
    if x != a && x != b {
        lemma_above_either(parent, rank, a, b, parent[x as int]);
    }
}

/// The entries below `c` stand together.
spec fn one_run(parent: Seq<usize>, rank: Seq<int>, c: usize, s: Seq<usize>) -> bool {
    forall|i: int, j: int, k: int|
        0 <= i < j < k < s.len() && above(parent, rank, c, #[trigger] s[i]) && above(
            parent,
            rank,
            c,
            #[trigger] s[k],
        ) ==> above(parent, rank, c, #[trigger] s[j])
}

proof fn lemma_run_tree(
    children: Seq<Seq<usize>>,
    rank: Seq<int>,
    bound: int,
    parent: Seq<usize>,
    c: usize,
    v: usize,
    first: bool,
    depth: nat,
)
    requires
        is_tree(children, rank, bound),
        parents(children, parent),
        v < children.len(),
        c < children.len(),
    ensures
        one_run(parent, rank, c, tree_label(children, v, first, depth)),
    decreases depth, 0nat,
{
    if depth > 0 {
        let all = tree_label(children, v, first, depth);
        if above(parent, rank, c, v) {
            assert forall|j: int| 0 <= j < all.len() implies above(
                parent,
                rank,
                c,
                #[trigger] all[j],
            ) by {
                lemma_count_tree(children, rank, bound, parent, v, first, depth, all[j]);
                lemma_count_positions(all, j);
                lemma_above_transitive(parent, rank, c, v, all[j]);
            }
        } else {
            let list = children[v as int];
            let n = list.len() as int;
            let d = (depth - 1) as nat;
            let below = labels_of(children, list, !first, d);
            assert(list.take(n) =~= list);
            lemma_run_list(children, rank, bound, parent, c, v, n, !first, d);
            assert forall|i: int, j: int, k: int|
                0 <= i < j < k < all.len() && above(parent, rank, c, #[trigger] all[i]) && above(
                    parent,
                    rank,
                    c,
                    #[trigger] all[k],
                ) implies above(parent, rank, c, #[trigger] all[j]) by {
                if first {
                    assert(i > 0);
                    assert(all[i] == below[i - 1] && all[j] == below[j - 1] && all[k] == below[k
                        - 1]);
                } else {
                    assert(k < below.len());
                    assert(all[i] == below[i] && all[j] == below[j] && all[k] == below[k]);
                }
            }
        }
    }
}

/// An entry among the labels of the children of `v` that is below `c`, where `v` is
/// not: the child that it is listed under is above `c`.
proof fn lemma_child_above(
    children: Seq<Seq<usize>>,
    rank: Seq<int>,
    bound: int,
    parent: Seq<usize>,
    c: usize,
    v: usize,
    b: usize,
    x: usize,
)
    requires
        is_tree(children, rank, bound),
        parents(children, parent),
        v < children.len(),
        children[v as int].contains(b),
        !above(parent, rank, c, v),
        above(parent, rank, c, x),
        above(parent, rank, b, x),
    ensures
        above(parent, rank, b, c),
{
    lemma_above_either(parent, rank, b, c, x);
    assert(parent[b as int] == v);
}

proof fn lemma_run_list(
    children: Seq<Seq<usize>>,
    rank: Seq<int>,
    bound: int,
    parent: Seq<usize>,
    c: usize,
    v: usize,
    n: int,
    first: bool,
    depth: nat,
)
    requires
        is_tree(children, rank, bound),
        parents(children, parent),
        v < children.len(),
        c < children.len(),
        0 <= n <= children[v as int].len(),
        !above(parent, rank, c, v),
    ensures
        one_run(parent, rank, c, labels_of(children, children[v as int].take(n), first, depth)),
    decreases depth, n + 1,
{
    if n > 0 {
        let list = children[v as int];
        let b = list[n - 1];
        assert(list.contains(b));
        assert(list.take(n).drop_last() =~= list.take(n - 1));
        lemma_run_list(children, rank, bound, parent, c, v, n - 1, first, depth);
        lemma_run_tree(children, rank, bound, parent, c, b, first, depth);
        let front = labels_of(children, list.take(n - 1), first, depth);
        let back = tree_label(children, b, first, depth);
        let all = labels_of(children, list.take(n), first, depth);
        assert(all == front + back);
        assert forall|i: int, k: int|
            0 <= i < front.len() && 0 <= k < back.len() && above(parent, rank, c, #[trigger] front[i])
            implies !above(parent, rank, c, #[trigger] back[k]) by {
            if above(parent, rank, c, back[k]) {
                lemma_count_positions(front, i);
                lemma_count_list(children, rank, bound, parent, v, n - 1, first, depth, front[i]);
                let a = choose|a: int|
                    0 <= a < n - 1 && above(parent, rank, #[trigger] list[a], front[i]);
                assert(list.contains(list[a]));
                lemma_count_positions(back, k);
                lemma_count_tree(children, rank, bound, parent, b, first, depth, back[k]);
                lemma_child_above(children, rank, bound, parent, c, v, list[a], front[i]);
                lemma_child_above(children, rank, bound, parent, c, v, b, back[k]);
                lemma_same_child(parent, rank, list[a], b, v, c);
            }
        }
        assert forall|i: int, j: int, k: int|
            0 <= i < j < k < all.len() && above(parent, rank, c, #[trigger] all[i]) && above(
                parent,
                rank,
                c,
                #[trigger] all[k],
            ) implies above(parent, rank, c, #[trigger] all[j]) by {
            let f = front.len() as int;
            if k < f {
                assert(all[i] == front[i] && all[j] == front[j] && all[k] == front[k]);
            } else if i >= f {
                assert(all[i] == back[i - f] && all[j] == back[j - f] && all[k] == back[k - f]);
            } else {
                assert(all[i] == front[i] && all[k] == back[k - f]);
            }
        }
    } else {
        assert(children[v as int].take(0) =~= Seq::<usize>::empty());
    }
}

/// The lower of two linked vertices.
spec fn lower(children: Seq<Seq<usize>>, a: usize, b: usize) -> usize {
    if a < children.len() && children[a as int].contains(b) {
        b
    } else {
        a
    }
}

/// The upper of two linked vertices.
spec fn upper(children: Seq<Seq<usize>>, a: usize, b: usize) -> usize {
    if a < children.len() && children[a as int].contains(b) {
        a
    } else {
        b
    }
}

/// A step leads into or out of the part below `c` just where it is the link above `c`.
proof fn lemma_step_crosses(
    children: Seq<Seq<usize>>,
    rank: Seq<int>,
    bound: int,
    parent: Seq<usize>,
    c: usize,
    a: usize,
    b: usize,
)
    requires
        is_tree(children, rank, bound),
        parents(children, parent),
        link(children, a, b),
    ensures
        lower(children, a, b) < children.len(),
        upper(children, a, b) < children.len(),
        a != b,
        parent[lower(children, a, b) as int] == upper(children, a, b),
        (above(parent, rank, c, a) != above(parent, rank, c, b)) <==> lower(children, a, b) == c,
{
    let l = lower(children, a, b);
    let u = upper(children, a, b);
    assert(children[u as int].contains(l));
    assert(0 <= rank[u as int] < rank[l as int]);
    assert(parent[l as int] == u);
    if l == c {
        if above(parent, rank, c, u) {
            lemma_above_rank(parent, rank, c, u);
        }
        assert(above(parent, rank, c, l));
    } else {
        assert(above(parent, rank, c, l) == above(parent, rank, c, u));
    }
}

/// A walk whose every link parts its ends from one another.
spec fn direct_walk(
    children: Seq<Seq<usize>>,
    rank: Seq<int>,
    parent: Seq<usize>,
    walk: Seq<usize>,
    a: usize,
    b: usize,
) -> bool {
    &&& walk.len() <= 4
    &&& link_walk(children, walk, a, b)
    &&& forall|t: int|
        0 <= t < walk.len() - 1 ==> ({
            let c = lower(children, #[trigger] walk[t], walk[t + 1]);
            above(parent, rank, c, a) != above(parent, rank, c, b)
        })
}

/// Two linked pairs with the same lower vertex are the same pair.
proof fn lemma_same_link(
    children: Seq<Seq<usize>>,
    rank: Seq<int>,
    bound: int,
    parent: Seq<usize>,
    a: usize,
    b: usize,
    x: usize,
    y: usize,
)
    requires
        is_tree(children, rank, bound),
        parents(children, parent),
        link(children, a, b),
        link(children, x, y),
        lower(children, a, b) == lower(children, x, y),
    ensures
        (a == x && b == y) || (a == y && b == x),
{
    lemma_step_crosses(children, rank, bound, parent, a, a, b);
    lemma_step_crosses(children, rank, bound, parent, a, x, y);
}

proof fn lemma_direct_two(
    children: Seq<Seq<usize>>,
    rank: Seq<int>,
    bound: int,
    parent: Seq<usize>,
    a: usize,
    m: usize,
    b: usize,
)
    requires
        is_tree(children, rank, bound),
        parents(children, parent),
        link(children, a, m),
        link(children, m, b),
        a != b,
    ensures
        direct_walk(children, rank, parent, seq![a, m, b], a, b),
{
    let walk = seq![a, m, b];
    assert forall|t: int| 0 <= t < walk.len() - 1 implies link(
        children,
        #[trigger] walk[t],
        walk[t + 1],
    ) && ({
        let c = lower(children, walk[t], walk[t + 1]);
        above(parent, rank, c, a) != above(parent, rank, c, b)
    }) by {
        let c = lower(children, walk[t], walk[t + 1]);
        lemma_step_crosses(children, rank, bound, parent, c, a, m);
        lemma_step_crosses(children, rank, bound, parent, c, m, b);
        if lower(children, a, m) == lower(children, m, b) {
            lemma_same_link(children, rank, bound, parent, a, m, m, b);
        }
        assert(t == 0 || t == 1);
    }
}

proof fn lemma_direct_three(
    children: Seq<Seq<usize>>,
    rank: Seq<int>,
    bound: int,
    parent: Seq<usize>,
    a: usize,
    x: usize,
    y: usize,
    b: usize,
)
    requires
        is_tree(children, rank, bound),
        parents(children, parent),
        link(children, a, x),
        link(children, x, y),
        link(children, y, b),
        a != y,
        x != b,
    ensures
        direct_walk(children, rank, parent, seq![a, x, y, b], a, b),
{
    let walk = seq![a, x, y, b];
    assert forall|t: int| 0 <= t < walk.len() - 1 implies link(
        children,
        #[trigger] walk[t],
        walk[t + 1],
    ) && ({
        let c = lower(children, walk[t], walk[t + 1]);
        above(parent, rank, c, a) != above(parent, rank, c, b)
    }) by {
        let c = lower(children, walk[t], walk[t + 1]);
        lemma_step_crosses(children, rank, bound, parent, c, a, x);
        lemma_step_crosses(children, rank, bound, parent, c, x, y);
        lemma_step_crosses(children, rank, bound, parent, c, y, b);
        if lower(children, a, x) == lower(children, x, y) {
            lemma_same_link(children, rank, bound, parent, a, x, x, y);
        }
        if lower(children, x, y) == lower(children, y, b) {
            lemma_same_link(children, rank, bound, parent, x, y, y, b);
        }
        if lower(children, a, x) == lower(children, y, b) {
            lemma_same_link(children, rank, bound, parent, a, x, y, b);
        }
        assert(t == 0 || t == 1 || t == 2);
    }
}

/// Vertices at most three links apart have a direct walk.
proof fn lemma_direct_walk(
    children: Seq<Seq<usize>>,
    rank: Seq<int>,
    bound: int,
    parent: Seq<usize>,
    a: usize,
    b: usize,
)
    requires
        is_tree(children, rank, bound),
        parents(children, parent),
        near(children, a, b),
    ensures
        exists|walk: Seq<usize>| #[trigger] direct_walk(children, rank, parent, walk, a, b),
{
    if a == b {
        assert(direct_walk(children, rank, parent, seq![a], a, b));
    } else if link(children, a, b) {
        let walk = seq![a, b];
        let c = lower(children, a, b);
        lemma_step_crosses(children, rank, bound, parent, c, a, b);
        assert(direct_walk(children, rank, parent, walk, a, b)) by {
            assert forall|t: int| 0 <= t < walk.len() - 1 implies #[trigger] walk[t] == a && walk[t
                + 1] == b by {}
        }
    } else {
        let (x, y) = choose|x: usize, y: usize| #[trigger]
            hop(children, a, x) && #[trigger] hop(children, x, y) && hop(children, y, b);
        if x == a {
            lemma_direct_two(children, rank, bound, parent, a, y, b);
        } else if y == x || y == b {
            lemma_direct_two(children, rank, bound, parent, a, x, b);
        } else {
            lemma_direct_three(children, rank, bound, parent, a, x, y, b);
        }
    }
}

/// From each label of a tree to the next leads a walk of at most three links, such
/// that no link lies on more than two of the walks.
pub proof fn law_label_walks(order: Seq<usize>, children: Seq<Seq<usize>>, rank: Seq<int>)
    requires
        labels_tree(order, children, rank),
        children.len() > 0,
    ensures
        exists|walks: Seq<Seq<usize>>| #[trigger] label_walks(children, order, walks),
{
    let bound = children.len() as int;
    let parent = Seq::new(
        children.len(),
        |c: int|
            choose|p: usize| p < children.len() && #[trigger] children[p as int].contains(c as usize),
    );
    assert forall|u: usize, c: usize|
        #![trigger children[u as int].contains(c)]
        u < children.len() && children[u as int].contains(c) implies parent[c as int] == u by {
        let p = parent[c as int];
        assert(c < children.len());
        assert(p < children.len() && children[p as int].contains(c));
    }
    assert(0 <= rank[0] < bound);
    lemma_label_ends(children, rank, bound, 0, true, children.len());
    law_labels_are_close(children, rank, bound, 0, true, children.len());
    let walks = Seq::new(
        (order.len() - 1) as nat,
        |i: int|
            choose|walk: Seq<usize>| #[trigger]
                direct_walk(children, rank, parent, walk, order[i], order[i + 1]),
    );
    assert forall|i: int| 0 <= i < walks.len() implies direct_walk(
        children,
        rank,
        parent,
        #[trigger] walks[i],
        order[i],
        order[i + 1],
    ) by {
        assert(near(children, order[i], order[i + 1]));
        lemma_direct_walk(children, rank, bound, parent, order[i], order[i + 1]);
    }
    assert forall|u: usize, w: usize| !#[trigger] thrice_over(walks, u, w) by {
        if thrice_over(walks, u, w) {
            let (i, j, k) = choose|i: int, j: int, k: int|
                #![trigger walks[i], walks[j], walks[k]]
                0 <= i < j < k < walks.len() && steps_over(walks[i], u, w) && steps_over(
                    walks[j],
                    u,
                    w,
                ) && steps_over(walks[k], u, w);
            let c = lower(children, u, w);
            lemma_parted(children, rank, bound, parent, walks[i], order[i], order[i + 1], u, w);
            lemma_parted(children, rank, bound, parent, walks[j], order[j], order[j + 1], u, w);
            lemma_parted(children, rank, bound, parent, walks[k], order[k], order[k + 1], u, w);
            lemma_run_tree(children, rank, bound, parent, c, 0, true, children.len());
            lemma_two_crossings(parent, rank, c, order, i, j, k);
        }
    }
    assert(label_walks(children, order, walks));
}

/// A direct walk over a link goes between the parts that the link joins.
proof fn lemma_parted(
    children: Seq<Seq<usize>>,
    rank: Seq<int>,
    bound: int,
    parent: Seq<usize>,
    walk: Seq<usize>,
    a: usize,
    b: usize,
    u: usize,
    w: usize,
)
    requires
        is_tree(children, rank, bound),
        parents(children, parent),
        direct_walk(children, rank, parent, walk, a, b),
        steps_over(walk, u, w),
    ensures
        lower(children, u, w) < children.len(),
        above(parent, rank, lower(children, u, w), a) != above(
            parent,
            rank,
            lower(children, u, w),
            b,
        ),
{
    let t = choose|t: int|
        0 <= t < walk.len() - 1 && ((#[trigger] walk[t] == u && walk[t + 1] == w) || (walk[t] == w
            && walk[t + 1] == u));
    assert(link(children, walk[t], walk[t + 1]));
    let c = lower(children, walk[t], walk[t + 1]);
    lemma_step_crosses(children, rank, bound, parent, c, u, w);
    lemma_step_crosses(children, rank, bound, parent, c, w, u);
}

/// Entries that stand together are entered once and left once.
proof fn lemma_two_crossings(
    parent: Seq<usize>,
    rank: Seq<int>,
    c: usize,
    s: Seq<usize>,
    i: int,
    j: int,
    k: int,
)
    requires
        one_run(parent, rank, c, s),
        0 <= i < j < k < s.len() - 1,
        above(parent, rank, c, s[i]) != above(parent, rank, c, s[i + 1]),
        above(parent, rank, c, s[j]) != above(parent, rank, c, s[j + 1]),
    ensures
        above(parent, rank, c, s[k]) == above(parent, rank, c, s[k + 1]),
{
    if above(parent, rank, c, s[i]) {
        if above(parent, rank, c, s[j]) {
            assert(i + 1 == j || above(parent, rank, c, s[i + 1]));
        } else {
            assert(above(parent, rank, c, s[j + 1]));
        }
    } else if above(parent, rank, c, s[j]) {
        if above(parent, rank, c, s[k]) {
            assert(j + 1 == k || above(parent, rank, c, s[j + 1]));
        } else if above(parent, rank, c, s[k + 1]) {
            assert(above(parent, rank, c, s[j + 1]));
        }
    } else {
        assert(i + 1 < j);
        assert(above(parent, rank, c, s[j + 1]));
    }
}

} // verus!
