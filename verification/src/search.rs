//! Breadth-first search over adjacency lists.

use vstd::prelude::*;

verus! {

/// A step to a vertex, along something that carries a label.
pub type Step = (usize, usize);

/// The vertices along a route, its start first.
pub open spec fn route_vertices(a: usize, steps: Seq<Step>) -> Seq<usize> {
    Seq::new(
        steps.len() + 1,
        |i: int|
            if i == 0 {
                a
            } else {
                steps[i - 1].0
            },
    )
}

/// The last vertex of a route.
pub open spec fn route_end(a: usize, steps: Seq<Step>) -> usize {
    if steps.len() == 0 {
        a
    } else {
        steps.last().0
    }
}

/// Every step of the route is in the list of the vertex it starts from.
pub open spec fn is_route(lists: Seq<Vec<Step>>, a: usize, steps: Seq<Step>) -> bool {
    &&& a < lists.len()
    &&& forall|i: int|
        0 <= i < steps.len() ==> {
            &&& (#[trigger] steps[i]).0 < lists.len()
            &&& lists[route_vertices(a, steps)[i] as int]@.contains(steps[i])
        }
}

/// The lists lead to vertices.
pub open spec fn lists_ok(lists: Seq<Vec<Step>>) -> bool {
    forall|v: int, k: int|
        0 <= v < lists.len() && 0 <= k < lists[v]@.len() ==> (#[trigger] lists[v]@[k]).0
            < lists.len()
}

/// What the search knows of a vertex it has reached: how far it is, and the step
/// that led there.
spec fn reached_ok(
    lists: Seq<Vec<Step>>,
    a: usize,
    depth: Seq<Option<nat>>,
    parent: Seq<usize>,
    label: Seq<usize>,
) -> bool {
    &&& depth.len() == lists.len()
    &&& parent.len() == lists.len()
    &&& label.len() == lists.len()
    &&& a < lists.len()
    &&& depth[a as int] == Some(0nat)
    &&& forall|v: int|
        #![trigger depth[v]]
        0 <= v < lists.len() && depth[v] is Some && v != a ==> {
            &&& parent[v] < lists.len()
            &&& depth[parent[v] as int] is Some
            &&& depth[v]->0 == depth[parent[v] as int]->0 + 1
            &&& lists[parent[v] as int]@.contains((v as usize, label[v]))
        }
}

/// The queue holds the reached vertices, each once, in order of their distance.
spec fn queue_ok(depth: Seq<Option<nat>>, queue: Seq<usize>, head: int) -> bool {
    &&& 0 <= head <= queue.len()
    &&& queue.no_duplicates()
    &&& forall|i: int|
        0 <= i < queue.len() ==> (#[trigger] queue[i]) < depth.len() && depth[queue[i] as int] is Some
    &&& forall|v: int|
        #![trigger depth[v]]
        0 <= v < depth.len() && depth[v] is Some ==> queue.contains(v as usize)
    &&& forall|i: int, j: int|
        0 <= i <= j < queue.len() ==> depth[(#[trigger] queue[i]) as int]->0 <= depth[(
        #[trigger] queue[j]) as int]->0
}

/// All neighbours of the vertex are reached, at most one step further.
spec fn expanded(lists: Seq<Vec<Step>>, depth: Seq<Option<nat>>, u: int, upto: int) -> bool {
    forall|k: int|
        0 <= k < upto ==> depth[(#[trigger] lists[u]@[k]).0 as int] is Some
            && depth[lists[u]@[k].0 as int]->0 <= depth[u]->0 + 1
}

/// A route that only uses expanded vertices ends at a vertex no further away than
/// the route is long.
proof fn lemma_route_depth(
    lists: Seq<Vec<Step>>,
    a: usize,
    depth: Seq<Option<nat>>,
    bound: int,
    steps: Seq<Step>,
)
    requires
        lists_ok(lists),
        is_route(lists, a, steps),
        depth.len() == lists.len(),
        depth[a as int] == Some(0nat),
        forall|u: int|
            #![trigger depth[u]]
            0 <= u < lists.len() && depth[u] is Some && depth[u]->0 < bound ==> expanded(
                lists,
                depth,
                u,
                lists[u]@.len() as int,
            ),
        steps.len() <= bound,
    ensures
        route_end(a, steps) < lists.len(),
        depth[route_end(a, steps) as int] is Some,
        depth[route_end(a, steps) as int]->0 <= steps.len(),
    decreases steps.len(),
{
    if steps.len() > 0 {
        let front = steps.drop_last();
        assert(is_route(lists, a, front)) by {
            assert forall|i: int| 0 <= i < front.len() implies (#[trigger] front[i]).0 < lists.len()
                && lists[route_vertices(a, front)[i] as int]@.contains(front[i]) by {
                assert(steps[i] == front[i]);
                assert(route_vertices(a, front)[i] == route_vertices(a, steps)[i]);
            }
        }
        lemma_route_depth(lists, a, depth, bound, front);
        let u = route_end(a, front);
        let last = steps[steps.len() - 1];
        assert(route_vertices(a, steps)[steps.len() - 1] == u);
        assert(lists[u as int]@.contains(last));
        assert(depth[u as int] is Some);
        let k = lists[u as int]@.index_of(last);
        assert(lists[u as int]@[k] == last);
    }
}

/// The steps that led to `v`.
fn trace(
    a: usize,
    v: usize,
    parent: &Vec<usize>,
    label: &Vec<usize>,
    Ghost(lists): Ghost<Seq<Vec<Step>>>,
    Ghost(depth): Ghost<Seq<Option<nat>>>,
) -> (r: Vec<Step>)
    requires
        reached_ok(lists, a, depth, parent@, label@),
        v < lists.len(),
        depth[v as int] is Some,
        forall|u: int|
            #![trigger depth[u]]
            0 <= u < lists.len() && depth[u] is Some && u != a ==> depth[u]->0 > 0,
    ensures
        is_route(lists, a, r@),
        route_end(a, r@) == v,
        route_vertices(a, r@).no_duplicates(),
        r@.len() == depth[v as int]->0,
{
    let mut back: Vec<Step> = Vec::new();
    let mut cur: usize = v;
    while cur != a
        invariant
            reached_ok(lists, a, depth, parent@, label@),
            forall|u: int|
                #![trigger depth[u]]
                0 <= u < lists.len() && depth[u] is Some && u != a ==> depth[u]->0 > 0,
            v < lists.len(),
            depth[v as int] is Some,
            cur < lists.len(),
            depth[cur as int] is Some,
            depth[cur as int]->0 + back@.len() == depth[v as int]->0,
            back@.len() == 0 ==> cur == v,
            back@.len() > 0 ==> back@[0].0 == v && parent@[back@.last().0 as int] == cur,
            forall|i: int|
                0 <= i < back@.len() ==> {
                    &&& (#[trigger] back@[i]).0 < lists.len()
                    &&& depth[back@[i].0 as int] is Some
                    &&& depth[back@[i].0 as int]->0 + i == depth[v as int]->0
                    &&& parent@[back@[i].0 as int] < lists.len()
                    &&& lists[parent@[back@[i].0 as int] as int]@.contains(back@[i])
                    &&& i + 1 < back@.len() ==> parent@[back@[i].0 as int] == back@[i + 1].0
                },
        decreases depth[cur as int]->0,
    {
        assert(depth[cur as int]->0 > 0);
        let ghost before = back@;
        back.push((cur, label[cur]));
        let next: usize = parent[cur];
        proof {
            assert forall|i: int| 0 <= i < back@.len() implies {
                &&& (#[trigger] back@[i]).0 < lists.len()
                &&& depth[back@[i].0 as int] is Some
                &&& depth[back@[i].0 as int]->0 + i == depth[v as int]->0
                &&& parent@[back@[i].0 as int] < lists.len()
                &&& lists[parent@[back@[i].0 as int] as int]@.contains(back@[i])
                &&& i + 1 < back@.len() ==> parent@[back@[i].0 as int] == back@[i + 1].0
            } by {
                if i < before.len() {
                    assert(back@[i] == before[i]);
                    if i + 1 == before.len() {
                        assert(before.last() == before[i]);
                    } else {
                        assert(back@[i + 1] == before[i + 1]);
                    }
                }
            }
        }
        cur = next;
    }
    let n: usize = back.len();
    let mut r: Vec<Step> = Vec::new();
    for i in 0..n
        invariant
            n == back@.len(),
            r@.len() == i,
            forall|k: int| 0 <= k < i ==> #[trigger] r@[k] == back@[n - 1 - k],
    {
        r.push(back[n - 1 - i]);
    }
    proof {
        assert(depth[a as int] == Some(0nat));
        let vs = route_vertices(a, r@);
        assert forall|i: int| 0 <= i < r@.len() implies (#[trigger] r@[i]).0 < lists.len()
            && lists[vs[i] as int]@.contains(r@[i]) by {
            assert(r@[i] == back@[n - 1 - i]);
            if i == 0 {
                assert(back@.last() == back@[n - 1]);
            } else {
                assert(r@[i - 1] == back@[n - i]);
            }
        }
        assert forall|i: int| 0 <= i < vs.len() implies depth[(#[trigger] vs[i]) as int] == Some(
            i as nat,
        ) by {
            if i > 0 {
                assert(r@[i - 1] == back@[n - i]);
            }
        }
        assert forall|i: int, j: int| 0 <= i < j < vs.len() implies vs[i] != vs[j] by {
            assert(depth[vs[i] as int] == Some(i as nat));
            assert(depth[vs[j] as int] == Some(j as nat));
        }
        if n > 0 {
            assert(r@[n - 1] == back@[0]);
        }
    }
    r
}

/// No route with fewer steps leads to where this one ends.
pub open spec fn is_shortest(lists: Seq<Vec<Step>>, a: usize, steps: Seq<Step>) -> bool {
    forall|other: Seq<Step>| #[trigger]
        is_route(lists, a, other) && route_end(a, other) == route_end(a, steps) ==> steps.len()
            <= other.len()
}

/// The state of the search.
struct Search {
    visited: Vec<bool>,
    parent: Vec<usize>,
    label: Vec<usize>,
    queue: Vec<usize>,
    depth: Ghost<Seq<Option<nat>>>,
}

impl Search {
    spec fn holds(self, lists: Seq<Vec<Step>>, a: usize, head: int) -> bool {
        &&& lists_ok(lists)
        &&& reached_ok(lists, a, self.depth@, self.parent@, self.label@)
        &&& queue_ok(self.depth@, self.queue@, head)
        &&& self.visited@.len() == lists.len()
        &&& forall|v: int|
            0 <= v < lists.len() ==> #[trigger] self.visited@[v] == (self.depth@[v] is Some)
        &&& forall|i: int|
            0 <= i < head ==> expanded(
                lists,
                self.depth@,
                (#[trigger] self.queue@[i]) as int,
                lists[self.queue@[i] as int]@.len() as int,
            )
        &&& head < self.queue@.len() ==> forall|i: int|
            0 <= i < self.queue@.len() ==> self.depth@[(#[trigger] self.queue@[i]) as int]->0
                <= self.depth@[self.queue@[head] as int]->0 + 1
        &&& forall|u: int|
            #![trigger self.depth@[u]]
            0 <= u < lists.len() && self.depth@[u] is Some && u != a ==> self.depth@[u]->0 > 0
    }
}

/// Reach one more vertex from `u`.
proof fn lemma_reach(
    s: Search,
    lists: Seq<Vec<Step>>,
    a: usize,
    head: int,
    u: usize,
    w: usize,
    l: usize,
    depth2: Seq<Option<nat>>,
    parent2: Seq<usize>,
    label2: Seq<usize>,
    queue2: Seq<usize>,
)
    requires
        s.holds(lists, a, head),
        head < s.queue@.len(),
        s.queue@[head] == u,
        w < lists.len(),
        s.depth@[w as int] is None,
        lists[u as int]@.contains((w, l)),
        depth2 == s.depth@.update(w as int, Some((s.depth@[u as int]->0 + 1) as nat)),
        parent2 == s.parent@.update(w as int, u),
        label2 == s.label@.update(w as int, l),
        queue2 == s.queue@.push(w),
    ensures
        reached_ok(lists, a, depth2, parent2, label2),
        queue_ok(depth2, queue2, head),
        forall|i: int|
            0 <= i < head ==> expanded(
                lists,
                depth2,
                (#[trigger] queue2[i]) as int,
                lists[queue2[i] as int]@.len() as int,
            ),
        forall|i: int|
            0 <= i < queue2.len() ==> depth2[(#[trigger] queue2[i]) as int]->0
                <= depth2[queue2[head] as int]->0 + 1,
        forall|v: int|
            #![trigger depth2[v]]
            0 <= v < lists.len() && depth2[v] is Some && v != a ==> depth2[v]->0 > 0,
{
    let depth = s.depth@;
    let queue = s.queue@;
    assert(depth[u as int] is Some);
    assert(u != w);
    assert forall|v: int|
        #![trigger depth2[v]]
        0 <= v < lists.len() && depth2[v] is Some && v != a implies {
        &&& parent2[v] < lists.len()
        &&& depth2[parent2[v] as int] is Some
        &&& depth2[v]->0 == depth2[parent2[v] as int]->0 + 1
        &&& lists[parent2[v] as int]@.contains((v as usize, label2[v]))
    } by {
        if v != w {
            assert(depth[v] is Some);
            assert(parent2[v] == s.parent@[v]);
            assert(s.parent@[v] != w);
        }
    }
    assert(!queue.contains(w)) by {
        if queue.contains(w) {
            let i = queue.index_of(w);
            assert(queue[i] == w);
        }
    }
    assert forall|i: int| 0 <= i < queue2.len() implies (#[trigger] queue2[i]) < depth2.len()
        && depth2[queue2[i] as int] is Some by {
        if i < queue.len() {
            assert(queue2[i] == queue[i]);
        }
    }
    assert forall|v: int| #![trigger depth2[v]] 0 <= v < depth2.len() && depth2[v] is Some implies queue2.contains(
        v as usize,
    ) by {
        if v == w {
            assert(queue2[queue.len() as int] == w);
        } else {
            assert(depth[v] is Some);
            let i = queue.index_of(v as usize);
            assert(queue2[i] == v as usize);
        }
    }
    assert forall|i: int, j: int| 0 <= i <= j < queue2.len() implies depth2[(
    #[trigger] queue2[i]) as int]->0 <= depth2[(#[trigger] queue2[j]) as int]->0 by {
        if j < queue.len() {
            assert(queue2[i] == queue[i] && queue2[j] == queue[j]);
        } else if i < queue.len() {
            assert(queue2[i] == queue[i]);
            assert(depth[queue[i] as int]->0 <= depth[queue[head] as int]->0 + 1);
        }
    }
    assert forall|i: int| 0 <= i < head implies expanded(
        lists,
        depth2,
        (#[trigger] queue2[i]) as int,
        lists[queue2[i] as int]@.len() as int,
    ) by {
        let x = queue[i] as int;
        assert(queue2[i] == queue[i]);
        assert(expanded(lists, depth, x, lists[x]@.len() as int));
        assert(depth[x] is Some);
        assert forall|k: int| 0 <= k < lists[x]@.len() implies depth2[(#[trigger] lists[x]@[k]).0 as int] is Some
            && depth2[lists[x]@[k].0 as int]->0 <= depth2[x]->0 + 1 by {
            assert(depth[lists[x]@[k].0 as int] is Some);
        }
    }
    assert forall|i: int| 0 <= i < queue2.len() implies depth2[(#[trigger] queue2[i]) as int]->0
        <= depth2[queue2[head] as int]->0 + 1 by {
        if i < queue.len() {
            assert(queue2[i] == queue[i]);
            assert(depth[queue[i] as int]->0 <= depth[queue[head] as int]->0 + 1);
        }
    }
}

/// The vertices nearer than `bound` are all expanded.
proof fn lemma_near_expanded(
    lists: Seq<Vec<Step>>,
    depth: Seq<Option<nat>>,
    queue: Seq<usize>,
    head: int,
    bound: int,
    v: int,
)
    requires
        queue_ok(depth, queue, head),
        forall|i: int|
            0 <= i < head ==> expanded(
                lists,
                depth,
                (#[trigger] queue[i]) as int,
                lists[queue[i] as int]@.len() as int,
            ),
        head < queue.len() ==> bound <= depth[queue[head] as int]->0,
        0 <= v < depth.len(),
        depth.len() <= usize::MAX,
        depth[v] is Some,
        depth[v]->0 < bound,
    ensures
        expanded(lists, depth, v, lists[v]@.len() as int),
{
    assert(queue.contains(v as usize));
    let i = queue.index_of(v as usize);
    assert(queue[i] == v as usize);
    if i >= head {
        assert(depth[queue[head] as int]->0 <= depth[queue[i] as int]->0);
    }
}

/// Where the search stands, no route to an unreached vertex has fewer steps than
/// one through the vertex at `head`.
proof fn lemma_no_shorter(
    s: Search,
    lists: Seq<Vec<Step>>,
    a: usize,
    head: int,
    b: usize,
    other: Seq<Step>,
)
    requires
        s.holds(lists, a, head),
        lists.len() <= usize::MAX,
        head <= s.queue@.len(),
        b < lists.len(),
        s.depth@[b as int] is None,
        is_route(lists, a, other),
        route_end(a, other) == b,
    ensures
        head < s.queue@.len(),
        other.len() > s.depth@[s.queue@[head] as int]->0,
{
    let depth = s.depth@;
    let queue = s.queue@;
    let bound: int = if head < queue.len() {
        depth[queue[head] as int]->0 as int
    } else {
        other.len() as int
    };
    if other.len() <= bound {
        assert forall|v: int|
            #![trigger depth[v]]
            0 <= v < lists.len() && depth[v] is Some && depth[v]->0 < bound implies expanded(
            lists,
            depth,
            v,
            lists[v]@.len() as int,
        ) by {
            lemma_near_expanded(lists, depth, queue, head, bound, v);
        }
        lemma_route_depth(lists, a, depth, bound, other);
    }
}

/// Go through the list of the vertex at `head`; `true` once `b` is reached.
#[verifier::spinoff_prover]
fn expand_vertex(lists: &Vec<Vec<Step>>, a: usize, b: usize, s: &mut Search, head: usize) -> (found:
    bool)
    requires
        old(s).holds(lists@, a, head as int),
        head < old(s).queue@.len(),
        b < lists@.len(),
        old(s).depth@[b as int] is None,
    ensures
        final(s).visited@.len() == lists@.len(),
        !found ==> final(s).holds(lists@, a, head + 1) && final(s).depth@[b as int] is None,
        found ==> {
            &&& reached_ok(
                lists@,
                a,
                final(s).depth@,
                final(s).parent@,
                final(s).label@,
            )
            &&& final(s).depth@[b as int] is Some
            &&& forall|v: int|
                #![trigger final(s).depth@[v]]
                0 <= v < lists@.len() && final(s).depth@[v] is Some && v != a
                    ==> final(s).depth@[v]->0 > 0
            &&& forall|other: Seq<Step>| #[trigger]
                is_route(lists@, a, other) && route_end(a, other) == b
                    ==> final(s).depth@[b as int]->0 <= other.len()
        },
{
    let u: usize = s.queue[head];
    let size: usize = lists.len();
    let list = &lists[u];
    let mut k: usize = 0;
    while k < list.len()
        invariant
            k <= list@.len(),
            size == lists@.len(),
            s.holds(lists@, a, head as int),
            head < s.queue@.len(),
            s.queue@[head as int] == u,
            u < lists@.len(),
            *list == lists@[u as int],
            b < lists@.len(),
            s.depth@[b as int] is None,
            expanded(lists@, s.depth@, u as int, k as int),
        decreases list@.len() - k,
    {
        let (w, l) = list[k];
        assert(lists@[u as int]@[k as int] == (w, l));
        assert(w < lists@.len());
        assert(s.depth@[u as int] is Some);
        if !s.visited[w] {
            let ghost depth2 = s.depth@.update(
                w as int,
                Some((s.depth@[u as int]->0 + 1) as nat),
            );
            let ghost before = *s;
            proof {
                assert(lists@[u as int]@.contains((w, l)));
                lemma_reach(
                    *s,
                    lists@,
                    a,
                    head as int,
                    u,
                    w,
                    l,
                    depth2,
                    s.parent@.update(w as int, u),
                    s.label@.update(w as int, l),
                    s.queue@.push(w),
                );
            }
            s.visited.set(w, true);
            s.parent.set(w, u);
            s.label.set(w, l);
            s.queue.push(w);
            s.depth = Ghost(depth2);
            if w == b {
                proof {
                    assert forall|other: Seq<Step>| #[trigger]
                        is_route(lists@, a, other) && route_end(a, other)
                            == b implies s.depth@[b as int]->0 <= other.len() by {
                        lemma_no_shorter(before, lists@, a, head as int, b, other);
                    }
                }
                return true;
            }
            proof {
                assert forall|i: int| 0 <= i < k + 1 implies s.depth@[(
                #[trigger] lists@[u as int]@[i]).0 as int] is Some
                    && s.depth@[lists@[u as int]@[i].0 as int]->0 <= s.depth@[u as int]->0
                    + 1 by {
                    if i < k {
                        assert(before.depth@[lists@[u as int]@[i].0 as int] is Some);
                    }
                }
                assert(s.holds(lists@, a, head as int));
            }
        } else {
            proof {
                let i = s.queue@.index_of(w);
                assert(s.depth@[w as int] is Some);
                assert(s.queue@[i] == w);
                assert(s.depth@[s.queue@[i] as int]->0 <= s.depth@[s.queue@[head as int] as int]->0
                    + 1);
                assert forall|i: int| 0 <= i < k + 1 implies s.depth@[(
                #[trigger] lists@[u as int]@[i]).0 as int] is Some
                    && s.depth@[lists@[u as int]@[i].0 as int]->0 <= s.depth@[u as int]->0
                    + 1 by {}
            }
        }
        k = k + 1;
    }
    proof {
        if head + 1 < s.queue@.len() {
            assert forall|i: int| 0 <= i < s.queue@.len() implies s.depth@[(
            #[trigger] s.queue@[i]) as int]->0 <= s.depth@[s.queue@[head + 1] as int]->0 + 1 by {
                assert(s.depth@[s.queue@[head as int] as int]->0 <= s.depth@[s.queue@[head
                    + 1] as int]->0);
            }
        }
    }
    false
}

/// A shortest route from `a` to `b`, by breadth-first search; `None` if there is
/// none.
pub fn bfs_route(lists: &Vec<Vec<Step>>, a: usize, b: usize) -> (r: Option<Vec<Step>>)
    requires
        lists_ok(lists@),
        a < lists@.len(),
        b < lists@.len(),
    ensures
        match r {
            Some(steps) => {
                &&& is_route(lists@, a, steps@)
                &&& route_end(a, steps@) == b
                &&& route_vertices(a, steps@).no_duplicates()
                &&& is_shortest(lists@, a, steps@)
            },
            None => forall|steps: Seq<Step>| #[trigger]
                is_route(lists@, a, steps) ==> route_end(a, steps) != b,
        },
{
    if a == b {
        let none: Vec<Step> = Vec::new();
        assert(route_vertices(a, none@).no_duplicates());
        return Some(none);
    }
    let n: usize = lists.len();
    let mut visited: Vec<bool> = Vec::new();
    let mut parent: Vec<usize> = Vec::new();
    let mut label: Vec<usize> = Vec::new();
    for v in 0..n
        invariant
            visited@.len() == v,
            parent@.len() == v,
            label@.len() == v,
            forall|w: int| 0 <= w < v ==> #[trigger] visited@[w] == (w == a),
    {
        visited.push(v == a);
        parent.push(0);
        label.push(0);
    }
    let mut queue: Vec<usize> = Vec::new();
    queue.push(a);
    let ghost depth: Seq<Option<nat>> = Seq::new(
        n as nat,
        |v: int|
            if v == a {
                Some(0nat)
            } else {
                None
            },
    );
    let mut s = Search { visited, parent, label, queue, depth: Ghost(depth) };
    assert(s.queue@[0] == a);
    let mut head: usize = 0;
    while head < s.queue.len()
        invariant
            s.holds(lists@, a, head as int),
            b < lists@.len(),
            a != b,
            n == lists@.len(),
            s.depth@[b as int] is None,
        decreases lists@.len() - head,
    {
        proof {
            lemma_queue_short(s.depth@, s.queue@, head as int);
        }
        if expand_vertex(lists, a, b, &mut s, head) {
            let steps = trace(
                a,
                b,
                &s.parent,
                &s.label,
                Ghost(lists@),
                Ghost(s.depth@),
            );
            return Some(steps);
        }
        head = head + 1;
    }
    proof {
        assert forall|steps: Seq<Step>| #[trigger] is_route(lists@, a, steps) implies route_end(
            a,
            steps,
        ) != b by {
            if route_end(a, steps) == b {
                lemma_no_shorter(s, lists@, a, head as int, b, steps);
            }
        }
    }
    None
}

proof fn lemma_queue_short(depth: Seq<Option<nat>>, queue: Seq<usize>, head: int)
    requires
        queue_ok(depth, queue, head),
    ensures
        queue.len() <= depth.len(),
{
    let s = Seq::new(queue.len(), |i: int| queue[i] as int);
    assert forall|i: int, j: int| 0 <= i < j < s.len() implies s[i] != s[j] by {
        assert(queue[i] != queue[j]);
    }
    assert forall|i: int| 0 <= i < s.len() implies 0 <= #[trigger] s[i] < depth.len() by {
        assert(queue[i] < depth.len());
    }
    crate::coloring::lemma_distinct_below(s, depth.len());
}

} // verus!
