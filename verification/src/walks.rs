//! Walks in a directed graph with weighted edges, and the least weight of a
//! walk between two vertices.

use crate::counting::lemma_distinct_bounded;
use vstd::prelude::*;

verus! {

/// For each vertex that has any, its outgoing edges: target and weight.
pub type Edges = Map<usize, Seq<(usize, usize)>>;

/// There is an edge from `u` to `v` of weight `w`.
pub open spec fn has_edge(edges: Edges, u: usize, v: usize, w: usize) -> bool {
    edges.contains_key(u) && exists|k: int| 0 <= k < edges[u].len() && #[trigger] edges[u][k] == (v, w)
}

/// There is a walk from `u` to `v` of at most `steps` edges whose weights
/// add up to `cost`, and which enters no vertex of `closed`.
pub open spec fn walk(
    edges: Edges,
    closed: Set<usize>,
    u: usize,
    v: usize,
    cost: int,
    steps: nat,
) -> bool
    decreases steps,
{
    (u == v && cost == 0) || (steps > 0 && exists|x: usize, w: usize| #[trigger]
        has_edge(edges, u, x, w) && !closed.contains(x) && walk(
            edges,
            closed,
            x,
            v,
            cost - w,
            (steps - 1) as nat,
        ))
}

/// There is a walk from `u` to `v` of weight `cost` that enters no vertex
/// of `closed`.
pub open spec fn reachable(edges: Edges, closed: Set<usize>, u: usize, v: usize, cost: int) -> bool {
    exists|steps: nat| walk(edges, closed, u, v, cost, steps)
}

/// `d` is the least weight of a walk from `u` to `v` that enters no vertex
/// of `closed`.
pub open spec fn distance(edges: Edges, closed: Set<usize>, u: usize, v: usize, d: int) -> bool {
    &&& reachable(edges, closed, u, v, d)
    &&& forall|c: int| #[trigger] reachable(edges, closed, u, v, c) ==> d <= c
}

/// The weight of a walk is not negative.
pub proof fn lemma_walk_weight(
    edges: Edges,
    closed: Set<usize>,
    u: usize,
    v: usize,
    cost: int,
    steps: nat,
)
    requires
        walk(edges, closed, u, v, cost, steps),
    ensures
        cost >= 0,
    decreases steps,
{
    if !(u == v && cost == 0) {
        let (x, w) = choose|x: usize, w: usize| #[trigger]
            has_edge(edges, u, x, w) && !closed.contains(x) && walk(
                edges,
                closed,
                x,
                v,
                cost - w,
                (steps - 1) as nat,
            );
        lemma_walk_weight(edges, closed, x, v, cost - w, (steps - 1) as nat);
    }
}

/// A walk goes on by one more edge.
pub proof fn lemma_walk_append(
    edges: Edges,
    closed: Set<usize>,
    u: usize,
    x: usize,
    y: usize,
    cost: int,
    w: usize,
    steps: nat,
)
    requires
        walk(edges, closed, u, x, cost, steps),
        has_edge(edges, x, y, w),
        !closed.contains(y),
    ensures
        walk(edges, closed, u, y, cost + w, steps + 1),
    decreases steps,
{
    if u == x && cost == 0 {
        lemma_walk_longer(edges, closed, y, y, 0, 0, steps);
        assert(has_edge(edges, u, y, w) && !closed.contains(y) && walk(
            edges,
            closed,
            y,
            y,
            (cost + w) - w,
            ((steps + 1) - 1) as nat,
        ));
    } else {
        let (z, wz) = choose|z: usize, wz: usize| #[trigger]
            has_edge(edges, u, z, wz) && !closed.contains(z) && walk(
                edges,
                closed,
                z,
                x,
                cost - wz,
                (steps - 1) as nat,
            );
        lemma_walk_append(edges, closed, z, x, y, cost - wz, w, (steps - 1) as nat);
        assert(has_edge(edges, u, z, wz) && !closed.contains(z) && walk(
            edges,
            closed,
            z,
            y,
            (cost + w) - wz,
            ((steps + 1) - 1) as nat,
        ));
    }
}

/// A walk of some steps is a walk of more.
pub proof fn lemma_walk_longer(
    edges: Edges,
    closed: Set<usize>,
    u: usize,
    v: usize,
    cost: int,
    steps: nat,
    more: nat,
)
    requires
        walk(edges, closed, u, v, cost, steps),
        steps <= more,
    ensures
        walk(edges, closed, u, v, cost, more),
    decreases steps,
{
    if !(u == v && cost == 0) {
        let (x, w) = choose|x: usize, w: usize| #[trigger]
            has_edge(edges, u, x, w) && !closed.contains(x) && walk(
                edges,
                closed,
                x,
                v,
                cost - w,
                (steps - 1) as nat,
            );
        lemma_walk_longer(edges, closed, x, v, cost - w, (steps - 1) as nat, (more - 1) as nat);
        assert(has_edge(edges, u, x, w) && !closed.contains(x) && walk(
            edges,
            closed,
            x,
            v,
            cost - w,
            (more - 1) as nat,
        ));
    }
}

/// What can be reached goes on by one more edge.
pub proof fn lemma_reachable_append(
    edges: Edges,
    closed: Set<usize>,
    u: usize,
    x: usize,
    y: usize,
    cost: int,
    w: usize,
)
    requires
        reachable(edges, closed, u, x, cost),
        has_edge(edges, x, y, w),
        !closed.contains(y),
    ensures
        reachable(edges, closed, u, y, cost + w),
{
    let steps = choose|steps: nat| walk(edges, closed, u, x, cost, steps);
    lemma_walk_append(edges, closed, u, x, y, cost, w, steps);
}

/// Where every edge leads to a vertex below `size`, closing vertices that
/// are not below `size` hinders no walk.
pub proof fn lemma_walk_unhindered(
    edges: Edges,
    closed: Set<usize>,
    size: nat,
    u: usize,
    v: usize,
    cost: int,
    steps: nat,
)
    requires
        forall|x: usize, y: usize, w: usize| #[trigger] has_edge(edges, x, y, w) ==> y < size,
        forall|c: usize| closed.contains(c) ==> c >= size,
    ensures
        walk(edges, closed, u, v, cost, steps) == walk(edges, Set::empty(), u, v, cost, steps),
    decreases steps,
{
    let open = Set::<usize>::empty();
    if walk(edges, closed, u, v, cost, steps) && !(u == v && cost == 0) {
        let (x, w) = choose|x: usize, w: usize| #[trigger]
            has_edge(edges, u, x, w) && !closed.contains(x) && walk(
                edges,
                closed,
                x,
                v,
                cost - w,
                (steps - 1) as nat,
            );
        lemma_walk_unhindered(edges, closed, size, x, v, cost - w, (steps - 1) as nat);
        assert(has_edge(edges, u, x, w) && !open.contains(x) && walk(
            edges,
            open,
            x,
            v,
            cost - w,
            (steps - 1) as nat,
        ));
    }
    if walk(edges, open, u, v, cost, steps) && !(u == v && cost == 0) {
        let (x, w) = choose|x: usize, w: usize| #[trigger]
            has_edge(edges, u, x, w) && !open.contains(x) && walk(
                edges,
                open,
                x,
                v,
                cost - w,
                (steps - 1) as nat,
            );
        lemma_walk_unhindered(edges, closed, size, x, v, cost - w, (steps - 1) as nat);
        assert(has_edge(edges, u, x, w) && !closed.contains(x) && walk(
            edges,
            closed,
            x,
            v,
            cost - w,
            (steps - 1) as nat,
        ));
    }
}

/// Where every edge leads to a vertex below `size`, closing vertices that
/// are not below `size` changes neither what can be reached nor any
/// distance.
pub proof fn lemma_distance_unhindered(edges: Edges, closed: Set<usize>, size: nat)
    requires
        forall|x: usize, y: usize, w: usize| #[trigger] has_edge(edges, x, y, w) ==> y < size,
        forall|c: usize| closed.contains(c) ==> c >= size,
    ensures
        forall|u: usize, v: usize, cost: int|
            #![trigger reachable(edges, closed, u, v, cost)]
            #![trigger reachable(edges, Set::empty(), u, v, cost)]
            reachable(edges, closed, u, v, cost) == reachable(edges, Set::empty(), u, v, cost),
        forall|u: usize, v: usize, d: int|
            #![trigger distance(edges, closed, u, v, d)]
            #![trigger distance(edges, Set::empty(), u, v, d)]
            distance(edges, closed, u, v, d) == distance(edges, Set::empty(), u, v, d),
{
    let open = Set::<usize>::empty();
    assert forall|u: usize, v: usize, cost: int|
        #[trigger] reachable(edges, closed, u, v, cost) == reachable(edges, open, u, v, cost) by {
        if reachable(edges, closed, u, v, cost) {
            let steps = choose|steps: nat| walk(edges, closed, u, v, cost, steps);
            lemma_walk_unhindered(edges, closed, size, u, v, cost, steps);
        }
        if reachable(edges, open, u, v, cost) {
            let steps = choose|steps: nat| walk(edges, open, u, v, cost, steps);
            lemma_walk_unhindered(edges, closed, size, u, v, cost, steps);
        }
    }
    assert forall|u: usize, v: usize, d: int|
        #[trigger] distance(edges, closed, u, v, d) == distance(edges, open, u, v, d) by {
        assert(reachable(edges, closed, u, v, d) == reachable(edges, open, u, v, d));
        if distance(edges, closed, u, v, d) {
            assert forall|c: int| #[trigger] reachable(edges, open, u, v, c) implies d <= c by {
                assert(reachable(edges, closed, u, v, c));
            }
        }
        if distance(edges, open, u, v, d) {
            assert forall|c: int| #[trigger] reachable(edges, closed, u, v, c) implies d <= c by {
                assert(reachable(edges, open, u, v, c));
            }
        }
    }
}

/// A step of a path: the vertex it leads to, and the weight of the edge
/// taken.
pub type Step = (usize, usize);

/// `path` is a path from `u`: every step takes an edge from where the step
/// before it led, and enters no vertex of `closed`.
pub open spec fn is_path(edges: Edges, closed: Set<usize>, u: usize, path: Seq<Step>) -> bool
    decreases path.len(),
{
    path.len() == 0 || (has_edge(edges, u, path[0].0, path[0].1) && !closed.contains(path[0].0)
        && is_path(edges, closed, path[0].0, path.drop_first()))
}

/// Where a path from `u` ends.
pub open spec fn path_end(u: usize, path: Seq<Step>) -> usize {
    if path.len() == 0 {
        u
    } else {
        path.last().0
    }
}

/// The sum of the weights of the steps of a path.
pub open spec fn path_weight(path: Seq<Step>) -> int
    decreases path.len(),
{
    if path.len() == 0 {
        0
    } else {
        path[0].1 + path_weight(path.drop_first())
    }
}

/// A walk goes along a path of no more steps and of the same weight.
pub proof fn lemma_walk_has_path(
    edges: Edges,
    closed: Set<usize>,
    u: usize,
    v: usize,
    cost: int,
    steps: nat,
) -> (path: Seq<Step>)
    requires
        walk(edges, closed, u, v, cost, steps),
    ensures
        is_path(edges, closed, u, path),
        path_end(u, path) == v,
        path_weight(path) == cost,
        path.len() <= steps,
    decreases steps,
{
    if u == v && cost == 0 {
        Seq::empty()
    } else {
        let (x, w) = choose|x: usize, w: usize| #[trigger]
            has_edge(edges, u, x, w) && !closed.contains(x) && walk(
                edges,
                closed,
                x,
                v,
                cost - w,
                (steps - 1) as nat,
            );
        let rest = lemma_walk_has_path(edges, closed, x, v, cost - w, (steps - 1) as nat);
        let path = Seq::empty().push((x, w)) + rest;
        assert(path.drop_first() =~= rest);
        path
    }
}

/// Along a path goes a walk of as many steps and of the same weight.
pub proof fn lemma_path_is_walk(edges: Edges, closed: Set<usize>, u: usize, path: Seq<Step>)
    requires
        is_path(edges, closed, u, path),
    ensures
        walk(edges, closed, u, path_end(u, path), path_weight(path), path.len()),
    decreases path.len(),
{
    if path.len() > 0 {
        let rest = path.drop_first();
        lemma_path_is_walk(edges, closed, path[0].0, rest);
        assert(has_edge(edges, u, path[0].0, path[0].1) && !closed.contains(path[0].0) && walk(
            edges,
            closed,
            path[0].0,
            path_end(u, path),
            path_weight(path) - path[0].1,
            (path.len() - 1) as nat,
        ));
    }
}

/// A path can be cut in two at any place: both parts are paths, and their
/// weights, neither of them negative, add up to the weight of the whole.
pub proof fn lemma_path_split(edges: Edges, closed: Set<usize>, u: usize, path: Seq<Step>, i: int)
    requires
        is_path(edges, closed, u, path),
        0 <= i <= path.len(),
    ensures
        is_path(edges, closed, u, path.take(i)),
        is_path(edges, closed, path_end(u, path.take(i)), path.skip(i)),
        path_weight(path) == path_weight(path.take(i)) + path_weight(path.skip(i)),
        path_weight(path.take(i)) >= 0,
        path_weight(path.skip(i)) >= 0,
        path_end(path_end(u, path.take(i)), path.skip(i)) == path_end(u, path),
    decreases path.len(),
{
    if i == 0 {
        assert(path.skip(0) =~= path);
        lemma_path_weight_positive(path);
    } else {
        let rest = path.drop_first();
        lemma_path_split(edges, closed, path[0].0, rest, i - 1);
        assert(path.take(i).drop_first() =~= rest.take(i - 1));
        assert(path.skip(i) =~= rest.skip(i - 1));
    }
}

/// The weight of a path is not negative.
pub proof fn lemma_path_weight_positive(path: Seq<Step>)
    ensures
        path_weight(path) >= 0,
    decreases path.len(),
{
    if path.len() > 0 {
        lemma_path_weight_positive(path.drop_first());
    }
}

/// A path that ends where another begins goes on along the other.
pub proof fn lemma_path_join(
    edges: Edges,
    closed: Set<usize>,
    u: usize,
    first: Seq<Step>,
    second: Seq<Step>,
)
    requires
        is_path(edges, closed, u, first),
        is_path(edges, closed, path_end(u, first), second),
    ensures
        is_path(edges, closed, u, first + second),
        path_end(u, first + second) == path_end(path_end(u, first), second),
        path_weight(first + second) == path_weight(first) + path_weight(second),
    decreases first.len(),
{
    if !(first.len() == 0) {
        let rest = first.drop_first();
        lemma_path_join(edges, closed, first[0].0, rest, second);
        assert((first + second).drop_first() =~= rest + second);
    }
}

/// A path whose every weight is at most `bound` weighs at most `bound` for
/// each of its steps.
pub proof fn lemma_path_weight_bound(path: Seq<Step>, bound: int)
    requires
        forall|k: int| 0 <= k < path.len() ==> (#[trigger] path[k]).1 <= bound,
    ensures
        path_weight(path) <= path.len() * bound,
    decreases path.len(),
{
    if path.len() > 0 {
        let rest = path.drop_first();
        lemma_path_weight_bound(rest, bound);
        assert(path.len() * bound == rest.len() * bound + bound) by (nonlinear_arith)
            requires
                path.len() == rest.len() + 1,
        ;
    }
}

/// The steps of a path take edges of the graph.
pub proof fn lemma_path_steps(edges: Edges, closed: Set<usize>, u: usize, path: Seq<Step>, k: int)
    requires
        is_path(edges, closed, u, path),
        0 <= k < path.len(),
    ensures
        exists|x: usize| has_edge(edges, x, path[k].0, path[k].1),
    decreases path.len(),
{
    if !(k == 0) {
        lemma_path_steps(edges, closed, path[0].0, path.drop_first(), k - 1);
    }
}

/// Where every edge leads to a vertex below `size`, a path can be replaced
/// by one of at most `size` steps, to the same end, that weighs no more: a
/// path of more steps enters some vertex twice, and what lies between can
/// be left out.
pub proof fn lemma_shorten(
    edges: Edges,
    closed: Set<usize>,
    u: usize,
    path: Seq<Step>,
    size: nat,
) -> (short: Seq<Step>)
    requires
        is_path(edges, closed, u, path),
        forall|x: usize, y: usize, w: usize| #[trigger] has_edge(edges, x, y, w) ==> y < size,
    ensures
        is_path(edges, closed, u, short),
        path_end(u, short) == path_end(u, path),
        path_weight(short) <= path_weight(path),
        short.len() <= size,
    decreases path.len(),
{
    if path.len() <= size {
        path
    } else {
        let targets = Seq::new(path.len(), |k: int| path[k].0);
        assert forall|k: int| 0 <= k < targets.len() implies (#[trigger] targets[k]) < size by {
            lemma_path_steps(edges, closed, u, path, k);
        }
        if targets.no_duplicates() {
            lemma_distinct_bounded(targets, size);
        }
        let (i, j) = choose|i: int, j: int|
            0 <= i < targets.len() && 0 <= j < targets.len() && i != j && targets[i]
                == targets[j];
        let (lo, hi) = if i < j {
            (i, j)
        } else {
            (j, i)
        };
        let head = path.take(lo + 1);
        let tail = path.skip(hi + 1);
        lemma_path_split(edges, closed, u, path, lo + 1);
        lemma_path_split(edges, closed, u, path, hi + 1);
        lemma_path_join(edges, closed, u, head, tail);
        lemma_path_split(edges, closed, u, path.take(hi + 1), lo + 1);
        assert(path.take(hi + 1).take(lo + 1) =~= head);
        let cut = head + tail;
        lemma_shorten(edges, closed, u, cut, size)
    }
}

/// Where every edge leads to a vertex below `size` and weighs at most
/// `bound`, no distance is above `size * bound`.
pub proof fn lemma_distance_bound(
    edges: Edges,
    closed: Set<usize>,
    u: usize,
    v: usize,
    d: int,
    size: nat,
    bound: int,
)
    requires
        distance(edges, closed, u, v, d),
        forall|x: usize, y: usize, w: usize|
            #[trigger] has_edge(edges, x, y, w) ==> y < size && w <= bound,
        0 <= bound,
    ensures
        d <= size * bound,
{
    let steps = choose|steps: nat| walk(edges, closed, u, v, d, steps);
    let path = lemma_walk_has_path(edges, closed, u, v, d, steps);
    let short = lemma_shorten(edges, closed, u, path, size);
    lemma_path_is_walk(edges, closed, u, short);
    assert(reachable(edges, closed, u, v, path_weight(short)));
    assert forall|k: int| 0 <= k < short.len() implies (#[trigger] short[k]).1 <= bound by {
        lemma_path_steps(edges, closed, u, short, k);
    }
    lemma_path_weight_bound(short, bound);
    assert(short.len() * bound <= size * bound) by (nonlinear_arith)
        requires
            short.len() <= size,
            0 <= bound,
    ;
}

} // verus!
