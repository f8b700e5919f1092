//! Shortest distances in a directed graph with weighted edges, by queries
//! that share a table of distances.

use crate::walks::{
    distance, has_edge, lemma_distance_bound, lemma_distance_unhindered,
    lemma_reachable_append, lemma_walk_weight, reachable, walk, Edges,
};
use std::collections::HashMap;
use vstd::prelude::*;
use vstd::std_specs::iter::IteratorSpec;

verus! {

/// A directed graph: for each vertex that has any, the list of its outgoing
/// edges, each a target and a weight.
pub type Graph = HashMap<usize, Vec<(usize, usize)>>;

/// The number of vertices that are not marked.
pub open spec fn unmarked(marks: Seq<bool>) -> nat
    decreases marks.len(),
{
    if marks.len() == 0 {
        0
    } else {
        unmarked(marks.drop_last()) + if marks.last() {
            0nat
        } else {
            1nat
        }
    }
}

/// Marking a vertex that is not marked leaves one unmarked vertex fewer.
pub proof fn lemma_mark(marks: Seq<bool>, v: int)
    requires
        0 <= v < marks.len(),
        !marks[v],
    ensures
        unmarked(marks.update(v, true)) + 1 == unmarked(marks),
    decreases marks.len(),
{
    let after = marks.update(v, true);
    if v == marks.len() - 1 {
        assert(after.drop_last() =~= marks.drop_last());
    } else {
        lemma_mark(marks.drop_last(), v);
        assert(after.drop_last() =~= marks.drop_last().update(v, true));
    }
}

/// The vertex `v` is marked in `marks`.
pub open spec fn marked(marks: Seq<bool>, v: usize) -> bool {
    v < marks.len() && marks[v as int]
}

/// What holds while a query runs. `closed` are the vertices, other than
/// `start`, whose distance 0 was kept from an earlier query; `dist` is the table of distances; `visited` marks the
/// vertices whose edges have been followed; `heap` holds the vertices to be
/// visited, each with the weight of a walk to it. If a vertex is being
/// visited, `pending` names it, with the number of its edges that have been
/// followed.
pub open spec fn searching(
    edges: Edges,
    closed: Set<usize>,
    start: usize,
    end: usize,
    dist: Map<usize, usize>,
    touched: Seq<bool>,
    visited: Seq<bool>,
    heap: Seq<(usize, usize)>,
    pending: Option<(usize, int)>,
) -> bool {
    &&& visited.len() == touched.len()
    &&& !closed.contains(start)
    &&& held(dist, start) == 0
    &&& start < touched.len() ==> marked(touched, start)
    &&& forall|v: usize|
        closed.contains(v) ==> #[trigger] held(dist, v) == 0 && !marked(touched, v)
    &&& forall|v: usize|
        !closed.contains(v) && v != start ==> if #[trigger] marked(touched, v) {
            held(dist, v) < usize::MAX && reachable(edges, closed, start, v, held(dist, v) as int)
        } else {
            held(dist, v) == usize::MAX
        }
    &&& forall|x: usize| #[trigger]
        marked(visited, x) ==> {
            &&& !closed.contains(x)
            &&& x != end
            &&& held(dist, x) < usize::MAX
            &&& distance(edges, closed, start, x, held(dist, x) as int)
        }
    &&& forall|x: usize, k: int|
        marked(visited, x) && edges.contains_key(x) && 0 <= k < edges[x].len() && (
        pending matches Some((current, done)) ==> x != current || k < done) && !closed.contains(
            (#[trigger] edges[x][k]).0,
        ) ==> held(dist, edges[x][k].0) <= held(dist, x) + edges[x][k].1
    &&& forall|k: int|
        0 <= k < heap.len() ==> {
            let (c, v) = #[trigger] heap[k];
            &&& !closed.contains(v)
            &&& held(dist, v) <= c
            &&& c < usize::MAX
            &&& (v < touched.len() || v == end)
            &&& reachable(edges, closed, start, v, c as int)
        }
    &&& forall|v: usize|
        !closed.contains(v) && #[trigger] held(dist, v) < usize::MAX && !marked(visited, v)
            ==> heap.contains((held(dist, v), v))
}

/// No sum of a distance from `start` and the weight of an edge that goes on
/// from there reaches `usize::MAX`.
pub open spec fn sums_fit(edges: Edges, closed: Set<usize>, start: usize) -> bool {
    forall|x: usize, d: int, y: usize, w: usize|
        #[trigger] distance(edges, closed, start, x, d) && #[trigger] has_edge(edges, x, y, w) ==> d
            + w < usize::MAX
}

/// While a query runs, a walk from a visited vertex to one that is not
/// visited weighs, with the distance of the visited vertex, at least as
/// much as the least entry of the heap.
pub proof fn lemma_cut(
    edges: Edges,
    closed: Set<usize>,
    start: usize,
    end: usize,
    dist: Map<usize, usize>,
    touched: Seq<bool>,
    visited: Seq<bool>,
    heap: Seq<(usize, usize)>,
    least: usize,
    x: usize,
    u: usize,
    cost: int,
    steps: nat,
)
    requires
        searching(edges, closed, start, end, dist, touched, visited, heap, None),
        sums_fit(edges, closed, start),
        forall|k: int| 0 <= k < heap.len() ==> least <= (#[trigger] heap[k]).0,
        marked(visited, x),
        !marked(visited, u),
        walk(edges, closed, x, u, cost, steps),
    ensures
        held(dist, x) + cost >= least,
    decreases steps,
{
    let (y, w) = choose|y: usize, w: usize| #[trigger]
        has_edge(edges, x, y, w) && !closed.contains(y) && walk(
            edges,
            closed,
            y,
            u,
            cost - w,
            (steps - 1) as nat,
        );
    lemma_walk_weight(edges, closed, y, u, cost - w, (steps - 1) as nat);
    if marked(visited, y) {
        lemma_cut(
            edges,
            closed,
            start,
            end,
            dist,
            touched,
            visited,
            heap,
            least,
            y,
            u,
            cost - w,
            (steps - 1) as nat,
        );
    }
}

/// When the heap is empty, no walk leads from a visited vertex to one that
/// is not visited.
pub proof fn lemma_exhausted(
    edges: Edges,
    closed: Set<usize>,
    start: usize,
    end: usize,
    dist: Map<usize, usize>,
    touched: Seq<bool>,
    visited: Seq<bool>,
    x: usize,
    u: usize,
    cost: int,
    steps: nat,
)
    requires
        searching(
            edges,
            closed,
            start,
            end,
            dist,
            touched,
            visited,
            Seq::empty(),
            None,
        ),
        sums_fit(edges, closed, start),
        marked(visited, x),
        walk(edges, closed, x, u, cost, steps),
    ensures
        marked(visited, u),
    decreases steps,
{
    if x != u {
        let (y, w) = choose|y: usize, w: usize| #[trigger]
            has_edge(edges, x, y, w) && !closed.contains(y) && walk(
                edges,
                closed,
                y,
                u,
                cost - w,
                (steps - 1) as nat,
            );
        lemma_exhausted(
            edges,
            closed,
            start,
            end,
            dist,
            touched,
            visited,
            y,
            u,
            cost - w,
            (steps - 1) as nat,
        );
    }
}

/// While a query runs, the least entry of the heap, if its vertex is not
/// visited, holds the distance of its vertex.
pub proof fn lemma_least_is_distance(
    edges: Edges,
    closed: Set<usize>,
    start: usize,
    end: usize,
    dist: Map<usize, usize>,
    touched: Seq<bool>,
    visited: Seq<bool>,
    heap: Seq<(usize, usize)>,
    least: usize,
    u: usize,
)
    requires
        searching(edges, closed, start, end, dist, touched, visited, heap, None),
        sums_fit(edges, closed, start),
        heap.contains((least, u)),
        forall|k: int| 0 <= k < heap.len() ==> least <= (#[trigger] heap[k]).0,
        !marked(visited, u),
    ensures
        held(dist, u) == least,
        distance(edges, closed, start, u, least as int),
{
    assert forall|c: int| #[trigger] reachable(edges, closed, start, u, c) implies least <= c by {
        let steps = choose|steps: nat| walk(edges, closed, start, u, c, steps);
        lemma_walk_weight(edges, closed, start, u, c, steps);
        if u != start {
            if marked(visited, start) {
                lemma_cut(
                    edges,
                    closed,
                    start,
                    end,
                    dist,
                    touched,
                    visited,
                    heap,
                    least,
                    start,
                    u,
                    c,
                    steps,
                );
            }
        }
    }
}

/// The place of the first entry of least weight in a heap that holds any.
pub open spec fn least_place(heap: Seq<(usize, usize)>, i: int) -> bool {
    &&& 0 <= i < heap.len()
    &&& forall|k: int| 0 <= k < heap.len() ==> heap[i].0 <= (#[trigger] heap[k]).0
    &&& forall|k: int| 0 <= k < i ==> heap[i].0 < (#[trigger] heap[k]).0
}

/// Takes the first entry of least weight off the heap, if the heap holds
/// any; the last entry takes its place.
pub fn pop_min(heap: &mut Vec<(usize, usize)>) -> (least: Option<(usize, usize)>)
    ensures
        match least {
            None => old(heap)@.len() == 0 && final(heap)@.len() == 0,
            Some(entry) => exists|i: int|
                {
                    &&& #[trigger] least_place(old(heap)@, i)
                    &&& entry == old(heap)@[i]
                    &&& final(heap)@ == old(heap)@.update(i, old(heap)@.last()).drop_last()
                },
        },
        least matches Some(entry) ==> {
            &&& old(heap)@.contains(entry)
            &&& forall|k: int| 0 <= k < old(heap)@.len() ==> entry.0 <= (#[trigger] old(heap)@[k]).0
            &&& final(heap)@.len() + 1 == old(heap)@.len()
            &&& forall|x: (usize, usize)|
                #[trigger] final(heap)@.contains(x) ==> old(heap)@.contains(x)
            &&& forall|x: (usize, usize)|
                #[trigger] old(heap)@.contains(x) && x != entry ==> final(heap)@.contains(x)
        },
{
    if heap.len() == 0 {
        return None;
    }
    let mut best: usize = 0;
    let mut k: usize = 1;
    while k < heap.len()
        invariant
            1 <= k <= heap@.len(),
            best < heap@.len(),
            heap@ == old(heap)@,
            forall|j: int| 0 <= j < k ==> heap@[best as int].0 <= (#[trigger] heap@[j]).0,
            forall|j: int| 0 <= j < best ==> heap@[best as int].0 < (#[trigger] heap@[j]).0,
        decreases heap@.len() - k,
    {
        if heap[k].0 < heap[best].0 {
            best = k;
        }
        k += 1;
    }
    let entry = heap.swap_remove(best);
    proof {
        let before = old(heap)@;
        let after = heap@;
        let last = before.len() - 1;
        assert(least_place(before, best as int));
        assert forall|x: (usize, usize)| #[trigger] before.contains(x) && x != entry implies after.contains(
            x,
        ) by {
            let j = choose|j: int| 0 <= j < before.len() && before[j] == x;
            if j == last {
                assert(after[best as int] == x);
            } else {
                assert(after[j] == x);
            }
        }
    }
    Some(entry)
}

/// Following an edge from the vertex being visited to a vertex whose
/// distance it improves: the new distance is recorded, the vertex is marked
/// as touched and joins the heap.
pub proof fn lemma_relax(
    edges: Edges,
    closed: Set<usize>,
    start: usize,
    end: usize,
    dist: Map<usize, usize>,
    touched: Seq<bool>,
    visited: Seq<bool>,
    heap: Seq<(usize, usize)>,
    u: usize,
    k: int,
)
    requires
        searching(edges, closed, start, end, dist, touched, visited, heap, Some((u, k))),
        sums_fit(edges, closed, start),
        marked(visited, u),
        edges.contains_key(u),
        0 <= k < edges[u].len(),
        edges[u][k].0 < touched.len(),
        held(dist, u) + edges[u][k].1 < held(dist, edges[u][k].0),
    ensures
        !marked(visited, edges[u][k].0),
        searching(
            edges,
            closed,
            start,
            end,
            dist.insert(edges[u][k].0, (held(dist, u) + edges[u][k].1) as usize),
            touched.update(edges[u][k].0 as int, true),
            visited,
            heap.push(((held(dist, u) + edges[u][k].1) as usize, edges[u][k].0)),
            Some((u, k + 1)),
        ),
{
    let (y, w) = edges[u][k];
    let cost = held(dist, u);
    let new_cost = (cost + w) as usize;
    let dist_after = dist.insert(y, new_cost);
    let touched_after = touched.update(y as int, true);
    let heap_after = heap.push((new_cost, y));
    lemma_reachable_append(edges, closed, start, u, y, cost as int, w);
    assert forall|v: usize| v != y implies held(dist_after, v) == held(dist, v) && marked(touched_after, v)
        == marked(touched, v) by {}
    assert forall|v: usize|
        !closed.contains(v) && #[trigger] held(dist_after, v) < usize::MAX && !marked(
            visited,
            v,
        ) implies heap_after.contains((held(dist_after, v), v)) by {
        if v == y {
            assert(heap_after[heap.len() as int] == (new_cost, y));
        } else {
            let j = choose|j: int| 0 <= j < heap.len() && heap[j] == (held(dist, v), v);
            assert(heap_after[j] == (held(dist_after, v), v));
        }
    }
}

/// `answer` is the least weight of a walk from `start` to `end`, or nothing
/// if there is no such walk.
pub open spec fn answers(edges: Edges, start: usize, end: usize, answer: Option<usize>) -> bool {
    match answer {
        Some(d) => distance(edges, Set::empty(), start, end, d as int),
        None => forall|c: int| !reachable(edges, Set::empty(), start, end, c),
    }
}

/// The answer to a query is fixed by the graph and the two vertices: it does
/// not depend on the queries that went before.
pub proof fn lemma_answer_fixed(
    edges: Edges,
    start: usize,
    end: usize,
    one: Option<usize>,
    other: Option<usize>,
)
    requires
        answers(edges, start, end, one),
        answers(edges, start, end, other),
    ensures
        one == other,
{
    let open = Set::<usize>::empty();
    match (one, other) {
        (Some(a), Some(b)) => {
            assert(reachable(edges, open, start, end, a as int));
            assert(reachable(edges, open, start, end, b as int));
        },
        (Some(a), None) => {
            assert(reachable(edges, open, start, end, a as int));
        },
        (None, Some(b)) => {
            assert(reachable(edges, open, start, end, b as int));
        },
        (None, None) => {},
    }
}

/// The edges of a graph given as a hash map of adjacency lists.
pub open spec fn edges_of(graph: Map<usize, Vec<(usize, usize)>>) -> Edges {
    graph.map_values(|list: Vec<(usize, usize)>| list@)
}

/// Answers queries for the least weight of a walk between two vertices of a
/// graph. The table of distances is kept from one query to the next, which
/// resets what the last one touched; no answer depends on earlier queries.
pub struct DijkstraOptimizer {
    graph: Graph,
    prev_distances: HashMap<usize, usize>,
    touched: Vec<bool>,
}

/// A weight so small that it can be added up once more than `size` times
/// below `usize::MAX`.
pub open spec fn light(size: nat, w: usize) -> bool {
    (size + 1) * w < usize::MAX
}

/// The distance that a table holds for `v`, with `usize::MAX` where it
/// holds none.
pub open spec fn held(table: Map<usize, usize>, v: usize) -> usize {
    if table.contains_key(v) {
        table[v]
    } else {
        usize::MAX
    }
}

/// The table holds a distance for `v` that the next query will not reset.
pub open spec fn kept(table: Map<usize, usize>, touched: Seq<bool>, v: usize) -> bool {
    held(table, v) != usize::MAX && !(v < touched.len() && touched[v as int])
}

impl DijkstraOptimizer {
    /// The edges of the graph.
    pub closed spec fn edges(&self) -> Edges {
        edges_of(self.graph@)
    }

    /// One more than the greatest vertex that has an adjacency list, and 1
    /// if there is no such vertex.
    pub closed spec fn size(&self) -> nat {
        self.touched@.len()
    }

    /// The distances that are kept from one query to the next, with
    /// `usize::MAX` standing for none.
    pub closed spec fn table(&self) -> Map<usize, usize> {
        self.prev_distances@
    }

    /// For each vertex below the size, whether the last query gave it a
    /// distance: the next query resets these.
    pub closed spec fn touched(&self) -> Seq<bool> {
        self.touched@
    }

    /// The vertices whose distance the next query would not reset: starts of
    /// earlier queries that are not below the size.
    spec fn closed_set(&self) -> Set<usize> {
        Set::new(|v: usize| kept(self.prev_distances@, self.touched@, v))
    }

    /// The representation invariant: every vertex with an adjacency list is
    /// below the size, and a distance that the next query would not reset is
    /// 0 and belongs to a vertex that is not below the size.
    pub closed spec fn wf(&self) -> bool {
        &&& self.touched@.len() >= 1
        &&& forall|k: usize| #[trigger] self.graph@.contains_key(k) ==> k < self.touched@.len()
        &&& forall|v: usize|
            #[trigger] kept(self.prev_distances@, self.touched@, v) ==> held(
                self.prev_distances@,
                v,
            ) == 0 && v >= self.touched@.len()
    }

    /// Every edge leads to a vertex below the size.
    pub open spec fn targets_in_range(&self) -> bool {
        forall|u: usize, v: usize, w: usize| #[trigger]
            has_edge(self.edges(), u, v, w) ==> v < self.size()
    }

    /// Takes a graph, given as the list of outgoing edges of each vertex
    /// that has any: pairs of a target and a weight.
    pub fn new(graph: Graph) -> (optimizer: DijkstraOptimizer)
        requires
            forall|k: usize| #[trigger] graph@.contains_key(k) ==> k < usize::MAX,
        ensures
            optimizer.wf(),
            optimizer.edges() == edges_of(graph@),
            optimizer.size() <= usize::MAX,
            forall|k: usize| #[trigger] graph@.contains_key(k) ==> k < optimizer.size(),
            optimizer.size() == 1 || graph@.contains_key((optimizer.size() - 1) as usize),
            optimizer.table() == Map::<usize, usize>::empty(),
            optimizer.touched() == Seq::new(optimizer.size(), |i: int| false),
    {
        broadcast use vstd::std_specs::hash::group_hash_axioms;

        let mut size: usize = 1;
        for k in it: graph.keys()
            invariant
                it.seq() == graph.keys().remaining(),
                forall|k: usize| #[trigger] graph@.contains_key(k) ==> k < usize::MAX,
                forall|j: int| 0 <= j < it.index() ==> *(#[trigger] it.seq()[j]) < size,
                size == 1 || graph@.contains_key((size - 1) as usize),
        {
            proof {
                assert(it.seq().unref().to_set().contains(*k));
            }
            if *k >= size {
                size = *k + 1;
            }
        }
        let mut touched: Vec<bool> = Vec::new();
        let mut i: usize = 0;
        while i < size
            invariant
                i <= size,
                touched@.len() == i,
                forall|j: int| 0 <= j < i ==> !(#[trigger] touched@[j]),
            decreases size - i,
        {
            touched.push(false);
            i += 1;
        }
        let optimizer = DijkstraOptimizer { graph, prev_distances: HashMap::new(), touched };
        proof {
            assert(optimizer.touched@ =~= Seq::new(size as nat, |i: int| false));
        }
        optimizer
    }

    /// Every edge leads to a vertex below the size, and is light. Then no
    /// query adds up numbers beyond `usize::MAX`.
    pub open spec fn bounded(&self) -> bool {
        forall|u: usize, v: usize, w: usize| #[trigger]
            has_edge(self.edges(), u, v, w) ==> v < self.size() && light(self.size(), w)
    }

    /// A graph that is bounded meets what a query asks of it, whatever the
    /// start and whichever vertices are closed.
    pub proof fn lemma_bounded_fits(&self, closed: Set<usize>, start: usize)
        requires
            self.bounded(),
        ensures
            self.targets_in_range(),
            sums_fit(self.edges(), closed, start),
    {
        let edges = self.edges();
        let size = self.size();
        let most = (usize::MAX - 1) / (size + 1) as int;
        assert forall|x: usize, y: usize, w: usize| #[trigger]
            has_edge(edges, x, y, w) implies y < size && w <= most by {
            assert(w <= (usize::MAX - 1) / (size + 1) as int) by (nonlinear_arith)
                requires
                    (size + 1) * w <= usize::MAX - 1,
                    size + 1 > 0,
            ;
        }
        assert forall|x: usize, d: int, y: usize, w: usize|
            #[trigger] distance(edges, closed, start, x, d) && #[trigger] has_edge(
                edges,
                x,
                y,
                w,
            ) implies d + w < usize::MAX by {
            lemma_distance_bound(edges, closed, start, x, d, size, most);
            assert(size * most + most <= usize::MAX - 1) by (nonlinear_arith)
                requires
                    most == (usize::MAX - 1) / (size + 1) as int,
                    size + 1 > 0,
            ;
        }
    }

    /// Whether the graph is bounded.
    pub fn is_bounded(&self) -> (ok: bool)
        requires
            self.wf(),
        ensures
            ok == self.bounded(),
    {
        broadcast use vstd::std_specs::hash::group_hash_axioms;

        let size = self.touched.len();
        let most = match size.checked_add(1) {
            Some(more) => (usize::MAX - 1) / more,
            None => 0,
        };
        proof {
            assert forall|w: usize| w <= most <==> #[trigger] light(size as nat, w) by {
                if size < usize::MAX {
                    assert(w <= (usize::MAX - 1) / (size + 1) as int <==> (size + 1) * w
                        <= usize::MAX - 1) by (nonlinear_arith)
                        requires
                            size + 1 > 0,
                            0 <= w,
                    ;
                } else {
                    assert((size + 1) * w < usize::MAX <==> w == 0) by (nonlinear_arith)
                        requires
                            size == usize::MAX,
                            0 <= w,
                    ;
                }
            }
        }
        let ghost edges = self.edges();
        for entry in it: self.graph.iter()
            invariant
                it.seq() == self.graph.iter().remaining(),
                edges == edges_of(self.graph@),
                size == self.size(),
                forall|w: usize| w <= most <==> #[trigger] light(size as nat, w),
                forall|j: int, k: int|
                    0 <= j < it.index() && 0 <= k < (*it.seq()[j].1)@.len() ==> {
                        let (v, w) = #[trigger] (*it.seq()[j].1)@[k];
                        v < size && w <= most
                    },
        {
            let (u, list) = entry;
            let mut k: usize = 0;
            while k < list.len()
                invariant
                    k <= list@.len(),
                    self.graph@.contains_key(*u),
                    self.graph@[*u] == *list,
                    edges == edges_of(self.graph@),
                    size == self.size(),
                    forall|w: usize| w <= most <==> #[trigger] light(size as nat, w),
                    forall|h: int|
                        0 <= h < k ==> {
                            let (v, w) = #[trigger] list@[h];
                            v < size && w <= most
                        },
                decreases list@.len() - k,
            {
                let (v, w) = list[k];
                if v >= size || w > most {
                    proof {
                        assert(edges[*u][k as int] == (v, w));
                        assert(has_edge(self.edges(), *u, v, w));
                    }
                    return false;
                }
                k += 1;
            }
        }
        proof {
            let seq = self.graph.iter().remaining();
            assert forall|u: usize, v: usize, w: usize| #[trigger]
                has_edge(edges, u, v, w) implies v < size && light(size as nat, w) by {
                let k = choose|k: int| 0 <= k < edges[u].len() && #[trigger] edges[u][k] == (v, w);
                let j = choose|j: int| 0 <= j < seq.len() && seq[j] == (&u, &self.graph@[u]);
                assert((*seq[j].1)@[k] == (v, w));
            }
        }
        true
    }

    /// The least weight of a walk from `start` to `end`, if there is such a
    /// walk.
    ///
    /// The distances of one query are kept for the next, which resets those
    /// of the vertices that were touched, the start among them.
    /// Vertices are taken off a heap in the order of their distance from
    /// `start`; the edges of each are followed once, and a vertex joins the
    /// heap whenever an edge improves its distance. The query ends when
    /// `end` is taken off the heap, or when the heap is empty.
    #[verifier::rlimit(30)]
    pub fn query(&mut self, start: usize, end: usize) -> (result: Option<usize>)
        requires
            old(self).wf(),
            old(self).targets_in_range(),
            start < old(self).size() || start == end,
            sums_fit(old(self).edges(), Set::empty(), start),
        ensures
            final(self).wf(),
            final(self).edges() == old(self).edges(),
            final(self).size() == old(self).size(),
            answers(old(self).edges(), start, end, result),
    {
        broadcast use vstd::std_specs::hash::group_hash_axioms;

        let ghost edges = self.edges();
        let ghost closed = self.closed_set().remove(start);
        proof {
            assert(sums_fit(edges, closed, start)) by {
                lemma_distance_unhindered(edges, closed, self.touched@.len());
            }
        }
        let ghost old_table = self.prev_distances@;
        let ghost old_touched = self.touched@;
        let mut distances = self.prev_distances.clone();
        let mut heap: Vec<(usize, usize)> = Vec::new();
        let size = self.touched.len();
        let mut visited: Vec<bool> = Vec::new();
        while visited.len() < size
            invariant
                visited@.len() <= size,
                forall|x: int| 0 <= x < visited@.len() ==> !(#[trigger] visited@[x]),
            decreases size - visited@.len(),
        {
            visited.push(false);
        }

        let mut v: usize = 0;
        while v < size
            invariant
                v <= size,
                self.touched@.len() == size,
                old_touched.len() == size,
                self.graph == old(self).graph,
                forall|x: usize|
                    #[trigger] held(distances@, x) == if x < v && old_touched[x as int] {
                        usize::MAX
                    } else {
                        held(old_table, x)
                    },
                forall|x: int|
                    0 <= x < size ==> #[trigger] self.touched@[x] == (x >= v && old_touched[x]),
            decreases size - v,
        {
            let ghost table = distances@;
            if self.touched[v] {
                distances.insert(v, usize::MAX);
                self.touched[v] = false;
            }
            proof {
                assert forall|x: usize|
                    #[trigger] held(distances@, x) == if x < v + 1 && old_touched[x as int] {
                        usize::MAX
                    } else {
                        held(old_table, x)
                    } by {
                    assert(held(table, x) == if x < v && old_touched[x as int] {
                        usize::MAX
                    } else {
                        held(old_table, x)
                    });
                }
            }
            v += 1;
        }

        let ghost reset = distances@;
        distances.insert(start, 0);
        if start < self.touched.len() {
            self.touched[start] = true;
        }
        heap.push((0, start));
        proof {
            let dist = distances@;
            let touched = self.touched@;
            assert forall|x: usize| x != start implies #[trigger] held(dist, x) == if marked(
                old_touched,
                x,
            ) {
                usize::MAX
            } else {
                held(old_table, x)
            } by {
                assert(held(reset, x) == if x < size && old_touched[x as int] {
                    usize::MAX
                } else {
                    held(old_table, x)
                });
            }
            assert forall|x: usize| x != start implies !marked(touched, x) by {}
            assert forall|x: usize| !marked(visited@, x) by {}
            assert forall|x: usize|
                closed.contains(x) implies #[trigger] held(dist, x) == 0 && !marked(touched, x) by {
                assert(kept(old_table, old_touched, x));
            }
            assert forall|x: usize| !closed.contains(x) && x != start implies if #[trigger] marked(
                touched,
                x,
            ) {
                held(dist, x) < usize::MAX && reachable(edges, closed, start, x, held(dist, x) as int)
            } else {
                held(dist, x) == usize::MAX
            } by {
                assert(!kept(old_table, old_touched, x));
            }
            assert(walk(edges, closed, start, start, 0, 0));
            assert(heap@[0] == (0usize, start));
            assert forall|x: usize|
                !closed.contains(x) && #[trigger] held(dist, x) < usize::MAX && !marked(
                    visited@,
                    x,
                ) implies heap@.contains((held(dist, x), x)) by {
                if x != start {
                    assert(!kept(old_table, old_touched, x));
                }
            }
            assert(searching(edges, closed, start, end, dist, touched, visited@, heap@, None));
        }
        loop
            invariant
                old(self).wf(),
                old(self).touched@.len() == size,
                self.graph == old(self).graph,
                edges == edges_of(self.graph@),
                closed == old(self).closed_set().remove(start),
                self.touched@.len() == size,
                visited@.len() == size,
                forall|k: usize| #[trigger] self.graph@.contains_key(k) ==> k < size,
                forall|a: usize, b: usize, w: usize| #[trigger]
                    has_edge(edges, a, b, w) ==> b < size,
                sums_fit(edges, closed, start),
                searching(
                    edges,
                    closed,
                    start,
                    end,
                    distances@,
                    self.touched@,
                    visited@,
                    heap@,
                    None,
                ),
            ensures
                heap@.len() == 0,
            decreases unmarked(visited@), heap@.len(),
        {
            let ghost before = heap@;
            let (cost, vertex) = match pop_min(&mut heap) {
                Some(entry) => entry,
                None => {
                    break ;
                },
            };
            proof {
                if !marked(visited@, vertex) {
                    lemma_least_is_distance(
                        edges,
                        closed,
                        start,
                        end,
                        distances@,
                        self.touched@,
                        visited@,
                        before,
                        cost,
                        vertex,
                    );
                }
            }

            if vertex == end {
                self.prev_distances = distances;
                proof {
                    assert(searching(
                        self.edges(),
                        old(self).closed_set().remove(start),
                        start,
                        end,
                        self.prev_distances@,
                        self.touched@,
                        visited@,
                        before,
                        None,
                    ));
                    self.lemma_closed_after(*old(self), start, end, visited@, before);
                    lemma_distance_unhindered(edges, closed, size as nat);
                }
                return Some(cost);
            }
            if visited[vertex] {
                continue ;
            }
            let ghost seen = visited@;
            visited[vertex] = true;
            proof {
                lemma_mark(seen, vertex as int);
                assert forall|x: usize| #[trigger] marked(visited@, x) implies {
                    &&& !closed.contains(x)
                    &&& x != end
                    &&& held(distances@, x) < usize::MAX
                    &&& distance(edges, closed, start, x, held(distances@, x) as int)
                } by {
                    if x != vertex {
                        assert(marked(seen, x));
                    }
                }
            }

            match self.graph.get(&vertex) {
                Some(list) => {
                    let mut k: usize = 0;
                    while k < list.len()
                        invariant
                            k <= list@.len(),
                            self.graph == old(self).graph,
                            edges.contains_key(vertex),
                            edges[vertex] == list@,
                            self.touched@.len() == size,
                            visited@.len() == size,
                            marked(visited@, vertex),
                            held(distances@, vertex) == cost,
                            forall|a: usize, b: usize, w: usize| #[trigger]
                                has_edge(edges, a, b, w) ==> b < size,
                            sums_fit(edges, closed, start),
                            searching(
                                edges,
                                closed,
                                start,
                                end,
                                distances@,
                                self.touched@,
                                visited@,
                                heap@,
                                Some((vertex, k as int)),
                            ),
                        decreases list@.len() - k,
                    {
                        let (neighbor, weight) = list[k];
                        proof {
                            assert(has_edge(edges, vertex, neighbor, weight));
                        }
                        let new_cost = cost + weight;
                        let current_dist = match distances.get(&neighbor) {
                            Some(d) => *d,
                            None => usize::MAX,
                        };
                        if new_cost < current_dist {
                            proof {
                                lemma_relax(
                                    edges,
                                    closed,
                                    start,
                                    end,
                                    distances@,
                                    self.touched@,
                                    visited@,
                                    heap@,
                                    vertex,
                                    k as int,
                                );
                            }
                            distances.insert(neighbor, new_cost);
                            self.touched[neighbor] = true;
                            heap.push((new_cost, neighbor));
                        }
                        k += 1;
                    }
                },
                None => {},
            }
        }
        self.prev_distances = distances;
        proof {
            assert(searching(
                self.edges(),
                old(self).closed_set().remove(start),
                start,
                end,
                self.prev_distances@,
                self.touched@,
                visited@,
                heap@,
                None,
            ));
            self.lemma_closed_after(*old(self), start, end, visited@, heap@);
            lemma_distance_unhindered(edges, closed, size as nat);
            assert forall|c: int| !reachable(edges, closed, start, end, c) by {
                if reachable(edges, closed, start, end, c) {
                    let steps = choose|steps: nat| walk(edges, closed, start, end, c, steps);
                    lemma_exhausted(
                        edges,
                        closed,
                        start,
                        end,
                        self.prev_distances@,
                        self.touched@,
                        visited@,
                        start,
                        end,
                        c,
                        steps,
                    );
                }
            }
        }
        None
    }

    /// Runs the query if the graph is bounded and `start` is below the size
    /// or equal to `end`, and gives its answer; else leaves the state as it
    /// is and gives nothing.
    pub fn try_query(&mut self, start: usize, end: usize) -> (result: Option<Option<usize>>)
        requires
            old(self).wf(),
        ensures
            final(self).wf(),
            final(self).edges() == old(self).edges(),
            final(self).size() == old(self).size(),
            result is Some <==> old(self).bounded() && (start < old(self).size() || start == end),
            match result {
                Some(answer) => answers(old(self).edges(), start, end, answer),
                None => *final(self) == *old(self),
            },
    {
        if (start < self.touched.len() || start == end) && self.is_bounded() {
            proof {
                self.lemma_bounded_fits(Set::empty(), start);
            }
            Some(self.query(start, end))
        } else {
            None
        }
    }

    /// At the end of a query the invariant holds again.
    proof fn lemma_closed_after(
        &self,
        before: DijkstraOptimizer,
        start: usize,
        end: usize,
        visited: Seq<bool>,
        heap: Seq<(usize, usize)>,
    )
        requires
            before.wf(),
            self.graph == before.graph,
            self.touched@.len() == before.touched@.len(),
            exists|pending: Option<(usize, int)>|
                searching(
                    self.edges(),
                    before.closed_set().remove(start),
                    start,
                    end,
                    self.prev_distances@,
                    self.touched@,
                    visited,
                    heap,
                    pending,
                ),
        ensures
            self.wf(),
    {
        let closed = before.closed_set().remove(start);
        let dist = self.prev_distances@;
        assert forall|v: usize| #[trigger] kept(dist, self.touched@, v) implies held(dist, v) == 0
            && v >= self.touched@.len() by {
            if v != start {
                if closed.contains(v) {
                    assert(kept(before.prev_distances@, before.touched@, v));
                } else {
                    assert(marked(self.touched@, v) || held(dist, v) == usize::MAX);
                }
            }
        }
    }
}

} // verus!
