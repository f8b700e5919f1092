//! Failure links: the transition of the automaton on one character, and the
//! breadth-first construction that resolves every node's failure link and
//! output set.

use crate::counting::lemma_distinct_bounded;
use crate::text::{
    lemma_proper_suffix, lemma_suffix_of_suffix, lemma_suffix_pop, lemma_suffix_push,
    lemma_suffix_same_len, lemma_suffix_transitive,
};
use crate::trie::{
    distinct_indices, lemma_code_point_injective, lemma_own_indices_contains,
    lemma_own_indices_distinct, longest_suffix_node, own_indices, parent_ok, reports, trie_ok,
    ACAutomaton,
};
use std::collections::HashMap;
use std::collections::VecDeque;
use vstd::prelude::*;
use vstd::std_specs::iter::IteratorSpec;

verus! {

impl ACAutomaton {
    /// The edges of `state`: each code point with its target, in no
    /// particular order.
    pub(crate) fn children_list(&self, state: usize) -> (kids: Vec<(u32, usize)>)
        requires
            state < self.nodes@.len(),
        ensures
            kids@.no_duplicates(),
            forall|u: u32, t: usize|
                kids@.contains((u, t)) <==> (self.nodes@[state as int].children@.contains_key(u)
                    && self.nodes@[state as int].children@[u] == t),
    {
        broadcast use vstd::std_specs::hash::group_hash_axioms;

        let m: &HashMap<u32, usize> = &self.nodes[state].children;
        let mut kids: Vec<(u32, usize)> = Vec::new();
        for edge in it: m.iter()
            invariant
                it.seq() == m.iter().remaining(),
                it.seq().no_duplicates(),
                kids@ == it.seq().unref().take(it.index()),
        {
            let (u, t) = edge;
            kids.push((*u, *t));
        }
        proof {
            let s = m.iter().remaining();
            assert forall|u: u32, t: usize| (m@.contains_key(u) && m@[u] == t) implies kids@.contains(
                (u, t),
            ) by {
                let j = choose|j: int| 0 <= j < s.len() && s[j] == (&u, &m@[u]);
                assert(kids@[j] == (u, t));
            }
        }
        kids
    }

    /// The transition on the character `c`, whose code point is `key`: from
    /// `state`, follow failure links until a node has an edge for `c` or the
    /// root is reached, then take that edge if there is one.
    ///
    /// If `state` stands for the longest suffix of `s` that is a path of the
    /// trie, the result stands for the longest such suffix of `s` followed
    /// by `c`.
    pub(crate) fn advance(
        &self,
        state: usize,
        key: u32,
        Ghost(c): Ghost<char>,
        Ghost(s): Ghost<Seq<char>>,
    ) -> (next: usize)
        requires
            trie_ok(self.nodes@, self.paths@, self.parents@),
            c as u32 == key,
            longest_suffix_node(self.paths@, s, state as int),
            forall|t: int|
                0 < t < self.nodes@.len() && self.paths@[t].len() <= self.paths@[state as int].len()
                    ==> #[trigger] self.fail_ok(t),
        ensures
            longest_suffix_node(self.paths@, s.push(c), next as int),
    {
        broadcast use vstd::std_specs::hash::group_hash_axioms;

        let mut cur = state;
        while cur != 0 && !self.nodes[cur].children.contains_key(&key)
            invariant
                trie_ok(self.nodes@, self.paths@, self.parents@),
                cur < self.nodes@.len(),
                self.paths@[cur as int].is_suffix_of(s),
                self.paths@[cur as int].len() <= self.paths@[state as int].len(),
                forall|t: int|
                    0 < t < self.nodes@.len() && self.paths@[t].len()
                        <= self.paths@[state as int].len() ==> #[trigger] self.fail_ok(t),
                forall|g: int|
                    0 <= g < self.nodes@.len() && (#[trigger] self.paths@[g]).is_suffix_of(s)
                        && self.nodes@[g].children@.contains_key(key) ==> self.paths@[g].len()
                        <= self.paths@[cur as int].len(),
            decreases self.paths@[cur as int].len(),
        {
            let ghost here = self.paths@[cur as int];
            let f = self.nodes[cur].fail;
            proof {
                assert(parent_ok(self.nodes@, self.paths@, self.parents@, cur as int));
                assert(self.fail_ok(cur as int));
                lemma_proper_suffix(self.paths@[f as int], here);
                lemma_suffix_transitive(self.paths@[f as int], here, s);
                assert forall|g: int|
                    0 <= g < self.nodes@.len() && (#[trigger] self.paths@[g]).is_suffix_of(s)
                        && self.nodes@[g].children@.contains_key(key) implies self.paths@[g].len()
                    <= self.paths@[f as int].len() by {
                    let p = self.paths@[g];
                    if p.len() == here.len() {
                        lemma_suffix_same_len(p, here, s);
                    }
                    lemma_suffix_of_suffix(p, here, s);
                    lemma_proper_suffix(p, here);
                }
            }
            cur = f;
        }
        let ghost sc = s.push(c);
        match self.child_of(cur, key) {
            Some(next) => {
                proof {
                    lemma_code_point_injective(self.paths@[next as int].last(), c);
                    lemma_suffix_push(self.paths@[cur as int], s, c);
                    assert forall|g: int|
                        0 <= g < self.nodes@.len() && (#[trigger] self.paths@[g]).is_suffix_of(
                            sc,
                        ) implies self.paths@[g].len() <= self.paths@[next as int].len() by {
                        if self.paths@[g].len() > 0 {
                            self.lemma_parent_is_suffix(g, s, c);
                        }
                    }
                }
                next
            },
            None => {
                proof {
                    assert forall|g: int|
                        0 <= g < self.nodes@.len() && (#[trigger] self.paths@[g]).is_suffix_of(
                            sc,
                        ) implies self.paths@[g].len() <= self.paths@[0].len() by {
                        if self.paths@[g].len() > 0 {
                            self.lemma_parent_is_suffix(g, s, c);
                        }
                    }
                }
                0
            },
        }
    }

    /// If the path of a node other than the root is a suffix of `s` followed
    /// by `c`, then its parent has an edge for `c` and a path that is a
    /// suffix of `s`, one character shorter.
    pub(crate) proof fn lemma_parent_is_suffix(&self, g: int, s: Seq<char>, c: char)
        requires
            trie_ok(self.nodes@, self.paths@, self.parents@),
            0 <= g < self.nodes@.len(),
            self.paths@[g].len() > 0,
            self.paths@[g].is_suffix_of(s.push(c)),
        ensures
            0 <= self.parents@[g] < self.nodes@.len(),
            self.nodes@[self.parents@[g] as int].children@.contains_key(c as u32),
            self.nodes@[self.parents@[g] as int].children@[c as u32] == g,
            self.paths@[self.parents@[g] as int].is_suffix_of(s),
            self.paths@[self.parents@[g] as int].len() + 1 == self.paths@[g].len(),
    {
        assert(parent_ok(self.nodes@, self.paths@, self.parents@, g));
        lemma_suffix_pop(self.paths@[g], s, c);
    }
}

/// One of the first `j` edges in `kids` leads to `t`.
pub open(crate) spec fn queued(kids: Seq<(u32, usize)>, j: int, t: usize) -> bool {
    exists|i: int| 0 <= i < j && (#[trigger] kids[i]).1 == t
}

impl ACAutomaton {
    /// The length of the path of node `t`.
    pub open(crate) spec fn depth(&self, t: int) -> int {
        self.paths@[t].len() as int
    }

    /// The failure link and the outputs of node `t` are final.
    pub open(crate) spec fn resolved(&self, t: int) -> bool {
        &&& self.full_outputs(t)
        &&& t > 0 ==> self.fail_ok(t)
    }

    /// Node `t` has been visited exactly if it is the root, or its parent is
    /// among the first `done` visited nodes, or its parent is the node being
    /// processed and `t` is the target of one of the first `j` edges.
    pub open(crate) spec fn reached(
        &self,
        order: Seq<usize>,
        done: int,
        kids: Seq<(u32, usize)>,
        j: int,
        t: usize,
    ) -> bool {
        order.contains(t) <==> (t == 0 || order.take(done).contains(self.parents@[t as int]) || (
        self.parents@[t as int] == order[done] && queued(kids, j, t)))
    }

    /// The state of the breadth-first traversal: `order` lists the visited
    /// nodes, the root first; the children of its first `done` nodes have
    /// all been visited, and so have the targets of the first `j` edges in
    /// `kids`, the edges of the node `order[done]`.
    pub open(crate) spec fn bfs_inv(
        &self,
        order: Seq<usize>,
        done: int,
        kids: Seq<(u32, usize)>,
        j: int,
    ) -> bool {
        let n = self.nodes@.len();
        &&& trie_ok(self.nodes@, self.paths@, self.parents@)
        &&& self.entries_ok()
        &&& !self.built
        &&& self.nodes@[0].fail == 0
        &&& 0 <= done <= order.len()
        &&& order.len() >= 1
        &&& order[0] == 0
        &&& order.no_duplicates()
        &&& forall|a: int| 0 <= a < order.len() ==> (#[trigger] order[a]) < n
        &&& forall|a: int| 0 <= a < order.len() ==> self.resolved(#[trigger] order[a] as int)
        &&& forall|t: usize| t < n && !order.contains(t) ==> #[trigger] self.own_outputs(t as int)
        &&& forall|a: int, b: int|
            0 <= a <= b < order.len() ==> self.depth(#[trigger] order[a] as int) <= self.depth(
                #[trigger] order[b] as int,
            )
        &&& done < order.len() ==> forall|a: int|
            0 <= a < order.len() ==> self.depth(#[trigger] order[a] as int) <= self.depth(
                order[done] as int,
            ) + 1
        &&& forall|t: usize| t < n ==> #[trigger] self.reached(order, done, kids, j, t)
    }

    /// The two automata have the same trie and the same entries; they may
    /// differ in failure links and outputs.
    pub open(crate) spec fn same_trie(&self, other: ACAutomaton) -> bool {
        &&& self.nodes@.len() == other.nodes@.len()
        &&& forall|t: int|
            #![trigger self.nodes@[t]]
            #![trigger other.nodes@[t]]
            0 <= t < self.nodes@.len() ==> self.nodes@[t].children@ == other.nodes@[t].children@
        &&& self.paths@ == other.paths@
        &&& self.parents@ == other.parents@
        &&& self.entries@ == other.entries@
        &&& self.terminals@ == other.terminals@
    }

    /// An automaton with the same trie and entries as a well-formed one has
    /// a well-formed trie and well-placed entries.
    pub(crate) proof fn lemma_same_trie_ok(&self, other: ACAutomaton)
        requires
            trie_ok(self.nodes@, self.paths@, self.parents@),
            self.entries_ok(),
            self.same_trie(other),
        ensures
            trie_ok(other.nodes@, other.paths@, other.parents@),
            other.entries_ok(),
    {
        let n = self.nodes@.len() as int;
        assert forall|t: int| 0 < t < n implies #[trigger] parent_ok(
            other.nodes@,
            other.paths@,
            other.parents@,
            t,
        ) by {
            assert(parent_ok(self.nodes@, self.paths@, self.parents@, t));
        }
    }

    /// Sets the failure link of `child` to `target` and lets `child` inherit
    /// the outputs of `target`.
    pub(crate) fn link(&mut self, child: usize, target: usize)
        requires
            child < old(self).nodes@.len(),
            target < old(self).nodes@.len(),
            child != target,
        ensures
            final(self).same_trie(*old(self)),
            final(self).built == old(self).built,
            forall|g: int|
                0 <= g < old(self).nodes@.len() && g != child ==> #[trigger] final(self).nodes@[g]
                    == old(self).nodes@[g],
            final(self).nodes@[child as int].fail == target,
            final(self).nodes@[child as int].outputs@ == old(self).nodes@[child as int].outputs@
                + old(self).nodes@[target as int].outputs@,
    {
        self.nodes[child].fail = target;
        let mut inherited = self.nodes[target].outputs.clone();
        self.nodes[child].outputs.append(&mut inherited);
    }

    /// At the root, the patterns equal to the path are the patterns that are
    /// suffixes of the path.
    pub(crate) proof fn lemma_root_outputs(&self)
        requires
            self.paths@.len() > 0,
            self.paths@[0].len() == 0,
            self.own_outputs(0),
        ensures
            self.full_outputs(0),
    {
        let path = self.paths@[0];
        assert forall|k: usize|
            self.entries@.contains((path, k)) <==> reports(self.entries@, path, k) by {
            if reports(self.entries@, path, k) {
                let e = choose|e: int|
                    0 <= e < self.entries@.len() && (#[trigger] self.entries@[e]).1 == k
                        && self.entries@[e].0.is_suffix_of(path);
                assert(self.entries@[e].0 =~= path);
            }
        }
    }

    /// During the traversal, every node that is no deeper than the node
    /// being processed has been visited.
    pub(crate) proof fn lemma_shallow_reached(
        &self,
        order: Seq<usize>,
        done: int,
        kids: Seq<(u32, usize)>,
        j: int,
        t: usize,
    )
        requires
            self.bfs_inv(order, done, kids, j),
            done < order.len(),
            t < self.nodes@.len(),
            self.depth(t as int) <= self.depth(order[done] as int),
        ensures
            order.contains(t),
        decreases self.depth(t as int),
    {
        if !(t == 0) {
            assert(parent_ok(self.nodes@, self.paths@, self.parents@, t as int));
            let p = self.parents@[t as int];
            self.lemma_shallow_reached(order, done, kids, j, p);
            let a = choose|a: int| 0 <= a < order.len() && order[a] == p;
            assert(order.take(done)[a] == p);
            assert(self.reached(order, done, kids, j, t));
        }
    }

    /// The target of an edge of the node being processed that has not been
    /// handled yet has not been visited.
    pub(crate) proof fn lemma_child_fresh(
        &self,
        order: Seq<usize>,
        done: int,
        kids: Seq<(u32, usize)>,
        j: int,
    )
        requires
            self.bfs_inv(order, done, kids, j),
            done < order.len(),
            0 <= j < kids.len(),
            kids.no_duplicates(),
            forall|i: int|
                0 <= i < kids.len() ==> self.nodes@[order[done] as int].children@.contains_key(
                    (#[trigger] kids[i]).0,
                ) && self.nodes@[order[done] as int].children@[kids[i].0] == kids[i].1,
        ensures
            !order.contains(kids[j].1),
            0 < kids[j].1 < self.nodes@.len(),
            self.parents@[kids[j].1 as int] == order[done],
            self.paths@[kids[j].1 as int].len() > 0,
            self.paths@[kids[j].1 as int].last() as u32 == kids[j].0,
            self.paths@[kids[j].1 as int] == self.paths@[order[done] as int].push(
                self.paths@[kids[j].1 as int].last(),
            ),
    {
        let child = kids[j].1;
        assert(self.reached(order, done, kids, j, child));
    }

    /// A node that holds the patterns equal to its path, and inherits the
    /// outputs of the node of its longest proper suffix, holds the patterns
    /// that are suffixes of its path.
    pub(crate) proof fn lemma_inherit_outputs(
        &self,
        after: ACAutomaton,
        child: int,
        target: int,
    )
        requires
            trie_ok(self.nodes@, self.paths@, self.parents@),
            self.entries_ok(),
            0 < child < self.nodes@.len(),
            self.own_outputs(child),
            self.full_outputs(target),
            longest_suffix_node(self.paths@, self.paths@[child].drop_first(), target),
            after.paths@ == self.paths@,
            after.entries@ == self.entries@,
            after.nodes@.len() == self.nodes@.len(),
            after.nodes@[child].outputs@ == self.nodes@[child].outputs@
                + self.nodes@[target].outputs@,
        ensures
            after.full_outputs(child),
    {
        let own = self.nodes@[child].outputs@;
        let inherited = self.nodes@[target].outputs@;
        let all = after.nodes@[child].outputs@;
        let path = self.paths@[child];
        let short = self.paths@[target];
        assert(parent_ok(self.nodes@, self.paths@, self.parents@, child));
        lemma_proper_suffix(short, path);
        assert forall|k: usize| all.contains(k) <==> reports(self.entries@, path, k) by {
            if all.contains(k) {
                let i = choose|i: int| 0 <= i < all.len() && all[i] == k;
                if i < own.len() {
                    assert(own.contains(k));
                } else {
                    assert(inherited.contains(k));
                    let e = choose|e: int|
                        0 <= e < self.entries@.len() && (#[trigger] self.entries@[e]).1 == k
                            && self.entries@[e].0.is_suffix_of(short);
                    lemma_suffix_transitive(self.entries@[e].0, short, path);
                }
            }
            if reports(self.entries@, path, k) {
                let e = choose|e: int|
                    0 <= e < self.entries@.len() && (#[trigger] self.entries@[e]).1 == k
                        && self.entries@[e].0.is_suffix_of(path);
                let p = self.entries@[e].0;
                if p.len() == path.len() {
                    assert(p =~= path);
                    assert(self.entries@.contains((path, k)));
                    let i = choose|i: int| 0 <= i < own.len() && own[i] == k;
                    assert(all[i] == k);
                } else {
                    let g = self.terminals@[e];
                    assert(self.paths@[g] == p);
                    lemma_proper_suffix(p, path);
                    lemma_suffix_of_suffix(p, short, path.drop_first());
                    assert(reports(self.entries@, short, k));
                    let i = choose|i: int| 0 <= i < inherited.len() && inherited[i] == k;
                    assert(all[own.len() + i] == k);
                }
            }
        }
    }

    /// Resolving the target of the next edge of the node being processed,
    /// and visiting it, keeps the state of the traversal.
    pub(crate) proof fn lemma_linked(
        &self,
        after: ACAutomaton,
        order: Seq<usize>,
        done: int,
        kids: Seq<(u32, usize)>,
        j: int,
        target: usize,
    )
        requires
            self.bfs_inv(order, done, kids, j),
            done < order.len(),
            0 <= j < kids.len(),
            kids.no_duplicates(),
            forall|i: int|
                0 <= i < kids.len() ==> self.nodes@[order[done] as int].children@.contains_key(
                    (#[trigger] kids[i]).0,
                ) && self.nodes@[order[done] as int].children@[kids[i].0] == kids[i].1,
            order.contains(target),
            longest_suffix_node(
                self.paths@,
                self.paths@[kids[j].1 as int].drop_first(),
                target as int,
            ),
            after.same_trie(*self),
            !after.built,
            forall|g: int|
                0 <= g < self.nodes@.len() && g != kids[j].1 ==> #[trigger] after.nodes@[g]
                    == self.nodes@[g],
            after.nodes@[kids[j].1 as int].fail == target,
            after.nodes@[kids[j].1 as int].outputs@ == self.nodes@[kids[j].1 as int].outputs@
                + self.nodes@[target as int].outputs@,
        ensures
            after.bfs_inv(order.push(kids[j].1), done, kids, j + 1),
    {
        let n = self.nodes@.len();
        let child = kids[j].1;
        let longer = order.push(child);
        self.lemma_child_fresh(order, done, kids, j);
        self.lemma_same_trie_ok(after);
        self.lemma_inherit_outputs(after, child as int, target as int);
        assert forall|t: usize| t < n && !longer.contains(t) implies #[trigger] after.own_outputs(
            t as int,
        ) by {
            assert(longer[order.len() as int] == child);
            if order.contains(t) {
                let a = choose|a: int| 0 <= a < order.len() && order[a] == t;
                assert(longer[a] == t);
            }
            assert(self.own_outputs(t as int));
        }
        assert(longer.take(done) =~= order.take(done));
        assert forall|t: usize| t < n implies #[trigger] after.reached(longer, done, kids, j + 1, t) by {
            assert(self.reached(order, done, kids, j, t));
            if order.contains(t) {
                let a = choose|a: int| 0 <= a < order.len() && order[a] == t;
                assert(longer[a] == t);
            }
            if t == child {
                assert(longer[order.len() as int] == t);
            }
        }
    }

    /// When every edge of the node being processed has been handled, the
    /// traversal can go on to the next visited node.
    pub(crate) proof fn lemma_next_node(&self, order: Seq<usize>, done: int, kids: Seq<(u32, usize)>)
        requires
            self.bfs_inv(order, done, kids, kids.len() as int),
            done < order.len(),
            forall|u: u32, t: usize|
                (self.nodes@[order[done] as int].children@.contains_key(u)
                    && self.nodes@[order[done] as int].children@[u] == t) ==> kids.contains((u, t)),
        ensures
            self.bfs_inv(order, done + 1, Seq::empty(), 0),
    {
        let n = self.nodes@.len();
        let current = order[done];
        let none = Seq::<(u32, usize)>::empty();
        assert forall|t: usize| t < n implies #[trigger] self.reached(order, done + 1, none, 0, t) by {
            assert(self.reached(order, done, kids, kids.len() as int, t));
            let p = self.parents@[t as int];
            if p == current {
                assert(order.take(done + 1)[done] == p);
            }
            let front = order.take(done + 1);
            if t != 0 && front.contains(p) {
                let a = choose|a: int| 0 <= a < front.len() && front[a] == p;
                if !(a < done) {
                    assert(parent_ok(self.nodes@, self.paths@, self.parents@, t as int));
                    let u = self.paths@[t as int].last() as u32;
                    assert(kids.contains((u, t)));
                }
            }
        }
    }

    /// When the children of every visited node have been visited, every node
    /// has been visited.
    pub(crate) proof fn lemma_all_reached(&self, order: Seq<usize>, t: usize)
        requires
            self.bfs_inv(order, order.len() as int, Seq::empty(), 0),
            t < self.nodes@.len(),
        ensures
            order.contains(t),
        decreases self.depth(t as int),
    {
        let none = Seq::<(u32, usize)>::empty();
        if !(t == 0) {
            assert(parent_ok(self.nodes@, self.paths@, self.parents@, t as int));
            let p = self.parents@[t as int];
            self.lemma_all_reached(order, p);
            assert(order.take(order.len() as int) =~= order);
            assert(self.reached(order, order.len() as int, none, 0, t));
        }
    }

    /// The number of failure links that lead from state `t` to the root.
    pub open spec fn fail_depth(&self, t: int) -> nat
        decreases self.path(t).len(),
        when self.wf() && self.built() && 0 <= t < self.len()
        via Self::lemma_fail_depth_decreases
    {
        if t == 0 {
            0
        } else {
            1 + self.fail_depth(self.node(t).fail_link() as int)
        }
    }

    /// A failure link leads to a shorter path.
    #[via_fn]
    proof fn lemma_fail_depth_decreases(&self, t: int) {
        if t != 0 {
            self.lemma_links_resolved();
        }
    }

    /// The failure links form a forest below the root whose depth is bounded
    /// by the length of the longest pattern: from any state the root is
    /// reached by no more failure links than the state's path is long, and
    /// that path is no longer than the pattern of some entry.
    pub proof fn lemma_fail_depth_bounded(&self, t: int)
        requires
            self.wf(),
            self.built(),
            0 <= t < self.len(),
        ensures
            self.fail_depth(t) <= self.path(t).len(),
            t > 0 ==> exists|e: int|
                0 <= e < self.entries().len() && self.path(t).len() <= (
                #[trigger] self.entries()[e]).0.len(),
        decreases self.path(t).len(),
    {
        if t != 0 {
            self.lemma_links_resolved();
            let f = self.node(t).fail_link() as int;
            self.lemma_fail_depth_bounded(f);
        }
    }

    /// Where every index was inserted once, no state holds an index twice,
    /// before the build or after it.
    pub proof fn lemma_outputs_distinct(&self, t: int)
        requires
            self.wf(),
            0 <= t < self.len(),
            distinct_indices(self.entries()),
        ensures
            self.node(t).reported().no_duplicates(),
        decreases self.path(t).len(),
    {
        let entries = self.entries@;
        let path = self.paths@[t];
        let own = own_indices(entries, path);
        lemma_own_indices_distinct(entries, path);
        assert(self.listed(t));
        if self.built && t > 0 {
            self.lemma_links_resolved();
            let f = self.nodes@[t].fail as int;
            assert(self.node(t).fail_link() == f);
            assert(self.path(f).len() < self.path(t).len());
            self.lemma_outputs_distinct(f);
            let inherited = self.nodes@[f].outputs@;
            let all = self.nodes@[t].outputs@;
            assert forall|i: int, j: int|
                0 <= i < own.len() && 0 <= j < inherited.len() implies own[i] != inherited[j] by {
                let k = own[i];
                if k == inherited[j] {
                    assert(own.contains(k));
                    lemma_own_indices_contains(entries, path, k);
                    let a = choose|a: int| 0 <= a < entries.len() && entries[a] == (path, k);
                    assert(inherited.contains(k));
                    assert(self.full_outputs(f));
                    assert(reports(entries, self.paths@[f], k));
                    let b = choose|b: int|
                        0 <= b < entries.len() && (#[trigger] entries[b]).1 == k
                            && entries[b].0.is_suffix_of(self.paths@[f]);
                    assert(entries[a].1 == entries[b].1);
                }
            }
            assert forall|i: int, j: int|
                0 <= i < all.len() && 0 <= j < all.len() && i != j implies all[i] != all[j] by {
                if i < own.len() && j < own.len() {
                    assert(own[i] != own[j]);
                } else if i >= own.len() && j >= own.len() {
                    assert(inherited[i - own.len()] != inherited[j - own.len()]);
                } else if i < own.len() {
                    assert(own[i] != inherited[j - own.len()]);
                } else {
                    assert(own[j] != inherited[i - own.len()]);
                }
            }
        }
    }

    /// Every visited node but the root holds the outputs it had at the
    /// start followed by the outputs of the node its failure link leads to,
    /// which has been visited; every other node holds what it held at the
    /// start.
    pub open(crate) spec fn chained(&self, start: ACAutomaton, order: Seq<usize>) -> bool {
        forall|t: usize| t < self.nodes@.len() ==> #[trigger] self.chained_at(start, order, t)
    }

    /// The node `t` holds what `chained` asks of it.
    pub open(crate) spec fn chained_at(
        &self,
        start: ACAutomaton,
        order: Seq<usize>,
        t: usize,
    ) -> bool {
        if t != 0 && order.contains(t) {
            &&& order.contains(self.nodes@[t as int].fail)
            &&& self.nodes@[t as int].outputs@ == start.nodes@[t as int].outputs@
                + self.nodes@[self.nodes@[t as int].fail as int].outputs@
        } else {
            self.nodes@[t as int].outputs@ == start.nodes@[t as int].outputs@
        }
    }

    /// Resolving a node that has not been visited, by a link to one that
    /// has, keeps the outputs chained.
    pub(crate) proof fn lemma_chained_step(
        &self,
        after: ACAutomaton,
        start: ACAutomaton,
        order: Seq<usize>,
        child: usize,
        target: usize,
    )
        requires
            self.chained(start, order),
            after.nodes@.len() == self.nodes@.len(),
            order.len() >= 1,
            order[0] == 0,
            forall|a: int| 0 <= a < order.len() ==> (#[trigger] order[a]) < self.nodes@.len(),
            0 < child < self.nodes@.len(),
            target < self.nodes@.len(),
            !order.contains(child),
            order.contains(target),
            forall|g: int|
                0 <= g < self.nodes@.len() && g != child ==> #[trigger] after.nodes@[g]
                    == self.nodes@[g],
            after.nodes@[child as int].fail == target,
            after.nodes@[child as int].outputs@ == self.nodes@[child as int].outputs@
                + self.nodes@[target as int].outputs@,
        ensures
            after.chained(start, order.push(child)),
    {
        let longer = order.push(child);
        assert forall|t: usize| t < after.nodes@.len() implies #[trigger] after.chained_at(
            start,
            longer,
            t,
        ) by {
            assert(self.chained_at(start, order, t));
            assert(longer[order.len() as int] == child);
            if longer.contains(t) && t != child {
                let a = choose|a: int| 0 <= a < longer.len() && longer[a] == t;
                assert(order[a] == t);
            }
            if t == child {
                assert(after.nodes@[target as int] == self.nodes@[target as int]);
                let a = choose|a: int| 0 <= a < order.len() && order[a] == target;
                assert(longer[a] == target);
            } else {
                assert(after.nodes@[t as int] == self.nodes@[t as int]);
                if t != 0 && order.contains(t) {
                    let a = choose|a: int| 0 <= a < order.len() && order[a] == t;
                    assert(longer[a] == t);
                    let f = self.nodes@[t as int].fail;
                    let b = choose|b: int| 0 <= b < order.len() && order[b] == f;
                    assert(order[b] < self.nodes@.len());
                    assert(longer[b] == f);
                    assert(after.nodes@[f as int] == self.nodes@[f as int]);
                }
            }
        }
    }

    /// Resolves the failure link and the outputs of every node, breadth
    /// first from the root.
    ///
    /// The children of the root fall back to the root. The failure link of
    /// any other child, reached from its parent by the character `c`, is
    /// found by following the parent's failure links to the first node that
    /// has an edge for `c`, and taking that edge; it is the root if there is
    /// no such node. Each node then inherits the outputs of the node its
    /// failure link leads to.
    pub fn build_failures(&mut self)
        requires
            old(self).wf(),
            !old(self).built(),
        ensures
            final(self).wf(),
            final(self).built(),
            final(self).entries() == old(self).entries(),
            final(self).len() == old(self).len(),
            forall|t: int| 0 <= t < old(self).len() ==> final(self).path(t) == old(self).path(t),
            forall|t: int|
                0 <= t < old(self).len() ==> (#[trigger] final(self).node(t)).edges() == old(
                    self,
                ).node(t).edges(),
            final(self).node(0).reported() == old(self).node(0).reported(),
            forall|t: int|
                0 < t < final(self).len() ==> (#[trigger] final(self).node(t)).reported() == old(
                    self,
                ).node(t).reported() + final(self).node(
                    final(self).node(t).fail_link() as int,
                ).reported(),
            final(self).is_trie(),
            final(self).links_resolved(),
            final(self).lists_outputs(),
    {
        let ghost start = *self;
        let count = self.nodes.len();
        let ghost n = self.nodes@.len();
        let mut queue: VecDeque<usize> = VecDeque::new();
        let ghost mut order: Seq<usize> = Seq::empty().push(0usize);

        let children = self.children_list(0);
        proof {
            self.lemma_root_outputs();
        }
        let mut j: usize = 0;
        while j < children.len()
            invariant
                j <= children.len(),
                n == self.nodes@.len(),
                n == count,
                self.bfs_inv(order, 0, children@, j as int),
                self.same_trie(start),
                self.chained(start, order),
                children@.no_duplicates(),
                forall|u: u32, t: usize|
                    children@.contains((u, t)) <==> (start.nodes@[0].children@.contains_key(u)
                        && start.nodes@[0].children@[u] == t),
                queue@ == order.skip(1),
            decreases children.len() - j,
        {
            let child = children[j].1;
            let ghost before = *self;
            proof {
                let edges = self.nodes@[order[0] as int].children@;
                assert forall|i: int| 0 <= i < children@.len() implies edges.contains_key(
                    (#[trigger] children@[i]).0,
                ) && edges[children@[i].0] == children@[i].1 by {
                    assert(children@.contains((children@[i].0, children@[i].1)));
                }
                self.lemma_child_fresh(order, 0, children@, j as int);
            }
            self.link(child, 0);
            queue.push_back(child);
            proof {
                before.lemma_linked(*self, order, 0, children@, j as int, 0);
                before.lemma_chained_step(*self, start, order, child, 0);
                order = order.push(child);
            }
            j += 1;
        }
        proof {
            self.lemma_next_node(order, 0, children@);
        }
        let ghost mut done: int = 1;
        loop
            invariant
                n == self.nodes@.len(),
                n == count,
                self.bfs_inv(order, done, Seq::empty(), 0),
                1 <= done,
                queue@ == order.skip(done),
                self.same_trie(start),
                self.chained(start, order),
            ensures
                done == order.len(),
            decreases n - done,
        {
            let current = match queue.pop_front() {
                Some(t) => t,
                None => {
                    break ;
                },
            };
            proof {
                lemma_distinct_bounded(order, n);
            }
            let child_list = self.children_list(current);
            proof {
                assert forall|t: usize| t < n implies #[trigger] self.reached(
                    order,
                    done,
                    child_list@,
                    0,
                    t,
                ) by {
                    assert(self.reached(order, done, Seq::empty(), 0, t));
                }
            }
            let mut j: usize = 0;
            while j < child_list.len()
                invariant
                    j <= child_list.len(),
                    n == self.nodes@.len(),
                    n == count,
                    1 <= done < order.len(),
                    order[done] == current,
                    self.bfs_inv(order, done, child_list@, j as int),
                    self.same_trie(start),
                    self.chained(start, order),
                self.chained(start, order),
                    child_list@.no_duplicates(),
                    forall|u: u32, t: usize|
                        child_list@.contains((u, t)) <==> (
                        start.nodes@[current as int].children@.contains_key(u)
                            && start.nodes@[current as int].children@[u] == t),
                    queue@ == order.skip(done + 1),
                decreases child_list.len() - j,
            {
                let key = child_list[j].0;
                let child = child_list[j].1;
                let ghost before = *self;
                let ghost c = self.paths@[child as int].last();
                let ghost rest = self.paths@[current as int].drop_first();
                let fail = self.nodes[current].fail;
                proof {
                    let edges = self.nodes@[order[done] as int].children@;
                    assert forall|i: int| 0 <= i < child_list@.len() implies edges.contains_key(
                        (#[trigger] child_list@[i]).0,
                    ) && edges[child_list@[i].0] == child_list@[i].1 by {
                        assert(child_list@.contains((child_list@[i].0, child_list@[i].1)));
                        assert(self.nodes@[current as int].children@
                            == start.nodes@[current as int].children@);
                    }
                    self.lemma_child_fresh(order, done, child_list@, j as int);
                    assert(parent_ok(self.nodes@, self.paths@, self.parents@, current as int));
                    lemma_proper_suffix(self.paths@[fail as int], self.paths@[current as int]);
                    assert forall|t: int|
                        0 < t < self.nodes@.len() && self.paths@[t].len()
                            <= self.paths@[fail as int].len() implies #[trigger] self.fail_ok(t) by {
                        self.lemma_shallow_reached(order, done, child_list@, j as int, t as usize);
                    }
                }
                let next_fail = self.advance(fail, key, Ghost(c), Ghost(rest));
                proof {
                    let path = self.paths@[child as int];
                    lemma_proper_suffix(self.paths@[next_fail as int], path);
                    self.lemma_shallow_reached(order, done, child_list@, j as int, next_fail);
                }
                self.link(child, next_fail);
                queue.push_back(child);
                proof {
                    before.lemma_linked(*self, order, done, child_list@, j as int, next_fail);
                    before.lemma_chained_step(*self, start, order, child, next_fail);
                    order = order.push(child);
                }
                j += 1;
            }
            proof {
                assert(self.nodes@[current as int].children@
                    == start.nodes@[current as int].children@);
                self.lemma_next_node(order, done, child_list@);
                done = done + 1;
            }
        }
        let ghost last = *self;
        self.built = true;
        proof {
            assert forall|t: int| 0 <= t < count implies #[trigger] self.full_outputs(t) by {
                last.lemma_all_reached(order, t as usize);
            }
            assert forall|t: int| 0 < t < count implies #[trigger] self.fail_ok(t) by {
                last.lemma_all_reached(order, t as usize);
            }
            assert forall|t: int| 0 < t < count implies (#[trigger] self.node(t)).reported()
                == start.node(t).reported() + self.node(
                self.node(t).fail_link() as int,
            ).reported() by {
                last.lemma_all_reached(order, t as usize);
                assert(last.chained_at(start, order, t as usize));
            }
            assert(last.chained_at(start, order, 0));
            assert forall|t: int| 0 <= t < count implies #[trigger] self.listed(t) by {
                assert(start.listed(t));
                assert(self.node(t).reported() == self.nodes@[t].outputs@);
            }
            self.lemma_is_trie();
            self.lemma_links_resolved();
            self.lemma_lists_outputs();
        }
    }
}

} // verus!
