//! The pattern trie: one node for every prefix of an inserted pattern.

use crate::text::{lemma_proper_suffix, to_chars};
use std::collections::HashMap;
use vstd::prelude::*;

verus! {

/// One state of the automaton.
pub struct Node {
    /// Outgoing edges, keyed by the code point of the edge's character.
    pub(crate) children: HashMap<u32, usize>,
    /// The state to fall back to when no edge matches.
    pub(crate) fail: usize,
    /// The indices of the patterns recognised on reaching this state.
    pub(crate) outputs: Vec<usize>,
}

impl Node {
    /// The outgoing edges: the target of each, keyed by the code point of
    /// its character.
    pub open(crate) spec fn edges(&self) -> Map<u32, usize> {
        self.children@
    }

    /// The target of the edge labelled `c`, if there is one.
    pub open spec fn child(&self, c: char) -> Option<usize> {
        if self.edges().contains_key(c as u32) {
            Some(self.edges()[c as u32])
        } else {
            None
        }
    }

    /// The failure link.
    pub open(crate) spec fn fail_link(&self) -> usize {
        self.fail
    }

    /// The pattern indices stored at this node.
    pub open(crate) spec fn reported(&self) -> Seq<usize> {
        self.outputs@
    }

    /// A node without edges or outputs, whose failure link is the root.
    pub fn new() -> (node: Node)
        ensures
            node.edges() == Map::<u32, usize>::empty(),
            node.fail_link() == 0,
            node.reported() == Seq::<usize>::empty(),
    {
        Node { children: HashMap::new(), fail: 0, outputs: Vec::new() }
    }
}

/// Characters with the same code point are the same character.
pub proof fn lemma_code_point_injective(a: char, b: char)
    requires
        a as u32 == b as u32,
    ensures
        a == b,
{
}

/// A pattern together with the index under which it was inserted.
pub type Entry = (Seq<char>, usize);

/// The edge `u` of node `t` leads to a later node whose path is that of `t`
/// extended by the character with code point `u`.
pub open(crate) spec fn edge_ok(
    nodes: Seq<Node>,
    paths: Seq<Seq<char>>,
    parents: Seq<usize>,
    t: int,
    u: u32,
) -> bool {
    let ch = nodes[t].children@[u] as int;
    &&& t < ch < nodes.len()
    &&& parents[ch] == t
    &&& paths[ch].len() > 0
    &&& paths[ch].last() as u32 == u
    &&& paths[ch] == paths[t].push(paths[ch].last())
}

/// Node `t` hangs below its parent by the last character of its path.
pub open(crate) spec fn parent_ok(
    nodes: Seq<Node>,
    paths: Seq<Seq<char>>,
    parents: Seq<usize>,
    t: int,
) -> bool {
    let u = paths[t].last() as u32;
    &&& parents[t] < t
    &&& paths[t].len() > 0
    &&& nodes[parents[t] as int].children@.contains_key(u)
    &&& nodes[parents[t] as int].children@[u] == t
}

/// The nodes form a trie: node 0 is the root with the empty path, every edge
/// extends its source's path by one character, every other node is the
/// target of an edge, and no two nodes have the same path.
pub open(crate) spec fn trie_ok(nodes: Seq<Node>, paths: Seq<Seq<char>>, parents: Seq<usize>) -> bool {
    let n = nodes.len();
    &&& n >= 1
    &&& paths.len() == n
    &&& parents.len() == n
    &&& paths[0].len() == 0
    &&& forall|t: int, u: u32|
        0 <= t < n && #[trigger] nodes[t].children@.contains_key(u) ==> edge_ok(
            nodes,
            paths,
            parents,
            t,
            u,
        )
    &&& forall|t: int| 0 < t < n ==> #[trigger] parent_ok(nodes, paths, parents, t)
    &&& forall|s: int, t: int|
        #![trigger paths[s], paths[t]]
        0 <= s < n && 0 <= t < n && paths[s] == paths[t] ==> s == t
}

/// Some entry with index `k` has a pattern that is a suffix of `path`.
pub open spec fn reports(entries: Seq<Entry>, path: Seq<char>, k: usize) -> bool {
    exists|e: int|
        0 <= e < entries.len() && (#[trigger] entries[e]).1 == k && entries[e].0.is_suffix_of(path)
}

/// `path` is a prefix of the pattern of some entry.
pub open spec fn covered(entries: Seq<Entry>, path: Seq<char>) -> bool {
    exists|e: int| 0 <= e < entries.len() && path.is_prefix_of((#[trigger] entries[e]).0)
}

/// The indices of the entries whose pattern is `path`, in the order of
/// their insertion.
pub open spec fn own_indices(entries: Seq<Entry>, path: Seq<char>) -> Seq<usize>
    decreases entries.len(),
{
    if entries.len() == 0 {
        Seq::empty()
    } else {
        let rest = own_indices(entries.drop_last(), path);
        if entries.last().0 == path {
            rest.push(entries.last().1)
        } else {
            rest
        }
    }
}

/// A path that is the pattern of no entry has no index.
pub proof fn lemma_own_indices_none(entries: Seq<Entry>, path: Seq<char>)
    requires
        forall|e: int| 0 <= e < entries.len() ==> (#[trigger] entries[e]).0 != path,
    ensures
        own_indices(entries, path) == Seq::<usize>::empty(),
    decreases entries.len(),
{
    if entries.len() > 0 {
        let rest = entries.drop_last();
        assert forall|e: int| 0 <= e < rest.len() implies (#[trigger] rest[e]).0 != path by {
            assert(rest[e] == entries[e]);
        }
        lemma_own_indices_none(rest, path);
        assert(entries.last() == entries[entries.len() - 1]);
    }
}

/// A new entry adds its index to the indices of its pattern, at the end,
/// and to no others.
pub proof fn lemma_own_indices_push(entries: Seq<Entry>, entry: Entry, path: Seq<char>)
    ensures
        own_indices(entries.push(entry), path) == if entry.0 == path {
            own_indices(entries, path).push(entry.1)
        } else {
            own_indices(entries, path)
        },
{
    assert(entries.push(entry).drop_last() =~= entries);
}

/// The indices of a path are those that some entry holds with that path as
/// its pattern.
pub proof fn lemma_own_indices_contains(entries: Seq<Entry>, path: Seq<char>, k: usize)
    ensures
        own_indices(entries, path).contains(k) <==> entries.contains((path, k)),
    decreases entries.len(),
{
    if entries.len() > 0 {
        let rest = entries.drop_last();
        let own = own_indices(entries, path);
        let before = own_indices(rest, path);
        lemma_own_indices_contains(rest, path, k);
        if entries.contains((path, k)) {
            let e = choose|e: int| 0 <= e < entries.len() && entries[e] == (path, k);
            if e < rest.len() {
                assert(rest[e] == (path, k));
                assert(before.contains(k));
                let i = choose|i: int| 0 <= i < before.len() && before[i] == k;
                assert(own[i] == k);
            } else {
                assert(own[before.len() as int] == k);
            }
        }
        if own.contains(k) {
            let i = choose|i: int| 0 <= i < own.len() && own[i] == k;
            if i < before.len() {
                assert(before[i] == k);
                assert(before.contains(k));
                let e = choose|e: int| 0 <= e < rest.len() && rest[e] == (path, k);
                assert(entries[e] == (path, k));
            } else {
                assert(entries[entries.len() - 1] == (path, k));
            }
        }
    }
}

/// No two entries have the same index.
pub open spec fn distinct_indices(entries: Seq<Entry>) -> bool {
    forall|a: int, b: int|
        0 <= a < entries.len() && 0 <= b < entries.len() && a != b ==> (#[trigger] entries[a]).1
            != (#[trigger] entries[b]).1
}

/// Where no two entries have the same index, no path has an index twice.
pub proof fn lemma_own_indices_distinct(entries: Seq<Entry>, path: Seq<char>)
    requires
        distinct_indices(entries),
    ensures
        own_indices(entries, path).no_duplicates(),
    decreases entries.len(),
{
    if entries.len() > 0 {
        let rest = entries.drop_last();
        let last = entries.last();
        let before = own_indices(rest, path);
        assert forall|a: int, b: int|
            0 <= a < rest.len() && 0 <= b < rest.len() && a != b implies (#[trigger] rest[a]).1
            != (#[trigger] rest[b]).1 by {
            assert(rest[a] == entries[a] && rest[b] == entries[b]);
        }
        lemma_own_indices_distinct(rest, path);
        if last.0 == path {
            lemma_own_indices_contains(rest, path, last.1);
            if rest.contains((path, last.1)) {
                let e = choose|e: int| 0 <= e < rest.len() && rest[e] == (path, last.1);
                assert(entries[e].1 == entries[entries.len() - 1].1);
            }
            assert(!before.contains(last.1));
            assert forall|i: int, j: int|
                0 <= i < before.len() + 1 && 0 <= j < before.len() + 1 && i != j implies before.push(
                last.1,
            )[i] != before.push(last.1)[j] by {
                if i < before.len() {
                    assert(before.contains(before[i]));
                }
                if j < before.len() {
                    assert(before.contains(before[j]));
                }
            }
        }
    }
}

/// Among the node paths that are suffixes of `s`, that of node `f` is the
/// longest.
pub open(crate) spec fn longest_suffix_node(paths: Seq<Seq<char>>, s: Seq<char>, f: int) -> bool {
    &&& 0 <= f < paths.len()
    &&& paths[f].is_suffix_of(s)
    &&& forall|g: int|
        0 <= g < paths.len() && (#[trigger] paths[g]).is_suffix_of(s) ==> paths[g].len()
            <= paths[f].len()
}

/// A multi-pattern matcher in two phases: patterns are inserted into a trie,
/// then failure links are built, after which texts can be scanned.
pub struct ACAutomaton {
    pub(crate) nodes: Vec<Node>,
    pub(crate) built: bool,
    /// The string spelled by the edges from the root to each node.
    pub(crate) paths: Ghost<Seq<Seq<char>>>,
    /// The parent of each node other than the root.
    pub(crate) parents: Ghost<Seq<usize>>,
    /// Every inserted pattern with its index, in insertion order.
    pub(crate) entries: Ghost<Seq<Entry>>,
    /// The node at which each entry's pattern ends.
    pub(crate) terminals: Ghost<Seq<int>>,
}

impl ACAutomaton {
    /// The patterns inserted so far, each with its index, in insertion order.
    pub open(crate) spec fn entries(&self) -> Seq<Entry> {
        self.entries@
    }

    /// Whether the failure links have been built.
    pub open(crate) spec fn built(&self) -> bool {
        self.built
    }

    /// Some pattern was inserted under the index `k`.
    pub open spec fn has_index(&self, k: usize) -> bool {
        exists|e: int| 0 <= e < self.entries().len() && (#[trigger] self.entries()[e]).1 == k
    }

    /// The number of states.
    pub open(crate) spec fn len(&self) -> int {
        self.nodes@.len() as int
    }

    /// The string that leads from the root to state `t`.
    pub open(crate) spec fn path(&self, t: int) -> Seq<char> {
        self.paths@[t]
    }

    /// The state `t`.
    pub open(crate) spec fn node(&self, t: int) -> Node {
        self.nodes@[t]
    }

    /// The pattern of every entry is the path of the node recorded for it.
    pub open(crate) spec fn entries_ok(&self) -> bool {
        &&& self.terminals@.len() == self.entries@.len()
        &&& forall|e: int|
            0 <= e < self.entries@.len() ==> {
                &&& 0 <= #[trigger] self.terminals@[e] < self.nodes@.len()
                &&& self.paths@[self.terminals@[e]] == self.entries@[e].0
            }
    }

    /// Before the build, a node holds the indices of the patterns equal to
    /// its path.
    pub open(crate) spec fn own_outputs(&self, t: int) -> bool {
        forall|k: usize|
            #![trigger self.nodes@[t].outputs@.contains(k)]
            #![trigger self.entries@.contains((self.paths@[t], k))]
            self.nodes@[t].outputs@.contains(k) <==> self.entries@.contains((self.paths@[t], k))
    }

    /// After the build, a node holds the indices of the patterns that are
    /// suffixes of its path.
    pub open(crate) spec fn full_outputs(&self, t: int) -> bool {
        forall|k: usize|
            #![trigger self.nodes@[t].outputs@.contains(k)]
            #![trigger reports(self.entries@, self.paths@[t], k)]
            self.nodes@[t].outputs@.contains(k) <==> reports(self.entries@, self.paths@[t], k)
    }

    /// The failure link of `t` leads to the node of the longest proper suffix
    /// of `t`'s path that is itself a path.
    pub open(crate) spec fn fail_ok(&self, t: int) -> bool {
        longest_suffix_node(self.paths@, self.paths@[t].drop_first(), self.nodes@[t].fail as int)
    }

    /// The node `t` holds the indices of the entries whose pattern is its
    /// path, in the order of their insertion, followed after the build by
    /// the outputs of the node that its failure link leads to.
    pub open(crate) spec fn listed(&self, t: int) -> bool {
        if self.built && t > 0 {
            self.nodes@[t].outputs@ == own_indices(self.entries@, self.paths@[t])
                + self.nodes@[self.nodes@[t].fail as int].outputs@
        } else {
            self.nodes@[t].outputs@ == own_indices(self.entries@, self.paths@[t])
        }
    }

    /// The representation invariant.
    pub open(crate) spec fn wf(&self) -> bool {
        &&& self.consistent()
        &&& forall|t: int|
            0 < t < self.nodes@.len() ==> covered(self.entries@, #[trigger] self.paths@[t])
        &&& forall|t: int| 0 <= t < self.nodes@.len() ==> #[trigger] self.listed(t)
    }

    /// The invariant but for the clause that every path is a prefix of a
    /// pattern, which fails while a pattern is being inserted.
    pub open(crate) spec fn consistent(&self) -> bool {
        &&& trie_ok(self.nodes@, self.paths@, self.parents@)
        &&& self.entries_ok()
        &&& self.nodes@[0].fail == 0
        &&& if self.built {
            &&& forall|t: int| 0 <= t < self.nodes@.len() ==> #[trigger] self.full_outputs(t)
            &&& forall|t: int| 0 < t < self.nodes@.len() ==> #[trigger] self.fail_ok(t)
        } else {
            forall|t: int| 0 <= t < self.nodes@.len() ==> #[trigger] self.own_outputs(t)
        }
    }

    /// The states form a trie: state 0 is the root, with the empty path;
    /// an edge labelled `c` leads to a later state whose path is its source's
    /// path followed by `c`; every state but the root is the target of an
    /// edge; no two states have one path; and the pattern of every entry is
    /// the path of a state, as every path is a prefix of the pattern of an
    /// entry.
    pub open spec fn is_trie(&self) -> bool {
        &&& self.len() >= 1
        &&& self.path(0).len() == 0
        &&& forall|t: int, c: char|
            0 <= t < self.len() && (#[trigger] self.node(t).child(c)) is Some ==> {
                let u = self.node(t).child(c)->0;
                &&& t < u < self.len()
                &&& self.path(u as int) == self.path(t).push(c)
            }
        &&& forall|u: int|
            0 < u < self.len() ==> (#[trigger] self.path(u)).len() > 0 && exists|t: int|
                0 <= t < u && #[trigger] self.node(t).child(self.path(u).last()) == Some(
                    u as usize,
                )
        &&& forall|s: int, t: int|
            #![trigger self.path(s), self.path(t)]
            0 <= s < self.len() && 0 <= t < self.len() && self.path(s) == self.path(t) ==> s == t
        &&& forall|e: int|
            0 <= e < self.entries().len() ==> exists|t: int|
                0 <= t < self.len() && #[trigger] self.path(t) == (#[trigger] self.entries()[e]).0
        &&& forall|t: int| 0 < t < self.len() ==> covered(self.entries(), #[trigger] self.path(t))
    }

    /// Some state has the path `p`.
    pub open spec fn has_path(&self, p: Seq<char>) -> bool {
        exists|t: int| 0 <= t < self.len() && #[trigger] self.path(t) == p
    }

    /// The first `l` characters of `pattern` are the longest prefix of it
    /// that is the path of a state.
    pub open spec fn known_prefix(&self, pattern: Seq<char>, l: int) -> bool {
        &&& 0 <= l <= pattern.len()
        &&& self.has_path(pattern.take(l))
        &&& l < pattern.len() ==> !self.has_path(pattern.take(l + 1))
    }

    /// Every prefix of a path is a path.
    pub proof fn lemma_prefix_is_path(&self, t: int, k: int)
        requires
            self.wf(),
            0 <= t < self.len(),
            0 <= k <= self.path(t).len(),
        ensures
            self.has_path(self.path(t).take(k)),
        decreases self.path(t).len(),
    {
        if k == self.path(t).len() {
            assert(self.path(t).take(k) =~= self.path(t));
        } else {
            assert(parent_ok(self.nodes@, self.paths@, self.parents@, t));
            let p = self.parents@[t] as int;
            let u = self.paths@[t].last() as u32;
            assert(edge_ok(self.nodes@, self.paths@, self.parents@, p, u));
            assert(self.path(p).take(k) =~= self.path(t).take(k));
            self.lemma_prefix_is_path(p, k);
        }
    }

    /// Only one length is that of the longest prefix that is a path.
    pub proof fn lemma_known_prefix_unique(&self, pattern: Seq<char>, l: int, m: int)
        requires
            self.wf(),
            self.known_prefix(pattern, l),
            self.known_prefix(pattern, m),
        ensures
            l == m,
    {
        if l < m {
            let t = choose|t: int| 0 <= t < self.len() && #[trigger] self.path(t) == pattern.take(m);
            self.lemma_prefix_is_path(t, l + 1);
            assert(pattern.take(m).take(l + 1) =~= pattern.take(l + 1));
        }
        if m < l {
            let t = choose|t: int| 0 <= t < self.len() && #[trigger] self.path(t) == pattern.take(l);
            self.lemma_prefix_is_path(t, m + 1);
            assert(pattern.take(l).take(m + 1) =~= pattern.take(m + 1));
        }
    }

    /// Before the build, a state holds the indices of the entries whose
    /// pattern is its path.
    pub open spec fn holds_own_outputs(&self) -> bool {
        forall|t: int, k: usize|
            0 <= t < self.len() ==> (#[trigger] self.node(t).reported().contains(k)
                <==> self.entries().contains((self.path(t), k)))
    }

    /// A state holds the indices of the entries whose pattern is its path,
    /// in the order of their insertion; after the build these are followed,
    /// in every state but the root, by the outputs of the state that the
    /// failure link leads to.
    pub open spec fn lists_outputs(&self) -> bool {
        forall|t: int|
            0 <= t < self.len() ==> (#[trigger] self.node(t)).reported() == if self.built() && t
                > 0 {
                own_indices(self.entries(), self.path(t)) + self.node(
                    self.node(t).fail_link() as int,
                ).reported()
            } else {
                own_indices(self.entries(), self.path(t))
            }
    }

    /// The invariant makes every state list its outputs.
    pub proof fn lemma_lists_outputs(&self)
        requires
            self.wf(),
        ensures
            self.lists_outputs(),
    {
        assert forall|t: int| 0 <= t < self.len() implies (#[trigger] self.node(t)).reported()
            == if self.built() && t > 0 {
            own_indices(self.entries(), self.path(t)) + self.node(
                self.node(t).fail_link() as int,
            ).reported()
        } else {
            own_indices(self.entries(), self.path(t))
        } by {
            assert(self.listed(t));
        }
    }

    /// After the build: the root fails to itself; the failure link of any
    /// other state leads to the state of the longest proper suffix of its
    /// path that is a path of the trie; and a state holds the indices of the
    /// entries whose pattern is a suffix of its path.
    pub open spec fn links_resolved(&self) -> bool {
        &&& self.node(0).fail_link() == 0
        &&& forall|t: int|
            0 < t < self.len() ==> {
                let f = (#[trigger] self.node(t)).fail_link() as int;
                &&& 0 <= f < self.len()
                &&& self.path(f).len() < self.path(t).len()
                &&& self.path(f).is_suffix_of(self.path(t))
            }
        &&& forall|t: int, g: int|
            0 < t < self.len() && 0 <= g < self.len() && self.path(g).len() < self.path(t).len()
                && (#[trigger] self.path(g)).is_suffix_of(#[trigger] self.path(t)) ==> self.path(
                g,
            ).len() <= self.path(self.node(t).fail_link() as int).len()
        &&& forall|t: int, k: usize|
            0 <= t < self.len() ==> (#[trigger] self.node(t).reported().contains(k) <==> reports(
                self.entries(),
                self.path(t),
                k,
            ))
    }

    /// The invariant makes the states a trie.
    pub proof fn lemma_is_trie(&self)
        requires
            self.wf(),
        ensures
            self.is_trie(),
    {
        assert forall|t: int, c: char|
            0 <= t < self.len() && (#[trigger] self.node(t).child(c)) is Some implies {
            let u = self.node(t).child(c)->0;
            &&& t < u < self.len()
            &&& self.path(u as int) == self.path(t).push(c)
        } by {
            let u = self.node(t).child(c)->0 as int;
            lemma_code_point_injective(self.paths@[u].last(), c);
        }
        assert forall|u: int| 0 < u < self.len() implies (#[trigger] self.path(u)).len() > 0
            && exists|t: int|
            0 <= t < u && #[trigger] self.node(t).child(self.path(u).last()) == Some(
                u as usize,
            ) by {
            assert(parent_ok(self.nodes@, self.paths@, self.parents@, u));
            let t = self.parents@[u] as int;
            assert(self.node(t).child(self.path(u).last()) == Some(u as usize));
        }
        assert forall|e: int| 0 <= e < self.entries().len() implies exists|t: int|
            0 <= t < self.len() && #[trigger] self.path(t) == (#[trigger] self.entries()[e]).0 by {
            let t = self.terminals@[e];
            assert(self.path(t) == self.entries()[e].0);
        }
    }

    /// Before the build, the invariant gives every state its own outputs.
    pub proof fn lemma_holds_own_outputs(&self)
        requires
            self.wf(),
            !self.built(),
        ensures
            self.holds_own_outputs(),
    {
        assert forall|t: int, k: usize| 0 <= t < self.len() implies (
        #[trigger] self.node(t).reported().contains(k) <==> self.entries().contains(
            (self.path(t), k),
        )) by {
            assert(self.own_outputs(t));
        }
    }

    /// After the build, the invariant makes the links resolved.
    pub proof fn lemma_links_resolved(&self)
        requires
            self.wf(),
            self.built(),
        ensures
            self.links_resolved(),
    {
        assert forall|t: int| 0 < t < self.len() implies {
            let f = (#[trigger] self.node(t)).fail_link() as int;
            &&& 0 <= f < self.len()
            &&& self.path(f).len() < self.path(t).len()
            &&& self.path(f).is_suffix_of(self.path(t))
        } by {
            let f = self.nodes@[t].fail as int;
            assert(self.fail_ok(t));
            assert(parent_ok(self.nodes@, self.paths@, self.parents@, t));
            lemma_proper_suffix(self.paths@[f], self.paths@[t]);
        }
        assert forall|t: int, g: int|
            0 < t < self.len() && 0 <= g < self.len() && self.path(g).len() < self.path(t).len()
                && (#[trigger] self.path(g)).is_suffix_of(
                #[trigger] self.path(t),
            ) implies self.path(g).len() <= self.path(self.node(t).fail_link() as int).len() by {
            assert(self.fail_ok(t));
            lemma_proper_suffix(self.paths@[g], self.paths@[t]);
        }
        assert forall|t: int, k: usize| 0 <= t < self.len() implies (
        #[trigger] self.node(t).reported().contains(k) <==> reports(
            self.entries(),
            self.path(t),
            k,
        )) by {
            assert(self.full_outputs(t));
        }
    }

    /// An automaton with no patterns: the root alone.
    pub fn new() -> (ac: ACAutomaton)
        ensures
            ac.wf(),
            !ac.built(),
            ac.entries() == Seq::<Entry>::empty(),
            ac.len() == 1,
            ac.node(0).edges() == Map::<u32, usize>::empty(),
            ac.node(0).fail_link() == 0,
            ac.node(0).reported() == Seq::<usize>::empty(),
            ac.is_trie(),
            ac.holds_own_outputs(),
            ac.lists_outputs(),
    {
        let mut nodes: Vec<Node> = Vec::new();
        nodes.push(Node::new());
        let ghost paths = Seq::<Seq<char>>::empty().push(Seq::empty());
        let ghost parents = Seq::<usize>::empty().push(0);
        let ac = ACAutomaton {
            nodes,
            built: false,
            paths: Ghost(paths),
            parents: Ghost(parents),
            entries: Ghost(Seq::empty()),
            terminals: Ghost(Seq::empty()),
        };
        proof {
            assert(ac.listed(0));
            ac.lemma_is_trie();
            ac.lemma_holds_own_outputs();
            ac.lemma_lists_outputs();
        }
        ac
    }

    /// Whether the failure links have been built.
    pub fn is_built(&self) -> (b: bool)
        ensures
            b == self.built(),
    {
        self.built
    }

    /// The target of the edge of `state` whose character has the code point
    /// `key`, if there is one.
    pub(crate) fn child_of(&self, state: usize, key: u32) -> (next: Option<usize>)
        requires
            state < self.nodes@.len(),
        ensures
            next == if self.nodes@[state as int].children@.contains_key(key) {
                Some(self.nodes@[state as int].children@[key])
            } else {
                None
            },
    {
        broadcast use vstd::std_specs::hash::group_hash_axioms;

        match self.nodes[state].children.get(&key) {
            Some(next) => Some(*next),
            None => None,
        }
    }

    /// What holds while `pattern` is being inserted into the automaton that
    /// was `start`: `i` characters have been followed, the first `shared`
    /// of them along edges that were there, and `current` is the node
    /// reached.
    pub open(crate) spec fn inserting(
        &self,
        start: ACAutomaton,
        pattern: Seq<char>,
        i: int,
        shared: int,
        current: int,
    ) -> bool {
        let first = start.nodes@.len() as int;
        &&& start.wf()
        &&& 0 <= i <= pattern.len()
        &&& 0 <= shared <= i
        &&& self.nodes@.len() == first + i - shared
        &&& current < first ==> shared == i
        &&& current >= first ==> {
            &&& current == self.nodes@.len() - 1
            &&& self.nodes@[current].children@ == Map::<u32, usize>::empty()
            &&& start.known_prefix(pattern, shared)
        }
        &&& forall|t: int, u: u32|
            0 <= t < first && #[trigger] start.nodes@[t].children@.contains_key(u)
                ==> self.nodes@[t].children@.contains_key(u) && self.nodes@[t].children@[u]
                == start.nodes@[t].children@[u]
        &&& forall|t: int|
            0 <= t < first ==> (#[trigger] self.nodes@[t]).fail == start.nodes@[t].fail
                && self.nodes@[t].outputs@ == start.nodes@[t].outputs@
        &&& forall|t: int|
            first <= t < self.nodes@.len() ==> (#[trigger] self.nodes@[t]).fail == 0
                && self.nodes@[t].outputs@ == Seq::<usize>::empty()
        &&& self.consistent()
        &&& forall|t: int| 0 <= t < self.nodes@.len() ==> #[trigger] self.listed(t)
        &&& forall|t: int|
            0 < t < self.nodes@.len() ==> covered(self.entries@, #[trigger] self.paths@[t])
                || self.paths@[t].is_prefix_of(pattern)
        &&& !self.built
        &&& self.entries@ == start.entries@
        &&& forall|t: int| 0 <= t < first ==> self.paths@[t] == start.paths@[t]
        &&& 0 <= current < self.nodes@.len()
        &&& self.paths@[current] == pattern.take(i)
    }

    /// Recording the index at the node reached, once the whole pattern has
    /// been followed, completes the insertion.
    pub(crate) proof fn lemma_inserted(
        &self,
        start: ACAutomaton,
        before: ACAutomaton,
        pattern: Seq<char>,
        index: usize,
        shared: int,
        current: int,
    )
        requires
            before.inserting(start, pattern, pattern.len() as int, shared, current),
            self.nodes@.len() == before.nodes@.len(),
            forall|g: int|
                0 <= g < before.nodes@.len() && g != current ==> #[trigger] self.nodes@[g]
                    == before.nodes@[g],
            self.nodes@[current].children@ == before.nodes@[current].children@,
            self.nodes@[current].fail == before.nodes@[current].fail,
            self.nodes@[current].outputs@ == before.nodes@[current].outputs@.push(index),
            self.paths@ == before.paths@,
            self.parents@ == before.parents@,
            self.entries@ == before.entries@.push((pattern, index)),
            self.terminals@ == before.terminals@.push(current),
            !self.built,
        ensures
            self.wf(),
            self.len() >= start.len(),
            forall|l: int|
                start.known_prefix(pattern, l) ==> self.len() == start.len() + pattern.len() - l,
            forall|t: int| 0 <= t < start.len() ==> self.path(t) == start.path(t),
            forall|t: int, u: u32|
                0 <= t < start.len() && #[trigger] start.node(t).edges().contains_key(u)
                    ==> self.node(t).edges().contains_key(u) && self.node(t).edges()[u]
                    == start.node(t).edges()[u],
            forall|t: int|
                0 <= t < self.len() ==> (#[trigger] self.node(t)).fail_link() == (if t
                    < start.len() {
                    start.node(t).fail_link()
                } else {
                    0
                }),
            forall|t: int|
                0 <= t < self.len() ==> (#[trigger] self.node(t)).reported() == {
                    let earlier = if t < start.len() {
                        start.node(t).reported()
                    } else {
                        Seq::empty()
                    };
                    if self.path(t) == pattern {
                        earlier.push(index)
                    } else {
                        earlier
                    }
                },
    {
        let first = start.nodes@.len() as int;
        assert(pattern.take(pattern.len() as int) =~= pattern);
        before.lemma_entry_added(*self, current, index);
        assert forall|t: int| 0 <= t < self.nodes@.len() implies #[trigger] self.listed(t) by {
            assert(before.listed(t));
            lemma_own_indices_push(before.entries@, (pattern, index), self.paths@[t]);
        }
        assert forall|t: int| 0 < t < self.nodes@.len() implies covered(
            self.entries@,
            #[trigger] self.paths@[t],
        ) by {
            let last = before.entries@.len() as int;
            if covered(before.entries@, before.paths@[t]) {
                let e = choose|e: int|
                    0 <= e < before.entries@.len() && before.paths@[t].is_prefix_of(
                        (#[trigger] before.entries@[e]).0,
                    );
                assert(self.entries@[e] == before.entries@[e]);
            } else {
                assert(self.entries@[last].0 == pattern);
            }
        }
        assert(self.wf());
        if current < first {
            assert(start.path(current) == pattern);
        }
        assert(start.known_prefix(pattern, shared));
        assert forall|l: int| start.known_prefix(pattern, l) implies self.len() == start.len()
            + pattern.len() - l by {
            start.lemma_known_prefix_unique(pattern, l, shared);
        }
        assert forall|t: int| 0 <= t < self.len() implies (#[trigger] self.node(t)).fail_link()
            == (if t < start.len() {
            start.node(t).fail_link()
        } else {
            0
        }) by {
            assert(before.nodes@[t].fail == if t < first {
                start.nodes@[t].fail
            } else {
                0
            });
        }
        assert forall|t: int| 0 <= t < self.len() implies (#[trigger] self.node(t)).reported() == {
            let earlier = if t < start.len() {
                start.node(t).reported()
            } else {
                Seq::empty()
            };
            if self.path(t) == pattern {
                earlier.push(index)
            } else {
                earlier
            }
        } by {
            assert(before.nodes@[t].outputs@ == if t < first {
                start.nodes@[t].outputs@
            } else {
                Seq::<usize>::empty()
            });
            if t != current {
                assert(self.paths@[t] != self.paths@[current]);
            }
        }
        assert forall|t: int, u: u32|
            0 <= t < start.len() && #[trigger] start.node(t).edges().contains_key(
                u,
            ) implies self.node(t).edges().contains_key(u) && self.node(t).edges()[u]
            == start.node(t).edges()[u] by {
            assert(before.nodes@[t].children@.contains_key(u));
        }
    }

    /// The number of states.
    pub fn node_count(&self) -> (count: usize)
        ensures
            count == self.len(),
    {
        self.nodes.len()
    }

    /// The state that the failure link of `state` leads to.
    pub fn fail_of(&self, state: usize) -> (target: usize)
        requires
            state < self.len(),
        ensures
            target == self.node(state as int).fail_link(),
    {
        self.nodes[state].fail
    }

    /// The pattern indices that `state` holds, in order.
    pub fn outputs_of(&self, state: usize) -> (outputs: Vec<usize>)
        requires
            state < self.len(),
        ensures
            outputs@ == self.node(state as int).reported(),
    {
        let outputs = self.nodes[state].outputs.clone();
        proof {
            assert(outputs@ =~= self.nodes@[state as int].outputs@);
        }
        outputs
    }

    /// The state whose path is `path`, if there is one: the state reached
    /// from the root along the edges that `path` spells.
    pub fn state_of(&self, path: &str) -> (state: Option<usize>)
        requires
            self.wf(),
        ensures
            match state {
                Some(t) => t < self.len() && self.path(t as int) == path@,
                None => !self.has_path(path@),
            },
    {
        let chars = to_chars(path);
        let mut current: usize = 0;
        let mut i: usize = 0;
        proof {
            assert(self.paths@[0] =~= chars@.take(0));
        }
        while i < chars.len()
            invariant
                i <= chars.len(),
                chars@ == path@,
                self.wf(),
                current < self.nodes@.len(),
                self.paths@[current as int] == chars@.take(i as int),
            decreases chars.len() - i,
        {
            let c = chars[i];
            match self.child_of(current, c as u32) {
                Some(next) => {
                    proof {
                        assert(edge_ok(
                            self.nodes@,
                            self.paths@,
                            self.parents@,
                            current as int,
                            c as u32,
                        ));
                        lemma_code_point_injective(self.paths@[next as int].last(), c);
                        assert(chars@.take(i + 1) =~= chars@.take(i as int).push(c));
                    }
                    current = next;
                },
                None => {
                    proof {
                        self.lemma_fresh_path(current as int, c);
                        assert(chars@.take(i + 1) =~= chars@.take(i as int).push(c));
                        if self.has_path(path@) {
                            let t = choose|t: int|
                                0 <= t < self.len() && #[trigger] self.path(t) == path@;
                            self.lemma_prefix_is_path(t, i + 1);
                            let g = choose|g: int|
                                0 <= g < self.len() && #[trigger] self.path(g) == path@.take(i + 1);
                            assert(self.paths@[g] == self.paths@[current as int].push(c));
                        }
                    }
                    return None;
                },
            }
            i += 1;
        }
        proof {
            assert(chars@.take(chars@.len() as int) =~= path@);
        }
        Some(current)
    }

    /// Adds `pattern` under the index `index`: walks the trie from the root
    /// along the pattern's characters, creating the nodes that are missing,
    /// and records the index at the node reached.
    #[verifier::rlimit(30)]
    pub fn insert(&mut self, pattern: &str, index: usize)
        requires
            old(self).wf(),
            !old(self).built(),
        ensures
            final(self).wf(),
            !final(self).built(),
            final(self).entries() == old(self).entries().push((pattern@, index)),
            final(self).len() >= old(self).len(),
            forall|l: int|
                old(self).known_prefix(pattern@, l) ==> final(self).len() == old(self).len()
                    + pattern@.len() - l,
            forall|t: int| 0 <= t < old(self).len() ==> final(self).path(t) == old(self).path(t),
            forall|t: int, u: u32|
                0 <= t < old(self).len() && #[trigger] old(self).node(t).edges().contains_key(u)
                    ==> final(self).node(t).edges().contains_key(u) && final(self).node(
                    t,
                ).edges()[u] == old(self).node(t).edges()[u],
            forall|t: int|
                0 <= t < final(self).len() ==> (#[trigger] final(self).node(t)).fail_link() == (
                if t < old(self).len() {
                    old(self).node(t).fail_link()
                } else {
                    0
                }),
            forall|t: int|
                0 <= t < final(self).len() ==> (#[trigger] final(self).node(t)).reported() == {
                    let before = if t < old(self).len() {
                        old(self).node(t).reported()
                    } else {
                        Seq::empty()
                    };
                    if final(self).path(t) == pattern@ {
                        before.push(index)
                    } else {
                        before
                    }
                },
            final(self).is_trie(),
            final(self).holds_own_outputs(),
            final(self).lists_outputs(),
    {
        broadcast use vstd::std_specs::hash::group_hash_axioms;

        let ghost start = *self;
        let ghost first = self.nodes@.len() as int;
        let ghost mut shared: int = 0;
        let chars = to_chars(pattern);
        let mut current: usize = 0;
        let mut i: usize = 0;
        proof {
            assert(chars@.take(0) =~= start.path(0));
        }
        while i < chars.len()
            invariant
                i <= chars.len(),
                chars@ == pattern@,
                start == *old(self),
                start.wf(),
                first == start.nodes@.len(),
                0 <= shared <= i,
                self.nodes@.len() == first + i - shared,
                current < first ==> shared == i,
                current >= first ==> {
                    &&& current == self.nodes@.len() - 1
                    &&& self.nodes@[current as int].children@ == Map::<u32, usize>::empty()
                    &&& start.known_prefix(chars@, shared)
                },
                forall|t: int, u: u32|
                    0 <= t < first && #[trigger] start.nodes@[t].children@.contains_key(u)
                        ==> self.nodes@[t].children@.contains_key(u) && self.nodes@[t].children@[u]
                        == start.nodes@[t].children@[u],
                forall|t: int|
                    0 <= t < first ==> (#[trigger] self.nodes@[t]).fail == start.nodes@[t].fail
                        && self.nodes@[t].outputs@ == start.nodes@[t].outputs@,
                forall|t: int|
                    first <= t < self.nodes@.len() ==> (#[trigger] self.nodes@[t]).fail == 0
                        && self.nodes@[t].outputs@ == Seq::<usize>::empty(),
                self.consistent(),
                forall|t: int| 0 <= t < self.nodes@.len() ==> #[trigger] self.listed(t),
                forall|t: int|
                    0 < t < self.nodes@.len() ==> covered(
                        self.entries@,
                        #[trigger] self.paths@[t],
                    ) || self.paths@[t].is_prefix_of(chars@),
                !self.built,
                self.entries@ == old(self).entries@,
                self.nodes@.len() >= old(self).nodes@.len(),
                forall|t: int|
                    0 <= t < old(self).nodes@.len() ==> self.paths@[t] == old(self).paths@[t],
                current < self.nodes@.len(),
                self.paths@[current as int] == chars@.take(i as int),
            decreases chars.len() - i,
        {
            let c = chars[i];
            let key = c as u32;
            let ghost path = self.paths@[current as int].push(c);
            let next = match self.child_of(current, key) {
                Some(next) => next,
                None => {
                    let ghost before = *self;
                    self.nodes.push(Node::new());
                    let new_index = self.nodes.len() - 1;
                    self.nodes[current].children.insert(key, new_index);
                    self.paths = Ghost(self.paths@.push(path));
                    self.parents = Ghost(self.parents@.push(current));
                    proof {
                        before.lemma_fresh_path(current as int, c);
                        before.lemma_child_added(*self, current as int, c, new_index);
                        assert(chars@.take(i + 1) =~= chars@.take(i as int).push(c));
                        assert forall|t: int| 0 <= t < self.nodes@.len() implies #[trigger] self.listed(
                            t,
                        ) by {
                            if t < before.nodes@.len() {
                                assert(before.listed(t));
                            } else {
                                assert forall|e: int| 0 <= e < self.entries@.len() implies (
                                #[trigger] self.entries@[e]).0 != path by {
                                    let g = before.terminals@[e];
                                    assert(before.paths@[g] == before.entries@[e].0);
                                }
                                lemma_own_indices_none(self.entries@, path);
                            }
                        }
                        if current < first {
                            assert(before.paths@ =~= start.paths@);
                            assert(start.path(current as int) == chars@.take(i as int));
                            assert(!start.has_path(chars@.take(i + 1)));
                        }
                    }
                    new_index
                },
            };
            proof {
                lemma_code_point_injective(self.paths@[next as int].last(), c);
                if next < first {
                    shared = shared + 1;
                }
            }
            current = next;
            i += 1;
        }
        let ghost before = *self;
        self.nodes[current].outputs.push(index);
        self.entries = Ghost(self.entries@.push((pattern@, index)));
        self.terminals = Ghost(self.terminals@.push(current as int));
        proof {
            self.lemma_inserted(start, before, pattern@, index, shared, current as int);
            self.lemma_is_trie();
            self.lemma_holds_own_outputs();
            self.lemma_lists_outputs();
        }
    }

    /// No node has the path of `t` extended by `c` unless `t` has an edge
    /// labelled `c`.
    pub(crate) proof fn lemma_fresh_path(&self, t: int, c: char)
        requires
            trie_ok(self.nodes@, self.paths@, self.parents@),
            0 <= t < self.nodes@.len(),
            !self.nodes@[t].children@.contains_key(c as u32),
        ensures
            forall|g: int|
                0 <= g < self.nodes@.len() ==> #[trigger] self.paths@[g] != self.paths@[t].push(c),
    {
        assert forall|g: int| 0 <= g < self.nodes@.len() implies #[trigger] self.paths@[g]
            != self.paths@[t].push(c) by {
            if self.paths@[g] == self.paths@[t].push(c) {
                assert(parent_ok(self.nodes@, self.paths@, self.parents@, g));
                let s = self.parents@[g] as int;
                assert(self.paths@[s] =~= self.paths@[g].drop_last());
                assert(self.paths@[t] =~= self.paths@[t].push(c).drop_last());
            }
        }
    }

    /// Giving `t` a new child for `c`, appended to the node table, keeps the
    /// invariant.
    pub(crate) proof fn lemma_child_added(&self, after: ACAutomaton, t: int, c: char, fresh: usize)
        requires
            fresh == self.nodes@.len(),
            self.consistent(),
            !self.built,
            0 <= t < self.nodes@.len(),
            !self.nodes@[t].children@.contains_key(c as u32),
            forall|g: int|
                0 <= g < self.nodes@.len() ==> #[trigger] self.paths@[g] != self.paths@[t].push(c),
            after.nodes@.len() == self.nodes@.len() + 1,
            forall|g: int|
                0 <= g < self.nodes@.len() && g != t ==> #[trigger] after.nodes@[g]
                    == self.nodes@[g],
            after.nodes@[t].children@ == self.nodes@[t].children@.insert(c as u32, fresh),
            after.nodes@[t].fail == self.nodes@[t].fail,
            after.nodes@[t].outputs@ == self.nodes@[t].outputs@,
            after.nodes@[self.nodes@.len() as int].children@ == Map::<u32, usize>::empty(),
            after.nodes@[self.nodes@.len() as int].outputs@ == Seq::<usize>::empty(),
            after.paths@ == self.paths@.push(self.paths@[t].push(c)),
            after.parents@ == self.parents@.push(t as usize),
            after.entries@ == self.entries@,
            after.terminals@ == self.terminals@,
            !after.built,
        ensures
            after.consistent(),
    {
        let n = self.nodes@.len() as int;
        let path = self.paths@[t].push(c);
        assert forall|g: int| 0 < g < n + 1 implies #[trigger] parent_ok(
            after.nodes@,
            after.paths@,
            after.parents@,
            g,
        ) by {
            if g < n {
                assert(parent_ok(self.nodes@, self.paths@, self.parents@, g));
            }
        }
        assert forall|g: int| 0 <= g < n + 1 implies #[trigger] after.own_outputs(g) by {
            if g < n {
                assert(self.own_outputs(g));
            } else {
                assert forall|k: usize| !after.entries@.contains((after.paths@[g], k)) by {
                    if after.entries@.contains((after.paths@[g], k)) {
                        let e = choose|e: int|
                            0 <= e < self.entries@.len() && self.entries@[e] == (path, k);
                        let s = self.terminals@[e];
                        assert(self.paths@[s] == path);
                    }
                }
            }
        }
    }

    /// Recording `index` at the node whose path is a new entry's pattern
    /// keeps the invariant.
    pub(crate) proof fn lemma_entry_added(&self, after: ACAutomaton, t: int, index: usize)
        requires
            self.consistent(),
            !self.built,
            0 <= t < self.nodes@.len(),
            after.nodes@.len() == self.nodes@.len(),
            forall|g: int|
                0 <= g < self.nodes@.len() && g != t ==> #[trigger] after.nodes@[g]
                    == self.nodes@[g],
            after.nodes@[t].children@ == self.nodes@[t].children@,
            after.nodes@[t].fail == self.nodes@[t].fail,
            after.nodes@[t].outputs@ == self.nodes@[t].outputs@.push(index),
            after.paths@ == self.paths@,
            after.parents@ == self.parents@,
            after.entries@ == self.entries@.push((self.paths@[t], index)),
            after.terminals@ == self.terminals@.push(t),
            !after.built,
        ensures
            after.consistent(),
    {
        let n = self.nodes@.len() as int;
        assert forall|g: int| 0 < g < n implies #[trigger] parent_ok(
            after.nodes@,
            after.paths@,
            after.parents@,
            g,
        ) by {
            assert(parent_ok(self.nodes@, self.paths@, self.parents@, g));
        }
        assert forall|g: int| 0 <= g < n implies #[trigger] after.own_outputs(g) by {
            assert(self.own_outputs(g));
            assert forall|k: usize|
                after.nodes@[g].outputs@.contains(k) <==> after.entries@.contains(
                    (after.paths@[g], k),
                ) by {
                let pair = (self.paths@[g], k);
                let outs = self.nodes@[g].outputs@;
                let grown = after.nodes@[g].outputs@;
                if after.entries@.contains(pair) {
                    let e = choose|e: int| 0 <= e < after.entries@.len() && after.entries@[e] == pair;
                    if e < self.entries@.len() {
                        assert(self.entries@.contains(pair));
                        let j = choose|j: int| 0 <= j < outs.len() && outs[j] == k;
                        assert(grown[j] == k);
                    } else {
                        assert(grown[outs.len() as int] == k);
                    }
                }
                if grown.contains(k) {
                    let j = choose|j: int| 0 <= j < grown.len() && grown[j] == k;
                    if g == t && j == outs.len() {
                        assert(after.entries@[self.entries@.len() as int] == pair);
                    } else {
                        assert(outs.contains(k));
                        let e = choose|e: int|
                            0 <= e < self.entries@.len() && self.entries@[e] == pair;
                        assert(after.entries@[e] == pair);
                    }
                }
            }
        }
    }
}

} // verus!
