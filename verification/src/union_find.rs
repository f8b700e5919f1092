//! Disjoint sets over `0..n`, as a forest with union by size.

use vstd::prelude::*;

verus! {

/// The number of positions below `m` whose value in `roots` is `r`.
pub open spec fn members(roots: Seq<usize>, r: usize, m: int) -> nat
    decreases m,
{
    if m <= 0 {
        0
    } else {
        members(roots, r, m - 1) + if roots[m - 1] == r {
            1nat
        } else {
            0nat
        }
    }
}

/// The number of positions below `m` that `roots` maps to themselves.
pub open spec fn fixed_points(roots: Seq<usize>, m: int) -> nat
    decreases m,
{
    if m <= 0 {
        0
    } else {
        fixed_points(roots, m - 1) + if roots[m - 1] == m - 1 {
            1nat
        } else {
            0nat
        }
    }
}

/// The representatives after the set of `loser` has been merged into the
/// set of `winner`.
pub open spec fn merged(roots: Seq<usize>, winner: usize, loser: usize) -> Seq<usize> {
    Seq::new(
        roots.len(),
        |i: int|
            if roots[i] == loser {
                winner
            } else {
                roots[i]
            },
    )
}

/// Two different values have, together, no more positions than there are.
pub proof fn lemma_members_disjoint(roots: Seq<usize>, a: usize, b: usize, m: int)
    requires
        a != b,
        0 <= m,
    ensures
        members(roots, a, m) + members(roots, b, m) <= m,
    decreases m,
{
    if m > 0 {
        lemma_members_disjoint(roots, a, b, m - 1);
    }
}

/// After a merge the winner has the positions of both, the loser has none,
/// and every other value keeps its positions.
pub proof fn lemma_members_merged(roots: Seq<usize>, winner: usize, loser: usize, r: usize, m: int)
    requires
        winner != loser,
        0 <= m <= roots.len(),
    ensures
        members(merged(roots, winner, loser), r, m) == if r == winner {
            members(roots, winner, m) + members(roots, loser, m)
        } else if r == loser {
            0
        } else {
            members(roots, r, m)
        },
    decreases m,
{
    if m > 0 {
        lemma_members_merged(roots, winner, loser, r, m - 1);
    }
}

/// A merge of the sets of two different fixed points leaves one fixed point
/// fewer.
pub proof fn lemma_fixed_points_merged(roots: Seq<usize>, winner: usize, loser: usize, m: int)
    requires
        winner != loser,
        0 <= m <= roots.len(),
        winner < roots.len(),
        loser < roots.len(),
        roots[winner as int] == winner,
        roots[loser as int] == loser,
        forall|i: int| 0 <= i < roots.len() ==> (#[trigger] roots[i]) < roots.len(),
        forall|i: int| 0 <= i < roots.len() ==> roots[(#[trigger] roots[i]) as int] == roots[i],
    ensures
        fixed_points(merged(roots, winner, loser), m) + (if loser < m {
            1nat
        } else {
            0nat
        }) == fixed_points(roots, m),
    decreases m,
{
    if m > 0 {
        lemma_fixed_points_merged(roots, winner, loser, m - 1);
    }
}

/// Where every position is its own representative, every position is a
/// fixed point and a set of one.
pub proof fn lemma_identity_counts(roots: Seq<usize>, m: int)
    requires
        0 <= m <= roots.len(),
        forall|i: int| 0 <= i < roots.len() ==> #[trigger] roots[i] == i,
    ensures
        fixed_points(roots, m) == m,
        forall|r: usize| r < m ==> #[trigger] members(roots, r, m) == 1,
        forall|r: usize| r >= m ==> #[trigger] members(roots, r, m) == 0,
    decreases m,
{
    if m > 0 {
        lemma_identity_counts(roots, m - 1);
        assert forall|r: usize| r < m implies #[trigger] members(roots, r, m) == 1 by {
            if r < m - 1 {
                assert(members(roots, r, m - 1) == 1);
            } else {
                assert(members(roots, r, m - 1) == 0);
            }
        }
        assert forall|r: usize| r >= m implies #[trigger] members(roots, r, m) == 0 by {
            assert(members(roots, r, m - 1) == 0);
        }
    }
}

/// Every parent link stays inside the forest and leads to a higher rank,
/// and no rank is above `limit`.
pub open spec fn is_forest(parent: Seq<usize>, rank: Seq<nat>, limit: nat) -> bool {
    let n = parent.len();
    &&& rank.len() == n
    &&& forall|i: int| 0 <= i < n ==> (#[trigger] parent[i]) < n
    &&& forall|i: int| 0 <= i < n ==> (#[trigger] rank[i]) <= limit
    &&& forall|i: int| 0 <= i < n && (#[trigger] parent[i]) != i ==> rank[i] < rank[parent[i] as int]
}

/// The root of the tree that holds `i`.
pub open spec fn root_of(parent: Seq<usize>, rank: Seq<nat>, limit: nat, i: int) -> usize
    decreases limit - rank[i],
    when is_forest(parent, rank, limit) && 0 <= i < parent.len()
{
    if parent[i] == i {
        i as usize
    } else {
        root_of(parent, rank, limit, parent[i] as int)
    }
}

/// The root of a tree is an element, is its own parent and its own root, and
/// has the highest rank in the tree.
pub proof fn lemma_root(parent: Seq<usize>, rank: Seq<nat>, limit: nat, i: int)
    requires
        is_forest(parent, rank, limit),
        0 <= i < parent.len(),
    ensures
        root_of(parent, rank, limit, i) < parent.len(),
        parent[root_of(parent, rank, limit, i) as int] == root_of(parent, rank, limit, i),
        root_of(parent, rank, limit, root_of(parent, rank, limit, i) as int) == root_of(
            parent,
            rank,
            limit,
            i,
        ),
        rank[i] <= rank[root_of(parent, rank, limit, i) as int],
    decreases limit - rank[i],
{
    if parent[i] != i {
        lemma_root(parent, rank, limit, parent[i] as int);
    }
}

/// Hanging the root `loser` below the root `winner` gives every element of
/// the loser's tree the root `winner`, and leaves the other roots as they
/// are.
pub proof fn lemma_linked_root(
    parent: Seq<usize>,
    rank: Seq<nat>,
    limit: nat,
    new_rank: Seq<nat>,
    new_limit: nat,
    winner: usize,
    loser: usize,
    i: int,
)
    requires
        is_forest(parent, rank, limit),
        is_forest(parent.update(loser as int, winner), new_rank, new_limit),
        winner != loser,
        winner < parent.len(),
        loser < parent.len(),
        parent[winner as int] == winner,
        parent[loser as int] == loser,
        0 <= i < parent.len(),
    ensures
        root_of(parent.update(loser as int, winner), new_rank, new_limit, i) == if root_of(
            parent,
            rank,
            limit,
            i,
        ) == loser {
            winner
        } else {
            root_of(parent, rank, limit, i)
        },
    decreases limit - rank[i],
{
    let new_parent = parent.update(loser as int, winner);
    if parent[i] == i {
        if i == loser {
            assert(root_of(new_parent, new_rank, new_limit, winner as int) == winner);
        }
    } else {
        lemma_linked_root(parent, rank, limit, new_rank, new_limit, winner, loser, parent[i] as int);
    }
}

/// A partition of `0..n` into disjoint sets, each with a representative.
pub struct WeightedQuickUnionUF {
    parent: Vec<usize>,
    size: Vec<usize>,
    count: usize,
    /// A rank for every element that grows along the parent links.
    rank: Ghost<Seq<nat>>,
    /// A bound on the ranks.
    limit: Ghost<nat>,
}

impl View for WeightedQuickUnionUF {
    type V = Seq<usize>;

    /// The representative of each element's set.
    closed spec fn view(&self) -> Seq<usize> {
        Seq::new(
            self.parent@.len(),
            |i: int| root_of(self.parent@, self.rank@, self.limit@, i),
        )
    }
}

impl WeightedQuickUnionUF {
    /// The representation invariant: the links form a forest, every root
    /// knows the size of its tree, and the number of trees is known.
    pub closed spec fn wf(&self) -> bool {
        let n = self.parent@.len();
        &&& is_forest(self.parent@, self.rank@, self.limit@)
        &&& self.size@.len() == n
        &&& forall|r: int|
            0 <= r < n && (#[trigger] self.parent@[r]) == r ==> self.size@[r] == members(
                self@,
                r as usize,
                n as int,
            )
        &&& self.count == fixed_points(self@, n as int)
    }

    /// The number of elements.
    pub closed spec fn len(&self) -> nat {
        self.parent@.len()
    }

    /// The number of elements in the set whose representative is `r`.
    pub open spec fn set_size(&self, r: usize) -> nat {
        members(self@, r, self.len() as int)
    }

    /// The number of sets.
    pub open spec fn sets(&self) -> nat {
        fixed_points(self@, self.len() as int)
    }

    /// The representatives are elements, and each represents itself.
    pub proof fn lemma_view(&self)
        requires
            self.wf(),
        ensures
            self@.len() == self.len(),
            forall|i: int| 0 <= i < self.len() ==> (#[trigger] self@[i]) < self.len(),
            forall|i: int| 0 <= i < self.len() ==> self@[(#[trigger] self@[i]) as int] == self@[i],
    {
        assert forall|i: int| 0 <= i < self.len() implies (#[trigger] self@[i]) < self.len()
            && self@[self@[i] as int] == self@[i] by {
            lemma_root(self.parent@, self.rank@, self.limit@, i);
        }
    }

    /// `n` sets of one element each.
    pub fn new(n: usize) -> (uf: WeightedQuickUnionUF)
        ensures
            uf.wf(),
            uf.len() == n,
            forall|i: int| 0 <= i < n ==> #[trigger] uf@[i] == i,
            uf.sets() == n,
    {
        let mut parent: Vec<usize> = Vec::with_capacity(n);
        let mut size: Vec<usize> = Vec::with_capacity(n);
        let mut i: usize = 0;
        while i < n
            invariant
                i <= n,
                parent@.len() == i,
                size@.len() == i,
                forall|j: int| 0 <= j < i ==> #[trigger] parent@[j] == j,
                forall|j: int| 0 <= j < i ==> #[trigger] size@[j] == 1,
            decreases n - i,
        {
            parent.push(i);
            size.push(1);
            i += 1;
        }
        let uf = WeightedQuickUnionUF {
            parent,
            size,
            count: n,
            rank: Ghost(Seq::new(n as nat, |i: int| 0nat)),
            limit: Ghost(0nat),
        };
        proof {
            lemma_identity_counts(uf@, n as int);
        }
        uf
    }

    /// The number of sets.
    pub fn count(&self) -> (count: usize)
        requires
            self.wf(),
        ensures
            count == self.sets(),
    {
        self.count
    }

    /// Whether `p` is an element: a number below the number of elements.
    pub fn validate(&self, p: usize) -> (valid: bool)
        requires
            self.wf(),
        ensures
            valid == (p < self.len()),
    {
        let n = self.parent.len();
        p < n
    }

    /// The representative of the set that holds `p`.
    pub fn find(&self, p: usize) -> (root: usize)
        requires
            self.wf(),
            p < self.len(),
        ensures
            root == self@[p as int],
    {
        let mut p = p;
        let ghost start = p;
        while p != self.parent[p]
            invariant
                is_forest(self.parent@, self.rank@, self.limit@),
                p < self.parent@.len(),
                root_of(self.parent@, self.rank@, self.limit@, p as int) == root_of(
                    self.parent@,
                    self.rank@,
                    self.limit@,
                    start as int,
                ),
            decreases self.limit@ - self.rank@[p as int],
        {
            p = self.parent[p];
        }
        p
    }

    /// Whether `p` and `q` are in the same set.
    pub fn connected(&self, p: usize, q: usize) -> (same: bool)
        requires
            self.wf(),
            p < self.len(),
            q < self.len(),
        ensures
            same == (self@[p as int] == self@[q as int]),
    {
        self.find(p) == self.find(q)
    }

    /// The representatives after the sets of `p` and `q` have been joined:
    /// unchanged if the two are in one set already; else the smaller set
    /// takes the representative of the larger, and that of `p` if they are
    /// of one size.
    pub open spec fn joined(&self, p: usize, q: usize) -> Seq<usize> {
        let root_p = self@[p as int];
        let root_q = self@[q as int];
        if root_p == root_q {
            self@
        } else if self.set_size(root_p) < self.set_size(root_q) {
            merged(self@, root_q, root_p)
        } else {
            merged(self@, root_p, root_q)
        }
    }

    /// After the sets of `p` and `q` have been joined, two elements are in
    /// one set exactly if they were before, or one was with `p` and the
    /// other with `q`.
    pub proof fn lemma_joined(&self, p: usize, q: usize, a: usize, b: usize)
        requires
            self.wf(),
            p < self.len(),
            q < self.len(),
            a < self.len(),
            b < self.len(),
        ensures
            self.joined(p, q)[a as int] == self.joined(p, q)[b as int] <==> (self@[a as int]
                == self@[b as int] || (self@[a as int] == self@[p as int] && self@[b as int]
                == self@[q as int]) || (self@[a as int] == self@[q as int] && self@[b as int]
                == self@[p as int])),
    {
        self.lemma_view();
    }

    /// Joins the sets of `p` and `q`.
    pub fn union(&mut self, p: usize, q: usize)
        requires
            old(self).wf(),
            p < old(self).len(),
            q < old(self).len(),
        ensures
            final(self).wf(),
            final(self).len() == old(self).len(),
            final(self)@ == old(self).joined(p, q),
            final(self).sets() == if old(self)@[p as int] == old(self)@[q as int] {
                old(self).sets()
            } else {
                (old(self).sets() - 1) as nat
            },
            old(self)@[p as int] == old(self)@[q as int] ==> *final(self) == *old(self),
    {
        let root_p = self.find(p);
        let root_q = self.find(q);
        if root_p == root_q {
            return ;
        }
        let ghost before = *self;
        let ghost n = self.parent@.len() as int;
        let total = self.parent.len();
        proof {
            self.lemma_view();
            lemma_root(self.parent@, self.rank@, self.limit@, p as int);
            lemma_root(self.parent@, self.rank@, self.limit@, q as int);
            lemma_members_disjoint(self@, root_p, root_q, n);
            assert(self.size@[root_p as int] + self.size@[root_q as int] <= total);
        }
        if self.size[root_p] < self.size[root_q] {
            self.parent[root_p] = root_q;
            self.size[root_q] += self.size[root_p];
            proof {
                lemma_fixed_points_merged(before@, root_q, root_p, n);
            }
            self.count -= 1;
            proof {
                let top = Self::raised(before, root_q, root_p);
                self.rank@ = before.rank@.update(root_q as int, top);
                self.limit@ = if before.limit@ > top {
                    before.limit@
                } else {
                    top
                };
                self.lemma_hung(before, root_q, root_p);
            }
        } else {
            self.parent[root_q] = root_p;
            self.size[root_p] += self.size[root_q];
            proof {
                lemma_fixed_points_merged(before@, root_p, root_q, n);
            }
            self.count -= 1;
            proof {
                let top = Self::raised(before, root_p, root_q);
                self.rank@ = before.rank@.update(root_p as int, top);
                self.limit@ = if before.limit@ > top {
                    before.limit@
                } else {
                    top
                };
                self.lemma_hung(before, root_p, root_q);
            }
        }
    }

    /// The rank of `winner` once `loser` hangs below it.
    spec fn raised(before: WeightedQuickUnionUF, winner: usize, loser: usize) -> nat {
        if before.rank@[winner as int] > before.rank@[loser as int] {
            before.rank@[winner as int]
        } else {
            before.rank@[loser as int] + 1
        }
    }

    /// After the root `loser` has been hung below the root `winner`, and the
    /// sizes, the count and the winner's rank brought up to date, the
    /// invariant holds and the sets are merged.
    proof fn lemma_hung(&self, before: WeightedQuickUnionUF, winner: usize, loser: usize)
        requires
            self.rank@ == before.rank@.update(winner as int, Self::raised(before, winner, loser)),
            self.limit@ == if before.limit@ > Self::raised(before, winner, loser) {
                before.limit@
            } else {
                Self::raised(before, winner, loser)
            },
            before.wf(),
            winner != loser,
            winner < before.parent@.len(),
            loser < before.parent@.len(),
            before.parent@[winner as int] == winner,
            before.parent@[loser as int] == loser,
            self.parent@ == before.parent@.update(loser as int, winner),
            self.size@ == before.size@.update(
                winner as int,
                (before.size@[winner as int] + before.size@[loser as int]) as usize,
            ),
            before.size@[winner as int] + before.size@[loser as int] <= usize::MAX,
            self.count + 1 == before.count,
            fixed_points(merged(before@, winner, loser), before.parent@.len() as int) + 1
                == fixed_points(before@, before.parent@.len() as int),
        ensures
            self.wf(),
            self@ == merged(before@, winner, loser),
    {
        let n = before.parent@.len() as int;
        let new_rank = self.rank@;
        let new_limit = self.limit@;
        let new_parent = self.parent@;
        assert forall|i: int| 0 <= i < n implies root_of(new_parent, new_rank, new_limit, i) == merged(
            before@,
            winner,
            loser,
        )[i] by {
            lemma_linked_root(
                before.parent@,
                before.rank@,
                before.limit@,
                new_rank,
                new_limit,
                winner,
                loser,
                i,
            );
        }
        assert(self@ =~= merged(before@, winner, loser));
        assert forall|r: int| 0 <= r < n && (#[trigger] self.parent@[r]) == r implies self.size@[r]
            == members(self@, r as usize, n) by {
            lemma_members_merged(before@, winner, loser, r as usize, n);
        }
    }
}

} // verus!
