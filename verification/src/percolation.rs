//! Percolation on a square grid: sites are opened one by one, and the grid
//! percolates when open sites connect its top row to its bottom row.

use crate::union_find::{merged, WeightedQuickUnionUF};
use rand::Rng;
use vstd::prelude::*;

verus! {

/// A vertex of the graph that a grid stands for: a site, by row and column,
/// or one of two virtual vertices above and below the grid.
pub enum Vertex {
    Top,
    Bottom,
    Site(usize, usize),
}

/// The site in row `i` and column `j` is on the grid and open.
pub open spec fn open_at(grid: Seq<Seq<bool>>, i: int, j: int) -> bool {
    &&& 0 <= i < grid.len()
    &&& 0 <= j < grid[i].len()
    &&& grid[i][j]
}

/// The vertex `v` is on a grid of `n` rows and columns.
pub open spec fn valid(n: int, v: Vertex) -> bool {
    match v {
        Vertex::Site(i, j) => i < n && j < n,
        _ => true,
    }
}

/// The vertex takes part in the graph: the virtual vertices always do, a
/// site when it is open.
pub open spec fn present(grid: Seq<Seq<bool>>, v: Vertex) -> bool {
    match v {
        Vertex::Site(i, j) => open_at(grid, i as int, j as int),
        _ => true,
    }
}

/// Two vertices touch: two sites next to each other in a row or a column,
/// the top vertex and a site of the first row, or the bottom vertex and a
/// site of the last row.
pub open spec fn touching(n: int, v: Vertex, w: Vertex) -> bool {
    match (v, w) {
        (Vertex::Top, Vertex::Site(i, j)) => i == 0,
        (Vertex::Site(i, j), Vertex::Top) => i == 0,
        (Vertex::Bottom, Vertex::Site(i, j)) => i == n - 1,
        (Vertex::Site(i, j), Vertex::Bottom) => i == n - 1,
        (Vertex::Site(i, j), Vertex::Site(a, b)) => (i == a && (j == b + 1 || b == j + 1)) || (j
            == b && (i == a + 1 || a == i + 1)),
        _ => false,
    }
}

/// An edge of the graph: two vertices that take part and touch.
pub open spec fn edge(grid: Seq<Seq<bool>>, v: Vertex, w: Vertex) -> bool {
    &&& present(grid, v)
    &&& present(grid, w)
    &&& touching(grid.len() as int, v, w)
}

/// `w` can be reached from `v` along at most `steps` edges.
pub open spec fn reach(grid: Seq<Seq<bool>>, v: Vertex, w: Vertex, steps: nat) -> bool
    decreases steps,
{
    v == w || (steps > 0 && exists|u: Vertex|
        #[trigger] edge(grid, v, u) && reach(grid, u, w, (steps - 1) as nat))
}

/// `w` can be reached from `v` along edges.
pub open spec fn connected(grid: Seq<Seq<bool>>, v: Vertex, w: Vertex) -> bool {
    exists|steps: nat| reach(grid, v, w, steps)
}

/// `w` can be reached from `v` along at most `steps` edges that join sites.
pub open spec fn site_reach(grid: Seq<Seq<bool>>, v: Vertex, w: Vertex, steps: nat) -> bool
    decreases steps,
{
    v == w || (steps > 0 && exists|u: Vertex|
        #[trigger] edge(grid, v, u) && v is Site && u is Site && site_reach(
            grid,
            u,
            w,
            (steps - 1) as nat,
        ))
}

/// An open site of the first row is joined to an open site of the last row
/// by a way through open sites.
pub open spec fn crossing(grid: Seq<Seq<bool>>) -> bool {
    exists|a: usize, r: usize, b: usize, steps: nat|
        open_at(grid, 0, a as int) && r + 1 == grid.len() && open_at(grid, r as int, b as int)
            && #[trigger] site_reach(grid, Vertex::Site(0, a), Vertex::Site(r, b), steps)
}

/// A way through sites is a way.
pub proof fn lemma_site_reach_is_reach(grid: Seq<Seq<bool>>, v: Vertex, w: Vertex, steps: nat)
    requires
        site_reach(grid, v, w, steps),
    ensures
        reach(grid, v, w, steps),
    decreases steps,
{
    if v != w {
        let u = choose|u: Vertex|
            #[trigger] edge(grid, v, u) && v is Site && u is Site && site_reach(
                grid,
                u,
                w,
                (steps - 1) as nat,
            );
        lemma_site_reach_is_reach(grid, u, w, (steps - 1) as nat);
    }
}

/// What can be reached through sites in some steps can be reached so in
/// more.
pub proof fn lemma_site_reach_longer(
    grid: Seq<Seq<bool>>,
    v: Vertex,
    w: Vertex,
    steps: nat,
    more: nat,
)
    requires
        site_reach(grid, v, w, steps),
        steps <= more,
    ensures
        site_reach(grid, v, w, more),
    decreases steps,
{
    if v != w {
        let u = choose|u: Vertex|
            #[trigger] edge(grid, v, u) && v is Site && u is Site && site_reach(
                grid,
                u,
                w,
                (steps - 1) as nat,
            );
        lemma_site_reach_longer(grid, u, w, (steps - 1) as nat, (more - 1) as nat);
        assert(edge(grid, v, u) && v is Site && u is Site && site_reach(
            grid,
            u,
            w,
            (more - 1) as nat,
        ));
    }
}

/// A way through sites goes on by one more edge between sites.
pub proof fn lemma_site_reach_append(
    grid: Seq<Seq<bool>>,
    v: Vertex,
    u: Vertex,
    w: Vertex,
    steps: nat,
)
    requires
        site_reach(grid, v, u, steps),
        edge(grid, u, w),
        u is Site,
        w is Site,
    ensures
        site_reach(grid, v, w, steps + 1),
    decreases steps,
{
    if v == u {
        lemma_site_reach_longer(grid, w, w, 0, steps);
        assert(edge(grid, v, w) && v is Site && w is Site && site_reach(
            grid,
            w,
            w,
            ((steps + 1) - 1) as nat,
        ));
    } else {
        let x = choose|x: Vertex|
            #[trigger] edge(grid, v, x) && v is Site && x is Site && site_reach(
                grid,
                x,
                u,
                (steps - 1) as nat,
            );
        lemma_site_reach_append(grid, x, u, w, (steps - 1) as nat);
        assert(edge(grid, v, x) && v is Site && x is Site && site_reach(
            grid,
            x,
            w,
            ((steps + 1) - 1) as nat,
        ));
    }
}

/// A way from an open site of the first row through sites to a site from
/// which the bottom vertex can be reached holds a crossing.
pub proof fn lemma_find_crossing(
    grid: Seq<Seq<bool>>,
    a: usize,
    v: Vertex,
    gone: nat,
    steps: nat,
)
    requires
        open_at(grid, 0, a as int),
        v is Site,
        site_reach(grid, Vertex::Site(0, a), v, gone),
        reach(grid, v, Vertex::Bottom, steps),
    ensures
        crossing(grid),
    decreases steps,
{
    let u = choose|u: Vertex|
        #[trigger] edge(grid, v, u) && reach(grid, u, Vertex::Bottom, (steps - 1) as nat);
    match u {
        Vertex::Bottom => {
        },
        Vertex::Top => {
            let x = choose|x: Vertex|
                #[trigger] edge(grid, Vertex::Top, x) && reach(
                    grid,
                    x,
                    Vertex::Bottom,
                    (steps - 2) as nat,
                );
            let c = x->Site_1;
            lemma_find_crossing(grid, c, x, 0, (steps - 2) as nat);
        },
        Vertex::Site(i, j) => {
            lemma_site_reach_append(grid, Vertex::Site(0, a), v, u, gone);
            lemma_find_crossing(grid, a, u, gone + 1, (steps - 1) as nat);
        },
    }
}

/// The top vertex is connected to the bottom vertex exactly if the grid has
/// a crossing: a way through open sites from the first row to the last.
pub proof fn lemma_percolation_is_crossing(grid: Seq<Seq<bool>>)
    ensures
        connected(grid, Vertex::Top, Vertex::Bottom) <==> crossing(grid),
{
    if connected(grid, Vertex::Top, Vertex::Bottom) {
        let steps = choose|steps: nat| reach(grid, Vertex::Top, Vertex::Bottom, steps);
        let x = choose|x: Vertex|
            #[trigger] edge(grid, Vertex::Top, x) && reach(
                grid,
                x,
                Vertex::Bottom,
                (steps - 1) as nat,
            );
        let c = x->Site_1;
        lemma_find_crossing(grid, c, x, 0, (steps - 1) as nat);
    }
    if crossing(grid) {
        let (a, r, b, steps) = choose|a: usize, r: usize, b: usize, steps: nat|
            open_at(grid, 0, a as int) && r + 1 == grid.len() && open_at(grid, r as int, b as int)
                && #[trigger] site_reach(grid, Vertex::Site(0, a), Vertex::Site(r, b), steps);
        let first = Vertex::Site(0, a);
        let last = Vertex::Site(r, b);
        lemma_site_reach_is_reach(grid, first, last, steps);
        lemma_reach_append(grid, first, last, Vertex::Bottom, steps);
        assert(edge(grid, Vertex::Top, first) && reach(
            grid,
            first,
            Vertex::Bottom,
            ((steps + 2) - 1) as nat,
        ));
        assert(reach(grid, Vertex::Top, Vertex::Bottom, steps + 2));
    }
}

/// The number that stands for a vertex among the disjoint sets: the sites
/// row by row, then the top vertex, then the bottom vertex.
pub open spec fn vertex_id(n: int, v: Vertex) -> int {
    match v {
        Vertex::Top => n * n,
        Vertex::Bottom => n * n + 1,
        Vertex::Site(i, j) => i * n + j,
    }
}

/// The two vertices are in one set.
pub open spec fn related(roots: Seq<usize>, n: int, v: Vertex, w: Vertex) -> bool {
    roots[vertex_id(n, v)] == roots[vertex_id(n, w)]
}

/// Vertices in one set are connected.
pub open spec fn sound(grid: Seq<Seq<bool>>, roots: Seq<usize>) -> bool {
    forall|v: Vertex, w: Vertex|
        valid(grid.len() as int, v) && valid(grid.len() as int, w) && #[trigger] related(
            roots,
            grid.len() as int,
            v,
            w,
        ) ==> connected(grid, v, w)
}

/// The two ends of every edge are in one set.
pub open spec fn complete(grid: Seq<Seq<bool>>, roots: Seq<usize>) -> bool {
    forall|v: Vertex, w: Vertex| #[trigger]
        edge(grid, v, w) ==> related(roots, grid.len() as int, v, w)
}

/// The grid has `n` rows of `n` sites.
pub open spec fn square(grid: Seq<Seq<bool>>, n: int) -> bool {
    &&& grid.len() == n
    &&& forall|i: int| 0 <= i < n ==> (#[trigger] grid[i]).len() == n
}

/// The grid with the site in row `i` and column `j` open.
pub open spec fn opened(grid: Seq<Seq<bool>>, i: int, j: int) -> Seq<Seq<bool>> {
    grid.update(i, grid[i].update(j, true))
}

/// The number of a vertex on the grid is below the number of vertices.
pub proof fn lemma_vertex_id(n: int, v: Vertex)
    requires
        0 <= n,
        valid(n, v),
    ensures
        0 <= vertex_id(n, v) < n * n + 2,
{
    match v {
        Vertex::Site(i, j) => {
            assert(i * n + j < n * n) by (nonlinear_arith)
                requires
                    0 <= i < n,
                    0 <= j < n,
            ;
            assert(0 <= i * n) by (nonlinear_arith)
                requires
                    0 <= i,
                    0 <= n,
            ;
        },
        _ => {
        },
    }
}

/// The ends of an edge are on the grid.
pub proof fn lemma_edge_valid(grid: Seq<Seq<bool>>, v: Vertex, w: Vertex)
    requires
        square(grid, grid.len() as int),
        edge(grid, v, w),
    ensures
        valid(grid.len() as int, v),
        valid(grid.len() as int, w),
        edge(grid, w, v),
{
}

/// A way goes on by one more edge.
pub proof fn lemma_reach_append(grid: Seq<Seq<bool>>, v: Vertex, u: Vertex, w: Vertex, steps: nat)
    requires
        reach(grid, v, u, steps),
        edge(grid, u, w),
    ensures
        reach(grid, v, w, steps + 1),
    decreases steps,
{
    if v == u {
        assert(edge(grid, v, w) && reach(grid, w, w, ((steps + 1) - 1) as nat)) by {
            lemma_reach_longer(grid, w, w, 0, steps);
        }
    } else {
        let x = choose|x: Vertex|
            #[trigger] edge(grid, v, x) && reach(grid, x, u, (steps - 1) as nat);
        lemma_reach_append(grid, x, u, w, (steps - 1) as nat);
    }
}

/// What can be reached in some steps can be reached in more.
pub proof fn lemma_reach_longer(grid: Seq<Seq<bool>>, v: Vertex, w: Vertex, steps: nat, more: nat)
    requires
        reach(grid, v, w, steps),
        steps <= more,
    ensures
        reach(grid, v, w, more),
    decreases steps,
{
    if v != w {
        let x = choose|x: Vertex|
            #[trigger] edge(grid, v, x) && reach(grid, x, w, (steps - 1) as nat);
        lemma_reach_longer(grid, x, w, (steps - 1) as nat, (more - 1) as nat);
    }
}

/// A way can be gone backwards.
pub proof fn lemma_reach_back(grid: Seq<Seq<bool>>, v: Vertex, w: Vertex, steps: nat)
    requires
        reach(grid, v, w, steps),
    ensures
        reach(grid, w, v, steps),
    decreases steps,
{
    if v != w {
        let x = choose|x: Vertex|
            #[trigger] edge(grid, v, x) && reach(grid, x, w, (steps - 1) as nat);
        lemma_reach_back(grid, x, w, (steps - 1) as nat);
        lemma_reach_append(grid, w, x, v, (steps - 1) as nat);
    }
}

/// Two ways, one after the other, make one way.
pub proof fn lemma_reach_chain(
    grid: Seq<Seq<bool>>,
    v: Vertex,
    u: Vertex,
    w: Vertex,
    first: nat,
    second: nat,
)
    requires
        reach(grid, v, u, first),
        reach(grid, u, w, second),
    ensures
        reach(grid, v, w, first + second),
    decreases first,
{
    if v == u {
        lemma_reach_longer(grid, v, w, second, first + second);
    } else {
        let x = choose|x: Vertex|
            #[trigger] edge(grid, v, x) && reach(grid, x, u, (first - 1) as nat);
        lemma_reach_chain(grid, x, u, w, (first - 1) as nat, second);
    }
}

/// A way stays a way when more sites are open.
pub proof fn lemma_reach_grows(
    grid: Seq<Seq<bool>>,
    larger: Seq<Seq<bool>>,
    v: Vertex,
    w: Vertex,
    steps: nat,
)
    requires
        reach(grid, v, w, steps),
        forall|a: Vertex, b: Vertex| #[trigger] edge(grid, a, b) ==> edge(larger, a, b),
    ensures
        reach(larger, v, w, steps),
    decreases steps,
{
    if v != w {
        let x = choose|x: Vertex|
            #[trigger] edge(grid, v, x) && reach(grid, x, w, (steps - 1) as nat);
        lemma_reach_grows(grid, larger, x, w, (steps - 1) as nat);
    }
}

/// To be connected is symmetric.
pub proof fn lemma_connected_back(grid: Seq<Seq<bool>>, v: Vertex, w: Vertex)
    requires
        connected(grid, v, w),
    ensures
        connected(grid, w, v),
{
    let steps = choose|steps: nat| reach(grid, v, w, steps);
    lemma_reach_back(grid, v, w, steps);
}

/// To be connected is transitive.
pub proof fn lemma_connected_chain(grid: Seq<Seq<bool>>, v: Vertex, u: Vertex, w: Vertex)
    requires
        connected(grid, v, u),
        connected(grid, u, w),
    ensures
        connected(grid, v, w),
{
    let first = choose|steps: nat| reach(grid, v, u, steps);
    let second = choose|steps: nat| reach(grid, u, w, steps);
    lemma_reach_chain(grid, v, u, w, first, second);
}

/// Where the ends of every edge are in one set, connected vertices are in
/// one set.
pub proof fn lemma_reach_related(
    grid: Seq<Seq<bool>>,
    roots: Seq<usize>,
    v: Vertex,
    w: Vertex,
    steps: nat,
)
    requires
        complete(grid, roots),
        reach(grid, v, w, steps),
    ensures
        related(roots, grid.len() as int, v, w),
    decreases steps,
{
    if v != w {
        let x = choose|x: Vertex|
            #[trigger] edge(grid, v, x) && reach(grid, x, w, (steps - 1) as nat);
        lemma_reach_related(grid, roots, x, w, (steps - 1) as nat);
    }
}

/// Joining the sets of two connected vertices keeps the sets sound, keeps
/// together what was together, and brings the two together.
pub proof fn lemma_join(
    grid: Seq<Seq<bool>>,
    before: Seq<usize>,
    after: Seq<usize>,
    a: Vertex,
    b: Vertex,
)
    requires
        square(grid, grid.len() as int),
        before.len() == grid.len() * grid.len() + 2,
        sound(grid, before),
        valid(grid.len() as int, a),
        valid(grid.len() as int, b),
        connected(grid, a, b),
        ({
            let n = grid.len() as int;
            let root_a = before[vertex_id(n, a)];
            let root_b = before[vertex_id(n, b)];
            ||| (root_a == root_b && after == before)
            ||| after == merged(before, root_a, root_b)
            ||| after == merged(before, root_b, root_a)
        }),
    ensures
        sound(grid, after),
        related(after, grid.len() as int, a, b),
        forall|v: Vertex, w: Vertex|
            valid(grid.len() as int, v) && valid(grid.len() as int, w) && #[trigger] related(
                before,
                grid.len() as int,
                v,
                w,
            ) ==> related(after, grid.len() as int, v, w),
{
    let n = grid.len() as int;
    let root_a = before[vertex_id(n, a)];
    lemma_vertex_id(n, a);
    lemma_vertex_id(n, b);
    assert forall|v: Vertex, w: Vertex|
        valid(n, v) && valid(n, w) && #[trigger] related(before, n, v, w) implies related(
        after,
        n,
        v,
        w,
    ) by {
        lemma_vertex_id(n, v);
        lemma_vertex_id(n, w);
    }
    assert forall|v: Vertex, w: Vertex|
        valid(n, v) && valid(n, w) && #[trigger] related(after, n, v, w) implies connected(
        grid,
        v,
        w,
    ) by {
        lemma_vertex_id(n, v);
        lemma_vertex_id(n, w);
        let x = before[vertex_id(n, v)];
        let y = before[vertex_id(n, w)];
        if x == y {
            assert(related(before, n, v, w));
        } else {
            lemma_connected_back(grid, a, b);
            if x == root_a {
                assert(related(before, n, v, a));
                assert(related(before, n, b, w));
                lemma_connected_chain(grid, v, a, b);
                lemma_connected_chain(grid, v, b, w);
            } else {
                assert(related(before, n, v, b));
                assert(related(before, n, a, w));
                lemma_connected_chain(grid, v, b, a);
                lemma_connected_chain(grid, v, a, w);
            }
        }
    }
}

/// What is in one set in `before` is in one set in `after`.
pub open spec fn coarser(n: int, before: Seq<usize>, after: Seq<usize>) -> bool {
    forall|v: Vertex, w: Vertex|
        valid(n, v) && valid(n, w) && #[trigger] related(before, n, v, w) ==> related(
            after,
            n,
            v,
            w,
        )
}

/// Opening a site keeps every edge, and so keeps the sets sound.
pub proof fn lemma_opened(grid: Seq<Seq<bool>>, roots: Seq<usize>, i: int, j: int)
    requires
        square(grid, grid.len() as int),
        0 <= i < grid.len(),
        0 <= j < grid.len(),
        sound(grid, roots),
    ensures
        square(opened(grid, i, j), grid.len() as int),
        sound(opened(grid, i, j), roots),
        open_at(opened(grid, i, j), i, j),
        forall|a: int, b: int| (a != i || b != j) ==> open_at(opened(grid, i, j), a, b) == open_at(grid, a, b),
{
    let larger = opened(grid, i, j);
    assert forall|v: Vertex, w: Vertex|
        valid(larger.len() as int, v) && valid(larger.len() as int, w) && #[trigger] related(
            roots,
            larger.len() as int,
            v,
            w,
        ) implies connected(larger, v, w) by {
        let steps = choose|steps: nat| reach(grid, v, w, steps);
        lemma_reach_grows(grid, larger, v, w, steps);
    }
}

/// After the site in row `i` and column `j` has been opened, an edge that
/// does not end in that site was an edge before.
pub proof fn lemma_edge_touches_new(
    grid: Seq<Seq<bool>>,
    roots: Seq<usize>,
    i: int,
    j: int,
    v: Vertex,
    w: Vertex,
)
    requires
        square(grid, grid.len() as int),
        0 <= i < grid.len(),
        0 <= j < grid.len(),
        complete(grid, roots),
        edge(opened(grid, i, j), v, w),
    ensures
        v != Vertex::Site(i as usize, j as usize) && w != Vertex::Site(i as usize, j as usize)
            ==> related(roots, grid.len() as int, v, w),
{
    let here = Vertex::Site(i as usize, j as usize);
    if v != here && w != here {
        assert(edge(grid, v, w));
    }
}

/// Calls `random_range` of the crate `rand` on the thread's generator, with
/// the range from 0 up to, not including, `n`. The contract claims only that
/// the number drawn lies in that range; an empty range, which makes the call
/// panic, is left out.
#[verifier::external_body]
fn random_below(n: usize) -> (r: usize)
    requires
        n > 0,
    ensures
        r < n,
{
    rand::rng().random_range(0..n)
}

/// A square grid of sites, each open or closed.
pub struct Percolation {
    grid: Vec<Vec<bool>>,
    size: usize,
    uf: WeightedQuickUnionUF,
}

impl View for Percolation {
    type V = Seq<Seq<bool>>;

    /// The rows of the grid: for each site, whether it is open.
    closed spec fn view(&self) -> Seq<Seq<bool>> {
        Seq::new(self.grid@.len(), |i: int| self.grid@[i]@)
    }
}

impl Percolation {
    /// The grid is square, and there is a set for every vertex.
    pub closed spec fn shaped(&self) -> bool {
        let n = self.size as int;
        &&& square(self@, n)
        &&& n * n + 2 <= usize::MAX
        &&& self.uf.wf()
        &&& self.uf.len() == n * n + 2
    }

    /// Two vertices are in one set only if they are connected.
    pub closed spec fn sets_sound(&self) -> bool {
        sound(self@, self.uf@)
    }

    /// The two ends of every edge are in one set.
    pub closed spec fn sets_complete(&self) -> bool {
        complete(self@, self.uf@)
    }

    /// The representation invariant: the grid is square, and two vertices
    /// are in one set exactly if they are connected.
    pub open spec fn wf(&self) -> bool {
        &&& self.shaped()
        &&& self.sets_sound()
        &&& self.sets_complete()
    }

    /// The number of rows, and of columns.
    pub closed spec fn size(&self) -> nat {
        self.size as nat
    }

    /// The grid has as many rows, and as many columns, as its size says.
    pub proof fn lemma_square(&self)
        requires
            self.wf(),
        ensures
            square(self@, self.size() as int),
    {
    }

    /// A grid of `n` rows and `n` columns with every site closed.
    pub fn new(n: usize) -> (perc: Percolation)
        requires
            n * n + 2 <= usize::MAX,
        ensures
            perc.wf(),
            perc.size() == n,
            square(perc@, n as int),
            forall|i: int, j: int| !open_at(perc@, i, j),
    {
        let mut grid: Vec<Vec<bool>> = Vec::new();
        let mut i: usize = 0;
        while i < n
            invariant
                i <= n,
                grid@.len() == i,
                forall|a: int| 0 <= a < i ==> (#[trigger] grid@[a])@.len() == n,
                forall|a: int, b: int| 0 <= a < i && 0 <= b < n ==> !(#[trigger] grid@[a]@[b]),
            decreases n - i,
        {
            let mut row: Vec<bool> = Vec::new();
            let mut j: usize = 0;
            while j < n
                invariant
                    j <= n,
                    row@.len() == j,
                    forall|b: int| 0 <= b < j ==> !(#[trigger] row@[b]),
                decreases n - j,
            {
                row.push(false);
                j += 1;
            }
            grid.push(row);
            i += 1;
        }
        let uf = WeightedQuickUnionUF::new(n * n + 2);
        let perc = Percolation { grid, size: n, uf };
        proof {
            let sites = perc@;
            assert forall|v: Vertex, w: Vertex| !#[trigger] edge(sites, v, w) by {
                if edge(sites, v, w) {
                    match (v, w) {
                        (Vertex::Site(i, j), _) => {
                        },
                        (_, Vertex::Site(i, j)) => {
                        },
                        _ => {},
                    }
                }
            }
            assert forall|v: Vertex, w: Vertex|
                valid(n as int, v) && valid(n as int, w) && #[trigger] related(
                    perc.uf@,
                    n as int,
                    v,
                    w,
                ) implies connected(sites, v, w) by {
                lemma_vertex_id(n as int, v);
                lemma_vertex_id(n as int, w);
                lemma_vertex_id_distinct(n as int, v, w);
                assert(reach(sites, v, w, 0));
            }
        }
        perc
    }

    /// Whether row `i` and column `j` are on the grid.
    pub fn is_valid_index(&self, i: usize, j: usize) -> (on_grid: bool)
        ensures
            on_grid == (i < self.size() && j < self.size()),
    {
        i < self.size && j < self.size
    }

    /// Whether the site in row `i` and column `j` is on the grid and open.
    pub fn is_open(&self, i: usize, j: usize) -> (open: bool)
        requires
            self.shaped(),
        ensures
            open == open_at(self@, i as int, j as int),
    {
        if self.is_valid_index(i, j) {
            proof {
                assert(self@[i as int] == self.grid@[i as int]@);
            }
            self.grid[i][j]
        } else {
            false
        }
    }

    /// Whether an open site is connected to the top of the grid: by a way
    /// through open sites, or, once the grid percolates, through the bottom.
    pub fn is_full(&self, i: usize, j: usize) -> (full: bool)
        requires
            self.wf(),
        ensures
            full == (open_at(self@, i as int, j as int) && connected(
                self@,
                Vertex::Site(i, j),
                Vertex::Top,
            )),
    {
        if !self.is_open(i, j) {
            return false;
        }
        proof {
            self.lemma_sets(Vertex::Site(i, j), Vertex::Top);
            lemma_vertex_id(self.size as int, Vertex::Site(i, j));
            assert(0 <= i * self.size) by (nonlinear_arith)
                requires
                    0 <= i,
                    0 <= self.size,
            ;
        }
        if self.uf.connected(i * self.size + j, self.size * self.size) {
            return true;
        }
        false
    }

    /// Whether the top of the grid is connected to its bottom: whether a
    /// way through open sites leads from the first row to the last.
    pub fn percolates(&self) -> (through: bool)
        requires
            self.wf(),
        ensures
            through == connected(self@, Vertex::Top, Vertex::Bottom),
            through == crossing(self@),
    {
        proof {
            lemma_percolation_is_crossing(self@);
            self.lemma_sets(Vertex::Top, Vertex::Bottom);
        }
        if self.uf.connected(self.size * self.size, self.size * self.size + 1) {
            return true;
        }
        false
    }

    /// Joins the sets of the two ends of an edge.
    fn join(&mut self, p: usize, q: usize, Ghost(a): Ghost<Vertex>, Ghost(b): Ghost<Vertex>)
        requires
            old(self).shaped(),
            old(self).sets_sound(),
            edge(old(self)@, a, b),
            p == vertex_id(old(self).size as int, a),
            q == vertex_id(old(self).size as int, b),
        ensures
            final(self).shaped(),
            final(self).sets_sound(),
            final(self)@ == old(self)@,
            final(self).size == old(self).size,
            related(final(self).uf@, old(self).size as int, a, b),
            coarser(old(self).size as int, old(self).uf@, final(self).uf@),
    {
        let ghost n = self.size as int;
        let ghost before = self.uf@;
        proof {
            lemma_edge_valid(self@, a, b);
            lemma_vertex_id(n, a);
            lemma_vertex_id(n, b);
            self.uf.lemma_view();
            assert(reach(self@, b, b, 0));
            assert(reach(self@, a, b, 1));
        }
        self.uf.union(p, q);
        proof {
            lemma_join(self@, before, self.uf@, a, b);
        }
    }

    /// Opens the site in row `i` and column `j`, if it is on the grid.
    pub fn open(&mut self, i: usize, j: usize)
        requires
            old(self).wf(),
        ensures
            final(self).wf(),
            final(self).size() == old(self).size(),
            square(final(self)@, final(self).size() as int),
            final(self)@ == if i < old(self).size() && j < old(self).size() {
                opened(old(self)@, i as int, j as int)
            } else {
                old(self)@
            },
    {
        if self.is_valid_index(i, j) {
            let ghost before = *self;
            let ghost n = self.size as int;
            let ghost here = Vertex::Site(i, j);
            proof {
                assert(self@[i as int] == self.grid@[i as int]@);
            }
            self.grid[i][j] = true;
            proof {
                assert(self@ =~= opened(before@, i as int, j as int));
                lemma_opened(before@, before.uf@, i as int, j as int);
                lemma_vertex_id(n, here);
                assert(0 <= i * n) by (nonlinear_arith)
                    requires
                        0 <= i,
                        0 <= n,
                ;
            }
            let ghost grid = self@;
            let current = i * self.size + j;
            if i == 0 {
                self.join(current, self.size * self.size, Ghost(here), Ghost(Vertex::Top));
            }
            if i == self.size - 1 {
                self.join(current, self.size * self.size + 1, Ghost(here), Ghost(Vertex::Bottom));
            }
            if i > 0 && self.is_open(i - 1, j) {
                proof {
                    lemma_vertex_id(n, Vertex::Site((i - 1) as usize, j));
                    assert((i - 1) * n + j >= 0) by (nonlinear_arith)
                        requires
                            1 <= i,
                            0 <= n,
                            0 <= j,
                    ;
                }
                self.join(
                    current,
                    (i - 1) * self.size + j,
                    Ghost(here),
                    Ghost(Vertex::Site((i - 1) as usize, j)),
                );
            }
            if i < self.size - 1 && self.is_open(i + 1, j) {
                proof {
                    lemma_vertex_id(n, Vertex::Site((i + 1) as usize, j));
                    assert((i + 1) * n + j >= 0) by (nonlinear_arith)
                        requires
                            0 <= i,
                            0 <= n,
                            0 <= j,
                    ;
                }
                self.join(
                    current,
                    (i + 1) * self.size + j,
                    Ghost(here),
                    Ghost(Vertex::Site((i + 1) as usize, j)),
                );
            }
            if j > 0 && self.is_open(i, j - 1) {
                proof {
                    lemma_vertex_id(n, Vertex::Site(i, (j - 1) as usize));
                }
                self.join(
                    current,
                    i * self.size + j - 1,
                    Ghost(here),
                    Ghost(Vertex::Site(i, (j - 1) as usize)),
                );
            }
            if j < self.size - 1 && self.is_open(i, j + 1) {
                proof {
                    lemma_vertex_id(n, Vertex::Site(i, (j + 1) as usize));
                }
                self.join(
                    current,
                    i * self.size + j + 1,
                    Ghost(here),
                    Ghost(Vertex::Site(i, (j + 1) as usize)),
                );
            }
            proof {
                let last = self.uf@;
                assert forall|v: Vertex, w: Vertex| #[trigger] edge(grid, v, w) implies related(
                    last,
                    n,
                    v,
                    w,
                ) by {
                    lemma_edge_valid(grid, v, w);
                    lemma_edge_touches_new(before@, before.uf@, i as int, j as int, v, w);
                }
            }
        }
    }

    /// Opens the site in row `i` and column `j` if it is on the grid and
    /// closed, and tells whether it did.
    pub fn try_open(&mut self, i: usize, j: usize) -> (done: bool)
        requires
            old(self).wf(),
        ensures
            final(self).wf(),
            final(self).size() == old(self).size(),
            done == (i < old(self).size() && j < old(self).size() && !open_at(
                old(self)@,
                i as int,
                j as int,
            )),
            final(self)@ == if done {
                opened(old(self)@, i as int, j as int)
            } else {
                old(self)@
            },
    {
        if self.is_valid_index(i, j) && !self.is_open(i, j) {
            self.open(i, j);
            true
        } else {
            false
        }
    }

    /// Draws a site of the grid at random, opens it if it is closed, and
    /// tells whether it did.
    pub fn open_random(&mut self) -> (done: bool)
        requires
            old(self).wf(),
            old(self).size() > 0,
        ensures
            final(self).wf(),
            final(self).size() == old(self).size(),
            exists|i: int, j: int|
                0 <= i < old(self).size() && 0 <= j < old(self).size() && done == !#[trigger] open_at(
                    old(self)@,
                    i,
                    j,
                ) && final(self)@ == if done {
                    opened(old(self)@, i, j)
                } else {
                    old(self)@
                },
    {
        let i = random_below(self.size);
        let j = random_below(self.size);
        let done = self.try_open(i, j);
        done
    }

    /// Two vertices on the grid are in one set exactly if they are
    /// connected.
    proof fn lemma_sets(&self, v: Vertex, w: Vertex)
        requires
            self.wf(),
            valid(self.size as int, v),
            valid(self.size as int, w),
        ensures
            related(self.uf@, self.size as int, v, w) <==> connected(self@, v, w),
    {
        if connected(self@, v, w) {
            let steps = choose|steps: nat| reach(self@, v, w, steps);
            lemma_reach_related(self@, self.uf@, v, w, steps);
        }
    }
}

/// Different vertices on the grid have different numbers.
pub proof fn lemma_vertex_id_distinct(n: int, v: Vertex, w: Vertex)
    requires
        0 <= n,
        valid(n, v),
        valid(n, w),
        vertex_id(n, v) == vertex_id(n, w),
    ensures
        v == w,
{
    lemma_vertex_id(n, v);
    lemma_vertex_id(n, w);
    match (v, w) {
        (Vertex::Site(i, j), Vertex::Site(a, b)) => {
            assert(i == a && j == b) by (nonlinear_arith)
                requires
                    0 <= i < n,
                    0 <= j < n,
                    0 <= a < n,
                    0 <= b < n,
                    i * n + j == a * n + b,
            ;
        },
        (Vertex::Site(i, j), _) => {
            assert(i * n + j < n * n) by (nonlinear_arith)
                requires
                    0 <= i < n,
                    0 <= j < n,
            ;
        },
        (_, Vertex::Site(i, j)) => {
            assert(i * n + j < n * n) by (nonlinear_arith)
                requires
                    0 <= i < n,
                    0 <= j < n,
            ;
        },
        _ => {},
    }
}

} // verus!
