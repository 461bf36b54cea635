//! Pathfinding over a grid: breadth-first search and A*, both looking for a
//! route between two cells through empty (zero-valued) space, both returning
//! the set of points on the discovered route.

use vstd::prelude::*;

use crate::grid::Grid;
use crate::grid::Point;
use crate::grid::adjacent4;
use crate::grid::lemma_flat_injective;
use crate::grid::lemma_flat_in_range;
use crate::grid::lemma_sides_le_max;

verus! {

/// A route from `start` to `end`: consecutive points are 4-connected, and
/// every point after the first lies on an in-bounds empty (zero) cell. The
/// start cell itself is not inspected.
pub open spec fn is_route(g: Grid, start: Point, end: Point, r: Seq<Point>) -> bool {
    &&& r.len() >= 1
    &&& r[0] == start
    &&& r.last() == end
    &&& forall|i: int|
        1 <= i < r.len() ==> adjacent4(r[i - 1], #[trigger] r[i]) && g.in_bounds(r[i]) && g.at(
            r[i],
        ) == 0
}

/// Some route from `start` to `end` exists through empty cells.
pub open spec fn route_exists(g: Grid, start: Point, end: Point) -> bool {
    exists|r: Seq<Point>| is_route(g, start, end, r)
}

/// What a pathfinding call promises. On success the returned points are
/// exactly the points after the start of some route: no duplicates, the
/// start excluded, the end included (unless it equals the start), every
/// point an in-bounds empty cell. On failure no route exists at all.
pub open spec fn path_result_ok(
    g: Grid,
    start: Point,
    end: Point,
    result: Option<Seq<Point>>,
) -> bool {
    match result {
        Some(ps) => {
            &&& ps.no_duplicates()
            &&& !ps.contains(start)
            &&& (end == start ==> ps.len() == 0)
            &&& (end != start ==> ps.contains(end))
            &&& (forall|i: int|
                0 <= i < ps.len() ==> g.in_bounds(#[trigger] ps[i]) && g.at(ps[i]) == 0)
            &&& exists|r: Seq<Point>|
                is_route(g, start, end, r) && r.subrange(1, r.len() as int).to_set() == ps.to_set()
        },
        None => !route_exists(g, start, end),
    }
}

/// The view of an optional point list.
pub open spec fn path_points_view(r: Option<Vec<Point>>) -> Option<Seq<Point>> {
    match r {
        Some(v) => Some(v@),
        None => None,
    }
}

/// A point has been discovered by a search: it is in bounds and its slot in
/// the flat predecessor map is filled.
pub open spec fn discovered(g: Grid, parent: Seq<Option<Point>>, p: Point) -> bool {
    g.in_bounds(p) && parent[g.flat_of(p)] is Some
}

/// Every discovered point other than the start is an empty cell whose
/// recorded predecessor is a discovered 4-neighbor of strictly smaller rank
/// (ranks are per-cell and make the predecessor chains acyclic).
pub open spec fn parent_edges_ok(
    g: Grid,
    start: Point,
    parent: Seq<Option<Point>>,
    rank: Seq<int>,
) -> bool {
    forall|p: Point|
        #[trigger] discovered(g, parent, p) && p != start ==> {
            let q = parent[g.flat_of(p)]->Some_0;
            &&& discovered(g, parent, q)
            &&& adjacent4(q, p)
            &&& g.at(p) == 0
            &&& rank[g.flat_of(q)] < rank[g.flat_of(p)]
        }
}

/// Discovered points have non-negative ranks.
pub open spec fn ranks_nonneg(g: Grid, parent: Seq<Option<Point>>, rank: Seq<int>) -> bool {
    forall|p: Point| #[trigger] discovered(g, parent, p) ==> rank[g.flat_of(p)] >= 0
}

/// Number of filled slots in a predecessor map.
pub open spec fn count_some(s: Seq<Option<Point>>) -> int
    decreases s.len(),
{
    if s.len() == 0 {
        0
    } else {
        count_some(s.drop_last()) + if s.last() is Some {
            1int
        } else {
            0int
        }
    }
}

proof fn lemma_count_some_bounds(s: Seq<Option<Point>>)
    ensures
        0 <= count_some(s) <= s.len(),
    decreases s.len(),
{
    if s.len() > 0 {
        lemma_count_some_bounds(s.drop_last());
    }
}

proof fn lemma_count_some_update(s: Seq<Option<Point>>, j: int, v: Option<Point>)
    requires
        0 <= j < s.len(),
        s[j] is None,
        v is Some,
    ensures
        count_some(s.update(j, v)) == count_some(s) + 1,
    decreases s.len(),
{
    let t = s.update(j, v);
    if j == s.len() - 1 {
        assert(t.drop_last() =~= s.drop_last());
    } else {
        assert(t.drop_last() =~= s.drop_last().update(j, v));
        lemma_count_some_update(s.drop_last(), j, v);
    }
}

/// A sequence and its reverse hold the same points.
proof fn lemma_reverse_to_set(s: Seq<Point>)
    ensures
        s.reverse().to_set() == s.to_set(),
{
    assert forall|x: Point| s.reverse().contains(x) implies s.contains(x) by {
        let i = choose|i: int| 0 <= i < s.reverse().len() && s.reverse()[i] == x;
        assert(s[s.len() - 1 - i] == x);
    }
    assert forall|x: Point| s.contains(x) implies s.reverse().contains(x) by {
        let i = choose|i: int| 0 <= i < s.len() && s[i] == x;
        assert(s.reverse()[s.len() - 1 - i] == x);
    }
    assert(s.reverse().to_set() =~= s.to_set());
}

/// Walk the discovered predecessor chain from `end` back to `start` and
/// collect every point on it except `start` itself.
fn trace_back(g: &Grid, start: Point, end: Point, parent: &Vec<Option<Point>>, Ghost(rank): Ghost<
    Seq<int>,
>) -> (ps: Vec<Point>)
    requires
        g.wf(),
        parent@.len() == g.dim.cell_count(),
        g.in_bounds(start),
        parent@[g.flat_of(start)] == Some(start),
        g.in_bounds(end),
        discovered(*g, parent@, end),
        parent_edges_ok(*g, start, parent@, rank),
        ranks_nonneg(*g, parent@, rank),
    ensures
        ps@.no_duplicates(),
        !ps@.contains(start),
        end == start ==> ps@.len() == 0,
        end != start ==> ps@.contains(end),
        forall|i: int| 0 <= i < ps@.len() ==> g.in_bounds(#[trigger] ps@[i]) && g.at(ps@[i]) == 0,
        exists|r: Seq<Point>|
            is_route(*g, start, end, r) && r.subrange(1, r.len() as int).to_set() == ps@.to_set(),
{
    let mut ps: Vec<Point> = Vec::new();
    let mut pt = end;
    let ghost mut route: Seq<Point> = seq![end];
    while pt != start
        invariant
            g.wf(),
            parent@.len() == g.dim.cell_count(),
            g.in_bounds(start),
            parent@[g.flat_of(start)] == Some(start),
            parent_edges_ok(*g, start, parent@, rank),
            ranks_nonneg(*g, parent@, rank),
            g.in_bounds(pt),
            discovered(*g, parent@, pt),
            route.len() >= 1,
            route[0] == pt,
            route.last() == end,
            forall|i: int|
                1 <= i < route.len() ==> adjacent4(route[i - 1], #[trigger] route[i])
                    && g.in_bounds(route[i]) && g.at(route[i]) == 0,
            forall|i: int| 1 <= i < route.len() ==> #[trigger] route[i] != start,
            ps@ == route.subrange(1, route.len() as int).reverse(),
            ps@.no_duplicates(),
            forall|i: int|
                0 <= i < ps@.len() ==> rank[g.flat_of(#[trigger] ps@[i])] > rank[g.flat_of(pt)],
            forall|i: int| 1 <= i < route.len() ==> discovered(*g, parent@, #[trigger] route[i]),
        decreases rank[g.flat_of(pt)],
    {
        let ghost prev_route = route;
        let ghost prev_pt = pt;
        ps.push(pt);
        let i = g.dim.index_map(pt) as usize;
        let o = parent[i];
        let q = o.unwrap();
        proof {
            assert(discovered(*g, parent@, pt) && pt != start);
            route = seq![q] + route;
            assert(route.subrange(1, route.len() as int) =~= prev_route);
            assert(prev_route.reverse() =~= prev_route.subrange(
                1,
                prev_route.len() as int,
            ).reverse().push(prev_pt));
        }
        pt = q;
    }
    proof {
        assert(is_route(*g, start, end, route));
        if end != start {
            assert(route.len() >= 2);
            let tail = route.subrange(1, route.len() as int);
            assert(tail[tail.len() - 1] == end);
            assert(tail.contains(end));
            assert(tail.reverse()[tail.len() - 1 - (tail.len() - 1)] == end);
        }
        if end == start {
            assert(route.len() == 1) by {
                if route.len() >= 2 {
                    assert(route[route.len() - 1] != start);
                }
            }
            assert(route.subrange(1, route.len() as int).len() == 0);
        }
        assert(!ps@.contains(start)) by {
            if ps@.contains(start) {
                let k = choose|k: int| 0 <= k < ps@.len() && ps@[k] == start;
                let tail = route.subrange(1, route.len() as int);
                assert(tail[tail.len() - 1 - k] == start);
            }
        }
        assert forall|i: int| 0 <= i < ps@.len() implies g.in_bounds(#[trigger] ps@[i]) && g.at(
            ps@[i],
        ) == 0 by {
            let tail = route.subrange(1, route.len() as int);
            assert(tail[tail.len() - 1 - i] == ps@[i]);
        }
        lemma_reverse_to_set(route.subrange(1, route.len() as int));
        assert(is_route(*g, start, end, route) && route.subrange(
            1,
            route.len() as int,
        ).to_set() == ps@.to_set());
    }
    ps
}

/// If the discovered set contains the start and is closed under stepping to
/// empty in-bounds 4-neighbors, every route from the start stays inside it.
proof fn lemma_route_confined(
    g: Grid,
    start: Point,
    parent: Seq<Option<Point>>,
    r: Seq<Point>,
    k: int,
)
    requires
        discovered(g, parent, start),
        forall|p: Point, q: Point|
            #![trigger discovered(g, parent, p), adjacent4(p, q)]
            discovered(g, parent, p) && g.in_bounds(q) && g.at(q) == 0 && adjacent4(p, q)
                ==> discovered(g, parent, q),
        r.len() >= 1,
        r[0] == start,
        forall|i: int|
            1 <= i < r.len() ==> adjacent4(r[i - 1], #[trigger] r[i]) && g.in_bounds(r[i]) && g.at(
                r[i],
            ) == 0,
        0 <= k < r.len(),
    ensures
        discovered(g, parent, r[k]),
    decreases k,
{
    if k > 0 {
        lemma_route_confined(g, start, parent, r, k - 1);
    }
}

/// If the discovered set contains the start, is closed under stepping to
/// empty in-bounds 4-neighbors, and misses `end`, then no route from
/// `start` to `end` exists.
proof fn lemma_closed_means_no_route(g: Grid, start: Point, end: Point, parent: Seq<Option<Point>>)
    requires
        discovered(g, parent, start),
        forall|p: Point, q: Point|
            #![trigger discovered(g, parent, p), adjacent4(p, q)]
            discovered(g, parent, p) && g.in_bounds(q) && g.at(q) == 0 && adjacent4(p, q)
                ==> discovered(g, parent, q),
        !discovered(g, parent, end),
    ensures
        !route_exists(g, start, end),
{
    if route_exists(g, start, end) {
        let r = choose|r: Seq<Point>| is_route(g, start, end, r);
        lemma_route_confined(g, start, parent, r, r.len() - 1);
    }
}

/// The bookkeeping shared by every breadth-first search state: the
/// predecessor map, the per-cell ranks and the queue describe the same
/// discovered set, the queue lists each discovered point exactly once at its
/// rank, and predecessor chains descend through the ranks.
#[verifier::opaque]
spec fn bfs_inv(
    g: Grid,
    start: Point,
    parent: Seq<Option<Point>>,
    rank: Seq<int>,
    queue: Seq<Point>,
) -> bool {
    &&& parent.len() == g.dim.cell_count()
    &&& rank.len() == g.dim.cell_count()
    &&& parent[g.flat_of(start)] == Some(start)
    &&& queue.len() >= 1
    &&& queue[0] == start
    &&& forall|k: int|
        0 <= k < queue.len() ==> g.in_bounds(#[trigger] queue[k]) && discovered(
            g,
            parent,
            queue[k],
        ) && rank[g.flat_of(queue[k])] == k
    &&& forall|p: Point|
        #[trigger] discovered(g, parent, p) ==> 0 <= rank[g.flat_of(p)] < queue.len() && queue[rank[g.flat_of(
            p,
        )]] == p
    &&& parent_edges_ok(g, start, parent, rank)
    &&& count_some(parent) == queue.len()
}

impl Grid {
    /// Breadth-first search for a route of empty cells from `start` to
    /// `end`, exploring 4-connected neighbors in first-in-first-out order; a
    /// neighbor is enqueued only once and only when its own cell is empty.
    /// Returns the points of the discovered route (excluding `start`,
    /// including `end`), or `None` when no route exists.
    #[verifier::rlimit(100)]
    pub fn find_path_of_zeroes(&self, start: Point, end: Point) -> (r: Option<Vec<Point>>)
        requires
            self.wf(),
            self.in_bounds(start),
            self.in_bounds(end),
        ensures
            path_result_ok(*self, start, end, path_points_view(r)),
    {
        let n = self.array.len();
        let mut parent: Vec<Option<Point>> = none_points(n);
        let ghost mut rank: Seq<int> = Seq::new(n as nat, |i: int| 0);
        proof {
            lemma_flat_in_range(self.dim, start.x as int, start.y as int);
        }
        let si = self.dim.index_map(start) as usize;
        let ghost parent_init = parent@;
        parent[si] = Some(start);
        let mut queue: Vec<Point> = Vec::new();
        queue.push(start);
        let mut head: usize = 0;
        proof {
            assert(parent_init =~= Seq::new(n as nat, |i: int| None));
            lemma_count_some_none(n as int);
            lemma_count_some_update(parent_init, si as int, Some(start));
            assert forall|p: Point| #[trigger] discovered(*self, parent@, p) implies 0 <= rank[self.flat_of(
                p,
            )] < queue@.len() && queue@[rank[self.flat_of(p)]] == p by {
                lemma_flat_in_range(self.dim, p.x as int, p.y as int);
                if self.flat_of(p) == si as int {
                    lemma_flat_injective(
                        self.dim,
                        p.x as int,
                        p.y as int,
                        start.x as int,
                        start.y as int,
                    );
                } else {
                    assert(parent@[self.flat_of(p)] is None);
                }
            }
            assert(bfs_inv(*self, start, parent@, rank, queue@)) by {
                reveal(bfs_inv);
            }
        }
        while head < queue.len()
            invariant
                self.wf(),
                self.in_bounds(start),
                self.in_bounds(end),
                n == self.dim.cell_count(),
                bfs_inv(*self, start, parent@, rank, queue@),
                parent@.len() == n,
                head <= queue@.len(),
                queue@.len() <= n,
                forall|k: int, q: Point|
                    #![trigger adjacent4(queue@[k], q)]
                    0 <= k < head && self.in_bounds(q) && self.at(q) == 0 && adjacent4(
                        queue@[k],
                        q,
                    ) ==> discovered(*self, parent@, q),
                forall|k: int| 0 <= k < head ==> #[trigger] queue@[k] != end,
            decreases 2 * n - queue@.len() - head,
        {
            let p = queue[head];
            proof {
                assert(self.in_bounds(p) && discovered(*self, parent@, p)) by {
                    reveal(bfs_inv);
                }
            }
            if p == end {
                proof {
                    assert(parent@[self.flat_of(start)] == Some(start) && parent_edges_ok(
                        *self,
                        start,
                        parent@,
                        rank,
                    ) && ranks_nonneg(*self, parent@, rank)) by {
                        reveal(bfs_inv);
                    }
                }
                let ps = trace_back(self, start, end, &parent, Ghost(rank));
                return Some(ps);
            }
            proof {
                lemma_sides_le_max(self.dim);
            }
            let ns = Self::neighbors_of_limited(p);
            let vns = self.valid_neighbors_of(&ns);
            proof {
                assert forall|t: int|
                    0 <= t < vns@.len() implies self.dim.in_bounds(#[trigger] vns@[t]) && adjacent4(
                    p,
                    vns@[t],
                ) by {
                    assert(vns@.contains(vns@[t]));
                    let k = choose|k: int| 0 <= k < ns@.len() && ns@[k] == vns@[t];
                }
            }
            let ghost len_at_expand = queue@.len();
            let mut j: usize = 0;
            while j < vns.len()
                invariant
                    len_at_expand <= queue@.len(),
                    self.wf(),
                    self.in_bounds(start),
                    self.in_bounds(end),
                    n == self.dim.cell_count(),
                    bfs_inv(*self, start, parent@, rank, queue@),
                    parent@.len() == n,
                    head < queue@.len(),
                    queue@[head as int] == p,
                    p != end,
                    queue@.len() <= n,
                    j <= vns@.len(),
                    forall|t: int|
                        0 <= t < vns@.len() ==> self.dim.in_bounds(#[trigger] vns@[t]) && adjacent4(
                            p,
                            vns@[t],
                        ),
                    forall|k: int, q: Point|
                        #![trigger adjacent4(queue@[k], q)]
                        0 <= k < head && self.in_bounds(q) && self.at(q) == 0 && adjacent4(
                            queue@[k],
                            q,
                        ) ==> discovered(*self, parent@, q),
                    forall|k: int| 0 <= k < head ==> #[trigger] queue@[k] != end,
                    forall|t: int|
                        0 <= t < j && self.at(#[trigger] vns@[t]) == 0 ==> discovered(
                            *self,
                            parent@,
                            vns@[t],
                        ),
                decreases vns@.len() - j,
            {
                let q = vns[j];
                proof {
                    lemma_flat_in_range(self.dim, q.x as int, q.y as int);
                }
                let qi = self.dim.index_map(q) as usize;
                let qv = self.array[qi];
                let o = parent[qi];
                if qv == 0 && o.is_none() {
                    let ghost parent0 = parent@;
                    let ghost rank0 = rank;
                    let ghost queue0 = queue@;
                    let ghost fq = self.flat_of(q);
                    parent[qi] = Some(p);
                    proof {
                        rank = rank.update(fq, queue0.len() as int);
                    }
                    queue.push(q);
                    proof {
                        lemma_bfs_after_discovery(
                            *self,
                            start,
                            parent0,
                            rank0,
                            queue0,
                            parent@,
                            rank,
                            queue@,
                            p,
                            q,
                            head as int,
                        );
                    }
                }
                j = j + 1;
            }
            proof {
                assert forall|q: Point|
                    self.in_bounds(q) && self.at(q) == 0 && adjacent4(p, q) implies discovered(
                    *self,
                    parent@,
                    q,
                ) by {
                    lemma_four_neighbors(p, q, ns@[0], ns@[1], ns@[2], ns@[3]);
                    assert(ns@.contains(q));
                    assert(vns@.contains(q));
                    let t = choose|t: int| 0 <= t < vns@.len() && vns@[t] == q;
                    assert(self.at(vns@[t]) == 0);
                }
            }
            head = head + 1;
        }
        proof {
            assert(!discovered(*self, parent@, end)) by {
                reveal(bfs_inv);
                if discovered(*self, parent@, end) {
                    let k = rank[self.flat_of(end)];
                    assert(queue@[k] == end && 0 <= k < head);
                }
            }
            assert forall|pp: Point, qq: Point|
                #![trigger discovered(*self, parent@, pp), adjacent4(pp, qq)]
                discovered(*self, parent@, pp) && self.in_bounds(qq) && self.at(qq) == 0
                    && adjacent4(pp, qq) implies discovered(*self, parent@, qq) by {
                reveal(bfs_inv);
                let k = rank[self.flat_of(pp)];
                assert(queue@[k] == pp && 0 <= k < head);
            }
            assert(discovered(*self, parent@, start)) by {
                reveal(bfs_inv);
            }
            lemma_closed_means_no_route(*self, start, end, parent@);
        }
        None
    }
}

/// A point 4-adjacent to `p` is one of the four given axis neighbors of
/// `p`.
proof fn lemma_four_neighbors(p: Point, q: Point, n0: Point, n1: Point, n2: Point, n3: Point)
    requires
        adjacent4(p, q),
        n0.x == p.x && n0.y == p.y - 1,
        n1.x == p.x - 1 && n1.y == p.y,
        n2.x == p.x + 1 && n2.y == p.y,
        n3.x == p.x && n3.y == p.y + 1,
    ensures
        q == n0 || q == n1 || q == n2 || q == n3,
{
    if q.x == p.x && q.y == p.y - 1 {
        assert(q == n0);
    } else if q.x == p.x - 1 && q.y == p.y {
        assert(q == n1);
    } else if q.x == p.x + 1 && q.y == p.y {
        assert(q == n2);
    } else {
        assert(q.x == p.x && q.y == p.y + 1);
        assert(q == n3);
    }
}

proof fn lemma_count_some_none(n: int)
    requires
        n >= 0,
    ensures
        count_some(Seq::new(n as nat, |i: int| None)) == 0,
    decreases n,
{
    if n > 0 {
        lemma_count_some_none(n - 1);
        assert(Seq::new(n as nat, |i: int| None::<Point>).drop_last() =~= Seq::new(
            (n - 1) as nat,
            |i: int| None,
        ));
    }
}

/// Discovering one new empty in-bounds neighbor of the point under
/// expansion preserves the breadth-first bookkeeping.
#[verifier::rlimit(60)]
proof fn lemma_bfs_after_discovery(
    g: Grid,
    start: Point,
    parent0: Seq<Option<Point>>,
    rank0: Seq<int>,
    queue0: Seq<Point>,
    parent1: Seq<Option<Point>>,
    rank1: Seq<int>,
    queue1: Seq<Point>,
    p: Point,
    q: Point,
    head: int,
)
    requires
        g.wf(),
        bfs_inv(g, start, parent0, rank0, queue0),
        0 <= head < queue0.len(),
        queue0[head] == p,
        g.in_bounds(q),
        g.at(q) == 0,
        adjacent4(p, q),
        parent0[g.flat_of(q)] is None,
        parent1 == parent0.update(g.flat_of(q), Some(p)),
        rank1 == rank0.update(g.flat_of(q), queue0.len() as int),
        queue1 == queue0.push(q),
    ensures
        bfs_inv(g, start, parent1, rank1, queue1),
        forall|z: Point| discovered(g, parent0, z) ==> discovered(g, parent1, z),
        queue1.len() <= parent1.len(),
{
    reveal(bfs_inv);
    lemma_count_some_bounds(parent0.update(g.flat_of(q), Some(p)));
    let fq = g.flat_of(q);
    lemma_flat_in_range(g.dim, q.x as int, q.y as int);
    lemma_flat_in_range(g.dim, start.x as int, start.y as int);
    assert(g.flat_of(start) != fq);
    assert forall|z: Point| discovered(g, parent0, z) implies discovered(g, parent1, z) by {
        lemma_flat_in_range(g.dim, z.x as int, z.y as int);
        assert(g.flat_of(z) != fq);
    }
    assert(q != start);
    lemma_count_some_update(parent0, fq, Some(p));
    assert forall|k: int| 0 <= k < queue1.len() implies g.in_bounds(#[trigger] queue1[k])
        && discovered(g, parent1, queue1[k]) && rank1[g.flat_of(queue1[k])] == k by {
        if k < queue0.len() {
            assert(queue1[k] == queue0[k]);
            assert(discovered(g, parent0, queue0[k]));
            lemma_flat_in_range(g.dim, queue0[k].x as int, queue0[k].y as int);
            assert(g.flat_of(queue0[k]) != fq);
        } else {
            assert(queue1[k] == q);
        }
    }
    assert forall|z: Point| #[trigger] discovered(g, parent1, z) implies 0 <= rank1[g.flat_of(z)]
        < queue1.len() && queue1[rank1[g.flat_of(z)]] == z by {
        lemma_flat_in_range(g.dim, z.x as int, z.y as int);
        if g.flat_of(z) == fq {
            lemma_flat_injective(g.dim, z.x as int, z.y as int, q.x as int, q.y as int);
            assert(z == q);
        } else {
            assert(discovered(g, parent0, z));
        }
    }
    assert forall|z: Point| #[trigger] discovered(g, parent1, z) && z != start implies {
        let w = parent1[g.flat_of(z)]->Some_0;
        &&& discovered(g, parent1, w)
        &&& adjacent4(w, z)
        &&& g.at(z) == 0
        &&& rank1[g.flat_of(w)] < rank1[g.flat_of(z)]
    } by {
        lemma_flat_in_range(g.dim, z.x as int, z.y as int);
        if g.flat_of(z) == fq {
            lemma_flat_injective(g.dim, z.x as int, z.y as int, q.x as int, q.y as int);
            assert(z == q);
            assert(parent1[fq] == Some(p));
            assert(discovered(g, parent0, p));
            lemma_flat_in_range(g.dim, p.x as int, p.y as int);
            assert(g.flat_of(p) != fq);
            assert(rank1[g.flat_of(p)] == head);
        } else {
            assert(discovered(g, parent0, z));
            let w = parent0[g.flat_of(z)]->Some_0;
            assert(discovered(g, parent0, w));
            lemma_flat_in_range(g.dim, w.x as int, w.y as int);
            assert(g.flat_of(w) != fq);
        }
    }
}

/// The ranks induced by a table of path costs.
spec fn gs_ints(s: Seq<i128>) -> Seq<int> {
    Seq::new(s.len(), |i: int| s[i] as int)
}

/// Number of filled slots is unchanged by overwriting a filled slot.
proof fn lemma_count_some_update_keep(s: Seq<Option<Point>>, j: int, v: Option<Point>)
    requires
        0 <= j < s.len(),
        s[j] is Some,
        v is Some,
    ensures
        count_some(s.update(j, v)) == count_some(s),
    decreases s.len(),
{
    let t = s.update(j, v);
    if j == s.len() - 1 {
        assert(t.drop_last() =~= s.drop_last());
    } else {
        assert(t.drop_last() =~= s.drop_last().update(j, v));
        lemma_count_some_update_keep(s.drop_last(), j, v);
    }
}

/// Sum of the cost table with every entry capped: the termination measure of
/// the A* loop.
spec fn capped_sum(s: Seq<i128>, cap: int) -> int
    decreases s.len(),
{
    if s.len() == 0 {
        0
    } else {
        capped_sum(s.drop_last(), cap) + vstd::math::min(s.last() as int, cap)
    }
}

proof fn lemma_capped_sum_nonneg(s: Seq<i128>, cap: int)
    requires
        cap >= 0,
        forall|i: int| 0 <= i < s.len() ==> #[trigger] s[i] >= 0,
    ensures
        capped_sum(s, cap) >= 0,
    decreases s.len(),
{
    if s.len() > 0 {
        lemma_capped_sum_nonneg(s.drop_last(), cap);
    }
}

/// Lowering one entry below its cap strictly lowers the capped sum.
proof fn lemma_capped_sum_update(s: Seq<i128>, j: int, v: i128, cap: int)
    requires
        0 <= j < s.len(),
        0 <= v,
        (v as int) < cap,
        v < s[j],
    ensures
        capped_sum(s.update(j, v), cap) < capped_sum(s, cap),
    decreases s.len(),
{
    let t = s.update(j, v);
    if j == s.len() - 1 {
        assert(t.drop_last() =~= s.drop_last());
    } else {
        assert(t.drop_last() =~= s.drop_last().update(j, v));
        lemma_capped_sum_update(s.drop_last(), j, v, cap);
    }
}

/// Cityblock distances between in-bounds points fit the machine integers.
proof fn lemma_cityblock_fits(dim: crate::grid::GridDim, a: Point, b: Point)
    requires
        dim.wf(),
        dim.in_bounds(a),
        dim.in_bounds(b),
    ensures
        vstd::math::abs(a.x - b.x) + vstd::math::abs(a.y - b.y) <= isize::MAX,
{
    assert(dim.width + dim.height - 2 <= dim.width * dim.height - 1) by (nonlinear_arith)
        requires
            0 < dim.width,
            0 < dim.height,
    ;
}

/// The cost bookkeeping of an A* state: the predecessor map and the cost
/// table describe the same discovered set, costs are non-negative and
/// bounded by the number of discoveries, and predecessor chains descend
/// through the costs.
#[verifier::opaque]
spec fn costs_ok(g: Grid, start: Point, parent: Seq<Option<Point>>, gs: Seq<i128>) -> bool {
    &&& parent.len() == g.dim.cell_count()
    &&& gs.len() == g.dim.cell_count()
    &&& parent[g.flat_of(start)] == Some(start)
    &&& gs[g.flat_of(start)] == 0
    &&& forall|i: int| 0 <= i < gs.len() ==> #[trigger] gs[i] >= 0
    &&& forall|p: Point|
        #[trigger] discovered(g, parent, p) ==> gs[g.flat_of(p)] + 1 <= count_some(parent)
            && gs[g.flat_of(p)] < i128::MAX
    &&& forall|p: Point|
        g.in_bounds(p) && !(#[trigger] discovered(g, parent, p)) ==> gs[g.flat_of(p)]
            == i128::MAX
    &&& count_some(parent) <= parent.len()
    &&& parent_edges_ok(g, start, parent, gs_ints(gs))
}

/// The frontier bookkeeping of an A* state: the frontier lists discovered
/// in-bounds points without duplicates, and the membership flags match the
/// list exactly.
#[verifier::opaque]
spec fn frontier_ok(
    g: Grid,
    parent: Seq<Option<Point>>,
    frontier: Seq<Point>,
    in_frontier: Seq<bool>,
) -> bool {
    &&& in_frontier.len() == g.dim.cell_count()
    &&& frontier.no_duplicates()
    &&& forall|k: int|
        0 <= k < frontier.len() ==> g.in_bounds(#[trigger] frontier[k]) && discovered(
            g,
            parent,
            frontier[k],
        ) && in_frontier[g.flat_of(frontier[k])]
    &&& forall|p: Point|
        g.in_bounds(p) && #[trigger] in_frontier[g.flat_of(p)] ==> frontier.contains(p)
}

/// Removing the selected point from the frontier and clearing its flag
/// preserves the frontier bookkeeping.
#[verifier::rlimit(60)]
proof fn lemma_astar_after_remove(
    g: Grid,
    parent: Seq<Option<Point>>,
    fr0: Seq<Point>,
    inf0: Seq<bool>,
    fr1: Seq<Point>,
    inf1: Seq<bool>,
    best: int,
)
    requires
        g.wf(),
        frontier_ok(g, parent, fr0, inf0),
        0 <= best < fr0.len(),
        fr1 == fr0.remove(best),
        inf1 == inf0.update(g.flat_of(fr0[best]), false),
    ensures
        frontier_ok(g, parent, fr1, inf1),
        !fr1.contains(fr0[best]),
        !inf1[g.flat_of(fr0[best])],
        forall|x: Point| fr1.contains(x) ==> fr0.contains(x),
        forall|x: Point| fr0.contains(x) && x != fr0[best] ==> fr1.contains(x),
{
    reveal(frontier_ok);
    let cur = fr0[best];
    let fc = g.flat_of(cur);
    lemma_flat_in_range(g.dim, cur.x as int, cur.y as int);
    assert forall|x: Point| fr1.contains(x) implies fr0.contains(x) && x != cur by {
        let k = choose|k: int| 0 <= k < fr1.len() && fr1[k] == x;
        if k < best {
            assert(fr0[k] == x);
        } else {
            assert(fr0[k + 1] == x);
        }
    }
    assert forall|x: Point| fr0.contains(x) && x != cur implies fr1.contains(x) by {
        let k = choose|k: int| 0 <= k < fr0.len() && fr0[k] == x;
        if k < best {
            assert(fr1[k] == x);
        } else {
            assert(k != best);
            assert(fr1[k - 1] == x);
        }
    }
    assert(fr1.no_duplicates()) by {
        assert forall|i: int, j: int| 0 <= i < j < fr1.len() implies fr1[i] != fr1[j] by {
            if i < best && j < best {
                assert(fr1[i] == fr0[i] && fr1[j] == fr0[j]);
            } else if i < best {
                assert(fr1[i] == fr0[i] && fr1[j] == fr0[j + 1]);
            } else {
                assert(fr1[i] == fr0[i + 1] && fr1[j] == fr0[j + 1]);
            }
        }
    }
    assert forall|k: int| 0 <= k < fr1.len() implies g.in_bounds(#[trigger] fr1[k]) && discovered(
        g,
        parent,
        fr1[k],
    ) && inf1[g.flat_of(fr1[k])] by {
        let x = fr1[k];
        if k < best {
            assert(fr0[k] == x);
        } else {
            assert(fr0[k + 1] == x);
        }
        assert(fr0.contains(x) && x != cur);
        lemma_flat_in_range(g.dim, x.x as int, x.y as int);
        if g.flat_of(x) == fc {
            lemma_flat_injective(g.dim, x.x as int, x.y as int, cur.x as int, cur.y as int);
        }
    }
    assert forall|p: Point|
        g.in_bounds(p) && #[trigger] inf1[g.flat_of(p)] implies fr1.contains(p) by {
        lemma_flat_in_range(g.dim, p.x as int, p.y as int);
        assert(g.flat_of(p) != fc);
        assert(inf0[g.flat_of(p)]);
        assert(fr0.contains(p));
        assert(p != cur);
    }
}

/// The common hypotheses of one A* cost update: the expanded point is
/// discovered, the improved neighbor is an adjacent empty in-bounds cell,
/// and the new cost strictly beats the recorded one.
spec fn cost_update_ok(
    g: Grid,
    start: Point,
    parent0: Seq<Option<Point>>,
    gs0: Seq<i128>,
    parent1: Seq<Option<Point>>,
    gs1: Seq<i128>,
    current: Point,
    q: Point,
    tentative: i128,
) -> bool {
    &&& g.wf()
    &&& g.in_bounds(start)
    &&& costs_ok(g, start, parent0, gs0)
    &&& discovered(g, parent0, current)
    &&& g.in_bounds(q)
    &&& g.at(q) == 0
    &&& adjacent4(current, q)
    &&& tentative == gs0[g.flat_of(current)] + 1
    &&& tentative < gs0[g.flat_of(q)]
    &&& parent1 == parent0.update(g.flat_of(q), Some(current))
    &&& gs1 == gs0.update(g.flat_of(q), tentative)
}

/// After a cost update the discovered set has only grown, the counts still
/// bound the costs, and undiscovered cells still carry the sentinel cost.
#[verifier::rlimit(60)]
proof fn lemma_update_costs_bounds(
    g: Grid,
    start: Point,
    parent0: Seq<Option<Point>>,
    gs0: Seq<i128>,
    parent1: Seq<Option<Point>>,
    gs1: Seq<i128>,
    current: Point,
    q: Point,
    tentative: i128,
)
    requires
        cost_update_ok(g, start, parent0, gs0, parent1, gs1, current, q, tentative),
    ensures
        forall|z: Point| discovered(g, parent0, z) ==> discovered(g, parent1, z),
        discovered(g, parent1, q),
        count_some(parent1) <= parent1.len(),
        count_some(parent0) <= count_some(parent1),
        forall|p: Point|
            #[trigger] discovered(g, parent1, p) ==> gs1[g.flat_of(p)] + 1 <= count_some(parent1)
                && gs1[g.flat_of(p)] < i128::MAX,
        forall|p: Point|
            g.in_bounds(p) && !(#[trigger] discovered(g, parent1, p)) ==> gs1[g.flat_of(p)]
                == i128::MAX,
        capped_sum(gs1, parent1.len() as int + 1) < capped_sum(gs0, parent0.len() as int + 1),
{
    reveal(costs_ok);
    let fq = g.flat_of(q);
    lemma_flat_in_range(g.dim, q.x as int, q.y as int);
    lemma_flat_in_range(g.dim, current.x as int, current.y as int);
    assert forall|z: Point| discovered(g, parent0, z) implies discovered(g, parent1, z) by {
        lemma_flat_in_range(g.dim, z.x as int, z.y as int);
    }
    assert(discovered(g, parent0, current));
    assert(gs0[g.flat_of(current)] + 1 <= count_some(parent0));
    if parent0[fq] is None {
        lemma_count_some_update(parent0, fq, Some(current));
        assert(count_some(parent1) == count_some(parent0) + 1);
    } else {
        assert(discovered(g, parent0, q));
        assert(gs0[fq] + 1 <= count_some(parent0));
        lemma_count_some_update_keep(parent0, fq, Some(current));
        assert(count_some(parent1) == count_some(parent0));
    }
    lemma_count_some_bounds(parent1);
    assert(tentative + 1 <= count_some(parent1));
    assert forall|p: Point| #[trigger] discovered(g, parent1, p) implies gs1[g.flat_of(p)] + 1
        <= count_some(parent1) && gs1[g.flat_of(p)] < i128::MAX by {
        lemma_flat_in_range(g.dim, p.x as int, p.y as int);
        if g.flat_of(p) == fq {
        } else {
            assert(discovered(g, parent0, p));
        }
    }
    assert forall|p: Point|
        g.in_bounds(p) && !(#[trigger] discovered(g, parent1, p)) implies gs1[g.flat_of(p)]
        == i128::MAX by {
        lemma_flat_in_range(g.dim, p.x as int, p.y as int);
        if g.flat_of(p) == fq {
            lemma_flat_injective(g.dim, p.x as int, p.y as int, q.x as int, q.y as int);
        } else {
            assert(!discovered(g, parent0, p));
        }
    }
    assert(capped_sum(gs1, parent1.len() as int + 1) < capped_sum(gs0, parent0.len() as int + 1))
        by {
        assert(tentative + 1 <= count_some(parent1));
        lemma_capped_sum_update(gs0, fq, tentative, parent0.len() as int + 1);
    }
}

/// After a cost update the predecessor chains still descend through the
/// costs.
#[verifier::rlimit(60)]
proof fn lemma_update_costs_edges(
    g: Grid,
    start: Point,
    parent0: Seq<Option<Point>>,
    gs0: Seq<i128>,
    parent1: Seq<Option<Point>>,
    gs1: Seq<i128>,
    current: Point,
    q: Point,
    tentative: i128,
)
    requires
        cost_update_ok(g, start, parent0, gs0, parent1, gs1, current, q, tentative),
        q != start,
        g.flat_of(q) != g.flat_of(start),
        g.flat_of(q) != g.flat_of(current),
    ensures
        parent_edges_ok(g, start, parent1, gs_ints(gs1)),
{
    reveal(costs_ok);
    let fq = g.flat_of(q);
    let fc = g.flat_of(current);
    lemma_flat_in_range(g.dim, q.x as int, q.y as int);
    lemma_flat_in_range(g.dim, current.x as int, current.y as int);
    assert forall|z: Point| #[trigger] discovered(g, parent1, z) && z != start implies {
        let w = parent1[g.flat_of(z)]->Some_0;
        &&& discovered(g, parent1, w)
        &&& adjacent4(w, z)
        &&& g.at(z) == 0
        &&& gs_ints(gs1)[g.flat_of(w)] < gs_ints(gs1)[g.flat_of(z)]
    } by {
        lemma_flat_in_range(g.dim, z.x as int, z.y as int);
        if g.flat_of(z) == fq {
            lemma_flat_injective(g.dim, z.x as int, z.y as int, q.x as int, q.y as int);
            assert(z == q);
            assert(parent1[fq] == Some(current));
            assert(gs1[fc] == gs0[fc]);
        } else {
            assert(discovered(g, parent0, z));
            assert(parent1[g.flat_of(z)] == parent0[g.flat_of(z)]);
            let w = parent0[g.flat_of(z)]->Some_0;
            assert(discovered(g, parent0, w));
            lemma_flat_in_range(g.dim, w.x as int, w.y as int);
            assert(gs_ints(gs0)[g.flat_of(w)] < gs_ints(gs0)[g.flat_of(z)]);
        }
    }
}

/// Lowering one cost entry (recording the new predecessor) preserves the
/// cost bookkeeping and strictly lowers the capped cost sum.
#[verifier::rlimit(60)]
proof fn lemma_astar_update_costs(
    g: Grid,
    start: Point,
    parent0: Seq<Option<Point>>,
    gs0: Seq<i128>,
    parent1: Seq<Option<Point>>,
    gs1: Seq<i128>,
    current: Point,
    q: Point,
    tentative: i128,
)
    requires
        cost_update_ok(g, start, parent0, gs0, parent1, gs1, current, q, tentative),
    ensures
        costs_ok(g, start, parent1, gs1),
        forall|z: Point| discovered(g, parent0, z) ==> discovered(g, parent1, z),
        capped_sum(gs1, parent1.len() as int + 1) < capped_sum(gs0, parent0.len() as int + 1),
        discovered(g, parent1, q),
{
    let fq = g.flat_of(q);
    let fc = g.flat_of(current);
    lemma_flat_in_range(g.dim, q.x as int, q.y as int);
    lemma_flat_in_range(g.dim, current.x as int, current.y as int);
    lemma_flat_in_range(g.dim, start.x as int, start.y as int);
    assert(q != current) by {
        reveal(costs_ok);
    }
    if fq == fc {
        lemma_flat_injective(g.dim, q.x as int, q.y as int, current.x as int, current.y as int);
    }
    assert(q != start && fq != g.flat_of(start)) by {
        reveal(costs_ok);
        if fq == g.flat_of(start) {
            lemma_flat_injective(g.dim, q.x as int, q.y as int, start.x as int, start.y as int);
            assert(q == start);
            assert(gs0[fq] == 0);
        }
    }
    lemma_update_costs_bounds(g, start, parent0, gs0, parent1, gs1, current, q, tentative);
    lemma_update_costs_edges(g, start, parent0, gs0, parent1, gs1, current, q, tentative);
    assert(costs_ok(g, start, parent1, gs1)) by {
        reveal(costs_ok);
    }
}

/// Putting an improved point on the frontier (if it is absent) preserves
/// the frontier bookkeeping.
#[verifier::rlimit(60)]
proof fn lemma_astar_update_frontier(
    g: Grid,
    parent0: Seq<Option<Point>>,
    parent1: Seq<Option<Point>>,
    fr0: Seq<Point>,
    inf0: Seq<bool>,
    fr1: Seq<Point>,
    inf1: Seq<bool>,
    q: Point,
    was_in: bool,
)
    requires
        g.wf(),
        frontier_ok(g, parent0, fr0, inf0),
        forall|z: Point| discovered(g, parent0, z) ==> discovered(g, parent1, z),
        discovered(g, parent1, q),
        g.in_bounds(q),
        was_in == inf0[g.flat_of(q)],
        fr1 == if was_in {
            fr0
        } else {
            fr0.push(q)
        },
        inf1 == if was_in {
            inf0
        } else {
            inf0.update(g.flat_of(q), true)
        },
    ensures
        frontier_ok(g, parent1, fr1, inf1),
        inf1[g.flat_of(q)],
        forall|x: Point| fr0.contains(x) ==> fr1.contains(x),
        forall|x: Point| inf0[g.flat_of(x)] && g.in_bounds(x) ==> inf1[g.flat_of(x)],
{
    reveal(frontier_ok);
    let fq = g.flat_of(q);
    lemma_flat_in_range(g.dim, q.x as int, q.y as int);
    assert forall|x: Point| fr0.contains(x) implies fr1.contains(x) by {
        if !was_in {
            let k = choose|k: int| 0 <= k < fr0.len() && fr0[k] == x;
            assert(fr1[k] == x);
        }
    }
    assert forall|k: int| 0 <= k < fr1.len() implies g.in_bounds(#[trigger] fr1[k]) && discovered(
        g,
        parent1,
        fr1[k],
    ) && inf1[g.flat_of(fr1[k])] by {
        if k < fr0.len() {
            assert(fr1[k] == fr0[k]);
            assert(discovered(g, parent0, fr0[k]));
            lemma_flat_in_range(g.dim, fr0[k].x as int, fr0[k].y as int);
        } else {
            assert(fr1[k] == q);
        }
    }
    assert forall|p: Point|
        g.in_bounds(p) && #[trigger] inf1[g.flat_of(p)] implies fr1.contains(p) by {
        lemma_flat_in_range(g.dim, p.x as int, p.y as int);
        if g.flat_of(p) == fq {
            lemma_flat_injective(g.dim, p.x as int, p.y as int, q.x as int, q.y as int);
            assert(p == q);
            if was_in {
                assert(fr0.contains(p));
            } else {
                assert(fr1[fr1.len() - 1] == q);
            }
        } else {
            assert(inf0[g.flat_of(p)]);
            assert(fr0.contains(p));
        }
    }
    assert(fr1.no_duplicates()) by {
        if !was_in {
            assert forall|i: int, j: int| 0 <= i < j < fr1.len() implies fr1[i] != fr1[j] by {
                if j < fr0.len() {
                } else {
                    assert(fr1[j] == q);
                    assert(fr1[i] == fr0[i]);
                    if fr0[i] == q {
                        assert(inf0[g.flat_of(fr0[i])]);
                    }
                }
            }
        }
    }
}

/// No expansion is pending for a settled point: every discovered point that
/// is off the frontier already has all its empty in-bounds 4-neighbors
/// discovered.
#[verifier::opaque]
spec fn expansion_closed(g: Grid, parent: Seq<Option<Point>>, in_frontier: Seq<bool>) -> bool {
    forall|p: Point, q: Point|
        #![trigger discovered(g, parent, p), adjacent4(p, q)]
        discovered(g, parent, p) && !in_frontier[g.flat_of(p)] && g.in_bounds(q) && g.at(q) == 0
            && adjacent4(p, q) ==> discovered(g, parent, q)
}

/// Pending expansions stay covered when the discovered set grows and
/// frontier flags only switch on (with every newly discovered point
/// flagged).
proof fn lemma_closure_monotone(
    g: Grid,
    parent0: Seq<Option<Point>>,
    inf0: Seq<bool>,
    parent1: Seq<Option<Point>>,
    inf1: Seq<bool>,
)
    requires
        expansion_closed(g, parent0, inf0),
        forall|z: Point| discovered(g, parent0, z) ==> discovered(g, parent1, z),
        forall|p: Point|
            #![trigger inf1[g.flat_of(p)]]
            g.in_bounds(p) && !inf1[g.flat_of(p)] ==> !inf0[g.flat_of(p)],
        forall|p: Point|
            #[trigger] discovered(g, parent1, p) && !discovered(g, parent0, p) ==> inf1[g.flat_of(
                p,
            )],
    ensures
        expansion_closed(g, parent1, inf1),
{
    reveal(expansion_closed);
    assert forall|p: Point, q: Point|
        #![trigger discovered(g, parent1, p), adjacent4(p, q)]
        discovered(g, parent1, p) && !inf1[g.flat_of(p)] && g.in_bounds(q) && g.at(q) == 0
            && adjacent4(p, q) implies discovered(g, parent1, q) by {
        if discovered(g, parent0, p) {
            assert(!inf0[g.flat_of(p)]);
            assert(discovered(g, parent0, q));
        }
    }
}

/// Once every empty in-bounds 4-neighbor of the expanded point is
/// discovered, its frontier flag may be dropped from the pending-expansion
/// accounting.
proof fn lemma_closure_unmark(
    g: Grid,
    parent: Seq<Option<Point>>,
    in_frontier: Seq<bool>,
    current: Point,
)
    requires
        g.wf(),
        g.in_bounds(current),
        in_frontier.len() == g.dim.cell_count(),
        expansion_closed(g, parent, in_frontier.update(g.flat_of(current), true)),
        forall|q: Point|
            g.in_bounds(q) && g.at(q) == 0 && #[trigger] adjacent4(current, q) ==> discovered(
                g,
                parent,
                q,
            ),
    ensures
        expansion_closed(g, parent, in_frontier),
{
    reveal(expansion_closed);
    let fc = g.flat_of(current);
    lemma_flat_in_range(g.dim, current.x as int, current.y as int);
    let marked = in_frontier.update(fc, true);
    assert forall|p: Point, q: Point|
        #![trigger discovered(g, parent, p), adjacent4(p, q)]
        discovered(g, parent, p) && !in_frontier[g.flat_of(p)] && g.in_bounds(q) && g.at(q) == 0
            && adjacent4(p, q) implies discovered(g, parent, q) by {
        lemma_flat_in_range(g.dim, p.x as int, p.y as int);
        if g.flat_of(p) == fc {
            lemma_flat_injective(g.dim, p.x as int, p.y as int, current.x as int, current.y as int);
            assert(p == current);
        } else {
            assert(!marked[g.flat_of(p)]);
        }
    }
}

/// Scan the frontier for the point with the smallest estimated total cost;
/// ties go to the earliest-inserted point.
fn pick_cheapest(g: &Grid, frontier: &Vec<Point>, fs: &Vec<i128>) -> (best: usize)
    requires
        g.wf(),
        frontier@.len() >= 1,
        fs@.len() == g.dim.cell_count(),
        forall|t: int| 0 <= t < frontier@.len() ==> g.in_bounds(#[trigger] frontier@[t]),
    ensures
        best < frontier@.len(),
{
    let f0 = frontier[0];
    let mut best: usize = 0;
    let mut best_cost: i128 = fs[g.dim.index_map(f0) as usize];
    let mut k: usize = 1;
    while k < frontier.len()
        invariant
            g.wf(),
            fs@.len() == g.dim.cell_count(),
            1 <= k <= frontier@.len(),
            frontier@.len() >= 1,
            best < frontier@.len(),
            forall|t: int| 0 <= t < frontier@.len() ==> g.in_bounds(#[trigger] frontier@[t]),
        decreases frontier@.len() - k,
    {
        let fk = frontier[k];
        let c = fs[g.dim.index_map(fk) as usize];
        if c < best_cost {
            best = k;
            best_cost = c;
        }
        k = k + 1;
    }
    best
}

impl Grid {
    /// A* search for a route of empty cells from `start` to `end`,
    /// repeatedly expanding the frontier point with the smallest estimated
    /// total cost (path cost so far plus cityblock distance to `end`; ties
    /// go to the earliest-inserted point). Returns the points of the
    /// discovered route (excluding `start`, including `end`), or `None`
    /// when no route exists.
    #[verifier::rlimit(100)]
    pub fn find_path_with_a_star(&self, start: Point, end: Point) -> (r: Option<Vec<Point>>)
        requires
            self.wf(),
            self.in_bounds(start),
            self.in_bounds(end),
        ensures
            path_result_ok(*self, start, end, path_points_view(r)),
    {
        let n = self.array.len();
        let mut parent: Vec<Option<Point>> = none_points(n);
        let mut gs: Vec<i128> = fill_i128(n, i128::MAX);
        let mut fs: Vec<i128> = fill_i128(n, i128::MAX);
        let mut in_frontier: Vec<bool> = fill_bool(n, false);
        proof {
            lemma_flat_in_range(self.dim, start.x as int, start.y as int);
        }
        let si = self.dim.index_map(start) as usize;
        let ghost parent_init = parent@;
        parent[si] = Some(start);
        gs[si] = 0;
        proof {
            lemma_cityblock_fits(self.dim, start, end);
        }
        let h0 = Grid::distance_cityblock(start, end);
        fs[si] = h0 as i128;
        in_frontier[si] = true;
        let mut frontier: Vec<Point> = Vec::new();
        frontier.push(start);
        proof {
            assert(parent_init =~= Seq::new(n as nat, |i: int| None));
            lemma_count_some_none(n as int);
            lemma_count_some_update(parent_init, si as int, Some(start));
            assert forall|p: Point| self.in_bounds(p) implies 0 <= self.flat_of(p) < n by {
                lemma_flat_in_range(self.dim, p.x as int, p.y as int);
            }
            assert forall|p: Point|
                self.in_bounds(p) && self.flat_of(p) == si as int implies p == start by {
                lemma_flat_injective(
                    self.dim,
                    p.x as int,
                    p.y as int,
                    start.x as int,
                    start.y as int,
                );
            }
            assert forall|p: Point| #[trigger] discovered(*self, parent@, p) implies p
                == start by {
                if self.flat_of(p) != si as int {
                    assert(parent@[self.flat_of(p)] is None);
                }
            }
            assert(costs_ok(*self, start, parent@, gs@)) by {
                reveal(costs_ok);
            }
            assert(frontier_ok(*self, parent@, frontier@, in_frontier@)) by {
                reveal(frontier_ok);
                assert(frontier@[0] == start);
                assert(frontier@.contains(start));
            }
            assert(expansion_closed(*self, parent@, in_frontier@)) by {
                reveal(expansion_closed);
            }
        }
        while frontier.len() > 0
            invariant
                self.wf(),
                self.in_bounds(start),
                self.in_bounds(end),
                n == self.dim.cell_count(),
                parent@.len() == n,
                gs@.len() == n,
                fs@.len() == n,
                in_frontier@.len() == n,
                costs_ok(*self, start, parent@, gs@),
                frontier_ok(*self, parent@, frontier@, in_frontier@),
                expansion_closed(*self, parent@, in_frontier@),
                forall|k: int| 0 <= k < frontier@.len() ==> self.in_bounds(#[trigger] frontier@[k]),
                discovered(*self, parent@, end) ==> in_frontier@[self.flat_of(end)],
            decreases capped_sum(gs@, n as int + 1), frontier@.len(),
        {
            proof {
                assert forall|p: Point| self.in_bounds(p) implies 0 <= self.flat_of(p) < n by {
                    lemma_flat_in_range(self.dim, p.x as int, p.y as int);
                }
            }
            let best = pick_cheapest(self, &frontier, &fs);
            let current = frontier[best];
            proof {
                assert(discovered(*self, parent@, current) && in_frontier@[self.flat_of(current)])
                    by {
                    reveal(frontier_ok);
                }
            }
            if current == end {
                proof {
                    assert(parent@[self.flat_of(start)] == Some(start) && parent_edges_ok(
                        *self,
                        start,
                        parent@,
                        gs_ints(gs@),
                    ) && ranks_nonneg(*self, parent@, gs_ints(gs@))) by {
                        reveal(costs_ok);
                    }
                }
                let ps = trace_back(self, start, end, &parent, Ghost(gs_ints(gs@)));
                return Some(ps);
            }
            let ghost fr_before = frontier@;
            let ghost inf_before = in_frontier@;
            let ci = self.dim.index_map(current) as usize;
            let _removed = frontier.remove(best);
            in_frontier[ci] = false;
            proof {
                lemma_astar_after_remove(
                    *self,
                    parent@,
                    fr_before,
                    inf_before,
                    frontier@,
                    in_frontier@,
                    best as int,
                );
                if self.flat_of(end) == self.flat_of(current) {
                    lemma_flat_injective(
                        self.dim,
                        end.x as int,
                        end.y as int,
                        current.x as int,
                        current.y as int,
                    );
                }
                lemma_closure_monotone(
                    *self,
                    parent@,
                    inf_before,
                    parent@,
                    in_frontier@.update(ci as int, true),
                );
                lemma_sides_le_max(self.dim);
            }
            let ns = Self::neighbors_of_limited(current);
            let vns = self.valid_neighbors_of(&ns);
            proof {
                assert forall|t: int|
                    0 <= t < vns@.len() implies self.dim.in_bounds(#[trigger] vns@[t]) && adjacent4(
                    current,
                    vns@[t],
                ) by {
                    assert(vns@.contains(vns@[t]));
                    let w = choose|w: int| 0 <= w < ns@.len() && ns@[w] == vns@[t];
                }
            }
            let ghost gs_mid = gs@;
            let ghost fr_mid = frontier@;
            let mut j: usize = 0;
            while j < vns.len()
                invariant
                    self.wf(),
                    self.in_bounds(start),
                    self.in_bounds(end),
                    n == self.dim.cell_count(),
                    parent@.len() == n,
                    gs@.len() == n,
                    fs@.len() == n,
                    in_frontier@.len() == n,
                    costs_ok(*self, start, parent@, gs@),
                    frontier_ok(*self, parent@, frontier@, in_frontier@),
                    expansion_closed(*self, parent@, in_frontier@.update(ci as int, true)),
                    j <= vns@.len(),
                    discovered(*self, parent@, current),
                    self.in_bounds(current),
                    current != end,
                    ci as int == self.flat_of(current),
                    forall|t: int|
                        0 <= t < vns@.len() ==> self.dim.in_bounds(#[trigger] vns@[t]) && adjacent4(
                            current,
                            vns@[t],
                        ),
                    forall|k2: int|
                        0 <= k2 < frontier@.len() ==> self.in_bounds(#[trigger] frontier@[k2]),
                    discovered(*self, parent@, end) ==> in_frontier@[self.flat_of(end)],
                    forall|t: int|
                        0 <= t < j && self.at(#[trigger] vns@[t]) == 0 ==> discovered(
                            *self,
                            parent@,
                            vns@[t],
                        ),
                    capped_sum(gs@, n as int + 1) < capped_sum(gs_mid, n as int + 1) || (gs@
                        == gs_mid && frontier@ == fr_mid),
                decreases vns@.len() - j,
            {
                let q = vns[j];
                proof {
                    lemma_flat_in_range(self.dim, q.x as int, q.y as int);
                    lemma_flat_in_range(self.dim, current.x as int, current.y as int);
                }
                let qi = self.dim.index_map(q) as usize;
                let qv = self.array[qi];
                if qv == 0 {
                    proof {
                        assert(0 <= gs@[ci as int] && gs@[ci as int] + 1 <= count_some(parent@)
                            && count_some(parent@) <= parent@.len()) by {
                            reveal(costs_ok);
                        }
                    }
                    let tentative = gs[ci] + 1;
                    if tentative < gs[qi] {
                        let ghost parent0 = parent@;
                        let ghost gs0 = gs@;
                        let ghost fr0 = frontier@;
                        let ghost inf0 = in_frontier@;
                        parent[qi] = Some(current);
                        gs[qi] = tentative;
                        proof {
                            lemma_cityblock_fits(self.dim, q, end);
                        }
                        let hq = Grid::distance_cityblock(q, end);
                        fs[qi] = tentative + (hq as i128);
                        let was_in = in_frontier[qi];
                        if !was_in {
                            in_frontier[qi] = true;
                            frontier.push(q);
                        }
                        proof {
                            lemma_astar_update_costs(
                                *self,
                                start,
                                parent0,
                                gs0,
                                parent@,
                                gs@,
                                current,
                                q,
                                tentative,
                            );
                            lemma_astar_update_frontier(
                                *self,
                                parent0,
                                parent@,
                                fr0,
                                inf0,
                                frontier@,
                                in_frontier@,
                                q,
                                was_in,
                            );
                            let fq = self.flat_of(q);
                            assert forall|p: Point|
                                self.in_bounds(p) implies 0 <= self.flat_of(p) < n by {
                                lemma_flat_in_range(self.dim, p.x as int, p.y as int);
                            }
                            assert forall|p: Point|
                                #[trigger] discovered(*self, parent@, p) && !discovered(
                                    *self,
                                    parent0,
                                    p,
                                ) implies in_frontier@.update(ci as int, true)[self.flat_of(
                                p,
                            )] by {
                                if self.flat_of(p) != fq {
                                    assert(discovered(*self, parent0, p));
                                }
                            }
                            lemma_closure_monotone(
                                *self,
                                parent0,
                                inf0.update(ci as int, true),
                                parent@,
                                in_frontier@.update(ci as int, true),
                            );
                            assert(discovered(*self, parent@, end) ==> in_frontier@[self.flat_of(
                                end,
                            )]) by {
                                if discovered(*self, parent@, end) {
                                    if self.flat_of(end) == fq {
                                        assert(in_frontier@[fq]);
                                    } else {
                                        assert(discovered(*self, parent0, end));
                                        assert(inf0[self.flat_of(end)]);
                                    }
                                }
                            }
                        }
                    } else {
                        proof {
                            assert(discovered(*self, parent@, q)) by {
                                reveal(costs_ok);
                            }
                        }
                    }
                }
                j = j + 1;
            }
            proof {
                assert forall|q: Point|
                    self.in_bounds(q) && self.at(q) == 0 && #[trigger] adjacent4(
                    current,
                    q,
                ) implies discovered(*self, parent@, q) by {
                    lemma_four_neighbors(current, q, ns@[0], ns@[1], ns@[2], ns@[3]);
                    assert(ns@.contains(q));
                    assert(vns@.contains(q));
                    let t = choose|t: int| 0 <= t < vns@.len() && vns@[t] == q;
                    assert(self.at(vns@[t]) == 0);
                }
                lemma_closure_unmark(*self, parent@, in_frontier@, current);
                assert(capped_sum(gs@, n as int + 1) >= 0) by {
                    reveal(costs_ok);
                    lemma_capped_sum_nonneg(gs@, n as int + 1);
                }
            }
        }
        proof {
            assert forall|p: Point| self.in_bounds(p) implies !in_frontier@[self.flat_of(p)] by {
                lemma_flat_in_range(self.dim, p.x as int, p.y as int);
                if in_frontier@[self.flat_of(p)] {
                    assert(frontier@.contains(p)) by {
                        reveal(frontier_ok);
                    }
                }
            }
            assert(!discovered(*self, parent@, end));
            assert forall|pp: Point, qq: Point|
                #![trigger discovered(*self, parent@, pp), adjacent4(pp, qq)]
                discovered(*self, parent@, pp) && self.in_bounds(qq) && self.at(qq) == 0
                    && adjacent4(pp, qq) implies discovered(*self, parent@, qq) by {
                reveal(expansion_closed);
                assert(!in_frontier@[self.flat_of(pp)]);
            }
            assert(discovered(*self, parent@, start)) by {
                reveal(costs_ok);
                lemma_flat_in_range(self.dim, start.x as int, start.y as int);
            }
            lemma_closed_means_no_route(*self, start, end, parent@);
        }
        None
    }
}

/// When every in-bounds 4-neighbor of the start is blocked (nonzero), a
/// pathfinding call meeting its contract returns "no path" for any end
/// other than the start: the first step of any route would have to cross a
/// blocked cell.
pub proof fn lemma_blocked_start_no_path(
    g: Grid,
    start: Point,
    end: Point,
    result: Option<Seq<Point>>,
)
    requires
        end != start,
        forall|q: Point| g.in_bounds(q) && #[trigger] adjacent4(start, q) ==> g.at(q) != 0,
        path_result_ok(g, start, end, result),
    ensures
        result is None,
{
    if result is Some {
        let ps = result->Some_0;
        let r = choose|r: Seq<Point>|
            is_route(g, start, end, r) && r.subrange(1, r.len() as int).to_set() == ps.to_set();
        assert(r.len() >= 2) by {
            if r.len() == 1 {
                assert(r.last() == r[0]);
            }
        }
        assert(adjacent4(r[0], r[1]) && g.in_bounds(r[1]) && g.at(r[1]) == 0);
    }
}

/// Any two pathfinding calls meeting their contract over the same grid and
/// endpoints agree on whether a route exists: either both find a path or
/// both report "no path".
pub proof fn lemma_searches_agree(
    g: Grid,
    start: Point,
    end: Point,
    first: Option<Seq<Point>>,
    second: Option<Seq<Point>>,
)
    requires
        path_result_ok(g, start, end, first),
        path_result_ok(g, start, end, second),
    ensures
        first is Some <==> second is Some,
{
    if first is Some && second is None {
        let ps = first->Some_0;
        let r = choose|r: Seq<Point>|
            is_route(g, start, end, r) && r.subrange(1, r.len() as int).to_set() == ps.to_set();
        assert(is_route(g, start, end, r));
    }
    if second is Some && first is None {
        let ps = second->Some_0;
        let r = choose|r: Seq<Point>|
            is_route(g, start, end, r) && r.subrange(1, r.len() as int).to_set() == ps.to_set();
        assert(is_route(g, start, end, r));
    }
}

/// A table of path costs with every entry the same.
fn fill_i128(n: usize, value: i128) -> (v: Vec<i128>)
    ensures
        v@.len() == n,
        forall|i: int| 0 <= i < n ==> v@[i] == value,
{
    let mut v: Vec<i128> = Vec::new();
    let mut i: usize = 0;
    while i < n
        invariant
            i <= n,
            v@.len() == i,
            forall|j: int| 0 <= j < i ==> v@[j] == value,
        decreases n - i,
    {
        v.push(value);
        i = i + 1;
    }
    v
}

/// A table of membership flags with every entry the same.
fn fill_bool(n: usize, value: bool) -> (v: Vec<bool>)
    ensures
        v@.len() == n,
        forall|i: int| 0 <= i < n ==> v@[i] == value,
{
    let mut v: Vec<bool> = Vec::new();
    let mut i: usize = 0;
    while i < n
        invariant
            i <= n,
            v@.len() == i,
            forall|j: int| 0 <= j < i ==> v@[j] == value,
        decreases n - i,
    {
        v.push(value);
        i = i + 1;
    }
    v
}

/// A fresh predecessor map with every slot empty.
fn none_points(n: usize) -> (v: Vec<Option<Point>>)
    ensures
        v@.len() == n,
        forall|i: int| 0 <= i < n ==> v@[i] is None,
{
    let mut v: Vec<Option<Point>> = Vec::new();
    let mut i: usize = 0;
    while i < n
        invariant
            i <= n,
            v@.len() == i,
            forall|j: int| 0 <= j < i ==> v@[j] is None,
        decreases n - i,
    {
        v.push(None);
        i = i + 1;
    }
    v
}

} // verus!

