//! The grid data model: dimensions, bounds-checked cell access, neighbor
//! geometry and grid distance metrics.

use vstd::prelude::*;

verus! {

/// A grid coordinate. Points may lie outside a grid; whether they do is
/// decided against a particular `GridDim`.
#[derive(Clone, Copy, Debug, PartialEq, Eq, Structural)]
pub struct Point {
    pub x: isize,
    pub y: isize,
}

/// The dimensions of a grid: positive width and height.
#[derive(Clone, Copy, Debug, PartialEq, Eq, Structural)]
pub struct GridDim {
    pub width: isize,
    pub height: isize,
}

impl GridDim {
    /// Positive dimensions whose cell count fits the flat buffer index range.
    pub open spec fn wf(self) -> bool {
        &&& 0 < self.width
        &&& 0 < self.height
        &&& self.width * self.height <= isize::MAX
    }

    /// Number of cells of a grid with these dimensions.
    pub open spec fn cell_count(self) -> int {
        self.width * self.height
    }

    pub open spec fn in_bounds_xy(self, x: int, y: int) -> bool {
        &&& 0 <= x < self.width
        &&& 0 <= y < self.height
    }

    pub open spec fn in_bounds(self, p: Point) -> bool {
        self.in_bounds_xy(p.x as int, p.y as int)
    }

    /// Row-major flat index of a coordinate pair.
    pub open spec fn flat(self, x: int, y: int) -> int {
        x + y * self.width
    }

    /// Row-major flat index of an in-bounds point.
    pub fn index_map(&self, p: Point) -> (r: isize)
        requires
            self.wf(),
            self.in_bounds(p),
        ensures
            r == self.flat(p.x as int, p.y as int),
            0 <= r < self.cell_count(),
    {
        proof {
            lemma_flat_in_range(*self, p.x as int, p.y as int);
        }
        p.x + p.y * self.width
    }
}

/// The flat index of an in-bounds coordinate lies within the cell buffer.
pub proof fn lemma_flat_in_range(dim: GridDim, x: int, y: int)
    requires
        dim.wf(),
        dim.in_bounds_xy(x, y),
    ensures
        0 <= dim.flat(x, y) < dim.cell_count(),
{
    assert(0 <= x + y * dim.width < dim.width * dim.height) by (nonlinear_arith)
        requires
            0 <= x < dim.width,
            0 <= y < dim.height,
    ;
}

/// Distinct in-bounds coordinates have distinct flat indices.
pub proof fn lemma_flat_injective(dim: GridDim, x1: int, y1: int, x2: int, y2: int)
    requires
        dim.wf(),
        dim.in_bounds_xy(x1, y1),
        dim.in_bounds_xy(x2, y2),
        dim.flat(x1, y1) == dim.flat(x2, y2),
    ensures
        x1 == x2,
        y1 == y2,
{
    assert(x1 == x2 && y1 == y2) by (nonlinear_arith)
        requires
            0 <= x1 < dim.width,
            0 <= y1 < dim.height,
            0 <= x2 < dim.width,
            0 <= y2 < dim.height,
            x1 + y1 * dim.width == x2 + y2 * dim.width,
    ;
}

/// Well-formed dimensions fit each side under the flat index bound.
pub proof fn lemma_sides_le_max(dim: GridDim)
    requires
        dim.wf(),
    ensures
        dim.width <= isize::MAX,
        dim.height <= isize::MAX,
{
    assert(dim.width <= dim.width * dim.height && dim.height <= dim.width * dim.height)
        by (nonlinear_arith)
        requires
            0 < dim.width,
            0 < dim.height,
    ;
}

/// A dense rectangular grid of byte-valued cells in row-major order.
/// A cell value of 0 means dead/empty; any nonzero value means alive/blocked.
#[derive(Clone, Debug)]
pub struct Grid {
    pub dim: GridDim,
    pub array: Vec<u8>,
}

impl Grid {
    /// The cell buffer always holds exactly `width * height` bytes.
    pub open spec fn wf(self) -> bool {
        &&& self.dim.wf()
        &&& self.array@.len() == self.dim.cell_count()
    }

    pub open spec fn in_bounds(self, p: Point) -> bool {
        self.dim.in_bounds(p)
    }

    pub open spec fn flat_of(self, p: Point) -> int {
        self.dim.flat(p.x as int, p.y as int)
    }

    /// The stored cell value at in-bounds coordinates.
    pub open spec fn at_xy(self, x: int, y: int) -> u8 {
        self.array@[self.dim.flat(x, y)]
    }

    /// The stored cell value at an in-bounds point.
    pub open spec fn at(self, p: Point) -> u8 {
        self.at_xy(p.x as int, p.y as int)
    }

    /// What a bounds-checked read returns: absent outside the grid.
    pub open spec fn lookup(self, p: Point) -> Option<u8> {
        if self.in_bounds(p) {
            Some(self.at(p))
        } else {
            None
        }
    }

    /// Allocate a grid of the given positive dimensions with every cell dead.
    pub fn new(width: isize, height: isize) -> (g: Grid)
        requires
            0 < width,
            0 < height,
            width * height <= isize::MAX,
        ensures
            g.wf(),
            g.dim == (GridDim { width, height }),
            g.array@.len() == width * height,
            forall|i: int| 0 <= i < g.array@.len() ==> g.array@[i] == 0u8,
    {
        proof {
            assert(0 < width * height) by (nonlinear_arith)
                requires
                    0 < width,
                    0 < height,
            ;
        }
        let n = (width * height) as usize;
        let mut cells: Vec<u8> = Vec::new();
        let mut i: usize = 0;
        while i < n
            invariant
                i <= n,
                cells@.len() == i,
                forall|j: int| 0 <= j < i ==> cells@[j] == 0u8,
            decreases n - i,
        {
            cells.push(0);
            i = i + 1;
        }
        Grid { dim: GridDim { width, height }, array: cells }
    }

    /// Bounds-checked read: the stored byte, or absent for an out-of-bounds
    /// point.
    pub fn index(&self, p: Point) -> (r: Option<u8>)
        requires
            self.wf(),
        ensures
            r == self.lookup(p),
    {
        if 0 <= p.x && p.x < self.dim.width && 0 <= p.y && p.y < self.dim.height {
            let i = self.dim.index_map(p) as usize;
            Some(self.array[i])
        } else {
            None
        }
    }

    /// Bounds-checked write: stores `value` at `p` and reports whether the
    /// write happened; an out-of-bounds point leaves the grid unchanged.
    pub fn index_mut(&mut self, p: Point, value: u8) -> (written: bool)
        requires
            old(self).wf(),
        ensures
            final(self).wf(),
            final(self).dim == old(self).dim,
            written == old(self).in_bounds(p),
            old(self).in_bounds(p) ==> final(self).array@ == old(self).array@.update(
                old(self).flat_of(p),
                value,
            ),
            old(self).in_bounds(p) ==> final(self).at(p) == value,
            forall|q: Point|
                old(self).in_bounds(q) && q != p ==> final(self).at(q) == old(self).at(q),
            !old(self).in_bounds(p) ==> *final(self) == *old(self),
    {
        if 0 <= p.x && p.x < self.dim.width && 0 <= p.y && p.y < self.dim.height {
            let i = self.dim.index_map(p) as usize;
            self.array[i] = value;
            proof {
                assert forall|q: Point| self.in_bounds(q) && q != p implies self.at(q) == old(
                    self,
                ).at(q) by {
                    if self.flat_of(q) == self.flat_of(p) {
                        lemma_flat_injective(
                            self.dim,
                            q.x as int,
                            q.y as int,
                            p.x as int,
                            p.y as int,
                        );
                    } else {
                        lemma_flat_in_range(self.dim, q.x as int, q.y as int);
                    }
                }
            }
            true
        } else {
            false
        }
    }
}

impl Grid {
    /// 1 when the point at the given coordinates is inside the grid and
    /// alive (nonzero), 0 otherwise: cells outside the grid count as dead.
    pub open spec fn live_at(self, x: int, y: int) -> int {
        if self.dim.in_bounds_xy(x, y) && self.at_xy(x, y) != 0 {
            1
        } else {
            0
        }
    }

    /// Number of live cells among the 8 Moore neighbors of (x, y), with
    /// off-grid neighbors counted as dead.
    pub open spec fn moore_sum(self, x: int, y: int) -> int {
        self.live_at(x - 1, y - 1) + self.live_at(x, y - 1) + self.live_at(x + 1, y - 1)
            + self.live_at(x - 1, y) + self.live_at(x + 1, y) + self.live_at(x - 1, y + 1)
            + self.live_at(x, y + 1) + self.live_at(x + 1, y + 1)
    }

    /// The 8 Moore-neighborhood points around `p`, in a fixed order (three
    /// above, the two beside, three below), without any bounds filtering.
    pub fn neighbors_of(p: Point) -> (r: Vec<Point>)
        requires
            isize::MIN < p.x < isize::MAX,
            isize::MIN < p.y < isize::MAX,
        ensures
            r@.len() == 8,
            r@[0].x == p.x - 1 && r@[0].y == p.y - 1,
            r@[1].x == p.x && r@[1].y == p.y - 1,
            r@[2].x == p.x + 1 && r@[2].y == p.y - 1,
            r@[3].x == p.x - 1 && r@[3].y == p.y,
            r@[4].x == p.x + 1 && r@[4].y == p.y,
            r@[5].x == p.x - 1 && r@[5].y == p.y + 1,
            r@[6].x == p.x && r@[6].y == p.y + 1,
            r@[7].x == p.x + 1 && r@[7].y == p.y + 1,
    {
        let x = p.x;
        let y = p.y;
        let mut r: Vec<Point> = Vec::new();
        r.push(Point { x: x - 1, y: y - 1 });
        r.push(Point { x, y: y - 1 });
        r.push(Point { x: x + 1, y: y - 1 });
        r.push(Point { x: x - 1, y });
        r.push(Point { x: x + 1, y });
        r.push(Point { x: x - 1, y: y + 1 });
        r.push(Point { x, y: y + 1 });
        r.push(Point { x: x + 1, y: y + 1 });
        r
    }

    /// The 4-connected (von Neumann) neighbors of `p`, in a fixed order
    /// (up, left, right, down), without any bounds filtering.
    pub fn neighbors_of_limited(p: Point) -> (r: Vec<Point>)
        requires
            isize::MIN < p.x < isize::MAX,
            isize::MIN < p.y < isize::MAX,
        ensures
            r@.len() == 4,
            r@[0].x == p.x && r@[0].y == p.y - 1,
            r@[1].x == p.x - 1 && r@[1].y == p.y,
            r@[2].x == p.x + 1 && r@[2].y == p.y,
            r@[3].x == p.x && r@[3].y == p.y + 1,
            forall|i: int| 0 <= i < 4 ==> adjacent4(p, #[trigger] r@[i]),
    {
        let x = p.x;
        let y = p.y;
        let mut r: Vec<Point> = Vec::new();
        r.push(Point { x, y: y - 1 });
        r.push(Point { x: x - 1, y });
        r.push(Point { x: x + 1, y });
        r.push(Point { x, y: y + 1 });
        r
    }

    /// Keep only the in-bounds points of a neighbor list, preserving order.
    pub fn valid_neighbors_of(&self, neighbors: &Vec<Point>) -> (r: Vec<Point>)
        ensures
            r@ == neighbors@.filter(|q: Point| self.dim.in_bounds(q)),
            forall|q: Point|
                r@.contains(q) <==> neighbors@.contains(q) && self.dim.in_bounds(q),
    {
        let ghost pred = |q: Point| self.dim.in_bounds(q);
        let mut r: Vec<Point> = Vec::new();
        let mut i: usize = 0;
        while i < neighbors.len()
            invariant
                i <= neighbors@.len(),
                r@ == neighbors@.subrange(0, i as int).filter(pred),
                pred == (|q: Point| self.dim.in_bounds(q)),
            decreases neighbors@.len() - i,
        {
            let q = neighbors[i];
            proof {
                reveal(Seq::filter);
                assert(neighbors@.subrange(0, i + 1 as int).drop_last() =~= neighbors@.subrange(
                    0,
                    i as int,
                ));
                assert(neighbors@.subrange(0, i + 1 as int).last() == q);
            }
            if 0 <= q.x && q.x < self.dim.width && 0 <= q.y && q.y < self.dim.height {
                r.push(q);
            }
            i = i + 1;
        }
        proof {
            assert(neighbors@.subrange(0, neighbors@.len() as int) =~= neighbors@);
            assert forall|q: Point| r@.contains(q) implies neighbors@.contains(q)
                && self.dim.in_bounds(q) by {
                lemma_filter_membership(neighbors@, pred, q);
            }
            assert forall|q: Point|
                neighbors@.contains(q) && self.dim.in_bounds(q) implies r@.contains(q) by {
                let k = choose|k: int| 0 <= k < neighbors@.len() && neighbors@[k] == q;
                neighbors@.lemma_filter_contains(pred, k);
            }
        }
        r
    }

    /// 1 when the cell at offset (dx, dy) from `p` is inside the grid and
    /// alive, 0 otherwise.
    fn live_at_offset(&self, p: Point, dx: isize, dy: isize) -> (r: u8)
        requires
            self.wf(),
            -1 <= dx <= 1,
            -1 <= dy <= 1,
        ensures
            r as int == self.live_at(p.x + dx, p.y + dy),
    {
        if (dx < 0 && p.x == isize::MIN) || (dx > 0 && p.x == isize::MAX) {
            return 0;
        }
        if (dy < 0 && p.y == isize::MIN) || (dy > 0 && p.y == isize::MAX) {
            return 0;
        }
        let nx = p.x + dx;
        let ny = p.y + dy;
        if 0 <= nx && nx < self.dim.width && 0 <= ny && ny < self.dim.height {
            let i = self.dim.index_map(Point { x: nx, y: ny }) as usize;
            if self.array[i] != 0 {
                1
            } else {
                0
            }
        } else {
            0
        }
    }

    /// Count the live cells among the 8 Moore neighbors of `p`; neighbors
    /// that fall outside the grid count as dead. The count never exceeds 8.
    pub fn sum_neighbors_with_outside_dead(&self, p: Point) -> (r: u8)
        requires
            self.wf(),
        ensures
            r as int == self.moore_sum(p.x as int, p.y as int),
            r <= 8,
    {
        let mut acc: u8 = 0;
        acc = acc + self.live_at_offset(p, -1, -1);
        acc = acc + self.live_at_offset(p, 0, -1);
        acc = acc + self.live_at_offset(p, 1, -1);
        acc = acc + self.live_at_offset(p, -1, 0);
        acc = acc + self.live_at_offset(p, 1, 0);
        acc = acc + self.live_at_offset(p, -1, 1);
        acc = acc + self.live_at_offset(p, 0, 1);
        acc = acc + self.live_at_offset(p, 1, 1);
        acc
    }

    /// Chebyshev distance: the larger of the absolute coordinate differences.
    pub fn distance_chebyshev(a: Point, b: Point) -> (r: isize)
        requires
            vstd::math::abs(a.x - b.x) <= isize::MAX,
            vstd::math::abs(a.y - b.y) <= isize::MAX,
        ensures
            r == vstd::math::max(
                vstd::math::abs(a.x - b.x) as int,
                vstd::math::abs(a.y - b.y) as int,
            ),
    {
        let dx = a.x - b.x;
        let dy = a.y - b.y;
        let ax = if dx < 0 {
            -dx
        } else {
            dx
        };
        let ay = if dy < 0 {
            -dy
        } else {
            dy
        };
        if ax > ay {
            ax
        } else {
            ay
        }
    }

    /// Cityblock (Manhattan) distance: the sum of the absolute coordinate
    /// differences.
    pub fn distance_cityblock(a: Point, b: Point) -> (r: isize)
        requires
            vstd::math::abs(a.x - b.x) + vstd::math::abs(a.y - b.y) <= isize::MAX,
        ensures
            r == vstd::math::abs(a.x - b.x) + vstd::math::abs(a.y - b.y),
    {
        let dx = a.x - b.x;
        let dy = a.y - b.y;
        let ax = if dx < 0 {
            -dx
        } else {
            dx
        };
        let ay = if dy < 0 {
            -dy
        } else {
            dy
        };
        ax + ay
    }
}

/// An element of a filtered sequence is an element of the unfiltered
/// sequence and satisfies the filter predicate.
proof fn lemma_filter_membership(s: Seq<Point>, pred: spec_fn(Point) -> bool, x: Point)
    requires
        s.filter(pred).contains(x),
    ensures
        s.contains(x),
        pred(x),
    decreases s.len(),
{
    reveal(Seq::filter);
    if s.len() > 0 {
        let sub = s.drop_last().filter(pred);
        if pred(s.last()) && x == s.last() {
            assert(s[s.len() - 1] == x);
        } else {
            assert(sub.contains(x));
            lemma_filter_membership(s.drop_last(), pred, x);
            let j = choose|j: int| 0 <= j < s.drop_last().len() && s.drop_last()[j] == x;
            assert(s[j] == x);
        }
    }
}

/// Two points are 4-connected neighbors: they differ by exactly one step
/// along exactly one axis.
pub open spec fn adjacent4(a: Point, b: Point) -> bool {
    vstd::math::abs(a.x - b.x) + vstd::math::abs(a.y - b.y) == 1
}

/// A cell outside the grid never contributes to a neighbor count: off-grid
/// neighbors are treated as dead, not as errors.
pub proof fn lemma_outside_cells_count_dead(g: Grid, x: int, y: int)
    requires
        !g.dim.in_bounds_xy(x, y),
    ensures
        g.live_at(x, y) == 0,
{
}

/// Writing a cell and reading it back returns the written value: a write at
/// an in-bounds point round-trips through a bounds-checked read.
pub proof fn lemma_index_roundtrip(pre: Grid, post: Grid, p: Point, v: u8)
    requires
        pre.wf(),
        pre.in_bounds(p),
        post.dim == pre.dim,
        post.array@ == pre.array@.update(pre.flat_of(p), v),
    ensures
        post.lookup(p) == Some(v),
{
    lemma_flat_in_range(pre.dim, p.x as int, p.y as int);
}

} // verus!
