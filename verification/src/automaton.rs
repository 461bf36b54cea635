//! The automaton: a grid, a scratch buffer of the same shape, and a rule.
//! `step` advances the grid one generation with simultaneous-update
//! semantics: every cell's next state depends only on the previous
//! generation.

use vstd::prelude::*;

use crate::grid::Grid;
use crate::grid::GridDim;
use crate::grid::Point;
use crate::rules::IsRules;

verus! {

/// The state of one cell in the next generation: a dead cell is born iff its
/// live-neighbor count is a birth threshold; an alive cell keeps its value
/// iff the count is a survival threshold, and dies otherwise.
pub open spec fn next_cell(g: Grid, birth: Seq<u8>, survive: Seq<u8>, x: int, y: int) -> u8 {
    let k = g.moore_sum(x, y) as u8;
    if g.at_xy(x, y) == 0 {
        if birth.contains(k) {
            1u8
        } else {
            0u8
        }
    } else {
        if survive.contains(k) {
            g.at_xy(x, y)
        } else {
            0u8
        }
    }
}

/// A cellular automaton: the current generation, a scratch buffer for the
/// next one, and the rule that decides births and survivals.
pub struct Automaton<R> {
    pub grid: Grid,
    /// The scratch buffer for the next generation. Exposed only so that the
    /// automaton's contracts can be stated; its contents between steps are
    /// unspecified.
    pub other_grid: Grid,
    pub rules: R,
}

impl<R: IsRules> Automaton<R> {
    /// Both buffers are well-formed grids of the same dimensions (their
    /// contents are unrelated between steps).
    pub open spec fn wf(self) -> bool {
        &&& self.grid.wf()
        &&& self.other_grid.wf()
        &&& self.other_grid.dim == self.grid.dim
    }

    /// Wrap an initial grid and a rule; the scratch buffer is allocated to
    /// the same shape.
    pub fn new(grid: Grid, rules: R) -> (r: Self)
        requires
            grid.wf(),
        ensures
            r.wf(),
            r.grid == grid,
            r.rules == rules,
    {
        let scratch = Grid::new(grid.dim.width, grid.dim.height);
        Automaton { grid, other_grid: scratch, rules }
    }

    /// Build an automaton over a fresh all-dead grid of the given
    /// dimensions.
    pub fn new_from_dims(width: isize, height: isize, rules: R) -> (r: Self)
        requires
            0 < width,
            0 < height,
            width * height <= isize::MAX,
        ensures
            r.wf(),
            r.grid.dim == (GridDim { width, height }),
            forall|i: int| 0 <= i < r.grid.array@.len() ==> r.grid.array@[i] == 0u8,
            r.rules == rules,
    {
        let grid = Grid::new(width, height);
        Automaton::new(grid, rules)
    }

    /// Advance the grid one generation: every cell's next state is computed
    /// from the previous generation only, written into the scratch buffer,
    /// and the buffers are then exchanged.
    pub fn step(&mut self)
        requires
            old(self).wf(),
        ensures
            final(self).wf(),
            final(self).rules == old(self).rules,
            final(self).grid.dim == old(self).grid.dim,
            forall|x: int, y: int|
                old(self).grid.dim.in_bounds_xy(x, y) ==> final(self).grid.at_xy(x, y)
                    == next_cell(
                    old(self).grid,
                    old(self).rules.spec_birth(),
                    old(self).rules.spec_survive(),
                    x,
                    y,
                ),
    {
        let birth = self.rules.get_birth();
        let survive = self.rules.get_surive();
        let w = self.grid.dim.width;
        let h = self.grid.dim.height;
        let ghost g0 = self.grid;
        let ghost bs = old(self).rules.spec_birth();
        let ghost ss = old(self).rules.spec_survive();
        let mut y: isize = 0;
        while y < h
            invariant
                0 <= y <= h,
                self.wf(),
                self.grid == g0,
                g0 == old(self).grid,
                self.rules == old(self).rules,
                w == self.grid.dim.width,
                h == self.grid.dim.height,
                birth@ == bs,
                survive@ == ss,
                bs == old(self).rules.spec_birth(),
                ss == old(self).rules.spec_survive(),
                forall|xx: int, yy: int|
                    0 <= xx < w && 0 <= yy < y ==> self.other_grid.at_xy(xx, yy) == next_cell(
                        g0,
                        bs,
                        ss,
                        xx,
                        yy,
                    ),
            decreases h - y,
        {
            let mut x: isize = 0;
            while x < w
                invariant
                    0 <= x <= w,
                    0 <= y < h,
                    self.wf(),
                    self.grid == g0,
                    g0 == old(self).grid,
                    self.rules == old(self).rules,
                    w == self.grid.dim.width,
                    h == self.grid.dim.height,
                    birth@ == bs,
                    survive@ == ss,
                    bs == old(self).rules.spec_birth(),
                    ss == old(self).rules.spec_survive(),
                    forall|xx: int, yy: int|
                        0 <= xx < w && 0 <= yy < y ==> self.other_grid.at_xy(xx, yy) == next_cell(
                            g0,
                            bs,
                            ss,
                            xx,
                            yy,
                        ),
                    forall|xx: int|
                        0 <= xx < x ==> self.other_grid.at_xy(xx, y as int) == next_cell(
                            g0,
                            bs,
                            ss,
                            xx,
                            y as int,
                        ),
                decreases w - x,
            {
                let p = Point { x, y };
                let k = self.grid.sum_neighbors_with_outside_dead(p);
                let cur = self.grid.index(p).unwrap();
                let next_value: u8 = if cur == 0 {
                    if contains_threshold(&birth, k) {
                        1
                    } else {
                        0
                    }
                } else {
                    if contains_threshold(&survive, k) {
                        cur
                    } else {
                        0
                    }
                };
                proof {
                    assert(next_value == next_cell(g0, bs, ss, x as int, y as int));
                }
                let ghost before = self.other_grid;
                self.other_grid.index_mut(p, next_value);
                proof {
                    assert forall|xx: int, yy: int|
                        (0 <= xx < w && 0 <= yy < y) || (0 <= xx <= x && yy == y) implies
                        self.other_grid.at_xy(xx, yy) == next_cell(g0, bs, ss, xx, yy) by {
                        let q = Point { x: xx as isize, y: yy as isize };
                        if q == p {
                            assert(self.other_grid.at(p) == next_value);
                        } else {
                            assert(self.other_grid.at(q) == before.at(q));
                        }
                    }
                }
                x = x + 1;
            }
            y = y + 1;
        }
        core::mem::swap(&mut self.grid, &mut self.other_grid);
    }
}

/// Linear scan for a threshold value in a list.
fn contains_threshold(v: &Vec<u8>, k: u8) -> (r: bool)
    ensures
        r == v@.contains(k),
{
    let mut i: usize = 0;
    while i < v.len()
        invariant
            i <= v@.len(),
            forall|j: int| 0 <= j < i ==> v@[j] != k,
        decreases v@.len() - i,
    {
        if v[i] == k {
            return true;
        }
        i = i + 1;
    }
    false
}

} // verus!
