//! The tick scheduler: one pass over the grid per tick.
//!
//! A pass visits the rows from the one above the bottom row up to the top
//! row; the bottom row itself is never visited, so what lies there stays
//! until something displaces it. Within a row the columns are visited from
//! left to right on an even tick and from right to left on an odd one. Every
//! occupied cell that the pass comes to is updated, so a block that has moved
//! into a cell the pass has yet to visit is updated again there.
use crate::grid::{Grid, GridView};
use crate::kind::Block;
use crate::motion::{lemma_update_wf, Physics};
use vstd::prelude::*;

verus! {

/// The column visited as the `j`-th of a row.
pub open spec fn visit_column(width: int, parity: bool, j: int) -> int {
    if parity {
        width - 1 - j
    } else {
        j
    }
}

/// The row visited as the `i`-th of a pass.
pub open spec fn visit_row(height: int, i: int) -> int {
    height - 2 - i
}

impl GridView {
    /// The grid after the pass has come to cell `(x, y)`: the block there, if
    /// there is one, is updated.
    pub open spec fn step(self, physics: Physics, parity: bool, x: int, y: int) -> GridView {
        if self.occupied(x, y) {
            self.update(physics, x, y, parity)
        } else {
            self
        }
    }

    /// The grid after the first `j` cells of row `y` have been visited.
    pub open spec fn row_pass(self, physics: Physics, parity: bool, y: int, j: int) -> GridView
        decreases j,
    {
        if j <= 0 {
            self
        } else {
            self.row_pass(physics, parity, y, j - 1).step(
                physics,
                parity,
                visit_column(self.width as int, parity, j - 1),
                y,
            )
        }
    }

    /// The grid after the first `i` rows of the pass have been visited.
    pub open spec fn grid_pass(self, physics: Physics, parity: bool, i: int) -> GridView
        decreases i,
    {
        if i <= 0 {
            self
        } else {
            self.grid_pass(physics, parity, i - 1).row_pass(
                physics,
                parity,
                visit_row(self.height as int, i - 1),
                self.width as int,
            )
        }
    }

    /// The grid after one tick: a pass over every row but the bottom one. A
    /// proof about a given grid needs one unit of fuel of `grid_pass` for each
    /// row and one of `row_pass` for each column.
    pub open spec fn tick(self, physics: Physics, parity: bool) -> GridView {
        self.grid_pass(physics, parity, self.height - 1)
    }
}

/// Visiting cells keeps the size and the shape of the grid.
pub proof fn lemma_row_pass_wf(grid: GridView, physics: Physics, parity: bool, y: int, j: int)
    requires
        grid.wf(),
    ensures
        grid.row_pass(physics, parity, y, j).wf(),
        grid.row_pass(physics, parity, y, j).width == grid.width,
        grid.row_pass(physics, parity, y, j).height == grid.height,
    decreases j,
{
    if j > 0 {
        lemma_row_pass_wf(grid, physics, parity, y, j - 1);
        let before = grid.row_pass(physics, parity, y, j - 1);
        lemma_update_wf(before, physics, visit_column(grid.width as int, parity, j - 1), y, parity);
    }
}

/// Visiting rows keeps the size and the shape of the grid.
pub proof fn lemma_grid_pass_wf(grid: GridView, physics: Physics, parity: bool, i: int)
    requires
        grid.wf(),
    ensures
        grid.grid_pass(physics, parity, i).wf(),
        grid.grid_pass(physics, parity, i).width == grid.width,
        grid.grid_pass(physics, parity, i).height == grid.height,
    decreases i,
{
    if i > 0 {
        lemma_grid_pass_wf(grid, physics, parity, i - 1);
        let before = grid.grid_pass(physics, parity, i - 1);
        lemma_row_pass_wf(
            before,
            physics,
            parity,
            visit_row(grid.height as int, i - 1),
            grid.width as int,
        );
    }
}

/// A tick keeps the size and the shape of the grid.
pub proof fn lemma_tick_wf(grid: GridView, physics: Physics, parity: bool)
    requires
        grid.wf(),
    ensures
        grid.tick(physics, parity).wf(),
        grid.tick(physics, parity).width == grid.width,
        grid.tick(physics, parity).height == grid.height,
{
    lemma_grid_pass_wf(grid, physics, parity, grid.height - 1);
}

/// The simulation: the grid, the parity of the coming tick, and the tuning.
pub struct World {
    pub grid: Grid,
    /// `false` on an even tick, `true` on an odd one. The first tick is even.
    pub frame_parity: bool,
    pub physics: Physics,
}

impl World {
    /// A world with an empty grid of the given size, about to run its first
    /// tick.
    pub fn new(width: usize, height: usize, physics: Physics) -> (world: World)
        requires
            width * height <= usize::MAX,
        ensures
            world.grid@ == GridView::empty(width as nat, height as nat),
            !world.frame_parity,
            world.physics == physics,
    {
        World { grid: Grid::new(width, height), frame_parity: false, physics }
    }

    /// Replaces the grid by an empty one of the given size. The parity and
    /// the tuning stay.
    pub fn reset(&mut self, width: usize, height: usize)
        requires
            width * height <= usize::MAX,
        ensures
            final(self).grid@ == GridView::empty(width as nat, height as nat),
            final(self).frame_parity == old(self).frame_parity,
            final(self).physics == old(self).physics,
    {
        self.grid = Grid::new(width, height);
    }

    /// Runs one pass over the grid, with the parity as it stands.
    pub fn update_world(&mut self)
        ensures
            final(self).grid@ == old(self).grid@.tick(old(self).physics, old(self).frame_parity),
            final(self).frame_parity == old(self).frame_parity,
            final(self).physics == old(self).physics,
    {
        let ghost start = self.grid@;
        let ghost physics = self.physics;
        let parity = self.frame_parity;
        let width = self.grid.width();
        let height = self.grid.height();
        proof {
            self.grid.lemma_view_wf();
        }
        if height < 2 {
            return ;
        }
        let mut i: usize = 0;
        while i < height - 1
            invariant
                start.wf(),
                start.width == width,
                start.height == height,
                height >= 2,
                0 <= i <= height - 1,
                self.physics == physics,
                self.frame_parity == parity,
                self.grid@ == start.grid_pass(physics, parity, i as int),
            decreases height - 1 - i,
        {
            let y: usize = height - 2 - i;
            let ghost row_start = self.grid@;
            proof {
                lemma_grid_pass_wf(start, physics, parity, i as int);
            }
            let mut j: usize = 0;
            while j < width
                invariant
                    row_start.wf(),
                    row_start.width == width,
                    row_start.height == height,
                    y < height,
                    0 <= j <= width,
                    self.physics == physics,
                    self.frame_parity == parity,
                    self.grid@ == row_start.row_pass(physics, parity, y as int, j as int),
                decreases width - j,
            {
                let x: usize = if parity {
                    width - 1 - j
                } else {
                    j
                };
                proof {
                    lemma_row_pass_wf(row_start, physics, parity, y as int, j as int);
                }
                match self.grid.get_cell(x, y) {
                    Some(Some(_)) => {
                        Block::update(&mut self.grid, &self.physics, x, y, parity);
                    },
                    _ => {},
                }
                j += 1;
            }
            i += 1;
        }
    }

    /// Advances the simulation by one tick: one pass over the grid, after
    /// which the parity flips.
    pub fn advance_tick(&mut self)
        ensures
            final(self).grid@ == old(self).grid@.tick(old(self).physics, old(self).frame_parity),
            final(self).frame_parity == !old(self).frame_parity,
            final(self).physics == old(self).physics,
    {
        self.update_world();
        self.frame_parity = !self.frame_parity;
    }
}

} // verus!
