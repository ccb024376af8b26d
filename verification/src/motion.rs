//! The motion engine: what happens to one block in one tick.
//!
//! A block first has its velocity brought up to date, then moves, then ages.
//! It moves at most once: along the line its velocity points along, as far as
//! that line is free, or else by one of the short-range steps its kind
//! prefers. A block that is not affected by gravity does not move at all.
//!
//! Choices made where several are defensible:
//! - The move uses the velocity as it is after this tick's update.
//! - A block on the floor (no row below it) has its vertical velocity reset
//!   to `Physics::rest_velocity`.
//! - A slide that is blocked at once does not end the block's turn: the next
//!   direction of its fall preference is tried.
//! - A block ages at the cell it ends its move in.
use crate::grid::{Grid, GridView, Position};
use crate::kind::{Block, Direction};
use crate::line::{get_positions, line_len, line_offset, line_offsets, offsets_view};
use vstd::prelude::*;

verus! {

/// The tuning of the simulation.
#[derive(Clone, Copy, Debug, PartialEq, Eq, Structural)]
pub struct Physics {
    /// Added to the vertical velocity of a falling block every tick.
    pub gravity: i8,
    /// The vertical velocity of a block that rests on the floor.
    pub rest_velocity: i8,
}

impl Default for Physics {
    fn default() -> (physics: Physics)
        ensures
            physics == (Physics { gravity: 1, rest_velocity: 0 }),
    {
        Physics { gravity: 1, rest_velocity: 0 }
    }
}

/// The vertical velocity after one tick of gravity. It stays as it is rather
/// than leave the range of a signed byte; its top value is never taken.
pub open spec fn integrate_gravity(velocity_y: i8, gravity: i8) -> i8 {
    if i8::MIN <= velocity_y + gravity < i8::MAX {
        (velocity_y + gravity) as i8
    } else {
        velocity_y
    }
}

/// A cell one tick older: a block with a life cycle has lost one tick of life,
/// and is gone if less than one tick was left to it; any other block, and an
/// empty cell, is as it was.
pub open spec fn aged(cell: Option<Block>) -> Option<Block> {
    match cell {
        Some(block) => if !block.block_kind.spec_has_lifecycle() {
            cell
        } else if block.life_time - 1 < 1 {
            None
        } else {
            Some(Block { life_time: (block.life_time - 1) as i8, ..block })
        },
        None => None,
    }
}

/// The `k`-th cell of the line from `(x, y)` towards `(x + dx, y + dy)`.
pub open spec fn line_cell(x: int, y: int, dx: int, dy: int, k: int) -> Position {
    let offset = line_offset(dx, dy, k);
    (x + offset.0, y + offset.1)
}

/// The directions of one group in the order they are tried: as listed on an
/// even tick, reversed on an odd one.
pub open spec fn group_order(group: Seq<Direction>, parity: bool) -> Seq<Direction> {
    if parity {
        group.reverse()
    } else {
        group
    }
}

/// The position a machine pair stands for.
pub open spec fn position_view(position: (usize, usize)) -> Position {
    (position.0 as int, position.1 as int)
}

/// The position, if any, that an optional machine pair stands for.
pub open spec fn target_view(target: Option<(usize, usize)>) -> Option<Position> {
    match target {
        Some(position) => Some(position_view(position)),
        None => None,
    }
}

impl GridView {
    /// The vertical velocity of the block at `(x, y)` after this tick's
    /// update: the rest velocity on the floor, else one more step of gravity
    /// for a block that gravity affects.
    pub open spec fn next_velocity_y(self, physics: Physics, x: int, y: int) -> i8 {
        let block = self.at(x, y).unwrap();
        if self.get_cell(x, y + 1) is None {
            physics.rest_velocity
        } else if block.block_kind.spec_affected_by_gravity() {
            integrate_gravity(block.velocity_y, physics.gravity)
        } else {
            block.velocity_y
        }
    }

    /// The grid after the velocity update of the block at `(x, y)`.
    pub open spec fn update_block_velocity(self, physics: Physics, x: int, y: int) -> GridView {
        let block = self.at(x, y).unwrap();
        self.set_cell(
            x,
            y,
            Some(Block { velocity_y: self.next_velocity_y(physics, x, y), ..block }),
        )
    }

    /// How far the line from `(x, y)` with deltas `(dx, dy)` is free, given
    /// that its first `k` cells are: the number of cells from its start up to
    /// the first one that is off the grid or occupied. A proof about a given
    /// grid needs one unit of fuel for each cell of the line.
    pub open spec fn free_run(self, x: int, y: int, dx: int, dy: int, k: int) -> int
        decreases line_len(dx, dy) - k,
    {
        let next = line_cell(x, y, dx, dy, k + 1);
        if 0 <= k < line_len(dx, dy) && self.position_is_empty(next.0, next.1) {
            self.free_run(x, y, dx, dy, k + 1)
        } else {
            k
        }
    }

    /// Where a long-range move from `(x, y)` towards `(x + dx, y + dy)` ends:
    /// the farthest cell of the line that is reached over empty cells only,
    /// or `None` if not even the nearest cell is free.
    pub open spec fn long_move_target(self, x: int, y: int, dx: int, dy: int) -> Option<Position> {
        let reach = self.free_run(x, y, dx, dy, 0);
        if reach == 0 {
            None
        } else {
            Some(line_cell(x, y, dx, dy, reach))
        }
    }

    /// The grid after the block at `(x, y)` has moved to `target`, if there is
    /// one.
    pub open spec fn relocate(self, x: int, y: int, target: Option<Position>) -> GridView {
        match target {
            Some(cell) => self.swap_cells((x, y), cell),
            None => self,
        }
    }

    /// Where the block at `(x, y)` gets by a short-range step in `direction`.
    /// A sideways step of a kind that slides is a long-range move over its
    /// sliding speed. Any other step goes to the neighbour, if that is on the
    /// grid and empty or holds a block of strictly lower density.
    pub open spec fn simple_move_target(self, x: int, y: int, direction: Direction) -> Option<
        Position,
    > {
        let kind = self.at(x, y).unwrap().block_kind;
        if direction.1 == 0 && kind.spec_sliding_speed() != 0 {
            self.long_move_target(x, y, direction.0 * kind.spec_sliding_speed(), 0)
        } else {
            let neighbour = (x + direction.0, y + direction.1);
            match self.get_cell(neighbour.0, neighbour.1) {
                None => None,
                Some(None) => Some(neighbour),
                Some(Some(other)) => if other.block_kind.spec_density() < kind.spec_density() {
                    Some(neighbour)
                } else {
                    None
                },
            }
        }
    }

    /// The target of the first direction of `directions`, from index `i` on,
    /// that gives one.
    pub open spec fn first_target(self, x: int, y: int, directions: Seq<Direction>, i: int) -> Option<
        Position,
    >
        decreases directions.len() - i,
    {
        if i < 0 || i >= directions.len() {
            None
        } else {
            match self.simple_move_target(x, y, directions[i]) {
                Some(target) => Some(target),
                None => self.first_target(x, y, directions, i + 1),
            }
        }
    }

    /// The target of the first group of `groups`, from index `j` on, that
    /// gives one, each group taken in the order of this tick.
    pub open spec fn first_group_target(
        self,
        x: int,
        y: int,
        groups: Seq<Seq<Direction>>,
        parity: bool,
        j: int,
    ) -> Option<Position>
        decreases groups.len() - j,
    {
        if j < 0 || j >= groups.len() {
            None
        } else {
            match self.first_target(x, y, group_order(groups[j], parity), 0) {
                Some(target) => Some(target),
                None => self.first_group_target(x, y, groups, parity, j + 1),
            }
        }
    }

    /// Where the short-range rules take the block at `(x, y)`.
    pub open spec fn simple_rules_target(self, x: int, y: int, parity: bool) -> Option<Position> {
        let kind = self.at(x, y).unwrap().block_kind;
        self.first_group_target(x, y, kind.fall_groups(), parity, 0)
    }

    /// Where the long-range move along its velocity takes the block at
    /// `(x, y)`.
    pub open spec fn velocity_target(self, x: int, y: int) -> Option<Position> {
        let block = self.at(x, y).unwrap();
        self.long_move_target(x, y, block.velocity_x as int, block.velocity_y as int)
    }

    /// Where the block at `(x, y)` moves this tick, if it moves: nowhere if
    /// gravity does not affect it, else along its velocity, else by the
    /// short-range rules.
    pub open spec fn move_target(self, x: int, y: int, parity: bool) -> Option<Position> {
        let block = self.at(x, y).unwrap();
        if !block.block_kind.spec_affected_by_gravity() {
            None
        } else {
            match self.velocity_target(x, y) {
                Some(target) => Some(target),
                None => self.simple_rules_target(x, y, parity),
            }
        }
    }

    /// The grid after the content of cell `(x, y)` has aged by one tick; a
    /// position off the grid changes nothing.
    pub open spec fn handle_lifecycle(self, x: int, y: int) -> GridView {
        self.set_cell(x, y, aged(self.at(x, y)))
    }

    /// The grid after the whole update of the block at `(x, y)`: velocity,
    /// then move, then ageing at the cell the block is in after its move.
    pub open spec fn update(self, physics: Physics, x: int, y: int, parity: bool) -> GridView {
        let settled = self.update_block_velocity(physics, x, y);
        let target = settled.move_target(x, y, parity);
        let moved = settled.relocate(x, y, target);
        match target {
            Some(cell) => moved.handle_lifecycle(cell.0, cell.1),
            None => moved.handle_lifecycle(x, y),
        }
    }
}

/// Writing a cell keeps the size and the shape of the grid.
pub proof fn lemma_set_cell_wf(grid: GridView, x: int, y: int, cell: Option<Block>)
    requires
        grid.wf(),
    ensures
        grid.set_cell(x, y, cell).wf(),
        grid.set_cell(x, y, cell).width == grid.width,
        grid.set_cell(x, y, cell).height == grid.height,
{
}

/// A move keeps the size and the shape of the grid.
pub proof fn lemma_relocate_wf(grid: GridView, x: int, y: int, target: Option<Position>)
    requires
        grid.wf(),
    ensures
        grid.relocate(x, y, target).wf(),
        grid.relocate(x, y, target).width == grid.width,
        grid.relocate(x, y, target).height == grid.height,
{
    if let Some(cell) = target {
        let first = grid.set_cell(x, y, grid.at(cell.0, cell.1));
        lemma_set_cell_wf(grid, x, y, grid.at(cell.0, cell.1));
        lemma_set_cell_wf(first, cell.0, cell.1, grid.at(x, y));
    }
}

/// The update of a block keeps the size and the shape of the grid.
pub proof fn lemma_update_wf(grid: GridView, physics: Physics, x: int, y: int, parity: bool)
    requires
        grid.wf(),
    ensures
        grid.update(physics, x, y, parity).wf(),
        grid.update(physics, x, y, parity).width == grid.width,
        grid.update(physics, x, y, parity).height == grid.height,
{
    let block = grid.at(x, y).unwrap();
    let settled = grid.update_block_velocity(physics, x, y);
    lemma_set_cell_wf(
        grid,
        x,
        y,
        Some(Block { velocity_y: grid.next_velocity_y(physics, x, y), ..block }),
    );
    let target = settled.move_target(x, y, parity);
    let moved = settled.relocate(x, y, target);
    lemma_relocate_wf(settled, x, y, target);
    let end: Position = match target {
        Some(cell) => cell,
        None => (x, y),
    };
    lemma_set_cell_wf(moved, end.0, end.1, aged(moved.at(end.0, end.1)));
}

/// `position + offset`, where that is an index the machine can hold.
fn shift(position: usize, offset: i32) -> (shifted: Option<usize>)
    ensures
        match shifted {
            Some(index) => index == position + offset,
            None => position + offset < 0 || position + offset > usize::MAX,
        },
{
    if offset >= 0 {
        position.checked_add(offset as usize)
    } else {
        position.checked_sub((-(offset as i64)) as usize)
    }
}

impl Block {
    /// Brings the vertical velocity of the block at `(x, y)` up to date.
    pub fn update_block_velocity(grid: &mut Grid, physics: &Physics, x: usize, y: usize)
        requires
            old(grid)@.occupied(x as int, y as int),
        ensures
            final(grid)@ == old(grid)@.update_block_velocity(*physics, x as int, y as int),
    {
        proof {
            grid.lemma_view_wf();
        }
        let block = grid.get_cell(x, y).unwrap().unwrap();
        let floor = match y.checked_add(1) {
            Some(below) => grid.get_cell(x, below).is_none(),
            None => true,
        };
        let velocity_y = if floor {
            physics.rest_velocity
        } else if block.block_kind.affected_by_gravity() {
            let sum: i16 = block.velocity_y as i16 + physics.gravity as i16;
            if -128 <= sum && sum < 127 {
                sum as i8
            } else {
                block.velocity_y
            }
        } else {
            block.velocity_y
        };
        grid.set_cell(x, y, Some(Block { velocity_y, ..block }));
    }

    /// Moves the content of `current` along the line with the deltas `delta`,
    /// over empty cells only, as far as it gets. Returns the cell it moved to;
    /// `None`, with the grid untouched, if it could not move at all.
    pub fn long_move(grid: &mut Grid, current: (usize, usize), delta: (i32, i32)) -> (target: Option<
        (usize, usize),
    >)
        requires
            old(grid)@.in_bounds(current.0 as int, current.1 as int),
        ensures
            target_view(target) == old(grid)@.long_move_target(
                current.0 as int,
                current.1 as int,
                delta.0 as int,
                delta.1 as int,
            ),
            final(grid)@ == old(grid)@.relocate(
                current.0 as int,
                current.1 as int,
                target_view(target),
            ),
    {
        let ghost before = grid@;
        let ghost x = current.0 as int;
        let ghost y = current.1 as int;
        let ghost dx = delta.0 as int;
        let ghost dy = delta.1 as int;
        proof {
            grid.lemma_view_wf();
        }
        let offsets = get_positions(delta.0, delta.1);
        assert(offsets_view(offsets@).len() == line_offsets(dx, dy).len());
        let mut best_position: Option<(usize, usize)> = None;
        let mut blocked = false;
        let mut i: usize = 0;
        while i < offsets.len() && !blocked
            invariant
                grid@ == before,
                before.wf(),
                before.width <= usize::MAX,
                before.height <= usize::MAX,
                x == current.0,
                y == current.1,
                offsets_view(offsets@) == line_offsets(dx, dy),
                0 <= i <= offsets@.len() == line_len(dx, dy),
                before.free_run(x, y, dx, dy, 0) == before.free_run(x, y, dx, dy, i as int),
                blocked ==> before.free_run(x, y, dx, dy, i as int) == i,
                i == 0 ==> best_position is None,
                i > 0 ==> target_view(best_position) == Some(line_cell(x, y, dx, dy, i as int)),
                i > 0 ==> before.in_bounds(best_position.unwrap().0 as int, best_position.unwrap().1 as int),
            decreases offsets@.len() - i + (if blocked { 0int } else { 1int }),
        {
            let offset = offsets[i];
            assert(offsets_view(offsets@)[i as int] == line_offset(dx, dy, i + 1));
            let free = match (shift(current.0, offset.0), shift(current.1, offset.1)) {
                (Some(next_x), Some(next_y)) => {
                    if grid.position_is_empty((next_x, next_y)) {
                        best_position = Some((next_x, next_y));
                        true
                    } else {
                        false
                    }
                },
                _ => false,
            };
            if free {
                i += 1;
            } else {
                blocked = true;
            }
        }
        match best_position {
            Some(best_position) => {
                grid.swap_cells(current, best_position);
                Some(best_position)
            },
            None => None,
        }
    }

    /// The long-range move of the block at `(x, y)` along its velocity.
    pub fn velocity_based_move(grid: &mut Grid, x: usize, y: usize) -> (target: Option<
        (usize, usize),
    >)
        requires
            old(grid)@.occupied(x as int, y as int),
        ensures
            target_view(target) == old(grid)@.velocity_target(x as int, y as int),
            final(grid)@ == old(grid)@.relocate(x as int, y as int, target_view(target)),
    {
        proof {
            grid.lemma_view_wf();
        }
        let block = grid.get_cell(x, y).unwrap().unwrap();
        Block::long_move(grid, (x, y), (block.velocity_x as i32, block.velocity_y as i32))
    }

    /// One short-range step of the block at `current` in `direction`, if the
    /// rules allow it. Returns the cell the block moved to.
    pub fn try_simple_move(grid: &mut Grid, direction: Direction, current: (usize, usize)) -> (target:
        Option<(usize, usize)>)
        requires
            old(grid)@.occupied(current.0 as int, current.1 as int),
        ensures
            target_view(target) == old(grid)@.simple_move_target(
                current.0 as int,
                current.1 as int,
                direction,
            ),
            final(grid)@ == old(grid)@.relocate(
                current.0 as int,
                current.1 as int,
                target_view(target),
            ),
    {
        proof {
            grid.lemma_view_wf();
        }
        let kind = grid.get_cell(current.0, current.1).unwrap().unwrap().block_kind;
        let sliding_speed = kind.sliding_speed();
        if direction.1 == 0 && sliding_speed != 0 {
            let reach: i32 = direction.0 as i32 * sliding_speed as i32;
            return Block::long_move(grid, current, (reach, 0));
        }
        let neighbour = match (
            shift(current.0, direction.0 as i32),
            shift(current.1, direction.1 as i32),
        ) {
            (Some(new_x), Some(new_y)) => (new_x, new_y),
            _ => {
                return None;
            },
        };
        let gives_way = match grid.get_cell(neighbour.0, neighbour.1) {
            None => false,
            Some(None) => true,
            Some(Some(other)) => other.block_kind.density() < kind.density(),
        };
        if gives_way {
            grid.swap_cells(current, neighbour);
            Some(neighbour)
        } else {
            None
        }
    }

    /// The short-range move of the block at `current`: the first direction of
    /// its kind's fall preference that the rules allow. Within a group the
    /// directions are tried as listed on an even tick and in reverse on an
    /// odd one.
    pub fn simple_rules_move(grid: &mut Grid, current: (usize, usize), frame_parity: bool) -> (target:
        Option<(usize, usize)>)
        requires
            old(grid)@.occupied(current.0 as int, current.1 as int),
        ensures
            target_view(target) == old(grid)@.simple_rules_target(
                current.0 as int,
                current.1 as int,
                frame_parity,
            ),
            final(grid)@ == old(grid)@.relocate(
                current.0 as int,
                current.1 as int,
                target_view(target),
            ),
    {
        let ghost before = grid@;
        let ghost x = current.0 as int;
        let ghost y = current.1 as int;
        proof {
            grid.lemma_view_wf();
        }
        let kind = grid.get_cell(current.0, current.1).unwrap().unwrap().block_kind;
        let groups = kind.directions_to_fall();
        let ghost fall_groups = kind.fall_groups();
        let mut j: usize = 0;
        while j < groups.len()
            invariant
                grid@ == before,
                before == old(grid)@,
                before.occupied(x, y),
                x == current.0,
                y == current.1,
                fall_groups == before.at(x, y).unwrap().block_kind.fall_groups(),
                groups.deep_view() == fall_groups,
                0 <= j <= groups@.len(),
                before.first_group_target(x, y, fall_groups, frame_parity, 0)
                    == before.first_group_target(x, y, fall_groups, frame_parity, j as int),
            decreases groups@.len() - j,
        {
            let group = &groups[j];
            let ghost order = group_order(fall_groups[j as int], frame_parity);
            assert(fall_groups[j as int] == group.deep_view());
            let mut i: usize = 0;
            while i < group.len()
                invariant
                    grid@ == before,
                    before == old(grid)@,
                    before.occupied(x, y),
                    x == current.0,
                    y == current.1,
                    fall_groups == before.at(x, y).unwrap().block_kind.fall_groups(),
                    0 <= i <= group@.len(),
                    order == group_order(group.deep_view(), frame_parity),
                    before.first_target(x, y, order, 0) == before.first_target(x, y, order, i as int),
                    before.first_group_target(x, y, fall_groups, frame_parity, j as int) == (
                    match before.first_target(x, y, order, 0) {
                        Some(target) => Some(target),
                        None => before.first_group_target(x, y, fall_groups, frame_parity, j + 1),
                    }),
                    before.first_group_target(x, y, fall_groups, frame_parity, 0)
                        == before.first_group_target(x, y, fall_groups, frame_parity, j as int),
                decreases group@.len() - i,
            {
                let direction = if frame_parity {
                    group[group.len() - 1 - i]
                } else {
                    group[i]
                };
                assert(order[i as int] == direction);
                let target = Block::try_simple_move(grid, direction, current);
                if target.is_some() {
                    return target;
                }
                i += 1;
            }
            j += 1;
        }
        None
    }

    /// Moves the block at `(x, y)`, if gravity affects it: along its velocity
    /// if that changes its position, else by the short-range rules. Returns
    /// the cell the block moved to, if it moved.
    pub fn move_block(grid: &mut Grid, x: usize, y: usize, frame_parity: bool) -> (target: Option<
        (usize, usize),
    >)
        requires
            old(grid)@.occupied(x as int, y as int),
        ensures
            target_view(target) == old(grid)@.move_target(x as int, y as int, frame_parity),
            final(grid)@ == old(grid)@.relocate(x as int, y as int, target_view(target)),
    {
        proof {
            grid.lemma_view_wf();
        }
        let block = grid.get_cell(x, y).unwrap().unwrap();
        if !block.block_kind.affected_by_gravity() {
            return None;
        }
        match Block::velocity_based_move(grid, x, y) {
            Some(target) => Some(target),
            None => Block::simple_rules_move(grid, (x, y), frame_parity),
        }
    }

    /// Ages the block at `(x, y)` by one tick, and removes it when its life
    /// is over. An empty cell and a position off the grid are left alone.
    pub fn handle_lifecycle(grid: &mut Grid, x: usize, y: usize)
        ensures
            final(grid)@ == old(grid)@.handle_lifecycle(x as int, y as int),
    {
        proof {
            grid.lemma_view_wf();
            let before = grid@;
            assert(before.in_bounds(x as int, y as int) ==> before.set_cell(
                x as int,
                y as int,
                before.at(x as int, y as int),
            ).rows =~~= before.rows);
        }
        match grid.get_cell(x, y) {
            Some(Some(block)) => {
                if block.block_kind.has_lifecycle() {
                    if block.life_time <= 1 {
                        grid.set_cell(x, y, None);
                    } else {
                        grid.set_cell(x, y, Some(Block { life_time: block.life_time - 1, ..block }));
                    }
                }
            },
            _ => {},
        }
    }

    /// The whole update of the block at `(x, y)` for one tick.
    pub fn update(grid: &mut Grid, physics: &Physics, x: usize, y: usize, frame_parity: bool)
        requires
            old(grid)@.occupied(x as int, y as int),
        ensures
            final(grid)@ == old(grid)@.update(*physics, x as int, y as int, frame_parity),
    {
        proof {
            grid.lemma_view_wf();
        }
        Block::update_block_velocity(grid, physics, x, y);
        match Block::move_block(grid, x, y, frame_parity) {
            Some(target) => Block::handle_lifecycle(grid, target.0, target.1),
            None => Block::handle_lifecycle(grid, x, y),
        }
    }
}

} // verus!
