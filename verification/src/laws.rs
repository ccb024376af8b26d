//! What holds of every move and of every tick.
//!
//! - Occupancy: [`lemma_move_keeps_kinds`], [`lemma_tick_occupancy`],
//!   [`lemma_tick_keeps_kinds`]. Movement neither creates nor destroys a
//!   block; only blocks with a life cycle ever vanish.
//! - Single move: [`lemma_update_moves_once`] for one update;
//!   [`lemma_fallen_block_rests`] for a whole pass, as long as its steps are
//!   plain falls; [`lemma_calm_pass_moves_once`] for a whole pass over a grid
//!   on which blocks can do nothing but fall. Any other pass may move a block
//!   twice: it updates a block again that has slid ahead of it, and a block
//!   may be displaced after its own move.
//! - Density ordering: [`lemma_move_respects_density`],
//!   [`lemma_long_move_passes_no_block`].
//! - Bottom boundary: [`lemma_bottom_row_never_visited`],
//!   [`lemma_bottom_row_is_left_alone`].
//! - Parity alternation: [`lemma_column_order_reverses`],
//!   [`lemma_column_order_alternates`], [`lemma_group_order_reverses`],
//!   [`lemma_diagonal_tie_break`].
//! - Life cycle: [`lemma_lifecycle_expiry`], [`lemma_still_grid_only_ages`],
//!   [`lemma_still_grid_ages_by_the_tick`].
//! - The order in which directions are tried: [`lemma_first_target_is_first`],
//!   [`lemma_first_group_target_is_first`].
//! - Snapshots: [`lemma_snapshot_lists_occupied_cells`].
use crate::grid::{
    cell_kinds, row_kinds, row_snapshot, rows_kinds, rows_snapshot, GridView, Position,
};
use crate::kind::{Block, BlockKind, Direction, DOWN, DOWN_LEFT, DOWN_RIGHT};
use crate::line::{lemma_round_ratio_bounds, lemma_round_ratio_major, line_len};
use crate::motion::{
    aged, group_order, lemma_relocate_wf, lemma_set_cell_wf, lemma_update_wf, line_cell, Physics,
};
use crate::world::{lemma_grid_pass_wf, lemma_row_pass_wf, visit_column, visit_row};
use vstd::multiset::Multiset;
use vstd::prelude::*;

verus! {

/// How often `kind` occurs in a cell: once or never.
pub open spec fn cell_count(cell: Option<Block>, kind: BlockKind) -> nat {
    cell_kinds(cell).count(kind)
}

/// Overwriting one cell of a row trades the kind that was there for the kind
/// that comes.
proof fn lemma_row_kinds_update(
    row: Seq<Option<Block>>,
    n: nat,
    x: int,
    cell: Option<Block>,
    kind: BlockKind,
)
    requires
        n <= row.len(),
        0 <= x < row.len(),
    ensures
        x < n ==> row_kinds(row.update(x, cell), n).count(kind) + cell_count(row[x], kind)
            == row_kinds(row, n).count(kind) + cell_count(cell, kind),
        x >= n ==> row_kinds(row.update(x, cell), n).count(kind) == row_kinds(row, n).count(kind),
    decreases n,
{
    if n > 0 {
        lemma_row_kinds_update(row, (n - 1) as nat, x, cell, kind);
    }
}

/// Replacing one row trades the kinds that were in it for the kinds that
/// come.
proof fn lemma_rows_kinds_update(
    rows: Seq<Seq<Option<Block>>>,
    n: nat,
    y: int,
    row: Seq<Option<Block>>,
    kind: BlockKind,
)
    requires
        n <= rows.len(),
        0 <= y < rows.len(),
    ensures
        y < n ==> rows_kinds(rows.update(y, row), n).count(kind) + row_kinds(
            rows[y],
            rows[y].len(),
        ).count(kind) == rows_kinds(rows, n).count(kind) + row_kinds(row, row.len()).count(kind),
        y >= n ==> rows_kinds(rows.update(y, row), n).count(kind) == rows_kinds(rows, n).count(kind),
    decreases n,
{
    if n > 0 {
        lemma_rows_kinds_update(rows, (n - 1) as nat, y, row, kind);
    }
}

/// Writing a cell trades the kind that was in it for the kind that comes.
pub proof fn lemma_set_cell_kinds(grid: GridView, x: int, y: int, cell: Option<Block>, kind: BlockKind)
    requires
        grid.wf(),
        grid.in_bounds(x, y),
    ensures
        grid.set_cell(x, y, cell).kinds().count(kind) + cell_count(grid.at(x, y), kind)
            == grid.kinds().count(kind) + cell_count(cell, kind),
{
    let row = grid.rows[y];
    let new_row = row.update(x, cell);
    lemma_row_kinds_update(row, row.len(), x, cell, kind);
    lemma_rows_kinds_update(grid.rows, grid.height, y, new_row, kind);
}

/// Exchanging two cells neither creates nor destroys a block.
pub proof fn lemma_swap_cells_kinds(grid: GridView, a: Position, b: Position)
    requires
        grid.wf(),
        grid.in_bounds(a.0, a.1),
        grid.in_bounds(b.0, b.1),
    ensures
        grid.swap_cells(a, b).kinds() == grid.kinds(),
{
    let first = grid.set_cell(a.0, a.1, grid.at(b.0, b.1));
    lemma_set_cell_wf(grid, a.0, a.1, grid.at(b.0, b.1));
    let after = grid.swap_cells(a, b).kinds();
    assert forall|kind: BlockKind| after.count(kind) == grid.kinds().count(kind) by {
        lemma_set_cell_kinds(grid, a.0, a.1, grid.at(b.0, b.1), kind);
        lemma_set_cell_kinds(first, b.0, b.1, grid.at(a.0, a.1), kind);
    }
    assert(after =~= grid.kinds());
}

/// What the free run of a line says: every cell of the line up to it is on
/// the grid and empty, and the cell after it, if the line has one, is not.
pub proof fn lemma_free_run(grid: GridView, x: int, y: int, dx: int, dy: int, k: int)
    requires
        0 <= k <= line_len(dx, dy),
    ensures
        k <= grid.free_run(x, y, dx, dy, k) <= line_len(dx, dy),
        forall|m: int|
            k < m <= grid.free_run(x, y, dx, dy, k) ==> {
                let cell = #[trigger] line_cell(x, y, dx, dy, m);
                grid.position_is_empty(cell.0, cell.1)
            },
        grid.free_run(x, y, dx, dy, k) < line_len(dx, dy) ==> {
            let cell = line_cell(x, y, dx, dy, grid.free_run(x, y, dx, dy, k) + 1);
            !grid.position_is_empty(cell.0, cell.1)
        },
    decreases line_len(dx, dy) - k,
{
    let next = line_cell(x, y, dx, dy, k + 1);
    if k < line_len(dx, dy) && grid.position_is_empty(next.0, next.1) {
        lemma_free_run(grid, x, y, dx, dy, k + 1);
    }
}

/// A long-range move never passes a block or leaves the grid: it ends on the
/// line, every cell of the line up to where it ends was empty, and it goes
/// no farther only where the line ends or the next cell is not free.
pub proof fn lemma_long_move_passes_no_block(grid: GridView, x: int, y: int, dx: int, dy: int)
    ensures
        match grid.long_move_target(x, y, dx, dy) {
            Some(target) => exists|reach: int|
                {
                    &&& 1 <= reach <= line_len(dx, dy)
                    &&& target == line_cell(x, y, dx, dy, reach)
                    &&& forall|m: int|
                        1 <= m <= reach ==> {
                            let cell = #[trigger] line_cell(x, y, dx, dy, m);
                            grid.position_is_empty(cell.0, cell.1)
                        }
                    &&& reach < line_len(dx, dy) ==> {
                        let cell = line_cell(x, y, dx, dy, reach + 1);
                        !grid.position_is_empty(cell.0, cell.1)
                    }
                },
            None => line_len(dx, dy) == 0 || {
                let cell = line_cell(x, y, dx, dy, 1);
                !grid.position_is_empty(cell.0, cell.1)
            },
        },
{
    lemma_free_run(grid, x, y, dx, dy, 0);
    let reach = grid.free_run(x, y, dx, dy, 0);
    if reach > 0 {
        assert(1 <= reach <= line_len(dx, dy) && grid.long_move_target(x, y, dx, dy) == Some(
            line_cell(x, y, dx, dy, reach),
        ));
    }
}

/// A long-range move ends in a cell that was empty.
pub proof fn lemma_long_move_target_empty(grid: GridView, x: int, y: int, dx: int, dy: int)
    ensures
        match grid.long_move_target(x, y, dx, dy) {
            Some(target) => grid.position_is_empty(target.0, target.1),
            None => true,
        },
{
    lemma_free_run(grid, x, y, dx, dy, 0);
    let reach = grid.free_run(x, y, dx, dy, 0);
    if reach > 0 {
        let cell = line_cell(x, y, dx, dy, reach);
        assert(grid.position_is_empty(cell.0, cell.1));
    }
}

/// Of a list of directions the first that allows a step is taken: the target
/// found from index `from` on is the target of some direction, and every
/// direction before that one allows no step. No target is found only if no
/// direction allows a step.
pub proof fn lemma_first_target_is_first(
    grid: GridView,
    x: int,
    y: int,
    directions: Seq<Direction>,
    from: int,
)
    requires
        0 <= from <= directions.len(),
    ensures
        match grid.first_target(x, y, directions, from) {
            Some(target) => exists|i: int|
                {
                    &&& from <= i < directions.len()
                    &&& grid.simple_move_target(x, y, #[trigger] directions[i]) == Some(target)
                    &&& forall|m: int|
                        from <= m < i ==> grid.simple_move_target(x, y, #[trigger] directions[m])
                            is None
                },
            None => forall|m: int|
                from <= m < directions.len() ==> grid.simple_move_target(
                    x,
                    y,
                    #[trigger] directions[m],
                ) is None,
        },
    decreases directions.len() - from,
{
    if from < directions.len() {
        lemma_first_target_is_first(grid, x, y, directions, from + 1);
        match grid.simple_move_target(x, y, directions[from]) {
            Some(target) => {
                assert(grid.simple_move_target(x, y, directions[from]) == Some(target));
            },
            None => {
                if let Some(target) = grid.first_target(x, y, directions, from + 1) {
                    let i = choose|i: int|
                        {
                            &&& from + 1 <= i < directions.len()
                            &&& grid.simple_move_target(x, y, #[trigger] directions[i]) == Some(
                                target,
                            )
                            &&& forall|m: int|
                                from + 1 <= m < i ==> grid.simple_move_target(
                                    x,
                                    y,
                                    #[trigger] directions[m],
                                ) is None
                        };
                    assert(grid.simple_move_target(x, y, directions[i]) == Some(target));
                }
            },
        }
    }
}

/// Of the groups of a fall preference the first that allows a step is taken:
/// the target found from group `from` on is the target of some group, taken
/// in the order of this tick, and every group before that one allows no
/// step. No target is found only if no group allows a step.
pub proof fn lemma_first_group_target_is_first(
    grid: GridView,
    x: int,
    y: int,
    groups: Seq<Seq<Direction>>,
    parity: bool,
    from: int,
)
    requires
        0 <= from <= groups.len(),
    ensures
        match grid.first_group_target(x, y, groups, parity, from) {
            Some(target) => exists|j: int|
                {
                    &&& from <= j < groups.len()
                    &&& grid.first_target(x, y, group_order(#[trigger] groups[j], parity), 0)
                        == Some(target)
                    &&& forall|m: int|
                        from <= m < j ==> grid.first_target(
                            x,
                            y,
                            group_order(#[trigger] groups[m], parity),
                            0,
                        ) is None
                },
            None => forall|m: int|
                from <= m < groups.len() ==> grid.first_target(
                    x,
                    y,
                    group_order(#[trigger] groups[m], parity),
                    0,
                ) is None,
        },
    decreases groups.len() - from,
{
    if from < groups.len() {
        lemma_first_group_target_is_first(grid, x, y, groups, parity, from + 1);
        match grid.first_target(x, y, group_order(groups[from], parity), 0) {
            Some(target) => {
                assert(grid.first_target(x, y, group_order(groups[from], parity), 0) == Some(
                    target,
                ));
            },
            None => {
                if let Some(target) = grid.first_group_target(x, y, groups, parity, from + 1) {
                    let j = choose|j: int|
                        {
                            &&& from + 1 <= j < groups.len()
                            &&& grid.first_target(
                                x,
                                y,
                                group_order(#[trigger] groups[j], parity),
                                0,
                            ) == Some(target)
                            &&& forall|m: int|
                                from + 1 <= m < j ==> grid.first_target(
                                    x,
                                    y,
                                    group_order(#[trigger] groups[m], parity),
                                    0,
                                ) is None
                        };
                    assert(grid.first_target(x, y, group_order(groups[j], parity), 0) == Some(
                        target,
                    ));
                }
            },
        }
    }
}

/// The cell `target` lets the block at `(x, y)` in: it is another cell of the
/// grid, and it is empty or holds a block of strictly lower density.
pub open spec fn gives_way(grid: GridView, x: int, y: int, target: Position) -> bool {
    &&& grid.in_bounds(target.0, target.1)
    &&& target != (x, y)
    &&& match grid.at(target.0, target.1) {
        Some(other) => other.block_kind.spec_density() < grid.at(
            x,
            y,
        ).unwrap().block_kind.spec_density(),
        None => true,
    }
}

/// Whatever `target` is, it lets the block at `(x, y)` in.
pub open spec fn allowed(grid: GridView, x: int, y: int, target: Option<Position>) -> bool {
    match target {
        Some(cell) => gives_way(grid, x, y, cell),
        None => true,
    }
}

proof fn lemma_simple_move_allowed(grid: GridView, x: int, y: int, direction: Direction)
    requires
        grid.occupied(x, y),
    ensures
        allowed(grid, x, y, grid.simple_move_target(x, y, direction)),
{
    let kind = grid.at(x, y).unwrap().block_kind;
    if direction.1 == 0 && kind.spec_sliding_speed() != 0 {
        lemma_long_move_target_empty(grid, x, y, direction.0 * kind.spec_sliding_speed(), 0);
    }
}

proof fn lemma_first_target_allowed(
    grid: GridView,
    x: int,
    y: int,
    directions: Seq<Direction>,
    i: int,
)
    requires
        grid.occupied(x, y),
    ensures
        allowed(grid, x, y, grid.first_target(x, y, directions, i)),
    decreases directions.len() - i,
{
    if 0 <= i < directions.len() {
        lemma_simple_move_allowed(grid, x, y, directions[i]);
        lemma_first_target_allowed(grid, x, y, directions, i + 1);
    }
}

proof fn lemma_first_group_target_allowed(
    grid: GridView,
    x: int,
    y: int,
    groups: Seq<Seq<Direction>>,
    parity: bool,
    j: int,
)
    requires
        grid.occupied(x, y),
    ensures
        allowed(grid, x, y, grid.first_group_target(x, y, groups, parity, j)),
    decreases groups.len() - j,
{
    if 0 <= j < groups.len() {
        lemma_first_target_allowed(grid, x, y, group_order(groups[j], parity), 0);
        lemma_first_group_target_allowed(grid, x, y, groups, parity, j + 1);
    }
}

/// Density ordering: a block only ever moves into another cell of the grid
/// that was empty or held a block of strictly lower density. It never trades
/// places with a block as dense as itself or denser.
pub proof fn lemma_move_respects_density(grid: GridView, x: int, y: int, parity: bool)
    requires
        grid.occupied(x, y),
    ensures
        allowed(grid, x, y, grid.move_target(x, y, parity)),
{
    let block = grid.at(x, y).unwrap();
    lemma_long_move_target_empty(grid, x, y, block.velocity_x as int, block.velocity_y as int);
    lemma_first_group_target_allowed(grid, x, y, block.block_kind.fall_groups(), parity, 0);
}

/// The kinds on the grid after some blocks may have decayed: nothing has
/// come, and of the kinds without a life cycle nothing has gone.
pub open spec fn only_decayed(before: Multiset<BlockKind>, after: Multiset<BlockKind>) -> bool {
    forall|kind: BlockKind|
        {
            &&& #[trigger] after.count(kind) <= before.count(kind)
            &&& !kind.spec_has_lifecycle() ==> after.count(kind) == before.count(kind)
        }
}

/// Movement alone neither creates nor destroys a block: after the move of
/// the block at `(x, y)` the grid holds the same kinds, each as often as
/// before.
pub proof fn lemma_move_keeps_kinds(grid: GridView, x: int, y: int, parity: bool)
    requires
        grid.wf(),
        grid.occupied(x, y),
    ensures
        grid.relocate(x, y, grid.move_target(x, y, parity)).kinds() == grid.kinds(),
{
    lemma_move_respects_density(grid, x, y, parity);
    if let Some(target) = grid.move_target(x, y, parity) {
        lemma_swap_cells_kinds(grid, (x, y), target);
    }
}

/// Ageing destroys at most the block it is applied to, and only a block with
/// a life cycle.
pub proof fn lemma_lifecycle_kinds(grid: GridView, x: int, y: int)
    requires
        grid.wf(),
    ensures
        only_decayed(grid.kinds(), grid.handle_lifecycle(x, y).kinds()),
{
    let after = grid.handle_lifecycle(x, y);
    assert forall|kind: BlockKind|
        {
            &&& #[trigger] after.kinds().count(kind) <= grid.kinds().count(kind)
            &&& !kind.spec_has_lifecycle() ==> after.kinds().count(kind) == grid.kinds().count(kind)
        } by {
        if grid.in_bounds(x, y) {
            lemma_set_cell_kinds(grid, x, y, aged(grid.at(x, y)), kind);
        }
    }
}

/// The update of one block creates nothing and destroys at most a block
/// with a life cycle.
pub proof fn lemma_update_kinds(grid: GridView, physics: Physics, x: int, y: int, parity: bool)
    requires
        grid.wf(),
        grid.occupied(x, y),
    ensures
        only_decayed(grid.kinds(), grid.update(physics, x, y, parity).kinds()),
{
    let block = grid.at(x, y).unwrap();
    let faster = Some(Block { velocity_y: grid.next_velocity_y(physics, x, y), ..block });
    let settled = grid.update_block_velocity(physics, x, y);
    lemma_set_cell_wf(grid, x, y, faster);
    assert forall|kind: BlockKind| settled.kinds().count(kind) == grid.kinds().count(kind) by {
        lemma_set_cell_kinds(grid, x, y, faster, kind);
    }
    let target = settled.move_target(x, y, parity);
    let moved = settled.relocate(x, y, target);
    lemma_move_keeps_kinds(settled, x, y, parity);
    lemma_relocate_wf(settled, x, y, target);
    let end: Position = match target {
        Some(cell) => cell,
        None => (x, y),
    };
    lemma_lifecycle_kinds(moved, end.0, end.1);
    let after = grid.update(physics, x, y, parity);
    assert(after == moved.handle_lifecycle(end.0, end.1));
    assert forall|kind: BlockKind|
        {
            &&& #[trigger] after.kinds().count(kind) <= grid.kinds().count(kind)
            &&& !kind.spec_has_lifecycle() ==> after.kinds().count(kind) == grid.kinds().count(kind)
        } by {
        assert(moved.kinds().count(kind) == settled.kinds().count(kind));
    }
}

proof fn lemma_row_pass_kinds(grid: GridView, physics: Physics, parity: bool, y: int, j: int)
    requires
        grid.wf(),
    ensures
        only_decayed(grid.kinds(), grid.row_pass(physics, parity, y, j).kinds()),
    decreases j,
{
    if j > 0 {
        lemma_row_pass_kinds(grid, physics, parity, y, j - 1);
        lemma_row_pass_wf(grid, physics, parity, y, j - 1);
        let before = grid.row_pass(physics, parity, y, j - 1);
        let x = visit_column(grid.width as int, parity, j - 1);
        let after = grid.row_pass(physics, parity, y, j);
        if before.occupied(x, y) {
            lemma_update_kinds(before, physics, x, y, parity);
        }
        assert forall|kind: BlockKind|
            {
                &&& #[trigger] after.kinds().count(kind) <= grid.kinds().count(kind)
                &&& !kind.spec_has_lifecycle() ==> after.kinds().count(kind) == grid.kinds().count(
                    kind,
                )
            } by {
            assert(after.kinds().count(kind) <= before.kinds().count(kind));
        }
    }
}

proof fn lemma_grid_pass_kinds(grid: GridView, physics: Physics, parity: bool, i: int)
    requires
        grid.wf(),
    ensures
        only_decayed(grid.kinds(), grid.grid_pass(physics, parity, i).kinds()),
    decreases i,
{
    if i > 0 {
        lemma_grid_pass_kinds(grid, physics, parity, i - 1);
        lemma_grid_pass_wf(grid, physics, parity, i - 1);
        let before = grid.grid_pass(physics, parity, i - 1);
        let after = grid.grid_pass(physics, parity, i);
        lemma_row_pass_kinds(
            before,
            physics,
            parity,
            visit_row(grid.height as int, i - 1),
            grid.width as int,
        );
        assert forall|kind: BlockKind|
            {
                &&& #[trigger] after.kinds().count(kind) <= grid.kinds().count(kind)
                &&& !kind.spec_has_lifecycle() ==> after.kinds().count(kind) == grid.kinds().count(
                    kind,
                )
            } by {
            assert(after.kinds().count(kind) <= before.kinds().count(kind));
        }
    }
}

/// Occupancy: a tick creates no block, and destroys none but blocks with a
/// life cycle. Every kind without a life cycle is on the grid as often after
/// the tick as before it.
pub proof fn lemma_tick_occupancy(grid: GridView, physics: Physics, parity: bool)
    requires
        grid.wf(),
    ensures
        only_decayed(grid.kinds(), grid.tick(physics, parity).kinds()),
{
    lemma_grid_pass_kinds(grid, physics, parity, grid.height - 1);
}

/// Occupancy, where nothing can decay: on a grid without a block that has a
/// life cycle, the kinds after a tick are the kinds before it, each as often.
pub proof fn lemma_tick_keeps_kinds(grid: GridView, physics: Physics, parity: bool)
    requires
        grid.wf(),
        forall|kind: BlockKind| kind.spec_has_lifecycle() ==> grid.kinds().count(kind) == 0,
    ensures
        grid.tick(physics, parity).kinds() == grid.kinds(),
{
    lemma_tick_occupancy(grid, physics, parity);
    let after = grid.tick(physics, parity).kinds();
    assert forall|kind: BlockKind| after.count(kind) == grid.kinds().count(kind) by {
        assert(after.count(kind) <= grid.kinds().count(kind));
    }
    assert(after =~= grid.kinds());
}

/// Single move, for one update: the update of the block at `(x, y)` makes
/// at most one exchange. Apart from the block's own cell and the cell it
/// moves to, every cell is after the update what it was before.
pub proof fn lemma_update_moves_once(grid: GridView, physics: Physics, x: int, y: int, parity: bool)
    requires
        grid.wf(),
        grid.occupied(x, y),
    ensures
        forall|i: int, j: int|
            grid.in_bounds(i, j) && (i, j) != (x, y) && Some((i, j)) != grid.update_block_velocity(
                physics,
                x,
                y,
            ).move_target(x, y, parity) ==> #[trigger] grid.update(physics, x, y, parity).at(i, j)
                == grid.at(i, j),
{
    let block = grid.at(x, y).unwrap();
    let faster = Some(Block { velocity_y: grid.next_velocity_y(physics, x, y), ..block });
    let settled = grid.update_block_velocity(physics, x, y);
    lemma_set_cell_wf(grid, x, y, faster);
    let target = settled.move_target(x, y, parity);
    let moved = settled.relocate(x, y, target);
    lemma_move_respects_density(settled, x, y, parity);
    lemma_relocate_wf(settled, x, y, target);
    if let Some(cell) = target {
        lemma_set_cell_wf(settled, x, y, settled.at(cell.0, cell.1));
    }
}

/// Bottom boundary: every row that a pass visits lies above the bottom row.
pub proof fn lemma_bottom_row_never_visited(height: int, i: int)
    requires
        0 <= i < height - 1,
    ensures
        0 <= visit_row(height, i) < height - 1,
{
}

proof fn lemma_row_pass_idle(grid: GridView, physics: Physics, parity: bool, y: int, j: int)
    requires
        forall|x: int| !grid.occupied(x, y),
    ensures
        grid.row_pass(physics, parity, y, j) == grid,
    decreases j,
{
    if j > 0 {
        lemma_row_pass_idle(grid, physics, parity, y, j - 1);
    }
}

proof fn lemma_grid_pass_idle(grid: GridView, physics: Physics, parity: bool, i: int)
    requires
        i <= grid.height - 1,
        forall|x: int, y: int| y < grid.height - 1 ==> !grid.occupied(x, y),
    ensures
        grid.grid_pass(physics, parity, i) == grid,
    decreases i,
{
    if i > 0 {
        lemma_grid_pass_idle(grid, physics, parity, i - 1);
        lemma_row_pass_idle(grid, physics, parity, visit_row(grid.height as int, i - 1), grid.width as int);
    }
}

/// Bottom boundary: blocks in the bottom row are left alone. A tick on a
/// grid that is empty above its bottom row changes nothing: no block there
/// moves, speeds up or ages.
pub proof fn lemma_bottom_row_is_left_alone(grid: GridView, physics: Physics, parity: bool)
    requires
        forall|x: int, y: int| y < grid.height - 1 ==> !grid.occupied(x, y),
    ensures
        grid.tick(physics, parity) == grid,
{
    lemma_grid_pass_idle(grid, physics, parity, grid.height - 1);
}

/// Parity alternation: the columns of a row are visited in one tick in the
/// reverse of the order of the tick before.
pub proof fn lemma_column_order_reverses(width: int, parity: bool, j: int)
    ensures
        visit_column(width, !parity, j) == visit_column(width, parity, width - 1 - j),
{
}

/// Parity alternation: on a grid of two columns or more, two ticks in a row
/// never visit the columns in the same order. They differ in the column they
/// start with.
pub proof fn lemma_column_order_alternates(width: int, parity: bool)
    requires
        width >= 2,
    ensures
        visit_column(width, parity, 0) != visit_column(width, !parity, 0),
{
}

/// Parity alternation: the directions of a group are tried in one tick in
/// the reverse of the order of the tick before.
pub proof fn lemma_group_order_reverses(group: Seq<Direction>, parity: bool)
    ensures
        group_order(group, !parity) == group_order(group, parity).reverse(),
{
    assert(group.reverse().reverse() =~= group);
}

/// Parity alternation: a block that falls down first and to either side
/// next, that cannot move along its velocity nor straight down, and that may
/// step to both lower neighbours, steps to the left one on an even tick and
/// to the right one on an odd tick.
pub proof fn lemma_diagonal_tie_break(grid: GridView, x: int, y: int, parity: bool)
    requires
        grid.occupied(x, y),
        ({
            let groups = grid.at(x, y).unwrap().block_kind.fall_groups();
            groups.len() >= 2 && groups[0] == seq![DOWN] && groups[1] == seq![DOWN_LEFT, DOWN_RIGHT]
        }),
        grid.at(x, y).unwrap().block_kind.spec_affected_by_gravity(),
        grid.velocity_target(x, y) is None,
        grid.simple_move_target(x, y, DOWN) is None,
        grid.simple_move_target(x, y, DOWN_LEFT) is Some,
        grid.simple_move_target(x, y, DOWN_RIGHT) is Some,
    ensures
        grid.move_target(x, y, parity) == Some(
            if parity {
                (x + 1, y + 1)
            } else {
                (x - 1, y + 1)
            },
        ),
{
    let groups = grid.at(x, y).unwrap().block_kind.fall_groups();
    let down = group_order(groups[0], parity);
    let sides = group_order(groups[1], parity);
    assert(down =~= seq![DOWN]);
    assert(sides =~= (if parity {
        seq![DOWN_RIGHT, DOWN_LEFT]
    } else {
        seq![DOWN_LEFT, DOWN_RIGHT]
    }));
    assert(grid.first_target(x, y, down, 1) is None);
    assert(grid.first_target(x, y, down, 0) is None);
    assert(grid.first_target(x, y, sides, 0) == grid.simple_move_target(x, y, sides[0]));
    assert(grid.first_group_target(x, y, groups, parity, 1) == grid.first_target(x, y, sides, 0));
    assert(grid.first_group_target(x, y, groups, parity, 0) == grid.first_group_target(
        x,
        y,
        groups,
        parity,
        1,
    ));
}

/// Where the step of a pass at `(x, y)` moves the block it finds there, if it
/// finds one and moves it.
pub open spec fn step_target(grid: GridView, physics: Physics, parity: bool, x: int, y: int) -> Option<
    Position,
> {
    if grid.occupied(x, y) {
        grid.update_block_velocity(physics, x, y).move_target(x, y, parity)
    } else {
        None
    }
}

/// The grid as the pass finds it when it has visited `i` rows and `j` cells
/// of the row after them.
pub open spec fn pass_state(grid: GridView, physics: Physics, parity: bool, i: int, j: int) -> GridView {
    grid.grid_pass(physics, parity, i).row_pass(
        physics,
        parity,
        visit_row(grid.height as int, i),
        j,
    )
}

/// The cell that the pass visits next when it has visited `i` rows and `j`
/// cells of the row after them.
pub open spec fn pass_cell(grid: GridView, parity: bool, i: int, j: int) -> Position {
    (visit_column(grid.width as int, parity, j), visit_row(grid.height as int, i))
}

/// The step of a pass at `(x, y)` is a plain fall: if it moves the block it
/// finds there, it moves it into an empty cell of a lower row.
pub open spec fn step_falls(grid: GridView, physics: Physics, parity: bool, x: int, y: int) -> bool {
    match step_target(grid, physics, parity, x, y) {
        Some(target) => target.1 > y && grid.position_is_empty(target.0, target.1),
        None => true,
    }
}

/// Every step that the pass makes before it has visited `i` rows and `j`
/// cells of the row after them is a plain fall.
pub open spec fn pass_falls(grid: GridView, physics: Physics, parity: bool, i: int, j: int) -> bool {
    forall|a: int, b: int|
        0 <= a && 0 <= b < grid.width && (a < i || (a == i && b < j)) ==> {
            let cell = pass_cell(grid, parity, a, b);
            step_falls(
                #[trigger] pass_state(grid, physics, parity, a, b),
                physics,
                parity,
                cell.0,
                cell.1,
            )
        }
}

/// A step that is a plain fall leaves its block in the cell it moved it to,
/// and every cell but that one and the one it visits as it was.
pub proof fn lemma_falling_step(grid: GridView, physics: Physics, parity: bool, x: int, y: int)
    requires
        grid.wf(),
        step_falls(grid, physics, parity, x, y),
    ensures
        match step_target(grid, physics, parity, x, y) {
            Some(target) => grid.step(physics, parity, x, y).occupied(target.0, target.1),
            None => true,
        },
        forall|i: int, j: int|
            grid.in_bounds(i, j) && (i, j) != (x, y) && Some((i, j)) != step_target(
                grid,
                physics,
                parity,
                x,
                y,
            ) ==> #[trigger] grid.step(physics, parity, x, y).at(i, j) == grid.at(i, j),
{
    if grid.occupied(x, y) {
        let block = grid.at(x, y).unwrap();
        let faster = Block { velocity_y: grid.next_velocity_y(physics, x, y), ..block };
        let settled = grid.update_block_velocity(physics, x, y);
        lemma_set_cell_wf(grid, x, y, Some(faster));
        lemma_update_moves_once(grid, physics, x, y, parity);
        if let Some(target) = settled.move_target(x, y, parity) {
            let moved = settled.relocate(x, y, Some(target));
            lemma_set_cell_wf(settled, x, y, settled.at(target.0, target.1));
            lemma_relocate_wf(settled, x, y, Some(target));
            assert(moved.at(target.0, target.1) == Some(faster));
            assert(aged(Some(faster)) == Some(faster));
        }
    }
}

/// Single move, for a whole pass: a block that has fallen is not moved again
/// as long as the pass makes plain falls only. Take the step that the pass
/// makes after `i1` rows and `j1` cells, and any later moment of the pass,
/// after `i2` rows and `j2` cells, up to which every step was a plain fall.
/// If the first step moved its block, then at the later moment the block is
/// still in the cell it was moved to, as the step left it; the step made at
/// the later moment does not visit that cell; and if that step is a plain
/// fall too, it moves nothing into that cell.
pub proof fn lemma_fallen_block_rests(
    grid: GridView,
    physics: Physics,
    parity: bool,
    i1: int,
    j1: int,
    i2: int,
    j2: int,
)
    requires
        grid.wf(),
        0 <= i1,
        0 <= j1 < grid.width,
        0 <= j2 <= grid.width,
        i1 < i2 || (i1 == i2 && j1 < j2),
        pass_falls(grid, physics, parity, i2, j2),
    ensures
        ({
            let first = pass_state(grid, physics, parity, i1, j1);
            let cell = pass_cell(grid, parity, i1, j1);
            let later = pass_state(grid, physics, parity, i2, j2);
            let later_cell = pass_cell(grid, parity, i2, j2);
            match step_target(first, physics, parity, cell.0, cell.1) {
                Some(target) => {
                    &&& later.occupied(target.0, target.1)
                    &&& later.at(target.0, target.1) == first.step(
                        physics,
                        parity,
                        cell.0,
                        cell.1,
                    ).at(target.0, target.1)
                    &&& later_cell != target
                    &&& step_falls(later, physics, parity, later_cell.0, later_cell.1)
                        ==> step_target(later, physics, parity, later_cell.0, later_cell.1)
                        != Some(target)
                },
                None => true,
            }
        }),
    decreases i2, j2,
{
    let first = pass_state(grid, physics, parity, i1, j1);
    let cell = pass_cell(grid, parity, i1, j1);
    let later = pass_state(grid, physics, parity, i2, j2);
    lemma_grid_pass_wf(grid, physics, parity, i1);
    lemma_row_pass_wf(
        grid.grid_pass(physics, parity, i1),
        physics,
        parity,
        visit_row(grid.height as int, i1),
        j1,
    );
    assert(step_falls(first, physics, parity, cell.0, cell.1));
    lemma_falling_step(first, physics, parity, cell.0, cell.1);
    if let Some(target) = step_target(first, physics, parity, cell.0, cell.1) {
        let landed = first.step(physics, parity, cell.0, cell.1);
        if i2 == i1 && j2 == j1 + 1 {
            assert(later == landed);
        } else if j2 > 0 {
            let before = pass_state(grid, physics, parity, i2, j2 - 1);
            let before_cell = pass_cell(grid, parity, i2, j2 - 1);
            assert(pass_falls(grid, physics, parity, i2, j2 - 1));
            lemma_fallen_block_rests(grid, physics, parity, i1, j1, i2, j2 - 1);
            lemma_grid_pass_wf(grid, physics, parity, i2);
            lemma_row_pass_wf(
                grid.grid_pass(physics, parity, i2),
                physics,
                parity,
                visit_row(grid.height as int, i2),
                j2 - 1,
            );
            assert(step_falls(before, physics, parity, before_cell.0, before_cell.1));
            lemma_falling_step(before, physics, parity, before_cell.0, before_cell.1);
            assert(later == before.step(physics, parity, before_cell.0, before_cell.1));
            assert(later.at(target.0, target.1) == before.at(target.0, target.1));
        } else {
            assert(pass_falls(grid, physics, parity, i2 - 1, grid.width as int));
            lemma_fallen_block_rests(grid, physics, parity, i1, j1, i2 - 1, grid.width as int);
            assert(later == pass_state(grid, physics, parity, i2 - 1, grid.width as int));
        }
    }
}

/// A block that falls and does nothing else, on a grid where every block has
/// at least the given density: if gravity affects it, it has exactly that
/// density, does not slide, and has no velocity sideways or upwards.
pub open spec fn quiet(block: Block, density: int) -> bool {
    &&& block.block_kind.spec_density() >= density
    &&& block.block_kind.spec_affected_by_gravity() ==> {
        &&& block.block_kind.spec_density() == density
        &&& block.block_kind.spec_sliding_speed() == 0
        &&& block.velocity_x == 0
        &&& block.velocity_y >= 0
    }
}

/// A grid on which blocks only fall, and only into empty cells: every block
/// on it is [`quiet`]. No block that moves is denser than any other block,
/// so none is ever displaced.
pub open spec fn calm(grid: GridView, density: int) -> bool {
    forall|x: int, y: int| grid.occupied(x, y) ==> quiet(#[trigger] grid.at(x, y).unwrap(), density)
}

/// A line straight down takes one row per step.
proof fn lemma_line_straight_down(x: int, y: int, dy: int, k: int)
    requires
        0 <= k <= dy,
        0 < dy,
    ensures
        line_cell(x, y, 0, dy, k) == (x, y + k),
{
    lemma_round_ratio_major(k, dy, dy);
    lemma_round_ratio_bounds(k, 0, dy);
}

proof fn lemma_first_target_steps_down(
    grid: GridView,
    x: int,
    y: int,
    directions: Seq<Direction>,
    i: int,
)
    requires
        grid.occupied(x, y),
        grid.at(x, y).unwrap().block_kind.spec_sliding_speed() == 0,
        forall|n: int| 0 <= n < directions.len() ==> (#[trigger] directions[n]).1 == 1,
    ensures
        match grid.first_target(x, y, directions, i) {
            Some(target) => target.1 == y + 1,
            None => true,
        },
    decreases directions.len() - i,
{
    if 0 <= i < directions.len() {
        lemma_first_target_steps_down(grid, x, y, directions, i + 1);
    }
}

proof fn lemma_first_group_target_steps_down(
    grid: GridView,
    x: int,
    y: int,
    groups: Seq<Seq<Direction>>,
    parity: bool,
    j: int,
)
    requires
        grid.occupied(x, y),
        grid.at(x, y).unwrap().block_kind.spec_sliding_speed() == 0,
        forall|m: int, n: int|
            0 <= m < groups.len() && 0 <= n < groups[m].len() ==> (#[trigger] groups[m][n]).1 == 1,
    ensures
        match grid.first_group_target(x, y, groups, parity, j) {
            Some(target) => target.1 == y + 1,
            None => true,
        },
    decreases groups.len() - j,
{
    if 0 <= j < groups.len() {
        let order = group_order(groups[j], parity);
        assert forall|n: int| 0 <= n < order.len() implies (#[trigger] order[n]).1 == 1 by {
            if parity {
                assert(order[n] == groups[j][groups[j].len() - 1 - n]);
            } else {
                assert(order[n] == groups[j][n]);
            }
        }
        lemma_first_target_steps_down(grid, x, y, order, 0);
        lemma_first_group_target_steps_down(grid, x, y, groups, parity, j + 1);
    }
}

/// A quiet block moves, if it moves, into an empty cell of a lower row.
pub proof fn lemma_quiet_block_falls(grid: GridView, x: int, y: int, parity: bool, density: int)
    requires
        calm(grid, density),
        grid.occupied(x, y),
    ensures
        match grid.move_target(x, y, parity) {
            Some(target) => target.1 > y && grid.position_is_empty(target.0, target.1),
            None => true,
        },
{
    let block = grid.at(x, y).unwrap();
    let kind = block.block_kind;
    lemma_move_respects_density(grid, x, y, parity);
    if let Some(target) = grid.move_target(x, y, parity) {
        assert(quiet(block, density));
        if let Some(other) = grid.at(target.0, target.1) {
            assert(grid.occupied(target.0, target.1));
            assert(quiet(grid.at(target.0, target.1).unwrap(), density));
        }
        let dy = block.velocity_y as int;
        if grid.velocity_target(x, y) is Some {
            lemma_free_run(grid, x, y, 0, dy, 0);
            lemma_line_straight_down(x, y, dy, grid.free_run(x, y, 0, dy, 0));
        } else {
            let groups = kind.fall_groups();
            assert forall|m: int, n: int|
                0 <= m < groups.len() && 0 <= n < groups[m].len() implies (
            #[trigger] groups[m][n]).1 == 1 by {}
            lemma_first_group_target_steps_down(grid, x, y, groups, parity, 0);
        }
    }
}

/// The tuning lets blocks fall and rest, never rise.
pub open spec fn pulls_down(physics: Physics) -> bool {
    physics.gravity >= 0 && physics.rest_velocity >= 0
}

/// On a calm grid a step moves at most the block it visits, into an empty
/// cell of a lower row, where that block then is. Every other cell is left as
/// it was, and the grid stays calm.
pub proof fn lemma_calm_step(
    grid: GridView,
    physics: Physics,
    parity: bool,
    x: int,
    y: int,
    density: int,
)
    requires
        grid.wf(),
        calm(grid, density),
        pulls_down(physics),
    ensures
        grid.step(physics, parity, x, y).wf(),
        grid.step(physics, parity, x, y).width == grid.width,
        grid.step(physics, parity, x, y).height == grid.height,
        calm(grid.step(physics, parity, x, y), density),
        match step_target(grid, physics, parity, x, y) {
            Some(target) => {
                &&& target.1 > y
                &&& grid.position_is_empty(target.0, target.1)
                &&& grid.step(physics, parity, x, y).occupied(target.0, target.1)
            },
            None => true,
        },
        forall|i: int, j: int|
            grid.in_bounds(i, j) && (i, j) != (x, y) && Some((i, j)) != step_target(
                grid,
                physics,
                parity,
                x,
                y,
            ) ==> #[trigger] grid.step(physics, parity, x, y).at(i, j) == grid.at(i, j),
{
    if grid.occupied(x, y) {
        let block = grid.at(x, y).unwrap();
        let faster = Block { velocity_y: grid.next_velocity_y(physics, x, y), ..block };
        let settled = grid.update_block_velocity(physics, x, y);
        lemma_set_cell_wf(grid, x, y, Some(faster));
        assert(quiet(block, density));
        assert(quiet(faster, density));
        assert(calm(settled, density)) by {
            assert forall|i: int, j: int| settled.occupied(i, j) implies quiet(
                #[trigger] settled.at(i, j).unwrap(),
                density,
            ) by {
                if (i, j) != (x, y) {
                    assert(settled.at(i, j) == grid.at(i, j));
                    assert(grid.occupied(i, j));
                }
            }
        }
        let target = settled.move_target(x, y, parity);
        let moved = settled.relocate(x, y, target);
        lemma_quiet_block_falls(settled, x, y, parity, density);
        lemma_relocate_wf(settled, x, y, target);
        lemma_update_wf(grid, physics, x, y, parity);
        lemma_update_moves_once(grid, physics, x, y, parity);
        let after = grid.update(physics, x, y, parity);
        match target {
            Some(cell) => {
                lemma_set_cell_wf(settled, x, y, settled.at(cell.0, cell.1));
                assert(moved.at(cell.0, cell.1) == Some(faster));
                assert(moved.at(x, y) is None);
                assert(after.at(cell.0, cell.1) == Some(faster));
                assert(after.at(x, y) is None);
            },
            None => {
                assert(moved == settled);
            },
        }
        assert(calm(after, density)) by {
            assert forall|i: int, j: int| after.occupied(i, j) implies quiet(
                #[trigger] after.at(i, j).unwrap(),
                density,
            ) by {
                if (i, j) != (x, y) && Some((i, j)) != target {
                    assert(after.at(i, j) == grid.at(i, j));
                    assert(grid.occupied(i, j));
                } else if (i, j) == (x, y) {
                    if target is None {
                        let aged = after.at(x, y).unwrap();
                        assert(aged.block_kind == faster.block_kind);
                        assert(aged.velocity_y == faster.velocity_y);
                        assert(aged.velocity_x == faster.velocity_x);
                    }
                }
            }
        }
    }
}

/// A pass over a calm grid leaves it calm at every step.
pub proof fn lemma_calm_pass(
    grid: GridView,
    physics: Physics,
    parity: bool,
    density: int,
    i: int,
    j: int,
)
    requires
        grid.wf(),
        calm(grid, density),
        pulls_down(physics),
        0 <= i,
        0 <= j <= grid.width,
    ensures
        pass_state(grid, physics, parity, i, j).wf(),
        pass_state(grid, physics, parity, i, j).width == grid.width,
        pass_state(grid, physics, parity, i, j).height == grid.height,
        calm(pass_state(grid, physics, parity, i, j), density),
    decreases i, j,
{
    let y = visit_row(grid.height as int, i);
    if j > 0 {
        lemma_calm_pass(grid, physics, parity, density, i, j - 1);
        let before = pass_state(grid, physics, parity, i, j - 1);
        lemma_grid_pass_wf(grid, physics, parity, i);
        lemma_calm_step(before, physics, parity, visit_column(grid.width as int, parity, j - 1), y, density);
    } else if i > 0 {
        lemma_calm_pass(grid, physics, parity, density, i - 1, grid.width as int);
    }
}

/// A pass over a calm grid makes plain falls only.
pub proof fn lemma_calm_pass_falls(
    grid: GridView,
    physics: Physics,
    parity: bool,
    density: int,
    i: int,
    j: int,
)
    requires
        grid.wf(),
        calm(grid, density),
        pulls_down(physics),
    ensures
        pass_falls(grid, physics, parity, i, j),
{
    assert forall|a: int, b: int|
        0 <= a && 0 <= b < grid.width && (a < i || (a == i && b < j)) implies {
        let cell = pass_cell(grid, parity, a, b);
        step_falls(
            #[trigger] pass_state(grid, physics, parity, a, b),
            physics,
            parity,
            cell.0,
            cell.1,
        )
    } by {
        let cell = pass_cell(grid, parity, a, b);
        lemma_calm_pass(grid, physics, parity, density, a, b);
        lemma_calm_step(
            pass_state(grid, physics, parity, a, b),
            physics,
            parity,
            cell.0,
            cell.1,
            density,
        );
    }
}

/// Single move, for a whole pass over a calm grid: a block that a step has
/// moved is not moved again in that pass. Take the step that the pass makes
/// after `i1` rows and `j1` cells, and any later moment of the pass, after
/// `i2` rows and `j2` cells. If the step moved its block, then it moved it
/// into an empty cell, displacing nothing; at the later moment the block is
/// still in that cell, as the step left it; and the step made at the later
/// moment neither visits that cell nor moves anything into it.
pub proof fn lemma_calm_pass_moves_once(
    grid: GridView,
    physics: Physics,
    parity: bool,
    density: int,
    i1: int,
    j1: int,
    i2: int,
    j2: int,
)
    requires
        grid.wf(),
        calm(grid, density),
        pulls_down(physics),
        0 <= i1,
        0 <= j1 < grid.width,
        0 <= j2 <= grid.width,
        i1 < i2 || (i1 == i2 && j1 < j2),
    ensures
        ({
            let first = pass_state(grid, physics, parity, i1, j1);
            let cell = pass_cell(grid, parity, i1, j1);
            let later = pass_state(grid, physics, parity, i2, j2);
            let later_cell = pass_cell(grid, parity, i2, j2);
            match step_target(first, physics, parity, cell.0, cell.1) {
                Some(target) => {
                    &&& first.position_is_empty(target.0, target.1)
                    &&& later.occupied(target.0, target.1)
                    &&& later.at(target.0, target.1) == first.step(
                        physics,
                        parity,
                        cell.0,
                        cell.1,
                    ).at(target.0, target.1)
                    &&& later_cell != target
                    &&& step_target(later, physics, parity, later_cell.0, later_cell.1) != Some(
                        target,
                    )
                },
                None => true,
            }
        }),
{
    let first = pass_state(grid, physics, parity, i1, j1);
    let cell = pass_cell(grid, parity, i1, j1);
    let later = pass_state(grid, physics, parity, i2, j2);
    let later_cell = pass_cell(grid, parity, i2, j2);
    lemma_calm_pass_falls(grid, physics, parity, density, i2, j2);
    lemma_fallen_block_rests(grid, physics, parity, i1, j1, i2, j2);
    lemma_calm_pass(grid, physics, parity, density, i1, j1);
    lemma_calm_step(first, physics, parity, cell.0, cell.1, density);
    lemma_calm_pass(grid, physics, parity, density, i2, j2);
    lemma_calm_step(later, physics, parity, later_cell.0, later_cell.1, density);
}

/// A grid on which nothing moves: gravity affects none of its blocks.
pub open spec fn still(grid: GridView) -> bool {
    forall|x: int, y: int|
        grid.occupied(x, y) ==> !(#[trigger] grid.at(x, y)).unwrap().block_kind.spec_affected_by_gravity()
}

/// Whether column `x` is among the first `j` that a pass visits in a row.
pub open spec fn column_visited(width: int, parity: bool, j: int, x: int) -> bool {
    if parity {
        width - 1 - x < j
    } else {
        x < j
    }
}

proof fn lemma_still_step(grid: GridView, physics: Physics, parity: bool, x: int, y: int)
    requires
        grid.wf(),
        still(grid),
        grid.in_bounds(x, y),
        y < grid.height - 1,
    ensures
        grid.step(physics, parity, x, y) == grid.set_cell(x, y, aged(grid.at(x, y))),
        still(grid.step(physics, parity, x, y)),
{
    let after = grid.set_cell(x, y, aged(grid.at(x, y)));
    if grid.occupied(x, y) {
        let block = grid.at(x, y).unwrap();
        let settled = grid.update_block_velocity(physics, x, y);
        assert(settled.rows =~~= grid.rows);
    } else {
        assert(after.rows =~~= grid.rows);
    }
    assert forall|i: int, j: int| after.occupied(i, j) implies !(#[trigger] after.at(
        i,
        j,
    )).unwrap().block_kind.spec_affected_by_gravity() by {
        assert(grid.occupied(i, j));
        assert(!grid.at(i, j).unwrap().block_kind.spec_affected_by_gravity());
    }
}

proof fn lemma_still_row(grid: GridView, physics: Physics, parity: bool, y: int, j: int)
    requires
        grid.wf(),
        still(grid),
        0 <= y < grid.height - 1,
        0 <= j <= grid.width,
    ensures
        grid.row_pass(physics, parity, y, j).wf(),
        grid.row_pass(physics, parity, y, j).width == grid.width,
        grid.row_pass(physics, parity, y, j).height == grid.height,
        still(grid.row_pass(physics, parity, y, j)),
        forall|a: int, b: int|
            grid.in_bounds(a, b) ==> #[trigger] grid.row_pass(physics, parity, y, j).at(a, b) == (
            if b == y && column_visited(grid.width as int, parity, j, a) {
                aged(grid.at(a, b))
            } else {
                grid.at(a, b)
            }),
    decreases j,
{
    if j > 0 {
        lemma_still_row(grid, physics, parity, y, j - 1);
        let before = grid.row_pass(physics, parity, y, j - 1);
        let x = visit_column(grid.width as int, parity, j - 1);
        lemma_still_step(before, physics, parity, x, y);
        lemma_set_cell_wf(before, x, y, aged(before.at(x, y)));
        let after = grid.row_pass(physics, parity, y, j);
        assert forall|a: int, b: int| grid.in_bounds(a, b) implies #[trigger] after.at(a, b) == (
        if b == y && column_visited(grid.width as int, parity, j, a) {
            aged(grid.at(a, b))
        } else {
            grid.at(a, b)
        }) by {
            assert(before.at(a, b) == (if b == y && column_visited(
                grid.width as int,
                parity,
                j - 1,
                a,
            ) {
                aged(grid.at(a, b))
            } else {
                grid.at(a, b)
            }));
        }
    }
}

proof fn lemma_still_rows(grid: GridView, physics: Physics, parity: bool, i: int)
    requires
        grid.wf(),
        still(grid),
        0 <= i <= grid.height - 1,
    ensures
        grid.grid_pass(physics, parity, i).wf(),
        grid.grid_pass(physics, parity, i).width == grid.width,
        grid.grid_pass(physics, parity, i).height == grid.height,
        still(grid.grid_pass(physics, parity, i)),
        forall|a: int, b: int|
            grid.in_bounds(a, b) ==> #[trigger] grid.grid_pass(physics, parity, i).at(a, b) == (
            if grid.height - 1 - i <= b < grid.height - 1 {
                aged(grid.at(a, b))
            } else {
                grid.at(a, b)
            }),
    decreases i,
{
    if i > 0 {
        lemma_still_rows(grid, physics, parity, i - 1);
        let before = grid.grid_pass(physics, parity, i - 1);
        let y = visit_row(grid.height as int, i - 1);
        lemma_still_row(before, physics, parity, y, grid.width as int);
        let after = grid.grid_pass(physics, parity, i);
        assert forall|a: int, b: int| grid.in_bounds(a, b) implies #[trigger] after.at(a, b) == (
        if grid.height - 1 - i <= b < grid.height - 1 {
            aged(grid.at(a, b))
        } else {
            grid.at(a, b)
        }) by {
            assert(before.at(a, b) == (if grid.height - i <= b < grid.height - 1 {
                aged(grid.at(a, b))
            } else {
                grid.at(a, b)
            }));
            assert(column_visited(grid.width as int, parity, grid.width as int, a));
        }
    }
}

/// On a grid on which nothing moves, a tick ages every cell above the bottom
/// row by exactly one tick and does nothing else.
pub proof fn lemma_still_grid_only_ages(grid: GridView, physics: Physics, parity: bool)
    requires
        grid.wf(),
        still(grid),
    ensures
        grid.tick(physics, parity).wf(),
        grid.tick(physics, parity).width == grid.width,
        grid.tick(physics, parity).height == grid.height,
        still(grid.tick(physics, parity)),
        forall|x: int, y: int|
            grid.in_bounds(x, y) ==> #[trigger] grid.tick(physics, parity).at(x, y) == (if y
                < grid.height - 1 {
                aged(grid.at(x, y))
            } else {
                grid.at(x, y)
            }),
{
    if grid.height >= 1 {
        lemma_still_rows(grid, physics, parity, grid.height - 1);
    }
}

/// The parity of the tick that comes `n` ticks after a tick of parity
/// `parity`.
pub open spec fn parity_after(parity: bool, n: nat) -> bool {
    if n % 2 == 0 {
        parity
    } else {
        !parity
    }
}

/// The grid after `n` ticks in a row, the first of them of parity `parity`.
pub open spec fn ticks(grid: GridView, physics: Physics, parity: bool, n: nat) -> GridView
    decreases n,
{
    if n == 0 {
        grid
    } else {
        ticks(grid, physics, parity, (n - 1) as nat).tick(
            physics,
            parity_after(parity, (n - 1) as nat),
        )
    }
}

/// A cell `n` ticks older.
pub open spec fn aged_by(cell: Option<Block>, n: nat) -> Option<Block>
    decreases n,
{
    if n == 0 {
        cell
    } else {
        aged(aged_by(cell, (n - 1) as nat))
    }
}

/// A block with a life cycle that has `life_time` ticks to live, at least
/// one, is there for `life_time - 1` ticks of ageing, each of which takes one
/// tick off its life, and gone from the next on.
pub proof fn lemma_life_runs_out(block: Block, n: nat)
    requires
        block.block_kind.spec_has_lifecycle(),
        block.life_time >= 1,
    ensures
        aged_by(Some(block), n) == (if n < block.life_time {
            Some(Block { life_time: (block.life_time - n) as i8, ..block })
        } else {
            None
        }),
    decreases n,
{
    if n > 0 {
        lemma_life_runs_out(block, (n - 1) as nat);
    }
}

/// On a grid on which nothing moves, `n` ticks age every cell above the
/// bottom row by exactly `n` ticks and do nothing else.
pub proof fn lemma_still_grid_ages_by_the_tick(
    grid: GridView,
    physics: Physics,
    parity: bool,
    n: nat,
)
    requires
        grid.wf(),
        still(grid),
    ensures
        ticks(grid, physics, parity, n).wf(),
        ticks(grid, physics, parity, n).width == grid.width,
        ticks(grid, physics, parity, n).height == grid.height,
        still(ticks(grid, physics, parity, n)),
        forall|x: int, y: int|
            grid.in_bounds(x, y) ==> #[trigger] ticks(grid, physics, parity, n).at(x, y) == (if y
                < grid.height - 1 {
                aged_by(grid.at(x, y), n)
            } else {
                grid.at(x, y)
            }),
    decreases n,
{
    if n > 0 {
        lemma_still_grid_ages_by_the_tick(grid, physics, parity, (n - 1) as nat);
        let before = ticks(grid, physics, parity, (n - 1) as nat);
        lemma_still_grid_only_ages(before, physics, parity_after(parity, (n - 1) as nat));
        let after = ticks(grid, physics, parity, n);
        assert forall|x: int, y: int| grid.in_bounds(x, y) implies #[trigger] after.at(x, y) == (
        if y < grid.height - 1 {
            aged_by(grid.at(x, y), n)
        } else {
            grid.at(x, y)
        }) by {
            assert(before.at(x, y) == (if y < grid.height - 1 {
                aged_by(grid.at(x, y), (n - 1) as nat)
            } else {
                grid.at(x, y)
            }));
        }
    }
}

/// Lifecycle expiry: life goes by the tick. On a grid on which nothing
/// moves, a block with a life cycle above the bottom row that has
/// `life_time` ticks to live, at least one, is still in its cell after fewer
/// ticks than that, with one tick less to live for each tick gone, and its
/// cell is empty after exactly `life_time` ticks and ever after.
pub proof fn lemma_lifecycle_expiry(
    grid: GridView,
    physics: Physics,
    parity: bool,
    x: int,
    y: int,
    n: nat,
)
    requires
        grid.wf(),
        still(grid),
        grid.occupied(x, y),
        y < grid.height - 1,
        grid.at(x, y).unwrap().block_kind.spec_has_lifecycle(),
        grid.at(x, y).unwrap().life_time >= 1,
    ensures
        ({
            let block = grid.at(x, y).unwrap();
            ticks(grid, physics, parity, n).at(x, y) == (if n < block.life_time {
                Some(Block { life_time: (block.life_time - n) as i8, ..block })
            } else {
                None
            })
        }),
{
    lemma_still_grid_ages_by_the_tick(grid, physics, parity, n);
    lemma_life_runs_out(grid.at(x, y).unwrap(), n);
}

/// The entry `entry` of a snapshot says what is in its cell: the cell is on
/// the grid and holds a block of the kind named.
pub open spec fn tells_of(grid: GridView, entry: (int, int, BlockKind)) -> bool {
    grid.occupied(entry.0, entry.1) && grid.at(entry.0, entry.1).unwrap().block_kind == entry.2
}

/// Entry `a` comes before entry `b` in reading order: in a higher row, or in
/// the same row farther left.
pub open spec fn reads_before(a: (int, int, BlockKind), b: (int, int, BlockKind)) -> bool {
    a.1 < b.1 || (a.1 == b.1 && a.0 < b.0)
}

proof fn lemma_row_snapshot(row: Seq<Option<Block>>, y: int, n: nat)
    requires
        n <= row.len(),
    ensures
        forall|entry: (int, int, BlockKind)|
            #[trigger] row_snapshot(row, y, n).contains(entry) <==> {
                &&& entry.1 == y
                &&& 0 <= entry.0 < n
                &&& row[entry.0] matches Some(block)
                &&& block.block_kind == entry.2
            },
        forall|i: int, j: int|
            0 <= i < j < row_snapshot(row, y, n).len() ==> reads_before(
                #[trigger] row_snapshot(row, y, n)[i],
                #[trigger] row_snapshot(row, y, n)[j],
            ),
    decreases n,
{
    if n > 0 {
        lemma_row_snapshot(row, y, (n - 1) as nat);
        let before = row_snapshot(row, y, (n - 1) as nat);
        let all = row_snapshot(row, y, n);
        assert forall|entry: (int, int, BlockKind)| #[trigger] all.contains(entry) <==> {
            &&& entry.1 == y
            &&& 0 <= entry.0 < n
            &&& row[entry.0] matches Some(block)
            &&& block.block_kind == entry.2
        } by {
            if all.contains(entry) {
                let i = choose|i: int| 0 <= i < all.len() && all[i] == entry;
                if i < before.len() {
                    assert(before[i] == entry);
                    assert(before.contains(entry));
                }
            }
            if before.contains(entry) {
                let i = choose|i: int| 0 <= i < before.len() && before[i] == entry;
                assert(all[i] == entry);
            }
            if let Some(block) = row[n - 1] {
                assert(all[before.len() as int] == (n - 1, y, block.block_kind));
            }
        }
        assert forall|i: int, j: int| 0 <= i < j < all.len() implies reads_before(
            #[trigger] all[i],
            #[trigger] all[j],
        ) by {
            if j >= before.len() {
                assert(before[i] == all[i]);
                assert(before.contains(all[i]));
            } else {
                assert(before[i] == all[i] && before[j] == all[j]);
            }
        }
    }
}

proof fn lemma_rows_snapshot(rows: Seq<Seq<Option<Block>>>, n: nat)
    requires
        n <= rows.len(),
    ensures
        forall|entry: (int, int, BlockKind)|
            #[trigger] rows_snapshot(rows, n).contains(entry) <==> {
                &&& 0 <= entry.1 < n
                &&& 0 <= entry.0 < rows[entry.1].len()
                &&& rows[entry.1][entry.0] matches Some(block)
                &&& block.block_kind == entry.2
            },
        forall|i: int, j: int|
            0 <= i < j < rows_snapshot(rows, n).len() ==> reads_before(
                #[trigger] rows_snapshot(rows, n)[i],
                #[trigger] rows_snapshot(rows, n)[j],
            ),
    decreases n,
{
    if n > 0 {
        lemma_rows_snapshot(rows, (n - 1) as nat);
        let row = rows[n - 1];
        lemma_row_snapshot(row, n - 1, row.len());
        let before = rows_snapshot(rows, (n - 1) as nat);
        let last = row_snapshot(row, n - 1, row.len());
        let all = rows_snapshot(rows, n);
        assert(all == before + last);
        assert forall|entry: (int, int, BlockKind)| #[trigger] all.contains(entry) <==> {
            &&& 0 <= entry.1 < n
            &&& 0 <= entry.0 < rows[entry.1].len()
            &&& rows[entry.1][entry.0] matches Some(block)
            &&& block.block_kind == entry.2
        } by {
            if all.contains(entry) {
                let i = choose|i: int| 0 <= i < all.len() && all[i] == entry;
                if i < before.len() {
                    assert(before[i] == entry);
                    assert(before.contains(entry));
                } else {
                    assert(last[i - before.len()] == entry);
                    assert(last.contains(entry));
                }
            }
            if before.contains(entry) {
                let i = choose|i: int| 0 <= i < before.len() && before[i] == entry;
                assert(all[i] == entry);
            }
            if last.contains(entry) {
                let i = choose|i: int| 0 <= i < last.len() && last[i] == entry;
                assert(all[before.len() + i] == entry);
            }
        }
        assert forall|i: int, j: int| 0 <= i < j < all.len() implies reads_before(
            #[trigger] all[i],
            #[trigger] all[j],
        ) by {
            if i < before.len() {
                assert(before[i] == all[i]);
                assert(before.contains(all[i]));
            } else {
                assert(last[i - before.len()] == all[i]);
            }
            if j < before.len() {
                assert(before[j] == all[j]);
            } else {
                assert(last[j - before.len()] == all[j]);
                assert(last.contains(all[j]));
            }
        }
    }
}

/// A snapshot lists the occupied cells, each once, in reading order: an
/// entry is in it if and only if its cell holds a block of its kind, and
/// every entry comes before the entries after it.
pub proof fn lemma_snapshot_lists_occupied_cells(grid: GridView)
    requires
        grid.wf(),
    ensures
        forall|entry: (int, int, BlockKind)|
            #[trigger] grid.snapshot().contains(entry) <==> tells_of(grid, entry),
        forall|i: int, j: int|
            0 <= i < j < grid.snapshot().len() ==> reads_before(
                #[trigger] grid.snapshot()[i],
                #[trigger] grid.snapshot()[j],
            ),
{
    lemma_rows_snapshot(grid.rows, grid.height);
}

} // verus!
