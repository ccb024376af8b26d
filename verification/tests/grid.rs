use falling_sand::grid::Grid;
use falling_sand::kind::{Block, BlockKind};

fn block(kind: BlockKind) -> Option<Block> {
    Some(Block::new(kind))
}

#[test]
fn a_new_grid_is_empty_and_has_the_size_asked_for() {
    let grid = Grid::new(7, 4);
    assert_eq!(grid.width(), 7);
    assert_eq!(grid.height(), 4);
    for y in 0..4 {
        for x in 0..7 {
            assert_eq!(grid.get_cell(x, y), Some(None));
        }
    }
    assert!(grid.snapshot().is_empty());
}

#[test]
fn a_grid_without_cells_can_be_made() {
    let grid = Grid::new(0, 5);
    assert_eq!(grid.width(), 0);
    assert_eq!(grid.height(), 5);
    assert_eq!(grid.get_cell(0, 0), None);
    let grid = Grid::new(5, 0);
    assert_eq!(grid.get_cell(0, 0), None);
}

#[test]
fn get_cell_tells_off_grid_from_empty_from_occupied() {
    let mut grid = Grid::new(3, 2);
    grid.set_cell(2, 1, block(BlockKind::Steel));
    assert_eq!(grid.get_cell(2, 1), Some(block(BlockKind::Steel)));
    assert_eq!(grid.get_cell(1, 1), Some(None));
    assert_eq!(grid.get_cell(3, 1), None);
    assert_eq!(grid.get_cell(2, 2), None);
    assert_eq!(grid.get_cell(usize::MAX, 0), None);
    assert_eq!(grid.get_cell(0, usize::MAX), None);
}

#[test]
fn set_cell_writes_one_cell_and_no_other() {
    let mut grid = Grid::new(3, 3);
    grid.set_cell(1, 2, block(BlockKind::Sand));
    for y in 0..3 {
        for x in 0..3 {
            let expected = if (x, y) == (1, 2) { block(BlockKind::Sand) } else { None };
            assert_eq!(grid.get_cell(x, y), Some(expected));
        }
    }
    grid.set_cell(1, 2, None);
    assert_eq!(grid.get_cell(1, 2), Some(None));
}

#[test]
fn set_cell_tells_columns_from_rows() {
    let mut grid = Grid::new(4, 2);
    grid.set_cell(3, 0, block(BlockKind::Wood));
    assert_eq!(grid.get_cell(3, 0), Some(block(BlockKind::Wood)));
    assert_eq!(grid.get_cell(0, 1), Some(None));
    assert_eq!(grid.get_cell(1, 1), Some(None));
}

#[test]
fn swap_cells_moves_a_block_into_an_empty_cell() {
    let mut grid = Grid::new(3, 3);
    grid.set_cell(0, 0, block(BlockKind::Sand));
    grid.swap_cells((0, 0), (2, 1));
    assert_eq!(grid.get_cell(0, 0), Some(None));
    assert_eq!(grid.get_cell(2, 1), Some(block(BlockKind::Sand)));
}

#[test]
fn swap_cells_exchanges_two_blocks() {
    let mut grid = Grid::new(3, 3);
    grid.set_cell(0, 0, block(BlockKind::Sand));
    grid.set_cell(1, 1, block(BlockKind::Water));
    grid.swap_cells((0, 0), (1, 1));
    assert_eq!(grid.get_cell(0, 0), Some(block(BlockKind::Water)));
    assert_eq!(grid.get_cell(1, 1), Some(block(BlockKind::Sand)));
}

#[test]
fn swap_cells_of_a_cell_with_itself_changes_nothing() {
    let mut grid = Grid::new(2, 2);
    grid.set_cell(1, 0, block(BlockKind::Fire));
    grid.swap_cells((1, 0), (1, 0));
    assert_eq!(grid.get_cell(1, 0), Some(block(BlockKind::Fire)));
    assert_eq!(grid.snapshot().len(), 1);
}

#[test]
fn position_is_empty_holds_of_empty_cells_on_the_grid_only() {
    let mut grid = Grid::new(3, 3);
    grid.set_cell(1, 1, block(BlockKind::Steel));
    assert!(grid.position_is_empty((0, 0)));
    assert!(grid.position_is_empty((2, 2)));
    assert!(!grid.position_is_empty((1, 1)));
    assert!(!grid.position_is_empty((3, 0)));
    assert!(!grid.position_is_empty((0, 3)));
}

#[test]
fn snapshot_lists_the_occupied_cells_row_by_row() {
    let mut grid = Grid::new(4, 3);
    grid.set_cell(3, 2, block(BlockKind::Steel));
    grid.set_cell(2, 0, block(BlockKind::Sand));
    grid.set_cell(0, 2, block(BlockKind::Fire));
    grid.set_cell(1, 1, block(BlockKind::Water));
    grid.set_cell(0, 0, block(BlockKind::Wood));
    assert_eq!(
        grid.snapshot(),
        vec![
            (0, 0, BlockKind::Wood),
            (2, 0, BlockKind::Sand),
            (1, 1, BlockKind::Water),
            (0, 2, BlockKind::Fire),
            (3, 2, BlockKind::Steel),
        ]
    );
}

#[test]
fn snapshot_leaves_the_grid_as_it_is() {
    let mut grid = Grid::new(3, 3);
    grid.set_cell(1, 1, block(BlockKind::Concrete));
    let first = grid.snapshot();
    let second = grid.snapshot();
    assert_eq!(first, second);
    assert_eq!(grid.get_cell(1, 1), Some(block(BlockKind::Concrete)));
}
