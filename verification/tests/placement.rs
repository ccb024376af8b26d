use falling_sand::grid::Grid;
use falling_sand::kind::{Block, BlockKind};

fn block(kind: BlockKind) -> Option<Block> {
    Some(Block::new(kind))
}

fn cells(grid: &Grid) -> Vec<(usize, usize)> {
    grid.snapshot().iter().map(|entry| (entry.0, entry.1)).collect()
}

#[test]
fn placing_in_the_left_column_does_nothing() {
    let mut grid = Grid::new(10, 10);
    grid.place(BlockKind::Sand, 0, 5);
    assert!(grid.snapshot().is_empty());
}

#[test]
fn placing_in_the_top_row_does_nothing() {
    let mut grid = Grid::new(10, 10);
    grid.place(BlockKind::Sand, 5, 0);
    grid.place(BlockKind::Sand, 0, 0);
    assert!(grid.snapshot().is_empty());
}

#[test]
fn placing_on_an_empty_cell_puts_a_fresh_block_there() {
    let mut grid = Grid::new(10, 10);
    grid.place(BlockKind::Sand, 5, 5);
    assert_eq!(grid.get_cell(5, 5), Some(block(BlockKind::Sand)));
    assert_eq!(grid.snapshot(), vec![(5, 5, BlockKind::Sand)]);
}

#[test]
fn placing_on_an_occupied_cell_does_nothing() {
    let mut grid = Grid::new(10, 10);
    grid.place(BlockKind::Sand, 5, 5);
    grid.place(BlockKind::Sand, 5, 5);
    assert_eq!(grid.snapshot(), vec![(5, 5, BlockKind::Sand)]);
    grid.place(BlockKind::Steel, 5, 5);
    assert_eq!(grid.get_cell(5, 5), Some(block(BlockKind::Sand)));
}

#[test]
fn placing_does_not_reset_the_block_that_is_there() {
    let mut grid = Grid::new(10, 10);
    let burning = Block { block_kind: BlockKind::Fire, velocity_x: 0, velocity_y: 2, life_time: 7 };
    grid.set_cell(5, 5, Some(burning));
    grid.place(BlockKind::Fire, 5, 5);
    assert_eq!(grid.get_cell(5, 5), Some(Some(burning)));
}

#[test]
fn placing_off_the_grid_does_nothing() {
    let mut grid = Grid::new(10, 10);
    grid.place(BlockKind::Sand, 10, 5);
    grid.place(BlockKind::Sand, 5, 10);
    grid.place(BlockKind::Sand, usize::MAX, usize::MAX);
    assert!(grid.snapshot().is_empty());
}

#[test]
fn placing_in_the_last_row_and_the_last_column_works() {
    let mut grid = Grid::new(10, 10);
    grid.place(BlockKind::Wood, 9, 9);
    grid.place(BlockKind::Wood, 1, 1);
    assert_eq!(cells(&grid), vec![(1, 1), (9, 9)]);
}

#[test]
fn placed_fire_starts_with_sixty_ticks_of_life() {
    let mut grid = Grid::new(10, 10);
    grid.place(BlockKind::Fire, 3, 3);
    assert_eq!(grid.get_cell(3, 3).unwrap().unwrap().life_time, 60);
}

#[test]
fn a_brush_of_radius_zero_fills_its_centre_only() {
    let mut grid = Grid::new(10, 10);
    grid.place_area(BlockKind::Sand, 4, 4, 0);
    assert_eq!(grid.snapshot(), vec![(4, 4, BlockKind::Sand)]);
}

#[test]
fn a_brush_of_radius_one_fills_a_cross() {
    let mut grid = Grid::new(10, 10);
    grid.place_area(BlockKind::Water, 4, 4, 1);
    assert_eq!(cells(&grid), vec![(4, 3), (3, 4), (4, 4), (5, 4), (4, 5)]);
    assert_eq!(grid.get_cell(4, 3), Some(block(BlockKind::Water)));
}

#[test]
fn a_brush_of_radius_two_fills_a_disk_of_thirteen_cells() {
    let mut grid = Grid::new(10, 10);
    grid.place_area(BlockKind::Sand, 5, 5, 2);
    assert_eq!(
        cells(&grid),
        vec![
            (5, 3),
            (4, 4),
            (5, 4),
            (6, 4),
            (3, 5),
            (4, 5),
            (5, 5),
            (6, 5),
            (7, 5),
            (4, 6),
            (5, 6),
            (6, 6),
            (5, 7),
        ]
    );
}

#[test]
fn a_brush_fills_exactly_the_cells_within_its_radius() {
    let mut grid = Grid::new(40, 40);
    grid.place_area(BlockKind::Sand, 20, 20, 7);
    for y in 0..40i64 {
        for x in 0..40i64 {
            let inside = (x - 20) * (x - 20) + (y - 20) * (y - 20) <= 49;
            let expected = if inside { block(BlockKind::Sand) } else { None };
            assert_eq!(grid.get_cell(x as usize, y as usize), Some(expected));
        }
    }
    // 3-4-5 triangles: (6, 4) is outside the radius of 7, (5, 4) is not
    assert_eq!(grid.get_cell(26, 24), Some(None));
    assert_eq!(grid.get_cell(25, 24), Some(block(BlockKind::Sand)));
    assert_eq!(grid.snapshot().len(), 149);
}

#[test]
fn a_brush_is_clipped_at_the_edges_and_spares_the_top_row_and_the_left_column() {
    let mut grid = Grid::new(6, 6);
    grid.place_area(BlockKind::Sand, 0, 0, 2);
    assert_eq!(cells(&grid), vec![(1, 1)]);
    let mut grid = Grid::new(6, 6);
    grid.place_area(BlockKind::Sand, 5, 5, 1);
    assert_eq!(cells(&grid), vec![(5, 4), (4, 5), (5, 5)]);
}

#[test]
fn a_brush_centred_off_the_grid_fills_what_it_reaches() {
    let mut grid = Grid::new(6, 6);
    grid.place_area(BlockKind::Sand, 7, 3, 2);
    assert_eq!(cells(&grid), vec![(5, 3)]);
    let mut grid = Grid::new(6, 6);
    grid.place_area(BlockKind::Sand, 9, 3, 2);
    assert!(grid.snapshot().is_empty());
}

#[test]
fn a_brush_does_not_overwrite() {
    let mut grid = Grid::new(10, 10);
    grid.set_cell(4, 4, block(BlockKind::Steel));
    grid.set_cell(4, 3, block(BlockKind::Fire));
    grid.place_area(BlockKind::Water, 4, 4, 1);
    assert_eq!(
        grid.snapshot(),
        vec![
            (4, 3, BlockKind::Fire),
            (3, 4, BlockKind::Water),
            (4, 4, BlockKind::Steel),
            (5, 4, BlockKind::Water),
            (4, 5, BlockKind::Water),
        ]
    );
}

#[test]
fn a_brush_larger_than_the_grid_fills_all_that_may_be_filled() {
    let mut grid = Grid::new(5, 4);
    grid.place_area(BlockKind::Wood, 2, 2, usize::MAX);
    assert_eq!(grid.snapshot().len(), 12);
    for y in 1..4 {
        for x in 1..5 {
            assert_eq!(grid.get_cell(x, y), Some(block(BlockKind::Wood)));
        }
    }
    let mut grid = Grid::new(5, 4);
    grid.place_area(BlockKind::Wood, usize::MAX, 2, usize::MAX);
    assert_eq!(grid.snapshot().len(), 12);
}

#[test]
fn a_far_away_brush_that_falls_just_short_fills_nothing() {
    // every cell of the grid is farther than the radius from the centre
    let mut grid = Grid::new(5, 4);
    grid.place_area(BlockKind::Wood, usize::MAX, usize::MAX, usize::MAX);
    assert!(grid.snapshot().is_empty());
    let mut grid = Grid::new(5, 4);
    grid.place_area(BlockKind::Wood, usize::MAX, 2, usize::MAX - 5);
    assert!(grid.snapshot().is_empty());
    grid.place_area(BlockKind::Wood, usize::MAX, 2, usize::MAX - 4);
    assert_eq!(grid.snapshot(), vec![(4, 2, BlockKind::Wood)]);
}

#[test]
fn a_repeated_brush_stroke_changes_nothing_more() {
    let mut grid = Grid::new(10, 10);
    grid.place_area(BlockKind::Sand, 5, 5, 3);
    let first = grid.snapshot();
    grid.place_area(BlockKind::Water, 5, 5, 3);
    assert_eq!(grid.snapshot(), first);
}

#[test]
fn the_left_column_is_refused_an_empty_cell_is_filled_and_a_filled_cell_is_left_alone() {
    let mut grid = Grid::new(10, 10);
    grid.place(BlockKind::Sand, 0, 5);
    assert_eq!(grid.get_cell(0, 5), Some(None));
    assert!(grid.snapshot().is_empty());
    grid.place(BlockKind::Sand, 5, 5);
    assert_eq!(grid.get_cell(5, 5), Some(block(BlockKind::Sand)));
    let once = grid.snapshot();
    assert_eq!(once, vec![(5, 5, BlockKind::Sand)]);
    grid.place(BlockKind::Sand, 5, 5);
    assert_eq!(grid.snapshot(), once);
    assert_eq!(grid.get_cell(5, 5), Some(block(BlockKind::Sand)));
}
