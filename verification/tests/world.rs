use falling_sand::grid::Grid;
use falling_sand::kind::{Block, BlockKind};
use falling_sand::motion::Physics;
use falling_sand::world::World;

fn block(kind: BlockKind) -> Option<Block> {
    Some(Block::new(kind))
}

fn moving(kind: BlockKind, velocity_x: i8, velocity_y: i8) -> Block {
    Block { block_kind: kind, velocity_x, velocity_y, life_time: Block::new(kind).life_time }
}

fn fire(life_time: i8) -> Block {
    Block { block_kind: BlockKind::Fire, velocity_x: 0, velocity_y: 0, life_time }
}

fn world(width: usize, height: usize) -> World {
    World::new(width, height, Physics::default())
}

/// A world whose bottom row is steel.
fn world_with_floor(width: usize, height: usize) -> World {
    let mut world = world(width, height);
    for x in 0..width {
        world.grid.set_cell(x, height - 1, block(BlockKind::Steel));
    }
    world
}

fn count(grid: &Grid, kind: BlockKind) -> usize {
    grid.snapshot().iter().filter(|entry| entry.2 == kind).count()
}

#[test]
fn a_new_world_is_empty_and_starts_on_an_even_tick() {
    let world = World::new(6, 4, Physics { gravity: 2, rest_velocity: 1 });
    assert_eq!(world.grid.width(), 6);
    assert_eq!(world.grid.height(), 4);
    assert!(world.grid.snapshot().is_empty());
    assert!(!world.frame_parity);
    assert_eq!(world.physics, Physics { gravity: 2, rest_velocity: 1 });
}

#[test]
fn a_tick_flips_the_parity() {
    let mut world = world(4, 4);
    world.advance_tick();
    assert!(world.frame_parity);
    world.advance_tick();
    assert!(!world.frame_parity);
}

#[test]
fn a_pass_alone_leaves_the_parity_as_it_is() {
    let mut world = world(4, 4);
    world.grid.set_cell(1, 1, block(BlockKind::Sand));
    world.update_world();
    assert!(!world.frame_parity);
    assert_eq!(world.grid.snapshot(), vec![(1, 2, BlockKind::Sand)]);
}

#[test]
fn a_tick_leaves_the_physics_as_they_are() {
    let mut world = World::new(4, 4, Physics { gravity: 5, rest_velocity: 1 });
    world.advance_tick();
    assert_eq!(world.physics, Physics { gravity: 5, rest_velocity: 1 });
}

#[test]
fn a_tick_on_an_empty_grid_changes_nothing() {
    let mut world = world(5, 5);
    world.advance_tick();
    assert!(world.grid.snapshot().is_empty());
}

#[test]
fn a_tick_on_a_grid_of_one_row_or_none_changes_nothing() {
    let mut world = world(5, 1);
    world.grid.set_cell(2, 0, Some(fire(1)));
    world.grid.set_cell(3, 0, block(BlockKind::Water));
    world.advance_tick();
    assert_eq!(world.grid.get_cell(2, 0), Some(Some(fire(1))));
    assert_eq!(world.grid.get_cell(3, 0), Some(block(BlockKind::Water)));
    let mut none = World::new(5, 0, Physics::default());
    none.advance_tick();
    assert!(none.frame_parity);
}

#[test]
fn sand_dropped_at_the_top_of_a_ten_by_ten_grid_is_in_row_nine_after_nine_ticks() {
    let mut world = world(10, 10);
    world.grid.set_cell(5, 0, block(BlockKind::Sand));
    for _ in 0..9 {
        world.advance_tick();
    }
    assert_eq!(world.grid.snapshot(), vec![(5, 9, BlockKind::Sand)]);
}

#[test]
fn sand_gains_one_cell_per_tick_of_speed_until_it_lands() {
    let mut world = world(10, 10);
    world.grid.set_cell(5, 0, block(BlockKind::Sand));
    let mut rows = Vec::new();
    for _ in 0..6 {
        world.advance_tick();
        let cells = world.grid.snapshot();
        assert_eq!(cells.len(), 1);
        assert_eq!(cells[0].0, 5);
        rows.push(cells[0].1);
    }
    assert_eq!(rows, vec![1, 3, 6, 9, 9, 9]);
    assert_eq!(world.grid.get_cell(5, 9), Some(Some(moving(BlockKind::Sand, 0, 4))));
}

#[test]
fn sand_placed_below_the_top_row_lands_as_well() {
    let mut world = world(10, 10);
    world.grid.place(BlockKind::Sand, 5, 1);
    for _ in 0..9 {
        world.advance_tick();
    }
    assert_eq!(world.grid.snapshot(), vec![(5, 9, BlockKind::Sand)]);
}

#[test]
fn sand_without_gravity_falls_one_row_per_tick() {
    let mut world = World::new(10, 10, Physics { gravity: 0, rest_velocity: 0 });
    world.grid.set_cell(5, 0, block(BlockKind::Sand));
    for tick in 1..=9 {
        world.advance_tick();
        assert_eq!(world.grid.snapshot(), vec![(5, tick, BlockKind::Sand)]);
    }
    world.advance_tick();
    assert_eq!(world.grid.snapshot(), vec![(5, 9, BlockKind::Sand)]);
}

#[test]
fn sand_does_not_displace_steel() {
    let mut world = world(10, 10);
    world.grid.set_cell(5, 5, block(BlockKind::Steel));
    world.grid.set_cell(5, 4, block(BlockKind::Sand));
    world.advance_tick();
    assert_eq!(world.grid.get_cell(5, 5), Some(block(BlockKind::Steel)));
    assert_eq!(
        world.grid.snapshot(),
        vec![(4, 5, BlockKind::Sand), (5, 5, BlockKind::Steel)]
    );
    assert_eq!(world.grid.get_cell(4, 5), Some(Some(moving(BlockKind::Sand, 0, 1))));
}

#[test]
fn sand_walled_in_by_steel_stays_where_it_is() {
    let mut world = world(10, 10);
    for x in 4..7 {
        world.grid.set_cell(x, 5, block(BlockKind::Steel));
    }
    world.grid.set_cell(5, 4, block(BlockKind::Sand));
    for _ in 0..3 {
        world.advance_tick();
    }
    assert_eq!(world.grid.get_cell(5, 4), Some(Some(moving(BlockKind::Sand, 0, 3))));
    assert_eq!(world.grid.snapshot().len(), 4);
}

#[test]
fn the_diagonal_a_block_takes_alternates_from_tick_to_tick() {
    // sand on a steel peak with both lower neighbours free
    let mut world = world(10, 10);
    world.grid.set_cell(5, 5, block(BlockKind::Steel));
    world.grid.set_cell(5, 4, block(BlockKind::Sand));
    assert!(!world.frame_parity);
    world.advance_tick();
    assert_eq!(world.grid.get_cell(4, 5), Some(Some(moving(BlockKind::Sand, 0, 1))));
    assert_eq!(world.grid.get_cell(6, 5), Some(None));
    // the same peak one tick later
    world.grid.set_cell(4, 5, None);
    world.grid.set_cell(5, 4, block(BlockKind::Sand));
    assert!(world.frame_parity);
    world.advance_tick();
    assert_eq!(world.grid.get_cell(6, 5), Some(Some(moving(BlockKind::Sand, 0, 1))));
    assert_eq!(world.grid.get_cell(4, 5), Some(None));
}

#[test]
fn fire_with_three_ticks_of_life_is_gone_after_exactly_three_ticks() {
    let mut world = world(10, 10);
    world.grid.set_cell(5, 5, Some(fire(3)));
    world.advance_tick();
    assert_eq!(world.grid.get_cell(5, 5), Some(Some(fire(2))));
    world.advance_tick();
    assert_eq!(world.grid.get_cell(5, 5), Some(Some(fire(1))));
    world.advance_tick();
    assert_eq!(world.grid.get_cell(5, 5), Some(None));
    assert!(world.grid.snapshot().is_empty());
}

#[test]
fn placed_fire_burns_for_sixty_ticks() {
    let mut world = world(4, 4);
    world.grid.place(BlockKind::Fire, 2, 2);
    for _ in 0..59 {
        world.advance_tick();
    }
    assert_eq!(world.grid.get_cell(2, 2), Some(Some(fire(1))));
    world.advance_tick();
    assert_eq!(world.grid.get_cell(2, 2), Some(None));
}

#[test]
fn fire_ages_by_the_tick_wherever_it_is_pushed() {
    // sand falls onto the fire and lifts it by one row; the fire has aged
    // once all the same
    let mut world = world_with_floor(3, 5);
    world.grid.set_cell(1, 3, Some(fire(3)));
    world.grid.set_cell(1, 2, block(BlockKind::Sand));
    world.advance_tick();
    assert_eq!(world.grid.get_cell(1, 2), Some(Some(fire(2))));
    assert_eq!(world.grid.get_cell(1, 3), Some(Some(moving(BlockKind::Sand, 0, 1))));
    world.advance_tick();
    assert_eq!(world.grid.get_cell(1, 2), Some(Some(fire(1))));
    world.advance_tick();
    assert_eq!(world.grid.get_cell(1, 2), Some(None));
}

#[test]
fn a_block_in_the_bottom_row_is_never_updated() {
    let mut world = world(5, 4);
    world.grid.set_cell(1, 3, Some(fire(2)));
    world.grid.set_cell(2, 3, Some(moving(BlockKind::Sand, 3, 7)));
    world.grid.set_cell(3, 3, Some(moving(BlockKind::Water, 0, 0)));
    for _ in 0..5 {
        world.advance_tick();
    }
    assert_eq!(world.grid.get_cell(1, 3), Some(Some(fire(2))));
    assert_eq!(world.grid.get_cell(2, 3), Some(Some(moving(BlockKind::Sand, 3, 7))));
    assert_eq!(world.grid.get_cell(3, 3), Some(Some(moving(BlockKind::Water, 0, 0))));
    assert_eq!(world.grid.snapshot().len(), 3);
}

#[test]
fn the_bottom_row_takes_blocks_in() {
    let mut world = world(3, 3);
    world.grid.set_cell(1, 1, block(BlockKind::Sand));
    world.advance_tick();
    assert_eq!(world.grid.snapshot(), vec![(1, 2, BlockKind::Sand)]);
}

#[test]
fn a_block_in_the_bottom_row_can_be_displaced() {
    let mut world = world(3, 3);
    world.grid.set_cell(1, 2, block(BlockKind::Water));
    world.grid.set_cell(1, 1, block(BlockKind::Sand));
    world.advance_tick();
    assert_eq!(world.grid.get_cell(1, 2), Some(Some(moving(BlockKind::Sand, 0, 1))));
    assert_eq!(world.grid.get_cell(1, 1), Some(block(BlockKind::Water)));
}

#[test]
fn rows_are_visited_from_the_bottom_up() {
    // the lower block moves out of the way before the upper one is updated
    let mut world = world(3, 6);
    world.grid.set_cell(1, 1, block(BlockKind::Sand));
    world.grid.set_cell(1, 0, block(BlockKind::Sand));
    world.advance_tick();
    assert_eq!(
        world.grid.snapshot(),
        vec![(1, 1, BlockKind::Sand), (1, 2, BlockKind::Sand)]
    );
}

#[test]
fn columns_are_visited_from_the_left_on_an_even_tick() {
    // two blocks of sand on peaks contend for the cell between the peaks;
    // the one that is visited first gets it
    let mut world = world_with_floor(7, 4);
    world.grid.set_cell(2, 2, block(BlockKind::Steel));
    world.grid.set_cell(4, 2, block(BlockKind::Steel));
    world.grid.set_cell(1, 2, block(BlockKind::Steel));
    world.grid.set_cell(5, 2, block(BlockKind::Steel));
    world.grid.set_cell(2, 1, block(BlockKind::Sand));
    world.grid.set_cell(4, 1, Some(moving(BlockKind::Sand, 0, 50)));
    world.advance_tick();
    // left to right: the sand at column 2 goes first and takes (3, 2)
    assert_eq!(world.grid.get_cell(3, 2), Some(Some(moving(BlockKind::Sand, 0, 1))));
    assert_eq!(world.grid.get_cell(4, 1), Some(Some(moving(BlockKind::Sand, 0, 51))));
    assert_eq!(world.grid.get_cell(2, 1), Some(None));
}

#[test]
fn columns_are_visited_from_the_right_on_an_odd_tick() {
    let mut world = world_with_floor(7, 4);
    world.frame_parity = true;
    world.grid.set_cell(2, 2, block(BlockKind::Steel));
    world.grid.set_cell(4, 2, block(BlockKind::Steel));
    world.grid.set_cell(1, 2, block(BlockKind::Steel));
    world.grid.set_cell(5, 2, block(BlockKind::Steel));
    world.grid.set_cell(2, 1, block(BlockKind::Sand));
    world.grid.set_cell(4, 1, Some(moving(BlockKind::Sand, 0, 50)));
    world.advance_tick();
    // right to left: the sand at column 4 goes first and takes (3, 2)
    assert_eq!(world.grid.get_cell(3, 2), Some(Some(moving(BlockKind::Sand, 0, 51))));
    assert_eq!(world.grid.get_cell(2, 1), Some(Some(moving(BlockKind::Sand, 0, 1))));
    assert_eq!(world.grid.get_cell(4, 1), Some(None));
}

#[test]
fn a_block_that_moves_ahead_of_the_pass_is_updated_again() {
    // an even tick goes from left to right; the water cannot slide left,
    // slides ten cells to the right, is met there again and slides back
    let mut world = world_with_floor(30, 2);
    world.grid.set_cell(4, 0, block(BlockKind::Steel));
    world.grid.set_cell(5, 0, block(BlockKind::Water));
    world.advance_tick();
    assert_eq!(world.grid.get_cell(5, 0), Some(Some(moving(BlockKind::Water, 0, 2))));
    assert_eq!(world.grid.snapshot().len(), 32);
}

#[test]
fn a_block_that_moves_behind_the_pass_is_updated_once() {
    // an odd tick goes from right to left
    let mut world = world_with_floor(30, 2);
    world.frame_parity = true;
    world.grid.set_cell(4, 0, block(BlockKind::Steel));
    world.grid.set_cell(5, 0, block(BlockKind::Water));
    world.advance_tick();
    assert_eq!(world.grid.get_cell(15, 0), Some(Some(moving(BlockKind::Water, 0, 1))));
    assert_eq!(world.grid.get_cell(5, 0), Some(None));
}

#[test]
fn water_spreads_over_a_floor() {
    let mut world = world_with_floor(12, 2);
    world.grid.set_cell(5, 0, block(BlockKind::Water));
    world.advance_tick();
    assert_eq!(world.grid.get_cell(0, 0), Some(Some(moving(BlockKind::Water, 0, 1))));
    world.advance_tick();
    assert_eq!(world.grid.get_cell(10, 0), Some(Some(moving(BlockKind::Water, 0, 2))));
}

#[test]
fn sand_sinks_through_water() {
    let mut world = world_with_floor(3, 5);
    world.grid.set_cell(1, 3, block(BlockKind::Water));
    world.grid.set_cell(1, 2, block(BlockKind::Water));
    world.grid.set_cell(0, 3, block(BlockKind::Steel));
    world.grid.set_cell(2, 3, block(BlockKind::Steel));
    world.grid.set_cell(0, 2, block(BlockKind::Steel));
    world.grid.set_cell(2, 2, block(BlockKind::Steel));
    world.grid.set_cell(0, 1, block(BlockKind::Steel));
    world.grid.set_cell(2, 1, block(BlockKind::Steel));
    world.grid.set_cell(1, 1, block(BlockKind::Sand));
    world.advance_tick();
    assert_eq!(world.grid.get_cell(1, 2).unwrap().unwrap().block_kind, BlockKind::Sand);
    assert_eq!(world.grid.get_cell(1, 1).unwrap().unwrap().block_kind, BlockKind::Water);
    world.advance_tick();
    assert_eq!(world.grid.get_cell(1, 3).unwrap().unwrap().block_kind, BlockKind::Sand);
    assert_eq!(world.grid.get_cell(1, 2).unwrap().unwrap().block_kind, BlockKind::Water);
    assert_eq!(world.grid.get_cell(1, 1).unwrap().unwrap().block_kind, BlockKind::Water);
}

#[test]
fn a_tick_neither_creates_nor_destroys_blocks_that_do_not_decay() {
    let mut world = world(12, 12);
    let kinds = [
        BlockKind::Sand,
        BlockKind::Water,
        BlockKind::Concrete,
        BlockKind::Steel,
        BlockKind::Wood,
    ];
    let mut seed: usize = 7;
    for y in 0..12 {
        for x in 0..12 {
            seed = (seed * 31 + 11) % 1009;
            if seed % 3 == 0 {
                world.grid.set_cell(x, y, block(kinds[seed % 5]));
            }
        }
    }
    let before: Vec<usize> = kinds.iter().map(|kind| count(&world.grid, *kind)).collect();
    assert!(before.iter().sum::<usize>() > 20);
    for _ in 0..25 {
        world.advance_tick();
        let after: Vec<usize> = kinds.iter().map(|kind| count(&world.grid, *kind)).collect();
        assert_eq!(after, before);
    }
}

#[test]
fn a_tick_destroys_nothing_but_fire() {
    let mut world = world(8, 8);
    for x in 1..7 {
        world.grid.set_cell(x, 2, block(BlockKind::Sand));
        world.grid.set_cell(x, 4, Some(fire(2)));
        world.grid.set_cell(x, 6, block(BlockKind::Water));
    }
    for _ in 0..4 {
        world.advance_tick();
    }
    assert_eq!(count(&world.grid, BlockKind::Sand), 6);
    assert_eq!(count(&world.grid, BlockKind::Water), 6);
    assert_eq!(count(&world.grid, BlockKind::Fire), 0);
}

#[test]
fn steel_and_wood_stay_where_they_are_put() {
    let mut world = world(5, 5);
    world.grid.set_cell(1, 1, block(BlockKind::Steel));
    world.grid.set_cell(3, 2, block(BlockKind::Wood));
    for _ in 0..10 {
        world.advance_tick();
    }
    assert_eq!(
        world.grid.snapshot(),
        vec![(1, 1, BlockKind::Steel), (3, 2, BlockKind::Wood)]
    );
    assert_eq!(world.grid.get_cell(1, 1), Some(block(BlockKind::Steel)));
}

#[test]
fn reset_gives_an_empty_grid_of_the_new_size() {
    let mut world = world(5, 5);
    world.grid.set_cell(1, 1, block(BlockKind::Steel));
    world.advance_tick();
    world.reset(7, 3);
    assert_eq!(world.grid.width(), 7);
    assert_eq!(world.grid.height(), 3);
    assert!(world.grid.snapshot().is_empty());
    assert!(world.frame_parity);
    assert_eq!(world.physics, Physics::default());
}

#[test]
fn each_block_of_a_falling_column_moves_once_per_tick() {
    let mut world = world(3, 12);
    for y in 0..3 {
        world.grid.set_cell(1, y, block(BlockKind::Sand));
    }
    world.advance_tick();
    for y in 1..4 {
        assert_eq!(world.grid.get_cell(1, y), Some(Some(moving(BlockKind::Sand, 0, 1))));
    }
    assert_eq!(world.grid.snapshot().len(), 3);
    world.advance_tick();
    for y in 3..6 {
        assert_eq!(world.grid.get_cell(1, y), Some(Some(moving(BlockKind::Sand, 0, 2))));
    }
    assert_eq!(world.grid.snapshot().len(), 3);
}

#[test]
fn a_falling_block_stops_on_the_block_below_and_goes_on_by_the_rules() {
    // the upper block of sand is faster than the lower one and catches up
    let mut world = world(3, 12);
    world.grid.set_cell(1, 4, block(BlockKind::Sand));
    world.grid.set_cell(1, 0, Some(moving(BlockKind::Sand, 0, 5)));
    world.advance_tick();
    assert_eq!(world.grid.get_cell(1, 5), Some(Some(moving(BlockKind::Sand, 0, 1))));
    assert_eq!(world.grid.get_cell(1, 4), Some(Some(moving(BlockKind::Sand, 0, 6))));
    world.advance_tick();
    assert_eq!(world.grid.get_cell(1, 7), Some(Some(moving(BlockKind::Sand, 0, 2))));
    assert_eq!(world.grid.get_cell(1, 6), Some(Some(moving(BlockKind::Sand, 0, 7))));
}

#[test]
fn water_does_not_sink_through_sand() {
    let mut world = world_with_floor(3, 4);
    world.grid.set_cell(0, 2, block(BlockKind::Steel));
    world.grid.set_cell(2, 2, block(BlockKind::Steel));
    world.grid.set_cell(0, 1, block(BlockKind::Steel));
    world.grid.set_cell(2, 1, block(BlockKind::Steel));
    world.grid.set_cell(1, 2, block(BlockKind::Sand));
    world.grid.set_cell(1, 1, block(BlockKind::Water));
    for _ in 0..4 {
        world.advance_tick();
        assert_eq!(world.grid.get_cell(1, 2).unwrap().unwrap().block_kind, BlockKind::Sand);
        assert_eq!(world.grid.get_cell(1, 1).unwrap().unwrap().block_kind, BlockKind::Water);
    }
}

#[test]
fn a_grid_where_nothing_moves_only_ages() {
    let mut world = world(4, 4);
    world.grid.set_cell(0, 0, Some(fire(2)));
    world.grid.set_cell(1, 1, Some(moving(BlockKind::Steel, 3, 4)));
    world.grid.set_cell(2, 2, Some(fire(1)));
    world.grid.set_cell(3, 3, Some(fire(1)));
    world.grid.set_cell(0, 3, block(BlockKind::Wood));
    world.advance_tick();
    assert_eq!(world.grid.get_cell(0, 0), Some(Some(fire(1))));
    assert_eq!(world.grid.get_cell(1, 1), Some(Some(moving(BlockKind::Steel, 3, 4))));
    assert_eq!(world.grid.get_cell(2, 2), Some(None));
    assert_eq!(world.grid.get_cell(3, 3), Some(Some(fire(1))));
    assert_eq!(world.grid.get_cell(0, 3), Some(block(BlockKind::Wood)));
    assert_eq!(world.grid.snapshot().len(), 4);
}
