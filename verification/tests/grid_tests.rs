use nav_grid::geometry::isqrt;
use nav_grid::grid::{NavGrid, WorldPos};

fn pos(x: i32, z: i32) -> WorldPos {
    WorldPos { x, z }
}

#[test]
fn new_grid_is_centred_and_walkable() {
    let grid = NavGrid::new(10, 8, 1000);
    assert_eq!(grid.width, 10);
    assert_eq!(grid.height, 8);
    assert_eq!(grid.cell_size, 1000);
    assert_eq!(grid.offset, pos(-5000, -4000));
    assert_eq!(grid.grid.len(), 80);
    for y in 0..8 {
        for x in 0..10 {
            assert!(grid.is_walkable(x, y));
        }
    }
}

#[test]
fn new_grid_with_odd_span_rounds_offset_toward_zero() {
    let grid = NavGrid::new(3, 5, 1);
    assert_eq!(grid.offset, pos(-1, -2));
}

#[test]
fn default_sized_grid_has_ten_thousand_cells() {
    let grid = NavGrid::new(100, 100, 1000);
    assert_eq!(grid.grid.len(), 10_000);
    assert_eq!(grid.offset, pos(-50_000, -50_000));
    assert_eq!(grid.world_to_grid(pos(0, 0)), Some((50, 50)));
}

#[test]
fn world_to_grid_maps_positions_to_cells() {
    let grid = NavGrid::new(10, 10, 1000);
    assert_eq!(grid.world_to_grid(pos(-5000, -5000)), Some((0, 0)));
    assert_eq!(grid.world_to_grid(pos(-4001, -4000)), Some((0, 1)));
    assert_eq!(grid.world_to_grid(pos(0, 0)), Some((5, 5)));
    assert_eq!(grid.world_to_grid(pos(4999, 4999)), Some((9, 9)));
    assert_eq!(grid.world_to_grid(pos(1234, -2500)), Some((6, 2)));
}

#[test]
fn world_to_grid_rejects_positions_off_the_grid() {
    let grid = NavGrid::new(10, 10, 1000);
    assert_eq!(grid.world_to_grid(pos(5000, 0)), None);
    assert_eq!(grid.world_to_grid(pos(0, 5000)), None);
    assert_eq!(grid.world_to_grid(pos(-6000, 0)), None);
    assert_eq!(grid.world_to_grid(pos(0, -6000)), None);
    assert_eq!(grid.world_to_grid(pos(i32::MAX, i32::MAX)), None);
    assert_eq!(grid.world_to_grid(pos(i32::MIN, i32::MIN)), None);
}

#[test]
fn world_to_grid_truncates_toward_zero_below_the_origin() {
    let grid = NavGrid::new(10, 10, 1000);
    // Less than one cell below the low edge still rounds to cell 0.
    assert_eq!(grid.world_to_grid(pos(-5999, -5001)), Some((0, 0)));
    assert_eq!(grid.world_to_grid(pos(-6000, -5001)), None);
}

#[test]
fn grid_to_world_gives_cell_centres() {
    let grid = NavGrid::new(10, 10, 1000);
    assert_eq!(grid.grid_to_world(0, 0), pos(-4500, -4500));
    assert_eq!(grid.grid_to_world(9, 9), pos(4500, 4500));
    assert_eq!(grid.grid_to_world(5, 2), pos(500, -2500));
}

#[test]
fn grid_to_world_with_odd_cell_size_rounds_half_down() {
    let grid = NavGrid::new(4, 4, 5);
    assert_eq!(grid.offset, pos(-10, -10));
    assert_eq!(grid.grid_to_world(0, 0), pos(-8, -8));
    assert_eq!(grid.grid_to_world(3, 1), pos(7, -3));
}

#[test]
fn centre_of_every_cell_maps_back_to_the_cell() {
    let grid = NavGrid::new(7, 5, 3);
    for y in 0..5 {
        for x in 0..7 {
            let centre = grid.grid_to_world(x, y);
            assert_eq!(grid.world_to_grid(centre), Some((x, y)));
        }
    }
}

#[test]
fn is_walkable_is_false_off_the_grid() {
    let grid = NavGrid::new(10, 10, 1000);
    assert!(!grid.is_walkable(10, 0));
    assert!(!grid.is_walkable(0, 10));
    assert!(!grid.is_walkable(usize::MAX, usize::MAX));
}

#[test]
fn set_obstacle_blocks_one_cell() {
    let mut grid = NavGrid::new(10, 10, 1000);
    grid.set_obstacle(3, 4);
    for y in 0..10 {
        for x in 0..10 {
            assert_eq!(grid.is_walkable(x, y), !(x == 3 && y == 4));
        }
    }
}

#[test]
fn set_obstacle_off_the_grid_changes_nothing() {
    let mut grid = NavGrid::new(4, 4, 1000);
    grid.set_obstacle(4, 0);
    grid.set_obstacle(0, 4);
    grid.set_obstacle(usize::MAX, usize::MAX);
    for y in 0..4 {
        for x in 0..4 {
            assert!(grid.is_walkable(x, y));
        }
    }
}

#[test]
fn set_obstacle_rect_blocks_the_rectangle() {
    let mut grid = NavGrid::new(10, 10, 1000);
    grid.set_obstacle_rect(4, 4, 5, 5);
    for y in 0..10 {
        for x in 0..10 {
            let inside = (4..=5).contains(&x) && (4..=5).contains(&y);
            assert_eq!(grid.is_walkable(x, y), !inside);
        }
    }
}

#[test]
fn set_obstacle_rect_is_clamped_to_the_grid() {
    let mut grid = NavGrid::new(6, 6, 1000);
    grid.set_obstacle_rect(4, 3, 100, usize::MAX);
    for y in 0..6 {
        for x in 0..6 {
            assert_eq!(grid.is_walkable(x, y), !(x >= 4 && y >= 3));
        }
    }
}

#[test]
fn set_obstacle_rect_with_inverted_corners_changes_nothing() {
    let mut grid = NavGrid::new(6, 6, 1000);
    grid.set_obstacle_rect(4, 4, 2, 5);
    grid.set_obstacle_rect(1, 5, 3, 2);
    grid.set_obstacle_rect(6, 0, 9, 5);
    for y in 0..6 {
        for x in 0..6 {
            assert!(grid.is_walkable(x, y));
        }
    }
}

#[test]
fn set_obstacle_rect_on_an_empty_grid_does_nothing() {
    let mut grid = NavGrid::new(0, 0, 1000);
    grid.set_obstacle_rect(0, 0, 3, 3);
    assert_eq!(grid.grid.len(), 0);
    assert!(!grid.is_walkable(0, 0));
}

#[test]
fn mark_obstacle_world_blocks_the_cells_under_the_rectangle() {
    let mut grid = NavGrid::new(10, 10, 1000);
    // From (-1000, -1000) to (1000, 1000): cells 4 to 6 along both axes.
    grid.mark_obstacle_world(pos(0, 0), pos(1000, 1000));
    for y in 0..10 {
        for x in 0..10 {
            let inside = (4..=6).contains(&x) && (4..=6).contains(&y);
            assert_eq!(grid.is_walkable(x, y), !inside);
        }
    }
}

#[test]
fn mark_obstacle_world_with_small_extents_blocks_one_cell() {
    let mut grid = NavGrid::new(10, 10, 1000);
    grid.mark_obstacle_world(pos(2500, -3500), pos(100, 100));
    for y in 0..10 {
        for x in 0..10 {
            assert_eq!(grid.is_walkable(x, y), !(x == 7 && y == 1));
        }
    }
}

#[test]
fn mark_obstacle_world_is_clamped_to_the_grid() {
    let mut grid = NavGrid::new(10, 10, 1000);
    // Reaches from x = 3500 to x = 9500, far past the high edge at 5000.
    grid.mark_obstacle_world(pos(6500, 0), pos(3000, 400));
    for y in 0..10 {
        for x in 0..10 {
            let inside = x >= 8 && (4..=5).contains(&y);
            assert_eq!(grid.is_walkable(x, y), !inside);
        }
    }
}

#[test]
fn mark_obstacle_world_off_the_grid_changes_nothing() {
    let mut grid = NavGrid::new(10, 10, 1000);
    grid.mark_obstacle_world(pos(20_000, 20_000), pos(1000, 1000));
    grid.mark_obstacle_world(pos(-20_000, 0), pos(1000, 1000));
    grid.mark_obstacle_world(pos(i32::MAX, i32::MIN), pos(i32::MAX, i32::MAX));
    let mut blocked = 0;
    for y in 0..10 {
        for x in 0..10 {
            if !grid.is_walkable(x, y) {
                blocked += 1;
            }
        }
    }
    // The last rectangle reaches from x = 0 upward and from z = -1 downward:
    // columns 5 to 9 of rows 0 to 4.
    assert_eq!(blocked, 25);
}

#[test]
fn mark_obstacle_world_with_negative_extents_changes_nothing() {
    let mut grid = NavGrid::new(10, 10, 1000);
    grid.mark_obstacle_world(pos(0, 0), pos(-2000, 500));
    for y in 0..10 {
        for x in 0..10 {
            assert!(grid.is_walkable(x, y));
        }
    }
}

#[test]
fn isqrt_rounds_down() {
    assert_eq!(isqrt(0), 0);
    assert_eq!(isqrt(1), 1);
    assert_eq!(isqrt(3), 1);
    assert_eq!(isqrt(4), 2);
    assert_eq!(isqrt(24), 4);
    assert_eq!(isqrt(25), 5);
    assert_eq!(isqrt(1_000_000), 1000);
    assert_eq!(isqrt(999_999), 999);
    assert_eq!(isqrt(u128::MAX), u64::MAX as u128);
}
