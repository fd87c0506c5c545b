use nav_grid::grid::{NavGrid, WorldPos};
use nav_grid::open_set::{Node, OpenSet};
use nav_grid::path::PathError;

fn pos(x: i32, z: i32) -> WorldPos {
    WorldPos { x, z }
}

fn path_length(path: &[WorldPos]) -> f64 {
    let mut total = 0.0;
    for pair in path.windows(2) {
        total += distance(pair[0], pair[1]);
    }
    total
}

fn distance(a: WorldPos, b: WorldPos) -> f64 {
    let dx = (b.x - a.x) as f64;
    let dz = (b.z - a.z) as f64;
    (dx * dx + dz * dz).sqrt()
}

#[test]
fn neighbors_of_an_inner_cell_are_listed_cardinals_first() {
    let grid = NavGrid::new(5, 5, 1000);
    assert_eq!(
        grid.get_neighbors((2, 2)),
        vec![(2, 3), (2, 1), (3, 2), (1, 2), (3, 3), (1, 3), (3, 1), (1, 1)]
    );
}

#[test]
fn neighbors_of_a_corner_cell_stay_on_the_grid() {
    let grid = NavGrid::new(5, 5, 1000);
    assert_eq!(grid.get_neighbors((0, 0)), vec![(0, 1), (1, 0), (1, 1)]);
    assert_eq!(grid.get_neighbors((4, 4)), vec![(4, 3), (3, 4), (3, 3)]);
}

#[test]
fn neighbors_leave_out_blocked_cells() {
    let mut grid = NavGrid::new(5, 5, 1000);
    grid.set_obstacle(3, 3);
    assert_eq!(
        grid.get_neighbors((2, 2)),
        vec![(2, 3), (2, 1), (3, 2), (1, 2), (1, 3), (3, 1), (1, 1)]
    );
}

#[test]
fn neighbors_do_not_cut_blocked_corners() {
    let mut grid = NavGrid::new(5, 5, 1000);
    grid.set_obstacle(3, 2);
    // East is blocked, and with it both diagonals that pass it.
    assert_eq!(grid.get_neighbors((2, 2)), vec![(2, 3), (2, 1), (1, 2), (1, 3), (1, 1)]);
}

#[test]
fn neighbors_of_a_cell_at_the_largest_coordinates_are_none() {
    let grid = NavGrid::new(5, 5, 1000);
    assert_eq!(grid.get_neighbors((usize::MAX, usize::MAX)), vec![]);
}

#[test]
fn nearest_walkable_takes_the_first_cell_of_the_innermost_ring() {
    let mut grid = NavGrid::new(10, 10, 1000);
    grid.set_obstacle(5, 5);
    assert_eq!(grid.find_nearest_walkable((5, 5)), Some((4, 4)));
    grid.set_obstacle(4, 4);
    assert_eq!(grid.find_nearest_walkable((5, 5)), Some((4, 5)));
}

#[test]
fn nearest_walkable_moves_to_the_next_ring() {
    let mut grid = NavGrid::new(10, 10, 1000);
    grid.set_obstacle_rect(3, 3, 5, 5);
    // Ring one around (4, 4) is blocked; ring two is scanned from dx = -2, dy = -2.
    assert_eq!(grid.find_nearest_walkable((4, 4)), Some((2, 2)));
}

#[test]
fn nearest_walkable_skips_cells_off_the_grid() {
    let mut grid = NavGrid::new(10, 10, 1000);
    grid.set_obstacle(0, 0);
    assert_eq!(grid.find_nearest_walkable((0, 0)), Some((0, 1)));
}

#[test]
fn nearest_walkable_gives_up_after_nine_rings() {
    let mut grid = NavGrid::new(30, 30, 1000);
    grid.set_obstacle_rect(0, 0, 19, 19);
    // The nearest walkable cells around (10, 10) are ten rings away.
    assert_eq!(grid.find_nearest_walkable((9, 9)), None);
    assert_eq!(grid.find_nearest_walkable((10, 10)), None);
    // Around (11, 11) they are in ring nine, which is scanned from dx = -9 upward.
    assert_eq!(grid.find_nearest_walkable((11, 11)), Some((2, 20)));
}

#[test]
fn heuristic_is_the_straight_distance_in_parts_of_a_step() {
    let grid = NavGrid::new(10, 10, 1000);
    assert_eq!(grid.heuristic((2, 2), (2, 2)), 0);
    assert_eq!(grid.heuristic((0, 0), (3, 4)), 2040);
    assert_eq!(grid.heuristic((3, 4), (0, 0)), 2040);
    assert_eq!(grid.heuristic((0, 0), (1, 0)), 408);
    // 408 * sqrt(2) = 576.99...
    assert_eq!(grid.heuristic((0, 0), (1, 1)), 576);
    // 408 * sqrt(5) = 912.31...
    assert_eq!(grid.heuristic((4, 4), (5, 2)), 912);
}

#[test]
fn open_set_pops_lowest_f_score_first() {
    let mut open = OpenSet::new();
    let scores: [u128; 9] = [50, 10, 40, 10, 90, 0, 70, 20, 30];
    for (i, f) in scores.iter().enumerate() {
        open.push(Node { pos: (i, 0), f_score: *f });
    }
    assert_eq!(open.len(), 9);
    let mut popped = Vec::new();
    while let Some(node) = open.pop() {
        popped.push(node.f_score);
    }
    assert_eq!(popped, vec![0, 10, 10, 20, 30, 40, 50, 70, 90]);
    assert_eq!(open.len(), 0);
    assert!(open.pop().is_none());
}

#[test]
fn open_set_keeps_every_entry() {
    let mut open = OpenSet::new();
    for i in 0..100usize {
        open.push(Node { pos: (i, i), f_score: ((i * 37) % 101) as u128 });
    }
    let mut cells = Vec::new();
    let mut last = 0;
    while let Some(node) = open.pop() {
        assert!(node.f_score >= last);
        assert_eq!(node.f_score, ((node.pos.0 * 37) % 101) as u128);
        last = node.f_score;
        cells.push(node.pos.0);
    }
    cells.sort();
    assert_eq!(cells, (0..100).collect::<Vec<usize>>());
}

#[test]
fn can_walk_straight_between_equal_points() {
    let mut grid = NavGrid::new(10, 10, 1000);
    grid.set_obstacle_rect(0, 0, 9, 9);
    assert!(grid.can_walk_straight(pos(0, 0), pos(0, 0)));
    assert!(grid.can_walk_straight(pos(100_000, 7), pos(100_000, 7)));
}

#[test]
fn can_walk_straight_over_open_ground() {
    let grid = NavGrid::new(10, 10, 1000);
    assert!(grid.can_walk_straight(pos(-4500, -4500), pos(4500, 4500)));
    assert!(grid.can_walk_straight(pos(-4500, 4500), pos(4500, -4500)));
    assert!(grid.can_walk_straight(pos(-4500, 500), pos(4500, 500)));
}

#[test]
fn can_walk_straight_is_stopped_by_an_obstacle() {
    let mut grid = NavGrid::new(10, 10, 1000);
    grid.set_obstacle_rect(4, 4, 5, 5);
    assert!(!grid.can_walk_straight(pos(-4500, -4500), pos(4500, 4500)));
    assert!(!grid.can_walk_straight(pos(-4500, 500), pos(4500, 500)));
    assert!(grid.can_walk_straight(pos(-4500, -2500), pos(4500, -2500)));
}

#[test]
fn can_walk_straight_is_stopped_by_leaving_the_grid() {
    let grid = NavGrid::new(10, 10, 1000);
    assert!(!grid.can_walk_straight(pos(-4500, 0), pos(20_000, 0)));
}

#[test]
fn can_walk_straight_samples_short_segments_too() {
    let mut grid = NavGrid::new(10, 10, 1000);
    grid.set_obstacle_rect(0, 0, 9, 9);
    // Up to half a cell apart one step reaches: nothing lies strictly between.
    assert!(grid.can_walk_straight(pos(0, 0), pos(500, 0)));
    assert!(grid.can_walk_straight(pos(0, 0), pos(300, 400)));
    // Past half a cell two steps are needed, and the middle is blocked.
    assert!(!grid.can_walk_straight(pos(0, 0), pos(501, 0)));
    assert!(!grid.can_walk_straight(pos(0, 0), pos(999, 0)));
    assert!(!grid.can_walk_straight(pos(0, 0), pos(1000, 0)));
}

#[test]
fn can_walk_straight_sees_a_blocked_cell_under_a_short_segment() {
    let mut grid = NavGrid::new(2, 2, 1000);
    grid.set_obstacle(1, 0);
    let a = pos(-100, -400);
    let b = pos(500, 100);
    assert_eq!(grid.world_to_grid(a), Some((0, 0)));
    assert_eq!(grid.world_to_grid(b), Some((1, 1)));
    // The two are 781 units apart; the middle (200, -150) lies in the blocked cell.
    assert_eq!(grid.world_to_grid(pos(200, -150)), Some((1, 0)));
    assert!(!grid.can_walk_straight(a, b));
    assert!(!grid.can_walk_straight(b, a));
}

#[test]
fn can_walk_straight_steps_at_most_half_a_cell() {
    // One blocked cell in an open row: a segment along the row is stopped
    // wherever its ends lie, since no step is long enough to jump the cell.
    let mut grid = NavGrid::new(10, 1, 1000);
    grid.set_obstacle(5, 0);
    for start in [-4999, -3210, -1001, -1] {
        for end in [1000, 1001, 2345, 4999] {
            assert!(!grid.can_walk_straight(pos(start, 0), pos(end, 0)));
            assert!(!grid.can_walk_straight(pos(end, 0), pos(start, 0)));
        }
    }
    assert!(grid.can_walk_straight(pos(-4999, 0), pos(-1, 0)));
    assert!(grid.can_walk_straight(pos(1000, 0), pos(4999, 0)));
}

#[test]
fn simplify_keeps_short_paths() {
    let grid = NavGrid::new(10, 10, 1000);
    assert_eq!(grid.simplify_path(vec![]), vec![]);
    assert_eq!(grid.simplify_path(vec![pos(1, 2)]), vec![pos(1, 2)]);
    assert_eq!(grid.simplify_path(vec![pos(1, 2), pos(3, 4)]), vec![pos(1, 2), pos(3, 4)]);
}

#[test]
fn simplify_collapses_a_straight_run() {
    let grid = NavGrid::new(10, 10, 1000);
    let raw: Vec<WorldPos> = (0..10).map(|x| grid.grid_to_world(x, 3)).collect();
    assert_eq!(grid.simplify_path(raw), vec![pos(-4500, -1500), pos(4500, -1500)]);
}

#[test]
fn simplify_keeps_the_corner_around_an_obstacle() {
    let mut grid = NavGrid::new(10, 10, 1000);
    grid.set_obstacle_rect(1, 0, 1, 1);
    // Up the first column, over the wall, and down the third column.
    let cells = [(0, 0), (0, 1), (0, 2), (1, 2), (2, 2), (2, 1), (2, 0)];
    let raw: Vec<WorldPos> = cells.iter().map(|c| grid.grid_to_world(c.0, c.1)).collect();
    let simplified = grid.simplify_path(raw.clone());
    assert_eq!(simplified.first(), raw.first());
    assert_eq!(simplified.last(), raw.last());
    assert!(simplified.len() <= raw.len());
    assert!(simplified.len() > 2);
    for pair in simplified.windows(2) {
        let i = raw.iter().position(|p| *p == pair[0]).unwrap();
        let j = raw.iter().position(|p| *p == pair[1]).unwrap();
        assert!(i < j);
        assert!(j == i + 1 || grid.can_walk_straight(pair[0], pair[1]));
    }
}

#[test]
fn simplify_never_adds_waypoints() {
    let mut grid = NavGrid::new(10, 10, 1000);
    grid.set_obstacle_rect(0, 0, 9, 9);
    // With every cell blocked nothing can be skipped.
    let raw: Vec<WorldPos> = (0..10).map(|x| grid.grid_to_world(x, x)).collect();
    assert_eq!(grid.simplify_path(raw.clone()), raw);
}

#[test]
fn find_path_on_an_open_grid_reaches_both_ends() {
    let grid = NavGrid::new(10, 10, 1000);
    let starts = [pos(-4999, -4999), pos(-1, 1), pos(4999, -5000), pos(300, 4200)];
    let ends = [pos(4999, 4999), pos(-5000, 4999), pos(0, 0), pos(-3100, -100)];
    for start in starts {
        for end in ends {
            let path = grid.find_path(start, end).unwrap();
            let first = path[0];
            let last = path[path.len() - 1];
            assert!((first.x - start.x).abs() < 1000 && (first.z - start.z).abs() < 1000);
            assert!((last.x - end.x).abs() < 1000 && (last.z - end.z).abs() < 1000);
            assert_eq!(grid.world_to_grid(first), grid.world_to_grid(start));
            assert_eq!(grid.world_to_grid(last), grid.world_to_grid(end));
        }
    }
}

#[test]
fn find_path_on_an_open_grid_is_a_straight_line() {
    let grid = NavGrid::new(10, 10, 1000);
    assert_eq!(
        grid.find_path(pos(-4500, -4500), pos(4500, 4500)),
        Ok(vec![pos(-4500, -4500), pos(4500, 4500)])
    );
    assert_eq!(
        grid.find_path(pos(-4200, 600), pos(3100, 900)),
        Ok(vec![pos(-4500, 500), pos(3500, 500)])
    );
}

#[test]
fn find_path_within_one_cell_is_a_single_waypoint() {
    let grid = NavGrid::new(10, 10, 1000);
    assert_eq!(grid.find_path(pos(10, 10), pos(990, 990)), Ok(vec![pos(500, 500)]));
}

#[test]
fn find_path_is_never_shorter_than_the_straight_line() {
    let mut grid = NavGrid::new(12, 12, 1000);
    grid.set_obstacle_rect(3, 0, 3, 8);
    grid.set_obstacle_rect(7, 3, 7, 11);
    for (sx, sy, ex, ey) in [(0, 0, 11, 11), (0, 11, 11, 0), (5, 5, 0, 0), (10, 2, 1, 9)] {
        let start = grid.grid_to_world(sx, sy);
        let end = grid.grid_to_world(ex, ey);
        let path = grid.find_path(start, end).unwrap();
        assert_eq!(path[0], start);
        assert_eq!(path[path.len() - 1], end);
        assert!(path_length(&path) >= distance(start, end) - 1e-6);
        for waypoint in &path {
            let cell = grid.world_to_grid(*waypoint).unwrap();
            assert!(grid.is_walkable(cell.0, cell.1));
        }
    }
}

#[test]
fn find_path_fails_with_start_blocked() {
    let mut grid = NavGrid::new(10, 10, 1000);
    grid.set_obstacle(2, 2);
    let start = grid.grid_to_world(2, 2);
    for y in 0..10 {
        for x in 0..10 {
            let end = grid.grid_to_world(x, y);
            assert_eq!(grid.find_path(start, end), Err(PathError::StartBlocked));
        }
    }
}

#[test]
fn find_path_fails_on_a_fully_blocked_grid() {
    let mut grid = NavGrid::new(6, 6, 1000);
    grid.set_obstacle_rect(0, 0, 5, 5);
    for (sx, sy, ex, ey) in [(0, 0, 5, 5), (3, 3, 3, 3), (5, 0, 0, 5)] {
        let start = grid.grid_to_world(sx, sy);
        let end = grid.grid_to_world(ex, ey);
        assert_eq!(grid.find_path(start, end), Err(PathError::StartBlocked));
    }
    assert_eq!(grid.find_path(pos(9000, 0), pos(0, 0)), Err(PathError::OutOfBounds));
}

#[test]
fn find_path_fails_out_of_bounds() {
    let grid = NavGrid::new(10, 10, 1000);
    assert_eq!(grid.find_path(pos(5000, 0), pos(0, 0)), Err(PathError::OutOfBounds));
    assert_eq!(grid.find_path(pos(0, 0), pos(0, -6000)), Err(PathError::OutOfBounds));
    assert_eq!(grid.find_path(pos(i32::MIN, 0), pos(i32::MAX, 0)), Err(PathError::OutOfBounds));
}

#[test]
fn find_path_out_of_bounds_comes_before_start_blocked() {
    let mut grid = NavGrid::new(10, 10, 1000);
    grid.set_obstacle(0, 0);
    let start = grid.grid_to_world(0, 0);
    assert_eq!(grid.find_path(start, pos(9000, 9000)), Err(PathError::OutOfBounds));
}

#[test]
fn find_path_fails_with_no_path_behind_a_wall() {
    let mut grid = NavGrid::new(10, 10, 1000);
    grid.set_obstacle_rect(5, 0, 5, 9);
    let start = grid.grid_to_world(0, 0);
    let end = grid.grid_to_world(9, 9);
    assert_eq!(grid.find_path(start, end), Err(PathError::NoPath));
}

#[test]
fn find_path_does_not_squeeze_between_diagonal_obstacles() {
    let mut grid = NavGrid::new(4, 4, 1000);
    // A diagonal wall: stepping through it would cut two corners.
    grid.set_obstacle(0, 3);
    grid.set_obstacle(1, 2);
    grid.set_obstacle(2, 1);
    grid.set_obstacle(3, 0);
    let start = grid.grid_to_world(0, 0);
    let end = grid.grid_to_world(3, 3);
    assert_eq!(grid.find_path(start, end), Err(PathError::NoPath));
}

#[test]
fn find_path_retargets_a_blocked_end() {
    let mut grid = NavGrid::new(10, 10, 1000);
    grid.set_obstacle(9, 9);
    let start = grid.grid_to_world(0, 0);
    let end = grid.grid_to_world(9, 9);
    let path = grid.find_path(start, end).unwrap();
    assert_eq!(path[0], start);
    // The first walkable cell of ring one around (9, 9) is (8, 8).
    assert_eq!(path[path.len() - 1], grid.grid_to_world(8, 8));
}

#[test]
fn find_path_fails_when_no_walkable_cell_is_near_the_end() {
    let mut grid = NavGrid::new(30, 30, 1000);
    grid.set_obstacle_rect(10, 10, 29, 29);
    let start = grid.grid_to_world(0, 0);
    // Every cell within nine rings of (20, 20) is blocked.
    let end = grid.grid_to_world(20, 20);
    assert_eq!(grid.find_path(start, end), Err(PathError::NoPath));
    assert_eq!(grid.find_path(start, grid.grid_to_world(19, 19)), Err(PathError::NoPath));
    // The ninth ring around (18, 18) starts on the walkable cell (9, 9).
    let near = grid.grid_to_world(18, 18);
    let path = grid.find_path(start, near).unwrap();
    assert_eq!(path[path.len() - 1], grid.grid_to_world(9, 9));
}

#[test]
fn find_path_goes_around_an_obstacle_block() {
    let mut grid = NavGrid::new(10, 10, 1000);
    grid.set_obstacle_rect(4, 4, 5, 5);
    let start = grid.grid_to_world(0, 0);
    let end = grid.grid_to_world(9, 9);
    let path = grid.find_path(start, end).unwrap();
    assert_eq!(path[0], start);
    assert_eq!(path[path.len() - 1], end);
    assert!(path.len() >= 3);
    for waypoint in &path {
        let (x, y) = grid.world_to_grid(*waypoint).unwrap();
        assert!(!((4..=5).contains(&x) && (4..=5).contains(&y)));
    }
    for pair in path.windows(2) {
        assert!(grid.can_walk_straight(pair[0], pair[1]));
    }
    // The detour costs less than two cells over the straight line.
    assert!(path_length(&path) < distance(start, end) + 2000.0);
}

#[test]
fn find_route_yields_a_path_exactly_when_the_goal_can_be_reached() {
    let mut grid = NavGrid::new(8, 8, 1000);
    grid.set_obstacle_rect(4, 0, 4, 7);
    assert!(grid.find_route((0, 0), (3, 7)).is_some());
    assert!(grid.find_route((0, 0), (5, 0)).is_none());
    assert!(grid.find_route((7, 7), (5, 0)).is_some());
    // A blocked goal is never reached.
    assert!(grid.find_route((0, 0), (4, 3)).is_none());
    assert_eq!(grid.find_route((2, 2), (2, 2)), Some(vec![grid.grid_to_world(2, 2)]));
}

#[test]
fn find_path_through_a_gap_in_a_wall() {
    let mut grid = NavGrid::new(9, 9, 1000);
    grid.set_obstacle_rect(4, 0, 4, 7);
    let start = grid.grid_to_world(0, 0);
    let end = grid.grid_to_world(8, 0);
    let path = grid.find_path(start, end).unwrap();
    assert_eq!(path[0], start);
    assert_eq!(path[path.len() - 1], end);
    for pair in path.windows(2) {
        assert!(grid.can_walk_straight(pair[0], pair[1]));
    }
    // Every path passes the gap at (4, 8): it is no shorter than the two
    // straight lines by way of the gap, and no longer than the shortest
    // route of six diagonal and twelve cardinal steps.
    let gap = grid.grid_to_world(4, 8);
    let length = path_length(&path);
    assert!(length >= distance(start, gap) + distance(gap, end) - 1e-6);
    assert!(length <= 6.0 * 1414.22 + 12.0 * 1000.0);
}

#[test]
fn find_path_sees_through_a_diagonal_gap() {
    let mut grid = NavGrid::new(9, 9, 1000);
    grid.set_obstacle_rect(4, 0, 4, 3);
    grid.set_obstacle_rect(4, 5, 4, 8);
    let start = grid.grid_to_world(0, 0);
    let end = grid.grid_to_world(8, 8);
    // The route bends to enter the gap at (4, 4) by a cardinal step, but
    // every sample of the straight line falls in a walkable cell.
    assert_eq!(grid.find_path(start, end), Ok(vec![start, end]));
}

#[test]
fn reconstruct_path_follows_the_predecessors_back() {
    let grid = NavGrid::new(3, 3, 1000);
    let mut came_from: Vec<Option<(usize, usize)>> = vec![None; 9];
    // (0,0) -> (1,0) -> (2,1) -> (2,2)
    came_from[1] = Some((0, 0));
    came_from[5] = Some((1, 0));
    came_from[8] = Some((2, 1));
    let path = grid.reconstruct_path(&came_from, (2, 2));
    assert_eq!(path[0], grid.grid_to_world(0, 0));
    assert_eq!(path[path.len() - 1], grid.grid_to_world(2, 2));
    assert_eq!(grid.reconstruct_path(&came_from, (0, 0)), vec![grid.grid_to_world(0, 0)]);
}

/// Cost of the cheapest route between two cells, counted in parts of 408 to
/// the cardinal step and 577 to the diagonal step, by plain relaxation.
fn cheapest_route_cost(grid: &NavGrid, from: (usize, usize), to: (usize, usize)) -> Option<u64> {
    let cells = grid.width * grid.height;
    let mut cost = vec![u64::MAX; cells];
    cost[from.1 * grid.width + from.0] = 0;
    let mut changed = true;
    while changed {
        changed = false;
        for y in 0..grid.height {
            for x in 0..grid.width {
                let here = cost[y * grid.width + x];
                if here == u64::MAX {
                    continue;
                }
                for (nx, ny) in grid.get_neighbors((x, y)) {
                    let step = if nx != x && ny != y { 577 } else { 408 };
                    if here + step < cost[ny * grid.width + nx] {
                        cost[ny * grid.width + nx] = here + step;
                        changed = true;
                    }
                }
            }
        }
    }
    let found = cost[to.1 * grid.width + to.0];
    if found == u64::MAX {
        None
    } else {
        Some(found)
    }
}

#[test]
fn find_route_is_never_longer_than_the_cheapest_route() {
    let mut grid = NavGrid::new(16, 16, 1000);
    // Three walls with gaps at alternating ends, and a few single blocks.
    grid.set_obstacle_rect(3, 0, 3, 12);
    grid.set_obstacle_rect(7, 3, 7, 15);
    grid.set_obstacle_rect(11, 0, 11, 12);
    for (x, y) in [(1, 5), (5, 9), (9, 4), (13, 13), (14, 2), (5, 1), (8, 1), (12, 14)] {
        grid.set_obstacle(x, y);
    }
    let start = (0, 0);
    let mut reached = 0;
    for gy in 0..16 {
        for gx in 0..16 {
            let goal = (gx, gy);
            let cheapest = cheapest_route_cost(&grid, start, goal);
            let found = grid.find_route(start, goal);
            assert_eq!(found.is_some(), cheapest.is_some());
            if let (Some(path), Some(cost)) = (found, cheapest) {
                reached += 1;
                assert_eq!(path[0], grid.grid_to_world(0, 0));
                assert_eq!(path[path.len() - 1], grid.grid_to_world(gx, gy));
                // A cardinal step is 1000 units long and 408 parts dear.
                let bound = cost as f64 * 1000.0 / 408.0;
                assert!(path_length(&path) <= bound + 1e-6);
                assert!(path_length(&path) >= distance(path[0], path[path.len() - 1]) - 1e-6);
            }
        }
    }
    assert_eq!(reached, 256 - 3 * 13 - 8);
}

#[test]
fn find_path_on_an_open_grid_has_no_detour() {
    let grid = NavGrid::new(12, 9, 1000);
    for (sx, sy, ex, ey) in [(0, 0, 11, 8), (11, 0, 0, 8), (3, 7, 9, 1), (5, 4, 5, 4), (0, 3, 11, 3), (6, 0, 7, 8)] {
        let start = grid.grid_to_world(sx, sy);
        let end = grid.grid_to_world(ex, ey);
        let path = grid.find_path(start, end).unwrap();
        if (sx, sy) == (ex, ey) {
            assert_eq!(path, vec![start]);
        } else {
            assert_eq!(path, vec![start, end]);
        }
        assert!((path_length(&path) - distance(start, end)).abs() < 1e-9);
    }
}
