use nav_grid::grid::{NavGrid, WorldPos};
use nav_grid::path::PathError;
use nav_grid::schedule::{
    stagger_offset, update_zombie_paths, FrameCounter, Steering, ZombiePath, STAGGER_WINDOW,
};

fn pos(x: i32, z: i32) -> WorldPos {
    WorldPos { x, z }
}

fn agents(grid: &NavGrid, count: u32) -> (Vec<WorldPos>, Vec<u32>, Vec<ZombiePath>) {
    let mut positions = Vec::new();
    let mut offsets = Vec::new();
    let mut paths = Vec::new();
    for i in 0..count {
        positions.push(grid.grid_to_world((i % 10) as usize, (i / 10) as usize));
        offsets.push(stagger_offset(i));
        paths.push(ZombiePath::default());
    }
    (positions, offsets, paths)
}

#[test]
fn stagger_window_is_twenty_ticks() {
    assert_eq!(STAGGER_WINDOW, 20);
}

#[test]
fn stagger_offsets_cycle_through_the_window() {
    assert_eq!(stagger_offset(0), 0);
    assert_eq!(stagger_offset(19), 19);
    assert_eq!(stagger_offset(20), 0);
    assert_eq!(stagger_offset(39), 19);
    assert_eq!(stagger_offset(u32::MAX), 15);
}

#[test]
fn frame_counter_starts_at_zero_and_counts_up() {
    let mut frame = FrameCounter::default();
    assert_eq!(frame.0, 0);
    frame.increment();
    assert_eq!(frame.0, 1);
    assert_eq!(frame.current_slot(), 1);
    for _ in 0..20 {
        frame.increment();
    }
    assert_eq!(frame.0, 21);
    assert_eq!(frame.current_slot(), 1);
}

#[test]
fn frame_counter_starts_over_after_the_highest_count() {
    let mut frame = FrameCounter(u32::MAX);
    assert_eq!(frame.current_slot(), 15);
    frame.increment();
    assert_eq!(frame.0, 0);
    assert_eq!(frame.current_slot(), 0);
}

#[test]
fn is_due_when_the_offset_matches_the_slot() {
    let frame = FrameCounter(47);
    for offset in 0..20 {
        assert_eq!(frame.is_due(offset), offset == 7);
    }
    assert!(!frame.is_due(27));
}

#[test]
fn every_offset_is_due_once_in_every_window() {
    for first in [0u32, 1, 19, 20, 12_345, u32::MAX - 19] {
        for offset in 0..STAGGER_WINDOW {
            let mut due = 0;
            for tick in first..=first + (STAGGER_WINDOW - 1) {
                if FrameCounter(tick).is_due(offset) {
                    due += 1;
                }
            }
            assert_eq!(due, 1);
        }
    }
}

#[test]
fn two_of_forty_agents_search_after_one_tick() {
    let grid = NavGrid::new(10, 10, 1000);
    let (positions, offsets, mut paths) = agents(&grid, 40);
    let target = grid.grid_to_world(9, 9);
    let mut frame = FrameCounter::default();
    frame.increment();
    let searches = update_zombie_paths(&frame, &grid, target, &positions, &offsets, &mut paths);
    assert_eq!(searches, 2);
    for (i, path) in paths.iter().enumerate() {
        if i == 1 || i == 21 {
            assert_eq!(path.waypoints[0], positions[i]);
            assert_eq!(path.waypoints[path.waypoints.len() - 1], target);
        } else {
            assert!(path.waypoints.is_empty());
        }
        assert_eq!(path.current_index, 0);
    }
}

#[test]
fn every_agent_searches_once_in_twenty_ticks() {
    let grid = NavGrid::new(10, 10, 1000);
    let (positions, offsets, mut paths) = agents(&grid, 40);
    let target = grid.grid_to_world(9, 9);
    let mut frame = FrameCounter::default();
    let mut searched = vec![0u32; 40];
    for _ in 0..20 {
        frame.increment();
        for path in paths.iter_mut() {
            *path = ZombiePath::default();
        }
        let searches = update_zombie_paths(&frame, &grid, target, &positions, &offsets, &mut paths);
        assert_eq!(searches, 2);
        for (i, path) in paths.iter().enumerate() {
            if !path.waypoints.is_empty() {
                searched[i] += 1;
            }
        }
    }
    assert_eq!(searched, vec![1u32; 40]);
}

#[test]
fn update_with_no_agents_makes_no_search() {
    let grid = NavGrid::new(10, 10, 1000);
    let mut paths: Vec<ZombiePath> = Vec::new();
    let searches = update_zombie_paths(&FrameCounter(3), &grid, pos(0, 0), &vec![], &vec![], &mut paths);
    assert_eq!(searches, 0);
    assert!(paths.is_empty());
}

#[test]
fn failed_search_keeps_the_old_path() {
    let mut grid = NavGrid::new(10, 10, 1000);
    grid.set_obstacle_rect(5, 0, 5, 9);
    let positions = vec![grid.grid_to_world(0, 0), grid.grid_to_world(5, 5), grid.grid_to_world(9, 0)];
    let offsets = vec![4, 4, 4];
    let stale = vec![pos(1, 2), pos(3, 4), pos(5, 6)];
    let mut paths = vec![
        ZombiePath { waypoints: stale.clone(), current_index: 2 },
        ZombiePath { waypoints: stale.clone(), current_index: 1 },
        ZombiePath { waypoints: stale.clone(), current_index: 2 },
    ];
    let target = grid.grid_to_world(9, 9);
    let searches = update_zombie_paths(&FrameCounter(24), &grid, target, &positions, &offsets, &mut paths);
    assert_eq!(searches, 3);
    // No route crosses the wall, and the second agent stands in it.
    assert_eq!(paths[0].waypoints, stale);
    assert_eq!(paths[0].current_index, 2);
    assert_eq!(paths[1].waypoints, stale);
    assert_eq!(paths[1].current_index, 1);
    // The third agent finds its way and starts over on the new path.
    assert_eq!(paths[2].waypoints, vec![positions[2], target]);
    assert_eq!(paths[2].current_index, 0);
}

#[test]
fn agents_that_are_not_due_keep_their_paths() {
    let grid = NavGrid::new(10, 10, 1000);
    let positions = vec![grid.grid_to_world(0, 0), grid.grid_to_world(1, 1)];
    let offsets = vec![3, 4];
    let old = vec![pos(7, 7)];
    let mut paths = vec![
        ZombiePath { waypoints: old.clone(), current_index: 1 },
        ZombiePath { waypoints: old.clone(), current_index: 1 },
    ];
    let target = grid.grid_to_world(5, 5);
    let searches = update_zombie_paths(&FrameCounter(3), &grid, target, &positions, &offsets, &mut paths);
    assert_eq!(searches, 1);
    assert_eq!(paths[0].waypoints, vec![positions[0], target]);
    assert_eq!(paths[0].current_index, 0);
    assert_eq!(paths[1].waypoints, old);
    assert_eq!(paths[1].current_index, 1);
}

#[test]
fn apply_replaces_the_path_on_success() {
    let mut path = ZombiePath { waypoints: vec![pos(1, 1), pos(2, 2)], current_index: 1 };
    let replaced = path.apply(Ok(vec![pos(9, 9)]));
    assert!(replaced);
    assert_eq!(path.waypoints, vec![pos(9, 9)]);
    assert_eq!(path.current_index, 0);
}

#[test]
fn apply_keeps_the_path_on_failure() {
    for error in [PathError::NoPath, PathError::StartBlocked, PathError::OutOfBounds] {
        let mut path = ZombiePath { waypoints: vec![pos(1, 1), pos(2, 2)], current_index: 1 };
        let replaced = path.apply(Err(error));
        assert!(!replaced);
        assert_eq!(path.waypoints, vec![pos(1, 1), pos(2, 2)]);
        assert_eq!(path.current_index, 1);
    }
}

#[test]
fn default_path_is_empty() {
    let path = ZombiePath::default();
    assert!(path.waypoints.is_empty());
    assert_eq!(path.current_index, 0);
}

#[test]
fn steer_idles_without_waypoints() {
    let mut path = ZombiePath::default();
    assert_eq!(path.steer(pos(0, 0), 500), Steering::Idle);
    assert_eq!(path.current_index, 0);
    let mut done = ZombiePath { waypoints: vec![pos(1, 1)], current_index: 1 };
    assert_eq!(done.steer(pos(1, 1), 500), Steering::Idle);
    assert_eq!(done.current_index, 1);
}

#[test]
fn steer_walks_toward_a_distant_waypoint() {
    let mut path = ZombiePath { waypoints: vec![pos(1000, 0), pos(2000, 0)], current_index: 0 };
    assert_eq!(path.steer(pos(0, 0), 500), Steering::Toward(pos(1000, 0)));
    assert_eq!(path.current_index, 0);
    // Exactly at the arrival distance is not yet within it.
    assert_eq!(path.steer(pos(500, 0), 500), Steering::Toward(pos(1000, 0)));
    assert_eq!(path.steer(pos(700, 400), 500), Steering::Toward(pos(1000, 0)));
    assert_eq!(path.current_index, 0);
}

#[test]
fn steer_moves_the_cursor_on_arrival() {
    let mut path = ZombiePath { waypoints: vec![pos(1000, 0), pos(2000, 0)], current_index: 0 };
    assert_eq!(path.steer(pos(501, 0), 500), Steering::Arrived);
    assert_eq!(path.current_index, 1);
    assert_eq!(path.steer(pos(501, 0), 500), Steering::Toward(pos(2000, 0)));
    assert_eq!(path.steer(pos(1700, 399), 500), Steering::Arrived);
    assert_eq!(path.current_index, 2);
    assert_eq!(path.steer(pos(2000, 0), 500), Steering::Idle);
    assert_eq!(path.waypoints, vec![pos(1000, 0), pos(2000, 0)]);
}

#[test]
fn steer_measures_across_the_whole_world() {
    let mut path = ZombiePath { waypoints: vec![pos(i32::MAX, i32::MAX)], current_index: 0 };
    assert_eq!(
        path.steer(pos(i32::MIN, i32::MIN), u32::MAX),
        Steering::Toward(pos(i32::MAX, i32::MAX))
    );
    assert_eq!(path.steer(pos(i32::MAX, i32::MIN), u32::MAX), Steering::Toward(pos(i32::MAX, i32::MAX)));
    assert_eq!(path.steer(pos(i32::MAX, i32::MIN + 1), u32::MAX), Steering::Arrived);
}
