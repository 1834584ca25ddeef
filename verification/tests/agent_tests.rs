use grid_navigator::grid::{Node, GridDims};
use grid_navigator::agent::Agent;

fn n(x: i32, y: i32) -> Node {
    Node { x, y }
}

fn dims(columns: i32, rows: i32) -> GridDims {
    GridDims { columns, rows }
}

#[test]
fn radius_in_a_corner_has_three_cells() {
    let d = dims(10, 10);
    let a = Agent::new(0, n(0, 0), None, d);
    assert_eq!(a.collision_radius, vec![n(1, 0), n(0, 1), n(1, 1)]);
}

#[test]
fn radius_in_the_open_has_eight_cells() {
    let d = dims(10, 10);
    let a = Agent::new(0, n(5, 5), None, d);
    assert_eq!(a.collision_radius.len(), 8);
    assert!(a.collision_radius.contains(&n(4, 4)));
    assert!(a.collision_radius.contains(&n(6, 6)));
    assert!(!a.collision_radius.contains(&n(5, 5)));
}

#[test]
fn forward_path_truncates_before_goal() {
    let d = dims(10, 10);
    let mut a = Agent::new(0, n(0, 0), Some(n(2, 0)), d);
    a.path = Some(vec![n(0, 0), n(1, 0), n(2, 0)]);
    a.path_index = 0;
    a.refresh_cache(d);
    // the next node after (1,0) would be the goal, so it is cut off
    assert_eq!(a.forward_path, vec![n(1, 0)]);
}

#[test]
fn forward_path_takes_two_nodes() {
    let d = dims(10, 10);
    let mut a = Agent::new(0, n(0, 0), Some(n(4, 0)), d);
    a.path = Some(vec![n(0, 0), n(1, 0), n(2, 0), n(3, 0), n(4, 0)]);
    a.path_index = 0;
    a.refresh_cache(d);
    assert_eq!(a.forward_path, vec![n(1, 0), n(2, 0)]);
}

#[test]
fn forward_path_empty_without_path_or_goal() {
    let d = dims(10, 10);
    let a = Agent::new(0, n(3, 3), None, d);
    assert_eq!(a.forward_path.len(), 0);
}

#[test]
fn refresh_cache_is_idempotent() {
    let d = dims(10, 10);
    let mut a = Agent::new(7, n(1, 1), Some(n(5, 1)), d);
    a.path = Some(vec![n(1, 1), n(2, 1), n(3, 1), n(4, 1), n(5, 1)]);
    a.path_index = 1;
    a.current_point = n(2, 1);
    a.refresh_cache(d);
    let radius_once = a.collision_radius.clone();
    let forward_once = a.forward_path.clone();
    a.refresh_cache(d);
    assert_eq!(a.collision_radius, radius_once);
    assert_eq!(a.forward_path, forward_once);
}

#[test]
fn direction_follows_the_path() {
    let d = dims(10, 10);
    let mut a = Agent::new(0, n(2, 2), Some(n(2, 5)), d);
    a.path = Some(vec![n(2, 2), n(2, 3), n(2, 4), n(2, 5)]);
    a.path_index = 0;
    a.refresh_cache(d);
    assert_eq!(a.direction(d), n(0, 1));
}

#[test]
fn direction_falls_back_to_signum_toward_goal() {
    let d = dims(10, 10);
    let a = Agent::new(0, n(5, 5), Some(n(2, 9)), d);
    assert_eq!(a.direction(d), n(-1, 1));
}

#[test]
fn direction_is_zero_without_path_and_goal() {
    let d = dims(10, 10);
    let a = Agent::new(0, n(5, 5), None, d);
    assert_eq!(a.direction(d), n(0, 0));
}
