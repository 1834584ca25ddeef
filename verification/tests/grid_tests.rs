use grid_navigator::grid::{
    Node, GridDims, in_bounds, dot, is_zero_dir, move_dir, negate, rotate_left, rotate_right,
    signum_dir,
};
use grid_navigator::movement::Movement;

fn n(x: i32, y: i32) -> Node {
    Node { x, y }
}

#[test]
fn bounds_check_matches_the_rectangle() {
    let d = GridDims { columns: 4, rows: 3 };
    assert!(in_bounds(n(0, 0), d));
    assert!(in_bounds(n(3, 2), d));
    assert!(!in_bounds(n(4, 0), d));
    assert!(!in_bounds(n(0, 3), d));
    assert!(!in_bounds(n(-1, 1), d));
}

#[test]
fn heading_algebra() {
    assert_eq!(move_dir(n(2, 2), n(3, 2)), n(1, 0));
    assert_eq!(rotate_right(n(1, 0)), n(0, -1));
    assert_eq!(rotate_left(n(1, 0)), n(0, 1));
    assert_eq!(rotate_right(rotate_left(n(1, 0))), n(1, 0));
    assert_eq!(negate(n(1, -1)), n(-1, 1));
    assert_eq!(dot(n(1, 0), n(0, 1)), 0);
    assert_eq!(dot(n(1, 1), n(1, -1)), 0);
    assert_eq!(dot(n(1, 0), n(1, 0)), 1);
    assert!(is_zero_dir(n(0, 0)));
    assert!(!is_zero_dir(n(0, 1)));
    assert_eq!(signum_dir(n(5, 5), n(2, 9)), n(-1, 1));
    assert_eq!(signum_dir(n(5, 5), n(5, 5)), n(0, 0));
}

#[test]
fn orthogonal_neighbors_in_generation_order() {
    let d = GridDims { columns: 10, rows: 10 };
    let r = Movement::Orthogonal.neighbors(n(5, 5), d);
    assert_eq!(r, vec![n(6, 5), n(4, 5), n(5, 6), n(5, 4)]);
}

#[test]
fn diagonal_neighbors_respect_bounds() {
    let d = GridDims { columns: 10, rows: 10 };
    let r = Movement::Diagonal.neighbors(n(0, 5), d);
    assert_eq!(r, vec![n(1, 5), n(0, 6), n(0, 4), n(1, 6), n(1, 4)]);
}
