use grid_navigator::grid::{Node, GridDims};
use grid_navigator::movement::Movement;
use grid_navigator::pathfind::find_path;

fn n(x: i32, y: i32) -> Node {
    Node { x, y }
}

fn dims(columns: i32, rows: i32) -> GridDims {
    GridDims { columns, rows }
}

fn assert_valid_orthogonal(path: &[Node], start: Node, goal: Node, walls: &[Node], avoid: &[Node]) {
    assert!(path.len() >= 1);
    assert_eq!(path[0], start);
    assert_eq!(path[path.len() - 1], goal);
    for w in path.windows(2) {
        let dx = (w[1].x - w[0].x).abs();
        let dy = (w[1].y - w[0].y).abs();
        assert_eq!(dx + dy, 1, "consecutive cells must be orthogonal neighbors");
    }
    for cell in &path[1..] {
        assert!(!walls.contains(cell), "path crosses a wall at {:?}", cell);
        assert!(!avoid.contains(cell), "path crosses an avoided cell at {:?}", cell);
    }
}

#[test]
fn straight_line_on_empty_grid() {
    let d = dims(10, 10);
    let walls: Vec<Node> = Vec::new();
    let avoid: Vec<Node> = Vec::new();
    let path = find_path(n(0, 0), n(4, 0), &walls, &avoid, None, Movement::Orthogonal, d)
        .expect("path must exist on an empty grid");
    assert_eq!(path, vec![n(0, 0), n(1, 0), n(2, 0), n(3, 0), n(4, 0)]);
}

#[test]
fn start_equals_goal_yields_singleton() {
    let d = dims(5, 5);
    let walls: Vec<Node> = Vec::new();
    let avoid: Vec<Node> = Vec::new();
    let path = find_path(n(2, 2), n(2, 2), &walls, &avoid, None, Movement::Orthogonal, d)
        .expect("trivial path must exist");
    assert_eq!(path, vec![n(2, 2)]);
}

#[test]
fn start_equals_goal_with_bias_still_yields_singleton() {
    let d = dims(5, 5);
    let walls = vec![n(1, 1)];
    let avoid = vec![n(2, 2)];
    let path = find_path(n(2, 2), n(2, 2), &walls, &avoid, Some(n(0, 1)), Movement::Diagonal, d)
        .expect("trivial path must exist");
    assert_eq!(path, vec![n(2, 2)]);
}

#[test]
fn enclosed_goal_returns_none() {
    // the goal is fully walled in, so no path can exist
    let d = dims(10, 10);
    let walls = vec![n(4, 5), n(6, 5), n(5, 4), n(5, 6)];
    let avoid: Vec<Node> = Vec::new();
    let r = find_path(n(0, 0), n(5, 5), &walls, &avoid, None, Movement::Orthogonal, d);
    assert!(r.is_none());
}

#[test]
fn walls_are_never_crossed() {
    let d = dims(6, 6);
    // a vertical wall with a single gap at the bottom
    let walls = vec![n(3, 0), n(3, 1), n(3, 2), n(3, 3), n(3, 4)];
    let avoid: Vec<Node> = Vec::new();
    let path = find_path(n(0, 0), n(5, 0), &walls, &avoid, None, Movement::Orthogonal, d)
        .expect("gap leaves the goal reachable");
    assert_valid_orthogonal(&path, n(0, 0), n(5, 0), &walls, &avoid);
}

#[test]
fn avoid_cells_are_never_crossed() {
    let d = dims(6, 6);
    let walls: Vec<Node> = Vec::new();
    let avoid = vec![n(2, 0), n(2, 1)];
    let path = find_path(n(0, 0), n(4, 0), &walls, &avoid, None, Movement::Orthogonal, d)
        .expect("a detour exists");
    assert_valid_orthogonal(&path, n(0, 0), n(4, 0), &walls, &avoid);
}

#[test]
fn preferred_direction_keeps_path_valid() {
    let d = dims(6, 6);
    let walls: Vec<Node> = Vec::new();
    let avoid = vec![n(2, 1)];
    let path = find_path(n(0, 1), n(4, 1), &walls, &avoid, Some(n(0, 1)), Movement::Orthogonal, d)
        .expect("bias never forbids moves");
    assert_valid_orthogonal(&path, n(0, 1), n(4, 1), &walls, &avoid);
}

#[test]
fn diagonal_movement_reaches_goal() {
    let d = dims(6, 6);
    let walls: Vec<Node> = Vec::new();
    let avoid: Vec<Node> = Vec::new();
    let path = find_path(n(0, 0), n(3, 3), &walls, &avoid, None, Movement::Diagonal, d)
        .expect("path must exist");
    assert_eq!(path[0], n(0, 0));
    assert_eq!(path[path.len() - 1], n(3, 3));
    for w in path.windows(2) {
        let dx = (w[1].x - w[0].x).abs();
        let dy = (w[1].y - w[0].y).abs();
        assert!(dx <= 1 && dy <= 1 && dx + dy >= 1);
    }
}

/// Brute-force breadth-first search, used as an independent oracle for the
/// shortest orthogonal path length.
fn bfs_len(start: Node, goal: Node, walls: &[Node], d: GridDims) -> Option<usize> {
    let cols = d.columns as usize;
    let rows = d.rows as usize;
    let idx = |p: Node| (p.y as usize) * cols + (p.x as usize);
    let mut dist: Vec<Option<usize>> = vec![None; cols * rows];
    let mut queue = std::collections::VecDeque::new();
    dist[idx(start)] = Some(1);
    queue.push_back(start);
    while let Some(p) = queue.pop_front() {
        let dp = dist[idx(p)].unwrap();
        if p == goal {
            return Some(dp);
        }
        for (dx, dy) in [(1, 0), (-1, 0), (0, 1), (0, -1)] {
            let q = Node { x: p.x + dx, y: p.y + dy };
            if q.x >= 0 && q.y >= 0 && q.x < d.columns && q.y < d.rows
                && !walls.contains(&q) && dist[idx(q)].is_none()
            {
                dist[idx(q)] = Some(dp + 1);
                queue.push_back(q);
            }
        }
    }
    None
}

#[test]
fn unbiased_orthogonal_paths_are_shortest() {
    let d = dims(8, 8);
    let avoid: Vec<Node> = Vec::new();
    let wall_sets: Vec<Vec<Node>> = vec![
        vec![],
        vec![n(3, 0), n(3, 1), n(3, 2), n(3, 3), n(3, 4), n(3, 5), n(3, 6)],
        vec![n(1, 1), n(2, 1), n(3, 1), n(5, 5), n(5, 6), n(6, 5)],
        vec![n(0, 1), n(1, 1), n(2, 1), n(3, 1), n(4, 1), n(5, 1), n(6, 1), n(7, 2)],
    ];
    for walls in &wall_sets {
        for (start, goal) in [(n(0, 0), n(7, 7)), (n(0, 0), n(7, 0)), (n(2, 3), n(6, 6))] {
            let found = find_path(start, goal, walls, &avoid, None, Movement::Orthogonal, d);
            let oracle = bfs_len(start, goal, walls, d);
            match (found, oracle) {
                (Some(path), Some(best)) => {
                    assert_valid_orthogonal(&path, start, goal, walls, &avoid);
                    assert_eq!(path.len(), best, "path is not shortest for walls {:?}", walls);
                }
                (None, None) => {}
                (a, b) => panic!("search and oracle disagree: {:?} vs {:?}", a.map(|p| p.len()), b),
            }
        }
    }
}
