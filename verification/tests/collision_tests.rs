use grid_navigator::grid::{Node, GridDims};
use grid_navigator::agent::Agent;
use grid_navigator::collision::{
    CollisionDetector, CollisionObserver, CollisionType,
};
use grid_navigator::stats::Statistics;

fn n(x: i32, y: i32) -> Node {
    Node { x, y }
}

fn dims() -> GridDims {
    GridDims { columns: 10, rows: 10 }
}

fn detector() -> CollisionDetector {
    let mut d = CollisionDetector::new();
    d.register_observer(CollisionObserver::Logger { trace: Vec::new() });
    d.register_observer(CollisionObserver::Assistant { requests: Vec::new() });
    d
}

fn agent_with_path(id: usize, path: Vec<Node>, index: usize, goal: Node) -> Agent {
    let d = dims();
    let mut a = Agent::new(id, path[0], Some(goal), d);
    a.current_point = path[index];
    a.path = Some(path);
    a.path_index = index;
    a.refresh_cache(d);
    a
}

#[test]
fn direct_collision_is_logged_and_counted() {
    let d = dims();
    let mut det = detector();
    let mut stats = Statistics::new();
    let agents = vec![
        Agent::new(0, n(3, 3), None, d),
        Agent::new(1, n(3, 3), None, d),
    ];
    det.check_agents(&agents, &mut stats);
    assert_eq!(stats.collisions, 1);
    assert_eq!(stats.detections, 0);
    let trace = det.take_trace();
    assert_eq!(trace.len(), 1);
    assert_eq!(trace[0].agent1_id, 0);
    assert_eq!(trace[0].agent2_id, 1);
    assert_eq!(trace[0].collision_type, CollisionType::Direct);
    assert_eq!(trace[0].collision_point, n(3, 3));
    // a direct collision queues no reroute request
    assert!(!det.has_requests());
}

#[test]
fn proximity_collision_queues_two_requests() {
    let mut det = detector();
    let mut stats = Statistics::new();
    let a = agent_with_path(0, vec![n(0, 0), n(1, 0), n(2, 0), n(3, 0), n(4, 0)], 0, n(4, 0));
    let b = agent_with_path(1, vec![n(4, 0), n(3, 0), n(2, 0), n(1, 0), n(0, 0)], 0, n(0, 0));
    det.check_agents(&vec![a, b], &mut stats);
    assert_eq!(stats.detections, 1);
    assert_eq!(stats.collisions, 0);
    assert!(det.has_requests());
    let reqs = det.take_requests();
    assert_eq!(reqs.len(), 2);
    // the first conflicting cell in scan order is (2,0): a's forward nodes
    // are checked against all of b's forward nodes first
    assert_eq!(reqs[0].agent_id, 0);
    assert_eq!(reqs[0].avoid_point, n(2, 0));
    assert_eq!(reqs[1].agent_id, 1);
    assert_eq!(reqs[1].avoid_point, n(2, 0));
    assert!(!det.has_requests());
}

#[test]
fn forward_against_current_point_is_proximity() {
    let mut det = detector();
    let mut stats = Statistics::new();
    // b stands still on a's lookahead
    let a = agent_with_path(0, vec![n(0, 0), n(1, 0), n(2, 0), n(3, 0)], 0, n(3, 0));
    let b = Agent::new(1, n(1, 0), None, dims());
    det.check_agents(&vec![a, b], &mut stats);
    assert_eq!(stats.detections, 1);
    let reqs = det.take_requests();
    assert_eq!(reqs[0].avoid_point, n(1, 0));
}

#[test]
fn suppressed_pair_is_not_reported_twice() {
    let mut det = detector();
    let mut stats = Statistics::new();
    let a = agent_with_path(0, vec![n(0, 0), n(1, 0), n(2, 0), n(3, 0), n(4, 0)], 0, n(4, 0));
    let b = agent_with_path(1, vec![n(4, 0), n(3, 0), n(2, 0), n(1, 0), n(0, 0)], 0, n(0, 0));
    let agents = vec![a, b];
    det.check_agents(&agents, &mut stats);
    assert_eq!(stats.detections, 1);
    let first = det.take_requests();
    assert_eq!(first.len(), 2);
    // same positions, pair already suppressed: no duplicate event
    det.check_agents(&agents, &mut stats);
    assert_eq!(stats.detections, 1);
    assert!(!det.has_requests());
}

#[test]
fn clearing_ignored_pairs_reenables_reporting() {
    let mut det = detector();
    let mut stats = Statistics::new();
    let a = agent_with_path(0, vec![n(0, 0), n(1, 0), n(2, 0), n(3, 0), n(4, 0)], 0, n(4, 0));
    let b = agent_with_path(1, vec![n(4, 0), n(3, 0), n(2, 0), n(1, 0), n(0, 0)], 0, n(0, 0));
    let agents = vec![a, b];
    det.check_agents(&agents, &mut stats);
    det.clear_ignored();
    det.check_agents(&agents, &mut stats);
    assert_eq!(stats.detections, 2);
}

#[test]
fn distant_agents_raise_no_event() {
    let d = dims();
    let mut det = detector();
    let mut stats = Statistics::new();
    let agents = vec![
        Agent::new(0, n(0, 0), None, d),
        Agent::new(1, n(9, 9), None, d),
    ];
    det.check_agents(&agents, &mut stats);
    assert_eq!(stats.collisions, 0);
    assert_eq!(stats.detections, 0);
    assert!(!det.has_requests());
    assert_eq!(det.take_trace().len(), 0);
}
