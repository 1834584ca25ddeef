use grid_navigator::grid::{Node, GridDims};
use grid_navigator::agent::Agent;
use grid_navigator::collision::RerouteRequest;
use grid_navigator::movement::Movement;
use grid_navigator::reroute::{compute_avoidance_plan, group_requests, process_reroute_requests};
use grid_navigator::stats::Statistics;

fn n(x: i32, y: i32) -> Node {
    Node { x, y }
}

fn dims() -> GridDims {
    GridDims { columns: 10, rows: 10 }
}

fn req(agent_id: usize, avoid_point: Node) -> RerouteRequest {
    RerouteRequest { agent_id, avoid_point }
}

fn agent_with_path(id: usize, path: Vec<Node>, index: usize, goal: Node) -> Agent {
    let d = dims();
    let mut a = Agent::new(id, path[0], Some(goal), d);
    a.current_point = path[index];
    a.path = Some(path);
    a.path_index = index;
    a.refresh_cache(d);
    a
}

#[test]
fn requests_group_by_first_occurrence() {
    let requests = vec![
        req(0, n(2, 0)),
        req(1, n(2, 0)),
        req(2, n(5, 5)),
        req(3, n(2, 0)),
    ];
    let groups = group_requests(&requests);
    assert_eq!(groups.len(), 2);
    assert_eq!(groups[0].point, n(2, 0));
    assert_eq!(groups[0].agent_ids, vec![0, 1, 3]);
    assert_eq!(groups[1].point, n(5, 5));
    assert_eq!(groups[1].agent_ids, vec![2]);
}

#[test]
fn lower_id_steers_to_the_positive_axis_side() {
    let d = dims();
    // two agents heading toward each other along one row; the first agent's
    // heading is (1,0), so the steering axis is its quarter turn (0,-1)
    let a = agent_with_path(0, vec![n(1, 0), n(2, 0), n(3, 0), n(4, 0)], 0, n(4, 0));
    let b = agent_with_path(1, vec![n(3, 0), n(2, 0), n(1, 0), n(0, 0)], 0, n(0, 0));
    let agents = vec![a, b];
    let ids = vec![0usize, 1usize];
    let plan = compute_avoidance_plan(&agents, &ids, n(2, 0), d);
    assert_eq!(plan.len(), 2);
    assert_eq!(plan[0].agent_id, 0);
    assert_eq!(plan[0].steer, n(0, -1));
    assert_eq!(plan[1].agent_id, 1);
    assert_eq!(plan[1].steer, n(0, 1));
    // the collision cell is always avoided; the nudged cell only when it is
    // on the grid ((2,-1) is not, (2,1) is)
    assert_eq!(plan[0].avoid, vec![n(2, 0)]);
    assert_eq!(plan[1].avoid, vec![n(2, 0), n(2, 1)]);
}

#[test]
fn third_agent_steers_along_its_own_quarter_turn() {
    let d = dims();
    let a = agent_with_path(0, vec![n(1, 5), n(2, 5), n(3, 5)], 0, n(3, 5));
    let b = agent_with_path(1, vec![n(3, 5), n(2, 5), n(1, 5)], 0, n(1, 5));
    let c = agent_with_path(2, vec![n(2, 4), n(2, 5), n(2, 6)], 0, n(2, 6));
    let agents = vec![a, b, c];
    let ids = vec![0usize, 1usize, 2usize];
    let plan = compute_avoidance_plan(&agents, &ids, n(2, 5), d);
    assert_eq!(plan.len(), 3);
    // agent 2's own heading is (0,1); its quarter turn is (1,0)
    assert_eq!(plan[2].agent_id, 2);
    assert_eq!(plan[2].steer, n(1, 0));
}

#[test]
fn single_agent_gets_plain_avoidance() {
    let d = dims();
    let a = agent_with_path(0, vec![n(1, 0), n(2, 0), n(3, 0)], 0, n(3, 0));
    let agents = vec![a];
    let ids = vec![0usize];
    let plan = compute_avoidance_plan(&agents, &ids, n(2, 0), d);
    assert_eq!(plan.len(), 1);
    assert_eq!(plan[0].steer, n(0, 0));
    assert_eq!(plan[0].avoid, vec![n(2, 0)]);
}

#[test]
fn both_head_on_agents_get_replanned() {
    let d = dims();
    // both agents stand mid-path, one step from their meeting cell (2,0)
    let a = agent_with_path(0, vec![n(0, 0), n(1, 0), n(2, 0), n(3, 0), n(4, 0)], 1, n(4, 0));
    let b = agent_with_path(1, vec![n(4, 0), n(3, 0), n(2, 0), n(1, 0), n(0, 0)], 1, n(0, 0));
    let mut agents = vec![a, b];
    let requests = vec![req(0, n(2, 0)), req(1, n(2, 0))];
    let walls: Vec<Node> = Vec::new();
    let mut stats = Statistics::new();
    process_reroute_requests(&mut agents, &requests, &walls, Movement::Orthogonal, d, &mut stats);
    assert_eq!(stats.recalculations, 2);
    for (k, (here, goal)) in [(0usize, (n(1, 0), n(4, 0))), (1usize, (n(3, 0), n(0, 0)))] {
        let path = agents[k].path.as_ref().expect("replan succeeded");
        assert_eq!(path[0], here);
        assert_eq!(*path.last().unwrap(), goal);
        assert!(!path[1..].contains(&n(2, 0)), "agent {} still crosses the conflict cell", k);
        assert_eq!(agents[k].path_index, 0);
        assert!(!agents[k].forward_path.contains(&n(2, 0)));
    }
}

#[test]
fn failed_replan_leaves_the_agent_untouched() {
    let d = dims();
    // the agent's goal is walled in, so the replan must fail and keep the
    // existing (now stale) path
    let walls = vec![n(3, 1), n(4, 0), n(2, 0)];
    let old_path = vec![n(1, 0), n(2, 0), n(3, 0)];
    let a = agent_with_path(0, old_path.clone(), 0, n(3, 0));
    let mut agents = vec![a];
    let requests = vec![req(0, n(2, 0))];
    let mut stats = Statistics::new();
    process_reroute_requests(&mut agents, &requests, &walls, Movement::Orthogonal, d, &mut stats);
    assert_eq!(agents[0].path.as_ref().unwrap(), &old_path);
    assert_eq!(stats.recalculations, 0);
}

#[test]
fn agent_without_goal_is_skipped() {
    let d = dims();
    let mut a = Agent::new(0, n(1, 0), None, d);
    a.refresh_cache(d);
    let mut agents = vec![a];
    let requests = vec![req(0, n(2, 0))];
    let walls: Vec<Node> = Vec::new();
    let mut stats = Statistics::new();
    process_reroute_requests(&mut agents, &requests, &walls, Movement::Orthogonal, d, &mut stats);
    assert!(agents[0].path.is_none());
    assert_eq!(stats.recalculations, 0);
}
