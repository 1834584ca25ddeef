use grid_navigator::grid::{Node, GridDims};
use grid_navigator::movement::Movement;
use grid_navigator::engine::Engine;

fn n(x: i32, y: i32) -> Node {
    Node { x, y }
}

fn engine(columns: i32, rows: i32) -> Engine {
    Engine::new(GridDims { columns, rows })
}

#[test]
fn placing_a_wall_twice_keeps_one() {
    let mut e = engine(10, 10);
    e.place_wall(n(2, 2));
    e.place_wall(n(2, 2));
    assert_eq!(e.walls, vec![n(2, 2)]);
}

#[test]
fn goal_without_agent_is_skipped() {
    let mut e = engine(10, 10);
    e.place_agent_end(n(5, 5));
    assert_eq!(e.agents.len(), 0);
}

#[test]
fn agents_get_increasing_ids() {
    let mut e = engine(10, 10);
    e.place_agent_start(n(0, 0));
    e.place_agent_end(n(3, 0));
    e.place_agent_start(n(9, 9));
    assert_eq!(e.agents.len(), 2);
    assert_eq!(e.agents[0].id, 0);
    assert_eq!(e.agents[0].end_point, Some(n(3, 0)));
    assert_eq!(e.agents[1].id, 1);
    assert_eq!(e.agents[1].end_point, None);
}

#[test]
fn plan_reports_unreachable_goals() {
    let mut e = engine(10, 10);
    // wall the goal in completely
    for w in [n(4, 5), n(6, 5), n(5, 4), n(5, 6)] {
        e.place_wall(w);
    }
    e.place_agent_start(n(0, 0));
    e.place_agent_end(n(5, 5));
    e.place_agent_start(n(0, 9));
    e.place_agent_end(n(9, 9));
    let failed = e.plan_all_paths();
    assert_eq!(failed, vec![0]);
    assert!(e.agents[0].path.is_none());
    assert!(e.agents[1].path.is_some());
}

#[test]
fn advance_moves_agents_along_their_paths() {
    let mut e = engine(10, 10);
    e.place_agent_start(n(0, 0));
    e.place_agent_end(n(3, 0));
    let failed = e.plan_all_paths();
    assert_eq!(failed.len(), 0);
    assert_eq!(e.agents[0].current_point, n(0, 0));
    assert_eq!(e.stats.total_path_length, 4);
    e.advance_one_step();
    assert_eq!(e.agents[0].current_point, n(1, 0));
    assert_eq!(e.agents[0].path_index, 1);
    assert_eq!(e.stats.total_steps, 1);
    // at the last node the agent stays put
    e.advance_one_step();
    e.advance_one_step();
    e.advance_one_step();
    assert_eq!(e.agents[0].current_point, n(3, 0));
    e.advance_one_step();
    assert_eq!(e.agents[0].current_point, n(3, 0));
}

#[test]
fn toggle_switches_the_strategy() {
    let mut e = engine(10, 10);
    assert_eq!(e.movement, Movement::Orthogonal);
    e.toggle_movement();
    assert_eq!(e.movement, Movement::Diagonal);
    e.toggle_movement();
    assert_eq!(e.movement, Movement::Orthogonal);
}

#[test]
fn spawned_agents_stay_on_the_grid() {
    let mut e = engine(3, 3);
    e.spawn_random_agents(8);
    assert_eq!(e.agents.len(), 8);
    for (k, a) in e.agents.iter().enumerate() {
        assert_eq!(a.id, k);
        assert!(a.start_point.x >= 0 && a.start_point.x < 3);
        assert!(a.start_point.y >= 0 && a.start_point.y < 3);
        let goal = a.end_point.expect("random agents get a goal");
        assert!(goal.x >= 0 && goal.x < 3);
        assert!(goal.y >= 0 && goal.y < 3);
        assert!(a.path.is_none());
    }
}

#[test]
fn reset_clears_the_world_but_keeps_telemetry() {
    let mut e = engine(10, 10);
    e.place_wall(n(1, 1));
    e.place_agent_start(n(0, 0));
    e.place_agent_end(n(5, 0));
    e.plan_all_paths();
    e.advance_one_step();
    let steps = e.stats.total_steps;
    assert!(steps > 0);
    e.reset_all();
    assert_eq!(e.agents.len(), 0);
    assert_eq!(e.walls.len(), 0);
    assert_eq!(e.stats.total_steps, steps);
}

#[test]
fn direct_collision_appears_in_the_log() {
    let mut e = engine(10, 10);
    e.place_agent_start(n(4, 4));
    e.place_agent_start(n(4, 4));
    e.detect_collisions();
    let log = e.take_collision_log();
    assert_eq!(log.len(), 1);
    assert_eq!(log[0].collision_point, n(4, 4));
    assert_eq!(e.stats.collisions, 1);
}

#[test]
fn head_on_agents_are_rerouted_around_the_meeting_cell() {
    // two agents on one row, walking toward each other on a 10x10 grid
    let mut e = engine(10, 10);
    e.place_agent_start(n(0, 0));
    e.place_agent_end(n(4, 0));
    e.place_agent_start(n(4, 0));
    e.place_agent_end(n(0, 0));
    let failed = e.plan_all_paths();
    assert_eq!(failed.len(), 0);

    // initial plans are straight lines of length 5 each
    assert_eq!(
        e.agents[0].path.as_ref().unwrap(),
        &vec![n(0, 0), n(1, 0), n(2, 0), n(3, 0), n(4, 0)]
    );
    assert_eq!(
        e.agents[1].path.as_ref().unwrap(),
        &vec![n(4, 0), n(3, 0), n(2, 0), n(1, 0), n(0, 0)]
    );

    e.advance_one_step();
    assert_eq!(e.agents[0].current_point, n(1, 0));
    assert_eq!(e.agents[1].current_point, n(3, 0));

    // the detector must raise a proximity event at the meeting cell (2,0)
    e.detect_collisions();
    assert_eq!(e.stats.detections, 1);
    assert!(e.has_pending_requests());
    let mut queued_points: Vec<Node> = Vec::new();
    for ob in &e.detector.observers {
        if let grid_navigator::collision::CollisionObserver::Assistant { requests } = ob {
            for r in requests {
                queued_points.push(r.avoid_point);
            }
        }
    }
    assert_eq!(queued_points, vec![n(2, 0), n(2, 0)]);

    // after the reroute, both agents avoid (2,0) in their lookahead and
    // still terminate at their original goals
    e.reroute_pending();
    assert!(!e.has_pending_requests());
    for (k, goal) in [(0usize, n(4, 0)), (1usize, n(0, 0))] {
        let a = &e.agents[k];
        let path = a.path.as_ref().expect("reroute keeps a path installed");
        assert_eq!(*path.last().unwrap(), goal);
        assert!(
            !a.forward_path.contains(&n(2, 0)),
            "agent {} still heads through the conflict cell", k
        );
    }
    assert_eq!(e.stats.recalculations, 2);
}
