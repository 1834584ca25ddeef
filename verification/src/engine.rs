//! The simulation engine: grid state, agents, detector, planner and
//! telemetry behind the discrete commands that the input layer issues.

use vstd::prelude::*;
use vstd::pervasive::VecAdditionalExecFns;
use crate::grid::{Node, GridDims, in_bounds, in_bounds_spec, contains_node};
use crate::movement::Movement;
use crate::agent::Agent;
use crate::collision::{
    CollisionDetector, CollisionObserver, CollisionEvent, RerouteRequest, scan_events, scan_from,
    event_pairs, direct_events, prox_events, requests_of, pair_event,
    first_common_from, first_eq_from, queued_from, queued_requests, trace_from, observer_step,
};
use crate::pathfind::{find_path, path_connects, reachable, unbiased};
use crate::reroute::{
    process_reroute_requests, rerouted_at, sole_group_plan, entry_would_replan, count_replans,
    groups_spec,
};
use crate::stats::{Statistics, sat_usize, sat_add_usize};
use rand::Rng;

verus! {

// ---------------------------------------------------------------------------
// Collision points of a detection pass stay on the grid
// ---------------------------------------------------------------------------

/// A found common element is an element of the scanned list.
proof fn lemma_first_common_mem(xs: Seq<Node>, ys: Seq<Node>, t: int)
    ensures
        first_common_from(xs, ys, t) matches Some(pt) ==> exists|u: int|
            0 <= u < xs.len() && xs[u] == pt,
    decreases xs.len() - t,
{
    if 0 <= t < xs.len() {
        if ys.contains(xs[t]) {
            assert(xs[t] == xs[t]);
        } else {
            lemma_first_common_mem(xs, ys, t + 1);
        }
    }
}

/// A found equal element is the sought node itself.
proof fn lemma_first_eq_val(xs: Seq<Node>, n: Node, t: int)
    ensures
        first_eq_from(xs, n, t) matches Some(pt) ==> pt == n,
    decreases xs.len() - t,
{
    if 0 <= t < xs.len() {
        if !(xs[t] == n) {
            lemma_first_eq_val(xs, n, t + 1);
        }
    }
}

/// With fresh caches, every lookahead cell lies on the grid.
proof fn lemma_forward_in_bounds(a: Agent, dims: GridDims)
    requires
        a.wf(dims),
        a.cache_fresh(dims),
    ensures
        forall|k: int| 0 <= k < a.forward_path@.len() ==> in_bounds_spec(
            #[trigger] a.forward_path@[k], dims),
{
    assert(a.forward_path@ == a.forward_spec());
}

/// The cell of any event of a detection pass over well-formed agents with
/// fresh caches lies on the grid.
proof fn lemma_event_point_in_bounds(a: Agent, b: Agent, dims: GridDims)
    requires
        a.wf(dims),
        a.cache_fresh(dims),
        b.wf(dims),
        b.cache_fresh(dims),
    ensures
        pair_event(a, b) matches Some(e) ==> in_bounds_spec(e.collision_point, dims),
{
    lemma_forward_in_bounds(a, dims);
    lemma_forward_in_bounds(b, dims);
    lemma_first_common_mem(a.forward_path@, b.forward_path@, 0);
    lemma_first_eq_val(a.forward_path@, b.current_point, 0);
    lemma_first_eq_val(b.forward_path@, a.current_point, 0);
}

/// All events of a scan over well-formed, fresh agents happen on the grid.
proof fn lemma_scan_points_in_bounds(
    agents: Seq<Agent>,
    i: int,
    j: int,
    ign: Seq<crate::collision::AgentPair>,
    dims: GridDims,
)
    requires
        forall|k: int|
            0 <= k < agents.len() ==> (#[trigger] agents[k]).wf(dims) && agents[k].cache_fresh(
                dims),
    ensures
        forall|t: int|
            0 <= t < scan_from(agents, i, j, ign).len() ==> in_bounds_spec(
                (#[trigger] scan_from(agents, i, j, ign)[t]).collision_point, dims),
    decreases agents.len() - i, agents.len() + 1 - j,
{
    if i < 0 || j <= i || i >= agents.len() {
    } else if j >= agents.len() {
        lemma_scan_points_in_bounds(agents, i + 1, i + 2, ign, dims);
    } else {
        let p = crate::collision::norm_pair(agents[i].id, agents[j].id);
        if ign.contains(p) {
            lemma_scan_points_in_bounds(agents, i, j + 1, ign, dims);
        } else {
            match pair_event(agents[i], agents[j]) {
                Some(e) => {
                    lemma_event_point_in_bounds(agents[i], agents[j], dims);
                    lemma_scan_points_in_bounds(agents, i, j + 1, ign.push(p), dims);
                    assert forall|t: int|
                        0 <= t < scan_from(agents, i, j, ign).len() implies in_bounds_spec(
                        (#[trigger] scan_from(agents, i, j, ign)[t]).collision_point, dims) by {
                        let rest = scan_from(agents, i, j + 1, ign.push(p));
                        assert(scan_from(agents, i, j, ign) == seq![e] + rest);
                        if t == 0 {
                            assert(scan_from(agents, i, j, ign)[0] == e);
                        } else {
                            assert(scan_from(agents, i, j, ign)[t] == rest[t - 1]);
                        }
                    }
                }
                None => {
                    lemma_scan_points_in_bounds(agents, i, j + 1, ign, dims);
                }
            }
        }
    }
}

/// The requests derived from events at on-grid cells name on-grid cells.
proof fn lemma_requests_points_in_bounds(es: Seq<CollisionEvent>, dims: GridDims)
    requires
        forall|t: int|
            0 <= t < es.len() ==> in_bounds_spec((#[trigger] es[t]).collision_point, dims),
    ensures
        forall|t: int|
            0 <= t < requests_of(es).len() ==> in_bounds_spec(
                (#[trigger] requests_of(es)[t]).avoid_point, dims),
    decreases es.len(),
{
    if es.len() > 0 {
        assert(forall|t: int|
            0 <= t < es.drop_last().len() ==> in_bounds_spec(
                (#[trigger] es.drop_last()[t]).collision_point, dims));
        lemma_requests_points_in_bounds(es.drop_last(), dims);
        assert(es.last() == es[es.len() - 1]);
        let base = requests_of(es.drop_last());
        assert forall|t: int|
            0 <= t < requests_of(es).len() implies in_bounds_spec(
            (#[trigger] requests_of(es)[t]).avoid_point, dims) by {
            if es.last().collision_type == crate::collision::CollisionType::Proximity {
                let r1 = RerouteRequest {
                    agent_id: es.last().agent1_id,
                    avoid_point: es.last().collision_point,
                };
                let r2 = RerouteRequest {
                    agent_id: es.last().agent2_id,
                    avoid_point: es.last().collision_point,
                };
                assert(requests_of(es) == base.push(r1).push(r2));
                if t < base.len() {
                    assert(requests_of(es)[t] == base[t]);
                }
            } else {
                assert(requests_of(es) == base);
            }
        }
    }
}

/// Observers fed only on-grid requests keep only on-grid requests queued.
proof fn lemma_queued_in_bounds(
    obs0: Seq<CollisionObserver>,
    obs1: Seq<CollisionObserver>,
    es: Seq<CollisionEvent>,
    dims: GridDims,
    k: int,
)
    requires
        obs0.len() == obs1.len(),
        forall|t: int| 0 <= t < obs0.len() ==> observer_step(obs0[t], #[trigger] obs1[t], es),
        forall|t: int|
            0 <= t < queued_from(obs0, k).len() ==> in_bounds_spec(
                (#[trigger] queued_from(obs0, k)[t]).avoid_point, dims),
        forall|t: int|
            0 <= t < requests_of(es).len() ==> in_bounds_spec(
                (#[trigger] requests_of(es)[t]).avoid_point, dims),
        0 <= k,
    ensures
        forall|t: int|
            0 <= t < queued_from(obs1, k).len() ==> in_bounds_spec(
                (#[trigger] queued_from(obs1, k)[t]).avoid_point, dims),
    decreases obs0.len() - k,
{
    if k < obs0.len() {
        let c0 = match obs0[k] {
            CollisionObserver::Assistant { requests } => requests@,
            CollisionObserver::Logger { trace: _ } => Seq::<RerouteRequest>::empty(),
        };
        let c1 = match obs1[k] {
            CollisionObserver::Assistant { requests } => requests@,
            CollisionObserver::Logger { trace: _ } => Seq::<RerouteRequest>::empty(),
        };
        assert(queued_from(obs0, k) == c0 + queued_from(obs0, k + 1));
        assert(queued_from(obs1, k) == c1 + queued_from(obs1, k + 1));
        assert forall|t: int|
            0 <= t < queued_from(obs0, k + 1).len() implies in_bounds_spec(
            (#[trigger] queued_from(obs0, k + 1)[t]).avoid_point, dims) by {
            assert(queued_from(obs0, k)[c0.len() + t] == queued_from(obs0, k + 1)[t]);
        }
        lemma_queued_in_bounds(obs0, obs1, es, dims, k + 1);
        assert(observer_step(obs0[k], obs1[k], es));
        assert forall|t: int|
            0 <= t < queued_from(obs1, k).len() implies in_bounds_spec(
            (#[trigger] queued_from(obs1, k)[t]).avoid_point, dims) by {
            if t < c1.len() {
                assert(queued_from(obs1, k)[t] == c1[t]);
                match obs0[k] {
                    CollisionObserver::Assistant { requests: r0 } => {
                        assert(c1 == r0@ + requests_of(es));
                        if t < r0@.len() {
                            assert(c1[t] == r0@[t]);
                            assert(queued_from(obs0, k)[t] == r0@[t]);
                        } else {
                            assert(c1[t] == requests_of(es)[t - r0@.len()]);
                        }
                    }
                    CollisionObserver::Logger { trace: _ } => {}
                }
            } else {
                assert(queued_from(obs1, k)[t] == queued_from(obs1, k + 1)[t - c1.len()]);
            }
        }
    }
}

// ---------------------------------------------------------------------------
// The engine
// ---------------------------------------------------------------------------

/// What planning every agent's path did to one agent: a fresh valid path
/// from its start to its goal, with the agent moved back to its start. Under
/// orthogonal movement, where the unbiased search is exact, the installed
/// path is a shortest one.
pub open spec fn planned(pre: Agent, post: Agent, walls: Seq<Node>, m: Movement, dims: GridDims) -> bool {
    &&& post.id == pre.id
    &&& post.start_point == pre.start_point
    &&& post.end_point == pre.end_point
    &&& pre.end_point is Some
    &&& post.current_point == pre.start_point
    &&& post.path matches Some(p) && path_connects(p@, pre.start_point, pre.end_point->0, walls,
        Seq::empty(), m, dims)
    &&& (m == Movement::Orthogonal ==> (post.path matches Some(p) ==> forall|q: Seq<Node>|
        path_connects(q, pre.start_point, pre.end_point->0, walls, Seq::empty(), m, dims)
            ==> p@.len() <= q.len()))
    &&& post.path_index == 0
    &&& post.cache_fresh(dims)
    &&& post.wf(dims)
}

/// Total length of the paths a planning pass installed over the first `k`
/// agents: each agent whose goal is reachable from its start contributes the
/// length of its new path.
pub open spec fn installed_lengths(
    pre: Seq<Agent>,
    post: Seq<Agent>,
    walls: Seq<Node>,
    m: Movement,
    dims: GridDims,
    k: int,
) -> int
    decreases k,
{
    if k <= 0 {
        0
    } else {
        installed_lengths(pre, post, walls, m, dims, k - 1) + (
        if pre[k - 1].end_point is Some && reachable(pre[k - 1].start_point,
            pre[k - 1].end_point->0, walls, Seq::empty(), m, dims) {
            post[k - 1].path->0@.len() as int
        } else {
            0int
        })
    }
}

/// The sum over the first `k` agents reads only those agents.
proof fn lemma_installed_lengths_agree(
    pre: Seq<Agent>,
    post1: Seq<Agent>,
    post2: Seq<Agent>,
    walls: Seq<Node>,
    m: Movement,
    dims: GridDims,
    k: int,
)
    requires
        forall|t: int| 0 <= t < k ==> #[trigger] post1[t] == post2[t],
    ensures
        installed_lengths(pre, post1, walls, m, dims, k) == installed_lengths(pre, post2, walls,
            m, dims, k),
    decreases k,
{
    if k > 0 {
        lemma_installed_lengths_agree(pre, post1, post2, walls, m, dims, k - 1);
    }
}

proof fn lemma_installed_lengths_nonneg(
    pre: Seq<Agent>,
    post: Seq<Agent>,
    walls: Seq<Node>,
    m: Movement,
    dims: GridDims,
    k: int,
)
    ensures
        0 <= installed_lengths(pre, post, walls, m, dims, k),
    decreases k,
{
    if k > 0 {
        lemma_installed_lengths_nonneg(pre, post, walls, m, dims, k - 1);
    }
}

/// What advancing one step did to one agent: if it had a path and was not at
/// its final node, it moved to the next path node; otherwise it is untouched.
pub open spec fn stepped(pre: Agent, post: Agent, dims: GridDims) -> bool {
    if pre.path is Some && pre.path_index + 1 < pre.path->0@.len() {
        &&& post.id == pre.id
        &&& post.start_point == pre.start_point
        &&& post.end_point == pre.end_point
        &&& post.path == pre.path
        &&& post.path_index == pre.path_index + 1
        &&& post.current_point == pre.path->0@[pre.path_index + 1]
        &&& post.cache_fresh(dims)
        &&& post.wf(dims)
    } else {
        post == pre
    }
}

/// The conflict-aware path-scheduling engine: walls and agents on one grid,
/// a movement strategy, the collision detector with its observers, and the
/// telemetry counters.
pub struct Engine {
    pub dims: GridDims,
    pub walls: Vec<Node>,
    pub agents: Vec<Agent>,
    pub movement: Movement,
    pub detector: CollisionDetector,
    pub stats: Statistics,
}

impl Engine {
    /// The engine invariant: a usable grid; every agent well-formed with
    /// fresh caches and its id equal to its position; every queued reroute
    /// request aimed at an on-grid cell.
    pub open spec fn wf(self) -> bool {
        &&& self.dims.wf()
        &&& (forall|k: int|
            0 <= k < self.agents@.len() ==> (#[trigger] self.agents@[k]).wf(self.dims)
                && self.agents@[k].cache_fresh(self.dims) && self.agents@[k].id == k)
        &&& (forall|t: int|
            0 <= t < queued_requests(self.detector.observers@).len() ==> in_bounds_spec(
                (#[trigger] queued_requests(self.detector.observers@)[t]).avoid_point, self.dims))
    }

    /// A fresh engine: no walls, no agents, orthogonal movement, a logger
    /// and a request collector registered in that order, zeroed counters.
    pub fn new(dims: GridDims) -> (e: Engine)
        requires
            dims.wf(),
        ensures
            e.wf(),
            e.dims == dims,
            e.walls@.len() == 0,
            e.agents@.len() == 0,
            e.movement == Movement::Orthogonal,
            e.detector.ignored_pairs@.len() == 0,
            e.detector.observers@.len() == 2,
            queued_requests(e.detector.observers@).len() == 0,
            trace_from(e.detector.observers@, 0).len() == 0,
            e.stats.recalculations == 0 && e.stats.collisions == 0 && e.stats.detections == 0
                && e.stats.total_path_length == 0 && e.stats.total_steps == 0,
    {
        let mut detector = CollisionDetector::new();
        detector.register_observer(CollisionObserver::Logger { trace: Vec::new() });
        detector.register_observer(CollisionObserver::Assistant { requests: Vec::new() });
        let e = Engine {
            dims,
            walls: Vec::new(),
            agents: Vec::new(),
            movement: Movement::Orthogonal,
            detector,
            stats: Statistics::new(),
        };
        proof {
            let obs = e.detector.observers@;
            assert(queued_from(obs, 2) =~= Seq::<RerouteRequest>::empty());
            assert(queued_from(obs, 1) == (match obs[1] {
                CollisionObserver::Assistant { requests } => requests@,
                CollisionObserver::Logger { trace: _ } => Seq::<RerouteRequest>::empty(),
            }) + queued_from(obs, 2));
            assert(queued_from(obs, 0) == (match obs[0] {
                CollisionObserver::Assistant { requests } => requests@,
                CollisionObserver::Logger { trace: _ } => Seq::<RerouteRequest>::empty(),
            }) + queued_from(obs, 1));
            assert(queued_from(obs, 0).len() == 0);
            assert(trace_from(obs, 2) =~= Seq::<CollisionEvent>::empty());
            assert(trace_from(obs, 1) == (match obs[1] {
                CollisionObserver::Logger { trace } => trace@,
                CollisionObserver::Assistant { requests: _ } => Seq::<CollisionEvent>::empty(),
            }) + trace_from(obs, 2));
            assert(trace_from(obs, 0) == (match obs[0] {
                CollisionObserver::Logger { trace } => trace@,
                CollisionObserver::Assistant { requests: _ } => Seq::<CollisionEvent>::empty(),
            }) + trace_from(obs, 1));
            assert(trace_from(obs, 0).len() == 0);
        }
        e
    }

    /// Place a wall; placing one twice changes nothing. The input layer is
    /// responsible for not placing walls on agents.
    pub fn place_wall(&mut self, cell: Node)
        requires
            old(self).wf(),
            in_bounds_spec(cell, old(self).dims),
        ensures
            final(self).wf(),
            final(self).walls@ == if old(self).walls@.contains(cell) {
                old(self).walls@
            } else {
                old(self).walls@.push(cell)
            },
            final(self).agents == old(self).agents,
            final(self).dims == old(self).dims,
            final(self).movement == old(self).movement,
            final(self).detector == old(self).detector,
            final(self).stats == old(self).stats,
    {
        if !contains_node(&self.walls, cell) {
            self.walls.push(cell);
        }
    }

    /// Start a new agent at `start`; its goal arrives with the next
    /// `place_agent_end` command.
    pub fn place_agent_start(&mut self, start: Node)
        requires
            old(self).wf(),
            in_bounds_spec(start, old(self).dims),
        ensures
            final(self).wf(),
            final(self).agents@.len() == old(self).agents@.len() + 1,
            forall|k: int|
                0 <= k < old(self).agents@.len() ==> final(self).agents@[k] == old(
                    self).agents@[k],
            ({
                let a = final(self).agents@.last();
                a.id == old(self).agents@.len() && a.start_point == start && a.end_point is None
                    && a.current_point == start && a.path is None && a.path_index == 0
            }),
            final(self).walls == old(self).walls,
            final(self).dims == old(self).dims,
            final(self).movement == old(self).movement,
            final(self).detector == old(self).detector,
            final(self).stats == old(self).stats,
    {
        let id = self.agents.len();
        let a = Agent::new(id, start, None, self.dims);
        self.agents.push(a);
    }

    /// Give the most recently placed agent its goal. Without any agent, or
    /// when the input layer misuses the command, the malformed request is
    /// silently skipped.
    pub fn place_agent_end(&mut self, cell: Node)
        requires
            old(self).wf(),
            in_bounds_spec(cell, old(self).dims),
        ensures
            final(self).wf(),
            final(self).agents@.len() == old(self).agents@.len(),
            forall|k: int|
                0 <= k < old(self).agents@.len() - 1 ==> final(self).agents@[k] == old(
                    self).agents@[k],
            old(self).agents@.len() == 0 ==> final(self).agents == old(self).agents,
            old(self).agents@.len() > 0 ==> ({
                let pre = old(self).agents@.last();
                let post = final(self).agents@.last();
                post.id == pre.id && post.start_point == pre.start_point && post.end_point
                    == Some(cell) && post.current_point == pre.current_point && post.path
                    == pre.path && post.path_index == pre.path_index && post.cache_fresh(
                    old(self).dims)
            }),
            final(self).walls == old(self).walls,
            final(self).dims == old(self).dims,
            final(self).movement == old(self).movement,
            final(self).detector == old(self).detector,
            final(self).stats == old(self).stats,
    {
        let n = self.agents.len();
        if n == 0 {
            return;
        }
        match self.agents.pop() {
            Some(mut a) => {
                a.end_point = Some(cell);
                a.refresh_cache(self.dims);
                self.agents.push(a);
            }
            None => {
                proof {
                    assert(false);
                }
            }
        }
    }

    /// Plan a path for every agent that has both endpoints, from its start
    /// to its goal; an agent whose goal is unreachable keeps its state and
    /// its id is reported back. Successful plans move the agent back to its
    /// start and add their length to the telemetry.
    pub fn plan_all_paths(&mut self) -> (failed: Vec<usize>)
        requires
            old(self).wf(),
        ensures
            final(self).wf(),
            final(self).agents@.len() == old(self).agents@.len(),
            forall|k: int|
                0 <= k < old(self).agents@.len() ==> ({
                    let pre = old(self).agents@[k];
                    let post = #[trigger] final(self).agents@[k];
                    if pre.end_point is None {
                        post == pre && !failed@.contains(pre.id)
                    } else {
                        (planned(pre, post, old(self).walls@, old(self).movement, old(self).dims)
                            && !failed@.contains(pre.id) && reachable(pre.start_point,
                            pre.end_point->0, old(self).walls@, Seq::empty(), old(self).movement,
                            old(self).dims)) || (post == pre && failed@.contains(pre.id)
                            && !reachable(pre.start_point, pre.end_point->0, old(self).walls@,
                            Seq::empty(), old(self).movement, old(self).dims))
                    }
                }),
            final(self).walls == old(self).walls,
            final(self).dims == old(self).dims,
            final(self).movement == old(self).movement,
            final(self).detector == old(self).detector,
            final(self).stats.total_path_length == sat_usize(
                old(self).stats.total_path_length + installed_lengths(old(self).agents@,
                final(self).agents@, old(self).walls@, old(self).movement, old(self).dims,
                old(self).agents@.len() as int)),
            final(self).stats.recalculations == old(self).stats.recalculations,
            final(self).stats.collisions == old(self).stats.collisions,
            final(self).stats.detections == old(self).stats.detections,
            final(self).stats.total_steps == old(self).stats.total_steps,
    {
        let mut failed: Vec<usize> = Vec::new();
        let empty_avoid: Vec<Node> = Vec::new();
        proof {
            assert(empty_avoid@ =~= Seq::<Node>::empty());
        }
        let mut k: usize = 0;
        while k < self.agents.len()
            invariant
                old(self).wf(),
                k <= self.agents@.len(),
                self.agents@.len() == old(self).agents@.len(),
                self.dims == old(self).dims,
                self.walls == old(self).walls,
                self.movement == old(self).movement,
                self.detector == old(self).detector,
                empty_avoid@ == Seq::<Node>::empty(),
                forall|t: int| 0 <= t < failed@.len() ==> #[trigger] failed@[t] < k,
                forall|u: int|
                    0 <= u < self.agents@.len() ==> (#[trigger] self.agents@[u]).wf(self.dims)
                        && self.agents@[u].cache_fresh(self.dims) && self.agents@[u].id == u,
                forall|u: int|
                    k <= u < self.agents@.len() ==> #[trigger] self.agents@[u] == old(
                        self).agents@[u],
                forall|u: int|
                    0 <= u < k ==> ({
                        let pre = old(self).agents@[u];
                        let post = #[trigger] self.agents@[u];
                        if pre.end_point is None {
                            post == pre && !failed@.contains(pre.id)
                        } else {
                            (planned(pre, post, old(self).walls@, old(self).movement,
                                old(self).dims) && !failed@.contains(pre.id) && reachable(
                                pre.start_point, pre.end_point->0, old(self).walls@, Seq::empty(),
                                old(self).movement, old(self).dims)) || (post == pre
                                && failed@.contains(pre.id) && !reachable(pre.start_point,
                                pre.end_point->0, old(self).walls@, Seq::empty(),
                                old(self).movement, old(self).dims))
                        }
                    }),
                self.stats.total_path_length == sat_usize(
                    old(self).stats.total_path_length + installed_lengths(old(self).agents@,
                    self.agents@, old(self).walls@, old(self).movement, old(self).dims,
                    k as int)),
                self.stats.recalculations == old(self).stats.recalculations,
                self.stats.collisions == old(self).stats.collisions,
                self.stats.detections == old(self).stats.detections,
                self.stats.total_steps == old(self).stats.total_steps,
            decreases self.agents@.len() - k,
        {
            let ghost ags0 = self.agents@;
            let agent = &self.agents[k];
            let id = agent.id;
            let start = agent.start_point;
            match agent.end_point {
                Some(goal) => {
                    match find_path(start, goal, &self.walls, &empty_avoid, None, self.movement,
                        self.dims) {
                        Some(path) => {
                            proof {
                                assert(path_connects(path@, start, goal, self.walls@,
                                    empty_avoid@, self.movement, self.dims));
                                assert(empty_avoid@ =~= Seq::<Node>::empty());
                                assert forall|t: int| 0 < t < path@.len() implies
                                    crate::movement::unit_step(path@[t - 1],
                                        #[trigger] path@[t]) by {
                                    crate::movement::lemma_adjacent_unit_step(self.movement,
                                        path@[t - 1], path@[t], self.dims);
                                }
                            }
                            let ghost plen = path@.len() as int;
                            proof {
                                if self.movement == Movement::Orthogonal {
                                    assert forall|q: Seq<Node>|
                                        path_connects(q, start, goal, self.walls@, Seq::empty(),
                                            self.movement, self.dims) implies path@.len()
                                        <= q.len() by {
                                        assert(path_connects(q, start, goal, self.walls@,
                                            empty_avoid@, self.movement, self.dims));
                                    }
                                }
                            }
                            self.stats.total_path_length = sat_add_usize(
                                self.stats.total_path_length, path.len());
                            let mut a2 = Agent {
                                id,
                                start_point: start,
                                end_point: Some(goal),
                                current_point: start,
                                path: Some(path),
                                path_index: 0,
                                collision_radius: Vec::new(),
                                forward_path: Vec::new(),
                            };
                            a2.refresh_cache(self.dims);
                            self.agents.set(k, a2);
                            proof {
                                assert(!failed@.contains(id)) by {
                                    if failed@.contains(id) {
                                        let t = choose|t: int|
                                            0 <= t < failed@.len() && failed@[t] == id;
                                    }
                                }
                                // account for the installed path's length
                                lemma_installed_lengths_agree(old(self).agents@, self.agents@,
                                    ags0, old(self).walls@, old(self).movement, old(self).dims,
                                    k as int);
                                lemma_installed_lengths_nonneg(old(self).agents@, ags0,
                                    old(self).walls@, old(self).movement, old(self).dims,
                                    k as int);
                                assert(self.agents@[k as int].path->0@.len() == plen);
                                assert(installed_lengths(old(self).agents@, self.agents@,
                                    old(self).walls@, old(self).movement, old(self).dims,
                                    k as int + 1) == installed_lengths(old(self).agents@, ags0,
                                    old(self).walls@, old(self).movement, old(self).dims,
                                    k as int) + plen);
                            }
                        }
                        None => {
                            let ghost failed0 = failed@;
                            failed.push(id);
                            proof {
                                assert forall|t: int| 0 <= t < failed@.len() implies
                                    #[trigger] failed@[t] < k + 1 by {
                                    if t < failed0.len() {
                                        assert(failed@[t] == failed0[t]);
                                    }
                                }
                                assert forall|x: usize| failed0.contains(x) implies
                                    failed@.contains(x) by {
                                    let t = choose|t: int|
                                        0 <= t < failed0.len() && failed0[t] == x;
                                    assert(failed@[t] == x);
                                }
                                assert forall|x: usize|
                                    failed@.contains(x) && x != id implies failed0.contains(
                                    x) by {
                                    let t = choose|t: int|
                                        0 <= t < failed@.len() && failed@[t] == x;
                                    assert(t < failed0.len());
                                    assert(failed0[t] == x);
                                }
                                assert(failed@.contains(id)) by {
                                    assert(failed@[failed@.len() - 1] == id);
                                }
                                assert(installed_lengths(old(self).agents@, self.agents@,
                                    old(self).walls@, old(self).movement, old(self).dims,
                                    k as int + 1) == installed_lengths(old(self).agents@,
                                    self.agents@, old(self).walls@, old(self).movement,
                                    old(self).dims, k as int));
                            }
                        }
                    }
                }
                None => {
                    proof {
                        assert(!failed@.contains(id)) by {
                            if failed@.contains(id) {
                                let t = choose|t: int| 0 <= t < failed@.len() && failed@[t] == id;
                            }
                        }
                        assert(installed_lengths(old(self).agents@, self.agents@,
                            old(self).walls@, old(self).movement, old(self).dims, k as int + 1)
                            == installed_lengths(old(self).agents@, self.agents@,
                            old(self).walls@, old(self).movement, old(self).dims, k as int));
                    }
                }
            }
            k = k + 1;
        }
        failed
    }

    /// Advance every agent with a remaining path one node along it, and
    /// clear the suppression list so the next detection pass re-evaluates
    /// all pairs. Every agent counts one step of telemetry.
    pub fn advance_one_step(&mut self)
        requires
            old(self).wf(),
        ensures
            final(self).wf(),
            final(self).agents@.len() == old(self).agents@.len(),
            forall|k: int|
                0 <= k < old(self).agents@.len() ==> stepped(old(self).agents@[k],
                    #[trigger] final(self).agents@[k], old(self).dims),
            final(self).detector.ignored_pairs@.len() == 0,
            final(self).detector.observers == old(self).detector.observers,
            final(self).walls == old(self).walls,
            final(self).dims == old(self).dims,
            final(self).movement == old(self).movement,
            final(self).stats.total_steps == sat_usize(
                old(self).stats.total_steps + old(self).agents@.len()),
            final(self).stats.recalculations == old(self).stats.recalculations,
            final(self).stats.collisions == old(self).stats.collisions,
            final(self).stats.detections == old(self).stats.detections,
            final(self).stats.total_path_length == old(self).stats.total_path_length,
    {
        let mut k: usize = 0;
        while k < self.agents.len()
            invariant
                old(self).wf(),
                k <= self.agents@.len(),
                self.agents@.len() == old(self).agents@.len(),
                self.dims == old(self).dims,
                self.walls == old(self).walls,
                self.movement == old(self).movement,
                self.detector == old(self).detector,
                forall|u: int|
                    0 <= u < self.agents@.len() ==> (#[trigger] self.agents@[u]).wf(self.dims)
                        && self.agents@[u].cache_fresh(self.dims) && self.agents@[u].id == u,
                forall|u: int|
                    k <= u < self.agents@.len() ==> #[trigger] self.agents@[u] == old(
                        self).agents@[u],
                forall|u: int|
                    0 <= u < k ==> stepped(old(self).agents@[u], #[trigger] self.agents@[u],
                        self.dims),
                self.stats.total_steps == sat_usize(old(self).stats.total_steps + k),
                self.stats.recalculations == old(self).stats.recalculations,
                self.stats.collisions == old(self).stats.collisions,
                self.stats.detections == old(self).stats.detections,
                self.stats.total_path_length == old(self).stats.total_path_length,
            decreases self.agents@.len() - k,
        {
            let ghost ags0 = self.agents@;
            let mut a = self.agents.remove(k);
            let mut do_step = false;
            let mut next = a.current_point;
            match &a.path {
                Some(p) => {
                    let plen = p.len();
                    proof {
                        assert(a.path_index < plen);
                    }
                    if a.path_index + 1 < plen {
                        do_step = true;
                        next = p[a.path_index + 1];
                    }
                }
                None => {}
            }
            if do_step {
                a.path_index = a.path_index + 1;
                a.current_point = next;
                a.refresh_cache(self.dims);
            }
            self.agents.insert(k, a);
            self.stats.total_steps = sat_add_usize(self.stats.total_steps, 1);
            proof {
                assert(self.agents@ =~= ags0.update(k as int, self.agents@[k as int]));
            }
            k = k + 1;
        }
        self.detector.clear_ignored();
    }

    /// Switch between orthogonal and diagonal movement. Existing paths stay
    /// valid step sequences; only future plans use the new topology.
    pub fn toggle_movement(&mut self)
        requires
            old(self).wf(),
        ensures
            final(self).wf(),
            final(self).movement == old(self).movement.toggled_spec(),
            final(self).agents == old(self).agents,
            final(self).walls == old(self).walls,
            final(self).dims == old(self).dims,
            final(self).detector == old(self).detector,
            final(self).stats == old(self).stats,
    {
        self.movement = self.movement.toggled();
    }

    /// One detection pass over the agents: every event reaches the
    /// observers in order, its pair is suppressed, and the counters grow.
    pub fn detect_collisions(&mut self)
        requires
            old(self).wf(),
        ensures
            final(self).wf(),
            ({
                let es = scan_events(old(self).agents@, old(self).detector.ignored_pairs@);
                &&& final(self).detector.ignored_pairs@ == old(self).detector.ignored_pairs@
                    + event_pairs(es)
                &&& final(self).detector.observers@.len() == old(self).detector.observers@.len()
                &&& (forall|t: int|
                    0 <= t < old(self).detector.observers@.len() ==> observer_step(
                        old(self).detector.observers@[t],
                        #[trigger] final(self).detector.observers@[t], es))
                &&& final(self).stats.collisions == sat_usize(
                    old(self).stats.collisions + direct_events(es).len())
                &&& final(self).stats.detections == sat_usize(
                    old(self).stats.detections + prox_events(es).len())
            }),
            final(self).agents == old(self).agents,
            final(self).walls == old(self).walls,
            final(self).dims == old(self).dims,
            final(self).movement == old(self).movement,
            final(self).stats.recalculations == old(self).stats.recalculations,
            final(self).stats.total_path_length == old(self).stats.total_path_length,
            final(self).stats.total_steps == old(self).stats.total_steps,
    {
        let ghost obs0 = self.detector.observers@;
        let ghost es = scan_events(self.agents@, self.detector.ignored_pairs@);
        self.detector.check_agents(&self.agents, &mut self.stats);
        proof {
            lemma_scan_points_in_bounds(self.agents@, 0, 1, old(self).detector.ignored_pairs@,
                self.dims);
            lemma_requests_points_in_bounds(es, self.dims);
            assert forall|t: int|
                0 <= t < queued_from(obs0, 0).len() implies in_bounds_spec(
                (#[trigger] queued_from(obs0, 0)[t]).avoid_point, self.dims) by {
                assert(queued_from(obs0, 0)[t] == queued_requests(obs0)[t]);
            }
            lemma_queued_in_bounds(obs0, self.detector.observers@, es, self.dims, 0);
            assert forall|t: int|
                0 <= t < queued_requests(self.detector.observers@).len() implies in_bounds_spec(
                (#[trigger] queued_requests(self.detector.observers@)[t]).avoid_point,
                self.dims) by {
                assert(queued_requests(self.detector.observers@)[t] == queued_from(
                    self.detector.observers@, 0)[t]);
            }
        }
    }

    /// Whether a detection pass has queued reroute requests.
    pub fn has_pending_requests(&self) -> (r: bool)
        ensures
            r == (queued_requests(self.detector.observers@).len() > 0),
    {
        self.detector.has_requests()
    }

    /// Drain the queued reroute requests and replan every implicated agent
    /// around its conflict cell.
    pub fn reroute_pending(&mut self)
        requires
            old(self).wf(),
        ensures
            final(self).wf(),
            final(self).agents@.len() == old(self).agents@.len(),
            forall|k: int|
                0 <= k < old(self).agents@.len() ==> (#[trigger] final(self).agents@[k]) == old(
                    self).agents@[k] || (exists|t: int|
                    0 <= t < queued_requests(old(self).detector.observers@).len() && (#[trigger]
                    queued_requests(old(self).detector.observers@)[t]).agent_id == old(
                        self).agents@[k].id && rerouted_at(old(self).agents@[k],
                        final(self).agents@[k],
                        queued_requests(old(self).detector.observers@)[t].avoid_point,
                        old(self).walls@, old(self).movement, old(self).dims)),
            queued_requests(final(self).detector.observers@).len() == 0,
            groups_spec(queued_requests(old(self).detector.observers@)).len() == 1 ==> (forall|
                pi: int|
                0 <= pi < sole_group_plan(old(self).agents@, queued_requests(
                    old(self).detector.observers@), old(self).dims).len() && entry_would_replan(
                    old(self).agents@, (#[trigger] sole_group_plan(old(self).agents@,
                    queued_requests(old(self).detector.observers@), old(self).dims)[pi]).0,
                    sole_group_plan(old(self).agents@, queued_requests(
                    old(self).detector.observers@), old(self).dims)[pi].1, old(self).walls@,
                    old(self).movement, old(self).dims) ==> exists|k: int|
                    0 <= k < old(self).agents@.len() && (#[trigger] old(self).agents@[k]).id
                        == sole_group_plan(old(self).agents@, queued_requests(
                        old(self).detector.observers@), old(self).dims)[pi].0 && (forall|t: int|
                        0 <= t < k ==> (#[trigger] old(self).agents@[t]).id != sole_group_plan(
                            old(self).agents@, queued_requests(old(self).detector.observers@),
                            old(self).dims)[pi].0) && rerouted_at(old(self).agents@[k],
                        final(self).agents@[k], groups_spec(queued_requests(
                        old(self).detector.observers@))[0].0, old(self).walls@,
                        old(self).movement, old(self).dims)),
            groups_spec(queued_requests(old(self).detector.observers@)).len() == 1
                ==> final(self).stats.recalculations == sat_usize(
                old(self).stats.recalculations + count_replans(old(self).agents@,
                sole_group_plan(old(self).agents@, queued_requests(
                old(self).detector.observers@), old(self).dims), old(self).walls@,
                old(self).movement, old(self).dims, sole_group_plan(old(self).agents@,
                queued_requests(old(self).detector.observers@), old(self).dims).len() as int)),
            final(self).walls == old(self).walls,
            final(self).dims == old(self).dims,
            final(self).movement == old(self).movement,
            final(self).stats.recalculations >= old(self).stats.recalculations,
            final(self).stats.collisions == old(self).stats.collisions,
            final(self).stats.detections == old(self).stats.detections,
            final(self).stats.total_path_length == old(self).stats.total_path_length,
            final(self).stats.total_steps == old(self).stats.total_steps,
    {
        let requests = self.detector.take_requests();
        process_reroute_requests(&mut self.agents, &requests, &self.walls, self.movement,
            self.dims, &mut self.stats);
    }

    /// Drain the direct-collision trace for the outside world to print.
    pub fn take_collision_log(&mut self) -> (r: Vec<CollisionEvent>)
        requires
            old(self).wf(),
        ensures
            final(self).wf(),
            r@ == trace_from(old(self).detector.observers@, 0),
            final(self).agents == old(self).agents,
            final(self).walls == old(self).walls,
            final(self).dims == old(self).dims,
            final(self).movement == old(self).movement,
            final(self).stats == old(self).stats,
    {
        let ghost obs0 = self.detector.observers@;
        let r = self.detector.take_trace();
        proof {
            assert forall|t: int|
                0 <= t < queued_requests(self.detector.observers@).len() implies in_bounds_spec(
                (#[trigger] queued_requests(self.detector.observers@)[t]).avoid_point,
                self.dims) by {
                assert(queued_from(self.detector.observers@, 0) == queued_from(obs0, 0));
                assert(queued_requests(self.detector.observers@)[t] == queued_requests(obs0)[t]);
            }
        }
        r
    }


    /// Spawn `count` agents at random in-bounds start cells with random
    /// in-bounds goals, unplanned until the next planning command.
    pub fn spawn_random_agents(&mut self, count: usize)
        requires
            old(self).wf(),
            old(self).agents@.len() + count <= usize::MAX,
        ensures
            final(self).wf(),
            final(self).agents@.len() == old(self).agents@.len() + count,
            forall|k: int|
                0 <= k < old(self).agents@.len() ==> final(self).agents@[k] == old(
                    self).agents@[k],
            forall|k: int|
                old(self).agents@.len() <= k < final(self).agents@.len() ==> ({
                    let a = #[trigger] final(self).agents@[k];
                    a.id == k && a.end_point is Some && a.path is None
                        && in_bounds_spec(a.start_point, old(self).dims)
                }),
            final(self).walls == old(self).walls,
            final(self).dims == old(self).dims,
            final(self).movement == old(self).movement,
            final(self).detector == old(self).detector,
            final(self).stats == old(self).stats,
    {
        let mut n: usize = 0;
        while n < count
            invariant
                old(self).wf(),
                n <= count,
                old(self).agents@.len() + count <= usize::MAX,
                self.agents@.len() == old(self).agents@.len() + n,
                self.dims == old(self).dims,
                self.walls == old(self).walls,
                self.movement == old(self).movement,
                self.detector == old(self).detector,
                self.stats == old(self).stats,
                forall|k: int|
                    0 <= k < old(self).agents@.len() ==> self.agents@[k] == old(self).agents@[k],
                forall|u: int|
                    0 <= u < self.agents@.len() ==> (#[trigger] self.agents@[u]).wf(self.dims)
                        && self.agents@[u].cache_fresh(self.dims) && self.agents@[u].id == u,
                forall|k: int|
                    old(self).agents@.len() <= k < self.agents@.len() ==> ({
                        let a = #[trigger] self.agents@[k];
                        a.id == k && a.end_point is Some && a.path is None
                            && in_bounds_spec(a.start_point, self.dims)
                    }),
            decreases count - n,
        {
            let id = self.agents.len();
            let sx = random_below(self.dims.columns as usize);
            let sy = random_below(self.dims.rows as usize);
            let ex = random_below(self.dims.columns as usize);
            let ey = random_below(self.dims.rows as usize);
            let start = Node { x: sx as i32, y: sy as i32 };
            let end = Node { x: ex as i32, y: ey as i32 };
            let a = Agent::new(id, start, Some(end), self.dims);
            self.agents.push(a);
            n = n + 1;
        }
    }

    /// Throw away all walls, agents, suppressed pairs, queued requests and
    /// traces; the cumulative telemetry counters survive.
    pub fn reset_all(&mut self)
        requires
            old(self).wf(),
        ensures
            final(self).wf(),
            final(self).agents@.len() == 0,
            final(self).walls@.len() == 0,
            final(self).detector.ignored_pairs@.len() == 0,
            queued_requests(final(self).detector.observers@).len() == 0,
            trace_from(final(self).detector.observers@, 0).len() == 0,
            final(self).dims == old(self).dims,
            final(self).movement == old(self).movement,
            final(self).stats == old(self).stats,
    {
        self.agents.clear();
        self.walls.clear();
        self.detector.clear_ignored();
        let _requests = self.detector.take_requests();
        let _trace = self.detector.take_trace();
    }
}

/// Relies on rand::Rng::random_range over the range 0..bound: the drawn
/// value lies below the bound. The range is non-empty, so the call does not
/// panic.
#[verifier::external_body]
fn random_below(bound: usize) -> (r: usize)
    requires
        bound > 0,
    ensures
        r < bound,
{
    rand::rng().random_range(0..bound)
}

} // verus!
