//! The decentralized reroute planner: group the queued requests by collision
//! cell, assign each implicated agent a steering direction, and replan its
//! path around the conflict with the pathfinder's avoidance bias.

use vstd::prelude::*;
use vstd::pervasive::VecAdditionalExecFns;
use crate::grid::{
    Node, GridDims, in_bounds, in_bounds_spec, small_dir, rotate_right, rotate_right_spec,
    negate, negate_spec, is_zero_dir,
};
use crate::movement::{Movement, node_add, unit_step, lemma_adjacent_unit_step};
use crate::agent::Agent;
use crate::collision::RerouteRequest;
use crate::pathfind::{find_path, path_connects, reachable};
use crate::stats::{Statistics, sat_usize, sat_add_usize};

verus! {

// ---------------------------------------------------------------------------
// Grouping requests by collision cell
// ---------------------------------------------------------------------------

/// The requests aimed at one collision cell, in arrival order.
pub struct RequestGroup {
    pub point: Node,
    pub agent_ids: Vec<usize>,
}

pub open spec fn group_view(g: RequestGroup) -> (Node, Seq<usize>) {
    (g.point, g.agent_ids@)
}

pub open spec fn groups_view(gs: Seq<RequestGroup>) -> Seq<(Node, Seq<usize>)> {
    gs.map_values(|g: RequestGroup| group_view(g))
}

/// Add one request to a group list: append its agent to the first group with
/// the same cell, or open a new group at the end.
pub open spec fn add_req(gs: Seq<(Node, Seq<usize>)>, r: RerouteRequest) -> Seq<(Node, Seq<usize>)>
    decreases gs.len(),
{
    if gs.len() == 0 {
        seq![(r.avoid_point, seq![r.agent_id])]
    } else if gs[0].0 == r.avoid_point {
        seq![(gs[0].0, gs[0].1.push(r.agent_id))] + gs.drop_first()
    } else {
        seq![gs[0]] + add_req(gs.drop_first(), r)
    }
}

/// The groups of a request list, by first occurrence of each cell.
pub open spec fn groups_spec(reqs: Seq<RerouteRequest>) -> Seq<(Node, Seq<usize>)>
    decreases reqs.len(),
{
    if reqs.len() == 0 {
        Seq::empty()
    } else {
        add_req(groups_spec(reqs.drop_last()), reqs.last())
    }
}

/// Each member of each group comes from a request: the group's cell and the
/// member's id stand together in the request list.
proof fn lemma_add_req_entry(gs: Seq<(Node, Seq<usize>)>, r: RerouteRequest, gi: int, ii: int)
    requires
        0 <= gi < add_req(gs, r).len(),
        0 <= ii < add_req(gs, r)[gi].1.len(),
    ensures
        (0 <= gi < gs.len() && 0 <= ii < gs[gi].1.len() && add_req(gs, r)[gi].0 == gs[gi].0
            && add_req(gs, r)[gi].1[ii] == gs[gi].1[ii]) || (add_req(gs, r)[gi].0 == r.avoid_point
            && add_req(gs, r)[gi].1[ii] == r.agent_id),
    decreases gs.len(),
{
    if gs.len() == 0 {
    } else if gs[0].0 == r.avoid_point {
        if gi == 0 {
            if ii < gs[0].1.len() {
                assert(add_req(gs, r)[0].1[ii] == gs[0].1[ii]);
            }
        } else {
            assert(add_req(gs, r)[gi] == gs.drop_first()[gi - 1]);
            assert(gs.drop_first()[gi - 1] == gs[gi]);
        }
    } else {
        if gi == 0 {
            assert(add_req(gs, r)[0] == gs[0]);
        } else {
            assert(add_req(gs, r)[gi] == add_req(gs.drop_first(), r)[gi - 1]);
            lemma_add_req_entry(gs.drop_first(), r, gi - 1, ii);
            if 0 <= gi - 1 < gs.drop_first().len() && ii < gs.drop_first()[gi - 1].1.len() {
                assert(gs.drop_first()[gi - 1] == gs[gi]);
            }
        }
    }
}

/// No group is empty.
proof fn lemma_add_req_nonempty(gs: Seq<(Node, Seq<usize>)>, r: RerouteRequest, gi: int)
    requires
        0 <= gi < add_req(gs, r).len(),
        forall|t: int| 0 <= t < gs.len() ==> (#[trigger] gs[t]).1.len() >= 1,
    ensures
        add_req(gs, r)[gi].1.len() >= 1,
    decreases gs.len(),
{
    if gs.len() == 0 {
    } else if gs[0].0 == r.avoid_point {
        if gi > 0 {
            assert(add_req(gs, r)[gi] == gs.drop_first()[gi - 1]);
            assert(gs.drop_first()[gi - 1] == gs[gi]);
        }
    } else {
        if gi == 0 {
            assert(add_req(gs, r)[0] == gs[0]);
        } else {
            assert(add_req(gs, r)[gi] == add_req(gs.drop_first(), r)[gi - 1]);
            assert(forall|t: int|
                0 <= t < gs.drop_first().len() ==> (#[trigger] gs.drop_first()[t]).1.len() >= 1);
            lemma_add_req_nonempty(gs.drop_first(), r, gi - 1);
        }
    }
}

/// Soundness of grouping: each group member stands for an actual request.
pub proof fn lemma_groups_entry(reqs: Seq<RerouteRequest>, gi: int, ii: int)
    requires
        0 <= gi < groups_spec(reqs).len(),
        0 <= ii < groups_spec(reqs)[gi].1.len(),
    ensures
        exists|t: int|
            0 <= t < reqs.len() && (#[trigger] reqs[t]).avoid_point == groups_spec(reqs)[gi].0
                && reqs[t].agent_id == groups_spec(reqs)[gi].1[ii],
    decreases reqs.len(),
{
    if reqs.len() > 0 {
        let prev = groups_spec(reqs.drop_last());
        let r = reqs.last();
        lemma_add_req_entry(prev, r, gi, ii);
        if 0 <= gi < prev.len() && 0 <= ii < prev[gi].1.len()
            && add_req(prev, r)[gi].0 == prev[gi].0
            && add_req(prev, r)[gi].1[ii] == prev[gi].1[ii] {
            lemma_groups_entry(reqs.drop_last(), gi, ii);
            let t = choose|t: int|
                0 <= t < reqs.drop_last().len() && (#[trigger] reqs.drop_last()[t]).avoid_point
                    == prev[gi].0 && reqs.drop_last()[t].agent_id == prev[gi].1[ii];
            assert(reqs[t] == reqs.drop_last()[t]);
        } else {
            assert(reqs[reqs.len() - 1] == r);
        }
    }
}

/// Every group holds at least one agent.
pub proof fn lemma_groups_nonempty(reqs: Seq<RerouteRequest>, gi: int)
    requires
        0 <= gi < groups_spec(reqs).len(),
    ensures
        groups_spec(reqs)[gi].1.len() >= 1,
    decreases reqs.len(),
{
    if reqs.len() > 0 {
        let prev = groups_spec(reqs.drop_last());
        assert forall|t: int| 0 <= t < prev.len() implies (#[trigger] prev[t]).1.len() >= 1 by {
            lemma_groups_nonempty(reqs.drop_last(), t);
        }
        lemma_add_req_nonempty(prev, reqs.last(), gi);
    }
}

/// The first group whose cell is `pt`.
fn find_group(gs: &Vec<RequestGroup>, pt: Node) -> (r: Option<usize>)
    ensures
        r matches Some(k) ==> k < gs@.len() && gs@[k as int].point == pt && (forall|t: int|
            0 <= t < k ==> (#[trigger] gs@[t]).point != pt),
        r is None ==> forall|t: int| 0 <= t < gs@.len() ==> (#[trigger] gs@[t]).point != pt,
{
    let mut k: usize = 0;
    while k < gs.len()
        invariant
            k <= gs@.len(),
            forall|t: int| 0 <= t < k ==> (#[trigger] gs@[t]).point != pt,
        decreases gs@.len() - k,
    {
        if gs[k].point == pt {
            return Some(k);
        }
        k = k + 1;
    }
    None
}

/// When no group matches, a new group is appended.
proof fn lemma_add_req_append(gs: Seq<(Node, Seq<usize>)>, r: RerouteRequest)
    requires
        forall|t: int| 0 <= t < gs.len() ==> (#[trigger] gs[t]).0 != r.avoid_point,
    ensures
        add_req(gs, r) == gs.push((r.avoid_point, seq![r.agent_id])),
    decreases gs.len(),
{
    if gs.len() == 0 {
        assert(add_req(gs, r) =~= gs.push((r.avoid_point, seq![r.agent_id])));
    } else {
        assert(forall|t: int|
            0 <= t < gs.drop_first().len() ==> (#[trigger] gs.drop_first()[t]).0
                != r.avoid_point);
        lemma_add_req_append(gs.drop_first(), r);
        assert(add_req(gs, r) =~= gs.push((r.avoid_point, seq![r.agent_id])));
    }
}

/// When the first match is at `k`, that group is extended in place.
proof fn lemma_add_req_update(gs: Seq<(Node, Seq<usize>)>, r: RerouteRequest, k: int)
    requires
        0 <= k < gs.len(),
        gs[k].0 == r.avoid_point,
        forall|t: int| 0 <= t < k ==> (#[trigger] gs[t]).0 != r.avoid_point,
    ensures
        add_req(gs, r) == gs.update(k, (gs[k].0, gs[k].1.push(r.agent_id))),
    decreases gs.len(),
{
    if k == 0 {
        assert(add_req(gs, r) =~= gs.update(0, (gs[0].0, gs[0].1.push(r.agent_id))));
    } else {
        assert(forall|t: int|
            0 <= t < k - 1 ==> (#[trigger] gs.drop_first()[t]).0 != r.avoid_point);
        assert(gs.drop_first()[k - 1] == gs[k]);
        lemma_add_req_update(gs.drop_first(), r, k - 1);
        assert(add_req(gs, r) =~= gs.update(k, (gs[k].0, gs[k].1.push(r.agent_id))));
    }
}

/// Group the requests by collision cell, in order of first occurrence; the
/// agents of one group keep their request order.
pub fn group_requests(requests: &Vec<RerouteRequest>) -> (gs: Vec<RequestGroup>)
    ensures
        groups_view(gs@) == groups_spec(requests@),
{
    let mut gs: Vec<RequestGroup> = Vec::new();
    let mut t: usize = 0;
    proof {
        assert(groups_view(gs@) =~= groups_spec(requests@.take(0)));
    }
    while t < requests.len()
        invariant
            t <= requests@.len(),
            groups_view(gs@) == groups_spec(requests@.take(t as int)),
        decreases requests@.len() - t,
    {
        let r = requests[t];
        let ghost gv = groups_view(gs@);
        proof {
            assert(requests@.take(t as int + 1).drop_last() =~= requests@.take(t as int));
            assert(requests@.take(t as int + 1).last() == requests@[t as int]);
        }
        match find_group(&gs, r.avoid_point) {
            Some(k) => {
                proof {
                    assert forall|u: int| 0 <= u < k implies (#[trigger] gv[u]).0
                        != r.avoid_point by {
                        assert(gv[u] == group_view(gs@[u]));
                    }
                    assert(gv[k as int].0 == r.avoid_point);
                    lemma_add_req_update(gv, r, k as int);
                }
                let mut grp = gs.remove(k);
                grp.agent_ids.push(r.agent_id);
                gs.insert(k, grp);
                proof {
                    assert(groups_view(gs@) =~= gv.update(k as int,
                        (gv[k as int].0, gv[k as int].1.push(r.agent_id))));
                }
            }
            None => {
                proof {
                    assert forall|u: int| 0 <= u < gv.len() implies (#[trigger] gv[u]).0
                        != r.avoid_point by {
                        assert(gv[u] == group_view(gs@[u]));
                    }
                    lemma_add_req_append(gv, r);
                }
                let mut ids: Vec<usize> = Vec::new();
                ids.push(r.agent_id);
                gs.push(RequestGroup { point: r.avoid_point, agent_ids: ids });
                proof {
                    assert(groups_view(gs@) =~= gv.push((r.avoid_point, seq![r.agent_id])));
                }
            }
        }
        t = t + 1;
    }
    proof {
        assert(requests@.take(requests@.len() as int) =~= requests@);
    }
    gs
}

// ---------------------------------------------------------------------------
// Per-group avoidance plan
// ---------------------------------------------------------------------------

/// One agent's avoidance instructions: the cells to keep out of and the
/// steering heading to prefer.
pub struct AvoidEntry {
    pub agent_id: usize,
    pub avoid: Vec<Node>,
    pub steer: Node,
}

pub open spec fn entry_view(e: AvoidEntry) -> (usize, Seq<Node>, Node) {
    (e.agent_id, e.avoid@, e.steer)
}

pub open spec fn entries_view(es: Seq<AvoidEntry>) -> Seq<(usize, Seq<Node>, Node)> {
    es.map_values(|e: AvoidEntry| entry_view(e))
}

/// The avoidance set of one entry: the collision cell, plus the cell one
/// steering step away when it is on the grid.
pub open spec fn entry_spec(id: usize, cp: Node, steer: Node, dims: GridDims) -> (
    usize,
    Seq<Node>,
    Node,
) {
    let nudge = node_add(cp, steer);
    (
        id,
        if in_bounds_spec(nudge, dims) {
            seq![cp, nudge]
        } else {
            seq![cp]
        },
        steer,
    )
}

/// The first agent with the given id.
pub open spec fn find_agent_from(agents: Seq<Agent>, id: usize, k: int) -> Option<Agent>
    decreases agents.len() - k,
{
    if k < 0 || k >= agents.len() {
        None
    } else if agents[k].id == id {
        Some(agents[k])
    } else {
        find_agent_from(agents, id, k + 1)
    }
}

/// The headings of the group's agents, one per id that names an agent, in
/// group order.
pub open spec fn dirs_spec(agents: Seq<Agent>, ids: Seq<usize>, k: int) -> Seq<(usize, Node)>
    decreases ids.len() - k,
{
    if k < 0 || k >= ids.len() {
        Seq::empty()
    } else {
        match find_agent_from(agents, ids[k], 0) {
            Some(a) => seq![(ids[k], a.direction_spec())] + dirs_spec(agents, ids, k + 1),
            None => dirs_spec(agents, ids, k + 1),
        }
    }
}

/// Entries for the agents beyond the first two: each steers along the
/// quarter turn of its own heading.
pub open spec fn rotated_entries(dirs: Seq<(usize, Node)>, k: int, cp: Node, dims: GridDims) -> Seq<
    (usize, Seq<Node>, Node),
>
    decreases dirs.len() - k,
{
    if k < 0 || k >= dirs.len() {
        Seq::empty()
    } else {
        seq![entry_spec(dirs[k].0, cp, rotate_right_spec(dirs[k].1), dims)] + rotated_entries(
            dirs, k + 1, cp, dims,
        )
    }
}

/// Entries without a steering bias: forbid only the collision cell.
pub open spec fn plain_entries(dirs: Seq<(usize, Node)>, k: int, cp: Node) -> Seq<
    (usize, Seq<Node>, Node),
>
    decreases dirs.len() - k,
{
    if k < 0 || k >= dirs.len() {
        Seq::empty()
    } else {
        seq![(dirs[k].0, seq![cp], Node { x: 0i32, y: 0i32 })] + plain_entries(dirs, k + 1, cp)
    }
}

/// The per-agent avoidance plan of one collision cell: with two or more
/// implicated agents, the steering axis is the quarter turn of the first
/// agent's heading; the lower of the first two ids steers to the positive
/// side and the higher to the negative side, and any further agents steer
/// along the quarter turn of their own heading. With fewer than two agents,
/// only the collision cell is forbidden and no bias is set.
pub open spec fn plan_spec(agents: Seq<Agent>, ids: Seq<usize>, cp: Node, dims: GridDims) -> Seq<
    (usize, Seq<Node>, Node),
> {
    let dirs = dirs_spec(agents, ids, 0);
    if dirs.len() >= 2 {
        let a_id = dirs[0].0;
        let a_dir = dirs[0].1;
        let b_id = dirs[1].0;
        let axis = rotate_right_spec(a_dir);
        let sa = if a_id <= b_id {
            axis
        } else {
            negate_spec(axis)
        };
        let sb = if a_id <= b_id {
            negate_spec(axis)
        } else {
            axis
        };
        seq![entry_spec(a_id, cp, sa, dims), entry_spec(b_id, cp, sb, dims)] + rotated_entries(
            dirs, 2, cp, dims,
        )
    } else {
        plain_entries(dirs, 0, cp)
    }
}

/// The first agent with the given id, as an index.
fn find_by_id(agents: &Vec<Agent>, id: usize) -> (r: Option<usize>)
    ensures
        r matches Some(k) ==> k < agents@.len() && agents@[k as int].id == id
            && (forall|t: int| 0 <= t < k ==> (#[trigger] agents@[t]).id != id)
            && find_agent_from(agents@, id, 0) == Some(agents@[k as int]),
        r is None ==> find_agent_from(agents@, id, 0) is None,
{
    let mut k: usize = 0;
    while k < agents.len()
        invariant
            k <= agents@.len(),
            forall|t: int| 0 <= t < k ==> (#[trigger] agents@[t]).id != id,
            find_agent_from(agents@, id, 0) == find_agent_from(agents@, id, k as int),
        decreases agents@.len() - k,
    {
        if agents[k].id == id {
            return Some(k);
        }
        k = k + 1;
    }
    None
}

/// Build the avoidance set and steering entry of one agent.
fn make_avoid_entry(id: usize, cp: Node, steer: Node, dims: GridDims) -> (e: AvoidEntry)
    requires
        dims.wf(),
        in_bounds_spec(cp, dims),
        small_dir(steer),
    ensures
        entry_view(e) == entry_spec(id, cp, steer, dims),
        small_dir(e.steer),
        e.avoid@.contains(cp),
        e.agent_id == id,
{
    let mut avoid: Vec<Node> = Vec::new();
    avoid.push(cp);
    let nudge = Node { x: cp.x + steer.x, y: cp.y + steer.y };
    proof {
        assert(nudge == node_add(cp, steer));
    }
    if in_bounds(nudge, dims) {
        avoid.push(nudge);
    }
    let e = AvoidEntry { agent_id: id, avoid, steer };
    proof {
        assert(e.avoid@[0] == cp);
        assert(entry_view(e) =~= entry_spec(id, cp, steer, dims));
    }
    e
}

/// Compute the avoidance plan of one group of implicated agents.
pub fn compute_avoidance_plan(
    agents: &Vec<Agent>,
    ids: &Vec<usize>,
    cp: Node,
    dims: GridDims,
) -> (plan: Vec<AvoidEntry>)
    requires
        dims.wf(),
        in_bounds_spec(cp, dims),
        forall|k: int| 0 <= k < agents@.len() ==> (#[trigger] agents@[k]).wf(dims),
    ensures
        entries_view(plan@) == plan_spec(agents@, ids@, cp, dims),
        forall|t: int|
            0 <= t < plan@.len() ==> small_dir((#[trigger] plan@[t]).steer)
                && plan@[t].avoid@.contains(cp) && ids@.contains(plan@[t].agent_id),
{
    // collect each named agent's heading
    let mut dirs: Vec<(usize, Node)> = Vec::new();
    let mut k: usize = 0;
    while k < ids.len()
        invariant
            k <= ids@.len(),
            dims.wf(),
            forall|t: int| 0 <= t < agents@.len() ==> (#[trigger] agents@[t]).wf(dims),
            dirs_spec(agents@, ids@, 0) == dirs@ + dirs_spec(agents@, ids@, k as int),
            forall|t: int| 0 <= t < dirs@.len() ==> small_dir((#[trigger] dirs@[t]).1),
            forall|t: int| 0 <= t < dirs@.len() ==> ids@.contains((#[trigger] dirs@[t]).0),
        decreases ids@.len() - k,
    {
        let id = ids[k];
        match find_by_id(agents, id) {
            Some(ai) => {
                let d = agents[ai].direction(dims);
                proof {
                    assert(ids@[k as int] == id);
                    assert(dirs@.push((id, d)) + dirs_spec(agents@, ids@, k as int + 1)
                        =~= dirs@ + (seq![(id, d)] + dirs_spec(agents@, ids@, k as int + 1)));
                }
                dirs.push((id, d));
            }
            None => {}
        }
        k = k + 1;
    }
    proof {
        assert(dirs_spec(agents@, ids@, ids@.len() as int) =~= Seq::<(usize, Node)>::empty());
        assert(dirs@ + Seq::<(usize, Node)>::empty() =~= dirs@);
        assert(dirs@ == dirs_spec(agents@, ids@, 0));
    }

    let mut plan: Vec<AvoidEntry> = Vec::new();
    if dirs.len() >= 2 {
        let (a_id, a_dir) = dirs[0];
        let (b_id, _b_dir) = dirs[1];
        let axis = rotate_right(a_dir);
        let (steer_a, steer_b) = if a_id <= b_id {
            (axis, negate(axis))
        } else {
            (negate(axis), axis)
        };
        plan.push(make_avoid_entry(a_id, cp, steer_a, dims));
        plan.push(make_avoid_entry(b_id, cp, steer_b, dims));
        let mut t: usize = 2;
        while t < dirs.len()
            invariant
                2 <= t <= dirs@.len(),
                dims.wf(),
                in_bounds_spec(cp, dims),
                dirs@ == dirs_spec(agents@, ids@, 0),
                forall|u: int| 0 <= u < dirs@.len() ==> small_dir((#[trigger] dirs@[u]).1),
                forall|u: int| 0 <= u < dirs@.len() ==> ids@.contains((#[trigger] dirs@[u]).0),
                plan_spec(agents@, ids@, cp, dims) == entries_view(plan@) + rotated_entries(
                    dirs@, t as int, cp, dims),
                forall|u: int|
                    0 <= u < plan@.len() ==> small_dir((#[trigger] plan@[u]).steer)
                        && plan@[u].avoid@.contains(cp) && ids@.contains(plan@[u].agent_id),
            decreases dirs@.len() - t,
        {
            let (id, d) = dirs[t];
            let e = make_avoid_entry(id, cp, rotate_right(d), dims);
            proof {
                assert(entries_view(plan@.push(e)) =~= entries_view(plan@).push(entry_view(e)));
                assert(entries_view(plan@).push(entry_view(e)) + rotated_entries(dirs@,
                    t as int + 1, cp, dims) =~= entries_view(plan@) + (seq![entry_view(e)]
                    + rotated_entries(dirs@, t as int + 1, cp, dims)));
            }
            plan.push(e);
            t = t + 1;
        }
        proof {
            assert(rotated_entries(dirs@, dirs@.len() as int, cp, dims) =~= Seq::<(usize, Seq<
                Node,
            >, Node)>::empty());
            assert(entries_view(plan@) + Seq::<(usize, Seq<Node>, Node)>::empty() =~= entries_view(
                plan@));
        }
    } else {
        let mut t: usize = 0;
        while t < dirs.len()
            invariant
                t <= dirs@.len(),
                dirs@.len() < 2,
                dims.wf(),
                in_bounds_spec(cp, dims),
                dirs@ == dirs_spec(agents@, ids@, 0),
                forall|u: int| 0 <= u < dirs@.len() ==> ids@.contains((#[trigger] dirs@[u]).0),
                plan_spec(agents@, ids@, cp, dims) == entries_view(plan@) + plain_entries(
                    dirs@, t as int, cp),
                forall|u: int|
                    0 <= u < plan@.len() ==> small_dir((#[trigger] plan@[u]).steer)
                        && plan@[u].avoid@.contains(cp) && ids@.contains(plan@[u].agent_id),
            decreases dirs@.len() - t,
        {
            let (id, _d) = dirs[t];
            let mut avoid: Vec<Node> = Vec::new();
            avoid.push(cp);
            let e = AvoidEntry { agent_id: id, avoid, steer: Node { x: 0, y: 0 } };
            proof {
                assert(e.avoid@[0] == cp);
                assert(entry_view(e) =~= (id, seq![cp], Node { x: 0i32, y: 0i32 }));
                assert(entries_view(plan@.push(e)) =~= entries_view(plan@).push(entry_view(e)));
                assert(entries_view(plan@).push(entry_view(e)) + plain_entries(dirs@,
                    t as int + 1, cp) =~= entries_view(plan@) + (seq![entry_view(e)]
                    + plain_entries(dirs@, t as int + 1, cp)));
            }
            plan.push(e);
            t = t + 1;
        }
        proof {
            assert(plain_entries(dirs@, dirs@.len() as int, cp) =~= Seq::<(usize, Seq<Node>,
                Node)>::empty());
            assert(entries_view(plan@) + Seq::<(usize, Seq<Node>, Node)>::empty() =~= entries_view(
                plan@));
        }
    }
    plan
}

// ---------------------------------------------------------------------------
// Applying the plan
// ---------------------------------------------------------------------------

/// Whether applying a plan entry replans an agent: the first agent bearing
/// the entry's id exists, has a goal, and that goal is reachable from the
/// agent's position through the walls and the entry's avoidance set.
pub open spec fn entry_would_replan(
    agents: Seq<Agent>,
    id: usize,
    avoid: Seq<Node>,
    walls: Seq<Node>,
    m: Movement,
    dims: GridDims,
) -> bool {
    match find_agent_from(agents, id, 0) {
        Some(a) => a.end_point is Some && reachable(a.current_point, a.end_point->0, walls,
            avoid, m, dims),
        None => false,
    }
}

/// Number of entries among the first `k` of a plan that replan an agent.
pub open spec fn count_replans(
    agents: Seq<Agent>,
    plan: Seq<(usize, Seq<Node>, Node)>,
    walls: Seq<Node>,
    m: Movement,
    dims: GridDims,
    k: int,
) -> int
    decreases k,
{
    if k <= 0 {
        0
    } else {
        count_replans(agents, plan, walls, m, dims, k - 1) + (
        if entry_would_replan(agents, plan[k - 1].0, plan[k - 1].1, walls, m, dims) {
            1int
        } else {
            0int
        })
    }
}

/// The agent was replanned with an avoidance set: same identity and
/// position, a new valid path from its cell to its goal that keeps out of
/// the whole set, a reset path index, and fresh caches.
pub open spec fn replanned_with(
    pre: Agent,
    post: Agent,
    avoid: Seq<Node>,
    walls: Seq<Node>,
    m: Movement,
    dims: GridDims,
) -> bool {
    &&& post.id == pre.id
    &&& post.start_point == pre.start_point
    &&& post.end_point == pre.end_point
    &&& post.current_point == pre.current_point
    &&& pre.end_point is Some
    &&& post.path matches Some(p) && path_connects(p@, pre.current_point, pre.end_point->0,
        walls, avoid, m, dims)
    &&& post.path_index == 0
    &&& post.cache_fresh(dims)
    &&& post.wf(dims)
}

/// Identity, position and goal of every agent are kept (only paths, indices
/// and caches may differ).
pub open spec fn core_kept(pre: Seq<Agent>, post: Seq<Agent>) -> bool {
    &&& post.len() == pre.len()
    &&& forall|k: int|
        0 <= k < pre.len() ==> (#[trigger] post[k]).id == pre[k].id && post[k].start_point
            == pre[k].start_point && post[k].end_point == pre[k].end_point
            && post[k].current_point == pre[k].current_point
}

/// The replan condition reads only an agent's id, position and goal, so it
/// is stable across replans, which keep those fields.
proof fn lemma_replan_cond_stable(
    a0: Seq<Agent>,
    a1: Seq<Agent>,
    id: usize,
    avoid: Seq<Node>,
    walls: Seq<Node>,
    m: Movement,
    dims: GridDims,
    t: int,
)
    requires
        core_kept(a0, a1),
        0 <= t,
    ensures
        find_agent_from(a0, id, t) is Some <==> find_agent_from(a1, id, t) is Some,
        find_agent_from(a0, id, t) matches Some(x) ==> (find_agent_from(a1, id, t) matches
            Some(y) && y.current_point == x.current_point && y.end_point == x.end_point),
        t == 0 ==> entry_would_replan(a0, id, avoid, walls, m, dims) == entry_would_replan(
            a1, id, avoid, walls, m, dims),
    decreases a0.len() - t,
{
    if t < a0.len() {
        if a0[t].id != id {
            assert(a1[t].id != id);
            lemma_replan_cond_stable(a0, a1, id, avoid, walls, m, dims, t + 1);
        } else {
            assert(a1[t].id == id);
        }
    }
}

/// The agent was replanned around `point`: same identity and position, a new
/// valid path from its current cell to its goal whose future cells all avoid
/// `point`, a reset path index, and fresh caches.
pub open spec fn rerouted_at(pre: Agent, post: Agent, point: Node, walls: Seq<Node>, m: Movement, dims: GridDims) -> bool {
    &&& post.id == pre.id
    &&& post.start_point == pre.start_point
    &&& post.end_point == pre.end_point
    &&& post.current_point == pre.current_point
    &&& pre.end_point is Some
    &&& post.path matches Some(p) && path_connects(p@, pre.current_point, pre.end_point->0,
        walls, Seq::empty(), m, dims) && (forall|k: int| 0 < k < p@.len() ==> p@[k] != point)
    &&& post.path_index == 0
    &&& post.cache_fresh(dims)
    &&& post.wf(dims)
}

/// A walk that avoids a set containing `point` is a walk with no avoidance
/// constraint whose future cells all differ from `point`.
proof fn lemma_path_weaken_avoid(
    p: Seq<Node>,
    start: Node,
    end: Node,
    walls: Seq<Node>,
    avoid: Seq<Node>,
    m: Movement,
    dims: GridDims,
    point: Node,
)
    requires
        path_connects(p, start, end, walls, avoid, m, dims),
        avoid.contains(point),
    ensures
        path_connects(p, start, end, walls, Seq::empty(), m, dims),
        forall|k: int| 0 < k < p.len() ==> p[k] != point,
{
    assert forall|k: int| 0 < k < p.len() implies p[k] != point by {
        if p[k] == point {
            assert(avoid.contains(p[k]));
        }
    }
}

/// A replan whose avoidance set contains the conflict cell is a reroute
/// around that cell.
pub proof fn lemma_replanned_rerouted(
    pre: Agent,
    post: Agent,
    avoid: Seq<Node>,
    point: Node,
    walls: Seq<Node>,
    m: Movement,
    dims: GridDims,
)
    requires
        replanned_with(pre, post, avoid, walls, m, dims),
        avoid.contains(point),
    ensures
        rerouted_at(pre, post, point, walls, m, dims),
{
    let p = post.path->0;
    lemma_path_weaken_avoid(p@, pre.current_point, pre.end_point->0, walls, avoid, m, dims,
        point);
}

/// Replan one agent of a group: look the agent up by id; if it has a goal,
/// search a new path from its current cell with the entry's avoidance set
/// and steering bias; on success install the path and refresh the caches; on
/// failure, or without a goal, leave the agent untouched.
#[verifier::rlimit(100)]
fn apply_entry(
    agents: &mut Vec<Agent>,
    entry: &AvoidEntry,
    point: Node,
    walls: &Vec<Node>,
    movement: Movement,
    dims: GridDims,
    stats: &mut Statistics,
) -> (r: ())
    requires
        dims.wf(),
        in_bounds_spec(point, dims),
        small_dir(entry.steer),
        entry.avoid@.contains(point),
        forall|k: int| 0 <= k < old(agents)@.len() ==> (#[trigger] old(agents)@[k]).wf(dims),
    ensures
        final(agents)@.len() == old(agents)@.len(),
        forall|k: int|
            0 <= k < old(agents)@.len() ==> (#[trigger] final(agents)@[k]) == old(agents)@[k]
                || (final(agents)@[k].id == entry.agent_id && rerouted_at(old(agents)@[k],
                final(agents)@[k], point, walls@, movement, dims)),
        forall|k: int| 0 <= k < final(agents)@.len() ==> (#[trigger] final(agents)@[k]).wf(dims),
        entry_would_replan(old(agents)@, entry.agent_id, entry.avoid@, walls@, movement, dims)
            ==> ({
            &&& final(stats).recalculations == sat_usize(old(stats).recalculations + 1)
            &&& exists|k: int|
                0 <= k < old(agents)@.len() && (#[trigger] old(agents)@[k]).id == entry.agent_id
                    && (forall|t: int|
                    0 <= t < k ==> (#[trigger] old(agents)@[t]).id != entry.agent_id)
                    && replanned_with(old(agents)@[k], final(agents)@[k], entry.avoid@, walls@,
                    movement, dims) && (forall|t: int|
                    0 <= t < old(agents)@.len() && t != k ==> #[trigger] final(agents)@[t]
                        == old(agents)@[t])
        }),
        !entry_would_replan(old(agents)@, entry.agent_id, entry.avoid@, walls@, movement, dims)
            ==> final(agents)@ == old(agents)@ && final(stats).recalculations == old(
            stats).recalculations,
        final(stats).collisions == old(stats).collisions,
        final(stats).detections == old(stats).detections,
        final(stats).total_path_length == old(stats).total_path_length,
        final(stats).total_steps == old(stats).total_steps,
{
    let found = find_by_id(agents, entry.agent_id);
    match found {
        Some(ai) => {
            let agent = &agents[ai];
            match agent.end_point {
                Some(goal) => {
                    let cur = agent.current_point;
                    let preferred: Option<Node> = if is_zero_dir(entry.steer) {
                        None
                    } else {
                        Some(entry.steer)
                    };
                    match find_path(cur, goal, walls, &entry.avoid, preferred, movement, dims) {
                        Some(new_path) => {
                            proof {
                                assert(reachable(cur, goal, walls@, entry.avoid@, movement,
                                    dims));
                                assert(entry_would_replan(agents@, entry.agent_id, entry.avoid@,
                                    walls@, movement, dims));
                            }
                            stats.recalculations = sat_add_usize(stats.recalculations, 1);
                            let ghost pre = agents@[ai as int];
                            let ghost np_seq = new_path@;
                            proof {
                                lemma_path_weaken_avoid(np_seq, cur, goal, walls@, entry.avoid@,
                                    movement, dims, point);
                                assert forall|k: int| 0 < k < np_seq.len() implies unit_step(
                                    np_seq[k - 1], #[trigger] np_seq[k]) by {
                                    lemma_adjacent_unit_step(movement, np_seq[k - 1], np_seq[k],
                                        dims);
                                }
                            }
                            let mut a2 = Agent {
                                id: entry.agent_id,
                                start_point: agent.start_point,
                                end_point: agent.end_point,
                                current_point: cur,
                                path: Some(new_path),
                                path_index: 0,
                                collision_radius: Vec::new(),
                                forward_path: Vec::new(),
                            };
                            proof {
                                assert(pre.id == entry.agent_id);
                                assert(a2.wf(dims));
                            }
                            a2.refresh_cache(dims);
                            agents.set(ai, a2);
                            proof {
                                let post = agents@[ai as int];
                                assert(post.path == Some(new_path));
                                assert(post.path->0@ == np_seq);
                                assert(rerouted_at(pre, post, point, walls@, movement, dims));
                                assert(replanned_with(pre, post, entry.avoid@, walls@, movement,
                                    dims));
                            }
                        }
                        None => {
                            proof {
                                assert(!reachable(cur, goal, walls@, entry.avoid@, movement,
                                    dims));
                                assert(!entry_would_replan(agents@, entry.agent_id,
                                    entry.avoid@, walls@, movement, dims));
                            }
                        }
                    }
                }
                None => {
                    proof {
                        assert(!entry_would_replan(agents@, entry.agent_id, entry.avoid@,
                            walls@, movement, dims));
                    }
                }
            }
        }
        None => {
            proof {
                assert(!entry_would_replan(agents@, entry.agent_id, entry.avoid@, walls@,
                    movement, dims));
            }
        }
    }
}

/// The avoidance plan of the one request group, when every request names the
/// same collision cell.
pub open spec fn sole_group_plan(
    agents: Seq<Agent>,
    requests: Seq<RerouteRequest>,
    dims: GridDims,
) -> Seq<(usize, Seq<Node>, Node)> {
    plan_spec(agents, groups_spec(requests)[0].1, groups_spec(requests)[0].0, dims)
}

proof fn lemma_count_replans_nonneg(
    agents: Seq<Agent>,
    plan: Seq<(usize, Seq<Node>, Node)>,
    walls: Seq<Node>,
    m: Movement,
    dims: GridDims,
    k: int,
)
    ensures
        0 <= count_replans(agents, plan, walls, m, dims, k),
    decreases k,
{
    if k > 0 {
        lemma_count_replans_nonneg(agents, plan, walls, m, dims, k - 1);
    }
}

/// Process the queued reroute requests: group them by collision cell,
/// compute each group's avoidance plan, and replan each implicated agent
/// around its collision cell. An agent whose replan fails, or which has no
/// goal, keeps its path untouched.
pub fn process_reroute_requests(
    agents: &mut Vec<Agent>,
    requests: &Vec<RerouteRequest>,
    walls: &Vec<Node>,
    movement: Movement,
    dims: GridDims,
    stats: &mut Statistics,
) -> (r: ())
    requires
        dims.wf(),
        forall|k: int| 0 <= k < old(agents)@.len() ==> (#[trigger] old(agents)@[k]).wf(dims),
        forall|t: int|
            0 <= t < requests@.len() ==> in_bounds_spec(
                (#[trigger] requests@[t]).avoid_point, dims),
    ensures
        final(agents)@.len() == old(agents)@.len(),
        forall|k: int|
            0 <= k < old(agents)@.len() ==> (#[trigger] final(agents)@[k]) == old(agents)@[k]
                || (exists|t: int|
                0 <= t < requests@.len() && (#[trigger] requests@[t]).agent_id == old(
                    agents)@[k].id && rerouted_at(old(agents)@[k], final(agents)@[k],
                    requests@[t].avoid_point, walls@, movement, dims)),
        forall|k: int| 0 <= k < final(agents)@.len() ==> (#[trigger] final(agents)@[k]).wf(dims),
        groups_spec(requests@).len() == 1 ==> (forall|pi: int|
            0 <= pi < sole_group_plan(old(agents)@, requests@, dims).len()
                && entry_would_replan(old(agents)@,
                (#[trigger] sole_group_plan(old(agents)@, requests@, dims)[pi]).0,
                sole_group_plan(old(agents)@, requests@, dims)[pi].1, walls@, movement, dims)
                ==> exists|k: int|
                0 <= k < old(agents)@.len() && (#[trigger] old(agents)@[k]).id
                    == sole_group_plan(old(agents)@, requests@, dims)[pi].0 && (forall|t: int|
                    0 <= t < k ==> (#[trigger] old(agents)@[t]).id != sole_group_plan(
                        old(agents)@, requests@, dims)[pi].0) && rerouted_at(old(agents)@[k],
                    final(agents)@[k], groups_spec(requests@)[0].0, walls@, movement, dims)),
        groups_spec(requests@).len() == 1 ==> final(stats).recalculations == sat_usize(
            old(stats).recalculations + count_replans(old(agents)@, sole_group_plan(
                old(agents)@, requests@, dims), walls@, movement, dims, sole_group_plan(
                old(agents)@, requests@, dims).len() as int)),
        final(stats).recalculations >= old(stats).recalculations,
        final(stats).collisions == old(stats).collisions,
        final(stats).detections == old(stats).detections,
        final(stats).total_path_length == old(stats).total_path_length,
        final(stats).total_steps == old(stats).total_steps,
{
    let groups = group_requests(requests);
    let mut gi: usize = 0;
    while gi < groups.len()
        invariant
            dims.wf(),
            groups_view(groups@) == groups_spec(requests@),
            forall|t: int|
                0 <= t < requests@.len() ==> in_bounds_spec(
                    (#[trigger] requests@[t]).avoid_point, dims),
            gi <= groups@.len(),
            agents@.len() == old(agents)@.len(),
            forall|k: int|
                0 <= k < old(agents)@.len() ==> (#[trigger] agents@[k]) == old(agents)@[k]
                    || (exists|t: int|
                    0 <= t < requests@.len() && (#[trigger] requests@[t]).agent_id == old(
                        agents)@[k].id && rerouted_at(old(agents)@[k], agents@[k],
                        requests@[t].avoid_point, walls@, movement, dims)),
            forall|k: int| 0 <= k < agents@.len() ==> (#[trigger] agents@[k]).wf(dims),
            core_kept(old(agents)@, agents@),
            gi == 0 ==> agents@ == old(agents)@ && stats.recalculations == old(
                stats).recalculations,
            groups_view(groups@).len() == 1 && gi >= 1 ==> (forall|pi: int|
                0 <= pi < sole_group_plan(old(agents)@, requests@, dims).len()
                    && entry_would_replan(old(agents)@,
                    (#[trigger] sole_group_plan(old(agents)@, requests@, dims)[pi]).0,
                    sole_group_plan(old(agents)@, requests@, dims)[pi].1, walls@, movement,
                    dims) ==> exists|k: int|
                    0 <= k < old(agents)@.len() && (#[trigger] old(agents)@[k]).id
                        == sole_group_plan(old(agents)@, requests@, dims)[pi].0 && (forall|
                        t: int|
                        0 <= t < k ==> (#[trigger] old(agents)@[t]).id != sole_group_plan(
                            old(agents)@, requests@, dims)[pi].0) && rerouted_at(
                        old(agents)@[k], agents@[k], groups_spec(requests@)[0].0, walls@,
                        movement, dims)),
            groups_view(groups@).len() == 1 && gi >= 1 ==> stats.recalculations == sat_usize(
                old(stats).recalculations + count_replans(old(agents)@, sole_group_plan(
                    old(agents)@, requests@, dims), walls@, movement, dims, sole_group_plan(
                    old(agents)@, requests@, dims).len() as int)),
            stats.recalculations >= old(stats).recalculations,
            stats.collisions == old(stats).collisions,
            stats.detections == old(stats).detections,
            stats.total_path_length == old(stats).total_path_length,
            stats.total_steps == old(stats).total_steps,
        decreases groups@.len() - gi,
    {
        let point = groups[gi].point;
        proof {
            lemma_groups_nonempty(requests@, gi as int);
            assert(groups_view(groups@)[gi as int] == group_view(groups@[gi as int]));
            lemma_groups_entry(requests@, gi as int, 0);
        }
        let plan = compute_avoidance_plan(agents, &groups[gi].agent_ids, point, dims);
        proof {
            if groups_view(groups@).len() == 1 && gi == 0 {
                assert(groups_view(groups@)[0] == group_view(groups@[0]));
                assert(groups_spec(requests@)[0].0 == point);
                assert(groups_spec(requests@)[0].1 == groups@[0].agent_ids@);
                assert(entries_view(plan@) == sole_group_plan(old(agents)@, requests@, dims));
            }
        }
        let mut pi: usize = 0;
        while pi < plan.len()
            invariant
                dims.wf(),
                in_bounds_spec(point, dims),
                groups_view(groups@) == groups_spec(requests@),
                gi < groups@.len(),
                groups@[gi as int].point == point,
                forall|t: int|
                    0 <= t < requests@.len() ==> in_bounds_spec(
                        (#[trigger] requests@[t]).avoid_point, dims),
                pi <= plan@.len(),
                forall|u: int|
                    0 <= u < plan@.len() ==> small_dir((#[trigger] plan@[u]).steer)
                        && plan@[u].avoid@.contains(point)
                        && groups@[gi as int].agent_ids@.contains(plan@[u].agent_id),
                agents@.len() == old(agents)@.len(),
                forall|k: int|
                    0 <= k < old(agents)@.len() ==> (#[trigger] agents@[k]) == old(agents)@[k]
                        || (exists|t: int|
                        0 <= t < requests@.len() && (#[trigger] requests@[t]).agent_id == old(
                            agents)@[k].id && rerouted_at(old(agents)@[k], agents@[k],
                            requests@[t].avoid_point, walls@, movement, dims)),
                forall|k: int| 0 <= k < agents@.len() ==> (#[trigger] agents@[k]).wf(dims),
                core_kept(old(agents)@, agents@),
                groups_view(groups@).len() == 1 && gi == 0 ==> ({
                    &&& entries_view(plan@) == sole_group_plan(old(agents)@, requests@, dims)
                    &&& point == groups_spec(requests@)[0].0
                    &&& stats.recalculations == sat_usize(old(stats).recalculations
                        + count_replans(old(agents)@, entries_view(plan@), walls@, movement,
                        dims, pi as int))
                    &&& (forall|u: int|
                        0 <= u < pi && entry_would_replan(old(agents)@,
                            (#[trigger] entries_view(plan@)[u]).0, entries_view(plan@)[u].1,
                            walls@, movement, dims) ==> exists|k: int|
                            0 <= k < old(agents)@.len() && (#[trigger] old(agents)@[k]).id
                                == entries_view(plan@)[u].0 && (forall|t: int|
                                0 <= t < k ==> (#[trigger] old(agents)@[t]).id
                                    != entries_view(plan@)[u].0) && rerouted_at(
                                old(agents)@[k], agents@[k], point, walls@, movement, dims))
                }),
                stats.recalculations >= old(stats).recalculations,
                stats.collisions == old(stats).collisions,
                stats.detections == old(stats).detections,
                stats.total_path_length == old(stats).total_path_length,
                stats.total_steps == old(stats).total_steps,
            decreases plan@.len() - pi,
        {
            let ghost mid = agents@;
            let ghost recalcs_mid = stats.recalculations;
            apply_entry(agents, &plan[pi], point, walls, movement, dims, stats);
            proof {
                // identity, position and goal survive every replan
                assert(core_kept(old(agents)@, agents@)) by {
                    assert forall|k: int|
                        0 <= k < old(agents)@.len() implies (#[trigger] agents@[k]).id
                            == old(agents)@[k].id && agents@[k].start_point
                            == old(agents)@[k].start_point && agents@[k].end_point
                            == old(agents)@[k].end_point && agents@[k].current_point
                            == old(agents)@[k].current_point by {
                        if agents@[k] != mid[k] {
                            assert(rerouted_at(mid[k], agents@[k], point, walls@, movement,
                                dims));
                        }
                    }
                }
                if groups_view(groups@).len() == 1 && gi == 0 {
                    let entv = entries_view(plan@)[pi as int];
                    assert(entv == entry_view(plan@[pi as int]));
                    assert(entv.0 == plan@[pi as int].agent_id);
                    assert(entv.1 == plan@[pi as int].avoid@);
                    lemma_replan_cond_stable(old(agents)@, mid, plan@[pi as int].agent_id,
                        plan@[pi as int].avoid@, walls@, movement, dims, 0);
                    let cond = entry_would_replan(old(agents)@, entv.0, entv.1, walls@,
                        movement, dims);
                    lemma_count_replans_nonneg(old(agents)@, entries_view(plan@), walls@,
                        movement, dims, pi as int);
                    assert(count_replans(old(agents)@, entries_view(plan@), walls@, movement,
                        dims, pi as int + 1) == count_replans(old(agents)@, entries_view(plan@),
                        walls@, movement, dims, pi as int) + (if cond {
                        1int
                    } else {
                        0int
                    }));
                    if cond {
                        // the entry's replan succeeded: locate the replanned agent
                        let k = choose|k: int|
                            0 <= k < mid.len() && (#[trigger] mid[k]).id
                                == plan@[pi as int].agent_id && (forall|t: int|
                                0 <= t < k ==> (#[trigger] mid[t]).id
                                    != plan@[pi as int].agent_id) && replanned_with(mid[k],
                                agents@[k], plan@[pi as int].avoid@, walls@, movement, dims)
                                && (forall|t: int|
                                0 <= t < mid.len() && t != k ==> #[trigger] agents@[t]
                                    == mid[t]);
                        lemma_replanned_rerouted(mid[k], agents@[k], plan@[pi as int].avoid@,
                            point, walls@, movement, dims);
                        assert(rerouted_at(old(agents)@[k], agents@[k], point, walls@, movement,
                            dims));
                        assert(old(agents)@[k].id == entv.0);
                        assert forall|t: int| 0 <= t < k implies (#[trigger] old(agents)@[t]).id
                            != entv.0 by {
                            assert(mid[t].id == old(agents)@[t].id);
                        }
                        // conclusions of earlier entries survive: only the
                        // agent of this entry changed, and it stays rerouted
                        assert forall|u: int|
                            0 <= u < pi as int + 1 && entry_would_replan(old(agents)@,
                                (#[trigger] entries_view(plan@)[u]).0, entries_view(plan@)[u].1,
                                walls@, movement, dims) implies exists|kk: int|
                                0 <= kk < old(agents)@.len() && (#[trigger] old(agents)@[kk]).id
                                    == entries_view(plan@)[u].0 && (forall|t: int|
                                    0 <= t < kk ==> (#[trigger] old(agents)@[t]).id
                                        != entries_view(plan@)[u].0) && rerouted_at(
                                    old(agents)@[kk], agents@[kk], point, walls@, movement,
                                    dims) by {
                            if u < pi as int {
                                let kk = choose|kk: int|
                                    0 <= kk < old(agents)@.len() && (#[trigger] old(
                                        agents)@[kk]).id == entries_view(plan@)[u].0 && (forall|
                                        t: int|
                                        0 <= t < kk ==> (#[trigger] old(agents)@[t]).id
                                            != entries_view(plan@)[u].0) && rerouted_at(
                                        old(agents)@[kk], mid[kk], point, walls@, movement,
                                        dims);
                                if kk != k {
                                    assert(agents@[kk] == mid[kk]);
                                }
                            }
                        }
                    } else {
                        assert(agents@ == mid);
                    }
                }
                assert forall|k: int|
                    0 <= k < old(agents)@.len() implies (#[trigger] agents@[k]) == old(agents)@[k]
                        || (exists|t: int|
                        0 <= t < requests@.len() && (#[trigger] requests@[t]).agent_id == old(
                            agents)@[k].id && rerouted_at(old(agents)@[k], agents@[k],
                            requests@[t].avoid_point, walls@, movement, dims)) by {
                    if agents@[k] != mid[k] {
                        // this agent was just rerouted around `point`
                        assert(agents@[k].id == plan@[pi as int].agent_id);
                        assert(rerouted_at(mid[k], agents@[k], point, walls@, movement, dims));
                        assert(mid[k].id == old(agents)@[k].id
                            && mid[k].current_point == old(agents)@[k].current_point
                            && mid[k].end_point == old(agents)@[k].end_point
                            && mid[k].start_point == old(agents)@[k].start_point);
                        assert(rerouted_at(old(agents)@[k], agents@[k], point, walls@, movement,
                            dims));
                        let idv = agents@[k].id;
                        assert(groups@[gi as int].agent_ids@.contains(idv));
                        let ii = choose|ii: int|
                            0 <= ii < groups@[gi as int].agent_ids@.len()
                                && groups@[gi as int].agent_ids@[ii] == idv;
                        assert(groups_view(groups@)[gi as int] == group_view(groups@[gi as int]));
                        lemma_groups_entry(requests@, gi as int, ii);
                    }
                }
            }
            pi = pi + 1;
        }
        gi = gi + 1;
    }
}

/// Reroute effect: after one reroute pass whose requests all name the same
/// conflict cell, every agent whose path was actually replaced excludes that
/// cell from its whole remaining path - in particular from its refreshed
/// two-cell lookahead - and its new path still ends at its original goal.
pub proof fn lemma_reroute_excludes_point(
    pre: Agent,
    post: Agent,
    reqs: Seq<RerouteRequest>,
    walls: Seq<Node>,
    m: Movement,
    dims: GridDims,
    p: Node,
)
    requires
        post == pre || (exists|t: int|
            0 <= t < reqs.len() && (#[trigger] reqs[t]).agent_id == pre.id && rerouted_at(
                pre, post, reqs[t].avoid_point, walls, m, dims)),
        post != pre,
        forall|t: int| 0 <= t < reqs.len() ==> (#[trigger] reqs[t]).avoid_point == p,
    ensures
        forall|k: int| 0 <= k < post.forward_path@.len() ==> post.forward_path@[k] != p,
        post.path matches Some(q) ==> q@.last() == pre.end_point->0,
{
    let t = choose|t: int|
        0 <= t < reqs.len() && (#[trigger] reqs[t]).agent_id == pre.id && rerouted_at(
            pre, post, reqs[t].avoid_point, walls, m, dims);
    assert(reqs[t].avoid_point == p);
    let q = post.path->0;
    assert(path_connects(q@, pre.current_point, pre.end_point->0, walls, Seq::empty(), m, dims));
    assert(forall|k: int| 0 < k < q@.len() ==> q@[k] != p);
    assert(post.forward_path@ == post.forward_spec());
    assert forall|k: int| 0 <= k < post.forward_path@.len() implies post.forward_path@[k] != p by {
        assert(post.path_index == 0);
        assert(post.forward_spec().len() <= 2);
        if post.forward_spec().len() >= 1 {
            assert(post.forward_spec()[0] == q@[1]);
        }
        if post.forward_spec().len() == 2 {
            assert(post.forward_spec()[1] == q@[2]);
        }
    }
}

} // verus!
