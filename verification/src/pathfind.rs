//! The A* pathfinder: a priority-queue search over the grid, optionally
//! biased away from a forbidden cell set and toward a preferred heading.

use vstd::prelude::*;
use vstd::pervasive::VecAdditionalExecFns;
use crate::grid::{
    Node, GridDims, MAX_DIM, in_bounds_spec, small_dir, node_index, cell_index,
    lemma_node_index_bijective, contains_node, move_dir, dot, negate,
};
use crate::movement::{
    Movement, adjacent_spec, neighbor_seq, delta_seq, lemma_neighbor_seq_adjacent,
    lemma_adjacent_unit_step,
};

verus! {

/// A sequence of nodes is a walk from `start` to `end`: consecutive nodes are
/// adjacent under `m`, every node is on the grid, and no node except the
/// first (which is never pre-filtered) lies in `walls` or `avoid`.
pub open spec fn path_connects(
    p: Seq<Node>,
    start: Node,
    end: Node,
    walls: Seq<Node>,
    avoid: Seq<Node>,
    m: Movement,
    dims: GridDims,
) -> bool {
    &&& p.len() >= 1
    &&& p[0] == start
    &&& p.last() == end
    &&& (forall|k: int| 0 <= k < p.len() ==> in_bounds_spec(#[trigger] p[k], dims))
    &&& (forall|k: int| 0 < k < p.len() ==> adjacent_spec(m, p[k - 1], #[trigger] p[k], dims))
    &&& (forall|k: int| 0 < k < p.len() ==> !walls.contains(#[trigger] p[k]) && !avoid.contains(p[k]))
}

/// Some walk connects `start` to `end` through the free cells.
pub open spec fn reachable(
    start: Node,
    end: Node,
    walls: Seq<Node>,
    avoid: Seq<Node>,
    m: Movement,
    dims: GridDims,
) -> bool {
    exists|p: Seq<Node>| path_connects(p, start, end, walls, avoid, m, dims)
}

/// A valid walk extended by one adjacent free node is again a valid walk.
pub proof fn lemma_path_extend(
    p: Seq<Node>,
    start: Node,
    v: Node,
    w: Node,
    walls: Seq<Node>,
    avoid: Seq<Node>,
    m: Movement,
    dims: GridDims,
)
    requires
        path_connects(p, start, v, walls, avoid, m, dims),
        adjacent_spec(m, v, w, dims),
        !walls.contains(w),
        !avoid.contains(w),
    ensures
        path_connects(p.push(w), start, w, walls, avoid, m, dims),
{
    let q = p.push(w);
    assert(q.last() == w);
    assert(forall|k: int| 0 <= k < p.len() ==> q[k] == p[k]);
    assert(q[p.len() as int] == w);
    assert(forall|k: int| 0 < k < q.len() ==> adjacent_spec(m, q[k - 1], #[trigger] q[k], dims)) by {
        assert(forall|k: int| 0 < k < p.len() ==> adjacent_spec(m, p[k - 1], #[trigger] p[k], dims));
        assert(q[p.len() - 1] == v);
    }
}

/// No-path correctness: when every on-grid neighbor of `goal` is a wall and
/// the (distinct, un-walled) start lies outside, no walk reaches `goal`, so
/// `find_path` reports `None`.
pub proof fn lemma_enclosed_goal_unreachable(
    start: Node,
    goal: Node,
    walls: Seq<Node>,
    avoid: Seq<Node>,
    m: Movement,
    dims: GridDims,
)
    requires
        dims.wf(),
        start != goal,
        !walls.contains(start),
        forall|v: Node|
            in_bounds_spec(v, dims) && #[trigger] adjacent_spec(m, v, goal, dims)
                ==> walls.contains(v),
    ensures
        !reachable(start, goal, walls, avoid, m, dims),
{
    if reachable(start, goal, walls, avoid, m, dims) {
        let p = choose|p: Seq<Node>| path_connects(p, start, goal, walls, avoid, m, dims);
        assert(p.len() >= 2);
        let q = p[p.len() - 2];
        assert(adjacent_spec(m, q, p[p.len() - 1], dims));
        assert(in_bounds_spec(q, dims));
        assert(walls.contains(q));
        if p.len() == 2 {
            assert(q == start);
        } else {
            assert(!walls.contains(p[p.len() - 2]));
        }
    }
}

// ---------------------------------------------------------------------------
// Saturating 64-bit cost arithmetic
// ---------------------------------------------------------------------------

/// Clamp a mathematical integer into the 64-bit range.
pub open spec fn sat64(v: int) -> int {
    if v > i64::MAX {
        i64::MAX as int
    } else if v < i64::MIN {
        i64::MIN as int
    } else {
        v
    }
}

/// Saturating signed addition, used for step costs so that extreme bias
/// values can never overflow.
pub fn sat_add64(a: i64, b: i64) -> (r: i64)
    ensures
        r == sat64(a + b),
{
    if b >= 0 {
        if a > i64::MAX - b {
            i64::MAX
        } else {
            a + b
        }
    } else {
        if a < i64::MIN - b {
            i64::MIN
        } else {
            a + b
        }
    }
}

// ---------------------------------------------------------------------------
// Heuristic
// ---------------------------------------------------------------------------

pub open spec fn abs_int(v: int) -> int {
    if v >= 0 {
        v
    } else {
        -v
    }
}

/// Manhattan distance between two nodes.
pub open spec fn h_spec(a: Node, b: Node) -> int {
    abs_int(a.x - b.x) + abs_int(a.y - b.y)
}

pub fn heuristic(a: Node, b: Node) -> (r: i64)
    requires
        -MAX_DIM <= a.x <= MAX_DIM,
        -MAX_DIM <= a.y <= MAX_DIM,
        -MAX_DIM <= b.x <= MAX_DIM,
        -MAX_DIM <= b.y <= MAX_DIM,
    ensures
        r == h_spec(a, b),
{
    let dx = (a.x as i64) - (b.x as i64);
    let dy = (a.y as i64) - (b.y as i64);
    let adx = if dx >= 0 { dx } else { -dx };
    let ady = if dy >= 0 { dy } else { -dy };
    adx + ady
}

// ---------------------------------------------------------------------------
// Search state bookkeeping
// ---------------------------------------------------------------------------

/// A pending entry of the open list: a node and its priority (cost so far
/// plus heuristic).
struct SearchEntry {
    f: i64,
    node: Node,
}

/// The node has been discovered: a best-so-far walk to it is on record.
spec fn reached(paths: Seq<Option<Vec<Node>>>, v: Node, dims: GridDims) -> bool {
    paths[node_index(v, dims)] is Some
}

/// Every recorded walk really connects `start` to its node.
spec fn inv_paths(
    paths: Seq<Option<Vec<Node>>>,
    start: Node,
    walls: Seq<Node>,
    avoid: Seq<Node>,
    m: Movement,
    dims: GridDims,
) -> bool {
    forall|v: Node|
        in_bounds_spec(v, dims) && (#[trigger] paths[node_index(v, dims)]) is Some
            ==> path_connects(paths[node_index(v, dims)]->0@, start, v, walls, avoid, m, dims)
}

/// The node has an entry in the open list.
spec fn in_open(open: Seq<SearchEntry>, v: Node) -> bool {
    exists|k: int| 0 <= k < open.len() && open[k].node == v
}

/// The open list holds an entry for `n` with priority `fv`.
spec fn has_entry(open: Seq<SearchEntry>, n: Node, fv: int) -> bool {
    exists|k: int| 0 <= k < open.len() && open[k].node == n && open[k].f == fv
}

/// Every open entry refers to an on-grid, discovered node.
spec fn inv_open(open: Seq<SearchEntry>, paths: Seq<Option<Vec<Node>>>, dims: GridDims) -> bool {
    forall|k: int|
        0 <= k < open.len() ==> in_bounds_spec((#[trigger] open[k]).node, dims)
            && reached(paths, open[k].node, dims)
}

/// A discovered node that has not been expanded yet still waits in the open
/// list.
spec fn inv_frontier(
    paths: Seq<Option<Vec<Node>>>,
    expanded: Seq<bool>,
    open: Seq<SearchEntry>,
    dims: GridDims,
) -> bool {
    forall|v: Node|
        in_bounds_spec(v, dims) && #[trigger] reached(paths, v, dims)
            && !expanded[node_index(v, dims)] ==> in_open(open, v)
}

/// Expanded nodes are discovered, and all their free neighbors are
/// discovered too.
spec fn inv_closure(
    paths: Seq<Option<Vec<Node>>>,
    expanded: Seq<bool>,
    walls: Seq<Node>,
    avoid: Seq<Node>,
    m: Movement,
    dims: GridDims,
) -> bool {
    &&& (forall|v: Node|
        in_bounds_spec(v, dims) && #[trigger] expanded[node_index(v, dims)]
            ==> reached(paths, v, dims))
    &&& (forall|v: Node, w: Node|
        in_bounds_spec(v, dims) && expanded[node_index(v, dims)]
            && #[trigger] adjacent_spec(m, v, w, dims) && !walls.contains(w)
            && !avoid.contains(w) ==> reached(paths, w, dims))
}

/// Number of `true` entries of a boolean sequence.
spec fn count_trues(s: Seq<bool>) -> int
    decreases s.len(),
{
    if s.len() == 0 {
        0
    } else {
        (if s[0] {
            1int
        } else {
            0int
        }) + count_trues(s.drop_first())
    }
}

proof fn lemma_count_trues_bounds(s: Seq<bool>)
    ensures
        0 <= count_trues(s) <= s.len(),
    decreases s.len(),
{
    if s.len() > 0 {
        lemma_count_trues_bounds(s.drop_first());
    }
}

proof fn lemma_count_trues_all_false(s: Seq<bool>)
    requires
        forall|i: int| 0 <= i < s.len() ==> !s[i],
    ensures
        count_trues(s) == 0,
    decreases s.len(),
{
    if s.len() > 0 {
        assert(forall|i: int| 0 <= i < s.drop_first().len() ==> !s.drop_first()[i]);
        lemma_count_trues_all_false(s.drop_first());
    }
}

/// Marking a `false` slot `true` raises the count by one, and the count was
/// below the length beforehand.
proof fn lemma_count_trues_set(s: Seq<bool>, i: int)
    requires
        0 <= i < s.len(),
        !s[i],
    ensures
        count_trues(s.update(i, true)) == count_trues(s) + 1,
        count_trues(s) <= s.len() - 1,
    decreases s.len(),
{
    lemma_count_trues_bounds(s.drop_first());
    if i == 0 {
        assert(s.update(0, true).drop_first() =~= s.drop_first());
    } else {
        lemma_count_trues_set(s.drop_first(), i - 1);
        assert(s.update(i, true).drop_first() =~= s.drop_first().update(i - 1, true));
        assert(s.update(i, true)[0] == s[0]);
    }
}

/// Build a column of `n` empty slots.
fn none_column<T>(n: usize) -> (v: Vec<Option<T>>)
    ensures
        v@.len() == n,
        forall|i: int| 0 <= i < n ==> v@[i] is None,
{
    let mut v: Vec<Option<T>> = Vec::new();
    let mut k: usize = 0;
    while k < n
        invariant
            k <= n,
            v@.len() == k,
            forall|i: int| 0 <= i < k ==> v@[i] is None,
        decreases n - k,
    {
        v.push(None);
        k = k + 1;
    }
    v
}

/// Build a column of `n` cleared flags.
fn false_column(n: usize) -> (v: Vec<bool>)
    ensures
        v@.len() == n,
        forall|i: int| 0 <= i < n ==> !v@[i],
{
    let mut v: Vec<bool> = Vec::new();
    let mut k: usize = 0;
    while k < n
        invariant
            k <= n,
            v@.len() == k,
            forall|i: int| 0 <= i < k ==> !v@[i],
        decreases n - k,
    {
        v.push(false);
        k = k + 1;
    }
    v
}

/// Copy a list of nodes.
pub fn clone_nodes(p: &Vec<Node>) -> (r: Vec<Node>)
    ensures
        r@ == p@,
{
    let mut r: Vec<Node> = Vec::new();
    let mut k: usize = 0;
    while k < p.len()
        invariant
            k <= p@.len(),
            r@ == p@.take(k as int),
        decreases p@.len() - k,
    {
        let x = p[k];
        r.push(x);
        proof {
            assert(p@.take(k + 1 as int) =~= p@.take(k as int).push(p@[k as int]));
        }
        k = k + 1;
    }
    proof {
        assert(p@.take(p@.len() as int) =~= p@);
    }
    r
}

/// Copy the walk recorded for slot `i`.
fn stored_path(paths: &Vec<Option<Vec<Node>>>, i: usize) -> (r: Vec<Node>)
    requires
        i < paths@.len(),
        paths@[i as int] is Some,
    ensures
        paths@[i as int] matches Some(p) && r@ == p@,
{
    match &paths[i] {
        Some(p) => clone_nodes(p),
        None => {
            proof {
                assert(false);
            }
            Vec::new()
        }
    }
}

/// Walking a valid path from `start`, every node is discovered once the
/// search has closed every discovered node.
proof fn lemma_reached_along(
    paths: Seq<Option<Vec<Node>>>,
    expanded: Seq<bool>,
    start: Node,
    walls: Seq<Node>,
    avoid: Seq<Node>,
    m: Movement,
    dims: GridDims,
    p: Seq<Node>,
    k: int,
)
    requires
        dims.wf(),
        inv_closure(paths, expanded, walls, avoid, m, dims),
        forall|v: Node|
            in_bounds_spec(v, dims) && #[trigger] reached(paths, v, dims)
                ==> expanded[node_index(v, dims)],
        reached(paths, start, dims),
        in_bounds_spec(start, dims),
        path_connects(p, start, p.last(), walls, avoid, m, dims),
        0 <= k < p.len(),
    ensures
        reached(paths, p[k], dims),
    decreases k,
{
    if k == 0 {
        assert(p[0] == start);
    } else {
        lemma_reached_along(paths, expanded, start, walls, avoid, m, dims, p, k - 1);
        assert(expanded[node_index(p[k - 1], dims)]);
        assert(adjacent_spec(m, p[k - 1], p[k], dims));
    }
}

/// All bookkeeping invariants of one search, bundled.
spec fn search_inv(
    g: Seq<Option<i64>>,
    paths: Seq<Option<Vec<Node>>>,
    expanded: Seq<bool>,
    open: Seq<SearchEntry>,
    remaining: int,
    start: Node,
    goal: Node,
    walls: Seq<Node>,
    avoid: Seq<Node>,
    m: Movement,
    dims: GridDims,
) -> bool {
    &&& dims.wf()
    &&& in_bounds_spec(start, dims)
    &&& in_bounds_spec(goal, dims)
    &&& g.len() == dims.cell_count()
    &&& paths.len() == dims.cell_count()
    &&& expanded.len() == dims.cell_count()
    &&& remaining == dims.cell_count() - count_trues(expanded)
    &&& (forall|i: int| 0 <= i < g.len() ==> ((#[trigger] g[i]) is Some <==> paths[i] is Some))
    &&& inv_paths(paths, start, walls, avoid, m, dims)
    &&& inv_open(open, paths, dims)
    &&& inv_frontier(paths, expanded, open, dims)
    &&& inv_closure(paths, expanded, walls, avoid, m, dims)
    &&& reached(paths, start, dims)
    &&& !expanded[node_index(goal, dims)]
}

/// The state bookkeeping that does not mention the open list.
spec fn base_inv(
    g: Seq<Option<i64>>,
    paths: Seq<Option<Vec<Node>>>,
    expanded: Seq<bool>,
    remaining: int,
    start: Node,
    goal: Node,
    walls: Seq<Node>,
    avoid: Seq<Node>,
    m: Movement,
    dims: GridDims,
) -> bool {
    &&& dims.wf()
    &&& in_bounds_spec(start, dims)
    &&& in_bounds_spec(goal, dims)
    &&& g.len() == dims.cell_count()
    &&& paths.len() == dims.cell_count()
    &&& expanded.len() == dims.cell_count()
    &&& remaining == dims.cell_count() - count_trues(expanded)
    &&& (forall|i: int| 0 <= i < g.len() ==> ((#[trigger] g[i]) is Some <==> paths[i] is Some))
    &&& inv_paths(paths, start, walls, avoid, m, dims)
    &&& inv_closure(paths, expanded, walls, avoid, m, dims)
    &&& reached(paths, start, dims)
    &&& !expanded[node_index(goal, dims)]
}

/// Remove and return the open entry with the lowest priority. Every other
/// entry survives, so membership of any other node is preserved.
fn pop_min(open: &mut Vec<SearchEntry>) -> (e: SearchEntry)
    requires
        old(open)@.len() > 0,
    ensures
        final(open)@.len() == old(open)@.len() - 1,
        exists|s: int| 0 <= s < old(open)@.len() && old(open)@[s] == e,
        forall|t: int|
            0 <= t < final(open)@.len() ==> exists|s: int|
                0 <= s < old(open)@.len() && old(open)@[s] == #[trigger] final(open)@[t],
        forall|v: Node| in_open(old(open)@, v) && v != e.node ==> #[trigger] in_open(final(open)@, v),
        forall|n: Node, fv: int|
            #[trigger] has_entry(old(open)@, n, fv) && n != e.node ==> has_entry(
                final(open)@, n, fv),
        forall|s: int| 0 <= s < old(open)@.len() ==> e.f <= (#[trigger] old(open)@[s]).f,
{
    let mut best: usize = 0;
    let mut bk: usize = 1;
    while bk < open.len()
        invariant
            open@.len() >= 1,
            best < open@.len(),
            1 <= bk <= open@.len(),
            forall|t: int| 0 <= t < bk ==> open@[best as int].f <= (#[trigger] open@[t]).f,
        decreases open@.len() - bk,
    {
        if open[bk].f < open[best].f {
            best = bk;
        }
        bk = bk + 1;
    }
    let ghost open0 = open@;
    let e = open.swap_remove(best);
    proof {
        assert(e == open0[best as int]);
        assert forall|t: int| 0 <= t < open@.len() implies exists|s: int|
            0 <= s < open0.len() && open0[s] == #[trigger] open@[t] by {
            if t == best {
                assert(open0[open0.len() - 1] == open@[t]);
            } else {
                assert(open0[t] == open@[t]);
            }
        }
        assert forall|v: Node| in_open(open0, v) && v != e.node implies
            #[trigger] in_open(open@, v) by {
            let k = choose|k: int| 0 <= k < open0.len() && open0[k].node == v;
            if k == best {
                assert(open0[k] == e);
                assert(false);
            } else if k == open0.len() - 1 {
                assert(open@[best as int] == open0[k]);
            } else {
                assert(open@[k] == open0[k]);
            }
        }
        assert forall|n: Node, fv: int|
            #[trigger] has_entry(open0, n, fv) && n != e.node implies has_entry(
            open@, n, fv) by {
            let k = choose|k: int| 0 <= k < open0.len() && open0[k].node == n && open0[k].f == fv;
            if k == best {
                assert(open0[k] == e);
                assert(false);
            } else if k == open0.len() - 1 {
                assert(open@[best as int] == open0[k]);
            } else {
                assert(open@[k] == open0[k]);
            }
        }
    }
    e
}

/// Marking a discovered node expanded preserves the bookkeeping: the
/// frontier shrinks only by that node, and every other expanded flag is
/// unchanged.
proof fn lemma_mark_expanded(
    paths: Seq<Option<Vec<Node>>>,
    expanded0: Seq<bool>,
    expanded: Seq<bool>,
    open: Seq<SearchEntry>,
    node: Node,
    walls: Seq<Node>,
    avoid: Seq<Node>,
    m: Movement,
    dims: GridDims,
)
    requires
        dims.wf(),
        expanded0.len() == dims.cell_count(),
        in_bounds_spec(node, dims),
        expanded == expanded0.update(node_index(node, dims), true),
        reached(paths, node, dims),
        inv_closure(paths, expanded0, walls, avoid, m, dims),
        forall|v: Node|
            in_bounds_spec(v, dims) && #[trigger] reached(paths, v, dims)
                && !expanded0[node_index(v, dims)] && v != node ==> in_open(open, v),
    ensures
        forall|v: Node|
            in_bounds_spec(v, dims) && #[trigger] expanded[node_index(v, dims)]
                ==> reached(paths, v, dims),
        inv_frontier(paths, expanded, open, dims),
        forall|v: Node, w: Node|
            in_bounds_spec(v, dims) && v != node && expanded[node_index(v, dims)]
                && #[trigger] adjacent_spec(m, v, w, dims) && !walls.contains(w)
                && !avoid.contains(w) ==> reached(paths, w, dims),
{
    lemma_node_index_bijective(node, node, dims);
    assert forall|v: Node| in_bounds_spec(v, dims) && v != node implies
        node_index(v, dims) != node_index(node, dims) && 0 <= node_index(v, dims)
            < dims.cell_count() by {
        lemma_node_index_bijective(v, node, dims);
    }
    assert forall|v: Node|
        in_bounds_spec(v, dims) && #[trigger] expanded[node_index(v, dims)] implies
        reached(paths, v, dims) by {
        if v != node {
            assert(expanded0[node_index(v, dims)]);
        }
    }
    assert forall|v: Node|
        in_bounds_spec(v, dims) && #[trigger] reached(paths, v, dims)
            && !expanded[node_index(v, dims)] implies in_open(open, v) by {
        assert(v != node);
        assert(!expanded0[node_index(v, dims)]);
    }
    assert forall|v: Node, w: Node|
        in_bounds_spec(v, dims) && v != node && expanded[node_index(v, dims)]
            && #[trigger] adjacent_spec(m, v, w, dims) && !walls.contains(w)
            && !avoid.contains(w) implies reached(paths, w, dims) by {
        assert(expanded0[node_index(v, dims)]);
    }
}

/// Recording an improved walk for one node and pushing its open entry
/// preserves the bookkeeping, and discovery is monotone.
proof fn lemma_relax_update(
    paths0: Seq<Option<Vec<Node>>>,
    paths: Seq<Option<Vec<Node>>>,
    open0: Seq<SearchEntry>,
    open: Seq<SearchEntry>,
    expanded: Seq<bool>,
    npv: Vec<Node>,
    e: SearchEntry,
    nb: Node,
    start: Node,
    walls: Seq<Node>,
    avoid: Seq<Node>,
    m: Movement,
    dims: GridDims,
)
    requires
        dims.wf(),
        paths0.len() == dims.cell_count(),
        in_bounds_spec(nb, dims),
        paths == paths0.update(node_index(nb, dims), Some(npv)),
        open == open0.push(e),
        e.node == nb,
        path_connects(npv@, start, nb, walls, avoid, m, dims),
        inv_paths(paths0, start, walls, avoid, m, dims),
        inv_open(open0, paths0, dims),
        inv_frontier(paths0, expanded, open0, dims),
    ensures
        forall|v: Node|
            in_bounds_spec(v, dims) && #[trigger] reached(paths0, v, dims)
                ==> reached(paths, v, dims),
        reached(paths, nb, dims),
        inv_paths(paths, start, walls, avoid, m, dims),
        inv_open(open, paths, dims),
        inv_frontier(paths, expanded, open, dims),
{
    let ni = node_index(nb, dims);
    lemma_node_index_bijective(nb, nb, dims);
    assert forall|v: Node| in_bounds_spec(v, dims) && v != nb implies
        node_index(v, dims) != ni && 0 <= node_index(v, dims) < dims.cell_count() by {
        lemma_node_index_bijective(v, nb, dims);
    }
    assert forall|v: Node|
        in_bounds_spec(v, dims) && #[trigger] reached(paths0, v, dims) implies
        reached(paths, v, dims) by {
        if v != nb {
            assert(paths[node_index(v, dims)] == paths0[node_index(v, dims)]);
        }
    }
    assert(reached(paths, nb, dims));
    assert(inv_paths(paths, start, walls, avoid, m, dims)) by {
        assert forall|v: Node|
            in_bounds_spec(v, dims) && (#[trigger] paths[node_index(v, dims)]) is Some implies
            path_connects(paths[node_index(v, dims)]->0@, start, v, walls, avoid, m, dims) by {
            if v == nb {
                assert(paths[node_index(nb, dims)]->0@ == npv@);
            } else {
                assert(paths[node_index(v, dims)] == paths0[node_index(v, dims)]);
            }
        }
    }
    assert(inv_open(open, paths, dims)) by {
        assert forall|k: int| 0 <= k < open.len() implies
            in_bounds_spec((#[trigger] open[k]).node, dims)
                && reached(paths, open[k].node, dims) by {
            if k < open.len() - 1 {
                assert(open[k] == open0[k]);
                assert(reached(paths0, open[k].node, dims));
            } else {
                assert(open[k].node == nb);
            }
        }
    }
    assert(inv_frontier(paths, expanded, open, dims)) by {
        assert forall|v: Node|
            in_bounds_spec(v, dims) && #[trigger] reached(paths, v, dims)
                && !expanded[node_index(v, dims)] implies in_open(open, v) by {
            if v == nb {
                assert(open[open.len() - 1].node == nb);
            } else {
                assert(reached(paths0, v, dims));
                assert(in_open(open0, v));
                let k = choose|k: int| 0 <= k < open0.len() && open0[k].node == v;
                assert(open[k].node == v);
            }
        }
    }
}

// ---------------------------------------------------------------------------
// Optimality bookkeeping for the unbiased orthogonal search
// ---------------------------------------------------------------------------

/// The configuration under which the search is plain Dijkstra-with-heuristic:
/// no directional cost shaping, and 4-connected movement, for which the
/// Manhattan heuristic is consistent.
pub open spec fn unbiased(preferred: Option<Node>, m: Movement) -> bool {
    preferred is None && m == Movement::Orthogonal
}

/// Every recorded cost is exactly the length of the recorded walk, minus one.
spec fn opt_cost_ok(
    g: Seq<Option<i64>>,
    paths: Seq<Option<Vec<Node>>>,
    dims: GridDims,
) -> bool {
    forall|v: Node|
        in_bounds_spec(v, dims) && #[trigger] reached(paths, v, dims)
            ==> g[node_index(v, dims)] is Some && g[node_index(v, dims)]->0
                == paths[node_index(v, dims)]->0@.len() - 1
}

/// Costs never exceed the number of expanded nodes (each recorded walk grew
/// by one cell per expansion).
spec fn opt_g_bound(
    g: Seq<Option<i64>>,
    paths: Seq<Option<Vec<Node>>>,
    expanded: Seq<bool>,
    dims: GridDims,
) -> bool {
    forall|v: Node|
        in_bounds_spec(v, dims) && #[trigger] reached(paths, v, dims)
            ==> g[node_index(v, dims)]->0 <= count_trues(expanded)
}

/// Every open entry's priority is at least the node's current cost plus its
/// heuristic (entries go stale as costs improve, never the other way).
spec fn opt_entries_lb(
    open: Seq<SearchEntry>,
    g: Seq<Option<i64>>,
    goal: Node,
    dims: GridDims,
) -> bool {
    forall|k: int|
        0 <= k < open.len() ==> (#[trigger] open[k]).f >= g[node_index(open[k].node, dims)]->0
            + h_spec(open[k].node, goal)
}

/// Every discovered, unexpanded node has an exact entry: one whose priority
/// is its current cost plus its heuristic.
spec fn opt_tight(
    open: Seq<SearchEntry>,
    g: Seq<Option<i64>>,
    paths: Seq<Option<Vec<Node>>>,
    expanded: Seq<bool>,
    goal: Node,
    dims: GridDims,
) -> bool {
    forall|v: Node|
        in_bounds_spec(v, dims) && #[trigger] reached(paths, v, dims)
            && !expanded[node_index(v, dims)] ==> has_entry(open, v,
            g[node_index(v, dims)]->0 + h_spec(v, goal))
}

/// Expanding a node relaxed all its free unexpanded neighbors to within one
/// step of its cost.
spec fn opt_closure_cost(
    g: Seq<Option<i64>>,
    expanded: Seq<bool>,
    walls: Seq<Node>,
    avoid: Seq<Node>,
    m: Movement,
    dims: GridDims,
) -> bool {
    forall|v: Node, w: Node|
        in_bounds_spec(v, dims) && expanded[node_index(v, dims)]
            && #[trigger] adjacent_spec(m, v, w, dims) && !walls.contains(w)
            && !avoid.contains(w) && !expanded[node_index(w, dims)]
            ==> g[node_index(w, dims)]->0 <= g[node_index(v, dims)]->0 + 1
}

/// Every expanded node carries an optimal cost: no valid walk to it is
/// shorter than its recorded cost.
spec fn opt_expanded(
    g: Seq<Option<i64>>,
    expanded: Seq<bool>,
    start: Node,
    walls: Seq<Node>,
    avoid: Seq<Node>,
    m: Movement,
    dims: GridDims,
) -> bool {
    forall|v: Node, q: Seq<Node>|
        in_bounds_spec(v, dims) && expanded[node_index(v, dims)]
            && #[trigger] path_connects(q, start, v, walls, avoid, m, dims)
            ==> g[node_index(v, dims)]->0 <= q.len() - 1
}

/// All the cost bookkeeping of the unbiased orthogonal search, bundled.
spec fn opt_inv(
    g: Seq<Option<i64>>,
    paths: Seq<Option<Vec<Node>>>,
    expanded: Seq<bool>,
    open: Seq<SearchEntry>,
    start: Node,
    goal: Node,
    walls: Seq<Node>,
    avoid: Seq<Node>,
    m: Movement,
    dims: GridDims,
) -> bool {
    &&& opt_cost_ok(g, paths, dims)
    &&& opt_g_bound(g, paths, expanded, dims)
    &&& g[node_index(start, dims)] == Some(0i64)
    &&& opt_entries_lb(open, g, goal, dims)
    &&& opt_tight(open, g, paths, expanded, goal, dims)
    &&& opt_closure_cost(g, expanded, walls, avoid, m, dims)
    &&& opt_expanded(g, expanded, start, walls, avoid, m, dims)
}

/// A prefix of a valid walk is a valid walk to its last node.
proof fn lemma_path_prefix(
    q: Seq<Node>,
    start: Node,
    end: Node,
    walls: Seq<Node>,
    avoid: Seq<Node>,
    m: Movement,
    dims: GridDims,
    i: int,
)
    requires
        path_connects(q, start, end, walls, avoid, m, dims),
        0 <= i < q.len(),
    ensures
        path_connects(q.take(i + 1), start, q[i], walls, avoid, m, dims),
{
    let p = q.take(i + 1);
    assert(p.len() == i + 1);
    assert(forall|k: int| 0 <= k < p.len() ==> #[trigger] p[k] == q[k]);
    assert(p.last() == q[i]);
}

/// One orthogonal step changes the Manhattan distance to any target by at
/// most one.
proof fn lemma_h_step(a: Node, b: Node, goal: Node, dims: GridDims)
    requires
        dims.wf(),
        in_bounds_spec(a, dims),
        adjacent_spec(Movement::Orthogonal, a, b, dims),
    ensures
        h_spec(a, goal) <= 1 + h_spec(b, goal),
{
    let k = choose|k: int|
        0 <= k < delta_seq(Movement::Orthogonal).len() && b == crate::movement::node_add(a,
            #[trigger] delta_seq(Movement::Orthogonal)[k]);
    if k == 0 {
        assert(delta_seq(Movement::Orthogonal)[0] == Node { x: 1i32, y: 0i32 });
    } else if k == 1 {
        assert(delta_seq(Movement::Orthogonal)[1] == Node { x: -1i32, y: 0i32 });
    } else if k == 2 {
        assert(delta_seq(Movement::Orthogonal)[2] == Node { x: 0i32, y: 1i32 });
    } else {
        assert(delta_seq(Movement::Orthogonal)[3] == Node { x: 0i32, y: -1i32 });
    }
}

/// Along a valid orthogonal walk, the heuristic at any node is at most the
/// remaining walk length plus the heuristic at the walk's end.
proof fn lemma_h_along(
    q: Seq<Node>,
    start: Node,
    end: Node,
    goal: Node,
    walls: Seq<Node>,
    avoid: Seq<Node>,
    dims: GridDims,
    j: int,
)
    requires
        dims.wf(),
        path_connects(q, start, end, walls, avoid, Movement::Orthogonal, dims),
        0 <= j < q.len(),
    ensures
        h_spec(q[j], goal) <= (q.len() - 1 - j) + h_spec(end, goal),
    decreases q.len() - j,
{
    if j == q.len() - 1 {
        assert(q[j] == end);
    } else {
        lemma_h_along(q, start, end, goal, walls, avoid, dims, j + 1);
        assert(adjacent_spec(Movement::Orthogonal, q[j], q[j + 1], dims));
        assert(in_bounds_spec(q[j], dims));
        lemma_h_step(q[j], q[j + 1], goal, dims);
    }
}

/// Walking a valid path toward an unexpanded node, some node on the walk is
/// discovered, unexpanded, and has cost at most its position on the walk.
proof fn lemma_walk(
    g: Seq<Option<i64>>,
    paths: Seq<Option<Vec<Node>>>,
    expanded: Seq<bool>,
    q: Seq<Node>,
    i: int,
    start: Node,
    walls: Seq<Node>,
    avoid: Seq<Node>,
    m: Movement,
    dims: GridDims,
)
    requires
        dims.wf(),
        opt_closure_cost(g, expanded, walls, avoid, m, dims),
        opt_expanded(g, expanded, start, walls, avoid, m, dims),
        forall|v: Node|
            in_bounds_spec(v, dims) && #[trigger] expanded[node_index(v, dims)]
                ==> reached(paths, v, dims),
        forall|v: Node, w: Node|
            in_bounds_spec(v, dims) && expanded[node_index(v, dims)]
                && #[trigger] adjacent_spec(m, v, w, dims) && !walls.contains(w)
                && !avoid.contains(w) ==> reached(paths, w, dims),
        path_connects(q, start, q.last(), walls, avoid, m, dims),
        !expanded[node_index(q.last(), dims)],
        0 <= i < q.len(),
        reached(paths, q[i], dims),
        g[node_index(q[i], dims)]->0 <= i,
    ensures
        exists|j: int|
            i <= j < q.len() && reached(paths, #[trigger] q[j], dims) && !expanded[node_index(
                q[j], dims)] && g[node_index(q[j], dims)]->0 <= j,
    decreases q.len() - i,
{
    if !expanded[node_index(q[i], dims)] {
        assert(reached(paths, q[i], dims) && !expanded[node_index(q[i], dims)]
            && g[node_index(q[i], dims)]->0 <= i);
    } else {
        assert(i < q.len() - 1) by {
            if i == q.len() - 1 {
                assert(q[i] == q.last());
            }
        }
        let w = q[i + 1];
        assert(adjacent_spec(m, q[i], w, dims));
        assert(!walls.contains(w) && !avoid.contains(w));
        if expanded[node_index(w, dims)] {
            lemma_path_prefix(q, start, q.last(), walls, avoid, m, dims, i + 1);
            assert(path_connects(q.take(i + 2), start, w, walls, avoid, m, dims));
            assert(g[node_index(w, dims)]->0 <= q.take(i + 2).len() - 1);
            assert(reached(paths, w, dims));
        } else {
            assert(g[node_index(w, dims)]->0 <= g[node_index(q[i], dims)]->0 + 1);
            assert(reached(paths, w, dims));
        }
        lemma_walk(g, paths, expanded, q, i + 1, start, walls, avoid, m, dims);
    }
}

/// When an undiscovered-cost entry is popped with the lowest priority, its
/// node's recorded cost is optimal: no valid walk to it is shorter.
proof fn lemma_popped_is_optimal(
    g: Seq<Option<i64>>,
    paths: Seq<Option<Vec<Node>>>,
    expanded: Seq<bool>,
    open0: Seq<SearchEntry>,
    e: SearchEntry,
    start: Node,
    goal: Node,
    walls: Seq<Node>,
    avoid: Seq<Node>,
    dims: GridDims,
)
    requires
        dims.wf(),
        opt_inv(g, paths, expanded, open0, start, goal, walls, avoid, Movement::Orthogonal,
            dims),
        forall|v: Node|
            in_bounds_spec(v, dims) && #[trigger] expanded[node_index(v, dims)]
                ==> reached(paths, v, dims),
        forall|v: Node, w: Node|
            in_bounds_spec(v, dims) && expanded[node_index(v, dims)]
                && #[trigger] adjacent_spec(Movement::Orthogonal, v, w, dims)
                && !walls.contains(w) && !avoid.contains(w) ==> reached(paths, w, dims),
        reached(paths, start, dims),
        in_bounds_spec(start, dims),
        exists|s: int| 0 <= s < open0.len() && open0[s] == e,
        forall|s: int| 0 <= s < open0.len() ==> e.f <= (#[trigger] open0[s]).f,
        in_bounds_spec(e.node, dims),
        reached(paths, e.node, dims),
        !expanded[node_index(e.node, dims)],
    ensures
        forall|q: Seq<Node>|
            path_connects(q, start, e.node, walls, avoid, Movement::Orthogonal, dims)
                ==> g[node_index(e.node, dims)]->0 <= q.len() - 1,
{
    let v = e.node;
    assert forall|q: Seq<Node>|
        path_connects(q, start, v, walls, avoid, Movement::Orthogonal, dims) implies g[
        node_index(v, dims)]->0 <= q.len() - 1 by {
        assert(q[0] == start);
        assert(g[node_index(start, dims)]->0 == 0);
        assert(q.last() == v);
        lemma_walk(g, paths, expanded, q, 0, start, walls, avoid, Movement::Orthogonal, dims);
        let j = choose|j: int|
            0 <= j < q.len() && reached(paths, #[trigger] q[j], dims) && !expanded[node_index(
                q[j], dims)] && g[node_index(q[j], dims)]->0 <= j;
        assert(in_bounds_spec(q[j], dims));
        assert(has_entry(open0, q[j], g[node_index(q[j], dims)]->0 + h_spec(q[j], goal)));
        let k = choose|k: int|
            0 <= k < open0.len() && open0[k].node == q[j] && open0[k].f == g[
                node_index(q[j], dims)]->0 + h_spec(q[j], goal);
        lemma_h_along(q, start, v, goal, walls, avoid, dims, j);
        // e was popped with the lowest priority, and its own priority is at
        // least its node's cost plus heuristic
        let s = choose|s: int| 0 <= s < open0.len() && open0[s] == e;
        assert(e.f >= g[node_index(v, dims)]->0 + h_spec(v, goal));
        assert(e.f <= open0[k].f);
        assert(g[node_index(v, dims)]->0 + h_spec(v, goal) <= j + h_spec(q[j], goal));
        assert(h_spec(q[j], goal) <= (q.len() - 1 - j) + h_spec(v, goal));
    }
}

/// Marking a node expanded preserves the cost bookkeeping: the tight
/// frontier loses only that node, which now carries an optimal cost.
proof fn lemma_mark_opt(
    g: Seq<Option<i64>>,
    paths: Seq<Option<Vec<Node>>>,
    expanded0: Seq<bool>,
    expanded: Seq<bool>,
    open: Seq<SearchEntry>,
    node: Node,
    start: Node,
    walls: Seq<Node>,
    avoid: Seq<Node>,
    m: Movement,
    goal: Node,
    dims: GridDims,
)
    requires
        dims.wf(),
        expanded0.len() == dims.cell_count(),
        in_bounds_spec(node, dims),
        !expanded0[node_index(node, dims)],
        expanded == expanded0.update(node_index(node, dims), true),
        count_trues(expanded) == count_trues(expanded0) + 1,
        opt_g_bound(g, paths, expanded0, dims),
        forall|v: Node|
            in_bounds_spec(v, dims) && #[trigger] reached(paths, v, dims)
                && !expanded0[node_index(v, dims)] && v != node ==> has_entry(open, v,
                g[node_index(v, dims)]->0 + h_spec(v, goal)),
        opt_closure_cost(g, expanded0, walls, avoid, m, dims),
        opt_expanded(g, expanded0, start, walls, avoid, m, dims),
        forall|q: Seq<Node>|
            #[trigger] path_connects(q, start, node, walls, avoid, m, dims)
                ==> g[node_index(node, dims)]->0 <= q.len() - 1,
    ensures
        opt_g_bound(g, paths, expanded, dims),
        opt_tight(open, g, paths, expanded, goal, dims),
        forall|v: Node, w: Node|
            in_bounds_spec(v, dims) && v != node && expanded[node_index(v, dims)]
                && #[trigger] adjacent_spec(m, v, w, dims) && !walls.contains(w)
                && !avoid.contains(w) && !expanded[node_index(w, dims)]
                ==> g[node_index(w, dims)]->0 <= g[node_index(v, dims)]->0 + 1,
        opt_expanded(g, expanded, start, walls, avoid, m, dims),
{
    lemma_node_index_bijective(node, node, dims);
    assert forall|v: Node| in_bounds_spec(v, dims) && v != node implies
        node_index(v, dims) != node_index(node, dims) && 0 <= node_index(v, dims)
            < dims.cell_count() by {
        lemma_node_index_bijective(v, node, dims);
    }
    assert forall|v: Node|
        in_bounds_spec(v, dims) && #[trigger] reached(paths, v, dims) implies
        g[node_index(v, dims)]->0 <= count_trues(expanded) by {
        assert(g[node_index(v, dims)]->0 <= count_trues(expanded0));
    }
    assert forall|v: Node|
        in_bounds_spec(v, dims) && #[trigger] reached(paths, v, dims)
            && !expanded[node_index(v, dims)] implies has_entry(open, v,
        g[node_index(v, dims)]->0 + h_spec(v, goal)) by {
        assert(v != node);
        assert(!expanded0[node_index(v, dims)]);
    }
    assert forall|v: Node, w: Node|
        in_bounds_spec(v, dims) && v != node && expanded[node_index(v, dims)]
            && #[trigger] adjacent_spec(m, v, w, dims) && !walls.contains(w)
            && !avoid.contains(w) && !expanded[node_index(w, dims)] implies
        g[node_index(w, dims)]->0 <= g[node_index(v, dims)]->0 + 1 by {
        assert(expanded0[node_index(v, dims)]);
        if w == node {
            assert(expanded[node_index(node, dims)]);
        } else {
            assert(!expanded0[node_index(w, dims)]);
        }
    }
    assert forall|v: Node, q: Seq<Node>|
        in_bounds_spec(v, dims) && expanded[node_index(v, dims)]
            && #[trigger] path_connects(q, start, v, walls, avoid, m, dims) implies
        g[node_index(v, dims)]->0 <= q.len() - 1 by {
        if v != node {
            assert(expanded0[node_index(v, dims)]);
        }
    }
}

/// Relaxing one free unexpanded neighbor to one step beyond an expanded
/// node's optimal cost preserves all the cost bookkeeping.
proof fn lemma_relax_opt(
    g0: Seq<Option<i64>>,
    g: Seq<Option<i64>>,
    paths0: Seq<Option<Vec<Node>>>,
    paths: Seq<Option<Vec<Node>>>,
    open0: Seq<SearchEntry>,
    open: Seq<SearchEntry>,
    expanded: Seq<bool>,
    node: Node,
    nb: Node,
    e: SearchEntry,
    npv: Vec<Node>,
    base: i64,
    tentative: i64,
    start: Node,
    goal: Node,
    walls: Seq<Node>,
    avoid: Seq<Node>,
    m: Movement,
    dims: GridDims,
)
    requires
        dims.wf(),
        g0.len() == dims.cell_count(),
        paths0.len() == dims.cell_count(),
        expanded.len() == dims.cell_count(),
        in_bounds_spec(node, dims),
        in_bounds_spec(nb, dims),
        in_bounds_spec(start, dims),
        g == g0.update(node_index(nb, dims), Some(tentative)),
        paths == paths0.update(node_index(nb, dims), Some(npv)),
        open == open0.push(e),
        e.node == nb,
        e.f == tentative + h_spec(nb, goal),
        tentative == base + 1,
        base == g0[node_index(node, dims)]->0,
        base >= 0,
        reached(paths0, node, dims),
        npv@.len() == paths0[node_index(node, dims)]->0@.len() + 1,
        base + 1 <= count_trues(expanded),
        expanded[node_index(node, dims)],
        !expanded[node_index(nb, dims)],
        g0[node_index(nb, dims)] is Some ==> tentative < g0[node_index(nb, dims)]->0,
        reached(paths0, nb, dims) <==> g0[node_index(nb, dims)] is Some,
        adjacent_spec(m, node, nb, dims),
        !walls.contains(nb),
        !avoid.contains(nb),
        opt_cost_ok(g0, paths0, dims),
        opt_g_bound(g0, paths0, expanded, dims),
        g0[node_index(start, dims)] == Some(0i64),
        opt_entries_lb(open0, g0, goal, dims),
        opt_tight(open0, g0, paths0, expanded, goal, dims),
        forall|v: Node, w: Node|
            in_bounds_spec(v, dims) && v != node && expanded[node_index(v, dims)]
                && #[trigger] adjacent_spec(m, v, w, dims) && !walls.contains(w)
                && !avoid.contains(w) && !expanded[node_index(w, dims)]
                ==> g0[node_index(w, dims)]->0 <= g0[node_index(v, dims)]->0 + 1,
        forall|v: Node, w: Node|
            in_bounds_spec(v, dims) && v != node && expanded[node_index(v, dims)]
                && #[trigger] adjacent_spec(m, v, w, dims) && !walls.contains(w)
                && !avoid.contains(w) ==> reached(paths0, w, dims),
        opt_expanded(g0, expanded, start, walls, avoid, m, dims),
        inv_open(open0, paths0, dims),
    ensures
        opt_cost_ok(g, paths, dims),
        opt_g_bound(g, paths, expanded, dims),
        g[node_index(start, dims)] == Some(0i64),
        opt_entries_lb(open, g, goal, dims),
        opt_tight(open, g, paths, expanded, goal, dims),
        forall|v: Node, w: Node|
            in_bounds_spec(v, dims) && v != node && expanded[node_index(v, dims)]
                && #[trigger] adjacent_spec(m, v, w, dims) && !walls.contains(w)
                && !avoid.contains(w) && !expanded[node_index(w, dims)]
                ==> g[node_index(w, dims)]->0 <= g[node_index(v, dims)]->0 + 1,
        opt_expanded(g, expanded, start, walls, avoid, m, dims),
        g[node_index(node, dims)] == g0[node_index(node, dims)],
        g[node_index(nb, dims)]->0 <= base + 1,
{
    let ni = node_index(nb, dims);
    lemma_node_index_bijective(nb, nb, dims);
    assert forall|v: Node| in_bounds_spec(v, dims) && v != nb implies
        node_index(v, dims) != ni && 0 <= node_index(v, dims) < dims.cell_count() by {
        lemma_node_index_bijective(v, nb, dims);
    }
    assert(node != nb);
    assert(nb != start) by {
        if nb == start {
            assert(g0[node_index(start, dims)]->0 == 0);
            assert(tentative < 0);
        }
    }
    // exact costs
    assert forall|v: Node|
        in_bounds_spec(v, dims) && #[trigger] reached(paths, v, dims) implies
        g[node_index(v, dims)] is Some && g[node_index(v, dims)]->0 == paths[node_index(
            v, dims)]->0@.len() - 1 by {
        if v == nb {
            assert(paths[ni]->0@.len() == npv@.len());
            assert(base == paths0[node_index(node, dims)]->0@.len() - 1);
        } else {
            assert(g[node_index(v, dims)] == g0[node_index(v, dims)]);
            assert(paths[node_index(v, dims)] == paths0[node_index(v, dims)]);
            assert(reached(paths0, v, dims));
        }
    }
    // cost bound by expansion count
    assert forall|v: Node|
        in_bounds_spec(v, dims) && #[trigger] reached(paths, v, dims) implies
        g[node_index(v, dims)]->0 <= count_trues(expanded) by {
        if v != nb {
            assert(reached(paths0, v, dims));
        }
    }
    // entry lower bounds
    assert forall|k: int|
        0 <= k < open.len() implies (#[trigger] open[k]).f >= g[node_index(open[k].node,
            dims)]->0 + h_spec(open[k].node, goal) by {
        if k < open.len() - 1 {
            assert(open[k] == open0[k]);
            if open[k].node == nb {
                assert(reached(paths0, nb, dims));
                assert(g0[ni] is Some);
                assert(open[k].f >= g0[ni]->0 + h_spec(nb, goal));
            }
        } else {
            assert(open[k] == e);
        }
    }
    // tight frontier
    assert forall|v: Node|
        in_bounds_spec(v, dims) && #[trigger] reached(paths, v, dims)
            && !expanded[node_index(v, dims)] implies has_entry(open, v,
        g[node_index(v, dims)]->0 + h_spec(v, goal)) by {
        if v == nb {
            assert(open[open.len() - 1] == e);
            assert(has_entry(open, nb, g[ni]->0 + h_spec(nb, goal)));
        } else {
            assert(reached(paths0, v, dims));
            assert(has_entry(open0, v, g0[node_index(v, dims)]->0 + h_spec(v, goal)));
            let k = choose|k: int|
                0 <= k < open0.len() && open0[k].node == v && open0[k].f == g0[node_index(
                    v, dims)]->0 + h_spec(v, goal);
            assert(open[k] == open0[k]);
            assert(has_entry(open, v, g[node_index(v, dims)]->0 + h_spec(v, goal)));
        }
    }
    // one-step closure costs away from the node being expanded
    assert forall|v: Node, w: Node|
        in_bounds_spec(v, dims) && v != node && expanded[node_index(v, dims)]
            && #[trigger] adjacent_spec(m, v, w, dims) && !walls.contains(w)
            && !avoid.contains(w) && !expanded[node_index(w, dims)] implies
        g[node_index(w, dims)]->0 <= g[node_index(v, dims)]->0 + 1 by {
        assert(v != nb);
        assert(g[node_index(v, dims)] == g0[node_index(v, dims)]);
        if w == nb {
            assert(reached(paths0, nb, dims));
            assert(g0[ni] is Some);
            assert(tentative < g0[ni]->0);
            assert(g0[ni]->0 <= g0[node_index(v, dims)]->0 + 1);
        } else {
            assert(g[node_index(w, dims)] == g0[node_index(w, dims)]);
        }
    }
    // expanded nodes keep their optimal costs
    assert forall|v: Node, q: Seq<Node>|
        in_bounds_spec(v, dims) && expanded[node_index(v, dims)]
            && #[trigger] path_connects(q, start, v, walls, avoid, m, dims) implies
        g[node_index(v, dims)]->0 <= q.len() - 1 by {
        assert(v != nb);
        assert(g[node_index(v, dims)] == g0[node_index(v, dims)]);
    }
}

/// Expand a freshly popped node: mark it expanded and relax every free
/// neighbor, recording strictly improving costs and walks.
#[verifier::rlimit(100)]
fn expand_node(
    g: &mut Vec<Option<i64>>,
    paths: &mut Vec<Option<Vec<Node>>>,
    expanded: &mut Vec<bool>,
    open: &mut Vec<SearchEntry>,
    remaining: &mut usize,
    node: Node,
    start: Node,
    goal: Node,
    walls: &Vec<Node>,
    avoid: &Vec<Node>,
    preferred: Option<Node>,
    movement: Movement,
    dims: GridDims,
) -> (r: ())
    requires
        preferred matches Some(d) ==> small_dir(d),
        base_inv(old(g)@, old(paths)@, old(expanded)@, *old(remaining) as int, start, goal,
            walls@, avoid@, movement, dims),
        inv_open(old(open)@, old(paths)@, dims),
        in_bounds_spec(node, dims),
        node != goal,
        reached(old(paths)@, node, dims),
        !old(expanded)@[node_index(node, dims)],
        forall|v: Node|
            in_bounds_spec(v, dims) && #[trigger] reached(old(paths)@, v, dims)
                && !old(expanded)@[node_index(v, dims)] && v != node
                ==> in_open(old(open)@, v),
        unbiased(preferred, movement) ==> ({
            &&& opt_cost_ok(old(g)@, old(paths)@, dims)
            &&& opt_g_bound(old(g)@, old(paths)@, old(expanded)@, dims)
            &&& old(g)@[node_index(start, dims)] == Some(0i64)
            &&& opt_entries_lb(old(open)@, old(g)@, goal, dims)
            &&& (forall|v: Node|
                in_bounds_spec(v, dims) && #[trigger] reached(old(paths)@, v, dims)
                    && !old(expanded)@[node_index(v, dims)] && v != node ==> has_entry(
                    old(open)@, v, old(g)@[node_index(v, dims)]->0 + h_spec(v, goal)))
            &&& opt_closure_cost(old(g)@, old(expanded)@, walls@, avoid@, movement, dims)
            &&& opt_expanded(old(g)@, old(expanded)@, start, walls@, avoid@, movement, dims)
            &&& (forall|q: Seq<Node>|
                #[trigger] path_connects(q, start, node, walls@, avoid@, movement, dims)
                    ==> old(g)@[node_index(node, dims)]->0 <= q.len() - 1)
        }),
    ensures
        base_inv(final(g)@, final(paths)@, final(expanded)@, *final(remaining) as int, start,
            goal, walls@, avoid@, movement, dims),
        inv_open(final(open)@, final(paths)@, dims),
        inv_frontier(final(paths)@, final(expanded)@, final(open)@, dims),
        *final(remaining) == *old(remaining) - 1,
        unbiased(preferred, movement) ==> opt_inv(final(g)@, final(paths)@, final(expanded)@,
            final(open)@, start, goal, walls@, avoid@, movement, dims),
{
    let ci = cell_index(node, dims);
    proof {
        lemma_count_trues_set(expanded@, ci as int);
        lemma_node_index_bijective(goal, node, dims);
    }
    let ghost expanded0 = expanded@;
    expanded.set(ci, true);
    *remaining = *remaining - 1;
    proof {
        lemma_mark_expanded(paths@, expanded0, expanded@, open@, node, walls@, avoid@,
            movement, dims);
        if unbiased(preferred, movement) {
            lemma_mark_opt(g@, paths@, expanded0, expanded@, open@, node, start, walls@,
                avoid@, movement, goal, dims);
        }
    }

    let base: i64 = match g[ci] {
        Some(v) => v,
        None => i64::MAX,
    };
    proof {
        if unbiased(preferred, movement) {
            assert(g@[ci as int] is Some);
            assert(base == g@[ci as int]->0);
            assert(base == paths@[ci as int]->0@.len() - 1);
            assert(base >= 0);
            assert(base + 1 <= count_trues(expanded@)) by {
                assert(g@[ci as int]->0 <= count_trues(expanded0));
            }
        }
    }
    let nbrs = movement.neighbors(node, dims);
    let mut j: usize = 0;
    while j < nbrs.len()
        invariant
            dims.wf(),
            in_bounds_spec(start, dims),
            in_bounds_spec(goal, dims),
            preferred matches Some(d) ==> small_dir(d),
                            g@.len() == dims.cell_count(),
            paths@.len() == dims.cell_count(),
            expanded@.len() == dims.cell_count(),
            *remaining == dims.cell_count() - count_trues(expanded@),
            j <= nbrs@.len(),
            forall|i: int|
                0 <= i < nbrs@.len()
                    ==> adjacent_spec(movement, node, #[trigger] nbrs@[i], dims),
            nbrs@ == neighbor_seq(movement, node, dims),
            in_bounds_spec(node, dims),
            node != goal,
            ci == node_index(node, dims),
            ci < dims.cell_count(),
            expanded@[ci as int],
            forall|i: int| 0 <= i < g@.len() ==> ((#[trigger] g@[i]) is Some <==> paths@[i] is Some),
            inv_paths(paths@, start, walls@, avoid@, movement, dims),
            inv_open(open@, paths@, dims),
            inv_frontier(paths@, expanded@, open@, dims),
            forall|v: Node|
                in_bounds_spec(v, dims) && #[trigger] expanded@[node_index(v, dims)]
                    ==> reached(paths@, v, dims),
            forall|v: Node, w: Node|
                in_bounds_spec(v, dims) && v != node
                    && expanded@[node_index(v, dims)]
                    && #[trigger] adjacent_spec(movement, v, w, dims)
                    && !walls@.contains(w) && !avoid@.contains(w)
                    ==> reached(paths@, w, dims),
            forall|t: int|
                0 <= t < j ==> walls@.contains(#[trigger] nbrs@[t])
                    || avoid@.contains(nbrs@[t]) || reached(paths@, nbrs@[t], dims),
            reached(paths@, start, dims),
            !expanded@[node_index(goal, dims)],
            unbiased(preferred, movement) ==> ({
                &&& opt_cost_ok(g@, paths@, dims)
                &&& opt_g_bound(g@, paths@, expanded@, dims)
                &&& g@[node_index(start, dims)] == Some(0i64)
                &&& opt_entries_lb(open@, g@, goal, dims)
                &&& opt_tight(open@, g@, paths@, expanded@, goal, dims)
                &&& (forall|v: Node, w: Node|
                    in_bounds_spec(v, dims) && v != node && expanded@[node_index(v, dims)]
                        && #[trigger] adjacent_spec(movement, v, w, dims)
                        && !walls@.contains(w) && !avoid@.contains(w)
                        && !expanded@[node_index(w, dims)]
                        ==> g@[node_index(w, dims)]->0 <= g@[node_index(v, dims)]->0 + 1)
                &&& opt_expanded(g@, expanded@, start, walls@, avoid@, movement, dims)
                &&& g@[ci as int] is Some
                &&& base == g@[ci as int]->0
                &&& base >= 0
                &&& base + 1 <= count_trues(expanded@)
                &&& (forall|t: int|
                    0 <= t < j ==> walls@.contains(#[trigger] nbrs@[t])
                        || avoid@.contains(nbrs@[t]) || expanded@[node_index(nbrs@[t], dims)]
                        || g@[node_index(nbrs@[t], dims)]->0 <= base + 1)
            }),
        decreases nbrs@.len() - j,
    {
        let nb = nbrs[j];
        if !contains_node(walls, nb) && !contains_node(avoid, nb) {
            proof {
                assert(adjacent_spec(movement, node, nb, dims));
            }
            let ni = cell_index(nb, dims);
            if !expanded[ni] {
                let mut tentative = sat_add64(base, 1);
                proof {
                    if unbiased(preferred, movement) {
                        lemma_count_trues_bounds(expanded@);
                        assert(dims.cell_count() <= MAX_DIM * MAX_DIM) by (nonlinear_arith)
                            requires
                                0 < dims.columns <= MAX_DIM,
                                0 < dims.rows <= MAX_DIM,
                        ;
                        assert(tentative == base + 1);
                    }
                }
                match preferred {
                    Some(pref) => {
                        let mv = move_dir(node, nb);
                        proof {
                            lemma_adjacent_unit_step(movement, node, nb, dims);
                        }
                        if mv.x == pref.x && mv.y == pref.y {
                            tentative = sat_add64(tentative, -4);
                        } else {
                            let npref = negate(pref);
                            if mv.x == npref.x && mv.y == npref.y {
                                tentative = sat_add64(tentative, 8);
                            } else if dot(mv, pref) == 0 {
                                tentative = sat_add64(tentative, -1);
                            }
                        }
                    }
                    None => {}
                }
                let better: bool = match g[ni] {
                    Some(cur) => tentative < cur,
                    None => true,
                };
                if better {
                    let ghost g0 = g@;
                    let ghost paths0 = paths@;
                    let ghost open0i = open@;
                    let mut np = stored_path(paths, ci);
                    proof {
                        assert(paths@[node_index(node, dims)] is Some
                            ==> path_connects(paths@[node_index(node, dims)]->0@,
                                start, node, walls@, avoid@, movement, dims));
                        lemma_path_extend(
                            np@, start, node, nb, walls@, avoid@, movement, dims,
                        );
                    }
                    np.push(nb);
                    let ghost np_ghost = np;
                    g.set(ni, Some(tentative));
                    paths.set(ni, Some(np));
                    let fscore = sat_add64(tentative, heuristic(nb, goal));
                    let e = SearchEntry { f: fscore, node: nb };
                    let ghost e_ghost = e;
                    open.push(e);
                    proof {
                        lemma_relax_update(paths0, paths@, open0i, open@, expanded@, np_ghost,
                            e_ghost, nb, start, walls@, avoid@, movement, dims);
                        if unbiased(preferred, movement) {
                            assert(0 <= h_spec(nb, goal) <= 2 * MAX_DIM);
                            assert(fscore == tentative + h_spec(nb, goal));
                            lemma_relax_opt(g0, g@, paths0, paths@, open0i, open@, expanded@,
                                node, nb, e_ghost, np_ghost, base, tentative, start, goal,
                                walls@, avoid@, movement, dims);
                            assert forall|t: int| 0 <= t < j implies
                                walls@.contains(#[trigger] nbrs@[t])
                                    || avoid@.contains(nbrs@[t])
                                    || expanded@[node_index(nbrs@[t], dims)]
                                    || g@[node_index(nbrs@[t], dims)]->0 <= base + 1 by {
                                if !walls@.contains(nbrs@[t]) && !avoid@.contains(nbrs@[t])
                                    && !expanded@[node_index(nbrs@[t], dims)] {
                                    assert(adjacent_spec(movement, node, nbrs@[t], dims));
                                    assert(in_bounds_spec(nbrs@[t], dims));
                                    lemma_node_index_bijective(nbrs@[t], nb, dims);
                                    if node_index(nbrs@[t], dims) == node_index(nb, dims) {
                                        assert(g@[node_index(nbrs@[t], dims)]->0 == tentative);
                                    } else {
                                        assert(g@[node_index(nbrs@[t], dims)]
                                            == g0[node_index(nbrs@[t], dims)]);
                                    }
                                }
                            }
                            assert(g@[node_index(nb, dims)]->0 <= base + 1);
                        }
                    }
                } else {
                    proof {
                        if unbiased(preferred, movement) {
                            assert(g@[ni as int] is Some);
                            assert(g@[node_index(nb, dims)]->0 <= base + 1);
                        }
                    }
                }
            }
        }
        proof {
            // the neighbor just processed is walled, forbidden, or
            // discovered by now
            if !walls@.contains(nbrs@[j as int]) && !avoid@.contains(nbrs@[j as int]) {
                assert(reached(paths@, nbrs@[j as int], dims));
            }
        }
        j = j + 1;
    }
    proof {
        assert(inv_closure(paths@, expanded@, walls@, avoid@, movement, dims)) by {
            assert forall|v: Node, w: Node|
                in_bounds_spec(v, dims) && expanded@[node_index(v, dims)]
                    && #[trigger] adjacent_spec(movement, v, w, dims)
                    && !walls@.contains(w) && !avoid@.contains(w) implies
                reached(paths@, w, dims) by {
                if v == node {
                    lemma_neighbor_seq_adjacent(movement, node, dims, w, 0);
                    assert(nbrs@.contains(w));
                    let t = choose|t: int| 0 <= t < nbrs@.len() && nbrs@[t] == w;
                    assert(reached(paths@, nbrs@[t], dims));
                }
            }
        }
        if unbiased(preferred, movement) {
            assert(opt_closure_cost(g@, expanded@, walls@, avoid@, movement, dims)) by {
                assert forall|v: Node, w: Node|
                    in_bounds_spec(v, dims) && expanded@[node_index(v, dims)]
                        && #[trigger] adjacent_spec(movement, v, w, dims)
                        && !walls@.contains(w) && !avoid@.contains(w)
                        && !expanded@[node_index(w, dims)] implies
                    g@[node_index(w, dims)]->0 <= g@[node_index(v, dims)]->0 + 1 by {
                    if v == node {
                        lemma_neighbor_seq_adjacent(movement, node, dims, w, 0);
                        assert(nbrs@.contains(w));
                        let t = choose|t: int| 0 <= t < nbrs@.len() && nbrs@[t] == w;
                        assert(g@[node_index(nbrs@[t], dims)]->0 <= base + 1);
                    }
                }
            }
        }
    }
}

/// One round of the search: pop the cheapest open entry; return the recorded
/// walk if it is the goal, otherwise expand the node (unless it was already
/// expanded) by relaxing all its free neighbors.
fn search_step(
    g: &mut Vec<Option<i64>>,
    paths: &mut Vec<Option<Vec<Node>>>,
    expanded: &mut Vec<bool>,
    open: &mut Vec<SearchEntry>,
    remaining: &mut usize,
    start: Node,
    goal: Node,
    walls: &Vec<Node>,
    avoid: &Vec<Node>,
    preferred: Option<Node>,
    movement: Movement,
    dims: GridDims,
) -> (found: Option<Vec<Node>>)
    requires
        old(open)@.len() > 0,
        preferred matches Some(d) ==> small_dir(d),
        search_inv(old(g)@, old(paths)@, old(expanded)@, old(open)@, *old(remaining) as int,
            start, goal, walls@, avoid@, movement, dims),
        unbiased(preferred, movement) ==> opt_inv(old(g)@, old(paths)@, old(expanded)@,
            old(open)@, start, goal, walls@, avoid@, movement, dims),
    ensures
        found matches Some(p) ==> path_connects(p@, start, goal, walls@, avoid@, movement, dims),
        found is None ==> search_inv(final(g)@, final(paths)@, final(expanded)@, final(open)@,
            *final(remaining) as int, start, goal, walls@, avoid@, movement, dims),
        found is None ==> (*final(remaining) < *old(remaining)
            || (*final(remaining) == *old(remaining) && final(open)@.len() < old(open)@.len())),
        found is None ==> (unbiased(preferred, movement) ==> opt_inv(final(g)@, final(paths)@,
            final(expanded)@, final(open)@, start, goal, walls@, avoid@, movement, dims)),
        unbiased(preferred, movement) ==> (found matches Some(p) ==> forall|q: Seq<Node>|
            path_connects(q, start, goal, walls@, avoid@, movement, dims) ==> p@.len()
                <= q.len()),
{
    let ghost open0 = open@;
    let entry = pop_min(open);
    proof {
        assert(in_bounds_spec(entry.node, dims) && reached(paths@, entry.node, dims)) by {
            let s = choose|s: int| 0 <= s < open0.len() && open0[s] == entry;
        }
        assert(inv_open(open@, paths@, dims)) by {
            assert forall|t: int| 0 <= t < open@.len() implies
                in_bounds_spec((#[trigger] open@[t]).node, dims)
                    && reached(paths@, open@[t].node, dims) by {
                let s = choose|s: int| 0 <= s < open0.len() && open0[s] == open@[t];
            }
        }
        if unbiased(preferred, movement) {
            assert(opt_entries_lb(open@, g@, goal, dims)) by {
                assert forall|t: int| 0 <= t < open@.len() implies (#[trigger] open@[t]).f
                    >= g@[node_index(open@[t].node, dims)]->0 + h_spec(open@[t].node, goal) by {
                    let s = choose|s: int| 0 <= s < open0.len() && open0[s] == open@[t];
                }
            }
            assert forall|v: Node|
                in_bounds_spec(v, dims) && #[trigger] reached(paths@, v, dims)
                    && !expanded@[node_index(v, dims)] && v != entry.node implies has_entry(
                open@, v, g@[node_index(v, dims)]->0 + h_spec(v, goal)) by {
                assert(has_entry(open0, v, g@[node_index(v, dims)]->0 + h_spec(v, goal)));
            }
        }
    }
    let ci = cell_index(entry.node, dims);

    if entry.node == goal {
        let path = stored_path(paths, ci);
        proof {
            assert(path_connects(path@, start, goal, walls@, avoid@, movement, dims));
            if unbiased(preferred, movement) {
                lemma_popped_is_optimal(g@, paths@, expanded@, open0, entry, start, goal,
                    walls@, avoid@, dims);
                assert(g@[ci as int]->0 == path@.len() - 1);
                assert forall|q: Seq<Node>|
                    path_connects(q, start, goal, walls@, avoid@, movement, dims) implies
                    path@.len() <= q.len() by {
                    assert(g@[node_index(goal, dims)]->0 <= q.len() - 1);
                }
            }
        }
        return Some(path);
    }

    if expanded[ci] {
        // a stale entry of an already expanded node: just drop it
        proof {
            assert(inv_frontier(paths@, expanded@, open@, dims)) by {
                assert forall|v: Node|
                    in_bounds_spec(v, dims) && #[trigger] reached(paths@, v, dims)
                        && !expanded@[node_index(v, dims)] implies in_open(open@, v) by {
                    assert(v != entry.node);
                    assert(in_open(open0, v));
                }
            }
            if unbiased(preferred, movement) {
                assert(opt_tight(open@, g@, paths@, expanded@, goal, dims)) by {
                    assert forall|v: Node|
                        in_bounds_spec(v, dims) && #[trigger] reached(paths@, v, dims)
                            && !expanded@[node_index(v, dims)] implies has_entry(open@, v,
                        g@[node_index(v, dims)]->0 + h_spec(v, goal)) by {
                        assert(v != entry.node);
                    }
                }
            }
        }
        return None;
    }

    proof {
        if unbiased(preferred, movement) {
            lemma_popped_is_optimal(g@, paths@, expanded@, open0, entry, start, goal, walls@,
                avoid@, dims);
        }
    }
    expand_node(g, paths, expanded, open, remaining, entry.node, start, goal, walls, avoid,
        preferred, movement, dims);
    None
}

/// A* search from `start` to `goal`.
///
/// `walls` are the permanently blocked cells, `avoid` a temporary forbidden
/// set used during rerouting, and `preferred` an optional unit heading that
/// shapes step costs (moving with it is cheaper, against it dearer,
/// orthogonal to it slightly cheaper) without forbidding any move. A node is
/// expanded at most once; relaxation records a strictly improving cost and
/// walk per node.
///
/// Returns a walk from `start` to `goal` exactly when one exists through the
/// free cells; `None` reports an unreachable goal and is an expected,
/// recoverable outcome. Without a cost bias and under orthogonal movement,
/// where the Manhattan heuristic is consistent, the returned walk is a
/// shortest one: no valid walk is shorter.
#[verifier::rlimit(100)]
pub fn find_path(
    start: Node,
    goal: Node,
    walls: &Vec<Node>,
    avoid: &Vec<Node>,
    preferred: Option<Node>,
    movement: Movement,
    dims: GridDims,
) -> (r: Option<Vec<Node>>)
    requires
        dims.wf(),
        in_bounds_spec(start, dims),
        in_bounds_spec(goal, dims),
        preferred matches Some(d) ==> small_dir(d),
    ensures
        r matches Some(p) ==> path_connects(p@, start, goal, walls@, avoid@, movement, dims),
        r is Some <==> reachable(start, goal, walls@, avoid@, movement, dims),
        unbiased(preferred, movement) ==> (r matches Some(p) ==> forall|q: Seq<Node>|
            path_connects(q, start, goal, walls@, avoid@, movement, dims) ==> p@.len()
                <= q.len()),
        start == goal ==> (r matches Some(p) ==> p@ == seq![start]),
{
    if start == goal {
        // the search's first pop would return this same singleton walk, so
        // answer it directly
        let mut p: Vec<Node> = Vec::new();
        p.push(start);
        proof {
            assert(path_connects(p@, start, goal, walls@, avoid@, movement, dims));
            assert(reachable(start, goal, walls@, avoid@, movement, dims));
            assert(p@ =~= seq![start]);
        }
        return Some(p);
    }
    proof {
        assert(dims.columns * dims.rows <= MAX_DIM * MAX_DIM) by (nonlinear_arith)
            requires
                0 < dims.columns <= MAX_DIM,
                0 < dims.rows <= MAX_DIM,
        ;
    }
    let n: usize = (dims.columns as usize) * (dims.rows as usize);
    proof {
        assert(n == dims.cell_count());
    }

    let mut g: Vec<Option<i64>> = none_column(n);
    let mut paths: Vec<Option<Vec<Node>>> = none_column(n);
    let mut expanded: Vec<bool> = false_column(n);
    let mut remaining: usize = n;
    let mut open: Vec<SearchEntry> = Vec::new();

    let si = cell_index(start, dims);
    g.set(si, Some(0));
    let mut p0: Vec<Node> = Vec::new();
    p0.push(start);
    proof {
        assert(path_connects(p0@, start, start, walls@, avoid@, movement, dims));
        lemma_count_trues_all_false(expanded@);
    }
    paths.set(si, Some(p0));
    let h0 = heuristic(start, goal);
    open.push(SearchEntry { f: h0, node: start });

    proof {
        assert forall|v: Node| in_bounds_spec(v, dims) implies 0 <= node_index(v, dims) < n by {
            lemma_node_index_bijective(v, v, dims);
        }
        assert(inv_paths(paths@, start, walls@, avoid@, movement, dims)) by {
            assert forall|v: Node|
                in_bounds_spec(v, dims) && (#[trigger] paths@[node_index(v, dims)]) is Some implies
                path_connects(paths@[node_index(v, dims)]->0@, start, v, walls@, avoid@, movement,
                    dims) by {
                lemma_node_index_bijective(v, start, dims);
            }
        }
        assert(inv_frontier(paths@, expanded@, open@, dims)) by {
            assert forall|v: Node|
                in_bounds_spec(v, dims) && #[trigger] reached(paths@, v, dims)
                    && !expanded@[node_index(v, dims)] implies in_open(open@, v) by {
                lemma_node_index_bijective(v, start, dims);
                assert(open@[0].node == start);
            }
        }
        assert(inv_closure(paths@, expanded@, walls@, avoid@, movement, dims));
        assert(reached(paths@, start, dims));
        assert forall|i: int| 0 <= i < n implies ((#[trigger] g@[i]) is Some <==> paths@[i] is Some) by {
        }
    }


    while open.len() > 0
        invariant
            start != goal,
            preferred matches Some(d) ==> small_dir(d),
            search_inv(g@, paths@, expanded@, open@, remaining as int, start, goal, walls@,
                avoid@, movement, dims),
            unbiased(preferred, movement) ==> opt_inv(g@, paths@, expanded@, open@, start, goal,
                walls@, avoid@, movement, dims),
        decreases remaining, open@.len(),
    {
        let found = search_step(&mut g, &mut paths, &mut expanded, &mut open, &mut remaining,
            start, goal, walls, avoid, preferred, movement, dims);
        match found {
            Some(path) => {
                proof {
                    assert(reachable(start, goal, walls@, avoid@, movement, dims));
                }
                return Some(path);
            }
            None => {}
        }
    }

    proof {
        assert forall|v: Node|
            in_bounds_spec(v, dims) && #[trigger] reached(paths@, v, dims) implies
            expanded@[node_index(v, dims)] by {
            if !expanded@[node_index(v, dims)] {
                assert(in_open(open@, v));
                assert(false);
            }
        }
        if reachable(start, goal, walls@, avoid@, movement, dims) {
            let p = choose|p: Seq<Node>|
                path_connects(p, start, goal, walls@, avoid@, movement, dims);
            lemma_reached_along(
                paths@, expanded@, start, walls@, avoid@, movement, dims, p, p.len() - 1,
            );
            assert(reached(paths@, goal, dims));
            assert(in_open(open@, goal));
            assert(false);
        }
    }
    None
}

} // verus!
