//! Per-agent state: identity, endpoints, current position, planned path, and
//! the cached lookahead and neighborhood windows used by collision detection.

use vstd::prelude::*;
use crate::grid::{
    Node, GridDims, in_bounds_spec, move_dir, signum_dir, small_dir, spec_signum,
};
use crate::movement::{Movement, neighbor_seq, unit_step};

verus! {

/// An entity with a start cell, an optional goal cell, a current cell, an
/// optional planned path, and two derived caches that must be refreshed
/// whenever the position or the path changes.
#[derive(Clone, Debug)]
pub struct Agent {
    pub id: usize,
    pub start_point: Node,
    pub end_point: Option<Node>,
    pub current_point: Node,
    pub path: Option<Vec<Node>>,
    pub path_index: usize,
    pub collision_radius: Vec<Node>,
    pub forward_path: Vec<Node>,
}

impl Agent {
    /// All positions are on the grid; once a path exists, `current_point`
    /// sits on it at `path_index`, and the path is a chain of unit steps
    /// through the grid.
    pub open spec fn wf(self, dims: GridDims) -> bool {
        &&& in_bounds_spec(self.start_point, dims)
        &&& in_bounds_spec(self.current_point, dims)
        &&& (self.end_point matches Some(e) ==> in_bounds_spec(e, dims))
        &&& (self.path matches Some(p) ==> {
            &&& p@.len() >= 1
            &&& self.path_index < p@.len()
            &&& p@[self.path_index as int] == self.current_point
            &&& (forall|k: int| 0 <= k < p@.len() ==> in_bounds_spec(#[trigger] p@[k], dims))
            &&& (forall|k: int| 0 < k < p@.len() ==> unit_step(p@[k - 1], #[trigger] p@[k]))
        })
    }

    /// The up-to-8 in-bounds cells around the current point.
    pub open spec fn radius_spec(self, dims: GridDims) -> Seq<Node> {
        neighbor_seq(Movement::Diagonal, self.current_point, dims)
    }

    /// Up to the next two path nodes strictly after `path_index`, truncated
    /// before the end point.
    pub open spec fn forward_spec(self) -> Seq<Node> {
        match (self.path, self.end_point) {
            (Some(p), Some(e)) => {
                let i = self.path_index as int;
                if i + 1 < p@.len() && p@[i + 1] != e {
                    if i + 2 < p@.len() && p@[i + 2] != e {
                        seq![p@[i + 1], p@[i + 2]]
                    } else {
                        seq![p@[i + 1]]
                    }
                } else {
                    Seq::empty()
                }
            }
            _ => Seq::empty(),
        }
    }

    /// The caches agree with the fields they are derived from. The derived
    /// state invariant: neither cache may be read unless this holds.
    pub open spec fn cache_fresh(self, dims: GridDims) -> bool {
        self.collision_radius@ == self.radius_spec(dims)
            && self.forward_path@ == self.forward_spec()
    }

    /// Equality of everything except the two caches.
    pub open spec fn same_core(self, other: Agent) -> bool {
        &&& self.id == other.id
        &&& self.start_point == other.start_point
        &&& self.end_point == other.end_point
        &&& self.current_point == other.current_point
        &&& self.path == other.path
        &&& self.path_index == other.path_index
    }

    /// What one `refresh_cache` call does: the core fields are kept and the
    /// caches recomputed from them.
    pub open spec fn refresh_rel(pre: Agent, post: Agent, dims: GridDims) -> bool {
        post.same_core(pre) && post.cache_fresh(dims)
    }

    /// A new agent standing at `start`, with no path and fresh caches.
    pub fn new(id: usize, start: Node, end: Option<Node>, dims: GridDims) -> (a: Agent)
        requires
            dims.wf(),
            in_bounds_spec(start, dims),
            end matches Some(e) ==> in_bounds_spec(e, dims),
        ensures
            a.id == id,
            a.start_point == start,
            a.end_point == end,
            a.current_point == start,
            a.path is None,
            a.path_index == 0,
            a.wf(dims),
            a.cache_fresh(dims),
    {
        let mut a = Agent {
            id,
            start_point: start,
            end_point: end,
            current_point: start,
            path: None,
            path_index: 0,
            collision_radius: Vec::new(),
            forward_path: Vec::new(),
        };
        a.refresh_cache(dims);
        a
    }

    /// Recompute the in-bounds 8-neighborhood of the current point.
    pub fn calc_radius(&self, dims: GridDims) -> (r: Vec<Node>)
        requires
            dims.wf(),
            in_bounds_spec(self.current_point, dims),
        ensures
            r@ == self.radius_spec(dims),
    {
        Movement::Diagonal.neighbors(self.current_point, dims)
    }

    /// Recompute the lookahead window.
    pub fn calc_forward(&self) -> (r: Vec<Node>)
        requires
            self.path matches Some(p) ==> self.path_index < p@.len(),
        ensures
            r@ == self.forward_spec(),
    {
        let mut r: Vec<Node> = Vec::new();
        match &self.path {
            Some(p) => {
                let plen = p.len();
                proof {
                    assert(self.path_index < plen);
                }
                match self.end_point {
                    Some(e) => {
                        if self.path_index + 1 < plen {
                            let n1 = p[self.path_index + 1];
                            if !(n1 == e) {
                                r.push(n1);
                                if self.path_index + 2 < plen {
                                    let n2 = p[self.path_index + 2];
                                    if !(n2 == e) {
                                        r.push(n2);
                                    }
                                }
                            }
                        }
                    }
                    None => {}
                }
            }
            None => {}
        }
        r
    }

    /// Recompute both caches; must be called by any code that changes
    /// `current_point`, `path` or `path_index`.
    pub fn refresh_cache(&mut self, dims: GridDims)
        requires
            dims.wf(),
            old(self).wf(dims),
        ensures
            Agent::refresh_rel(*old(self), *final(self), dims),
            final(self).wf(dims),
    {
        let r = self.calc_radius(dims);
        self.collision_radius = r;
        let f = self.calc_forward();
        self.forward_path = f;
    }

    /// Heading to the next path node if one exists, else the signum step
    /// toward the end point, else the zero vector. Used only as a heuristic
    /// heading for reroute steering, never for movement itself.
    pub open spec fn direction_spec(self) -> Node {
        match self.path {
            Some(p) => if self.path_index + 1 < p@.len() {
                Node {
                    x: (p@[self.path_index + 1].x - self.current_point.x) as i32,
                    y: (p@[self.path_index + 1].y - self.current_point.y) as i32,
                }
            } else {
                self.fallback_dir_spec()
            },
            None => self.fallback_dir_spec(),
        }
    }

    /// The signum step toward the end point, or zero without one.
    pub open spec fn fallback_dir_spec(self) -> Node {
        match self.end_point {
            Some(e) => Node {
                x: spec_signum(e.x - self.current_point.x) as i32,
                y: spec_signum(e.y - self.current_point.y) as i32,
            },
            None => Node { x: 0, y: 0 },
        }
    }

    pub fn direction(&self, dims: GridDims) -> (d: Node)
        requires
            dims.wf(),
            self.wf(dims),
        ensures
            d == self.direction_spec(),
            small_dir(d),
    {
        let mut has_next = false;
        let mut nxt = self.current_point;
        match &self.path {
            Some(p) => {
                let plen = p.len();
                proof {
                    assert(self.path_index < plen);
                }
                if self.path_index + 1 < plen {
                    has_next = true;
                    nxt = p[self.path_index + 1];
                }
            }
            None => {}
        }
        if has_next {
            return move_dir(self.current_point, nxt);
        }
        match self.end_point {
            Some(e) => signum_dir(self.current_point, e),
            None => Node { x: 0, y: 0 },
        }
    }
}

/// Idempotence of cache refresh: refreshing the caches twice in a row,
/// without changing `current_point`, `path` or `path_index` in between,
/// yields identical `collision_radius` and `forward_path`.
pub proof fn lemma_refresh_cache_idempotent(a: Agent, once: Agent, twice: Agent, dims: GridDims)
    requires
        Agent::refresh_rel(a, once, dims),
        Agent::refresh_rel(once, twice, dims),
    ensures
        twice.collision_radius@ == once.collision_radius@,
        twice.forward_path@ == once.forward_path@,
{
    assert(twice.radius_spec(dims) == once.radius_spec(dims));
    assert(twice.forward_spec() == once.forward_spec());
}

} // verus!
