//! Movement strategies: which cells are adjacent to a given cell.

use vstd::prelude::*;
use crate::grid::{Node, GridDims, in_bounds, in_bounds_spec, small_dir, MAX_DIM};

verus! {

/// The neighbor-generation strategy: 4-connected or 8-connected.
#[derive(Copy, Clone, PartialEq, Eq, Structural, Debug)]
pub enum Movement {
    Orthogonal,
    Diagonal,
}

/// The single-step displacements of a strategy, in the order in which the
/// neighbor generator tries them.
pub open spec fn delta_seq(m: Movement) -> Seq<Node> {
    match m {
        Movement::Orthogonal => seq![
            Node { x: 1i32, y: 0i32 },
            Node { x: -1i32, y: 0i32 },
            Node { x: 0i32, y: 1i32 },
            Node { x: 0i32, y: -1i32 },
        ],
        Movement::Diagonal => seq![
            Node { x: 1i32, y: 0i32 },
            Node { x: -1i32, y: 0i32 },
            Node { x: 0i32, y: 1i32 },
            Node { x: 0i32, y: -1i32 },
            Node { x: 1i32, y: 1i32 },
            Node { x: 1i32, y: -1i32 },
            Node { x: -1i32, y: 1i32 },
            Node { x: -1i32, y: -1i32 },
        ],
    }
}

/// The node one delta away from `n` (in spec arithmetic the sum always
/// exists; executable code only forms it for nodes near the grid).
pub open spec fn node_add(n: Node, d: Node) -> Node {
    Node { x: (n.x + d.x) as i32, y: (n.y + d.y) as i32 }
}

/// `b` is reachable from `a` in one step of strategy `m` (and on the grid).
pub open spec fn adjacent_spec(m: Movement, a: Node, b: Node, dims: GridDims) -> bool {
    in_bounds_spec(b, dims) && exists|k: int|
        0 <= k < delta_seq(m).len() && b == node_add(a, #[trigger] delta_seq(m)[k])
}

/// The in-bounds neighbors of `n`, built from the deltas of `m` starting at
/// position `k`, in order.
pub open spec fn neighbor_seq_from(m: Movement, n: Node, dims: GridDims, k: int) -> Seq<Node>
    decreases delta_seq(m).len() - k,
{
    if k < 0 || k >= delta_seq(m).len() {
        Seq::empty()
    } else {
        let q = node_add(n, delta_seq(m)[k]);
        if in_bounds_spec(q, dims) {
            seq![q] + neighbor_seq_from(m, n, dims, k + 1)
        } else {
            neighbor_seq_from(m, n, dims, k + 1)
        }
    }
}

/// All in-bounds neighbors of `n` under strategy `m`, in generation order.
pub open spec fn neighbor_seq(m: Movement, n: Node, dims: GridDims) -> Seq<Node> {
    neighbor_seq_from(m, n, dims, 0)
}

/// The neighbor list contains exactly the adjacent nodes.
pub proof fn lemma_neighbor_seq_adjacent(m: Movement, n: Node, dims: GridDims, b: Node, k: int)
    requires
        0 <= k <= delta_seq(m).len(),
    ensures
        neighbor_seq_from(m, n, dims, k).contains(b) <==> (in_bounds_spec(b, dims)
            && exists|t: int| k <= t < delta_seq(m).len() && b == node_add(n, #[trigger] delta_seq(m)[t])),
    decreases delta_seq(m).len() - k,
{
    if k < delta_seq(m).len() {
        lemma_neighbor_seq_adjacent(m, n, dims, b, k + 1);
        let q = node_add(n, delta_seq(m)[k]);
        let rest = neighbor_seq_from(m, n, dims, k + 1);
        if in_bounds_spec(q, dims) {
            assert(neighbor_seq_from(m, n, dims, k) == seq![q] + rest);
            if b == q {
                assert((seq![q] + rest)[0] == b);
            }
            if (seq![q] + rest).contains(b) {
                let i = choose|i: int| 0 <= i < (seq![q] + rest).len() && (seq![q] + rest)[i] == b;
                if i > 0 {
                    assert(rest[i - 1] == b);
                }
            }
            if rest.contains(b) {
                let i = choose|i: int| 0 <= i < rest.len() && rest[i] == b;
                assert((seq![q] + rest)[i + 1] == b);
            }
        }
    }
}

/// Every adjacency step is a unit step: both coordinates change by at most
/// one and the node actually moves.
pub open spec fn unit_step(a: Node, b: Node) -> bool {
    -1 <= b.x - a.x <= 1 && -1 <= b.y - a.y <= 1 && !(b.x == a.x && b.y == a.y)
}

pub proof fn lemma_adjacent_unit_step(m: Movement, a: Node, b: Node, dims: GridDims)
    requires
        adjacent_spec(m, a, b, dims),
        -MAX_DIM <= a.x <= MAX_DIM,
        -MAX_DIM <= a.y <= MAX_DIM,
    ensures
        unit_step(a, b),
{
    let k = choose|k: int|
        0 <= k < delta_seq(m).len() && b == node_add(a, #[trigger] delta_seq(m)[k]);
    assert(delta_seq(m)[k].x == b.x - a.x && delta_seq(m)[k].y == b.y - a.y);
}

/// The delta sets are closed under negation, so adjacency is symmetric up to
/// the bounds check on the endpoint.
pub proof fn lemma_adjacent_sym(m: Movement, a: Node, b: Node, dims: GridDims)
    requires
        adjacent_spec(m, a, b, dims),
        in_bounds_spec(a, dims),
        dims.wf(),
    ensures
        adjacent_spec(m, b, a, dims),
{
    let k = choose|k: int|
        0 <= k < delta_seq(m).len() && b == node_add(a, #[trigger] delta_seq(m)[k]);
    let d = delta_seq(m)[k];
    let neg = Node { x: (-d.x) as i32, y: (-d.y) as i32 };
    assert(exists|t: int|
        0 <= t < delta_seq(m).len() && neg == #[trigger] delta_seq(m)[t]) by {
        if k == 0 {
            assert(delta_seq(m)[1] == neg);
        } else if k == 1 {
            assert(delta_seq(m)[0] == neg);
        } else if k == 2 {
            assert(delta_seq(m)[3] == neg);
        } else if k == 3 {
            assert(delta_seq(m)[2] == neg);
        } else if k == 4 {
            assert(delta_seq(m)[7] == neg);
        } else if k == 5 {
            assert(delta_seq(m)[6] == neg);
        } else if k == 6 {
            assert(delta_seq(m)[5] == neg);
        } else {
            assert(delta_seq(m)[4] == neg);
        }
    }
    let t = choose|t: int| 0 <= t < delta_seq(m).len() && neg == #[trigger] delta_seq(m)[t];
    assert(a == node_add(b, delta_seq(m)[t]));
}

impl Movement {
    /// The other strategy.
    pub open spec fn toggled_spec(self) -> Movement {
        match self {
            Movement::Orthogonal => Movement::Diagonal,
            Movement::Diagonal => Movement::Orthogonal,
        }
    }

    /// The other strategy, used when the user toggles movement at runtime.
    pub fn toggled(self) -> (r: Movement)
        ensures
            r == self.toggled_spec(),
    {
        match self {
            Movement::Orthogonal => Movement::Diagonal,
            Movement::Diagonal => Movement::Orthogonal,
        }
    }

    /// The in-bounds neighbors of `node`, in a fixed generation order.
    pub fn neighbors(self, node: Node, dims: GridDims) -> (r: Vec<Node>)
        requires
            dims.wf(),
            in_bounds_spec(node, dims),
        ensures
            r@ == neighbor_seq(self, node, dims),
            forall|i: int| 0 <= i < r@.len() ==> adjacent_spec(self, node, #[trigger] r@[i], dims),
    {
        proof {
            match self {
                Movement::Orthogonal => {
                    assert(forall|i: int|
                        0 <= i < delta_seq(self).len() ==> small_dir(#[trigger] delta_seq(self)[i]));
                }
                Movement::Diagonal => {
                    assert(forall|i: int|
                        0 <= i < delta_seq(self).len() ==> small_dir(#[trigger] delta_seq(self)[i]));
                }
            }
        }
        let deltas: Vec<Node> = self.delta_vec();
        let mut r: Vec<Node> = Vec::new();
        let mut k: usize = 0;
        while k < deltas.len()
            invariant
                0 <= k <= deltas@.len(),
                deltas@ == delta_seq(self),
                forall|i: int| 0 <= i < deltas@.len() ==> small_dir(#[trigger] deltas@[i]),
                dims.wf(),
                in_bounds_spec(node, dims),
                neighbor_seq(self, node, dims) == r@ + neighbor_seq_from(self, node, dims, k as int),
                forall|i: int| 0 <= i < r@.len() ==> adjacent_spec(self, node, #[trigger] r@[i], dims),
            decreases deltas@.len() - k,
        {
            let d = deltas[k];
            let q = Node { x: node.x + d.x, y: node.y + d.y };
            proof {
                assert(q == node_add(node, delta_seq(self)[k as int]));
            }
            if in_bounds(q, dims) {
                proof {
                    assert(neighbor_seq_from(self, node, dims, k as int)
                        == seq![q] + neighbor_seq_from(self, node, dims, k as int + 1));
                    assert(r@ + (seq![q] + neighbor_seq_from(self, node, dims, k as int + 1))
                        =~= (r@ + seq![q]) + neighbor_seq_from(self, node, dims, k as int + 1));
                }
                r.push(q);
            } else {
                proof {
                    assert(neighbor_seq_from(self, node, dims, k as int)
                        == neighbor_seq_from(self, node, dims, k as int + 1));
                }
            }
            k = k + 1;
        }
        proof {
            assert(neighbor_seq_from(self, node, dims, deltas@.len() as int) =~= Seq::<Node>::empty());
            assert(r@ + Seq::<Node>::empty() =~= r@);
        }
        r
    }

    /// The deltas of the strategy as an executable vector.
    fn delta_vec(self) -> (r: Vec<Node>)
        ensures
            r@ == delta_seq(self),
    {
        let mut r: Vec<Node> = Vec::new();
        r.push(Node { x: 1, y: 0 });
        r.push(Node { x: -1, y: 0 });
        r.push(Node { x: 0, y: 1 });
        r.push(Node { x: 0, y: -1 });
        match self {
            Movement::Orthogonal => {
                proof {
                    assert(r@ =~= delta_seq(self));
                }
            }
            Movement::Diagonal => {
                r.push(Node { x: 1, y: 1 });
                r.push(Node { x: 1, y: -1 });
                r.push(Node { x: -1, y: 1 });
                r.push(Node { x: -1, y: -1 });
                proof {
                    assert(r@ =~= delta_seq(self));
                }
            }
        }
        r
    }
}

} // verus!
