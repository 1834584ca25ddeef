//! Grid cells, dimensions and the small vector algebra used by the engine.

use vstd::prelude::*;

verus! {

/// Largest accepted number of rows or columns. Keeping the dimensions this
/// small lets every coordinate computation (cell indices, Manhattan
/// distances, displacement vectors) stay far away from integer overflow.
pub const MAX_DIM: i32 = 32768;

/// A discrete grid cell coordinate.
#[derive(Copy, Clone, PartialEq, Eq, Structural, Hash, Debug)]
pub struct Node {
    pub x: i32,
    pub y: i32,
}

/// The dimensions of the rectangular grid.
#[derive(Copy, Clone, PartialEq, Eq, Structural, Debug)]
pub struct GridDims {
    pub columns: i32,
    pub rows: i32,
}

impl GridDims {
    /// A usable grid is non-empty and small enough that all coordinate
    /// arithmetic fits comfortably in the machine integers.
    pub open spec fn wf(self) -> bool {
        0 < self.columns <= MAX_DIM && 0 < self.rows <= MAX_DIM
    }

    /// Number of cells of the grid.
    pub open spec fn cell_count(self) -> int {
        self.columns * self.rows
    }
}

/// Whether a node lies on the grid.
pub open spec fn in_bounds_spec(n: Node, dims: GridDims) -> bool {
    0 <= n.x < dims.columns && 0 <= n.y < dims.rows
}

pub fn in_bounds(n: Node, dims: GridDims) -> (r: bool)
    ensures
        r == in_bounds_spec(n, dims),
{
    n.x >= 0 && n.y >= 0 && n.x < dims.columns && n.y < dims.rows
}

/// Row-major position of an in-bounds node.
pub open spec fn node_index(n: Node, dims: GridDims) -> int {
    n.y * dims.columns + n.x
}

/// The row-major numbering is a bijection between in-bounds nodes and
/// `0 .. cell_count`.
pub proof fn lemma_node_index_bijective(a: Node, b: Node, dims: GridDims)
    requires
        dims.wf(),
        in_bounds_spec(a, dims),
        in_bounds_spec(b, dims),
    ensures
        0 <= node_index(a, dims) < dims.cell_count(),
        node_index(a, dims) == node_index(b, dims) ==> a == b,
{
    assert(0 <= a.y * dims.columns + a.x < dims.columns * dims.rows
        && (a.y * dims.columns + a.x == b.y * dims.columns + b.x ==> a.x == b.x && a.y == b.y))
        by (nonlinear_arith)
        requires
            0 < dims.columns,
            0 < dims.rows,
            0 <= a.x < dims.columns,
            0 <= a.y < dims.rows,
            0 <= b.x < dims.columns,
            0 <= b.y < dims.rows,
    ;
}

pub fn cell_index(n: Node, dims: GridDims) -> (i: usize)
    requires
        dims.wf(),
        in_bounds_spec(n, dims),
    ensures
        i == node_index(n, dims),
        i < dims.cell_count(),
{
    proof {
        lemma_node_index_bijective(n, n, dims);
        assert(n.y * dims.columns + n.x < MAX_DIM * MAX_DIM + MAX_DIM) by (nonlinear_arith)
            requires
                0 <= n.x < dims.columns,
                0 <= n.y < dims.rows,
                0 < dims.columns <= MAX_DIM,
                0 < dims.rows <= MAX_DIM,
        ;
    }
    (n.y as usize) * (dims.columns as usize) + (n.x as usize)
}

/// A displacement whose components are -1, 0 or 1: a single-step heading.
pub open spec fn small_dir(d: Node) -> bool {
    -1 <= d.x <= 1 && -1 <= d.y <= 1
}

/// The displacement vector that moves `a` to `b`.
pub fn move_dir(a: Node, b: Node) -> (d: Node)
    requires
        -MAX_DIM <= a.x <= MAX_DIM,
        -MAX_DIM <= a.y <= MAX_DIM,
        -MAX_DIM <= b.x <= MAX_DIM,
        -MAX_DIM <= b.y <= MAX_DIM,
    ensures
        d.x == b.x - a.x,
        d.y == b.y - a.y,
{
    Node { x: b.x - a.x, y: b.y - a.y }
}

/// Dot product of two single-step headings.
pub fn dot(a: Node, b: Node) -> (r: i32)
    requires
        small_dir(a),
        small_dir(b),
    ensures
        r == a.x * b.x + a.y * b.y,
        -2 <= r <= 2,
{
    proof {
        assert(-1 <= a.x * b.x <= 1 && -1 <= a.y * b.y <= 1) by (nonlinear_arith)
            requires
                -1 <= a.x <= 1,
                -1 <= a.y <= 1,
                -1 <= b.x <= 1,
                -1 <= b.y <= 1,
        ;
    }
    a.x * b.x + a.y * b.y
}

pub fn is_zero_dir(d: Node) -> (r: bool)
    ensures
        r == (d.x == 0 && d.y == 0),
{
    d.x == 0 && d.y == 0
}

/// Rotate a heading a quarter turn clockwise (grid y grows downward).
pub open spec fn rotate_right_spec(d: Node) -> Node {
    Node { x: d.y, y: (-d.x) as i32 }
}

pub fn rotate_right(d: Node) -> (r: Node)
    requires
        small_dir(d),
    ensures
        r == rotate_right_spec(d),
        small_dir(r),
{
    Node { x: d.y, y: -d.x }
}

/// Rotate a heading a quarter turn counterclockwise.
pub fn rotate_left(d: Node) -> (r: Node)
    requires
        small_dir(d),
    ensures
        r.x == -d.y,
        r.y == d.x,
        small_dir(r),
{
    Node { x: -d.y, y: d.x }
}

pub open spec fn negate_spec(d: Node) -> Node {
    Node { x: (-d.x) as i32, y: (-d.y) as i32 }
}

pub fn negate(d: Node) -> (r: Node)
    requires
        small_dir(d),
    ensures
        r == negate_spec(d),
        small_dir(r),
{
    Node { x: -d.x, y: -d.y }
}

pub open spec fn spec_signum(v: int) -> int {
    if v > 0 {
        1
    } else if v < 0 {
        -1
    } else {
        0
    }
}

/// The unit-ish heading that points from `from` toward `to`.
pub fn signum_dir(from: Node, to: Node) -> (d: Node)
    requires
        -MAX_DIM <= from.x <= MAX_DIM,
        -MAX_DIM <= from.y <= MAX_DIM,
        -MAX_DIM <= to.x <= MAX_DIM,
        -MAX_DIM <= to.y <= MAX_DIM,
    ensures
        d.x == spec_signum(to.x - from.x),
        d.y == spec_signum(to.y - from.y),
        small_dir(d),
{
    let dx = to.x - from.x;
    let dy = to.y - from.y;
    Node {
        x: if dx > 0 { 1 } else if dx < 0 { -1 } else { 0 },
        y: if dy > 0 { 1 } else if dy < 0 { -1 } else { 0 },
    }
}

/// Membership of a node in a list of nodes, as a plain linear scan.
pub fn contains_node(v: &Vec<Node>, n: Node) -> (r: bool)
    ensures
        r == v@.contains(n),
{
    let mut k: usize = 0;
    while k < v.len()
        invariant
            0 <= k <= v@.len(),
            forall|t: int| 0 <= t < k ==> v@[t] != n,
        decreases v@.len() - k,
    {
        if v[k] == n {
            return true;
        }
        k = k + 1;
    }
    false
}

} // verus!
