//! Control points and the fixed-point arithmetic they are measured with.
//!
//! A `Node` is a control point: a position in domain units together with an
//! erodibility scalar and an ocean flag. Positions and scalars are plain
//! integers; scalars that stand for fractions (interpolation weights, ramp
//! positions) are fixed-point values with denominator `FP_ONE`.

use vstd::prelude::*;

verus! {

/// Denominator of all fixed-point fractions in this crate.
pub const FP_ONE: i64 = 1000;

/// Upper bound on coordinates and erodibility values, chosen so that a
/// squared Euclidean distance between two in-range points fits in an `i64`.
pub const COORD_LIMIT: i64 = 1_000_000_000;

/// A control point: position, erodibility and ocean flag.
/// Immutable value; synthesis and interpolation build new ones.
#[derive(Clone, Copy, Debug, PartialEq, Eq, Structural)]
pub struct Node {
    pub x: i64,
    pub y: i64,
    pub erodibility: i64,
    pub is_ocean: bool,
}

/// A coordinate or scalar lies in the range the crate's arithmetic is safe for.
pub open spec fn coord_ok(c: i64) -> bool {
    0 <= c <= COORD_LIMIT
}

/// The node lies inside the domain rectangle model: nonnegative coordinates
/// and erodibility, all bounded by `COORD_LIMIT`.
pub open spec fn node_ok(n: Node) -> bool {
    coord_ok(n.x) && coord_ok(n.y) && coord_ok(n.erodibility)
}

/// Every node of the sequence is in range.
pub open spec fn nodes_ok(s: Seq<Node>) -> bool {
    forall|i: int| 0 <= i < s.len() ==> node_ok(#[trigger] s[i])
}

/// One linearly interpolated fixed-point component: the value at weight `t`
/// between `a` (at weight 0) and `b` (at weight `FP_ONE`).
pub open spec fn lerp_component(a: int, b: int, t: int) -> int {
    (a * (FP_ONE - t) + b * t) / (FP_ONE as int)
}

impl Node {
    /// Interpolates two nodes at fixed-point weight `t`. Position and
    /// erodibility blend linearly; the ocean flag does not blend: it is the
    /// flag of whichever endpoint the weight is nearer, the first below the
    /// midpoint and the second from it upward.
    pub fn lerp(&self, other: &Node, t: i64) -> (r: Node)
        requires
            node_ok(*self),
            node_ok(*other),
            0 <= t <= FP_ONE,
        ensures
            r.x == lerp_component(self.x as int, other.x as int, t as int),
            r.y == lerp_component(self.y as int, other.y as int, t as int),
            r.erodibility == lerp_component(
                self.erodibility as int,
                other.erodibility as int,
                t as int,
            ),
            r.is_ocean == if t < FP_ONE / 2 {
                self.is_ocean
            } else {
                other.is_ocean
            },
            node_ok(r),
    {
        let x = lerp_component_exec(self.x, other.x, t);
        let y = lerp_component_exec(self.y, other.y, t);
        let erodibility = lerp_component_exec(self.erodibility, other.erodibility, t);
        let is_ocean = if t < FP_ONE / 2 {
            self.is_ocean
        } else {
            other.is_ocean
        };
        Node { x, y, erodibility, is_ocean }
    }
}

/// Rescales ingested nodes from pixel space into the domain rectangle: each
/// coordinate is multiplied by `bound / size` for the matching axis, in
/// integers; erodibility and ocean flag pass through unchanged. Pixel
/// coordinates at most `size_x` and `size_y` stay inside the rectangle.
pub fn scale_nodes(
    nodes: &Vec<Node>,
    bound_x: i64,
    size_x: i64,
    bound_y: i64,
    size_y: i64,
) -> (r: Vec<Node>)
    requires
        nodes_ok(nodes@),
        coord_ok(bound_x),
        coord_ok(bound_y),
        1 <= size_x <= COORD_LIMIT,
        1 <= size_y <= COORD_LIMIT,
        forall|k: int|
            0 <= k < nodes@.len() ==> (#[trigger] nodes@[k]).x <= size_x && nodes@[k].y <= size_y,
    ensures
        r@.len() == nodes@.len(),
        nodes_ok(r@),
        forall|k: int|
            0 <= k < r@.len() ==> {
                let n = nodes@[k];
                (#[trigger] r@[k]) == (Node {
                    x: (n.x * bound_x / (size_x as int)) as i64,
                    y: (n.y * bound_y / (size_y as int)) as i64,
                    erodibility: n.erodibility,
                    is_ocean: n.is_ocean,
                })
            },
{
    let mut r: Vec<Node> = Vec::new();
    let mut i: usize = 0;
    while i < nodes.len()
        invariant
            i <= nodes@.len(),
            nodes_ok(nodes@),
            coord_ok(bound_x),
            coord_ok(bound_y),
            1 <= size_x <= COORD_LIMIT,
            1 <= size_y <= COORD_LIMIT,
            forall|k: int|
                0 <= k < nodes@.len() ==> (#[trigger] nodes@[k]).x <= size_x && nodes@[k].y
                    <= size_y,
            r@.len() == i,
            nodes_ok(r@),
            forall|k: int|
                0 <= k < r@.len() ==> {
                    let n = nodes@[k];
                    (#[trigger] r@[k]) == (Node {
                        x: (n.x * bound_x / (size_x as int)) as i64,
                        y: (n.y * bound_y / (size_y as int)) as i64,
                        erodibility: n.erodibility,
                        is_ocean: n.is_ocean,
                    })
                },
        decreases nodes@.len() - i,
    {
        let n = nodes[i];
        let x = scale_component(n.x, bound_x, size_x);
        let y = scale_component(n.y, bound_y, size_y);
        r.push(Node { x, y, erodibility: n.erodibility, is_ocean: n.is_ocean });
        i = i + 1;
    }
    r
}

/// Rescales one coordinate: `c * bound / size`, staying within the bound for
/// `c` at most `size`.
fn scale_component(c: i64, bound: i64, size: i64) -> (r: i64)
    requires
        0 <= c <= size,
        coord_ok(bound),
        1 <= size <= COORD_LIMIT,
    ensures
        r == c * bound / (size as int),
        coord_ok(r),
{
    proof {
        assert(0 <= c * bound && c * bound <= size * bound
            && c * bound <= 1_000_000_000_000_000_000) by (nonlinear_arith)
            requires
                0 <= c <= size,
                0 <= bound <= 1_000_000_000,
                1 <= size <= 1_000_000_000,
        ;
        vstd::arithmetic::div_mod::lemma_div_pos_is_pos(c as int * bound, size as int);
        vstd::arithmetic::div_mod::lemma_div_is_ordered(
            c as int * bound,
            size as int * bound,
            size as int,
        );
        vstd::arithmetic::div_mod::lemma_div_multiples_vanish(bound as int, size as int);
    }
    c * bound / size
}

/// Computes one interpolated fixed-point component; the result stays between
/// 0 and `COORD_LIMIT` when both endpoints do.
fn lerp_component_exec(a: i64, b: i64, t: i64) -> (r: i64)
    requires
        coord_ok(a),
        coord_ok(b),
        0 <= t <= FP_ONE,
    ensures
        r == lerp_component(a as int, b as int, t as int),
        coord_ok(r),
{
    proof {
        assert(0 <= a * (FP_ONE - t) + b * t <= COORD_LIMIT * FP_ONE) by (nonlinear_arith)
            requires
                0 <= a <= COORD_LIMIT,
                0 <= b <= COORD_LIMIT,
                0 <= t <= FP_ONE,
        ;
        vstd::arithmetic::div_mod::lemma_div_pos_is_pos(
            a as int * (FP_ONE - t) + b as int * t,
            FP_ONE as int,
        );
        vstd::arithmetic::div_mod::lemma_div_is_ordered(
            a as int * (FP_ONE - t) + b as int * t,
            COORD_LIMIT as int * FP_ONE,
            FP_ONE as int,
        );
        vstd::arithmetic::div_mod::lemma_div_multiples_vanish(
            COORD_LIMIT as int,
            FP_ONE as int,
        );
        assert(FP_ONE as int * COORD_LIMIT == COORD_LIMIT as int * FP_ONE) by (nonlinear_arith);
    }
    (a * (FP_ONE - t) + b * t) / FP_ONE
}

/// Squared Euclidean distance between two points.
pub open spec fn sq_dist(x1: int, y1: int, x2: int, y2: int) -> int {
    (x1 - x2) * (x1 - x2) + (y1 - y2) * (y1 - y2)
}

/// Computes the squared Euclidean distance between two in-range points.
pub fn sq_dist_exec(x1: i64, y1: i64, x2: i64, y2: i64) -> (r: i64)
    requires
        coord_ok(x1),
        coord_ok(y1),
        coord_ok(x2),
        coord_ok(y2),
    ensures
        r == sq_dist(x1 as int, y1 as int, x2 as int, y2 as int),
        0 <= r <= 2_000_000_000_000_000_000,
{
    let dx: i64 = x1 - x2;
    let dy: i64 = y1 - y2;
    proof {
        assert(dx * dx <= 1_000_000_000_000_000_000 && dx * dx >= 0) by (nonlinear_arith)
            requires -1_000_000_000 <= dx <= 1_000_000_000;
        assert(dy * dy <= 1_000_000_000_000_000_000 && dy * dy >= 0) by (nonlinear_arith)
            requires -1_000_000_000 <= dy <= 1_000_000_000;
    }
    dx * dx + dy * dy
}

} // verus!
