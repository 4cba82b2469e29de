//! Boundary synthesis: closing an open control-point set.
//!
//! Given raw nodes and the domain rectangle, emits synthetic boundary nodes
//! placed at the rectangle's corners and evenly spaced along its edges, each
//! inheriting erodibility and ocean flag from the raw node nearest to the
//! boundary position (ties broken deterministically toward the earliest raw
//! node). Pure and deterministic; fails exactly when the raw sequence is
//! empty, since no nearest neighbour exists then.

use vstd::prelude::*;

verus! {

use crate::node::{Node, nodes_ok, sq_dist, sq_dist_exec, coord_ok, COORD_LIMIT};

/// Why boundary synthesis can fail.
#[derive(Clone, Copy, Debug, PartialEq, Eq, Structural)]
pub enum BoundaryError {
    /// The raw-node sequence is empty, so no attributes can be inherited.
    EmptyNodes,
}

/// Index of the first node among `s[0 .. m]` at minimal squared Euclidean
/// distance from `(x, y)`: earlier nodes win ties.
pub open spec fn first_nearest_upto(s: Seq<Node>, x: int, y: int, m: int) -> int
    decreases m,
{
    if m <= 1 {
        0
    } else {
        let p = first_nearest_upto(s, x, y, m - 1);
        if sq_dist(x, y, s[m - 1].x as int, s[m - 1].y as int) < sq_dist(
            x,
            y,
            s[p].x as int,
            s[p].y as int,
        ) {
            m - 1
        } else {
            p
        }
    }
}

/// Index of the first node of `s` at minimal squared distance from `(x, y)`.
pub open spec fn first_nearest(s: Seq<Node>, x: int, y: int) -> int {
    first_nearest_upto(s, x, y, s.len() as int)
}

/// `s[i]` is the first node at minimal squared Euclidean distance from
/// `(x, y)`: no node is strictly nearer, and every earlier node is strictly
/// farther.
pub open spec fn is_first_nearest(s: Seq<Node>, x: int, y: int, i: int) -> bool {
    &&& 0 <= i < s.len()
    &&& forall|j: int|
        0 <= j < s.len() ==> sq_dist(x, y, s[i].x as int, s[i].y as int) <= sq_dist(
            x,
            y,
            (#[trigger] s[j]).x as int,
            s[j].y as int,
        )
    &&& forall|j: int|
        0 <= j < i ==> sq_dist(x, y, (#[trigger] s[j]).x as int, s[j].y as int) > sq_dist(
            x,
            y,
            s[i].x as int,
            s[i].y as int,
        )
}

proof fn lemma_first_nearest_upto_sound(s: Seq<Node>, x: int, y: int, m: int)
    requires
        1 <= m <= s.len(),
    ensures
        ({
            let p = first_nearest_upto(s, x, y, m);
            &&& 0 <= p < m
            &&& forall|j: int|
                0 <= j < m ==> sq_dist(x, y, s[p].x as int, s[p].y as int) <= sq_dist(
                    x,
                    y,
                    (#[trigger] s[j]).x as int,
                    s[j].y as int,
                )
            &&& forall|j: int|
                0 <= j < p ==> sq_dist(x, y, (#[trigger] s[j]).x as int, s[j].y as int) > sq_dist(
                    x,
                    y,
                    s[p].x as int,
                    s[p].y as int,
                )
        }),
    decreases m,
{
    if m > 1 {
        lemma_first_nearest_upto_sound(s, x, y, m - 1);
    }
}

/// The nearest-node choice is sound: the index that boundary synthesis
/// inherits attributes from points at a node whose squared Euclidean distance
/// to the queried position is minimal, and ties go to the earliest such node,
/// deterministically for a fixed input order.
pub proof fn lemma_first_nearest_is_nearest(s: Seq<Node>, x: int, y: int)
    requires
        s.len() > 0,
    ensures
        is_first_nearest(s, x, y, first_nearest(s, x, y)),
{
    lemma_first_nearest_upto_sound(s, x, y, s.len() as int);
}

/// Index of the first raw node at minimal squared distance from `(x, y)`.
pub fn nearest_index(nodes: &Vec<Node>, x: i64, y: i64) -> (i: usize)
    requires
        nodes@.len() > 0,
        nodes_ok(nodes@),
        coord_ok(x),
        coord_ok(y),
    ensures
        i == first_nearest(nodes@, x as int, y as int),
        is_first_nearest(nodes@, x as int, y as int, i as int),
{
    let mut best: usize = 0;
    let mut best_d: i64 = sq_dist_exec(x, y, nodes[0].x, nodes[0].y);
    let mut j: usize = 1;
    while j < nodes.len()
        invariant
            nodes@.len() > 0,
            nodes_ok(nodes@),
            coord_ok(x),
            coord_ok(y),
            1 <= j <= nodes@.len(),
            best == first_nearest_upto(nodes@, x as int, y as int, j as int),
            0 <= best < j,
            best_d == sq_dist(
                x as int,
                y as int,
                nodes@[best as int].x as int,
                nodes@[best as int].y as int,
            ),
        decreases nodes@.len() - j,
    {
        let d = sq_dist_exec(x, y, nodes[j].x, nodes[j].y);
        if d < best_d {
            best = j;
            best_d = d;
        }
        j = j + 1;
    }
    proof {
        lemma_first_nearest_is_nearest(nodes@, x as int, y as int);
    }
    best
}

/// The column of boundary position number `k`, for a rectangle of extent
/// `(bx, by)` with `e` positions per edge: edge `k / e` runs from one corner
/// toward the next, counterclockwise from the origin, and step `k % e` moves
/// evenly along it.
pub open spec fn boundary_x(bx: int, by: int, e: int, k: int) -> int {
    let edge = k / e;
    let j = k % e;
    if edge == 0 {
        bx * j / e
    } else if edge == 1 {
        bx
    } else if edge == 2 {
        bx - bx * j / e
    } else {
        0
    }
}

/// The row of boundary position number `k`; see `boundary_x`.
pub open spec fn boundary_y(bx: int, by: int, e: int, k: int) -> int {
    let edge = k / e;
    let j = k % e;
    if edge == 0 {
        0
    } else if edge == 1 {
        by * j / e
    } else if edge == 2 {
        by
    } else {
        by - by * j / e
    }
}

/// A step along one edge stays within the rectangle: `0 <= b * j / e <= b`.
proof fn lemma_edge_step_in_range(b: int, j: int, e: int)
    requires
        0 <= b,
        0 <= j < e,
    ensures
        0 <= b * j / e <= b,
{
    assert(0 <= b * j / e && b * j / e <= b) by (nonlinear_arith)
        requires
            0 <= b,
            0 <= j < e,
    ;
}

/// The attributes synthesized for a boundary position: those of the first
/// nearest raw node.
pub open spec fn inherits_nearest(s: Seq<Node>, n: Node) -> bool {
    let i = first_nearest(s, n.x as int, n.y as int);
    n.erodibility == s[i].erodibility && n.is_ocean == s[i].is_ocean
}

/// Synthesizes `4 * edge_node` boundary nodes for the rectangle
/// `[0, bound_x] x [0, bound_y]`: position number `k` stands at
/// `(boundary_x(k), boundary_y(k))` and carries the erodibility and ocean
/// flag of the first nearest raw node. Fails exactly on an empty raw
/// sequence.
pub fn synthesize_boundary(
    nodes: &Vec<Node>,
    bound_x: i64,
    bound_y: i64,
    edge_node: usize,
) -> (r: Result<Vec<Node>, BoundaryError>)
    requires
        nodes_ok(nodes@),
        coord_ok(bound_x),
        coord_ok(bound_y),
        edge_node <= COORD_LIMIT,
        4 * edge_node <= usize::MAX,
    ensures
        r is Err <==> nodes@.len() == 0,
        r matches Ok(v) ==> {
            &&& v@.len() == 4 * edge_node
            &&& nodes_ok(v@)
            &&& forall|k: int|
                0 <= k < v@.len() ==> (#[trigger] v@[k]).x == boundary_x(
                    bound_x as int,
                    bound_y as int,
                    edge_node as int,
                    k,
                ) && v@[k].y == boundary_y(bound_x as int, bound_y as int, edge_node as int, k)
            &&& forall|k: int| 0 <= k < v@.len() ==> inherits_nearest(nodes@, #[trigger] v@[k])
        },
{
    if nodes.len() == 0 {
        return Err(BoundaryError::EmptyNodes);
    }
    let e = edge_node;
    let mut out: Vec<Node> = Vec::new();
    if e == 0 {
        return Ok(out);
    }
    let mut edge: usize = 0;
    while edge < 4
        invariant
            nodes@.len() > 0,
            nodes_ok(nodes@),
            coord_ok(bound_x),
            coord_ok(bound_y),
            1 <= e <= COORD_LIMIT,
            4 * e <= usize::MAX,
            edge <= 4,
            out@.len() == edge * e,
            nodes_ok(out@),
            forall|k: int|
                0 <= k < out@.len() ==> (#[trigger] out@[k]).x == boundary_x(
                    bound_x as int,
                    bound_y as int,
                    e as int,
                    k,
                ) && out@[k].y == boundary_y(bound_x as int, bound_y as int, e as int, k),
            forall|k: int| 0 <= k < out@.len() ==> inherits_nearest(nodes@, #[trigger] out@[k]),
        decreases 4 - edge,
    {
        let mut j: usize = 0;
        while j < e
            invariant
                nodes@.len() > 0,
                nodes_ok(nodes@),
                coord_ok(bound_x),
                coord_ok(bound_y),
                1 <= e <= COORD_LIMIT,
                4 * e <= usize::MAX,
                edge < 4,
                j <= e,
                out@.len() == edge * e + j,
                nodes_ok(out@),
                forall|k: int|
                    0 <= k < out@.len() ==> (#[trigger] out@[k]).x == boundary_x(
                        bound_x as int,
                        bound_y as int,
                        e as int,
                        k,
                    ) && out@[k].y == boundary_y(bound_x as int, bound_y as int, e as int, k),
                forall|k: int| 0 <= k < out@.len() ==> inherits_nearest(nodes@, #[trigger] out@[k]),
            decreases e - j,
        {
            proof {
                assert(edge * e + j < 4 * e && edge * e + j >= 0) by (nonlinear_arith)
                    requires
                        edge < 4,
                        j < e,
                        e >= 1,
                        edge >= 0,
                        j >= 0,
                ;
                vstd::arithmetic::div_mod::lemma_fundamental_div_mod_converse(
                    edge * e + j,
                    e as int,
                    edge as int,
                    j as int,
                );
                lemma_edge_step_in_range(bound_x as int, j as int, e as int);
                lemma_edge_step_in_range(bound_y as int, j as int, e as int);
                assert(0 <= bound_x * (j as int) <= 1_000_000_000_000_000_000 && 0 <= bound_y * (
                j as int) <= 1_000_000_000_000_000_000) by (nonlinear_arith)
                    requires
                        0 <= bound_x <= 1_000_000_000,
                        0 <= bound_y <= 1_000_000_000,
                        0 <= j <= 1_000_000_000,
                ;
            }
            let step_x: i64 = bound_x * (j as i64) / (e as i64);
            let step_y: i64 = bound_y * (j as i64) / (e as i64);
            let (px, py): (i64, i64) = if edge == 0 {
                (step_x, 0)
            } else if edge == 1 {
                (bound_x, step_y)
            } else if edge == 2 {
                (bound_x - step_x, bound_y)
            } else {
                (0, bound_y - step_y)
            };
            let near = nearest_index(nodes, px, py);
            let chosen = nodes[near];
            out.push(
                Node { x: px, y: py, erodibility: chosen.erodibility, is_ocean: chosen.is_ocean },
            );
            j = j + 1;
        }
        edge = edge + 1;
        proof {
            assert((edge - 1) * e + e == edge * e) by (nonlinear_arith);
        }
    }
    Ok(out)
}

} // verus!
