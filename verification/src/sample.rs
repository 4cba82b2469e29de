//! Seeded pseudo-random sampling and the resampler's collection logic.
//!
//! The resampler draws a fixed count of pseudo-random query points inside the
//! domain rectangle from an explicitly seeded generator, queries an outside
//! interpolation service at each point, and keeps exactly the points whose
//! query produced a value: points outside the convex hull are silently
//! dropped, so a sparse result is not an error.

use vstd::prelude::*;

verus! {

use crate::node::{Node, nodes_ok, coord_ok, COORD_LIMIT};

/// The outside pseudo-random generator the sampler draws from; opaque here,
/// deterministic for a fixed seed.
#[verifier::external_type_specification]
#[verifier::external_body]
pub struct ExStdRng(rand::rngs::StdRng);

/// Relies on rand::SeedableRng::seed_from_u64 for rand::rngs::StdRng: builds
/// a generator whose draws are a function of the seed alone.
#[verifier::external_body]
pub(crate) fn rng_from_seed(seed: u64) -> rand::rngs::StdRng {
    <rand::rngs::StdRng as rand::SeedableRng>::seed_from_u64(seed)
}

/// Relies on rand::Rng::gen_range over `0..bound`: returns a value below
/// `bound`; it panics only on an empty range, which the precondition rules
/// out. Nothing else can be promised of a random draw.
#[verifier::external_body]
pub(crate) fn rng_below(rng: &mut rand::rngs::StdRng, bound: u64) -> (r: u64)
    requires
        bound >= 1,
    ensures
        r < bound,
{
    rand::Rng::gen_range(rng, 0..bound)
}

/// Draws `count` pseudo-random query points inside the rectangle
/// `[0, bound_x) x [0, bound_y)` from a generator seeded with `seed`. Every
/// point lies strictly inside the bounds; for a fixed seed the sequence is
/// reproducible.
pub fn sample_points(count: usize, bound_x: i64, bound_y: i64, seed: u64) -> (pts: Vec<(i64, i64)>)
    requires
        1 <= bound_x <= COORD_LIMIT,
        1 <= bound_y <= COORD_LIMIT,
    ensures
        pts@.len() == count,
        forall|k: int|
            0 <= k < pts@.len() ==> 0 <= (#[trigger] pts@[k]).0 < bound_x && 0 <= pts@[k].1
                < bound_y,
{
    let mut rng = rng_from_seed(seed);
    let mut pts: Vec<(i64, i64)> = Vec::new();
    let mut i: usize = 0;
    while i < count
        invariant
            i <= count,
            pts@.len() == i,
            1 <= bound_x <= COORD_LIMIT,
            1 <= bound_y <= COORD_LIMIT,
            forall|k: int|
                0 <= k < pts@.len() ==> 0 <= (#[trigger] pts@[k]).0 < bound_x && 0 <= pts@[k].1
                    < bound_y,
        decreases count - i,
    {
        let x = rng_below(&mut rng, bound_x as u64);
        let y = rng_below(&mut rng, bound_y as u64);
        pts.push((x as i64, y as i64));
        i = i + 1;
    }
    pts
}

/// The nodes kept from sampled points and their interpolation results: a
/// point whose query returned a value becomes a node at that point carrying
/// the interpolated erodibility and ocean flag; a point whose query returned
/// nothing is dropped.
pub open spec fn merged_samples(ps: Seq<(i64, i64)>, ats: Seq<Option<(i64, bool)>>) -> Seq<Node>
    decreases ps.len(),
{
    if ps.len() == 0 {
        Seq::empty()
    } else {
        let rest = merged_samples(ps.drop_last(), ats.drop_last());
        match ats.last() {
            Some(a) => rest.push(
                (Node {
                    x: ps.last().0,
                    y: ps.last().1,
                    erodibility: a.0,
                    is_ocean: a.1,
                }),
            ),
            None => rest,
        }
    }
}

/// Pairs sampled points with the interpolation results an outside service
/// returned for them and keeps exactly the points that got a value, in
/// order.
pub fn collect_samples(points: &Vec<(i64, i64)>, attrs: &Vec<Option<(i64, bool)>>) -> (r: Vec<
    Node,
>)
    requires
        points@.len() == attrs@.len(),
        forall|k: int|
            0 <= k < points@.len() ==> coord_ok((#[trigger] points@[k]).0) && coord_ok(
                points@[k].1,
            ),
        forall|k: int|
            0 <= k < attrs@.len() ==> ((#[trigger] attrs@[k]) matches Some(a) ==> coord_ok(a.0)),
    ensures
        r@ == merged_samples(points@, attrs@),
        nodes_ok(r@),
{
    let mut r: Vec<Node> = Vec::new();
    let mut i: usize = 0;
    while i < points.len()
        invariant
            i <= points@.len(),
            points@.len() == attrs@.len(),
            forall|k: int|
                0 <= k < points@.len() ==> coord_ok((#[trigger] points@[k]).0) && coord_ok(
                    points@[k].1,
                ),
            forall|k: int|
                0 <= k < attrs@.len() ==> ((#[trigger] attrs@[k]) matches Some(a) ==> coord_ok(
                    a.0,
                )),
            r@ == merged_samples(points@.take(i as int), attrs@.take(i as int)),
            nodes_ok(r@),
        decreases points@.len() - i,
    {
        proof {
            assert(points@.take(i as int + 1).drop_last() =~= points@.take(i as int));
            assert(attrs@.take(i as int + 1).drop_last() =~= attrs@.take(i as int));
        }
        let p = points[i];
        match attrs[i] {
            Some(a) => {
                r.push(Node { x: p.0, y: p.1, erodibility: a.0, is_ocean: a.1 });
            },
            None => {},
        }
        i = i + 1;
    }
    proof {
        assert(points@.take(points@.len() as int) =~= points@);
        assert(attrs@.take(attrs@.len() as int) =~= attrs@);
    }
    r
}

/// The indices of the ocean nodes of a sequence, in ascending order: the
/// outlet sites handed to the outside elevation model.
pub open spec fn outlet_indices(s: Seq<Node>) -> Seq<int>
    decreases s.len(),
{
    if s.len() == 0 {
        Seq::empty()
    } else {
        let rest = outlet_indices(s.drop_last());
        if s.last().is_ocean {
            rest.push(s.len() - 1)
        } else {
            rest
        }
    }
}

/// Collects the indices of the nodes flagged as ocean, in ascending order.
pub fn collect_outlets(nodes: &Vec<Node>) -> (r: Vec<usize>)
    ensures
        r@.map_values(|v: usize| v as int) == outlet_indices(nodes@),
{
    let mut r: Vec<usize> = Vec::new();
    let mut i: usize = 0;
    while i < nodes.len()
        invariant
            i <= nodes@.len(),
            r@.map_values(|v: usize| v as int) == outlet_indices(nodes@.take(i as int)),
        decreases nodes@.len() - i,
    {
        proof {
            assert(nodes@.take(i as int + 1).drop_last() =~= nodes@.take(i as int));
        }
        if nodes[i].is_ocean {
            r.push(i);
            proof {
                assert(r@.map_values(|v: usize| v as int) =~= outlet_indices(
                    nodes@.take(i as int + 1),
                ));
            }
        }
        i = i + 1;
    }
    proof {
        assert(nodes@.take(nodes@.len() as int) =~= nodes@);
    }
    r
}

} // verus!
