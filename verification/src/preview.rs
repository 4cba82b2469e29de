//! Approximate discrete Voronoi diagram by multi-source flood fill.
//!
//! Given a pixel raster and a sequence of seed nodes, every pixel receives
//! the index of a seed, by a Dijkstra-style expansion: one frontier item per
//! seed starts at the pixel nearest the seed, the globally nearest frontier
//! item settles its pixel first (write-once), and each settled pixel proposes
//! its four axis-aligned neighbours with their true squared Euclidean domain
//! distance to the seed. An empty seed sequence yields an empty result.
//!
//! The fill has a functional specification: `preview_labels` replays the
//! whole expansion at the specification level (the total order on frontier
//! items makes every pop deterministic), and both preview entry points are
//! proved to return exactly that model, the grid as its rows and the flat
//! buffer as its row-major flattening.

use vstd::prelude::*;

verus! {

use vstd::multiset::Multiset;
use crate::node::{Node, nodes_ok, sq_dist, sq_dist_exec, coord_ok, COORD_LIMIT};
use crate::queue::{MinQueue, VoronoiPixel, pixel_le};

broadcast use vstd::multiset::group_multiset_axioms;

/// Ceiling division, for nonnegative dividend and positive divisor.
pub open spec fn ceil_div(a: int, b: int) -> int {
    (a + b - 1) / b
}

/// Raster column a seed starts the fill at.
pub open spec fn seed_px(n: Node, pixel_scale: int) -> int {
    ceil_div(n.x as int, pixel_scale)
}

/// Raster row a seed starts the fill at.
pub open spec fn seed_py(n: Node, pixel_scale: int) -> int {
    ceil_div(n.y as int, pixel_scale)
}

/// Every seed's start pixel lies inside a `w` by `h` raster.
pub open spec fn seeds_in_raster(s: Seq<Node>, pixel_scale: int, w: int, h: int) -> bool {
    forall|i: int|
        0 <= i < s.len() ==> seed_px(#[trigger] s[i], pixel_scale) < w && seed_py(
            s[i],
            pixel_scale,
        ) < h
}

/// A frontier item that may enter the queue of a `w` by `h` fill over `n` seeds.
pub open spec fn item_ok(p: VoronoiPixel, w: int, h: int, n: int) -> bool {
    p.px < w && p.py < h && p.node_index < n
}

/// The initial frontier item of seed `i`: its start pixel, at distance zero.
pub open spec fn seed_item(s: Seq<Node>, pixel_scale: int, i: int) -> VoronoiPixel {
    VoronoiPixel {
        px: seed_px(s[i], pixel_scale) as usize,
        py: seed_py(s[i], pixel_scale) as usize,
        node_index: i as usize,
        sqdistance: 0,
    }
}

/// No earlier seed starts at the same pixel as seed `i`: seed `i` is the
/// first claimant of its start pixel.
pub open spec fn is_first_start(s: Seq<Node>, pixel_scale: int, i: int) -> bool {
    forall|j: int|
        0 <= j < i ==> !(seed_px(#[trigger] s[j], pixel_scale) == seed_px(s[i], pixel_scale)
            && seed_py(s[j], pixel_scale) == seed_py(s[i], pixel_scale))
}

/// The claim of the fill on the start pixel of a first-claimant seed `i`:
/// once the pixel is settled it carries label `i`, and until then the seed's
/// own zero-distance item is queued and precedes every queued item for that
/// pixel.
pub open spec fn start_ok(
    s: Seq<Node>,
    pixel_scale: int,
    w: int,
    visited: Seq<bool>,
    labels: Seq<usize>,
    queue: Multiset<VoronoiPixel>,
    i: int,
) -> bool {
    let it = seed_item(s, pixel_scale, i);
    let idx = it.py * w + it.px;
    &&& (visited[idx] ==> labels[idx] == i)
    &&& (!visited[idx] ==> queue.count(it) > 0 && (forall|q: VoronoiPixel|
        #[trigger] queue.count(q) > 0 && q.px == it.px && q.py == it.py ==> crate::queue::pixel_le(
            it,
            q,
        )))
}

/// `start_ok` for every first-claimant seed.
pub open spec fn starts_ok(
    s: Seq<Node>,
    pixel_scale: int,
    w: int,
    visited: Seq<bool>,
    labels: Seq<usize>,
    queue: Multiset<VoronoiPixel>,
) -> bool {
    forall|i: int|
        0 <= i < s.len() && #[trigger] is_first_start(s, pixel_scale, i) ==> start_ok(
            s,
            pixel_scale,
            w,
            visited,
            labels,
            queue,
            i,
        )
}

/// Ceiling division undoes an exact multiple: `ceil_div(a * b, b) == a`.
proof fn lemma_ceil_mul_exact(a: int, b: int)
    requires
        1 <= b,
    ensures
        ceil_div(a * b, b) == a,
{
    assert(a * b + b - 1 == a * b + (b - 1)) by (nonlinear_arith);
    vstd::arithmetic::div_mod::lemma_fundamental_div_mod_converse(a * b + b - 1, b, a, b - 1);
}

/// A squared Euclidean distance is zero exactly when the points coincide.
proof fn lemma_sq_dist_zero(x1: int, y1: int, x2: int, y2: int)
    requires
        sq_dist(x1, y1, x2, y2) == 0,
    ensures
        x1 == x2 && y1 == y2,
{
    assert((x1 - x2) * (x1 - x2) + (y1 - y2) * (y1 - y2) == 0 ==> x1 == x2 && y1 == y2)
        by (nonlinear_arith);
}

/// Two orders of `pixel_le` force equality of the items.
proof fn lemma_pixel_le_antisymmetric(a: VoronoiPixel, b: VoronoiPixel)
    requires
        crate::queue::pixel_le(a, b),
        crate::queue::pixel_le(b, a),
    ensures
        a == b,
{
}

/// What is known of every frontier item pushed while settling a pixel for
/// seed `seed` at `node`: it claims for that seed, with the true squared
/// domain distance of its own pixel to the seed's position.
pub open spec fn pushed_claim(q: VoronoiPixel, seed: int, node: Node, scale: int) -> bool {
    q.node_index == seed && q.sqdistance == sq_dist(
        q.px * scale,
        q.py * scale,
        node.x as int,
        node.y as int,
    ) as i64
}

/// One neighbour claim: the frontier item proposed for pixel `(nx, ny)` by
/// the seed numbered `seed` at position `node`, carrying the true squared
/// Euclidean domain distance from the pixel's domain position to the seed's.
pub open spec fn claim_item(nx: int, ny: int, seed: int, node: Node, pixel_scale: int) -> VoronoiPixel {
    VoronoiPixel {
        px: nx as usize,
        py: ny as usize,
        node_index: seed as usize,
        sqdistance: sq_dist(nx * pixel_scale, ny * pixel_scale, node.x as int, node.y as int) as i64,
    }
}

/// The frontier items a settled pixel proposes: its in-raster axis-aligned
/// neighbours, each claiming for the settling item's seed.
pub open spec fn neighbor_claims(
    p: VoronoiPixel,
    node: Node,
    pixel_scale: int,
    w: int,
    h: int,
) -> Multiset<VoronoiPixel> {
    let m0 = Multiset::<VoronoiPixel>::empty();
    let m1 = if p.py >= 1 {
        m0.insert(claim_item(p.px as int, p.py - 1, p.node_index as int, node, pixel_scale))
    } else {
        m0
    };
    let m2 = if p.px >= 1 {
        m1.insert(claim_item(p.px - 1, p.py as int, p.node_index as int, node, pixel_scale))
    } else {
        m1
    };
    let m3 = if p.px + 1 < w {
        m2.insert(claim_item(p.px + 1, p.py as int, p.node_index as int, node, pixel_scale))
    } else {
        m2
    };
    if p.py + 1 < h {
        m3.insert(claim_item(p.px as int, p.py + 1, p.node_index as int, node, pixel_scale))
    } else {
        m3
    }
}

/// The least frontier item a queue holds; the total order `pixel_le` makes
/// it unique, so the pop order of the fill is a function of the queue alone.
pub open spec fn queue_min(m: Multiset<VoronoiPixel>) -> VoronoiPixel {
    choose|p: VoronoiPixel|
        m.count(p) > 0 && (forall|q: VoronoiPixel| #[trigger] m.count(q) > 0 ==> pixel_le(p, q))
}

/// An item held by the queue that precedes every held item is the queue's
/// minimum.
proof fn lemma_queue_min_is(m: Multiset<VoronoiPixel>, p: VoronoiPixel)
    requires
        m.count(p) > 0,
        forall|q: VoronoiPixel| #[trigger] m.count(q) > 0 ==> pixel_le(p, q),
    ensures
        queue_min(m) == p,
{
    assert(m.count(p) > 0 && (forall|q: VoronoiPixel|
        #[trigger] m.count(q) > 0 ==> pixel_le(p, q)));
    let c = queue_min(m);
    assert(m.count(c) > 0 && (forall|q: VoronoiPixel|
        #[trigger] m.count(q) > 0 ==> pixel_le(c, q)));
    lemma_pixel_le_antisymmetric(c, p);
}

/// Removing a held item shrinks the queue by exactly one.
proof fn lemma_remove_len(m: Multiset<VoronoiPixel>, v: VoronoiPixel)
    requires
        m.count(v) > 0,
    ensures
        m.remove(v).len() + 1 == m.len(),
{
    broadcast use vstd::multiset::group_multiset_axioms;

    assert(Multiset::singleton(v).subset_of(m));
}

/// One spec-level replay of the flood fill from an intermediate state: pop
/// the least frontier item; if its pixel is unsettled, settle it with the
/// item's seed and propose the neighbours; recurse until the queue is empty
/// and return the labels. The executable fill is proved equal to this
/// function, so it is the per-cell semantics of the preview.
#[verifier::opaque]
pub open spec fn fill_from(
    nodes: Seq<Node>,
    pixel_scale: int,
    w: int,
    h: int,
    visited: Seq<bool>,
    labels: Seq<usize>,
    queue: Multiset<VoronoiPixel>,
) -> Seq<usize>
    decreases count_false(visited), queue.len(),
    via fill_from_decreases
{
    if queue.len() == 0 {
        labels
    } else {
        let p = queue_min(queue);
        if queue.count(p) > 0 {
            let rest = queue.remove(p);
            let idx = p.py * w + p.px;
            if 0 <= idx < visited.len() && !visited[idx] && p.node_index < nodes.len() {
                fill_from(
                    nodes,
                    pixel_scale,
                    w,
                    h,
                    visited.update(idx, true),
                    labels.update(idx, p.node_index),
                    rest.add(
                        neighbor_claims(p, nodes[p.node_index as int], pixel_scale, w, h),
                    ),
                )
            } else {
                fill_from(nodes, pixel_scale, w, h, visited, labels, rest)
            }
        } else {
            labels
        }
    }
}

#[via_fn]
proof fn fill_from_decreases(
    nodes: Seq<Node>,
    pixel_scale: int,
    w: int,
    h: int,
    visited: Seq<bool>,
    labels: Seq<usize>,
    queue: Multiset<VoronoiPixel>,
) {
    if queue.len() != 0 {
        let p = queue_min(queue);
        if queue.count(p) > 0 {
            lemma_remove_len(queue, p);
            let idx = p.py * w + p.px;
            if 0 <= idx < visited.len() && !visited[idx] && p.node_index < nodes.len() {
                lemma_count_false_update(visited, idx);
            }
        }
    }
}

/// One skip step of the fill model: popping an item whose pixel is already
/// settled leaves the labels of the run unchanged.
proof fn lemma_fill_skip(
    nodes: Seq<Node>,
    pixel_scale: int,
    w: int,
    h: int,
    visited: Seq<bool>,
    labels: Seq<usize>,
    queue: Multiset<VoronoiPixel>,
    p: VoronoiPixel,
)
    requires
        queue.count(p) > 0,
        forall|q: VoronoiPixel| #[trigger] queue.count(q) > 0 ==> pixel_le(p, q),
        0 <= p.py * w + p.px < visited.len(),
        visited[p.py * w + p.px],
    ensures
        fill_from(nodes, pixel_scale, w, h, visited, labels, queue) == fill_from(
            nodes,
            pixel_scale,
            w,
            h,
            visited,
            labels,
            queue.remove(p),
        ),
{
    reveal(fill_from);
    lemma_queue_min_is(queue, p);
    lemma_remove_len(queue, p);
}

/// One settle step of the fill model: popping an item whose pixel is
/// unsettled settles that pixel with the item's seed and proposes the
/// neighbours.
proof fn lemma_fill_settle(
    nodes: Seq<Node>,
    pixel_scale: int,
    w: int,
    h: int,
    visited: Seq<bool>,
    labels: Seq<usize>,
    queue: Multiset<VoronoiPixel>,
    p: VoronoiPixel,
)
    requires
        queue.count(p) > 0,
        forall|q: VoronoiPixel| #[trigger] queue.count(q) > 0 ==> pixel_le(p, q),
        0 <= p.py * w + p.px < visited.len(),
        !visited[p.py * w + p.px],
        p.node_index < nodes.len(),
    ensures
        fill_from(nodes, pixel_scale, w, h, visited, labels, queue) == fill_from(
            nodes,
            pixel_scale,
            w,
            h,
            visited.update(p.py * w + p.px, true),
            labels.update(p.py * w + p.px, p.node_index),
            queue.remove(p).add(
                neighbor_claims(p, nodes[p.node_index as int], pixel_scale, w, h),
            ),
        ),
{
    reveal(fill_from);
    lemma_queue_min_is(queue, p);
    lemma_remove_len(queue, p);
}

/// An empty queue ends the fill: the labels are final.
proof fn lemma_fill_empty(
    nodes: Seq<Node>,
    pixel_scale: int,
    w: int,
    h: int,
    visited: Seq<bool>,
    labels: Seq<usize>,
    queue: Multiset<VoronoiPixel>,
)
    requires
        queue.len() == 0,
    ensures
        fill_from(nodes, pixel_scale, w, h, visited, labels, queue) == labels,
{
    reveal(fill_from);
}

/// The initial queue of the fill: one zero-distance item per seed of
/// `s[0 .. m]`, at its start pixel.
pub open spec fn seeds_queue(s: Seq<Node>, pixel_scale: int, m: int) -> Multiset<VoronoiPixel>
    decreases m,
{
    if m <= 0 {
        Multiset::empty()
    } else {
        seeds_queue(s, pixel_scale, m - 1).insert(seed_item(s, pixel_scale, m - 1))
    }
}

/// The preview model: the labels the flood fill assigns for these seeds over
/// a `w` by `h` raster, as one flat row-major sequence — the label of pixel
/// `(px, py)` is entry `py * w + px`.
pub open spec fn preview_labels(nodes: Seq<Node>, pixel_scale: int, w: int, h: int) -> Seq<usize> {
    fill_from(
        nodes,
        pixel_scale,
        w,
        h,
        Seq::new((w * h) as nat, |k: int| false),
        Seq::new((w * h) as nat, |k: int| 0usize),
        seeds_queue(nodes, pixel_scale, nodes.len() as int),
    )
}

/// A squared distance between in-range points is nonnegative and fits the
/// item field.
proof fn lemma_sq_dist_range(x1: int, y1: int, x2: int, y2: int)
    requires
        0 <= x1 <= COORD_LIMIT,
        0 <= y1 <= COORD_LIMIT,
        0 <= x2 <= COORD_LIMIT,
        0 <= y2 <= COORD_LIMIT,
    ensures
        0 <= sq_dist(x1, y1, x2, y2) <= 2_000_000_000_000_000_000,
{
    assert(0 <= (x1 - x2) * (x1 - x2) + (y1 - y2) * (y1 - y2) <= 2_000_000_000_000_000_000)
        by (nonlinear_arith)
        requires
            -1_000_000_000 <= x1 - x2 <= 1_000_000_000,
            -1_000_000_000 <= y1 - y2 <= 1_000_000_000,
    ;
}

/// A pixel inside the raster has a flat index inside the raster's area.
proof fn lemma_idx_bound(px: int, py: int, w: int, h: int)
    requires
        0 <= px < w,
        0 <= py < h,
    ensures
        0 <= py * w + px < h * w,
        h * w == w * h,
{
    assert(0 <= py * w + px < h * w && h * w == w * h) by (nonlinear_arith)
        requires
            0 <= px < w,
            0 <= py < h,
    ;
}

/// Flat row-major indexing is injective over in-raster pixels.
proof fn lemma_idx_injective(px1: int, py1: int, px2: int, py2: int, w: int)
    requires
        0 <= px1 < w,
        0 <= px2 < w,
        0 <= py1,
        0 <= py2,
        py1 * w + px1 == py2 * w + px2,
    ensures
        px1 == px2 && py1 == py2,
{
    vstd::arithmetic::div_mod::lemma_fundamental_div_mod_converse(py1 * w + px1, w, py1, px1);
    vstd::arithmetic::div_mod::lemma_fundamental_div_mod_converse(py2 * w + px2, w, py2, px2);
}

/// Number of `false` entries of a boolean sequence; the count of pixels the
/// fill has not settled yet.
pub open spec fn count_false(s: Seq<bool>) -> nat
    decreases s.len(),
{
    if s.len() == 0 {
        0
    } else {
        count_false(s.drop_last()) + if s.last() {
            0nat
        } else {
            1nat
        }
    }
}

/// Settling one unsettled pixel lowers the unsettled count by exactly one.
proof fn lemma_count_false_update(s: Seq<bool>, i: int)
    requires
        0 <= i < s.len(),
        !s[i],
    ensures
        count_false(s.update(i, true)) + 1 == count_false(s),
    decreases s.len(),
{
    let t = s.update(i, true);
    if i == s.len() - 1 {
        assert(t.drop_last() =~= s.drop_last());
    } else {
        assert(t.drop_last() =~= s.drop_last().update(i, true));
        lemma_count_false_update(s.drop_last(), i);
    }
}

/// Computes the ceiling of `a / b`.
fn ceil_div_exec(a: usize, b: usize) -> (r: usize)
    requires
        a <= COORD_LIMIT,
        1 <= b <= COORD_LIMIT,
    ensures
        r == ceil_div(a as int, b as int),
{
    proof {
        assert((a as int + b as int - 1) / (b as int) >= 0) by (nonlinear_arith)
            requires
                a >= 0,
                b >= 1,
        ;
    }
    (a + b - 1) / b
}

/// Pushes the frontier item for pixel `(nx, ny)` claimed by seed `seed` at
/// position `(sx, sy)`, carrying the squared Euclidean distance between the
/// pixel's domain position and the seed's position.
fn push_claim(
    q: &mut MinQueue,
    nx: usize,
    ny: usize,
    seed: usize,
    sx: i64,
    sy: i64,
    pixel_scale: usize,
)
    requires
        old(q).wf(),
        coord_ok(sx),
        coord_ok(sy),
        1 <= pixel_scale,
        nx * pixel_scale <= COORD_LIMIT,
        ny * pixel_scale <= COORD_LIMIT,
    ensures
        final(q).wf(),
        final(q)@ == old(q)@.insert(
            (VoronoiPixel {
                px: nx,
                py: ny,
                node_index: seed,
                sqdistance: sq_dist(
                    nx * pixel_scale as int,
                    ny * pixel_scale as int,
                    sx as int,
                    sy as int,
                ) as i64,
            }),
        ),
{
    let dx: usize = nx * pixel_scale;
    let dy: usize = ny * pixel_scale;
    let sq = sq_dist_exec(dx as i64, dy as i64, sx, sy);
    q.push(VoronoiPixel { px: nx, py: ny, node_index: seed, sqdistance: sq });
}

/// Computes the nearest-seed label raster: `buffer_height` rows of
/// `buffer_width` labels each, every label the index of a seed in `nodes`.
/// An empty seed sequence yields an empty raster and no queue work. The
/// raster is exactly the fill model: cell `(px, py)` carries
/// `preview_labels(..)[py * buffer_width + px]`.
#[verifier::rlimit(100)]
pub fn set_nearest_node_buffer(
    buffer_width: usize,
    buffer_height: usize,
    pixel_scale: usize,
    nodes: &Vec<Node>,
) -> (r: Vec<Vec<usize>>)
    requires
        nodes_ok(nodes@),
        1 <= pixel_scale <= COORD_LIMIT,
        buffer_width * pixel_scale <= COORD_LIMIT,
        buffer_height * pixel_scale <= COORD_LIMIT,
        buffer_width * buffer_height <= usize::MAX,
        seeds_in_raster(nodes@, pixel_scale as int, buffer_width as int, buffer_height as int),
    ensures
        nodes@.len() == 0 ==> r@.len() == 0,
        nodes@.len() > 0 ==> r@.len() == buffer_height,
        forall|i: int| 0 <= i < r@.len() ==> (#[trigger] r@[i])@.len() == buffer_width,
        forall|i: int, j: int|
            0 <= i < r@.len() && 0 <= j < buffer_width ==> (#[trigger] r@[i]@[j]) < nodes@.len(),
        forall|i: int|
            0 <= i < nodes@.len() && #[trigger] is_first_start(nodes@, pixel_scale as int, i)
                ==> r@[seed_py(nodes@[i], pixel_scale as int)]@[seed_px(
                nodes@[i],
                pixel_scale as int,
            )] == i,
        nodes@.len() > 0 ==> preview_labels(
            nodes@,
            pixel_scale as int,
            buffer_width as int,
            buffer_height as int,
        ).len() == buffer_width * buffer_height,
        nodes@.len() > 0 ==> forall|i: int, j: int|
            0 <= i < buffer_height && 0 <= j < buffer_width ==> (#[trigger] r@[i]@[j])
                == preview_labels(
                nodes@,
                pixel_scale as int,
                buffer_width as int,
                buffer_height as int,
            )[i * buffer_width + j],
{
    let w = buffer_width;
    let h = buffer_height;
    let n = nodes.len();
    if n == 0 {
        return Vec::new();
    }
    let total = w * h;

    let mut labels: Vec<usize> = Vec::new();
    while labels.len() < total
        invariant
            labels@.len() <= total,
            forall|k: int| 0 <= k < labels@.len() ==> (#[trigger] labels@[k]) == 0,
        decreases total - labels@.len(),
    {
        labels.push(0);
    }

    let mut visited: Vec<bool> = Vec::new();
    while visited.len() < total
        invariant
            visited@.len() <= total,
            forall|k: int| 0 <= k < visited@.len() ==> !(#[trigger] visited@[k]),
        decreases total - visited@.len(),
    {
        visited.push(false);
    }

    let mut queue = MinQueue::new();
    let mut i: usize = 0;
    while i < n
        invariant
            i <= n,
            n == nodes@.len(),
            nodes_ok(nodes@),
            1 <= pixel_scale <= COORD_LIMIT,
            seeds_in_raster(nodes@, pixel_scale as int, w as int, h as int),
            queue.wf(),
            forall|p: VoronoiPixel|
                #[trigger] queue@.count(p) > 0 ==> item_ok(p, w as int, h as int, n as int),
            forall|p: VoronoiPixel|
                #[trigger] queue@.count(p) > 0 ==> p == seed_item(
                    nodes@,
                    pixel_scale as int,
                    p.node_index as int,
                ),
            forall|j: int|
                0 <= j < i ==> queue@.count(#[trigger] seed_item(nodes@, pixel_scale as int, j))
                    > 0,
            queue@ == seeds_queue(nodes@, pixel_scale as int, i as int),
        decreases n - i,
    {
        proof {
            broadcast use vstd::multiset::group_multiset_axioms;

        }
        let node = nodes[i];
        let px = ceil_div_exec(node.x as usize, pixel_scale);
        let py = ceil_div_exec(node.y as usize, pixel_scale);
        queue.push(VoronoiPixel { px, py, node_index: i, sqdistance: 0 });
        proof {
            assert((VoronoiPixel { px, py, node_index: i, sqdistance: 0 }) == seed_item(
                nodes@,
                pixel_scale as int,
                i as int,
            ));
            assert(seeds_queue(nodes@, pixel_scale as int, i as int + 1) == seeds_queue(
                nodes@,
                pixel_scale as int,
                i as int,
            ).insert(seed_item(nodes@, pixel_scale as int, i as int)));
        }
        i = i + 1;
    }
    let ghost model = preview_labels(nodes@, pixel_scale as int, w as int, h as int);
    proof {
        assert(visited@ =~= Seq::new((w as int * h as int) as nat, |k: int| false));
        assert(labels@ =~= Seq::new((w as int * h as int) as nat, |k: int| 0usize));
        assert(fill_from(
            nodes@,
            pixel_scale as int,
            w as int,
            h as int,
            visited@,
            labels@,
            queue@,
        ) == model);
    }
    proof {
        broadcast use vstd::multiset::group_multiset_axioms;

        assert forall|s: int|
            0 <= s < n && #[trigger] is_first_start(nodes@, pixel_scale as int, s) implies start_ok(
            nodes@,
            pixel_scale as int,
            w as int,
            visited@,
            labels@,
            queue@,
            s,
        ) by {
            let it = seed_item(nodes@, pixel_scale as int, s);
            lemma_idx_bound(it.px as int, it.py as int, w as int, h as int);
            assert(queue@.count(it) > 0);
            assert forall|q: VoronoiPixel|
                #[trigger] queue@.count(q) > 0 && q.px == it.px && q.py == it.py implies
                crate::queue::pixel_le(it, q) by {
                assert(q == seed_item(nodes@, pixel_scale as int, q.node_index as int));
                assert(!(q.node_index < s));
            }
        }
    }

    while queue.len() > 0
        invariant
            n == nodes@.len(),
            n > 0,
            nodes_ok(nodes@),
            1 <= pixel_scale <= COORD_LIMIT,
            w * pixel_scale <= COORD_LIMIT,
            h * pixel_scale <= COORD_LIMIT,
            total == w * h,
            visited@.len() == total,
            labels@.len() == total,
            seeds_in_raster(nodes@, pixel_scale as int, w as int, h as int),
            queue.wf(),
            forall|p: VoronoiPixel|
                #[trigger] queue@.count(p) > 0 ==> item_ok(p, w as int, h as int, n as int),
            forall|k: int| 0 <= k < total ==> (#[trigger] labels@[k]) < n,
            starts_ok(nodes@, pixel_scale as int, w as int, visited@, labels@, queue@),
            model == preview_labels(nodes@, pixel_scale as int, w as int, h as int),
            fill_from(nodes@, pixel_scale as int, w as int, h as int, visited@, labels@, queue@)
                == model,
        decreases count_false(visited@), queue@.len(),
    {
        let ghost qpre = queue@;
        let p = queue.pop();
        proof {
            lemma_idx_bound(p.px as int, p.py as int, w as int, h as int);
            lemma_queue_min_is(qpre, p);
        }
        let idx = p.py * w + p.px;
        if visited[idx] {
            proof {
                lemma_fill_skip(
                    nodes@,
                    pixel_scale as int,
                    w as int,
                    h as int,
                    visited@,
                    labels@,
                    qpre,
                    p,
                );
                assert forall|s: int|
                    0 <= s < n && #[trigger] is_first_start(nodes@, pixel_scale as int, s) implies
                    start_ok(
                    nodes@,
                    pixel_scale as int,
                    w as int,
                    visited@,
                    labels@,
                    queue@,
                    s,
                ) by {
                    let it = seed_item(nodes@, pixel_scale as int, s);
                    let idxs = it.py as int * (w as int) + it.px as int;
                    assert(start_ok(nodes@, pixel_scale as int, w as int, visited@, labels@, qpre, s));
                    if !visited@[idxs] {
                        assert(p != it);
                        assert(queue@.count(it) > 0);
                    }
                }
            }
            continue ;
        }
        let ghost pre = visited@;
        let ghost lpre = labels@;
        visited.set(idx, true);
        proof {
            lemma_count_false_update(pre, idx as int);
        }
        labels.set(idx, p.node_index);
        let node = nodes[p.node_index];
        proof {
            assert((p.px + 1) * pixel_scale <= COORD_LIMIT && (p.py + 1) * pixel_scale
                <= COORD_LIMIT) by (nonlinear_arith)
                requires
                    p.px < w,
                    p.py < h,
                    pixel_scale >= 1,
                    w * pixel_scale <= COORD_LIMIT,
                    h * pixel_scale <= COORD_LIMIT,
            ;
            assert(p.px * pixel_scale <= (p.px + 1) * pixel_scale && (p.px - 1) * pixel_scale <= (
            p.px + 1) * pixel_scale && p.py * pixel_scale <= (p.py + 1) * pixel_scale && (p.py - 1)
                * pixel_scale <= (p.py + 1) * pixel_scale) by (nonlinear_arith)
                requires
                    pixel_scale >= 1,
            ;
        }
        let ghost qmid = queue@;
        if p.py >= 1 {
            push_claim(&mut queue, p.px, p.py - 1, p.node_index, node.x, node.y, pixel_scale);
        }
        if p.px >= 1 {
            push_claim(&mut queue, p.px - 1, p.py, p.node_index, node.x, node.y, pixel_scale);
        }
        if p.px + 1 < w {
            push_claim(&mut queue, p.px + 1, p.py, p.node_index, node.x, node.y, pixel_scale);
        }
        if p.py + 1 < h {
            push_claim(&mut queue, p.px, p.py + 1, p.node_index, node.x, node.y, pixel_scale);
        }
        proof {
            assert(queue@ =~= qmid.add(
                neighbor_claims(p, node, pixel_scale as int, w as int, h as int),
            ));
            lemma_fill_settle(
                nodes@,
                pixel_scale as int,
                w as int,
                h as int,
                pre,
                lpre,
                qpre,
                p,
            );
            assert forall|q: VoronoiPixel| #[trigger] queue@.count(q) > 0 implies (qmid.count(q)
                > 0 || pushed_claim(q, p.node_index as int, node, pixel_scale as int)) by {}
            assert forall|s: int|
                0 <= s < n && #[trigger] is_first_start(nodes@, pixel_scale as int, s) implies
                start_ok(
                nodes@,
                pixel_scale as int,
                w as int,
                visited@,
                labels@,
                queue@,
                s,
            ) by {
                let it = seed_item(nodes@, pixel_scale as int, s);
                let idxs = it.py as int * (w as int) + it.px as int;
                lemma_idx_bound(it.px as int, it.py as int, w as int, h as int);
                assert(start_ok(nodes@, pixel_scale as int, w as int, pre, lpre, qpre, s));
                if visited@[idxs] {
                    if idxs == idx as int {
                        lemma_idx_injective(
                            p.px as int,
                            p.py as int,
                            it.px as int,
                            it.py as int,
                            w as int,
                        );
                        assert(!pre[idxs]);
                        assert(qpre.count(it) > 0);
                        assert(crate::queue::pixel_le(p, it));
                        assert(qpre.count(p) > 0);
                        assert(crate::queue::pixel_le(it, p));
                        lemma_pixel_le_antisymmetric(p, it);
                        assert(labels@[idxs] == s);
                    } else {
                        assert(labels@[idxs] == lpre[idxs]);
                    }
                } else {
                    assert(idxs != idx as int);
                    assert(!(it.px == p.px && it.py == p.py));
                    assert(p != it);
                    assert(queue@.count(it) > 0);
                    assert forall|q: VoronoiPixel|
                        #[trigger] queue@.count(q) > 0 && q.px == it.px && q.py == it.py implies
                        crate::queue::pixel_le(it, q) by {
                        if qmid.count(q) > 0 {
                            assert(qpre.count(q) > 0);
                        } else {
                            assert(pushed_claim(q, p.node_index as int, node, pixel_scale as int));
                            assert(q.px * pixel_scale <= COORD_LIMIT && q.py * pixel_scale
                                <= COORD_LIMIT) by (nonlinear_arith)
                                requires
                                    q.px < w,
                                    q.py < h,
                                    pixel_scale >= 1,
                                    w * pixel_scale <= COORD_LIMIT,
                                    h * pixel_scale <= COORD_LIMIT,
                            ;
                            lemma_sq_dist_range(
                                q.px * pixel_scale as int,
                                q.py * pixel_scale as int,
                                node.x as int,
                                node.y as int,
                            );
                            if q.sqdistance == 0 {
                                lemma_sq_dist_zero(
                                    q.px * pixel_scale as int,
                                    q.py * pixel_scale as int,
                                    node.x as int,
                                    node.y as int,
                                );
                                lemma_ceil_mul_exact(q.px as int, pixel_scale as int);
                                lemma_ceil_mul_exact(q.py as int, pixel_scale as int);
                                assert(seed_px(nodes@[p.node_index as int], pixel_scale as int)
                                    == q.px as int);
                                assert(seed_py(nodes@[p.node_index as int], pixel_scale as int)
                                    == q.py as int);
                                assert(p.node_index as int >= s);
                                if p.node_index as int == s {
                                    assert(q == it);
                                }
                            }
                        }
                    }
                }
            }
        }
    }

    proof {
        lemma_fill_empty(
            nodes@,
            pixel_scale as int,
            w as int,
            h as int,
            visited@,
            labels@,
            queue@,
        );
        assert(labels@ == model);
    }
    let mut rows: Vec<Vec<usize>> = Vec::new();
    let mut row: usize = 0;
    while row < h
        invariant
            row <= h,
            total == w * h,
            labels@.len() == total,
            n == nodes@.len(),
            forall|k: int| 0 <= k < total ==> (#[trigger] labels@[k]) < n,
            rows@.len() == row,
            forall|i: int| 0 <= i < row ==> (#[trigger] rows@[i])@.len() == w,
            forall|i: int, j: int|
                0 <= i < row && 0 <= j < w ==> (#[trigger] rows@[i]@[j]) < n,
            forall|i: int, j: int|
                0 <= i < row && 0 <= j < w ==> (#[trigger] rows@[i]@[j]) == labels@[i * w + j],
        decreases h - row,
    {
        let mut one: Vec<usize> = Vec::new();
        let mut col: usize = 0;
        while col < w
            invariant
                col <= w,
                row < h,
                total == w * h,
                labels@.len() == total,
                n == nodes@.len(),
                forall|k: int| 0 <= k < total ==> (#[trigger] labels@[k]) < n,
                one@.len() == col,
                forall|j: int| 0 <= j < col ==> (#[trigger] one@[j]) < n,
                forall|j: int| 0 <= j < col ==> (#[trigger] one@[j]) == labels@[row * w + j],
            decreases w - col,
        {
            proof {
                assert(row * w + col < h * w) by (nonlinear_arith)
                    requires
                        row < h,
                        col < w,
                ;
            }
            one.push(labels[row * w + col]);
            col = col + 1;
        }
        rows.push(one);
        row = row + 1;
    }
    proof {
        assert forall|s: int|
            0 <= s < n && #[trigger] is_first_start(nodes@, pixel_scale as int, s) implies
            rows@[seed_py(nodes@[s], pixel_scale as int)]@[seed_px(nodes@[s], pixel_scale as int)]
                == s by {
            let it = seed_item(nodes@, pixel_scale as int, s);
            let idxs = it.py as int * (w as int) + it.px as int;
            lemma_idx_bound(it.px as int, it.py as int, w as int, h as int);
            assert(start_ok(nodes@, pixel_scale as int, w as int, visited@, labels@, queue@, s));
            if !visited@[idxs] {
                assert(queue@.count(it) <= queue@.len());
                assert(false);
            }
            assert(labels@[idxs] == s);
            assert(rows@[it.py as int]@[it.px as int] == labels@[idxs]);
        }
        assert(labels@ == model);
        assert(model.len() == w * h);
        assert forall|i: int, j: int| 0 <= i < h && 0 <= j < w implies (#[trigger] rows@[i]@[j])
            == model[i * (w as int) + j] by {
            assert(rows@[i]@[j] == labels@[i * (w as int) + j]);
        }
    }
    rows
}

/// Flat row-major nearest-seed labels: the preview raster of the public
/// interface. Empty seed input yields the empty sequence; otherwise the
/// result is exactly `preview_labels`, the fill model — the row-major
/// flattening of the raster `set_nearest_node_buffer` computes — so it holds
/// `buffer_width * buffer_height` labels, each the index of a seed in
/// `nodes`.
pub fn nearest_node_buffer(
    buffer_width: usize,
    buffer_height: usize,
    pixel_scale: usize,
    nodes: &Vec<Node>,
) -> (r: Vec<usize>)
    requires
        nodes_ok(nodes@),
        1 <= pixel_scale <= COORD_LIMIT,
        buffer_width * pixel_scale <= COORD_LIMIT,
        buffer_height * pixel_scale <= COORD_LIMIT,
        buffer_width * buffer_height <= usize::MAX,
        seeds_in_raster(nodes@, pixel_scale as int, buffer_width as int, buffer_height as int),
    ensures
        nodes@.len() == 0 ==> r@.len() == 0,
        nodes@.len() > 0 ==> r@.len() == buffer_width * buffer_height,
        forall|k: int| 0 <= k < r@.len() ==> (#[trigger] r@[k]) < nodes@.len(),
        forall|i: int|
            0 <= i < nodes@.len() && #[trigger] is_first_start(nodes@, pixel_scale as int, i)
                ==> r@[seed_py(nodes@[i], pixel_scale as int) * (buffer_width as int) + seed_px(
                nodes@[i],
                pixel_scale as int,
            )] == i,
        nodes@.len() > 0 ==> r@ == preview_labels(
            nodes@,
            pixel_scale as int,
            buffer_width as int,
            buffer_height as int,
        ),
{
    let grid = set_nearest_node_buffer(buffer_width, buffer_height, pixel_scale, nodes);
    proof {
        assert(grid@.len() * buffer_width <= buffer_width * buffer_height) by (nonlinear_arith)
            requires
                grid@.len() <= buffer_height,
                buffer_width >= 0,
        ;
    }
    let mut flat: Vec<usize> = Vec::new();
    let mut row: usize = 0;
    while row < grid.len()
        invariant
            row <= grid@.len(),
            grid@.len() * buffer_width <= usize::MAX,
            forall|i: int| 0 <= i < grid@.len() ==> (#[trigger] grid@[i])@.len() == buffer_width,
            forall|i: int, j: int|
                0 <= i < grid@.len() && 0 <= j < buffer_width ==> (#[trigger] grid@[i]@[j])
                    < nodes@.len(),
            flat@.len() == row * buffer_width,
            forall|k: int| 0 <= k < flat@.len() ==> (#[trigger] flat@[k]) < nodes@.len(),
            forall|i: int, j: int|
                0 <= i < row && 0 <= j < buffer_width ==> (#[trigger] flat@[i * buffer_width + j])
                    == grid@[i]@[j],
        decreases grid@.len() - row,
    {
        let one = &grid[row];
        let mut col: usize = 0;
        proof {
            assert((row + 1) * buffer_width == row * buffer_width + buffer_width) by (nonlinear_arith);
            assert((row + 1) * buffer_width <= grid@.len() * buffer_width) by (nonlinear_arith)
                requires
                    row + 1 <= grid@.len(),
                    buffer_width >= 0,
            ;
        }
        while col < one.len()
            invariant
                col <= one@.len(),
                one@.len() == buffer_width,
                forall|j: int| 0 <= j < buffer_width ==> (#[trigger] one@[j]) < nodes@.len(),
                flat@.len() == row * buffer_width + col,
                row * buffer_width + buffer_width <= usize::MAX,
                forall|k: int| 0 <= k < flat@.len() ==> (#[trigger] flat@[k]) < nodes@.len(),
                forall|i: int, j: int|
                    0 <= i < row && 0 <= j < buffer_width ==> (#[trigger] flat@[i * buffer_width
                        + j]) == grid@[i]@[j],
                forall|j: int|
                    0 <= j < col ==> (#[trigger] flat@[row * buffer_width + j]) == one@[j],
            decreases one@.len() - col,
        {
            let ghost fpre = flat@;
            flat.push(one[col]);
            proof {
                assert forall|i: int, j: int|
                    0 <= i < row && 0 <= j < buffer_width implies (#[trigger] flat@[i
                    * buffer_width + j]) == grid@[i]@[j] by {
                    assert(0 <= i * buffer_width + j < row * buffer_width) by (nonlinear_arith)
                        requires
                            0 <= i < row,
                            0 <= j < buffer_width,
                    ;
                    assert(fpre[i * buffer_width + j] == grid@[i]@[j]);
                    assert(flat@[i * buffer_width + j] == fpre[i * buffer_width + j]);
                }
            }
            col = col + 1;
        }
        proof {
            assert((row + 1) * buffer_width == row * buffer_width + buffer_width) by (nonlinear_arith);
        }
        row = row + 1;
    }
    proof {
        if nodes@.len() > 0 {
            assert(flat@.len() == grid@.len() * buffer_width);
            assert(buffer_height * buffer_width == buffer_width * buffer_height) by (nonlinear_arith);
            assert forall|s: int|
                0 <= s < nodes@.len() && #[trigger] is_first_start(nodes@, pixel_scale as int, s)
                implies flat@[seed_py(nodes@[s], pixel_scale as int) * (buffer_width as int)
                + seed_px(nodes@[s], pixel_scale as int)] == s by {
                let px = seed_px(nodes@[s], pixel_scale as int);
                let py = seed_py(nodes@[s], pixel_scale as int);
                assert(flat@[py * buffer_width + px] == grid@[py]@[px]);
            }
            let model = preview_labels(
                nodes@,
                pixel_scale as int,
                buffer_width as int,
                buffer_height as int,
            );
            assert(seed_px(nodes@[0], pixel_scale as int) < buffer_width && seed_py(
                nodes@[0],
                pixel_scale as int,
            ) < buffer_height);
            assert forall|k: int| 0 <= k < flat@.len() implies flat@[k] == model[k] by {
                let w = buffer_width as int;
                vstd::arithmetic::div_mod::lemma_fundamental_div_mod(k, w);
                vstd::arithmetic::div_mod::lemma_mod_bound(k, w);
                vstd::arithmetic::div_mod::lemma_div_pos_is_pos(k, w);
                vstd::arithmetic::div_mod::lemma_multiply_divide_lt(k, w, buffer_height as int);
                assert(w * (k / w) == (k / w) * w) by (nonlinear_arith);
                assert(flat@[(k / w) * w + (k % w)] == grid@[k / w]@[k % w]);
                assert(grid@[k / w]@[k % w] == model[(k / w) * w + (k % w)]);
            }
            assert(flat@ =~= model);
        }
    }
    flat
}

} // verus!
