//! Piecewise-linear color ramps.
//!
//! A ramp is an ordered sequence of color stops with strictly increasing
//! fixed-point positions, the first at 0 and the last at `FP_ONE`. A lookup
//! below the first or above the last position clamps to the endpoint color;
//! between two adjacent stops each channel is interpolated linearly and
//! independently, and a lookup exactly at a stop returns that stop's color.

use vstd::prelude::*;

verus! {

use vstd::arithmetic::div_mod::{
    lemma_div_pos_is_pos,
    lemma_div_is_ordered,
    lemma_div_multiples_vanish,
};
use crate::node::FP_ONE;

/// One stop of a color ramp: a color and its fixed-point position.
#[derive(Clone, Copy, Debug, PartialEq, Eq, Structural)]
pub struct ColorStop {
    pub red: u8,
    pub green: u8,
    pub blue: u8,
    pub pos: i64,
}

/// Well-formed ramp: at least two stops, positions strictly increasing, the
/// first position 0 and the last `FP_ONE`.
pub open spec fn ramp_wf(s: Seq<ColorStop>) -> bool {
    &&& s.len() >= 2
    &&& s[0].pos == 0
    &&& s[s.len() - 1].pos == FP_ONE
    &&& forall|i: int| 0 <= i < s.len() - 1 ==> (#[trigger] s[i]).pos < s[i + 1].pos
}

/// Positions of a well-formed ramp increase between any two indices.
pub proof fn lemma_ramp_pos_increasing(s: Seq<ColorStop>, i: int, j: int)
    requires
        ramp_wf(s),
        0 <= i < j < s.len(),
    ensures
        s[i].pos < s[j].pos,
    decreases j - i,
{
    if i + 1 < j {
        lemma_ramp_pos_increasing(s, i, j - 1);
    }
}

/// One linearly interpolated channel: the value at `p` between the channel
/// values `c1` at position `b1` and `c2` at position `b2`.
pub open spec fn interp_channel(c1: int, c2: int, b1: int, b2: int, p: int) -> int {
    (c1 * (b2 - p) + c2 * (p - b1)) / (b2 - b1)
}

/// All three channels interpolated between two stops.
pub open spec fn interp_stops(a: ColorStop, b: ColorStop, p: int) -> (int, int, int) {
    (
        interp_channel(a.red as int, b.red as int, a.pos as int, b.pos as int, p),
        interp_channel(a.green as int, b.green as int, a.pos as int, b.pos as int, p),
        interp_channel(a.blue as int, b.blue as int, a.pos as int, b.pos as int, p),
    )
}

/// The color of the first segment at or after stop `i` that contains `p`;
/// the last segment takes everything that remains.
pub open spec fn ramp_seg(s: Seq<ColorStop>, i: int, p: int) -> (int, int, int)
    decreases s.len() - i,
{
    if i + 2 >= s.len() || p < s[i + 1].pos {
        interp_stops(s[i], s[i + 1], p)
    } else {
        ramp_seg(s, i + 1, p)
    }
}

/// The ramp lookup: clamp to the endpoint colors outside `[0, FP_ONE]`,
/// linear interpolation in the containing segment otherwise.
pub open spec fn ramp_lookup(s: Seq<ColorStop>, p: int) -> (int, int, int) {
    if p <= s[0].pos {
        (s[0].red as int, s[0].green as int, s[0].blue as int)
    } else if p >= s[s.len() - 1].pos {
        (s[s.len() - 1].red as int, s[s.len() - 1].green as int, s[s.len() - 1].blue as int)
    } else {
        ramp_seg(s, 0, p)
    }
}

/// Queries at or below the first breakpoint and at or above the last clamp
/// to the endpoint colors.
pub proof fn lemma_ramp_clamps(s: Seq<ColorStop>, p: int)
    requires
        ramp_wf(s),
    ensures
        p <= 0 ==> ramp_lookup(s, p) == (s[0].red as int, s[0].green as int, s[0].blue as int),
        p >= FP_ONE ==> ramp_lookup(s, p) == (
            s[s.len() - 1].red as int,
            s[s.len() - 1].green as int,
            s[s.len() - 1].blue as int,
        ),
{
}

/// An interpolated channel between in-range endpoints stays in `[0, 255]`.
pub proof fn lemma_interp_channel_bounds(c1: int, c2: int, b1: int, b2: int, p: int)
    requires
        0 <= c1 <= 255,
        0 <= c2 <= 255,
        b1 < b2,
        b1 <= p <= b2,
    ensures
        0 <= interp_channel(c1, c2, b1, b2, p) <= 255,
{
    let d = b2 - b1;
    let num = c1 * (b2 - p) + c2 * (p - b1);
    assert(0 <= num <= 255 * d) by (nonlinear_arith)
        requires
            0 <= c1 <= 255,
            0 <= c2 <= 255,
            b1 <= p <= b2,
            d == b2 - b1,
            b1 < b2,
            num == c1 * (b2 - p) + c2 * (p - b1),
    ;
    lemma_div_pos_is_pos(num, d);
    lemma_div_is_ordered(num, 255 * d, d);
    lemma_div_multiples_vanish(255, d);
    assert(d * 255 == 255 * d) by (nonlinear_arith);
}

/// A lookup exactly at the left stop of a segment returns that stop's color.
pub proof fn lemma_interp_at_left_stop(a: ColorStop, b: ColorStop)
    requires
        a.pos < b.pos,
    ensures
        interp_stops(a, b, a.pos as int) == (a.red as int, a.green as int, a.blue as int),
{
    let d = b.pos - a.pos;
    assert(a.red as int * (b.pos - a.pos) + b.red as int * (a.pos - a.pos) == d * (a.red as int))
        by (nonlinear_arith)
        requires
            d == b.pos - a.pos,
    ;
    lemma_div_multiples_vanish(a.red as int, d);
    assert(a.green as int * (b.pos - a.pos) + b.green as int * (a.pos - a.pos) == d * (
    a.green as int)) by (nonlinear_arith)
        requires
            d == b.pos - a.pos,
    ;
    lemma_div_multiples_vanish(a.green as int, d);
    assert(a.blue as int * (b.pos - a.pos) + b.blue as int * (a.pos - a.pos) == d * (
    a.blue as int)) by (nonlinear_arith)
        requires
            d == b.pos - a.pos,
    ;
    lemma_div_multiples_vanish(a.blue as int, d);
}

/// The segment scan starting anywhere at or before the containing segment
/// lands on the containing segment.
proof fn lemma_ramp_seg_locate(s: Seq<ColorStop>, j: int, i: int, p: int)
    requires
        ramp_wf(s),
        0 <= j <= i <= s.len() - 2,
        s[i].pos <= p,
        i + 2 < s.len() ==> p < s[i + 1].pos,
    ensures
        ramp_seg(s, j, p) == interp_stops(s[i], s[i + 1], p),
    decreases i - j,
{
    if j < i {
        if j + 1 < i {
            lemma_ramp_pos_increasing(s, j + 1, i);
        }
        assert(s[j + 1].pos <= s[i].pos);
        lemma_ramp_seg_locate(s, j + 1, i, p);
    }
}

/// Looking a well-formed ramp up exactly at the position of stop `i` returns
/// exactly the color of stop `i`.
pub proof fn lemma_ramp_breakpoint_exact(s: Seq<ColorStop>, i: int)
    requires
        ramp_wf(s),
        0 <= i < s.len(),
    ensures
        ramp_lookup(s, s[i].pos as int) == (s[i].red as int, s[i].green as int, s[i].blue as int),
{
    let p = s[i].pos as int;
    if i == 0 {
    } else if i == s.len() - 1 {
        lemma_ramp_pos_increasing(s, 0, i);
    } else {
        lemma_ramp_pos_increasing(s, 0, i);
        lemma_ramp_pos_increasing(s, i, s.len() - 1);
        if i + 2 < s.len() {
            lemma_ramp_pos_increasing(s, i, i + 1);
        }
        lemma_ramp_seg_locate(s, 0, i, p);
        lemma_interp_at_left_stop(s[i], s[i + 1]);
    }
}

/// Within one segment each channel moves monotonically from the left stop's
/// value toward the right stop's value: the lookup is monotone between
/// adjacent breakpoints, channel by channel.
pub proof fn lemma_ramp_monotone_segment(s: Seq<ColorStop>, i: int, p: int, q: int)
    requires
        ramp_wf(s),
        0 <= i <= s.len() - 2,
        s[i].pos <= p <= q,
        i + 2 < s.len() ==> q < s[i + 1].pos,
        i + 2 >= s.len() ==> q <= s[i + 1].pos,
        0 < p,
        q < FP_ONE,
    ensures
        s[i].red <= s[i + 1].red ==> ramp_lookup(s, p).0 <= ramp_lookup(s, q).0,
        s[i].red >= s[i + 1].red ==> ramp_lookup(s, p).0 >= ramp_lookup(s, q).0,
        s[i].green <= s[i + 1].green ==> ramp_lookup(s, p).1 <= ramp_lookup(s, q).1,
        s[i].green >= s[i + 1].green ==> ramp_lookup(s, p).1 >= ramp_lookup(s, q).1,
        s[i].blue <= s[i + 1].blue ==> ramp_lookup(s, p).2 <= ramp_lookup(s, q).2,
        s[i].blue >= s[i + 1].blue ==> ramp_lookup(s, p).2 >= ramp_lookup(s, q).2,
{
    lemma_ramp_pos_increasing(s, 0, s.len() - 1);
    if i + 2 < s.len() {
        lemma_ramp_pos_increasing(s, i + 1, s.len() - 1);
    }
    lemma_ramp_seg_locate(s, 0, i, p);
    lemma_ramp_seg_locate(s, 0, i, q);
    let a = s[i];
    let b = s[i + 1];
    lemma_channel_monotone(a.red as int, b.red as int, a.pos as int, b.pos as int, p, q);
    lemma_channel_monotone(a.green as int, b.green as int, a.pos as int, b.pos as int, p, q);
    lemma_channel_monotone(a.blue as int, b.blue as int, a.pos as int, b.pos as int, p, q);
}

/// One channel of the segment interpolation is monotone in the query.
proof fn lemma_channel_monotone(c1: int, c2: int, b1: int, b2: int, p: int, q: int)
    requires
        b1 < b2,
        p <= q,
    ensures
        c1 <= c2 ==> interp_channel(c1, c2, b1, b2, p) <= interp_channel(c1, c2, b1, b2, q),
        c1 >= c2 ==> interp_channel(c1, c2, b1, b2, p) >= interp_channel(c1, c2, b1, b2, q),
{
    let d = b2 - b1;
    let np = c1 * (b2 - p) + c2 * (p - b1);
    let nq = c1 * (b2 - q) + c2 * (q - b1);
    if c1 <= c2 {
        assert(np <= nq) by (nonlinear_arith)
            requires
                p <= q,
                c1 <= c2,
                np == c1 * (b2 - p) + c2 * (p - b1),
                nq == c1 * (b2 - q) + c2 * (q - b1),
        ;
        lemma_div_is_ordered(np, nq, d);
    }
    if c1 >= c2 {
        assert(nq <= np) by (nonlinear_arith)
            requires
                p <= q,
                c1 >= c2,
                np == c1 * (b2 - p) + c2 * (p - b1),
                nq == c1 * (b2 - q) + c2 * (q - b1),
        ;
        lemma_div_is_ordered(nq, np, d);
    }
}

/// Computes one interpolated channel.
fn interp_channel_exec(c1: u8, c2: u8, b1: i64, b2: i64, p: i64) -> (r: u8)
    requires
        0 <= b1 < b2 <= FP_ONE,
        b1 <= p <= b2,
    ensures
        r as int == interp_channel(c1 as int, c2 as int, b1 as int, b2 as int, p as int),
{
    proof {
        lemma_interp_channel_bounds(c1 as int, c2 as int, b1 as int, b2 as int, p as int);
        assert(0 <= (c1 as int) * (b2 - p) <= 255_000 && 0 <= (c2 as int) * (p - b1) <= 255_000)
            by (nonlinear_arith)
            requires
                0 <= c1 <= 255,
                0 <= c2 <= 255,
                0 <= b2 - p <= 1000,
                0 <= p - b1 <= 1000,
        ;
    }
    let num: i64 = (c1 as i64) * (b2 - p) + (c2 as i64) * (p - b1);
    let v: i64 = num / (b2 - b1);
    v as u8
}

/// Looks `p` up in a well-formed ramp: endpoint colors outside `[0, FP_ONE]`,
/// linear interpolation in the containing segment otherwise.
#[verifier::rlimit(50)]
pub fn ramp_lookup_exec(stops: &Vec<ColorStop>, p: i64) -> (c: (u8, u8, u8))
    requires
        ramp_wf(stops@),
    ensures
        (c.0 as int, c.1 as int, c.2 as int) == ramp_lookup(stops@, p as int),
{
    let n = stops.len();
    if p <= stops[0].pos {
        let a = stops[0];
        return (a.red, a.green, a.blue);
    }
    if p >= stops[n - 1].pos {
        let b = stops[n - 1];
        return (b.red, b.green, b.blue);
    }
    let mut i: usize = 0;
    while i + 2 < n && p >= stops[i + 1].pos
        invariant
            ramp_wf(stops@),
            n == stops@.len(),
            0 <= i <= n - 2,
            stops@[i as int].pos <= p,
            0 < p < stops@[n - 1].pos,
            ramp_seg(stops@, 0, p as int) == ramp_seg(stops@, i as int, p as int),
        decreases n - i,
    {
        i = i + 1;
    }
    let a = stops[i];
    let b = stops[i + 1];
    proof {
        if i > 0 {
            lemma_ramp_pos_increasing(stops@, 0, i as int);
        }
        if i + 1 < n - 1 {
            lemma_ramp_pos_increasing(stops@, i as int + 1, n as int - 1);
        }
        assert(stops@[i as int].pos < stops@[i as int + 1].pos);
    }
    let red = interp_channel_exec(a.red, b.red, a.pos, b.pos, p);
    let green = interp_channel_exec(a.green, b.green, a.pos, b.pos, p);
    let blue = interp_channel_exec(a.blue, b.blue, a.pos, b.pos, p);
    (red, green, blue)
}

/// The terrain palette: ocean blue through shoreline sand, lowland greens and
/// highland dark green, with positions in fixed-point fractions of the
/// maximum altitude.
pub open spec fn terrain_palette_spec() -> Seq<ColorStop> {
    seq![
        (ColorStop { red: 50, green: 130, blue: 200, pos: 0 }),
        (ColorStop { red: 240, green: 240, blue: 210, pos: 5 }),
        (ColorStop { red: 190, green: 200, blue: 120, pos: 50 }),
        (ColorStop { red: 180, green: 200, blue: 80, pos: 200 }),
        (ColorStop { red: 25, green: 100, blue: 25, pos: 750 }),
        (ColorStop { red: 15, green: 60, blue: 15, pos: 1000 }),
    ]
}

/// Builds the terrain palette.
pub fn terrain_palette() -> (v: Vec<ColorStop>)
    ensures
        v@ == terrain_palette_spec(),
        ramp_wf(v@),
{
    let mut v: Vec<ColorStop> = Vec::new();
    v.push(ColorStop { red: 50, green: 130, blue: 200, pos: 0 });
    v.push(ColorStop { red: 240, green: 240, blue: 210, pos: 5 });
    v.push(ColorStop { red: 190, green: 200, blue: 120, pos: 50 });
    v.push(ColorStop { red: 180, green: 200, blue: 80, pos: 200 });
    v.push(ColorStop { red: 25, green: 100, blue: 25, pos: 750 });
    v.push(ColorStop { red: 15, green: 60, blue: 15, pos: 1000 });
    proof {
        assert(v@ =~= terrain_palette_spec());
    }
    v
}

/// The grayscale palette: black at 0 to white at `FP_ONE`.
pub open spec fn grayscale_palette_spec() -> Seq<ColorStop> {
    seq![
        (ColorStop { red: 0, green: 0, blue: 0, pos: 0 }),
        (ColorStop { red: 255, green: 255, blue: 255, pos: 1000 }),
    ]
}

/// Builds the grayscale palette. Both stops are gray, so every lookup in it
/// has equal red, green and blue channels.
pub fn grayscale_palette() -> (v: Vec<ColorStop>)
    ensures
        v@ == grayscale_palette_spec(),
        ramp_wf(v@),
{
    let mut v: Vec<ColorStop> = Vec::new();
    v.push(ColorStop { red: 0, green: 0, blue: 0, pos: 0 });
    v.push(ColorStop { red: 255, green: 255, blue: 255, pos: 1000 });
    proof {
        assert(v@ =~= grayscale_palette_spec());
    }
    v
}

/// A ramp whose stops are all gray yields gray for every query: looked up
/// anywhere, the red, green and blue channels are equal.
pub proof fn lemma_gray_ramp_gray(s: Seq<ColorStop>, p: int)
    requires
        ramp_wf(s),
        forall|i: int|
            0 <= i < s.len() ==> (#[trigger] s[i]).red == s[i].green && s[i].green == s[i].blue,
    ensures
        ramp_lookup(s, p).0 == ramp_lookup(s, p).1,
        ramp_lookup(s, p).1 == ramp_lookup(s, p).2,
{
    if p <= s[0].pos {
    } else if p >= s[s.len() - 1].pos {
    } else {
        lemma_gray_seg(s, 0, p);
    }
}

proof fn lemma_gray_seg(s: Seq<ColorStop>, i: int, p: int)
    requires
        ramp_wf(s),
        0 <= i <= s.len() - 2,
        forall|j: int|
            0 <= j < s.len() ==> (#[trigger] s[j]).red == s[j].green && s[j].green == s[j].blue,
    ensures
        ramp_seg(s, i, p).0 == ramp_seg(s, i, p).1,
        ramp_seg(s, i, p).1 == ramp_seg(s, i, p).2,
    decreases s.len() - i,
{
    if i + 2 >= s.len() || p < s[i + 1].pos {
        assert(s[i].red == s[i].green && s[i].green == s[i].blue);
        assert(s[i + 1].red == s[i + 1].green && s[i + 1].green == s[i + 1].blue);
    } else {
        lemma_gray_seg(s, i + 1, p);
    }
}

} // verus!
