//! The arithmetic of rasterization, stated exactly over integers.
//!
//! A line from `(a_from, c_from)` to `(a_to, c_to)` is sampled once per step of
//! its major axis `a`. At step `t` of `d = a_to - a_from` the minor coordinate is
//! `c_from + (c_to - c_from) * t / d`, whose whole part is `step_floor` and whose
//! fractional part is `step_frac / d`.
use vstd::arithmetic::div_mod::{
    lemma_fundamental_div_mod, lemma_fundamental_div_mod_converse, lemma_mod_bound,
};
use vstd::prelude::*;

verus! {

/// A sample counts as lying on a whole pixel when it is closer to one than
/// `1 / SNAP_DIVISOR`.
pub const SNAP_DIVISOR: u128 = 100000;

/// Whole part of the minor coordinate at step `t` of `d`.
pub open spec fn step_floor(from: int, to: int, t: int, d: int) -> int {
    from + (to - from) * t / d
}

/// Fractional part of the minor coordinate at step `t` of `d`, in units of `1 / d`.
pub open spec fn step_frac(from: int, to: int, t: int, d: int) -> int {
    ((to - from) * t) % d
}

/// A fractional part `k / d` lies closer than `1 / SNAP_DIVISOR` to a whole number.
pub open spec fn snaps(k: int, d: int) -> bool {
    let dist = if k <= d - k { k } else { d - k };
    dist * SNAP_DIVISOR < d
}

/// Offset from the whole part to the nearest whole number; halves round up.
pub open spec fn round_offset(k: int, d: int) -> int {
    if 2 * k >= d { 1 } else { 0 }
}

/// Coverage, in units of `1 / d`, of the pixel just above the whole part.
pub open spec fn upper_coverage(k: int, d: int) -> int {
    k
}

/// Coverage, in units of `1 / d`, of the pixel at the whole part.
pub open spec fn lower_coverage(k: int, d: int) -> int {
    d - k
}

/// `(old * (d - cov) + new * cov) / d` rounded to the nearest integer, halves up.
pub open spec fn blend(old: int, new: int, cov: int, d: int) -> int {
    (2 * (old * (d - cov) + new * cov) + d) / (2 * d)
}

/// Each channel of `old` blended towards `color` with coverage `cov / d`.
pub open spec fn blend_px(old: Seq<u8>, color: Seq<u8>, cov: int, d: int) -> Seq<u8> {
    seq![
        blend(old[0] as int, color[0] as int, cov, d) as u8,
        blend(old[1] as int, color[1] as int, cov, d) as u8,
        blend(old[2] as int, color[2] as int, cov, d) as u8,
    ]
}

/// New value of the pixel at `(along, across)` (major, minor coordinate) when a
/// line from `(a_from, c_from)` to `(a_to, c_to)` is drawn along its major axis
/// over a pixel holding `old`. Steps run from `a_from` up to `a_to`, so the
/// end points are given with `a_from < a_to`.
pub open spec fn sample_px(
    old: Seq<u8>,
    color: Seq<u8>,
    along: int,
    across: int,
    a_from: int,
    c_from: int,
    a_to: int,
    c_to: int,
) -> Seq<u8> {
    let d = a_to - a_from;
    let t = along - a_from;
    let base = step_floor(c_from, c_to, t, d);
    let k = step_frac(c_from, c_to, t, d);
    if !(a_from < a_to && a_from <= along <= a_to) {
        old
    } else if snaps(k, d) {
        if across == base + round_offset(k, d) { color } else { old }
    } else if across == base + 1 {
        blend_px(old, color, upper_coverage(k, d), d)
    } else if across == base {
        blend_px(old, color, lower_coverage(k, d), d)
    } else {
        old
    }
}

pub open spec fn abs_diff(a: int, b: int) -> int {
    if a <= b { b - a } else { a - b }
}

/// The line rises no more than it runs, so it is stepped along `x`.
pub open spec fn is_shallow(x1: int, y1: int, x2: int, y2: int) -> bool {
    abs_diff(y1, y2) <= abs_diff(x1, x2)
}

/// New value of the pixel at `(x, y)`, holding `old`, when the anti-aliased line
/// between `(x1, y1)` and `(x2, y2)` is drawn in `color`. It is stepped along
/// its major axis from the end point with the smaller coordinate there, so the
/// two end points may be given in either order.
pub open spec fn line_px(
    old: Seq<u8>,
    color: Seq<u8>,
    x: int,
    y: int,
    x1: int,
    y1: int,
    x2: int,
    y2: int,
) -> Seq<u8> {
    if x1 == x2 {
        if x == x1 && min(y1, y2) <= y <= max(y1, y2) { color } else { old }
    } else if is_shallow(x1, y1, x2, y2) {
        if x1 < x2 {
            sample_px(old, color, x, y, x1, y1, x2, y2)
        } else {
            sample_px(old, color, x, y, x2, y2, x1, y1)
        }
    } else {
        if y1 < y2 {
            sample_px(old, color, y, x, y1, x1, y2, x2)
        } else {
            sample_px(old, color, y, x, y2, x2, y1, x1)
        }
    }
}

/// A line drawn from `(x1, y1)` to `(x2, y2)` paints what the line drawn from
/// `(x2, y2)` to `(x1, y1)` paints.
pub proof fn lemma_line_symmetric(
    old: Seq<u8>,
    color: Seq<u8>,
    x: int,
    y: int,
    x1: int,
    y1: int,
    x2: int,
    y2: int,
)
    ensures
        line_px(old, color, x, y, x1, y1, x2, y2) == line_px(old, color, x, y, x2, y2, x1, y1),
{
}

pub open spec fn min(a: int, b: int) -> int {
    if a <= b { a } else { b }
}

pub open spec fn max(a: int, b: int) -> int {
    if a <= b { b } else { a }
}

/// `(x, y)` lies in the closed box spanned by the corners `(x1, y1)` and `(x2, y2)`.
pub open spec fn in_box(x: int, y: int, x1: int, y1: int, x2: int, y2: int) -> bool {
    min(x1, x2) <= x <= max(x1, x2) && min(y1, y2) <= y <= max(y1, y2)
}

/// `(x, y)` lies on the outline of that box.
pub open spec fn on_perimeter(x: int, y: int, x1: int, y1: int, x2: int, y2: int) -> bool {
    in_box(x, y, x1, y1, x2, y2) && (x == min(x1, x2) || x == max(x1, x2) || y == min(y1, y2)
        || y == max(y1, y2))
}

/// For a point in the box: how many whole outlines lie between it and the box's edge.
pub open spec fn ring(x: int, y: int, x1: int, y1: int, x2: int, y2: int) -> int {
    min(min(x - min(x1, x2), max(x1, x2) - x), min(y - min(y1, y2), max(y1, y2) - y))
}

/// Number of concentric outlines a border of `thickness` draws (at least one).
pub open spec fn layers(thickness: int) -> int {
    if thickness < 1 { 1 } else { thickness }
}

/// `(x, y)` is painted by a border of `thickness` around the box.
pub open spec fn in_border(
    x: int,
    y: int,
    x1: int,
    y1: int,
    x2: int,
    y2: int,
    thickness: int,
) -> bool {
    in_box(x, y, x1, y1, x2, y2) && ring(x, y, x1, y1, x2, y2) < layers(thickness)
}

/// The concentric outlines of a border of `thickness` fit in the box without crossing.
pub open spec fn thickness_fits(x1: int, y1: int, x2: int, y2: int, thickness: int) -> bool {
    thickness <= abs_diff(x1, x2) / 2 + 1 && thickness <= abs_diff(y1, y2) / 2 + 1
}

/// A vertical line paints its column between `y1` and `y2` in exactly `color`,
/// with no blending, and leaves every other pixel as it was.
pub proof fn lemma_vertical_line(
    old: Seq<u8>,
    color: Seq<u8>,
    x: int,
    y: int,
    x1: int,
    y1: int,
    y2: int,
)
    ensures
        line_px(old, color, x, y, x1, y1, x1, y2) == if x == x1 && min(y1, y2) <= y <= max(
            y1,
            y2,
        ) {
            color
        } else {
            old
        },
{
}

/// A border one pixel thick paints exactly the outline of its box.
pub proof fn lemma_thin_border_is_perimeter(x: int, y: int, x1: int, y1: int, x2: int, y2: int)
    ensures
        in_border(x, y, x1, y1, x2, y2, 1) <==> on_perimeter(x, y, x1, y1, x2, y2),
{
}

/// Where a line sample falls between two pixels, the coverages given to the two
/// add up to one whole pixel.
pub proof fn lemma_coverage_sums_to_one(from: int, to: int, t: int, d: int)
    requires
        0 < d,
        0 <= t <= d,
    ensures
        upper_coverage(step_frac(from, to, t, d), d) + lower_coverage(step_frac(from, to, t, d), d)
            == d,
        0 <= upper_coverage(step_frac(from, to, t, d), d) < d,
        0 < lower_coverage(step_frac(from, to, t, d), d) <= d,
{
    lemma_mod_bound((to - from) * t, d);
}

/// With the outlines `0 .. j` painted, painting the outline of the box inset
/// by `j` paints exactly the points of ring `j`, as long as it does not cross.
pub proof fn lemma_layer_step(x: int, y: int, sx: int, sy: int, bx: int, by: int, j: int)
    requires
        0 <= j,
        2 * j <= bx - sx,
        2 * j <= by - sy,
    ensures
        (in_box(x, y, sx, sy, bx, by) && ring(x, y, sx, sy, bx, by) < j + 1) <==> ((in_box(
            x,
            y,
            sx,
            sy,
            bx,
            by,
        ) && ring(x, y, sx, sy, bx, by) < j) || (y == sy + j && sx + j <= x <= bx - j) || (y
            == by - j && sx + j <= x <= bx - j) || (x == sx + j && sy + j <= y <= by - j) || (x
            == bx - j && sy + j <= y <= by - j)),
{
}

proof fn lemma_div_range(p: int, lo: int, hi: int, d: int)
    requires
        0 < d,
        lo * d <= p <= hi * d,
    ensures
        lo <= p / d <= hi,
        0 <= p % d < d,
        p % d > 0 ==> p / d < hi,
{
    lemma_fundamental_div_mod(p, d);
    lemma_mod_bound(p, d);
    let q = p / d;
    let r = p % d;
    assert(lo <= q) by (nonlinear_arith)
        requires
            p == d * q + r,
            r < d,
            lo * d <= p,
            0 < d,
    ;
    assert(q <= hi) by (nonlinear_arith)
        requires
            p == d * q + r,
            0 <= r,
            p <= hi * d,
            0 < d,
    ;
    assert(r > 0 ==> q < hi) by (nonlinear_arith)
        requires
            p == d * q + r,
            p <= hi * d,
            0 < d,
    ;
}

/// The sample at any step lies between the two endpoints, and when it falls
/// between pixels the upper one is still no further than the far endpoint.
pub proof fn lemma_step_bounds(from: int, to: int, t: int, d: int)
    requires
        0 < d,
        0 <= t <= d,
    ensures
        min(from, to) <= step_floor(from, to, t, d) <= max(from, to),
        0 <= step_frac(from, to, t, d) < d,
        step_frac(from, to, t, d) > 0 ==> step_floor(from, to, t, d) + 1 <= max(from, to),
{
    let p = (to - from) * t;
    if from <= to {
        assert(0 * d <= p <= (to - from) * d) by (nonlinear_arith)
            requires
                p == (to - from) * t,
                0 <= t <= d,
                from <= to,
        ;
        lemma_div_range(p, 0, to - from, d);
    } else {
        assert((to - from) * d <= p <= 0 * d) by (nonlinear_arith)
            requires
                p == (to - from) * t,
                0 <= t <= d,
                to < from,
        ;
        lemma_div_range(p, to - from, 0, d);
    }
}

/// Whole part and fractional numerator of the minor coordinate at step `t` of `d`.
pub fn step_position(from: usize, to: usize, t: usize, d: usize) -> (r: (usize, u128))
    requires
        0 < d,
        t <= d,
    ensures
        r.0 == step_floor(from as int, to as int, t as int, d as int),
        r.1 == step_frac(from as int, to as int, t as int, d as int),
{
    proof {
        lemma_step_bounds(from as int, to as int, t as int, d as int);
    }
    let dd = d as u128;
    if from <= to {
        let run = (to - from) as u128;
        assert(run * (t as u128) <= u64::MAX as int * u64::MAX as int) by (nonlinear_arith)
            requires
                run <= u64::MAX,
                t <= u64::MAX,
        ;
        let p = run * (t as u128);
        let q = p / dd;
        let k = p % dd;
        (from + q as usize, k)
    } else {
        let run = (from - to) as u128;
        assert(run * (t as u128) <= u64::MAX as int * u64::MAX as int) by (nonlinear_arith)
            requires
                run <= u64::MAX,
                t <= u64::MAX,
        ;
        let p = run * (t as u128);
        let q = p / dd;
        let k = p % dd;
        proof {
            let pi = (to as int - from as int) * t as int;
            assert(pi == -(p as int)) by (nonlinear_arith)
                requires
                    pi == (to as int - from as int) * t as int,
                    p as int == (from as int - to as int) * t as int,
            ;
            lemma_fundamental_div_mod(p as int, d as int);
            assert(pi == (-(q as int)) * d as int - k as int) by (nonlinear_arith)
                requires
                    pi == -(p as int),
                    p as int == d as int * (q as int) + k as int,
            ;
            assert(pi == (-(q as int) - 1) * d as int + (d as int - k as int)) by (nonlinear_arith)
                requires
                    pi == (-(q as int)) * d as int - k as int,
            ;
            if k == 0 {
                lemma_fundamental_div_mod_converse(pi, d as int, -(q as int), 0);
            } else {
                lemma_fundamental_div_mod_converse(pi, d as int, -(q as int) - 1, d - k);
            }
        }
        if k == 0 {
            (from - q as usize, 0)
        } else {
            (from - q as usize - 1, dd - k)
        }
    }
}

/// One channel blended towards `new` with coverage `cov / d`.
pub fn blend_channel(old: u8, new: u8, cov: u128, d: u128) -> (r: u8)
    requires
        0 < d <= u64::MAX,
        cov <= d,
    ensures
        r == blend(old as int, new as int, cov as int, d as int),
{
    let rest = d - cov;
    assert(old as u128 * rest + new as u128 * cov <= 255 * d) by (nonlinear_arith)
        requires
            old <= 255,
            new <= 255,
            rest + cov == d,
    ;
    let n = old as u128 * rest + new as u128 * cov;
    let num = 2 * n + d;
    let den = 2 * d;
    let r = num / den;
    assert(r < 256) by (nonlinear_arith)
        requires
            r == num / den,
            num < 256 * den,
            0 < den,
    {
        lemma_fundamental_div_mod(num as int, den as int);
        lemma_mod_bound(num as int, den as int);
    }
    r as u8
}

} // verus!
