use vstd::prelude::*;
use crate::fixed::{ceil_ub, div_fx, div_t, floor_lb, COORD_LIMIT, FX_ONE};
use crate::raster::DIM_MAX;
use crate::view::{ZOOM_MAX, ZOOM_MIN};

verus! {

/// Brush footprint on screen, in pixels.
pub const BRUSH_SIZE: i64 = 5;

/// Largest magnitude an image-space fixed-point coordinate can reach.
pub const IMG_COORD_MAX: i64 = 2_000_000_000_000_000_000;

/// Largest brush radius: `BRUSH_SIZE / ZOOM_MIN` in fixed point, plus one.
pub const RADIUS_MAX: i64 = 100_000_000;

/// The brush radius in image space for a given zoom: `BRUSH_SIZE / zoom`
/// screen pixels, never below one image pixel.
pub open spec fn spec_brush_radius(zoom: int) -> int {
    let raw = div_t(BRUSH_SIZE * FX_ONE * FX_ONE, zoom);
    if raw < FX_ONE {
        FX_ONE as int
    } else {
        raw
    }
}

/// Compute the brush radius for the current zoom.
pub fn brush_radius(zoom: i64) -> (r: i64)
    requires
        ZOOM_MIN <= zoom <= ZOOM_MAX,
    ensures
        r == spec_brush_radius(zoom as int),
        FX_ONE <= r <= RADIUS_MAX,
{
    proof {
        crate::fixed::lemma_div_t_mag(BRUSH_SIZE as int * FX_ONE as int * FX_ONE as int, zoom as int);
        lemma_radius_bound(zoom as int);
    }
    let raw = div_fx(BRUSH_SIZE as i128 * FX_ONE as i128 * FX_ONE as i128, zoom as i128) as i64;
    if raw < FX_ONE {
        FX_ONE
    } else {
        raw
    }
}

/// The raw radius never exceeds `BRUSH_SIZE / ZOOM_MIN`.
proof fn lemma_radius_bound(zoom: int)
    requires
        ZOOM_MIN <= zoom <= ZOOM_MAX,
    ensures
        div_t(BRUSH_SIZE * FX_ONE * FX_ONE, zoom) <= RADIUS_MAX,
        div_t(BRUSH_SIZE * FX_ONE * FX_ONE, zoom) >= 0,
{
    let num = BRUSH_SIZE * FX_ONE * FX_ONE;
    vstd::arithmetic::div_mod::lemma_div_is_ordered_by_denominator(num, ZOOM_MIN as int, zoom);
    assert(num == 50_000_000 * ZOOM_MIN);
    vstd::arithmetic::div_mod::lemma_div_multiples_vanish(50_000_000, ZOOM_MIN as int);
    vstd::arithmetic::div_mod::lemma_div_pos_is_pos(num, zoom);
}

/// Whether integer image pixel `(px, py)` lies inside the brush disk of
/// radius `r` around the fixed-point center `(cx, cy)` — squared Euclidean
/// distance, inclusive.
pub open spec fn in_disk(px: int, py: int, cx: int, cy: int, r: int) -> bool {
    (px * FX_ONE - cx) * (px * FX_ONE - cx) + (py * FX_ONE - cy) * (py * FX_ONE - cy) <= r * r
}

/// Whether `p` is a pixel the stamp at `(cx, cy)` covers: inside the raster
/// and inside the disk.
pub open spec fn stamp_covers(p: (usize, usize), cx: int, cy: int, r: int, w: int, h: int) -> bool {
    p.0 < w && p.1 < h && in_disk(p.0 as int, p.1 as int, cx, cy, r)
}

/// Membership test on a pixel list.
pub fn contains_pt(pts: &Vec<(usize, usize)>, p: (usize, usize)) -> (b: bool)
    ensures
        b == pts@.contains(p),
{
    let n = pts.len();
    let mut i: usize = 0;
    while i < n
        invariant
            i <= n,
            n == pts@.len(),
            forall|k: int| 0 <= k < i ==> pts@[k] != p,
        decreases n - i,
    {
        if pts[i].0 == p.0 && pts[i].1 == p.1 {
            return true;
        }
        i = i + 1;
    }
    false
}

/// `a * a <= r * r` with `r >= 0` bounds `a` by `r` in magnitude.
proof fn lemma_sq_le(a: int, r: int)
    requires
        r >= 0,
        a * a <= r * r,
    ensures
        -r <= a <= r,
{
    assert(-r <= a <= r) by (nonlinear_arith)
        requires r >= 0 && a * a <= r * r;
}

/// Multiplication by a positive factor preserves order, in reverse.
proof fn lemma_mul_le_cancel(a: int, b: int, f: int)
    requires
        f > 0,
        a * f <= b * f,
    ensures
        a <= b,
{
    assert(a <= b) by (nonlinear_arith)
        requires f > 0 && a * f <= b * f;
}

/// Stamp one brush disk: insert into `pts` every raster pixel of the
/// `w` x `h` grid inside the disk of radius `r` around `(cx, cy)` that is not
/// already present.  The list stays duplicate-free and inside the raster.
pub fn add_disk(pts: &mut Vec<(usize, usize)>, cx: i64, cy: i64, r: i64, w: usize, h: usize)
    requires
        -IMG_COORD_MAX <= cx <= IMG_COORD_MAX,
        -IMG_COORD_MAX <= cy <= IMG_COORD_MAX,
        0 <= r <= RADIUS_MAX,
        w <= DIM_MAX,
        h <= DIM_MAX,
        old(pts)@.no_duplicates(),
        forall|k: int| 0 <= k < old(pts)@.len() ==> (#[trigger] old(pts)@[k]).0 < w && old(pts)@[k].1 < h,
    ensures
        final(pts)@.no_duplicates(),
        forall|k: int| 0 <= k < final(pts)@.len() ==> (#[trigger] final(pts)@[k]).0 < w && final(pts)@[k].1 < h,
        forall|p: (usize, usize)|
            final(pts)@.contains(p) <==> old(pts)@.contains(p) || stamp_covers(
                p, cx as int, cy as int, r as int, w as int, h as int),
{
    let x_lo_raw: i64 = floor_lb(cx - r);
    let x_hi_raw: i64 = ceil_ub(cx + r);
    let y_lo_raw: i64 = floor_lb(cy - r);
    let y_hi_raw: i64 = ceil_ub(cy + r);
    let ghost pre = pts@;

    proof {
        assert forall|p: (usize, usize)|
            stamp_covers(p, cx as int, cy as int, r as int, w as int, h as int)
                implies x_lo_raw <= p.0 as int <= x_hi_raw && y_lo_raw <= p.1 as int <= y_hi_raw by {
            let ax = p.0 as int * FX_ONE - cx;
            let ay = p.1 as int * FX_ONE - cy;
            assert(ax * ax >= 0) by (nonlinear_arith);
            assert(ay * ay >= 0) by (nonlinear_arith);
            lemma_sq_le(ax, r as int);
            lemma_sq_le(ay, r as int);
            lemma_mul_le_cancel(x_lo_raw as int, p.0 as int, FX_ONE as int);
            lemma_mul_le_cancel(p.0 as int, x_hi_raw as int, FX_ONE as int);
            lemma_mul_le_cancel(y_lo_raw as int, p.1 as int, FX_ONE as int);
            lemma_mul_le_cancel(p.1 as int, y_hi_raw as int, FX_ONE as int);
        }
    }

    if w == 0 || h == 0 {
        return;
    }
    let x_lo: usize = if x_lo_raw < 0 {
        0
    } else if x_lo_raw >= w as i64 {
        return;
    } else {
        x_lo_raw as usize
    };
    let x_hi: usize = if x_hi_raw < 0 {
        return;
    } else if x_hi_raw >= w as i64 {
        w - 1
    } else {
        x_hi_raw as usize
    };
    let y_lo: usize = if y_lo_raw < 0 {
        0
    } else if y_lo_raw >= h as i64 {
        return;
    } else {
        y_lo_raw as usize
    };
    let y_hi: usize = if y_hi_raw < 0 {
        return;
    } else if y_hi_raw >= h as i64 {
        h - 1
    } else {
        y_hi_raw as usize
    };
    if x_hi < x_lo || y_hi < y_lo {
        return;
    }

    let ghost cov = |p: (usize, usize)|
        stamp_covers(p, cx as int, cy as int, r as int, w as int, h as int);
    let mut x: usize = x_lo;
    while x <= x_hi
        invariant
            x_lo <= x <= x_hi + 1,
            x_hi < w <= DIM_MAX,
            y_lo <= y_hi < h <= DIM_MAX,
            -IMG_COORD_MAX <= cx <= IMG_COORD_MAX,
            -IMG_COORD_MAX <= cy <= IMG_COORD_MAX,
            0 <= r <= RADIUS_MAX,
            pts@.no_duplicates(),
            forall|k: int| 0 <= k < pts@.len() ==> (#[trigger] pts@[k]).0 < w && pts@[k].1 < h,
            cov == (|p: (usize, usize)|
                stamp_covers(p, cx as int, cy as int, r as int, w as int, h as int)),
            forall|p: (usize, usize)| #[trigger] cov(p) ==> x_lo <= p.0 <= x_hi && y_lo <= p.1 <= y_hi,
            forall|p: (usize, usize)|
                #[trigger] pts@.contains(p) <==> pre.contains(p) || (cov(p) && p.0 < x),
        decreases x_hi + 1 - x,
    {
        let mut y: usize = y_lo;
        proof {
            assert forall|p: (usize, usize)|
                #[trigger] pts@.contains(p) <==> pre.contains(p) || (cov(p) && (p.0 < x || (
                p.0 == x && p.1 < y_lo))) by {
                if cov(p) {
                    assert(y_lo <= p.1);
                }
            }
        }
        while y <= y_hi
            invariant
                x_lo <= x <= x_hi,
                y_lo <= y <= y_hi + 1,
                x_hi < w <= DIM_MAX,
                y_lo <= y_hi < h <= DIM_MAX,
                -IMG_COORD_MAX <= cx <= IMG_COORD_MAX,
                -IMG_COORD_MAX <= cy <= IMG_COORD_MAX,
                0 <= r <= RADIUS_MAX,
                pts@.no_duplicates(),
                forall|k: int| 0 <= k < pts@.len() ==> (#[trigger] pts@[k]).0 < w && pts@[k].1 < h,
                cov == (|p: (usize, usize)|
                    stamp_covers(p, cx as int, cy as int, r as int, w as int, h as int)),
                forall|p: (usize, usize)| #[trigger] cov(p) ==> x_lo <= p.0 <= x_hi && y_lo <= p.1 <= y_hi,
                forall|p: (usize, usize)|
                    #[trigger] pts@.contains(p) <==> pre.contains(p) || (cov(p) && (p.0 < x || (
                    p.0 == x && p.1 < y))),
            decreases y_hi + 1 - y,
        {
            proof {
                crate::fixed::lemma_mul_bounds(x as int, FX_ONE as int, DIM_MAX as int, FX_ONE as int);
                crate::fixed::lemma_mul_bounds(y as int, FX_ONE as int, DIM_MAX as int, FX_ONE as int);
            }
            let dx: i128 = x as i128 * FX_ONE as i128 - cx as i128;
            let dy: i128 = y as i128 * FX_ONE as i128 - cy as i128;
            proof {
                crate::fixed::lemma_mul_bounds(dx as int, dx as int,
                    3 * IMG_COORD_MAX as int, 3 * IMG_COORD_MAX as int);
                crate::fixed::lemma_mul_bounds(dy as int, dy as int,
                    3 * IMG_COORD_MAX as int, 3 * IMG_COORD_MAX as int);
                crate::fixed::lemma_mul_bounds(r as int, r as int, RADIUS_MAX as int, RADIUS_MAX as int);
            }
            if dx * dx + dy * dy <= r as i128 * r as i128 {
                let p = (x, y);
                if !contains_pt(pts, p) {
                    let ghost before = pts@;
                    pts.push(p);
                    proof {
                        assert forall|q: (usize, usize)| #[trigger] pts@.contains(q)
                            implies before.contains(q) || q == p by {
                            let i = choose|i: int| 0 <= i < pts@.len() && pts@[i] == q;
                            if i < before.len() {
                                assert(before[i] == q);
                            }
                        }
                        assert(pts@.contains(p)) by {
                            assert(pts@[pts@.len() - 1] == p);
                        }
                        assert forall|q: (usize, usize)| before.contains(q)
                            implies #[trigger] pts@.contains(q) by {
                            let i = choose|i: int| 0 <= i < before.len() && before[i] == q;
                            assert(pts@[i] == q);
                        }
                        assert forall|i: int, j: int|
                            0 <= i < j < pts@.len() implies pts@[i] != pts@[j] by {
                            if j == pts@.len() - 1 {
                                assert(before[i] == pts@[i]);
                                assert(!before.contains(p));
                            }
                        }
                        assert(pts@.no_duplicates());
                    }
                }
            }
            y = y + 1;
        }
        proof {
            assert forall|p: (usize, usize)|
                #[trigger] pts@.contains(p) <==> pre.contains(p) || (cov(p) && p.0 < x + 1) by {
                if cov(p) {
                    assert(p.1 <= y_hi);
                }
            }
        }
        x = x + 1;
    }
}


/// Whether two fixed-point scalars are within one screen unit of each other,
/// strictly.
pub open spec fn near_pt(a: int, b: int) -> bool {
    -FX_ONE < a - b < FX_ONE
}

/// One step of the line walk: each axis moves by exactly one screen unit or
/// stays, and at least one axis moves.
pub open spec fn step_ok(p: (i64, i64), q: (i64, i64)) -> bool {
    &&& (q.0 == p.0 || q.0 == p.0 + FX_ONE || q.0 == p.0 - FX_ONE)
    &&& (q.1 == p.1 || q.1 == p.1 + FX_ONE || q.1 == p.1 - FX_ONE)
    &&& !(q.0 == p.0 && q.1 == p.1)
}

/// Step budget of the walk from `(x0, y0)` to `(x1, y1)`: the taxicab length
/// in screen units plus slack.  The walk provably arrives within it.
pub open spec fn spec_line_budget(x0: int, y0: int, x1: int, y1: int) -> int {
    (crate::fixed::abs_i(x1 - x0) + crate::fixed::abs_i(y1 - y0)) / (FX_ONE as int) + 4
}

/// The tail of the line walk from state `(cx, cy, err)`: empty once both
/// axes are within one screen unit of `(x1, y1)`; otherwise one step of the
/// error-accumulator rule followed by the rest of the walk.  `fuel` only
/// grounds the recursion; `line_points` proves the walk ends before it runs
/// out.
pub open spec fn spec_walk(
    cx: int,
    cy: int,
    err: int,
    x1: int,
    y1: int,
    dx: int,
    m: int,
    sx: int,
    sy: int,
    fuel: nat,
) -> Seq<(i64, i64)>
    decreases fuel,
{
    if (near_pt(cx, x1) && near_pt(cy, y1)) || fuel == 0 {
        Seq::empty()
    } else {
        let e2 = 2 * err;
        let cx2 = if e2 >= -m { cx + sx } else { cx };
        let e1 = if e2 >= -m { err - m } else { err };
        let cy2 = if e2 <= dx { cy + sy } else { cy };
        let e3 = if e2 <= dx { e1 + dx } else { e1 };
        seq![(cx2 as i64, cy2 as i64)] + spec_walk(cx2, cy2, e3, x1, y1, dx, m, sx, sy, (fuel
            - 1) as nat)
    }
}

/// The whole chain of screen centers the line walk from `(x0, y0)` to
/// `(x1, y1)` stamps: the start point, then every step of the walk.
pub open spec fn bresenham_chain(x0: int, y0: int, x1: int, y1: int) -> Seq<(i64, i64)> {
    let dx = crate::fixed::abs_i(x1 - x0);
    let m = crate::fixed::abs_i(y1 - y0);
    let sx: int = if x0 < x1 {
        FX_ONE as int
    } else {
        -(FX_ONE as int)
    };
    let sy: int = if y0 < y1 {
        FX_ONE as int
    } else {
        -(FX_ONE as int)
    };
    seq![(x0 as i64, y0 as i64)] + spec_walk(x0, y0, dx - m, x1, y1, dx, m, sx, sy, ((dx + m) / (
    FX_ONE as int) + 4) as nat)
}

/// What `line_points` promises of its result: it starts at `(x0, y0)`, moves
/// by at most one screen unit per axis per step with no stalls, stays within
/// a bounded band around the endpoints, takes at most the step budget, and
/// ends within one screen unit of `(x1, y1)` on both axes.
pub open spec fn chain_ok(pts: Seq<(i64, i64)>, x0: int, y0: int, x1: int, y1: int) -> bool {
    &&& pts.len() >= 1
    &&& pts[0].0 == x0 && pts[0].1 == y0
    &&& forall|k: int| 0 <= k < pts.len() - 1 ==> step_ok(pts[k], #[trigger] pts[k + 1])
    &&& near_pt(pts.last().0 as int, x1) && near_pt(pts.last().1 as int, y1)
    &&& pts.len() <= spec_line_budget(x0, y0, x1, y1) + 1
    &&& forall|k: int|
        0 <= k < pts.len() ==> -6 * COORD_LIMIT <= (#[trigger] pts[k]).0 <= 6 * COORD_LIMIT
            && -6 * COORD_LIMIT <= pts[k].1 <= 6 * COORD_LIMIT
}

/// While the walk's y axis is not yet within one unit of its goal, the x
/// axis, once at or past its own goal, never steps: the step condition
/// `2 (1+b) dx >= (2a+1) m` fails there.
proof fn lemma_no_x_escape(a: int, b: int, dx: int, m: int)
    requires
        a >= 0,
        b >= 0,
        dx >= 0,
        dx <= a * FX_ONE,
        (b + 1) * FX_ONE <= m,
    ensures
        2 * (1 + b) * dx < (2 * a + 1) * m,
{
    let s = FX_ONE as int;
    assert(2 * (1 + b) * dx <= 2 * (1 + b) * (a * s)) by (nonlinear_arith)
        requires dx <= a * s && b >= 0 && dx >= 0 && a >= 0 && s > 0;
    assert(2 * (1 + b) * (a * s) < (2 * a + 1) * ((b + 1) * s)) by (nonlinear_arith)
        requires a >= 0 && b >= 0 && s > 0;
    assert((2 * a + 1) * ((b + 1) * s) <= (2 * a + 1) * m) by (nonlinear_arith)
        requires (b + 1) * s <= m && a >= 0;
}

/// The mirror of `lemma_no_x_escape` for the y axis: while x is not within
/// one unit of its goal, a y axis at or past its own goal never steps.
proof fn lemma_no_y_escape(a: int, b: int, dx: int, m: int)
    requires
        a >= 0,
        b >= 0,
        m >= 0,
        m <= b * FX_ONE,
        (a + 1) * FX_ONE <= dx,
    ensures
        (2 * b + 1) * dx > 2 * (1 + a) * m,
{
    let s = FX_ONE as int;
    assert(2 * (1 + a) * m <= 2 * (1 + a) * (b * s)) by (nonlinear_arith)
        requires m <= b * s && a >= 0 && m >= 0 && b >= 0 && s > 0;
    assert(2 * (1 + a) * (b * s) < (2 * b + 1) * ((a + 1) * s)) by (nonlinear_arith)
        requires a >= 0 && b >= 0 && s > 0;
    assert((2 * b + 1) * ((a + 1) * s) <= (2 * b + 1) * dx) by (nonlinear_arith)
        requires (a + 1) * s <= dx && b >= 0;
}

/// Walk from screen point `(x0, y0)` to `(x1, y1)` in whole screen units,
/// accumulating an error term so the path hugs the straight line; the walk
/// stops once both axes are within one unit of the goal, and provably
/// reaches it.  The result is exactly `bresenham_chain` of the endpoints.
pub fn line_points(x0: i64, y0: i64, x1: i64, y1: i64) -> (pts: Vec<(i64, i64)>)
    requires
        -COORD_LIMIT <= x0 <= COORD_LIMIT,
        -COORD_LIMIT <= y0 <= COORD_LIMIT,
        -COORD_LIMIT <= x1 <= COORD_LIMIT,
        -COORD_LIMIT <= y1 <= COORD_LIMIT,
    ensures
        pts@ == bresenham_chain(x0 as int, y0 as int, x1 as int, y1 as int),
        chain_ok(pts@, x0 as int, y0 as int, x1 as int, y1 as int),
{
    let dx: i64 = if x1 >= x0 { x1 - x0 } else { x0 - x1 };
    let m: i64 = if y1 >= y0 { y1 - y0 } else { y0 - y1 };
    let budget: i64 = (((dx as u64) + (m as u64)) / (FX_ONE as u64)) as i64 + 4;
    proof {
        vstd::arithmetic::div_mod::lemma_fundamental_div_mod((dx + m) as int, FX_ONE as int);
        vstd::arithmetic::div_mod::lemma_mod_bound((dx + m) as int, FX_ONE as int);
        vstd::arithmetic::div_mod::lemma_div_pos_is_pos((dx + m) as int, FX_ONE as int);
        assert(4 * COORD_LIMIT as int == FX_ONE as int * 4_000_000);
        vstd::arithmetic::div_mod::lemma_div_multiples_vanish(4_000_000, FX_ONE as int);
        vstd::arithmetic::div_mod::lemma_div_is_ordered((dx + m) as int, 4 * COORD_LIMIT as int,
            FX_ONE as int);
        assert(budget as int * FX_ONE as int == ((dx + m) as int / FX_ONE as int) * FX_ONE as int
            + 4 * FX_ONE as int) by (nonlinear_arith)
            requires budget as int == (dx + m) as int / FX_ONE as int + 4;
        assert(((dx + m) as int / FX_ONE as int) * FX_ONE as int == FX_ONE as int * ((dx
            + m) as int / FX_ONE as int)) by (nonlinear_arith);
    }
    let sx: i64 = if x0 < x1 { FX_ONE } else { -FX_ONE };
    let sy: i64 = if y0 < y1 { FX_ONE } else { -FX_ONE };
    let dy: i64 = -m;
    let mut err: i128 = dx as i128 + dy as i128;
    let mut cx: i64 = x0;
    let mut cy: i64 = y0;
    let mut pts: Vec<(i64, i64)> = Vec::new();
    pts.push((x0, y0));
    let mut done: bool = -FX_ONE < cx - x1 && cx - x1 < FX_ONE && -FX_ONE < cy - y1 && cy - y1
        < FX_ONE;
    let mut fuel: i64 = budget;
    let mut ga: Ghost<int> = Ghost(0);
    let mut gb: Ghost<int> = Ghost(0);
    proof {
        assert(1 * (5 * COORD_LIMIT as int) == 5 * COORD_LIMIT as int) by (nonlinear_arith);
        assert(pts@ =~= seq![(x0, y0)]);
    }
    while !done && fuel > 0
        invariant
            -COORD_LIMIT <= x0 <= COORD_LIMIT,
            -COORD_LIMIT <= y0 <= COORD_LIMIT,
            -COORD_LIMIT <= x1 <= COORD_LIMIT,
            -COORD_LIMIT <= y1 <= COORD_LIMIT,
            dx == crate::fixed::abs_i(x1 as int - x0 as int),
            m == crate::fixed::abs_i(y1 as int - y0 as int),
            dy == -m,
            sx == (if x0 < x1 { FX_ONE as i64 } else { (-FX_ONE) as i64 }),
            sy == (if y0 < y1 { FX_ONE as i64 } else { (-FX_ONE) as i64 }),
            budget == spec_line_budget(x0 as int, y0 as int, x1 as int, y1 as int),
            budget as int * FX_ONE as int <= dx + m + 4 * FX_ONE,
            0 <= fuel <= budget,
            pts@.len() == budget - fuel + 1,
            pts@.len() >= 1,
            pts@[0] == (x0, y0),
            pts@.last() == (cx, cy),
            forall|k: int| 0 <= k < pts@.len() - 1 ==> step_ok(pts@[k], #[trigger] pts@[k + 1]),
            ga@ >= 0,
            gb@ >= 0,
            cx as int == (if x0 < x1 { x0 as int + ga@ * FX_ONE } else { x0 as int - ga@ * FX_ONE }),
            cy as int == (if y0 < y1 { y0 as int + gb@ * FX_ONE } else { y0 as int - gb@ * FX_ONE }),
            ga@ * FX_ONE < dx + FX_ONE,
            gb@ * FX_ONE < m + FX_ONE,
            budget - fuel <= ga@ + gb@,
            err as int == (1 + gb@) * dx - (1 + ga@) * m,
            forall|k: int|
                0 <= k < pts@.len() ==> -6 * COORD_LIMIT <= (#[trigger] pts@[k]).0 <= 6
                    * COORD_LIMIT && -6 * COORD_LIMIT <= pts@[k].1 <= 6 * COORD_LIMIT,
            done == (near_pt(cx as int, x1 as int) && near_pt(cy as int, y1 as int)),
            budget <= 4_000_004,
            -((budget - fuel + 1) * (5 * COORD_LIMIT as int)) <= err as int,
            err as int <= (budget - fuel + 1) * (5 * COORD_LIMIT as int),
            bresenham_chain(x0 as int, y0 as int, x1 as int, y1 as int) == pts@ + spec_walk(
                cx as int, cy as int, err as int, x1 as int, y1 as int, dx as int, m as int,
                sx as int, sy as int, fuel as nat),
        decreases fuel,
    {
        let ghost used = budget as int - fuel as int;
        let ghost cx0 = cx as int;
        let ghost cy0 = cy as int;
        let ghost err0 = err as int;
        let ghost fuel0 = fuel as nat;
        let ghost a0 = ga@;
        let ghost b0 = gb@;
        proof {
            assert((used + 1) * FX_ONE as int == used * FX_ONE as int + FX_ONE as int)
                by (nonlinear_arith);
            assert((used + 2) as int * (5 * COORD_LIMIT as int) == (used + 1) as int * (5
                * COORD_LIMIT as int) + 5 * COORD_LIMIT as int) by (nonlinear_arith);
            assert((used + 1) as int * (5 * COORD_LIMIT as int) >= 0) by (nonlinear_arith)
                requires used >= 0;
            vstd::arithmetic::mul::lemma_mul_inequality(used + 1, budget as int + 1,
                5 * COORD_LIMIT as int);
            vstd::arithmetic::mul::lemma_mul_inequality(budget as int + 1, 4_000_005,
                5 * COORD_LIMIT as int);
            assert((a0 + 1) * FX_ONE as int == a0 * FX_ONE as int + FX_ONE as int)
                by (nonlinear_arith);
            assert((b0 + 1) * FX_ONE as int == b0 * FX_ONE as int + FX_ONE as int)
                by (nonlinear_arith);
            // Expand the step conditions over the error characterization.
            assert(2 * ((1 + b0) * dx - (1 + a0) * m) == 2 * (1 + b0) * dx - 2 * (1 + a0) * m)
                by (nonlinear_arith);
            assert((2 * a0 + 1) * m == 2 * (1 + a0) * m - m) by (nonlinear_arith);
            assert((2 * b0 + 1) * dx == 2 * (1 + b0) * dx - dx) by (nonlinear_arith);
        }
        let e2: i128 = 2 * err;
        if e2 >= dy as i128 {
            proof {
                // The x axis only steps while strictly short of its goal.
                if a0 * FX_ONE >= dx {
                    if (b0 + 1) * FX_ONE <= m {
                        lemma_no_x_escape(a0, b0, dx as int, m as int);
                        assert(false);
                    } else {
                        // y is within one unit, so x cannot be (the loop ran),
                        // contradicting the window bound.
                        assert(false);
                    }
                }
            }
            err = err + dy as i128;
            cx = cx + sx;
            proof {
                ga@ = a0 + 1;
                assert((1 + b0) * dx - (1 + (a0 + 1)) * m == ((1 + b0) * dx - (1 + a0) * m) - m)
                    by (nonlinear_arith);
            }
        }
        if e2 <= dx as i128 {
            proof {
                if b0 * FX_ONE >= m {
                    if (a0 + 1) * FX_ONE <= dx {
                        lemma_no_y_escape(a0, b0, dx as int, m as int);
                        assert(false);
                    } else {
                        assert(false);
                    }
                }
            }
            err = err + dx as i128;
            cy = cy + sy;
            proof {
                gb@ = b0 + 1;
                assert((1 + (b0 + 1)) * dx - (1 + ga@) * m == ((1 + b0) * dx - (1 + ga@) * m) + dx)
                    by (nonlinear_arith);
            }
        }
        pts.push((cx, cy));
        done = -FX_ONE < cx - x1 && cx - x1 < FX_ONE && -FX_ONE < cy - y1 && cy - y1 < FX_ONE;
        fuel = fuel - 1;
        proof {
            assert(forall|k: int|
                0 <= k < pts@.len() - 1 ==> step_ok(pts@[k], #[trigger] pts@[k + 1]));
            // One unfolding of the walk ties the step just taken to the spec.
            assert(spec_walk(cx0, cy0, err0, x1 as int, y1 as int, dx as int, m as int,
                sx as int, sy as int, fuel0) == seq![(cx, cy)] + spec_walk(cx as int, cy as int,
                err as int, x1 as int, y1 as int, dx as int, m as int, sx as int, sy as int,
                (fuel0 - 1) as nat));
            assert((pts@.drop_last() + seq![(cx, cy)]) + spec_walk(cx as int, cy as int,
                err as int, x1 as int, y1 as int, dx as int, m as int, sx as int, sy as int,
                fuel as nat) =~= pts@.drop_last() + (seq![(cx, cy)] + spec_walk(cx as int,
                cy as int, err as int, x1 as int, y1 as int, dx as int, m as int, sx as int,
                sy as int, fuel as nat)));
            assert(pts@ =~= pts@.drop_last() + seq![(cx, cy)]);
        }
    }
    proof {
        if !done {
            // The budget cannot run out first: both axes are bounded by their
            // taxicab shares, so the step count stays under the budget.
            vstd::arithmetic::mul::lemma_mul_inequality(budget as int, ga@ + gb@, FX_ONE as int);
            assert((ga@ + gb@) * FX_ONE as int == ga@ * FX_ONE as int + gb@ * FX_ONE as int)
                by (nonlinear_arith);
            assert(false);
        }
        assert(spec_walk(cx as int, cy as int, err as int, x1 as int, y1 as int, dx as int,
            m as int, sx as int, sy as int, fuel as nat) =~= Seq::<(i64, i64)>::empty());
        assert(pts@ + Seq::<(i64, i64)>::empty() =~= pts@);
    }
    pts
}

} // verus!
