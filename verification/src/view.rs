use vstd::prelude::*;
use crate::fixed::{
    abs_i, clamp_i, div_fx, div_t, lemma_scale_down, lemma_scale_step_nonzero,
    COORD_LIMIT, FX_ONE,
};

verus! {

/// Smallest zoom factor, fixed-point (0.1).
pub const ZOOM_MIN: i64 = 100_000;

/// Largest zoom factor, fixed-point (10.0).
pub const ZOOM_MAX: i64 = 10_000_000;

/// Below this distance (0.001) between the current and the target state the
/// animation snaps to the target exactly.
pub const SNAP_EPS: i64 = 1_000;

/// Default smoothing factor (0.2).
pub const SMOOTHING_DEFAULT: i64 = 200_000;

/// The screen-to-image mapping together with its animation targets.  All
/// scalars are fixed-point with scale `FX_ONE`.
pub struct ViewState {
    pub zoom: i64,
    pub target_zoom: i64,
    pub off_x: i64,
    pub off_y: i64,
    pub t_off_x: i64,
    pub t_off_y: i64,
    pub smoothing: i64,
}

impl ViewState {
    /// Well-formedness: zoom factors clamped into their range, offsets within
    /// the coordinate range, smoothing factor in (0, 1].
    pub open spec fn wf(self) -> bool {
        &&& ZOOM_MIN <= self.zoom <= ZOOM_MAX
        &&& ZOOM_MIN <= self.target_zoom <= ZOOM_MAX
        &&& -COORD_LIMIT <= self.off_x <= COORD_LIMIT
        &&& -COORD_LIMIT <= self.off_y <= COORD_LIMIT
        &&& -COORD_LIMIT <= self.t_off_x <= COORD_LIMIT
        &&& -COORD_LIMIT <= self.t_off_y <= COORD_LIMIT
        &&& 0 < self.smoothing <= FX_ONE
    }

    /// The image-space coordinate shown at screen coordinate `s`, for a given
    /// zoom and offset: `s / zoom + offset`.
    pub open spec fn spec_s2i(s: int, zoom: int, off: int) -> int {
        div_t(s * FX_ONE, zoom) + off
    }

    /// Zoom target after one scroll of `delta`: the target is scaled by
    /// `1 + delta / 10` and clamped into `[ZOOM_MIN, ZOOM_MAX]`.
    pub open spec fn spec_zoom_after(tz: int, delta: int) -> int {
        clamp_i(div_t(tz * (FX_ONE + div_t(delta, 10)), FX_ONE as int), ZOOM_MIN as int, ZOOM_MAX as int)
    }

    /// Offset target after an anchored zoom: shifted so that the image point
    /// under the anchor keeps its place, then clamped into coordinate range.
    pub open spec fn spec_offset_after_zoom(t_off: int, anchor: int, old_tz: int, new_tz: int) -> int {
        clamp_i(
            t_off + div_t(anchor * FX_ONE, old_tz) - div_t(anchor * FX_ONE, new_tz),
            -COORD_LIMIT as int,
            COORD_LIMIT as int,
        )
    }

    /// One smoothing step of a single scalar: move from `cur` toward `tgt` by
    /// the fraction `s`.
    pub open spec fn spec_step(cur: int, tgt: int, s: int) -> int {
        cur + div_t((tgt - cur) * s, FX_ONE as int)
    }

    /// Whether the animation has settled: current state equals the target.
    pub open spec fn settled(self) -> bool {
        self.zoom == self.target_zoom && self.off_x == self.t_off_x && self.off_y == self.t_off_y
    }

    /// Whether every current-to-target distance is below the snap threshold.
    pub open spec fn near_target(self) -> bool {
        &&& -SNAP_EPS < self.target_zoom - self.zoom < SNAP_EPS
        &&& -SNAP_EPS < self.t_off_x - self.off_x < SNAP_EPS
        &&& -SNAP_EPS < self.t_off_y - self.off_y < SNAP_EPS
    }

    /// The state after one animation tick: snap when near the target, else one
    /// exponential-smoothing step on each scalar.
    pub open spec fn spec_update(self) -> ViewState {
        if self.near_target() {
            ViewState { zoom: self.target_zoom, off_x: self.t_off_x, off_y: self.t_off_y, ..self }
        } else {
            ViewState {
                zoom: Self::spec_step(self.zoom as int, self.target_zoom as int, self.smoothing as int) as i64,
                off_x: Self::spec_step(self.off_x as int, self.t_off_x as int, self.smoothing as int) as i64,
                off_y: Self::spec_step(self.off_y as int, self.t_off_y as int, self.smoothing as int) as i64,
                ..self
            }
        }
    }

    /// The initial view: unit zoom, origin offset, default smoothing.
    pub fn new() -> (v: ViewState)
        ensures
            v.zoom == FX_ONE,
            v.target_zoom == FX_ONE,
            v.off_x == 0 && v.off_y == 0 && v.t_off_x == 0 && v.t_off_y == 0,
            v.smoothing == SMOOTHING_DEFAULT,
            v.wf(),
    {
        ViewState {
            zoom: FX_ONE,
            target_zoom: FX_ONE,
            off_x: 0,
            off_y: 0,
            t_off_x: 0,
            t_off_y: 0,
            smoothing: SMOOTHING_DEFAULT,
        }
    }

    /// Map a screen point to image space through the *current* zoom and
    /// offset.
    pub fn screen_to_image(&self, sx: i64, sy: i64) -> (r: (i64, i64))
        requires
            self.wf(),
            -8 * COORD_LIMIT <= sx <= 8 * COORD_LIMIT,
            -8 * COORD_LIMIT <= sy <= 8 * COORD_LIMIT,
        ensures
            r.0 == Self::spec_s2i(sx as int, self.zoom as int, self.off_x as int),
            r.1 == Self::spec_s2i(sy as int, self.zoom as int, self.off_y as int),
            -100_000_000_000_000 <= r.0 <= 100_000_000_000_000,
            -100_000_000_000_000 <= r.1 <= 100_000_000_000_000,
    {
        proof {
            crate::fixed::lemma_mul_bounds(sx as int, FX_ONE as int, 8 * COORD_LIMIT as int, FX_ONE as int);
            crate::fixed::lemma_mul_bounds(sy as int, FX_ONE as int, 8 * COORD_LIMIT as int, FX_ONE as int);
            assert(8 * COORD_LIMIT as int * FX_ONE as int == 80_000_000_000_000 * ZOOM_MIN as int);
            crate::fixed::lemma_div_t_quotient_bound(sx as int * FX_ONE as int, self.zoom as int,
                80_000_000_000_000);
            crate::fixed::lemma_div_t_quotient_bound(sy as int * FX_ONE as int, self.zoom as int,
                80_000_000_000_000);
        }
        let ix = div_fx(sx as i128 * FX_ONE as i128, self.zoom as i128) as i64 + self.off_x;
        let iy = div_fx(sy as i128 * FX_ONE as i128, self.zoom as i128) as i64 + self.off_y;
        (ix, iy)
    }

    /// Scroll by `delta` anchored at screen point `(ax, ay)`: rescale the
    /// target zoom, clamp it, and shift the target offset so the image point
    /// under the anchor (computed with the old and the new *target* zoom)
    /// stays under the anchor.
    pub fn apply_zoom(&mut self, delta: i64, ax: i64, ay: i64)
        requires
            old(self).wf(),
            -COORD_LIMIT <= delta <= COORD_LIMIT,
            -COORD_LIMIT <= ax <= COORD_LIMIT,
            -COORD_LIMIT <= ay <= COORD_LIMIT,
        ensures
            final(self).target_zoom == Self::spec_zoom_after(old(self).target_zoom as int, delta as int),
            final(self).t_off_x == Self::spec_offset_after_zoom(
                old(self).t_off_x as int, ax as int,
                old(self).target_zoom as int, final(self).target_zoom as int),
            final(self).t_off_y == Self::spec_offset_after_zoom(
                old(self).t_off_y as int, ay as int,
                old(self).target_zoom as int, final(self).target_zoom as int),
            final(self).zoom == old(self).zoom,
            final(self).off_x == old(self).off_x,
            final(self).off_y == old(self).off_y,
            final(self).smoothing == old(self).smoothing,
            final(self).wf(),
    {
        let old_tz = self.target_zoom;
        let factor: i128 = FX_ONE as i128 + div_fx(delta as i128, 10);
        proof {
            crate::fixed::lemma_mul_bounds(old_tz as int, factor as int, ZOOM_MAX as int,
                FX_ONE + COORD_LIMIT as int);
        }
        let raw: i128 = div_fx(old_tz as i128 * factor, FX_ONE as i128);
        let new_tz: i64 = if raw < ZOOM_MIN as i128 {
            ZOOM_MIN
        } else if raw > ZOOM_MAX as i128 {
            ZOOM_MAX
        } else {
            raw as i64
        };
        self.target_zoom = new_tz;
        self.t_off_x = Self::shift_offset(self.t_off_x, ax, old_tz, new_tz);
        self.t_off_y = Self::shift_offset(self.t_off_y, ay, old_tz, new_tz);
    }

    /// The anchored-zoom offset adjustment for one axis, clamped.
    fn shift_offset(t_off: i64, anchor: i64, old_tz: i64, new_tz: i64) -> (r: i64)
        requires
            -COORD_LIMIT <= t_off <= COORD_LIMIT,
            -COORD_LIMIT <= anchor <= COORD_LIMIT,
            ZOOM_MIN <= old_tz <= ZOOM_MAX,
            ZOOM_MIN <= new_tz <= ZOOM_MAX,
        ensures
            r == Self::spec_offset_after_zoom(t_off as int, anchor as int, old_tz as int, new_tz as int),
    {
        proof {
            crate::fixed::lemma_mul_bounds(anchor as int, FX_ONE as int, COORD_LIMIT as int,
                FX_ONE as int);
        }
        let a_old = div_fx(anchor as i128 * FX_ONE as i128, old_tz as i128);
        let a_new = div_fx(anchor as i128 * FX_ONE as i128, new_tz as i128);
        let shifted: i128 = t_off as i128 + a_old - a_new;
        if shifted < -COORD_LIMIT as i128 {
            -COORD_LIMIT
        } else if shifted > COORD_LIMIT as i128 {
            COORD_LIMIT
        } else {
            shifted as i64
        }
    }

    /// Pan by a screen-space drag `(dx, dy)`: the target offset moves by the
    /// drag divided by the *current* zoom, clamped into coordinate range.
    pub fn apply_pan(&mut self, dx: i64, dy: i64)
        requires
            old(self).wf(),
            -2 * COORD_LIMIT <= dx <= 2 * COORD_LIMIT,
            -2 * COORD_LIMIT <= dy <= 2 * COORD_LIMIT,
        ensures
            final(self).t_off_x == clamp_i(
                old(self).t_off_x - div_t(dx as int * FX_ONE, old(self).zoom as int),
                -COORD_LIMIT as int, COORD_LIMIT as int),
            final(self).t_off_y == clamp_i(
                old(self).t_off_y - div_t(dy as int * FX_ONE, old(self).zoom as int),
                -COORD_LIMIT as int, COORD_LIMIT as int),
            final(self).zoom == old(self).zoom,
            final(self).target_zoom == old(self).target_zoom,
            final(self).off_x == old(self).off_x,
            final(self).off_y == old(self).off_y,
            final(self).smoothing == old(self).smoothing,
            final(self).wf(),
    {
        proof {
            crate::fixed::lemma_mul_bounds(dx as int, FX_ONE as int, 2 * COORD_LIMIT as int, FX_ONE as int);
            crate::fixed::lemma_mul_bounds(dy as int, FX_ONE as int, 2 * COORD_LIMIT as int, FX_ONE as int);
        }
        let sx = div_fx(dx as i128 * FX_ONE as i128, self.zoom as i128);
        let sy = div_fx(dy as i128 * FX_ONE as i128, self.zoom as i128);
        let nx: i128 = self.t_off_x as i128 - sx;
        let ny: i128 = self.t_off_y as i128 - sy;
        self.t_off_x = if nx < -COORD_LIMIT as i128 {
            -COORD_LIMIT
        } else if nx > COORD_LIMIT as i128 {
            COORD_LIMIT
        } else {
            nx as i64
        };
        self.t_off_y = if ny < -COORD_LIMIT as i128 {
            -COORD_LIMIT
        } else if ny > COORD_LIMIT as i128 {
            COORD_LIMIT
        } else {
            ny as i64
        };
    }

    /// One animation tick: snap exactly onto the target when already within
    /// the snap threshold on every scalar, otherwise move each scalar toward
    /// its target by the smoothing fraction.
    pub fn update(&mut self)
        requires
            old(self).wf(),
        ensures
            *final(self) == old(self).spec_update(),
            final(self).wf(),
            final(self).target_zoom == old(self).target_zoom,
            final(self).t_off_x == old(self).t_off_x,
            final(self).t_off_y == old(self).t_off_y,
            final(self).smoothing == old(self).smoothing,
    {
        let zd = self.target_zoom - self.zoom;
        let xd = self.t_off_x - self.off_x;
        let yd = self.t_off_y - self.off_y;
        if -SNAP_EPS < zd && zd < SNAP_EPS && -SNAP_EPS < xd && xd < SNAP_EPS && -SNAP_EPS < yd
            && yd < SNAP_EPS {
            self.zoom = self.target_zoom;
            self.off_x = self.t_off_x;
            self.off_y = self.t_off_y;
        } else {
            proof {
                lemma_scale_down(zd as int, self.smoothing as int);
                lemma_scale_down(xd as int, self.smoothing as int);
                lemma_scale_down(yd as int, self.smoothing as int);
            }
            proof {
                crate::fixed::lemma_mul_bounds(zd as int, self.smoothing as int,
                    ZOOM_MAX as int, FX_ONE as int);
                crate::fixed::lemma_mul_bounds(xd as int, self.smoothing as int,
                    2 * COORD_LIMIT as int, FX_ONE as int);
                crate::fixed::lemma_mul_bounds(yd as int, self.smoothing as int,
                    2 * COORD_LIMIT as int, FX_ONE as int);
            }
            self.zoom = self.zoom + div_fx(zd as i128 * self.smoothing as i128, FX_ONE as i128) as i64;
            self.off_x = self.off_x + div_fx(xd as i128 * self.smoothing as i128, FX_ONE as i128) as i64;
            self.off_y = self.off_y + div_fx(yd as i128 * self.smoothing as i128, FX_ONE as i128) as i64;
        }
    }

    /// The view after `n` animation ticks.
    pub open spec fn spec_update_n(self, n: nat) -> ViewState
        decreases n,
    {
        if n == 0 {
            self
        } else {
            self.spec_update().spec_update_n((n - 1) as nat)
        }
    }

    /// Distance still to travel, over all three animated scalars.
    pub open spec fn distance(self) -> int {
        abs_i(self.target_zoom - self.zoom) + abs_i(self.t_off_x - self.off_x) + abs_i(
            self.t_off_y - self.off_y,
        )
    }
}

/// An animation tick keeps well-formedness and either settles the view at
/// once (when within the snap threshold) or strictly shrinks the remaining
/// distance to the target, provided the smoothing factor is at least the snap
/// threshold's reciprocal.
pub proof fn lemma_update_progress(v: ViewState)
    requires
        v.wf(),
        v.smoothing * SNAP_EPS >= FX_ONE,
    ensures
        v.spec_update().wf(),
        v.near_target() ==> v.spec_update().settled(),
        !v.near_target() ==> v.spec_update().distance() < v.distance(),
        v.spec_update().target_zoom == v.target_zoom,
        v.spec_update().t_off_x == v.t_off_x,
        v.spec_update().t_off_y == v.t_off_y,
        v.spec_update().smoothing == v.smoothing,
{
    let s = v.smoothing as int;
    let zd = v.target_zoom - v.zoom;
    let xd = v.t_off_x - v.off_x;
    let yd = v.t_off_y - v.off_y;
    lemma_scale_down(zd as int, s);
    lemma_scale_down(xd as int, s);
    lemma_scale_down(yd as int, s);
    if !v.near_target() {
        if zd >= SNAP_EPS || zd <= -SNAP_EPS {
            lemma_scale_step_nonzero(zd as int, s, SNAP_EPS as int);
        }
        if xd >= SNAP_EPS || xd <= -SNAP_EPS {
            lemma_scale_step_nonzero(xd as int, s, SNAP_EPS as int);
        }
        if yd >= SNAP_EPS || yd <= -SNAP_EPS {
            lemma_scale_step_nonzero(yd as int, s, SNAP_EPS as int);
        }
    }
}

/// Convergence: from any well-formed view whose smoothing factor is at least
/// `FX_ONE / SNAP_EPS`, some finite number of ticks makes the current zoom
/// and offset *exactly* equal to their targets, and further ticks keep them
/// there.
pub proof fn lemma_update_converges(v: ViewState)
    requires
        v.wf(),
        v.smoothing * SNAP_EPS >= FX_ONE,
    ensures
        exists|n: nat| v.spec_update_n(n).settled(),
    decreases v.distance(),
{
    lemma_update_progress(v);
    if v.near_target() {
        assert(v.spec_update_n(1) == v.spec_update().spec_update_n(0));
        assert(v.spec_update_n(1).settled());
    } else {
        lemma_update_converges(v.spec_update());
        let n0 = choose|n: nat| v.spec_update().spec_update_n(n).settled();
        assert(v.spec_update_n(n0 + 1) == v.spec_update().spec_update_n(n0));
        assert(v.spec_update_n(n0 + 1).settled());
    }
}

/// Zoom clamping: a well-formed view keeps both zoom scalars inside
/// `[ZOOM_MIN, ZOOM_MAX]`; and since every mutating operation of `ViewState`
/// ensures well-formedness again, the bound holds across any sequence of
/// scrolls, pans and ticks.
pub proof fn lemma_zoom_clamped(v: ViewState)
    requires
        v.wf(),
    ensures
        ZOOM_MIN <= v.zoom <= ZOOM_MAX,
        ZOOM_MIN <= v.target_zoom <= ZOOM_MAX,
{
}

/// A settled view stays settled: the snap branch of the tick is a no-op once
/// current state and target coincide.
pub proof fn lemma_settled_stable(v: ViewState)
    requires
        v.settled(),
    ensures
        v.spec_update() == v,
{
}

/// Anchor preservation: after an anchored zoom and once the animation has
/// settled (current state equals target), the image point under the anchor is
/// exactly the one that the *previous* target state placed there — zooming
/// never jumps the content under the cursor.  Holds whenever the shifted
/// offset stays inside the coordinate range, so that its clamp is inactive.
pub proof fn lemma_zoom_anchor_preserved(t_off: int, anchor: int, old_tz: int, new_tz: int)
    requires
        -COORD_LIMIT <= t_off + div_t(anchor * FX_ONE, old_tz) - div_t(anchor * FX_ONE, new_tz)
            <= COORD_LIMIT,
    ensures
        ViewState::spec_s2i(anchor, new_tz,
            ViewState::spec_offset_after_zoom(t_off, anchor, old_tz, new_tz))
            == ViewState::spec_s2i(anchor, old_tz, t_off),
{
}

} // verus!
