use vstd::prelude::*;
use crate::engine::Engine;
use crate::fixed::{div_fx, FX_ONE};
use crate::raster::{background, spec_background, Raster, Rgba, DIM_MAX};
use crate::stroke::paint_pts;
use crate::view::ViewState;
use rayon::iter::{IndexedParallelIterator, IntoParallelRefMutIterator, ParallelIterator};

verus! {

/// Spotlight radius on screen, in pixels.
pub const FOCUS_RADIUS: i64 = 125;

/// The spotlight radius squared, in squared fixed-point screen units:
/// `(FOCUS_RADIUS * FX_ONE)^2`.
pub const FOCUS_DIST2: i128 = 15_625_000_000_000_000;

/// A read-only frame snapshot: the canvas with the in-progress stroke
/// already composited, plus the view scalars and spotlight state the pixel
/// function reads.  Built once per frame before the pixel pass.
pub struct Snapshot {
    pub display: Raster,
    pub zoom: i64,
    pub off_x: i64,
    pub off_y: i64,
    pub spotlight: bool,
    pub mouse_x: i64,
    pub mouse_y: i64,
}

/// Dimming of one pixel outside the spotlight: each color channel drops to a
/// quarter, rounded down; alpha is kept.
pub open spec fn spec_dim(c: Rgba) -> Rgba {
    Rgba { r: (c.r / 4) as u8, g: (c.g / 4) as u8, b: (c.b / 4) as u8, a: c.a }
}

/// Squared screen distance, in fixed-point units, between pixel `(sx, sy)`
/// and the fixed-point point `(mx, my)`.
pub open spec fn spec_dist2(sx: int, sy: int, mx: int, my: int) -> int {
    (sx * FX_ONE - mx) * (sx * FX_ONE - mx) + (sy * FX_ONE - my) * (sy * FX_ONE - my)
}

/// The color sampled for screen pixel `(sx, sy)`: the snapshot raster pixel
/// under it through the view mapping, or the neutral background when the
/// mapping leaves the raster.
pub open spec fn spec_sample(s: Snapshot, sx: int, sy: int) -> Rgba {
    if s.zoom < 1 {
        spec_background()
    } else {
        let ix = ViewState::spec_s2i(sx * FX_ONE, s.zoom as int, s.off_x as int);
        let iy = ViewState::spec_s2i(sy * FX_ONE, s.zoom as int, s.off_y as int);
        if 0 <= ix && 0 <= iy {
            let px = ix / (FX_ONE as int);
            let py = iy / (FX_ONE as int);
            if px < s.display.width && py < s.display.height && s.display.width <= DIM_MAX
                && s.display.height <= DIM_MAX {
                let idx = py * s.display.width + px;
                if 0 <= idx < s.display.data@.len() {
                    s.display.data@[idx]
                } else {
                    spec_background()
                }
            } else {
                spec_background()
            }
        } else {
            spec_background()
        }
    }
}

/// The final color of output cell `i` in a frame `fw` pixels wide: sample
/// the snapshot under the pixel, then, when the spotlight is held, dim every
/// pixel whose squared distance from the pointer exceeds the spotlight
/// radius squared — pixels at or inside the radius are untouched.
pub open spec fn spec_frame_pixel(s: Snapshot, fw: int, i: int) -> Rgba {
    if fw < 1 || fw > DIM_MAX || i < 0 {
        spec_background()
    } else {
        let sx = i % fw;
        let sy = i / fw;
        if sy > DIM_MAX {
            spec_background()
        } else {
            let base = spec_sample(s, sx, sy);
            if s.spotlight && spec_dist2(sx, sy, s.mouse_x as int, s.mouse_y as int)
                > FOCUS_DIST2 {
                spec_dim(base)
            } else {
                base
            }
        }
    }
}

/// Spotlight masking, stated on its own: with the spotlight held, a sampled
/// output pixel farther than the spotlight radius from the pointer shows the
/// sample with every color channel quartered (rounded down) and its alpha
/// kept; one at or inside the radius shows the sample unchanged; and with
/// the spotlight released every pixel passes through unmasked.  The mask
/// never touches the stored canvas: it stands only in the frame function.
pub proof fn lemma_spotlight_masking(s: Snapshot, fw: int, i: int)
    requires
        1 <= fw <= DIM_MAX,
        i >= 0,
        i / fw <= DIM_MAX,
    ensures
        s.spotlight && spec_dist2(i % fw, i / fw, s.mouse_x as int, s.mouse_y as int)
            > FOCUS_DIST2 ==> spec_frame_pixel(s, fw, i) == spec_dim(
            spec_sample(s, i % fw, i / fw)),
        s.spotlight && spec_dist2(i % fw, i / fw, s.mouse_x as int, s.mouse_y as int)
            <= FOCUS_DIST2 ==> spec_frame_pixel(s, fw, i) == spec_sample(s, i % fw, i / fw),
        !s.spotlight ==> spec_frame_pixel(s, fw, i) == spec_sample(s, i % fw, i / fw),
        spec_dim(spec_sample(s, i % fw, i / fw)).a == spec_sample(s, i % fw, i / fw).a,
{
}

/// Compute one output pixel from the snapshot; total in all arguments, and
/// exactly the function `spec_frame_pixel` describes.
pub fn compute_pixel(s: &Snapshot, fw: usize, i: usize) -> (c: Rgba)
    ensures
        c == spec_frame_pixel(*s, fw as int, i as int),
{
    if fw < 1 || fw > DIM_MAX {
        return background();
    }
    let sx: usize = i % fw;
    let sy: usize = i / fw;
    if sy > DIM_MAX {
        return background();
    }
    let base: Rgba = if s.zoom < 1 {
        background()
    } else {
        proof {
            crate::fixed::lemma_mul_bounds(sx as int, FX_ONE as int, DIM_MAX as int,
                FX_ONE as int);
            crate::fixed::lemma_mul_bounds(sy as int, FX_ONE as int, DIM_MAX as int,
                FX_ONE as int);
            crate::fixed::lemma_mul_bounds(sx as int * FX_ONE as int, FX_ONE as int,
                DIM_MAX as int * FX_ONE as int, FX_ONE as int);
            crate::fixed::lemma_mul_bounds(sy as int * FX_ONE as int, FX_ONE as int,
                DIM_MAX as int * FX_ONE as int, FX_ONE as int);
        }
        let ix: i128 = div_fx(sx as i128 * FX_ONE as i128 * FX_ONE as i128, s.zoom as i128)
            + s.off_x as i128;
        let iy: i128 = div_fx(sy as i128 * FX_ONE as i128 * FX_ONE as i128, s.zoom as i128)
            + s.off_y as i128;
        if ix >= 0 && iy >= 0 {
            let px: i128 = ((ix as u128) / (FX_ONE as u128)) as i128;
            let py: i128 = ((iy as u128) / (FX_ONE as u128)) as i128;
            if px < s.display.width as i128 && py < s.display.height as i128
                && s.display.width <= DIM_MAX && s.display.height <= DIM_MAX {
                proof {
                    crate::fixed::lemma_mul_bounds(py as int, s.display.width as int,
                        DIM_MAX as int, DIM_MAX as int);
                }
                let idx: i128 = py * s.display.width as i128 + px;
                if 0 <= idx && idx < s.display.data.len() as i128 {
                    s.display.data[idx as usize]
                } else {
                    background()
                }
            } else {
                background()
            }
        } else {
            background()
        }
    };
    if s.spotlight {
        proof {
            crate::fixed::lemma_mul_bounds(sx as int, FX_ONE as int, DIM_MAX as int,
                FX_ONE as int);
            crate::fixed::lemma_mul_bounds(sy as int, FX_ONE as int, DIM_MAX as int,
                FX_ONE as int);
        }
        let far = s.mouse_x < -crate::fixed::COORD_LIMIT || s.mouse_x > crate::fixed::COORD_LIMIT
            || s.mouse_y < -crate::fixed::COORD_LIMIT || s.mouse_y > crate::fixed::COORD_LIMIT;
        if far {
            proof {
                let dxs = sx as int * FX_ONE - s.mouse_x as int;
                let dys = sy as int * FX_ONE - s.mouse_y as int;
                if s.mouse_x < -crate::fixed::COORD_LIMIT
                    || s.mouse_x > crate::fixed::COORD_LIMIT {
                    crate::fixed::lemma_sq_ge(dxs, 900_000_000_000);
                    crate::fixed::lemma_sq_ge(dys, 0);
                } else {
                    crate::fixed::lemma_sq_ge(dys, 900_000_000_000);
                    crate::fixed::lemma_sq_ge(dxs, 0);
                }
            }
            return Rgba { r: base.r / 4, g: base.g / 4, b: base.b / 4, a: base.a };
        }
        let dx: i128 = sx as i128 * FX_ONE as i128 - s.mouse_x as i128;
        let dy: i128 = sy as i128 * FX_ONE as i128 - s.mouse_y as i128;
        proof {
            crate::fixed::lemma_mul_bounds(dx as int, dx as int, 2_000_000_000_000_000,
                2_000_000_000_000_000);
            crate::fixed::lemma_mul_bounds(dy as int, dy as int, 2_000_000_000_000_000,
                2_000_000_000_000_000);
        }
        if dx * dx + dy * dy > FOCUS_DIST2 {
            return Rgba { r: base.r / 4, g: base.g / 4, b: base.b / 4, a: base.a };
        }
    }
    base
}

/// Fills every cell `i` of the buffer with `compute_pixel` of `i`, fanning
/// the independent per-pixel work out to a thread pool.
///
/// Relies on rayon's `par_iter_mut` / `enumerate` / `for_each`: the closure
/// is applied to every element of the buffer exactly once, with `i` the
/// element's index; the buffer's length is unchanged.
#[verifier::external_body]
fn fill_pixels(buf: &mut Vec<Rgba>, s: &Snapshot, fw: usize)
    ensures
        final(buf)@.len() == old(buf)@.len(),
        forall|i: int|
            0 <= i < final(buf)@.len() ==> final(buf)@[i] == spec_frame_pixel(*s, fw as int, i),
{
    buf.par_iter_mut().enumerate().for_each(|(i, cell)| {
        *cell = compute_pixel(s, fw, i);
    });
}

/// What the frame snapshot holds of an engine state: the current view and
/// spotlight scalars, and the canvas with the in-progress stroke painted
/// over it.
pub open spec fn snapshot_of(s: Snapshot, e: Engine) -> bool {
    &&& s.zoom == e.view.zoom
    &&& s.off_x == e.view.off_x
    &&& s.off_y == e.view.off_y
    &&& s.spotlight == e.spotlight
    &&& s.mouse_x == e.mouse_x
    &&& s.mouse_y == e.mouse_y
    &&& s.display.wf()
    &&& s.display.width == e.original.width
    &&& s.display.height == e.original.height
    &&& forall|x: int, y: int|
        0 <= x < e.original.width && 0 <= y < e.original.height ==> #[trigger] s.display.at(x, y)
            == (if e.current@.contains((x as usize, y as usize)) {
            crate::raster::spec_stroke_color()
        } else {
            e.canvas.at(x, y)
        })
}

impl Engine {
    /// Render one `fw` x `fh` output frame: build the read-only snapshot,
    /// then compute every output pixel from it independently.
    pub fn render_frame(&self, fw: usize, fh: usize) -> (frame: Vec<Rgba>)
        requires
            self.wf(),
            fw <= DIM_MAX,
            fh <= DIM_MAX,
        ensures
            frame@.len() == fw * fh,
            exists|s: Snapshot|
                snapshot_of(s, *self) && (forall|i: int|
                    0 <= i < frame@.len() ==> frame@[i] == spec_frame_pixel(s, fw as int, i)),
    {
        let mut display = self.canvas.duplicate();
        paint_pts(&mut display, &self.current);
        let snap = Snapshot {
            display,
            zoom: self.view.zoom,
            off_x: self.view.off_x,
            off_y: self.view.off_y,
            spotlight: self.spotlight,
            mouse_x: self.mouse_x,
            mouse_y: self.mouse_y,
        };
        proof {
            crate::fixed::lemma_mul_bounds(fw as int, fh as int, DIM_MAX as int, DIM_MAX as int);
        }
        let n: usize = fw * fh;
        let mut frame: Vec<Rgba> = Vec::new();
        let mut i: usize = 0;
        while i < n
            invariant
                i <= n,
                frame@.len() == i,
            decreases n - i,
        {
            frame.push(Rgba { r: 0, g: 0, b: 0, a: 0 });
            i = i + 1;
        }
        fill_pixels(&mut frame, &snap, fw);
        proof {
            assert(snapshot_of(snap, *self));
        }
        frame
    }
}

/// Flatten a frame into RGBA bytes, four per pixel, row order kept.
pub fn frame_to_bytes(frame: &Vec<Rgba>) -> (bytes: Vec<u8>)
    ensures
        bytes@.len() == 4 * frame@.len(),
        forall|i: int|
            0 <= i < frame@.len() ==> {
                &&& bytes@[4 * i] == (#[trigger] frame@[i]).r
                &&& bytes@[4 * i + 1] == frame@[i].g
                &&& bytes@[4 * i + 2] == frame@[i].b
                &&& bytes@[4 * i + 3] == frame@[i].a
            },
{
    let n = frame.len();
    let mut bytes: Vec<u8> = Vec::new();
    let mut i: usize = 0;
    while i < n
        invariant
            i <= n,
            n == frame@.len(),
            bytes@.len() == 4 * i,
            forall|k: int|
                0 <= k < i ==> {
                    &&& bytes@[4 * k] == (#[trigger] frame@[k]).r
                    &&& bytes@[4 * k + 1] == frame@[k].g
                    &&& bytes@[4 * k + 2] == frame@[k].b
                    &&& bytes@[4 * k + 3] == frame@[k].a
                },
        decreases n - i,
    {
        let c = frame[i];
        bytes.push(c.r);
        bytes.push(c.g);
        bytes.push(c.b);
        bytes.push(c.a);
        i = i + 1;
    }
    bytes
}

} // verus!
