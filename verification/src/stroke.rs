use vstd::prelude::*;
use crate::brush::{in_disk, IMG_COORD_MAX, RADIUS_MAX};
use crate::raster::{spec_stroke_color, stroke_color, Raster, DIM_MAX};
use crate::fixed::FX_ONE;

verus! {

/// One committed stroke: the set of image pixels covered by one drag
/// gesture, kept without duplicates.
pub struct Stroke {
    pub pts: Vec<(usize, usize)>,
}

/// A pixel list lies inside a `w` x `h` raster and holds no duplicates.
pub open spec fn pts_wf(pts: Seq<(usize, usize)>, w: int, h: int) -> bool {
    &&& pts.no_duplicates()
    &&& forall|k: int| 0 <= k < pts.len() ==> (#[trigger] pts[k]).0 < w && pts[k].1 < h
}

impl Stroke {
    /// Well-formedness against the raster dimensions.
    pub open spec fn wf(self, w: int, h: int) -> bool {
        pts_wf(self.pts@, w, h)
    }
}

/// Whether any stroke of the sequence covers pixel `p`.
pub open spec fn any_covers(ss: Seq<Stroke>, p: (usize, usize)) -> bool {
    exists|i: int| 0 <= i < ss.len() && (#[trigger] ss[i]).pts@.contains(p)
}

/// The canvas invariant: a pixel covered by some committed stroke shows the
/// stroke color, every other pixel shows the untouched base image.
pub open spec fn canvas_matches(canvas: Raster, orig: Raster, ss: Seq<Stroke>) -> bool {
    &&& canvas.width == orig.width
    &&& canvas.height == orig.height
    &&& forall|x: int, y: int|
        0 <= x < orig.width && 0 <= y < orig.height ==> #[trigger] canvas.at(x, y) == (
        if any_covers(ss, (x as usize, y as usize)) {
            spec_stroke_color()
        } else {
            orig.at(x, y)
        })
}

/// Whether the eraser disk around `(cx, cy)` touches any pixel of the
/// stroke.
pub open spec fn spec_stroke_hit(s: Stroke, cx: int, cy: int, r: int) -> bool {
    exists|k: int|
        0 <= k < s.pts@.len() && in_disk((#[trigger] s.pts@[k]).0 as int, s.pts@[k].1 as int, cx,
            cy, r)
}

/// The strokes that survive an erase at `(cx, cy)` with radius `r`: exactly
/// those with no pixel inside the eraser disk, in their original order.
pub open spec fn spec_erase_keep(ss: Seq<Stroke>, cx: int, cy: int, r: int) -> Seq<Stroke> {
    ss.filter(|s: Stroke| !spec_stroke_hit(s, cx, cy, r))
}

/// Erase correctness, stated on its own: the strokes that survive an erase
/// at `(cx, cy)` with radius `r` are exactly those with no pixel inside the
/// eraser disk — every survivor misses the disk, every committed stroke that
/// misses the disk survives, and no survivor appears that was not committed.
/// `Engine::erase_at` returns `spec_erase_keep` of its inputs, in the
/// original order, and rebuilds the canvas to `canvas_matches` over it.
pub proof fn lemma_erase_keep_exact(ss: Seq<Stroke>, cx: int, cy: int, r: int)
    ensures
        forall|k: int|
            0 <= k < spec_erase_keep(ss, cx, cy, r).len() ==> !spec_stroke_hit(
                #[trigger] spec_erase_keep(ss, cx, cy, r)[k], cx, cy, r),
        forall|k: int|
            0 <= k < ss.len() && !spec_stroke_hit(#[trigger] ss[k], cx, cy, r)
                ==> spec_erase_keep(ss, cx, cy, r).contains(ss[k]),
        forall|s: Stroke| spec_erase_keep(ss, cx, cy, r).contains(s) ==> ss.contains(s),
{
    let pred = |s: Stroke| !spec_stroke_hit(s, cx, cy, r);
    assert forall|k: int|
        0 <= k < spec_erase_keep(ss, cx, cy, r).len() implies !spec_stroke_hit(
        #[trigger] spec_erase_keep(ss, cx, cy, r)[k], cx, cy, r) by {
        ss.lemma_filter_pred(pred, k);
    }
    assert forall|k: int|
        0 <= k < ss.len() && !spec_stroke_hit(#[trigger] ss[k], cx, cy, r)
            implies spec_erase_keep(ss, cx, cy, r).contains(ss[k]) by {
        ss.lemma_filter_contains(pred, k);
    }
    assert forall|s: Stroke| spec_erase_keep(ss, cx, cy, r).contains(s) implies ss.contains(
        s) by {
        ss.lemma_filter_contains_rev(pred, s);
    }
}

/// Membership in a pushed sequence is membership in the base or equality
/// with the new element.
pub proof fn lemma_contains_push<T>(s: Seq<T>, x: T, q: T)
    ensures
        s.push(x).contains(q) <==> s.contains(q) || q == x,
{
    if s.push(x).contains(q) {
        let i = choose|i: int| 0 <= i < s.push(x).len() && s.push(x)[i] == q;
        if i < s.len() {
            assert(s[i] == q);
        }
    }
    if s.contains(q) {
        let i = choose|i: int| 0 <= i < s.len() && s[i] == q;
        assert(s.push(x)[i] == q);
    }
    if q == x {
        assert(s.push(x)[s.len() as int] == q);
    }
}

/// Coverage by `ss.push(s)` is coverage by `ss` or by `s` itself.
pub proof fn lemma_any_covers_push(ss: Seq<Stroke>, s: Stroke, p: (usize, usize))
    ensures
        any_covers(ss.push(s), p) <==> any_covers(ss, p) || s.pts@.contains(p),
{
    if any_covers(ss.push(s), p) {
        let i = choose|i: int| 0 <= i < ss.push(s).len() && (#[trigger] ss.push(s)[i]).pts@.contains(p);
        if i < ss.len() {
            assert(ss[i].pts@.contains(p));
        }
    }
    if any_covers(ss, p) {
        let i = choose|i: int| 0 <= i < ss.len() && (#[trigger] ss[i]).pts@.contains(p);
        assert(ss.push(s)[i].pts@.contains(p));
    }
    if s.pts@.contains(p) {
        assert(ss.push(s)[ss.len() as int].pts@.contains(p));
    }
}

/// A filter that drops nothing returns the sequence unchanged.
pub proof fn lemma_filter_all<T>(s: Seq<T>, pred: spec_fn(T) -> bool)
    requires
        s.filter(pred).len() == s.len(),
    ensures
        s.filter(pred) == s,
    decreases s.len(),
{
    reveal(Seq::filter);
    if s.len() > 0 {
        let sub = s.drop_last();
        sub.lemma_filter_len(pred);
        if pred(s.last()) {
            lemma_filter_all(sub, pred);
            assert(s.filter(pred) =~= s);
        }
    } else {
        assert(s.filter(pred) =~= s);
    }
}

/// Paint every pixel of `pts` onto the canvas in the stroke color; every
/// other pixel is kept.
pub fn paint_pts(canvas: &mut Raster, pts: &Vec<(usize, usize)>)
    requires
        old(canvas).wf(),
        forall|k: int|
            0 <= k < pts@.len() ==> (#[trigger] pts@[k]).0 < old(canvas).width && pts@[k].1 < old(
                canvas).height,
    ensures
        final(canvas).wf(),
        final(canvas).width == old(canvas).width,
        final(canvas).height == old(canvas).height,
        forall|x: int, y: int|
            0 <= x < old(canvas).width && 0 <= y < old(canvas).height ==> #[trigger] final(
                canvas).at(x, y) == (if pts@.contains((x as usize, y as usize)) {
                spec_stroke_color()
            } else {
                old(canvas).at(x, y)
            }),
{
    let ghost c0 = *canvas;
    let color = stroke_color();
    let n = pts.len();
    let mut i: usize = 0;
    while i < n
        invariant
            i <= n,
            n == pts@.len(),
            canvas.wf(),
            canvas.width == c0.width,
            canvas.height == c0.height,
            c0.wf(),
            color == spec_stroke_color(),
            forall|k: int|
                0 <= k < pts@.len() ==> (#[trigger] pts@[k]).0 < c0.width && pts@[k].1 < c0.height,
            forall|x: int, y: int|
                0 <= x < c0.width && 0 <= y < c0.height ==> #[trigger] canvas.at(x, y) == (
                if pts@.take(i as int).contains((x as usize, y as usize)) {
                    spec_stroke_color()
                } else {
                    c0.at(x, y)
                }),
        decreases n - i,
    {
        let (px, py) = (pts[i].0, pts[i].1);
        canvas.set(px, py, color);
        proof {
            assert(pts@.take(i + 1) =~= pts@.take(i as int).push(pts@[i as int]));
            assert forall|x: int, y: int|
                0 <= x < c0.width && 0 <= y < c0.height implies #[trigger] canvas.at(x, y) == (
                if pts@.take(i + 1).contains((x as usize, y as usize)) {
                    spec_stroke_color()
                } else {
                    c0.at(x, y)
                }) by {
                lemma_contains_push(pts@.take(i as int), pts@[i as int], (x as usize, y as usize));
            }
        }
        i = i + 1;
    }
    proof {
        assert(pts@.take(n as int) =~= pts@);
    }
}

/// Whether any pixel of the stroke lies inside the eraser disk around
/// `(cx, cy)` — squared-distance comparison, inclusive.
pub fn stroke_hit(s: &Stroke, cx: i64, cy: i64, r: i64, w: usize, h: usize) -> (b: bool)
    requires
        s.wf(w as int, h as int),
        w <= DIM_MAX,
        h <= DIM_MAX,
        -IMG_COORD_MAX <= cx <= IMG_COORD_MAX,
        -IMG_COORD_MAX <= cy <= IMG_COORD_MAX,
        0 <= r <= RADIUS_MAX,
    ensures
        b == spec_stroke_hit(*s, cx as int, cy as int, r as int),
{
    let n = s.pts.len();
    let mut i: usize = 0;
    while i < n
        invariant
            i <= n,
            n == s.pts@.len(),
            s.wf(w as int, h as int),
            w <= DIM_MAX,
            h <= DIM_MAX,
            -IMG_COORD_MAX <= cx <= IMG_COORD_MAX,
            -IMG_COORD_MAX <= cy <= IMG_COORD_MAX,
            0 <= r <= RADIUS_MAX,
            forall|k: int|
                0 <= k < i ==> !in_disk((#[trigger] s.pts@[k]).0 as int, s.pts@[k].1 as int,
                    cx as int, cy as int, r as int),
        decreases n - i,
    {
        let (px, py) = (s.pts[i].0, s.pts[i].1);
        proof {
            crate::fixed::lemma_mul_bounds(px as int, FX_ONE as int, DIM_MAX as int, FX_ONE as int);
            crate::fixed::lemma_mul_bounds(py as int, FX_ONE as int, DIM_MAX as int, FX_ONE as int);
        }
        let dx: i128 = px as i128 * FX_ONE as i128 - cx as i128;
        let dy: i128 = py as i128 * FX_ONE as i128 - cy as i128;
        proof {
            crate::fixed::lemma_mul_bounds(dx as int, dx as int, 3 * IMG_COORD_MAX as int,
                3 * IMG_COORD_MAX as int);
            crate::fixed::lemma_mul_bounds(dy as int, dy as int, 3 * IMG_COORD_MAX as int,
                3 * IMG_COORD_MAX as int);
            crate::fixed::lemma_mul_bounds(r as int, r as int, RADIUS_MAX as int, RADIUS_MAX as int);
        }
        if dx * dx + dy * dy <= r as i128 * r as i128 {
            return true;
        }
        i = i + 1;
    }
    false
}

} // verus!
