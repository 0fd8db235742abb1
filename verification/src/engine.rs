use vstd::prelude::*;
use crate::brush::{
    add_disk, bresenham_chain, brush_radius, chain_ok, spec_brush_radius, stamp_covers,
    line_points,
};
use crate::fixed::{clamp_i, div_t, COORD_LIMIT, FX_ONE};
use crate::raster::Raster;
use crate::stroke::{
    any_covers, canvas_matches, lemma_any_covers_push, lemma_filter_all, paint_pts, pts_wf,
    spec_erase_keep, spec_stroke_hit, stroke_hit, Stroke,
};
use crate::view::ViewState;

verus! {

/// A mouse button, as the dispatcher distinguishes them.
#[derive(Clone, Copy, PartialEq, Eq, Structural, Debug)]
pub enum Button {
    Left,
    Right,
    Other,
}

/// The two logical keys the overlay reacts to.
#[derive(Clone, Copy, PartialEq, Eq, Structural, Debug)]
pub enum Key {
    ToggleDraw,
    Spotlight,
}

/// One input event, reduced to plain values.
#[derive(Clone, Copy, PartialEq, Eq, Structural, Debug)]
pub enum InputEvent {
    Scroll { delta: i64 },
    Button { button: Button, pressed: bool },
    CursorMoved { x: i64, y: i64 },
    Key { key: Key, pressed: bool },
}

/// The whole annotation engine: base image, baked canvas, committed strokes,
/// the in-progress stroke, the animated view and the input-mode flags.
pub struct Engine {
    pub original: Raster,
    pub canvas: Raster,
    pub strokes: Vec<Stroke>,
    pub current: Vec<(usize, usize)>,
    pub view: ViewState,
    pub mouse_x: i64,
    pub mouse_y: i64,
    pub drawing_mode: bool,
    pub is_drawing: bool,
    pub is_erasing: bool,
    pub is_panning: bool,
    pub spotlight: bool,
    pub last_paint: Option<(i64, i64)>,
}

/// Coverage of pixel `p` by a brush stamped, through view `v`, at every
/// screen point of the chain `cs`.
pub open spec fn chain_stamp_covers(
    cs: Seq<(i64, i64)>,
    v: ViewState,
    w: int,
    h: int,
    p: (usize, usize),
) -> bool {
    exists|j: int|
        0 <= j < cs.len() && stamp_covers(
            p,
            ViewState::spec_s2i((#[trigger] cs[j]).0 as int, v.zoom as int, v.off_x as int),
            ViewState::spec_s2i(cs[j].1 as int, v.zoom as int, v.off_y as int),
            spec_brush_radius(v.zoom as int),
            w,
            h,
        )
}

/// The in-progress stroke `cur` extends `base` by exactly the pixels the
/// chain of stamps covers.
pub open spec fn current_extended(
    cur: Seq<(usize, usize)>,
    base: Seq<(usize, usize)>,
    cs: Seq<(i64, i64)>,
    v: ViewState,
    w: int,
    h: int,
) -> bool {
    forall|p: (usize, usize)|
        cur.contains(p) <==> base.contains(p) || chain_stamp_covers(cs, v, w, h, p)
}

impl Engine {
    /// Well-formedness of the whole engine state.
    pub open spec fn wf(self) -> bool {
        &&& self.original.wf()
        &&& self.canvas.wf()
        &&& self.view.wf()
        &&& forall|i: int|
            0 <= i < self.strokes@.len() ==> (#[trigger] self.strokes@[i]).wf(
                self.original.width as int, self.original.height as int)
        &&& pts_wf(self.current@, self.original.width as int, self.original.height as int)
        &&& canvas_matches(self.canvas, self.original, self.strokes@)
        &&& -COORD_LIMIT <= self.mouse_x <= COORD_LIMIT
        &&& -COORD_LIMIT <= self.mouse_y <= COORD_LIMIT
        &&& match self.last_paint {
            Some(p) => -COORD_LIMIT <= p.0 <= COORD_LIMIT && -COORD_LIMIT <= p.1 <= COORD_LIMIT,
            None => true,
        }
    }

    /// Start the engine on a captured base image: the canvas is a copy of the
    /// image, no strokes exist, the view is at rest.
    pub fn new(original: Raster) -> (e: Engine)
        requires
            original.wf(),
        ensures
            e.wf(),
            e.original.width == original.width,
            e.original.height == original.height,
            e.original.data@ == original.data@,
            e.canvas.data@ == original.data@,
            e.strokes@.len() == 0,
            e.current@.len() == 0,
            e.view.zoom == FX_ONE && e.view.target_zoom == FX_ONE,
            e.view.off_x == 0 && e.view.off_y == 0 && e.view.t_off_x == 0 && e.view.t_off_y == 0,
            e.view.smoothing == crate::view::SMOOTHING_DEFAULT,
            e.mouse_x == 0 && e.mouse_y == 0,
            !e.drawing_mode && !e.is_drawing && !e.is_erasing && !e.is_panning && !e.spotlight,
            e.last_paint is None,
    {
        let canvas = original.duplicate();
        let e = Engine {
            original,
            canvas,
            strokes: Vec::new(),
            current: Vec::new(),
            view: ViewState::new(),
            mouse_x: 0,
            mouse_y: 0,
            drawing_mode: false,
            is_drawing: false,
            is_erasing: false,
            is_panning: false,
            spotlight: false,
            last_paint: None,
        };
        proof {
            assert forall|x: int, y: int|
                0 <= x < e.original.width && 0 <= y < e.original.height
                    implies #[trigger] e.canvas.at(x, y) == (if any_covers(e.strokes@, (
                x as usize, y as usize)) {
                    crate::raster::spec_stroke_color()
                } else {
                    e.original.at(x, y)
                }) by {
                assert(!any_covers(e.strokes@, (x as usize, y as usize)));
            }
        }
        e
    }

    /// One animation tick of the view; nothing else moves.
    pub fn update(&mut self)
        requires
            old(self).wf(),
        ensures
            final(self).wf(),
            final(self).view == old(self).view.spec_update(),
            *final(self) == (Engine { view: final(self).view, ..*old(self) }),
    {
        self.view.update();
    }

    /// Stamp one brush disk into the in-progress stroke, at the image point
    /// under screen point `(sx, sy)`, with the radius the current zoom gives.
    pub fn add_brush_points(&mut self, sx: i64, sy: i64)
        requires
            old(self).wf(),
            -6 * COORD_LIMIT <= sx <= 6 * COORD_LIMIT,
            -6 * COORD_LIMIT <= sy <= 6 * COORD_LIMIT,
        ensures
            final(self).wf(),
            forall|p: (usize, usize)|
                final(self).current@.contains(p) <==> old(self).current@.contains(p)
                    || stamp_covers(
                    p,
                    ViewState::spec_s2i(sx as int, old(self).view.zoom as int, old(self).view.off_x as int),
                    ViewState::spec_s2i(sy as int, old(self).view.zoom as int, old(self).view.off_y as int),
                    spec_brush_radius(old(self).view.zoom as int),
                    old(self).original.width as int,
                    old(self).original.height as int,
                ),
            *final(self) == (Engine { current: final(self).current, ..*old(self) }),
    {
        let (cx, cy) = self.view.screen_to_image(sx, sy);
        let r = brush_radius(self.view.zoom);
        let w = self.original.width;
        let h = self.original.height;
        add_disk(&mut self.current, cx, cy, r, w, h);
    }

    /// Extend the in-progress stroke with a continuous line of brush stamps
    /// from screen point `(x0, y0)` to `(x1, y1)`: a gap-free chain of stamp
    /// centers is walked and the brush stamped at each.
    pub fn paint_line(&mut self, x0: i64, y0: i64, x1: i64, y1: i64)
        requires
            old(self).wf(),
            -COORD_LIMIT <= x0 <= COORD_LIMIT,
            -COORD_LIMIT <= y0 <= COORD_LIMIT,
            -COORD_LIMIT <= x1 <= COORD_LIMIT,
            -COORD_LIMIT <= y1 <= COORD_LIMIT,
        ensures
            final(self).wf(),
            chain_ok(
                bresenham_chain(x0 as int, y0 as int, x1 as int, y1 as int),
                x0 as int, y0 as int, x1 as int, y1 as int,
            ),
            current_extended(
                final(self).current@,
                old(self).current@,
                bresenham_chain(x0 as int, y0 as int, x1 as int, y1 as int),
                old(self).view,
                old(self).original.width as int,
                old(self).original.height as int,
            ),
            *final(self) == (Engine { current: final(self).current, ..*old(self) }),
    {
        let pts = line_points(x0, y0, x1, y1);
        let ghost cs = pts@;
        proof {
            assert(cs == bresenham_chain(x0 as int, y0 as int, x1 as int, y1 as int));
        }
        let ghost pre = *self;
        let n = pts.len();
        let mut k: usize = 0;
        while k < n
            invariant
                k <= n,
                n == cs.len(),
                pts@ == cs,
                pre.wf(),
                self.wf(),
                chain_ok(cs, x0 as int, y0 as int, x1 as int, y1 as int),
                *self == (Engine { current: self.current, ..pre }),
                current_extended(
                    self.current@,
                    pre.current@,
                    cs.take(k as int),
                    pre.view,
                    pre.original.width as int,
                    pre.original.height as int,
                ),
            decreases n - k,
        {
            let (sx, sy) = (pts[k].0, pts[k].1);
            let ghost cur0 = self.current@;
            self.add_brush_points(sx, sy);
            proof {
                assert forall|p: (usize, usize)|
                    self.current@.contains(p) <==> pre.current@.contains(p) || chain_stamp_covers(
                        cs.take(k + 1),
                        pre.view,
                        pre.original.width as int,
                        pre.original.height as int,
                        p,
                    ) by {
                    assert(current_extended(cur0, pre.current@, cs.take(k as int), pre.view,
                        pre.original.width as int, pre.original.height as int));
                    let w = pre.original.width as int;
                    let h = pre.original.height as int;
                    assert(cur0.contains(p) <==> pre.current@.contains(p) || chain_stamp_covers(
                        cs.take(k as int), pre.view, w, h, p));
                    assert(self.current@.contains(p) <==> cur0.contains(p) || stamp_covers(
                        p,
                        ViewState::spec_s2i(cs[k as int].0 as int, pre.view.zoom as int,
                            pre.view.off_x as int),
                        ViewState::spec_s2i(cs[k as int].1 as int, pre.view.zoom as int,
                            pre.view.off_y as int),
                        spec_brush_radius(pre.view.zoom as int),
                        w,
                        h,
                    ));
                    if chain_stamp_covers(cs.take(k + 1), pre.view, w, h, p) {
                        let j = choose|j: int|
                            0 <= j < cs.take(k + 1).len() && stamp_covers(
                                p,
                                ViewState::spec_s2i((#[trigger] cs.take(k + 1)[j]).0 as int,
                                    pre.view.zoom as int, pre.view.off_x as int),
                                ViewState::spec_s2i(cs.take(k + 1)[j].1 as int, pre.view.zoom as int,
                                    pre.view.off_y as int),
                                spec_brush_radius(pre.view.zoom as int),
                                w,
                                h,
                            );
                        if j < k {
                            assert(cs.take(k as int)[j] == cs.take(k + 1)[j]);
                            assert(chain_stamp_covers(cs.take(k as int), pre.view, w, h, p));
                        } else {
                            assert(cs.take(k + 1)[j] == cs[k as int]);
                        }
                    }
                    if chain_stamp_covers(cs.take(k as int), pre.view, w, h, p) {
                        let j = choose|j: int|
                            0 <= j < cs.take(k as int).len() && stamp_covers(
                                p,
                                ViewState::spec_s2i((#[trigger] cs.take(k as int)[j]).0 as int,
                                    pre.view.zoom as int, pre.view.off_x as int),
                                ViewState::spec_s2i(cs.take(k as int)[j].1 as int, pre.view.zoom as int,
                                    pre.view.off_y as int),
                                spec_brush_radius(pre.view.zoom as int),
                                w,
                                h,
                            );
                        assert(cs.take(k + 1)[j] == cs.take(k as int)[j]);
                        assert(chain_stamp_covers(cs.take(k + 1), pre.view, w, h, p));
                    }
                    if stamp_covers(
                        p,
                        ViewState::spec_s2i(cs[k as int].0 as int, pre.view.zoom as int,
                            pre.view.off_x as int),
                        ViewState::spec_s2i(cs[k as int].1 as int, pre.view.zoom as int,
                            pre.view.off_y as int),
                        spec_brush_radius(pre.view.zoom as int),
                        w,
                        h,
                    ) {
                        assert(cs.take(k + 1)[k as int] == cs[k as int]);
                        assert(chain_stamp_covers(cs.take(k + 1), pre.view, w, h, p));
                    }
                }
                assert(current_extended(self.current@, pre.current@, cs.take(k + 1), pre.view,
                    pre.original.width as int, pre.original.height as int));
            }
            k = k + 1;
        }
        proof {
            assert(cs.take(n as int) =~= cs);
            assert(current_extended(self.current@, pre.current@, cs, pre.view,
                pre.original.width as int, pre.original.height as int));
        }
    }

    /// Commit the in-progress stroke: paint it onto the canvas, append it to
    /// the committed sequence and clear it.  A release with an empty
    /// in-progress stroke changes nothing.
    pub fn end_gesture(&mut self)
        requires
            old(self).wf(),
        ensures
            final(self).wf(),
            old(self).current@.len() == 0 ==> *final(self) == *old(self),
            old(self).current@.len() > 0 ==> {
                &&& final(self).strokes@.len() == old(self).strokes@.len() + 1
                &&& forall|i: int|
                    0 <= i < old(self).strokes@.len() ==> final(self).strokes@[i] == old(
                    self).strokes@[i]
                &&& final(self).strokes@.last().pts@ == old(self).current@
                &&& final(self).current@.len() == 0
                &&& canvas_matches(final(self).canvas, final(self).original, final(self).strokes@)
                &&& *final(self) == (Engine {
                    canvas: final(self).canvas,
                    strokes: final(self).strokes,
                    current: final(self).current,
                    ..*old(self)
                })
            },
    {
        if self.current.len() > 0 {
            let mut taken: Vec<(usize, usize)> = Vec::new();
            core::mem::swap(&mut taken, &mut self.current);
            paint_pts(&mut self.canvas, &taken);
            let stroke = Stroke { pts: taken };
            self.strokes.push(stroke);
            proof {
                let ss = self.strokes@;
                let prev = old(self).strokes@;
                assert(ss =~= prev.push(ss.last()));
                assert forall|x: int, y: int|
                    0 <= x < self.original.width && 0 <= y < self.original.height
                        implies #[trigger] self.canvas.at(x, y) == (if any_covers(ss, (x as usize,
                    y as usize)) {
                        crate::raster::spec_stroke_color()
                    } else {
                        self.original.at(x, y)
                    }) by {
                    lemma_any_covers_push(prev, ss.last(), (x as usize, y as usize));
                }
            }
        }
    }

    /// Erase at screen point `(sx, sy)`: every committed stroke with at least
    /// one pixel inside the eraser disk (brush radius at the current zoom,
    /// around the image point under the cursor) is removed, and when any was,
    /// the canvas is rebuilt from the base image and the surviving strokes.
    pub fn erase_at(&mut self, sx: i64, sy: i64)
        requires
            old(self).wf(),
            -COORD_LIMIT <= sx <= COORD_LIMIT,
            -COORD_LIMIT <= sy <= COORD_LIMIT,
        ensures
            final(self).wf(),
            final(self).strokes@ == spec_erase_keep(
                old(self).strokes@,
                ViewState::spec_s2i(sx as int, old(self).view.zoom as int, old(self).view.off_x as int),
                ViewState::spec_s2i(sy as int, old(self).view.zoom as int, old(self).view.off_y as int),
                spec_brush_radius(old(self).view.zoom as int),
            ),
            canvas_matches(final(self).canvas, final(self).original, final(self).strokes@),
            *final(self) == (Engine {
                canvas: final(self).canvas,
                strokes: final(self).strokes,
                ..*old(self)
            }),
    {
        let (cx, cy) = self.view.screen_to_image(sx, sy);
        let r = brush_radius(self.view.zoom);
        let w = self.original.width;
        let h = self.original.height;
        let ghost pred = |s: Stroke| !spec_stroke_hit(s, cx as int, cy as int, r as int);

        let mut olds: Vec<Stroke> = Vec::new();
        core::mem::swap(&mut olds, &mut self.strokes);
        let ghost full = olds@;
        let n = olds.len();
        let mut kept: Vec<Stroke> = Vec::new();
        let mut i: usize = 0;
        while i < n
            invariant
                i <= n,
                n == full.len(),
                olds@ == full.skip(i as int),
                kept@ == full.take(i as int).filter(pred),
                pred == (|s: Stroke| !spec_stroke_hit(s, cx as int, cy as int, r as int)),
                *self == (Engine { strokes: self.strokes, ..*old(self) }),
                self.strokes@.len() == 0,
                w == old(self).original.width,
                h == old(self).original.height,
                w <= crate::raster::DIM_MAX,
                h <= crate::raster::DIM_MAX,
                -crate::brush::IMG_COORD_MAX <= cx <= crate::brush::IMG_COORD_MAX,
                -crate::brush::IMG_COORD_MAX <= cy <= crate::brush::IMG_COORD_MAX,
                0 <= r <= crate::brush::RADIUS_MAX,
                forall|k: int| 0 <= k < full.len() ==> (#[trigger] full[k]).wf(w as int, h as int),
            decreases n - i,
        {
            let s = olds.remove(0);
            proof {
                assert(full.skip(i as int)[0] == full[i as int]);
                assert(olds@ =~= full.skip(i + 1));
            }
            let hit = stroke_hit(&s, cx, cy, r, w, h);
            proof {
                assert(full.take(i + 1) =~= full.take(i as int).push(full[i as int]));
                full.take(i as int).lemma_filter_push(full[i as int], pred);
            }
            if !hit {
                kept.push(s);
            }
            i = i + 1;
        }
        proof {
            assert(full.take(n as int) =~= full);
        }
        let removed_any = kept.len() < n;
        self.strokes = kept;
        if removed_any {
            self.canvas = self.original.duplicate();
            let ghost ss = self.strokes@;
            let m = self.strokes.len();
            let mut j: usize = 0;
            proof {
                ss.lemma_filter_len(pred);
                assert forall|k: int| 0 <= k < ss.len() implies (#[trigger] ss[k]).wf(w as int,
                    h as int) by {
                    full.lemma_filter_contains_rev(pred, ss[k]);
                    let q = choose|q: int| 0 <= q < full.len() && full[q] == ss[k];
                }
                assert forall|x: int, y: int|
                    0 <= x < self.original.width && 0 <= y < self.original.height
                        implies #[trigger] self.canvas.at(x, y) == (if any_covers(ss.take(0), (
                    x as usize, y as usize)) {
                        crate::raster::spec_stroke_color()
                    } else {
                        self.original.at(x, y)
                    }) by {
                    assert(!any_covers(ss.take(0), (x as usize, y as usize)));
                }
            }
            while j < m
                invariant
                    j <= m,
                    m == ss.len(),
                    self.strokes@ == ss,
                    *self == (Engine {
                        canvas: self.canvas,
                        strokes: self.strokes,
                        ..*old(self)
                    }),
                    self.original.wf(),
                    self.canvas.wf(),
                    self.canvas.width == self.original.width,
                    self.canvas.height == self.original.height,
                    w == self.original.width,
                    h == self.original.height,
                    forall|k: int| 0 <= k < ss.len() ==> (#[trigger] ss[k]).wf(w as int, h as int),
                    canvas_matches(self.canvas, self.original, ss.take(j as int)),
                decreases m - j,
            {
                paint_pts(&mut self.canvas, &self.strokes[j].pts);
                proof {
                    assert(ss.take(j + 1) =~= ss.take(j as int).push(ss[j as int]));
                    assert forall|x: int, y: int|
                        0 <= x < self.original.width && 0 <= y < self.original.height
                            implies #[trigger] self.canvas.at(x, y) == (if any_covers(ss.take(j
                        + 1), (x as usize, y as usize)) {
                            crate::raster::spec_stroke_color()
                        } else {
                            self.original.at(x, y)
                        }) by {
                        lemma_any_covers_push(ss.take(j as int), ss[j as int], (x as usize,
                            y as usize));
                    }
                }
                j = j + 1;
            }
            proof {
                assert(ss.take(m as int) =~= ss);
            }
        } else {
            proof {
                full.lemma_filter_len(pred);
                lemma_filter_all(full, pred);
            }
        }
    }

    /// React to one input event, exactly as the interaction model says:
    /// scrolling retargets the zoom anchored at the cursor; in drawing mode
    /// the left button draws and the right button erases (on a simultaneous
    /// hold, drawing wins for cursor motion), any release commits the
    /// in-progress stroke; outside drawing mode the left button pans; cursor
    /// motion extends the active gesture; the two keys toggle drawing mode
    /// and hold the spotlight.
    pub fn handle_event(&mut self, e: InputEvent)
        requires
            old(self).wf(),
            match e {
                InputEvent::Scroll { delta } => -COORD_LIMIT <= delta <= COORD_LIMIT,
                InputEvent::CursorMoved { x, y } => -COORD_LIMIT <= x <= COORD_LIMIT
                    && -COORD_LIMIT <= y <= COORD_LIMIT,
                _ => true,
            },
        ensures
            final(self).wf(),
            match e {
                InputEvent::Scroll { delta } => {
                    &&& final(self).view.target_zoom == ViewState::spec_zoom_after(
                        old(self).view.target_zoom as int, delta as int)
                    &&& final(self).view.t_off_x == ViewState::spec_offset_after_zoom(
                        old(self).view.t_off_x as int, old(self).mouse_x as int,
                        old(self).view.target_zoom as int, final(self).view.target_zoom as int)
                    &&& final(self).view.t_off_y == ViewState::spec_offset_after_zoom(
                        old(self).view.t_off_y as int, old(self).mouse_y as int,
                        old(self).view.target_zoom as int, final(self).view.target_zoom as int)
                    &&& final(self).view.zoom == old(self).view.zoom
                    &&& final(self).view.off_x == old(self).view.off_x
                    &&& final(self).view.off_y == old(self).view.off_y
                    &&& final(self).view.smoothing == old(self).view.smoothing
                    &&& *final(self) == (Engine { view: final(self).view, ..*old(self) })
                },
                InputEvent::Button { button, pressed } => {
                    let nd = if button == Button::Left && old(self).drawing_mode {
                        pressed
                    } else {
                        old(self).is_drawing
                    };
                    let ne = if button == Button::Right && old(self).drawing_mode {
                        pressed
                    } else {
                        old(self).is_erasing
                    };
                    if old(self).drawing_mode {
                        if pressed {
                            if ne {
                                &&& final(self).strokes@ == spec_erase_keep(
                                    old(self).strokes@,
                                    ViewState::spec_s2i(old(self).mouse_x as int,
                                        old(self).view.zoom as int, old(self).view.off_x as int),
                                    ViewState::spec_s2i(old(self).mouse_y as int,
                                        old(self).view.zoom as int, old(self).view.off_y as int),
                                    spec_brush_radius(old(self).view.zoom as int),
                                )
                                &&& canvas_matches(final(self).canvas, final(self).original,
                                    final(self).strokes@)
                                &&& *final(self) == (Engine {
                                    canvas: final(self).canvas,
                                    strokes: final(self).strokes,
                                    is_drawing: nd,
                                    is_erasing: ne,
                                    last_paint: Some((old(self).mouse_x, old(self).mouse_y)),
                                    ..*old(self)
                                })
                            } else {
                                *final(self) == (Engine {
                                    is_drawing: nd,
                                    is_erasing: ne,
                                    last_paint: Some((old(self).mouse_x, old(self).mouse_y)),
                                    ..*old(self)
                                })
                            }
                        } else {
                            &&& old(self).current@.len() == 0 ==> *final(self) == (Engine {
                                is_drawing: nd,
                                is_erasing: ne,
                                last_paint: None,
                                ..*old(self)
                            })
                            &&& old(self).current@.len() > 0 ==> {
                                &&& final(self).strokes@.len() == old(self).strokes@.len() + 1
                                &&& forall|i: int|
                                    0 <= i < old(self).strokes@.len() ==> final(self).strokes@[i]
                                        == old(self).strokes@[i]
                                &&& final(self).strokes@.last().pts@ == old(self).current@
                                &&& final(self).current@.len() == 0
                                &&& canvas_matches(final(self).canvas, final(self).original,
                                    final(self).strokes@)
                                &&& *final(self) == (Engine {
                                    canvas: final(self).canvas,
                                    strokes: final(self).strokes,
                                    current: final(self).current,
                                    is_drawing: nd,
                                    is_erasing: ne,
                                    last_paint: None,
                                    ..*old(self)
                                })
                            }
                        }
                    } else if button == Button::Left {
                        *final(self) == (Engine { is_panning: pressed, ..*old(self) })
                    } else {
                        *final(self) == *old(self)
                    }
                },
                InputEvent::CursorMoved { x, y } => {
                    if old(self).is_panning {
                        &&& final(self).view.t_off_x == clamp_i(
                            old(self).view.t_off_x - div_t(
                                (x - old(self).mouse_x) * FX_ONE, old(self).view.zoom as int),
                            -COORD_LIMIT as int, COORD_LIMIT as int)
                        &&& final(self).view.t_off_y == clamp_i(
                            old(self).view.t_off_y - div_t(
                                (y - old(self).mouse_y) * FX_ONE, old(self).view.zoom as int),
                            -COORD_LIMIT as int, COORD_LIMIT as int)
                        &&& final(self).view.zoom == old(self).view.zoom
                        &&& final(self).view.target_zoom == old(self).view.target_zoom
                        &&& final(self).view.off_x == old(self).view.off_x
                        &&& final(self).view.off_y == old(self).view.off_y
                        &&& final(self).view.smoothing == old(self).view.smoothing
                        &&& *final(self) == (Engine {
                            view: final(self).view,
                            mouse_x: x,
                            mouse_y: y,
                            ..*old(self)
                        })
                    } else if old(self).is_drawing {
                        &&& match old(self).last_paint {
                            Some(lp) => {
                                &&& chain_ok(
                                    bresenham_chain(lp.0 as int, lp.1 as int, x as int, y as int),
                                    lp.0 as int, lp.1 as int, x as int, y as int,
                                )
                                &&& current_extended(
                                    final(self).current@,
                                    old(self).current@,
                                    bresenham_chain(lp.0 as int, lp.1 as int, x as int, y as int),
                                    old(self).view,
                                    old(self).original.width as int,
                                    old(self).original.height as int,
                                )
                            },
                            None => final(self).current@ == old(self).current@,
                        }
                        &&& *final(self) == (Engine {
                            current: final(self).current,
                            last_paint: Some((x, y)),
                            mouse_x: x,
                            mouse_y: y,
                            ..*old(self)
                        })
                    } else if old(self).is_erasing {
                        &&& final(self).strokes@ == spec_erase_keep(
                            old(self).strokes@,
                            ViewState::spec_s2i(x as int, old(self).view.zoom as int,
                                old(self).view.off_x as int),
                            ViewState::spec_s2i(y as int, old(self).view.zoom as int,
                                old(self).view.off_y as int),
                            spec_brush_radius(old(self).view.zoom as int),
                        )
                        &&& canvas_matches(final(self).canvas, final(self).original,
                            final(self).strokes@)
                        &&& *final(self) == (Engine {
                            canvas: final(self).canvas,
                            strokes: final(self).strokes,
                            mouse_x: x,
                            mouse_y: y,
                            ..*old(self)
                        })
                    } else {
                        *final(self) == (Engine { mouse_x: x, mouse_y: y, ..*old(self) })
                    }
                },
                InputEvent::Key { key, pressed } => match key {
                    Key::ToggleDraw => if pressed {
                        *final(self) == (Engine {
                            drawing_mode: !old(self).drawing_mode,
                            ..*old(self)
                        })
                    } else {
                        *final(self) == *old(self)
                    },
                    Key::Spotlight => *final(self) == (Engine { spotlight: pressed, ..*old(self) }),
                },
            },
    {
        match e {
            InputEvent::Scroll { delta } => {
                let mx = self.mouse_x;
                let my = self.mouse_y;
                self.view.apply_zoom(delta, mx, my);
            },
            InputEvent::Button { button, pressed } => {
                if self.drawing_mode {
                    match button {
                        Button::Left => {
                            self.is_drawing = pressed;
                        },
                        Button::Right => {
                            self.is_erasing = pressed;
                        },
                        Button::Other => {},
                    }
                    if pressed {
                        self.last_paint = Some((self.mouse_x, self.mouse_y));
                        if self.is_erasing {
                            let mx = self.mouse_x;
                            let my = self.mouse_y;
                            self.erase_at(mx, my);
                        }
                    } else {
                        self.end_gesture();
                        self.last_paint = None;
                    }
                } else {
                    match button {
                        Button::Left => {
                            self.is_panning = pressed;
                        },
                        _ => {},
                    }
                }
            },
            InputEvent::CursorMoved { x, y } => {
                if self.is_panning {
                    let dx = x - self.mouse_x;
                    let dy = y - self.mouse_y;
                    self.view.apply_pan(dx, dy);
                } else if self.is_drawing {
                    match self.last_paint {
                        Some(lp) => {
                            self.paint_line(lp.0, lp.1, x, y);
                        },
                        None => {},
                    }
                    self.last_paint = Some((x, y));
                } else if self.is_erasing {
                    self.erase_at(x, y);
                }
                self.mouse_x = x;
                self.mouse_y = y;
            },
            InputEvent::Key { key, pressed } => {
                match key {
                    Key::ToggleDraw => {
                        if pressed {
                            self.drawing_mode = !self.drawing_mode;
                        }
                    },
                    Key::Spotlight => {
                        self.spotlight = pressed;
                    },
                }
            },
        }
    }
}

} // verus!
