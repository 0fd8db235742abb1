use overlay::engine::{Button, Engine, InputEvent, Key};
use overlay::fixed::FX_ONE;
use overlay::raster::{Raster, Rgba};

fn gray() -> Rgba {
    Rgba { r: 0x20, g: 0x30, b: 0x40, a: 0xff }
}

fn red() -> Rgba {
    Rgba { r: 255, g: 0, b: 0, a: 255 }
}

fn engine_40() -> Engine {
    Engine::new(Raster::filled(40, 40, gray()))
}

fn press(e: &mut Engine, b: Button) {
    e.handle_event(InputEvent::Button { button: b, pressed: true });
}

fn release(e: &mut Engine, b: Button) {
    e.handle_event(InputEvent::Button { button: b, pressed: false });
}

fn move_to(e: &mut Engine, x: i64, y: i64) {
    e.handle_event(InputEvent::CursorMoved { x: x * FX_ONE, y: y * FX_ONE });
}

fn toggle_draw(e: &mut Engine) {
    e.handle_event(InputEvent::Key { key: Key::ToggleDraw, pressed: true });
}

fn canvas_equals(e: &Engine, base: &Raster) -> bool {
    for x in 0..e.canvas.width {
        for y in 0..e.canvas.height {
            if e.canvas.get(x, y) != base.get(x, y) {
                return false;
            }
        }
    }
    true
}

#[test]
fn draw_vertical_line_then_erase_restores_original() {
    // 40 x 40 image, zoom 1, offset (0, 0); a draw gesture from screen
    // (5, 5) to (5, 20) commits one stroke whose pixels include the whole
    // vertical segment (5, 5)..(5, 20); erasing at screen (5, 10) with the
    // default brush removes that stroke and the canvas returns to exactly
    // the base image.
    let base = Raster::filled(40, 40, gray());
    let mut e = engine_40();
    toggle_draw(&mut e);
    move_to(&mut e, 5, 5);
    press(&mut e, Button::Left);
    move_to(&mut e, 5, 20);
    release(&mut e, Button::Left);

    assert_eq!(e.strokes.len(), 1);
    assert!(e.current.is_empty());
    for y in 5..=20usize {
        assert!(e.strokes[0].pts.contains(&(5, y)), "missing center pixel (5, {})", y);
        assert_eq!(e.canvas.get(5, y), red());
    }
    // The round brush of radius 5 also covers neighbours of the centers.
    assert!(e.strokes[0].pts.contains(&(4, 5)));
    assert_eq!(e.canvas.get(4, 5), red());
    // Far corners stay untouched.
    assert_eq!(e.canvas.get(39, 39), gray());

    move_to(&mut e, 5, 10);
    press(&mut e, Button::Right);
    assert_eq!(e.strokes.len(), 0);
    assert!(canvas_equals(&e, &base));
    release(&mut e, Button::Right);
    assert_eq!(e.strokes.len(), 0);
}

#[test]
fn empty_release_commits_nothing() {
    // Pressing and releasing without motion builds no stroke: the committed
    // sequence and the canvas are unchanged.
    let base = Raster::filled(40, 40, gray());
    let mut e = engine_40();
    toggle_draw(&mut e);
    move_to(&mut e, 10, 10);
    press(&mut e, Button::Left);
    release(&mut e, Button::Left);
    assert_eq!(e.strokes.len(), 0);
    assert!(canvas_equals(&e, &base));
}

#[test]
fn erase_misses_distant_stroke() {
    let mut e = engine_40();
    toggle_draw(&mut e);
    move_to(&mut e, 5, 5);
    press(&mut e, Button::Left);
    move_to(&mut e, 5, 8);
    release(&mut e, Button::Left);
    assert_eq!(e.strokes.len(), 1);
    // Erase far away: brush radius 5 around (30, 30) touches nothing.
    move_to(&mut e, 30, 30);
    press(&mut e, Button::Right);
    release(&mut e, Button::Right);
    assert_eq!(e.strokes.len(), 1);
    assert_eq!(e.canvas.get(5, 5), red());
}

#[test]
fn erase_removes_every_touched_stroke() {
    let mut e = engine_40();
    toggle_draw(&mut e);
    // Two separate strokes through the same neighbourhood.
    move_to(&mut e, 10, 10);
    press(&mut e, Button::Left);
    move_to(&mut e, 14, 10);
    release(&mut e, Button::Left);
    move_to(&mut e, 10, 12);
    press(&mut e, Button::Left);
    move_to(&mut e, 14, 12);
    release(&mut e, Button::Left);
    // And one far away.
    move_to(&mut e, 30, 30);
    press(&mut e, Button::Left);
    move_to(&mut e, 33, 30);
    release(&mut e, Button::Left);
    assert_eq!(e.strokes.len(), 3);
    // One erase hits both near strokes, leaves the far one.
    move_to(&mut e, 12, 11);
    press(&mut e, Button::Right);
    release(&mut e, Button::Right);
    assert_eq!(e.strokes.len(), 1);
    assert_eq!(e.canvas.get(30, 30), red());
    assert_eq!(e.canvas.get(10, 10), gray());
    assert_eq!(e.canvas.get(10, 12), gray());
}

#[test]
fn overlapping_strokes_erase_one_keeps_other_pixels() {
    // Overlapping strokes share the canvas color; removing one must replay
    // the survivor so shared pixels stay red.
    let mut e = engine_40();
    toggle_draw(&mut e);
    move_to(&mut e, 10, 10);
    press(&mut e, Button::Left);
    move_to(&mut e, 20, 10);
    release(&mut e, Button::Left);
    move_to(&mut e, 30, 10);
    press(&mut e, Button::Left);
    move_to(&mut e, 36, 10);
    release(&mut e, Button::Left);
    assert_eq!(e.strokes.len(), 2);
    move_to(&mut e, 33, 10);
    press(&mut e, Button::Right);
    release(&mut e, Button::Right);
    assert_eq!(e.strokes.len(), 1);
    assert_eq!(e.canvas.get(15, 10), red());
    assert_eq!(e.canvas.get(33, 10), gray());
}

#[test]
fn drawing_wins_when_both_buttons_are_held() {
    // With both buttons held in drawing mode, cursor motion draws rather
    // than erases.
    let mut e = engine_40();
    toggle_draw(&mut e);
    move_to(&mut e, 10, 10);
    press(&mut e, Button::Right);
    press(&mut e, Button::Left);
    move_to(&mut e, 15, 10);
    assert!(!e.current.is_empty());
    assert_eq!(e.strokes.len(), 0);
    release(&mut e, Button::Left);
    assert_eq!(e.strokes.len(), 1);
}

#[test]
fn gesture_outside_image_is_clipped_to_nothing() {
    let base = Raster::filled(40, 40, gray());
    let mut e = engine_40();
    toggle_draw(&mut e);
    move_to(&mut e, 200, 200);
    press(&mut e, Button::Left);
    move_to(&mut e, 210, 200);
    release(&mut e, Button::Left);
    assert_eq!(e.strokes.len(), 0);
    assert!(canvas_equals(&e, &base));
}

#[test]
fn left_button_pans_outside_drawing_mode() {
    let mut e = engine_40();
    move_to(&mut e, 10, 10);
    press(&mut e, Button::Left);
    assert!(e.is_panning);
    move_to(&mut e, 4, 13);
    // Drag of (-6, +3) screen pixels at zoom 1 moves the target offset by
    // (+6, -3) image pixels.
    assert_eq!(e.view.t_off_x, 6 * FX_ONE);
    assert_eq!(e.view.t_off_y, -3 * FX_ONE);
    release(&mut e, Button::Left);
    assert!(!e.is_panning);
    assert_eq!(e.strokes.len(), 0);
}

#[test]
fn scroll_retargets_zoom_at_cursor() {
    let mut e = engine_40();
    move_to(&mut e, 100, 100);
    e.handle_event(InputEvent::Scroll { delta: FX_ONE });
    assert_eq!(e.view.target_zoom, 1_100_000);
    assert_eq!(e.view.t_off_x, 9_090_910);
    assert_eq!(e.view.t_off_y, 9_090_910);
}

#[test]
fn spotlight_key_follows_press_state() {
    let mut e = engine_40();
    e.handle_event(InputEvent::Key { key: Key::Spotlight, pressed: true });
    assert!(e.spotlight);
    e.handle_event(InputEvent::Key { key: Key::Spotlight, pressed: false });
    assert!(!e.spotlight);
    toggle_draw(&mut e);
    assert!(e.drawing_mode);
    e.handle_event(InputEvent::Key { key: Key::ToggleDraw, pressed: false });
    assert!(e.drawing_mode);
    toggle_draw(&mut e);
    assert!(!e.drawing_mode);
}

#[test]
fn brush_radius_follows_zoom() {
    // Brush footprint is constant on screen: at zoom 10 its image radius is
    // the minimum of one pixel, at zoom 0.1 it is fifty pixels.
    assert_eq!(overlay::brush::brush_radius(10_000_000), FX_ONE);
    assert_eq!(overlay::brush::brush_radius(100_000), 50 * FX_ONE);
    assert_eq!(overlay::brush::brush_radius(FX_ONE), 5 * FX_ONE);
}

#[test]
fn line_to_same_point_stamps_once() {
    // A zero-length drag stamps exactly one brush disk at the point: the
    // walk ends immediately, so only pixels within the brush radius of
    // (10, 10) enter the stroke.
    let mut e = engine_40();
    e.paint_line(10 * FX_ONE, 10 * FX_ONE, 10 * FX_ONE, 10 * FX_ONE);
    assert!(e.current.contains(&(10, 10)));
    assert!(e.current.contains(&(10, 15)));
    assert!(!e.current.contains(&(10, 16)));
    assert!(!e.current.contains(&(16, 10)));
    for &(x, y) in &e.current {
        let dx = x as i64 - 10;
        let dy = y as i64 - 10;
        assert!(dx * dx + dy * dy <= 25);
    }
}
