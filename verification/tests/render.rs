use overlay::engine::{Button, Engine, InputEvent, Key};
use overlay::fixed::FX_ONE;
use overlay::raster::{Raster, Rgba};
use overlay::render::frame_to_bytes;

fn teal() -> Rgba {
    Rgba { r: 0x10, g: 0x80, b: 0xc0, a: 0xff }
}

fn red() -> Rgba {
    Rgba { r: 255, g: 0, b: 0, a: 255 }
}

fn bg() -> Rgba {
    Rgba { r: 0x40, g: 0x40, b: 0x40, a: 0xff }
}

fn engine(w: usize, h: usize) -> Engine {
    Engine::new(Raster::filled(w, h, teal()))
}

fn at(frame: &[Rgba], fw: usize, x: usize, y: usize) -> Rgba {
    frame[y * fw + x]
}

#[test]
fn frame_shows_image_and_background() {
    let e = engine(4, 4);
    let frame = e.render_frame(8, 8);
    assert_eq!(frame.len(), 64);
    // Inside the image the base color shows; outside, the neutral
    // background.
    assert_eq!(at(&frame, 8, 0, 0), teal());
    assert_eq!(at(&frame, 8, 3, 3), teal());
    assert_eq!(at(&frame, 8, 4, 0), bg());
    assert_eq!(at(&frame, 8, 7, 7), bg());
}

#[test]
fn frame_overlays_in_progress_stroke() {
    let mut e = engine(40, 40);
    e.handle_event(InputEvent::Key { key: Key::ToggleDraw, pressed: true });
    e.handle_event(InputEvent::CursorMoved { x: 10 * FX_ONE, y: 10 * FX_ONE });
    e.handle_event(InputEvent::Button { button: Button::Left, pressed: true });
    e.handle_event(InputEvent::CursorMoved { x: 12 * FX_ONE, y: 10 * FX_ONE });
    // Not yet released: the canvas is clean but the frame shows the stroke.
    assert_eq!(e.canvas.get(10, 10), teal());
    let frame = e.render_frame(40, 40);
    assert_eq!(at(&frame, 40, 10, 10), red());
    assert_eq!(at(&frame, 40, 30, 30), teal());
}

#[test]
fn spotlight_dims_only_outside_radius() {
    // With the pointer at (0, 0) and the spotlight held, a pixel 200 px away
    // has each color channel quartered (rounded down); a pixel at the
    // pointer, and one just inside the radius, are unchanged.
    let mut e = engine(400, 400);
    e.handle_event(InputEvent::CursorMoved { x: 0, y: 0 });
    e.handle_event(InputEvent::Key { key: Key::Spotlight, pressed: true });
    let frame = e.render_frame(400, 400);
    let dimmed = Rgba { r: 0x10 / 4, g: 0x80 / 4, b: 0xc0 / 4, a: 0xff };
    assert_eq!(at(&frame, 400, 200, 0), dimmed);
    assert_eq!(at(&frame, 400, 0, 0), teal());
    assert_eq!(at(&frame, 400, 125, 0), teal());
    assert_eq!(at(&frame, 400, 126, 0), dimmed);
    // Alpha is never dimmed.
    assert_eq!(at(&frame, 400, 200, 200).a, 0xff);
}

#[test]
fn spotlight_released_leaves_frame_unfiltered() {
    let mut e = engine(50, 50);
    e.handle_event(InputEvent::CursorMoved { x: 0, y: 0 });
    let frame = e.render_frame(50, 50);
    assert_eq!(at(&frame, 50, 49, 49), teal());
}

#[test]
fn zoomed_frame_magnifies_pixels() {
    let mut e = engine(10, 10);
    // Paint one committed pixel block at (2, 2), then zoom in 2x with the
    // anchor at the origin so offsets stay zero.
    e.handle_event(InputEvent::Key { key: Key::ToggleDraw, pressed: true });
    e.handle_event(InputEvent::CursorMoved { x: 2 * FX_ONE, y: 2 * FX_ONE });
    e.handle_event(InputEvent::Button { button: Button::Left, pressed: true });
    e.handle_event(InputEvent::CursorMoved { x: 2 * FX_ONE + 1, y: 2 * FX_ONE });
    e.handle_event(InputEvent::Button { button: Button::Left, pressed: false });
    e.handle_event(InputEvent::Key { key: Key::ToggleDraw, pressed: true });
    e.handle_event(InputEvent::CursorMoved { x: 0, y: 0 });
    e.handle_event(InputEvent::Scroll { delta: 10 * FX_ONE });
    for _ in 0..200 {
        e.update();
    }
    assert_eq!(e.view.zoom, 2 * FX_ONE);
    let frame = e.render_frame(20, 20);
    // Screen (5, 5) maps to image (2.5, 2.5), inside the red block around
    // (2, 2); screen (19, 19) maps to image (9.5, 9.5), base color.
    assert_eq!(at(&frame, 20, 5, 5), red());
    assert_eq!(at(&frame, 20, 19, 19), teal());
}

#[test]
fn frame_bytes_are_rgba_in_row_order() {
    let e = engine(2, 1);
    let frame = e.render_frame(2, 1);
    let bytes = frame_to_bytes(&frame);
    assert_eq!(bytes.len(), 8);
    assert_eq!(&bytes[0..4], &[0x10, 0x80, 0xc0, 0xff]);
    assert_eq!(&bytes[4..8], &[0x10, 0x80, 0xc0, 0xff]);
}
