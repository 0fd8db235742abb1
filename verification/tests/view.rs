use overlay::fixed::{COORD_LIMIT, FX_ONE};
use overlay::view::{ViewState, SMOOTHING_DEFAULT, ZOOM_MAX, ZOOM_MIN};

fn fresh() -> ViewState {
    ViewState::new()
}

#[test]
fn scroll_plus_one_at_anchor_100_100() {
    // Scroll +1 at anchor (100, 100) with zoom 1 and target offset (0, 0):
    // the zoom target becomes 1.1 and the offset target about 9.09 on each
    // axis (exactly 9.090910 in fixed point).
    let mut v = fresh();
    v.apply_zoom(FX_ONE, 100 * FX_ONE, 100 * FX_ONE);
    assert_eq!(v.target_zoom, 1_100_000);
    assert_eq!(v.t_off_x, 9_090_910);
    assert_eq!(v.t_off_y, 9_090_910);
    assert_eq!(v.zoom, FX_ONE);
    assert_eq!(v.off_x, 0);
    assert_eq!(v.off_y, 0);
}

#[test]
fn zoom_stays_clamped_under_any_scrolls() {
    let mut v = fresh();
    for _ in 0..50 {
        v.apply_zoom(10 * FX_ONE, 0, 0);
        assert!(ZOOM_MIN <= v.target_zoom && v.target_zoom <= ZOOM_MAX);
        assert!(ZOOM_MIN <= v.zoom && v.zoom <= ZOOM_MAX);
    }
    assert_eq!(v.target_zoom, ZOOM_MAX);
    // A scroll so negative that the factor goes below zero clamps to the
    // smallest zoom rather than failing.
    v.apply_zoom(-20 * FX_ONE, 0, 0);
    assert_eq!(v.target_zoom, ZOOM_MIN);
    for _ in 0..200 {
        v.update();
        assert!(ZOOM_MIN <= v.zoom && v.zoom <= ZOOM_MAX);
    }
}

#[test]
fn updates_converge_exactly() {
    let mut v = fresh();
    v.apply_zoom(FX_ONE, 300 * FX_ONE, 200 * FX_ONE);
    for _ in 0..200 {
        v.update();
    }
    assert_eq!(v.zoom, v.target_zoom);
    assert_eq!(v.off_x, v.t_off_x);
    assert_eq!(v.off_y, v.t_off_y);
}

#[test]
fn near_target_snaps_in_one_tick() {
    let mut v = fresh();
    // 0.0005 away on each scalar: below the 0.001 snap threshold.
    v.zoom = FX_ONE - 500;
    v.off_x = 500;
    v.off_y = -499;
    v.update();
    assert_eq!(v.zoom, v.target_zoom);
    assert_eq!(v.off_x, 0);
    assert_eq!(v.off_y, 0);
}

#[test]
fn anchor_point_is_preserved_after_convergence() {
    // After an anchored zoom and full convergence, the image point under the
    // anchor is exactly what the previous target state put there.
    let mut v = fresh();
    let anchor = 100 * FX_ONE;
    let before = v.screen_to_image(anchor, anchor);
    v.apply_zoom(FX_ONE, anchor, anchor);
    for _ in 0..300 {
        v.update();
    }
    assert_eq!(v.zoom, v.target_zoom);
    let after = v.screen_to_image(anchor, anchor);
    assert_eq!(after.0, before.0);
    assert_eq!(after.1, before.1);
    assert_eq!(after.0, 100_000_000);
}

#[test]
fn pan_moves_target_offset_by_drag_over_zoom() {
    let mut v = fresh();
    v.apply_pan(10 * FX_ONE, -4 * FX_ONE);
    assert_eq!(v.t_off_x, -10 * FX_ONE);
    assert_eq!(v.t_off_y, 4 * FX_ONE);
    assert_eq!(v.smoothing, SMOOTHING_DEFAULT);
}

#[test]
fn offsets_clamp_at_coordinate_limit() {
    let mut v = fresh();
    for _ in 0..3 {
        v.apply_pan(COORD_LIMIT, COORD_LIMIT);
    }
    assert_eq!(v.t_off_x, -COORD_LIMIT);
    assert_eq!(v.t_off_y, -COORD_LIMIT);
}

#[test]
fn screen_to_image_uses_current_state() {
    let mut v = fresh();
    v.apply_zoom(FX_ONE, 0, 0);
    // The target zoom moved, the current zoom has not yet: the mapping still
    // uses the current zoom of one.
    let p = v.screen_to_image(7 * FX_ONE, 3 * FX_ONE);
    assert_eq!(p.0, 7 * FX_ONE);
    assert_eq!(p.1, 3 * FX_ONE);
}
