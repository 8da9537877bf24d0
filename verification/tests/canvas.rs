use infinite_canvas::canvas::{CanvasEvent, CanvasState, Reaction};

fn react_all(s: &mut CanvasState, events: &[CanvasEvent]) -> Vec<Reaction> {
    events.iter().map(|e| s.react(*e)).collect()
}

#[test]
fn new_canvas_is_idle_with_stale_cache() {
    let s = CanvasState::new();
    assert!(!s.is_drawing && !s.stroke_open && !s.panning && !s.cache_valid);
}

#[test]
fn first_frame_rebuilds_cache_once() {
    let mut s = CanvasState::new();
    let r = s.react(CanvasEvent::Frame);
    assert!(r.rebuild_cache);
    assert!(!r.draw_active_stroke);
    assert!(s.cache_valid);
    let r = s.react(CanvasEvent::Frame);
    assert!(!r.rebuild_cache);
}

#[test]
fn press_move_release_draws_and_commits_one_stroke() {
    let mut s = CanvasState::new();
    let r = react_all(
        &mut s,
        &[
            CanvasEvent::Frame,
            CanvasEvent::DrawPressed,
            CanvasEvent::PointerMoved,
            CanvasEvent::Frame,
            CanvasEvent::DrawReleased,
            CanvasEvent::DrawReleased,
        ],
    );
    assert!(r[1].begin_stroke && r[1].claim_sequence && r[1].queue_draw);
    assert!(r[2].extend_stroke && r[2].queue_draw && !r[2].pan_view);
    assert!(r[3].draw_active_stroke && !r[3].rebuild_cache);
    assert!(r[4].commit_stroke && r[4].invalidate_cache && r[4].queue_draw);
    assert!(!r[5].commit_stroke);
    assert!(!s.is_drawing && !s.stroke_open && !s.cache_valid);
}

#[test]
fn pan_takes_priority_over_drawing() {
    let mut s = CanvasState::new();
    let r = react_all(
        &mut s,
        &[CanvasEvent::DrawPressed, CanvasEvent::PanPressed, CanvasEvent::PointerMoved],
    );
    assert!(r[1].record_pan_origin && r[1].claim_sequence);
    assert!(r[2].pan_view && !r[2].extend_stroke && r[2].invalidate_cache);
    let r = s.react(CanvasEvent::PanReleased);
    assert!(r.clear_pan_origin);
    let r = s.react(CanvasEvent::PointerMoved);
    assert!(r.extend_stroke && !r.pan_view);
}

#[test]
fn idle_motion_does_nothing() {
    let mut s = CanvasState::new();
    let before = s;
    let r = s.react(CanvasEvent::PointerMoved);
    assert_eq!(r, Reaction::idle());
    assert_eq!(s, before);
}

#[test]
fn scroll_zooms_and_invalidates() {
    let mut s = CanvasState::new();
    s.react(CanvasEvent::Frame);
    let r = s.react(CanvasEvent::Scrolled);
    assert!(r.zoom_view && r.invalidate_cache && r.queue_draw && r.stop_propagation);
    assert!(!s.cache_valid);
    assert!(s.react(CanvasEvent::Frame).rebuild_cache);
}

#[test]
fn release_without_stroke_commits_nothing_but_invalidates() {
    let mut s = CanvasState::new();
    let r = s.react(CanvasEvent::DrawReleased);
    assert!(!r.commit_stroke && r.invalidate_cache && r.queue_draw);
}
