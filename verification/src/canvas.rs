//! What the canvas does with each input event.
//!
//! The canvas draws strokes with the left button, pans with the right button,
//! zooms with the scroll wheel, and keeps the finished strokes in a cached
//! image that is rebuilt only when stale. The decisions (which gesture is
//! under way, what an event starts or ends, when the cached image must be
//! rebuilt, when the widget must be redrawn) are made here; the coordinates,
//! the strokes' points and the drawing itself belong to the caller, which
//! carries out the returned [`Reaction`].
use vstd::prelude::*;

verus! {

/// The decision state of the canvas.
#[derive(Clone, Copy, Debug, PartialEq, Eq, Structural)]
pub struct CanvasState {
    /// The left button is held.
    pub is_drawing: bool,
    /// A stroke is being drawn and not yet finished.
    pub stroke_open: bool,
    /// The right button is held (a pan origin is recorded).
    pub panning: bool,
    /// The cached image of the finished strokes matches the strokes and the view.
    pub cache_valid: bool,
}

/// An input event of the canvas.
#[derive(Clone, Copy, Debug, PartialEq, Eq, Structural)]
pub enum CanvasEvent {
    /// The left button went down.
    DrawPressed,
    /// The left button went up.
    DrawReleased,
    /// The right button went down.
    PanPressed,
    /// The right button went up.
    PanReleased,
    /// The pointer moved.
    PointerMoved,
    /// The scroll wheel turned.
    Scrolled,
    /// The widget is being painted.
    Frame,
}

/// What the caller does in answer to an event.
#[derive(Clone, Copy, Debug, PartialEq, Eq, Structural)]
pub struct Reaction {
    /// Start a new stroke at the pointer's world position, replacing any unfinished one.
    pub begin_stroke: bool,
    /// Add the pointer's world position to the unfinished stroke.
    pub extend_stroke: bool,
    /// Simplify the unfinished stroke and add it to the finished strokes.
    pub commit_stroke: bool,
    /// Record the pointer's position as the pan origin.
    pub record_pan_origin: bool,
    /// Pan the view by the pointer's move since the pan origin, then record the pointer as the new origin.
    pub pan_view: bool,
    /// Forget the pan origin.
    pub clear_pan_origin: bool,
    /// Zoom the view around the last pointer position.
    pub zoom_view: bool,
    /// Claim the button's event sequence.
    pub claim_sequence: bool,
    /// Paint the finished strokes into a fresh cached image.
    pub rebuild_cache: bool,
    /// Paint the unfinished stroke over the cached image.
    pub draw_active_stroke: bool,
    /// Throw the cached image away.
    pub invalidate_cache: bool,
    /// Ask for the widget to be painted again.
    pub queue_draw: bool,
    /// Stop the event from reaching other handlers.
    pub stop_propagation: bool,
}

/// A reaction that does nothing.
pub open spec fn idle() -> Reaction {
    Reaction {
        begin_stroke: false,
        extend_stroke: false,
        commit_stroke: false,
        record_pan_origin: false,
        pan_view: false,
        clear_pan_origin: false,
        zoom_view: false,
        claim_sequence: false,
        rebuild_cache: false,
        draw_active_stroke: false,
        invalidate_cache: false,
        queue_draw: false,
        stop_propagation: false,
    }
}

/// The state of a canvas that has just been set up: no gesture, no cached image.
pub open spec fn initial_state() -> CanvasState {
    CanvasState { is_drawing: false, stroke_open: false, panning: false, cache_valid: false }
}

/// The next state and the reaction for event `e` in state `s`.
pub open spec fn step(s: CanvasState, e: CanvasEvent) -> (CanvasState, Reaction) {
    match e {
        CanvasEvent::DrawPressed => (
            CanvasState { is_drawing: true, stroke_open: true, ..s },
            Reaction { begin_stroke: true, claim_sequence: true, queue_draw: true, ..idle() },
        ),
        CanvasEvent::DrawReleased => (
            CanvasState { is_drawing: false, stroke_open: false, cache_valid: false, ..s },
            Reaction {
                commit_stroke: s.stroke_open,
                invalidate_cache: true,
                queue_draw: true,
                ..idle()
            },
        ),
        CanvasEvent::PanPressed => (
            CanvasState { panning: true, ..s },
            Reaction { record_pan_origin: true, claim_sequence: true, ..idle() },
        ),
        CanvasEvent::PanReleased => (
            CanvasState { panning: false, ..s },
            Reaction { clear_pan_origin: true, ..idle() },
        ),
        CanvasEvent::PointerMoved => if s.panning {
            (
                CanvasState { cache_valid: false, ..s },
                Reaction { pan_view: true, invalidate_cache: true, queue_draw: true, ..idle() },
            )
        } else if s.is_drawing {
            (s, Reaction { extend_stroke: s.stroke_open, queue_draw: true, ..idle() })
        } else {
            (s, idle())
        },
        CanvasEvent::Scrolled => (
            CanvasState { cache_valid: false, ..s },
            Reaction {
                zoom_view: true,
                invalidate_cache: true,
                queue_draw: true,
                stop_propagation: true,
                ..idle()
            },
        ),
        CanvasEvent::Frame => (
            CanvasState { cache_valid: true, ..s },
            Reaction {
                rebuild_cache: !s.cache_valid,
                draw_active_stroke: s.is_drawing && s.stroke_open,
                ..idle()
            },
        ),
    }
}

/// The state after the events `es`, in order.
pub open spec fn run_events(s: CanvasState, es: Seq<CanvasEvent>) -> CanvasState
    decreases es.len(),
{
    if es.len() == 0 {
        s
    } else {
        run_events(step(s, es[0]).0, es.drop_first())
    }
}

impl Reaction {
    /// A reaction that does nothing.
    pub fn idle() -> (r: Reaction)
        ensures
            r == idle(),
    {
        Reaction {
            begin_stroke: false,
            extend_stroke: false,
            commit_stroke: false,
            record_pan_origin: false,
            pan_view: false,
            clear_pan_origin: false,
            zoom_view: false,
            claim_sequence: false,
            rebuild_cache: false,
            draw_active_stroke: false,
            invalidate_cache: false,
            queue_draw: false,
            stop_propagation: false,
        }
    }
}

impl CanvasState {
    /// The state of a canvas that has just been set up.
    pub fn new() -> (s: CanvasState)
        ensures
            s == initial_state(),
    {
        CanvasState { is_drawing: false, stroke_open: false, panning: false, cache_valid: false }
    }

    /// Moves to the state that follows event `e` and returns what the caller must do.
    pub fn react(&mut self, e: CanvasEvent) -> (r: Reaction)
        ensures
            (*final(self), r) == step(*old(self), e),
    {
        let mut r = Reaction::idle();
        match e {
            CanvasEvent::DrawPressed => {
                self.is_drawing = true;
                self.stroke_open = true;
                r.begin_stroke = true;
                r.claim_sequence = true;
                r.queue_draw = true;
            },
            CanvasEvent::DrawReleased => {
                self.is_drawing = false;
                r.commit_stroke = self.stroke_open;
                self.stroke_open = false;
                self.cache_valid = false;
                r.invalidate_cache = true;
                r.queue_draw = true;
            },
            CanvasEvent::PanPressed => {
                self.panning = true;
                r.record_pan_origin = true;
                r.claim_sequence = true;
            },
            CanvasEvent::PanReleased => {
                self.panning = false;
                r.clear_pan_origin = true;
            },
            CanvasEvent::PointerMoved => {
                if self.panning {
                    self.cache_valid = false;
                    r.pan_view = true;
                    r.invalidate_cache = true;
                    r.queue_draw = true;
                } else if self.is_drawing {
                    r.extend_stroke = self.stroke_open;
                    r.queue_draw = true;
                }
            },
            CanvasEvent::Scrolled => {
                self.cache_valid = false;
                r.zoom_view = true;
                r.invalidate_cache = true;
                r.queue_draw = true;
                r.stop_propagation = true;
            },
            CanvasEvent::Frame => {
                r.rebuild_cache = !self.cache_valid;
                r.draw_active_stroke = self.is_drawing && self.stroke_open;
                self.cache_valid = true;
            },
        }
        r
    }
}

/// The left button is held exactly while a stroke is open, in every state
/// reached from a freshly set-up canvas.
pub proof fn lemma_drawing_iff_stroke_open(es: Seq<CanvasEvent>)
    ensures
        run_events(initial_state(), es).is_drawing == run_events(initial_state(), es).stroke_open,
{
    lemma_run_keeps_drawing_with_stroke(initial_state(), es);
}

proof fn lemma_run_keeps_drawing_with_stroke(s: CanvasState, es: Seq<CanvasEvent>)
    requires
        s.is_drawing == s.stroke_open,
    ensures
        run_events(s, es).is_drawing == run_events(s, es).stroke_open,
    decreases es.len(),
{
    if es.len() > 0 {
        lemma_run_keeps_drawing_with_stroke(step(s, es[0]).0, es.drop_first());
    }
}

/// While the right button is held, moving the pointer pans the view and
/// never extends the stroke.
pub proof fn lemma_pan_has_priority(s: CanvasState)
    requires
        s.panning,
    ensures
        step(s, CanvasEvent::PointerMoved).1.pan_view,
        !step(s, CanvasEvent::PointerMoved).1.extend_stroke,
{
}

/// Whatever changes the finished strokes or the view throws the cached image
/// away and asks for a repaint; whatever changes the picture asks for a repaint.
pub proof fn lemma_changes_invalidate_cache(s: CanvasState, e: CanvasEvent)
    ensures
        ({
            let (t, r) = step(s, e);
            (r.commit_stroke || r.pan_view || r.zoom_view) ==> (r.invalidate_cache && !t.cache_valid
                && r.queue_draw)
        }),
        ({
            let r = step(s, e).1;
            (r.begin_stroke || r.extend_stroke) ==> r.queue_draw
        }),
        step(s, e).1.invalidate_cache ==> !step(s, e).0.cache_valid,
{
}

/// Painting rebuilds the cached image exactly when it is stale, leaves it
/// valid, and changes nothing else.
pub proof fn lemma_frame_refreshes_cache(s: CanvasState)
    ensures
        step(s, CanvasEvent::Frame).0 == (CanvasState { cache_valid: true, ..s }),
        step(s, CanvasEvent::Frame).1.rebuild_cache == !s.cache_valid,
        !step(step(s, CanvasEvent::Frame).0, CanvasEvent::Frame).1.rebuild_cache,
{
}

/// Pressing and releasing the left button commits exactly one stroke, and a
/// second release commits nothing.
pub proof fn lemma_press_release_commits_once(s: CanvasState)
    ensures
        ({
            let pressed = step(s, CanvasEvent::DrawPressed).0;
            let (released, r) = step(pressed, CanvasEvent::DrawReleased);
            &&& r.commit_stroke
            &&& !released.is_drawing
            &&& !released.stroke_open
            &&& !step(released, CanvasEvent::DrawReleased).1.commit_stroke
        }),
{
}

/// Which events can call for which action: each action of a reaction comes
/// from one kind of event (two for claiming a button sequence and three for
/// throwing the cached image away), under the stated conditions and no other.
pub proof fn lemma_reaction_sources(s: CanvasState, e: CanvasEvent)
    ensures
        ({
            let r = step(s, e).1;
            &&& r.begin_stroke <==> e == CanvasEvent::DrawPressed
            &&& r.extend_stroke <==> (e == CanvasEvent::PointerMoved && !s.panning && s.is_drawing
                && s.stroke_open)
            &&& r.commit_stroke <==> (e == CanvasEvent::DrawReleased && s.stroke_open)
            &&& r.record_pan_origin <==> e == CanvasEvent::PanPressed
            &&& r.pan_view <==> (e == CanvasEvent::PointerMoved && s.panning)
            &&& r.clear_pan_origin <==> e == CanvasEvent::PanReleased
            &&& r.zoom_view <==> e == CanvasEvent::Scrolled
            &&& r.claim_sequence <==> (e == CanvasEvent::DrawPressed || e
                == CanvasEvent::PanPressed)
            &&& r.rebuild_cache <==> (e == CanvasEvent::Frame && !s.cache_valid)
            &&& r.draw_active_stroke <==> (e == CanvasEvent::Frame && s.is_drawing
                && s.stroke_open)
            &&& r.invalidate_cache <==> (e == CanvasEvent::DrawReleased || e
                == CanvasEvent::Scrolled || (e == CanvasEvent::PointerMoved && s.panning))
            &&& r.stop_propagation <==> e == CanvasEvent::Scrolled
            &&& r.queue_draw <==> (e == CanvasEvent::DrawPressed || e == CanvasEvent::DrawReleased
                || e == CanvasEvent::Scrolled || (e == CanvasEvent::PointerMoved && (s.panning
                || s.is_drawing)))
        }),
{
}

/// How each event changes the decision state: only the left button starts or
/// ends drawing, only the right button starts or ends panning, only painting
/// makes the cached image valid, and it goes stale exactly when the strokes
/// or the view may change.
pub proof fn lemma_state_changes(s: CanvasState, e: CanvasEvent)
    ensures
        ({
            let t = step(s, e).0;
            &&& t.is_drawing == if e == CanvasEvent::DrawPressed {
                true
            } else if e == CanvasEvent::DrawReleased {
                false
            } else {
                s.is_drawing
            }
            &&& t.stroke_open == if e == CanvasEvent::DrawPressed {
                true
            } else if e == CanvasEvent::DrawReleased {
                false
            } else {
                s.stroke_open
            }
            &&& t.panning == if e == CanvasEvent::PanPressed {
                true
            } else if e == CanvasEvent::PanReleased {
                false
            } else {
                s.panning
            }
            &&& t.cache_valid == if e == CanvasEvent::Frame {
                true
            } else if e == CanvasEvent::DrawReleased || e == CanvasEvent::Scrolled || (e
                == CanvasEvent::PointerMoved && s.panning) {
                false
            } else {
                s.cache_valid
            }
        }),
{
}

/// A stroke is extended or committed only while one is open.
pub proof fn lemma_stroke_needs_open(s: CanvasState, e: CanvasEvent)
    ensures
        step(s, e).1.extend_stroke || step(s, e).1.commit_stroke ==> s.stroke_open,
{
}

} // verus!
