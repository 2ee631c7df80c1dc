//! The drag state machine: a press arms it, motion past the threshold starts
//! drawing, a release hands the finished rectangle over.
use vstd::prelude::*;

use crate::geometry::{Point, Rect};

verus! {

/// The evdev code of the left mouse button.
pub const BTN_LEFT: u32 = 0x110;

/// Where a drag stands.
#[derive(Debug, Clone, Copy, PartialEq, Eq, Structural)]
pub enum State {
    Idle,
    Armed { origin: Point },
    Dragging { origin: Point, current: Point },
}

/// Whether a change to the selection needs the surfaces repainted.
#[derive(Debug, Clone, Copy, PartialEq, Eq, Structural)]
pub enum Redraw {
    Needed,
    NotNeeded,
}

/// `Needed` exactly when `needed` holds.
pub open spec fn redraw_when(needed: bool) -> Redraw {
    if needed {
        Redraw::Needed
    } else {
        Redraw::NotNeeded
    }
}

/// The combination of two redraw decisions: needed if either is.
pub open spec fn redraw_either(a: Redraw, b: Redraw) -> Redraw {
    redraw_when(a == Redraw::Needed || b == Redraw::Needed)
}

impl Redraw {
    pub fn is_needed(self) -> (needed: bool)
        ensures
            needed <==> self == Redraw::Needed,
    {
        match self {
            Redraw::Needed => true,
            Redraw::NotNeeded => false,
        }
    }

    /// Needs a redraw if either side does.
    pub fn or(self, other: Redraw) -> (r: Redraw)
        ensures
            r == redraw_either(self, other),
    {
        if self.is_needed() || other.is_needed() {
            Redraw::Needed
        } else {
            Redraw::NotNeeded
        }
    }
}

/// Combining redraw decisions is commutative and associative, with
/// `NotNeeded` as identity and `Needed` absorbing everything.
pub proof fn lemma_redraw_either_laws(a: Redraw, b: Redraw, c: Redraw)
    ensures
        redraw_either(a, b) == redraw_either(b, a),
        redraw_either(redraw_either(a, b), c) == redraw_either(a, redraw_either(b, c)),
        redraw_either(a, Redraw::NotNeeded) == a,
        redraw_either(a, Redraw::Needed) == Redraw::Needed,
{
}

/// The rectangle a drag state shows, if any: only a drag in progress shows one.
pub open spec fn visible_rect(state: State) -> Option<Rect> {
    match state {
        State::Dragging { origin, current } => Some(Rect::spanned_by(origin, current)),
        _ => None,
    }
}

/// A press arms a new drag at the pointer, and needs a redraw only if it hides
/// a rectangle that was showing.
pub open spec fn after_press(state: State, at: Point) -> (State, Redraw) {
    (State::Armed { origin: at }, redraw_when(visible_rect(state) is Some))
}

/// Motion is ignored while idle; while armed it starts the drag once the
/// pointer is `threshold` sub-pixel steps from the press; while dragging it
/// moves the free corner, redrawing only if the pointer actually moved.
pub open spec fn after_motion(state: State, threshold: u32, at: Point) -> (State, Redraw) {
    match state {
        State::Idle => (State::Idle, Redraw::NotNeeded),
        State::Armed { origin } => {
            if origin.distance_squared(at) >= threshold as int * threshold as int {
                (State::Dragging { origin, current: at }, Redraw::Needed)
            } else {
                (state, Redraw::NotNeeded)
            }
        },
        State::Dragging { origin, current } => {
            if current == at {
                (state, Redraw::NotNeeded)
            } else {
                (State::Dragging { origin, current: at }, Redraw::Needed)
            }
        },
    }
}

/// Ending a drag, whether by release or cancel, returns to idle and needs a
/// redraw only if a rectangle was showing.
pub open spec fn ending_redraw(state: State) -> Redraw {
    redraw_when(visible_rect(state) is Some)
}

/// A pointer event, reduced to what the drag logic reads of it.
#[derive(Debug, Clone, Copy, PartialEq, Eq, Structural)]
pub enum PointerInput {
    Press { button: u32 },
    Release { button: u32 },
    Motion,
    Leave,
    /// Enter, axis and any other event: they leave the drag alone.
    Other,
}

/// What a pointer event does to the drag: the new state, whether the surfaces
/// need repainting, and the rectangle it completes, if any.
pub open spec fn after_pointer(state: State, threshold: u32, input: PointerInput, at: Point) -> (
    State,
    Redraw,
    Option<Rect>,
) {
    match input {
        PointerInput::Press { button } => {
            if button == BTN_LEFT {
                let (s, r) = after_press(state, at);
                (s, r, None)
            } else {
                (State::Idle, ending_redraw(state), None)
            }
        },
        PointerInput::Motion => {
            let (s, r) = after_motion(state, threshold, at);
            (s, r, None)
        },
        PointerInput::Release { button } => {
            if button == BTN_LEFT {
                let (moved, motion_redraw) = after_motion(state, threshold, at);
                (
                    State::Idle,
                    redraw_either(motion_redraw, ending_redraw(moved)),
                    visible_rect(moved),
                )
            } else {
                (state, Redraw::NotNeeded, None)
            }
        },
        PointerInput::Leave => {
            if visible_rect(state) is Some {
                (state, Redraw::NotNeeded, None)
            } else {
                (State::Idle, ending_redraw(state), None)
            }
        },
        PointerInput::Other => (state, Redraw::NotNeeded, None),
    }
}

/// The one selection shared by every output, in global coordinates.
#[derive(Debug)]
pub struct Selection {
    state: State,
    threshold: u32,
}

impl Selection {
    /// Where the drag stands.
    pub closed spec fn phase(&self) -> State {
        self.state
    }

    /// How far, in sub-pixel steps, the pointer must travel before a press counts as a drag.
    pub closed spec fn drag_threshold(&self) -> u32 {
        self.threshold
    }

    pub fn new(threshold: u32) -> (s: Self)
        ensures
            s.phase() == State::Idle,
            s.drag_threshold() == threshold,
    {
        Self { state: State::Idle, threshold }
    }

    /// The rectangle being dragged out, if a drag is in progress.
    pub fn rect(&self) -> (r: Option<Rect>)
        ensures
            r == visible_rect(self.phase()),
    {
        match self.state {
            State::Idle => None,
            State::Armed { .. } => None,
            State::Dragging { origin, current } => Some(Rect::from_corners(origin, current)),
        }
    }

    pub fn press(&mut self, at: Point) -> (redraw: Redraw)
        ensures
            (final(self).phase(), redraw) == after_press(old(self).phase(), at),
            final(self).drag_threshold() == old(self).drag_threshold(),
    {
        let was_visible = self.rect().is_some();
        self.state = State::Armed { origin: at };
        if was_visible {
            Redraw::Needed
        } else {
            Redraw::NotNeeded
        }
    }

    pub fn motion(&mut self, at: Point) -> (redraw: Redraw)
        ensures
            (final(self).phase(), redraw) == after_motion(
                old(self).phase(),
                old(self).drag_threshold(),
                at,
            ),
            final(self).drag_threshold() == old(self).drag_threshold(),
            redraw == Redraw::NotNeeded ==> final(self).phase() == old(self).phase(),
            visible_rect(final(self).phase()) != visible_rect(old(self).phase()) ==> redraw
                == Redraw::Needed,
            old(self).phase() matches State::Dragging { origin, current } ==> (at != current
                <==> redraw == Redraw::Needed) && visible_rect(final(self).phase()) == Some(
                Rect::spanned_by(origin, at),
            ),
    {
        match self.state {
            State::Idle => Redraw::NotNeeded,
            State::Armed { origin } => {
                if origin.reaches(at, self.threshold) {
                    self.state = State::Dragging { origin, current: at };
                    Redraw::Needed
                } else {
                    Redraw::NotNeeded
                }
            },
            State::Dragging { origin, current } => {
                if current == at {
                    return Redraw::NotNeeded;
                }
                self.state = State::Dragging { origin, current: at };
                Redraw::Needed
            },
        }
    }

    /// Ends the drag, handing over the rectangle that was showing.
    pub fn release(&mut self) -> (r: (Option<Rect>, Redraw))
        ensures
            r == (visible_rect(old(self).phase()), ending_redraw(old(self).phase())),
            final(self).phase() == State::Idle,
            final(self).drag_threshold() == old(self).drag_threshold(),
    {
        let rect = self.rect();
        let redraw = if rect.is_some() {
            Redraw::Needed
        } else {
            Redraw::NotNeeded
        };
        self.state = State::Idle;
        (rect, redraw)
    }

    /// Discards the drag without a result.
    pub fn cancel(&mut self) -> (redraw: Redraw)
        ensures
            redraw == ending_redraw(old(self).phase()),
            final(self).phase() == State::Idle,
            final(self).drag_threshold() == old(self).drag_threshold(),
    {
        let redraw = if self.rect().is_some() {
            Redraw::Needed
        } else {
            Redraw::NotNeeded
        };
        self.state = State::Idle;
        redraw
    }

    /// Feeds one pointer event, already lifted into global coordinates, to the
    /// drag: a left press arms, motion drags, a left release completes (after
    /// taking the release position as a last motion), any other press cancels,
    /// and leaving a surface cancels only a drag that shows nothing yet.
    pub fn on_pointer(&mut self, input: PointerInput, at: Point) -> (r: (Redraw, Option<Rect>))
        ensures
            (final(self).phase(), r.0, r.1) == after_pointer(
                old(self).phase(),
                old(self).drag_threshold(),
                input,
                at,
            ),
            final(self).drag_threshold() == old(self).drag_threshold(),
            input == (PointerInput::Release { button: BTN_LEFT }) ==> final(self).phase()
                == State::Idle,
            input == (PointerInput::Release { button: BTN_LEFT }) ==> (old(self).phase() matches State::Dragging {
                origin,
                ..
            } ==> r == (Redraw::Needed, Some(Rect::spanned_by(origin, at)))),
    {
        match input {
            PointerInput::Press { button } => {
                if button == BTN_LEFT {
                    (self.press(at), None)
                } else {
                    (self.cancel(), None)
                }
            },
            PointerInput::Motion => (self.motion(at), None),
            PointerInput::Release { button } => {
                if button == BTN_LEFT {
                    let motion_redraw = self.motion(at);
                    let (rect, release_redraw) = self.release();
                    (motion_redraw.or(release_redraw), rect)
                } else {
                    (Redraw::NotNeeded, None)
                }
            },
            PointerInput::Leave => {
                if self.rect().is_some() {
                    (Redraw::NotNeeded, None)
                } else {
                    (self.cancel(), None)
                }
            },
            PointerInput::Other => (Redraw::NotNeeded, None),
        }
    }
}

/// A press never shows a rectangle by itself.
pub proof fn lemma_press_shows_nothing(state: State, at: Point)
    ensures
        visible_rect(after_press(state, at).0) is None,
{
}

/// Once a drag has ended, by release or cancel, further motion neither
/// resumes it nor asks for a redraw.
pub proof fn lemma_ended_drag_stays_ended(threshold: u32, at: Point)
    ensures
        after_motion(State::Idle, threshold, at) == (State::Idle, Redraw::NotNeeded),
        visible_rect(State::Idle) is None,
{
}

/// Motion that stays short of the threshold from the press shows nothing and
/// asks for no redraw; motion that reaches it shows the rectangle from the
/// press origin to the pointer.
pub proof fn lemma_threshold_starts_the_drag(origin: Point, threshold: u32, at: Point)
    ensures
        origin.distance_squared(at) < threshold as int * threshold as int ==> after_motion(
            State::Armed { origin },
            threshold,
            at,
        ) == (State::Armed { origin }, Redraw::NotNeeded),
        origin.distance_squared(at) >= threshold as int * threshold as int ==> {
            let (s, r) = after_motion(State::Armed { origin }, threshold, at);
            &&& r == Redraw::Needed
            &&& visible_rect(s) == Some(Rect::spanned_by(origin, at))
        },
{
}

/// Motion to where the pointer already is changes nothing.
pub proof fn lemma_motion_in_place_is_idle(state: State, threshold: u32)
    requires
        state is Dragging,
    ensures
        after_motion(state, threshold, state->current) == (state, Redraw::NotNeeded),
{
}

/// A release after a drag yields the dragged rectangle and a redraw; a press
/// and release without reaching the threshold yields nothing and no redraw.
pub proof fn lemma_release_yields_the_drag(origin: Point, threshold: u32, at: Point)
    ensures
        ({
            let (armed, _) = after_press(State::Idle, origin);
            let (s, r, done) = after_pointer(
                armed,
                threshold,
                PointerInput::Release { button: BTN_LEFT },
                at,
            );
            &&& s == State::Idle
            &&& origin.distance_squared(at) >= threshold as int * threshold as int ==> done == Some(
                Rect::spanned_by(origin, at),
            ) && r == Redraw::Needed
            &&& origin.distance_squared(at) < threshold as int * threshold as int ==> done is None
                && r == Redraw::NotNeeded
        }),
{
}

/// A drag that shows a rectangle survives the pointer leaving a surface (as
/// when the compositor hands focus to the next output mid-drag); a press that
/// has not become a drag yet is disarmed by it.
pub proof fn lemma_leaving_keeps_a_visible_drag(state: State, threshold: u32, at: Point)
    ensures
        visible_rect(state) is Some ==> after_pointer(state, threshold, PointerInput::Leave, at) == (
            state,
            Redraw::NotNeeded,
            None::<Rect>,
        ),
        visible_rect(state) is None ==> after_pointer(state, threshold, PointerInput::Leave, at).0
            == State::Idle,
{
}

/// Motion asks for a redraw whenever what shows changes, and changes nothing
/// when it asks for none; while dragging, it redraws exactly when the pointer
/// moved, and the rectangle then runs from the press origin to the pointer.
pub proof fn lemma_motion_redraws_what_moves(state: State, threshold: u32, at: Point)
    ensures
        ({
            let (s, r) = after_motion(state, threshold, at);
            &&& r == Redraw::NotNeeded ==> s == state
            &&& visible_rect(s) != visible_rect(state) ==> r == Redraw::Needed
            &&& state matches State::Dragging { origin, current } ==> (at != current <==> r
                == Redraw::Needed) && visible_rect(s) == Some(Rect::spanned_by(origin, at))
            &&& state is Idle ==> s == State::Idle && r == Redraw::NotNeeded
        }),
{
}

/// A left release always ends the drag: after a drag it hands over the
/// rectangle from the press origin to the release point (wherever that is,
/// the last motion's point included) with a redraw; after a bare press it
/// hands over that rectangle only if the release point reached the threshold.
pub proof fn lemma_left_release_completes_the_drag(state: State, threshold: u32, at: Point)
    ensures
        ({
            let (s, r, done) = after_pointer(state, threshold, PointerInput::Release { button: BTN_LEFT }, at);
            &&& s == State::Idle
            &&& state matches State::Dragging { origin, .. } ==> r == Redraw::Needed && done == Some(
                Rect::spanned_by(origin, at),
            )
            &&& state matches State::Armed { origin } ==> done == if origin.distance_squared(at)
                >= threshold as int * threshold as int {
                Some(Rect::spanned_by(origin, at))
            } else {
                None
            }
            &&& state is Idle ==> r == Redraw::NotNeeded && done is None
        }),
{
}

} // verus!
