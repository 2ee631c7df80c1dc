use selector::geometry::{Point, Rect};
use selector::selection::{PointerInput, Redraw, Selection, BTN_LEFT};

fn point(x: f64, y: f64) -> Point {
    Point::new((x * 256.0).round() as i64, (y * 256.0).round() as i64)
}

fn selection() -> Selection {
    Selection::new((3.0f64 * 256.0) as u32)
}

#[test]
fn a_press_alone_draws_nothing() {
    let mut s = selection();
    assert_eq!(s.press(point(10.0, 10.0)), Redraw::NotNeeded);
    assert_eq!(s.rect(), None);
}

#[test]
fn motion_below_the_threshold_stays_invisible() {
    let mut s = selection();
    s.press(point(10.0, 10.0));
    assert_eq!(s.motion(point(11.0, 11.0)), Redraw::NotNeeded);
    assert_eq!(s.rect(), None);
}

#[test]
fn crossing_the_threshold_starts_drawing_from_the_press_origin() {
    let mut s = selection();
    s.press(point(10.0, 10.0));
    assert_eq!(s.motion(point(30.0, 40.0)), Redraw::Needed);
    assert_eq!(s.rect(), Some(Rect::new(10, 10, 20, 30)));
}

#[test]
fn repeated_motion_at_the_same_point_does_not_redraw() {
    let mut s = selection();
    s.press(point(10.0, 10.0));
    s.motion(point(30.0, 40.0));
    assert_eq!(s.motion(point(30.0, 40.0)), Redraw::NotNeeded);
}

#[test]
fn release_yields_the_rect_and_returns_to_idle() {
    let mut s = selection();
    s.press(point(10.0, 10.0));
    s.motion(point(30.0, 40.0));

    let (rect, redraw) = s.release();
    assert_eq!(rect, Some(Rect::new(10, 10, 20, 30)));
    assert_eq!(redraw, Redraw::Needed);
    assert_eq!(s.rect(), None);
    assert_eq!(
        s.motion(point(99.0, 99.0)),
        Redraw::NotNeeded,
        "motion after release must not resume the drag"
    );
}

#[test]
fn a_click_without_a_drag_yields_no_selection() {
    let mut s = selection();
    s.press(point(10.0, 10.0));
    s.motion(point(11.0, 10.0));

    let (rect, redraw) = s.release();
    assert_eq!(rect, None);
    assert_eq!(redraw, Redraw::NotNeeded);
}

#[test]
fn cancel_discards_an_in_progress_drag() {
    let mut s = selection();
    s.press(point(10.0, 10.0));
    s.motion(point(30.0, 40.0));

    assert_eq!(s.cancel(), Redraw::Needed);
    assert_eq!(s.rect(), None);
    assert_eq!(
        s.motion(point(99.0, 99.0)),
        Redraw::NotNeeded,
        "motion after cancel must not resume the drag"
    );
}

#[test]
fn motion_while_idle_is_ignored() {
    let mut s = selection();
    assert_eq!(s.motion(point(30.0, 40.0)), Redraw::NotNeeded);
    assert_eq!(s.rect(), None);
}

#[test]
fn redraw_or_needs_a_redraw_if_either_side_does() {
    assert_eq!(Redraw::NotNeeded.or(Redraw::NotNeeded), Redraw::NotNeeded);
    assert_eq!(Redraw::NotNeeded.or(Redraw::Needed), Redraw::Needed);
    assert_eq!(Redraw::Needed.or(Redraw::NotNeeded), Redraw::Needed);
    assert_eq!(Redraw::Needed.or(Redraw::Needed), Redraw::Needed);
}

#[test]
fn pressing_again_hides_a_visible_drag() {
    let mut s = selection();
    s.press(point(10.0, 10.0));
    s.motion(point(30.0, 40.0));
    assert_eq!(s.press(point(50.0, 50.0)), Redraw::Needed);
    assert_eq!(s.rect(), None);
}

#[test]
fn a_left_release_completes_the_drag_at_the_release_point() {
    let mut s = selection();
    assert_eq!(s.on_pointer(PointerInput::Press { button: BTN_LEFT }, point(10.0, 10.0)), (Redraw::NotNeeded, None));
    assert_eq!(s.on_pointer(PointerInput::Motion, point(20.0, 20.0)), (Redraw::Needed, None));
    assert_eq!(
        s.on_pointer(PointerInput::Release { button: BTN_LEFT }, point(30.0, 40.0)),
        (Redraw::Needed, Some(Rect::new(10, 10, 20, 30)))
    );
    assert_eq!(s.rect(), None);
}

#[test]
fn another_button_cancels_and_leaving_keeps_a_visible_drag() {
    let mut s = selection();
    s.on_pointer(PointerInput::Press { button: BTN_LEFT }, point(10.0, 10.0));
    s.on_pointer(PointerInput::Motion, point(30.0, 40.0));
    assert_eq!(s.on_pointer(PointerInput::Leave, point(0.0, 0.0)), (Redraw::NotNeeded, None));
    assert!(s.rect().is_some());
    assert_eq!(s.on_pointer(PointerInput::Other, point(0.0, 0.0)), (Redraw::NotNeeded, None));
    assert_eq!(s.on_pointer(PointerInput::Release { button: 0x111 }, point(0.0, 0.0)), (Redraw::NotNeeded, None));
    assert!(s.rect().is_some());
    assert_eq!(s.on_pointer(PointerInput::Press { button: 0x111 }, point(0.0, 0.0)), (Redraw::Needed, None));
    assert_eq!(s.rect(), None);
}

#[test]
fn leaving_before_the_threshold_disarms() {
    let mut s = selection();
    s.on_pointer(PointerInput::Press { button: BTN_LEFT }, point(10.0, 10.0));
    assert_eq!(s.on_pointer(PointerInput::Leave, point(11.0, 10.0)), (Redraw::NotNeeded, None));
    assert_eq!(s.on_pointer(PointerInput::Motion, point(50.0, 50.0)), (Redraw::NotNeeded, None));
    assert_eq!(s.rect(), None);
}
