use selector::geometry::Rect;
use selector::monitor::{blur_spans, BlurChange, DrawPlan, Monitor};

fn configured(origin: (i32, i32), width: u32, height: u32) -> Monitor {
    let mut m = Monitor::new(origin);
    m.configure(width, height);
    m
}

#[test]
fn a_selection_is_seen_in_surface_coordinates() {
    let m = configured((100, 0), 50, 50);
    assert_eq!(m.local_rect(Some(Rect::new(110, 10, 5, 5))), Some(Rect::new(10, 10, 5, 5)));
    assert_eq!(m.local_rect(Some(Rect::new(10, 10, 5, 5))), None);
    assert_eq!(m.local_rect(None), None);
    assert!(m.covers(Rect::new(90, 0, 20, 20)));
    assert!(!m.covers(Rect::new(150, 0, 20, 20)));
}

#[test]
fn pointer_positions_are_lifted_by_the_origin() {
    let m = configured((100, -20), 50, 50);
    let p = m.point_to_global((5 * 256 + 128, 7 * 256));
    assert_eq!((p.x, p.y), (105 * 256 + 128, -13 * 256));
}

#[test]
fn sync_draws_only_changes_and_waits_for_frames() {
    let mut m = configured((0, 0), 50, 50);
    let sel = Some(Rect::new(1, 1, 10, 10));
    assert!(m.sync(sel));
    let plan = m.draw(sel).unwrap();
    assert_eq!(plan, DrawPlan { width: 50, height: 50, rect: sel });
    m.frame_requested();
    m.mark_painted(plan.rect);
    assert!(!m.sync(sel), "already showing it");
    let moved = Some(Rect::new(2, 2, 10, 10));
    assert!(!m.sync(moved), "a frame is pending");
    assert!(m.dirty);
    assert!(m.frame_done(), "the pending change draws now");
}

#[test]
fn nothing_draws_before_configure() {
    let mut m = Monitor::new((0, 0));
    assert_eq!(m.draw(None), None);
}

#[test]
fn the_blur_region_follows_the_rounded_outline_and_is_clipped() {
    let spans = blur_spans(Rect::new(-5, 0, 10, 10), 3, 20, 20);
    assert_eq!(
        spans,
        vec![
            Rect::new(0, 3, 5, 4),
            Rect::new(0, 0, 4, 1),
            Rect::new(0, 9, 4, 1),
            Rect::new(0, 1, 5, 2),
            Rect::new(0, 7, 5, 2),
        ]
    );
    let mut m = configured((0, 0), 20, 20);
    let r = Some(Rect::new(1, 1, 4, 4));
    assert!(matches!(m.blur_change(r, 0), Some(BlurChange::Region(_))));
    m.mark_blurred(r);
    assert_eq!(m.blur_change(r, 0), None);
    assert_eq!(m.blur_change(None, 0), Some(BlurChange::Clear));
}
