use selector::geometry::{rounded_row_inset, Point, Rect};
use std::collections::HashSet;

/// A pointer position given in pixels, as the compositor reports it.
fn point(x: f64, y: f64) -> Point {
    Point::new((x * 256.0).round() as i64, (y * 256.0).round() as i64)
}

#[test]
fn corners_normalize_in_any_direction() {
    let expected = Rect::new(10, 20, 30, 40);
    let a = point(10.0, 20.0);
    let b = point(40.0, 60.0);
    assert_eq!(Rect::from_corners(a, b), expected);
    assert_eq!(Rect::from_corners(b, a), expected);
    assert_eq!(
        Rect::from_corners(point(40.0, 20.0), point(10.0, 60.0)),
        expected
    );
}

#[test]
fn corners_round_outward_so_the_band_covers_the_pointer() {
    let r = Rect::from_corners(point(10.7, 20.2), point(40.1, 60.9));
    assert_eq!(r, Rect::new(10, 20, 31, 41));
}

#[test]
fn degenerate_drag_is_empty() {
    let p = point(5.0, 5.0);
    assert!(Rect::from_corners(p, p).is_empty());
}

#[test]
fn clamping_trims_overhang_on_both_axes() {
    let r = Rect::new(-10, -10, 40, 40).clamp_to_surface(20, 20);
    assert_eq!(r, Rect::new(0, 0, 20, 20));
}

#[test]
fn a_zero_radius_is_one_span() {
    let r = Rect::new(3, 4, 10, 8);
    assert_eq!(r.rounded_spans(0), vec![r]);
}

#[test]
fn spans_stay_inside_the_rect_and_never_overlap() {
    let r = Rect::new(2, 3, 20, 14);
    let spans = r.rounded_spans(5);

    let mut seen = HashSet::new();
    for span in &spans {
        assert!(span.x >= r.x && span.right() <= r.right(), "{span:?}");
        assert!(span.y >= r.y && span.bottom() <= r.bottom(), "{span:?}");
        for y in span.y..span.bottom() {
            for x in span.x..span.right() {
                assert!(seen.insert((x, y)), "({x}, {y}) covered twice");
            }
        }
    }

    assert!(
        seen.contains(&(r.x, r.y + 7)),
        "the middle band reaches the edge"
    );
    assert!(!seen.contains(&(r.x, r.y)), "the corner is cut away");
}

#[test]
fn spans_are_symmetric_on_both_axes() {
    let r = Rect::new(0, 0, 16, 16);
    let covered: HashSet<_> = r
        .rounded_spans(6)
        .iter()
        .flat_map(|s| (s.y..s.bottom()).flat_map(move |y| (s.x..s.right()).map(move |x| (x, y))))
        .collect();

    for &(x, y) in &covered {
        assert!(covered.contains(&(15 - x, y)), "mirror of ({x}, {y})");
        assert!(covered.contains(&(x, 15 - y)), "mirror of ({x}, {y})");
    }
}

#[test]
fn a_radius_larger_than_the_rect_is_clamped() {
    let r = Rect::new(0, 0, 8, 6);
    let spans = r.rounded_spans(99);
    assert!(!spans.is_empty());
    for span in spans {
        assert!(span.right() <= r.right() && span.bottom() <= r.bottom());
    }
}

#[test]
fn clamping_a_fully_offscreen_rect_yields_empty() {
    let r = Rect::new(100, 100, 10, 10).clamp_to_surface(20, 20);
    assert!(r.is_empty());
}

/// `ceil(r - 1/2 - sqrt(r^2 - (r - row - 1/2)^2))`, floored at zero, in floats.
fn float_inset(radius: u32, row: u32) -> u32 {
    if radius == 0 || row >= radius {
        return 0;
    }
    let r = radius as f64;
    let dy = r - (row as f64 + 0.5);
    let inset = r - (r * r - dy * dy).sqrt() - 0.5;
    inset.ceil().max(0.0) as u32
}

#[test]
fn row_insets_match_the_circle() {
    for radius in 0..64 {
        for row in 0..radius + 2 {
            assert_eq!(rounded_row_inset(radius, row), float_inset(radius, row), "r={radius} row={row}");
        }
    }
    assert_eq!(rounded_row_inset(5, 0), 3);
    assert_eq!(rounded_row_inset(5, 4), 0);
}

#[test]
fn spans_of_a_small_rounded_rect_are_exact() {
    let r = Rect::new(0, 0, 10, 10);
    assert_eq!(
        r.rounded_spans(3),
        vec![
            Rect::new(0, 3, 10, 4),
            Rect::new(1, 0, 8, 1),
            Rect::new(1, 9, 8, 1),
            Rect::new(0, 1, 10, 2),
            Rect::new(0, 7, 10, 2),
        ]
    );
}

#[test]
fn reaching_the_threshold_is_exact() {
    let origin = point(10.0, 10.0);
    assert!(!origin.reaches(point(11.0, 11.0), 3 * 256));
    assert!(origin.reaches(point(13.0, 10.0), 3 * 256));
    assert!(!origin.reaches(Point::new(12 * 256 + 255, 10 * 256), 3 * 256));
    assert!(origin.reaches(point(10.0, 10.0), 0));
}

#[test]
fn right_and_bottom_saturate() {
    let r = Rect::new(i32::MAX - 1, i32::MAX - 1, 10, 10);
    assert_eq!(r.right(), i32::MAX);
    assert_eq!(r.bottom(), i32::MAX);
    assert_eq!(Rect::new(2, 3, 4, 5).right(), 6);
}

#[test]
fn translate_and_overlap() {
    let r = Rect::new(10, 10, 5, 5).translate(-12, -20);
    assert_eq!(r, Rect::new(-2, -10, 5, 5));
    assert!(!r.overlaps_surface(100, 100));
    assert!(Rect::new(-2, -2, 5, 5).overlaps_surface(1, 1));
    assert!(!Rect::new(0, 0, 0, 5).overlaps_surface(10, 10));
}
