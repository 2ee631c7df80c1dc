use selector::config::{Color, Config};
use selector::geometry::Rect;
use selector::render::{coverage, draw, lerp, BYTES_PER_PIXEL};

const W: u32 = 8;
const H: u32 = 8;

fn canvas() -> Vec<u8> {
    vec![0xAB; (W * H) as usize * BYTES_PER_PIXEL]
}

fn pixel(canvas: &[u8], x: u32, y: u32) -> [u8; 4] {
    let offset = (y * W + x) as usize * BYTES_PER_PIXEL;
    canvas[offset..offset + 4].try_into().unwrap()
}

fn config() -> Config {
    Config {
        fill: Color::rgba(0x00, 0x00, 0xff, 0xff),
        border: Color::rgba(0xff, 0x00, 0x00, 0xff),
        border_width: 1,
        ..Config::default()
    }
}

#[test]
fn no_selection_clears_stale_pixels() {
    let mut c = canvas();
    draw(&mut c, W, H, None, &config());
    assert!(c.iter().all(|&b| b == 0));
}

#[test]
fn selection_paints_border_outside_and_fill_inside() {
    let mut c = canvas();
    let cfg = config();
    draw(&mut c, W, H, Some(Rect::new(2, 2, 4, 4)), &cfg);

    assert_eq!(pixel(&c, 2, 2), cfg.border.to_argb8888(), "top-left border");
    assert_eq!(
        pixel(&c, 5, 5),
        cfg.border.to_argb8888(),
        "bottom-right border"
    );
    assert_eq!(pixel(&c, 3, 3), cfg.fill.to_argb8888(), "interior");
    assert_eq!(pixel(&c, 0, 0), [0; 4], "outside the selection");
    assert_eq!(pixel(&c, 6, 6), [0; 4], "just past the selection");
}

#[test]
fn a_selection_thinner_than_its_border_is_all_border() {
    let mut c = canvas();
    let cfg = Config {
        border_width: 4,
        ..config()
    };
    draw(&mut c, W, H, Some(Rect::new(1, 1, 2, 2)), &cfg);

    for (x, y) in [(1, 1), (2, 1), (1, 2), (2, 2)] {
        assert_eq!(pixel(&c, x, y), cfg.border.to_argb8888());
    }
}

#[test]
fn zero_border_width_fills_the_whole_selection() {
    let mut c = canvas();
    let cfg = Config {
        border_width: 0,
        ..config()
    };
    draw(&mut c, W, H, Some(Rect::new(2, 2, 4, 4)), &cfg);

    assert_eq!(pixel(&c, 2, 2), cfg.fill.to_argb8888());
    assert_eq!(pixel(&c, 5, 5), cfg.fill.to_argb8888());
}

fn sized_canvas(w: u32, h: u32) -> Vec<u8> {
    vec![0xAB; (w * h) as usize * BYTES_PER_PIXEL]
}

fn pixel_at(canvas: &[u8], w: u32, x: u32, y: u32) -> [u8; 4] {
    let offset = (y * w + x) as usize * BYTES_PER_PIXEL;
    canvas[offset..offset + 4].try_into().unwrap()
}

#[test]
fn a_radius_rounds_away_the_corner_a_square_box_keeps() {
    let square = Config {
        border_width: 0,
        corner_radius: 0,
        ..config()
    };
    let rounded = Config {
        corner_radius: 5,
        ..square.clone()
    };

    let (w, h) = (16, 16);
    let selection = Some(Rect::new(0, 0, w, h));

    let mut c = sized_canvas(w, h);
    draw(&mut c, w, h, selection, &square);
    assert_eq!(pixel_at(&c, w, 0, 0), square.fill.to_argb8888());

    let mut c = sized_canvas(w, h);
    draw(&mut c, w, h, selection, &rounded);
    assert_eq!(pixel_at(&c, w, 0, 0), [0; 4], "the corner is cut away");
    assert_eq!(
        pixel_at(&c, w, 8, 0),
        rounded.fill.to_argb8888(),
        "the straight edge is untouched"
    );
    assert_eq!(
        pixel_at(&c, w, 8, 8),
        rounded.fill.to_argb8888(),
        "interior"
    );
}

#[test]
fn the_border_ring_stays_concentric_on_the_curve() {
    let cfg = Config {
        border_width: 2,
        corner_radius: 6,
        ..config()
    };

    let (w, h) = (24, 24);
    let mut c = sized_canvas(w, h);
    draw(&mut c, w, h, Some(Rect::new(0, 0, w, h)), &cfg);

    let border = cfg.border.to_argb8888();
    let fill = cfg.fill.to_argb8888();

    assert_eq!(pixel_at(&c, w, 0, 0), [0; 4], "outside the outer curve");
    assert_eq!(pixel_at(&c, w, 2, 2), border, "between the two curves");
    assert_eq!(pixel_at(&c, w, 4, 4), fill, "inside the inner curve");
    assert_eq!(pixel_at(&c, w, 12, 0), border, "the straight edge");
    assert_eq!(pixel_at(&c, w, 12, 2), fill, "inside the straight edge");
}

#[test]
fn a_radius_larger_than_the_selection_is_clamped() {
    let cfg = Config {
        border_width: 0,
        corner_radius: 100,
        ..config()
    };

    let mut c = canvas();
    draw(&mut c, W, H, Some(Rect::new(0, 0, W, H)), &cfg);

    assert_eq!(pixel(&c, 0, 0), [0; 4], "a circle has no corner");
    assert_eq!(pixel(&c, 4, 4), cfg.fill.to_argb8888(), "centre is filled");
}

#[test]
fn an_overhanging_rounded_selection_does_not_wrap() {
    let cfg = Config {
        border_width: 0,
        corner_radius: 2,
        ..config()
    };

    let mut c = canvas();
    draw(&mut c, W, H, Some(Rect::new(6, 0, 8, 4)), &cfg);

    assert_eq!(pixel(&c, 0, 1), [0; 4], "must not wrap onto the next row");
}

#[test]
fn an_overhanging_selection_is_clipped_not_wrapped() {
    let mut c = canvas();
    let cfg = Config {
        border_width: 0,
        ..config()
    };
    draw(&mut c, W, H, Some(Rect::new(6, 0, 8, 1)), &cfg);

    assert_eq!(pixel(&c, 7, 0), cfg.fill.to_argb8888());
    assert_eq!(pixel(&c, 0, 1), [0; 4], "must not wrap onto the next row");
}

#[test]
fn an_overhanging_selection_keeps_its_true_corners() {
    let cfg = Config {
        border_width: 0,
        corner_radius: 3,
        ..config()
    };
    let mut c = canvas();
    // The selection runs past the right edge: its left corners are rounded,
    // the right edge is a straight cut.
    draw(&mut c, W, H, Some(Rect::new(2, 0, 20, 8)), &cfg);
    assert_eq!(pixel(&c, 2, 0), [0; 4], "the true corner is cut away");
    assert_eq!(pixel(&c, 7, 0), cfg.fill.to_argb8888(), "no corner at the cut");
    assert_eq!(pixel(&c, 7, 7), cfg.fill.to_argb8888(), "no corner at the cut");
}

#[test]
fn a_short_buffer_is_left_alone_past_its_end() {
    let mut c = vec![0xAB; 10];
    let cfg = Config { border_width: 0, ..config() };
    draw(&mut c, 2, 2, Some(Rect::new(0, 0, 2, 2)), &cfg);
    // Row 0 fits (8 bytes) and is painted; row 1 does not and stays clear.
    assert_eq!(&c[0..4], &cfg.fill.to_argb8888());
    assert_eq!(&c[4..8], &cfg.fill.to_argb8888());
    assert_eq!(&c[8..10], &[0, 0]);
}

/// `round(255 * clamp(r + 1/2 - distance, 0, 1))`, in floats.
fn float_coverage(radius: u32, row: u32, col: u32) -> u8 {
    let extent = radius as f64;
    let dy = extent - (row as f64 + 0.5);
    let dx = extent - (col as f64 + 0.5);
    let value = extent - dx.hypot(dy) + 0.5;
    (value.clamp(0.0, 1.0) * 255.0).round() as u8
}

#[test]
fn corner_coverage_matches_the_circle() {
    for radius in 1..48 {
        for row in 0..radius {
            for col in 0..radius {
                assert_eq!(
                    coverage(radius, row, col),
                    float_coverage(radius, row, col),
                    "r={radius} row={row} col={col}"
                );
            }
        }
    }
    assert_eq!(coverage(1, 0, 0), 202);
    assert_eq!(coverage(6, 5, 5), 255);
    assert_eq!(coverage(6, 0, 0), 0);
}

#[test]
fn lerp_rounds_to_nearest() {
    assert_eq!(lerp(0, 255, 128), 128);
    assert_eq!(lerp(10, 200, 0), 10);
    assert_eq!(lerp(10, 200, 255), 200);
    assert_eq!(lerp(255, 0, 64), 191);
}

#[test]
fn the_blur_staircase_meets_the_painted_edge() {
    for radius in 1..40 {
        for row in 0..radius {
            for col in 0..radius {
                let in_region = col >= selector::geometry::rounded_row_inset(radius, row);
                assert_eq!(in_region, coverage(radius, row, col) >= 128, "r={radius} row={row} col={col}");
            }
        }
    }
}
