//! Software rendering of the selection into an `Argb8888` canvas: rows of
//! `width` pixels, four bytes each (blue, green, red, alpha, premultiplied).
use vstd::prelude::*;
use vstd::arithmetic::div_mod::{
    lemma_fundamental_div_mod,
    lemma_fundamental_div_mod_converse,
    lemma_mod_bound,
    lemma_div_pos_is_pos,
};

use crate::config::{premultiplied, Color, Config};
use crate::geometry::{
    lemma_inset_fits_grows, lemma_least_inset_properties, max_int, min_int, row_inset, inset_fits,
    Rect,
};

verus! {

pub const BYTES_PER_PIXEL: usize = 4;

/// Column of the pixel that byte `i` of a canvas `width` pixels wide belongs to.
#[verifier::opaque]
pub open spec fn pixel_x(i: int, width: int) -> int {
    (i / 4) % width
}

/// Row of the pixel that byte `i` of a canvas `width` pixels wide belongs to.
#[verifier::opaque]
pub open spec fn pixel_y(i: int, width: int) -> int {
    (i / 4) / width
}

/// Which of its pixel's four bytes byte `i` is.
#[verifier::opaque]
pub open spec fn channel(i: int) -> int {
    i % 4
}

/// Every byte sits in exactly one pixel and channel.
pub proof fn lemma_byte_decompose(i: int, width: int)
    requires
        0 <= i,
        0 < width,
    ensures
        i == (pixel_y(i, width) * width + pixel_x(i, width)) * 4 + channel(i),
        0 <= pixel_x(i, width) < width,
        0 <= pixel_y(i, width),
        0 <= channel(i) < 4,
{
    reveal(pixel_x);
    reveal(pixel_y);
    reveal(channel);
    let p = i / 4;
    lemma_fundamental_div_mod(i, 4);
    lemma_fundamental_div_mod(p, width);
    lemma_mod_bound(i, 4);
    lemma_mod_bound(p, width);
    lemma_div_pos_is_pos(i, 4);
    lemma_div_pos_is_pos(p, width);
    let q = p / width;
    let r = p % width;
    assert(q * width == width * q) by (nonlinear_arith);
}

/// The bytes of pixel `(x, y)` are the four from `(y * width + x) * 4`.
pub proof fn lemma_byte_coords(i: int, width: int, x: int, y: int, c: int)
    requires
        0 < width,
        0 <= x < width,
        0 <= y,
        0 <= c < 4,
        i == (y * width + x) * 4 + c,
    ensures
        pixel_x(i, width) == x,
        pixel_y(i, width) == y,
        channel(i) == c,
{
    reveal(pixel_x);
    reveal(pixel_y);
    reveal(channel);
    assert(0 <= y * width) by (nonlinear_arith)
        requires 0 <= y, 0 < width;
    lemma_fundamental_div_mod_converse(i, 4, y * width + x, c);
    lemma_fundamental_div_mod_converse(y * width + x, width, y, x);
}

/// The bytes from `(y * width + left) * 4` to `(y * width + right) * 4` are
/// exactly those of the pixels of row `y` from `left` to `right`.
pub proof fn lemma_row_bytes(i: int, width: int, y: int, left: int, right: int)
    requires
        0 <= i,
        0 <= left <= right <= width,
        0 < width,
        0 <= y,
    ensures
        ((y * width + left) * 4 <= i < (y * width + right) * 4) <==> (pixel_y(i, width) == y
            && left <= pixel_x(i, width) < right),
        (y * width + left) * 4 <= i < (y * width + right) * 4 ==> channel(i) == (i - (y * width
            + left) * 4) % 4,
{
    let start = (y * width + left) * 4;
    let end = (y * width + right) * 4;
    if start <= i < end {
        let m = i - start;
        let q = m / 4;
        let c = m % 4;
        lemma_fundamental_div_mod(m, 4);
        lemma_mod_bound(m, 4);
        lemma_div_pos_is_pos(m, 4);
        assert(q < right - left);
        lemma_byte_coords(i, width, left + q, y, c);
    }
    lemma_byte_decompose(i, width);
    let py = pixel_y(i, width);
    let px = pixel_x(i, width);
    if py == y && left <= px < right {
        assert(start <= i < end);
    }
}

/// Whether the whole of pixel `(x, y)` lies on the canvas and in its buffer.
pub open spec fn fits_at(width: int, height: int, len: int, x: int, y: int) -> bool {
    0 <= x < width && 0 <= y < height && (y * width + x) * 4 + 4 <= len
}

/// Whether row `y` of a canvas `width` pixels wide lies in a buffer of `len`
/// bytes up to column `right`.
pub open spec fn row_in_buffer(width: int, len: int, y: int, right: int) -> bool {
    (y * width + right) * 4 <= len
}

/// Whether `fill_rect` paints pixel `(x, y)`: the pixel lies in the box
/// `[left, right) x [top, bottom)` clipped to the canvas, and the whole clipped
/// row holding it lies in the buffer (a row that does not, and every row after
/// it, is left alone).
pub open spec fn in_fill(
    width: int,
    height: int,
    len: int,
    left: int,
    top: int,
    right: int,
    bottom: int,
    x: int,
    y: int,
) -> bool {
    let l = max_int(left, 0);
    let r = min_int(right, width);
    let t = max_int(top, 0);
    let b = min_int(bottom, height);
    &&& l <= x < r
    &&& t <= y < b
    &&& row_in_buffer(width, len, y, r)
}

/// `t/255` of the way from `from` to `to`, rounded to nearest.
pub open spec fn lerp_value(from: int, to: int, t: int) -> int {
    (from * (255 - t) + to * t + 127) / 255
}

pub proof fn lemma_lerp_bounds(from: int, to: int, t: int)
    requires
        0 <= from <= 255,
        0 <= to <= 255,
        0 <= t <= 255,
    ensures
        0 <= lerp_value(from, to, t) <= 255,
        t == 0 ==> lerp_value(from, to, t) == from,
        t == 255 ==> lerp_value(from, to, t) == to,
{
    assert(0 <= from * (255 - t) + to * t <= 255 * 255) by (nonlinear_arith)
        requires 0 <= from <= 255, 0 <= to <= 255, 0 <= t <= 255;
    if t == 0 {
        assert(from * (255 - t) + to * t + 127 == from * 255 + 127);
        lemma_fundamental_div_mod_converse(from * 255 + 127, 255, from, 127);
    }
    if t == 255 {
        assert(from * (255 - t) == 0) by (nonlinear_arith)
            requires t == 255;
        assert(from * (255 - t) + to * t + 127 == to * 255 + 127);
        lemma_fundamental_div_mod_converse(to * 255 + 127, 255, to, 127);
    }
}

/// `t/255` of the way from `from` to `to`, rounded to nearest.
pub fn lerp(from: u8, to: u8, t: u8) -> (v: u8)
    ensures
        v == lerp_value(from as int, to as int, t as int),
{
    proof {
        lemma_lerp_bounds(from as int, to as int, t as int);
    }
    let t = t as u32;
    ((from as u32 * (255 - t) + to as u32 * t + 127) / 255) as u8
}

/// Paints `pixel` over every pixel of the box `[left, right) x [top, bottom)`
/// that lies on the canvas, row by row, stopping at the first clipped row that
/// runs past the end of the buffer.
fn fill_rect(
    canvas: &mut [u8],
    canvas_width: u32,
    canvas_height: u32,
    left: i64,
    top: i64,
    right: i64,
    bottom: i64,
    pixel: [u8; 4],
)
    ensures
        final(canvas)@.len() == old(canvas)@.len(),
        forall|i: int|
            0 <= i < old(canvas)@.len() ==> #[trigger] final(canvas)@[i] == if in_fill(
                canvas_width as int,
                canvas_height as int,
                old(canvas)@.len() as int,
                left as int,
                top as int,
                right as int,
                bottom as int,
                pixel_x(i, canvas_width as int),
                pixel_y(i, canvas_width as int),
            ) {
                pixel@[channel(i)]
            } else {
                old(canvas)@[i]
            },
{
    let ghost w = canvas_width as int;
    let ghost h = canvas_height as int;
    let ghost len = canvas@.len() as int;
    let ghost before = canvas@;
    let l: i64 = if left > 0 {
        left
    } else {
        0
    };
    let r: i64 = if right < canvas_width as i64 {
        right
    } else {
        canvas_width as i64
    };
    let t: i64 = if top > 0 {
        top
    } else {
        0
    };
    let b: i64 = if bottom < canvas_height as i64 {
        bottom
    } else {
        canvas_height as i64
    };
    if l >= r || t >= b {
        return;
    }
    let cw: u128 = canvas_width as u128;
    let mut row: i64 = t;
    while row < b
        invariant
            0 <= l < r <= w,
            0 <= t <= row <= b <= h,
            w == canvas_width,
            h == canvas_height,
            cw == w,
            len == canvas@.len(),
            before == old(canvas)@,
            len == before.len(),
            l == max_int(left as int, 0),
            r == min_int(right as int, w),
            t == max_int(top as int, 0),
            b == min_int(bottom as int, h),
            forall|y: int| t <= y < row ==> #[trigger] row_in_buffer(w, len, y, r as int),
            forall|i: int|
                0 <= i < len ==> #[trigger] canvas@[i] == if in_fill(
                    w,
                    h,
                    len,
                    left as int,
                    top as int,
                    right as int,
                    bottom as int,
                    pixel_x(i, w),
                    pixel_y(i, w),
                ) && pixel_y(i, w) < row {
                    pixel@[channel(i)]
                } else {
                    before[i]
                },
        decreases b - row,
    {
        proof {
            assert(0 <= row as int * w <= (h - 1) * w) by (nonlinear_arith)
                requires 0 <= row < h, 0 <= w;
            assert((h - 1) * w <= 0xffff_ffff * 0xffff_ffff) by (nonlinear_arith)
                requires h <= 0xffff_ffff, 0 <= w <= 0xffff_ffff;
        }
        let end: u128 = (row as u128 * cw + r as u128) * 4;
        if end > canvas.len() as u128 {
            proof {
                assert forall|y: int| row <= y implies !#[trigger] row_in_buffer(w, len, y, r as int) by {
                    assert(row * w <= y * w) by (nonlinear_arith)
                        requires row <= y, 0 <= w;
                }
            }
            return;
        }
        let start: usize = ((row as u128 * cw + l as u128) * 4) as usize;
        let end: usize = end as usize;
        let ghost mid = canvas@;
        let mut k: usize = start;
        while k < end
            invariant
                start <= k <= end <= len,
                start == (row * w + l) * 4,
                end == (row * w + r) * 4,
                len == canvas@.len(),
                len == mid.len(),
                forall|i: int|
                    0 <= i < len ==> #[trigger] canvas@[i] == if start <= i < k {
                        pixel@[(i - start) % 4]
                    } else {
                        mid[i]
                    },
            decreases end - k,
        {
            canvas[k] = pixel[(k - start) % 4];
            k = k + 1;
        }
        proof {
            assert forall|i: int| 0 <= i < len implies #[trigger] canvas@[i] == if in_fill(
                w,
                h,
                len,
                left as int,
                top as int,
                right as int,
                bottom as int,
                pixel_x(i, w),
                pixel_y(i, w),
            ) && pixel_y(i, w) < row + 1 {
                pixel@[channel(i)]
            } else {
                before[i]
            } by {
                lemma_row_bytes(i, w, row as int, l as int, r as int);
                lemma_byte_decompose(i, w);
            }
        }
        row = row + 1;
    }
}

/// Blends `pixel` over pixel `(x, y)` with `coverage/255` weight, channel by
/// channel; a pixel off the canvas or past the end of the buffer is left alone.
fn blend_pixel(
    canvas: &mut [u8],
    canvas_width: u32,
    canvas_height: u32,
    x: i64,
    y: i64,
    pixel: [u8; 4],
    coverage: u8,
)
    ensures
        final(canvas)@.len() == old(canvas)@.len(),
        forall|i: int|
            0 <= i < old(canvas)@.len() ==> #[trigger] final(canvas)@[i] == if fits_at(
                canvas_width as int,
                canvas_height as int,
                old(canvas)@.len() as int,
                x as int,
                y as int,
            ) && pixel_x(i, canvas_width as int) == x && pixel_y(i, canvas_width as int) == y {
                lerp_value(old(canvas)@[i] as int, pixel@[channel(i)] as int, coverage as int) as u8
            } else {
                old(canvas)@[i]
            },
{
    let ghost w = canvas_width as int;
    let ghost len = canvas@.len() as int;
    if x < 0 || y < 0 || x >= canvas_width as i64 || y >= canvas_height as i64 {
        return;
    }
    proof {
        assert(0 <= y * w <= 0xffff_ffff * 0xffff_ffff) by (nonlinear_arith)
            requires 0 <= y <= 0xffff_ffff, 0 <= w <= 0xffff_ffff;
    }
    let offset: u128 = (y as u128 * canvas_width as u128 + x as u128) * 4;
    if offset + 4 > canvas.len() as u128 {
        return;
    }
    let offset: usize = offset as usize;
    let ghost before = canvas@;
    let c0 = lerp(canvas[offset], pixel[0], coverage);
    canvas[offset] = c0;
    let c1 = lerp(canvas[offset + 1], pixel[1], coverage);
    canvas[offset + 1] = c1;
    let c2 = lerp(canvas[offset + 2], pixel[2], coverage);
    canvas[offset + 2] = c2;
    let c3 = lerp(canvas[offset + 3], pixel[3], coverage);
    canvas[offset + 3] = c3;
    proof {
        assert forall|i: int| 0 <= i < len implies #[trigger] canvas@[i] == if pixel_x(i, w) == x
            && pixel_y(i, w) == y {
            lerp_value(before[i] as int, pixel@[channel(i)] as int, coverage as int) as u8
        } else {
            before[i]
        } by {
            lemma_row_bytes(i, w, y as int, x as int, x + 1);
        }
    }
}

/// Whether `n/255` is at most the rounded share of corner pixel `(row, col)`
/// that lies inside the curve of a corner of radius `radius`. The pixel's
/// centre lies `dx/2` and `dy/2` pixels from the corner's centre (in half
/// pixels, `dx = 2r - 2col - 1` and `dy = 2r - 2row - 1`), and its share is
/// `clamp(r + 1/2 - sqrt(dx^2 + dy^2)/2, 0, 1)`; rounding half up, `n` is at
/// most `255` times it rounded when `255 * sqrt(dx^2 + dy^2) <= 255(2r + 1) + 1 - 2n`,
/// decided here by squaring, without a square root.
pub open spec fn coverage_fits(radius: int, row: int, col: int, n: int) -> bool {
    let dx = 2 * radius - 2 * col - 1;
    let dy = 2 * radius - 2 * row - 1;
    let k = 255 * (2 * radius + 1) + 1 - 2 * n;
    n == 0 || (k >= 0 && 65025 * (dx * dx + dy * dy) <= k * k)
}

/// The greatest coverage from `n` downward that fits.
pub open spec fn coverage_from(radius: int, row: int, col: int, n: int) -> int
    decreases n,
{
    if n <= 0 {
        0
    } else if coverage_fits(radius, row, col, n) {
        n
    } else {
        coverage_from(radius, row, col, n - 1)
    }
}

/// How much of corner pixel `(row, col)` of a corner of radius `radius` the
/// rounded rectangle covers, in 255ths: `round(255 * clamp(r + 1/2 - d, 0, 1))`
/// with `d` the distance from the corner's centre to the pixel's centre.
pub open spec fn corner_coverage(radius: int, row: int, col: int) -> int {
    coverage_from(radius, row, col, 255)
}

/// A coverage that fits stays fitting when it shrinks.
pub proof fn lemma_coverage_fits_shrinks(radius: int, row: int, col: int, n1: int, n2: int)
    requires
        coverage_fits(radius, row, col, n2),
        0 <= n1 <= n2,
    ensures
        coverage_fits(radius, row, col, n1),
{
    let k1 = 255 * (2 * radius + 1) + 1 - 2 * n1;
    let k2 = 255 * (2 * radius + 1) + 1 - 2 * n2;
    if n1 > 0 {
        crate::geometry::lemma_square_monotone(k2, k1);
    }
}

pub proof fn lemma_coverage_from_is(radius: int, row: int, col: int, n: int, m: int)
    requires
        0 <= m <= n,
        coverage_fits(radius, row, col, m),
        forall|j: int| m < j <= n ==> !#[trigger] coverage_fits(radius, row, col, j),
    ensures
        coverage_from(radius, row, col, n) == m,
    decreases n,
{
    if n > m {
        lemma_coverage_from_is(radius, row, col, n - 1, m);
    }
}

pub proof fn lemma_coverage_range(radius: int, row: int, col: int, n: int)
    ensures
        0 <= coverage_from(radius, row, col, n) <= max_int(n, 0),
    decreases n,
{
    if n > 0 {
        lemma_coverage_range(radius, row, col, n - 1);
    }
}

/// Whether coverage `n` fits, computed exactly in wide integers.
fn coverage_fits_exec(radius: u32, row: u32, col: u32, n: u32) -> (fits: bool)
    requires
        row < radius,
        col < radius,
        n <= 255,
    ensures
        fits == coverage_fits(radius as int, row as int, col as int, n as int),
{
    if n == 0 {
        return true;
    }
    let r: u128 = radius as u128;
    let dx: u128 = 2 * r - 2 * col as u128 - 1;
    let dy: u128 = 2 * r - 2 * row as u128 - 1;
    let top: u128 = 255 * (2 * r + 1) + 1;
    if top < 2 * n as u128 {
        return false;
    }
    let k: u128 = top - 2 * n as u128;
    proof {
        assert(dx * dx <= 0x2_0000_0000 * 0x2_0000_0000) by (nonlinear_arith)
            requires dx <= 0x2_0000_0000;
        assert(dy * dy <= 0x2_0000_0000 * 0x2_0000_0000) by (nonlinear_arith)
            requires dy <= 0x2_0000_0000;
        assert(k * k <= 0x200_0000_0000 * 0x200_0000_0000) by (nonlinear_arith)
            requires k <= 0x200_0000_0000;
    }
    65025 * (dx * dx + dy * dy) <= k * k
}

/// How much of corner pixel `(row, col)` the rounded rectangle covers, in 255ths.
pub fn coverage(radius: u32, row: u32, col: u32) -> (c: u8)
    requires
        row < radius,
        col < radius,
    ensures
        c == corner_coverage(radius as int, row as int, col as int),
{
    let mut lo: u32 = 0;
    let mut hi: u32 = 255;
    while lo < hi
        invariant
            0 <= lo <= hi <= 255,
            row < radius,
            col < radius,
            coverage_fits(radius as int, row as int, col as int, lo as int),
            forall|j: int| hi < j <= 255 ==> !#[trigger] coverage_fits(radius as int, row as int, col as int, j),
        decreases hi - lo,
    {
        let mid = lo + (hi - lo + 1) / 2;
        if coverage_fits_exec(radius, row, col, mid) {
            lo = mid;
        } else {
            proof {
                assert forall|j: int| mid - 1 < j <= 255 implies !#[trigger] coverage_fits(
                    radius as int,
                    row as int,
                    col as int,
                    j,
                ) by {
                    if coverage_fits(radius as int, row as int, col as int, j) && j <= hi {
                        lemma_coverage_fits_shrinks(radius as int, row as int, col as int, mid as int, j);
                    }
                }
            }
            hi = mid - 1;
        }
    }
    proof {
        lemma_coverage_from_is(radius as int, row as int, col as int, 255, lo as int);
    }
    lo as u8
}

/// The corner radius a box uses: at most half its shorter side.
pub open spec fn fitted_radius(radius: int, width: int, height: int) -> int {
    min_int(min_int(radius, width / 2), height / 2)
}

/// Which row of its corner a pixel row is, counted from the nearer
/// horizontal edge of the box `[top, bottom)`.
pub open spec fn corner_row(top: int, bottom: int, radius: int, y: int) -> int {
    if y < top + radius {
        y - top
    } else {
        bottom - 1 - y
    }
}

/// Which column of its corner a pixel column is, counted from the nearer
/// vertical edge of the box `[left, right)`.
pub open spec fn corner_col(left: int, right: int, radius: int, x: int) -> int {
    if x < left + radius {
        x - left
    } else {
        right - 1 - x
    }
}

/// Byte `c` of pixel `(x, y)` after `fill_rounded_rect` paints `px` over a box
/// at `(left, top)`, `width` by `height`, with corners of radius `radius`
/// (clamped to half the shorter side), where the byte held `prev`: the middle
/// band and the straight part of each corner row are painted as `fill_rect`
/// paints them, each corner pixel is blended with its coverage, and
/// everything else keeps `prev`.
#[verifier::opaque]
pub open spec fn rounded_fill_byte(
    cw: int,
    ch: int,
    len: int,
    left: int,
    top: int,
    width: int,
    height: int,
    radius: int,
    px: Seq<u8>,
    x: int,
    y: int,
    c: int,
    prev: u8,
) -> u8 {
    let r = fitted_radius(radius, width, height);
    let right = left + width;
    let bottom = top + height;
    if r <= 0 {
        if in_fill(cw, ch, len, left, top, right, bottom, x, y) {
            px[c]
        } else {
            prev
        }
    } else if top + r <= y < bottom - r {
        if in_fill(cw, ch, len, left, top + r, right, bottom - r, x, y) {
            px[c]
        } else {
            prev
        }
    } else if (top <= y < top + r) || (bottom - r <= y < bottom) {
        if left + r <= x < right - r {
            if in_fill(cw, ch, len, left + r, y, right - r, y + 1, x, y) {
                px[c]
            } else {
                prev
            }
        } else if (left <= x < left + r) || (right - r <= x < right) {
            let cov = corner_coverage(
                r,
                corner_row(top, bottom, r, y),
                corner_col(left, right, r, x),
            );
            if cov > 0 && fits_at(cw, ch, len, x, y) {
                lerp_value(prev as int, px[c] as int, cov) as u8
            } else {
                prev
            }
        } else {
            prev
        }
    } else {
        prev
    }
}

/// Which pixels `fill_rounded_rect` has settled once it has handled the band,
/// the corner rows before `rows`, and of row `rows` the top span (`stage >= 1`),
/// the bottom span (`stage >= 2`) and the corner columns before `cols`.
pub open spec fn rounded_settled(
    left: int,
    top: int,
    width: int,
    height: int,
    r: int,
    rows: int,
    stage: int,
    cols: int,
    x: int,
    y: int,
) -> bool {
    let right = left + width;
    let bottom = top + height;
    if (top <= y < top + r) || (bottom - r <= y < bottom) {
        let row = corner_row(top, bottom, r, y);
        if row < rows {
            true
        } else if row > rows {
            false
        } else if left + r <= x < right - r {
            stage >= 2 || (stage >= 1 && y < top + r)
        } else if (left <= x < left + r) || (right - r <= x < right) {
            stage >= 2 && corner_col(left, right, r, x) < cols
        } else {
            true
        }
    } else {
        true
    }
}

/// Paints `pixel` over the box at `(left, top)`, `width` by `height`, with its
/// corners rounded to `radius` (clamped to half the shorter side) and
/// antialiased; the box may reach past the canvas, which clips it.
fn fill_rounded_rect(
    canvas: &mut [u8],
    canvas_width: u32,
    canvas_height: u32,
    left: i64,
    top: i64,
    width: u32,
    height: u32,
    radius: u32,
    pixel: [u8; 4],
)
    requires
        -0x1_0000_0000 <= left <= 0x1_0000_0000,
        -0x1_0000_0000 <= top <= 0x1_0000_0000,
    ensures
        final(canvas)@.len() == old(canvas)@.len(),
        forall|i: int|
            0 <= i < old(canvas)@.len() ==> #[trigger] final(canvas)@[i] == rounded_fill_byte(
                canvas_width as int,
                canvas_height as int,
                old(canvas)@.len() as int,
                left as int,
                top as int,
                width as int,
                height as int,
                radius as int,
                pixel@,
                pixel_x(i, canvas_width as int),
                pixel_y(i, canvas_width as int),
                channel(i),
                old(canvas)@[i],
            ),
{
    let ghost cw = canvas_width as int;
    let ghost chh = canvas_height as int;
    let ghost len = canvas@.len() as int;
    let ghost before = canvas@;
    reveal(rounded_fill_byte);
    let mut r = radius;
    if r > width / 2 {
        r = width / 2;
    }
    if r > height / 2 {
        r = height / 2;
    }
    let right: i64 = left + width as i64;
    let bottom: i64 = top + height as i64;
    if r == 0 {
        fill_rect(canvas, canvas_width, canvas_height, left, top, right, bottom, pixel);
        return;
    }
    let edge: i64 = r as i64;
    fill_rect(canvas, canvas_width, canvas_height, left, top + edge, right, bottom - edge, pixel);
    let mut row: u32 = 0;
    while row < r
        invariant
            0 < r <= width / 2,
            r <= height / 2,
            r == fitted_radius(radius as int, width as int, height as int),
            row <= r,
            edge == r,
            right == left + width,
            bottom == top + height,
            cw == canvas_width,
            chh == canvas_height,
            len == canvas@.len(),
            len == before.len(),
            before == old(canvas)@,
            forall|i: int|
                0 <= i < len ==> #[trigger] canvas@[i] == if rounded_settled(
                    left as int,
                    top as int,
                    width as int,
                    height as int,
                    r as int,
                    row as int,
                    0,
                    0,
                    pixel_x(i, cw),
                    pixel_y(i, cw),
                ) {
                    rounded_fill_byte(
                        cw,
                        chh,
                        len,
                        left as int,
                        top as int,
                        width as int,
                        height as int,
                        radius as int,
                        pixel@,
                        pixel_x(i, cw),
                        pixel_y(i, cw),
                        channel(i),
                        before[i],
                    )
                } else {
                    before[i]
                },
        decreases r - row,
    {
        proof {
            reveal(rounded_fill_byte);
        }
        let y_top: i64 = top + row as i64;
        let y_bottom: i64 = bottom - 1 - row as i64;
        fill_rect(canvas, canvas_width, canvas_height, left + edge, y_top, right - edge, y_top + 1, pixel);
        fill_rect(
            canvas,
            canvas_width,
            canvas_height,
            left + edge,
            y_bottom,
            right - edge,
            y_bottom + 1,
            pixel,
        );
        let mut col: u32 = 0;
        while col < r
            invariant
                0 < r <= width / 2,
                r <= height / 2,
                r == fitted_radius(radius as int, width as int, height as int),
                row < r,
                col <= r,
                y_top == top + row,
                y_bottom == bottom - 1 - row,
                right == left + width,
                bottom == top + height,
                cw == canvas_width,
                chh == canvas_height,
                len == canvas@.len(),
                len == before.len(),
                forall|i: int|
                    0 <= i < len ==> #[trigger] canvas@[i] == if rounded_settled(
                        left as int,
                        top as int,
                        width as int,
                        height as int,
                        r as int,
                        row as int,
                        2,
                        col as int,
                        pixel_x(i, cw),
                        pixel_y(i, cw),
                    ) {
                        rounded_fill_byte(
                            cw,
                            chh,
                            len,
                            left as int,
                            top as int,
                            width as int,
                            height as int,
                            radius as int,
                            pixel@,
                            pixel_x(i, cw),
                            pixel_y(i, cw),
                            channel(i),
                            before[i],
                        )
                    } else {
                        before[i]
                    },
            decreases r - col,
        {
            proof {
                reveal(rounded_fill_byte);
            }
            let cov = coverage(r, row, col);
            if cov != 0 {
                let x_left: i64 = left + col as i64;
                let x_right: i64 = right - 1 - col as i64;
                blend_pixel(canvas, canvas_width, canvas_height, x_left, y_top, pixel, cov);
                blend_pixel(canvas, canvas_width, canvas_height, x_right, y_top, pixel, cov);
                blend_pixel(canvas, canvas_width, canvas_height, x_left, y_bottom, pixel, cov);
                blend_pixel(canvas, canvas_width, canvas_height, x_right, y_bottom, pixel, cov);
            }
            col = col + 1;
        }
        row = row + 1;
    }
}

/// A colour as the four bytes of one canvas pixel.
pub open spec fn color_bytes(c: Color) -> Seq<u8> {
    seq![
        premultiplied(c.b, c.a) as u8,
        premultiplied(c.g, c.a) as u8,
        premultiplied(c.r, c.a) as u8,
        c.a,
    ]
}

/// Byte `c` of pixel `(x, y)` of a canvas `cw` by `ch` pixels held in `len`
/// bytes, once the selection `rect` is drawn on it: nothing but zeros without a
/// selection or when none of it falls on the canvas; otherwise the outline
/// (the selection with its corners rounded, `border_width` wide, both clamped
/// to half the shorter side, skipped when transparent or zero wide), with the
/// fill over it (the selection shrunk by the outline, its corners rounded
/// concentrically, the radius less the outline, floored at zero). The
/// selection keeps its true geometry: what falls off the canvas is clipped.
pub open spec fn drawn_byte(
    cw: int,
    ch: int,
    len: int,
    rect: Option<Rect>,
    config: Config,
    x: int,
    y: int,
    c: int,
) -> u8 {
    match rect {
        None => 0,
        Some(r) => {
            if r.clamped_to(cw as u32, ch as u32).empty() {
                0
            } else {
                let inset = fitted_radius(config.border_width as int, r.width as int, r.height as int);
                let radius = fitted_radius(config.corner_radius as int, r.width as int, r.height as int);
                let under = if inset > 0 && config.border.a != 0 {
                    rounded_fill_byte(
                        cw,
                        ch,
                        len,
                        r.x as int,
                        r.y as int,
                        r.width as int,
                        r.height as int,
                        radius,
                        color_bytes(config.border),
                        x,
                        y,
                        c,
                        0,
                    )
                } else {
                    0
                };
                let iw = r.width - 2 * inset;
                let ih = r.height - 2 * inset;
                if iw > 0 && ih > 0 {
                    rounded_fill_byte(
                        cw,
                        ch,
                        len,
                        r.x + inset,
                        r.y + inset,
                        iw,
                        ih,
                        max_int(radius - inset, 0),
                        color_bytes(config.fill),
                        x,
                        y,
                        c,
                        under,
                    )
                } else {
                    under
                }
            }
        },
    }
}

/// Repaints the whole canvas: clears it, then draws the selection, if any,
/// as an outline in `config.border` around a fill in `config.fill`.
pub fn draw(
    canvas: &mut [u8],
    canvas_width: u32,
    canvas_height: u32,
    rect: Option<Rect>,
    config: &Config,
)
    requires
        rect is Some ==> canvas_width <= i32::MAX && canvas_height <= i32::MAX,
    ensures
        final(canvas)@.len() == old(canvas)@.len(),
        forall|i: int|
            0 <= i < old(canvas)@.len() ==> #[trigger] final(canvas)@[i] == drawn_byte(
                canvas_width as int,
                canvas_height as int,
                old(canvas)@.len() as int,
                rect,
                *config,
                pixel_x(i, canvas_width as int),
                pixel_y(i, canvas_width as int),
                channel(i),
            ),
{
    let n = canvas.len();
    let mut k: usize = 0;
    while k < n
        invariant
            k <= n,
            n == canvas@.len(),
            forall|i: int| 0 <= i < k ==> #[trigger] canvas@[i] == 0,
        decreases n - k,
    {
        canvas[k] = 0;
        k = k + 1;
    }
    let rect = match rect {
        Some(r) => r,
        None => {
            return;
        },
    };
    let visible = rect.clamp_to_surface(canvas_width, canvas_height);
    if visible.is_empty() {
        return;
    }
    let mut inset = config.border_width;
    if inset > rect.width / 2 {
        inset = rect.width / 2;
    }
    if inset > rect.height / 2 {
        inset = rect.height / 2;
    }
    let mut radius = config.corner_radius;
    if radius > rect.width / 2 {
        radius = rect.width / 2;
    }
    if radius > rect.height / 2 {
        radius = rect.height / 2;
    }
    if inset > 0 && !config.border.is_transparent() {
        fill_rounded_rect(
            canvas,
            canvas_width,
            canvas_height,
            rect.x as i64,
            rect.y as i64,
            rect.width,
            rect.height,
            radius,
            config.border.to_argb8888(),
        );
    }
    let interior = Rect::new(0, 0, rect.width - inset * 2, rect.height - inset * 2);
    if !interior.is_empty() {
        let inner_radius = if radius > inset {
            radius - inset
        } else {
            0
        };
        fill_rounded_rect(
            canvas,
            canvas_width,
            canvas_height,
            rect.x as i64 + inset as i64,
            rect.y as i64 + inset as i64,
            interior.width,
            interior.height,
            inner_radius,
            config.fill.to_argb8888(),
        );
    }
}

/// A rounded fill leaves every pixel outside its box as it was.
pub proof fn lemma_rounded_fill_stays_in_its_box(
    cw: int,
    ch: int,
    len: int,
    left: int,
    top: int,
    width: int,
    height: int,
    radius: int,
    px: Seq<u8>,
    x: int,
    y: int,
    c: int,
    prev: u8,
)
    requires
        0 <= width,
        0 <= height,
        !(left <= x < left + width && top <= y < top + height),
    ensures
        rounded_fill_byte(cw, ch, len, left, top, width, height, radius, px, x, y, c, prev) == prev,
{
    reveal(rounded_fill_byte);
}

/// Without a selection the canvas is cleared.
pub proof fn lemma_no_selection_clears(cw: int, ch: int, len: int, config: Config, x: int, y: int, c: int)
    ensures
        drawn_byte(cw, ch, len, None, config, x, y, c) == 0,
{
}

/// Nothing is drawn outside the selection: in particular, a selection that
/// runs past the canvas edge is clipped there, never wrapped onto the next row.
pub proof fn lemma_outside_the_selection_is_clear(
    cw: int,
    ch: int,
    len: int,
    rect: Rect,
    config: Config,
    x: int,
    y: int,
    c: int,
)
    requires
        !(rect.x <= x < rect.x + rect.width && rect.y <= y < rect.y + rect.height),
    ensures
        drawn_byte(cw, ch, len, Some(rect), config, x, y, c) == 0,
{
    let inset = fitted_radius(config.border_width as int, rect.width as int, rect.height as int);
    let radius = fitted_radius(config.corner_radius as int, rect.width as int, rect.height as int);
    lemma_rounded_fill_stays_in_its_box(
        cw,
        ch,
        len,
        rect.x as int,
        rect.y as int,
        rect.width as int,
        rect.height as int,
        radius,
        color_bytes(config.border),
        x,
        y,
        c,
        0,
    );
    let iw = rect.width - 2 * inset;
    let ih = rect.height - 2 * inset;
    if iw > 0 && ih > 0 {
        lemma_rounded_fill_stays_in_its_box(
            cw,
            ch,
            len,
            rect.x + inset,
            rect.y + inset,
            iw,
            ih,
            max_int(radius - inset, 0),
            color_bytes(config.fill),
            x,
            y,
            c,
            0,
        );
    }
}

/// In a buffer that holds the whole canvas, every row lies in it.
pub proof fn lemma_full_buffer_rows(cw: int, ch: int, y: int, right: int)
    requires
        0 <= y < ch,
        0 <= right <= cw,
    ensures
        row_in_buffer(cw, cw * ch * 4, y, right),
{
    assert((y * cw + right) * 4 <= cw * ch * 4) by (nonlinear_arith)
        requires 0 <= y < ch, 0 <= right <= cw;
}

/// A rounded fill paints its colour over every pixel of its straight middle
/// band that lies on the canvas in a row the buffer holds.
pub proof fn lemma_rounded_fill_band(
    cw: int,
    ch: int,
    len: int,
    left: int,
    top: int,
    width: int,
    height: int,
    radius: int,
    px: Seq<u8>,
    x: int,
    y: int,
    c: int,
    prev: u8,
)
    requires
        0 <= x < cw,
        0 <= y < ch,
        left <= x < left + width,
        top + max_int(fitted_radius(radius, width, height), 0) <= y < top + height - max_int(
            fitted_radius(radius, width, height),
            0,
        ),
        row_in_buffer(cw, len, y, min_int(left + width, cw)),
    ensures
        rounded_fill_byte(cw, ch, len, left, top, width, height, radius, px, x, y, c, prev) == px[c],
{
    reveal(rounded_fill_byte);
}

/// The selection's fill shows wherever the interior is straight-edged (away
/// from its rounded corners) and the outline shows along the straight sides
/// beside it, on a canvas whose buffer holds it whole.
pub proof fn lemma_outline_outside_fill_inside(
    cw: int,
    ch: int,
    rect: Rect,
    config: Config,
    x: int,
    y: int,
    c: int,
)
    requires
        0 <= x < cw,
        0 <= y < ch,
        !rect.clamped_to(cw as u32, ch as u32).empty(),
    ensures
        ({
            let inset = fitted_radius(config.border_width as int, rect.width as int, rect.height as int);
            let radius = fitted_radius(config.corner_radius as int, rect.width as int, rect.height as int);
            let iw = rect.width - 2 * inset;
            let ih = rect.height - 2 * inset;
            let inner = fitted_radius(max_int(radius - inset, 0), iw, ih);
            let drawn = drawn_byte(cw, ch, cw * ch * 4, Some(rect), config, x, y, c);
            &&& iw > 0 && ih > 0 && rect.x + inset <= x < rect.x + rect.width - inset && rect.y + inset
                + inner <= y < rect.y + rect.height - inset - inner ==> drawn == color_bytes(config.fill)[c]
            &&& inset > 0 && config.border.a != 0 && rect.y + radius <= y < rect.y + rect.height - radius
                && ((rect.x <= x < rect.x + inset) || (rect.x + rect.width - inset <= x < rect.x
                + rect.width)) ==> drawn == color_bytes(config.border)[c]
        }),
{
    let len = cw * ch * 4;
    let inset = fitted_radius(config.border_width as int, rect.width as int, rect.height as int);
    let radius = fitted_radius(config.corner_radius as int, rect.width as int, rect.height as int);
    let iw = rect.width - 2 * inset;
    let ih = rect.height - 2 * inset;
    let inner_requested = max_int(radius - inset, 0);
    let inner = fitted_radius(inner_requested, iw, ih);
    let under = if inset > 0 && config.border.a != 0 {
        rounded_fill_byte(
            cw,
            ch,
            len,
            rect.x as int,
            rect.y as int,
            rect.width as int,
            rect.height as int,
            radius,
            color_bytes(config.border),
            x,
            y,
            c,
            0,
        )
    } else {
        0
    };
    if iw > 0 && ih > 0 && rect.x + inset <= x < rect.x + rect.width - inset && rect.y + inset + inner
        <= y < rect.y + rect.height - inset - inner {
        lemma_full_buffer_rows(cw, ch, y, min_int(rect.x + inset + iw, cw));
        lemma_rounded_fill_band(
            cw,
            ch,
            len,
            rect.x + inset,
            rect.y + inset,
            iw,
            ih,
            inner_requested,
            color_bytes(config.fill),
            x,
            y,
            c,
            under,
        );
    }
    if inset > 0 && config.border.a != 0 && rect.y + radius <= y < rect.y + rect.height - radius && ((
    rect.x <= x < rect.x + inset) || (rect.x + rect.width - inset <= x < rect.x + rect.width)) {
        lemma_full_buffer_rows(cw, ch, y, min_int(rect.x + rect.width, cw));
        lemma_rounded_fill_band(
            cw,
            ch,
            len,
            rect.x as int,
            rect.y as int,
            rect.width as int,
            rect.height as int,
            radius,
            color_bytes(config.border),
            x,
            y,
            c,
            0,
        );
        if iw > 0 && ih > 0 {
            lemma_rounded_fill_stays_in_its_box(
                cw,
                ch,
                len,
                rect.x + inset,
                rect.y + inset,
                iw,
                ih,
                inner_requested,
                color_bytes(config.fill),
                x,
                y,
                c,
                under,
            );
        }
    }
}

/// What the search from `n` down returns fits, and nothing between it and `n` does.
pub proof fn lemma_coverage_from_properties(radius: int, row: int, col: int, n: int)
    requires
        0 <= n,
    ensures
        0 <= coverage_from(radius, row, col, n) <= n,
        coverage_fits(radius, row, col, coverage_from(radius, row, col, n)),
        forall|j: int|
            coverage_from(radius, row, col, n) < j <= n ==> !#[trigger] coverage_fits(
                radius,
                row,
                col,
                j,
            ),
    decreases n,
{
    if n > 0 && !coverage_fits(radius, row, col, n) {
        lemma_coverage_from_properties(radius, row, col, n - 1);
    }
}

/// A corner pixel lies in the blurred region (the spans of the rounded
/// rectangle) exactly when the painted curve covers at least half of it: the
/// region's hard staircase and the antialiased edge never disagree by more
/// than half a pixel.
pub proof fn lemma_blur_region_meets_the_painted_edge(r: int, row: int, col: int)
    requires
        0 <= row < r,
        0 <= col < r,
    ensures
        (col >= row_inset(r, row)) <==> corner_coverage(r, row, col) >= 128,
{
    let t = 2 * r - 1 - 2 * col;
    let d = 2 * r - 2 * row - 1;
    assert(inset_fits(r, row, col) <==> coverage_fits(r, row, col, 128)) by {
        assert(255 * (2 * r + 1) + 1 - 2 * 128 == 510 * r);
        assert((65025 * (t * t + d * d) <= (510 * r) * (510 * r)) <==> (t * t <= (2 * r) * (2 * r)
            - d * d)) by (nonlinear_arith);
    }
    lemma_least_inset_properties(r, row, 0);
    let inset = row_inset(r, row);
    if col >= inset {
        lemma_inset_fits_grows(r, row, inset, col);
    }
    lemma_coverage_from_properties(r, row, col, 255);
    let cov = corner_coverage(r, row, col);
    if coverage_fits(r, row, col, 128) {
        assert(cov >= 128);
    }
    if cov >= 128 {
        lemma_coverage_fits_shrinks(r, row, col, 128, cov);
    }
}

/// The straight parts of a rounded fill are solid: on a canvas whose buffer
/// holds it whole, every pixel of the box in its middle band, or in the
/// straight stretch between the corners of an end row, takes the colour
/// outright, without blending.
pub proof fn lemma_rounded_fill_straight_parts_are_solid(
    cw: int,
    ch: int,
    left: int,
    top: int,
    width: int,
    height: int,
    radius: int,
    px: Seq<u8>,
    x: int,
    y: int,
    c: int,
    prev: u8,
)
    requires
        0 <= x < cw,
        0 <= y < ch,
        0 <= radius,
        0 <= width,
        0 <= height,
        left <= x < left + width,
        top <= y < top + height,
        ({
            let r = fitted_radius(radius, width, height);
            (top + r <= y < top + height - r) || (left + r <= x < left + width - r)
        }),
    ensures
        rounded_fill_byte(cw, ch, cw * ch * 4, left, top, width, height, radius, px, x, y, c, prev)
            == px[c],
{
    reveal(rounded_fill_byte);
    let r = fitted_radius(radius, width, height);
    lemma_full_buffer_rows(cw, ch, y, min_int(left + width, cw));
    lemma_full_buffer_rows(cw, ch, y, max_int(min_int(left + width - r, cw), 0));
}

/// Without a radius a rounded fill is a plain `fill_rect` of its box.
pub proof fn lemma_rounded_fill_without_radius(
    cw: int,
    ch: int,
    len: int,
    left: int,
    top: int,
    width: int,
    height: int,
    radius: int,
    px: Seq<u8>,
    x: int,
    y: int,
    c: int,
    prev: u8,
)
    requires
        fitted_radius(radius, width, height) <= 0,
    ensures
        rounded_fill_byte(cw, ch, len, left, top, width, height, radius, px, x, y, c, prev) == if in_fill(
            cw,
            ch,
            len,
            left,
            top,
            left + width,
            top + height,
            x,
            y,
        ) {
            px[c]
        } else {
            prev
        },
{
    reveal(rounded_fill_byte);
}

/// The outline keeps its full width on every side: on a canvas whose buffer
/// holds it whole, every pixel of the selection within `inset =
/// min(border_width, width/2, height/2)` of an edge, along the straight part
/// of that edge (clear of the corners of radius `min(corner_radius, width/2,
/// height/2)`), shows the outline colour; the fill never reaches into it.
pub proof fn lemma_outline_keeps_its_width(
    cw: int,
    ch: int,
    rect: Rect,
    config: Config,
    x: int,
    y: int,
    c: int,
)
    requires
        0 <= x < cw,
        0 <= y < ch,
        !rect.clamped_to(cw as u32, ch as u32).empty(),
        config.border.a != 0,
        min_int(min_int(config.border_width as int, rect.width as int / 2), rect.height as int / 2) > 0,
        rect.x <= x < rect.x + rect.width,
        rect.y <= y < rect.y + rect.height,
        ({
            let inset = min_int(min_int(config.border_width as int, rect.width as int / 2), rect.height as int / 2);
            !(rect.x + inset <= x < rect.x + rect.width - inset && rect.y + inset <= y < rect.y
                + rect.height - inset)
        }),
        ({
            let radius = min_int(min_int(config.corner_radius as int, rect.width as int / 2), rect.height as int / 2);
            (rect.y + radius <= y < rect.y + rect.height - radius) || (rect.x + radius <= x < rect.x
                + rect.width - radius)
        }),
    ensures
        drawn_byte(cw, ch, cw * ch * 4, Some(rect), config, x, y, c) == color_bytes(config.border)[c],
{
    let len = cw * ch * 4;
    let inset = fitted_radius(config.border_width as int, rect.width as int, rect.height as int);
    let radius = fitted_radius(config.corner_radius as int, rect.width as int, rect.height as int);
    assert(fitted_radius(radius, rect.width as int, rect.height as int) == radius);
    lemma_rounded_fill_straight_parts_are_solid(
        cw,
        ch,
        rect.x as int,
        rect.y as int,
        rect.width as int,
        rect.height as int,
        radius,
        color_bytes(config.border),
        x,
        y,
        c,
        0,
    );
    let iw = rect.width - 2 * inset;
    let ih = rect.height - 2 * inset;
    if iw > 0 && ih > 0 {
        lemma_rounded_fill_stays_in_its_box(
            cw,
            ch,
            len,
            rect.x + inset,
            rect.y + inset,
            iw,
            ih,
            max_int(radius - inset, 0),
            color_bytes(config.fill),
            x,
            y,
            c,
            color_bytes(config.border)[c],
        );
    }
}

} // verus!
