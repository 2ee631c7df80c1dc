//! Points in the global compositor space and the integer rectangles drawn from them.
use vstd::prelude::*;

verus! {

/// Sub-pixel steps per pixel: pointer positions arrive as Wayland fixed-point
/// numbers with eight fractional bits, so every position is an exact multiple
/// of 1/256 of a pixel and a `Point` stores it as that multiple.
pub const SUBPIXELS: i64 = 256;

/// A pointer position in global compositor coordinates, in 1/256 pixel steps.
#[derive(Debug, Clone, Copy, PartialEq, Eq, Structural)]
pub struct Point {
    pub x: i64,
    pub y: i64,
}

/// An axis-aligned rectangle of whole pixels.
#[derive(Debug, Clone, Copy, PartialEq, Eq, Structural)]
pub struct Rect {
    pub x: i32,
    pub y: i32,
    pub width: u32,
    pub height: u32,
}

pub open spec fn min_int(a: int, b: int) -> int {
    if a <= b { a } else { b }
}

pub open spec fn max_int(a: int, b: int) -> int {
    if a >= b { a } else { b }
}

/// `v` saturated into the range of `i32`.
pub open spec fn saturate_i32(v: int) -> int {
    if v < i32::MIN { i32::MIN as int } else if v > i32::MAX { i32::MAX as int } else { v }
}

/// `v` saturated into the range of `u32`.
pub open spec fn saturate_u32(v: int) -> int {
    if v < 0 { 0 } else if v > u32::MAX { u32::MAX as int } else { v }
}

/// `v` clamped into `[lo, hi]` (for `lo <= hi`).
pub open spec fn clamp_int(v: int, lo: int, hi: int) -> int {
    if v < lo { lo } else if v > hi { hi } else { v }
}

/// The value of `w as i32`: two's-complement reinterpretation of a `u32`.
pub open spec fn u32_as_i32(w: u32) -> int {
    if w <= i32::MAX { w as int } else { w as int - 0x1_0000_0000 }
}

/// Largest whole pixel coordinate at or below a sub-pixel coordinate.
pub open spec fn floor_pixel(v: int) -> int {
    v / (SUBPIXELS as int)
}

/// Smallest whole pixel coordinate at or above a sub-pixel coordinate.
pub open spec fn ceil_pixel(v: int) -> int {
    -((-v) / (SUBPIXELS as int))
}

impl Point {
    pub fn new(x: i64, y: i64) -> (p: Self)
        ensures
            p.x == x,
            p.y == y,
    {
        Self { x, y }
    }

    /// Squared distance between two points, in squared sub-pixel steps.
    pub open spec fn distance_squared(self, other: Self) -> int {
        (self.x - other.x) * (self.x - other.x) + (self.y - other.y) * (self.y - other.y)
    }

    /// Whether `other` lies at least `threshold` sub-pixel steps away from `self`.
    pub fn reaches(self, other: Self, threshold: u32) -> (r: bool)
        ensures
            r <==> self.distance_squared(other) >= threshold as int * threshold as int,
    {
        let dx: i128 = self.x as i128 - other.x as i128;
        let dy: i128 = self.y as i128 - other.y as i128;
        let adx: u128 = if dx < 0 { (-dx) as u128 } else { dx as u128 };
        let ady: u128 = if dy < 0 { (-dy) as u128 } else { dy as u128 };
        let t: u128 = threshold as u128;
        proof {
            assert(adx * adx == dx * dx) by (nonlinear_arith)
                requires adx == dx || adx == -dx;
            assert(ady * ady == dy * dy) by (nonlinear_arith)
                requires ady == dy || ady == -dy;
        }
        if adx >= t || ady >= t {
            proof {
                if adx >= t {
                    lemma_square_monotone(t as int, adx as int);
                } else {
                    lemma_square_monotone(t as int, ady as int);
                }
                assert(adx * adx >= 0 && ady * ady >= 0) by (nonlinear_arith);
            }
            true
        } else {
            proof {
                lemma_square_monotone(adx as int, t as int);
                lemma_square_monotone(ady as int, t as int);
                assert(t * t <= 0xffff_ffff * 0xffff_ffff) by (nonlinear_arith)
                    requires t <= 0xffff_ffff;
            }
            adx * adx + ady * ady >= t * t
        }
    }
}


/// Largest whole pixel at or below a sub-pixel coordinate.
fn floor_to_pixel(v: i64) -> (p: i64)
    ensures
        p == floor_pixel(v as int),
{
    if v >= 0 {
        v / SUBPIXELS
    } else {
        let n: u128 = (-(v as i128)) as u128;
        let q: u128 = (n + 255) / 256;
        proof {
            assert(-(q as int) == (v as int) / 256);
        }
        -(q as i64)
    }
}

/// Smallest whole pixel at or above a sub-pixel coordinate.
fn ceil_to_pixel(v: i64) -> (p: i64)
    ensures
        p == ceil_pixel(v as int),
{
    if v >= 0 {
        let q: u128 = (v as u128 + 255) / 256;
        proof {
            assert(q as int == -((-(v as int)) / 256));
        }
        q as i64
    } else {
        let n: u128 = (-(v as i128)) as u128;
        let q: u128 = n / 256;
        -(q as i64)
    }
}

fn saturating_i32(v: i64) -> (r: i32)
    ensures
        r == saturate_i32(v as int),
{
    if v > i32::MAX as i64 {
        i32::MAX
    } else if v < i32::MIN as i64 {
        i32::MIN
    } else {
        v as i32
    }
}

fn saturating_u32(v: i64) -> (r: u32)
    ensures
        r == saturate_u32(v as int),
{
    if v > u32::MAX as i64 {
        u32::MAX
    } else if v < 0 {
        0
    } else {
        v as u32
    }
}

/// The value that `w as i32` takes, computed without a truncating cast.
fn wrap_u32_to_i32(w: u32) -> (r: i64)
    ensures
        r == u32_as_i32(w),
{
    if w <= i32::MAX as u32 {
        w as i64
    } else {
        w as i64 - 0x1_0000_0000
    }
}

fn clamp_i32(v: i32, lo: i32, hi: i32) -> (r: i32)
    requires
        lo <= hi,
    ensures
        r == clamp_int(v as int, lo as int, hi as int),
{
    if v < lo {
        lo
    } else if v > hi {
        hi
    } else {
        v
    }
}

impl Rect {
    /// Right edge, `x + width` with the width reinterpreted as `i32` and the sum saturated.
    pub open spec fn right_edge(self) -> int {
        saturate_i32(self.x + u32_as_i32(self.width))
    }

    /// Bottom edge, `y + height` with the height reinterpreted as `i32` and the sum saturated.
    pub open spec fn bottom_edge(self) -> int {
        saturate_i32(self.y + u32_as_i32(self.height))
    }

    pub open spec fn empty(self) -> bool {
        self.width == 0 || self.height == 0
    }

    /// The rectangle spanned by two pointer positions, rounded outward to whole
    /// pixels so that it covers both, each coordinate saturated into its type.
    pub open spec fn spanned_by(a: Point, b: Point) -> Rect {
        let left = floor_pixel(min_int(a.x as int, b.x as int));
        let top = floor_pixel(min_int(a.y as int, b.y as int));
        let right = ceil_pixel(max_int(a.x as int, b.x as int));
        let bottom = ceil_pixel(max_int(a.y as int, b.y as int));
        Rect {
            x: saturate_i32(left) as i32,
            y: saturate_i32(top) as i32,
            width: saturate_u32(right - left) as u32,
            height: saturate_u32(bottom - top) as u32,
        }
    }

    /// The part of the rectangle on a `width` by `height` surface at the origin.
    pub open spec fn clamped_to(self, width: u32, height: u32) -> Rect {
        let left = clamp_int(self.x as int, 0, width as int);
        let top = clamp_int(self.y as int, 0, height as int);
        let right = clamp_int(self.right_edge(), 0, width as int);
        let bottom = clamp_int(self.bottom_edge(), 0, height as int);
        Rect {
            x: left as i32,
            y: top as i32,
            width: (right - left) as u32,
            height: (bottom - top) as u32,
        }
    }

    pub fn new(x: i32, y: i32, width: u32, height: u32) -> (r: Self)
        ensures
            r == (Rect { x, y, width, height }),
    {
        Self { x, y, width, height }
    }

    pub fn from_corners(a: Point, b: Point) -> (r: Self)
        ensures
            r == Rect::spanned_by(a, b),
    {
        let min_x = if a.x <= b.x { a.x } else { b.x };
        let min_y = if a.y <= b.y { a.y } else { b.y };
        let max_x = if a.x >= b.x { a.x } else { b.x };
        let max_y = if a.y >= b.y { a.y } else { b.y };
        let left = floor_to_pixel(min_x);
        let top = floor_to_pixel(min_y);
        let right = ceil_to_pixel(max_x);
        let bottom = ceil_to_pixel(max_y);
        Self {
            x: saturating_i32(left),
            y: saturating_i32(top),
            width: saturating_u32(right - left),
            height: saturating_u32(bottom - top),
        }
    }

    pub fn is_empty(&self) -> (e: bool)
        ensures
            e == self.empty(),
    {
        self.width == 0 || self.height == 0
    }

    pub fn right(&self) -> (r: i32)
        ensures
            r == self.right_edge(),
    {
        saturating_i32(self.x as i64 + wrap_u32_to_i32(self.width))
    }

    pub fn bottom(&self) -> (b: i32)
        ensures
            b == self.bottom_edge(),
    {
        saturating_i32(self.y as i64 + wrap_u32_to_i32(self.height))
    }

    /// Clips the rectangle to a surface; a surface wider or taller than
    /// `i32::MAX` has no `i32` extent to clamp to, so it is left out.
    pub fn clamp_to_surface(&self, width: u32, height: u32) -> (r: Self)
        requires
            width <= i32::MAX,
            height <= i32::MAX,
        ensures
            r == self.clamped_to(width, height),
    {
        let w = width as i32;
        let h = height as i32;
        let left = clamp_i32(self.x, 0, w);
        let top = clamp_i32(self.y, 0, h);
        let right = clamp_i32(self.right(), 0, w);
        let bottom = clamp_i32(self.bottom(), 0, h);
        Self { x: left, y: top, width: (right - left) as u32, height: (bottom - top) as u32 }
    }
}


/// Whether `k` pixels of inset are enough for row `row` of a corner of radius
/// `radius`: the row's pixel centre lies `r - row - 1/2` above the corner's
/// centre, so the curve crosses the row `sqrt(r^2 - (r - row - 1/2)^2)` from the
/// corner's centre line, and `k` is enough when `k >= r - 1/2 - that`. In half
/// pixels, with `R = 2r` and `D = R - 2row - 1`, this is
/// `sqrt(R^2 - D^2) >= R - 1 - 2k`, decided here without a square root.
pub open spec fn inset_fits(radius: int, row: int, k: int) -> bool {
    let r2 = 2 * radius;
    let d = r2 - 2 * row - 1;
    let t = r2 - 1 - 2 * k;
    t <= 0 || t * t <= r2 * r2 - d * d
}

/// The least inset from `k` upward that fits, or `radius` if none below it does.
pub open spec fn least_inset_from(radius: int, row: int, k: int) -> int
    decreases radius - k,
{
    if k >= radius || inset_fits(radius, row, k) {
        k
    } else {
        least_inset_from(radius, row, k + 1)
    }
}

/// How far row `row` of a rounded corner of radius `radius` is inset from the
/// straight edge: `ceil(r - 1/2 - sqrt(r^2 - (r - row - 1/2)^2))`, at least zero;
/// rows at or past the radius are not inset.
pub open spec fn row_inset(radius: int, row: int) -> int {
    if radius <= 0 || row < 0 || row >= radius {
        0
    } else {
        least_inset_from(radius, row, 0)
    }
}

/// A fitting inset stays fitting when it grows.
pub proof fn lemma_inset_fits_grows(radius: int, row: int, k1: int, k2: int)
    requires
        inset_fits(radius, row, k1),
        k1 <= k2,
    ensures
        inset_fits(radius, row, k2),
{
    let r2 = 2 * radius;
    let t1 = r2 - 1 - 2 * k1;
    let t2 = r2 - 1 - 2 * k2;
    if t2 > 0 {
        lemma_square_monotone(t2, t1);
    }
}

/// An inset that fits a row fits every later row of the same corner.
pub proof fn lemma_inset_fits_later_rows(radius: int, row1: int, row2: int, k: int)
    requires
        inset_fits(radius, row1, k),
        0 <= row1 <= row2 < radius,
    ensures
        inset_fits(radius, row2, k),
{
    let r2 = 2 * radius;
    let d1 = r2 - 2 * row1 - 1;
    let d2 = r2 - 2 * row2 - 1;
    lemma_square_monotone(d2, d1);
}

/// The search from `k` finds `m` when `m` fits (or is the radius) and nothing in `[k, m)` does.
pub proof fn lemma_least_inset_is(radius: int, row: int, k: int, m: int)
    requires
        k <= m <= radius,
        m == radius || inset_fits(radius, row, m),
        forall|j: int| k <= j < m ==> !#[trigger] inset_fits(radius, row, j),
    ensures
        least_inset_from(radius, row, k) == m,
    decreases m - k,
{
    if k < m {
        lemma_least_inset_is(radius, row, k + 1, m);
    }
}

/// What the search from `k` returns fits (or is the radius), and nothing before it does.
pub proof fn lemma_least_inset_properties(radius: int, row: int, k: int)
    requires
        k <= radius,
    ensures
        k <= least_inset_from(radius, row, k) <= radius,
        least_inset_from(radius, row, k) == radius || inset_fits(
            radius,
            row,
            least_inset_from(radius, row, k),
        ),
        forall|j: int|
            k <= j < least_inset_from(radius, row, k) ==> !#[trigger] inset_fits(radius, row, j),
    decreases radius - k,
{
    if k < radius && !inset_fits(radius, row, k) {
        lemma_least_inset_properties(radius, row, k + 1);
    }
}

/// Every row of a corner is inset by less than the radius, and later rows by no more
/// than earlier ones.
pub proof fn lemma_row_inset_bounds(radius: int, row1: int, row2: int)
    requires
        0 <= row1 <= row2 < radius,
    ensures
        0 <= row_inset(radius, row2) <= row_inset(radius, row1) < radius,
{
    lemma_least_inset_properties(radius, row1, 0);
    lemma_least_inset_properties(radius, row2, 0);
    let r2 = 2 * radius;
    let d1 = r2 - 2 * row1 - 1;
    assert(inset_fits(radius, row1, radius - 1)) by {
        assert(r2 * r2 - d1 * d1 >= 1) by (nonlinear_arith)
            requires 0 < d1 <= r2 - 1;
        assert(r2 - 1 - 2 * (radius - 1) == 1);
    }
    let i1 = row_inset(radius, row1);
    if i1 == radius {
        assert(!inset_fits(radius, row1, radius - 1));
    }
    lemma_inset_fits_later_rows(radius, row1, row2, i1);
    if row_inset(radius, row2) > i1 {
        assert(!inset_fits(radius, row2, i1));
    }
}

/// Whether `k` pixels of inset fit the row whose centre lies `d` half pixels
/// below the centre of a corner `r2` half pixels in radius.
fn inset_fits_exec(r2: u64, d: u64, k: u64) -> (fits: bool)
    requires
        r2 <= 0x3_ffff_ffff,
        d < r2,
        k < 0x1_0000_0000,
    ensures
        fits == (r2 - 1 - 2 * k <= 0 || (r2 - 1 - 2 * k) * (r2 - 1 - 2 * k) <= r2 * r2 - d * d),
{
    if 2 * k + 1 >= r2 {
        true
    } else {
        let t: u128 = (r2 - 1 - 2 * k) as u128;
        let r: u128 = r2 as u128;
        let dd: u128 = d as u128;
        proof {
            assert(r * r <= 0x3_ffff_ffff * 0x3_ffff_ffff) by (nonlinear_arith)
                requires r <= 0x3_ffff_ffff;
            lemma_square_monotone(dd as int, r as int);
            lemma_square_monotone(t as int, r as int);
        }
        t * t <= r * r - dd * dd
    }
}

/// Horizontal inset of row `row` of a rounded corner of radius `radius`.
pub fn rounded_row_inset(radius: u32, row: u32) -> (inset: u32)
    ensures
        inset == row_inset(radius as int, row as int),
{
    if radius == 0 || row >= radius {
        return 0;
    }
    let r2: u64 = 2 * radius as u64;
    let d: u64 = r2 - 2 * row as u64 - 1;
    let mut lo: u32 = 0;
    let mut hi: u32 = radius;
    while lo < hi
        invariant
            0 <= lo <= hi <= radius,
            r2 == 2 * radius,
            d == r2 - 2 * row - 1,
            row < radius,
            hi == radius || inset_fits(radius as int, row as int, hi as int),
            forall|j: int| 0 <= j < lo ==> !#[trigger] inset_fits(radius as int, row as int, j),
        decreases hi - lo,
    {
        let mid = lo + (hi - lo) / 2;
        if inset_fits_exec(r2, d, mid as u64) {
            hi = mid;
        } else {
            proof {
                assert forall|j: int| 0 <= j < mid + 1 implies !#[trigger] inset_fits(
                    radius as int,
                    row as int,
                    j,
                ) by {
                    if inset_fits(radius as int, row as int, j) {
                        lemma_inset_fits_grows(radius as int, row as int, j, mid as int);
                    }
                }
            }
            lo = mid + 1;
        }
    }
    proof {
        lemma_least_inset_is(radius as int, row as int, 0, lo as int);
    }
    lo
}


/// The row after the run of rows from `end` on that share `inset` (the first
/// row at or past `end` with another inset, or the radius).
pub open spec fn run_end(radius: int, end: int, inset: int) -> int
    decreases radius - end,
{
    if end >= radius || row_inset(radius, end) != inset {
        end
    } else {
        run_end(radius, end + 1, inset)
    }
}

pub proof fn lemma_run_end_bounds(radius: int, end: int, inset: int)
    ensures
        end <= run_end(radius, end, inset),
        end <= radius ==> run_end(radius, end, inset) <= radius,
        forall|j: int| end <= j < run_end(radius, end, inset) ==> #[trigger] row_inset(radius, j) == inset,
    decreases radius - end,
{
    if end < radius && row_inset(radius, end) == inset {
        lemma_run_end_bounds(radius, end + 1, inset);
    }
}

impl Rect {
    /// The corner radius actually used: at most half the shorter side.
    pub open spec fn fitted_radius(self, radius: u32) -> int {
        min_int(min_int(radius as int, self.width as int / 2), self.height as int / 2)
    }

    /// The pair of spans for the run of corner rows `[row, end)` that share `inset`:
    /// one below the top edge and its mirror above the bottom edge.
    pub open spec fn run_spans(self, row: int, end: int, inset: int) -> Seq<Rect> {
        let width = self.width - 2 * inset;
        let left = self.x + inset;
        if width > 0 {
            seq![
                Rect { x: left as i32, y: (self.y + row) as i32, width: width as u32, height: (end - row) as u32 },
                Rect { x: left as i32, y: (self.bottom_edge() - end) as i32, width: width as u32, height: (end - row) as u32 },
            ]
        } else {
            seq![]
        }
    }

    /// Spans covering the corner rows from `row` to `radius`, one pair per run of
    /// rows with equal insets.
    pub open spec fn corner_spans(self, radius: int, row: int) -> Seq<Rect>
        decreases radius - row,
    {
        if row >= radius || row < 0 {
            seq![]
        } else {
            let inset = row_inset(radius, row);
            let end = run_end(radius, row + 1, inset);
            proof {
                lemma_run_end_bounds(radius, row + 1, inset);
            }
            self.run_spans(row, end, inset) + self.corner_spans(radius, end)
        }
    }

    /// The full-width band between the two rounded ends, when there is one.
    pub open spec fn middle_band(self, radius: int) -> Seq<Rect> {
        if self.height > 2 * radius {
            seq![Rect { x: self.x, y: (self.y + radius) as i32, width: self.width, height: (self.height - 2 * radius) as u32 }]
        } else {
            seq![]
        }
    }

    /// Horizontal spans whose union is the rectangle with its corners rounded.
    pub open spec fn rounded_span_list(self, radius: u32) -> Seq<Rect> {
        let r = self.fitted_radius(radius);
        if r == 0 || self.empty() {
            seq![self]
        } else {
            self.middle_band(r) + self.corner_spans(r, 0)
        }
    }

    /// The span coordinates of a rounded rectangle stay within `i32`.
    pub open spec fn spans_in_range(self, radius: u32) -> bool {
        let r = self.fitted_radius(radius);
        r == 0 || self.empty() || {
            &&& self.x + row_inset(r, 0) <= i32::MAX
            &&& self.y + r <= i32::MAX
            &&& self.bottom_edge() - r >= i32::MIN
        }
    }

    /// Decomposes the rectangle with corners rounded to `radius` (clamped to half
    /// the shorter side) into horizontal spans: the middle band, then a pair of
    /// spans for each run of corner rows with the same inset.
    pub fn rounded_spans(&self, radius: u32) -> (spans: Vec<Self>)
        requires
            self.spans_in_range(radius),
        ensures
            spans@ == self.rounded_span_list(radius),
    {
        let ghost requested = radius;
        let mut radius = radius;
        if radius > self.width / 2 {
            radius = self.width / 2;
        }
        if radius > self.height / 2 {
            radius = self.height / 2;
        }
        let ghost r = radius as int;
        assert(r == self.fitted_radius(requested));
        if radius == 0 || self.is_empty() {
            return vec![*self];
        }
        let mut spans: Vec<Self> = Vec::new();
        if self.height > radius * 2 {
            spans.push(Self::new(self.x, (self.y as i64 + radius as i64) as i32, self.width, self.height - radius * 2));
        }
        let ghost band = spans@;
        assert(band == self.middle_band(r));
        proof {
            lemma_row_inset_bounds(r, 0, 0);
        }
        let bottom = self.bottom();
        let mut row: u32 = 0;
        while row < radius
            invariant
                r == radius,
                0 < radius <= self.width / 2,
                radius <= self.height / 2,
                row <= radius,
                bottom == self.bottom_edge(),
                self.x + row_inset(r, 0) <= i32::MAX,
                self.y + r <= i32::MAX,
                self.bottom_edge() - r >= i32::MIN,
                spans@ + self.corner_spans(r, row as int) == band + self.corner_spans(r, 0),
            decreases radius - row,
        {
            let inset = rounded_row_inset(radius, row);
            proof {
                lemma_row_inset_bounds(r, 0, row as int);
            }
            let mut end = row + 1;
            while end < radius && rounded_row_inset(radius, end) == inset
                invariant
                    r == radius,
                    row < end <= radius,
                    inset == row_inset(r, row as int),
                    run_end(r, row + 1, inset as int) == run_end(r, end as int, inset as int),
                decreases radius - end,
            {
                end = end + 1;
            }
            let ghost here = self.run_spans(row as int, end as int, inset as int);
            assert(self.corner_spans(r, row as int) == here + self.corner_spans(r, end as int));
            let width = self.width - inset * 2;
            if width > 0 {
                let height = end - row;
                let left = (self.x as i64 + inset as i64) as i32;
                spans.push(Self::new(left, (self.y as i64 + row as i64) as i32, width, height));
                spans.push(Self::new(left, (bottom as i64 - end as i64) as i32, width, height));
            }
            assert(spans@ + self.corner_spans(r, end as int) =~= band + self.corner_spans(r, 0));
            row = end;
        }
        assert(spans@ =~= band + self.corner_spans(r, 0));
        spans
    }
}


impl Rect {
    /// The rectangle moved by `(dx, dy)`, each coordinate saturated into `i32`.
    pub open spec fn moved_by(self, dx: int, dy: int) -> Rect {
        Rect {
            x: saturate_i32(self.x + dx) as i32,
            y: saturate_i32(self.y + dy) as i32,
            width: self.width,
            height: self.height,
        }
    }

    /// Whether any pixel of the rectangle falls on a `width` by `height`
    /// surface at the origin.
    pub open spec fn meets_surface(self, width: u32, height: u32) -> bool {
        &&& !self.empty()
        &&& 0 < width
        &&& 0 < height
        &&& self.x < width
        &&& self.y < height
        &&& self.right_edge() > 0
        &&& self.bottom_edge() > 0
    }

    pub fn translate(&self, dx: i32, dy: i32) -> (r: Self)
        ensures
            r == self.moved_by(dx as int, dy as int),
    {
        Self {
            x: saturating_i32(self.x as i64 + dx as i64),
            y: saturating_i32(self.y as i64 + dy as i64),
            width: self.width,
            height: self.height,
        }
    }

    pub fn overlaps_surface(&self, width: u32, height: u32) -> (r: bool)
        ensures
            r == self.meets_surface(width, height),
            self.width <= i32::MAX && self.height <= i32::MAX ==> (r <==> exists|px: int, py: int|
                #[trigger] holds_within(*self, px, py) && 0 <= px < width && 0 <= py < height),
    {
        proof {
            if self.width <= i32::MAX && self.height <= i32::MAX {
                lemma_meets_surface_iff_a_pixel_lands(*self, width, height);
            }
        }
        !self.is_empty() && 0 < width && 0 < height && (self.x as i64) < width as i64 && (self.y as i64)
            < height as i64 && self.right() > 0 && self.bottom() > 0
    }
}


/// Whether two rectangles share no pixel: one lies wholly above, below, left
/// or right of the other.
pub open spec fn pixels_apart(a: Rect, b: Rect) -> bool {
    ||| a.y + a.height <= b.y
    ||| b.y + b.height <= a.y
    ||| a.x + a.width <= b.x
    ||| b.x + b.width <= a.x
}

/// Whether `inner` lies within `outer`.
pub open spec fn lies_within(inner: Rect, outer: Rect) -> bool {
    &&& outer.x <= inner.x
    &&& inner.x + inner.width <= outer.x + outer.width
    &&& outer.y <= inner.y
    &&& inner.y + inner.height <= outer.y + outer.height
}

/// Whether `inner` sits centred left to right within `outer`.
pub open spec fn centred_across(inner: Rect, outer: Rect) -> bool {
    inner.x - outer.x == (outer.x + outer.width) - (inner.x + inner.width)
}

/// `inner` mirrored top to bottom within `outer`.
pub open spec fn mirrored_within(inner: Rect, outer: Rect) -> Rect {
    Rect {
        x: inner.x,
        y: (2 * outer.y + outer.height - inner.y - inner.height) as i32,
        width: inner.width,
        height: inner.height,
    }
}

/// Whether the top-to-bottom mirror within `outer` of span `k` of `spans` is among them.
pub open spec fn has_mirror(spans: Seq<Rect>, k: int, outer: Rect) -> bool {
    exists|m: int| 0 <= m < spans.len() && #[trigger] spans[m] == mirrored_within(spans[k], outer)
}

impl Rect {
    /// Whether the rectangle's edges fit in `i32` without saturating.
    pub open spec fn edges_in_range(self) -> bool {
        &&& self.width <= i32::MAX
        &&& self.height <= i32::MAX
        &&& self.x + self.width <= i32::MAX
        &&& self.y + self.height <= i32::MAX
    }
}

/// The corner spans from `row` on come in pairs, a span below the top edge
/// followed by its mirror above the bottom edge; each is centred across the
/// rectangle and lies in it; top spans stay in rows `[top + row, top + r)` and
/// bottom spans in `[bottom - r, bottom - row)`; and no two share a pixel.
#[verifier::spinoff_prover]
#[verifier::rlimit(60)]
pub proof fn lemma_corner_spans_shape(rect: Rect, r: int, row: int)
    requires
        rect.edges_in_range(),
        0 < r <= rect.width / 2,
        r <= rect.height / 2,
        0 <= row <= r,
    ensures
        ({
            let s = rect.corner_spans(r, row);
            &&& s.len() % 2 == 0
            &&& forall|k: int| 0 <= k < s.len() ==> lies_within(#[trigger] s[k], rect)
            &&& forall|k: int| 0 <= k < s.len() ==> centred_across(#[trigger] s[k], rect)
            &&& forall|k: int| 0 <= k < s.len() ==> #[trigger] s[k].height > 0
            &&& forall|k: int|
                0 <= k < s.len() && k % 2 == 0 ==> rect.y + row <= #[trigger] s[k].y && s[k].y
                    + s[k].height <= rect.y + r && s[k + 1] == mirrored_within(s[k], rect)
            &&& forall|k: int|
                0 <= k < s.len() && k % 2 == 1 ==> rect.y + rect.height - r <= #[trigger] s[k].y
                    && s[k].y + s[k].height <= rect.y + rect.height - row && s[k - 1]
                    == mirrored_within(s[k], rect)
            &&& forall|i: int, j: int|
                0 <= i < j < s.len() ==> pixels_apart(#[trigger] s[i], #[trigger] s[j])
        }),
    decreases r - row,
{
    if row < r {
        let inset = row_inset(r, row);
        let end = run_end(r, row + 1, inset);
        lemma_run_end_bounds(r, row + 1, inset);
        lemma_row_inset_bounds(r, row, row);
        let here = rect.run_spans(row, end, inset);
        let rest = rect.corner_spans(r, end);
        lemma_corner_spans_shape(rect, r, end);
        let s = rect.corner_spans(r, row);
        assert(s == here + rest);
        assert(here.len() == 2);
        assert(rect.bottom_edge() == rect.y + rect.height);
        assert forall|k: int| 0 <= k < s.len() implies lies_within(#[trigger] s[k], rect)
            && centred_across(s[k], rect) && s[k].height > 0 by {
            if k >= 2 {
                assert(s[k] == rest[k - 2]);
            }
        }
        assert forall|k: int| 0 <= k < s.len() && k % 2 == 0 implies rect.y + row
            <= #[trigger] s[k].y && s[k].y + s[k].height <= rect.y + r && s[k + 1]
            == mirrored_within(s[k], rect) by {
            if k >= 2 {
                assert(s[k] == rest[k - 2]);
                assert(s[k + 1] == rest[k - 1]);
            }
        }
        assert forall|k: int| 0 <= k < s.len() && k % 2 == 1 implies rect.y + rect.height - r
            <= #[trigger] s[k].y && s[k].y + s[k].height <= rect.y + rect.height - row && s[k
            - 1] == mirrored_within(s[k], rect) by {
            if k >= 2 {
                assert(s[k] == rest[k - 2]);
                assert(s[k - 1] == rest[k - 3]);
            }
        }
        assert forall|i: int, j: int| 0 <= i < j < s.len() implies pixels_apart(
            #[trigger] s[i],
            #[trigger] s[j],
        ) by {
            if i >= 2 {
                assert(s[i] == rest[i - 2]);
                assert(s[j] == rest[j - 2]);
            } else if j >= 2 {
                assert(s[j] == rest[j - 2]);
                if (j - 2) % 2 == 0 {
                    assert(rest[j - 2].y >= rect.y + end);
                } else {
                    assert(rest[j - 2].y + rest[j - 2].height <= rect.y + rect.height - end);
                }
            }
        }
    }
}

/// The spans of a rounded rectangle tile it without overlap and symmetrically:
/// each lies within the rectangle and is centred across it, no two share a
/// pixel, and the top-to-bottom mirror of each is among them.
pub proof fn lemma_rounded_spans_tile(rect: Rect, radius: u32)
    requires
        rect.edges_in_range(),
    ensures
        rect.spans_in_range(radius),
        ({
            let s = rect.rounded_span_list(radius);
            &&& forall|k: int| 0 <= k < s.len() ==> lies_within(#[trigger] s[k], rect)
            &&& forall|k: int| 0 <= k < s.len() ==> centred_across(#[trigger] s[k], rect)
            &&& forall|i: int, j: int|
                0 <= i < j < s.len() ==> pixels_apart(#[trigger] s[i], #[trigger] s[j])
            &&& forall|k: int| 0 <= k < s.len() ==> #[trigger] has_mirror(s, k, rect)
        }),
{
    let r = rect.fitted_radius(radius);
    let s = rect.rounded_span_list(radius);
    if r == 0 || rect.empty() {
        assert(s == seq![rect]);
        assert(mirrored_within(rect, rect) == rect);
        assert forall|k: int| 0 <= k < s.len() implies #[trigger] has_mirror(s, k, rect) by {
            assert(s[0] == mirrored_within(s[k], rect));
        }
    } else {
        lemma_row_inset_bounds(r, 0, 0);
        lemma_corner_spans_shape(rect, r, 0);
        let band = rect.middle_band(r);
        let cs = rect.corner_spans(r, 0);
        assert(s == band + cs);
        let b = band.len() as int;
        assert(rect.bottom_edge() == rect.y + rect.height);
        assert forall|k: int| 0 <= k < s.len() implies lies_within(#[trigger] s[k], rect)
            && centred_across(s[k], rect) by {
            if k >= b {
                assert(s[k] == cs[k - b]);
            }
        }
        assert forall|i: int, j: int| 0 <= i < j < s.len() implies pixels_apart(
            #[trigger] s[i],
            #[trigger] s[j],
        ) by {
            if i >= b {
                assert(s[i] == cs[i - b]);
                assert(s[j] == cs[j - b]);
            } else {
                assert(s[j] == cs[j - b]);
                if (j - b) % 2 == 0 {
                    assert(cs[j - b].y + cs[j - b].height <= rect.y + r);
                } else {
                    assert(cs[j - b].y >= rect.y + rect.height - r);
                }
            }
        }
        assert forall|k: int| 0 <= k < s.len() implies #[trigger] has_mirror(s, k, rect) by {
            if k < b {
                assert(s[k] == band[0]);
                assert(s[k] == mirrored_within(s[k], rect));
            } else if (k - b) % 2 == 0 {
                assert(s[k] == cs[k - b]);
                assert(s[k + 1] == cs[k - b + 1]);
                assert(rect.y <= cs[k - b].y);
                assert(cs[k - b + 1] == mirrored_within(cs[k - b], rect));
            } else {
                assert(rect.y <= cs[k - b].y);
                assert(s[k] == cs[k - b]);
                assert(s[k - 1] == cs[k - b - 1]);
                assert(cs[k - b - 1] == mirrored_within(cs[k - b], rect));
            }
        }
    }
}


/// Whether a point lies in a whole-pixel coordinate range that every
/// rectangle spanned from it can hold without saturating.
pub open spec fn point_in_range(p: Point) -> bool {
    &&& -0x40_0000_0000 <= p.x <= 0x40_0000_0000
    &&& -0x40_0000_0000 <= p.y <= 0x40_0000_0000
}

/// The rectangle spanned by two corners does not depend on which corners of
/// it they are, nor in which order they come.
pub proof fn lemma_corners_in_any_order(a: Point, b: Point)
    ensures
        Rect::spanned_by(a, b) == Rect::spanned_by(b, a),
        Rect::spanned_by(a, b) == Rect::spanned_by(Point { x: b.x, y: a.y }, Point { x: a.x, y: b.y }),
{
}

/// The spanned rectangle is the least whole-pixel rectangle covering both
/// points: its edges are the points' coordinates rounded outward.
pub proof fn lemma_corners_round_outward(a: Point, b: Point)
    requires
        point_in_range(a),
        point_in_range(b),
    ensures
        ({
            let r = Rect::spanned_by(a, b);
            &&& r.x * SUBPIXELS <= a.x <= (r.x + r.width) * SUBPIXELS
            &&& r.x * SUBPIXELS <= b.x <= (r.x + r.width) * SUBPIXELS
            &&& r.y * SUBPIXELS <= a.y <= (r.y + r.height) * SUBPIXELS
            &&& r.y * SUBPIXELS <= b.y <= (r.y + r.height) * SUBPIXELS
            &&& r.x * SUBPIXELS > min_int(a.x as int, b.x as int) - SUBPIXELS
            &&& (r.x + r.width) * SUBPIXELS < max_int(a.x as int, b.x as int) + SUBPIXELS
            &&& r.y * SUBPIXELS > min_int(a.y as int, b.y as int) - SUBPIXELS
            &&& (r.y + r.height) * SUBPIXELS < max_int(a.y as int, b.y as int) + SUBPIXELS
        }),
{
}

/// A press and release at one point span an empty rectangle exactly when the
/// point lies on a pixel boundary in x or in y.
pub proof fn lemma_degenerate_drag(p: Point)
    requires
        point_in_range(p),
    ensures
        Rect::spanned_by(p, p).empty() <==> (p.x % SUBPIXELS == 0 || p.y % SUBPIXELS == 0),
{
}

impl Rect {
    /// Whether pixel `(px, py)` lies in the rectangle.
    pub open spec fn holds_pixel(self, px: int, py: int) -> bool {
        self.x <= px < self.right_edge() && self.y <= py < self.bottom_edge()
    }
}

/// Clamping to a surface keeps exactly the rectangle's pixels that lie on the
/// surface, so the result lies on the surface, and clamping twice changes nothing.
pub proof fn lemma_clamp_keeps_the_visible_part(rect: Rect, width: u32, height: u32, px: int, py: int)
    requires
        rect.width <= i32::MAX,
        rect.height <= i32::MAX,
        width <= i32::MAX,
        height <= i32::MAX,
    ensures
        rect.clamped_to(width, height).holds_pixel(px, py) <==> (rect.holds_pixel(px, py) && 0 <= px
            < width && 0 <= py < height),
        ({
            let c = rect.clamped_to(width, height);
            &&& 0 <= c.x && c.x + c.width <= width
            &&& 0 <= c.y && c.y + c.height <= height
            &&& c.clamped_to(width, height) == c
        }),
{
}

/// A rectangle wholly off a surface clamps to an empty one.
pub proof fn lemma_offscreen_clamps_to_empty(rect: Rect, width: u32, height: u32)
    requires
        rect.width <= i32::MAX,
        rect.height <= i32::MAX,
        width <= i32::MAX,
        height <= i32::MAX,
        rect.x >= width || rect.y >= height || rect.right_edge() <= 0 || rect.bottom_edge() <= 0,
    ensures
        rect.clamped_to(width, height).empty(),
{
}


impl Rect {
    /// Whether `rounded_spans` can decompose this rectangle with corners of
    /// `radius`: whether every span's coordinates stay within `i32`.
    pub fn rounded_spans_fit(&self, radius: u32) -> (fits: bool)
        ensures
            fits == self.spans_in_range(radius),
    {
        let mut r = radius;
        if r > self.width / 2 {
            r = self.width / 2;
        }
        if r > self.height / 2 {
            r = self.height / 2;
        }
        if r == 0 || self.is_empty() {
            return true;
        }
        let inset = rounded_row_inset(r, 0);
        self.x as i64 + inset as i64 <= i32::MAX as i64 && self.y as i64 + r as i64 <= i32::MAX as i64
            && self.bottom() as i64 - r as i64 >= i32::MIN as i64
    }
}


/// Whether pixel `(px, py)` lies in `s`, counting its edges without saturation.
pub open spec fn holds_within(s: Rect, px: int, py: int) -> bool {
    s.x <= px < s.x + s.width && s.y <= py < s.y + s.height
}

/// Whether some span holds pixel `(px, py)`.
pub open spec fn spans_hold(spans: Seq<Rect>, px: int, py: int) -> bool {
    exists|i: int| 0 <= i < spans.len() && #[trigger] holds_within(spans[i], px, py)
}

/// Whether pixel `(px, py)` belongs to the rectangle with its corners rounded
/// to `r`: it lies in the rectangle, and in a row within `r` of the top or
/// bottom edge it lies at least that row's inset from both sides.
pub open spec fn in_rounded_rect(rect: Rect, r: int, px: int, py: int) -> bool {
    let right = rect.x + rect.width;
    let bottom = rect.y + rect.height;
    &&& rect.x <= px < right
    &&& rect.y <= py < bottom
    &&& (rect.y + r <= py < bottom - r) || {
        let k = if py < rect.y + r {
            py - rect.y
        } else {
            bottom - 1 - py
        };
        rect.x + row_inset(r, k) <= px < right - row_inset(r, k)
    }
}

/// The corner spans from `row` on hold exactly the pixels of the corner rows
/// from `row` on (counted from the nearer edge) that lie at least their row's
/// inset from both sides.
#[verifier::spinoff_prover]
#[verifier::rlimit(60)]
pub proof fn lemma_corner_spans_cover(rect: Rect, r: int, row: int, px: int, py: int)
    requires
        rect.edges_in_range(),
        0 < r <= rect.width / 2,
        r <= rect.height / 2,
        0 <= row <= r,
    ensures
        spans_hold(rect.corner_spans(r, row), px, py) <==> ({
            let right = rect.x + rect.width;
            let bottom = rect.y + rect.height;
            let k = if py < rect.y + r {
                py - rect.y
            } else {
                bottom - 1 - py
            };
            &&& (rect.y + row <= py < rect.y + r) || (bottom - r <= py < bottom - row)
            &&& rect.x + row_inset(r, k) <= px < right - row_inset(r, k)
        }),
    decreases r - row,
{
    let right = rect.x + rect.width;
    let bottom = rect.y + rect.height;
    let k = if py < rect.y + r {
        py - rect.y
    } else {
        bottom - 1 - py
    };
    let s = rect.corner_spans(r, row);
    if row < r {
        let inset = row_inset(r, row);
        let end = run_end(r, row + 1, inset);
        lemma_run_end_bounds(r, row + 1, inset);
        lemma_row_inset_bounds(r, row, row);
        let here = rect.run_spans(row, end, inset);
        let rest = rect.corner_spans(r, end);
        lemma_corner_spans_cover(rect, r, end, px, py);
        assert(s == here + rest);
        assert(rect.bottom_edge() == bottom);
        let in_here = (rect.y + row <= py < rect.y + end) || (bottom - end <= py < bottom - row);
        if in_here {
            assert(row <= k < end);
            assert(row_inset(r, k) == inset);
        }
        if spans_hold(s, px, py) {
            let i = choose|i: int| 0 <= i < s.len() && #[trigger] holds_within(s[i], px, py);
            if i >= 2 {
                assert(s[i] == rest[i - 2]);
                assert(holds_within(rest[i - 2], px, py));
            }
        }
        if in_here && rect.x + inset <= px < right - inset {
            if py < rect.y + end {
                assert(holds_within(s[0], px, py));
            } else {
                assert(holds_within(s[1], px, py));
            }
        }
        if spans_hold(rest, px, py) {
            let j = choose|j: int| 0 <= j < rest.len() && #[trigger] holds_within(rest[j], px, py);
            assert(s[j + 2] == rest[j]);
            assert(holds_within(s[j + 2], px, py));
        }
    }
}

/// The spans of a rounded rectangle hold exactly its pixels: the rectangle's
/// pixels less those its rounded corners cut away.
pub proof fn lemma_rounded_spans_cover(rect: Rect, radius: u32, px: int, py: int)
    requires
        rect.edges_in_range(),
    ensures
        spans_hold(rect.rounded_span_list(radius), px, py) <==> in_rounded_rect(
            rect,
            rect.fitted_radius(radius),
            px,
            py,
        ),
{
    let r = rect.fitted_radius(radius);
    let s = rect.rounded_span_list(radius);
    if r == 0 || rect.empty() {
        assert(s == seq![rect]);
        if spans_hold(s, px, py) {
            let i = choose|i: int| 0 <= i < s.len() && #[trigger] holds_within(s[i], px, py);
            assert(s[i] == rect);
        }
        if in_rounded_rect(rect, r, px, py) {
            assert(holds_within(s[0], px, py));
        }
    } else {
        lemma_corner_spans_cover(rect, r, 0, px, py);
        let band = rect.middle_band(r);
        let cs = rect.corner_spans(r, 0);
        assert(s == band + cs);
        let b = band.len() as int;
        if spans_hold(s, px, py) {
            let i = choose|i: int| 0 <= i < s.len() && #[trigger] holds_within(s[i], px, py);
            if i >= b {
                assert(s[i] == cs[i - b]);
                assert(holds_within(cs[i - b], px, py));
                let k = if py < rect.y + r {
                    py - rect.y
                } else {
                    rect.y + rect.height - 1 - py
                };
                lemma_row_inset_bounds(r, k, k);
            } else {
                assert(s[i] == band[0]);
                assert(band[0].y == rect.y + r);
                assert(band[0].height == rect.height - 2 * r);
                assert(rect.y + r <= py < rect.y + rect.height - r);
            }
        }
        if in_rounded_rect(rect, r, px, py) {
            if rect.y + r <= py < rect.y + rect.height - r {
                assert(s[0] == band[0]);
                assert(holds_within(s[0], px, py));
            } else {
                let j = choose|j: int| 0 <= j < cs.len() && #[trigger] holds_within(cs[j], px, py);
                assert(s[j + b] == cs[j]);
                assert(holds_within(s[j + b], px, py));
            }
        }
    }
}


/// A rectangle meets a surface exactly when one of its pixels lands on it.
pub proof fn lemma_meets_surface_iff_a_pixel_lands(rect: Rect, width: u32, height: u32)
    requires
        rect.width <= i32::MAX,
        rect.height <= i32::MAX,
    ensures
        rect.meets_surface(width, height) <==> exists|px: int, py: int|
            #[trigger] holds_within(rect, px, py) && 0 <= px < width && 0 <= py < height,
{
    if rect.meets_surface(width, height) {
        let px = max_int(rect.x as int, 0);
        let py = max_int(rect.y as int, 0);
        assert(holds_within(rect, px, py) && 0 <= px < width && 0 <= py < height);
    }
    if exists|px: int, py: int|
        #[trigger] holds_within(rect, px, py) && 0 <= px < width && 0 <= py < height {
        let (px, py) = choose|px: int, py: int|
            #[trigger] holds_within(rect, px, py) && 0 <= px < width && 0 <= py < height;
        assert(rect.meets_surface(width, height));
    }
}

/// Squares of non-negative integers grow with them.
pub proof fn lemma_square_monotone(a: int, b: int)
    requires
        0 <= a <= b,
    ensures
        a * a <= b * b,
{
    assert(a * a <= b * b) by (nonlinear_arith)
        requires 0 <= a <= b;
}

} // verus!
