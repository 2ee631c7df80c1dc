//! What one output decides about repainting: where the selection falls on it,
//! when to draw, and what region to ask the compositor to blur.
use vstd::prelude::*;

use crate::geometry::{
    holds_within, in_rounded_rect, lemma_clamp_keeps_the_visible_part,
    lemma_meets_surface_iff_a_pixel_lands, lemma_rounded_spans_cover, lemma_rounded_spans_tile,
    lies_within, spans_hold, Point, Rect, SUBPIXELS,
};

verus! {

/// `-v`, saturated into `i32`.
pub open spec fn negated(v: i32) -> int {
    if v == i32::MIN { i32::MAX as int } else { -v }
}

/// The paint and frame state of one output's surface.
#[derive(Debug, Clone, Copy, PartialEq, Eq)]
pub struct Monitor {
    /// The output's position in the global compositor space.
    pub origin: (i32, i32),
    pub width: u32,
    pub height: u32,
    /// Whether the compositor has sized the surface yet.
    pub configured: bool,
    /// Whether the surface shows something other than what it should.
    pub dirty: bool,
    /// Whether a frame callback is outstanding.
    pub frame_pending: bool,
    /// The selection, in surface coordinates, that the surface last showed.
    pub painted: Option<Rect>,
    /// The selection, in surface coordinates, whose region was last handed to the compositor to blur.
    pub blur_region: Option<Rect>,
}

/// What a repaint of one surface draws.
#[derive(Debug, Clone, Copy, PartialEq, Eq)]
pub struct DrawPlan {
    pub width: u32,
    pub height: u32,
    /// The selection in surface coordinates, if any of it falls on the surface.
    pub rect: Option<Rect>,
}

/// What to tell the compositor about the blur region.
#[derive(Debug, Clone, PartialEq, Eq)]
pub enum BlurChange {
    /// Blur the union of these spans.
    Region(Vec<Rect>),
    /// Blur nothing.
    Clear,
}

/// Whether the global rectangle `s` can be moved into the surface coordinates
/// of an output at `origin` without leaving `i32`.
pub open spec fn shift_in_range(s: Rect, origin: (i32, i32)) -> bool {
    &&& origin.0 != i32::MIN
    &&& origin.1 != i32::MIN
    &&& i32::MIN <= s.x - origin.0 <= i32::MAX
    &&& i32::MIN <= s.y - origin.1 <= i32::MAX
    &&& s.width <= i32::MAX
    &&& s.height <= i32::MAX
}

/// Whether some pixel of the global rectangle `s` lands on a `width` by
/// `height` surface whose top-left corner sits at `origin`.
pub open spec fn lands_on(s: Rect, origin: (i32, i32), width: u32, height: u32) -> bool {
    exists|px: int, py: int|
        #[trigger] holds_within(s, px, py) && 0 <= px - origin.0 < width && 0 <= py - origin.1
            < height
}

impl Monitor {
    /// The part of a global selection that falls on this output, in surface coordinates.
    pub open spec fn local_view(self, selection: Option<Rect>) -> Option<Rect> {
        match selection {
            None => None,
            Some(s) => {
                let moved = s.moved_by(negated(self.origin.0), negated(self.origin.1));
                if moved.meets_surface(self.width, self.height) {
                    Some(moved)
                } else {
                    None
                }
            },
        }
    }

    pub fn new(origin: (i32, i32)) -> (m: Self)
        ensures
            m.origin == origin,
            m.width == 0,
            m.height == 0,
            !m.configured,
            !m.dirty,
            !m.frame_pending,
            m.painted is None,
            m.blur_region is None,
    {
        Self {
            origin,
            width: 0,
            height: 0,
            configured: false,
            dirty: false,
            frame_pending: false,
            painted: None,
            blur_region: None,
        }
    }

    /// Moves the output; says whether it moved.
    pub fn set_origin(&mut self, origin: (i32, i32)) -> (moved: bool)
        ensures
            moved == (old(self).origin != origin),
            *final(self) == (Monitor { origin, ..*old(self) }),
    {
        let moved = self.origin.0 != origin.0 || self.origin.1 != origin.1;
        self.origin = origin;
        moved
    }

    /// Takes the size the compositor gave the surface; a new configure also
    /// releases any frame the surface was waiting for.
    pub fn configure(&mut self, width: u32, height: u32)
        ensures
            *final(self) == (Monitor {
                width,
                height,
                configured: true,
                frame_pending: false,
                ..*old(self)
            }),
    {
        self.width = width;
        self.height = height;
        self.configured = true;
        self.frame_pending = false;
    }

    /// The selection moved into this output's surface coordinates, if any of
    /// it falls on the surface.
    pub fn local_rect(&self, selection: Option<Rect>) -> (r: Option<Rect>)
        ensures
            r == self.local_view(selection),
            selection is Some && shift_in_range(selection->0, self.origin) ==> (r is Some <==> lands_on(
                selection->0,
                self.origin,
                self.width,
                self.height,
            )),
    {
        proof {
            if let Some(s) = selection {
                if shift_in_range(s, self.origin) {
                    lemma_seen_iff_a_pixel_lands(*self, s);
                }
            }
        }
        match selection {
            None => None,
            Some(s) => {
                let dx = if self.origin.0 == i32::MIN {
                    i32::MAX
                } else {
                    -self.origin.0
                };
                let dy = if self.origin.1 == i32::MIN {
                    i32::MAX
                } else {
                    -self.origin.1
                };
                let moved = s.translate(dx, dy);
                if moved.overlaps_surface(self.width, self.height) {
                    Some(moved)
                } else {
                    None
                }
            },
        }
    }

    /// Whether any of a global rectangle falls on this output.
    pub fn covers(&self, rect: Rect) -> (c: bool)
        ensures
            c == self.local_view(Some(rect)) is Some,
            shift_in_range(rect, self.origin) ==> (c <==> lands_on(rect, self.origin, self.width, self.height)),
    {
        self.local_rect(Some(rect)).is_some()
    }

    /// Lifts a surface-local pointer position (in 1/256 pixel steps) into the
    /// global space.
    pub fn point_to_global(&self, position: (i32, i32)) -> (p: Point)
        ensures
            p.x == position.0 + self.origin.0 * SUBPIXELS,
            p.y == position.1 + self.origin.1 * SUBPIXELS,
    {
        Point::new(
            position.0 as i64 + self.origin.0 as i64 * SUBPIXELS,
            position.1 as i64 + self.origin.1 as i64 * SUBPIXELS,
        )
    }

    /// Notes that the selection may have changed; says whether to draw now.
    /// Nothing happens when the surface already shows this selection; else the
    /// surface is dirty and draws at once, unless a frame is pending, in which
    /// case it draws when that frame is done.
    pub fn sync(&mut self, selection: Option<Rect>) -> (draw_now: bool)
        ensures
            old(self).painted == old(self).local_view(selection) ==> *final(self) == *old(self)
                && !draw_now,
            old(self).painted != old(self).local_view(selection) ==> *final(self) == (
            Monitor { dirty: true, ..*old(self) }) && draw_now == !old(self).frame_pending,
    {
        if self.painted == self.local_rect(selection) {
            return false;
        }
        self.dirty = true;
        !self.frame_pending
    }

    /// The compositor is done with the last frame; says whether to draw now.
    pub fn frame_done(&mut self) -> (draw_now: bool)
        ensures
            *final(self) == (Monitor { frame_pending: false, ..*old(self) }),
            draw_now == old(self).dirty,
    {
        self.frame_pending = false;
        self.dirty
    }

    /// Starts a repaint: nothing is drawn before the compositor has given the
    /// surface a size; otherwise the surface is no longer dirty and the plan says
    /// what to draw.
    pub fn draw(&mut self, selection: Option<Rect>) -> (plan: Option<DrawPlan>)
        ensures
            !old(self).configured || old(self).width == 0 || old(self).height == 0 ==> plan is None
                && *final(self) == *old(self),
            old(self).configured && old(self).width != 0 && old(self).height != 0 ==> plan == Some(
                DrawPlan {
                    width: old(self).width,
                    height: old(self).height,
                    rect: old(self).local_view(selection),
                },
            ) && *final(self) == (Monitor { dirty: false, ..*old(self) }),
    {
        if !self.configured || self.width == 0 || self.height == 0 {
            return None;
        }
        self.dirty = false;
        Some(DrawPlan { width: self.width, height: self.height, rect: self.local_rect(selection) })
    }

    /// A frame callback was requested for the repaint.
    pub fn frame_requested(&mut self)
        ensures
            *final(self) == (Monitor { frame_pending: true, ..*old(self) }),
    {
        self.frame_pending = true;
    }

    /// The repaint showing `rect` was committed.
    pub fn mark_painted(&mut self, rect: Option<Rect>)
        ensures
            *final(self) == (Monitor { painted: rect, ..*old(self) }),
    {
        self.painted = rect;
    }

    /// The compositor was told to blur the region of `wanted`.
    pub fn mark_blurred(&mut self, wanted: Option<Rect>)
        ensures
            *final(self) == (Monitor { blur_region: wanted, ..*old(self) }),
    {
        self.blur_region = wanted;
    }
}

/// The spans clipped to a `width` by `height` surface, dropping those that
/// fall off it entirely, in order.
pub open spec fn visible_spans(spans: Seq<Rect>, width: u32, height: u32) -> Seq<Rect>
    decreases spans.len(),
{
    if spans.len() == 0 {
        seq![]
    } else {
        let rest = visible_spans(spans.drop_last(), width, height);
        let clipped = spans.last().clamped_to(width, height);
        if clipped.empty() {
            rest
        } else {
            rest.push(clipped)
        }
    }
}

/// The region to blur behind a selection: the spans of its rounded outline,
/// in surface coordinates, clipped to the surface.
pub fn blur_spans(rect: Rect, radius: u32, width: u32, height: u32) -> (spans: Vec<Rect>)
    requires
        rect.spans_in_range(radius),
        width <= i32::MAX,
        height <= i32::MAX,
    ensures
        spans@ == visible_spans(rect.rounded_span_list(radius), width, height),
        rect.edges_in_range() ==> forall|px: int, py: int|
            #[trigger] spans_hold(spans@, px, py) <==> (in_rounded_rect(
                rect,
                rect.fitted_radius(radius),
                px,
                py,
            ) && 0 <= px < width && 0 <= py < height),
{
    proof {
        if rect.edges_in_range() {
            assert forall|px: int, py: int|
                #[trigger] spans_hold(visible_spans(rect.rounded_span_list(radius), width, height), px, py)
                    <==> (in_rounded_rect(rect, rect.fitted_radius(radius), px, py) && 0 <= px < width
                    && 0 <= py < height) by {
                lemma_blur_region_is_the_visible_rounded_rect(rect, radius, width, height, px, py);
            }
        }
    }
    let all = rect.rounded_spans(radius);
    let mut out: Vec<Rect> = Vec::new();
    let mut i: usize = 0;
    while i < all.len()
        invariant
            i <= all@.len(),
            width <= i32::MAX,
            height <= i32::MAX,
            out@ == visible_spans(all@.take(i as int), width, height),
        decreases all@.len() - i,
    {
        let span = all[i].clamp_to_surface(width, height);
        assert(all@.take(i + 1).drop_last() =~= all@.take(i as int));
        if !span.is_empty() {
            out.push(span);
        }
        i = i + 1;
    }
    assert(all@.take(all@.len() as int) =~= all@);
    out
}

impl Monitor {
    /// What to tell the compositor so that it blurs behind `wanted` (the
    /// selection in surface coordinates) with corners of radius `radius`:
    /// nothing when that region was already handed over, else the clipped
    /// spans of the rounded selection, or no region at all when there is no selection.
    pub fn blur_change(&self, wanted: Option<Rect>, radius: u32) -> (change: Option<BlurChange>)
        requires
            wanted matches Some(r) ==> r.spans_in_range(radius) && self.width <= i32::MAX
                && self.height <= i32::MAX,
        ensures
            self.blur_region == wanted ==> change is None,
            self.blur_region != wanted ==> match wanted {
                Some(r) => change matches Some(BlurChange::Region(spans)) && spans@ == visible_spans(
                    r.rounded_span_list(radius),
                    self.width,
                    self.height,
                ),
                None => change == Some(BlurChange::Clear),
            },
    {
        if self.blur_region == wanted {
            return None;
        }
        match wanted {
            Some(rect) => Some(BlurChange::Region(blur_spans(rect, radius, self.width, self.height))),
            None => Some(BlurChange::Clear),
        }
    }
}

/// Where neither the origin nor the moved selection leaves `i32`, an output
/// sees the selection moved by exactly minus its origin, and sees it at all
/// only when that overlaps its surface.
pub proof fn lemma_local_view_is_the_exact_shift(m: Monitor, s: Rect)
    requires
        m.origin.0 != i32::MIN,
        m.origin.1 != i32::MIN,
        i32::MIN <= s.x - m.origin.0 <= i32::MAX,
        i32::MIN <= s.y - m.origin.1 <= i32::MAX,
    ensures
        ({
            let moved = Rect {
                x: (s.x - m.origin.0) as i32,
                y: (s.y - m.origin.1) as i32,
                width: s.width,
                height: s.height,
            };
            m.local_view(Some(s)) == if moved.meets_surface(m.width, m.height) {
                Some(moved)
            } else {
                None
            }
        }),
{
}

/// An output sees a selection exactly when some pixel of it lands on the
/// output's surface; one lying wholly beside, above or below it is not seen.
pub proof fn lemma_seen_iff_a_pixel_lands(m: Monitor, s: Rect)
    requires
        shift_in_range(s, m.origin),
    ensures
        m.local_view(Some(s)) is Some <==> lands_on(s, m.origin, m.width, m.height),
{
    let moved = s.moved_by(-m.origin.0, -m.origin.1);
    assert(moved.x == s.x - m.origin.0 && moved.y == s.y - m.origin.1);
    lemma_meets_surface_iff_a_pixel_lands(moved, m.width, m.height);
    if lands_on(s, m.origin, m.width, m.height) {
        let (px, py) = choose|px: int, py: int|
            #[trigger] holds_within(s, px, py) && 0 <= px - m.origin.0 < m.width && 0 <= py
                - m.origin.1 < m.height;
        assert(holds_within(moved, px - m.origin.0, py - m.origin.1));
    }
    if moved.meets_surface(m.width, m.height) {
        let (qx, qy) = choose|qx: int, qy: int|
            #[trigger] holds_within(moved, qx, qy) && 0 <= qx < m.width && 0 <= qy < m.height;
        assert(holds_within(s, qx + m.origin.0, qy + m.origin.1));
    }
}

/// Clipping spans to a surface keeps exactly their pixels that lie on it.
pub proof fn lemma_visible_spans_hold(spans: Seq<Rect>, width: u32, height: u32, px: int, py: int)
    requires
        width <= i32::MAX,
        height <= i32::MAX,
        forall|k: int| 0 <= k < spans.len() ==> (#[trigger] spans[k]).edges_in_range(),
    ensures
        spans_hold(visible_spans(spans, width, height), px, py) <==> (spans_hold(spans, px, py) && 0
            <= px < width && 0 <= py < height),
    decreases spans.len(),
{
    if spans.len() > 0 {
        let init = spans.drop_last();
        let last = spans.last();
        assert(last == spans[spans.len() - 1]);
        assert forall|k: int| 0 <= k < init.len() implies (#[trigger] init[k]).edges_in_range() by {
            assert(init[k] == spans[k]);
        }
        lemma_visible_spans_hold(init, width, height, px, py);
        let rest = visible_spans(init, width, height);
        let clipped = last.clamped_to(width, height);
        lemma_clamp_keeps_the_visible_part(last, width, height, px, py);
        lemma_clamp_keeps_the_visible_part(clipped, width, height, px, py);
        assert(holds_within(clipped, px, py) <==> (holds_within(last, px, py) && 0 <= px < width && 0
            <= py < height));
        let out = visible_spans(spans, width, height);
        if spans_hold(spans, px, py) {
            let i = choose|i: int| 0 <= i < spans.len() && #[trigger] holds_within(spans[i], px, py);
            if i < init.len() {
                assert(init[i] == spans[i]);
                assert(holds_within(init[i], px, py));
            }
        }
        if spans_hold(init, px, py) {
            let i = choose|i: int| 0 <= i < init.len() && #[trigger] holds_within(init[i], px, py);
            assert(spans[i] == init[i]);
            assert(holds_within(spans[i], px, py));
        }
        if holds_within(last, px, py) {
            assert(holds_within(spans[spans.len() - 1], px, py));
        }
        if spans_hold(out, px, py) {
            let i = choose|i: int| 0 <= i < out.len() && #[trigger] holds_within(out[i], px, py);
            if i < rest.len() {
                assert(out[i] == rest[i]);
                assert(holds_within(rest[i], px, py));
            }
        }
        if spans_hold(rest, px, py) {
            let i = choose|i: int| 0 <= i < rest.len() && #[trigger] holds_within(rest[i], px, py);
            assert(out[i] == rest[i]);
            assert(holds_within(out[i], px, py));
        }
        if !clipped.empty() && holds_within(clipped, px, py) {
            assert(out[out.len() - 1] == clipped);
            assert(holds_within(out[out.len() - 1], px, py));
        }
    }
}

/// The blur region behind a selection is exactly its rounded outline clipped
/// to the surface: a pixel is blurred when it lies in the rounded selection
/// and on the `width` by `height` surface, and only then.
pub proof fn lemma_blur_region_is_the_visible_rounded_rect(
    rect: Rect,
    radius: u32,
    width: u32,
    height: u32,
    px: int,
    py: int,
)
    requires
        rect.edges_in_range(),
        width <= i32::MAX,
        height <= i32::MAX,
    ensures
        spans_hold(visible_spans(rect.rounded_span_list(radius), width, height), px, py) <==> (
        in_rounded_rect(rect, rect.fitted_radius(radius), px, py) && 0 <= px < width && 0 <= py
            < height),
{
    let all = rect.rounded_span_list(radius);
    lemma_rounded_spans_tile(rect, radius);
    assert forall|k: int| 0 <= k < all.len() implies (#[trigger] all[k]).edges_in_range() by {
        assert(lies_within(all[k], rect));
    }
    lemma_visible_spans_hold(all, width, height, px, py);
    lemma_rounded_spans_cover(rect, radius, px, py);
}

} // verus!
