//! In-memory RGBA surfaces and the drawing operations of the software renderer.
use vstd::prelude::*;

use crate::gfx::rect::{Rect, RectModel};
use crate::util::image::{
    alpha, blend_color, blend_premultiplied_color, lemma_premultiplied_fits, premultiply_color,
    spec_blend_color, spec_blend_premultiplied, spec_premultiply_color,
};

verus! {

/// Why a drawing operation was refused.
#[derive(Debug, Clone, Copy, PartialEq, Eq)]
pub enum SurfaceError {
    /// A rectangle reaches outside the surface it refers to.
    RectOutsideSurface,
    /// The source and destination rectangles of a copy differ in size.
    SizeMismatch,
    /// The byte buffer does not hold exactly one RGBA value per pixel.
    InvalidBytesLength,
}

/// A `width` by `height` grid of packed RGBA pixels, stored row by row.
pub struct Surface {
    pub width: u16,
    pub height: u16,
    pub pixels: Vec<u32>,
}

/// Position of pixel `(x, y)` in the row-major buffer of a surface `w` pixels wide.
pub open spec fn pixel_index(w: int, x: int, y: int) -> int {
    y * w + x
}

proof fn lemma_index_in_bounds(w: int, h: int, x: int, y: int)
    requires
        0 <= x < w,
        0 <= y < h,
    ensures
        0 <= pixel_index(w, x, y) < w * h,
        pixel_index(w, x, y) + 1 <= w * h,
{
    assert(0 <= y * w + x < w * h) by (nonlinear_arith)
        requires
            0 <= x < w,
            0 <= y < h,
    ;
}

proof fn lemma_index_unique(w: int, x1: int, y1: int, x2: int, y2: int)
    requires
        0 <= x1 < w,
        0 <= x2 < w,
        0 <= y1,
        0 <= y2,
        pixel_index(w, x1, y1) == pixel_index(w, x2, y2),
    ensures
        x1 == x2,
        y1 == y2,
{
    assert(y1 == y2) by (nonlinear_arith)
        requires
            0 <= x1 < w,
            0 <= x2 < w,
            0 <= y1,
            0 <= y2,
            y1 * w + x1 == y2 * w + x2,
    {
        if y1 < y2 {
            assert(y1 * w + w <= y2 * w);
        } else if y2 < y1 {
            assert(y2 * w + w <= y1 * w);
        }
    }
}

/// `new` is `old` with the pixels of `region` replaced by `val`, in a `w` by `h` surface.
pub open spec fn painted(
    new: Seq<u32>,
    old: Seq<u32>,
    w: int,
    h: int,
    region: spec_fn(int, int) -> bool,
    val: spec_fn(int, int) -> u32,
) -> bool {
    &&& new.len() == old.len()
    &&& forall|x: int, y: int|
        0 <= x < w && 0 <= y < h ==> #[trigger] new[pixel_index(w, x, y)] == if region(x, y) {
            val(x, y)
        } else {
            old[pixel_index(w, x, y)]
        }
}

/// The pixels of `r` visited by a row-major walk before reaching `(r.left + dx, r.top + dy)`.
pub open spec fn visited(r: RectModel, dx: int, dy: int, x: int, y: int) -> bool {
    r.has_point(x, y) && (y - r.top < dy || (y - r.top == dy && x - r.left < dx))
}

proof fn lemma_paint_pixel(
    new: Seq<u32>,
    old: Seq<u32>,
    w: int,
    h: int,
    region: spec_fn(int, int) -> bool,
    region2: spec_fn(int, int) -> bool,
    val: spec_fn(int, int) -> u32,
    x0: int,
    y0: int,
)
    requires
        painted(new, old, w, h, region, val),
        old.len() == w * h,
        0 <= x0 < w,
        0 <= y0 < h,
        forall|x: int, y: int| #[trigger] region2(x, y) == (region(x, y) || (x == x0 && y == y0)),
    ensures
        painted(new.update(pixel_index(w, x0, y0), val(x0, y0)), old, w, h, region2, val),
{
    let new2 = new.update(pixel_index(w, x0, y0), val(x0, y0));
    lemma_index_in_bounds(w, h, x0, y0);
    assert forall|x: int, y: int| 0 <= x < w && 0 <= y < h implies #[trigger] new2[pixel_index(
        w,
        x,
        y,
    )] == if region2(x, y) {
        val(x, y)
    } else {
        old[pixel_index(w, x, y)]
    } by {
        lemma_index_in_bounds(w, h, x, y);
        if pixel_index(w, x, y) == pixel_index(w, x0, y0) {
            lemma_index_unique(w, x, y, x0, y0);
        }
        assert(new[pixel_index(w, x, y)] == if region(x, y) {
            val(x, y)
        } else {
            old[pixel_index(w, x, y)]
        });
    }
}

proof fn lemma_paint_same_region(
    new: Seq<u32>,
    old: Seq<u32>,
    w: int,
    h: int,
    region: spec_fn(int, int) -> bool,
    region2: spec_fn(int, int) -> bool,
    val: spec_fn(int, int) -> u32,
)
    requires
        painted(new, old, w, h, region, val),
        forall|x: int, y: int| 0 <= x < w && 0 <= y < h ==> #[trigger] region2(x, y) == region(x, y),
    ensures
        painted(new, old, w, h, region2, val),
{
    assert forall|x: int, y: int| 0 <= x < w && 0 <= y < h implies #[trigger] new[pixel_index(
        w,
        x,
        y,
    )] == if region2(x, y) {
        val(x, y)
    } else {
        old[pixel_index(w, x, y)]
    } by {
        assert(region2(x, y) == region(x, y));
    }
}

proof fn lemma_paint_nothing(s: Seq<u32>, w: int, h: int, region: spec_fn(int, int) -> bool, val: spec_fn(int, int) -> u32)
    requires
        forall|x: int, y: int| !#[trigger] region(x, y),
    ensures
        painted(s, s, w, h, region, val),
{
}


/// Fixed-point (16.16) distance between two sampled source pixels when `src_len` pixels are
/// stretched over `dst_len` pixels.
pub open spec fn scale_step(src_len: int, dst_len: int) -> int {
    (src_len * 65536) / dst_len
}

/// Offset of the source pixel sampled for destination offset `d`: the centre of the `d`-th
/// step, truncated.
pub open spec fn scale_offset(d: int, src_len: int, dst_len: int) -> int {
    (scale_step(src_len, dst_len) / 2 + d * scale_step(src_len, dst_len)) / 65536
}

/// Index in `src` of the pixel that a scaled blit of `src_rect` to `dst_rect` samples for the
/// destination pixel `(x, y)`.
pub open spec fn scaled_source_index(src: &Surface, src_rect: RectModel, dst_rect: RectModel, x: int, y: int) -> int {
    pixel_index(
        src.width as int,
        src_rect.left + scale_offset(x - dst_rect.left, src_rect.width(), dst_rect.width()),
        src_rect.top + scale_offset(y - dst_rect.top, src_rect.height(), dst_rect.height()),
    )
}

/// Every pixel that a scaled blit samples lies in the source buffer.
pub open spec fn scaled_reads_in_bounds(src: &Surface, src_rect: RectModel, dst_rect: RectModel) -> bool {
    forall|x: int, y: int|
        #![trigger scaled_source_index(src, src_rect, dst_rect, x, y)]
        dst_rect.has_point(x, y) ==> 0 <= scaled_source_index(src, src_rect, dst_rect, x, y) < src.pixels.len()
}

proof fn lemma_scale_step(src_len: int, dst_len: int, d: int)
    requires
        0 <= src_len,
        0 < dst_len,
        0 <= d <= dst_len,
    ensures
        0 <= scale_step(src_len, dst_len) <= src_len * 65536,
        0 <= d * scale_step(src_len, dst_len) <= src_len * 65536,
        scale_step(src_len, dst_len) * dst_len <= src_len * 65536,
{
    let inc = scale_step(src_len, dst_len);
    assert(0 <= inc <= src_len * 65536 && inc * dst_len <= src_len * 65536) by (nonlinear_arith)
        requires
            0 <= src_len,
            0 < dst_len,
            inc == (src_len * 65536) / dst_len,
    ;
    assert(0 <= d * inc <= inc * dst_len) by (nonlinear_arith)
        requires
            0 <= d <= dst_len,
            0 <= inc,
    ;
}

/// A scaled blit samples inside the source rectangle when it is not empty.
pub proof fn lemma_scale_offset_in_range(d: int, src_len: int, dst_len: int)
    requires
        0 < src_len,
        0 <= d < dst_len,
    ensures
        0 <= scale_offset(d, src_len, dst_len) < src_len,
{
    let inc = scale_step(src_len, dst_len);
    lemma_scale_step(src_len, dst_len, d);
    assert(inc / 2 + d * inc < src_len * 65536) by (nonlinear_arith)
        requires
            0 <= d < dst_len,
            0 <= inc,
            inc * dst_len <= src_len * 65536,
            0 < src_len,
    {
        if inc > 0 {
            assert(d * inc <= (dst_len - 1) * inc);
            assert((dst_len - 1) * inc == inc * dst_len - inc);
        }
    }
}

/// A scaled blit from a non-empty source rectangle that lies in the source surface only
/// reads pixels of the source.
pub proof fn lemma_scaled_reads_in_bounds(src: &Surface, src_rect: RectModel, dst_rect: RectModel)
    requires
        src.wf(),
        src.bounds().contains(src_rect),
        src_rect.width() > 0,
        src_rect.height() > 0,
    ensures
        scaled_reads_in_bounds(src, src_rect, dst_rect),
{
    assert forall|x: int, y: int| #![trigger scaled_source_index(src, src_rect, dst_rect, x, y)]
        dst_rect.has_point(x, y) implies 0 <= scaled_source_index(src, src_rect, dst_rect, x, y)
        < src.pixels.len() by {
        lemma_scale_offset_in_range(x - dst_rect.left, src_rect.width(), dst_rect.width());
        lemma_scale_offset_in_range(y - dst_rect.top, src_rect.height(), dst_rect.height());
        lemma_index_in_bounds(
            src.width as int,
            src.height as int,
            src_rect.left + scale_offset(x - dst_rect.left, src_rect.width(), dst_rect.width()),
            src_rect.top + scale_offset(y - dst_rect.top, src_rect.height(), dst_rect.height()),
        );
    }
}

proof fn lemma_row_bound(row: int, w: int, h: int, col: int)
    requires
        0 <= row,
        0 <= col,
        0 <= w,
        0 <= h,
        row * w + col < w * h,
    ensures
        row < w * h,
        1 <= w,
{
    assert(1 <= w && row <= row * w) by (nonlinear_arith)
        requires
            0 <= row,
            0 <= col,
            0 <= w,
            0 <= h,
            row * w + col < w * h,
    ;
}

/// `width * height` as a buffer length.
fn area(width: u16, height: u16) -> (n: usize)
    ensures
        n == width as int * height as int,
        n <= 0xFFFF_FFFFu64,
{
    let (w, h) = (width as u64, height as u64);
    assert(w * h <= 0xFFFF_FFFF) by (nonlinear_arith)
        requires
            w <= 0xFFFF,
            h <= 0xFFFF,
    ;
    (w * h) as usize
}

impl Surface {
    /// The pixel buffer holds exactly one value per pixel.
    pub open spec fn wf(&self) -> bool {
        self.pixels.len() == self.width as int * self.height as int
    }

    /// The rectangle covering the whole surface.
    pub open spec fn bounds(&self) -> RectModel {
        RectModel { left: 0, top: 0, right: self.width as int, bottom: self.height as int }
    }

    /// The pixel at `(x, y)`.
    pub open spec fn pixel(&self, x: int, y: int) -> u32 {
        self.pixels@[pixel_index(self.width as int, x, y)]
    }

    /// Whether `(x, y)` is a pixel of the surface.
    pub open spec fn has_pixel(&self, x: int, y: int) -> bool {
        0 <= x < self.width && 0 <= y < self.height
    }

    /// Index of pixel `(x, y)` in the buffer.
    fn index(&self, x: usize, y: usize) -> (i: usize)
        requires
            self.wf(),
            self.has_pixel(x as int, y as int),
        ensures
            i == pixel_index(self.width as int, x as int, y as int),
            i < self.pixels.len(),
    {
        proof {
            lemma_index_in_bounds(self.width as int, self.height as int, x as int, y as int);
        }
        y * (self.width as usize) + x
    }

    /// A transparent surface.
    pub fn new(width: u16, height: u16) -> (s: Self)
        ensures
            s.wf(),
            s.width == width,
            s.height == height,
            forall|i: int| 0 <= i < s.pixels.len() ==> s.pixels@[i] == 0x00_00_00_00u32,
    {
        let n = area(width, height);
        Self { width, height, pixels: vec![0x00_00_00_00u32; n] }
    }

    /// An opaque black surface.
    pub fn new_black(width: u16, height: u16) -> (s: Self)
        ensures
            s.wf(),
            s.width == width,
            s.height == height,
            forall|i: int| 0 <= i < s.pixels.len() ==> s.pixels@[i] == 0xFF_00_00_00u32,
    {
        let n = area(width, height);
        Self { width, height, pixels: vec![0xFF_00_00_00u32; n] }
    }

    /// A surface whose pixels are read from `bytes`, four bytes each, in the machine's byte
    /// order.
    pub fn from_bytes(width: u16, height: u16, bytes: &[u8]) -> (r: Result<Self, SurfaceError>)
        ensures
            r is Ok <==> bytes@.len() == width as int * height as int * 4,
            r is Err ==> r == Err::<Self, SurfaceError>(SurfaceError::InvalidBytesLength),
            r matches Ok(s) ==> s.wf() && s.width == width && s.height == height && words_of(
                s.pixels@,
                bytes@,
            ),
    {
        let n = area(width, height);
        if bytes.len() as u64 != n as u64 * 4 {
            return Err(SurfaceError::InvalidBytesLength);
        }
        let pixels = collect_pixels(bytes);
        Ok(Self { width, height, pixels })
    }

    /// The rectangle covering the whole surface.
    pub fn rect(&self) -> (r: Rect)
        ensures
            r@ == self.bounds(),
    {
        Rect::from_xywh(0, 0, self.width as u32, self.height as u32)
    }

    /// Sets every pixel to `color`.
    pub fn clear(&mut self, color: u32)
        ensures
            final(self).width == old(self).width,
            final(self).height == old(self).height,
            final(self).pixels.len() == old(self).pixels.len(),
            forall|i: int| 0 <= i < final(self).pixels.len() ==> final(self).pixels@[i] == color,
    {
        let n = self.pixels.len();
        let mut i: usize = 0;
        while i < n
            invariant
                n == self.pixels.len(),
                n == old(self).pixels.len(),
                self.width == old(self).width,
                self.height == old(self).height,
                i <= n,
                forall|j: int| 0 <= j < i ==> self.pixels@[j] == color,
            decreases n - i,
        {
            self.pixels.set(i, color);
            i += 1;
        }
    }

    /// Fills `rect` with `color`, replacing what was there.
    pub fn fill_rect_copy(&mut self, rect: Rect, color: u32) -> (r: Result<(), SurfaceError>)
        requires
            old(self).wf(),
        ensures
            final(self).wf(),
            final(self).width == old(self).width,
            final(self).height == old(self).height,
            r is Ok <==> old(self).bounds().contains(rect@),
            r is Err ==> r == Err::<(), SurfaceError>(SurfaceError::RectOutsideSurface)
                && final(self).pixels@ == old(self).pixels@,
            r is Ok ==> forall|x: int, y: int|
                #![trigger final(self).pixel(x, y)]
                old(self).has_pixel(x, y) ==> final(self).pixel(x, y) == if rect@.has_point(x, y) {
                    color
                } else {
                    old(self).pixel(x, y)
                },
    {
        if !self.rect().contains(rect) {
            return Err(SurfaceError::RectOutsideSurface);
        }
        let ghost old_pixels = self.pixels@;
        let ghost (w, h) = (self.width as int, self.height as int);
        let ghost val = |x: int, y: int| color;
        let ghost r = rect@;
        let rw = rect.width() as usize;
        let rh = rect.height() as usize;
        proof { rect.lemma_edges(); }
        let (left, top) = (rect.left as usize, rect.top as usize);
        proof { lemma_paint_nothing(old_pixels, w, h, |x: int, y: int| visited(r, 0, 0, x, y), val); }
        let mut dy: usize = 0;
        while dy < rh
            invariant
                self.wf(),
                w == self.width,
                h == self.height,
                old_pixels.len() == w * h,
                val == (|x: int, y: int| color),
                r == rect@,
                left == r.left,
                top == r.top,
                rw == r.width(),
                rh == r.height(),
                0 <= r.width(),
                0 <= r.height(),
                r.right <= w,
                r.bottom <= h,
                dy <= rh,
                painted(self.pixels@, old_pixels, w, h, |x: int, y: int| visited(r, 0, dy as int, x, y), val),
            decreases rh - dy,
        {
            let mut dx: usize = 0;
            while dx < rw
                invariant
                    self.wf(),
                    w == self.width,
                    h == self.height,
                    old_pixels.len() == w * h,
                    val == (|x: int, y: int| color),
                    left == r.left,
                    top == r.top,
                    rw == r.width(),
                    rh == r.height(),
                    r.right <= w,
                    r.bottom <= h,
                    dy < rh,
                    dx <= rw,
                    painted(self.pixels@, old_pixels, w, h, |x: int, y: int| visited(r, dx as int, dy as int, x, y), val),
                decreases rw - dx,
            {
                let i = self.index(left + dx, top + dy);
                let ghost prev = self.pixels@;
                let ghost next = |x: int, y: int| visited(r, dx + 1, dy as int, x, y);
                self.pixels.set(i, color);
                proof {
                    lemma_paint_pixel(
                        prev, old_pixels, w, h,
                        |x: int, y: int| visited(r, dx as int, dy as int, x, y),
                        next, val, (left + dx) as int, (top + dy) as int,
                    );
                    assert(val((left + dx) as int, (top + dy) as int) == color);
                    assert(i == pixel_index(w, (left + dx) as int, (top + dy) as int));
                    assert(self.pixels@ == prev.update(
                        pixel_index(w, (left + dx) as int, (top + dy) as int),
                        val((left + dx) as int, (top + dy) as int),
                    ));
                }
                dx += 1;
                proof {
                    lemma_paint_same_region(
                        self.pixels@, old_pixels, w, h, next,
                        |x: int, y: int| visited(r, dx as int, dy as int, x, y), val,
                    );
                }
            }
            proof {
                lemma_paint_same_region(
                    self.pixels@, old_pixels, w, h,
                    |x: int, y: int| visited(r, rw as int, dy as int, x, y),
                    |x: int, y: int| visited(r, 0, dy + 1, x, y),
                    val,
                );
            }
            dy += 1;
        }
        proof {
            lemma_paint_same_region(
                self.pixels@, old_pixels, w, h,
                |x: int, y: int| visited(r, 0, rh as int, x, y),
                |x: int, y: int| r.has_point(x, y),
                val,
            );
        }
        Ok(())
    }

    /// The area that `fill_rect_blend` blends: `rect.width()` columns from the left edge of
    /// `rect`, and as many rows from its top edge.
    pub open spec fn blend_fill_area(rect: RectModel) -> RectModel {
        RectModel {
            left: rect.left,
            top: rect.top,
            right: rect.right,
            bottom: rect.top + rect.width(),
        }
    }

    /// Draws `color` over `rect`. An opaque colour fills `rect` as `fill_rect_copy` does;
    /// any other colour is premultiplied and blended over the pixels of the square
    /// `blend_fill_area(rect)`.
    pub fn fill_rect_blend(&mut self, rect: Rect, color: u32) -> (r: Result<(), SurfaceError>)
        requires
            old(self).wf(),
            old(self).bounds().contains(rect@) && alpha(color) != 255 ==> rect@.top
                + rect@.width() <= old(self).height,
        ensures
            final(self).wf(),
            final(self).width == old(self).width,
            final(self).height == old(self).height,
            r is Ok <==> old(self).bounds().contains(rect@),
            r is Err ==> r == Err::<(), SurfaceError>(SurfaceError::RectOutsideSurface)
                && final(self).pixels@ == old(self).pixels@,
            r is Ok && alpha(color) == 255 ==> forall|x: int, y: int|
                #![trigger final(self).pixel(x, y)]
                old(self).has_pixel(x, y) ==> final(self).pixel(x, y) == if rect@.has_point(x, y) {
                    color
                } else {
                    old(self).pixel(x, y)
                },
            r is Ok && alpha(color) != 255 ==> forall|x: int, y: int|
                #![trigger final(self).pixel(x, y)]
                old(self).has_pixel(x, y) ==> final(self).pixel(x, y) == if Self::blend_fill_area(
                    rect@,
                ).has_point(x, y) {
                    spec_blend_premultiplied(old(self).pixel(x, y), spec_premultiply_color(color))
                } else {
                    old(self).pixel(x, y)
                },
    {
        if !self.rect().contains(rect) {
            return Err(SurfaceError::RectOutsideSurface);
        }
        assert((color >> 24 == 255) == ((color >> 24u32) as u8 == 255)) by (bit_vector);
        if color >> 24 == 255 {
            return self.fill_rect_copy(rect, color);
        }
        let pm = premultiply_color(color);
        let ghost old_pixels = self.pixels@;
        let ghost (w, h) = (self.width as int, self.height as int);
        let ghost val = |x: int, y: int| spec_blend_premultiplied(old_pixels[pixel_index(w, x, y)], pm);
        let ghost r = Self::blend_fill_area(rect@);
        let side = rect.width() as usize;
        proof { rect.lemma_edges(); }
        let (left, top) = (rect.left as usize, rect.top as usize);
        proof { lemma_paint_nothing(old_pixels, w, h, |x: int, y: int| visited(r, 0, 0, x, y), val); }
        let mut dy: usize = 0;
        while dy < side
            invariant
                self.wf(),
                w == self.width,
                h == self.height,
                old_pixels.len() == w * h,
                val == (|x: int, y: int| spec_blend_premultiplied(old_pixels[pixel_index(w, x, y)], pm)),
                    pm == spec_premultiply_color(color),
                left == r.left,
                top == r.top,
                side == r.width(),
                side == r.height(),
                0 <= side,
                r.right <= w,
                r.bottom <= h,
                dy <= side,
                painted(self.pixels@, old_pixels, w, h, |x: int, y: int| visited(r, 0, dy as int, x, y), val),
            decreases side - dy,
        {
            let mut dx: usize = 0;
            while dx < side
                invariant
                    self.wf(),
                    w == self.width,
                    h == self.height,
                    old_pixels.len() == w * h,
                    val == (|x: int, y: int| spec_blend_premultiplied(old_pixels[pixel_index(w, x, y)], pm)),
                    pm == spec_premultiply_color(color),
                    left == r.left,
                    top == r.top,
                    side == r.width(),
                    side == r.height(),
                    r.right <= w,
                    r.bottom <= h,
                    dy < side,
                    dx <= side,
                    painted(self.pixels@, old_pixels, w, h, |x: int, y: int| visited(r, dx as int, dy as int, x, y), val),
                decreases side - dx,
            {
                let i = self.index(left + dx, top + dy);
                let ghost prev = self.pixels@;
                let ghost next = |x: int, y: int| visited(r, dx + 1, dy as int, x, y);
                let ghost (x0, y0) = ((left + dx) as int, (top + dy) as int);
                proof {
                    assert(prev[pixel_index(w, x0, y0)] == old_pixels[pixel_index(w, x0, y0)]);
                    lemma_premultiplied_fits(prev[i as int], color);
                }
                let blended = blend_premultiplied_color(self.pixels[i], pm);
                self.pixels.set(i, blended);
                proof {
                    lemma_paint_pixel(
                        prev, old_pixels, w, h,
                        |x: int, y: int| visited(r, dx as int, dy as int, x, y),
                        next, val, x0, y0,
                    );
                    assert(self.pixels@ == prev.update(pixel_index(w, x0, y0), val(x0, y0)));
                }
                dx += 1;
                proof {
                    lemma_paint_same_region(
                        self.pixels@, old_pixels, w, h, next,
                        |x: int, y: int| visited(r, dx as int, dy as int, x, y), val,
                    );
                }
            }
            proof {
                lemma_paint_same_region(
                    self.pixels@, old_pixels, w, h,
                    |x: int, y: int| visited(r, side as int, dy as int, x, y),
                    |x: int, y: int| visited(r, 0, dy + 1, x, y),
                    val,
                );
            }
            dy += 1;
        }
        proof {
            lemma_paint_same_region(
                self.pixels@, old_pixels, w, h,
                |x: int, y: int| visited(r, 0, side as int, x, y),
                |x: int, y: int| r.has_point(x, y),
                val,
            );
        }
        Ok(())
    }

    /// A source pixel drawn over a destination pixel by `blit_blend` and `blit_scale_blend`:
    /// fully transparent source pixels are skipped.
    pub open spec fn blended_pixel(dst: u32, src: u32) -> u32 {
        if alpha(src) == 0 {
            dst
        } else {
            spec_blend_color(dst, src)
        }
    }

    /// Copies `src_rect` of `src` to `dst_rect` of `self`; both must have the same size.
    pub fn blit_copy(&mut self, src_rect: Rect, dst_rect: Rect, src: &Surface) -> (r: Result<(), SurfaceError>)
        requires
            old(self).wf(),
            src.wf(),
        ensures
            final(self).wf(),
            final(self).width == old(self).width,
            final(self).height == old(self).height,
            r == Err::<(), SurfaceError>(SurfaceError::RectOutsideSurface) <==> !(old(self).bounds().contains(dst_rect@)
                && src.bounds().contains(src_rect@)),
            r == Err::<(), SurfaceError>(SurfaceError::SizeMismatch) <==> old(self).bounds().contains(dst_rect@)
                && src.bounds().contains(src_rect@) && (src_rect@.width() != dst_rect@.width()
                || src_rect@.height() != dst_rect@.height()),
            r is Ok <==> old(self).bounds().contains(dst_rect@) && src.bounds().contains(src_rect@)
                && src_rect@.width() == dst_rect@.width() && src_rect@.height() == dst_rect@.height(),
            r is Err ==> final(self).pixels@ == old(self).pixels@,
            r is Ok ==> forall|x: int, y: int|
                #![trigger final(self).pixel(x, y)]
                old(self).has_pixel(x, y) ==> final(self).pixel(x, y) == if dst_rect@.has_point(x, y) {
                    src.pixel(src_rect@.left + (x - dst_rect@.left), src_rect@.top + (y - dst_rect@.top))
                } else {
                    old(self).pixel(x, y)
                },
    {
        if !self.rect().contains(dst_rect) || !src.rect().contains(src_rect) {
            return Err(SurfaceError::RectOutsideSurface);
        }
        let (rw, rh) = match src_rect.same_size(dst_rect) {
            Some(size) => size,
            None => {
                return Err(SurfaceError::SizeMismatch);
            },
        };
        let (rw, rh) = (rw as usize, rh as usize);
        let ghost old_pixels = self.pixels@;
        let ghost src_pixels = src.pixels@;
        let ghost (w, h, sw) = (self.width as int, self.height as int, src.width as int);
        let ghost r = dst_rect@;
        proof {
            dst_rect.lemma_edges();
            src_rect.lemma_edges();
        }
        let (dl, dt) = (dst_rect.left as usize, dst_rect.top as usize);
        let (sl, st) = (src_rect.left as usize, src_rect.top as usize);
        let ghost val = |x: int, y: int| src_pixels[pixel_index(sw, sl + (x - dl), st + (y - dt))];
        proof { lemma_paint_nothing(old_pixels, w, h, |x: int, y: int| visited(r, 0, 0, x, y), val); }
        let mut dy: usize = 0;
        while dy < rh
            invariant
                self.wf(),
                    src.wf(),
                    w == self.width,
                    h == self.height,
                    sw == src.width,
                    src_pixels == src.pixels@,
                    old_pixels.len() == w * h,
                    val == (|x: int, y: int| src_pixels[pixel_index(sw, sl + (x - dl), st + (y - dt))]),
                    r == dst_rect@,
                    dl == r.left,
                    dt == r.top,
                    sl == src_rect@.left,
                    st == src_rect@.top,
                    rw == r.width(),
                    rh == r.height(),
                    rw == src_rect@.width(),
                    rh == src_rect@.height(),
                    0 <= rw,
                    0 <= rh,
                    r.right <= w,
                    r.bottom <= h,
                    src_rect@.right <= src.width,
                    src_rect@.bottom <= src.height,
                dy <= rh,
                painted(self.pixels@, old_pixels, w, h, |x: int, y: int| visited(r, 0, dy as int, x, y), val),
            decreases rh - dy,
        {
            let mut dx: usize = 0;
            while dx < rw
                invariant
                    self.wf(),
                    src.wf(),
                    w == self.width,
                    h == self.height,
                    sw == src.width,
                    src_pixels == src.pixels@,
                    old_pixels.len() == w * h,
                    val == (|x: int, y: int| src_pixels[pixel_index(sw, sl + (x - dl), st + (y - dt))]),
                    r == dst_rect@,
                    dl == r.left,
                    dt == r.top,
                    sl == src_rect@.left,
                    st == src_rect@.top,
                    rw == r.width(),
                    rh == r.height(),
                    rw == src_rect@.width(),
                    rh == src_rect@.height(),
                    0 <= rw,
                    0 <= rh,
                    r.right <= w,
                    r.bottom <= h,
                    src_rect@.right <= src.width,
                    src_rect@.bottom <= src.height,
                    dy < rh,
                    dx <= rw,
                    painted(self.pixels@, old_pixels, w, h, |x: int, y: int| visited(r, dx as int, dy as int, x, y), val),
                decreases rw - dx,
            {
                let si = src.index(sl + dx, st + dy);
                let di = self.index(dl + dx, dt + dy);
                let ghost (x0, y0) = ((dl + dx) as int, (dt + dy) as int);
                let ghost prev = self.pixels@;
                let ghost next = |x: int, y: int| visited(r, dx + 1, dy as int, x, y);
                let v = src.pixels[si];
                self.pixels.set(di, v);
                proof {
                    lemma_paint_pixel(
                        prev, old_pixels, w, h,
                        |x: int, y: int| visited(r, dx as int, dy as int, x, y),
                        next, val, x0, y0,
                    );
                    assert(self.pixels@ == prev.update(pixel_index(w, x0, y0), val(x0, y0)));
                }
                dx += 1;
                proof {
                    lemma_paint_same_region(
                        self.pixels@, old_pixels, w, h, next,
                        |x: int, y: int| visited(r, dx as int, dy as int, x, y), val,
                    );
                }
            }
            proof {
                lemma_paint_same_region(
                    self.pixels@, old_pixels, w, h,
                    |x: int, y: int| visited(r, rw as int, dy as int, x, y),
                    |x: int, y: int| visited(r, 0, dy + 1, x, y),
                    val,
                );
            }
            dy += 1;
        }
        proof {
            lemma_paint_same_region(
                self.pixels@, old_pixels, w, h,
                |x: int, y: int| visited(r, 0, rh as int, x, y),
                |x: int, y: int| r.has_point(x, y),
                val,
            );
        }
        Ok(())
    }

    /// Draws `src_rect` of `src` over `dst_rect` of `self`; both must have the same size.
    pub fn blit_blend(&mut self, src_rect: Rect, dst_rect: Rect, src: &Surface) -> (r: Result<(), SurfaceError>)
        requires
            old(self).wf(),
            src.wf(),
        ensures
            final(self).wf(),
            final(self).width == old(self).width,
            final(self).height == old(self).height,
            r == Err::<(), SurfaceError>(SurfaceError::RectOutsideSurface) <==> !(old(self).bounds().contains(dst_rect@)
                && src.bounds().contains(src_rect@)),
            r == Err::<(), SurfaceError>(SurfaceError::SizeMismatch) <==> old(self).bounds().contains(dst_rect@)
                && src.bounds().contains(src_rect@) && (src_rect@.width() != dst_rect@.width()
                || src_rect@.height() != dst_rect@.height()),
            r is Ok <==> old(self).bounds().contains(dst_rect@) && src.bounds().contains(src_rect@)
                && src_rect@.width() == dst_rect@.width() && src_rect@.height() == dst_rect@.height(),
            r is Err ==> final(self).pixels@ == old(self).pixels@,
            r is Ok ==> forall|x: int, y: int|
                #![trigger final(self).pixel(x, y)]
                old(self).has_pixel(x, y) ==> final(self).pixel(x, y) == if dst_rect@.has_point(x, y) {
                    Self::blended_pixel(old(self).pixel(x, y), src.pixel(
                        src_rect@.left + (x - dst_rect@.left),
                        src_rect@.top + (y - dst_rect@.top),
                    ))
                } else {
                    old(self).pixel(x, y)
                },
    {
        if !self.rect().contains(dst_rect) || !src.rect().contains(src_rect) {
            return Err(SurfaceError::RectOutsideSurface);
        }
        let (rw, rh) = match src_rect.same_size(dst_rect) {
            Some(size) => size,
            None => {
                return Err(SurfaceError::SizeMismatch);
            },
        };
        let (rw, rh) = (rw as usize, rh as usize);
        let ghost old_pixels = self.pixels@;
        let ghost src_pixels = src.pixels@;
        let ghost (w, h, sw) = (self.width as int, self.height as int, src.width as int);
        let ghost r = dst_rect@;
        proof {
            dst_rect.lemma_edges();
            src_rect.lemma_edges();
        }
        let (dl, dt) = (dst_rect.left as usize, dst_rect.top as usize);
        let (sl, st) = (src_rect.left as usize, src_rect.top as usize);
        let ghost val = |x: int, y: int| if alpha(src_pixels[pixel_index(sw, sl + (x - dl), st + (y - dt))]) == 0 { old_pixels[pixel_index(w, x, y)] } else { spec_blend_color(old_pixels[pixel_index(w, x, y)], src_pixels[pixel_index(sw, sl + (x - dl), st + (y - dt))]) };
        proof { lemma_paint_nothing(old_pixels, w, h, |x: int, y: int| visited(r, 0, 0, x, y), val); }
        let mut dy: usize = 0;
        while dy < rh
            invariant
                self.wf(),
                    src.wf(),
                    w == self.width,
                    h == self.height,
                    sw == src.width,
                    src_pixels == src.pixels@,
                    old_pixels.len() == w * h,
                    val == (|x: int, y: int| if alpha(src_pixels[pixel_index(sw, sl + (x - dl), st + (y - dt))]) == 0 { old_pixels[pixel_index(w, x, y)] } else { spec_blend_color(old_pixels[pixel_index(w, x, y)], src_pixels[pixel_index(sw, sl + (x - dl), st + (y - dt))]) }),
                    r == dst_rect@,
                    dl == r.left,
                    dt == r.top,
                    sl == src_rect@.left,
                    st == src_rect@.top,
                    rw == r.width(),
                    rh == r.height(),
                    rw == src_rect@.width(),
                    rh == src_rect@.height(),
                    0 <= rw,
                    0 <= rh,
                    r.right <= w,
                    r.bottom <= h,
                    src_rect@.right <= src.width,
                    src_rect@.bottom <= src.height,
                dy <= rh,
                painted(self.pixels@, old_pixels, w, h, |x: int, y: int| visited(r, 0, dy as int, x, y), val),
            decreases rh - dy,
        {
            let mut dx: usize = 0;
            while dx < rw
                invariant
                    self.wf(),
                    src.wf(),
                    w == self.width,
                    h == self.height,
                    sw == src.width,
                    src_pixels == src.pixels@,
                    old_pixels.len() == w * h,
                    val == (|x: int, y: int| if alpha(src_pixels[pixel_index(sw, sl + (x - dl), st + (y - dt))]) == 0 { old_pixels[pixel_index(w, x, y)] } else { spec_blend_color(old_pixels[pixel_index(w, x, y)], src_pixels[pixel_index(sw, sl + (x - dl), st + (y - dt))]) }),
                    r == dst_rect@,
                    dl == r.left,
                    dt == r.top,
                    sl == src_rect@.left,
                    st == src_rect@.top,
                    rw == r.width(),
                    rh == r.height(),
                    rw == src_rect@.width(),
                    rh == src_rect@.height(),
                    0 <= rw,
                    0 <= rh,
                    r.right <= w,
                    r.bottom <= h,
                    src_rect@.right <= src.width,
                    src_rect@.bottom <= src.height,
                    dy < rh,
                    dx <= rw,
                    painted(self.pixels@, old_pixels, w, h, |x: int, y: int| visited(r, dx as int, dy as int, x, y), val),
                decreases rw - dx,
            {
                let si = src.index(sl + dx, st + dy);
                let di = self.index(dl + dx, dt + dy);
                let ghost (x0, y0) = ((dl + dx) as int, (dt + dy) as int);
                let src_color = src.pixels[si];
                let ghost prev = self.pixels@;
                let ghost next = |x: int, y: int| visited(r, dx + 1, dy as int, x, y);
                proof {
                    assert(prev[pixel_index(w, x0, y0)] == old_pixels[pixel_index(w, x0, y0)]);
                    assert((src_color >> 24 == 0) == ((src_color >> 24u32) as u8 == 0)) by (bit_vector);
                }
                if src_color >> 24 != 0 {
                    let blended = blend_color(self.pixels[di], src_color);
                    self.pixels.set(di, blended);
                } else {
                    proof { assert(prev.update(di as int, prev[di as int]) =~= prev); }
                }
                proof {
                    lemma_paint_pixel(
                        prev, old_pixels, w, h,
                        |x: int, y: int| visited(r, dx as int, dy as int, x, y),
                        next, val, x0, y0,
                    );
                    assert(self.pixels@ == prev.update(pixel_index(w, x0, y0), val(x0, y0)));
                }
                dx += 1;
                proof {
                    lemma_paint_same_region(
                        self.pixels@, old_pixels, w, h, next,
                        |x: int, y: int| visited(r, dx as int, dy as int, x, y), val,
                    );
                }
            }
            proof {
                lemma_paint_same_region(
                    self.pixels@, old_pixels, w, h,
                    |x: int, y: int| visited(r, rw as int, dy as int, x, y),
                    |x: int, y: int| visited(r, 0, dy + 1, x, y),
                    val,
                );
            }
            dy += 1;
        }
        proof {
            lemma_paint_same_region(
                self.pixels@, old_pixels, w, h,
                |x: int, y: int| visited(r, 0, rh as int, x, y),
                |x: int, y: int| r.has_point(x, y),
                val,
            );
        }
        Ok(())
    }

    /// Stretches `src_rect` of `src` over `dst_rect` of `self`, sampling the nearest source pixel.
    pub fn blit_scale_copy(&mut self, src_rect: Rect, dst_rect: Rect, src: &Surface) -> (r: Result<(), SurfaceError>)
        requires
            old(self).wf(),
            src.wf(),
            old(self).bounds().contains(dst_rect@) && src.bounds().contains(src_rect@)
                ==> scaled_reads_in_bounds(src, src_rect@, dst_rect@),
        ensures
            final(self).wf(),
            final(self).width == old(self).width,
            final(self).height == old(self).height,
            r is Ok <==> old(self).bounds().contains(dst_rect@) && src.bounds().contains(src_rect@),
            r is Err ==> r == Err::<(), SurfaceError>(SurfaceError::RectOutsideSurface)
                && final(self).pixels@ == old(self).pixels@,
            r is Ok ==> forall|x: int, y: int|
                #![trigger final(self).pixel(x, y)]
                old(self).has_pixel(x, y) ==> final(self).pixel(x, y) == if dst_rect@.has_point(x, y) {
                    src.pixels@[scaled_source_index(src, src_rect@, dst_rect@, x, y)]
                } else {
                    old(self).pixel(x, y)
                },
    {
        if !self.rect().contains(dst_rect) || !src.rect().contains(src_rect) {
            return Err(SurfaceError::RectOutsideSurface);
        }
        let src_w = src_rect.width() as u64;
        let src_h = src_rect.height() as u64;
        let dst_w = dst_rect.width() as u64;
        let dst_h = dst_rect.height() as u64;
        if dst_w == 0 || dst_h == 0 {
            return Ok(());
        }
        let src_stride = src.width as usize;
        proof {
            assert(src_h << 16u64 == src_h * 65536 && src_w << 16u64 == src_w * 65536) by (bit_vector)
                requires
                    src_h <= 0xFFFF_FFFFu64,
                    src_w <= 0xFFFF_FFFFu64,
            ;
        }
        let incy = (src_h << 16) / dst_h;
        let incx = (src_w << 16) / dst_w;
        let (dw, dh) = (dst_w as usize, dst_h as usize);
        let ghost old_pixels = self.pixels@;
        let ghost src_pixels = src.pixels@;
        let ghost (w, h) = (self.width as int, self.height as int);
        let ghost r = dst_rect@;
        let ghost sr = src_rect@;
        proof {
            dst_rect.lemma_edges();
            src_rect.lemma_edges();
        }
        let (dl, dt) = (dst_rect.left as usize, dst_rect.top as usize);
        let (sl, st) = (src_rect.left as usize, src_rect.top as usize);
        let ghost val = |x: int, y: int| src_pixels[scaled_source_index(src, sr, r, x, y)];
        proof { lemma_paint_nothing(old_pixels, w, h, |x: int, y: int| visited(r, 0, 0, x, y), val); }
        let mut posy: u64 = incy / 2;
        let mut dy: usize = 0;
        while dy < dh
            invariant
                self.wf(),
                    src.wf(),
                    w == self.width,
                    h == self.height,
                    src_pixels == src.pixels@,
                    old_pixels.len() == w * h,
                    val == (|x: int, y: int| src_pixels[scaled_source_index(src, sr, r, x, y)]),
                    r == dst_rect@,
                    sr == src_rect@,
                    dl == r.left,
                    dt == r.top,
                    sl == sr.left,
                    st == sr.top,
                    dw == r.width(),
                    dh == r.height(),
                    dw > 0,
                    dh > 0,
                    src_w == sr.width(),
                    src_h == sr.height(),
                    src_w <= 0xFFFF_FFFFu64,
                    src_h <= 0xFFFF_FFFFu64,
                    incx == scale_step(src_w as int, dw as int),
                    incy == scale_step(src_h as int, dh as int),
                    src_stride == src.width,
                    r.right <= w,
                    r.bottom <= h,
                    scaled_reads_in_bounds(src, sr, r),
                dy <= dh,
                posy == incy / 2 + dy * incy,
                painted(self.pixels@, old_pixels, w, h, |x: int, y: int| visited(r, 0, dy as int, x, y), val),
            decreases dh - dy,
        {
            proof {
                lemma_scale_step(src_h as int, dh as int, dy as int);
                assert(posy >> 16u64 == posy / 65536) by (bit_vector);
                let y0 = (dt + dy) as int;
                assert(r.has_point(dl as int, y0));
                assert(0 <= scaled_source_index(src, sr, r, dl as int, y0) < src.pixels.len());
                lemma_row_bound(
                    sr.top + scale_offset(y0 - r.top, sr.height(), r.height()),
                    src.width as int,
                    src.height as int,
                    sr.left + scale_offset(dl - r.left, sr.width(), r.width()),
                );
            }
            let srcy = (posy >> 16) as usize;
            let src_row = st + srcy;
            let dst_row = dt + dy;
            let mut posx: u64 = incx / 2;
            let mut dx: usize = 0;
            while dx < dw
                invariant
                    self.wf(),
                    src.wf(),
                    w == self.width,
                    h == self.height,
                    src_pixels == src.pixels@,
                    old_pixels.len() == w * h,
                    val == (|x: int, y: int| src_pixels[scaled_source_index(src, sr, r, x, y)]),
                    r == dst_rect@,
                    sr == src_rect@,
                    dl == r.left,
                    dt == r.top,
                    sl == sr.left,
                    st == sr.top,
                    dw == r.width(),
                    dh == r.height(),
                    dw > 0,
                    dh > 0,
                    src_w == sr.width(),
                    src_h == sr.height(),
                    src_w <= 0xFFFF_FFFFu64,
                    src_h <= 0xFFFF_FFFFu64,
                    incx == scale_step(src_w as int, dw as int),
                    incy == scale_step(src_h as int, dh as int),
                    src_stride == src.width,
                    r.right <= w,
                    r.bottom <= h,
                    scaled_reads_in_bounds(src, sr, r),
                    dy < dh,
                    dx <= dw,
                    srcy == scale_offset(dy as int, src_h as int, dh as int),
                    src_row == st + srcy,
                    dst_row == dt + dy,
                    posx == incx / 2 + dx * incx,
                    painted(self.pixels@, old_pixels, w, h, |x: int, y: int| visited(r, dx as int, dy as int, x, y), val),
                decreases dw - dx,
            {
                proof {
                    lemma_scale_step(src_w as int, dw as int, dx as int);
                    assert(posx >> 16u64 == posx / 65536) by (bit_vector);
                    assert(scaled_source_index(src, sr, r, (dl + dx) as int, (dt + dy) as int) < src.pixels.len());
                }
                let srcx = (posx >> 16) as usize;
                let si = src_row * src_stride + sl + srcx;
                let di = self.index(dl + dx, dst_row);
                let ghost (x0, y0) = ((dl + dx) as int, (dt + dy) as int);
                let ghost prev = self.pixels@;
                let ghost next = |x: int, y: int| visited(r, dx + 1, dy as int, x, y);
                let v = src.pixels[si];
                self.pixels.set(di, v);
                proof {
                    lemma_paint_pixel(
                        prev, old_pixels, w, h,
                        |x: int, y: int| visited(r, dx as int, dy as int, x, y),
                        next, val, x0, y0,
                    );
                    assert(self.pixels@ == prev.update(pixel_index(w, x0, y0), val(x0, y0)));
                }
                proof {
                    assert((dx + 1) * incx == dx * incx + incx) by (nonlinear_arith);
                }
                posx = posx + incx;
                dx += 1;
                proof {
                    lemma_paint_same_region(
                        self.pixels@, old_pixels, w, h, next,
                        |x: int, y: int| visited(r, dx as int, dy as int, x, y), val,
                    );
                }
            }
            proof {
                lemma_paint_same_region(
                    self.pixels@, old_pixels, w, h,
                    |x: int, y: int| visited(r, dw as int, dy as int, x, y),
                    |x: int, y: int| visited(r, 0, dy + 1, x, y),
                    val,
                );
            }
            proof {
                lemma_scale_step(src_h as int, dh as int, dy + 1);
                assert((dy + 1) * incy == dy * incy + incy) by (nonlinear_arith);
            }
            posy = posy + incy;
            dy += 1;
        }
        proof {
            lemma_paint_same_region(
                self.pixels@, old_pixels, w, h,
                |x: int, y: int| visited(r, 0, dh as int, x, y),
                |x: int, y: int| r.has_point(x, y),
                val,
            );
        }
        Ok(())
    }

    /// Stretches `src_rect` of `src` over `dst_rect` of `self` and draws it over what is there, sampling the nearest source pixel; fully transparent source pixels are skipped.
    pub fn blit_scale_blend(&mut self, src_rect: Rect, dst_rect: Rect, src: &Surface) -> (r: Result<(), SurfaceError>)
        requires
            old(self).wf(),
            src.wf(),
            old(self).bounds().contains(dst_rect@) && src.bounds().contains(src_rect@)
                ==> scaled_reads_in_bounds(src, src_rect@, dst_rect@),
        ensures
            final(self).wf(),
            final(self).width == old(self).width,
            final(self).height == old(self).height,
            r is Ok <==> old(self).bounds().contains(dst_rect@) && src.bounds().contains(src_rect@),
            r is Err ==> r == Err::<(), SurfaceError>(SurfaceError::RectOutsideSurface)
                && final(self).pixels@ == old(self).pixels@,
            r is Ok ==> forall|x: int, y: int|
                #![trigger final(self).pixel(x, y)]
                old(self).has_pixel(x, y) ==> final(self).pixel(x, y) == if dst_rect@.has_point(x, y) {
                    Self::blended_pixel(old(self).pixel(x, y), src.pixels@[scaled_source_index(src, src_rect@, dst_rect@, x, y)])
                } else {
                    old(self).pixel(x, y)
                },
    {
        if !self.rect().contains(dst_rect) || !src.rect().contains(src_rect) {
            return Err(SurfaceError::RectOutsideSurface);
        }
        let src_w = src_rect.width() as u64;
        let src_h = src_rect.height() as u64;
        let dst_w = dst_rect.width() as u64;
        let dst_h = dst_rect.height() as u64;
        if dst_w == 0 || dst_h == 0 {
            return Ok(());
        }
        let src_stride = src.width as usize;
        proof {
            assert(src_h << 16u64 == src_h * 65536 && src_w << 16u64 == src_w * 65536) by (bit_vector)
                requires
                    src_h <= 0xFFFF_FFFFu64,
                    src_w <= 0xFFFF_FFFFu64,
            ;
        }
        let incy = (src_h << 16) / dst_h;
        let incx = (src_w << 16) / dst_w;
        let (dw, dh) = (dst_w as usize, dst_h as usize);
        let ghost old_pixels = self.pixels@;
        let ghost src_pixels = src.pixels@;
        let ghost (w, h) = (self.width as int, self.height as int);
        let ghost r = dst_rect@;
        let ghost sr = src_rect@;
        proof {
            dst_rect.lemma_edges();
            src_rect.lemma_edges();
        }
        let (dl, dt) = (dst_rect.left as usize, dst_rect.top as usize);
        let (sl, st) = (src_rect.left as usize, src_rect.top as usize);
        let ghost val = |x: int, y: int| Surface::blended_pixel(old_pixels[pixel_index(w, x, y)], src_pixels[scaled_source_index(src, sr, r, x, y)]);
        proof { lemma_paint_nothing(old_pixels, w, h, |x: int, y: int| visited(r, 0, 0, x, y), val); }
        let mut posy: u64 = incy / 2;
        let mut dy: usize = 0;
        while dy < dh
            invariant
                self.wf(),
                    src.wf(),
                    w == self.width,
                    h == self.height,
                    src_pixels == src.pixels@,
                    old_pixels.len() == w * h,
                    val == (|x: int, y: int| Surface::blended_pixel(old_pixels[pixel_index(w, x, y)], src_pixels[scaled_source_index(src, sr, r, x, y)])),
                    r == dst_rect@,
                    sr == src_rect@,
                    dl == r.left,
                    dt == r.top,
                    sl == sr.left,
                    st == sr.top,
                    dw == r.width(),
                    dh == r.height(),
                    dw > 0,
                    dh > 0,
                    src_w == sr.width(),
                    src_h == sr.height(),
                    src_w <= 0xFFFF_FFFFu64,
                    src_h <= 0xFFFF_FFFFu64,
                    incx == scale_step(src_w as int, dw as int),
                    incy == scale_step(src_h as int, dh as int),
                    src_stride == src.width,
                    r.right <= w,
                    r.bottom <= h,
                    scaled_reads_in_bounds(src, sr, r),
                dy <= dh,
                posy == incy / 2 + dy * incy,
                painted(self.pixels@, old_pixels, w, h, |x: int, y: int| visited(r, 0, dy as int, x, y), val),
            decreases dh - dy,
        {
            proof {
                lemma_scale_step(src_h as int, dh as int, dy as int);
                assert(posy >> 16u64 == posy / 65536) by (bit_vector);
                let y0 = (dt + dy) as int;
                assert(r.has_point(dl as int, y0));
                assert(0 <= scaled_source_index(src, sr, r, dl as int, y0) < src.pixels.len());
                lemma_row_bound(
                    sr.top + scale_offset(y0 - r.top, sr.height(), r.height()),
                    src.width as int,
                    src.height as int,
                    sr.left + scale_offset(dl - r.left, sr.width(), r.width()),
                );
            }
            let srcy = (posy >> 16) as usize;
            let src_row = st + srcy;
            let dst_row = dt + dy;
            let mut posx: u64 = incx / 2;
            let mut dx: usize = 0;
            while dx < dw
                invariant
                    self.wf(),
                    src.wf(),
                    w == self.width,
                    h == self.height,
                    src_pixels == src.pixels@,
                    old_pixels.len() == w * h,
                    val == (|x: int, y: int| Surface::blended_pixel(old_pixels[pixel_index(w, x, y)], src_pixels[scaled_source_index(src, sr, r, x, y)])),
                    r == dst_rect@,
                    sr == src_rect@,
                    dl == r.left,
                    dt == r.top,
                    sl == sr.left,
                    st == sr.top,
                    dw == r.width(),
                    dh == r.height(),
                    dw > 0,
                    dh > 0,
                    src_w == sr.width(),
                    src_h == sr.height(),
                    src_w <= 0xFFFF_FFFFu64,
                    src_h <= 0xFFFF_FFFFu64,
                    incx == scale_step(src_w as int, dw as int),
                    incy == scale_step(src_h as int, dh as int),
                    src_stride == src.width,
                    r.right <= w,
                    r.bottom <= h,
                    scaled_reads_in_bounds(src, sr, r),
                    dy < dh,
                    dx <= dw,
                    srcy == scale_offset(dy as int, src_h as int, dh as int),
                    src_row == st + srcy,
                    dst_row == dt + dy,
                    posx == incx / 2 + dx * incx,
                    painted(self.pixels@, old_pixels, w, h, |x: int, y: int| visited(r, dx as int, dy as int, x, y), val),
                decreases dw - dx,
            {
                proof {
                    lemma_scale_step(src_w as int, dw as int, dx as int);
                    assert(posx >> 16u64 == posx / 65536) by (bit_vector);
                    assert(scaled_source_index(src, sr, r, (dl + dx) as int, (dt + dy) as int) < src.pixels.len());
                }
                let srcx = (posx >> 16) as usize;
                let si = src_row * src_stride + sl + srcx;
                let di = self.index(dl + dx, dst_row);
                let ghost (x0, y0) = ((dl + dx) as int, (dt + dy) as int);
                let ghost prev = self.pixels@;
                let ghost next = |x: int, y: int| visited(r, dx + 1, dy as int, x, y);
                let src_color = src.pixels[si];
                proof {
                    assert(prev[pixel_index(w, x0, y0)] == old_pixels[pixel_index(w, x0, y0)]);
                    assert((src_color >> 24 == 0) == ((src_color >> 24u32) as u8 == 0)) by (bit_vector);
                }
                if src_color >> 24 != 0 {
                    let blended = blend_color(self.pixels[di], src_color);
                    self.pixels.set(di, blended);
                } else {
                    proof { assert(prev.update(di as int, prev[di as int]) =~= prev); }
                }
                proof {
                    lemma_paint_pixel(
                        prev, old_pixels, w, h,
                        |x: int, y: int| visited(r, dx as int, dy as int, x, y),
                        next, val, x0, y0,
                    );
                    assert(self.pixels@ == prev.update(pixel_index(w, x0, y0), val(x0, y0)));
                }
                proof {
                    assert((dx + 1) * incx == dx * incx + incx) by (nonlinear_arith);
                }
                posx = posx + incx;
                dx += 1;
                proof {
                    lemma_paint_same_region(
                        self.pixels@, old_pixels, w, h, next,
                        |x: int, y: int| visited(r, dx as int, dy as int, x, y), val,
                    );
                }
            }
            proof {
                lemma_paint_same_region(
                    self.pixels@, old_pixels, w, h,
                    |x: int, y: int| visited(r, dw as int, dy as int, x, y),
                    |x: int, y: int| visited(r, 0, dy + 1, x, y),
                    val,
                );
            }
            proof {
                lemma_scale_step(src_h as int, dh as int, dy + 1);
                assert((dy + 1) * incy == dy * incy + incy) by (nonlinear_arith);
            }
            posy = posy + incy;
            dy += 1;
        }
        proof {
            lemma_paint_same_region(
                self.pixels@, old_pixels, w, h,
                |x: int, y: int| visited(r, 0, dh as int, x, y),
                |x: int, y: int| r.has_point(x, y),
                val,
            );
        }
        Ok(())
    }
}

/// Byte `j` of `bytes`, zero past the end.
pub open spec fn byte_or_zero(bytes: Seq<u8>, j: int) -> int {
    if 0 <= j < bytes.len() {
        bytes[j] as int
    } else {
        0
    }
}

/// The `i`-th group of four bytes of `bytes` read least significant byte first, the last
/// group padded with zeros.
pub open spec fn le_word(bytes: Seq<u8>, i: int) -> int {
    byte_or_zero(bytes, 4 * i) + byte_or_zero(bytes, 4 * i + 1) * 256 + byte_or_zero(bytes, 4 * i + 2)
        * 65536 + byte_or_zero(bytes, 4 * i + 3) * 16777216
}

/// The `i`-th group of four bytes of `bytes` read most significant byte first, the last
/// group padded with zeros.
pub open spec fn be_word(bytes: Seq<u8>, i: int) -> int {
    byte_or_zero(bytes, 4 * i + 3) + byte_or_zero(bytes, 4 * i + 2) * 256 + byte_or_zero(bytes, 4 * i + 1)
        * 65536 + byte_or_zero(bytes, 4 * i) * 16777216
}

/// Whether `pixels` holds the bytes of `bytes` four at a time, all in one byte order.
pub open spec fn words_of(pixels: Seq<u32>, bytes: Seq<u8>) -> bool {
    ||| forall|i: int| 0 <= i < pixels.len() ==> pixels[i] == le_word(bytes, i)
    ||| forall|i: int| 0 <= i < pixels.len() ==> pixels[i] == be_word(bytes, i)
}

/// Calls `bytemuck::pod_collect_to_vec::<u8, u32>`, which copies the bytes into a buffer of
/// `u32` values, zero-padding the last one. Each value takes its four bytes in the machine's
/// own byte order, so the contract says that the bytes are read in one of the two orders,
/// without saying which.
#[verifier::external_body]
fn collect_pixels(bytes: &[u8]) -> (pixels: Vec<u32>)
    ensures
        pixels.len() == (bytes@.len() + 3) / 4,
        words_of(pixels@, bytes@),
{
    bytemuck::pod_collect_to_vec::<u8, u32>(bytes)
}

} // verus!
