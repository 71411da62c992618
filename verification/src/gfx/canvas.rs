//! The images of the software renderer, the screen they are shown on, and which part of the
//! screen is out of date.
use vstd::prelude::*;

use crate::gfx::param::BlitParam;
use crate::gfx::rect::{Rect, RectModel};
use crate::gfx::surface::{Surface, SurfaceError, lemma_scaled_reads_in_bounds, scaled_source_index, words_of};

verus! {

/// Images are numbered by a byte.
pub const IMAGE_SLOTS: usize = 256;

/// Why a drawing request was refused.
#[derive(Debug, Clone, Copy, PartialEq, Eq)]
pub enum CanvasError {
    /// The image to clear does not exist.
    EmptyImage(u8),
    /// The source or the destination image of a blit does not exist.
    MissingImage { src: u8, dst: u8 },
    /// The surface refused the operation.
    Surface(SurfaceError),
}

/// The images a scenario draws on, one slot per image number, and the screen that shows the
/// target image.
pub struct Canvas {
    screen: Surface,
    target: Option<u8>,
    images: Vec<Option<Surface>>,
    damaged: Option<Rect>,
}

/// The damaged area after an image changed over `rect`: only a change of the target image
/// counts, and it replaces the area noted before.
pub open spec fn damage_after(target: Option<u8>, damage: Option<RectModel>, id: u8, rect: RectModel) -> Option<
    RectModel,
> {
    if target == Some(id) {
        Some(rect)
    } else {
        damage
    }
}

/// The block of the source image that `param` reads.
pub open spec fn param_src(param: BlitParam) -> RectModel {
    RectModel {
        left: param.src_x as int,
        top: param.src_y as int,
        right: param.src_x + param.width,
        bottom: param.src_y + param.height,
    }
}

/// The block of the destination image that `param` writes.
pub open spec fn param_dst(param: BlitParam) -> RectModel {
    RectModel {
        left: param.dst_x as int,
        top: param.dst_y as int,
        right: param.dst_x + param.width,
        bottom: param.dst_y + param.height,
    }
}

/// Whether the edges of a blit fit in a `u32`.
pub open spec fn param_fits(param: BlitParam) -> bool {
    &&& param.src_x + param.width <= u32::MAX
    &&& param.src_y + param.height <= u32::MAX
    &&& param.dst_x + param.width <= u32::MAX
    &&& param.dst_y + param.height <= u32::MAX
}

/// Whether `new` is `old` with `dr` replaced by the block `sr` of `src`.
pub open spec fn copied_into(old: Surface, new: Surface, src: Surface, sr: RectModel, dr: RectModel) -> bool {
    &&& new.wf()
    &&& new.width == old.width
    &&& new.height == old.height
    &&& forall|x: int, y: int|
        #![trigger new.pixel(x, y)]
        old.has_pixel(x, y) ==> new.pixel(x, y) == if dr.has_point(x, y) {
            src.pixel(sr.left + (x - dr.left), sr.top + (y - dr.top))
        } else {
            old.pixel(x, y)
        }
}

/// Whether `new` is `old` with the block `sr` of `src` drawn over `dr`.
pub open spec fn blended_into(old: Surface, new: Surface, src: Surface, sr: RectModel, dr: RectModel) -> bool {
    &&& new.wf()
    &&& new.width == old.width
    &&& new.height == old.height
    &&& forall|x: int, y: int|
        #![trigger new.pixel(x, y)]
        old.has_pixel(x, y) ==> new.pixel(x, y) == if dr.has_point(x, y) {
            Surface::blended_pixel(old.pixel(x, y), src.pixel(sr.left + (x - dr.left), sr.top + (y - dr.top)))
        } else {
            old.pixel(x, y)
        }
}

/// The colour that clearing with `(r, g, b)` paints: opaque, red in the low byte.
pub open spec fn clear_color(r: u8, g: u8, b: u8) -> u32 {
    (r as u32) | ((g as u32) << 8u32) | ((b as u32) << 16u32) | 0xFF00_0000u32
}

impl Canvas {
    /// One slot per image number, and every surface well formed.
    pub closed spec fn wf(&self) -> bool {
        &&& self.images@.len() == IMAGE_SLOTS
        &&& self.screen.wf()
        &&& forall|i: int|
            0 <= i < IMAGE_SLOTS ==> (#[trigger] self.images@[i] matches Some(s) ==> s.wf())
    }

    /// Image `id`, if it was made.
    pub closed spec fn image(&self, id: u8) -> Option<Surface> {
        self.images@[id as int]
    }

    /// The image the screen shows.
    pub closed spec fn target(&self) -> Option<u8> {
        self.target
    }

    /// The part of the target image that changed since the screen was last updated.
    pub closed spec fn damage(&self) -> Option<RectModel> {
        match self.damaged {
            Some(r) => Some(r@),
            None => None,
        }
    }

    /// The screen.
    pub closed spec fn screen_surface(&self) -> Surface {
        self.screen
    }

    /// Whether the images other than `id`, the screen and the target are as in `old`.
    pub open spec fn others_kept(&self, old: &Canvas, id: u8) -> bool {
        &&& forall|j: u8| j != id ==> #[trigger] self.image(j) == old.image(j)
        &&& self.target() == old.target()
        &&& self.screen_surface() == old.screen_surface()
    }

    /// Whether updating the screen can copy the damaged area: it lies inside both the
    /// target image and the screen.
    pub open spec fn update_fits(&self) -> bool {
        match (self.target(), self.damage()) {
            (Some(t), Some(d)) => match self.image(t) {
                Some(s) => s.bounds().contains(d) && self.screen_surface().bounds().contains(d),
                None => true,
            },
            _ => true,
        }
    }

    /// A black screen of `width` by `height`, no image and no target.
    pub fn new(width: u16, height: u16) -> (c: Self)
        ensures
            c.wf(),
            c.target() is None,
            c.damage() is None,
            forall|id: u8| #[trigger] c.image(id) is None,
            c.screen_surface().width == width,
            c.screen_surface().height == height,
            forall|i: int|
                0 <= i < c.screen_surface().pixels.len() ==> c.screen_surface().pixels@[i]
                    == 0xFF_00_00_00u32,
    {
        let mut images: Vec<Option<Surface>> = Vec::new();
        let mut i: usize = 0;
        while i < IMAGE_SLOTS
            invariant
                i <= IMAGE_SLOTS,
                images@.len() == i,
                forall|j: int| 0 <= j < i ==> #[trigger] images@[j] is None,
            decreases IMAGE_SLOTS - i,
        {
            images.push(None);
            i += 1;
        }
        let c = Self { screen: Surface::new_black(width, height), target: None, images, damaged: None };
        assert forall|id: u8| #[trigger] c.image(id) is None by {
            assert(c.images@[id as int] is None);
        }
        c
    }

    /// The screen, to be shown in a window.
    pub fn screen(&self) -> (s: &Surface)
        ensures
            *s == self.screen_surface(),
    {
        &self.screen
    }

    /// Shows image `id` on the screen.
    pub fn set_target(&mut self, id: u8, x: u32, y: u32)
        ensures
            final(self).target() == Some(id),
            final(self).damage() == old(self).damage(),
            final(self).screen_surface() == old(self).screen_surface(),
            forall|j: u8| #[trigger] final(self).image(j) == old(self).image(j),
            old(self).wf() ==> final(self).wf(),
    {
        self.target = Some(id);
    }

    /// Shows no image on the screen.
    pub fn unset_target(&mut self)
        ensures
            final(self).target() is None,
            final(self).damage() == old(self).damage(),
            final(self).screen_surface() == old(self).screen_surface(),
            forall|j: u8| #[trigger] final(self).image(j) == old(self).image(j),
            old(self).wf() ==> final(self).wf(),
    {
        self.target = None;
    }

    /// Notes that image `id` changed over `rect`.
    fn maybe_damaged(&mut self, id: u8, rect: Rect)
        ensures
            final(self).damage() == damage_after(old(self).target(), old(self).damage(), id, rect@),
            final(self).target() == old(self).target(),
            final(self).screen == old(self).screen,
            final(self).images == old(self).images,
    {
        if self.target == Some(id) {
            self.damaged = Some(rect);
        }
    }

    /// Puts `surface` in slot `id`, replacing what was there.
    fn store(&mut self, id: u8, surface: Surface)
        requires
            old(self).wf(),
            surface.wf(),
        ensures
            final(self).wf(),
            final(self).image(id) == Some(surface),
            final(self).others_kept(&*old(self), id),
            final(self).damaged == old(self).damaged,
    {
        self.images.set(id as usize, Some(surface));
        assert forall|j: u8| j != id implies #[trigger] self.image(j) == old(self).image(j) by {
            assert(self.images@[j as int] == old(self).images@[j as int]);
        }
    }

    /// Makes image `id` a transparent `width` by `height` surface.
    pub fn new_image(&mut self, id: u8, width: u16, height: u16)
        requires
            old(self).wf(),
        ensures
            final(self).wf(),
            final(self).others_kept(&*old(self), id),
            final(self).image(id) matches Some(s) && s.wf() && s.width == width && s.height == height
                && forall|i: int| 0 <= i < s.pixels.len() ==> s.pixels@[i] == 0u32,
            final(self).damage() == damage_after(
                old(self).target(),
                old(self).damage(),
                id,
                RectModel { left: 0, top: 0, right: width as int, bottom: height as int },
            ),
    {
        let surface = Surface::new(width, height);
        let rect = surface.rect();
        self.maybe_damaged(id, rect);
        self.store(id, surface);
    }

    /// Makes image `id` a `width` by `height` surface whose pixels are read from `data`,
    /// four bytes each in the machine's byte order; refused, with nothing changed, when `data` is not that long.
    pub fn load_image(&mut self, id: u8, width: u16, height: u16, data: &[u8]) -> (r: Result<(), CanvasError>)
        requires
            old(self).wf(),
        ensures
            final(self).wf(),
            data@.len() != width as int * height as int * 4 ==> r == Err::<(), CanvasError>(
                CanvasError::Surface(SurfaceError::InvalidBytesLength),
            ) && *final(self) == *old(self),
            data@.len() == width as int * height as int * 4 ==> r == Ok::<(), CanvasError>(())
                && final(self).others_kept(&*old(self), id) && (final(self).image(id) matches Some(s)
                && s.wf() && s.width == width && s.height == height && words_of(s.pixels@, data@))
                && final(self).damage()
                == damage_after(
                old(self).target(),
                old(self).damage(),
                id,
                RectModel { left: 0, top: 0, right: width as int, bottom: height as int },
            ),
    {
        let surface = match Surface::from_bytes(width, height, data) {
            Ok(s) => s,
            Err(e) => return Err(CanvasError::Surface(e)),
        };
        let rect = surface.rect();
        self.maybe_damaged(id, rect);
        self.store(id, surface);
        Ok(())
    }

    /// Paints all of image `id` with the opaque colour `(r, g, b)`; refused, with nothing
    /// changed, when there is no such image.
    pub fn clear_image(&mut self, id: u8, color: (u8, u8, u8)) -> (r: Result<(), CanvasError>)
        requires
            old(self).wf(),
        ensures
            final(self).wf(),
            old(self).image(id) is None ==> r == Err::<(), CanvasError>(CanvasError::EmptyImage(id))
                && *final(self) == *old(self),
            old(self).image(id) matches Some(s) ==> r == Ok::<(), CanvasError>(())
                && final(self).others_kept(&*old(self), id) && (final(self).image(id) matches Some(n)
                && n.wf() && n.width == s.width && n.height == s.height && forall|i: int|
                0 <= i < n.pixels.len() ==> n.pixels@[i] == clear_color(color.0, color.1, color.2))
                && final(self).damage() == damage_after(
                old(self).target(),
                old(self).damage(),
                id,
                s.bounds(),
            ),
    {
        let slot = id as usize;
        if self.images[slot].is_none() {
            return Err(CanvasError::EmptyImage(id));
        }
        let ghost before = *self;
        let mut taken: Option<Surface> = None;
        std::mem::swap(&mut taken, &mut self.images[slot]);
        assert(self.images@ == before.images@.update(slot as int, None));
        let mut surface = match taken {
            Some(s) => s,
            None => {
                proof { assert(false); }
                return Err(CanvasError::EmptyImage(id));
            }
        };
        let (red, green, blue) = color;
        let c: u32 = (red as u32) | ((green as u32) << 8u32) | ((blue as u32) << 16u32) | 0xFF00_0000u32;
        let rect = surface.rect();
        surface.clear(c);
        let ghost cleared = surface;
        self.images.set(slot, Some(surface));
        assert(self.images@ == before.images@.update(slot as int, Some(cleared)));
        self.maybe_damaged(id, rect);
        assert forall|j: u8| j != id implies #[trigger] self.image(j) == old(self).image(j) by {
            assert(self.images@[j as int] == before.images@[j as int]);
        }
        Ok(())
    }

    /// Copies the block that `param` names from image `src_id` to image `dst_id`. Refused,
    /// with nothing changed, when either image is missing, then when a block reaches outside
    /// its image.
    pub fn blit_copy_image(&mut self, param: BlitParam) -> (r: Result<(), CanvasError>)
        requires
            old(self).wf(),
            param.src_id != param.dst_id,
            param_fits(param),
        ensures
            final(self).wf(),
            match (old(self).image(param.src_id), old(self).image(param.dst_id)) {
                (Some(s), Some(d)) => if d.bounds().contains(param_dst(param))
                    && s.bounds().contains(param_src(param)) {
                    &&& r == Ok::<(), CanvasError>(())
                    &&& final(self).others_kept(&*old(self), param.dst_id)
                    &&& final(self).image(param.dst_id) matches Some(n) && copied_into(
                        d,
                        n,
                        s,
                        param_src(param),
                        param_dst(param),
                    )
                    &&& final(self).damage() == damage_after(
                        old(self).target(),
                        old(self).damage(),
                        param.dst_id,
                        param_dst(param),
                    )
                } else {
                    r == Err::<(), CanvasError>(CanvasError::Surface(SurfaceError::RectOutsideSurface))
                        && *final(self) == *old(self)
                },
                _ => r == Err::<(), CanvasError>(
                    CanvasError::MissingImage { src: param.src_id, dst: param.dst_id },
                ) && *final(self) == *old(self),
            },
    {
        self.blit_image(param, false)
    }

    /// Draws the block that `param` names from image `src_id` over image `dst_id`. Refused,
    /// with nothing changed, when either image is missing, then when a block reaches outside
    /// its image.
    pub fn blit_blend_image(&mut self, param: BlitParam) -> (r: Result<(), CanvasError>)
        requires
            old(self).wf(),
            param.src_id != param.dst_id,
            param_fits(param),
        ensures
            final(self).wf(),
            match (old(self).image(param.src_id), old(self).image(param.dst_id)) {
                (Some(s), Some(d)) => if d.bounds().contains(param_dst(param))
                    && s.bounds().contains(param_src(param)) {
                    &&& r == Ok::<(), CanvasError>(())
                    &&& final(self).others_kept(&*old(self), param.dst_id)
                    &&& final(self).image(param.dst_id) matches Some(n) && blended_into(
                        d,
                        n,
                        s,
                        param_src(param),
                        param_dst(param),
                    )
                    &&& final(self).damage() == damage_after(
                        old(self).target(),
                        old(self).damage(),
                        param.dst_id,
                        param_dst(param),
                    )
                } else {
                    r == Err::<(), CanvasError>(CanvasError::Surface(SurfaceError::RectOutsideSurface))
                        && *final(self) == *old(self)
                },
                _ => r == Err::<(), CanvasError>(
                    CanvasError::MissingImage { src: param.src_id, dst: param.dst_id },
                ) && *final(self) == *old(self),
            },
    {
        self.blit_image(param, true)
    }

    /// The blits: `blend` chooses drawing over copying.
    fn blit_image(&mut self, param: BlitParam, blend: bool) -> (r: Result<(), CanvasError>)
        requires
            old(self).wf(),
            param.src_id != param.dst_id,
            param_fits(param),
        ensures
            final(self).wf(),
            match (old(self).image(param.src_id), old(self).image(param.dst_id)) {
                (Some(s), Some(d)) => if d.bounds().contains(param_dst(param))
                    && s.bounds().contains(param_src(param)) {
                    &&& r == Ok::<(), CanvasError>(())
                    &&& final(self).others_kept(&*old(self), param.dst_id)
                    &&& final(self).image(param.dst_id) matches Some(n) && if blend {
                        blended_into(d, n, s, param_src(param), param_dst(param))
                    } else {
                        copied_into(d, n, s, param_src(param), param_dst(param))
                    }
                    &&& final(self).damage() == damage_after(
                        old(self).target(),
                        old(self).damage(),
                        param.dst_id,
                        param_dst(param),
                    )
                } else {
                    r == Err::<(), CanvasError>(CanvasError::Surface(SurfaceError::RectOutsideSurface))
                        && *final(self) == *old(self)
                },
                _ => r == Err::<(), CanvasError>(
                    CanvasError::MissingImage { src: param.src_id, dst: param.dst_id },
                ) && *final(self) == *old(self),
            },
    {
        let s = param.src_id as usize;
        let d = param.dst_id as usize;
        let src_rect = Rect::from_xywh(param.src_x, param.src_y, param.width, param.height);
        let dst_rect = Rect::from_xywh(param.dst_x, param.dst_y, param.width, param.height);
        let fits = match (&self.images[s], &self.images[d]) {
            (Some(src), Some(dst)) => dst.rect().contains(dst_rect) && src.rect().contains(src_rect),
            _ => {
                assert(self.image(param.src_id) is None || self.image(param.dst_id) is None);
                return Err(CanvasError::MissingImage { src: param.src_id, dst: param.dst_id });
            },
        };
        if !fits {
            return Err(CanvasError::Surface(SurfaceError::RectOutsideSurface));
        }
        let ghost before = *self;
        let ghost src_before = self.images@[s as int]->Some_0;
        let ghost dst_before = self.images@[d as int]->Some_0;
        let mut taken: Option<Surface> = None;
        std::mem::swap(&mut taken, &mut self.images[d]);
        assert(self.images@ == before.images@.update(d as int, None));
        let mut dst = match taken {
            Some(surface) => surface,
            None => {
                proof { assert(false); }
                return Err(CanvasError::MissingImage { src: param.src_id, dst: param.dst_id });
            },
        };
        assert(dst == dst_before);
        assert(self.images@[s as int] == before.images@[s as int]);
        let res = match &self.images[s] {
            Some(src) => {
                assert(*src == src_before);
                if blend {
                    dst.blit_blend(src_rect, dst_rect, src)
                } else {
                    dst.blit_copy(src_rect, dst_rect, src)
                }
            },
            None => {
                proof { assert(false); }
                Ok(())
            },
        };
        if let Err(e) = res {
            proof { assert(false); }
            return Err(CanvasError::Surface(e));
        }
        let ghost after_blit = dst;
        self.images.set(d, Some(dst));
        assert(self.images@ == before.images@.update(d as int, Some(after_blit)));
        self.maybe_damaged(param.dst_id, dst_rect);
        assert forall|j: u8| j != param.dst_id implies #[trigger] self.image(j) == old(self).image(j) by {
            assert(self.images@[j as int] == before.images@[j as int]);
        }
        Ok(())
    }

    /// Whether updating the screen can copy the damaged area; see `update_fits`.
    pub fn screen_update_fits(&self) -> (b: bool)
        requires
            self.wf(),
        ensures
            b == self.update_fits(),
    {
        match (self.target, &self.damaged) {
            (Some(t), Some(d)) => match &self.images[t as usize] {
                Some(s) => s.rect().contains(*d) && self.screen.rect().contains(*d),
                None => true,
            },
            _ => true,
        }
    }

    /// Copies the damaged area of the target image to the screen and forgets it; returns
    /// that area. Without a target nothing changes; with a target the damage is forgotten
    /// even when there is no area or no image to copy.
    pub fn update_screen(&mut self) -> (r: Option<Rect>)
        requires
            old(self).wf(),
            old(self).update_fits(),
        ensures
            final(self).wf(),
            forall|j: u8| #[trigger] final(self).image(j) == old(self).image(j),
            final(self).target() == old(self).target(),
            old(self).target() is None ==> r is None && *final(self) == *old(self),
            old(self).target() matches Some(t) ==> final(self).damage() is None && match (
                old(self).damage(),
                old(self).image(t),
            ) {
                (Some(d), Some(s)) => r matches Some(rect) && rect@ == d && copied_into(
                    old(self).screen_surface(),
                    final(self).screen_surface(),
                    s,
                    d,
                    d,
                ),
                _ => r is None && final(self).screen_surface() == old(self).screen_surface(),
            },
    {
        let t = match self.target {
            Some(t) => t,
            None => return None,
        };
        let damaged = self.damaged;
        self.damaged = None;
        let d = match damaged {
            Some(d) => d,
            None => return None,
        };
        match &self.images[t as usize] {
            Some(src) => {
                let res = self.screen.blit_copy(d, d, src);
                if res.is_err() {
                    proof { assert(false); }
                }
                Some(d)
            },
            None => None,
        }
    }
}

/// The screen as a window of `width` by `height` pixels shows it: the same pixels when the
/// sizes match, and otherwise the screen stretched over the whole window, each window pixel
/// taking the nearest screen pixel.
pub fn fit_screen(screen: &Surface, width: u16, height: u16) -> (r: Surface)
    requires
        screen.wf(),
        (width == screen.width && height == screen.height) || (screen.width > 0 && screen.height > 0),
    ensures
        r.wf(),
        r.width == width,
        r.height == height,
        width == screen.width && height == screen.height ==> r.pixels@ == screen.pixels@,
        !(width == screen.width && height == screen.height) ==> forall|x: int, y: int|
            #![trigger r.pixel(x, y)]
            r.has_pixel(x, y) ==> r.pixel(x, y) == screen.pixels@[scaled_source_index(
                screen,
                screen.bounds(),
                r.bounds(),
                x,
                y,
            )],
{
    if width == screen.width && height == screen.height {
        let mut pixels: Vec<u32> = Vec::new();
        let n = screen.pixels.len();
        let mut i: usize = 0;
        while i < n
            invariant
                i <= n,
                n == screen.pixels@.len(),
                pixels@ == screen.pixels@.take(i as int),
            decreases n - i,
        {
            pixels.push(screen.pixels[i]);
            i += 1;
            proof {
                assert(pixels@ =~= screen.pixels@.take(i as int));
            }
        }
        proof {
            assert(screen.pixels@.take(n as int) =~= screen.pixels@);
        }
        return Surface { width, height, pixels };
    }
    let mut view = Surface::new(width, height);
    let view_rect = view.rect();
    let screen_rect = screen.rect();
    proof {
        lemma_scaled_reads_in_bounds(screen, screen_rect@, view_rect@);
    }
    let res = view.blit_scale_copy(screen_rect, view_rect, screen);
    if res.is_err() {
        proof { assert(false); }
    }
    view
}

} // verus!
