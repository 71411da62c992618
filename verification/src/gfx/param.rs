//! The parameters of a blit between two images.
use vstd::prelude::*;
use crate::util::rect::Rect;

verus! {

/// Copy a `width` by `height` block from image `src_id` at `(src_x, src_y)` to image
/// `dst_id` at `(dst_x, dst_y)`.
#[derive(Debug, Clone, Copy, PartialEq, Eq, Structural)]
pub struct BlitParam {
    pub src_id: u8,
    pub dst_id: u8,
    pub src_x: u32,
    pub src_y: u32,
    pub width: u32,
    pub height: u32,
    pub dst_x: u32,
    pub dst_y: u32,
}

impl BlitParam {
    /// The block read from the source image.
    pub fn src_rect(&self) -> (r: Rect)
        requires
            self.src_x + self.width <= u32::MAX,
            self.src_y + self.height <= u32::MAX,
        ensures
            r == (Rect {
                left: self.src_x,
                top: self.src_y,
                right: (self.src_x + self.width) as u32,
                bottom: (self.src_y + self.height) as u32,
            }),
    {
        Rect::from_xywh(self.src_x, self.src_y, self.width, self.height)
    }

    /// The block written in the destination image.
    pub fn dst_rect(&self) -> (r: Rect)
        requires
            self.dst_x + self.width <= u32::MAX,
            self.dst_y + self.height <= u32::MAX,
        ensures
            r == (Rect {
                left: self.dst_x,
                top: self.dst_y,
                right: (self.dst_x + self.width) as u32,
                bottom: (self.dst_y + self.height) as u32,
            }),
    {
        Rect::from_xywh(self.dst_x, self.dst_y, self.width, self.height)
    }
}

} // verus!
