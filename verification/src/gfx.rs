//! Software rendering: rectangles, blit parameters and pixel surfaces.
pub mod rect;
pub mod surface;
pub mod param;
pub mod canvas;
