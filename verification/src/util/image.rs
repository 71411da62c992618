//! Pixel colour arithmetic on packed little-endian RGBA values.
use vstd::prelude::*;

verus! {

/// Number of bytes per pixel.
pub const PIXEL_STRIDE: usize = 4;

/// Appends `count` pixels to `pixels`, copying them from the pixels that start `pos` pixels
/// before the end; the copy may run into the pixels it appends, which repeats them.
pub fn copy_previous_pixels(pixels: &mut Vec<u8>, pos: usize, count: usize)
    requires
        count > 0 ==> 1 <= pos && pos * PIXEL_STRIDE <= old(pixels).len(),
        old(pixels).len() + count * PIXEL_STRIDE <= usize::MAX,
    ensures
        final(pixels).len() == old(pixels).len() + count * PIXEL_STRIDE,
        final(pixels)@.take(old(pixels).len() as int) == old(pixels)@,
        forall|i: int|
            old(pixels).len() <= i < final(pixels).len() ==> #[trigger] final(pixels)@[i]
                == final(pixels)@[i - pos * PIXEL_STRIDE],
{
    if count == 0 {
        assert(pixels@.take(pixels.len() as int) =~= pixels@);
        return;
    }
    let ghost old_len = pixels.len() as int;
    let ghost old_pixels = pixels@;
    let distance: usize = pos * PIXEL_STRIDE;
    let mut src: usize = pixels.len() - distance;
    let total: usize = count * PIXEL_STRIDE;
    let mut k: usize = 0;
    while k < total
        invariant
            old_len == old(pixels).len(),
            old_pixels == old(pixels)@,
            total == count * PIXEL_STRIDE,
            old_len + total <= usize::MAX,
            1 <= distance <= old_len,
            k <= total,
            pixels.len() == old_len + k,
            src == old_len + k - distance,
            pixels@.take(old_len) == old_pixels,
            forall|i: int| old_len <= i < pixels.len() ==> #[trigger] pixels@[i] == pixels@[i - distance],
        decreases total - k,
    {
        let b = pixels[src];
        pixels.push(b);
        src += 1;
        k += 1;
        proof {
            assert(pixels@.take(old_len) =~= old_pixels);
        }
    }
}

/// `lhs * rhs / 255`, rounded down.
pub open spec fn spec_mul_div_255(lhs: u8, rhs: u8) -> u8 {
    ((lhs as int * rhs as int) / 255) as u8
}

proof fn lemma_div_255_by_shifts(x: u32, y: u32, z: u32)
    by (bit_vector)
    requires
        x <= 65025,
        y == x + 1,
        z == y + (y >> 8u32),
    ensures
        z <= 65535,
        z >> 8u32 == x / 255,
{
}

/// Multiplies two channel values in the 0..=255 scale.
pub fn mul_div_255(lhs: u8, rhs: u8) -> (r: u8)
    ensures
        r == spec_mul_div_255(lhs, rhs),
{
    let (l, m) = (lhs as u32, rhs as u32);
    assert(l * m <= 65025) by (nonlinear_arith)
        requires l <= 255, m <= 255;
    let p: u32 = l * m;
    let y: u32 = p + 1;
    assert(y >> 8u32 <= 256) by (bit_vector)
        requires y <= 65026;
    let z: u32 = y + (y >> 8);
    proof { lemma_div_255_by_shifts(p, y, z); }
    (z >> 8) as u8
}

/// The red channel of a packed colour (byte 0 of its little-endian form).
pub open spec fn red(c: u32) -> u8 {
    (c & 0xFF) as u8
}

/// The green channel (byte 1).
pub open spec fn green(c: u32) -> u8 {
    ((c >> 8u32) & 0xFF) as u8
}

/// The blue channel (byte 2).
pub open spec fn blue(c: u32) -> u8 {
    ((c >> 16u32) & 0xFF) as u8
}

/// The alpha channel (byte 3).
pub open spec fn alpha(c: u32) -> u8 {
    (c >> 24u32) as u8
}

/// The colour with the given channels.
pub open spec fn rgba(r: u8, g: u8, b: u8, a: u8) -> u32 {
    (r as u32) | ((g as u32) << 8u32) | ((b as u32) << 16u32) | ((a as u32) << 24u32)
}

/// Channels of a packed colour read back what `rgba` packed, and a colour is the packing of
/// its own channels.
pub proof fn lemma_rgba_channels(r: u8, g: u8, b: u8, a: u8, c: u32)
    ensures
        red(rgba(r, g, b, a)) == r,
        green(rgba(r, g, b, a)) == g,
        blue(rgba(r, g, b, a)) == b,
        alpha(rgba(r, g, b, a)) == a,
        rgba(red(c), green(c), blue(c), alpha(c)) == c,
{
    assert(((((r as u32) | ((g as u32) << 8u32) | ((b as u32) << 16u32) | ((a as u32)
        << 24u32)) & 0xFF) as u8) == r) by (bit_vector);
    assert((((((r as u32) | ((g as u32) << 8u32) | ((b as u32) << 16u32) | ((a as u32)
        << 24u32)) >> 8u32) & 0xFF) as u8) == g) by (bit_vector);
    assert((((((r as u32) | ((g as u32) << 8u32) | ((b as u32) << 16u32) | ((a as u32)
        << 24u32)) >> 16u32) & 0xFF) as u8) == b) by (bit_vector);
    assert(((((r as u32) | ((g as u32) << 8u32) | ((b as u32) << 16u32) | ((a as u32)
        << 24u32)) >> 24u32) as u8) == a) by (bit_vector);
    assert(((((c & 0xFF) as u8) as u32) | (((((c >> 8u32) & 0xFF) as u8) as u32) << 8u32) | (
    (((((c >> 16u32) & 0xFF) as u8) as u32) << 16u32)) | ((((c >> 24u32) as u8) as u32)
        << 24u32)) == c) by (bit_vector);
}

proof fn lemma_mul_div_255_bound(l: u8, r: u8)
    ensures
        spec_mul_div_255(l, r) <= l,
        spec_mul_div_255(l, r) <= r,
        spec_mul_div_255(255, r) == r,
        spec_mul_div_255(0, r) == 0,
{
    assert((l as int * r as int) / 255 <= l) by (nonlinear_arith)
        requires
            0 <= l <= 255,
            0 <= r <= 255,
    ;
    assert((l as int * r as int) / 255 <= r) by (nonlinear_arith)
        requires
            0 <= l <= 255,
            0 <= r <= 255,
    ;
    assert((255 * r as int) / 255 == r) by (nonlinear_arith);
}

/// `color` with its alpha multiplied by `alpha / 255`.
pub fn mul_alpha(color: u32, alpha: u8) -> (r: u32)
    ensures
        r == rgba(red(color), green(color), blue(color), spec_mul_div_255(self::alpha(color), alpha)),
{
    let r = (color & 0xFF) as u8;
    let g = ((color >> 8) & 0xFF) as u8;
    let b = ((color >> 16) & 0xFF) as u8;
    let a = (color >> 24) as u8;
    pack(r, g, b, mul_div_255(a, alpha))
}

fn pack(r: u8, g: u8, b: u8, a: u8) -> (c: u32)
    ensures
        c == rgba(r, g, b, a),
{
    (r as u32) | ((g as u32) << 8) | ((b as u32) << 16) | ((a as u32) << 24)
}

/// The colour channels of `color` multiplied by its alpha; an opaque colour is returned as it
/// is.
pub open spec fn spec_premultiply_color(color: u32) -> u32 {
    if alpha(color) == 0xFF {
        color
    } else {
        rgba(
            spec_mul_div_255(alpha(color), red(color)),
            spec_mul_div_255(alpha(color), green(color)),
            spec_mul_div_255(alpha(color), blue(color)),
            alpha(color),
        )
    }
}

/// Multiplies the colour channels of `color` by its alpha.
pub fn premultiply_color(color: u32) -> (r: u32)
    ensures
        r == spec_premultiply_color(color),
{
    let r = (color & 0xFF) as u8;
    let g = ((color >> 8) & 0xFF) as u8;
    let b = ((color >> 16) & 0xFF) as u8;
    let a = (color >> 24) as u8;
    if a == 0xFF {
        return color;
    }
    pack(mul_div_255(a, r), mul_div_255(a, g), mul_div_255(a, b), a)
}

/// One channel of "premultiplied `fg` over `bg`": `bg` weighted by what `fg` lets through,
/// plus `fg`.
pub open spec fn blend_channel(bg: u8, fg: u8, fg_alpha: u8) -> int {
    spec_mul_div_255((255 - fg_alpha) as u8, bg) + fg
}

/// Whether every channel of premultiplied `fg` over `bg` stays within a byte.
pub open spec fn blend_fits(bg: u32, fg: u32) -> bool {
    &&& blend_channel(red(bg), red(fg), alpha(fg)) <= 255
    &&& blend_channel(green(bg), green(fg), alpha(fg)) <= 255
    &&& blend_channel(blue(bg), blue(fg), alpha(fg)) <= 255
    &&& blend_channel(alpha(bg), alpha(fg), alpha(fg)) <= 255
}

/// The premultiplied colour `fg` drawn over `bg`.
pub open spec fn spec_blend_premultiplied(bg: u32, fg: u32) -> u32 {
    rgba(
        blend_channel(red(bg), red(fg), alpha(fg)) as u8,
        blend_channel(green(bg), green(fg), alpha(fg)) as u8,
        blend_channel(blue(bg), blue(fg), alpha(fg)) as u8,
        blend_channel(alpha(bg), alpha(fg), alpha(fg)) as u8,
    )
}

/// The straight colour `fg` drawn over `bg`.
pub open spec fn spec_blend_color(bg: u32, fg: u32) -> u32 {
    spec_blend_premultiplied(bg, spec_premultiply_color(fg))
}

/// A premultiplied colour has no colour channel above its alpha, so it can be drawn over any
/// background.
pub proof fn lemma_premultiplied_fits(bg: u32, fg: u32)
    ensures
        blend_fits(bg, spec_premultiply_color(fg)),
{
    let p = spec_premultiply_color(fg);
    lemma_rgba_channels(
        spec_mul_div_255(alpha(fg), red(fg)),
        spec_mul_div_255(alpha(fg), green(fg)),
        spec_mul_div_255(alpha(fg), blue(fg)),
        alpha(fg),
        fg,
    );
    lemma_mul_div_255_bound((255 - alpha(p)) as u8, red(bg));
    lemma_mul_div_255_bound((255 - alpha(p)) as u8, green(bg));
    lemma_mul_div_255_bound((255 - alpha(p)) as u8, blue(bg));
    lemma_mul_div_255_bound((255 - alpha(p)) as u8, alpha(bg));
    lemma_mul_div_255_bound(alpha(fg), red(fg));
    lemma_mul_div_255_bound(alpha(fg), green(fg));
    lemma_mul_div_255_bound(alpha(fg), blue(fg));
}

/// Draws the premultiplied colour `fg` over `bg`.
pub fn blend_premultiplied_color(bg: u32, fg: u32) -> (r: u32)
    requires
        blend_fits(bg, fg),
    ensures
        r == spec_blend_premultiplied(bg, fg),
{
    let (bg_r, bg_g, bg_b, bg_a) = (
        (bg & 0xFF) as u8,
        ((bg >> 8) & 0xFF) as u8,
        ((bg >> 16) & 0xFF) as u8,
        (bg >> 24) as u8,
    );
    let (fg_r, fg_g, fg_b, fg_a) = (
        (fg & 0xFF) as u8,
        ((fg >> 8) & 0xFF) as u8,
        ((fg >> 16) & 0xFF) as u8,
        (fg >> 24) as u8,
    );
    pack(
        mul_div_255(255 - fg_a, bg_r) + fg_r,
        mul_div_255(255 - fg_a, bg_g) + fg_g,
        mul_div_255(255 - fg_a, bg_b) + fg_b,
        mul_div_255(255 - fg_a, bg_a) + fg_a,
    )
}

/// Draws the straight colour `fg` over `bg`.
pub fn blend_color(bg: u32, fg: u32) -> (r: u32)
    ensures
        r == spec_blend_color(bg, fg),
{
    let p = premultiply_color(fg);
    proof { lemma_premultiplied_fits(bg, fg); }
    let (fg_r, fg_g, fg_b, fg_a) = (
        (p & 0xFF) as u8,
        ((p >> 8) & 0xFF) as u8,
        ((p >> 16) & 0xFF) as u8,
        (p >> 24) as u8,
    );
    let (bg_r, bg_g, bg_b, bg_a) = (
        (bg & 0xFF) as u8,
        ((bg >> 8) & 0xFF) as u8,
        ((bg >> 16) & 0xFF) as u8,
        (bg >> 24) as u8,
    );
    assert(!fg_a == 255 - fg_a) by (bit_vector);
    pack(
        mul_div_255(!fg_a, bg_r) + fg_r,
        mul_div_255(!fg_a, bg_g) + fg_g,
        mul_div_255(!fg_a, bg_b) + fg_b,
        mul_div_255(!fg_a, bg_a) + fg_a,
    )
}

/// Drawing an opaque colour replaces the background; drawing a fully transparent one leaves
/// it as it is.
pub proof fn lemma_blend_opaque_and_transparent(bg: u32, fg: u32)
    ensures
        alpha(fg) == 255 ==> spec_blend_color(bg, fg) == fg,
        alpha(fg) == 0 ==> spec_blend_color(bg, fg) == bg,
{
    lemma_rgba_channels(red(fg), green(fg), blue(fg), alpha(fg), fg);
    lemma_rgba_channels(red(bg), green(bg), blue(bg), alpha(bg), bg);
    let p = spec_premultiply_color(fg);
    lemma_rgba_channels(
        spec_mul_div_255(alpha(fg), red(fg)),
        spec_mul_div_255(alpha(fg), green(fg)),
        spec_mul_div_255(alpha(fg), blue(fg)),
        alpha(fg),
        fg,
    );
    lemma_mul_div_255_bound(0, red(bg));
    lemma_mul_div_255_bound(0, green(bg));
    lemma_mul_div_255_bound(0, blue(bg));
    lemma_mul_div_255_bound(0, alpha(bg));
    lemma_mul_div_255_bound(255, red(bg));
    lemma_mul_div_255_bound(255, green(bg));
    lemma_mul_div_255_bound(255, blue(bg));
    lemma_mul_div_255_bound(255, alpha(bg));
    lemma_mul_div_255_bound(0, red(fg));
    lemma_mul_div_255_bound(0, green(fg));
    lemma_mul_div_255_bound(0, blue(fg));
}

} // verus!
