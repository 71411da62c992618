use reikura::gfx::rect::Rect;
use reikura::gfx::surface::{Surface, SurfaceError};
use reikura::util::image::{blend_color, mul_div_255, premultiply_color};

const TRANSPARENT: u32 = 0x00_00_00_00;
const RED: u32 = 0xFF_00_00_FF;
const GREEN: u32 = 0xFF_00_FF_00;
const BLUE: u32 = 0xFF_FF_00_00;
const BLACK: u32 = 0xFF_00_00_00;
const BLACK_50: u32 = 0x7F_00_00_00;
const WHITE: u32 = 0xFF_FF_FF_FF;

fn create_test_surface(width: u16, height: u16, color: u32) -> Surface {
    let mut surface = Surface::new(width, height);
    surface.clear(color);

    surface
}

#[test]
fn test_fill_rect_copy() {
    let gray = blend_color(WHITE, BLACK_50);
    let mut dst = create_test_surface(4, 4, BLUE);

    let rect = Rect::from_xywh(1, 1, 2, 2);
    dst.fill_rect_copy(rect, gray).unwrap();

    let expected = [
        BLUE, BLUE, BLUE, BLUE,
        BLUE, gray, gray, BLUE,
        BLUE, gray, gray, BLUE,
        BLUE, BLUE, BLUE, BLUE,
    ];

    assert_eq!(dst.pixels, expected);
}

#[test]
fn test_fill_rect_blend() {
    let navy = blend_color(BLUE, BLACK_50);
    let mut dst = create_test_surface(4, 4, BLUE);

    let rect = Rect::from_xywh(1, 1, 2, 2);
    dst.fill_rect_blend(rect, BLACK_50).unwrap();

    let expected = [
        BLUE, BLUE, BLUE, BLUE,
        BLUE, navy, navy, BLUE,
        BLUE, navy, navy, BLUE,
        BLUE, BLUE, BLUE, BLUE,
    ];

    assert_eq!(dst.pixels, expected);
}

#[test]
fn test_blit_copy() {
    let src = create_test_surface(4, 4, RED);
    let mut dst = create_test_surface(4, 4, BLUE);

    let src_rect = Rect::from_xywh(0, 0, 2, 2);
    let dst_rect = Rect::from_xywh(0, 0, 2, 2);

    dst.blit_copy(src_rect, dst_rect, &src).unwrap();

    let expected = [
        RED, RED, BLUE, BLUE,
        RED, RED, BLUE, BLUE,
        BLUE, BLUE, BLUE, BLUE,
        BLUE, BLUE, BLUE, BLUE,
    ];

    assert_eq!(dst.pixels, expected);
}

#[test]
fn test_blit_blend() {
    let gray = blend_color(WHITE, BLACK_50);
    let mut src = create_test_surface(3, 4, BLACK_50);
    src.fill_rect_copy(Rect::from_xywh(0, 0, 1, 1), BLACK)
        .unwrap();
    let mut dst = create_test_surface(3, 4, WHITE);

    let src_rect = Rect::from_xywh(0, 0, 1, 2);
    let dst_rect = Rect::from_xywh(1, 1, 1, 2);

    dst.blit_blend(src_rect, dst_rect, &src).unwrap();

    let expected = [
        WHITE, WHITE, WHITE,
        WHITE, BLACK, WHITE,
        WHITE, gray, WHITE,
        WHITE, WHITE, WHITE,
    ];

    assert_eq!(dst.pixels, expected);
}

#[test]
fn test_blit_blend_transparrent() {
    let src = create_test_surface(3, 4, TRANSPARENT);
    let mut dst = create_test_surface(3, 4, GREEN);

    let rect = Rect::from_xywh(0, 0, 2, 2);

    dst.blit_blend(rect, rect, &src).unwrap();

    let expected = [
        GREEN, GREEN, GREEN,
        GREEN, GREEN, GREEN,
        GREEN, GREEN, GREEN,
        GREEN, GREEN, GREEN,
    ];

    assert_eq!(dst.pixels, expected);
}

#[test]
fn test_blit_scale_copy() {
    let src = create_test_surface(4, 4, BLACK);
    let mut dst = create_test_surface(8, 8, WHITE);

    let src_rect = Rect::from_xywh(0, 0, 4, 4);
    let dst_rect = Rect::from_xywh(1, 1, 3, 2);

    dst.blit_scale_copy(src_rect, dst_rect, &src).unwrap();

    let expected = [
        WHITE, WHITE, WHITE, WHITE, WHITE, WHITE, WHITE, WHITE,
        WHITE, BLACK, BLACK, BLACK, WHITE, WHITE, WHITE, WHITE,
        WHITE, BLACK, BLACK, BLACK, WHITE, WHITE, WHITE, WHITE,
        WHITE, WHITE, WHITE, WHITE, WHITE, WHITE, WHITE, WHITE,
        WHITE, WHITE, WHITE, WHITE, WHITE, WHITE, WHITE, WHITE,
        WHITE, WHITE, WHITE, WHITE, WHITE, WHITE, WHITE, WHITE,
        WHITE, WHITE, WHITE, WHITE, WHITE, WHITE, WHITE, WHITE,
        WHITE, WHITE, WHITE, WHITE, WHITE, WHITE, WHITE, WHITE,
    ];

    assert_eq!(dst.pixels, expected);
}

#[test]
fn test_blit_scale_blend() {
    let gray = blend_color(WHITE, BLACK_50);
    let mut src = create_test_surface(4, 4, BLACK_50);
    src.fill_rect_copy(Rect::from_xywh(0, 0, 1, 1), GREEN)
        .unwrap();
    let mut dst = create_test_surface(8, 8, WHITE);

    let src_rect = Rect::from_xywh(0, 0, 2, 2);
    let dst_rect = Rect::from_xywh(3, 4, 4, 4);

    dst.blit_scale_blend(src_rect, dst_rect, &src).unwrap();

    let expected = [
        WHITE, WHITE, WHITE, WHITE, WHITE, WHITE, WHITE, WHITE,
        WHITE, WHITE, WHITE, WHITE, WHITE, WHITE, WHITE, WHITE,
        WHITE, WHITE, WHITE, WHITE, WHITE, WHITE, WHITE, WHITE,
        WHITE, WHITE, WHITE, WHITE, WHITE, WHITE, WHITE, WHITE,
        WHITE, WHITE, WHITE, GREEN, GREEN, gray, gray, WHITE,
        WHITE, WHITE, WHITE, GREEN, GREEN, gray, gray, WHITE,
        WHITE, WHITE, WHITE, gray, gray, gray, gray, WHITE,
        WHITE, WHITE, WHITE, gray, gray, gray, gray, WHITE,
    ];

    assert_eq!(dst.pixels, expected);
}

#[test]
fn gray_and_navy_values() {
    // Half-transparent black over white and over blue.
    assert_eq!(blend_color(WHITE, BLACK_50), 0xFF_80_80_80);
    assert_eq!(blend_color(BLUE, BLACK_50), 0xFF_80_00_00);
}

#[test]
fn blend_opaque_and_transparent_foregrounds() {
    assert_eq!(blend_color(WHITE, RED), RED);
    assert_eq!(blend_color(GREEN, TRANSPARENT), GREEN);
}

#[test]
fn mul_div_255_values() {
    assert_eq!(mul_div_255(255, 255), 255);
    assert_eq!(mul_div_255(0, 200), 0);
    assert_eq!(mul_div_255(128, 255), 128);
    assert_eq!(mul_div_255(127, 127), 63);
    assert_eq!(premultiply_color(0x80_FF_FF_FF), 0x80_80_80_80);
}

#[test]
fn fill_rect_outside_is_refused() {
    let mut dst = create_test_surface(2, 2, BLUE);
    let r = dst.fill_rect_copy(Rect::from_xywh(1, 1, 2, 2), RED);
    assert_eq!(r, Err(SurfaceError::RectOutsideSurface));
    assert_eq!(dst.pixels, vec![BLUE; 4]);
}

#[test]
fn blit_copy_size_mismatch_is_refused() {
    let src = create_test_surface(4, 4, RED);
    let mut dst = create_test_surface(4, 4, BLUE);
    let r = dst.blit_copy(Rect::from_xywh(0, 0, 2, 2), Rect::from_xywh(0, 0, 3, 2), &src);
    assert_eq!(r, Err(SurfaceError::SizeMismatch));
}

#[test]
fn from_bytes_checks_length() {
    let s = Surface::from_bytes(1, 2, &[1, 2, 3, 4, 5, 6, 7, 8]).unwrap();
    assert_eq!(s.pixels.len(), 2);
    assert_eq!(s.pixels[0], u32::from_ne_bytes([1, 2, 3, 4]));
    assert!(matches!(
        Surface::from_bytes(1, 2, &[1, 2, 3]),
        Err(SurfaceError::InvalidBytesLength)
    ));
}

#[test]
fn new_black_is_opaque_black() {
    let s = Surface::new_black(2, 3);
    assert_eq!(s.pixels, vec![BLACK; 6]);
    assert_eq!(s.rect().size(), (2, 3));
}
