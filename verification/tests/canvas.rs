use reikura::gfx::canvas::{Canvas, CanvasError, fit_screen};
use reikura::gfx::param::BlitParam;
use reikura::gfx::surface::SurfaceError;

fn param(src_id: u8, dst_id: u8, src: (u32, u32), size: (u32, u32), dst: (u32, u32)) -> BlitParam {
    BlitParam {
        src_id,
        dst_id,
        src_x: src.0,
        src_y: src.1,
        width: size.0,
        height: size.1,
        dst_x: dst.0,
        dst_y: dst.1,
    }
}

#[test]
fn new_canvas_is_black_without_damage() {
    let mut canvas = Canvas::new(4, 3);
    assert_eq!(canvas.screen().width, 4);
    assert_eq!(canvas.screen().height, 3);
    assert!(canvas.screen().pixels.iter().all(|&p| p == 0xFF_00_00_00));
    canvas.set_target(0, 0, 0);
    assert!(canvas.update_screen().is_none());
}

#[test]
fn clearing_a_missing_image_is_refused() {
    let mut canvas = Canvas::new(2, 2);
    assert_eq!(canvas.clear_image(7, (1, 2, 3)), Err(CanvasError::EmptyImage(7)));
}

#[test]
fn cleared_target_reaches_the_screen() {
    let mut canvas = Canvas::new(2, 2);
    canvas.set_target(1, 0, 0);
    canvas.new_image(1, 2, 2);
    assert_eq!(canvas.clear_image(1, (0x11, 0x22, 0x33)), Ok(()));
    assert!(canvas.screen_update_fits());
    let damaged = canvas.update_screen().expect("the target changed");
    assert_eq!(damaged.size(), (2, 2));
    assert!(canvas.screen().pixels.iter().all(|&p| p == 0xFF_33_22_11));
    // the damage was consumed
    assert!(canvas.update_screen().is_none());
}

#[test]
fn changes_to_other_images_leave_the_screen() {
    let mut canvas = Canvas::new(2, 2);
    canvas.set_target(1, 0, 0);
    canvas.new_image(2, 2, 2);
    canvas.clear_image(2, (0xFF, 0, 0)).unwrap();
    assert!(canvas.update_screen().is_none());
    assert!(canvas.screen().pixels.iter().all(|&p| p == 0xFF_00_00_00));
}

#[test]
fn blit_copy_image_copies_the_block() {
    let mut canvas = Canvas::new(4, 4);
    canvas.new_image(0, 2, 2);
    canvas.clear_image(0, (0, 0xFF, 0)).unwrap();
    canvas.new_image(1, 4, 4);
    canvas.set_target(1, 0, 0);
    assert_eq!(canvas.blit_copy_image(param(0, 1, (0, 0), (2, 2), (1, 1))), Ok(()));
    let damaged = canvas.update_screen().unwrap();
    assert_eq!(damaged.size(), (2, 2));
    let screen = canvas.screen();
    assert_eq!(screen.pixels[0], 0xFF_00_00_00);
    assert_eq!(screen.pixels[5], 0xFF_00_FF_00);
    assert_eq!(screen.pixels[10], 0xFF_00_FF_00);
    assert_eq!(screen.pixels[15], 0xFF_00_00_00);
}

#[test]
fn blit_blend_image_of_an_opaque_source_replaces() {
    let mut canvas = Canvas::new(2, 2);
    canvas.new_image(0, 2, 2);
    canvas.clear_image(0, (0, 0, 0xFF)).unwrap();
    canvas.new_image(1, 2, 2);
    canvas.set_target(1, 0, 0);
    assert_eq!(canvas.blit_blend_image(param(0, 1, (0, 0), (2, 2), (0, 0))), Ok(()));
    canvas.update_screen().unwrap();
    assert!(canvas.screen().pixels.iter().all(|&p| p == 0xFF_FF_00_00));
}

#[test]
fn blits_name_their_missing_images() {
    let mut canvas = Canvas::new(2, 2);
    canvas.new_image(0, 2, 2);
    assert_eq!(
        canvas.blit_copy_image(param(0, 3, (0, 0), (1, 1), (0, 0))),
        Err(CanvasError::MissingImage { src: 0, dst: 3 })
    );
    assert_eq!(
        canvas.blit_blend_image(param(3, 0, (0, 0), (1, 1), (0, 0))),
        Err(CanvasError::MissingImage { src: 3, dst: 0 })
    );
}

#[test]
fn blits_outside_an_image_are_refused() {
    let mut canvas = Canvas::new(2, 2);
    canvas.new_image(0, 2, 2);
    canvas.new_image(1, 2, 2);
    assert_eq!(
        canvas.blit_copy_image(param(0, 1, (1, 1), (2, 2), (0, 0))),
        Err(CanvasError::Surface(SurfaceError::RectOutsideSurface))
    );
}

#[test]
fn load_image_checks_the_data_length() {
    let mut canvas = Canvas::new(2, 2);
    assert_eq!(
        canvas.load_image(0, 2, 2, &[0; 15]),
        Err(CanvasError::Surface(SurfaceError::InvalidBytesLength))
    );
    assert_eq!(canvas.clear_image(0, (0, 0, 0)), Err(CanvasError::EmptyImage(0)));
    assert_eq!(canvas.load_image(0, 2, 2, &[0; 16]), Ok(()));
    assert_eq!(canvas.clear_image(0, (0, 0, 0)), Ok(()));
}

#[test]
fn unset_target_keeps_the_screen() {
    let mut canvas = Canvas::new(2, 2);
    canvas.set_target(0, 0, 0);
    canvas.new_image(0, 2, 2);
    canvas.unset_target();
    assert!(canvas.update_screen().is_none());
    canvas.set_target(0, 0, 0);
    // the damage noted while the image was the target is still there
    assert!(canvas.update_screen().is_some());
    assert!(canvas.screen().pixels.iter().all(|&p| p == 0));
}

#[test]
fn fit_screen_copies_or_stretches() {
    let mut canvas = Canvas::new(2, 1);
    canvas.set_target(0, 0, 0);
    canvas.load_image(0, 2, 1, &[1, 0, 0, 0, 2, 0, 0, 0]).unwrap();
    canvas.update_screen().unwrap();
    let screen = canvas.screen();
    let same = fit_screen(screen, 2, 1);
    assert_eq!(same.pixels, screen.pixels);
    let wide = fit_screen(screen, 4, 2);
    assert_eq!(wide.width, 4);
    assert_eq!(wide.height, 2);
    let left = screen.pixels[0];
    let right = screen.pixels[1];
    assert_eq!(wide.pixels, vec![left, left, right, right, left, left, right, right]);
}
