use orbit_render::{BodyKind, InputState, Renderer, Texture};

fn texture_2x2() -> Texture {
    let bytes: Vec<u8> = vec![
        1, 2, 3, 255, // opaque
        4, 5, 6, 0, // fully transparent
        0xAA, 0xBB, 0xCC, 10, // alpha at the threshold
        7, 8, 9, 9, // alpha just below it
    ];
    Texture::from_rgba(2, 2, &bytes)
}

#[test]
fn from_rgba_packs_argb() {
    let tex = texture_2x2();
    assert_eq!(tex.width, 2);
    assert_eq!(tex.height, 2);
    assert_eq!(tex.pixels, vec![0xFF010203, 0x00040506, 0x0AAABBCC, 0x09070809]);
}

#[test]
fn from_image_adds_opaque_alpha() {
    let rgb = image::RgbImage::from_raw(2, 1, vec![1, 2, 3, 250, 251, 252]).unwrap();
    let tex = Texture::from_image(&image::DynamicImage::ImageRgb8(rgb)).unwrap();
    assert_eq!(tex.width, 2);
    assert_eq!(tex.height, 1);
    assert_eq!(tex.pixels, vec![0xFF010203, 0xFFFAFBFC]);
}

#[test]
fn from_image_converts_sixteen_bit_samples() {
    let gray = image::ImageBuffer::<image::Luma<u16>, Vec<u16>>::from_raw(1, 1, vec![0xFFFF]).unwrap();
    let tex = Texture::from_image(&image::DynamicImage::ImageLuma16(gray)).unwrap();
    assert_eq!(tex.pixels, vec![0xFFFFFFFF]);
}

#[test]
fn from_image_refuses_float_samples() {
    let rgba = image::Rgba32FImage::from_raw(1, 1, vec![f32::NAN, 0.5, 0.5, 1.0]).unwrap();
    assert!(Texture::from_image(&image::DynamicImage::ImageRgba32F(rgba)).is_none());
    let rgb = image::Rgb32FImage::from_raw(1, 1, vec![0.25, 0.5, 0.75]).unwrap();
    assert!(Texture::from_image(&image::DynamicImage::ImageRgb32F(rgb)).is_none());
}

#[test]
fn renderer_new_clear_and_buffer() {
    let mut r = Renderer::new(3, 2);
    assert_eq!(r.width, 3);
    assert_eq!(r.height, 2);
    assert_eq!(r.buffer(), &[0u32; 6][..]);
    r.clear(0x123456);
    assert!(r.buffer().iter().all(|&p| p == 0x123456));
}

#[test]
fn renderer_put_pixel_and_bounds() {
    let mut r = Renderer::new(3, 2);
    r.put_pixel(1, 1, 8);
    r.put_pixel(3, 0, 9);
    r.put_pixel(0, -1, 9);
    let mut expected = vec![0u32; 6];
    expected[4] = 8;
    assert_eq!(r.buffer(), &expected[..]);
}

#[test]
fn renderer_draw_primitives() {
    let mut r = Renderer::new(5, 5);
    r.draw_line((0, 0), (4, 0), 1);
    assert_eq!(&r.buffer()[0..5], &[1, 1, 1, 1, 1]);
    r.clear(0);
    r.draw_filled_circle((2, 2), 1, 2);
    assert_eq!(r.buffer().iter().filter(|&&p| p == 2).count(), 5);
    r.clear(0);
    r.draw_circle((2, 2), 1, 3);
    let lit: Vec<usize> = (0..25).filter(|&k| r.buffer()[k] == 3).collect();
    assert_eq!(lit, vec![6, 7, 8, 11, 13, 16, 17, 18]);
    r.clear(0);
    r.draw_triangle((0, 0), (4, 0), (0, 4), 4);
    assert_eq!(r.buffer().iter().filter(|&&p| p == 4).count(), 12);
}

#[test]
fn blit_sprite_samples_and_skips_transparent() {
    let tex = texture_2x2();
    let mut r = Renderer::new(4, 4);
    r.clear(0x11);
    r.blit_sprite(&tex, (2, 2), 2);
    let b = r.buffer();
    assert_eq!(b[1 * 4 + 1], 0xFF010203);
    assert_eq!(b[1 * 4 + 2], 0x11);
    assert_eq!(b[2 * 4 + 1], 0x0AAABBCC);
    assert_eq!(b[2 * 4 + 2], 0x11);
    assert_eq!(b.iter().filter(|&&p| p == 0x11).count(), 14);
}

#[test]
fn blit_sprite_scales_nearest() {
    let tex = texture_2x2();
    let mut r = Renderer::new(4, 4);
    r.blit_sprite(&tex, (2, 2), 4);
    let b = r.buffer();
    for (x, y) in [(0, 0), (1, 0), (0, 1), (1, 1)] {
        assert_eq!(b[y * 4 + x], 0xFF010203);
    }
    for (x, y) in [(0, 2), (1, 2), (0, 3), (1, 3)] {
        assert_eq!(b[y * 4 + x], 0x0AAABBCC);
    }
    for (x, y) in [(2, 0), (3, 1), (2, 2), (3, 3)] {
        assert_eq!(b[y * 4 + x], 0);
    }
}

#[test]
fn blit_sprite_clips_and_ignores_empty_size() {
    let tex = texture_2x2();
    let mut r = Renderer::new(2, 2);
    r.blit_sprite(&tex, (0, 0), 0);
    r.blit_sprite(&tex, (0, 0), -3);
    assert_eq!(r.buffer(), &[0u32; 4][..]);
    r.blit_sprite(&tex, (0, 0), 2);
    assert_eq!(r.buffer(), &[0u32; 4][..]);
    r.blit_sprite(&tex, (1, 1), 2);
    assert_eq!(r.buffer(), &[0xFF010203, 0, 0x0AAABBCC, 0][..]);
}

#[test]
fn input_starts_released() {
    let i = InputState::new();
    assert!(!i.mover_adelante && !i.mover_atras && !i.mover_izquierda && !i.mover_derecha);
    assert!(!i.mover_arriba && !i.mover_abajo);
    assert!(!i.mirar_izquierda && !i.mirar_derecha && !i.mirar_arriba && !i.mirar_abajo);
    assert!(!i.warp_1 && !i.warp_2 && !i.warp_3 && !i.warp_animated);
}

#[test]
fn only_stars_stay_put() {
    assert!(!BodyKind::Star.orbits());
    assert!(BodyKind::Planet.orbits());
    assert!(BodyKind::Moon.orbits());
}

#[test]
fn strip_breaks_at_missing_points() {
    let mut r = Renderer::new(3, 3);
    let pts = vec![Some((0, 0)), Some((2, 0)), None, Some((0, 2)), Some((2, 2))];
    r.draw_strip(&pts, 1);
    assert_eq!(r.buffer(), &[1, 1, 1, 0, 0, 0, 1, 1, 1][..]);
}

#[test]
fn strip_joins_consecutive_points() {
    let mut r = Renderer::new(3, 3);
    let pts = vec![Some((0, 0)), Some((2, 0)), Some((2, 2))];
    r.draw_strip(&pts, 1);
    assert_eq!(r.buffer(), &[1, 1, 1, 0, 0, 1, 0, 0, 1][..]);
}

#[test]
fn strip_of_one_point_or_none_draws_nothing() {
    let mut r = Renderer::new(2, 2);
    r.draw_strip(&vec![], 1);
    r.draw_strip(&vec![Some((0, 0))], 1);
    r.draw_strip(&vec![Some((0, 0)), None, Some((1, 1))], 1);
    assert_eq!(r.buffer(), &[0u32; 4][..]);
}

#[test]
fn instant_warp_takes_the_last_held_key() {
    let mut i = InputState::new();
    assert_eq!(i.instant_warp_target(6), None);
    i.warp_1 = true;
    assert_eq!(i.instant_warp_target(6), Some(1));
    i.warp_3 = true;
    assert_eq!(i.instant_warp_target(6), Some(3));
    i.warp_2 = true;
    assert_eq!(i.instant_warp_target(6), Some(3));
}

#[test]
fn instant_warp_ignores_missing_bodies() {
    let mut i = InputState::new();
    i.warp_1 = true;
    i.warp_3 = true;
    assert_eq!(i.instant_warp_target(3), Some(1));
    assert_eq!(i.instant_warp_target(1), None);
}

#[test]
fn animated_warp_needs_key_idle_warp_and_body() {
    let mut i = InputState::new();
    assert_eq!(i.animated_warp_target(6, false), None);
    i.warp_animated = true;
    assert_eq!(i.animated_warp_target(6, false), Some(1));
    assert_eq!(i.animated_warp_target(6, true), None);
    assert_eq!(i.animated_warp_target(1, false), None);
}
