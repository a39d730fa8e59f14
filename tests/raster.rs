use orbit_render::{Draw2D, FrameBuffer};

fn lit(fb: &FrameBuffer, color: u32) -> Vec<(usize, usize)> {
    let mut out = Vec::new();
    for k in 0..fb.pixels.len() {
        if fb.pixels[k] == color {
            out.push((k % fb.width, k / fb.width));
        }
    }
    out
}

#[test]
fn new_buffer_is_black() {
    let fb = FrameBuffer::new(4, 3);
    assert_eq!(fb.width, 4);
    assert_eq!(fb.height, 3);
    assert_eq!(fb.pixels, vec![0u32; 12]);
}

#[test]
fn clear_sets_every_pixel() {
    let mut fb = FrameBuffer::new(3, 2);
    fb.clear(0xFF00FF00);
    assert!(fb.pixels.iter().all(|&p| p == 0xFF00FF00));
    assert_eq!(fb.pixels.len(), 6);
}

#[test]
fn put_pixel_in_bounds_writes_row_major() {
    let mut fb = FrameBuffer::new(4, 3);
    fb.put_pixel(2, 1, 7);
    assert_eq!(fb.pixels[6], 7);
    assert_eq!(lit(&fb, 7), vec![(2, 1)]);
    fb.put_pixel(3, 2, 9);
    assert_eq!(fb.pixels[11], 9);
}

#[test]
fn put_pixel_out_of_bounds_is_dropped() {
    let mut fb = FrameBuffer::new(4, 3);
    fb.clear(5);
    let before = fb.pixels.clone();
    for &(x, y) in &[
        (-1, 0),
        (0, -1),
        (4, 0),
        (0, 3),
        (4, 3),
        (-1, -1),
        (i32::MIN, 0),
        (0, i32::MAX),
        (i32::MAX, i32::MIN),
    ] {
        fb.put_pixel(x, y, 9);
    }
    assert_eq!(fb.pixels, before);
}

#[test]
fn put_pixel_on_empty_buffer_is_dropped() {
    let mut fb = FrameBuffer::new(0, 0);
    fb.put_pixel(0, 0, 1);
    assert!(fb.pixels.is_empty());
}

#[test]
fn filled_circle_radius_one_is_a_plus() {
    let mut fb = FrameBuffer::new(7, 7);
    Draw2D::new(&mut fb).filled_circle((3, 3), 1, 1);
    assert_eq!(lit(&fb, 1), vec![(3, 2), (2, 3), (3, 3), (4, 3), (3, 4)]);
}

#[test]
fn filled_circle_radius_two_has_thirteen_points() {
    let mut fb = FrameBuffer::new(7, 7);
    Draw2D::new(&mut fb).filled_circle((3, 3), 2, 1);
    let pts = lit(&fb, 1);
    assert_eq!(pts.len(), 13);
    for (x, y) in pts {
        let dx = x as i32 - 3;
        let dy = y as i32 - 3;
        assert!(dx * dx + dy * dy <= 4);
    }
}

#[test]
fn filled_circle_clips_at_the_edge() {
    let mut fb = FrameBuffer::new(3, 3);
    Draw2D::new(&mut fb).filled_circle((0, 0), 1, 1);
    assert_eq!(lit(&fb, 1), vec![(0, 0), (1, 0), (0, 1)]);
}

#[test]
fn filled_circle_negative_radius_draws_nothing() {
    let mut fb = FrameBuffer::new(5, 5);
    Draw2D::new(&mut fb).filled_circle((2, 2), -1, 1);
    assert!(lit(&fb, 1).is_empty());
}

#[test]
fn line_shallow_slope() {
    let mut fb = FrameBuffer::new(5, 3);
    Draw2D::new(&mut fb).line((0, 0), (4, 2), 1);
    assert_eq!(lit(&fb, 1), vec![(0, 0), (1, 1), (2, 1), (3, 2), (4, 2)]);
}

#[test]
fn line_reversed_visits_both_endpoints() {
    let mut fb = FrameBuffer::new(5, 3);
    Draw2D::new(&mut fb).line((4, 2), (0, 0), 1);
    assert_eq!(lit(&fb, 1), vec![(0, 0), (1, 0), (2, 1), (3, 1), (4, 2)]);
}

#[test]
fn line_steep_has_one_point_per_row() {
    let mut fb = FrameBuffer::new(3, 6);
    Draw2D::new(&mut fb).line((0, 0), (2, 5), 1);
    let pts = lit(&fb, 1);
    assert_eq!(pts.len(), 6);
    for row in 0..6 {
        assert_eq!(pts.iter().filter(|p| p.1 == row).count(), 1);
    }
    assert!(pts.contains(&(0, 0)));
    assert!(pts.contains(&(2, 5)));
}

#[test]
fn line_single_point() {
    let mut fb = FrameBuffer::new(4, 4);
    Draw2D::new(&mut fb).line((2, 2), (2, 2), 1);
    assert_eq!(lit(&fb, 1), vec![(2, 2)]);
}

#[test]
fn line_off_screen_is_clipped() {
    let mut fb = FrameBuffer::new(3, 1);
    Draw2D::new(&mut fb).line((-2, 0), (5, 0), 1);
    assert_eq!(lit(&fb, 1), vec![(0, 0), (1, 0), (2, 0)]);
}

#[test]
fn circle_radius_two_outline() {
    let mut fb = FrameBuffer::new(7, 7);
    Draw2D::new(&mut fb).circle((3, 3), 2, 1);
    let mut pts = lit(&fb, 1);
    pts.sort();
    let mut expected = vec![
        (5, 3),
        (3, 5),
        (1, 3),
        (3, 1),
        (5, 4),
        (4, 5),
        (2, 5),
        (1, 4),
        (1, 2),
        (2, 1),
        (4, 1),
        (5, 2),
    ];
    expected.sort();
    assert_eq!(pts, expected);
}

#[test]
fn circle_radius_zero_is_the_center() {
    let mut fb = FrameBuffer::new(3, 3);
    Draw2D::new(&mut fb).circle((1, 1), 0, 1);
    assert_eq!(lit(&fb, 1), vec![(1, 1)]);
}

#[test]
fn circle_negative_radius_draws_nothing() {
    let mut fb = FrameBuffer::new(3, 3);
    Draw2D::new(&mut fb).circle((1, 1), -2, 1);
    assert!(lit(&fb, 1).is_empty());
}

#[test]
fn triangle_outline() {
    let mut fb = FrameBuffer::new(5, 5);
    Draw2D::new(&mut fb).triangle((0, 0), (4, 0), (0, 4), 1);
    let pts = lit(&fb, 1);
    assert_eq!(pts.len(), 12);
    for p in [(0, 0), (4, 0), (0, 4), (2, 2), (3, 1), (1, 3), (0, 2)] {
        assert!(pts.contains(&p));
    }
    assert!(!pts.contains(&(1, 1)));
}

#[test]
fn circle_radius_one_is_the_ring_of_neighbours() {
    let mut fb = FrameBuffer::new(5, 5);
    Draw2D::new(&mut fb).circle((2, 2), 1, 7);
    let expected = [6, 7, 8, 11, 13, 16, 17, 18];
    for k in 0..25 {
        if expected.contains(&k) {
            assert_eq!(fb.pixels[k], 7);
        } else {
            assert_eq!(fb.pixels[k], 0);
        }
    }
}

#[test]
fn line_picks_bresenham_pixels() {
    let mut fb = FrameBuffer::new(5, 5);
    Draw2D::new(&mut fb).line((0, 0), (4, 2), 9);
    let expected = [0, 6, 7, 13, 14];
    for k in 0..25 {
        if expected.contains(&k) {
            assert_eq!(fb.pixels[k], 9);
        } else {
            assert_eq!(fb.pixels[k], 0);
        }
    }
}
