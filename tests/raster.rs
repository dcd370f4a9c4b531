use bouncing_balls::raster::{draw_filled_circle, draw_line, plot};

fn lit(buf: &[u32], w: usize, color: u32) -> Vec<(usize, usize)> {
    let mut v = Vec::new();
    for (k, c) in buf.iter().enumerate() {
        if *c == color {
            v.push((k % w, k / w));
        }
    }
    v
}

#[test]
fn plot_inside_sets_one_pixel() {
    let mut buf = vec![0u32; 12];
    plot(&mut buf, 4, 3, 2, 1, 7);
    assert_eq!(buf[1 * 4 + 2], 7);
    assert_eq!(lit(&buf, 4, 7), vec![(2, 1)]);
}

#[test]
fn plot_outside_leaves_buffer_unchanged() {
    let mut buf = vec![3u32; 12];
    for (x, y) in [(-1i64, 0i64), (4, 0), (0, -1), (0, 3), (100, 100), (-5, -5)] {
        plot(&mut buf, 4, 3, x, y, 9);
    }
    assert_eq!(buf, vec![3u32; 12]);
}

#[test]
fn horizontal_line_stops_before_end_point() {
    let mut buf = vec![0u32; 8 * 2];
    draw_line(&mut buf, 8, 2, (0, 0), (5, 0), 1);
    assert_eq!(lit(&buf, 8, 1), vec![(0, 0), (1, 0), (2, 0), (3, 0), (4, 0)]);
}

#[test]
fn zero_length_line_draws_nothing() {
    let mut buf = vec![0u32; 16];
    draw_line(&mut buf, 4, 4, (2, 2), (2, 2), 1);
    assert_eq!(buf, vec![0u32; 16]);
}

#[test]
fn diagonal_line() {
    let mut buf = vec![0u32; 25];
    draw_line(&mut buf, 5, 5, (0, 0), (3, 3), 1);
    assert_eq!(lit(&buf, 5, 1), vec![(0, 0), (1, 1), (2, 2)]);
}

#[test]
fn steep_line_follows_bresenham() {
    let mut buf = vec![0u32; 25];
    draw_line(&mut buf, 5, 5, (0, 0), (1, 3), 1);
    assert_eq!(lit(&buf, 5, 1), vec![(0, 0), (0, 1), (1, 2)]);
}

#[test]
fn backward_line() {
    let mut buf = vec![0u32; 25];
    draw_line(&mut buf, 5, 5, (4, 2), (0, 2), 1);
    assert_eq!(lit(&buf, 5, 1), vec![(1, 2), (2, 2), (3, 2), (4, 2)]);
}

#[test]
fn line_is_clipped_to_buffer() {
    let mut buf = vec![0u32; 8];
    draw_line(&mut buf, 4, 2, (-2, 0), (3, 0), 1);
    assert_eq!(lit(&buf, 4, 1), vec![(0, 0), (1, 0), (2, 0)]);
}

#[test]
fn circle_of_radius_one_is_a_plus() {
    let mut buf = vec![0u32; 100];
    draw_filled_circle(&mut buf, 10, 10, 5, 5, 1, 2);
    assert_eq!(lit(&buf, 10, 2), vec![(5, 4), (4, 5), (5, 5), (6, 5), (5, 6)]);
}

#[test]
fn circle_of_radius_zero_is_one_pixel() {
    let mut buf = vec![0u32; 100];
    draw_filled_circle(&mut buf, 10, 10, 3, 7, 0, 2);
    assert_eq!(lit(&buf, 10, 2), vec![(3, 7)]);
}

#[test]
fn circle_matches_distance_test_and_is_symmetric() {
    let (w, h) = (21usize, 21usize);
    let mut buf = vec![0u32; w * h];
    draw_filled_circle(&mut buf, w, h, 10, 10, 5, 4);
    for y in 0..h as i64 {
        for x in 0..w as i64 {
            let inside = (x - 10) * (x - 10) + (y - 10) * (y - 10) <= 25;
            let c = buf[y as usize * w + x as usize];
            assert_eq!(c == 4, inside, "pixel ({}, {})", x, y);
            let mx = (20 - x) as usize;
            let my = (20 - y) as usize;
            assert_eq!(c, buf[y as usize * w + mx]);
            assert_eq!(c, buf[my * w + x as usize]);
        }
    }
    assert_eq!(lit(&buf, w, 4).len(), 81);
}

#[test]
fn circle_at_corner_keeps_visible_quarter() {
    let mut buf = vec![0u32; 100];
    draw_filled_circle(&mut buf, 10, 10, 0, 0, 2, 5);
    assert_eq!(lit(&buf, 10, 5), vec![(0, 0), (1, 0), (2, 0), (0, 1), (1, 1), (0, 2)]);
}

#[test]
fn circle_with_negative_centre_is_clipped() {
    let mut buf = vec![0u32; 100];
    draw_filled_circle(&mut buf, 10, 10, -1, 4, 2, 5);
    assert_eq!(lit(&buf, 10, 5), vec![(0, 3), (0, 4), (1, 4), (0, 5)]);
}

#[test]
fn circle_far_outside_draws_nothing() {
    let mut buf = vec![0u32; 100];
    draw_filled_circle(&mut buf, 10, 10, 50, -40, 3, 5);
    assert_eq!(buf, vec![0u32; 100]);
}
