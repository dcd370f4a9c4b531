use bouncing_balls::ball::{Ball, HEIGHT, SUBPIXEL, WIDTH};
use bouncing_balls::scene::{
    draw_connections, draw_logo_at, Scene, ANGLE_STEP, LOGO_COLOR_A, LOGO_COLOR_B, LOGO_DOTS,
    LOGO_DOT_RADIUS, LOGO_MARGIN, LOGO_ORBIT,
};

fn at(buf: &[u32], x: usize, y: usize) -> u32 {
    buf[y * WIDTH + x]
}

fn still(px: i64, py: i64, color: u32) -> Ball {
    Ball { x: px * SUBPIXEL, y: py * SUBPIXEL, dx: 0, dy: 0, color }
}

#[test]
fn logo_at_angle_zero_alternates_colours() {
    let mut buf = vec![0u32; WIDTH * HEIGHT];
    let cx = (WIDTH as i32 - LOGO_MARGIN) as f32;
    let cy = (HEIGHT as i32 - LOGO_MARGIN) as f32;
    let mut centers = Vec::new();
    for i in 0..LOGO_DOTS {
        let theta = i as f32 * std::f32::consts::PI / 4.0;
        let x = cx + theta.cos() * LOGO_ORBIT as f32;
        let y = cy + theta.sin() * LOGO_ORBIT as f32;
        centers.push((x as i32, y as i32));
    }
    assert_eq!(centers[0], (770, 550));
    assert_eq!(centers[2], (750, 570));
    assert_eq!(centers[4], (730, 550));
    assert_eq!(centers[6], (750, 530));
    draw_logo_at(&mut buf, WIDTH, HEIGHT, &centers);
    for (i, (x, y)) in centers.iter().enumerate() {
        let want = if i % 2 == 0 { LOGO_COLOR_A } else { LOGO_COLOR_B };
        assert_eq!(at(&buf, *x as usize, *y as usize), want);
        let r = LOGO_DOT_RADIUS as usize;
        assert_eq!(at(&buf, *x as usize + r, *y as usize), want);
    }
    assert_eq!(at(&buf, 750, 550), 0);
}

#[test]
fn later_logo_dots_cover_earlier_ones() {
    let mut buf = vec![0u32; WIDTH * HEIGHT];
    draw_logo_at(&mut buf, WIDTH, HEIGHT, &vec![(100, 100), (103, 100)]);
    assert_eq!(at(&buf, 101, 100), LOGO_COLOR_B);
    assert_eq!(at(&buf, 96, 100), LOGO_COLOR_A);
    assert_eq!(at(&buf, 108, 100), LOGO_COLOR_B);
}

#[test]
fn connections_follow_pair_order() {
    let mut buf = vec![0u32; WIDTH * HEIGHT];
    let points = vec![(0, 0), (4, 0), (8, 0)];
    draw_connections(&mut buf, &points, &vec![1, 2, 3]);
    // (0, 1) in colour 1, then (0, 2) in colour 2 over it, then (1, 2) in colour 3.
    assert_eq!(at(&buf, 0, 0), 2);
    assert_eq!(at(&buf, 3, 0), 2);
    assert_eq!(at(&buf, 4, 0), 3);
    assert_eq!(at(&buf, 7, 0), 3);
    assert_eq!(at(&buf, 8, 0), 0);
}

#[test]
fn render_frame_composes_in_order() {
    let mut buf = vec![9u32; WIDTH * HEIGHT];
    let mut scene = Scene::new(vec![still(10, 10, 0xFF00_0001), still(20, 10, 0xFF00_0002)]);
    scene.render_frame(&mut buf, &vec![0xFF00_0003], &vec![]);
    assert_eq!(scene.angle, ANGLE_STEP);
    // The line from the first ball starts on its pixel and is drawn after it.
    assert_eq!(at(&buf, 10, 10), 0xFF00_0003);
    assert_eq!(at(&buf, 15, 10), 0xFF00_0003);
    // The line stops before the second ball, whose pixel stays.
    assert_eq!(at(&buf, 20, 10), 0xFF00_0002);
    assert_eq!(at(&buf, 21, 10), 0);
    assert_eq!(at(&buf, 0, 0), 0);
    let lit = buf.iter().filter(|c| **c != 0).count();
    assert_eq!(lit, 11);
}

#[test]
fn render_frame_moves_balls_and_draws_logo_last() {
    let mut buf = vec![0u32; WIDTH * HEIGHT];
    let moving = Ball { x: 100 * SUBPIXEL, y: 100 * SUBPIXEL, dx: SUBPIXEL, dy: 2 * SUBPIXEL, color: 0xFF00_0001 };
    let mut scene = Scene::new(vec![moving]);
    scene.angle = 40;
    scene.render_frame(&mut buf, &vec![], &vec![(101, 102)]);
    assert_eq!(scene.angle, 45);
    assert_eq!(scene.balls[0].x, 101 * SUBPIXEL);
    assert_eq!(scene.balls[0].y, 102 * SUBPIXEL);
    assert_eq!(at(&buf, 101, 102), LOGO_COLOR_A);
}

#[test]
fn random_scene_frames() {
    let mut scene = Scene::random(10);
    assert_eq!(scene.balls.len(), 10);
    let mut buf = vec![0u32; WIDTH * HEIGHT];
    for _ in 0..3 {
        scene.frame(&mut buf, &vec![(750, 550)]);
    }
    assert_eq!(scene.angle, 3 * ANGLE_STEP);
    assert_eq!(at(&buf, 750, 550), LOGO_COLOR_A);
}

#[test]
fn ball_past_the_edge_is_not_plotted_for_one_frame() {
    let half = SUBPIXEL / 2;
    let edge = Ball { x: 799 * SUBPIXEL + half, y: 300 * SUBPIXEL, dx: SUBPIXEL, dy: 0, color: 0xFF12_3456 };
    let mut scene = Scene::new(vec![edge]);
    let mut buf = vec![0u32; WIDTH * HEIGHT];
    scene.render_frame(&mut buf, &vec![], &vec![]);
    assert_eq!(scene.balls[0].dx, -SUBPIXEL);
    assert!(buf.iter().all(|c| *c == 0));
    scene.render_frame(&mut buf, &vec![], &vec![]);
    assert_eq!(scene.balls[0].x, 799 * SUBPIXEL + half);
    assert_eq!(at(&buf, 799, 300), 0xFF12_3456);
    assert_eq!(buf.iter().filter(|c| **c != 0).count(), 1);
}
