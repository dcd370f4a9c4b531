use bouncing_balls::ball::{Ball, START_SPEED, SUBPIXEL, WORLD_HEIGHT, WORLD_WIDTH};
use bouncing_balls::random::{opaque, random_color, ALPHA};

fn ball(x: i64, y: i64, dx: i64, dy: i64) -> Ball {
    Ball { x, y, dx, dy, color: 0xFF00_00FF }
}

#[test]
fn update_moves_by_velocity_inside() {
    let mut b = ball(100 * SUBPIXEL, 200 * SUBPIXEL, 300, -100);
    b.update();
    assert_eq!(b, ball(25900, 51100, 300, -100));
}

#[test]
fn update_reflects_past_each_wall() {
    let mut b = ball(10, 10, -20, -20);
    b.update();
    assert_eq!(b, ball(-10, -10, 20, 20));
    let mut b = ball(WORLD_WIDTH - 1, WORLD_HEIGHT - 1, 1, 1);
    b.update();
    assert_eq!(b, ball(WORLD_WIDTH, WORLD_HEIGHT, -1, -1));
    let mut b = ball(WORLD_WIDTH - 2, 5, 1, 0);
    b.update();
    assert_eq!(b, ball(WORLD_WIDTH - 1, 5, 1, 0));
}

#[test]
fn resting_balls_never_move() {
    let mut balls: Vec<Ball> = (0..10).map(|_| ball(400 * SUBPIXEL, 300 * SUBPIXEL, 0, 0)).collect();
    for _ in 0..1000 {
        for b in balls.iter_mut() {
            b.update();
        }
    }
    for b in &balls {
        assert_eq!(*b, ball(400 * SUBPIXEL, 300 * SUBPIXEL, 0, 0));
        assert_eq!(b.pixel(), (400, 300));
    }
}

#[test]
fn ball_crossing_right_edge_bounces_back() {
    let half = SUBPIXEL / 2;
    let mut b = ball(799 * SUBPIXEL + half, 300 * SUBPIXEL, SUBPIXEL, 0);
    b.update();
    assert_eq!(b.x, 800 * SUBPIXEL + half);
    assert_eq!(b.dx, -SUBPIXEL);
    assert_eq!(b.pixel(), (800, 300));
    b.update();
    assert_eq!(b.x, 799 * SUBPIXEL + half);
    assert_eq!(b.dx, -SUBPIXEL);
    assert_eq!(b.pixel(), (799, 300));
}

#[test]
fn pixel_truncates_toward_zero() {
    assert_eq!(ball(-128, 383, 0, 0).pixel(), (0, 1));
    assert_eq!(ball(-384, -256, 0, 0).pixel(), (-1, -1));
    assert_eq!(ball(255, 256, 0, 0).pixel(), (0, 1));
}

#[test]
fn opaque_sets_alpha_only() {
    assert_eq!(opaque(0x1234_5678), 0xFF34_5678);
    assert_eq!(opaque(0), 0xFF00_0000);
    assert_eq!(opaque(0xFFFF_FFFF), 0xFFFF_FFFF);
}

#[test]
fn random_colors_are_opaque() {
    for _ in 0..100 {
        assert_eq!(random_color() & ALPHA, ALPHA);
    }
}

#[test]
fn random_balls_start_on_screen() {
    for _ in 0..200 {
        let b = Ball::random();
        assert!(0 <= b.x && b.x < WORLD_WIDTH);
        assert!(0 <= b.y && b.y < WORLD_HEIGHT);
        assert!(-START_SPEED <= b.dx && b.dx < START_SPEED);
        assert!(-START_SPEED <= b.dy && b.dy < START_SPEED);
        assert_eq!(b.color & ALPHA, ALPHA);
    }
}
