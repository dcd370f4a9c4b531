//! Balls that move in a straight line and bounce off the walls of the screen.
//!
//! Positions and velocities are fixed-point numbers: `SUBPIXEL` units make one
//! pixel, so a ball at `x == 204672` stands at pixel 799.5.
use vstd::prelude::*;

use crate::random::{random_color, random_in, ALPHA};

verus! {

/// Width of the screen in pixels.
pub const WIDTH: usize = 800;

/// Height of the screen in pixels.
pub const HEIGHT: usize = 600;

/// Fixed-point units per pixel.
pub const SUBPIXEL: i64 = 256;

/// How far outside the screen, in fixed-point units, a well-formed ball may
/// stand, and the largest speed it may have on either axis.
pub const REACH: i64 = 0x4000_0000;

/// Width of the screen in fixed-point units.
pub const WORLD_WIDTH: i64 = 800 * SUBPIXEL;

/// Height of the screen in fixed-point units.
pub const WORLD_HEIGHT: i64 = 600 * SUBPIXEL;

/// Largest speed of a new ball on either axis: two pixels per frame.
pub const START_SPEED: i64 = 512;

/// A ball: a position and a velocity per frame, both in fixed-point units,
/// and a packed colour.
#[derive(Clone, Copy, Debug, PartialEq, Eq)]
pub struct Ball {
    pub x: i64,
    pub y: i64,
    pub dx: i64,
    pub dy: i64,
    pub color: u32,
}

/// Is `p` outside the half-open interval `[0, dim)`?
pub open spec fn outside(p: int, dim: int) -> bool {
    p < 0 || p >= dim
}

/// Velocity after a move to `p`: reversed if `p` left `[0, dim)`, kept otherwise.
pub open spec fn reflected(p: int, v: int, dim: int) -> int {
    if outside(p, dim) {
        -v
    } else {
        v
    }
}

/// One axis of a well-formed ball: the position, and the position one step
/// ahead, lie within `REACH` of the screen, and so does the speed.
pub open spec fn axis_ok(p: int, v: int, dim: int) -> bool {
    &&& -REACH <= p <= dim + REACH
    &&& -REACH <= p + v <= dim + REACH
    &&& -REACH <= v <= REACH
}

/// Integer division rounded toward zero.
pub open spec fn div_toward_zero(p: int, d: int) -> int {
    if p >= 0 {
        p / d
    } else {
        -((-p) / d)
    }
}

impl Ball {
    /// Both axes within reach of the screen; kept by every update.
    pub open spec fn wf(self) -> bool {
        &&& axis_ok(self.x as int, self.dx as int, WORLD_WIDTH as int)
        &&& axis_ok(self.y as int, self.dy as int, WORLD_HEIGHT as int)
    }

    /// The ball one frame later: moved by its velocity, then each velocity
    /// component reversed if the new position is off the screen on that axis.
    pub open spec fn moved(self) -> Ball {
        let nx = self.x + self.dx;
        let ny = self.y + self.dy;
        Ball {
            x: nx as i64,
            y: ny as i64,
            dx: reflected(nx, self.dx as int, WORLD_WIDTH as int) as i64,
            dy: reflected(ny, self.dy as int, WORLD_HEIGHT as int) as i64,
            color: self.color,
        }
    }

    /// The ball after `n` frames.
    pub open spec fn moved_n(self, n: nat) -> Ball
        decreases n,
    {
        if n == 0 {
            self
        } else {
            self.moved().moved_n((n - 1) as nat)
        }
    }

    /// The pixel the ball stands on: its position truncated toward zero.
    pub open spec fn pixel_of(self) -> (int, int) {
        (div_toward_zero(self.x as int, SUBPIXEL as int), div_toward_zero(self.y as int, SUBPIXEL as int))
    }

    /// Advances the ball by one frame: adds the velocity to the position, then
    /// reverses each velocity component whose new position is off the screen.
    pub fn update(&mut self)
        requires
            old(self).wf(),
        ensures
            *final(self) == old(self).moved(),
            final(self).wf(),
            final(self).x == old(self).x + old(self).dx,
            final(self).y == old(self).y + old(self).dy,
            final(self).dx == reflected(final(self).x as int, old(self).dx as int, WORLD_WIDTH as int),
            final(self).dy == reflected(final(self).y as int, old(self).dy as int, WORLD_HEIGHT as int),
    {
        self.x = self.x + self.dx;
        self.y = self.y + self.dy;
        if self.x < 0 || self.x >= WORLD_WIDTH {
            self.dx = -self.dx;
        }
        if self.y < 0 || self.y >= WORLD_HEIGHT {
            self.dy = -self.dy;
        }
    }

    /// A ball at a random point of the screen, with a random velocity below
    /// two pixels per frame on each axis and a random opaque colour.
    pub fn random() -> (r: Ball)
        ensures
            r.wf(),
            0 <= r.x < WORLD_WIDTH,
            0 <= r.y < WORLD_HEIGHT,
            -START_SPEED <= r.dx < START_SPEED,
            -START_SPEED <= r.dy < START_SPEED,
            r.color & ALPHA == ALPHA,
    {
        let x = random_in(0, WORLD_WIDTH);
        let y = random_in(0, WORLD_HEIGHT);
        let dx = random_in(-START_SPEED, START_SPEED);
        let dy = random_in(-START_SPEED, START_SPEED);
        let color = random_color();
        Ball { x, y, dx, dy, color }
    }

    /// The pixel the ball stands on, its position truncated toward zero.
    pub fn pixel(&self) -> (r: (i32, i32))
        requires
            self.wf(),
        ensures
            r.0 as int == self.pixel_of().0,
            r.1 as int == self.pixel_of().1,
    {
        (to_pixel(self.x), to_pixel(self.y))
    }
}

/// A fixed-point coordinate within reach of the screen, as a whole pixel
/// truncated toward zero.
fn to_pixel(p: i64) -> (r: i32)
    requires
        -REACH <= p <= WORLD_WIDTH + REACH,
    ensures
        r as int == div_toward_zero(p as int, SUBPIXEL as int),
{
    if p >= 0 {
        (p / SUBPIXEL) as i32
    } else {
        -((-p) / SUBPIXEL) as i32
    }
}

/// Every update keeps a ball well formed.
pub proof fn lemma_moved_wf(b: Ball)
    requires
        b.wf(),
    ensures
        b.moved().wf(),
{
}

/// The reflection rule, for each axis: the velocity component is reversed
/// exactly when the moved position lies off the screen on that axis, and is
/// kept otherwise.
pub proof fn lemma_reflection_rule(b: Ball)
    requires
        b.wf(),
    ensures
        outside(b.x + b.dx, WORLD_WIDTH as int) ==> b.moved().dx == -b.dx,
        !outside(b.x + b.dx, WORLD_WIDTH as int) ==> b.moved().dx == b.dx,
        outside(b.y + b.dy, WORLD_HEIGHT as int) ==> b.moved().dy == -b.dy,
        !outside(b.y + b.dy, WORLD_HEIGHT as int) ==> b.moved().dy == b.dy,
{
}

/// A ball at rest stays where it is, with the same velocity, after any number
/// of frames.
pub proof fn lemma_rest_is_fixed(b: Ball, n: nat)
    requires
        b.dx == 0,
        b.dy == 0,
    ensures
        b.moved_n(n) == b,
    decreases n,
{
    if n > 0 {
        assert(b.moved() == b);
        lemma_rest_is_fixed(b, (n - 1) as nat);
    }
}

} // verus!
