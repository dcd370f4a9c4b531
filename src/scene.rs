//! The scene: a set of balls, the lines that join them, and a rotating logo,
//! composed into one frame at a time.
use vstd::prelude::*;

use crate::ball::{Ball, HEIGHT, WIDTH};
use crate::random::{random_color, ALPHA};
use crate::raster::{disk_painted, draw_filled_circle, draw_line, line_points, painted, plot, plotted};

verus! {

/// First logo colour, #358997, on the dots of even index.
pub const LOGO_COLOR_A: u32 = 0xFF35_8997;

/// Second logo colour, #8ED3D4, on the dots of odd index.
pub const LOGO_COLOR_B: u32 = 0xFF8E_D3D4;

/// Radius of each logo dot, in pixels.
pub const LOGO_DOT_RADIUS: u32 = 5;

/// Number of dots in the logo.
pub const LOGO_DOTS: usize = 8;

/// Distance of the logo dots from the logo's centre, in pixels.
pub const LOGO_ORBIT: i32 = 20;

/// Distance of the logo's centre from the right and the bottom edge, in pixels.
pub const LOGO_MARGIN: i32 = 50;

/// Rotation of the logo per frame, in hundredths of a radian.
pub const ANGLE_STEP: u64 = 5;

/// Colour of the logo dot at index `i`.
pub open spec fn logo_color(i: int) -> u32 {
    if i % 2 == 0 {
        LOGO_COLOR_A
    } else {
        LOGO_COLOR_B
    }
}

/// The buffer `s` after drawing the first `k` logo dots at `centers`, in order.
pub open spec fn logo_painted(s: Seq<u32>, w: int, centers: Seq<(i32, i32)>, k: int) -> Seq<u32>
    decreases k,
{
    if k <= 0 {
        s
    } else {
        disk_painted(
            logo_painted(s, w, centers, k - 1),
            w,
            centers[k - 1].0 as int,
            centers[k - 1].1 as int,
            LOGO_DOT_RADIUS as int,
            logo_color(k - 1),
        )
    }
}

/// Draws the logo: a filled dot of radius `LOGO_DOT_RADIUS` at each of
/// `centers`, in order, alternating `LOGO_COLOR_A` (even index) and
/// `LOGO_COLOR_B` (odd index).
pub fn draw_logo_at(buffer: &mut Vec<u32>, width: usize, height: usize, centers: &Vec<(i32, i32)>)
    requires
        old(buffer)@.len() == width * height,
    ensures
        final(buffer)@ == logo_painted(old(buffer)@, width as int, centers@, centers@.len() as int),
{
    let ghost start = buffer@;
    let mut i: usize = 0;
    while i < centers.len()
        invariant
            start.len() == width * height,
            buffer@.len() == width * height,
            i <= centers@.len(),
            buffer@ == logo_painted(start, width as int, centers@, i as int),
        decreases centers@.len() - i,
    {
        let color = if i % 2 == 0 {
            LOGO_COLOR_A
        } else {
            LOGO_COLOR_B
        };
        let (cx, cy) = centers[i];
        draw_filled_circle(buffer, width, height, cx, cy, LOGO_DOT_RADIUS, color);
        i = i + 1;
    }
}

/// Row `i` of the pair order from column `j` on: `(i, j), (i, j + 1), ..., (i, n - 1)`.
pub open spec fn pair_row(i: int, j: int, n: int) -> Seq<(int, int)> {
    Seq::new((n - j) as nat, |t: int| (i, j + t))
}

/// Every pair `(a, b)` with `i <= a < b < n`, by `a` and then by `b`.
pub open spec fn pairs_from(i: int, n: int) -> Seq<(int, int)>
    decreases n - i,
{
    if i >= n {
        Seq::empty()
    } else {
        pair_row(i, i + 1, n) + pairs_from(i + 1, n)
    }
}

/// Every pair of distinct indices below `n`, smaller index first, in the
/// order `(0, 1), (0, 2), ..., (0, n - 1), (1, 2), ...`.
pub open spec fn all_pairs(n: int) -> Seq<(int, int)> {
    pairs_from(0, n)
}

/// There are `m * (m - 1) / 2` pairs among `m` indices.
pub proof fn lemma_pairs_len(i: int, n: int)
    requires
        0 <= i <= n,
    ensures
        2 * pairs_from(i, n).len() == (n - i) * (n - i - 1),
    decreases n - i,
{
    if i < n {
        lemma_pairs_len(i + 1, n);
        let a = pair_row(i, i + 1, n).len() as int;
        let b = pairs_from(i + 1, n).len() as int;
        assert(a == n - i - 1);
        assert(pairs_from(i, n).len() == a + b);
        assert(2 * (a + b) == (n - i) * (n - i - 1)) by (nonlinear_arith)
            requires
                a == n - i - 1,
                2 * b == (n - (i + 1)) * (n - (i + 1) - 1),
        ;
    } else {
        assert((n - i) * (n - i - 1) == 0) by (nonlinear_arith)
            requires
                i == n,
        ;
    }
}

/// The buffer `s` after drawing the lines of the first `k` pairs of `pairs`:
/// line `t` joins `pts[pairs[t].0]` to `pts[pairs[t].1]` in `colors[t]`.
pub open spec fn links(
    s: Seq<u32>,
    pts: Seq<(int, int)>,
    colors: Seq<u32>,
    pairs: Seq<(int, int)>,
    k: int,
) -> Seq<u32>
    decreases k,
{
    if k <= 0 {
        s
    } else {
        let p = pairs[k - 1];
        painted(
            links(s, pts, colors, pairs, k - 1),
            WIDTH as int,
            HEIGHT as int,
            line_points(pts[p.0].0, pts[p.0].1, pts[p.1].0, pts[p.1].1),
            colors[k - 1],
        )
    }
}

/// Joins every pair of points `(a, b)`, `a < b`, by a line in the colour that
/// `colors` gives the pair, in the order of `all_pairs`.
pub fn draw_connections(buffer: &mut Vec<u32>, points: &Vec<(i32, i32)>, colors: &Vec<u32>)
    requires
        old(buffer)@.len() == WIDTH * HEIGHT,
        2 * colors@.len() == points@.len() * (points@.len() - 1),
    ensures
        final(buffer)@ == links(
            old(buffer)@,
            points@.map_values(|p: (i32, i32)| (p.0 as int, p.1 as int)),
            colors@,
            all_pairs(points@.len() as int),
            colors@.len() as int,
        ),
        final(buffer)@.len() == old(buffer)@.len(),
{
    let ghost start = buffer@;
    let ghost pts = points@.map_values(|p: (i32, i32)| (p.0 as int, p.1 as int));
    let n = points.len();
    let m = colors.len();
    let ghost all = all_pairs(n as int);
    proof {
        lemma_pairs_len(0, n as int);
        assert(all.take(0) + pairs_from(0, n as int) =~= all);
    }
    let mut k: usize = 0;
    let mut i: usize = 0;
    while i < n
        invariant
            n == points@.len(),
            all == all_pairs(n as int),
            all.len() == colors@.len(),
            m == colors@.len(),
            pts == points@.map_values(|p: (i32, i32)| (p.0 as int, p.1 as int)),
            buffer@.len() == WIDTH * HEIGHT,
            i <= n,
            k <= all.len(),
            all.take(k as int) + pairs_from(i as int, n as int) == all,
            buffer@ == links(start, pts, colors@, all, k as int),
        decreases n - i,
    {
        assert(pairs_from(i as int, n as int) == pair_row(i as int, i + 1, n as int) + pairs_from(i + 1, n as int));
        assert(all.take(k as int) + pair_row(i as int, i + 1, n as int) + pairs_from(i + 1, n as int) =~= all);
        let mut j: usize = i + 1;
        while j < n
            invariant
                n == points@.len(),
                all == all_pairs(n as int),
                all.len() == colors@.len(),
            m == colors@.len(),
            pts == points@.map_values(|p: (i32, i32)| (p.0 as int, p.1 as int)),
                buffer@.len() == WIDTH * HEIGHT,
                i < n,
                i + 1 <= j <= n,
                k <= all.len(),
                all.take(k as int) + pair_row(i as int, j as int, n as int) + pairs_from(i + 1, n as int) == all,
                buffer@ == links(start, pts, colors@, all, k as int),
            decreases n - j,
        {
            let ghost rest = pair_row(i as int, j as int + 1, n as int) + pairs_from(i + 1, n as int);
            assert(pair_row(i as int, j as int, n as int) =~= seq![(i as int, j as int)] + pair_row(i as int, j as int + 1, n as int));
            assert(all =~= all.take(k as int) + seq![(i as int, j as int)] + rest);
            assert(all[k as int] == (i as int, j as int));
            assert(k < m);
            assert(pts[i as int] == (points@[i as int].0 as int, points@[i as int].1 as int));
            assert(pts[j as int] == (points@[j as int].0 as int, points@[j as int].1 as int));
            draw_line(buffer, WIDTH, HEIGHT, points[i], points[j], colors[k]);
            assert(buffer@ == links(start, pts, colors@, all, k as int + 1));
            assert(all.take(k as int + 1) =~= all.take(k as int) + seq![(i as int, j as int)]);
            assert(all.take(k as int + 1) + pair_row(i as int, j as int + 1, n as int) + pairs_from(i + 1, n as int) =~= all);
            k = k + 1;
            j = j + 1;
        }
        assert(all.take(k as int) + pairs_from(i + 1, n as int) =~= all);
        i = i + 1;
    }
    assert(all.take(k as int) =~= all);
}

/// A buffer of `n` black pixels.
pub open spec fn cleared(n: nat) -> Seq<u32> {
    Seq::new(n, |k: int| 0u32)
}

/// The buffer `s` after plotting the first `k` balls of `balls`, each at its
/// pixel in its own colour, in order.
pub open spec fn dots(s: Seq<u32>, balls: Seq<Ball>, k: int) -> Seq<u32>
    decreases k,
{
    if k <= 0 {
        s
    } else {
        let b = balls[k - 1];
        plotted(dots(s, balls, k - 1), WIDTH as int, HEIGHT as int, b.pixel_of().0, b.pixel_of().1, b.color)
    }
}

/// The pixel of each ball.
pub open spec fn ball_pixels(balls: Seq<Ball>) -> Seq<(int, int)> {
    balls.map_values(|b: Ball| b.pixel_of())
}

/// A whole frame for balls that have just moved: a black screen, each ball as
/// one pixel, every pair of balls joined by a line in the colour `colors`
/// gives it, and the logo dots at `centers` on top.
pub open spec fn frame_image(balls: Seq<Ball>, colors: Seq<u32>, centers: Seq<(i32, i32)>) -> Seq<u32> {
    let n = balls.len() as int;
    let with_dots = dots(cleared((WIDTH * HEIGHT) as nat), balls, n);
    let with_links = links(with_dots, ball_pixels(balls), colors, all_pairs(n), colors.len() as int);
    logo_painted(with_links, WIDTH as int, centers, centers.len() as int)
}

/// The balls on screen and the logo's rotation.
pub struct Scene {
    pub balls: Vec<Ball>,
    /// Rotation of the logo, in hundredths of a radian.
    pub angle: u64,
}

impl Scene {
    /// Every ball is well formed.
    pub open spec fn wf(&self) -> bool {
        forall|i: int| 0 <= i < self.balls@.len() ==> #[trigger] self.balls@[i].wf()
    }

    /// A scene of the given balls, with the logo unrotated.
    pub fn new(balls: Vec<Ball>) -> (r: Scene)
        requires
            forall|i: int| 0 <= i < balls@.len() ==> #[trigger] balls@[i].wf(),
        ensures
            r.balls@ == balls@,
            r.angle == 0,
            r.wf(),
    {
        Scene { balls, angle: 0 }
    }

    /// A scene of `count` balls placed at random by `Ball::random`.
    pub fn random(count: usize) -> (r: Scene)
        ensures
            r.wf(),
            r.balls@.len() == count,
            r.angle == 0,
            forall|i: int|
                0 <= i < count ==> {
                    let b = #[trigger] r.balls@[i];
                    &&& 0 <= b.x < crate::ball::WORLD_WIDTH
                    &&& 0 <= b.y < crate::ball::WORLD_HEIGHT
                    &&& -crate::ball::START_SPEED <= b.dx < crate::ball::START_SPEED
                    &&& -crate::ball::START_SPEED <= b.dy < crate::ball::START_SPEED
                    &&& b.color & ALPHA == ALPHA
                },
    {
        let mut balls: Vec<Ball> = Vec::new();
        while balls.len() < count
            invariant
                balls@.len() <= count,
                forall|i: int|
                    0 <= i < balls@.len() ==> {
                        let b = #[trigger] balls@[i];
                        &&& b.wf()
                        &&& 0 <= b.x < crate::ball::WORLD_WIDTH
                        &&& 0 <= b.y < crate::ball::WORLD_HEIGHT
                        &&& -crate::ball::START_SPEED <= b.dx < crate::ball::START_SPEED
                        &&& -crate::ball::START_SPEED <= b.dy < crate::ball::START_SPEED
                        &&& b.color & ALPHA == ALPHA
                    },
            decreases count - balls@.len(),
        {
            balls.push(Ball::random());
        }
        Scene { balls, angle: 0 }
    }

    /// Composes one frame from line colours chosen by the caller: clears the
    /// buffer to black; moves each ball one step and plots it; joins every pair
    /// of balls by a line, pair `t` of `all_pairs` in `line_colors[t]`; draws the
    /// logo dots at `logo_centers`; and turns the logo by `ANGLE_STEP`.
    pub fn render_frame(&mut self, buffer: &mut Vec<u32>, line_colors: &Vec<u32>, logo_centers: &Vec<(i32, i32)>)
        requires
            old(self).wf(),
            old(buffer)@.len() == WIDTH * HEIGHT,
            2 * line_colors@.len() == old(self).balls@.len() * (old(self).balls@.len() - 1),
            old(self).angle <= u64::MAX - ANGLE_STEP,
        ensures
            final(self).balls@ == old(self).balls@.map_values(|b: Ball| b.moved()),
            final(self).angle == old(self).angle + ANGLE_STEP,
            final(self).wf(),
            final(buffer)@ == frame_image(final(self).balls@, line_colors@, logo_centers@),
    {
        let angle = self.angle;
        let len = buffer.len();
        let mut t: usize = 0;
        while t < len
            invariant
                buffer@.len() == len,
                len == WIDTH * HEIGHT,
                t <= len,
                forall|q: int| 0 <= q < t ==> buffer@[q] == 0,
            decreases len - t,
        {
            buffer.set(t, 0);
            t = t + 1;
        }
        let ghost blank = cleared(len as nat);
        assert(buffer@ =~= blank);
        let ghost before = self.balls@;
        let ghost after = before.map_values(|b: Ball| b.moved());
        let n = self.balls.len();
        let mut k: usize = 0;
        while k < n
            invariant
                n == self.balls@.len(),
                n == before.len(),
                after == before.map_values(|b: Ball| b.moved()),
                blank == cleared((WIDTH * HEIGHT) as nat),
                k <= n,
                buffer@.len() == WIDTH * HEIGHT,
                forall|q: int| 0 <= q < n ==> #[trigger] before[q].wf(),
                forall|q: int| 0 <= q < k ==> self.balls@[q] == after[q],
                forall|q: int| k <= q < n ==> self.balls@[q] == before[q],
                forall|q: int| 0 <= q < n ==> #[trigger] self.balls@[q].wf(),
                buffer@ == dots(blank, after, k as int),
            decreases n - k,
        {
            let mut b = self.balls[k];
            b.update();
            self.balls.set(k, b);
            let (px, py) = b.pixel();
            plot(buffer, WIDTH, HEIGHT, px as i64, py as i64, b.color);
            k = k + 1;
        }
        assert(self.balls@ =~= after);
        let mut pix: Vec<(i32, i32)> = Vec::new();
        let mut q: usize = 0;
        while q < n
            invariant
                n == self.balls@.len(),
                self.balls@ == after,
                q <= n,
                pix@.len() == q,
                forall|p: int| 0 <= p < n ==> #[trigger] self.balls@[p].wf(),
                forall|p: int|
                    0 <= p < q ==> (#[trigger] pix@[p]).0 as int == after[p].pixel_of().0 && pix@[p].1 as int
                        == after[p].pixel_of().1,
            decreases n - q,
        {
            pix.push(self.balls[q].pixel());
            q = q + 1;
        }
        assert(pix@.map_values(|p: (i32, i32)| (p.0 as int, p.1 as int)) =~= ball_pixels(after));
        draw_connections(buffer, &pix, line_colors);
        draw_logo_at(buffer, WIDTH, HEIGHT, logo_centers);
        self.angle = angle + ANGLE_STEP;
    }
    /// Composes one frame as `render_frame` does, joining each pair of balls
    /// in a fresh random opaque colour.
    pub fn frame(&mut self, buffer: &mut Vec<u32>, logo_centers: &Vec<(i32, i32)>)
        requires
            old(self).wf(),
            old(buffer)@.len() == WIDTH * HEIGHT,
            old(self).angle <= u64::MAX - ANGLE_STEP,
            old(self).balls@.len() * (old(self).balls@.len() - 1) / 2 <= usize::MAX,
        ensures
            final(self).balls@ == old(self).balls@.map_values(|b: Ball| b.moved()),
            final(self).angle == old(self).angle + ANGLE_STEP,
            final(self).wf(),
            exists|colors: Seq<u32>|
                {
                    &&& 2 * colors.len() == old(self).balls@.len() * (old(self).balls@.len() - 1)
                    &&& forall|i: int| 0 <= i < colors.len() ==> #[trigger] colors[i] & ALPHA == ALPHA
                    &&& final(buffer)@ == frame_image(final(self).balls@, colors, logo_centers@)
                },
    {
        let n = self.balls.len();
        proof {
            lemma_pairs_len(0, n as int);
        }
        let ghost pair_total = all_pairs(n as int).len() as int;
        let below: u128 = if n == 0 {
            0
        } else {
            (n - 1) as u128
        };
        assert((n as u128) * below <= u128::MAX) by (nonlinear_arith)
            requires
                n <= usize::MAX,
                below <= n,
                usize::MAX <= u64::MAX,
        ;
        let product: u128 = (n as u128) * below;
        assert(product == n * (n - 1)) by (nonlinear_arith)
            requires
                n == 0 ==> below == 0,
                n > 0 ==> below == n - 1,
                product == n * below,
        ;
        let count: usize = (product / 2) as usize;
        assert(count == pair_total);
        let mut colors: Vec<u32> = Vec::new();
        while colors.len() < count
            invariant
                colors@.len() <= count,
                forall|i: int| 0 <= i < colors@.len() ==> #[trigger] colors@[i] & ALPHA == ALPHA,
            decreases count - colors@.len(),
        {
            colors.push(random_color());
        }
        self.render_frame(buffer, &colors, logo_centers);
        assert(2 * colors@.len() == n * (n - 1));
    }
}

} // verus!