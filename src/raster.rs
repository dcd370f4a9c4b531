//! Drawing primitives on a row-major buffer of packed colours.
//!
//! Every write is clipped: a point outside the `width` x `height` rectangle is
//! silently dropped.
use vstd::prelude::*;

verus! {

/// Is `(x, y)` inside the `w` x `h` rectangle anchored at the origin?
pub open spec fn in_bounds(w: int, h: int, x: int, y: int) -> bool {
    0 <= x < w && 0 <= y < h
}

/// Linear index of pixel `(x, y)` in a row-major buffer whose rows are `w` long.
pub open spec fn index_of(w: int, x: int, y: int) -> int {
    y * w + x
}

/// The buffer `s` after writing colour `c` at `(x, y)`, if that pixel exists.
pub open spec fn plotted(s: Seq<u32>, w: int, h: int, x: int, y: int, c: u32) -> Seq<u32> {
    if in_bounds(w, h, x, y) {
        s.update(index_of(w, x, y), c)
    } else {
        s
    }
}

/// An in-bounds pixel has an index inside a buffer of `w * h` cells.
pub proof fn lemma_index_in_buffer(w: int, h: int, x: int, y: int)
    requires
        in_bounds(w, h, x, y),
    ensures
        0 <= index_of(w, x, y) < w * h,
{
    assert(0 <= y * w + x < w * h) by (nonlinear_arith)
        requires
            0 <= x < w,
            0 <= y < h,
    ;
}

/// Two in-bounds pixels share an index only if they are the same pixel.
pub proof fn lemma_index_injective(w: int, h: int, x1: int, y1: int, x2: int, y2: int)
    requires
        in_bounds(w, h, x1, y1),
        in_bounds(w, h, x2, y2),
        index_of(w, x1, y1) == index_of(w, x2, y2),
    ensures
        x1 == x2,
        y1 == y2,
{
    assert(y1 == y2) by (nonlinear_arith)
        requires
            0 <= x1 < w,
            0 <= x2 < w,
            y1 * w + x1 == y2 * w + x2,
            0 <= y1,
            0 <= y2,
    {
        if y1 < y2 {
            assert(y1 * w + w <= y2 * w);
        } else if y2 < y1 {
            assert(y2 * w + w <= y1 * w);
        }
    }
}

/// Writing a point outside the rectangle leaves the buffer as it was.
pub proof fn lemma_plot_outside_unchanged(s: Seq<u32>, w: int, h: int, x: int, y: int, c: u32)
    requires
        !in_bounds(w, h, x, y),
    ensures
        plotted(s, w, h, x, y, c) == s,
{
}

/// Sets pixel `(x, y)` to `color` when it lies inside the buffer; does nothing
/// otherwise.
pub fn plot(buffer: &mut Vec<u32>, width: usize, height: usize, x: i64, y: i64, color: u32)
    requires
        old(buffer)@.len() == width * height,
    ensures
        final(buffer)@ == plotted(old(buffer)@, width as int, height as int, x as int, y as int, color),
        final(buffer)@.len() == old(buffer)@.len(),
        forall|px: int, py: int|
            #![trigger index_of(width as int, px, py)]
            in_bounds(width as int, height as int, px, py) ==> final(buffer)@[index_of(width as int, px, py)]
                == if px == x && py == y {
                color
            } else {
                old(buffer)@[index_of(width as int, px, py)]
            },
{
    let ghost w = width as int;
    let ghost h = height as int;
    let len = buffer.len();
    if 0 <= x && (x as u64) < (width as u64) && 0 <= y && (y as u64) < (height as u64) {
        proof {
            lemma_index_in_buffer(w, h, x as int, y as int);
        }
        assert((y as usize) * width + (x as usize) < len);
        let i = (y as usize) * width + (x as usize);
        buffer.set(i, color);
        assert forall|px: int, py: int|
            #![trigger index_of(w, px, py)]
            in_bounds(w, h, px, py) implies buffer@[index_of(w, px, py)] == if px == x && py == y {
                color
            } else {
                old(buffer)@[index_of(w, px, py)]
            } by {
            lemma_index_in_buffer(w, h, px, py);
            if index_of(w, px, py) == index_of(w, x as int, y as int) {
                lemma_index_injective(w, h, px, py, x as int, y as int);
            }
        }
    }
}

/// Absolute value of an integer.
pub open spec fn abs_int(v: int) -> int {
    if v < 0 {
        -v
    } else {
        v
    }
}

/// Is `(x, y)` within distance `r` of `(cx, cy)`, measured by squared distance?
pub open spec fn in_disk(cx: int, cy: int, r: int, x: int, y: int) -> bool {
    (x - cx) * (x - cx) + (y - cy) * (y - cy) <= r * r
}

/// `new` is `old` with every in-bounds pixel of the disk of radius `r` around
/// `(cx, cy)` set to `c`, and every other pixel kept.
pub open spec fn circle_drawn(
    old: Seq<u32>,
    new: Seq<u32>,
    w: int,
    h: int,
    cx: int,
    cy: int,
    r: int,
    c: u32,
) -> bool {
    &&& new.len() == old.len()
    &&& forall|px: int, py: int|
        #![trigger index_of(w, px, py)]
        in_bounds(w, h, px, py) ==> new[index_of(w, px, py)] == if in_disk(cx, cy, r, px, py) {
            c
        } else {
            old[index_of(w, px, py)]
        }
}

/// Loop state of the disk fill: pixels whose offset from the centre comes
/// before `(ox, oy)` in row order, and lies in the disk, are painted.
spec fn circle_partial(
    old: Seq<u32>,
    new: Seq<u32>,
    w: int,
    h: int,
    cx: int,
    cy: int,
    r: int,
    c: u32,
    ox: int,
    oy: int,
) -> bool {
    &&& new.len() == old.len()
    &&& forall|px: int, py: int|
        #![trigger index_of(w, px, py)]
        in_bounds(w, h, px, py) ==> new[index_of(w, px, py)] == if in_disk(cx, cy, r, px, py) && (
        abs_int(py - cy) < oy || (abs_int(py - cy) == oy && abs_int(px - cx) < ox)) {
            c
        } else {
            old[index_of(w, px, py)]
        }
}

proof fn lemma_square_abs(v: int)
    ensures
        abs_int(v) * abs_int(v) == v * v,
        abs_int(v) >= 0,
{
    assert((-v) * (-v) == v * v) by (nonlinear_arith);
}

/// An offset larger than the radius on one axis puts a point outside the disk.
proof fn lemma_far_offset(a: int, b: int, r: int)
    requires
        0 <= r < a,
    ensures
        a * a + b * b > r * r,
{
    assert(a * a + b * b > r * r) by (nonlinear_arith)
        requires
            0 <= r < a,
    ;
}

/// The buffer `s`, `w` pixels wide, with every pixel of the disk of radius `r`
/// around `(cx, cy)` set to `c`.
pub open spec fn disk_painted(s: Seq<u32>, w: int, cx: int, cy: int, r: int, c: u32) -> Seq<u32> {
    Seq::new(
        s.len(),
        |k: int|
            if in_disk(cx, cy, r, k % w, k / w) {
                c
            } else {
                s[k]
            },
    )
}

/// Every cell of a `w * h` buffer is the pixel `(k % w, k / w)`.
pub proof fn lemma_cell_pixel(w: int, h: int, k: int)
    requires
        0 <= w,
        0 <= h,
        0 <= k < w * h,
    ensures
        in_bounds(w, h, k % w, k / w),
        index_of(w, k % w, k / w) == k,
{
    if w == 0 {
        assert(w * h == 0);
    }
    vstd::arithmetic::div_mod::lemma_fundamental_div_mod(k, w);
    vstd::arithmetic::div_mod::lemma_mod_pos_bound(k, w);
    vstd::arithmetic::div_mod::lemma_div_pos_is_pos(k, w);
    let y = k / w;
    assert(y < h) by (nonlinear_arith)
        requires
            k == w * y + k % w,
            0 <= k % w,
            k < w * h,
            w > 0,
    ;
    assert(y * w == w * y) by (nonlinear_arith);
}

/// A disk drawn pixel by pixel is the buffer that `disk_painted` describes.
pub proof fn lemma_circle_drawn_painted(
    old: Seq<u32>,
    new: Seq<u32>,
    w: int,
    h: int,
    cx: int,
    cy: int,
    r: int,
    c: u32,
)
    requires
        0 <= w,
        0 <= h,
        old.len() == w * h,
        circle_drawn(old, new, w, h, cx, cy, r, c),
    ensures
        new == disk_painted(old, w, cx, cy, r, c),
{
    assert forall|k: int| 0 <= k < new.len() implies new[k] == disk_painted(old, w, cx, cy, r, c)[k] by {
        lemma_cell_pixel(w, h, k);
        assert(new[index_of(w, k % w, k / w)] == new[k]);
    }
    assert(new =~= disk_painted(old, w, cx, cy, r, c));
}

/// Paints the (up to) four pixels `(cx +- ox, cy +- oy)`.
fn plot_reflections(
    buffer: &mut Vec<u32>,
    width: usize,
    height: usize,
    cx: i64,
    cy: i64,
    ox: i64,
    oy: i64,
    color: u32,
)
    requires
        old(buffer)@.len() == width * height,
        0 <= ox <= u32::MAX,
        0 <= oy <= u32::MAX,
        i32::MIN <= cx <= i32::MAX,
        i32::MIN <= cy <= i32::MAX,
    ensures
        final(buffer)@.len() == old(buffer)@.len(),
        forall|px: int, py: int|
            #![trigger index_of(width as int, px, py)]
            in_bounds(width as int, height as int, px, py) ==> final(buffer)@[index_of(width as int, px, py)]
                == if abs_int(px - cx) == ox && abs_int(py - cy) == oy {
                color
            } else {
                old(buffer)@[index_of(width as int, px, py)]
            },
{
    plot(buffer, width, height, cx + ox, cy + oy, color);
    plot(buffer, width, height, cx - ox, cy + oy, color);
    plot(buffer, width, height, cx + ox, cy - oy, color);
    plot(buffer, width, height, cx - ox, cy - oy, color);
}

/// Fills the disk of radius `radius` around `(cx, cy)` with `color`: every pixel
/// whose squared distance from the centre is at most `radius * radius`. Parts of
/// the disk outside the buffer are clipped; the rest is still drawn.
pub fn draw_filled_circle(
    buffer: &mut Vec<u32>,
    width: usize,
    height: usize,
    cx: i32,
    cy: i32,
    radius: u32,
    color: u32,
)
    requires
        old(buffer)@.len() == width * height,
    ensures
        circle_drawn(
            old(buffer)@,
            final(buffer)@,
            width as int,
            height as int,
            cx as int,
            cy as int,
            radius as int,
            color,
        ),
        final(buffer)@ == disk_painted(old(buffer)@, width as int, cx as int, cy as int, radius as int, color),
{
    let ghost w = width as int;
    let ghost h = height as int;
    let ghost start = buffer@;
    let r: u64 = radius as u64;
    assert(r * r <= u64::MAX) by (nonlinear_arith)
        requires
            r <= u32::MAX,
    ;
    let r2: u64 = r * r;
    let mut oy: u64 = 0;
    while oy <= r
        invariant
            start.len() == w * h,
            w == width,
            h == height,
            r == radius,
            r2 == r * r,
            oy <= r + 1,
            circle_partial(start, buffer@, w, h, cx as int, cy as int, r as int, color, 0, oy as int),
        decreases r + 1 - oy,
    {
        let mut ox: u64 = 0;
        assert(oy * oy <= r2) by (nonlinear_arith)
            requires
                oy <= r,
                r2 == r * r,
        ;
        while ox <= r
            invariant
                start.len() == w * h,
                w == width,
                h == height,
                r == radius,
                r2 == r * r,
                oy <= r,
                oy * oy <= r2,
                ox <= r + 1,
                circle_partial(start, buffer@, w, h, cx as int, cy as int, r as int, color, ox as int, oy as int),
            decreases r + 1 - ox,
        {
            assert(ox * ox <= r2) by (nonlinear_arith)
                requires
                    ox <= r,
                    r2 == r * r,
            ;
            let ghost before = buffer@;
            if ox * ox <= r2 - oy * oy {
                plot_reflections(buffer, width, height, cx as i64, cy as i64, ox as i64, oy as i64, color);
            }
            assert forall|px: int, py: int|
                #![trigger index_of(w, px, py)]
                in_bounds(w, h, px, py) implies buffer@[index_of(w, px, py)] == if in_disk(
                    cx as int,
                    cy as int,
                    r as int,
                    px,
                    py,
                ) && (abs_int(py - cy) < oy || (abs_int(py - cy) == oy && abs_int(px - cx) < ox + 1)) {
                    color
                } else {
                    start[index_of(w, px, py)]
                } by {
                lemma_square_abs(px - cx);
                lemma_square_abs(py - cy);
            }
            ox = ox + 1;
        }
        assert forall|px: int, py: int|
            #![trigger index_of(w, px, py)]
            in_bounds(w, h, px, py) implies buffer@[index_of(w, px, py)] == if in_disk(
                cx as int,
                cy as int,
                r as int,
                px,
                py,
            ) && (abs_int(py - cy) < oy + 1 || (abs_int(py - cy) == oy + 1 && abs_int(px - cx) < 0)) {
                color
            } else {
                start[index_of(w, px, py)]
            } by {
            lemma_square_abs(px - cx);
            lemma_square_abs(py - cy);
            if abs_int(px - cx) > r {
                lemma_far_offset(abs_int(px - cx), abs_int(py - cy), r as int);
            }
        }
        oy = oy + 1;
    }
    assert forall|px: int, py: int|
        #![trigger index_of(w, px, py)]
        in_bounds(w, h, px, py) implies buffer@[index_of(w, px, py)] == if in_disk(
            cx as int,
            cy as int,
            r as int,
            px,
            py,
        ) {
            color
        } else {
            start[index_of(w, px, py)]
        } by {
        lemma_square_abs(px - cx);
        lemma_square_abs(py - cy);
        if abs_int(py - cy) > r {
            lemma_far_offset(abs_int(py - cy), abs_int(px - cx), r as int);
        }
    }
    proof {
        lemma_circle_drawn_painted(start, buffer@, w, h, cx as int, cy as int, r as int, color);
    }
}

/// The disk is symmetric under reflection through its centre on either axis:
/// where a drawn disk covers an in-bounds pixel, it also covers that pixel's
/// mirror images across the vertical and the horizontal line through the
/// centre, and through the centre itself, wherever they lie in the buffer.
pub proof fn lemma_circle_symmetric(
    old: Seq<u32>,
    new: Seq<u32>,
    w: int,
    h: int,
    cx: int,
    cy: int,
    r: int,
    c: u32,
    x: int,
    y: int,
)
    requires
        circle_drawn(old, new, w, h, cx, cy, r, c),
        in_bounds(w, h, x, y),
        in_disk(cx, cy, r, x, y),
    ensures
        new[index_of(w, x, y)] == c,
        in_disk(cx, cy, r, 2 * cx - x, y),
        in_disk(cx, cy, r, x, 2 * cy - y),
        in_disk(cx, cy, r, 2 * cx - x, 2 * cy - y),
        in_bounds(w, h, 2 * cx - x, y) ==> new[index_of(w, 2 * cx - x, y)] == c,
        in_bounds(w, h, x, 2 * cy - y) ==> new[index_of(w, x, 2 * cy - y)] == c,
        in_bounds(w, h, 2 * cx - x, 2 * cy - y) ==> new[index_of(w, 2 * cx - x, 2 * cy - y)] == c,
{
    assert((2 * cx - x - cx) * (2 * cx - x - cx) == (x - cx) * (x - cx)) by (nonlinear_arith);
    assert((2 * cy - y - cy) * (2 * cy - y - cy) == (y - cy) * (y - cy)) by (nonlinear_arith);
}

/// One step of Bresenham's algorithm from `(x, y)` with decision value `err`:
/// the next point and the next decision value.
pub open spec fn bresenham_next(
    x: int,
    y: int,
    err: int,
    dx: int,
    dy: int,
    sx: int,
    sy: int,
) -> (int, int, int) {
    let e2 = 2 * err;
    let err_x = if e2 >= dy {
        err + dy
    } else {
        err
    };
    let nx = if e2 >= dy {
        x + sx
    } else {
        x
    };
    let ny = if e2 <= dx {
        y + sy
    } else {
        y
    };
    let nerr = if e2 <= dx {
        err_x + dx
    } else {
        err_x
    };
    (nx, ny, nerr)
}

/// The points that Bresenham's algorithm visits from `(x, y)` before it stands
/// on `(x1, y1)`, in order. (The last branch, where a step would not approach the
/// end point, is never reached from a start that `line_points` sets up.)
pub open spec fn line_trace(
    x: int,
    y: int,
    err: int,
    x1: int,
    y1: int,
    dx: int,
    dy: int,
    sx: int,
    sy: int,
) -> Seq<(int, int)>
    decreases abs_int(x1 - x) + abs_int(y1 - y),
{
    if x == x1 && y == y1 {
        Seq::empty()
    } else {
        let n = bresenham_next(x, y, err, dx, dy, sx, sy);
        if abs_int(x1 - n.0) + abs_int(y1 - n.1) < abs_int(x1 - x) + abs_int(y1 - y) {
            seq![(x, y)] + line_trace(n.0, n.1, n.2, x1, y1, dx, dy, sx, sy)
        } else {
            seq![(x, y)]
        }
    }
}

/// The points of the line from `(x0, y0)` towards `(x1, y1)`: the start point
/// and every point up to, but not including, the end point. A line whose two
/// ends coincide has no points.
pub open spec fn line_points(x0: int, y0: int, x1: int, y1: int) -> Seq<(int, int)> {
    let dx = abs_int(x1 - x0);
    let dy = -abs_int(y1 - y0);
    let sx = if x0 < x1 {
        1int
    } else {
        -1int
    };
    let sy = if y0 < y1 {
        1int
    } else {
        -1int
    };
    line_trace(x0, y0, dx + dy, x1, y1, dx, dy, sx, sy)
}

proof fn lemma_horizontal_trace(x: int, y: int, x1: int, dx: int, sy: int)
    requires
        x <= x1,
        dx > 0,
    ensures
        line_trace(x, y, dx, x1, y, dx, 0, 1, sy) == Seq::new((x1 - x) as nat, |k: int| (x + k, y)),
    decreases x1 - x,
{
    if x < x1 {
        lemma_horizontal_trace(x + 1, y, x1, dx, sy);
        assert(bresenham_next(x, y, dx, dx, 0, 1, sy) == (x + 1, y, dx));
        assert(line_trace(x, y, dx, x1, y, dx, 0, 1, sy) =~= Seq::new((x1 - x) as nat, |k: int| (x + k, y)));
    } else {
        assert(line_trace(x, y, dx, x1, y, dx, 0, 1, sy) =~= Seq::new((x1 - x) as nat, |k: int| (x + k, y)));
    }
}

/// A horizontal line drawn rightward from `(x0, y)` to `(x1, y)` visits the
/// `x1 - x0` points `(x0, y), (x0 + 1, y), ..., (x1 - 1, y)`, in order: every
/// point from the start up to, not including, the end.
pub proof fn lemma_horizontal_line(x0: int, y: int, x1: int)
    requires
        x0 < x1,
    ensures
        line_points(x0, y, x1, y) == Seq::new((x1 - x0) as nat, |k: int| (x0 + k, y)),
{
    lemma_horizontal_trace(x0, y, x1, x1 - x0, -1);
    assert(-abs_int(y - y) == 0);
}

/// The buffer `s` after plotting each point of `pts` in `c`, in order.
pub open spec fn painted(s: Seq<u32>, w: int, h: int, pts: Seq<(int, int)>, c: u32) -> Seq<u32>
    decreases pts.len(),
{
    if pts.len() == 0 {
        s
    } else {
        painted(plotted(s, w, h, pts[0].0, pts[0].1, c), w, h, pts.drop_first(), c)
    }
}

/// Plotting points never changes the length of the buffer.
pub proof fn lemma_painted_len(s: Seq<u32>, w: int, h: int, pts: Seq<(int, int)>, c: u32)
    requires
        s.len() == w * h,
    ensures
        painted(s, w, h, pts, c).len() == s.len(),
    decreases pts.len(),
{
    if pts.len() > 0 {
        if in_bounds(w, h, pts[0].0, pts[0].1) {
            lemma_index_in_buffer(w, h, pts[0].0, pts[0].1);
        }
        lemma_painted_len(plotted(s, w, h, pts[0].0, pts[0].1, c), w, h, pts.drop_first(), c);
    }
}

/// Draws the line from `start` to `end` in `color` with Bresenham's algorithm,
/// clipping every point to the buffer. The end point itself is not drawn, so a
/// line whose ends coincide draws nothing.
pub fn draw_line(
    buffer: &mut Vec<u32>,
    width: usize,
    height: usize,
    start: (i32, i32),
    end: (i32, i32),
    color: u32,
)
    requires
        old(buffer)@.len() == width * height,
    ensures
        final(buffer)@ == painted(
            old(buffer)@,
            width as int,
            height as int,
            line_points(start.0 as int, start.1 as int, end.0 as int, end.1 as int),
            color,
        ),
        final(buffer)@.len() == old(buffer)@.len(),
{
    let (x0, y0) = start;
    let (x1, y1) = end;
    let x0: i64 = x0 as i64;
    let y0: i64 = y0 as i64;
    let x1: i64 = x1 as i64;
    let y1: i64 = y1 as i64;
    let dx: i64 = if x1 >= x0 {
        x1 - x0
    } else {
        x0 - x1
    };
    let sx: i64 = if x0 < x1 {
        1
    } else {
        -1
    };
    let dy: i64 = if y1 >= y0 {
        y0 - y1
    } else {
        y1 - y0
    };
    let sy: i64 = if y0 < y1 {
        1
    } else {
        -1
    };
    let mut err: i64 = dx + dy;
    let mut x: i64 = x0;
    let mut y: i64 = y0;
    let ghost w = width as int;
    let ghost h = height as int;
    let ghost big_dx = dx as int;
    let ghost big_dy = -dy;
    proof {
        lemma_painted_len(buffer@, width as int, height as int, line_points(x0 as int, y0 as int, x1 as int, y1 as int), color);
    }
    let ghost target = painted(buffer@, w, h, line_points(x0 as int, y0 as int, x1 as int, y1 as int), color);
    let ghost mut i: int = 0;
    let ghost mut j: int = 0;
    // `i` and `j` count the steps taken along each axis. The decision value
    // stays tied to them and within a few lengths of the line, and neither
    // count ever passes the end point, so each step brings the end closer.
    assert(err == big_dx * (1 + j) - big_dy * (1 + i));
    while x != x1 || y != y1
        invariant
            buffer@.len() == w * h,
            w == width,
            h == height,
            big_dx == dx,
            big_dy == -dy,
            0 <= big_dx <= 0x1_0000_0000,
            0 <= big_dy <= 0x1_0000_0000,
            x1 == x0 + sx * big_dx,
            y1 == y0 + sy * big_dy,
            sx == 1 || sx == -1,
            sy == 1 || sy == -1,
            i32::MIN <= x0 <= i32::MAX,
            i32::MIN <= y0 <= i32::MAX,
            0 <= i <= big_dx,
            0 <= j <= big_dy,
            x == x0 + sx * i,
            y == y0 + sy * j,
            err == big_dx * (1 + j) - big_dy * (1 + i),
            -2 * big_dy <= err <= 2 * big_dx,
            painted(buffer@, w, h, line_trace(x as int, y as int, err as int, x1 as int, y1 as int, dx as int, dy as int, sx as int, sy as int), color) == target,
        decreases (big_dx - i) + (big_dy - j),
    {
        assert(abs_int(x1 - x) == big_dx - i && abs_int(y1 - y) == big_dy - j) by (nonlinear_arith)
            requires
                x1 == x0 + sx * big_dx,
                y1 == y0 + sy * big_dy,
                sx == 1 || sx == -1,
                sy == 1 || sy == -1,
                0 <= i <= big_dx,
                0 <= j <= big_dy,
                x == x0 + sx * i,
                y == y0 + sy * j,
        ;
        proof {
            if i == big_dx {
                assert(big_dx * (1 + j) <= big_dx * big_dy) by (nonlinear_arith)
                    requires
                        0 <= big_dx,
                        1 + j <= big_dy,
                ;
                assert(big_dy * (1 + i) == big_dy + big_dy * big_dx) by (nonlinear_arith)
                    requires
                        i == big_dx,
                ;
                assert(big_dx * big_dy == big_dy * big_dx) by (nonlinear_arith);
            }
            if j == big_dy {
                assert(big_dy * (1 + i) <= big_dy * big_dx) by (nonlinear_arith)
                    requires
                        0 <= big_dy,
                        1 + i <= big_dx,
                ;
                assert(big_dx * (1 + j) == big_dx + big_dx * big_dy) by (nonlinear_arith)
                    requires
                        j == big_dy,
                ;
                assert(big_dx * big_dy == big_dy * big_dx) by (nonlinear_arith);
            }
        }
        let ghost n = bresenham_next(x as int, y as int, err as int, dx as int, dy as int, sx as int, sy as int);
        let ghost pi = i;
        let ghost pbuf_x = x as int;
        let ghost pbuf_y = y as int;
        let ghost perr = err as int;
        let ghost pj = j;
        let ghost pbuf = buffer@;
        let ghost rest = line_trace(n.0, n.1, n.2, x1 as int, y1 as int, dx as int, dy as int, sx as int, sy as int);
        plot(buffer, width, height, x, y, color);
        let e2: i64 = 2 * err;
        if e2 >= dy {
            proof {
                assert(big_dy * (1 + (i + 1)) == big_dy * (1 + i) + big_dy) by (nonlinear_arith);
                i = i + 1;
            }
            err = err + dy;
            x = x + sx;
        }
        if e2 <= dx {
            proof {
                assert(big_dx * (1 + (j + 1)) == big_dx * (1 + j) + big_dx) by (nonlinear_arith);
                j = j + 1;
            }
            err = err + dx;
            y = y + sy;
        }
        proof {
            assert(x == x0 + sx * i) by (nonlinear_arith)
                requires
                    x == x0 + sx * pi + sx * (i - pi),
            ;
            assert(y == y0 + sy * j) by (nonlinear_arith)
                requires
                    y == y0 + sy * pj + sy * (j - pj),
            ;
            assert(abs_int(x1 - x) == big_dx - i && abs_int(y1 - y) == big_dy - j) by (nonlinear_arith)
                requires
                    x1 == x0 + sx * big_dx,
                    y1 == y0 + sy * big_dy,
                    sx == 1 || sx == -1,
                    sy == 1 || sy == -1,
                    0 <= i <= big_dx,
                    0 <= j <= big_dy,
                    x == x0 + sx * i,
                    y == y0 + sy * j,
            ;
            let ps = line_trace(pbuf_x, pbuf_y, perr, x1 as int, y1 as int, dx as int, dy as int, sx as int, sy as int);
            assert(ps == seq![(pbuf_x, pbuf_y)] + rest);
            assert(ps.drop_first() =~= rest);
            assert(painted(pbuf, w, h, ps, color) == painted(buffer@, w, h, rest, color));
        }
    }
}

} // verus!
