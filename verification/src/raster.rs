//! Integer line and disc rasterisation.
use vstd::math::abs;
use vstd::math::max;
use vstd::prelude::*;

verus! {

// ---- Straight lines -------------------------------------------------------------------------
/// How far a line has moved along its short side after `t` of its `long` steps: `t * short /
/// long`, rounded to the nearest integer. A tie goes up if `ties_up`, else down.
pub open spec fn nearest(t: int, short: int, long: int, ties_up: bool) -> int {
    if long == 0 {
        0
    } else {
        (2 * t * short + long - (if ties_up {
            0int
        } else {
            1int
        })) / (2 * long)
    }
}

/// The direction of travel from `a` to `b`.
pub open spec fn direction(a: int, b: int) -> int {
    if a < b {
        1
    } else {
        -1
    }
}

/// The place `n` steps from `a` towards `b`.
pub open spec fn toward(a: int, b: int, n: int) -> int {
    if a < b {
        a + n
    } else {
        a - n
    }
}

/// The number of steps from the first to the last pixel of the line.
pub open spec fn line_len(from: (int, int), to: (int, int)) -> int {
    max(abs(to.0 - from.0) as int, abs(to.1 - from.1) as int)
}

/// The pixel reached after `t` steps from `from` towards `to`: one pixel per step along the
/// longer side, the nearest pixel to the ideal line on the shorter one.
pub open spec fn line_at(from: (int, int), to: (int, int), ties_up: bool, t: int) -> (int, int) {
    let dx = abs(to.0 - from.0) as int;
    let dy = abs(to.1 - from.1) as int;
    if dx >= dy {
        (toward(from.0, to.0, t), toward(from.1, to.1, nearest(t, dy, dx, ties_up)))
    } else {
        (toward(from.0, to.0, nearest(t, dx, dy, ties_up)), toward(from.1, to.1, t))
    }
}

/// What one step along the long side does to the short one, and why the long side moves at all.
proof fn lemma_nearest_step(t: int, short: int, long: int, ties_up: bool)
    requires
        0 <= short <= long,
        0 <= t < long,
    ensures
        ({
            let b = nearest(t, short, long, ties_up);
            let lhs = (2 * b + 1) * long;
            let rhs = 2 * (t + 1) * short;
            let up = if ties_up {
                lhs <= rhs
            } else {
                lhs < rhs
            };
            &&& 0 <= b <= short
            &&& b <= t
            &&& nearest(t + 1, short, long, ties_up) == if up {
                b + 1
            } else {
                b
            }
            &&& 2 * (b + 1) * long > (2 * t + 1) * short
            &&& up ==> b < short
            // the tracked error stays small
            &&& long - 2 * short <= 2 * ((b + 1) * long - (t + 1) * short) + 1
            &&& 2 * ((b + 1) * long - (t + 1) * short) <= 3 * long - 2 * short
        }),
{
    let e: int = if ties_up {
        0
    } else {
        1
    };
    let n = 2 * t * short + long - e;
    let d = 2 * long;
    let b = nearest(t, short, long, ties_up);
    assert(b == n / d);
    assert(d * b <= n < d * (b + 1)) by {
        vstd::arithmetic::div_mod::lemma_fundamental_div_mod(n, d);
        vstd::arithmetic::div_mod::lemma_mod_bound(n, d);
        vstd::arithmetic::mul::lemma_mul_is_distributive_add(d, b, 1);
    }
    let n2 = 2 * (t + 1) * short + long - e;
    assert(n2 == n + 2 * short) by (nonlinear_arith)
        requires
            n == 2 * t * short + long - e,
            n2 == 2 * (t + 1) * short + long - e,
    ;
    assert(0 <= 2 * t * short) by (nonlinear_arith)
        requires
            0 <= t,
            0 <= short,
    ;
    assert(0 <= b) by (nonlinear_arith)
        requires
            d > 0,
            0 <= n < d * (b + 1),
    ;
    assert((2 * b + 1) * long == d * b + long) by (nonlinear_arith)
        requires
            d == 2 * long,
    ;
    assert(d * (b + 1) == d * b + d) by (nonlinear_arith);
    assert(d * (b + 2) == d * b + 2 * d) by (nonlinear_arith);
    let up = if ties_up {
        (2 * b + 1) * long <= 2 * (t + 1) * short
    } else {
        (2 * b + 1) * long < 2 * (t + 1) * short
    };
    assert(nearest(t + 1, short, long, ties_up) == n2 / d);
    if up {
        assert(d * (b + 1) <= n2 < d * (b + 2));
        vstd::arithmetic::div_mod::lemma_fundamental_div_mod_converse(n2, d, b + 1, n2 - d * (b + 1));
    } else {
        assert(d * b <= n2 < d * (b + 1));
        vstd::arithmetic::div_mod::lemma_fundamental_div_mod_converse(n2, d, b, n2 - d * b);
    }
    assert(2 * t * short <= 2 * (long - 1) * short) by (nonlinear_arith)
        requires
            0 <= t <= long - 1,
            0 <= short,
    ;
    assert(2 * (long - 1) * short == d * short - 2 * short) by (nonlinear_arith)
        requires
            d == 2 * long,
    ;
    assert(b <= short) by (nonlinear_arith)
        requires
            d * b <= n,
            n <= d * short - 2 * short + long,
            d == 2 * long,
            0 <= short <= long,
            long > 0,
    ;
    assert(2 * t * short <= d * t) by (nonlinear_arith)
        requires
            0 <= t,
            0 <= short <= long,
            d == 2 * long,
    ;
    assert(b <= t) by (nonlinear_arith)
        requires
            d * b <= n,
            n <= d * t + long,
            d == 2 * long,
            long > 0,
    ;
    assert(2 * (b + 1) * long == d * (b + 1)) by (nonlinear_arith)
        requires
            d == 2 * long,
    ;
    assert((2 * t + 1) * short == 2 * t * short + short) by (nonlinear_arith);
    if !(d * (b + 1) > (2 * t + 1) * short) {
        // only possible on a perfect diagonal, where the short side keeps up exactly
        assert(short == long && e == 1);
        assert(n == d * t + (long - 1)) by (nonlinear_arith)
            requires
                n == 2 * t * short + long - e,
                short == long,
                e == 1,
                d == 2 * long,
        ;
        vstd::arithmetic::div_mod::lemma_fundamental_div_mod_converse(n, d, t, long - 1);
        assert(b == t);
        assert(d * (b + 1) > (2 * t + 1) * short) by (nonlinear_arith)
            requires
                b == t,
                d == 2 * long,
                short == long,
                long > 0,
        ;
    }
    if up && b >= short {
        assert(2 * (t + 1) * short <= 2 * long * short) by (nonlinear_arith)
            requires
                0 <= t < long,
                0 <= short,
        ;
        assert((2 * b + 1) * long > 2 * long * short) by (nonlinear_arith)
            requires
                b >= short,
                long > 0,
        ;
    }
    assert((b + 1) * long == b * long + long) by (nonlinear_arith);
    assert((t + 1) * short == t * short + short) by (nonlinear_arith);
    assert(2 * t * short == 2 * (t * short)) by (nonlinear_arith);
    assert(d * b == 2 * (b * long)) by (nonlinear_arith)
        requires
            d == 2 * long,
    ;
}

/// The last step lands on the end of the line.
pub proof fn lemma_line_ends(from: (int, int), to: (int, int), ties_up: bool)
    ensures
        line_at(from, to, ties_up, 0) == from,
        line_at(from, to, ties_up, line_len(from, to)) == to,
{
    let dx = abs(to.0 - from.0) as int;
    let dy = abs(to.1 - from.1) as int;
    let (short, long) = if dx >= dy {
        (dy, dx)
    } else {
        (dx, dy)
    };
    if long > 0 {
        let e: int = if ties_up {
            0
        } else {
            1
        };
        let d = 2 * long;
        assert(2 * 0 * short == 0) by (nonlinear_arith);
        vstd::arithmetic::div_mod::lemma_fundamental_div_mod_converse(long - e, d, 0, long - e);
        assert(2 * long * short == d * short) by (nonlinear_arith)
            requires
                d == 2 * long,
        ;
        assert(d * short == short * d) by (nonlinear_arith);
        vstd::arithmetic::div_mod::lemma_fundamental_div_mod_converse(
            2 * long * short + long - e,
            d,
            short,
            long - e,
        );
    }
}

/// A line stays between its two ends, and meets the far end on its last step only.
pub proof fn lemma_line_between(from: (int, int), to: (int, int), ties_up: bool, t: int)
    requires
        0 <= t <= line_len(from, to),
    ensures
        ({
            let at = line_at(from, to, ties_up, t);
            &&& from.0 <= at.0 <= to.0 || to.0 <= at.0 <= from.0
            &&& from.1 <= at.1 <= to.1 || to.1 <= at.1 <= from.1
            &&& at == to <==> t == line_len(from, to)
        }),
{
    let dx = abs(to.0 - from.0) as int;
    let dy = abs(to.1 - from.1) as int;
    lemma_line_ends(from, to, ties_up);
    if t < line_len(from, to) {
        if dx >= dy {
            lemma_nearest_step(t, dy, dx, ties_up);
        } else {
            lemma_nearest_step(t, dx, dy, ties_up);
        }
    }
}

/// A walk along a line, one pixel at a time, by an integer error term.
pub struct LineWalk {
    x: i32,
    y: i32,
    dx: i32,
    dy: i32,
    sx: i32,
    sy: i32,
    err: i32,
    ties_up: bool,
    from: Ghost<(int, int)>,
    to: Ghost<(int, int)>,
    taken: Ghost<int>,
}

impl LineWalk {
    /// Where the walk started.
    pub closed spec fn from(self) -> (int, int) {
        self.from@
    }

    /// Where the walk ends.
    pub closed spec fn to(self) -> (int, int) {
        self.to@
    }

    /// How ties between two pixels are broken.
    pub closed spec fn breaks_ties_up(self) -> bool {
        self.ties_up
    }

    /// The number of steps taken.
    pub closed spec fn taken(self) -> int {
        self.taken@
    }

    /// The current pixel.
    pub open spec fn pixel(self) -> (int, int) {
        line_at(self.from(), self.to(), self.breaks_ties_up(), self.taken())
    }

    /// The fields agree with the line being walked.
    pub closed spec fn wf(self) -> bool {
        let from = self.from@;
        let to = self.to@;
        let t = self.taken@;
        let at = line_at(from, to, self.ties_up, t);
        let a = if self.dx >= self.dy {
            t
        } else {
            nearest(t, self.dx as int, self.dy as int, self.ties_up)
        };
        let b = if self.dx >= self.dy {
            nearest(t, self.dy as int, self.dx as int, self.ties_up)
        } else {
            t
        };
        &&& i32::MIN <= from.0 <= i32::MAX && i32::MIN <= from.1 <= i32::MAX
        &&& i32::MIN <= to.0 <= i32::MAX && i32::MIN <= to.1 <= i32::MAX
        &&& self.dx == abs(to.0 - from.0)
        &&& self.dy == abs(to.1 - from.1)
        &&& self.sx == direction(from.0, to.0)
        &&& self.sy == direction(from.1, to.1)
        &&& 3 * line_len(from, to) <= i32::MAX
        &&& 0 <= t <= line_len(from, to)
        &&& self.x == at.0
        &&& self.y == at.1
        &&& self.err == (b + 1) * self.dx - (a + 1) * self.dy
    }

    /// Stands at the start of the line from `(x0, y0)` to `(x1, y1)`.
    pub fn new(x0: i32, y0: i32, x1: i32, y1: i32, ties_up: bool) -> (walk: Self)
        requires
            3 * line_len((x0 as int, y0 as int), (x1 as int, y1 as int)) <= i32::MAX,
        ensures
            walk.wf(),
            walk.from() == (x0 as int, y0 as int),
            walk.to() == (x1 as int, y1 as int),
            walk.breaks_ties_up() == ties_up,
            walk.taken() == 0,
    {
        proof {
            lemma_line_ends((x0 as int, y0 as int), (x1 as int, y1 as int), ties_up);
        }
        let dx: i32 = if x0 < x1 {
            x1 - x0
        } else {
            x0 - x1
        };
        let dy: i32 = if y0 < y1 {
            y1 - y0
        } else {
            y0 - y1
        };
        let sx: i32 = if x0 < x1 {
            1
        } else {
            -1
        };
        let sy: i32 = if y0 < y1 {
            1
        } else {
            -1
        };
        let err: i32 = dx - dy;
        proof {
            let (short, long) = if dx >= dy {
                (dy as int, dx as int)
            } else {
                (dx as int, dy as int)
            };
            if long > 0 {
                lemma_nearest_step(0, short, long, ties_up);
            }
            let b = nearest(0, short, long, ties_up);
            assert(b == 0);
            assert((b + 1) * dx == dx) by (nonlinear_arith)
                requires
                    b == 0,
            ;
            assert((b + 1) * dy == dy) by (nonlinear_arith)
                requires
                    b == 0,
            ;
            assert((0int + 1) * dx == dx && (0int + 1) * dy == dy);
        }
        LineWalk {
            x: x0,
            y: y0,
            dx,
            dy,
            sx,
            sy,
            err,
            ties_up,
            from: Ghost((x0 as int, y0 as int)),
            to: Ghost((x1 as int, y1 as int)),
            taken: Ghost(0),
        }
    }

    /// The current pixel.
    pub fn position(&self) -> (at: (i32, i32))
        requires
            self.wf(),
        ensures
            at.0 == self.pixel().0,
            at.1 == self.pixel().1,
    {
        (self.x, self.y)
    }

    /// Moves on to the next pixel.
    pub fn step(&mut self)
        requires
            old(self).wf(),
            old(self).taken() < line_len(old(self).from(), old(self).to()),
        ensures
            final(self).wf(),
            final(self).from() == old(self).from(),
            final(self).to() == old(self).to(),
            final(self).breaks_ties_up() == old(self).breaks_ties_up(),
            final(self).taken() == old(self).taken() + 1,
    {
        let ghost t = self.taken@;
        let ghost dx = self.dx as int;
        let ghost dy = self.dy as int;
        let ghost a0 = if dx >= dy {
            t
        } else {
            nearest(t, dx, dy, self.ties_up)
        };
        let ghost b0 = if dx >= dy {
            nearest(t, dy, dx, self.ties_up)
        } else {
            t
        };
        proof {
            if dx >= dy {
                lemma_nearest_step(t, dy, dx, self.ties_up);
            } else {
                lemma_nearest_step(t, dx, dy, self.ties_up);
            }
            assert((2 * b0 + 1) * dx == 2 * ((b0 + 1) * dx) - dx) by (nonlinear_arith);
            assert((2 * a0 + 1) * dy == 2 * ((a0 + 1) * dy) - dy) by (nonlinear_arith);
            assert(2 * (a0 + 1) * dy == 2 * ((a0 + 1) * dy)) by (nonlinear_arith);
            assert(2 * (b0 + 1) * dx == 2 * ((b0 + 1) * dx)) by (nonlinear_arith);
            assert((b0 + 2) * dx == (b0 + 1) * dx + dx) by (nonlinear_arith);
            assert((a0 + 2) * dy == (a0 + 1) * dy + dy) by (nonlinear_arith);
        }
        let e2: i32 = 2 * self.err;
        let move_x: bool = if self.ties_up {
            e2 >= -self.dy
        } else {
            e2 > -self.dy
        };
        let move_y: bool = if self.ties_up {
            e2 <= self.dx
        } else {
            e2 < self.dx
        };
        if move_x {
            self.err = self.err - self.dy;
            self.x = self.x + self.sx;
        }
        if move_y {
            self.err = self.err + self.dx;
            self.y = self.y + self.sy;
        }
        self.taken = Ghost(t + 1);
    }
}

// ---- Painting a square picture of interleaved RGB bytes ----------------------------------------
/// The colour of pixel `(x, y)` in rows of `w` interleaved RGB pixels.
pub open spec fn rgb_at(buf: Seq<u8>, w: int, x: int, y: int) -> (u8, u8, u8) {
    let i = (y * w + x) * 3;
    (buf[i], buf[i + 1], buf[i + 2])
}

/// `after` is `before` with the pixels of `region` in colour `color`, on a `w` by `w` picture.
pub open spec fn painted(
    before: Seq<u8>,
    after: Seq<u8>,
    w: int,
    region: spec_fn(int, int) -> bool,
    color: (u8, u8, u8),
) -> bool {
    &&& after.len() == before.len()
    &&& forall|x: int, y: int|
        0 <= x < w && 0 <= y < w ==> #[trigger] rgb_at(after, w, x, y) == if region(x, y) {
            color
        } else {
            rgb_at(before, w, x, y)
        }
    &&& forall|i: int| 3 * w * w <= i < before.len() ==> #[trigger] after[i] == before[i]
}

/// Pixel `(x, y)` lies in the square of half-width `half` around `center`.
pub open spec fn in_square(center: (int, int), half: int, x: int, y: int) -> bool {
    abs(x - center.0) <= half && abs(y - center.1) <= half
}

/// Pixel `(x, y)` lies within `half` of one of the first `count` pixels of the line.
pub open spec fn near_line(
    from: (int, int),
    to: (int, int),
    half: int,
    count: int,
    x: int,
    y: int,
) -> bool {
    exists|t: int|
        0 <= t < count && in_square(#[trigger] line_at(from, to, true, t), half, x, y)
}

/// Pixel `(x, y)` lies in the closed disc of radius `r` around `(cx, cy)`; a negative radius
/// holds nothing.
pub open spec fn in_disc(cx: int, cy: int, r: int, x: int, y: int) -> bool {
    0 <= r && (x - cx) * (x - cx) + (y - cy) * (y - cy) <= r * r
}

/// Pixels of a `w`-wide picture lie inside it, and different pixels do not overlap.
pub proof fn lemma_pixel_index(w: int, x: int, y: int, x2: int, y2: int)
    requires
        0 <= x < w,
        0 <= y < w,
        0 <= x2 < w,
        0 <= y2 < w,
    ensures
        0 <= (y * w + x) * 3,
        (y * w + x) * 3 + 3 <= 3 * w * w,
        (x, y) != (x2, y2) ==> (y * w + x) != (y2 * w + x2),
{
    assert(0 <= y * w) by (nonlinear_arith)
        requires
            0 <= y,
            0 <= w,
    ;
    assert(y * w + w <= w * w) by (nonlinear_arith)
        requires
            y + 1 <= w,
            0 <= w,
    ;
    assert(3 * w * w == 3 * (w * w)) by (nonlinear_arith);
    if y * w + x == y2 * w + x2 {
        vstd::arithmetic::div_mod::lemma_fundamental_div_mod_converse(y * w + x, w, y, x);
        vstd::arithmetic::div_mod::lemma_fundamental_div_mod_converse(y2 * w + x2, w, y2, x2);
    }
}

/// Painting one region after another in the same colour paints both.
proof fn lemma_painted_twice(
    before: Seq<u8>,
    mid: Seq<u8>,
    after: Seq<u8>,
    w: int,
    first: spec_fn(int, int) -> bool,
    second: spec_fn(int, int) -> bool,
    both: spec_fn(int, int) -> bool,
    color: (u8, u8, u8),
)
    requires
        painted(before, mid, w, first, color),
        painted(mid, after, w, second, color),
        forall|x: int, y: int|
            0 <= x < w && 0 <= y < w ==> (#[trigger] both(x, y) == (first(x, y) || second(x, y))),
    ensures
        painted(before, after, w, both, color),
{
    assert forall|x: int, y: int| 0 <= x < w && 0 <= y < w implies #[trigger] rgb_at(after, w, x, y)
        == if both(x, y) {
        color
    } else {
        rgb_at(before, w, x, y)
    } by {
        let _ = rgb_at(mid, w, x, y);
    }
    assert forall|i: int| 3 * w * w <= i < before.len() implies #[trigger] after[i] == before[i] by {
        assert(mid[i] == before[i]);
    }
}

/// Squares grow with magnitude.
pub proof fn lemma_square_bound(a: int, bound: int)
    requires
        -bound <= a <= bound,
    ensures
        0 <= a * a <= bound * bound,
{
    assert(0 <= a * a) by (nonlinear_arith);
    assert(a * a <= bound * bound) by (nonlinear_arith)
        requires
            -bound <= a <= bound,
    ;
}

/// A disc fits in the square around it.
pub proof fn lemma_disc_bound(a: int, b: int, r: int)
    requires
        0 <= r,
        a * a + b * b <= r * r,
    ensures
        -r <= a <= r,
        -r <= b <= r,
{
    assert(0 <= a * a && 0 <= b * b) by (nonlinear_arith);
    assert(-r <= a <= r) by (nonlinear_arith)
        requires
            0 <= r,
            a * a <= r * r,
    ;
    assert(-r <= b <= r) by (nonlinear_arith)
        requires
            0 <= r,
            b * b <= r * r,
    ;
}

/// No pixel of a disc lies outside the square around it.
pub proof fn lemma_disc_box(cx: int, cy: int, r: int)
    ensures
        forall|x: int, y: int| #[trigger]
            in_disc(cx, cy, r, x, y) ==> cx - r <= x <= cx + r && cy - r <= y <= cy + r,
{
    assert forall|x: int, y: int| #[trigger] in_disc(cx, cy, r, x, y) implies cx - r <= x <= cx + r
        && cy - r <= y <= cy + r by {
        lemma_disc_bound(x - cx, y - cy, r);
    }
}

/// Paints the single pixel `(x, y)` if it lies in the picture.
fn put_rgb(buf: &mut [u8], w: u32, x: i32, y: i32, color: (u8, u8, u8))
    requires
        3 * w * w <= u32::MAX,
        3 * w * w <= old(buf).len(),
    ensures
        painted(
            old(buf)@,
            final(buf)@,
            w as int,
            |px: int, py: int| px == x && py == y,
            color,
        ),
{
    if x >= 0 && y >= 0 && (x as u32) < w && (y as u32) < w {
        let px: u32 = x as u32;
        let py: u32 = y as u32;
        proof {
            lemma_pixel_index(w as int, px as int, py as int, px as int, py as int);
            assert(0 <= py * w) by (nonlinear_arith);
        }
        let idx: usize = ((py * w + px) * 3) as usize;
        buf[idx] = color.0;
        buf[idx + 1] = color.1;
        buf[idx + 2] = color.2;
        proof {
            assert forall|qx: int, qy: int| 0 <= qx < w && 0 <= qy < w implies #[trigger] rgb_at(
                buf@,
                w as int,
                qx,
                qy,
            ) == if qx == x && qy == y {
                color
            } else {
                rgb_at(old(buf)@, w as int, qx, qy)
            } by {
                lemma_pixel_index(w as int, qx, qy, px as int, py as int);
            }
        }
    }
}

/// Paints the square of half-width `half` around `(cx, cy)`, cut off at the picture's edges.
fn stamp_square(buf: &mut [u8], w: u32, cx: i32, cy: i32, half: i32, color: (u8, u8, u8))
    requires
        3 * w * w <= u32::MAX,
        3 * w * w <= old(buf).len(),
        0 <= half,
        i32::MIN <= cx - half && cx + half <= i32::MAX,
        i32::MIN <= cy - half && cy + half <= i32::MAX,
    ensures
        painted(
            old(buf)@,
            final(buf)@,
            w as int,
            |x: int, y: int| in_square((cx as int, cy as int), half as int, x, y),
            color,
        ),
{
    let ghost center = (cx as int, cy as int);
    let last_x: i32 = cx + half;
    let last_y: i32 = cy + half;
    let mut y: i64 = (cy - half) as i64;
    while y <= last_y as i64
        invariant
            3 * w * w <= u32::MAX,
            3 * w * w <= buf.len(),
            0 <= half,
            i32::MIN <= cx - half && cx + half <= i32::MAX,
            i32::MIN <= cy - half && cy + half <= i32::MAX,
            cy - half <= y <= cy + half + 1,
            center == (cx as int, cy as int),
            last_x == cx + half,
            last_y == cy + half,
            painted(
                old(buf)@,
                buf@,
                w as int,
                |px: int, py: int| in_square(center, half as int, px, py) && py < y,
                color,
            ),
        decreases cy + half + 1 - y,
    {
        let ghost row_start = buf@;
        let mut x: i64 = (cx - half) as i64;
        while x <= last_x as i64
            invariant
                3 * w * w <= u32::MAX,
                3 * w * w <= buf.len(),
                0 <= half,
                i32::MIN <= cx - half && cx + half <= i32::MAX,
                i32::MIN <= cy - half && cy + half <= i32::MAX,
                cy - half <= y <= cy + half,
                cx - half <= x <= cx + half + 1,
                last_x == cx + half,
                last_y == cy + half,
                center == (cx as int, cy as int),
                painted(
                    row_start,
                    buf@,
                    w as int,
                    |px: int, py: int| in_square(center, half as int, px, py) && py == y && px < x,
                    color,
                ),
            decreases cx + half + 1 - x,
        {
            let ghost before = buf@;
            put_rgb(buf, w, x as i32, y as i32, color);
            proof {
                lemma_painted_twice(
                    row_start,
                    before,
                    buf@,
                    w as int,
                    |px: int, py: int| in_square(center, half as int, px, py) && py == y && px < x,
                    |px: int, py: int| px == x && py == y,
                    |px: int, py: int|
                        in_square(center, half as int, px, py) && py == y && px < x + 1,
                    color,
                );
            }
            x = x + 1;
        }
        proof {
            lemma_painted_twice(
                old(buf)@,
                row_start,
                buf@,
                w as int,
                |px: int, py: int| in_square(center, half as int, px, py) && py < y,
                |px: int, py: int| in_square(center, half as int, px, py) && py == y && px < x,
                |px: int, py: int| in_square(center, half as int, px, py) && py < y + 1,
                color,
            );
        }
        y = y + 1;
    }
}

/// Draws the line from `(x0, y0)` to `(x1, y1)` in strokes of `2 * half_w + 1` pixels on a `w` by
/// `w` picture; whatever falls outside the picture is left out.
pub fn draw_line(
    buf: &mut [u8],
    w: u32,
    _h: u32,
    x0: i32,
    y0: i32,
    x1: i32,
    y1: i32,
    half_w: i32,
    color: (u8, u8, u8),
)
    requires
        3 * w * w <= u32::MAX,
        3 * w * w <= old(buf).len(),
        3 * line_len((x0 as int, y0 as int), (x1 as int, y1 as int)) <= i32::MAX,
        0 <= half_w ==> i32::MIN <= x0 - half_w && x0 + half_w <= i32::MAX && i32::MIN <= y0 - half_w
            && y0 + half_w <= i32::MAX && i32::MIN <= x1 - half_w && x1 + half_w <= i32::MAX
            && i32::MIN <= y1 - half_w && y1 + half_w <= i32::MAX,
    ensures
        painted(
            old(buf)@,
            final(buf)@,
            w as int,
            |x: int, y: int|
                near_line(
                    (x0 as int, y0 as int),
                    (x1 as int, y1 as int),
                    half_w as int,
                    line_len((x0 as int, y0 as int), (x1 as int, y1 as int)) + 1,
                    x,
                    y,
                ),
            color,
        ),
{
    let ghost from = (x0 as int, y0 as int);
    let ghost to = (x1 as int, y1 as int);
    let ghost len = line_len(from, to);
    let mut walk = LineWalk::new(x0, y0, x1, y1, true);
    loop
        invariant_except_break
            painted(
                old(buf)@,
                buf@,
                w as int,
                |x: int, y: int| near_line(from, to, half_w as int, walk.taken(), x, y),
                color,
            ),
        invariant
            from == (x0 as int, y0 as int),
            to == (x1 as int, y1 as int),
            len == line_len(from, to),
            walk.wf(),
            walk.from() == from,
            walk.to() == to,
            walk.breaks_ties_up(),
            0 <= walk.taken() <= len,
            3 * w * w <= u32::MAX,
            3 * w * w <= buf.len(),
            0 <= half_w ==> i32::MIN <= x0 - half_w && x0 + half_w <= i32::MAX && i32::MIN <= y0
                - half_w && y0 + half_w <= i32::MAX && i32::MIN <= x1 - half_w && x1 + half_w
                <= i32::MAX && i32::MIN <= y1 - half_w && y1 + half_w <= i32::MAX,
        ensures
            painted(
                old(buf)@,
                buf@,
                w as int,
                |x: int, y: int| near_line(from, to, half_w as int, len + 1, x, y),
                color,
            ),
        decreases len - walk.taken(),
    {
        let at = walk.position();
        let ghost t = walk.taken();
        let ghost before = buf@;
        proof {
            lemma_line_between(from, to, true, t);
            lemma_line_ends(from, to, true);
        }
        if half_w >= 0 {
            stamp_square(buf, w, at.0, at.1, half_w, color);
        }
        proof {
            let first = |x: int, y: int| near_line(from, to, half_w as int, t, x, y);
            let second = |x: int, y: int|
                in_square(line_at(from, to, true, t), half_w as int, x, y);
            let both = |x: int, y: int| near_line(from, to, half_w as int, t + 1, x, y);
            assert forall|x: int, y: int| 0 <= x < w && 0 <= y < w implies (#[trigger] both(x, y)
                == (first(x, y) || second(x, y))) by {
                if second(x, y) {
                    assert(in_square(line_at(from, to, true, t), half_w as int, x, y));
                }
                if first(x, y) {
                    let s = choose|s: int|
                        0 <= s < t && in_square(
                            #[trigger] line_at(from, to, true, s),
                            half_w as int,
                            x,
                            y,
                        );
                    assert(in_square(line_at(from, to, true, s), half_w as int, x, y));
                }
            }
            lemma_painted_twice(old(buf)@, before, buf@, w as int, first, second, both, color);
        }
        if at.0 == x1 && at.1 == y1 {
            break;
        }
        walk.step();
    }
}

/// Fills the disc of radius `r` around `(cx, cy)` on a `w` by `w` picture; whatever falls outside
/// the picture is left out.
pub fn draw_circle(
    buf: &mut [u8],
    w: u32,
    _h: u32,
    cx: i32,
    cy: i32,
    r: i32,
    color: (u8, u8, u8),
)
    requires
        3 * w * w <= u32::MAX,
        3 * w * w <= old(buf).len(),
        r * r <= i32::MAX,
        0 <= r ==> i32::MIN <= cx - r && cx + r <= i32::MAX && i32::MIN <= cy - r && cy + r
            <= i32::MAX,
    ensures
        painted(
            old(buf)@,
            final(buf)@,
            w as int,
            |x: int, y: int| in_disc(cx as int, cy as int, r as int, x, y),
            color,
        ),
{
    if r < 0 {
        return ;
    }
    proof {
        assert(r <= 46340) by (nonlinear_arith)
            requires
                0 <= r,
                r * r <= 0x7fff_ffff,
        ;
        lemma_disc_box(cx as int, cy as int, r as int);
    }
    let r2: i64 = r as i64 * r as i64;
    let mut dy: i32 = -r;
    while dy <= r
        invariant
            3 * w * w <= u32::MAX,
            3 * w * w <= buf.len(),
            0 <= r <= 46340,
            r2 == r * r,
            i32::MIN <= cx - r && cx + r <= i32::MAX,
            i32::MIN <= cy - r && cy + r <= i32::MAX,
            -r <= dy <= r + 1,
            painted(
                old(buf)@,
                buf@,
                w as int,
                |x: int, y: int| in_disc(cx as int, cy as int, r as int, x, y) && y < cy + dy,
                color,
            ),
        decreases r + 1 - dy,
    {
        let ghost row_start = buf@;
        proof {
            lemma_disc_box(cx as int, cy as int, r as int);
        }
        let mut dx: i32 = -r;
        while dx <= r
            invariant
                3 * w * w <= u32::MAX,
                3 * w * w <= buf.len(),
                0 <= r <= 46340,
                r2 == r * r,
                i32::MIN <= cx - r && cx + r <= i32::MAX,
                i32::MIN <= cy - r && cy + r <= i32::MAX,
                -r <= dy <= r,
                -r <= dx <= r + 1,
                painted(
                    row_start,
                    buf@,
                    w as int,
                    |x: int, y: int|
                        in_disc(cx as int, cy as int, r as int, x, y) && y == cy + dy && x < cx
                            + dx,
                    color,
                ),
            decreases r + 1 - dx,
        {
            let ghost before = buf@;
            proof {
                lemma_square_bound(dx as int, 46340);
                lemma_square_bound(dy as int, 46340);
            }
            let inside: bool = dx as i64 * dx as i64 + dy as i64 * dy as i64 <= r2;
            if inside {
                put_rgb(buf, w, cx + dx, cy + dy, color);
            }
            proof {
                lemma_painted_twice(
                    row_start,
                    before,
                    buf@,
                    w as int,
                    |x: int, y: int|
                        in_disc(cx as int, cy as int, r as int, x, y) && y == cy + dy && x < cx
                            + dx,
                    |x: int, y: int| inside && x == cx + dx && y == cy + dy,
                    |x: int, y: int|
                        in_disc(cx as int, cy as int, r as int, x, y) && y == cy + dy && x < cx + (
                        dx + 1),
                    color,
                );
            }
            dx = dx + 1;
        }
        proof {
            lemma_painted_twice(
                old(buf)@,
                row_start,
                buf@,
                w as int,
                |x: int, y: int| in_disc(cx as int, cy as int, r as int, x, y) && y < cy + dy,
                |x: int, y: int|
                    in_disc(cx as int, cy as int, r as int, x, y) && y == cy + dy && x < cx + dx,
                |x: int, y: int| in_disc(cx as int, cy as int, r as int, x, y) && y < cy + (dy + 1),
                color,
            );
        }
        dy = dy + 1;
    }
}

/// A line keeps to the ideal one: it takes one pixel per step along its longer side, on both sides
/// it goes towards its end, and on the shorter side it is never more than half a pixel off. Where
/// two pixels are equally near, the one further on is taken if ties go up, else the one before.
pub proof fn law_lines_are_straight(from: (int, int), to: (int, int), ties_up: bool, t: int)
    requires
        0 <= t <= line_len(from, to),
    ensures
        ({
            let at = line_at(from, to, ties_up, t);
            let wide = abs(to.0 - from.0);
            let high = abs(to.1 - from.1);
            let gone_x = abs(at.0 - from.0);
            let gone_y = abs(at.1 - from.1);
            let ahead = if wide >= high {
                2 * (gone_y * wide - t * high)
            } else {
                2 * (gone_x * high - t * wide)
            };
            let long = if wide >= high {
                wide
            } else {
                high
            };
            &&& from.0 <= at.0 <= to.0 || to.0 <= at.0 <= from.0
            &&& from.1 <= at.1 <= to.1 || to.1 <= at.1 <= from.1
            &&& wide >= high ==> gone_x == t
            &&& wide < high ==> gone_y == t
            &&& -long <= ahead <= long
            &&& ties_up && long > 0 ==> -long < ahead
            &&& !ties_up && long > 0 ==> ahead < long
        }),
{
    let dx = abs(to.0 - from.0) as int;
    let dy = abs(to.1 - from.1) as int;
    let (short, long) = if dx >= dy {
        (dy, dx)
    } else {
        (dx, dy)
    };
    lemma_line_between(from, to, ties_up, t);
    let b = nearest(t, short, long, ties_up);
    if long > 0 {
        let e: int = if ties_up {
            0
        } else {
            1
        };
        let n = 2 * t * short + long - e;
        vstd::arithmetic::div_mod::lemma_fundamental_div_mod(n, 2 * long);
        vstd::arithmetic::div_mod::lemma_mod_bound(n, 2 * long);
        let rest = n % (2 * long);
        assert(2 * (b * long - t * short) == long - e - rest) by (nonlinear_arith)
            requires
                n == 2 * t * short + long - e,
                n == (2 * long) * b + rest,
        ;
        assert(0 <= 2 * t * short) by (nonlinear_arith)
            requires
                0 <= t,
                0 <= short,
        ;
        assert(0 <= b) by (nonlinear_arith)
            requires
                n == (2 * long) * b + rest,
                0 <= n,
                rest < 2 * long,
                0 < long,
        ;
    } else {
        assert(b * long - t * short == 0) by (nonlinear_arith)
            requires
                long == 0,
                short == 0,
        ;
    }
}

/// A stroke covers what is no further than `half` from one of the pixels of the line, counted along
/// columns and rows.
pub proof fn law_strokes_follow_the_line(
    from: (int, int),
    to: (int, int),
    half: int,
    t: int,
    x: int,
    y: int,
)
    requires
        0 <= t <= line_len(from, to),
    ensures
        ({
            let at = line_at(from, to, true, t);
            let all = line_len(from, to) + 1;
            &&& at.0 - half <= x <= at.0 + half && at.1 - half <= y <= at.1 + half ==> near_line(
                from,
                to,
                half,
                all,
                x,
                y,
            )
            &&& near_line(from, to, half, all, x, y) ==> exists|s: int|
                {
                    let near = #[trigger] line_at(from, to, true, s);
                    &&& 0 <= s < all
                    &&& near.0 - half <= x <= near.0 + half
                    &&& near.1 - half <= y <= near.1 + half
                }
        }),
{
}

/// A disc is round: it does not change when it is turned by a quarter or mirrored, it moves with
/// its centre, it reaches exactly its radius along columns and rows, and a larger one holds it.
pub proof fn law_discs_are_round(cx: int, cy: int, r: int, x: int, y: int)
    ensures
        in_disc(cx, cy, r, cx + x, cy + y) == in_disc(cx, cy, r, cx - y, cy + x),
        in_disc(cx, cy, r, cx + x, cy + y) == in_disc(cx, cy, r, cx - x, cy + y),
        in_disc(cx, cy, r, cx + x, cy + y) == in_disc(0, 0, r, x, y),
        in_disc(cx, cy, r, cx + x, cy) <==> -r <= x <= r,
        in_disc(cx, cy, r, cx + x, cy + y) ==> in_disc(cx, cy, r + 1, cx + x, cy + y),
        in_disc(cx, cy, r, cx + x, cy + y) <==> 0 <= r && x * x + y * y <= r * r,
{
    assert((-x) * (-x) == x * x && (-y) * (-y) == y * y) by (nonlinear_arith);
    assert((r + 1) * (r + 1) == r * r + 2 * r + 1) by (nonlinear_arith);
    if 0 <= r {
        assert(x * x <= r * r <==> -r <= x <= r) by (nonlinear_arith)
            requires
                0 <= r,
        ;
    }
    assert(cx + x - cx == x && cy + y - cy == y && cx - y - cx == -y && cx - x - cx == -x && cy + x
        - cy == x);
    assert(0int * 0 == 0);
}


/// A pixel has three bytes, pixels lie row by row, and painting a region changes the bytes of its
/// pixels to the colour and no others.
pub proof fn law_painting_touches_its_region(
    before: Seq<u8>,
    after: Seq<u8>,
    w: int,
    region: spec_fn(int, int) -> bool,
    color: (u8, u8, u8),
    x: int,
    y: int,
    i: int,
)
    requires
        painted(before, after, w, region, color),
        0 <= x < w,
        0 <= y < w,
    ensures
        ({
            let at = 3 * (y * w + x);
            &&& after.len() == before.len()
            &&& region(x, y) ==> after[at] == color.0 && after[at + 1] == color.1 && after[at + 2]
                == color.2
            &&& !region(x, y) ==> after[at] == before[at] && after[at + 1] == before[at + 1]
                && after[at + 2] == before[at + 2]
            &&& 3 * w * w <= i < before.len() ==> after[i] == before[i]
        }),
{
    assert(rgb_at(after, w, x, y) == rgb_at(after, w, x, y));
    assert((y * w + x) * 3 == 3 * (y * w + x));
}

} // verus!
