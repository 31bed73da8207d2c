//! The picture of a bouncing ball: where its ball, its arrow and its clouds fall.
use crate::raster::lemma_disc_bound;
use crate::raster::lemma_line_between;
use crate::raster::lemma_line_ends;
use crate::raster::lemma_square_bound;
use crate::raster::line_at;
use crate::raster::line_len;
use crate::raster::LineWalk;
use vstd::prelude::*;

verus! {

// ---- The velocity arrow -------------------------------------------------------------------------
/// The arrow is cut off after this many pixels.
pub const ARROW_LIMIT: usize = 100;

/// Pixel `(x, y)` is one of the first `count` pixels of the line.
pub open spec fn on_line(from: (int, int), to: (int, int), count: int, x: int, y: int) -> bool {
    exists|t: int| 0 <= t < count && #[trigger] line_at(from, to, false, t) == (x, y)
}

/// The three values of pixel `(x, y)` where rows have `size` pixels and planes lie `n` apart.
pub open spec fn planar_at<T>(data: Seq<T>, size: int, n: int, x: int, y: int) -> (T, T, T) {
    let p = y * size + x;
    (data[p], data[n + p], data[2 * n + p])
}

/// `after` is `before` with the pixels of `region` in `color`, on a square of `size` pixels a side
/// whose planes lie `n` apart. What lies between the planes stays as it is.
pub open spec fn planar_painted<T>(
    before: Seq<T>,
    after: Seq<T>,
    size: int,
    n: int,
    region: spec_fn(int, int) -> bool,
    color: (T, T, T),
) -> bool {
    &&& after.len() == before.len()
    &&& forall|x: int, y: int|
        0 <= x < size && 0 <= y < size ==> #[trigger] planar_at(after, size, n, x, y) == if region(
            x,
            y,
        ) {
            color
        } else {
            planar_at(before, size, n, x, y)
        }
    &&& forall|i: int|
        size * size <= i < n || n + size * size <= i < 2 * n || 2 * n + size * size <= i
            < after.len() ==> #[trigger] after[i] == before[i]
}

/// Pixels lie inside their plane, and different pixels do not overlap.
proof fn lemma_planar_index(size: int, x: int, y: int, x2: int, y2: int)
    requires
        0 <= x < size,
        0 <= y < size,
        0 <= x2 < size,
        0 <= y2 < size,
    ensures
        0 <= y * size + x < size * size,
        (x, y) != (x2, y2) ==> (y * size + x) != (y2 * size + x2),
{
    assert(0 <= y * size && y * size + size <= size * size) by (nonlinear_arith)
        requires
            0 <= y < size,
    ;
    if y < y2 {
        assert(y * size + size <= y2 * size) by (nonlinear_arith)
            requires
                y < y2,
                0 < size,
        ;
    } else if y2 < y {
        assert(y2 * size + size <= y * size) by (nonlinear_arith)
            requires
                y2 < y,
                0 < size,
        ;
    }
}

/// Paints the single pixel `(x, y)` if it lies in the picture.
fn put_planar<T: Copy>(
    pixels: &mut [T],
    size: usize,
    n: usize,
    x: i32,
    y: i32,
    color: (T, T, T),
)
    requires
        size <= i32::MAX,
        size * size <= n,
        2 * n + size * size <= old(pixels).len(),
    ensures
        planar_painted(
            old(pixels)@,
            final(pixels)@,
            size as int,
            n as int,
            |px: int, py: int| px == x && py == y,
            color,
        ),
{
    if x >= 0 && y >= 0 && (x as usize) < size && (y as usize) < size {
        proof {
            lemma_planar_index(size as int, x as int, y as int, x as int, y as int);
            assert forall|px: int, py: int| 0 <= px < size && 0 <= py < size && (px, py) != (
                x as int,
                y as int,
            ) implies 0 <= #[trigger] (py * size + px) < size * size && py * size + px != y * size
                + x by {
                lemma_planar_index(size as int, px, py, x as int, y as int);
            }
            assert(0 <= y * size <= y * size + x);
        }
        let p: usize = y as usize * size + x as usize;
        pixels[p] = color.0;
        pixels[n + p] = color.1;
        pixels[2 * n + p] = color.2;
    }
}

/// Draws the line from `(x0, y0)` to `(x1, y1)`, or its first hundred pixels, on a square of
/// `size` pixels a side whose planes lie `n` apart; whatever falls outside is left out.
pub fn draw_line<T: Copy>(
    pixels: &mut [T],
    x0: usize,
    y0: usize,
    x1: usize,
    y1: usize,
    size: usize,
    n: usize,
    color: (T, T, T),
)
    requires
        size <= i32::MAX,
        size * size <= n,
        2 * n + size * size <= old(pixels).len(),
        x0 <= i32::MAX && y0 <= i32::MAX && x1 <= i32::MAX && y1 <= i32::MAX,
        3 * line_len((x0 as int, y0 as int), (x1 as int, y1 as int)) <= i32::MAX,
    ensures
        planar_painted(
            old(pixels)@,
            final(pixels)@,
            size as int,
            n as int,
            |x: int, y: int|
                on_line(
                    (x0 as int, y0 as int),
                    (x1 as int, y1 as int),
                    vstd::math::min(
                        100,
                        line_len((x0 as int, y0 as int), (x1 as int, y1 as int)) + 1,
                    ),
                    x,
                    y,
                ),
            color,
        ),
{
    let ghost from = (x0 as int, y0 as int);
    let ghost to = (x1 as int, y1 as int);
    let ghost len = line_len(from, to);
    let mut walk = LineWalk::new(x0 as i32, y0 as i32, x1 as i32, y1 as i32, false);
    let mut drawn: usize = 0;
    let mut arrived = false;
    while !arrived && drawn < ARROW_LIMIT
        invariant
            from == (x0 as int, y0 as int),
            to == (x1 as int, y1 as int),
            len == line_len(from, to),
            walk.wf(),
            walk.from() == from,
            walk.to() == to,
            !walk.breaks_ties_up(),
            0 <= walk.taken() <= len,
            0 <= drawn <= ARROW_LIMIT,
            x1 <= i32::MAX && y1 <= i32::MAX,
            !arrived ==> drawn == walk.taken(),
            arrived ==> drawn == len + 1,
            size <= i32::MAX,
            size * size <= n,
            2 * n + size * size <= pixels.len(),
            planar_painted(
                old(pixels)@,
                pixels@,
                size as int,
                n as int,
                |x: int, y: int| on_line(from, to, drawn as int, x, y),
                color,
            ),
        decreases ARROW_LIMIT - drawn,
    {
        let at = walk.position();
        let ghost t = walk.taken();
        let ghost before = pixels@;
        proof {
            lemma_line_between(from, to, false, t);
        }
        put_planar(pixels, size, n, at.0, at.1, color);
        proof {
            assert forall|x: int, y: int| 0 <= x < size && 0 <= y < size implies #[trigger] planar_at(
                pixels@,
                size as int,
                n as int,
                x,
                y,
            ) == if on_line(from, to, t + 1, x, y) {
                color
            } else {
                planar_at(old(pixels)@, size as int, n as int, x, y)
            } by {
                let _ = planar_at(before, size as int, n as int, x, y);
                if line_at(from, to, false, t) == (x, y) {
                    assert(on_line(from, to, t + 1, x, y));
                }
                if on_line(from, to, t, x, y) {
                    let s = choose|s: int|
                        0 <= s < t && #[trigger] line_at(from, to, false, s) == (x, y);
                    assert(line_at(from, to, false, s) == (x, y));
                    assert(on_line(from, to, t + 1, x, y));
                }
            }
        }
        drawn = drawn + 1;
        if at.0 == x1 as i32 && at.1 == y1 as i32 {
            arrived = true;
        } else {
            walk.step();
        }
    }
}

// ---- The ball -----------------------------------------------------------------------------------
/// `v` moved into `0..size`.
pub open spec fn clamped(v: int, size: int) -> int {
    if v < 0 {
        0
    } else if v >= size {
        size - 1
    } else {
        v
    }
}

/// The offsets of a square of `2 * r + 1` pixels a side around its centre, row after row.
pub open spec fn square_offsets(r: int) -> Seq<(int, int)> {
    let side = 2 * r + 1;
    Seq::new((side * side) as nat, |i: int| (i % side - r, i / side - r))
}

/// The offset lies in the disc of radius `r`.
pub open spec fn offset_in_disc(r: int) -> spec_fn((int, int)) -> bool {
    |d: (int, int)| d.0 * d.0 + d.1 * d.1 <= r * r
}

/// Where the disc pixel at an offset from the centre falls, and its squared distance to it. Pixels
/// beyond the edge of the picture fall on the edge.
pub open spec fn disc_spot(px: int, py: int, size: int, d: (int, int)) -> (int, int) {
    (clamped(py + d.1, size) * size + clamped(px + d.0, size), d.0 * d.0 + d.1 * d.1)
}

/// The pixels of the disc of radius `r` around `(px, py)`, row after row.
pub open spec fn disc_spots(px: int, py: int, r: int, size: int) -> Seq<(int, int)> {
    square_offsets(r).filter(offset_in_disc(r)).map_values(
        |d: (int, int)| disc_spot(px, py, size, d),
    )
}

/// Machine pairs as pairs of integers.
pub open spec fn spots_of(spots: Seq<(usize, usize)>) -> Seq<(int, int)> {
    spots.map_values(|s: (usize, usize)| (s.0 as int, s.1 as int))
}

/// `v` moved into `0..size`.
fn clamp_to(v: i64, size: usize) -> (c: usize)
    requires
        0 < size <= i32::MAX,
    ensures
        c == clamped(v as int, size as int),
{
    if v < 0 {
        0
    } else if v >= size as i64 {
        size - 1
    } else {
        v as usize
    }
}

/// Lists the pixels of a ball of radius `radius` around `(px, py)`, row after row: the offset of
/// each in a plane of `size` pixels a side, and its squared distance to the centre.
pub fn ball_spots(px: usize, py: usize, radius: usize, size: usize) -> (spots: Vec<(usize, usize)>)
    requires
        0 < size <= i32::MAX,
        size * size <= usize::MAX,
        px + radius <= i32::MAX,
        py + radius <= i32::MAX,
        2 * radius * radius <= i32::MAX,
    ensures
        spots_of(spots@) == disc_spots(px as int, py as int, radius as int, size as int),
{
    let ghost r = radius as int;
    proof {
        assert(r <= 32767) by (nonlinear_arith)
            requires
                2 * r * r <= 0x7fff_ffff,
                r >= 0,
        ;
    }
    let side: usize = 2 * radius + 1;
    let ghost offsets = square_offsets(r);
    let ghost to_spot = |d: (int, int)| disc_spot(px as int, py as int, size as int, d);
    proof {
        assert(0 <= side * side <= 65535 * 65535) by (nonlinear_arith)
            requires
                0 <= side <= 65535,
        ;
    }
    let total: u64 = side as u64 * side as u64;
    let mut spots: Vec<(usize, usize)> = Vec::new();
    let mut i: u64 = 0;
    while i < total
        invariant
            0 <= i <= total,
            r == radius,
            0 <= r <= 32767,
            side == 2 * r + 1,
            total == side * side,
            0 < size <= i32::MAX,
            size * size <= usize::MAX,
            px + radius <= i32::MAX,
            py + radius <= i32::MAX,
            offsets == square_offsets(r),
            to_spot == |d: (int, int)| disc_spot(px as int, py as int, size as int, d),
            spots_of(spots@) =~= offsets.take(i as int).filter(offset_in_disc(r)).map_values(
                to_spot,
            ),
        decreases total - i,
    {
        let ghost a = i as int % side as int;
        let ghost b = i as int / side as int;
        assert(0 <= a < side && 0 <= b < side) by (nonlinear_arith)
            requires
                side > 0,
                0 <= i < side * side,
                a == i as int % side as int,
                b == i as int / side as int,
        ;
        let dx: i64 = (i % side as u64) as i64 - radius as i64;
        let dy: i64 = (i / side as u64) as i64 - radius as i64;
        proof {
            lemma_square_bound(dx as int, 32767);
            lemma_square_bound(dy as int, 32767);
            lemma_square_bound(r, 32767);
            assert(offsets[i as int] == (dx as int, dy as int));
            assert(offsets.take(i + 1).drop_last() =~= offsets.take(i as int));
            assert(offsets.take(i + 1).last() == (dx as int, dy as int));
            reveal(Seq::filter);
            assert(r * r == radius as i64 * radius as i64);
            assert(offset_in_disc(r)((dx as int, dy as int)) == (dx * dx + dy * dy <= r * r));
        }
        let ghost kept = offsets.take(i as int).filter(offset_in_disc(r));
        let d2: i64 = dx * dx + dy * dy;
        if d2 <= radius as i64 * radius as i64 {
            let sx: usize = clamp_to(px as i64 + dx, size);
            let sy: usize = clamp_to(py as i64 + dy, size);
            proof {
                lemma_planar_index(size as int, sx as int, sy as int, sx as int, sy as int);
                assert(0 <= sy * size <= sy * size + sx);
            }
            spots.push((sy * size + sx, d2 as usize));
            proof {
                assert(offsets.take(i + 1).filter(offset_in_disc(r)) == kept.push(
                    (dx as int, dy as int),
                ));
                assert(kept.push((dx as int, dy as int)).map_values(to_spot) =~= kept.map_values(
                    to_spot,
                ).push(to_spot((dx as int, dy as int))));
            }
        }
        i = i + 1;
    }
    assert(offsets.take(total as int) =~= offsets);
    spots
}

/// One pixel of disc number `disc` was painted: the three values at `spot.0` have become what
/// `blend` makes of them, of their channel and of the squared distance `spot.1`.
pub open spec fn blended<T, F: Fn(usize, T, usize, usize) -> T>(
    before: Seq<T>,
    after: Seq<T>,
    n: int,
    disc: usize,
    spot: (usize, usize),
    blend: F,
) -> bool {
    let p = spot.0 as int;
    &&& after == before.update(p, after[p]).update(n + p, after[n + p]).update(
        2 * n + p,
        after[2 * n + p],
    )
    &&& blend.ensures((disc, before[p], 0usize, spot.1), after[p])
    &&& blend.ensures((disc, before[n + p], 1usize, spot.1), after[n + p])
    &&& blend.ensures((disc, before[2 * n + p], 2usize, spot.1), after[2 * n + p])
}

/// `states` runs from `before` to `after`, one state further with each pixel of `spots` that is
/// painted.
pub open spec fn blended_in_turn<T, F: Fn(usize, T, usize, usize) -> T>(
    states: Seq<Seq<T>>,
    before: Seq<T>,
    after: Seq<T>,
    n: int,
    disc: usize,
    spots: Seq<(usize, usize)>,
    blend: F,
) -> bool {
    &&& states.len() == spots.len() + 1
    &&& states[0] == before
    &&& states.last() == after
    &&& forall|i: int|
        #![trigger spots[i]]
        0 <= i < spots.len() ==> blended(states[i], states[i + 1], n, disc, spots[i], blend)
}

/// Paints the listed pixels of disc number `disc` in turn, in three planes that lie `n` apart. A
/// pixel that is listed twice is painted twice.
pub fn blend_spots<T: Copy, F: Fn(usize, T, usize, usize) -> T>(
    pixels: &mut Vec<T>,
    n: usize,
    disc: usize,
    spots: &[(usize, usize)],
    blend: &F,
)
    requires
        3 * n <= old(pixels).len(),
        forall|i: int| 0 <= i < spots.len() ==> (#[trigger] spots[i]).0 < n,
        forall|v: T, c: usize, d: usize| c < 3 ==> #[trigger] blend.requires((disc, v, c, d)),
    ensures
        exists|states: Seq<Seq<T>>|
            #[trigger] blended_in_turn(
                states,
                old(pixels)@,
                final(pixels)@,
                n as int,
                disc,
                spots@,
                *blend,
            ),
        final(pixels).len() == old(pixels).len(),
{
    let ghost mut states: Seq<Seq<T>> = seq![pixels@];
    for i in 0..spots.len()
        invariant
            3 * n <= pixels.len(),
            forall|k: int| 0 <= k < spots.len() ==> (#[trigger] spots[k]).0 < n,
            forall|v: T, c: usize, d: usize| c < 3 ==> #[trigger] blend.requires((disc, v, c, d)),
            pixels.len() == old(pixels).len(),
            blended_in_turn(
                states,
                old(pixels)@,
                pixels@,
                n as int,
                disc,
                spots@.take(i as int),
                *blend,
            ),
    {
        let (p, d2) = spots[i];
        assert(spots[i as int].0 < n);
        let ghost before = pixels@;
        let red = blend(disc, pixels[p], 0, d2);
        let green = blend(disc, pixels[n + p], 1, d2);
        let blue = blend(disc, pixels[2 * n + p], 2, d2);
        pixels.set(p, red);
        pixels.set(n + p, green);
        pixels.set(2 * n + p, blue);
        proof {
            let longer = states.push(pixels@);
            let more = spots@.take(i + 1);
            assert(pixels@ =~= before.update(p as int, pixels@[p as int]).update(
                n + p,
                pixels@[n + p],
            ).update(2 * n + p, pixels@[2 * n + p]));
            assert(blended(before, pixels@, n as int, disc, (p, d2), *blend));
            assert forall|k: int| #![trigger more[k]] 0 <= k < more.len() implies blended(
                longer[k],
                longer[k + 1],
                n as int,
                disc,
                more[k],
                *blend,
            ) by {
                if k < i {
                    assert(more[k] == spots@.take(i as int)[k]);
                    assert(longer[k] == states[k] && longer[k + 1] == states[k + 1]);
                } else {
                    assert(longer[k] == before && longer[k + 1] == pixels@);
                }
            }
            states = longer;
        }
    }
    assert(spots@.take(spots.len() as int) =~= spots@);
    assert(blended_in_turn(states, old(pixels)@, pixels@, n as int, disc, spots@, *blend));
}

/// Every listed pixel of a ball lies in its plane.
pub proof fn law_ball_stays_in_plane(px: int, py: int, r: int, size: int, i: int)
    requires
        0 < size,
        0 <= i < disc_spots(px, py, r, size).len(),
    ensures
        0 <= disc_spots(px, py, r, size)[i].0 < size * size,
        0 <= disc_spots(px, py, r, size)[i].1 <= r * r,
{
    broadcast use vstd::seq_lib::group_filter_ensures;

    let kept = square_offsets(r).filter(offset_in_disc(r));
    let d = kept[i];
    assert(offset_in_disc(r)(d));
    assert(0 <= d.0 * d.0 && 0 <= d.1 * d.1) by (nonlinear_arith);
    let x = clamped(px + d.0, size);
    let y = clamped(py + d.1, size);
    lemma_planar_index(size, x, y, x, y);
}

// ---- The background -----------------------------------------------------------------------------
/// Rows of sky, the last of them in the colour of the ground, in the first three of `channels`
/// planes, and `blank` in further planes.
pub open spec fn is_background<T>(
    pixels: Seq<T>,
    size: int,
    channels: int,
    sky: Seq<(T, T, T)>,
    ground: (T, T, T),
    blank: T,
) -> bool {
    &&& pixels.len() == channels * (size * size)
    &&& forall|x: int, y: int|
        0 <= x < size && 0 <= y < size ==> #[trigger] planar_at(pixels, size, size * size, x, y)
            == if y == size - 1 {
            ground
        } else {
            sky[y]
        }
    &&& forall|i: int| 3 * (size * size) <= i < pixels.len() ==> #[trigger] pixels[i] == blank
}

/// Paints rows of sky, the last of them in the colour of the ground, into the first three of
/// `channels` planes; further planes are filled with `blank`.
pub fn background<T: Copy>(
    size: usize,
    channels: usize,
    sky: &[(T, T, T)],
    ground: (T, T, T),
    blank: T,
) -> (pixels: Vec<T>)
    requires
        0 < size,
        3 <= channels,
        channels * (size * size) <= usize::MAX,
        sky.len() == size,
    ensures
        is_background(pixels@, size as int, channels as int, sky@, ground, blank),
{
    let ghost s = size as int;
    let ghost c = channels as int;
    assert(0 < s * s && 3 * (s * s) <= c * (s * s)) by (nonlinear_arith)
        requires
            0 < s,
            3 <= c,
    ;
    let n: usize = size * size;
    let total: usize = channels * n;
    let mut pixels: Vec<T> = Vec::new();
    for i in 0..total
        invariant
            s == size,
            0 < s,
            n == s * s,
            0 < n,
            total == c * (s * s),
            sky.len() == size,
            pixels.len() == i,
            forall|k: int|
                0 <= k < i ==> #[trigger] pixels[k] == background_value(
                    s,
                    sky@,
                    ground,
                    blank,
                    k,
                ),
    {
        let p: usize = i % n;
        assert(0 <= p as int / s < s) by (nonlinear_arith)
            requires
                0 <= p < s * s,
                0 < s,
        ;
        let y: usize = p / size;
        let color = if y == size - 1 {
            ground
        } else {
            sky[y]
        };
        let v = match i / n {
            0 => color.0,
            1 => color.1,
            2 => color.2,
            _ => blank,
        };
        pixels.push(v);
    }
    proof {
        assert forall|x: int, y: int| 0 <= x < size && 0 <= y < size implies #[trigger] planar_at(
            pixels@,
            s,
            s * s,
            x,
            y,
        ) == (if y == size - 1 {
            ground
        } else {
            sky[y]
        }) by {
            let p = y * s + x;
            lemma_planar_index(s, x, y, x, y);
            vstd::arithmetic::div_mod::lemma_fundamental_div_mod_converse(p, s, y, x);
            vstd::arithmetic::div_mod::lemma_fundamental_div_mod_converse(p, s * s, 0, p);
            vstd::arithmetic::div_mod::lemma_fundamental_div_mod_converse(s * s + p, s * s, 1, p);
            vstd::arithmetic::div_mod::lemma_fundamental_div_mod_converse(
                2 * (s * s) + p,
                s * s,
                2,
                p,
            );
        }
        assert forall|i: int| 3 * (s * s) <= i < pixels.len() implies #[trigger] pixels[i]
            == blank by {
            assert(i / (s * s) >= 3) by (nonlinear_arith)
                requires
                    3 * (s * s) <= i,
                    0 < s * s,
            ;
        }
    }
    pixels
}

/// Entry `i` of the background: its plane chooses the channel, its row the colour.
spec fn background_value<T>(
    size: int,
    sky: Seq<(T, T, T)>,
    ground: (T, T, T),
    blank: T,
    i: int,
) -> T {
    let n = size * size;
    let y = (i % n) / size;
    let color = if y == size - 1 {
        ground
    } else {
        sky[y]
    };
    if i / n == 0 {
        color.0
    } else if i / n == 1 {
        color.1
    } else if i / n == 2 {
        color.2
    } else {
        blank
    }
}

// ---- The clouds ---------------------------------------------------------------------------------
/// One round of the generator that places clouds.
pub open spec fn lcg(h: int) -> int {
    (h * 6364136223846793005 + 1442695040888963407) % 0x1_0000_0000_0000_0000
}

/// The state of that generator after `n` rounds from the seed of an episode at one of its steps.
pub open spec fn cloud_state(seed: int, step: int, n: nat) -> int
    decreases n,
{
    if n == 0 {
        (seed + step) % 0x1_0000_0000_0000_0000
    } else {
        lcg(cloud_state(seed, step, (n - 1) as nat))
    }
}

/// An oval cloud.
#[derive(Clone, Copy, Debug, PartialEq, Eq, Structural)]
pub struct Cloud {
    /// The column of the centre.
    pub cx: usize,
    /// The row of the centre.
    pub cy: usize,
    /// Half the width.
    pub rw: usize,
    /// Half the height.
    pub rh: usize,
}

/// `cloud` is cloud number `i`: its column comes from one round, the rest from the next. Clouds
/// keep to the upper third of the picture.
pub open spec fn is_cloud(cloud: Cloud, seed: int, step: int, size: int, i: int) -> bool {
    let first = cloud_state(seed, step, (2 * i + 1) as nat);
    let second = cloud_state(seed, step, (2 * i + 2) as nat);
    &&& cloud.cx == (first / 0x1_0000_0000) % size
    &&& cloud.cy == (second / 0x1_0000_0000) % (size / 3)
    &&& cloud.rw == 4 + (second / 0x1_0000) % 10
    &&& cloud.rh == 2 + (second / 0x100_0000_0000) % 4
}

/// One round of the generator that places clouds.
fn advance_cloud_state(h: u64) -> (next: u64)
    ensures
        next == lcg(h as int),
{
    let product: u64 = h.wrapping_mul(6364136223846793005);
    let next: u64 = product.wrapping_add(1442695040888963407);
    proof {
        let m: int = 0x1_0000_0000_0000_0000;
        let full = h * 6364136223846793005;
        assert(product == full % m);
        assert(next == (product + 1442695040888963407) % m);
        vstd::arithmetic::div_mod::lemma_add_mod_noop(full, 1442695040888963407, m);
        assert(1442695040888963407int % m == 1442695040888963407);
    }
    next
}

/// Places the three clouds of step `step` in an episode with seed `seed`.
pub fn cloud_layout(seed: u64, step: u64, size: usize) -> (clouds: Vec<Cloud>)
    requires
        3 <= size,
    ensures
        clouds.len() == 3,
        forall|i: int|
            0 <= i < 3 ==> is_cloud(#[trigger] clouds[i], seed as int, step as int, size as int, i),
{
    let mut h: u64 = seed.wrapping_add(step);
    let mut clouds: Vec<Cloud> = Vec::new();
    assert(h == cloud_state(seed as int, step as int, 0));
    for i in 0..3usize
        invariant
            3 <= size,
            clouds.len() == i,
            h == cloud_state(seed as int, step as int, (2 * i) as nat),
            forall|j: int|
                0 <= j < i ==> is_cloud(
                    #[trigger] clouds[j],
                    seed as int,
                    step as int,
                    size as int,
                    j,
                ),
    {
        let first: u64 = advance_cloud_state(h);
        let second: u64 = advance_cloud_state(first);
        proof {
            assert(first == cloud_state(seed as int, step as int, (2 * i + 1) as nat));
            assert(second == cloud_state(seed as int, step as int, (2 * i + 2) as nat));
        }
        let cloud = Cloud {
            cx: ((first / 0x1_0000_0000) % size as u64) as usize,
            cy: ((second / 0x1_0000_0000) % (size / 3) as u64) as usize,
            rw: 4 + ((second / 0x1_0000) % 10) as usize,
            rh: 2 + ((second / 0x100_0000_0000) % 4) as usize,
        };
        clouds.push(cloud);
        h = second;
    }
    clouds
}

/// Every cloud lies in the upper third and has a sensible size.
pub proof fn law_clouds_stay_up(cloud: Cloud, seed: int, step: int, size: int, i: int)
    requires
        3 <= size,
        0 <= i < 3,
        is_cloud(cloud, seed, step, size, i),
    ensures
        cloud.cx < size,
        cloud.cy < size / 3,
        4 <= cloud.rw <= 13,
        2 <= cloud.rh <= 5,
{
    let first = cloud_state(seed, step, (2 * i + 1) as nat);
    let second = cloud_state(seed, step, (2 * i + 2) as nat);
    assert((first / 0x1_0000_0000) % size < size) by (nonlinear_arith)
        requires
            3 <= size,
    ;
    assert((second / 0x1_0000_0000) % (size / 3) < size / 3) by (nonlinear_arith)
        requires
            1 <= size / 3,
    ;
}

// ---- The whole picture --------------------------------------------------------------------------
/// The radius of a mark that the ball leaves behind.
pub open spec fn trail_reach(size: int) -> int {
    vstd::math::max(size / 24, 2)
}

/// The radius of the ball.
pub open spec fn ball_reach(size: int) -> int {
    vstd::math::max(size / 8, 4)
}

/// The radius of a mark that the ball leaves behind.
pub fn trail_radius(size: usize) -> (r: usize)
    ensures
        r == trail_reach(size as int),
{
    if size / 24 > 2 {
        size / 24
    } else {
        2
    }
}

/// The radius of the ball.
pub fn ball_radius(size: usize) -> (r: usize)
    ensures
        r == ball_reach(size as int),
{
    if size / 8 > 4 {
        size / 8
    } else {
        4
    }
}

/// How long the arrow is for a given speed.
pub fn arrow_scale(size: usize) -> (n: usize)
    ensures
        n == vstd::math::min(12, size as int / 6),
{
    if size / 6 < 12 {
        size / 6
    } else {
        12
    }
}

/// Disc number `disc`, of radius `r` around `centre`, was painted.
pub open spec fn disc_painted<T, F: Fn(usize, T, usize, usize) -> T>(
    before: Seq<T>,
    after: Seq<T>,
    size: int,
    disc: usize,
    centre: (usize, usize),
    r: int,
    blend: F,
) -> bool {
    exists|spots: Seq<(usize, usize)>, states: Seq<Seq<T>>|
        {
            &&& spots_of(spots) == disc_spots(centre.0 as int, centre.1 as int, r, size)
            &&& #[trigger] blended_in_turn(
                states,
                before,
                after,
                size * size,
                disc,
                spots,
                blend,
            )
        }
}

/// `stages` starts at the background; the marks of the trail were painted in order, then the ball.
pub open spec fn painted_in_turn<T, F: Fn(usize, T, usize, usize) -> T>(
    stages: Seq<Seq<T>>,
    size: int,
    trail: Seq<(usize, usize)>,
    ball: (usize, usize),
    blend: F,
) -> bool {
    &&& stages.len() == trail.len() + 2
    &&& forall|i: int|
        #![trigger stages[i]]
        0 <= i < trail.len() ==> disc_painted(
            stages[i],
            stages[i + 1],
            size,
            i as usize,
            trail[i],
            trail_reach(size),
            blend,
        )
    &&& disc_painted(
        stages[trail.len() as int],
        stages.last(),
        size,
        trail.len() as usize,
        ball,
        ball_reach(size),
        blend,
    )
}

/// The arrow from the ball towards `tip`, which is moved into the picture.
pub open spec fn arrow_drawn<T>(
    before: Seq<T>,
    after: Seq<T>,
    size: int,
    ball: (usize, usize),
    tip: (i32, i32),
    color: (T, T, T),
) -> bool {
    let from = (ball.0 as int, ball.1 as int);
    let to = (clamped(tip.0 as int, size), clamped(tip.1 as int, size));
    planar_painted(
        before,
        after,
        size,
        size * size,
        |x: int, y: int|
            on_line(from, to, vstd::math::min(100, line_len(from, to) + 1), x, y),
        color,
    )
}

/// Paints one disc of the picture.
fn paint_disc<T: Copy, F: Fn(usize, T, usize, usize) -> T>(
    pixels: &mut Vec<T>,
    size: usize,
    disc: usize,
    centre: (usize, usize),
    radius: usize,
    blend: &F,
)
    requires
        0 < size <= i32::MAX,
        3 * (size * size) <= old(pixels).len(),
        centre.0 + radius <= i32::MAX,
        centre.1 + radius <= i32::MAX,
        2 * radius * radius <= i32::MAX,
        forall|v: T, c: usize, d: usize| c < 3 ==> #[trigger] blend.requires((disc, v, c, d)),
    ensures
        final(pixels).len() == old(pixels).len(),
        disc_painted(
            old(pixels)@,
            final(pixels)@,
            size as int,
            disc,
            centre,
            radius as int,
            *blend,
        ),
{
    let spots = ball_spots(centre.0, centre.1, radius, size);
    proof {
        assert forall|i: int| 0 <= i < spots.len() implies (#[trigger] spots[i]).0 < size * size by {
            assert(spots_of(spots@)[i] == (spots[i].0 as int, spots[i].1 as int));
            law_ball_stays_in_plane(
                centre.0 as int,
                centre.1 as int,
                radius as int,
                size as int,
                i,
            );
        }
    }
    blend_spots(pixels, size * size, disc, spots.as_slice(), blend);
}

/// Paints the picture: sky and ground, the marks of the trail from the oldest on, the ball, and an
/// arrow from the ball towards `tip` if there is one. `blend` makes a value from the number of the
/// disc, the value before, its channel and the squared distance to the centre; the ball is the
/// last disc.
#[verifier::rlimit(50)]
#[verifier::spinoff_prover]
pub fn render<T: Copy, F: Fn(usize, T, usize, usize) -> T>(
    size: usize,
    channels: usize,
    sky: &[(T, T, T)],
    ground: (T, T, T),
    blank: T,
    trail: &[(usize, usize)],
    ball: (usize, usize),
    tip: Option<(i32, i32)>,
    arrow: (T, T, T),
    blend: F,
) -> (pixels: Vec<T>)
    requires
        0 < size,
        3 * size <= i32::MAX,
        3 <= channels,
        channels * (size * size) <= usize::MAX,
        sky.len() == size,
        2 * ball_reach(size as int) * ball_reach(size as int) <= i32::MAX,
        forall|i: int|
            0 <= i < trail.len() ==> (#[trigger] trail[i]).0 <= size && trail[i].1 <= size,
        ball.0 <= size && ball.1 <= size,
        forall|i: usize, v: T, c: usize, d: usize|
            c < 3 ==> #[trigger] blend.requires((i, v, c, d)),
    ensures
        exists|stages: Seq<Seq<T>>|
            {
                &&& #[trigger] painted_in_turn(stages, size as int, trail@, ball, blend)
                &&& is_background(stages[0], size as int, channels as int, sky@, ground, blank)
                &&& match tip {
                    Some(tip) => arrow_drawn(
                        stages.last(),
                        pixels@,
                        size as int,
                        ball,
                        tip,
                        arrow,
                    ),
                    None => pixels@ == stages.last(),
                }
            },
{
    let ghost s = size as int;
    let mark: usize = trail_radius(size);
    let radius: usize = ball_radius(size);
    proof {
        let m = trail_reach(s);
        let b = ball_reach(s);
        assert(s / 24 <= s / 8);
        assert(m <= b);
        assert(2 * m * m <= 2 * b * b) by (nonlinear_arith)
            requires
                0 <= m <= b,
        ;
        assert(2 * radius * radius == 2 * b * b);
        assert(2 * mark * mark == 2 * m * m);
        assert(b <= 4 || b <= s);
        assert(3 * (s * s) <= channels * (s * s)) by (nonlinear_arith)
            requires
                3 <= channels,
        ;
    }
    let mut pixels = background(size, channels, sky, ground, blank);
    let ghost first = pixels@;
    let ghost mut stages: Seq<Seq<T>> = seq![pixels@];
    for i in 0..trail.len()
        invariant
            s == size,
            0 < size,
            3 * size <= i32::MAX,
            mark == trail_reach(s),
            2 * mark * mark <= i32::MAX,
            mark <= 4 || mark <= s,
            3 * (s * s) <= pixels.len(),
            forall|k: int|
                0 <= k < trail.len() ==> (#[trigger] trail[k]).0 <= size && trail[k].1 <= size,
            forall|k: usize, v: T, c: usize, d: usize|
                c < 3 ==> #[trigger] blend.requires((k, v, c, d)),
            stages.len() == i + 1,
            stages[0] == first,
            stages.last() == pixels@,
            forall|k: int|
                #![trigger stages[k]]
                0 <= k < i ==> disc_painted(
                    stages[k],
                    stages[k + 1],
                    s,
                    k as usize,
                    trail[k],
                    trail_reach(s),
                    blend,
                ),
    {
        let centre = trail[i];
        assert(trail[i as int].0 <= size);
        let ghost before = stages;
        paint_disc(&mut pixels, size, i, centre, mark, &blend);
        proof {
            stages = stages.push(pixels@);
            assert forall|k: int| #![trigger stages[k]] 0 <= k < i + 1 implies disc_painted(
                stages[k],
                stages[k + 1],
                s,
                k as usize,
                trail[k],
                trail_reach(s),
                blend,
            ) by {
                assert(stages[k] == before[k]);
                if k < i {
                    assert(stages[k + 1] == before[k + 1]);
                }
            }
        }
    }
    let ghost before = stages;
    paint_disc(&mut pixels, size, trail.len(), ball, radius, &blend);
    proof {
        stages = stages.push(pixels@);
        assert forall|k: int| #![trigger stages[k]] 0 <= k < trail.len() implies disc_painted(
            stages[k],
            stages[k + 1],
            s,
            k as usize,
            trail[k],
            trail_reach(s),
            blend,
        ) by {
            assert(stages[k] == before[k]);
            assert(stages[k + 1] == before[k + 1]);
        }
        assert(painted_in_turn(stages, s, trail@, ball, blend));
    }
    if let Some(tip) = tip {
        let x1: usize = clamp_to(tip.0 as i64, size);
        let y1: usize = clamp_to(tip.1 as i64, size);
        draw_line(pixels.as_mut_slice(), ball.0, ball.1, x1, y1, size, size * size, arrow);
    }
    pixels
}

/// What lies outside is moved to the nearest place inside, and what lies inside stays.
pub proof fn law_clamping_is_nearest(v: int, size: int, other: int)
    requires
        0 < size,
        0 <= other < size,
    ensures
        0 <= clamped(v, size) < size,
        vstd::math::abs(clamped(v, size) - v) <= vstd::math::abs(other - v),
        0 <= v < size ==> clamped(v, size) == v,
{
}

/// The square around a pixel is walked row by row, from its upper left corner on.
pub proof fn law_offsets_run_row_by_row(r: int, dx: int, dy: int)
    requires
        -r <= dx <= r,
        -r <= dy <= r,
    ensures
        square_offsets(r).len() == (2 * r + 1) * (2 * r + 1),
        0 <= (dy + r) * (2 * r + 1) + dx + r < square_offsets(r).len(),
        square_offsets(r)[(dy + r) * (2 * r + 1) + dx + r] == (dx, dy),
{
    let side = 2 * r + 1;
    let i = (dy + r) * side + dx + r;
    assert(0 <= i < side * side) by (nonlinear_arith)
        requires
            i == (dy + r) * side + dx + r,
            0 <= dy + r < side,
            0 <= dx + r < side,
    ;
    vstd::arithmetic::div_mod::lemma_fundamental_div_mod_converse(i, side, dy + r, dx + r);
}

/// A ball covers its disc: whatever is no further from its centre than its radius has a spot, at
/// the nearest place in the picture and with its squared distance, and there are no other spots.
pub proof fn law_ball_covers_its_disc(px: int, py: int, r: int, size: int, dx: int, dy: int, i: int)
    requires
        0 <= r,
    ensures
        dx * dx + dy * dy <= r * r ==> disc_spots(px, py, r, size).contains(
            (clamped(py + dy, size) * size + clamped(px + dx, size), dx * dx + dy * dy),
        ),
        0 <= i < disc_spots(px, py, r, size).len() ==> exists|k: int|
            {
                let (ex, ey) = #[trigger] square_offsets(r)[k];
                &&& 0 <= k < square_offsets(r).len()
                &&& ex * ex + ey * ey <= r * r
                &&& disc_spots(px, py, r, size)[i] == (
                    clamped(py + ey, size) * size + clamped(px + ex, size),
                    ex * ex + ey * ey,
                )
            },
{
    let all = square_offsets(r);
    let pred = offset_in_disc(r);
    let kept = all.filter(pred);
    let spots = disc_spots(px, py, r, size);
    broadcast use vstd::seq_lib::group_filter_ensures;

    if dx * dx + dy * dy <= r * r {
        lemma_disc_bound(dx, dy, r);
        law_offsets_run_row_by_row(r, dx, dy);
        let at = (dy + r) * (2 * r + 1) + dx + r;
        assert(pred(all[at]));
        assert(kept.contains(all[at]));
        let k = choose|k: int| 0 <= k < kept.len() && kept[k] == all[at];
        assert(kept[k] == (dx, dy));
        assert(spots[k] == disc_spot(px, py, size, (dx, dy)));
    }
    if 0 <= i < spots.len() {
        let d = kept[i];
        assert(pred(d));
        assert(spots[i] == disc_spot(px, py, size, d));
        lemma_kept_are_listed(all, pred, i);
        let k = choose|k: int| 0 <= k < all.len() && all[k] == d;
        assert(square_offsets(r)[k] == d);
    }
}

/// What a filter keeps was there before.
proof fn lemma_kept_are_listed(
    all: Seq<(int, int)>,
    pred: spec_fn((int, int)) -> bool,
    i: int,
)
    requires
        0 <= i < all.filter(pred).len(),
    ensures
        exists|k: int| 0 <= k < all.len() && all[k] == all.filter(pred)[i],
    decreases all.len(),
{
    reveal(Seq::filter);
    if all.len() > 0 {
        let fewer = all.drop_last().filter(pred);
        if i < fewer.len() {
            lemma_kept_are_listed(all.drop_last(), pred, i);
            let k = choose|k: int| 0 <= k < all.len() - 1 && all.drop_last()[k] == fewer[i];
            assert(all[k] == all.filter(pred)[i]);
        } else {
            assert(all[all.len() - 1] == all.filter(pred)[i]);
        }
    }
}

/// A spot changes one pixel, in its three planes, each by what is blended for that channel.
pub proof fn law_blends_touch_one_pixel<T, F: Fn(usize, T, usize, usize) -> T>(
    before: Seq<T>,
    after: Seq<T>,
    n: int,
    disc: usize,
    spot: (usize, usize),
    blend: F,
    i: int,
)
    requires
        blended(before, after, n, disc, spot, blend),
        spot.0 < n,
        3 * n <= before.len(),
        0 <= i < before.len(),
    ensures
        after.len() == before.len(),
        i != spot.0 && i != n + spot.0 && i != 2 * n + spot.0 ==> after[i] == before[i],
        i == spot.0 ==> blend.ensures((disc, before[i], 0usize, spot.1), after[i]),
        i == n + spot.0 ==> blend.ensures((disc, before[i], 1usize, spot.1), after[i]),
        i == 2 * n + spot.0 ==> blend.ensures((disc, before[i], 2usize, spot.1), after[i]),
{
}

/// Rows of sky, and ground in the last one, laid out in three planes, with blank planes after them.
pub proof fn law_background_ends_in_ground<T>(
    pixels: Seq<T>,
    size: int,
    channels: int,
    sky: Seq<(T, T, T)>,
    ground: (T, T, T),
    blank: T,
    x: int,
    y: int,
    i: int,
)
    requires
        is_background(pixels, size, channels, sky, ground, blank),
        0 <= x < size,
        0 <= y < size,
    ensures
        ({
            let n = size * size;
            let color = if y + 1 == size {
                ground
            } else {
                sky[y]
            };
            &&& pixels[y * size + x] == color.0
            &&& pixels[n + y * size + x] == color.1
            &&& pixels[2 * n + y * size + x] == color.2
            &&& 3 * n <= i < channels * n ==> pixels[i] == blank
        }),
{
    assert(planar_at(pixels, size, size * size, x, y) == planar_at(pixels, size, size * size, x, y));
}

/// What is painted in planes has its colour in the region, one channel in each plane, and nothing
/// else changes.
pub proof fn law_planes_are_painted_alike<T>(
    before: Seq<T>,
    after: Seq<T>,
    size: int,
    n: int,
    region: spec_fn(int, int) -> bool,
    color: (T, T, T),
    x: int,
    y: int,
)
    requires
        planar_painted(before, after, size, n, region, color),
        0 <= x < size,
        0 <= y < size,
    ensures
        after.len() == before.len(),
        region(x, y) ==> after[y * size + x] == color.0 && after[n + y * size + x] == color.1
            && after[2 * n + y * size + x] == color.2,
        !region(x, y) ==> after[y * size + x] == before[y * size + x] && after[n + y * size + x]
            == before[n + y * size + x] && after[2 * n + y * size + x] == before[2 * n + y * size
            + x],
{
    assert(planar_at(after, size, n, x, y) == planar_at(after, size, n, x, y));
}

/// An arrow starts at the ball and ends at its tip, or at the nearest place in the picture, unless
/// that is a hundred pixels away or more.
pub proof fn law_arrow_points_at_its_tip<T>(
    before: Seq<T>,
    after: Seq<T>,
    size: int,
    ball: (usize, usize),
    tip: (i32, i32),
    color: (T, T, T),
)
    requires
        arrow_drawn(before, after, size, ball, tip, color),
        ball.0 < size,
        ball.1 < size,
    ensures
        after[ball.1 * size + ball.0] == color.0,
        after[size * size + ball.1 * size + ball.0] == color.1,
        after[2 * (size * size) + ball.1 * size + ball.0] == color.2,
        0 <= tip.0 < size && 0 <= tip.1 < size && vstd::math::abs(tip.0 - ball.0) < 100
            && vstd::math::abs(tip.1 - ball.1) < 100 ==> after[tip.1 * size + tip.0] == color.0,
{
    let from = (ball.0 as int, ball.1 as int);
    let to = (clamped(tip.0 as int, size), clamped(tip.1 as int, size));
    let len = line_len(from, to);
    let count = vstd::math::min(100, len + 1);
    lemma_line_ends(from, to, false);
    assert(on_line(from, to, count, from.0, from.1));
    let region = |x: int, y: int| on_line(from, to, count, x, y);
    law_planes_are_painted_alike(before, after, size, size * size, region, color, from.0, from.1);
    if 0 <= tip.0 < size && 0 <= tip.1 < size && len < 100 {
        assert(on_line(from, to, count, to.0, to.1));
        law_planes_are_painted_alike(before, after, size, size * size, region, color, to.0, to.1);
    }
}

/// The radii are an eighth and a twenty-fourth of the side, but never less than four and two
/// pixels.
pub proof fn law_radii_follow_the_size(size: int)
    requires
        0 <= size,
    ensures
        size >= 32 ==> 8 * ball_reach(size) <= size < 8 * ball_reach(size) + 8,
        size < 32 ==> ball_reach(size) == 4,
        size >= 48 ==> 24 * trail_reach(size) <= size < 24 * trail_reach(size) + 24,
        size < 48 ==> trail_reach(size) == 2,
{
}

/// Clouds drift: what is seen depends on seed and step by their sum only.
pub proof fn law_clouds_drift(seed: int, step: int, size: int, i: int, cloud: Cloud)
    requires
        0 <= i < 3,
    ensures
        is_cloud(cloud, seed + 1, step, size, i) <==> is_cloud(cloud, seed, step + 1, size, i),
{
    lemma_clouds_by_sum(seed + 1, step, seed, step + 1, (2 * i + 1) as nat);
    lemma_clouds_by_sum(seed + 1, step, seed, step + 1, (2 * i + 2) as nat);
}

/// Each cloud is read from two states of its own, by remainders: its column from the upper half of
/// the first, its row, width and height from parts of the second.
pub proof fn law_clouds_are_read_from_states(
    seed: int,
    step: int,
    size: int,
    i: int,
    cloud: Cloud,
)
    requires
        0 <= i < 3,
        3 <= size,
        is_cloud(cloud, seed, step, size, i),
    ensures
        ({
            let first = cloud_state(seed, step, (2 * i + 1) as nat);
            let second = cloud_state(seed, step, (2 * i + 2) as nat);
            &&& (first / 0x1_0000_0000 - cloud.cx) % size == 0
            &&& (second / 0x1_0000_0000 - cloud.cy) % (size / 3) == 0
            &&& (second / 0x1_0000 + 4 - cloud.rw) % 10 == 0
            &&& (second / 0x100_0000_0000 + 2 - cloud.rh) % 4 == 0
            &&& second == lcg(first)
        }),
{
    let first = cloud_state(seed, step, (2 * i + 1) as nat);
    let second = cloud_state(seed, step, (2 * i + 2) as nat);
    lemma_same_rest(first / 0x1_0000_0000, size);
    lemma_same_rest(second / 0x1_0000_0000, size / 3);
    lemma_same_rest(second / 0x1_0000, 10);
    lemma_same_rest(second / 0x100_0000_0000, 4);
}

/// States of clouds are the numbers of a congruential generator: the step between the images of
/// neighbours is always the same.
pub proof fn law_cloud_states_are_congruential(h: int)
    ensures
        lcg(0) == 1442695040888963407,
        (lcg(h + 1) - lcg(h) - 6364136223846793005) % 0x1_0000_0000_0000_0000 == 0,
        0 <= lcg(h) < 0x1_0000_0000_0000_0000,
{
    let m: int = 0x1_0000_0000_0000_0000;
    let a = h * 6364136223846793005 + 1442695040888963407;
    let b = a + 6364136223846793005;
    assert(lcg(h) == a % m && lcg(h + 1) == b % m);
    vstd::arithmetic::div_mod::lemma_fundamental_div_mod(a, m);
    vstd::arithmetic::div_mod::lemma_fundamental_div_mod(b, m);
    vstd::arithmetic::div_mod::lemma_mod_multiples_basic(a / m - b / m, m);
    assert(b % m - a % m - 6364136223846793005 == (a / m - b / m) * m);
}

/// What is left of a number after its remainder was taken off is a multiple.
proof fn lemma_same_rest(a: int, m: int)
    requires
        0 < m,
    ensures
        (a - a % m) % m == 0,
{
    vstd::arithmetic::div_mod::lemma_fundamental_div_mod(a, m);
    vstd::arithmetic::div_mod::lemma_mod_multiples_basic(a / m, m);
    assert(a - a % m == (a / m) * m) by (nonlinear_arith)
        requires
            a == m * (a / m) + a % m,
    ;
}

/// Only the sum of seed and step matters.
proof fn lemma_clouds_by_sum(seed: int, step: int, other: int, later: int, n: nat)
    requires
        seed + step == other + later,
    ensures
        cloud_state(seed, step, n) == cloud_state(other, later, n),
    decreases n,
{
    if n > 0 {
        lemma_clouds_by_sum(seed, step, other, later, (n - 1) as nat);
    }
}

/// Trail and ball are painted in turn: the trail from its oldest place on, each with its own number
/// and the small radius, and the ball over it, with the next number and the large one.
pub proof fn law_ball_is_painted_last<T, F: Fn(usize, T, usize, usize) -> T>(
    stages: Seq<Seq<T>>,
    size: int,
    trail: Seq<(usize, usize)>,
    ball: (usize, usize),
    blend: F,
    i: int,
)
    requires
        painted_in_turn(stages, size, trail, ball, blend),
        48 <= size,
        0 <= i <= trail.len() <= usize::MAX,
    ensures
        stages.len() == trail.len() + 2,
        i < trail.len() ==> exists|r: int|
            {
                &&& #[trigger] disc_painted(
                    stages[i],
                    stages[i + 1],
                    size,
                    i as usize,
                    trail[i],
                    r,
                    blend,
                )
                &&& 24 * r <= size < 24 * r + 24
            },
        exists|r: int|
            {
                &&& #[trigger] disc_painted(
                    stages[trail.len() as int],
                    stages.last(),
                    size,
                    trail.len() as usize,
                    ball,
                    r,
                    blend,
                )
                &&& 8 * r <= size < 8 * r + 8
            },
{
    law_radii_follow_the_size(size);
    if i < trail.len() {
        assert(stages[i] == stages[i]);
        assert(disc_painted(
            stages[i],
            stages[i + 1],
            size,
            i as usize,
            trail[i],
            trail_reach(size),
            blend,
        ));
    }
    assert(disc_painted(
        stages[trail.len() as int],
        stages.last(),
        size,
        trail.len() as usize,
        ball,
        ball_reach(size),
        blend,
    ));
}

/// Spots are blended in turn: the first into the picture as it was, and the rest into what that
/// left.
pub proof fn law_spots_are_blended_in_turn<T, F: Fn(usize, T, usize, usize) -> T>(
    states: Seq<Seq<T>>,
    before: Seq<T>,
    after: Seq<T>,
    n: int,
    disc: usize,
    spots: Seq<(usize, usize)>,
    blend: F,
)
    requires
        blended_in_turn(states, before, after, n, disc, spots, blend),
    ensures
        spots.len() == 0 ==> after == before,
        spots.len() > 0 ==> blended(before, states[1], n, disc, spots[0], blend) && blended_in_turn(
            states.drop_first(),
            states[1],
            after,
            n,
            disc,
            spots.drop_first(),
            blend,
        ),
{
    if spots.len() > 0 {
        assert(spots[0] == spots[0]);
        let rest = spots.drop_first();
        let late = states.drop_first();
        assert forall|i: int|
            #![trigger rest[i]]
            0 <= i < rest.len() implies blended(late[i], late[i + 1], n, disc, rest[i], blend) by {
            assert(rest[i] == spots[i + 1]);
        }
    }
}

/// A disc paints the spots that it covers, with their squared distances and in their order.
pub proof fn law_discs_paint_their_spots<T, F: Fn(usize, T, usize, usize) -> T>(
    before: Seq<T>,
    after: Seq<T>,
    size: int,
    disc: usize,
    centre: (usize, usize),
    r: int,
    blend: F,
)
    requires
        disc_painted(before, after, size, disc, centre, r, blend),
    ensures
        exists|spots: Seq<(usize, usize)>, states: Seq<Seq<T>>|
            {
                &&& #[trigger] blended_in_turn(
                    states,
                    before,
                    after,
                    size * size,
                    disc,
                    spots,
                    blend,
                )
                &&& spots.len() == disc_spots(centre.0 as int, centre.1 as int, r, size).len()
                &&& forall|i: int|
                    0 <= i < spots.len() ==> (#[trigger] spots[i]).0 == disc_spots(
                        centre.0 as int,
                        centre.1 as int,
                        r,
                        size,
                    )[i].0 && spots[i].1 == disc_spots(
                        centre.0 as int,
                        centre.1 as int,
                        r,
                        size,
                    )[i].1
            },
{
    let (spots, states) = choose|spots: Seq<(usize, usize)>, states: Seq<Seq<T>>|
        {
            &&& spots_of(spots) == disc_spots(centre.0 as int, centre.1 as int, r, size)
            &&& #[trigger] blended_in_turn(states, before, after, size * size, disc, spots, blend)
        };
    assert forall|i: int| 0 <= i < spots.len() implies (#[trigger] spots[i]).0 == disc_spots(
        centre.0 as int,
        centre.1 as int,
        r,
        size,
    )[i].0 && spots[i].1 == disc_spots(centre.0 as int, centre.1 as int, r, size)[i].1 by {
        assert(spots_of(spots)[i] == (spots[i].0 as int, spots[i].1 as int));
    }
    assert(blended_in_turn(states, before, after, size * size, disc, spots, blend));
}

} // verus!
