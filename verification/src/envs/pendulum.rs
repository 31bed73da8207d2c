//! The picture of a swinging pendulum.
use crate::canvas::Color;
use crate::layout::deinterleave;
use crate::layout::interleaved;
use crate::layout::planes;
use crate::layout::scan;
use crate::raster::draw_circle;
use crate::raster::draw_line;
use crate::raster::in_disc;
use crate::raster::law_strokes_follow_the_line;
use crate::raster::line_at;
use crate::raster::line_len;
use crate::raster::near_line;
use crate::raster::rgb_at;
use vstd::prelude::*;

verus! {

/// A grey pivot over a red bob over a white rod on black.
pub open spec fn pendulum_color(pivot: (int, int), bob: (int, int), x: int, y: int) -> Color {
    if in_disc(pivot.0, pivot.1, 2, x, y) {
        (200, 200, 200)
    } else if in_disc(bob.0, bob.1, 4, x, y) {
        (255, 100, 100)
    } else if near_line(pivot, bob, 1, line_len(pivot, bob) + 1, x, y) {
        (255, 255, 255)
    } else {
        (0, 0, 0)
    }
}

/// Paints a pendulum that hangs at `(px, py)` with its bob at `(bx, by)` on a square of `size`
/// pixels a side, plane after plane.
pub fn render(size: u32, px: i32, py: i32, bx: i32, by: i32) -> (frame: Vec<u8>)
    requires
        3 * size * size <= u32::MAX,
        3 * line_len((px as int, py as int), (bx as int, by as int)) <= i32::MAX,
        i32::MIN <= px - 2 && px + 2 <= i32::MAX,
        i32::MIN <= py - 2 && py + 2 <= i32::MAX,
        i32::MIN <= bx - 4 && bx + 4 <= i32::MAX,
        i32::MIN <= by - 4 && by + 4 <= i32::MAX,
    ensures
        frame@ == planes(
            scan(
                size as int,
                size as int,
                |x: int, y: int|
                    pendulum_color((px as int, py as int), (bx as int, by as int), x, y),
            ),
        ),
{
    let ghost w = size as int;
    let ghost pivot = (px as int, py as int);
    let ghost bob = (bx as int, by as int);
    proof {
        assert(size * size <= 3 * size * size && 3 * (size * size) == 3 * size * size)
            by (nonlinear_arith);
    }
    let n: usize = (size * size) as usize;
    let mut buf: Vec<u8> = Vec::new();
    for i in 0..3 * n
        invariant
            buf.len() == i,
            forall|j: int| 0 <= j < i ==> #[trigger] buf[j] == 0,
    {
        buf.push(0);
    }
    let ghost blank = buf@;
    draw_line(buf.as_mut_slice(), size, size, px, py, bx, by, 1, (255, 255, 255));
    draw_circle(buf.as_mut_slice(), size, size, bx, by, 4, (255, 100, 100));
    draw_circle(buf.as_mut_slice(), size, size, px, py, 2, (200, 200, 200));
    proof {
        let f = |x: int, y: int| pendulum_color(pivot, bob, x, y);
        assert forall|p: int| 0 <= p < n implies interleaved(buf@, n as nat)[p] == scan(w, w, f)[p] by {
            let x = p % w;
            let y = p / w;
            assert(0 <= x < w && 0 <= y < w && y * w + x == p) by (nonlinear_arith)
                requires
                    w > 0,
                    0 <= p < w * w,
                    x == p % w,
                    y == p / w,
            ;
            assert(rgb_at(buf@, w, x, y) == pendulum_color(pivot, bob, x, y)) by {
                assert(rgb_at(blank, w, x, y) == (0u8, 0u8, 0u8));
            }
        }
        assert(interleaved(buf@, n as nat) =~= scan(w, w, f));
    }
    deinterleave(buf.as_slice(), n)
}

/// The pivot hides the bob and the bob hides the rod: who is within two pixels of the pivot is
/// light grey, who is not but within four of the bob is red, and only then the rod shows, white,
/// where it passes within one pixel, on black.
pub proof fn law_pendulum_hides_its_rod(pivot: (int, int), bob: (int, int), t: int, x: int, y: int)
    requires
        0 <= t <= line_len(pivot, bob),
    ensures
        ({
            let color = pendulum_color(pivot, bob, x, y);
            let to_pivot = (x - pivot.0) * (x - pivot.0) + (y - pivot.1) * (y - pivot.1);
            let to_bob = (x - bob.0) * (x - bob.0) + (y - bob.1) * (y - bob.1);
            let rod = line_at(pivot, bob, true, t);
            let at_rod = -1 <= x - rod.0 <= 1 && -1 <= y - rod.1 <= 1;
            &&& to_pivot <= 4 ==> color == (200u8, 200u8, 200u8)
            &&& to_pivot > 4 && to_bob <= 16 ==> color == (255u8, 100u8, 100u8)
            &&& to_pivot > 4 && to_bob > 16 && at_rod ==> color == (255u8, 255u8, 255u8)
            &&& to_pivot > 4 && to_bob > 16 && color != (0u8, 0u8, 0u8) ==> color == (
                255u8,
                255u8,
                255u8,
            ) && exists|s: int|
                {
                    let near = #[trigger] line_at(pivot, bob, true, s);
                    &&& 0 <= s <= line_len(pivot, bob)
                    &&& -1 <= x - near.0 <= 1
                    &&& -1 <= y - near.1 <= 1
                }
        }),
{
    law_strokes_follow_the_line(pivot, bob, 1, t, x, y);
}

} // verus!
