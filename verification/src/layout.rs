//! How pictures are laid out as flat buffers.
use crate::canvas::Color;
use vstd::prelude::*;

verus! {

/// The colours of a `w` by `h` picture row after row, where `f` gives the colour at a column and
/// a row.
pub open spec fn scan(w: int, h: int, f: spec_fn(int, int) -> Color) -> Seq<Color> {
    Seq::new((w * h) as nat, |p: int| f(p % w, p / w))
}

/// All reds, then all greens, then all blues.
pub open spec fn planes(pixels: Seq<Color>) -> Seq<u8> {
    pixels.map_values(|color: Color| color.0) + pixels.map_values(|color: Color| color.1)
        + pixels.map_values(|color: Color| color.2)
}

/// The colours in a buffer that holds three bytes for each pixel.
pub open spec fn interleaved(buf: Seq<u8>, n: nat) -> Seq<Color> {
    Seq::new(n, |p: int| (buf[3 * p], buf[3 * p + 1], buf[3 * p + 2]))
}

/// The channel `c` of a colour.
pub open spec fn channel(color: Color, c: int) -> u8 {
    if c == 0 {
        color.0
    } else if c == 1 {
        color.1
    } else {
        color.2
    }
}

/// Plane `c` starts at `c` times the number of pixels, and keeps the order of the pixels.
pub proof fn law_plane_offsets(pixels: Seq<Color>, c: int, p: int)
    requires
        0 <= c < 3,
        0 <= p < pixels.len(),
    ensures
        planes(pixels).len() == 3 * pixels.len(),
        0 <= c * pixels.len() + p < planes(pixels).len(),
        planes(pixels)[c * pixels.len() + p] == channel(pixels[p], c),
{
    if c == 0 {
    } else if c == 1 {
    } else {
        assert(c == 2);
    }
}

/// The planes determine the picture: nothing is lost.
pub proof fn law_planes_keep_pixels(a: Seq<Color>, b: Seq<Color>)
    requires
        planes(a) == planes(b),
    ensures
        a == b,
{
    let n = a.len() as int;
    assert(planes(a).len() == 3 * a.len());
    assert(planes(b).len() == 3 * b.len());
    assert forall|p: int| 0 <= p < n implies a[p] == b[p] by {
        law_plane_offsets(a, 0, p);
        law_plane_offsets(b, 0, p);
        law_plane_offsets(a, 1, p);
        law_plane_offsets(b, 1, p);
        law_plane_offsets(a, 2, p);
        law_plane_offsets(b, 2, p);
    }
    assert(a =~= b);
}

/// Splits colours into three planes.
pub fn to_planes(pixels: &[Color]) -> (out: Vec<u8>)
    requires
        3 * pixels.len() <= usize::MAX,
    ensures
        out@ == planes(pixels@),
{
    let mut out: Vec<u8> = Vec::new();
    for p in 0..pixels.len()
        invariant
            out@ =~= pixels@.map_values(|color: Color| color.0).take(p as int),
    {
        out.push(pixels[p].0);
    }
    let ghost red = out@;
    assert(red =~= pixels@.map_values(|color: Color| color.0));
    for p in 0..pixels.len()
        invariant
            out@ =~= red + pixels@.map_values(|color: Color| color.1).take(p as int),
    {
        out.push(pixels[p].1);
    }
    let ghost red_green = out@;
    assert(red_green =~= red + pixels@.map_values(|color: Color| color.1));
    for p in 0..pixels.len()
        invariant
            out@ =~= red_green + pixels@.map_values(|color: Color| color.2).take(p as int),
    {
        out.push(pixels[p].2);
    }
    assert(out@ =~= planes(pixels@));
    out
}

/// Splits a buffer with three bytes for each of `n` pixels into three planes.
pub fn deinterleave(buf: &[u8], n: usize) -> (out: Vec<u8>)
    requires
        3 * n <= buf.len(),
    ensures
        out@ == planes(interleaved(buf@, n as nat)),
{
    let mut pixels: Vec<Color> = Vec::new();
    for p in 0..n
        invariant
            3 * n <= buf.len(),
            pixels@ =~= interleaved(buf@, n as nat).take(p as int),
    {
        pixels.push((buf[3 * p], buf[3 * p + 1], buf[3 * p + 2]));
    }
    assert(pixels@ =~= interleaved(buf@, n as nat));
    to_planes(pixels.as_slice())
}

/// What comes pixel by pixel and is laid out in planes keeps every byte: byte `c` of pixel `p` goes
/// to place `p` of plane `c`.
pub proof fn law_deinterleaving_moves_bytes(buf: Seq<u8>, n: nat, c: int, p: int)
    requires
        0 <= c < 3,
        0 <= p < n,
    ensures
        planes(interleaved(buf, n)).len() == 3 * n,
        planes(interleaved(buf, n))[c * n + p] == buf[3 * p + c],
{
    law_plane_offsets(interleaved(buf, n), c, p);
}

/// A picture is scanned row by row, from left to right.
pub proof fn law_scan_runs_row_by_row(w: int, h: int, f: spec_fn(int, int) -> Color, x: int, y: int)
    requires
        0 <= x < w,
        0 <= y < h,
    ensures
        scan(w, h, f).len() == w * h,
        0 <= y * w + x < w * h,
        scan(w, h, f)[y * w + x] == f(x, y),
        x + 1 < w ==> scan(w, h, f)[y * w + x + 1] == f(x + 1, y),
        y + 1 < h ==> scan(w, h, f)[y * w + x + w] == f(x, y + 1),
{
    assert(0 <= y * w && (y + 1) * w == y * w + w && (y + 1) * w <= h * w && h * w == w * h)
        by (nonlinear_arith)
        requires
            0 <= y < h,
            0 < w,
    ;
    vstd::arithmetic::div_mod::lemma_fundamental_div_mod_converse(y * w + x, w, y, x);
    if x + 1 < w {
        vstd::arithmetic::div_mod::lemma_fundamental_div_mod_converse(y * w + x + 1, w, y, x + 1);
    }
    if y + 1 < h {
        assert((y + 2) * w == y * w + 2 * w && (y + 2) * w <= h * w) by (nonlinear_arith)
            requires
                y + 2 <= h,
                0 < w,
        ;
        vstd::arithmetic::div_mod::lemma_fundamental_div_mod_converse(y * w + x + w, w, y + 1, x);
    }
}

} // verus!
