//! The sizes of layers and of what passes through them.
use vstd::prelude::*;

verus! {

/// A fully connected layer.
#[derive(Debug, Clone, Copy, PartialEq, Eq, Structural)]
pub struct LinearPlan {
    /// The length of an input row.
    pub input: usize,
    /// The length of an output row.
    pub output: usize,
}

/// A convolution with a square kernel.
#[derive(Debug, Clone, Copy, PartialEq, Eq, Structural)]
pub struct ConvPlan {
    /// Input channels.
    pub input: usize,
    /// Output channels.
    pub output: usize,
    /// The side of the kernel.
    pub kernel: usize,
    /// The step from one output to the next.
    pub stride: usize,
    /// Zeros around the input.
    pub padding: usize,
}

impl ConvPlan {
    /// The side of the output for inputs of side `n`: how often the kernel fits.
    pub open spec fn side(self, n: int) -> int {
        (n + 2 * self.padding - self.kernel) / self.stride as int + 1
    }
}

/// A transposed convolution with a square kernel.
#[derive(Debug, Clone, Copy, PartialEq, Eq, Structural)]
pub struct DeconvPlan {
    /// Input channels.
    pub input: usize,
    /// Output channels.
    pub output: usize,
    /// The side of the kernel.
    pub kernel: usize,
    /// The step from one output to the next.
    pub stride: usize,
    /// Rows and columns cut off at each edge.
    pub padding: usize,
}

impl DeconvPlan {
    /// The side of the output for inputs of side `n`.
    pub open spec fn side(self, n: int) -> int {
        (n - 1) * self.stride - 2 * self.padding + self.kernel
    }
}

/// A convolution that halves the side of its input.
pub open spec fn halving(input: usize, output: usize) -> ConvPlan {
    ConvPlan { input, output, kernel: 4, stride: 2, padding: 1 }
}

/// A convolution that keeps the side of its input.
pub open spec fn keeping(input: usize, output: usize) -> ConvPlan {
    ConvPlan { input, output, kernel: 3, stride: 1, padding: 1 }
}

/// A transposed convolution that doubles the side of its input.
pub open spec fn doubling(input: usize, output: usize) -> DeconvPlan {
    DeconvPlan { input, output, kernel: 4, stride: 2, padding: 1 }
}

/// A convolution that halves the side of its input.
pub fn halve(input: usize, output: usize) -> (conv: ConvPlan)
    ensures
        conv == halving(input, output),
{
    ConvPlan { input, output, kernel: 4, stride: 2, padding: 1 }
}

/// A convolution that keeps the side of its input.
pub fn keep(input: usize, output: usize) -> (conv: ConvPlan)
    ensures
        conv == keeping(input, output),
{
    ConvPlan { input, output, kernel: 3, stride: 1, padding: 1 }
}

/// A transposed convolution that doubles the side of its input.
pub fn double(input: usize, output: usize) -> (deconv: DeconvPlan)
    ensures
        deconv == doubling(input, output),
{
    DeconvPlan { input, output, kernel: 4, stride: 2, padding: 1 }
}

/// Halving, keeping and doubling do what they are called for.
pub proof fn law_sides(input: usize, output: usize, n: int)
    requires
        1 <= n,
    ensures
        halving(input, output).side(n) == n / 2,
        keeping(input, output).side(n) == n,
        doubling(input, output).side(n) == 2 * n,
{
}

/// Images: number, channels, height, width.
pub type Images = (usize, usize, usize, usize);

/// A place on a grid along one axis: `at` out of the places `0..=last`.
#[derive(Debug, Clone, Copy, PartialEq, Eq, Structural)]
pub struct GridCoord {
    /// The place.
    pub at: usize,
    /// The last place.
    pub last: usize,
}

impl GridCoord {
    /// The place scaled to run from minus one to one, as a fraction over `last`.
    pub open spec fn centred(self) -> int {
        2 * self.at - self.last
    }
}

/// Place number `p` of a grid of `h` rows and `w` columns, row after row: column first, then row.
pub open spec fn place_at(h: int, w: int, p: int) -> (GridCoord, GridCoord) {
    (
        GridCoord { at: (p % w) as usize, last: (w - 1) as usize },
        GridCoord { at: (p / w) as usize, last: (h - 1) as usize },
    )
}

/// The places of a grid of `h` rows and `w` columns, row after row: column first, then row.
pub fn coord_grid(h: usize, w: usize) -> (grid: Vec<(GridCoord, GridCoord)>)
    requires
        h * w <= usize::MAX,
    ensures
        grid.len() == h * w,
        forall|p: int|
            0 <= p < grid.len() ==> #[trigger] grid[p] == place_at(h as int, w as int, p),
{
    let mut grid: Vec<(GridCoord, GridCoord)> = Vec::new();
    let n: usize = h * w;
    for p in 0..n
        invariant
            n == h * w,
            grid.len() == p,
            forall|q: int|
                0 <= q < p ==> #[trigger] grid[q] == place_at(h as int, w as int, q),
    {
        assert(w > 0 && h > 0) by (nonlinear_arith)
            requires
                0 <= p < h * w,
                0 <= h,
                0 <= w,
        ;
        grid.push(
            (GridCoord { at: p % w, last: w - 1 }, GridCoord { at: p / w, last: h - 1 }),
        );
    }
    grid
}

/// Every place of a grid lies within it, so scaled places lie between minus one and one.
pub proof fn law_coords_in_range(h: int, w: int, p: int)
    requires
        0 <= p < h * w,
        0 < h <= usize::MAX,
        0 < w <= usize::MAX,
    ensures
        place_at(h, w, p).0.at <= place_at(h, w, p).0.last,
        place_at(h, w, p).1.at <= place_at(h, w, p).1.last,
        -(w - 1) <= place_at(h, w, p).0.centred() <= w - 1,
        -(h - 1) <= place_at(h, w, p).1.centred() <= h - 1,
{
    assert(0 <= p % w <= w - 1 && 0 <= p / w <= h - 1) by (nonlinear_arith)
        requires
            0 <= p < h * w,
            0 < h,
            0 < w,
    ;
}

/// Places run row after row, and a place and its mirror image are equally far from the middle, on
/// opposite sides.
pub proof fn law_coords_run_row_after_row(h: int, w: int, x: int, y: int)
    requires
        0 <= x < w <= usize::MAX,
        0 <= y < h <= usize::MAX,
    ensures
        ({
            let at = place_at(h, w, y * w + x);
            let mirrored = place_at(h, w, (h - 1 - y) * w + (w - 1 - x));
            &&& at.0.at == x && at.0.last == w - 1
            &&& at.1.at == y && at.1.last == h - 1
            &&& at.0.centred() == -mirrored.0.centred()
            &&& at.1.centred() == -mirrored.1.centred()
            &&& at.0.centred() == 2 * x - (w - 1)
            &&& at.1.centred() == 2 * y - (h - 1)
        }),
{
    vstd::arithmetic::div_mod::lemma_fundamental_div_mod_converse(y * w + x, w, y, x);
    vstd::arithmetic::div_mod::lemma_fundamental_div_mod_converse(
        (h - 1 - y) * w + (w - 1 - x),
        w,
        h - 1 - y,
        w - 1 - x,
    );
}

} // verus!
