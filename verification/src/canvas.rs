//! RGB pictures on top of the `image` crate's pixel buffer.
use crate::layout::law_plane_offsets;
use crate::layout::planes;
use crate::layout::scan;
use crate::layout::to_planes;
use crate::raster::in_disc;
use crate::raster::lemma_disc_box;
use crate::raster::lemma_square_bound;
use vstd::prelude::*;

verus! {

/// Red, green and blue.
pub type Color = (u8, u8, u8);

/// The pixel buffer of an RGB picture.
#[verifier::external_body]
pub struct Canvas {
    image: image::RgbImage,
}

/// The pixels that a canvas holds, by column and row.
pub uninterp spec fn canvas_pixels(canvas: Canvas) -> Map<(int, int), (u8, u8, u8)>;

/// The positions of a `width` by `height` picture.
pub open spec fn positions(width: int, height: int) -> Set<(int, int)> {
    Set::new(|at: (int, int)| 0 <= at.0 < width && 0 <= at.1 < height)
}

/// `image::RgbImage::new`: a buffer whose pixels are exactly the positions of a `width` by
/// `height` picture, all of them black. It panics where the bytes of a row, or of the
/// whole picture, could not be counted.
#[verifier::external_body]
fn canvas_new(width: u32, height: u32) -> (canvas: Canvas)
    requires
        3 * width <= usize::MAX,
        3 * width * height <= isize::MAX,
    ensures
        canvas_pixels(canvas) == Map::new(
            |at: (int, int)| 0 <= at.0 < width && 0 <= at.1 < height,
            |at: (int, int)| (0u8, 0u8, 0u8),
        ),
{
    Canvas { image: image::RgbImage::new(width, height) }
}

/// `image::RgbImage::put_pixel`: replaces the pixel in column `x` of row `y` and no other. It
/// panics where the buffer has no such pixel.
#[verifier::external_body]
fn canvas_put(canvas: &mut Canvas, x: u32, y: u32, color: (u8, u8, u8))
    requires
        canvas_pixels(*old(canvas)).dom().contains((x as int, y as int)),
    ensures
        canvas_pixels(*final(canvas)) == canvas_pixels(*old(canvas)).insert(
            (x as int, y as int),
            color,
        ),
{
    canvas.image.put_pixel(x, y, image::Rgb([color.0, color.1, color.2]));
}

/// `image::RgbImage::get_pixel`: the pixel in column `x` of row `y`. It panics where the buffer
/// has no such pixel.
#[verifier::external_body]
fn canvas_get(canvas: &Canvas, x: u32, y: u32) -> (color: (u8, u8, u8))
    requires
        canvas_pixels(*canvas).dom().contains((x as int, y as int)),
    ensures
        color == canvas_pixels(*canvas)[(x as int, y as int)],
{
    let pixel = canvas.image.get_pixel(x, y);
    (pixel[0], pixel[1], pixel[2])
}

/// Where a square picture fits, so does a row of it.
pub proof fn lemma_row_fits(size: int)
    requires
        0 <= size,
        3 * size * size <= isize::MAX,
    ensures
        3 * size <= usize::MAX,
{
    assert(3 * size <= 3 * size * size || size == 0) by (nonlinear_arith)
        requires
            0 <= size,
    ;
}

/// A picture of fixed size.
pub struct Picture {
    width: u32,
    height: u32,
    canvas: Canvas,
}

impl View for Picture {
    type V = Map<(int, int), Color>;

    closed spec fn view(&self) -> Map<(int, int), Color> {
        canvas_pixels(self.canvas)
    }
}

impl Picture {
    /// The number of columns.
    pub closed spec fn columns(self) -> int {
        self.width as int
    }

    /// The number of rows.
    pub closed spec fn rows(self) -> int {
        self.height as int
    }

    /// The picture has a colour at each of its positions, and nowhere else.
    pub open spec fn wf(self) -> bool {
        &&& self@.dom() =~= positions(self.columns(), self.rows())
        &&& 0 <= self.columns() <= u32::MAX
        &&& 0 <= self.rows() <= u32::MAX
        &&& 3 * self.columns() * self.rows() <= isize::MAX
    }

    /// The colour in column `x` of row `y`.
    pub open spec fn at(self, x: int, y: int) -> Color {
        self@[(x, y)]
    }

    /// Both pictures have the same size.
    pub open spec fn same_size(self, other: Picture) -> bool {
        self.columns() == other.columns() && self.rows() == other.rows()
    }

    /// A black picture.
    pub fn new(width: u32, height: u32) -> (picture: Self)
        requires
            3 * width <= usize::MAX,
            3 * width * height <= isize::MAX,
        ensures
            picture.wf(),
            picture.columns() == width,
            picture.rows() == height,
            forall|x: int, y: int|
                0 <= x < width && 0 <= y < height ==> #[trigger] picture.at(x, y) == (0u8, 0u8, 0u8),
    {
        Picture { width, height, canvas: canvas_new(width, height) }
    }

    /// The number of columns.
    pub fn width(&self) -> (n: u32)
        ensures
            n == self.columns(),
    {
        self.width
    }

    /// The number of rows.
    pub fn height(&self) -> (n: u32)
        ensures
            n == self.rows(),
    {
        self.height
    }

    /// Gives column `x` of row `y` the colour `color`.
    pub fn put(&mut self, x: u32, y: u32, color: Color)
        requires
            old(self).wf(),
            x < old(self).columns(),
            y < old(self).rows(),
        ensures
            final(self).wf(),
            final(self).same_size(*old(self)),
            final(self)@ == old(self)@.insert((x as int, y as int), color),
            forall|px: int, py: int| #[trigger]
                final(self).at(px, py) == if px == x && py == y {
                    color
                } else {
                    old(self).at(px, py)
                },
    {
        canvas_put(&mut self.canvas, x, y, color);
    }

    /// The colour in column `x` of row `y`.
    pub fn get(&self, x: u32, y: u32) -> (color: Color)
        requires
            self.wf(),
            x < self.columns(),
            y < self.rows(),
        ensures
            color == self.at(x as int, y as int),
    {
        canvas_get(&self.canvas, x, y)
    }
}

impl Picture {
    /// Reads the picture out plane after plane.
    pub fn to_planes(&self) -> (out: Vec<u8>)
        requires
            self.wf(),
        ensures
            out@ == planes(
                scan(self.columns(), self.rows(), |x: int, y: int| self.at(x, y)),
            ),
    {
        let ghost f = |x: int, y: int| self.at(x, y);
        let ghost w = self.columns();
        let ghost h = self.rows();
        proof {
            assert(0 <= w * h && 3 * (w * h) == 3 * w * h) by (nonlinear_arith)
                requires
                    w >= 0,
                    h >= 0,
            ;
        }
        let n: usize = self.width as usize * self.height as usize;
        let mut pixels: Vec<Color> = Vec::new();
        for p in 0..n
            invariant
                self.wf(),
                w == self.columns(),
                h == self.rows(),
                w == self.width,
                h == self.height,
                n == w * h,
                f == |x: int, y: int| self.at(x, y),
                pixels@ =~= scan(w, h, f).take(p as int),
        {
            assert(w > 0 && 0 <= p as int % w < w && 0 <= p as int / w < h) by (nonlinear_arith)
                requires
                    0 <= p < w * h,
                    w >= 0,
                    h >= 0,
            ;
            let x: usize = p % self.width as usize;
            let y: usize = p / self.width as usize;
            pixels.push(self.get(x as u32, y as u32));
        }
        assert(pixels@ =~= scan(w, h, f));
        to_planes(pixels.as_slice())
    }

    /// Builds the picture whose three planes `data` holds one after the other.
    pub fn from_planes(data: &[u8], width: u32, height: u32) -> (picture: Self)
        requires
            3 * width <= usize::MAX,
            3 * width * height <= isize::MAX,
            3 * width * height <= data.len(),
        ensures
            picture.wf(),
            picture.columns() == width,
            picture.rows() == height,
            forall|x: int, y: int|
                0 <= x < width && 0 <= y < height ==> #[trigger] picture.at(x, y) == (
                    data[y * width + x],
                    data[width * height + y * width + x],
                    data[2 * width * height + y * width + x],
                ),
    {
        let ghost w = width as int;
        let ghost h = height as int;
        let mut picture = Picture::new(width, height);
        for y in 0..height
            invariant
                w == width,
                h == height,
                picture.wf(),
                picture.columns() == width,
                picture.rows() == height,
                3 * width * height <= isize::MAX,
                3 * width * height <= data.len(),
                forall|px: int, py: int|
                    0 <= px < width && 0 <= py < y ==> #[trigger] picture.at(px, py) == (
                        data[py * width + px],
                        data[width * height + py * width + px],
                        data[2 * width * height + py * width + px],
                    ),
        {
            for x in 0..width
                invariant
                    w == width,
                    h == height,
                    y < height,
                    picture.wf(),
                    picture.columns() == width,
                    picture.rows() == height,
                    3 * width * height <= isize::MAX,
                    3 * width * height <= data.len(),
                    forall|px: int, py: int|
                        0 <= px < width && 0 <= py && (py < y || (py == y && px < x))
                            ==> #[trigger] picture.at(px, py) == (
                            data[py * width + px],
                            data[width * height + py * width + px],
                            data[2 * width * height + py * width + px],
                        ),
            {
                assert(0 <= y * w && y * w + w <= w * h && 3 * (w * h) == 3 * w * h && 2 * (w * h)
                    == 2 * w * h) by (nonlinear_arith)
                    requires
                        0 <= y < h,
                        0 <= w,
                ;
                let p: usize = y as usize * width as usize + x as usize;
                let n: usize = width as usize * height as usize;
                picture.put(x, y, (data[p], data[n + p], data[2 * n + p]));
            }
        }
        picture
    }
}

/// Reading a picture out and building it again gives every colour back.
pub proof fn law_planes_round_trip(picture: Picture, x: int, y: int)
    requires
        picture.wf(),
        0 <= x < picture.columns(),
        0 <= y < picture.rows(),
    ensures
        ({
            let w = picture.columns();
            let h = picture.rows();
            let data = planes(scan(w, h, |px: int, py: int| picture.at(px, py)));
            picture.at(x, y) == (
                data[y * w + x],
                data[w * h + y * w + x],
                data[2 * w * h + y * w + x],
            )
        }),
{
    let w = picture.columns();
    let h = picture.rows();
    let pixels = scan(w, h, |px: int, py: int| picture.at(px, py));
    let p = y * w + x;
    assert(0 <= p < w * h && 2 * (w * h) == 2 * w * h && p % w == x && p / w == y) by {
        assert(0 <= y * w && y * w + w <= w * h && 2 * (w * h) == 2 * w * h) by (nonlinear_arith)
            requires
                0 <= y < h,
                0 < w,
        ;
        vstd::arithmetic::div_mod::lemma_fundamental_div_mod_converse(p, w, y, x);
    }
    law_plane_offsets(pixels, 0, p);
    law_plane_offsets(pixels, 1, p);
    law_plane_offsets(pixels, 2, p);
}

// ---- Layers -------------------------------------------------------------------------------------
/// How a disc changes the pixels under it.
pub enum Brush {
    /// One colour everywhere.
    Solid(Color),
    /// Each channel is raised to that of the colour where it lies below.
    Raise(Color),
    /// A colour for each squared distance from the centre.
    Shaded(Vec<Color>),
    /// Red and green become the shade that the table holds for the red that was there.
    Shadow(Vec<u8>),
}

/// The larger of two bytes.
pub open spec fn raised(a: u8, b: u8) -> u8 {
    if a >= b {
        a
    } else {
        b
    }
}

impl Brush {
    /// The table is large enough for every pixel of a disc of radius `r`.
    pub open spec fn covers(self, r: int) -> bool {
        match self {
            Brush::Shaded(table) => r * r < table.len(),
            Brush::Shadow(table) => table.len() == 256,
            _ => true,
        }
    }

    /// The new colour of a pixel of colour `under` whose squared distance to the centre is `d2`.
    pub open spec fn color(self, under: Color, d2: int) -> Color {
        match self {
            Brush::Solid(color) => color,
            Brush::Raise(color) => (
                raised(under.0, color.0),
                raised(under.1, color.1),
                raised(under.2, color.2),
            ),
            Brush::Shaded(table) => table[d2],
            Brush::Shadow(table) => (table[under.0 as int], table[under.0 as int], under.2),
        }
    }

    /// The new colour of a pixel of colour `under` whose squared distance to the centre is `d2`.
    fn apply(&self, under: Color, d2: usize) -> (color: Color)
        requires
            exists|r: int| d2 <= r * r && #[trigger] self.covers(r),
        ensures
            color == self.color(under, d2 as int),
    {
        match self {
            Brush::Solid(color) => *color,
            Brush::Raise(color) => (
                if under.0 >= color.0 {
                    under.0
                } else {
                    color.0
                },
                if under.1 >= color.1 {
                    under.1
                } else {
                    color.1
                },
                if under.2 >= color.2 {
                    under.2
                } else {
                    color.2
                },
            ),
            Brush::Shaded(table) => table[d2],
            Brush::Shadow(table) => {
                let dark: u8 = table[under.0 as usize];
                (dark, dark, under.2)
            },
        }
    }
}

/// Something to be painted over a picture.
pub enum Layer {
    /// A filled rectangle, both ends included.
    Rect {
        /// The first column.
        x0: i64,
        /// The first row.
        y0: i64,
        /// The last column.
        x1: i64,
        /// The last row.
        y1: i64,
        /// Its colour.
        color: Color,
    },
    /// A disc.
    Disc {
        /// The column of its centre.
        cx: i64,
        /// The row of its centre.
        cy: i64,
        /// Its radius.
        r: i64,
        /// What it does to the pixels under it.
        brush: Brush,
    },
}

impl Layer {
    /// A disc has a sane place and radius, and its brush covers it.
    pub open spec fn wf(self) -> bool {
        match self {
            Layer::Rect { .. } => true,
            Layer::Disc { cx, cy, r, brush } => {
                &&& 0 <= r <= 32767
                &&& -0x1_0000_0000 <= cx <= 0x1_0000_0000
                &&& -0x1_0000_0000 <= cy <= 0x1_0000_0000
                &&& brush.covers(r as int)
            },
        }
    }

    /// What becomes of the colour `under` at `(x, y)` when the layer is painted.
    pub open spec fn over(self, under: Color, x: int, y: int) -> Color {
        match self {
            Layer::Rect { x0, y0, x1, y1, color } => if x0 <= x <= x1 && y0 <= y <= y1 {
                color
            } else {
                under
            },
            Layer::Disc { cx, cy, r, brush } => if in_disc(cx as int, cy as int, r as int, x, y) {
                brush.color(under, (x - cx) * (x - cx) + (y - cy) * (y - cy))
            } else {
                under
            },
        }
    }
}

/// What becomes of the colour `under` at `(x, y)` when all layers are painted in turn.
pub open spec fn all_over(layers: Seq<Layer>, under: Color, x: int, y: int) -> Color
    decreases layers.len(),
{
    if layers.len() == 0 {
        under
    } else {
        layers.last().over(all_over(layers.drop_last(), under, x, y), x, y)
    }
}

/// Painting two lists of layers is painting the first and then the second.
pub proof fn law_layers_stack(a: Seq<Layer>, b: Seq<Layer>, under: Color, x: int, y: int)
    ensures
        all_over(a + b, under, x, y) == all_over(b, all_over(a, under, x, y), x, y),
    decreases b.len(),
{
    if b.len() == 0 {
        assert(a + b =~= a);
    } else {
        assert((a + b).drop_last() =~= a + b.drop_last());
        law_layers_stack(a, b.drop_last(), under, x, y);
    }
}

impl Picture {
    /// Paints the part of a layer that falls on column `x` of row `y`.
    fn paint_pixel(&mut self, layer: &Layer, x: u32, y: u32)
        requires
            old(self).wf(),
            layer.wf(),
            x < old(self).columns(),
            y < old(self).rows(),
        ensures
            final(self).wf(),
            final(self).same_size(*old(self)),
            forall|px: int, py: int| #[trigger]
                final(self).at(px, py) == if px == x && py == y {
                    layer.over(old(self).at(px, py), px, py)
                } else {
                    old(self).at(px, py)
                },
    {
        let under = self.get(x, y);
        let color = match layer {
            Layer::Rect { x0, y0, x1, y1, color } => if *x0 <= x as i64 && x as i64 <= *x1 && *y0
                <= y as i64 && y as i64 <= *y1 {
                *color
            } else {
                under
            },
            Layer::Disc { cx, cy, r, brush } => {
                let dx: i64 = x as i64 - *cx;
                let dy: i64 = y as i64 - *cy;
                proof {
                    lemma_disc_box(*cx as int, *cy as int, *r as int);
                }
                if -*r <= dx && dx <= *r && -*r <= dy && dy <= *r {
                    proof {
                        lemma_square_bound(dx as int, 32767);
                        lemma_square_bound(dy as int, 32767);
                        lemma_square_bound(*r as int, 32767);
                        assert(brush.covers(*r as int));
                    }
                    let d2: i64 = dx * dx + dy * dy;
                    if d2 <= *r * *r {
                        brush.apply(under, d2 as usize)
                    } else {
                        under
                    }
                } else {
                    under
                }
            },
        };
        self.put(x, y, color);
    }

    /// Paints a layer; whatever falls outside the picture is left out.
    pub fn paint(&mut self, layer: &Layer)
        requires
            old(self).wf(),
            layer.wf(),
        ensures
            final(self).wf(),
            final(self).same_size(*old(self)),
            forall|x: int, y: int|
                0 <= x < old(self).columns() && 0 <= y < old(self).rows() ==> #[trigger] final(self).at(x, y) == layer.over(old(self).at(x, y), x, y),
    {
        let (left, top, right, bottom): (i64, i64, i64, i64) = match layer {
            Layer::Rect { x0, y0, x1, y1, .. } => (*x0, *y0, *x1, *y1),
            Layer::Disc { cx, cy, r, .. } => (*cx - *r, *cy - *r, *cx + *r, *cy + *r),
        };
        proof {
            if let Layer::Disc { cx, cy, r, .. } = *layer {
                lemma_disc_box(cx as int, cy as int, r as int);
            }
            assert(forall|under: Color, x: int, y: int|
                !(left <= x <= right && top <= y <= bottom) ==> #[trigger] layer.over(under, x, y)
                    == under);
        }
        let x_first: i64 = if left < 0 {
            0
        } else {
            left
        };
        let y_first: i64 = if top < 0 {
            0
        } else {
            top
        };
        let x_end: i64 = if right >= self.width as i64 {
            self.width as i64
        } else {
            right + 1
        };
        let y_end: i64 = if bottom >= self.height as i64 {
            self.height as i64
        } else {
            bottom + 1
        };
        let mut y: i64 = y_first;
        while y < y_end
            invariant
                0 <= y_first <= y,
                0 <= x_first,
                x_end <= self.columns(),
                y_end <= self.rows(),
                layer.wf(),
                self.wf(),
                self.same_size(*old(self)),
                forall|px: int, py: int|
                    0 <= px < self.columns() && 0 <= py < self.rows() ==> #[trigger] self.at(px, py)
                        == if x_first <= px < x_end && y_first <= py < y {
                        layer.over(old(self).at(px, py), px, py)
                    } else {
                        old(self).at(px, py)
                    },
            decreases y_end - y,
        {
            let mut x: i64 = x_first;
            while x < x_end
                invariant
                    0 <= y_first <= y < y_end,
                    0 <= x_first <= x,
                    x <= x_end || x == x_first,
                    x_end <= self.columns(),
                    y_end <= self.rows(),
                    layer.wf(),
                    self.wf(),
                    self.same_size(*old(self)),
                    forall|px: int, py: int|
                        0 <= px < self.columns() && 0 <= py < self.rows() ==> #[trigger] self.at(
                            px,
                            py,
                        ) == if (x_first <= px < x_end && y_first <= py < y) || (x_first <= px < x
                            && py == y) {
                            layer.over(old(self).at(px, py), px, py)
                        } else {
                            old(self).at(px, py)
                        },
                decreases x_end - x,
            {
                self.paint_pixel(layer, x as u32, y as u32);
                x = x + 1;
            }
            y = y + 1;
        }
    }

    /// Paints all layers in turn.
    pub fn paint_all(&mut self, layers: &[Layer])
        requires
            old(self).wf(),
            forall|i: int| 0 <= i < layers.len() ==> (#[trigger] layers[i]).wf(),
        ensures
            final(self).wf(),
            final(self).same_size(*old(self)),
            forall|x: int, y: int|
                0 <= x < old(self).columns() && 0 <= y < old(self).rows() ==> #[trigger] final(self).at(x, y) == all_over(layers@, old(self).at(x, y), x, y),
    {
        assert(layers@.take(0) =~= Seq::empty());
        for i in 0..layers.len()
            invariant
                self.wf(),
                self.same_size(*old(self)),
                forall|j: int| 0 <= j < layers.len() ==> (#[trigger] layers[j]).wf(),
                forall|x: int, y: int|
                    0 <= x < self.columns() && 0 <= y < self.rows() ==> #[trigger] self.at(x, y)
                        == all_over(layers@.take(i as int), old(self).at(x, y), x, y),
        {
            self.paint(&layers[i]);
            assert(layers@.take(i + 1).drop_last() =~= layers@.take(i as int));
            assert(layers@.take(i + 1).last() == layers[i as int]);
        }
        assert(layers@.take(layers.len() as int) =~= layers@);
    }

    /// Gives every row its own colour.
    pub fn fill_rows(&mut self, rows: &[Color])
        requires
            old(self).wf(),
            rows.len() == old(self).rows(),
        ensures
            final(self).wf(),
            final(self).same_size(*old(self)),
            forall|x: int, y: int|
                0 <= x < old(self).columns() && 0 <= y < old(self).rows() ==> #[trigger] final(self).at(x, y) == rows[y],
    {
        let width: u32 = self.width;
        let height: u32 = self.height;
        for y in 0..height
            invariant
                width == self.columns(),
                height == self.rows(),
                rows.len() == self.rows(),
                self.wf(),
                self.same_size(*old(self)),
                forall|px: int, py: int|
                    0 <= px < self.columns() && 0 <= py < y ==> #[trigger] self.at(px, py)
                        == rows[py],
        {
            for x in 0..width
                invariant
                    width == self.columns(),
                    height == self.rows(),
                    rows.len() == self.rows(),
                    self.wf(),
                    self.same_size(*old(self)),
                    y < height,
                    forall|px: int, py: int|
                        0 <= px < self.columns() && 0 <= py && (py < y || (py == y && px < x))
                            ==> #[trigger] self.at(px, py) == rows[py],
            {
                self.put(x, y, rows[y as usize]);
            }
        }
    }
}

/// A box holds its edges: it paints like its left and its right part together wherever it is cut,
/// like its upper and its lower part too, and a box of one pixel paints that pixel only.
pub proof fn law_boxes_hold_their_edges(
    x0: i64,
    y0: i64,
    x1: i64,
    y1: i64,
    cut: i64,
    color: Color,
    under: Color,
    x: int,
    y: int,
)
    requires
        cut < i64::MAX,
    ensures
        ({
            let whole = Layer::Rect { x0, y0, x1, y1, color };
            let left = Layer::Rect { x0, y0, x1: cut, y1, color };
            let right = Layer::Rect { x0: (cut + 1) as i64, y0, x1, y1, color };
            let upper = Layer::Rect { x0, y0, x1, y1: cut, color };
            let lower = Layer::Rect { x0, y0: (cut + 1) as i64, x1, y1, color };
            let dot = Layer::Rect { x0, y0, x1: x0, y1: y0, color };
            &&& x0 <= cut <= x1 ==> whole.over(under, x, y) == right.over(
                left.over(under, x, y),
                x,
                y,
            )
            &&& y0 <= cut <= y1 ==> whole.over(under, x, y) == lower.over(
                upper.over(under, x, y),
                x,
                y,
            )
            &&& dot.over(under, x0 as int, y0 as int) == color
            &&& x != x0 || y != y0 ==> dot.over(under, x, y) == under
        }),
{
}

/// A disc changes what lies in it and nothing else. A plain one covers it, one that raises makes
/// no channel darker and leaves what is bright enough, a shaded one goes by the squared distance
/// from the centre, and a shadow looks up the red channel for red and green and keeps blue.
pub proof fn law_discs_paint_inside(
    cx: i64,
    cy: i64,
    r: i64,
    brush: Brush,
    under: Color,
    x: int,
    y: int,
)
    ensures
        ({
            let dx = x - cx;
            let dy = y - cy;
            let inside = 0 <= r && dx * dx + dy * dy <= r * r;
            let after = Layer::Disc { cx, cy, r, brush }.over(under, x, y);
            &&& !inside ==> after == under
            &&& inside ==> match brush {
                Brush::Solid(color) => after == color,
                Brush::Raise(color) => {
                    &&& after.0 >= under.0 && after.0 >= color.0
                    &&& after.1 >= under.1 && after.1 >= color.1
                    &&& after.2 >= under.2 && after.2 >= color.2
                    &&& after.0 == under.0 || after.0 == color.0
                    &&& after.1 == under.1 || after.1 == color.1
                    &&& after.2 == under.2 || after.2 == color.2
                },
                Brush::Shaded(table) => after == table[dx * dx + dy * dy],
                Brush::Shadow(table) => after.0 == table[under.0 as int] && after.1 == after.0
                    && after.2 == under.2,
            }
        }),
{
}

/// Layers that leave a pixel as it is may be left out, before and after one that does not.
pub proof fn law_only_covering_layers_show(
    before: Seq<Layer>,
    layer: Layer,
    after: Seq<Layer>,
    under: Color,
    x: int,
    y: int,
)
    requires
        forall|i: int, c: Color|
            0 <= i < before.len() ==> #[trigger] before[i].over(c, x, y) == c,
        forall|i: int, c: Color|
            0 <= i < after.len() ==> #[trigger] after[i].over(c, x, y) == c,
    ensures
        all_over(before.push(layer) + after, under, x, y) == layer.over(under, x, y),
        all_over(before + after, under, x, y) == under,
{
    lemma_nothing_shows(before, under, x, y);
    assert(before.push(layer).drop_last() =~= before);
    law_layers_stack(before.push(layer), after, under, x, y);
    lemma_nothing_shows(after, layer.over(under, x, y), x, y);
    law_layers_stack(before, after, under, x, y);
    lemma_nothing_shows(after, under, x, y);
}

/// Layers that leave a pixel as it is do not show.
proof fn lemma_nothing_shows(layers: Seq<Layer>, under: Color, x: int, y: int)
    requires
        forall|i: int, c: Color|
            0 <= i < layers.len() ==> #[trigger] layers[i].over(c, x, y) == c,
    ensures
        all_over(layers, under, x, y) == under,
    decreases layers.len(),
{
    if layers.len() > 0 {
        let rest = layers.drop_last();
        assert forall|i: int, c: Color| 0 <= i < rest.len() implies #[trigger] rest[i].over(c, x, y)
            == c by {
            assert(layers[i].over(c, x, y) == c);
        }
        lemma_nothing_shows(rest, under, x, y);
        assert(layers[layers.len() - 1].over(under, x, y) == under);
    }
}

} // verus!
