//! The meshes of a paddle game, how its frames come back from the graphics device, and its score.
use crate::canvas::Color;
use crate::episode::Clock;
use crate::layout::planes;
use crate::layout::scan;
use crate::layout::to_planes;
use vstd::prelude::*;

verus! {

// ---- Meshes -------------------------------------------------------------------------------------
/// The two triangles between the lattice points `(i, j)` and `(i + 1, j + 1)` of a sphere whose
/// rings have `sectors + 1` points.
pub open spec fn sphere_quad(i: int, j: int, sectors: int) -> Seq<int> {
    let a = i * (sectors + 1) + j;
    let b = a + sectors + 1;
    seq![a, b, a + 1, b, b + 1, a + 1]
}

/// The triangles of the first `n` quads, ring after ring.
pub open spec fn sphere_triangles(n: nat, sectors: int) -> Seq<int>
    decreases n,
{
    if n == 0 {
        Seq::empty()
    } else {
        sphere_triangles((n - 1) as nat, sectors) + sphere_quad(
            (n - 1) / sectors,
            (n - 1) % sectors,
            sectors,
        )
    }
}

/// Machine indices as integers.
pub open spec fn index_view(indices: Seq<u32>) -> Seq<int> {
    indices.map_values(|i: u32| i as int)
}

/// The lattice points of a sphere, ring after ring.
pub fn sphere_lattice(rings: u32, sectors: u32) -> (points: Vec<(u32, u32)>)
    requires
        (rings + 1) * (sectors + 1) <= u32::MAX,
    ensures
        points.len() == (rings + 1) * (sectors + 1),
        forall|k: int|
            0 <= k < points.len() ==> #[trigger] points[k] == (
                (k / (sectors + 1)) as u32,
                (k % (sectors + 1)) as u32,
            ),
{
    let width: u64 = sectors as u64 + 1;
    let total: u64 = (rings as u64 + 1) * width;
    let mut points: Vec<(u32, u32)> = Vec::new();
    let mut k: u64 = 0;
    while k < total
        invariant
            width == sectors + 1,
            total == (rings + 1) * (sectors + 1),
            total <= u32::MAX,
            k <= total,
            points.len() == k,
            forall|m: int|
                0 <= m < k ==> #[trigger] points[m] == (
                    (m / (sectors + 1)) as u32,
                    (m % (sectors + 1)) as u32,
                ),
        decreases total - k,
    {
        points.push(((k / width) as u32, (k % width) as u32));
        k = k + 1;
    }
    points
}

/// Quads of a sphere only use lattice points that exist.
proof fn lemma_quad_bounds(i: int, j: int, rings: int, sectors: int)
    requires
        0 <= i < rings,
        0 <= j < sectors,
    ensures
        0 <= i * (sectors + 1) + j,
        i * (sectors + 1) + j + sectors + 2 < (rings + 1) * (sectors + 1),
{
    assert(0 <= i * (sectors + 1) && i * (sectors + 1) + 2 * (sectors + 1) <= (rings + 1) * (sectors
        + 1)) by (nonlinear_arith)
        requires
            0 <= i,
            i + 2 <= rings + 1,
            0 <= sectors,
    ;
}

/// Every triangle of a sphere uses lattice points that exist.
pub proof fn law_sphere_indices_in_range(n: nat, rings: int, sectors: int)
    requires
        0 < sectors,
        n <= rings * sectors,
    ensures
        sphere_triangles(n, sectors).len() == 6 * n,
        forall|k: int|
            0 <= k < sphere_triangles(n, sectors).len() ==> 0 <= #[trigger] sphere_triangles(
                n,
                sectors,
            )[k] < (rings + 1) * (sectors + 1),
    decreases n,
{
    if n > 0 {
        law_sphere_indices_in_range((n - 1) as nat, rings, sectors);
        let i = (n - 1) / sectors;
        let j = (n - 1) % sectors;
        assert(0 <= i < rings && 0 <= j < sectors) by (nonlinear_arith)
            requires
                0 < sectors,
                0 < n <= rings * sectors,
                i == (n - 1) / sectors,
                j == (n - 1) % sectors,
        ;
        lemma_quad_bounds(i, j, rings, sectors);
        let head = sphere_triangles((n - 1) as nat, sectors);
        let quad = sphere_quad(i, j, sectors);
        let all = sphere_triangles(n, sectors);
        assert forall|k: int| 0 <= k < all.len() implies 0 <= #[trigger] all[k] < (rings + 1) * (
        sectors + 1) by {
            if k < head.len() {
                assert(all[k] == head[k]);
            } else {
                assert(all[k] == quad[k - head.len()]);
            }
        }
    }
}

/// The triangles of a sphere with `rings` rings of `sectors` quads.
pub fn sphere_indices(rings: u32, sectors: u32) -> (indices: Vec<u32>)
    requires
        (rings + 1) * (sectors + 1) <= u32::MAX,
    ensures
        index_view(indices@) == sphere_triangles((rings * sectors) as nat, sectors as int),
{
    let ghost r = rings as int;
    let ghost s = sectors as int;
    assert(0 <= r * s && r * s < (r + 1) * (s + 1)) by (nonlinear_arith)
        requires
            0 <= r,
            0 <= s,
    ;
    let quads: u32 = rings * sectors;
    let mut indices: Vec<u32> = Vec::new();
    for n in 0..quads
        invariant
            r == rings,
            s == sectors,
            quads == r * s,
            (r + 1) * (s + 1) <= u32::MAX,
            index_view(indices@) =~= sphere_triangles(n as nat, s),
    {
        assert(0 < s && 0 <= n as int / s < r && 0 <= n as int % s < s) by (nonlinear_arith)
            requires
                0 <= n < r * s,
                0 <= r,
                0 <= s,
        ;
        let i: u32 = n / sectors;
        let j: u32 = n % sectors;
        proof {
            lemma_quad_bounds(i as int, j as int, r, s);
            assert(0 <= i * (s + 1));
        }
        let ghost before = index_view(indices@);
        let a: u32 = i * (sectors + 1) + j;
        let b: u32 = a + sectors + 1;
        indices.push(a);
        indices.push(b);
        indices.push(a + 1);
        indices.push(b);
        indices.push(b + 1);
        indices.push(a + 1);
        assert(index_view(indices@) =~= before + sphere_quad(i as int, j as int, s));
    }
    indices
}

/// The two triangles of a quad whose corners start at `base`.
pub open spec fn face_triangles(base: int) -> Seq<int> {
    seq![base, base + 1, base + 2, base, base + 2, base + 3]
}

/// The triangles of `n` quads with four corners each.
pub open spec fn faces_triangles(n: nat) -> Seq<int>
    decreases n,
{
    if n == 0 {
        Seq::empty()
    } else {
        faces_triangles((n - 1) as nat) + face_triangles(4 * (n - 1))
    }
}

/// The triangles of `n` separate quads: six of them make a box, one makes the ground.
pub fn face_indices(n: u32) -> (indices: Vec<u32>)
    requires
        4 * n <= u32::MAX,
    ensures
        index_view(indices@) == faces_triangles(n as nat),
{
    let mut indices: Vec<u32> = Vec::new();
    for k in 0..n
        invariant
            4 * n <= u32::MAX,
            index_view(indices@) =~= faces_triangles(k as nat),
    {
        let ghost before = index_view(indices@);
        let base: u32 = 4 * k;
        indices.push(base);
        indices.push(base + 1);
        indices.push(base + 2);
        indices.push(base);
        indices.push(base + 2);
        indices.push(base + 3);
        assert(index_view(indices@) =~= before + face_triangles(4 * k));
    }
    indices
}

/// Every triangle of `n` quads uses one of their `4 * n` corners.
pub proof fn law_face_indices_in_range(n: nat)
    ensures
        faces_triangles(n).len() == 6 * n,
        forall|k: int|
            0 <= k < faces_triangles(n).len() ==> 0 <= #[trigger] faces_triangles(n)[k] < 4 * n,
    decreases n,
{
    if n > 0 {
        law_face_indices_in_range((n - 1) as nat);
        let head = faces_triangles((n - 1) as nat);
        let quad = face_triangles(4 * (n - 1));
        assert forall|k: int| 0 <= k < faces_triangles(n).len() implies 0
            <= #[trigger] faces_triangles(n)[k] < 4 * n by {
            if k < head.len() {
                assert(faces_triangles(n)[k] == head[k]);
            } else {
                assert(faces_triangles(n)[k] == quad[k - head.len()]);
            }
        }
    }
}

/// A direction or a corner by the signs of its coordinates.
pub type Signs = (i8, i8, i8);

/// A face of a box: its outward normal and its corners in order.
pub type Face = (Signs, [Signs; 4]);

/// The faces of a box: top, bottom, right, left, front, back.
pub fn box_faces() -> (faces: [Face; 6])
    ensures
        forall|k: int| 0 <= k < 6 ==> #[trigger] is_face(faces[k]),
        faces[0].0 == (0i8, 1i8, 0i8),
        faces[0].1@ == seq![(-1i8, 1i8, -1i8), (1i8, 1i8, -1i8), (1i8, 1i8, 1i8), (-1i8, 1i8, 1i8)],
        faces[1].0 == (0i8, -1i8, 0i8),
        faces[1].1@ == seq![
            (-1i8, -1i8, 1i8),
            (1i8, -1i8, 1i8),
            (1i8, -1i8, -1i8),
            (-1i8, -1i8, -1i8),
        ],
        faces[2].0 == (1i8, 0i8, 0i8),
        faces[2].1@ == seq![(1i8, -1i8, -1i8), (1i8, 1i8, -1i8), (1i8, 1i8, 1i8), (1i8, -1i8, 1i8)],
        faces[3].0 == (-1i8, 0i8, 0i8),
        faces[3].1@ == seq![
            (-1i8, -1i8, 1i8),
            (-1i8, 1i8, 1i8),
            (-1i8, 1i8, -1i8),
            (-1i8, -1i8, -1i8),
        ],
        faces[4].0 == (0i8, 0i8, 1i8),
        faces[4].1@ == seq![(-1i8, -1i8, 1i8), (1i8, -1i8, 1i8), (1i8, 1i8, 1i8), (-1i8, 1i8, 1i8)],
        faces[5].0 == (0i8, 0i8, -1i8),
        faces[5].1@ == seq![
            (1i8, -1i8, -1i8),
            (-1i8, -1i8, -1i8),
            (-1i8, 1i8, -1i8),
            (1i8, 1i8, -1i8),
        ],
{
    let faces: [Face; 6] = [
        ((0, 1, 0), [(-1, 1, -1), (1, 1, -1), (1, 1, 1), (-1, 1, 1)]),
        ((0, -1, 0), [(-1, -1, 1), (1, -1, 1), (1, -1, -1), (-1, -1, -1)]),
        ((1, 0, 0), [(1, -1, -1), (1, 1, -1), (1, 1, 1), (1, -1, 1)]),
        ((-1, 0, 0), [(-1, -1, 1), (-1, 1, 1), (-1, 1, -1), (-1, -1, -1)]),
        ((0, 0, 1), [(-1, -1, 1), (1, -1, 1), (1, 1, 1), (-1, 1, 1)]),
        ((0, 0, -1), [(1, -1, -1), (-1, -1, -1), (-1, 1, -1), (1, 1, -1)]),
    ];
    assert forall|k: int| 0 <= k < 6 implies #[trigger] is_face(faces[k]) by {
        assert(k == 0 || k == 1 || k == 2 || k == 3 || k == 4 || k == 5);
    }
    faces
}

/// All corners of the face lie on the side of the box that its normal points to.
pub open spec fn is_face(face: Face) -> bool {
    forall|c: int|
        0 <= c < 4 ==> {
            let corner = #[trigger] face.1[c];
            &&& face.0.0 != 0 ==> corner.0 == face.0.0
            &&& face.0.1 != 0 ==> corner.1 == face.0.1
            &&& face.0.2 != 0 ==> corner.2 == face.0.2
        }
}

// ---- Bytes for the graphics device --------------------------------------------------------------
/// Byte `k` of `v`, counted from the least significant one.
pub open spec fn byte_of(v: u32, k: int) -> int {
    let x = v as int;
    if k == 0 {
        x % 256
    } else if k == 1 {
        (x / 256) % 256
    } else if k == 2 {
        (x / 65536) % 256
    } else {
        x / 16777216
    }
}

/// `bytes` holds the numbers one after the other, in one of the two byte orders.
pub open spec fn holds_words(bytes: Seq<u8>, words: Seq<u32>, big_endian: bool) -> bool {
    &&& bytes.len() == 4 * words.len()
    &&& forall|i: int, k: int|
        0 <= i < words.len() && 0 <= k < 4 ==> #[trigger] bytes[4 * i + k] == byte_of(
            words[i],
            if big_endian {
                3 - k
            } else {
                k
            },
        )
}

/// `bytemuck::cast_slice` from numbers to bytes, copied: the numbers as they lie in memory, in the
/// byte order of the machine.
#[verifier::external_body]
fn cast_words(words: &[u32]) -> (bytes: Vec<u8>)
    ensures
        holds_words(bytes@, words@, false) || holds_words(bytes@, words@, true),
{
    bytemuck::cast_slice::<u32, u8>(words).to_vec()
}

/// The contents of an index buffer, in the byte order of the machine.
pub fn index_bytes(indices: &[u32]) -> (bytes: Vec<u8>)
    ensures
        holds_words(bytes@, indices@, false) || holds_words(bytes@, indices@, true),
{
    cast_words(indices)
}

/// Rows that come back from the graphics device start at multiples of this many bytes.
pub const ROW_ALIGNMENT: u32 = 256;

/// The number of bytes from one row to the next for rows of `size` pixels with four bytes each:
/// the least multiple of the alignment that holds a row.
pub fn padded_bytes_per_row(size: u32) -> (n: u32)
    requires
        4 * size + 255 <= u32::MAX,
    ensures
        n % 256 == 0,
        4 * size <= n < 4 * size + 256,
{
    (4 * size + (ROW_ALIGNMENT - 1)) / ROW_ALIGNMENT * ROW_ALIGNMENT
}

/// The colour in column `x` of row `y`, where rows of four-byte pixels lie `stride` bytes apart.
pub open spec fn padded_color(raw: Seq<u8>, stride: int, x: int, y: int) -> Color {
    (raw[y * stride + 4 * x], raw[y * stride + 4 * x + 1], raw[y * stride + 4 * x + 2])
}

/// Splits padded rows of four-byte pixels into three planes, without the padding and the fourth
/// byte.
pub fn unpack_rows(raw: &[u8], size: usize, stride: usize) -> (frame: Vec<u8>)
    requires
        4 * size <= stride,
        size * stride <= raw.len(),
    ensures
        frame@ == planes(
            scan(
                size as int,
                size as int,
                |x: int, y: int| padded_color(raw@, stride as int, x, y),
            ),
        ),
{
    let ghost f = |x: int, y: int| padded_color(raw@, stride as int, x, y);
    let ghost s = size as int;
    let mut pixels: Vec<Color> = Vec::new();
    assert(0 <= 4 * (s * s) <= size * stride) by (nonlinear_arith)
        requires
            0 <= 4 * s <= stride,
            s == size,
    ;
    let n: usize = size * size;
    for p in 0..n
        invariant
            s == size,
            n == s * s,
            4 * size <= stride,
            size * stride <= raw.len(),
            f == |x: int, y: int| padded_color(raw@, stride as int, x, y),
            pixels@ =~= scan(s, s, f).take(p as int),
    {
        assert(s > 0 && 0 <= p as int % s < s && 0 <= p as int / s < s) by (nonlinear_arith)
            requires
                0 <= p < s * s,
                0 <= s,
        ;
        let x: usize = p % size;
        let y: usize = p / size;
        assert(0 <= y * stride && y * stride + stride <= size * stride) by (nonlinear_arith)
            requires
                0 <= y < size,
                0 <= stride,
        ;
        let at: usize = y * stride + 4 * x;
        pixels.push((raw[at], raw[at + 1], raw[at + 2]));
    }
    assert(pixels@ =~= scan(s, s, f));
    to_planes(pixels.as_slice())
}

// ---- The score ----------------------------------------------------------------------------------
/// How often the ball was hit, and how long the game has run.
#[derive(Clone, Copy, Debug, PartialEq, Eq, Structural)]
pub struct Rally {
    /// The number of hits.
    pub hits: u32,
    /// The steps of the game.
    pub clock: Clock,
}

impl Rally {
    /// A game that has not begun.
    pub fn new(max_steps: usize) -> (rally: Self)
        ensures
            rally == (Rally { hits: 0, clock: Clock { step_count: 0, max_steps } }),
    {
        Rally { hits: 0, clock: Clock::new(max_steps) }
    }

    /// Starts over.
    pub fn reset(&mut self)
        ensures
            *final(self) == (Rally {
                hits: 0,
                clock: Clock { step_count: 0, max_steps: old(self).clock.max_steps },
            }),
    {
        self.hits = 0;
        self.clock.reset();
    }

    /// Counts one step in which the ball was hit or not; the game is over when its steps are used
    /// up or the ball has fallen off.
    pub fn step(&mut self, hit: bool, fallen: bool) -> (done: bool)
        requires
            old(self).hits < u32::MAX,
            old(self).clock.step_count < usize::MAX,
        ensures
            final(self).hits == old(self).hits + if hit {
                1int
            } else {
                0
            },
            final(self).clock.step_count == old(self).clock.step_count + 1,
            final(self).clock.max_steps == old(self).clock.max_steps,
            done == (fallen || final(self).clock.step_count >= final(self).clock.max_steps),
    {
        if hit {
            self.hits = self.hits + 1;
        }
        self.clock.tick(fallen)
    }
}

/// A sphere is covered cell by cell: cell `(i, j)` has the six places from its number times six on,
/// and they name its four corners as two triangles that share the edge between the lower left and
/// the upper right one.
pub proof fn law_sphere_is_covered_cell_by_cell(n: nat, sectors: int, i: int, j: int)
    requires
        0 <= j < sectors,
        0 <= i,
        i * sectors + j < n,
    ensures
        ({
            let all = sphere_triangles(n, sectors);
            let at = 6 * (i * sectors + j);
            let row = sectors + 1;
            &&& 0 <= at && at + 6 <= all.len()
            &&& all[at] == i * row + j
            &&& all[at + 1] == (i + 1) * row + j
            &&& all[at + 2] == i * row + j + 1
            &&& all[at + 3] == (i + 1) * row + j
            &&& all[at + 4] == (i + 1) * row + j + 1
            &&& all[at + 5] == i * row + j + 1
        }),
    decreases n,
{
    let cell = i * sectors + j;
    assert(0 <= i * sectors) by (nonlinear_arith)
        requires
            0 <= i,
            0 <= j < sectors,
    ;
    lemma_sphere_len(n, sectors);
    lemma_sphere_len((n - 1) as nat, sectors);
    if cell + 1 == n {
        vstd::arithmetic::div_mod::lemma_fundamental_div_mod_converse(n - 1, sectors, i, j);
        assert((i + 1) * (sectors + 1) == i * (sectors + 1) + sectors + 1) by (nonlinear_arith);
        let quad = sphere_quad(i, j, sectors);
        let before = sphere_triangles((n - 1) as nat, sectors);
        assert(sphere_triangles(n, sectors) == before + quad);
        assert((before + quad)[6 * cell + 0] == quad[0]);
        assert((before + quad)[6 * cell + 1] == quad[1]);
        assert((before + quad)[6 * cell + 2] == quad[2]);
        assert((before + quad)[6 * cell + 3] == quad[3]);
        assert((before + quad)[6 * cell + 4] == quad[4]);
        assert((before + quad)[6 * cell + 5] == quad[5]);
    } else {
        law_sphere_is_covered_cell_by_cell((n - 1) as nat, sectors, i, j);
    }
}

/// Six places for each cell.
proof fn lemma_sphere_len(n: nat, sectors: int)
    ensures
        sphere_triangles(n, sectors).len() == 6 * n,
    decreases n,
{
    if n > 0 {
        lemma_sphere_len((n - 1) as nat, sectors);
    }
}

/// Faces come one after the other: each has four corners of its own and is cut along the edge
/// between the first and the third.
pub proof fn law_faces_are_cut_in_two(n: nat, f: int)
    requires
        0 <= f < n,
    ensures
        ({
            let all = faces_triangles(n);
            &&& all.len() == 6 * n
            &&& all[6 * f] == 4 * f
            &&& all[6 * f + 1] == 4 * f + 1
            &&& all[6 * f + 2] == 4 * f + 2
            &&& all[6 * f + 3] == 4 * f
            &&& all[6 * f + 4] == 4 * f + 2
            &&& all[6 * f + 5] == 4 * f + 3
        }),
    decreases n,
{
    law_face_indices_in_range(n);
    law_face_indices_in_range((n - 1) as nat);
    if f + 1 < n {
        law_faces_are_cut_in_two((n - 1) as nat, f);
    }
}

/// The four bytes of a word make up the word, the first one counting least.
pub proof fn law_bytes_make_up_words(v: u32)
    ensures
        byte_of(v, 0) + 256 * byte_of(v, 1) + 65536 * byte_of(v, 2) + 16777216 * byte_of(v, 3) == v,
        0 <= byte_of(v, 0) < 256 && 0 <= byte_of(v, 1) < 256,
        0 <= byte_of(v, 2) < 256 && 0 <= byte_of(v, 3) < 256,
{
}

/// Bytes hold one list of words only, read in one order.
pub proof fn law_words_read_back(bytes: Seq<u8>, a: Seq<u32>, b: Seq<u32>, big_endian: bool)
    requires
        holds_words(bytes, a, big_endian),
        holds_words(bytes, b, big_endian),
    ensures
        a == b,
{
    assert forall|i: int| 0 <= i < a.len() implies a[i] == b[i] by {
        law_bytes_make_up_words(a[i]);
        law_bytes_make_up_words(b[i]);
        lemma_same_byte(bytes, a, b, big_endian, i, 0);
        lemma_same_byte(bytes, a, b, big_endian, i, 1);
        lemma_same_byte(bytes, a, b, big_endian, i, 2);
        lemma_same_byte(bytes, a, b, big_endian, i, 3);
    }
    assert(a =~= b);
}

/// Words that are held by the same bytes have the same bytes.
proof fn lemma_same_byte(
    bytes: Seq<u8>,
    a: Seq<u32>,
    b: Seq<u32>,
    big_endian: bool,
    i: int,
    k: int,
)
    requires
        holds_words(bytes, a, big_endian),
        holds_words(bytes, b, big_endian),
        0 <= i < a.len(),
        0 <= k < 4,
    ensures
        byte_of(a[i], k) == byte_of(b[i], k),
{
    let place = if big_endian {
        3 - k
    } else {
        k
    };
    assert(bytes[4 * i + place] == byte_of(a[i], k));
    assert(bytes[4 * i + place] == byte_of(b[i], k));
}

/// A padded row starts where the stride says and has four bytes for each pixel, the last of which
/// does not show.
pub proof fn law_padding_does_not_show(
    raw: Seq<u8>,
    other: Seq<u8>,
    stride: int,
    size: int,
    x: int,
    y: int,
)
    requires
        0 <= x < size,
        0 <= y,
        4 * size <= stride,
        forall|row: int, at: int|
            0 <= row && 0 <= at < 4 * size && at % 4 != 3 ==> #[trigger] raw[row * stride + at]
                == other[row * stride + at],
    ensures
        padded_color(raw, stride, x, y) == padded_color(other, stride, x, y),
        padded_color(raw, stride, x, y).0 == raw[y * stride + 4 * x],
        padded_color(raw, stride, x, y).1 == raw[y * stride + 4 * x + 1],
        padded_color(raw, stride, x, y).2 == raw[y * stride + 4 * x + 2],
{
    assert(raw[y * stride + (4 * x)] == other[y * stride + (4 * x)]);
    assert(raw[y * stride + (4 * x + 1)] == other[y * stride + (4 * x + 1)]);
    assert(raw[y * stride + (4 * x + 2)] == other[y * stride + (4 * x + 2)]);
}

} // verus!
