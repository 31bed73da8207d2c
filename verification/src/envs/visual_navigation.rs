//! The picture of a flat arena with an agent, a target and obstacles.
use crate::canvas::Color;
use crate::canvas::lemma_row_fits;
use crate::canvas::Picture;
use vstd::prelude::*;

verus! {

/// What is to be seen at a pixel.
#[derive(Clone, Copy, Debug, PartialEq, Eq, Structural)]
pub struct Sight {
    /// The agent is near.
    pub agent: bool,
    /// The target is near.
    pub target: bool,
    /// An obstacle covers it.
    pub obstacle: bool,
}

/// A white agent before a green target before grey obstacles before black.
pub open spec fn sight_color(sight: Sight) -> Color {
    if sight.agent {
        (255, 255, 255)
    } else if sight.target {
        (0, 255, 0)
    } else if sight.obstacle {
        (128, 128, 128)
    } else {
        (0, 0, 0)
    }
}

/// Paints what is to be seen at each pixel of a square of `size` pixels a side, row after row.
pub fn render(size: u32, sights: &[Sight]) -> (picture: Picture)
    requires
        3 * size * size <= isize::MAX,
        sights.len() == size * size,
    ensures
        picture.wf(),
        picture.columns() == size,
        picture.rows() == size,
        forall|x: int, y: int|
            0 <= x < size && 0 <= y < size ==> #[trigger] picture.at(x, y) == sight_color(
                sights[y * size + x],
            ),
{
    proof {
        lemma_row_fits(size as int);
    }
    let mut picture = Picture::new(size, size);
    for y in 0..size
        invariant
            picture.wf(),
            picture.columns() == size,
            picture.rows() == size,
            sights.len() == size * size,
            forall|px: int, py: int|
                0 <= px < size && 0 <= py < y ==> #[trigger] picture.at(px, py) == sight_color(
                    sights[py * size + px],
                ),
    {
        for x in 0..size
            invariant
                y < size,
                picture.wf(),
                picture.columns() == size,
                picture.rows() == size,
                sights.len() == size * size,
                forall|px: int, py: int|
                    0 <= px < size && 0 <= py && (py < y || (py == y && px < x))
                        ==> #[trigger] picture.at(px, py) == sight_color(sights[py * size + px]),
        {
            assert(0 <= y * size && y * size + size <= size * size) by (nonlinear_arith)
                requires
                    0 <= y < size,
            ;
            let sight = sights[y as usize * size as usize + x as usize];
            let color: Color = if sight.agent {
                (255, 255, 255)
            } else if sight.target {
                (0, 255, 0)
            } else if sight.obstacle {
                (128, 128, 128)
            } else {
                (0, 0, 0)
            };
            picture.put(x, y, color);
        }
    }
    picture
}

/// An obstacle in tenths of a unit: the centre, the width and the height.
pub type Obstacle = (u32, u32, u32, u32);

/// The obstacles that can be placed.
pub open spec fn obstacle_sites() -> Seq<Obstacle> {
    seq![(20, 20, 15, 5), (70, 30, 5, 20), (40, 70, 20, 5), (80, 80, 10, 10), (10, 60, 5, 15)]
}

/// The first `n` obstacles, or all of them if there are fewer.
pub fn generate_obstacles(n: usize) -> (obstacles: Vec<Obstacle>)
    ensures
        obstacles@ == obstacle_sites().take(vstd::math::min(n as int, 5)),
{
    let sites: [Obstacle; 5] = [
        (20, 20, 15, 5),
        (70, 30, 5, 20),
        (40, 70, 20, 5),
        (80, 80, 10, 10),
        (10, 60, 5, 15),
    ];
    assert(sites@ =~= obstacle_sites());
    let count: usize = if n < 5 {
        n
    } else {
        5
    };
    let mut obstacles: Vec<Obstacle> = Vec::new();
    for i in 0..count
        invariant
            count <= 5,
            sites@ == obstacle_sites(),
            obstacles@ =~= obstacle_sites().take(i as int),
    {
        obstacles.push(sites[i]);
    }
    obstacles
}

/// The agent hides the target, the target hides obstacles, and the four things that can be seen
/// have four colours.
pub proof fn law_sights_hide_each_other(sight: Sight)
    ensures
        sight.agent ==> sight_color(sight) == (255u8, 255u8, 255u8),
        !sight.agent && sight.target ==> sight_color(sight) == (0u8, 255u8, 0u8),
        !sight.agent && !sight.target && sight.obstacle ==> sight_color(sight) == (
            128u8,
            128u8,
            128u8,
        ),
        !sight.agent && !sight.target && !sight.obstacle ==> sight_color(sight) == (0u8, 0u8, 0u8),
{
}

} // verus!
