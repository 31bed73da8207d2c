//! A world of balls among walls: its course, its picture, and the order in which balls are paired.
use crate::canvas::all_over;
use crate::canvas::Brush;
use crate::canvas::Color;
use crate::canvas::law_layers_stack;
use crate::canvas::law_only_covering_layers_show;
use crate::canvas::Layer;
use crate::canvas::lemma_row_fits;
use crate::canvas::Picture;
use crate::envs::bodies::bounce_each;
use crate::envs::bodies::collide_all;
use crate::envs::bodies::collisions;
use crate::envs::bodies::each_held;
use crate::envs::bodies::each_moved;
use crate::envs::bodies::first_moved;
use crate::envs::bodies::law_events_are_ordered;
use crate::envs::bodies::move_each;
use crate::envs::bodies::move_first;
use crate::envs::bodies::push_trails;
use crate::episode::trail_step;
use crate::episode::Clock;
use vstd::prelude::*;

verus! {

// ---- Pairs --------------------------------------------------------------------------------------
/// The pairs of `i` with every later index below `n`.
pub open spec fn pairs_of(i: int, n: int) -> Seq<(int, int)> {
    Seq::new((n - i - 1) as nat, |k: int| (i, i + 1 + k))
}

/// The pairs whose first index lies below `m`, in order.
pub open spec fn pairs_below(m: nat, n: int) -> Seq<(int, int)>
    decreases m,
{
    if m == 0 {
        Seq::empty()
    } else {
        pairs_below((m - 1) as nat, n) + pairs_of(m - 1, n)
    }
}

/// Machine pairs as pairs of integers.
pub open spec fn pairs_view(pairs: Seq<(usize, usize)>) -> Seq<(int, int)> {
    pairs.map_values(|p: (usize, usize)| (p.0 as int, p.1 as int))
}

/// The pairs of `n` balls that may collide, in the order in which they are looked at.
pub fn all_pairs(n: usize) -> (pairs: Vec<(usize, usize)>)
    ensures
        pairs_view(pairs@) == pairs_below(n as nat, n as int),
{
    let mut pairs: Vec<(usize, usize)> = Vec::new();
    for i in 0..n
        invariant
            pairs_view(pairs@) =~= pairs_below(i as nat, n as int),
    {
        let ghost before = pairs_view(pairs@);
        let mut j: usize = i + 1;
        while j < n
            invariant
                i + 1 <= j <= n,
                pairs_view(pairs@) =~= before + pairs_of(i as int, n as int).take(j - i - 1),
            decreases n - j,
        {
            let ghost row = pairs_of(i as int, n as int);
            assert(row.take(j - i) =~= row.take(j - i - 1).push((i as int, j as int)));
            let ghost earlier = pairs_view(pairs@);
            pairs.push((i, j));
            assert(pairs_view(pairs@) =~= earlier.push((i as int, j as int)));
            j = j + 1;
        }
        assert(pairs_view(pairs@) =~= before + pairs_of(i as int, n as int));
    }
    pairs
}

/// Every pair of two different balls is looked at exactly once, with the smaller index first.
pub proof fn law_each_pair_once(n: nat, i: int, j: int)
    ensures
        pairs_below(n, n as int).contains((i, j)) <==> 0 <= i < j < n,
        forall|a: int, b: int|
            0 <= a < b < pairs_below(n, n as int).len() ==> #[trigger] pairs_below(
                n,
                n as int,
            )[a] != #[trigger] pairs_below(n, n as int)[b],
{
    lemma_pairs_below(n, n as int);
    if 0 <= i < j < n {
        lemma_pair_present(n, n as int, i, j);
    }
    if pairs_below(n, n as int).contains((i, j)) {
        let k = choose|k: int|
            0 <= k < pairs_below(n, n as int).len() && pairs_below(n, n as int)[k] == (i, j);
        assert(pairs_below(n, n as int)[k] == (i, j));
    }
}

/// What the listed pairs are, and that none is listed twice.
proof fn lemma_pairs_below(m: nat, n: int)
    requires
        m <= n,
    ensures
        forall|k: int|
            0 <= k < pairs_below(m, n).len() ==> {
                let p = #[trigger] pairs_below(m, n)[k];
                0 <= p.0 < m && p.0 < p.1 < n
            },
        forall|a: int, b: int|
            0 <= a < b < pairs_below(m, n).len() ==> #[trigger] pairs_below(m, n)[a]
                != #[trigger] pairs_below(m, n)[b],
    decreases m,
{
    if m > 0 {
        lemma_pairs_below((m - 1) as nat, n);
        let head = pairs_below((m - 1) as nat, n);
        let tail = pairs_of(m - 1, n);
        assert forall|k: int| 0 <= k < pairs_below(m, n).len() implies ({
            let p = #[trigger] pairs_below(m, n)[k];
            0 <= p.0 < m && p.0 < p.1 < n
        }) by {
            if k < head.len() {
                assert(pairs_below(m, n)[k] == head[k]);
            } else {
                assert(pairs_below(m, n)[k] == tail[k - head.len()]);
            }
        }
        assert forall|a: int, b: int| 0 <= a < b < pairs_below(m, n).len() implies #[trigger] pairs_below(
            m,
            n,
        )[a] != #[trigger] pairs_below(m, n)[b] by {
            if b < head.len() {
                assert(pairs_below(m, n)[a] == head[a]);
                assert(pairs_below(m, n)[b] == head[b]);
            } else {
                assert(pairs_below(m, n)[b] == tail[b - head.len()]);
                if a < head.len() {
                    assert(pairs_below(m, n)[a] == head[a]);
                } else {
                    assert(pairs_below(m, n)[a] == tail[a - head.len()]);
                }
            }
        }
    }
}

/// A pair with its first index below `m` is listed.
proof fn lemma_pair_present(m: nat, n: int, i: int, j: int)
    requires
        0 <= i < m <= n,
        i < j < n,
    ensures
        pairs_below(m, n).contains((i, j)),
    decreases m,
{
    let head = pairs_below((m - 1) as nat, n);
    let tail = pairs_of(m - 1, n);
    if i == m - 1 {
        assert(tail[j - i - 1] == (i, j));
        assert(pairs_below(m, n)[head.len() + j - i - 1] == (i, j));
    } else {
        lemma_pair_present((m - 1) as nat, n, i, j);
        let k = choose|k: int| 0 <= k < head.len() && head[k] == (i, j);
        assert(pairs_below(m, n)[k] == (i, j));
    }
}

/// A trail has grown by the place of its ball.
pub open spec fn trail_grown<B, P, L: Fn(&B) -> P>(
    ball: B,
    before: Seq<P>,
    after: Seq<P>,
    keep: nat,
    place: L,
) -> bool {
    exists|p: P| #[trigger] place.ensures((&ball,), p) && after == trail_step(before, p, keep)
}

// ---- The course of the world --------------------------------------------------------------------
/// Balls, walls, the trails of the balls, and the collisions so far.
pub struct ObjectWorld<B, W, P> {
    /// The balls; the player's is the first.
    pub balls: Vec<B>,
    /// The walls.
    pub walls: Vec<W>,
    /// The trail of each ball.
    pub trails: Vec<Vec<P>>,
    /// How long trails are.
    pub trail_len: usize,
    /// The steps.
    pub clock: Clock,
    /// The collisions so far: the step and the two balls.
    pub collision_events: Vec<(usize, usize, usize)>,
}

impl<B, W, P> ObjectWorld<B, W, P> {
    /// Every ball has a trail.
    pub open spec fn wf(self) -> bool {
        self.trails.len() == self.balls.len()
    }

    /// Every trail is empty.
    pub open spec fn no_trails(self) -> bool {
        forall|i: int| 0 <= i < self.trails.len() ==> (#[trigger] self.trails[i]).len() == 0
    }

    /// A world at the start of an episode.
    pub fn new(balls: Vec<B>, walls: Vec<W>, max_steps: usize, trail_len: usize) -> (world: Self)
        ensures
            world.wf(),
            world.balls == balls,
            world.walls == walls,
            world.no_trails(),
            world.trail_len == trail_len,
            world.clock == (Clock { step_count: 0, max_steps }),
            world.collision_events@.len() == 0,
    {
        let mut trails: Vec<Vec<P>> = Vec::new();
        for i in 0..balls.len()
            invariant
                trails.len() == i,
                forall|k: int| 0 <= k < i ==> (#[trigger] trails[k]).len() == 0,
        {
            trails.push(Vec::new());
        }
        ObjectWorld {
            balls,
            walls,
            trails,
            trail_len,
            clock: Clock::new(max_steps),
            collision_events: Vec::new(),
        }
    }

    /// Starts a new episode: no steps, no collisions, no trails.
    pub fn clear(&mut self)
        requires
            old(self).wf(),
        ensures
            final(self).wf(),
            final(self).balls == old(self).balls,
            final(self).walls == old(self).walls,
            final(self).no_trails(),
            final(self).trail_len == old(self).trail_len,
            final(self).clock == (Clock { step_count: 0, max_steps: old(self).clock.max_steps }),
            final(self).collision_events@.len() == 0,
    {
        self.clock.reset();
        self.collision_events = Vec::new();
        let mut trails: Vec<Vec<P>> = Vec::new();
        for i in 0..self.balls.len()
            invariant
                trails.len() == i,
                forall|k: int| 0 <= k < i ==> (#[trigger] trails[k]).len() == 0,
        {
            trails.push(Vec::new());
        }
        self.trails = trails;
    }

    /// The number of balls.
    pub fn num_balls(&self) -> (n: usize)
        ensures
            n == self.balls.len(),
    {
        self.balls.len()
    }

    /// One step: the player is driven, all balls move freely, are kept within bounds and bounce
    /// off walls, pairs of balls collide, and trails grow.
    pub open spec fn stepped<
        A: Fn(&B) -> B,
        M: Fn(&B) -> B,
        K: Fn(&B) -> B,
        O: Fn(&B, &W) -> B,
        C: Fn(&B, &B) -> Option<(B, B)>,
        L: Fn(&B) -> P,
    >(
        before: Self,
        after: Self,
        drive: A,
        move_freely: M,
        keep_inside: K,
        bounce: O,
        collide: C,
        place: L,
    ) -> bool {
        &&& exists|driven: Seq<B>, moved: Seq<B>, kept: Seq<B>, bounced: Seq<B>, events: Seq<
            (usize, usize, usize),
        >|
            {
                &&& #[trigger] first_moved(before.balls@, driven, drive)
                &&& #[trigger] each_moved(driven, moved, move_freely)
                &&& #[trigger] each_moved(moved, kept, keep_inside)
                &&& #[trigger] each_held(kept, bounced, before.walls@, bounce)
                &&& #[trigger] collisions(
                    bounced,
                    after.balls@,
                    events,
                    before.clock.step_count as int,
                    collide,
                )
                &&& after.collision_events@ == before.collision_events@ + events
            }
        &&& after.balls.len() == before.balls.len()
        &&& forall|i: int|
            #![trigger after.trails[i]]
            0 <= i < before.balls.len() ==> trail_grown(
                after.balls[i],
                before.trails[i]@,
                after.trails[i]@,
                before.trail_len as nat,
                place,
            )
        &&& after.walls == before.walls
        &&& after.trail_len == before.trail_len
        &&& after.clock == (Clock {
            step_count: (before.clock.step_count + 1) as usize,
            max_steps: before.clock.max_steps,
        })
    }

    /// Takes one step and says whether the episode is over.
    pub fn physics_step<
        A: Fn(&B) -> B,
        M: Fn(&B) -> B,
        K: Fn(&B) -> B,
        O: Fn(&B, &W) -> B,
        C: Fn(&B, &B) -> Option<(B, B)>,
        L: Fn(&B) -> P,
    >(
        &mut self,
        drive: A,
        move_freely: M,
        keep_inside: K,
        bounce: O,
        collide: C,
        place: L,
    ) -> (done: bool)
        requires
            old(self).wf(),
            old(self).clock.step_count < usize::MAX,
            forall|b: &B| #[trigger] drive.requires((b,)),
            forall|b: &B| #[trigger] move_freely.requires((b,)),
            forall|b: &B| #[trigger] keep_inside.requires((b,)),
            forall|b: &B, w: &W| #[trigger] bounce.requires((b, w)),
            forall|a: &B, b: &B| #[trigger] collide.requires((a, b)),
            forall|b: &B| #[trigger] place.requires((b,)),
        ensures
            final(self).wf(),
            Self::stepped(
                *old(self),
                *final(self),
                drive,
                move_freely,
                keep_inside,
                bounce,
                collide,
                place,
            ),
            done == (final(self).clock.step_count >= final(self).clock.max_steps),
    {
        let ghost start = *self;
        move_first(&mut self.balls, drive);
        let ghost driven = self.balls@;
        assert(driven.len() == start.balls.len());
        move_each(&mut self.balls, move_freely);
        let ghost moved = self.balls@;
        move_each(&mut self.balls, keep_inside);
        let ghost kept = self.balls@;
        bounce_each(&mut self.balls, self.walls.as_slice(), bounce);
        let ghost bounced = self.balls@;
        let mut events = collide_all(&mut self.balls, self.clock.step_count, collide);
        let ghost fresh = events@;
        self.collision_events.append(&mut events);
        let mut places: Vec<P> = Vec::new();
        for i in 0..self.balls.len()
            invariant
                forall|b: &B| #[trigger] place.requires((b,)),
                places.len() == i,
                forall|k: int|
                    0 <= k < i ==> place.ensures((&self.balls[k],), #[trigger] places[k]),
        {
            places.push(place(&self.balls[i]));
        }
        let ghost all_places = places@;
        push_trails(&mut self.trails, places, self.trail_len);
        let done = self.clock.tick(false);
        proof {
            assert(first_moved(start.balls@, driven, drive));
            assert(each_moved(driven, moved, move_freely));
            assert(each_moved(moved, kept, keep_inside));
            assert(each_held(kept, bounced, start.walls@, bounce));
            assert(collisions(
                bounced,
                self.balls@,
                fresh,
                start.clock.step_count as int,
                collide,
            ));
            assert forall|i: int| #![trigger self.trails[i]] 0 <= i < start.balls.len() implies trail_grown(
                self.balls[i],
                start.trails[i]@,
                self.trails[i]@,
                start.trail_len as nat,
                place,
            ) by {
                assert(place.ensures((&self.balls[i],), all_places[i]));
            }
        }
        done
    }
}

// ---- Colours ------------------------------------------------------------------------------------
/// The colours that balls take in turn.
pub open spec fn palette(i: int) -> Color {
    if i == 0 {
        (255, 80, 80)
    } else if i == 1 {
        (80, 180, 255)
    } else if i == 2 {
        (80, 255, 120)
    } else if i == 3 {
        (255, 220, 60)
    } else if i == 4 {
        (200, 80, 255)
    } else {
        (255, 140, 40)
    }
}

/// What colour is shown for ball `i`.
pub open spec fn color_of_ball(i: int) -> Color {
    if i == 0 {
        (60, 220, 220)
    } else {
        palette(i % 6)
    }
}

/// The colour of ball `i`: the player's stands out, the others take turns.
pub fn ball_color(i: usize) -> (color: Color)
    ensures
        color == if i == 0 {
            (60u8, 220u8, 220u8)
        } else {
            palette(i as int % 6)
        },
        color == color_of_ball(i as int),
{
    if i == 0 {
        (60, 220, 220)
    } else {
        match i % 6 {
            0 => (255, 80, 80),
            1 => (80, 180, 255),
            2 => (80, 255, 120),
            3 => (255, 220, 60),
            4 => (200, 80, 255),
            _ => (255, 140, 40),
        }
    }
}

// ---- The picture --------------------------------------------------------------------------------
/// A wall on screen, both ends included.
#[derive(Clone, Copy, Debug, PartialEq, Eq, Structural)]
pub struct WallBox {
    /// The first column.
    pub x0: u32,
    /// The first row.
    pub y0: u32,
    /// The last column.
    pub x1: u32,
    /// The last row.
    pub y1: u32,
}

/// A disc on screen.
#[derive(Clone, Copy, Debug, PartialEq, Eq, Structural)]
pub struct Spot {
    /// The column of the centre.
    pub x: u32,
    /// The row of the centre.
    pub y: u32,
    /// The radius.
    pub r: u32,
}

impl Spot {
    /// The squares of distances inside the disc fit in a machine word.
    pub open spec fn wf(self) -> bool {
        self.r <= 32767
    }
}

/// A ball on screen: a colour for each squared distance from its centre.
pub struct ShadedSpot {
    /// Where it is.
    pub spot: Spot,
    /// Its colours by squared distance.
    pub shades: Vec<Color>,
}

impl ShadedSpot {
    /// There is a shade for every distance.
    pub open spec fn wf(self) -> bool {
        self.spot.wf() && self.spot.r * self.spot.r < self.shades.len()
    }

    /// The disc with this ball's shades.
    pub open spec fn layer(self) -> Layer {
        Layer::Disc {
            cx: self.spot.x as i64,
            cy: self.spot.y as i64,
            r: self.spot.r as i64,
            brush: Brush::Shaded(self.shades),
        }
    }
}

/// Walls are grey.
pub open spec fn wall_layer(wall: WallBox) -> Layer {
    Layer::Rect {
        x0: wall.x0 as i64,
        y0: wall.y0 as i64,
        x1: wall.x1 as i64,
        y1: wall.y1 as i64,
        color: (120, 120, 120),
    }
}

/// The target is a yellow disc.
pub open spec fn target_layer(target: Spot) -> Layer {
    Layer::Disc {
        cx: target.x as i64,
        cy: target.y as i64,
        r: target.r as i64,
        brush: Brush::Solid((180, 180, 60)),
    }
}

/// A trail brightens what lies under it.
pub open spec fn mark_layer(mark: (Spot, Color)) -> Layer {
    Layer::Disc {
        cx: mark.0.x as i64,
        cy: mark.0.y as i64,
        r: mark.0.r as i64,
        brush: Brush::Raise(mark.1),
    }
}

/// The scene from back to front: walls, target, trails, balls.
pub open spec fn scene_layers(
    walls: Seq<WallBox>,
    target: Spot,
    marks: Seq<(Spot, Color)>,
    balls: Seq<ShadedSpot>,
) -> Seq<Layer> {
    walls.map_values(|wall: WallBox| wall_layer(wall)) + seq![target_layer(target)]
        + marks.map_values(|mark: (Spot, Color)| mark_layer(mark)) + balls.map_values(
        |ball: ShadedSpot| ball.layer(),
    )
}

/// Paints the scene on a square of `size` pixels a side over rows of grey.
pub fn render(
    size: u32,
    shades: &[u8],
    walls: &[WallBox],
    target: Spot,
    marks: &[(Spot, Color)],
    balls: Vec<ShadedSpot>,
) -> (picture: Picture)
    requires
        3 * size * size <= isize::MAX,
        shades.len() == size,
        target.wf(),
        forall|i: int| 0 <= i < marks.len() ==> (#[trigger] marks[i]).0.wf(),
        forall|i: int| 0 <= i < balls.len() ==> (#[trigger] balls[i]).wf(),
    ensures
        picture.wf(),
        picture.columns() == size,
        picture.rows() == size,
        forall|x: int, y: int|
            0 <= x < size && 0 <= y < size ==> #[trigger] picture.at(x, y) == all_over(
                scene_layers(walls@, target, marks@, balls@),
                (shades[y], shades[y], shades[y]),
                x,
                y,
            ),
{
    let ghost wanted = scene_layers(walls@, target, marks@, balls@);
    let mut layers: Vec<Layer> = Vec::new();
    for i in 0..walls.len()
        invariant
            layers@ =~= walls@.map_values(|wall: WallBox| wall_layer(wall)).take(i as int),
    {
        let w = walls[i];
        layers.push(
            Layer::Rect {
                x0: w.x0 as i64,
                y0: w.y0 as i64,
                x1: w.x1 as i64,
                y1: w.y1 as i64,
                color: (120, 120, 120),
            },
        );
    }
    layers.push(
        Layer::Disc {
            cx: target.x as i64,
            cy: target.y as i64,
            r: target.r as i64,
            brush: Brush::Solid((180, 180, 60)),
        },
    );
    let ghost back = layers@;
    assert(back =~= walls@.map_values(|wall: WallBox| wall_layer(wall)) + seq![
        target_layer(target),
    ]);
    for i in 0..marks.len()
        invariant
            layers@ =~= back + marks@.map_values(|mark: (Spot, Color)| mark_layer(mark)).take(
                i as int,
            ),
    {
        let m = marks[i];
        layers.push(
            Layer::Disc {
                cx: m.0.x as i64,
                cy: m.0.y as i64,
                r: m.0.r as i64,
                brush: Brush::Raise(m.1),
            },
        );
    }
    let ghost middle = layers@;
    assert(middle =~= back + marks@.map_values(|mark: (Spot, Color)| mark_layer(mark)));
    let ghost all = balls@;
    let mut rest = balls;
    while rest.len() > 0
        invariant
            rest.len() <= all.len(),
            rest@ =~= all.skip(all.len() - rest.len()),
            layers@ =~= middle + all.map_values(|ball: ShadedSpot| ball.layer()).take(
                all.len() - rest.len(),
            ),
        decreases rest.len(),
    {
        let ball = rest.remove(0);
        let spot = ball.spot;
        layers.push(
            Layer::Disc {
                cx: spot.x as i64,
                cy: spot.y as i64,
                r: spot.r as i64,
                brush: Brush::Shaded(ball.shades),
            },
        );
    }
    assert(layers@ =~= wanted);
    assert forall|i: int| 0 <= i < layers.len() implies (#[trigger] layers[i]).wf() by {
        let a = walls.len() as int;
        let b = a + 1 + marks.len();
        if i < a {
            assert(layers[i] == wall_layer(walls[i]));
        } else if i == a {
            assert(layers[i] == target_layer(target));
        } else if i < b {
            assert(layers[i] == mark_layer(marks[i - a - 1]));
        } else {
            assert(layers[i] == all[i - b].layer());
        }
    }
    let mut rows: Vec<Color> = Vec::new();
    for i in 0..shades.len()
        invariant
            rows.len() == i,
            forall|j: int|
                0 <= j < i ==> #[trigger] rows[j] == (shades[j], shades[j], shades[j]),
    {
        rows.push((shades[i], shades[i], shades[i]));
    }
    proof {
        lemma_row_fits(size as int);
    }
    let mut picture = Picture::new(size, size);
    picture.fill_rows(rows.as_slice());
    picture.paint_all(layers.as_slice());
    picture
}

/// A pixel lies in a disc.
pub open spec fn within(spot: Spot, x: int, y: int) -> bool {
    (x - spot.x) * (x - spot.x) + (y - spot.y) * (y - spot.y) <= spot.r * spot.r
}

/// A pixel lies in a wall.
pub open spec fn walled(wall: WallBox, x: int, y: int) -> bool {
    wall.x0 <= x && x <= wall.x1 && wall.y0 <= y && y <= wall.y1
}

/// A scene is painted back to front. The last ball over a pixel hides all that was painted before
/// it, with the shade of the squared distance from its centre. Where no ball is, the last mark
/// leaves nothing darker than itself. Where no mark is either, the target hides walls, walls hide
/// the background, and beside them the background shows.
pub proof fn law_scene_is_painted_back_to_front(
    walls: Seq<WallBox>,
    target: Spot,
    marks: Seq<(Spot, Color)>,
    balls: Seq<ShadedSpot>,
    under: Color,
    x: int,
    y: int,
    k: int,
)
    ensures
        ({
            let color = all_over(scene_layers(walls, target, marks, balls), under, x, y);
            let no_ball = no_ball_from(balls, 0, x, y);
            let no_mark = no_mark_from(marks, 0, x, y);
            &&& 0 <= k < balls.len() && within(balls[k].spot, x, y) && no_ball_from(
                balls,
                k + 1,
                x,
                y,
            ) ==> color == balls[k].shades[(x - balls[k].spot.x) * (x - balls[k].spot.x) + (y
                - balls[k].spot.y) * (y - balls[k].spot.y)]
            &&& no_ball && 0 <= k < marks.len() && within(marks[k].0, x, y) && no_mark_from(
                marks,
                k + 1,
                x,
                y,
            ) ==> color.0 >= marks[k].1.0 && color.1 >= marks[k].1.1 && color.2 >= marks[k].1.2
            &&& no_ball && no_mark && within(target, x, y) ==> color == (180u8, 180u8, 60u8)
            &&& no_ball && no_mark && !within(target, x, y) && 0 <= k < walls.len() && walled(
                walls[k],
                x,
                y,
            ) && no_wall_from(walls, k + 1, x, y) ==> color == (120u8, 120u8, 120u8)
            &&& no_ball && no_mark && !within(target, x, y) && no_wall_from(walls, 0, x, y)
                ==> color == under
        }),
{
    let a = walls.map_values(|wall: WallBox| wall_layer(wall));
    let b = seq![target_layer(target)];
    let c = marks.map_values(|mark: (Spot, Color)| mark_layer(mark));
    let d = balls.map_values(|ball: ShadedSpot| ball.layer());
    let none = Seq::<Layer>::empty();
    assert(scene_layers(walls, target, marks, balls) == a + b + c + d);
    law_layers_stack(a + b + c, d, under, x, y);
    law_layers_stack(a + b, c, under, x, y);
    law_layers_stack(a, b, under, x, y);
    let on_walls = all_over(a, under, x, y);
    let on_target = all_over(b, on_walls, x, y);
    let on_marks = all_over(c, on_target, x, y);
    assert(b =~= none.push(target_layer(target)) + none);
    law_only_covering_layers_show(none, target_layer(target), none, on_walls, x, y);
    if 0 <= k < balls.len() && no_ball_from(balls, k + 1, x, y) {
        assert forall|i: int, c: Color| k < i < d.len() implies #[trigger] d[i].over(c, x, y)
            == c by {
            assert(!within(balls[i].spot, x, y));
        }
        lemma_last_to_cover(d, k, on_marks, x, y);
    }
    if 0 <= k < marks.len() && no_mark_from(marks, k + 1, x, y) {
        assert forall|i: int, u: Color| k < i < c.len() implies #[trigger] c[i].over(u, x, y)
            == u by {
            assert(!within(marks[i].0, x, y));
        }
        lemma_last_to_cover(c, k, on_target, x, y);
    }
    if 0 <= k < walls.len() && no_wall_from(walls, k + 1, x, y) {
        assert forall|i: int, c: Color| k < i < a.len() implies #[trigger] a[i].over(c, x, y)
            == c by {
            assert(!walled(walls[i], x, y));
        }
        lemma_last_to_cover(a, k, under, x, y);
    }
    if no_ball_from(balls, 0, x, y) {
        assert forall|i: int, c: Color| 0 <= i < d.len() implies #[trigger] d[i].over(c, x, y)
            == c by {
            assert(!within(balls[i].spot, x, y));
        }
        assert(d =~= d + none);
        law_only_covering_layers_show(d, target_layer(target), none, on_marks, x, y);
    }
    if no_mark_from(marks, 0, x, y) {
        assert forall|i: int, u: Color| 0 <= i < c.len() implies #[trigger] c[i].over(u, x, y)
            == u by {
            assert(!within(marks[i].0, x, y));
        }
        assert(c =~= c + none);
        law_only_covering_layers_show(c, target_layer(target), none, on_target, x, y);
    }
    if no_wall_from(walls, 0, x, y) {
        assert forall|i: int, c: Color| 0 <= i < a.len() implies #[trigger] a[i].over(c, x, y)
            == c by {
            assert(!walled(walls[i], x, y));
        }
        assert(a =~= a + none);
        law_only_covering_layers_show(a, target_layer(target), none, under, x, y);
    }
}

/// No ball from number `n` on lies over a pixel.
pub open spec fn no_ball_from(balls: Seq<ShadedSpot>, n: int, x: int, y: int) -> bool {
    forall|i: int| n <= i < balls.len() ==> !within((#[trigger] balls[i]).spot, x, y)
}

/// No mark from number `n` on lies over a pixel.
pub open spec fn no_mark_from(marks: Seq<(Spot, Color)>, n: int, x: int, y: int) -> bool {
    forall|i: int| n <= i < marks.len() ==> !within((#[trigger] marks[i]).0, x, y)
}

/// No wall from number `n` on lies over a pixel.
pub open spec fn no_wall_from(walls: Seq<WallBox>, n: int, x: int, y: int) -> bool {
    forall|i: int| n <= i < walls.len() ==> !walled(#[trigger] walls[i], x, y)
}

/// Layers that leave a pixel as it is do not matter after the last one that does not.
proof fn lemma_last_to_cover(layers: Seq<Layer>, k: int, under: Color, x: int, y: int)
    requires
        0 <= k < layers.len(),
        forall|i: int, c: Color|
            k < i < layers.len() ==> #[trigger] layers[i].over(c, x, y) == c,
    ensures
        all_over(layers, under, x, y) == layers[k].over(
            all_over(layers.take(k), under, x, y),
            x,
            y,
        ),
{
    let none = Seq::<Layer>::empty();
    let rest = layers.skip(k + 1);
    let first = layers.take(k);
    let mid = all_over(first, under, x, y);
    assert forall|i: int, c: Color| 0 <= i < rest.len() implies #[trigger] rest[i].over(c, x, y)
        == c by {
        assert(layers[k + 1 + i].over(c, x, y) == c);
    }
    assert(layers =~= first + (none.push(layers[k]) + rest));
    law_layers_stack(first, none.push(layers[k]) + rest, under, x, y);
    law_only_covering_layers_show(none, layers[k], rest, mid, x, y);
}

/// The colours of the palette are all different.
pub proof fn law_palette_differs(i: int, j: int)
    requires
        0 <= i < j < 6,
    ensures
        palette(i) != palette(j),
        palette(i) != (60u8, 220u8, 220u8),
        palette(j) != (60u8, 220u8, 220u8),
{
}

/// The player's colour is no other ball's. Six balls in a row have six colours, and then the
/// colours come again.
pub proof fn law_ball_colors_take_turns(i: int, j: int)
    requires
        0 < i < j,
    ensures
        color_of_ball(0) == (60u8, 220u8, 220u8),
        color_of_ball(i) != color_of_ball(0),
        color_of_ball(i + 6) == color_of_ball(i),
        j < i + 6 ==> color_of_ball(i) != color_of_ball(j),
        color_of_ball(6) == palette(0),
{
    if j < i + 6 && i % 6 == j % 6 {
        assert(false);
    }
    if i % 6 < j % 6 {
        law_palette_differs(i % 6, j % 6);
    } else if j % 6 < i % 6 {
        law_palette_differs(j % 6, i % 6);
    }
}

/// The newest place of a trail is where the ball is now, and what was there before moves back.
pub proof fn law_trails_follow_their_balls<B, P, L: Fn(&B) -> P>(
    ball: B,
    before: Seq<P>,
    after: Seq<P>,
    keep: nat,
    place: L,
)
    requires
        trail_grown(ball, before, after, keep, place),
        0 < keep,
        before.len() <= keep,
    ensures
        place.ensures((&ball,), after.last()),
        after.len() == if before.len() < keep {
            before.len() + 1
        } else {
            keep
        },
        before.len() < keep ==> after.drop_last() == before,
        before.len() == keep ==> after.drop_last() == before.drop_first(),
{
    let p = choose|p: P| #[trigger]
        place.ensures((&ball,), p) && after == trail_step(before, p, keep);
    assert(trail_step(before, p, keep).last() == p);
    if before.len() < keep {
        assert(after.drop_last() =~= before);
    } else {
        assert(after.drop_last() =~= before.drop_first());
    }
}

/// A step of the world takes one tick, keeps all balls and walls, and adds to what is known of
/// collisions without changing it: what is new happened at this step.
pub proof fn law_world_steps_add_up<
    B,
    W,
    P,
    A: Fn(&B) -> B,
    M: Fn(&B) -> B,
    K: Fn(&B) -> B,
    O: Fn(&B, &W) -> B,
    C: Fn(&B, &B) -> Option<(B, B)>,
    L: Fn(&B) -> P,
>(
    before: ObjectWorld<B, W, P>,
    after: ObjectWorld<B, W, P>,
    drive: A,
    move_freely: M,
    keep_inside: K,
    bounce: O,
    collide: C,
    place: L,
    e: int,
)
    requires
        ObjectWorld::stepped(before, after, drive, move_freely, keep_inside, bounce, collide, place),
    ensures
        after.clock == before.clock.after(1),
        after.balls.len() == before.balls.len(),
        after.walls == before.walls,
        after.trail_len == before.trail_len,
        before.collision_events.len() <= after.collision_events.len(),
        0 <= e < before.collision_events.len() ==> after.collision_events[e]
            == before.collision_events[e],
        before.collision_events.len() <= e < after.collision_events.len()
            ==> after.collision_events[e].0 == before.clock.step_count,
        0 <= e < before.balls.len() ==> trail_grown(
            after.balls[e],
            before.trails[e]@,
            after.trails[e]@,
            before.trail_len as nat,
            place,
        ),
{
    let (driven, moved, kept, bounced, events) = choose|
        driven: Seq<B>,
        moved: Seq<B>,
        kept: Seq<B>,
        bounced: Seq<B>,
        events: Seq<(usize, usize, usize)>,
    |
        {
            &&& #[trigger] first_moved(before.balls@, driven, drive)
            &&& #[trigger] each_moved(driven, moved, move_freely)
            &&& #[trigger] each_moved(moved, kept, keep_inside)
            &&& #[trigger] each_held(kept, bounced, before.walls@, bounce)
            &&& #[trigger] collisions(
                bounced,
                after.balls@,
                events,
                before.clock.step_count as int,
                collide,
            )
            &&& after.collision_events@ == before.collision_events@ + events
        };
    law_events_are_ordered(bounced, after.balls@, events, before.clock.step_count as int, collide);
    let all = before.collision_events@ + events;
    assert(after.collision_events@ == all);
    if before.collision_events.len() <= e < after.collision_events.len() {
        assert(all[e] == events[e - before.collision_events.len()]);
    }
    assert(after.trails[e] == after.trails[e]);
}

} // verus!
