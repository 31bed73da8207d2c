//! The picture of a small world of balls and cubes seen from a fixed camera.
use crate::canvas::all_over;
use crate::canvas::Brush;
use crate::canvas::law_layers_stack;
use crate::canvas::law_only_covering_layers_show;
use crate::canvas::lemma_row_fits;
use crate::canvas::Color;
use crate::canvas::Layer;
use crate::canvas::Picture;
use crate::envs::bodies::collide_all;
use crate::envs::bodies::collisions;
use crate::envs::bodies::each_moved;
use crate::envs::bodies::first_moved;
use crate::envs::bodies::move_each;
use crate::envs::bodies::move_first;
use crate::envs::object_world;
use crate::episode::Clock;
use vstd::prelude::*;

verus! {

/// The colours that objects take in turn.
pub open spec fn palette(i: int) -> Color {
    if i == 0 {
        (255, 80, 80)
    } else if i == 1 {
        (80, 180, 255)
    } else if i == 2 {
        (80, 255, 120)
    } else if i == 3 {
        (255, 220, 60)
    } else if i == 4 {
        (200, 80, 255)
    } else if i == 5 {
        (255, 140, 40)
    } else {
        (60, 220, 220)
    }
}

/// The colour of object `i`.
pub fn object_color(i: usize) -> (color: Color)
    ensures
        color == palette(i as int % 7),
{
    match i % 7 {
        0 => (255, 80, 80),
        1 => (80, 180, 255),
        2 => (80, 255, 120),
        3 => (255, 220, 60),
        4 => (200, 80, 255),
        5 => (255, 140, 40),
        _ => (60, 220, 220),
    }
}

/// Which objects are balls.
pub open spec fn made_a_ball(i: int, lot: bool) -> bool {
    i % 2 == 0 || lot
}

/// Whether object `i` is a ball: every other object is, and so are those whose lot says so.
pub fn is_ball(i: usize, lot: bool) -> (yes: bool)
    ensures
        yes == (i % 2 == 0 || lot),
        yes == made_a_ball(i as int, lot),
{
    i % 2 == 0 || lot
}

/// An object is never shown smaller than two pixels in radius.
pub fn shown_radius(r: i32) -> (shown: i32)
    ensures
        shown == vstd::math::max(r as int, 2),
{
    if r > 2 {
        r
    } else {
        2
    }
}

/// A point of the ground grid: it is shown if its guard lies on screen.
#[derive(Clone, Copy, Debug, PartialEq, Eq, Structural)]
pub struct GridPoint {
    /// The column of the guard.
    pub guard_x: i32,
    /// The row of the guard.
    pub guard_y: i32,
    /// The column of the point.
    pub x: i32,
    /// The row of the point.
    pub y: i32,
}

impl GridPoint {
    /// The guard lies on a square screen of `size` pixels a side.
    pub open spec fn shown(self, size: int) -> bool {
        0 <= self.guard_x < size && 0 <= self.guard_y < size
    }

    /// One dark pixel.
    pub open spec fn layer(self) -> Layer {
        Layer::Rect {
            x0: self.x as i64,
            y0: self.y as i64,
            x1: self.x as i64,
            y1: self.y as i64,
            color: (60, 65, 70),
        }
    }
}

/// A disc on screen.
#[derive(Clone, Copy, Debug, PartialEq, Eq, Structural)]
pub struct ScreenDisc {
    /// The column of the centre.
    pub x: i32,
    /// The row of the centre.
    pub y: i32,
    /// The radius.
    pub r: i32,
}

impl ScreenDisc {
    /// The squares of distances inside the disc fit in a machine word.
    pub open spec fn wf(self) -> bool {
        0 <= self.r <= 32767
    }
}

/// An object on screen, with the shadow that it casts if it is above ground.
pub struct Solid {
    /// How far away it is, on any scale.
    pub depth: i64,
    /// Where it is.
    pub disc: ScreenDisc,
    /// Its colours by squared distance from the centre.
    pub shades: Vec<Color>,
    /// Its shadow on the ground, and what becomes of each shade of red in it.
    pub shadow: Option<(ScreenDisc, Vec<u8>)>,
}

impl Solid {
    /// There is a shade for every distance, and a shadow for every red.
    pub open spec fn wf(self) -> bool {
        &&& self.disc.wf()
        &&& self.disc.r * self.disc.r < self.shades.len()
        &&& match self.shadow {
            Some((disc, table)) => disc.wf() && table.len() == 256,
            None => true,
        }
    }

    /// The object itself.
    pub open spec fn body_layer(self) -> Layer {
        Layer::Disc {
            cx: self.disc.x as i64,
            cy: self.disc.y as i64,
            r: self.disc.r as i64,
            brush: Brush::Shaded(self.shades),
        }
    }

    /// The object, then its shadow.
    pub open spec fn layers(self) -> Seq<Layer> {
        match self.shadow {
            Some((disc, table)) => seq![
                self.body_layer(),
                Layer::Disc {
                    cx: disc.x as i64,
                    cy: disc.y as i64,
                    r: disc.r as i64,
                    brush: Brush::Shadow(table),
                },
            ],
            None => seq![self.body_layer()],
        }
    }
}

/// The grid points that are shown.
pub open spec fn grid_layers(points: Seq<GridPoint>, size: int) -> Seq<Layer>
    decreases points.len(),
{
    if points.len() == 0 {
        Seq::empty()
    } else if points.last().shown(size) {
        grid_layers(points.drop_last(), size).push(points.last().layer())
    } else {
        grid_layers(points.drop_last(), size)
    }
}

/// The objects one after the other, each with its shadow.
pub open spec fn solid_layers(solids: Seq<Solid>) -> Seq<Layer>
    decreases solids.len(),
{
    if solids.len() == 0 {
        Seq::empty()
    } else {
        solid_layers(solids.drop_last()) + solids.last().layers()
    }
}

/// `order` with `solid` put in behind all that is not nearer.
pub open spec fn put_in(order: Seq<Solid>, solid: Solid) -> Seq<Solid>
    decreases order.len(),
{
    if order.len() == 0 || order.last().depth >= solid.depth {
        order.push(solid)
    } else {
        put_in(order.drop_last(), solid).push(order.last())
    }
}

/// The objects from far to near. Objects that are equally far keep their order.
pub open spec fn far_to_near(solids: Seq<Solid>) -> Seq<Solid>
    decreases solids.len(),
{
    if solids.len() == 0 {
        Seq::empty()
    } else {
        put_in(far_to_near(solids.drop_last()), solids.last())
    }
}

/// No object is followed by one that is farther away.
pub open spec fn recedes_never(order: Seq<Solid>) -> bool {
    forall|i: int, j: int|
        0 <= i <= j < order.len() ==> (#[trigger] order[i]).depth >= (#[trigger] order[j]).depth
}

/// Where an object is put in.
proof fn lemma_put_in_place(order: Seq<Solid>, solid: Solid, at: int)
    requires
        0 <= at <= order.len(),
        at == 0 || order[at - 1].depth >= solid.depth,
        forall|i: int| at <= i < order.len() ==> (#[trigger] order[i]).depth < solid.depth,
    ensures
        put_in(order, solid) =~= order.insert(at, solid),
    decreases order.len(),
{
    if at < order.len() {
        lemma_put_in_place(order.drop_last(), solid, at);
    }
}

proof fn lemma_put_in(order: Seq<Solid>, solid: Solid)
    requires
        recedes_never(order),
    ensures
        recedes_never(put_in(order, solid)),
        put_in(order, solid).to_multiset() =~= order.to_multiset().insert(solid),
        put_in(order, solid).len() == order.len() + 1,
        forall|i: int|
            0 <= i < put_in(order, solid).len() ==> (#[trigger] put_in(order, solid)[i]).depth
                >= solid.depth || (order.len() > 0 && put_in(order, solid)[i].depth
                >= order.last().depth),
    decreases order.len(),
{
    broadcast use vstd::seq_lib::group_to_multiset_ensures;

    if order.len() == 0 || order.last().depth >= solid.depth {
        assert(put_in(order, solid) == order.push(solid));
    } else {
        let shorter = order.drop_last();
        lemma_put_in(shorter, solid);
        let inner = put_in(shorter, solid);
        assert(put_in(order, solid) == inner.push(order.last()));
        assert(order =~= shorter.push(order.last()));
    }
}

/// Objects are painted from far to near, and each of them is painted.
pub proof fn law_painted_far_to_near(solids: Seq<Solid>)
    ensures
        recedes_never(far_to_near(solids)),
        far_to_near(solids).to_multiset() =~= solids.to_multiset(),
    decreases solids.len(),
{
    broadcast use vstd::seq_lib::group_to_multiset_ensures;

    if solids.len() > 0 {
        law_painted_far_to_near(solids.drop_last());
        lemma_put_in(far_to_near(solids.drop_last()), solids.last());
        assert(solids =~= solids.drop_last().push(solids.last()));
    } else {
        assert(far_to_near(solids) =~= solids);
    }
}

/// There is only one way to paint objects from far to near if no two are equally far.
proof fn lemma_one_order(a: Seq<Solid>, b: Seq<Solid>)
    requires
        recedes_never(a),
        recedes_never(b),
        a.to_multiset() == b.to_multiset(),
        forall|x: Solid, y: Solid|
            #![trigger a.contains(x), a.contains(y)]
            a.contains(x) && a.contains(y) && x.depth == y.depth ==> x == y,
    ensures
        a =~= b,
    decreases a.len(),
{
    broadcast use vstd::seq_lib::group_to_multiset_ensures;

    assert(a.len() == a.to_multiset().len() && b.len() == b.to_multiset().len());
    if a.len() > 0 {
        let x = a.last();
        let y = b.last();
        assert(a.contains(x) && b.contains(y));
        assert(b.to_multiset().count(x) > 0 && a.to_multiset().count(y) > 0);
        assert(b.contains(x) && a.contains(y));
        let i = choose|i: int| 0 <= i < b.len() && b[i] == x;
        let j = choose|j: int| 0 <= j < a.len() && a[j] == y;
        assert(b[i].depth >= b[b.len() - 1].depth);
        assert(a[j].depth >= a[a.len() - 1].depth);
        assert(x == y);
        let fewer = a.drop_last();
        let others = b.drop_last();
        assert(a =~= fewer.push(x));
        assert(b =~= others.push(x));
        assert(fewer.to_multiset() =~= a.to_multiset().remove(x));
        assert(others.to_multiset() =~= b.to_multiset().remove(x));
        assert forall|p: Solid, q: Solid|
            #![trigger fewer.contains(p), fewer.contains(q)]
            fewer.contains(p) && fewer.contains(q) && p.depth == q.depth implies p == q by {
            let k = choose|k: int| 0 <= k < fewer.len() && fewer[k] == p;
            let l = choose|l: int| 0 <= l < fewer.len() && fewer[l] == q;
            assert(a[k] == p && a[l] == q);
            assert(a.contains(p) && a.contains(q));
        }
        lemma_one_order(fewer, others);
    }
}

/// Putting objects in order leaves them as they are.
proof fn lemma_solids_stay_whole(solids: Seq<Solid>, order: Seq<Solid>)
    requires
        order.to_multiset() == solids.to_multiset(),
        forall|i: int| 0 <= i < solids.len() ==> (#[trigger] solids[i]).wf(),
    ensures
        forall|i: int| 0 <= i < order.len() ==> (#[trigger] order[i]).wf(),
{
    broadcast use vstd::seq_lib::group_to_multiset_ensures;

    assert forall|i: int| 0 <= i < order.len() implies (#[trigger] order[i]).wf() by {
        assert(order.contains(order[i]));
        assert(solids.to_multiset().count(order[i]) > 0);
        assert(solids.contains(order[i]));
    }
}

/// The colour in column `x` of row `y`: the ground grid and then the objects, from far to near,
/// over rows of sky.
pub open spec fn scene_color(
    size: int,
    sky: Seq<Color>,
    points: Seq<GridPoint>,
    solids: Seq<Solid>,
    x: int,
    y: int,
) -> Color {
    all_over(grid_layers(points, size) + solid_layers(far_to_near(solids)), sky[y], x, y)
}

/// The picture does not depend on the order in which objects are listed, as long as no two of them
/// are equally far.
pub proof fn law_listing_does_not_show(
    size: int,
    sky: Seq<Color>,
    points: Seq<GridPoint>,
    solids: Seq<Solid>,
    listed: Seq<Solid>,
    x: int,
    y: int,
)
    requires
        listed.to_multiset() == solids.to_multiset(),
        forall|i: int, j: int|
            0 <= i < j < solids.len() ==> (#[trigger] solids[i]).depth != (
            #[trigger] solids[j]).depth,
    ensures
        far_to_near(listed) == far_to_near(solids),
        scene_color(size, sky, points, listed, x, y) == scene_color(
            size,
            sky,
            points,
            solids,
            x,
            y,
        ),
{
    broadcast use vstd::seq_lib::group_to_multiset_ensures;

    law_painted_far_to_near(solids);
    law_painted_far_to_near(listed);
    let order = far_to_near(solids);
    assert forall|p: Solid, q: Solid|
        #![trigger order.contains(p), order.contains(q)]
        order.contains(p) && order.contains(q) && p.depth == q.depth implies p == q by {
        assert(order.to_multiset().count(p) > 0 && order.to_multiset().count(q) > 0);
        assert(solids.contains(p) && solids.contains(q));
        let k = choose|k: int| 0 <= k < solids.len() && solids[k] == p;
        let l = choose|l: int| 0 <= l < solids.len() && solids[l] == q;
        assert(solids[k].depth == solids[l].depth);
    }
    lemma_one_order(order, far_to_near(listed));
}

/// Puts objects in order from far to near.
fn order_by_depth(solids: Vec<Solid>) -> (order: Vec<Solid>)
    ensures
        order@ == far_to_near(solids@),
{
    let ghost all = solids@;
    let mut rest = solids;
    let mut order: Vec<Solid> = Vec::new();
    assert(all.take(0) =~= Seq::empty());
    while rest.len() > 0
        invariant
            rest.len() <= all.len(),
            rest@ =~= all.skip(all.len() - rest.len()),
            order@ == far_to_near(all.take(all.len() - rest.len())),
        decreases rest.len(),
    {
        let ghost done = all.len() - rest.len();
        let solid = rest.remove(0);
        proof {
            assert(solid == all[done]);
            assert(all.take(done + 1).drop_last() =~= all.take(done));
            assert(all.take(done + 1).last() == solid);
        }
        let mut at: usize = order.len();
        while at > 0 && order[at - 1].depth < solid.depth
            invariant
                at <= order.len(),
                forall|i: int|
                    at <= i < order.len() ==> (#[trigger] order[i]).depth < solid.depth,
            decreases at,
        {
            at = at - 1;
        }
        proof {
            lemma_put_in_place(order@, solid, at as int);
        }
        order.insert(at, solid);
    }
    assert(all.take(all.len() as int) =~= all);
    order
}

/// Paints the ground grid and then the objects, from far to near, over rows of sky.
pub fn render(size: u32, sky: &[Color], points: &[GridPoint], solids: Vec<Solid>) -> (picture:
    Picture)
    requires
        3 * size * size <= isize::MAX,
        sky.len() == size,
        forall|i: int| 0 <= i < solids.len() ==> (#[trigger] solids[i]).wf(),
    ensures
        picture.wf(),
        picture.columns() == size,
        picture.rows() == size,
        forall|x: int, y: int|
            0 <= x < size && 0 <= y < size ==> #[trigger] picture.at(x, y) == scene_color(
                size as int,
                sky@,
                points@,
                solids@,
                x,
                y,
            ),
{
    let mut layers: Vec<Layer> = Vec::new();
    assert(points@.take(0) =~= Seq::empty());
    for i in 0..points.len()
        invariant
            layers@ =~= grid_layers(points@.take(i as int), size as int),
            forall|k: int| 0 <= k < layers.len() ==> (#[trigger] layers[k]).wf(),
    {
        let p = points[i];
        assert(points@.take(i + 1).drop_last() =~= points@.take(i as int));
        assert(points@.take(i + 1).last() == p);
        if 0 <= p.guard_x && (p.guard_x as i64) < size as i64 && 0 <= p.guard_y && (
        p.guard_y as i64) < size as i64 {
            layers.push(
                Layer::Rect {
                    x0: p.x as i64,
                    y0: p.y as i64,
                    x1: p.x as i64,
                    y1: p.y as i64,
                    color: (60, 65, 70),
                },
            );
        }
    }
    assert(points@.take(points.len() as int) =~= points@);
    let ghost grid = layers@;
    proof {
        law_painted_far_to_near(solids@);
        lemma_solids_stay_whole(solids@, far_to_near(solids@));
    }
    let mut rest = order_by_depth(solids);
    let ghost all = rest@;
    assert(all.take(0) =~= Seq::empty());
    while rest.len() > 0
        invariant
            rest.len() <= all.len(),
            rest@ =~= all.skip(all.len() - rest.len()),
            layers@ =~= grid + solid_layers(all.take(all.len() - rest.len())),
            forall|i: int| 0 <= i < all.len() ==> (#[trigger] all[i]).wf(),
            forall|k: int| 0 <= k < layers.len() ==> (#[trigger] layers[k]).wf(),
        decreases rest.len(),
    {
        let ghost done = all.len() - rest.len();
        let solid = rest.remove(0);
        assert(solid == all[done]);
        assert(all.take(done + 1).drop_last() =~= all.take(done));
        assert(all.take(done + 1).last() == solid);
        let ghost before = layers@;
        let disc = solid.disc;
        layers.push(
            Layer::Disc {
                cx: disc.x as i64,
                cy: disc.y as i64,
                r: disc.r as i64,
                brush: Brush::Shaded(solid.shades),
            },
        );
        match solid.shadow {
            Some((shadow, table)) => {
                layers.push(
                    Layer::Disc {
                        cx: shadow.x as i64,
                        cy: shadow.y as i64,
                        r: shadow.r as i64,
                        brush: Brush::Shadow(table),
                    },
                );
            },
            None => {},
        }
        assert(layers@ =~= before + all[done].layers());
    }
    assert(all.take(all.len() as int) =~= all);
    proof {
        lemma_row_fits(size as int);
    }
    let mut picture = Picture::new(size, size);
    picture.fill_rows(sky);
    picture.paint_all(layers.as_slice());
    picture
}

/// One step of the world: the first object is driven, all objects move freely and are kept within
/// bounds, and pairs of objects collide.
pub open spec fn stepped<
    T,
    A: Fn(&T) -> T,
    M: Fn(&T) -> T,
    K: Fn(&T) -> T,
    C: Fn(&T, &T) -> Option<(T, T)>,
>(
    before: Seq<T>,
    after: Seq<T>,
    step: int,
    drive: A,
    move_freely: M,
    keep_inside: K,
    collide: C,
) -> bool {
    exists|driven: Seq<T>, moved: Seq<T>, kept: Seq<T>, events: Seq<(usize, usize, usize)>|
        {
            &&& #[trigger] first_moved(before, driven, drive)
            &&& #[trigger] each_moved(driven, moved, move_freely)
            &&& #[trigger] each_moved(moved, kept, keep_inside)
            &&& #[trigger] collisions(kept, after, events, step, collide)
        }
}

/// Takes one step and says whether the episode is over.
pub fn physics_step<
    T,
    A: Fn(&T) -> T,
    M: Fn(&T) -> T,
    K: Fn(&T) -> T,
    C: Fn(&T, &T) -> Option<(T, T)>,
>(
    objects: &mut Vec<T>,
    clock: &mut Clock,
    drive: A,
    move_freely: M,
    keep_inside: K,
    collide: C,
) -> (done: bool)
    requires
        old(clock).step_count < usize::MAX,
        forall|o: &T| #[trigger] drive.requires((o,)),
        forall|o: &T| #[trigger] move_freely.requires((o,)),
        forall|o: &T| #[trigger] keep_inside.requires((o,)),
        forall|a: &T, b: &T| #[trigger] collide.requires((a, b)),
    ensures
        final(objects).len() == old(objects).len(),
        stepped(
            old(objects)@,
            final(objects)@,
            old(clock).step_count as int,
            drive,
            move_freely,
            keep_inside,
            collide,
        ),
        final(clock).step_count == old(clock).step_count + 1,
        final(clock).max_steps == old(clock).max_steps,
        done == (final(clock).step_count >= final(clock).max_steps),
{
    let ghost start = objects@;
    move_first(objects, drive);
    let ghost driven = objects@;
    assert(driven.len() == start.len());
    move_each(objects, move_freely);
    let ghost moved = objects@;
    move_each(objects, keep_inside);
    let ghost kept = objects@;
    let events = collide_all(objects, clock.step_count, collide);
    proof {
        assert(first_moved(start, driven, drive));
        assert(each_moved(driven, moved, move_freely));
        assert(each_moved(moved, kept, keep_inside));
        assert(collisions(kept, objects@, events@, clock.step_count as int, collide));
    }
    clock.tick(false)
}

/// Solids of one depth.
pub open spec fn at_depth(depth: i64) -> spec_fn(Solid) -> bool {
    |solid: Solid| solid.depth == depth
}

/// Solids that are equally far away are painted in the order in which they are listed.
pub proof fn law_equal_depths_keep_their_order(solids: Seq<Solid>, depth: i64)
    ensures
        far_to_near(solids).filter(at_depth(depth)) == solids.filter(at_depth(depth)),
    decreases solids.len(),
{
    reveal(Seq::filter);
    if solids.len() > 0 {
        law_equal_depths_keep_their_order(solids.drop_last(), depth);
        law_painted_far_to_near(solids.drop_last());
        lemma_put_in_keeps_order(far_to_near(solids.drop_last()), solids.last(), depth);
    }
}

/// Putting a solid in adds it behind those of its depth.
proof fn lemma_put_in_keeps_order(order: Seq<Solid>, solid: Solid, depth: i64)
    requires
        recedes_never(order),
    ensures
        put_in(order, solid).filter(at_depth(depth)) == if solid.depth == depth {
            order.filter(at_depth(depth)).push(solid)
        } else {
            order.filter(at_depth(depth))
        },
    decreases order.len(),
{
    reveal(Seq::filter);
    if order.len() == 0 || order.last().depth >= solid.depth {
        assert(order.push(solid).drop_last() =~= order);
    } else {
        let fewer = order.drop_last();
        assert(recedes_never(fewer));
        lemma_put_in_keeps_order(fewer, solid, depth);
        let put = put_in(fewer, solid);
        assert(put.push(order.last()).drop_last() =~= put);
    }
}

/// Without solids a pixel shows a point of the grid if a point that is shown lies on it, else the
/// sky of its row.
pub proof fn law_grid_points_show(
    size: int,
    sky: Seq<Color>,
    points: Seq<GridPoint>,
    x: int,
    y: int,
    k: int,
)
    ensures
        ({
            let color = scene_color(size, sky, points, Seq::empty(), x, y);
            &&& 0 <= k < points.len() && points[k].x == x && points[k].y == y && 0
                <= points[k].guard_x < size && 0 <= points[k].guard_y < size ==> color == (
                60u8,
                65u8,
                70u8,
            )
            &&& (forall|i: int|
                0 <= i < points.len() ==> (#[trigger] points[i]).x != x || points[i].y != y
                    || points[i].guard_x < 0 || points[i].guard_x >= size || points[i].guard_y < 0
                    || points[i].guard_y >= size) ==> color == sky[y]
        }),
    decreases points.len(),
{
    let none = Seq::<Solid>::empty();
    assert(far_to_near(none) == none);
    assert(solid_layers(none) == Seq::<Layer>::empty());
    assert(grid_layers(points, size) + solid_layers(none) =~= grid_layers(points, size));
    if points.len() > 0 {
        let fewer = points.drop_last();
        law_grid_points_show(size, sky, fewer, x, y, k);
        assert(grid_layers(fewer, size) + solid_layers(none) =~= grid_layers(fewer, size));
        if points.last().shown(size) {
            assert(grid_layers(points, size).drop_last() =~= grid_layers(fewer, size));
            assert(grid_layers(points, size).last() == points.last().layer());
        }
        if forall|i: int|
            0 <= i < points.len() ==> (#[trigger] points[i]).x != x || points[i].y != y
                || points[i].guard_x < 0 || points[i].guard_x >= size || points[i].guard_y < 0
                || points[i].guard_y >= size {
            assert forall|i: int| 0 <= i < fewer.len() implies (#[trigger] fewer[i]).x != x
                || fewer[i].y != y || fewer[i].guard_x < 0 || fewer[i].guard_x >= size
                || fewer[i].guard_y < 0 || fewer[i].guard_y >= size by {
                assert(fewer[i] == points[i]);
            }
            assert(points[points.len() - 1] == points.last());
        }
    }
}

/// The nearest solid is painted last, and its shadow after itself: where its shadow lies, the red of
/// what is there decides red and green, and elsewhere on it its shade shows.
pub proof fn law_nearest_solid_shows(
    size: int,
    sky: Seq<Color>,
    points: Seq<GridPoint>,
    solids: Seq<Solid>,
    near: Solid,
    x: int,
    y: int,
)
    requires
        forall|i: int| 0 <= i < solids.len() ==> (#[trigger] solids[i]).depth >= near.depth,
    ensures
        ({
            let behind = scene_color(size, sky, points, solids, x, y);
            let color = scene_color(size, sky, points, solids.push(near), x, y);
            let d2 = (x - near.disc.x) * (x - near.disc.x) + (y - near.disc.y) * (y - near.disc.y);
            let inside = 0 <= near.disc.r && d2 <= near.disc.r * near.disc.r;
            let body = if inside {
                near.shades[d2]
            } else {
                behind
            };
            match near.shadow {
                None => color == body,
                Some((disc, table)) => {
                    let s2 = (x - disc.x) * (x - disc.x) + (y - disc.y) * (y - disc.y);
                    let shaded = 0 <= disc.r && s2 <= disc.r * disc.r;
                    &&& !shaded ==> color == body
                    &&& shaded ==> color.0 == table[body.0 as int] && color.1 == table[body.0 as int]
                        && color.2 == body.2
                },
            }
        }),
{
    let all = solids.push(near);
    assert(all.drop_last() =~= solids);
    let order = far_to_near(solids);
    law_painted_far_to_near(solids);
    if order.len() > 0 {
        lemma_solids_stay_listed(solids, order, order.len() - 1);
    }
    assert(far_to_near(all) == order.push(near));
    assert(order.push(near).drop_last() =~= order);
    let grid = grid_layers(points, size);
    assert(solid_layers(order.push(near)) == solid_layers(order) + near.layers());
    assert(grid + solid_layers(order.push(near)) =~= (grid + solid_layers(order)) + near.layers());
    law_layers_stack(grid + solid_layers(order), near.layers(), sky[y], x, y);
    let behind = all_over(grid + solid_layers(order), sky[y], x, y);
    let none = Seq::<Layer>::empty();
    match near.shadow {
        None => {
            assert(near.layers() =~= none.push(near.body_layer()) + none);
            law_only_covering_layers_show(none, near.body_layer(), none, behind, x, y);
        },
        Some((disc, table)) => {
            let shade = Layer::Disc {
                cx: disc.x as i64,
                cy: disc.y as i64,
                r: disc.r as i64,
                brush: Brush::Shadow(table),
            };
            let first = none.push(near.body_layer());
            let second = none.push(shade);
            assert(near.layers() =~= first + second);
            law_layers_stack(first, second, behind, x, y);
            assert(first =~= first + none);
            assert(second =~= second + none);
            law_only_covering_layers_show(none, near.body_layer(), none, behind, x, y);
            law_only_covering_layers_show(
                none,
                shade,
                none,
                near.body_layer().over(behind, x, y),
                x,
                y,
            );
        },
    }
}

/// What is in the order of painting was listed.
proof fn lemma_solids_stay_listed(solids: Seq<Solid>, order: Seq<Solid>, at: int)
    requires
        order.to_multiset() =~= solids.to_multiset(),
        0 <= at < order.len(),
    ensures
        exists|i: int| 0 <= i < solids.len() && solids[i] == order[at],
{
    broadcast use vstd::seq_lib::group_to_multiset_ensures;

    assert(order.contains(order[at]));
    assert(order.to_multiset().count(order[at]) > 0);
    assert(solids.contains(order[at]));
}

/// Solids have the colours of the balls of the flat world, and one more.
pub proof fn law_palette_goes_on(i: int)
    requires
        0 <= i < 6,
    ensures
        palette(i) == object_world::palette(i),
        palette(6) == (60u8, 220u8, 220u8),
{
}

/// Of two neighbours one is a ball whatever its lot, and the other is one if its lot says so.
pub proof fn law_every_other_object_is_a_ball(i: int, lot: bool)
    ensures
        made_a_ball(i, lot) || made_a_ball(i + 1, lot),
        made_a_ball(0, lot),
        made_a_ball(i, false) != made_a_ball(i + 1, false),
        made_a_ball(i, true),
        made_a_ball(i, lot) == made_a_ball(i + 2, lot),
{
}

} // verus!
