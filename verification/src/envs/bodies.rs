//! Bodies that move on their own and collide in pairs.
use crate::envs::object_world::all_pairs;
use crate::envs::object_world::law_each_pair_once;
use crate::envs::object_world::pairs_below;
use crate::envs::object_world::pairs_view;
use crate::episode::push_trail;
use crate::episode::trail_step;
use vstd::prelude::*;

verus! {

// ---- Each on its own ----------------------------------------------------------------------------
/// Every body has become what `act` makes of it.
pub open spec fn each_moved<T, F: Fn(&T) -> T>(before: Seq<T>, after: Seq<T>, act: F) -> bool {
    &&& after.len() == before.len()
    &&& forall|i: int|
        0 <= i < before.len() ==> act.ensures((&before[i],), #[trigger] after[i])
}

/// The first body has become what `act` makes of it, if there is one; the others stay.
pub open spec fn first_moved<T, F: Fn(&T) -> T>(before: Seq<T>, after: Seq<T>, act: F) -> bool {
    if before.len() == 0 {
        after == before
    } else {
        after == before.update(0, after[0]) && act.ensures((&before[0],), after[0])
    }
}

/// Replaces the first body, if there is one, by what `act` makes of it.
pub fn move_first<T, F: Fn(&T) -> T>(bodies: &mut Vec<T>, act: F)
    requires
        forall|body: &T| #[trigger] act.requires((body,)),
    ensures
        first_moved(old(bodies)@, final(bodies)@, act),
{
    if bodies.len() > 0 {
        let moved = act(&bodies[0]);
        bodies.set(0, moved);
        assert(bodies@ =~= old(bodies)@.update(0, bodies@[0]));
    }
}

/// Replaces every body by what `act` makes of it.
pub fn move_each<T, F: Fn(&T) -> T>(bodies: &mut Vec<T>, act: F)
    requires
        forall|body: &T| #[trigger] act.requires((body,)),
    ensures
        each_moved(old(bodies)@, final(bodies)@, act),
{
    let n: usize = bodies.len();
    for i in 0..n
        invariant
            n == bodies.len(),
            n == old(bodies).len(),
            forall|body: &T| #[trigger] act.requires((body,)),
            forall|k: int|
                0 <= k < i ==> act.ensures((&old(bodies)[k],), #[trigger] bodies[k]),
            forall|k: int| i <= k < n ==> #[trigger] bodies[k] == old(bodies)[k],
    {
        let moved = act(&bodies[i]);
        bodies.set(i, moved);
    }
}

/// `states` runs from `before` to `after`, one state further with each wall that the body is held
/// against.
pub open spec fn held_in_turn<T, W, F: Fn(&T, &W) -> T>(
    states: Seq<T>,
    before: T,
    after: T,
    walls: Seq<W>,
    bounce: F,
) -> bool {
    &&& states.len() == walls.len() + 1
    &&& states[0] == before
    &&& states.last() == after
    &&& forall|k: int|
        #![trigger walls[k]]
        0 <= k < walls.len() ==> bounce.ensures((&states[k], &walls[k]), states[k + 1])
}

/// The body was held against all walls in order.
pub open spec fn held_against<T, W, F: Fn(&T, &W) -> T>(
    before: T,
    after: T,
    walls: Seq<W>,
    bounce: F,
) -> bool {
    exists|states: Seq<T>| #[trigger] held_in_turn(states, before, after, walls, bounce)
}

/// Every body was held against all walls in order.
pub open spec fn each_held<T, W, F: Fn(&T, &W) -> T>(
    before: Seq<T>,
    after: Seq<T>,
    walls: Seq<W>,
    bounce: F,
) -> bool {
    &&& after.len() == before.len()
    &&& forall|i: int|
        0 <= i < before.len() ==> held_against(before[i], #[trigger] after[i], walls, bounce)
}

/// Holds every body against all walls in order; `bounce` makes of a body and a wall what becomes
/// of the body.
pub fn bounce_each<T, W, F: Fn(&T, &W) -> T>(bodies: &mut Vec<T>, walls: &[W], bounce: F)
    requires
        forall|body: &T, wall: &W| #[trigger] bounce.requires((body, wall)),
    ensures
        each_held(old(bodies)@, final(bodies)@, walls@, bounce),
{
    let n: usize = bodies.len();
    for i in 0..n
        invariant
            n == bodies.len(),
            n == old(bodies).len(),
            forall|body: &T, wall: &W| #[trigger] bounce.requires((body, wall)),
            forall|k: int|
                0 <= k < i ==> held_against(
                    old(bodies)[k],
                    #[trigger] bodies[k],
                    walls@,
                    bounce,
                ),
            forall|k: int| i <= k < n ==> #[trigger] bodies[k] == old(bodies)[k],
    {
        let ghost start = bodies@[i as int];
        let ghost mut states: Seq<T> = seq![start];
        for k in 0..walls.len()
            invariant
                i < n,
                n == bodies.len(),
                n == old(bodies).len(),
                start == old(bodies)[i as int],
                forall|body: &T, wall: &W| #[trigger] bounce.requires((body, wall)),
                held_in_turn(states, start, bodies[i as int], walls@.take(k as int), bounce),
                forall|m: int|
                    0 <= m < i ==> held_against(
                        old(bodies)[m],
                        #[trigger] bodies[m],
                        walls@,
                        bounce,
                    ),
                forall|m: int| i < m < n ==> #[trigger] bodies[m] == old(bodies)[m],
        {
            let ghost before = bodies@[i as int];
            let bounced = bounce(&bodies[i], &walls[k]);
            bodies.set(i, bounced);
            proof {
                let longer = states.push(bodies@[i as int]);
                let more = walls@.take(k + 1);
                assert forall|m: int| #![trigger more[m]] 0 <= m < more.len() implies bounce.ensures(
                    (&longer[m], &more[m]),
                    longer[m + 1],
                ) by {
                    if m < k {
                        assert(more[m] == walls@.take(k as int)[m]);
                        assert(longer[m] == states[m] && longer[m + 1] == states[m + 1]);
                    } else {
                        assert(longer[m] == before);
                    }
                }
                states = longer;
            }
        }
        proof {
            assert(walls@.take(walls.len() as int) =~= walls@);
            assert(held_in_turn(states, start, bodies@[i as int], walls@, bounce));
            assert(held_against(start, bodies@[i as int], walls@, bounce));
        }
    }
}

// ---- In pairs -----------------------------------------------------------------------------------
/// A pair of bodies was looked at: either they collided and both have changed as `collide` says,
/// or nothing has changed.
pub open spec fn looked_at<T, F: Fn(&T, &T) -> Option<(T, T)>>(
    before: Seq<T>,
    after: Seq<T>,
    pair: (int, int),
    hit: bool,
    collide: F,
) -> bool {
    exists|outcome: Option<(T, T)>|
        #![trigger collide.ensures((&before[pair.0], &before[pair.1]), outcome)]
        {
            &&& collide.ensures((&before[pair.0], &before[pair.1]), outcome)
            &&& match outcome {
                Some((a, b)) => hit && after == before.update(pair.0, a).update(pair.1, b),
                None => !hit && after == before,
            }
        }
}

/// The pairs that collided.
pub open spec fn hit_pairs(pairs: Seq<(int, int)>, hits: Seq<bool>) -> Seq<(int, int)>
    decreases pairs.len(),
{
    if pairs.len() == 0 {
        Seq::empty()
    } else if hits[pairs.len() - 1] {
        hit_pairs(pairs.drop_last(), hits).push(pairs.last())
    } else {
        hit_pairs(pairs.drop_last(), hits)
    }
}

/// `states` runs from `before` to `after`, one state further with each pair that is looked at.
pub open spec fn looked_at_in_turn<T, F: Fn(&T, &T) -> Option<(T, T)>>(
    states: Seq<Seq<T>>,
    hits: Seq<bool>,
    before: Seq<T>,
    after: Seq<T>,
    pairs: Seq<(int, int)>,
    collide: F,
) -> bool {
    &&& states.len() == pairs.len() + 1
    &&& hits.len() == pairs.len()
    &&& states[0] == before
    &&& states.last() == after
    &&& forall|k: int|
        #![trigger pairs[k]]
        0 <= k < pairs.len() ==> looked_at(states[k], states[k + 1], pairs[k], hits[k], collide)
}

/// All pairs of bodies were looked at in order, and `events` are the collisions among them at
/// step `step`.
pub open spec fn collisions<T, F: Fn(&T, &T) -> Option<(T, T)>>(
    before: Seq<T>,
    after: Seq<T>,
    events: Seq<(usize, usize, usize)>,
    step: int,
    collide: F,
) -> bool {
    exists|states: Seq<Seq<T>>, hits: Seq<bool>|
        {
            &&& #[trigger] looked_at_in_turn(
                states,
                hits,
                before,
                after,
                pairs_below(before.len(), before.len() as int),
                collide,
            )
            &&& event_pairs(events) == hit_pairs(
                pairs_below(before.len(), before.len() as int),
                hits,
            )
            &&& forall|e: int| 0 <= e < events.len() ==> (#[trigger] events[e]).0 == step
        }
}

/// The bodies of events.
pub open spec fn event_pairs(events: Seq<(usize, usize, usize)>) -> Seq<(int, int)> {
    events.map_values(|e: (usize, usize, usize)| (e.1 as int, e.2 as int))
}

/// Looks at all pairs of bodies in order. Where `collide` says that two of them collide, both are
/// replaced and the collision is noted with the number of the step.
pub fn collide_all<T, F: Fn(&T, &T) -> Option<(T, T)>>(
    bodies: &mut Vec<T>,
    step: usize,
    collide: F,
) -> (events: Vec<(usize, usize, usize)>)
    requires
        forall|a: &T, b: &T| #[trigger] collide.requires((a, b)),
    ensures
        final(bodies).len() == old(bodies).len(),
        collisions(old(bodies)@, final(bodies)@, events@, step as int, collide),
{
    let n: usize = bodies.len();
    let pairs = all_pairs(n);
    let ghost all = pairs_below(n as nat, n as int);
    let ghost mut states: Seq<Seq<T>> = seq![bodies@];
    let ghost mut hits: Seq<bool> = Seq::empty();
    let mut events: Vec<(usize, usize, usize)> = Vec::new();
    for k in 0..pairs.len()
        invariant
            n == bodies.len(),
            n == old(bodies).len(),
            all == pairs_below(n as nat, n as int),
            pairs_view(pairs@) == all,
            forall|a: &T, b: &T| #[trigger] collide.requires((a, b)),
            looked_at_in_turn(
                states,
                hits,
                old(bodies)@,
                bodies@,
                all.take(k as int),
                collide,
            ),
            event_pairs(events@) =~= hit_pairs(all.take(k as int), hits),
            forall|e: int| 0 <= e < events.len() ==> (#[trigger] events[e]).0 == step,
    {
        let (i, j) = pairs[k];
        proof {
            assert(pairs_view(pairs@)[k as int] == (i as int, j as int));
            assert(all[k as int] == (i as int, j as int));
            assert(all.contains((i as int, j as int)));
            law_each_pair_once(n as nat, i as int, j as int);
        }
        let ghost before = bodies@;
        let ghost noted = event_pairs(events@);
        let outcome = collide(&bodies[i], &bodies[j]);
        let ghost hit = outcome is Some;
        assert(collide.ensures((&before[i as int], &before[j as int]), outcome));
        match outcome {
            Some((a, b)) => {
                bodies.set(i, a);
                bodies.set(j, b);
                events.push((step, i, j));
                assert(event_pairs(events@) =~= noted.push((i as int, j as int)));
            },
            None => {},
        }
        proof {
            let longer = states.push(bodies@);
            let flags = hits.push(hit);
            let done = all.take(k as int);
            let more = all.take(k + 1);
            assert(looked_at(before, bodies@, (i as int, j as int), hit, collide));
            assert forall|m: int| #![trigger more[m]] 0 <= m < more.len() implies looked_at(
                longer[m],
                longer[m + 1],
                more[m],
                flags[m],
                collide,
            ) by {
                if m < k {
                    assert(more[m] == done[m]);
                    assert(longer[m] == states[m] && longer[m + 1] == states[m + 1]);
                    assert(flags[m] == hits[m]);
                } else {
                    assert(longer[m] == before && longer[m + 1] == bodies@);
                }
            }
            assert(more.drop_last() =~= done);
            lemma_hit_pairs_prefix(done, hits, flags);
            states = longer;
            hits = flags;
        }
    }
    assert(all.take(pairs.len() as int) =~= all);
    assert(looked_at_in_turn(states, hits, old(bodies)@, bodies@, all, collide));
    events
}

/// Flags beyond the pairs do not matter.
proof fn lemma_hit_pairs_prefix(pairs: Seq<(int, int)>, hits: Seq<bool>, flags: Seq<bool>)
    requires
        pairs.len() <= hits.len(),
        pairs.len() <= flags.len(),
        forall|m: int| 0 <= m < pairs.len() ==> hits[m] == flags[m],
    ensures
        hit_pairs(pairs, hits) == hit_pairs(pairs, flags),
    decreases pairs.len(),
{
    if pairs.len() > 0 {
        lemma_hit_pairs_prefix(pairs.drop_last(), hits, flags);
    }
}

/// Pairs in order: by the smaller body, then by the larger one.
pub open spec fn pair_before(a: (int, int), b: (int, int)) -> bool {
    a.0 < b.0 || a.0 == b.0 && a.1 < b.1
}

/// Every pair comes before all that follow.
pub open spec fn pairs_increase(pairs: Seq<(int, int)>) -> bool {
    forall|a: int, b: int|
        0 <= a < b < pairs.len() ==> pair_before(#[trigger] pairs[a], #[trigger] pairs[b])
}

/// Pairs are looked at in order.
proof fn lemma_pairs_increase(m: nat, n: int)
    requires
        m <= n,
    ensures
        pairs_increase(pairs_below(m, n)),
        forall|k: int|
            0 <= k < pairs_below(m, n).len() ==> 0 <= (#[trigger] pairs_below(m, n)[k]).0 < m
                && pairs_below(m, n)[k].0 < pairs_below(m, n)[k].1 && pairs_below(m, n)[k].1 < n,
    decreases m,
{
    if m > 0 {
        lemma_pairs_increase((m - 1) as nat, n);
    }
}

/// The pairs that collided are among those looked at, in the same order.
proof fn lemma_hits_increase(pairs: Seq<(int, int)>, hits: Seq<bool>)
    requires
        pairs_increase(pairs),
        pairs.len() <= hits.len(),
    ensures
        pairs_increase(hit_pairs(pairs, hits)),
        forall|e: int|
            0 <= e < hit_pairs(pairs, hits).len() ==> pairs.contains(
                #[trigger] hit_pairs(pairs, hits)[e],
            ),
    decreases pairs.len(),
{
    if pairs.len() > 0 {
        let shorter = pairs.drop_last();
        let fewer = hit_pairs(shorter, hits);
        lemma_hits_increase(shorter, hits);
        assert forall|e: int| 0 <= e < fewer.len() implies pairs.contains(#[trigger] fewer[e])
            && pair_before(fewer[e], pairs.last()) by {
            assert(shorter.contains(fewer[e]));
            let k = choose|k: int| 0 <= k < shorter.len() && shorter[k] == fewer[e];
            assert(pairs[k] == fewer[e]);
            assert(pair_before(pairs[k], pairs[pairs.len() - 1]));
        }
        assert(pairs.contains(pairs[pairs.len() - 1]));
    }
}

/// The collisions of a step are noted with the number of the step and the smaller body first, both
/// bodies exist, and collisions come in strictly increasing order.
pub proof fn law_events_are_ordered<T, F: Fn(&T, &T) -> Option<(T, T)>>(
    before: Seq<T>,
    after: Seq<T>,
    events: Seq<(usize, usize, usize)>,
    step: int,
    collide: F,
)
    requires
        collisions(before, after, events, step, collide),
    ensures
        forall|e: int|
            0 <= e < events.len() ==> (#[trigger] events[e]).0 == step && events[e].1 < events[e].2
                && events[e].2 < before.len(),
        forall|e: int, f: int|
            0 <= e < f < events.len() ==> (#[trigger] events[e]).1 < (#[trigger] events[f]).1
                || events[e].1 == events[f].1 && events[e].2 < events[f].2,
{
    let n = before.len();
    let pairs = pairs_below(n, n as int);
    let (states, hits) = choose|states: Seq<Seq<T>>, hits: Seq<bool>|
        {
            &&& #[trigger] looked_at_in_turn(states, hits, before, after, pairs, collide)
            &&& event_pairs(events) == hit_pairs(pairs, hits)
        };
    lemma_pairs_increase(n, n as int);
    lemma_hits_increase(pairs, hits);
    let noted = hit_pairs(pairs, hits);
    assert forall|e: int| 0 <= e < events.len() implies (#[trigger] events[e]).0 == step
        && events[e].1 < events[e].2 && events[e].2 < before.len() by {
        assert(noted[e] == event_pairs(events)[e]);
        assert(pairs.contains(noted[e]));
        let k = choose|k: int| 0 <= k < pairs.len() && pairs[k] == noted[e];
        assert(pairs[k].0 < pairs[k].1 && pairs[k].1 < n);
    }
    assert forall|e: int, f: int| 0 <= e < f < events.len() implies (#[trigger] events[e]).1 < (
    #[trigger] events[f]).1 || events[e].1 == events[f].1 && events[e].2 < events[f].2 by {
        assert(noted[e] == event_pairs(events)[e] && noted[f] == event_pairs(events)[f]);
        assert(pair_before(noted[e], noted[f]));
    }
}

// ---- Trails -------------------------------------------------------------------------------------
/// Appends the place of every body to its trail; trails keep the last `keep` places.
pub fn push_trails<P>(trails: &mut Vec<Vec<P>>, places: Vec<P>, keep: usize)
    requires
        old(trails).len() == places.len(),
    ensures
        final(trails).len() == old(trails).len(),
        forall|i: int|
            0 <= i < old(trails).len() ==> (#[trigger] final(trails)[i])@ == trail_step(
                old(trails)[i]@,
                places[i],
                keep as nat,
            ),
{
    let ghost all = places@;
    let n: usize = trails.len();
    let mut rest = places;
    let mut i: usize = n;
    while i > 0
        invariant
            i <= n,
            n == trails.len(),
            n == old(trails).len(),
            all.len() == n,
            rest@ =~= all.take(i as int),
            forall|k: int|
                i <= k < n ==> (#[trigger] trails[k])@ == trail_step(
                    old(trails)[k]@,
                    all[k],
                    keep as nat,
                ),
            forall|k: int| 0 <= k < i ==> #[trigger] trails[k] == old(trails)[k],
        decreases i,
    {
        i = i - 1;
        if let Some(place) = rest.pop() {
            push_trail(&mut trails[i], place, keep);
        }
    }
}

/// A look at two bodies changes no other one, and changes these only if they hit each other, each
/// to what the collision makes of it.
pub proof fn law_collisions_change_partners_only<T, F: Fn(&T, &T) -> Option<(T, T)>>(
    before: Seq<T>,
    after: Seq<T>,
    pair: (int, int),
    hit: bool,
    collide: F,
    i: int,
)
    requires
        looked_at(before, after, pair, hit, collide),
        0 <= pair.0 < pair.1 < before.len(),
        0 <= i < before.len(),
    ensures
        after.len() == before.len(),
        i != pair.0 && i != pair.1 ==> after[i] == before[i],
        !hit ==> after == before && collide.ensures((&before[pair.0], &before[pair.1]), None),
        hit ==> collide.ensures(
            (&before[pair.0], &before[pair.1]),
            Some((after[pair.0], after[pair.1])),
        ),
{
}

/// The pairs that hit each other are those whose look was a hit: none if no look was one, all if
/// every look was.
pub proof fn law_hits_are_listed(pairs: Seq<(int, int)>, hits: Seq<bool>, k: int)
    requires
        hits.len() == pairs.len(),
    ensures
        hit_pairs(pairs, hits).len() <= pairs.len(),
        0 <= k < pairs.len() && hits[k] ==> hit_pairs(pairs, hits).contains(pairs[k]),
        0 <= k < hit_pairs(pairs, hits).len() ==> exists|j: int|
            0 <= j < pairs.len() && hits[j] && #[trigger] pairs[j] == hit_pairs(pairs, hits)[k],
        (forall|j: int| 0 <= j < hits.len() ==> !#[trigger] hits[j]) ==> hit_pairs(pairs, hits).len()
            == 0,
        (forall|j: int| 0 <= j < hits.len() ==> #[trigger] hits[j]) ==> hit_pairs(pairs, hits)
            == pairs,
    decreases pairs.len(),
{
    if pairs.len() > 0 {
        let fewer = pairs.drop_last();
        let rest = hits.drop_last();
        lemma_hits_by_place(fewer, hits, rest);
        let shorter = hit_pairs(fewer, rest);
        let all = hit_pairs(pairs, hits);
        law_hits_are_listed(fewer, rest, k);
        if 0 <= k < fewer.len() && hits[k] {
            assert(rest[k] && fewer[k] == pairs[k]);
            let at = choose|at: int| 0 <= at < shorter.len() && shorter[at] == pairs[k];
            assert(all[at] == pairs[k]);
        }
        if k == fewer.len() && hits[k] {
            assert(all.last() == pairs[k]);
            assert(all[all.len() - 1] == pairs[k]);
        }
        if 0 <= k < all.len() {
            if k < shorter.len() {
                let j = choose|j: int|
                    0 <= j < fewer.len() && rest[j] && #[trigger] fewer[j] == shorter[k];
                assert(hits[j] && pairs[j] == all[k]);
            } else {
                assert(hits[pairs.len() - 1] && pairs[pairs.len() - 1] == all[k]);
            }
        }
        if forall|j: int| 0 <= j < hits.len() ==> !#[trigger] hits[j] {
            assert forall|j: int| 0 <= j < rest.len() implies !#[trigger] rest[j] by {
                assert(!hits[j]);
            }
        }
        if forall|j: int| 0 <= j < hits.len() ==> #[trigger] hits[j] {
            assert forall|j: int| 0 <= j < rest.len() implies #[trigger] rest[j] by {
                assert(hits[j]);
            }
            assert(all =~= pairs);
        }
    }
}

/// Hits of later pairs do not matter to earlier ones.
proof fn lemma_hits_by_place(pairs: Seq<(int, int)>, hits: Seq<bool>, other: Seq<bool>)
    requires
        forall|k: int| 0 <= k < pairs.len() ==> #[trigger] hits[k] == other[k],
    ensures
        hit_pairs(pairs, hits) == hit_pairs(pairs, other),
    decreases pairs.len(),
{
    if pairs.len() > 0 {
        assert(hits[pairs.len() - 1] == other[pairs.len() - 1]);
        lemma_hits_by_place(pairs.drop_last(), hits, other);
    }
}

/// Only the first body is driven.
pub proof fn law_only_the_first_is_driven<T, F: Fn(&T) -> T>(
    before: Seq<T>,
    after: Seq<T>,
    act: F,
    i: int,
)
    requires
        first_moved(before, after, act),
        0 <= i < before.len(),
    ensures
        after.len() == before.len(),
        i == 0 ==> act.ensures((&before[0],), after[0]),
        i > 0 ==> after[i] == before[i],
{
}

/// A body bounces off one wall after the other: first off the first one, then off the rest.
pub proof fn law_walls_are_met_in_turn<T, W, F: Fn(&T, &W) -> T>(
    before: T,
    after: T,
    walls: Seq<W>,
    bounce: F,
)
    requires
        held_against(before, after, walls, bounce),
    ensures
        walls.len() == 0 ==> after == before,
        walls.len() > 0 ==> exists|between: T|
            {
                &&& #[trigger] bounce.ensures((&before, &walls[0]), between)
                &&& held_against(between, after, walls.drop_first(), bounce)
            },
{
    let states = choose|states: Seq<T>| #[trigger]
        held_in_turn(states, before, after, walls, bounce);
    if walls.len() > 0 {
        assert(walls[0] == walls[0]);
        let rest = states.drop_first();
        let further = walls.drop_first();
        assert forall|k: int|
            #![trigger further[k]]
            0 <= k < further.len() implies bounce.ensures((&rest[k], &further[k]), rest[k + 1]) by {
            assert(further[k] == walls[k + 1]);
        }
        assert(held_in_turn(rest, states[1], after, further, bounce));
        assert(bounce.ensures((&before, &walls[0]), states[1]));
    }
}

/// Every body moves, and every one is held against all walls.
pub proof fn law_every_body_takes_part<T, W, F: Fn(&T) -> T, G: Fn(&T, &W) -> T>(
    before: Seq<T>,
    moved: Seq<T>,
    held: Seq<T>,
    walls: Seq<W>,
    act: F,
    bounce: G,
    i: int,
)
    requires
        each_moved(before, moved, act),
        each_held(moved, held, walls, bounce),
        0 <= i < before.len(),
    ensures
        moved.len() == before.len(),
        held.len() == before.len(),
        act.ensures((&before[i],), moved[i]),
        held_against(moved[i], held[i], walls, bounce),
{
    assert(moved[i] == moved[i]);
    assert(held[i] == held[i]);
}

/// Pairs are looked at in turn: the first pair in the bodies as they were, and the rest in what that
/// look left.
pub proof fn law_pairs_are_looked_at_in_turn<T, F: Fn(&T, &T) -> Option<(T, T)>>(
    states: Seq<Seq<T>>,
    hits: Seq<bool>,
    before: Seq<T>,
    after: Seq<T>,
    pairs: Seq<(int, int)>,
    collide: F,
)
    requires
        looked_at_in_turn(states, hits, before, after, pairs, collide),
    ensures
        pairs.len() == 0 ==> after == before,
        pairs.len() > 0 ==> looked_at(before, states[1], pairs[0], hits[0], collide)
            && looked_at_in_turn(
            states.drop_first(),
            hits.drop_first(),
            states[1],
            after,
            pairs.drop_first(),
            collide,
        ),
{
    if pairs.len() > 0 {
        assert(pairs[0] == pairs[0]);
        let rest = pairs.drop_first();
        let late = states.drop_first();
        let late_hits = hits.drop_first();
        assert forall|k: int|
            #![trigger rest[k]]
            0 <= k < rest.len() implies looked_at(
            late[k],
            late[k + 1],
            rest[k],
            late_hits[k],
            collide,
        ) by {
            assert(rest[k] == pairs[k + 1]);
        }
    }
}

} // verus!
