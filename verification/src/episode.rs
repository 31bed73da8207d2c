//! The step count of an episode and the traces that objects leave behind.
use vstd::prelude::*;

verus! {

/// Counts the steps of an episode.
#[derive(Clone, Copy, Debug, PartialEq, Eq, Structural)]
pub struct Clock {
    /// Steps since the episode began.
    pub step_count: usize,
    /// The number of steps that end the episode.
    pub max_steps: usize,
}

impl Clock {
    /// The episode has had all its steps.
    pub open spec fn is_up(self) -> bool {
        self.step_count >= self.max_steps
    }

    /// The clock after `n` more steps.
    pub open spec fn after(self, n: nat) -> Clock {
        Clock { step_count: (self.step_count + n) as usize, max_steps: self.max_steps }
    }

    /// A clock at the start of an episode.
    pub fn new(max_steps: usize) -> (clock: Self)
        ensures
            clock == (Clock { step_count: 0, max_steps }),
    {
        Clock { step_count: 0, max_steps }
    }

    /// Starts over.
    pub fn reset(&mut self)
        ensures
            *final(self) == (Clock { step_count: 0, max_steps: old(self).max_steps }),
    {
        self.step_count = 0;
    }

    /// Counts one step; the episode is over when the count reaches its limit or `stopped` holds.
    pub fn tick(&mut self, stopped: bool) -> (done: bool)
        requires
            old(self).step_count < usize::MAX,
        ensures
            final(self).step_count == old(self).step_count + 1,
            final(self).max_steps == old(self).max_steps,
            done == (stopped || final(self).step_count >= final(self).max_steps),
            *final(self) == old(self).after(1),
            done == (stopped || final(self).is_up()),
    {
        self.step_count = self.step_count + 1;
        self.step_count >= self.max_steps || stopped
    }
}

/// The last `keep` items of `items`.
pub open spec fn last_items<T>(items: Seq<T>, keep: nat) -> Seq<T> {
    if items.len() <= keep {
        items
    } else {
        items.skip(items.len() - keep)
    }
}

/// The trail after one more item: the oldest is dropped once there are more than `keep`.
pub open spec fn trail_step<T>(trail: Seq<T>, item: T, keep: nat) -> Seq<T> {
    let longer = trail.push(item);
    if longer.len() > keep {
        longer.skip(1)
    } else {
        longer
    }
}

/// The trail that the items leave, one after the other, from an empty one.
pub open spec fn trail_of<T>(items: Seq<T>, keep: nat) -> Seq<T>
    decreases items.len(),
{
    if items.len() == 0 {
        Seq::empty()
    } else {
        trail_step(trail_of(items.drop_last(), keep), items.last(), keep)
    }
}

/// A trail that starts empty always holds the last `keep` items, oldest first.
pub proof fn law_trail_holds_last_items<T>(items: Seq<T>, keep: nat)
    ensures
        trail_of(items, keep) == last_items(items, keep),
    decreases items.len(),
{
    if items.len() > 0 {
        let before = items.drop_last();
        law_trail_holds_last_items(before, keep);
        assert(trail_step(last_items(before, keep), items.last(), keep) =~= last_items(
            items,
            keep,
        ));
    } else {
        assert(last_items(items, keep) =~= Seq::empty());
    }
}

/// Appends `item` to a trail and drops the oldest item once there are more than `keep`.
pub fn push_trail<T>(trail: &mut Vec<T>, item: T, keep: usize)
    ensures
        final(trail)@ == trail_step(old(trail)@, item, keep as nat),
{
    trail.push(item);
    if trail.len() > keep {
        let ghost longer = trail@;
        trail.remove(0);
        assert(trail@ =~= longer.skip(1));
    }
}

/// A trail is as long as what was added, but never longer than what is kept, and its newest item
/// comes last.
pub proof fn law_trail_is_newest_last<T>(items: Seq<T>, keep: nat, back: int)
    ensures
        trail_of(items, keep).len() == if items.len() < keep {
            items.len()
        } else {
            keep
        },
        0 <= back < trail_of(items, keep).len() ==> trail_of(items, keep)[trail_of(items, keep).len()
            - 1 - back] == items[items.len() - 1 - back],
{
    law_trail_holds_last_items(items, keep);
}

/// An episode that nothing stops lasts as many steps as it may, and at least one.
pub proof fn law_episodes_last_their_steps(max_steps: usize, n: nat)
    requires
        0 < n <= usize::MAX,
    ensures
        ({
            let fresh = Clock { step_count: 0, max_steps };
            &&& n < max_steps ==> !fresh.after(n).is_up()
            &&& n >= max_steps ==> fresh.after(n).is_up()
            &&& n < usize::MAX ==> fresh.after(n).after(1) == fresh.after(n + 1)
            &&& fresh.after(n).step_count == n
        }),
{
}

} // verus!
