//! A bounded memory of episodes, from which windows of consecutive steps are sampled.
use crate::chance::roll_number;
use crate::chance::rolled;
use crate::episode::last_items;
use vstd::prelude::*;
use vstd::slice::slice_subrange;

verus! {

/// One episode, step by step.
#[derive(Clone, Debug)]
pub struct Episode<T> {
    /// What was observed.
    pub obs: Vec<T>,
    /// What was done.
    pub action: Vec<T>,
    /// What it earned.
    pub reward: Vec<T>,
    /// Whether the episode was over.
    pub done: Vec<T>,
}

impl<T> Episode<T> {
    /// Every observation but the last was followed by an action, a reward and a verdict.
    pub open spec fn wf(self) -> bool {
        &&& self.obs.len() <= self.action.len() + 1
        &&& self.obs.len() <= self.reward.len() + 1
        &&& self.obs.len() <= self.done.len() + 1
    }

    /// Some window of `seq_len` steps fits.
    pub open spec fn holds(self, seq_len: int) -> bool {
        self.obs.len() >= seq_len + 1
    }
}

/// Where a window starts.
#[derive(Clone, Copy, Debug, PartialEq, Eq, Structural)]
pub struct Window {
    /// The episode, counted from the oldest.
    pub episode: usize,
    /// The first step.
    pub start: usize,
}

/// What is chosen by lot for a window.
#[derive(Clone, Copy, Debug, PartialEq, Eq, Structural)]
pub enum Pick {
    /// The episode, among those that are long enough.
    Episode,
    /// The first step.
    Start,
}

/// Rolls a number for window `i` of a batch: every window is chosen by numbers of its own.
fn roll_for(i: usize, pick: Pick, low: usize, high: usize) -> (n: usize)
    requires
        low < high,
    ensures
        low <= n < high,
        rolled(low, high, n),
{
    roll_number(low, high)
}

/// `n` was rolled for window `i` of a batch.
pub closed spec fn rolled_for(i: usize, pick: Pick, low: usize, high: usize, n: usize) -> bool {
    call_ensures(roll_for, (i, pick, low, high), n)
}

/// Numbers for a window come from the generator, within their range.
pub proof fn law_windows_are_rolled_for(i: usize, pick: Pick, low: usize, high: usize, n: usize)
    requires
        rolled_for(i, pick, low, high, n),
    ensures
        rolled(low, high, n),
        low <= n < high,
{
}

/// Windows of equal length, aligned step by step.
#[derive(Debug)]
pub struct Batch<'a, T> {
    /// Observations, window after window.
    pub obs: Vec<&'a [T]>,
    /// Actions, window after window.
    pub action: Vec<&'a [T]>,
    /// Rewards, window after window.
    pub reward: Vec<&'a [T]>,
    /// Verdicts, window after window.
    pub done: Vec<&'a [T]>,
}

/// The episodes after another one is stored: the oldest leaves once the memory is full.
pub open spec fn stored<T>(episodes: Seq<Episode<T>>, episode: Episode<T>, capacity: nat) -> Seq<
    Episode<T>,
> {
    if episodes.len() >= capacity {
        episodes.skip(1).push(episode)
    } else {
        episodes.push(episode)
    }
}

/// The episodes that are left after all of `episodes` were stored in turn in an empty memory.
pub open spec fn all_stored<T>(episodes: Seq<Episode<T>>, capacity: nat) -> Seq<Episode<T>>
    decreases episodes.len(),
{
    if episodes.len() == 0 {
        Seq::empty()
    } else {
        stored(all_stored(episodes.drop_last(), capacity), episodes.last(), capacity)
    }
}

/// A memory with room for at least one episode always holds the latest ones, oldest first.
pub proof fn law_latest_episodes_are_kept<T>(episodes: Seq<Episode<T>>, capacity: nat)
    requires
        capacity > 0,
    ensures
        all_stored(episodes, capacity) == last_items(episodes, capacity),
    decreases episodes.len(),
{
    if episodes.len() > 0 {
        let before = episodes.drop_last();
        law_latest_episodes_are_kept(before, capacity);
        assert(stored(last_items(before, capacity), episodes.last(), capacity) =~= last_items(
            episodes,
            capacity,
        ));
    } else {
        assert(last_items(episodes, capacity) =~= Seq::empty());
    }
}

/// The places of the episodes that hold `seq_len` steps, among the first `n`.
pub open spec fn long_enough<T>(episodes: Seq<Episode<T>>, seq_len: int, n: nat) -> Seq<int>
    decreases n,
{
    if n == 0 {
        Seq::empty()
    } else if episodes[n - 1].holds(seq_len) {
        long_enough(episodes, seq_len, (n - 1) as nat).push(n - 1)
    } else {
        long_enough(episodes, seq_len, (n - 1) as nat)
    }
}

/// Exactly the episodes that hold `seq_len` steps are listed.
proof fn lemma_long_enough<T>(episodes: Seq<Episode<T>>, seq_len: int, n: nat)
    requires
        n <= episodes.len(),
    ensures
        forall|k: int|
            0 <= k < long_enough(episodes, seq_len, n).len() ==> {
                let e = #[trigger] long_enough(episodes, seq_len, n)[k];
                0 <= e < n && episodes[e].holds(seq_len)
            },
        (exists|e: int| 0 <= e < n && (#[trigger] episodes[e]).holds(seq_len)) <==> long_enough(
            episodes,
            seq_len,
            n,
        ).len() > 0,
    decreases n,
{
    if n > 0 {
        lemma_long_enough(episodes, seq_len, (n - 1) as nat);
        let shorter = long_enough(episodes, seq_len, (n - 1) as nat);
        let list = long_enough(episodes, seq_len, n);
        assert forall|k: int| 0 <= k < list.len() implies ({
            let e = #[trigger] list[k];
            0 <= e < n && episodes[e].holds(seq_len)
        }) by {
            if k < shorter.len() {
                assert(list[k] == shorter[k]);
            }
        }
        if list.len() > 0 {
            let e = list[0];
            assert(episodes[e].holds(seq_len));
        }
    }
}

/// A memory of episodes.
pub struct ReplayBuffer<T> {
    episodes: Vec<Episode<T>>,
    capacity: usize,
}

impl<T> View for ReplayBuffer<T> {
    type V = Seq<Episode<T>>;

    closed spec fn view(&self) -> Seq<Episode<T>> {
        self.episodes@
    }
}

impl<T> ReplayBuffer<T> {
    /// The number of episodes it has room for.
    pub closed spec fn capacity(self) -> nat {
        self.capacity as nat
    }

    /// Every episode can be cut into windows.
    pub open spec fn wf(self) -> bool {
        forall|i: int| 0 <= i < self@.len() ==> (#[trigger] self@[i]).wf()
    }

    /// The window lies inside its episode.
    pub open spec fn has(self, window: Window, seq_len: int) -> bool {
        &&& window.episode < self@.len()
        &&& window.start + seq_len < self@[window.episode as int].obs.len()
    }

    /// `batch` holds the contents of `windows`, in the same order.
    pub open spec fn cuts(self, windows: Seq<Window>, seq_len: int, batch: Batch<T>) -> bool {
        &&& batch.obs.len() == windows.len()
        &&& batch.action.len() == windows.len()
        &&& batch.reward.len() == windows.len()
        &&& batch.done.len() == windows.len()
        &&& forall|i: int|
            #![trigger windows[i]]
            0 <= i < windows.len() ==> {
                let episode = self@[windows[i].episode as int];
                let start = windows[i].start as int;
                &&& batch.obs[i]@ == episode.obs@.subrange(start, start + seq_len)
                &&& batch.action[i]@ == episode.action@.subrange(start, start + seq_len)
                &&& batch.reward[i]@ == episode.reward@.subrange(start, start + seq_len)
                &&& batch.done[i]@ == episode.done@.subrange(start, start + seq_len)
            }
    }

    /// `batch` holds the contents of `windows`, all of which lie inside their episodes.
    pub open spec fn sampled(self, windows: Seq<Window>, seq_len: int, batch: Batch<T>) -> bool {
        &&& forall|i: int| 0 <= i < windows.len() ==> self.has(#[trigger] windows[i], seq_len)
        &&& self.cuts(windows, seq_len, batch)
    }

    /// The lot that fell to window `i` was `lot`: it names the episode among those that are long
    /// enough, and the first step was chosen by lot among those that leave room for the window.
    pub open spec fn follows_lot<F: Fn(usize, Pick, usize, usize) -> usize>(
        self,
        window: Window,
        i: int,
        lot: usize,
        seq_len: int,
        draw: F,
    ) -> bool {
        let valid = long_enough(self@, seq_len, self@.len());
        let steps = (self@[window.episode as int].obs.len() - seq_len) as usize;
        &&& lot < valid.len()
        &&& window.episode == valid[lot as int]
        &&& draw.ensures((i as usize, Pick::Episode, 0, valid.len() as usize), lot)
        &&& draw.ensures((i as usize, Pick::Start, 0, steps), window.start)
    }

    /// Every window was chosen by the lots that `draw` gave for it.
    pub open spec fn chosen_by<F: Fn(usize, Pick, usize, usize) -> usize>(
        self,
        windows: Seq<Window>,
        seq_len: int,
        draw: F,
    ) -> bool {
        forall|i: int|
            0 <= i < windows.len() ==> self.follows_some_lot(
                #[trigger] windows[i],
                i,
                seq_len,
                draw,
            )
    }

    /// Some lot fell to window `i` that names it.
    pub open spec fn follows_some_lot<F: Fn(usize, Pick, usize, usize) -> usize>(
        self,
        window: Window,
        i: int,
        seq_len: int,
        draw: F,
    ) -> bool {
        exists|lot: usize| self.follows_lot(window, i, lot, seq_len, draw)
    }

    /// Every window was chosen by numbers of the generator that were rolled for it.
    pub open spec fn rolled_windows(self, windows: Seq<Window>, seq_len: int) -> bool {
        forall|i: int|
            0 <= i < windows.len() ==> self.is_rolled(#[trigger] windows[i], i, seq_len)
    }

    /// Some lot was rolled for window `i` that names it.
    pub open spec fn is_rolled(self, window: Window, i: int, seq_len: int) -> bool {
        exists|lot: usize| self.rolled_window(window, i, lot, seq_len)
    }

    /// The lot that was rolled for window `i` names its episode among those that are long enough,
    /// and its first step was rolled among those that leave room for the window.
    pub open spec fn rolled_window(self, window: Window, i: int, lot: usize, seq_len: int) -> bool {
        let valid = long_enough(self@, seq_len, self@.len());
        let steps = (self@[window.episode as int].obs.len() - seq_len) as usize;
        &&& lot < valid.len()
        &&& window.episode == valid[lot as int]
        &&& rolled_for(i as usize, Pick::Episode, 0, valid.len() as usize, lot)
        &&& rolled_for(i as usize, Pick::Start, 0, steps, window.start)
    }

    /// `batch` holds some `n` windows of `seq_len` steps.
    pub open spec fn is_sample(self, n: int, seq_len: int, batch: Batch<T>) -> bool {
        exists|windows: Seq<Window>|
            windows.len() == n && #[trigger] self.sampled(windows, seq_len, batch)
    }

    /// `batch` holds `n` windows of `seq_len` steps, each chosen by numbers that were rolled for it.
    pub open spec fn is_rolled_sample(self, n: int, seq_len: int, batch: Batch<T>) -> bool {
        exists|windows: Seq<Window>|
            {
                &&& windows.len() == n
                &&& #[trigger] self.sampled(windows, seq_len, batch)
                &&& self.rolled_windows(windows, seq_len)
            }
    }

    /// An empty memory.
    pub fn new(capacity: usize) -> (buffer: Self)
        ensures
            buffer.wf(),
            buffer@ == Seq::<Episode<T>>::empty(),
            buffer.capacity() == capacity,
    {
        ReplayBuffer { episodes: Vec::new(), capacity }
    }

    /// Stores an episode; the oldest leaves once the memory is full.
    pub fn push(&mut self, episode: Episode<T>)
        requires
            old(self).wf(),
            episode.wf(),
            old(self).capacity() > 0 || old(self)@.len() > 0,
        ensures
            final(self).wf(),
            final(self)@ == stored(old(self)@, episode, old(self).capacity()),
            final(self).capacity() == old(self).capacity(),
    {
        if self.episodes.len() >= self.capacity {
            let ghost before = self.episodes@;
            self.episodes.remove(0);
            assert(self.episodes@ =~= before.skip(1));
        }
        self.episodes.push(episode);
        proof {
            assert forall|i: int| 0 <= i < self@.len() implies (#[trigger] self@[i]).wf() by {
                let n = old(self)@.len() as int;
                if i < self@.len() - 1 {
                    if n >= old(self).capacity() {
                        assert(self@[i] == old(self)@[i + 1]);
                    } else {
                        assert(self@[i] == old(self)@[i]);
                    }
                }
            }
        }
    }

    /// The number of episodes in memory.
    pub fn len(&self) -> (n: usize)
        ensures
            n == self@.len(),
    {
        self.episodes.len()
    }

    /// The places of the episodes that hold a window of `seq_len` steps.
    pub fn valid_episodes(&self, seq_len: usize) -> (valid: Vec<usize>)
        ensures
            valid@.map_values(|e: usize| e as int) == long_enough(
                self@,
                seq_len as int,
                self@.len(),
            ),
    {
        let mut valid: Vec<usize> = Vec::new();
        for e in 0..self.episodes.len()
            invariant
                valid@.map_values(|i: usize| i as int) =~= long_enough(
                    self@,
                    seq_len as int,
                    e as nat,
                ),
        {
            if self.episodes[e].obs.len() > seq_len {
                valid.push(e);
            }
        }
        valid
    }

    /// Cuts the windows out of their episodes.
    pub fn cut(&self, windows: &[Window], seq_len: usize) -> (batch: Batch<'_, T>)
        requires
            self.wf(),
            forall|i: int| 0 <= i < windows.len() ==> self.has(#[trigger] windows[i], seq_len as int),
        ensures
            self.cuts(windows@, seq_len as int, batch),
    {
        let mut batch = Batch {
            obs: Vec::new(),
            action: Vec::new(),
            reward: Vec::new(),
            done: Vec::new(),
        };
        for i in 0..windows.len()
            invariant
                self.wf(),
                forall|k: int|
                    0 <= k < windows.len() ==> self.has(#[trigger] windows[k], seq_len as int),
                self.cuts(windows@.take(i as int), seq_len as int, batch),
        {
            let w = windows[i];
            assert(self.has(windows[i as int], seq_len as int));
            let episode = &self.episodes[w.episode];
            assert(self@[w.episode as int].wf());
            let end: usize = w.start + seq_len;
            let ghost before = batch;
            batch.obs.push(slice_subrange(episode.obs.as_slice(), w.start, end));
            batch.action.push(slice_subrange(episode.action.as_slice(), w.start, end));
            batch.reward.push(slice_subrange(episode.reward.as_slice(), w.start, end));
            batch.done.push(slice_subrange(episode.done.as_slice(), w.start, end));
            proof {
                let longer = windows@.take(i + 1);
                let shorter = windows@.take(i as int);
                assert forall|k: int| #![trigger longer[k]] 0 <= k < longer.len() implies ({
                    let episode = self@[longer[k].episode as int];
                    let start = longer[k].start as int;
                    &&& batch.obs[k]@ == episode.obs@.subrange(start, start + seq_len)
                    &&& batch.action[k]@ == episode.action@.subrange(start, start + seq_len)
                    &&& batch.reward[k]@ == episode.reward@.subrange(start, start + seq_len)
                    &&& batch.done[k]@ == episode.done@.subrange(start, start + seq_len)
                }) by {
                    if k < i {
                        assert(longer[k] == shorter[k]);
                        assert(batch.obs[k] == before.obs[k]);
                        assert(batch.action[k] == before.action[k]);
                        assert(batch.reward[k] == before.reward[k]);
                        assert(batch.done[k] == before.done[k]);
                    }
                }
            }
        }
        assert(windows@.take(windows.len() as int) =~= windows@);
        batch
    }

    /// Chooses `batch_size` windows of `seq_len` steps by lot: `draw` gives the numbers, first
    /// that of an episode among those that are long enough, then that of a step in it.
    pub fn choose_windows<F: Fn(usize, Pick, usize, usize) -> usize>(
        &self,
        batch_size: usize,
        seq_len: usize,
        draw: F,
    ) -> (windows: Vec<Window>)
        requires
            self.wf(),
            long_enough(self@, seq_len as int, self@.len()).len() > 0,
            forall|i: usize, pick: Pick, low: usize, high: usize|
                low < high ==> #[trigger] draw.requires((i, pick, low, high)),
            forall|i: usize, pick: Pick, low: usize, high: usize, n: usize|
                low < high && #[trigger] draw.ensures((i, pick, low, high), n) ==> low <= n < high,
        ensures
            windows.len() == batch_size,
            forall|k: int|
                0 <= k < windows.len() ==> self.has(#[trigger] windows[k], seq_len as int),
            self.chosen_by(windows@, seq_len as int, draw),
    {
        let valid = self.valid_episodes(seq_len);
        let ghost listed = valid@.map_values(|e: usize| e as int);
        assert(listed.len() == valid.len());
        let mut windows: Vec<Window> = Vec::new();
        for i in 0..batch_size
            invariant
                self.wf(),
                valid.len() > 0,
                listed == valid@.map_values(|e: usize| e as int),
                listed == long_enough(self@, seq_len as int, self@.len()),
                listed.len() == valid.len(),
                forall|i: usize, pick: Pick, low: usize, high: usize|
                    low < high ==> #[trigger] draw.requires((i, pick, low, high)),
                forall|i: usize, pick: Pick, low: usize, high: usize, n: usize|
                    low < high && #[trigger] draw.ensures((i, pick, low, high), n) ==> low <= n
                        < high,
                windows.len() == i,
                forall|k: int|
                    0 <= k < windows.len() ==> self.has(#[trigger] windows[k], seq_len as int),
                self.chosen_by(windows@, seq_len as int, draw),
        {
            let lot: usize = draw(i, Pick::Episode, 0, valid.len());
            let episode: usize = valid[lot];
            proof {
                lemma_long_enough(self@, seq_len as int, self@.len());
                assert(listed[lot as int] == episode);
            }
            let start: usize = draw(i, Pick::Start, 0, self.episodes[episode].obs.len() - seq_len);
            let ghost before = windows@;
            windows.push(Window { episode, start });
            proof {
                assert(self.follows_lot(windows@[i as int], i as int, lot, seq_len as int, draw));
                assert forall|k: int| 0 <= k < windows@.len() implies self.follows_some_lot(
                    #[trigger] windows@[k],
                    k,
                    seq_len as int,
                    draw,
                ) by {
                    if k < i {
                        assert(self.follows_some_lot(before[k], k, seq_len as int, draw));
                    }
                }
            }
        }
        windows
    }

    /// Samples `batch_size` windows of `seq_len` steps, each from a random episode among those
    /// that are long enough and from a random step in it. Nothing comes if no episode is long
    /// enough.
    pub fn sample(&self, batch_size: usize, seq_len: usize) -> (batch: Option<Batch<'_, T>>)
        requires
            self.wf(),
        ensures
            batch is Some <==> exists|e: int|
                0 <= e < self@.len() && (#[trigger] self@[e]).holds(seq_len as int),
            batch matches Some(cut) ==> self.is_sample(batch_size as int, seq_len as int, cut),
            batch matches Some(cut) ==> self.is_rolled_sample(
                batch_size as int,
                seq_len as int,
                cut,
            ),
    {
        proof {
            lemma_long_enough(self@, seq_len as int, self@.len());
        }
        let valid = self.valid_episodes(seq_len);
        assert(valid@.map_values(|e: usize| e as int).len() == valid.len());
        if valid.len() == 0 {
            return None;
        }
        let windows = self.choose_windows(batch_size, seq_len, roll_for);
        let batch = self.cut(windows.as_slice(), seq_len);
        proof {
            assert(self.sampled(windows@, seq_len as int, batch));
            assert(self.is_sample(batch_size as int, seq_len as int, batch));
            assert forall|i: int| 0 <= i < windows@.len() implies self.is_rolled(
                #[trigger] windows@[i],
                i,
                seq_len as int,
            ) by {
                assert(self.follows_some_lot(windows@[i], i, seq_len as int, roll_for));
                let lot = choose|lot: usize|
                    self.follows_lot(windows@[i], i, lot, seq_len as int, roll_for);
                assert(self.rolled_window(windows@[i], i, lot, seq_len as int));
            }
            assert(self.rolled_windows(windows@, seq_len as int));
            assert(self.is_rolled_sample(batch_size as int, seq_len as int, batch));
        }
        Some(batch)
    }
}

/// Episodes are listed in order, each once, and all that are long enough are listed.
proof fn lemma_all_listed<T>(episodes: Seq<Episode<T>>, seq_len: int, n: nat)
    requires
        n <= episodes.len(),
    ensures
        forall|a: int, b: int|
            0 <= a < b < long_enough(episodes, seq_len, n).len() ==> #[trigger] long_enough(
                episodes,
                seq_len,
                n,
            )[a] < #[trigger] long_enough(episodes, seq_len, n)[b],
        forall|e: int|
            0 <= e < n && (#[trigger] episodes[e]).holds(seq_len) ==> long_enough(
                episodes,
                seq_len,
                n,
            ).contains(e),
    decreases n,
{
    if n > 0 {
        lemma_all_listed(episodes, seq_len, (n - 1) as nat);
        lemma_long_enough(episodes, seq_len, (n - 1) as nat);
        let shorter = long_enough(episodes, seq_len, (n - 1) as nat);
        let list = long_enough(episodes, seq_len, n);
        assert forall|a: int, b: int| 0 <= a < b < list.len() implies #[trigger] list[a]
            < #[trigger] list[b] by {
            assert(list[a] == shorter[a]);
            if b < shorter.len() {
                assert(list[b] == shorter[b]);
            }
        }
        assert forall|e: int| 0 <= e < n && (#[trigger] episodes[e]).holds(
            seq_len,
        ) implies list.contains(e) by {
            if e < n - 1 {
                let k = choose|k: int| 0 <= k < shorter.len() && shorter[k] == e;
                assert(list[k] == e);
            } else {
                assert(list[list.len() - 1] == e);
            }
        }
    }
}

/// Any window that lies inside its episode is what some lots name, and one pair of lots only: the
/// episode is named by one of as many lots as there are episodes with more than `seq_len`
/// observations, and the first step by one of as many as leave room for the window and the
/// observation after it.
pub proof fn law_every_window_has_its_lots<T>(
    buffer: ReplayBuffer<T>,
    window: Window,
    seq_len: int,
)
    requires
        0 <= seq_len,
        window.episode < buffer@.len(),
        window.start + seq_len < buffer@[window.episode as int].obs.len(),
    ensures
        ({
            let valid = long_enough(buffer@, seq_len, buffer@.len());
            &&& exists|lot: int| 0 <= lot < valid.len() && #[trigger] valid[lot] == window.episode
            &&& forall|a: int, b: int|
                0 <= a < valid.len() && 0 <= b < valid.len() && #[trigger] valid[a] == window.episode
                    && #[trigger] valid[b] == window.episode ==> a == b
            &&& 0 <= window.start < buffer@[window.episode as int].obs.len() - seq_len
        }),
{
    lemma_all_listed(buffer@, seq_len, buffer@.len());
    let valid = long_enough(buffer@, seq_len, buffer@.len());
    assert(buffer@[window.episode as int].holds(seq_len));
    assert(valid.contains(window.episode as int));
    assert forall|a: int, b: int|
        0 <= a < valid.len() && 0 <= b < valid.len() && #[trigger] valid[a] == window.episode
            && #[trigger] valid[b] == window.episode implies a == b by {
        if a < b {
            assert(valid[a] < valid[b]);
        } else if b < a {
            assert(valid[b] < valid[a]);
        }
    }
}

/// The episode and the first step of every sampled window are numbers that the generator gave,
/// each for a range that covers all choices.
pub proof fn law_samples_are_rolled<T>(
    buffer: ReplayBuffer<T>,
    windows: Seq<Window>,
    seq_len: int,
    i: int,
)
    requires
        0 <= seq_len <= usize::MAX,
        0 <= i < windows.len(),
        buffer.rolled_windows(windows, seq_len),
        buffer.has(windows[i], seq_len),
        long_enough(buffer@, seq_len, buffer@.len()).len() <= usize::MAX,
    ensures
        rolled(
            0,
            (buffer@[windows[i].episode as int].obs.len() - seq_len) as usize,
            windows[i].start,
        ),
        exists|lot: usize|
            {
                &&& #[trigger] rolled(
                    0,
                    long_enough(buffer@, seq_len, buffer@.len()).len() as usize,
                    lot,
                )
                &&& long_enough(buffer@, seq_len, buffer@.len())[lot as int] == windows[i].episode
            },
{
    assert(buffer.is_rolled(windows[i], i, seq_len));
    let lot = choose|lot: usize| buffer.rolled_window(windows[i], i, lot, seq_len);
    let n = long_enough(buffer@, seq_len, buffer@.len()).len() as usize;
    law_windows_are_rolled_for(i as usize, Pick::Episode, 0, n, lot);
    assert(rolled(0, n, lot));
}

/// An episode that is stored can be read back whole: windows hold what was recorded, step by step,
/// and observations, actions, rewards and verdicts of a step stay together.
pub proof fn law_windows_hold_what_was_recorded<T>(
    buffer: ReplayBuffer<T>,
    windows: Seq<Window>,
    seq_len: int,
    batch: Batch<T>,
    i: int,
    t: int,
)
    requires
        buffer.wf(),
        buffer.sampled(windows, seq_len, batch),
        0 <= i < windows.len(),
        0 <= t < seq_len,
    ensures
        ({
            let episode = buffer@[windows[i].episode as int];
            let at = windows[i].start + t;
            &&& batch.obs[i].len() == seq_len
            &&& batch.action[i].len() == seq_len
            &&& batch.reward[i].len() == seq_len
            &&& batch.done[i].len() == seq_len
            &&& batch.obs[i][t] == episode.obs[at]
            &&& batch.action[i][t] == episode.action[at]
            &&& batch.reward[i][t] == episode.reward[at]
            &&& batch.done[i][t] == episode.done[at]
        }),
{
    assert(buffer.has(windows[i], seq_len));
    assert(buffer@[windows[i].episode as int].wf());
}

/// A memory never holds more than it has room for; it holds all that was stored as long as there
/// is room, and then the last ones, in the order in which they were stored.
pub proof fn law_memory_holds_the_last<T>(episodes: Seq<Episode<T>>, capacity: nat, i: int)
    requires
        capacity > 0,
    ensures
        ({
            let kept = all_stored(episodes, capacity);
            &&& episodes.len() <= capacity ==> kept.len() == episodes.len()
            &&& episodes.len() > capacity ==> kept.len() == capacity
            &&& 0 <= i < kept.len() ==> kept[i] == episodes[episodes.len() - kept.len() + i]
        }),
{
    law_latest_episodes_are_kept(episodes, capacity);
}

} // verus!
