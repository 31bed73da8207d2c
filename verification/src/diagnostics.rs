//! Fit tests: which pixels count as the ball, how much they weigh, and how fast to learn.
use crate::raster::in_disc;
use crate::raster::lemma_square_bound;
use crate::text::decimal_text;
use crate::text::number_text;
use vstd::prelude::*;
use vstd::string::StringExecFns;

verus! {

/// The side of the frames.
pub const SIZE: usize = 64;

/// The channels of the frames.
pub const CHANNELS: usize = 3;

/// The number of frames.
pub const N_FRAMES: usize = 32;

/// The number of updates.
pub const STEPS: usize = 3000;

/// The radius around the ball that is looked at.
pub const BALL_RADIUS: i64 = 10;

/// Entry `i` of a mask over frames with `size * size` pixels and `channels` channels each belongs
/// to the ball of its frame.
pub open spec fn near_ball(
    centres: Seq<(i32, i32)>,
    size: int,
    channels: int,
    i: int,
) -> bool {
    let pixels = size * size;
    let centre = centres[i / (channels * pixels)];
    let p = i % pixels;
    in_disc(centre.0 as int, centre.1 as int, 10, p % size, p / size)
}

/// Marks the pixels near the ball in every channel of every frame.
pub fn ball_mask(centres: &[(i32, i32)], size: usize, channels: usize) -> (mask: Vec<bool>)
    requires
        size <= i32::MAX,
        channels * (size * size) <= usize::MAX,
        centres.len() * (channels * (size * size)) <= usize::MAX,
    ensures
        mask.len() == centres.len() * (channels * (size * size)),
        forall|i: int|
            0 <= i < mask.len() ==> #[trigger] mask[i] == near_ball(
                centres@,
                size as int,
                channels as int,
                i,
            ),
{
    let mut mask: Vec<bool> = Vec::new();
    if size == 0 || channels == 0 {
        assert(centres.len() * (channels * (size * size)) == 0) by (nonlinear_arith)
            requires
                size == 0 || channels == 0,
        ;
        return mask;
    }
    let ghost s = size as int;
    let ghost c = channels as int;
    assert(0 < s <= s * s && s * s <= c * (s * s)) by (nonlinear_arith)
        requires
            0 < s,
            0 < c,
    ;
    let pixels: usize = size * size;
    let frame: usize = channels * pixels;
    let total: usize = centres.len() * frame;
    for i in 0..total
        invariant
            0 < size <= i32::MAX,
            0 < channels,
            s == size,
            c == channels,
            0 < pixels,
            pixels == s * s,
            0 < frame,
            frame == c * (s * s),
            total == centres.len() * frame,
            mask.len() == i,
            forall|j: int|
                0 <= j < i ==> #[trigger] mask[j] == near_ball(centres@, s, c, j),
    {
        assert(0 <= i as int / frame as int && (i as int / frame as int) < centres.len())
            by (nonlinear_arith)
            requires
                0 <= i < centres.len() * frame,
                0 < frame,
        ;
        let p: usize = i % pixels;
        assert(0 <= p as int % s < s && 0 <= p as int / s < s) by (nonlinear_arith)
            requires
                0 <= p < s * s,
                0 < s,
        ;
        let centre = centres[i / frame];
        let dx: i64 = (p % size) as i64 - centre.0 as i64;
        let dy: i64 = (p / size) as i64 - centre.1 as i64;
        let near = if -BALL_RADIUS <= dx && dx <= BALL_RADIUS && -BALL_RADIUS <= dy && dy
            <= BALL_RADIUS {
            proof {
                lemma_square_bound(dx as int, 10);
                lemma_square_bound(dy as int, 10);
            }
            dx * dx + dy * dy <= BALL_RADIUS * BALL_RADIUS
        } else {
            proof {
                crate::raster::lemma_disc_box(centre.0 as int, centre.1 as int, 10);
            }
            false
        };
        mask.push(near);
    }
    mask
}

/// What an entry weighs.
pub open spec fn weight_of(near: bool, weighted: bool) -> u32 {
    if weighted && near {
        50
    } else {
        1
    }
}

/// The weight of each entry: fifty near the ball if the test is weighted, else one.
pub fn fit_weights(mask: &[bool], weighted: bool) -> (weights: Vec<u32>)
    ensures
        weights@ == mask@.map_values(
            |near: bool|
                if weighted && near {
                    50u32
                } else {
                    1u32
                },
        ),
        weights@ == mask@.map_values(|near: bool| weight_of(near, weighted)),
{
    let mut weights: Vec<u32> = Vec::new();
    for i in 0..mask.len()
        invariant
            weights@ =~= mask@.map_values(
                |near: bool|
                    if weighted && near {
                        50u32
                    } else {
                        1u32
                    },
            ).take(i as int),
    {
        weights.push(
            if weighted && mask[i] {
                50
            } else {
                1
            },
        );
    }
    assert(weights@ =~= mask@.map_values(|near: bool| weight_of(near, weighted)));
    weights
}

/// The scripted action with `n` frames collected, in halves: it sweeps from full left to full
/// right.
pub fn scripted_action(n: usize) -> (halves: i32)
    ensures
        halves == n % 5 - 2,
        -2 <= halves <= 2,
{
    (n % 5) as i32 - 2
}

/// What to do next to collect frames.
#[derive(Clone, Copy, Debug, PartialEq, Eq, Structural)]
pub enum Shot {
    /// Reset the environment and keep the frame.
    Reset,
    /// Take a step and keep the frame.
    Step {
        /// The action, in halves.
        halves: i32,
    },
    /// There are frames enough.
    Done,
}

/// Frames that are being collected.
#[derive(Clone, Copy, Debug, PartialEq, Eq, Structural)]
pub struct Reel {
    /// The number of frames kept so far.
    pub frames: usize,
    /// The episode of the last frame is over.
    pub over: bool,
}

impl Reel {
    /// The next shot: an episode starts with a reset, goes on with scripted steps, and another
    /// follows when it is over, until there are frames enough.
    pub open spec fn next_shot(self) -> Shot {
        if self.frames >= N_FRAMES {
            Shot::Done
        } else if self.frames == 0 || self.over {
            Shot::Reset
        } else {
            Shot::Step { halves: (self.frames % 5 - 2) as i32 }
        }
    }

    /// Starts without frames.
    pub fn new() -> (reel: Self)
        ensures
            reel == (Reel { frames: 0, over: false }),
    {
        Reel { frames: 0, over: false }
    }

    /// The next shot.
    pub fn shot(&self) -> (shot: Shot)
        ensures
            shot == self.next_shot(),
    {
        if self.frames >= N_FRAMES {
            Shot::Done
        } else if self.frames == 0 || self.over {
            Shot::Reset
        } else {
            Shot::Step { halves: scripted_action(self.frames) }
        }
    }

    /// Notes that a frame was kept, and whether it ended its episode.
    pub fn kept(&mut self, done: bool)
        requires
            old(self).next_shot() != Shot::Done,
        ensures
            *final(self) == (Reel { frames: (old(self).frames + 1) as usize, over: done }),
    {
        self.frames = self.frames + 1;
        self.over = done;
    }
}

/// The reel after the frames whose ends `dones` tells.
pub open spec fn reel_after(dones: Seq<bool>) -> Reel {
    Reel { frames: dones.len() as usize, over: dones.len() > 0 && dones.last() }
}

/// However episodes end, exactly [`N_FRAMES`] frames are collected.
pub proof fn law_reel_fills(dones: Seq<bool>)
    requires
        dones.len() <= usize::MAX,
    ensures
        reel_after(dones).next_shot() is Done <==> dones.len() >= N_FRAMES,
{
}

/// How fast to learn.
#[derive(Clone, Copy, Debug, PartialEq, Eq, Structural)]
pub enum Rate {
    /// Fast, while things find their places.
    Coarse,
    /// Slower.
    Fine,
    /// Slowest, for the last details.
    Finest,
}

/// How fast to learn in update `step` of a hybrid test: fast for the first half, slower for the
/// next third, slowest for the rest.
pub open spec fn rate_at(step: int) -> Rate {
    if step < 1500 {
        Rate::Coarse
    } else if step < 2500 {
        Rate::Fine
    } else {
        Rate::Finest
    }
}

/// How slow a rate is.
pub open spec fn slowness(rate: Rate) -> int {
    match rate {
        Rate::Coarse => 0,
        Rate::Fine => 1,
        Rate::Finest => 2,
    }
}

/// How fast to learn in update `step` of a hybrid test.
pub fn learning_rate(step: usize) -> (rate: Rate)
    ensures
        rate == rate_at(step as int),
{
    if step < STEPS / 2 {
        Rate::Coarse
    } else if step < 5 * STEPS / 6 {
        Rate::Fine
    } else {
        Rate::Finest
    }
}

/// Learning never speeds up again.
pub proof fn law_learning_slows_down(a: int, b: int)
    requires
        a <= b,
    ensures
        slowness(rate_at(a)) <= slowness(rate_at(b)),
{
}

/// Whether to report in update `step`.
pub fn reports(step: usize) -> (yes: bool)
    ensures
        yes == (step % 100 == 0),
{
    step % 100 == 0
}

/// Names the file of a compared frame.
pub fn sample_path(prefix: &str, index: u64) -> (name: String)
    ensures
        name@ == "output/"@ + prefix@ + "_"@ + decimal_text(index as nat) + ".png"@,
{
    let mut name = String::from_str("output/");
    name.append(prefix);
    name.append("_");
    let number = number_text(index);
    name.append(number.as_str());
    name.append(".png");
    name
}

/// The mask looks the same in every channel of a frame, and marks what lies within ten pixels of
/// the centre of the ball in that frame.
pub proof fn law_mask_follows_the_ball(
    centres: Seq<(i32, i32)>,
    size: int,
    channels: int,
    frame: int,
    channel: int,
    x: int,
    y: int,
)
    requires
        0 <= frame < centres.len(),
        0 <= channel < channels,
        0 <= x < size,
        0 <= y < size,
    ensures
        ({
            let at = frame * (channels * (size * size)) + channel * (size * size) + y * size + x;
            let dx = x - centres[frame].0;
            let dy = y - centres[frame].1;
            &&& 0 <= at < centres.len() * (channels * (size * size))
            &&& near_ball(centres, size, channels, at) <==> dx * dx + dy * dy <= 100
        }),
{
    let n = size * size;
    let at = frame * (channels * n) + channel * n + y * size + x;
    let p = y * size + x;
    assert(0 <= p < n) by (nonlinear_arith)
        requires
            p == y * size + x,
            n == size * size,
            0 <= x < size,
            0 <= y < size,
    ;
    let in_frame = channel * n + p;
    assert(0 <= in_frame < channels * n) by (nonlinear_arith)
        requires
            in_frame == channel * n + p,
            0 <= p < n,
            0 <= channel < channels,
    ;
    vstd::arithmetic::div_mod::lemma_fundamental_div_mod_converse(
        at,
        channels * n,
        frame,
        in_frame,
    );
    let rows = frame * channels + channel;
    assert(at == rows * n + p) by (nonlinear_arith)
        requires
            at == frame * (channels * n) + channel * n + p,
            rows == frame * channels + channel,
    ;
    vstd::arithmetic::div_mod::lemma_fundamental_div_mod_converse(at, n, rows, p);
    vstd::arithmetic::div_mod::lemma_fundamental_div_mod_converse(p, size, y, x);
    assert(0 <= at < centres.len() * (channels * n)) by (nonlinear_arith)
        requires
            at == frame * (channels * n) + in_frame,
            0 <= in_frame < channels * n,
            0 <= frame < centres.len(),
    ;
    assert(10int * 10 == 100);
}

/// The script of a reel: an episode that is over is followed by a reset, others go on, and the
/// scripted action goes one half further right at every frame until it falls back from full right
/// to full left.
pub proof fn law_reel_sweeps(dones: Seq<bool>, done: bool)
    requires
        0 < dones.len() < 31,
    ensures
        ({
            let now = reel_after(dones).next_shot();
            let next = reel_after(dones.push(done)).next_shot();
            &&& reel_after(Seq::empty()).next_shot() == Shot::Reset
            &&& dones.last() ==> now == Shot::Reset
            &&& !dones.last() ==> now is Step
            &&& now matches Shot::Step { halves } ==> -2 <= halves <= 2
            &&& now matches Shot::Step { halves: a } ==> next matches Shot::Step { halves: b } ==> b
                == if a == 2 {
                -2int
            } else {
                a + 1
            }
            &&& dones.len() == 1 && !dones.last() ==> now == (Shot::Step { halves: -1i32 })
        }),
{
    assert(dones.push(done).last() == done);
}

/// Half of the updates of a hybrid test are coarse, and the last sixth is the finest.
pub proof fn law_rates_share_the_updates(step: int)
    ensures
        rate_at(step) is Coarse <==> 2 * step < STEPS,
        rate_at(step) is Finest <==> 6 * step >= 5 * STEPS,
{
}

/// In a weighted test an entry near the ball counts as much as fifty others, and without weights
/// all count alike.
pub proof fn law_ball_outweighs_the_rest(near: bool)
    ensures
        weight_of(true, true) == 50 * weight_of(false, true),
        weight_of(near, false) == weight_of(false, true),
        weight_of(false, true) == 1,
{
}

} // verus!
