//! Random draws from the `rand` crate.
use rand::Rng;
use rand::SeedableRng;
use vstd::prelude::*;

verus! {

/// `rand`'s standard generator, whose state stays hidden.
#[verifier::external_type_specification]
#[verifier::external_body]
pub struct ExStdRng(rand::rngs::StdRng);

/// `SeedableRng::seed_from_u64` for `StdRng`: a generator started from `seed`. `rand` documents
/// `StdRng` as deterministic but not to be taken as reproducible, since it depends on configuration
/// and may be replaced, so nothing is said of the stream that `seed` leads to.
#[verifier::external_body]
pub(crate) fn seeded(seed: u64) -> (rng: rand::rngs::StdRng) {
    rand::rngs::StdRng::seed_from_u64(seed)
}

/// `Rng::gen_range` on a `StdRng`: some number from `low` up to but not including `high`. It
/// panics on an empty range. Which number comes, and what becomes of the generator, follows from its
/// hidden state and is left open.
#[verifier::external_body]
pub(crate) fn draw(rng: &mut rand::rngs::StdRng, low: usize, high: usize) -> (n: usize)
    requires
        low < high,
    ensures
        low <= n < high,
{
    rng.gen_range(low..high)
}

/// `Rng::gen_range` on the generator of the running thread, as `thread_rng` hands it out: some
/// number from `low` up to but not including `high`. It panics on an empty range. Which number
/// comes is up to the generator, which every process seeds anew.
#[verifier::external_body]
pub(crate) fn roll(low: usize, high: usize) -> (n: usize)
    requires
        low < high,
    ensures
        low <= n < high,
{
    rand::thread_rng().gen_range(low..high)
}

/// `n` is what a call of `roll` for the range from `low` to `high` came to.
pub closed spec fn rolled(low: usize, high: usize, n: usize) -> bool {
    call_ensures(roll, (low, high), n)
}

/// `rng` is what a call of `seeded` for `seed` came to.
pub closed spec fn seeded_from(seed: u64, rng: rand::rngs::StdRng) -> bool {
    call_ensures(seeded, (seed,), rng)
}

/// `n` is what a call of `draw` on the generator `from`, for the range from `low` to `high`, came
/// to.
pub closed spec fn drawn_from(
    from: rand::rngs::StdRng,
    low: usize,
    high: usize,
    n: usize,
) -> bool {
    exists|rng: &mut rand::rngs::StdRng|
        #[trigger] call_ensures(draw, (rng, low, high), n) && *rng == from
}

/// `n` was drawn from some generator, for the range from `low` to `high`.
pub open spec fn drawn(low: usize, high: usize, n: usize) -> bool {
    exists|from: rand::rngs::StdRng| #[trigger] drawn_from(from, low, high, n)
}

/// Calls `ask` once for a number of the range.
fn asked<F: Fn(usize, usize) -> usize>(ask: F, low: usize, high: usize) -> (n: usize)
    requires
        ask.requires((low, high)),
    ensures
        ask.ensures((low, high), n),
{
    ask(low, high)
}

/// Calls `ask` once on a generator for a number of the range.
fn asked_of<F: Fn(&mut rand::rngs::StdRng, usize, usize) -> usize>(
    ask: F,
    rng: &mut rand::rngs::StdRng,
    low: usize,
    high: usize,
) -> (n: usize)
    requires
        forall|r: &mut rand::rngs::StdRng| #[trigger] ask.requires((r, low, high)),
    ensures
        exists|r: &mut rand::rngs::StdRng|
            #[trigger] ask.ensures((r, low, high), n) && *r == *old(rng),
{
    ask(rng, low, high)
}

/// Rolls a number of the range.
pub(crate) fn roll_number(low: usize, high: usize) -> (n: usize)
    requires
        low < high,
    ensures
        low <= n < high,
        rolled(low, high, n),
{
    asked(roll, low, high)
}

/// Draws a number of the range.
pub(crate) fn draw_number(rng: &mut rand::rngs::StdRng, low: usize, high: usize) -> (n: usize)
    requires
        low < high,
    ensures
        low <= n < high,
        drawn_from(*old(rng), low, high, n),
{
    asked_of(draw, rng, low, high)
}

/// Calls `start` once for a generator.
fn started_by<F: Fn(u64) -> rand::rngs::StdRng>(start: F, seed: u64) -> (rng: rand::rngs::StdRng)
    requires
        start.requires((seed,)),
    ensures
        start.ensures((seed,), rng),
{
    start(seed)
}

/// Starts a generator from `seed`.
pub(crate) fn start_from(seed: u64) -> (rng: rand::rngs::StdRng)
    ensures
        seeded_from(seed, rng),
{
    started_by(seeded, seed)
}

/// A number that was rolled or drawn lies in its range.
pub proof fn law_numbers_stay_in_range(low: usize, high: usize, n: usize)
    requires
        rolled(low, high, n) || drawn(low, high, n),
    ensures
        low <= n < high,
{
}

} // verus!
