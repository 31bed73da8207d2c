//! The recurrent state-space model: a recurrent unit, a prior and a posterior.
use crate::networks::layers::LinearPlan;
use std::rc::Rc;
use vstd::prelude::*;

verus! {

/// The width of the hidden layers of prior and posterior.
pub const RSSM_HIDDEN: usize = 128;

/// The shapes of a state: rows of deterministic and stochastic parts.
#[derive(Debug, Clone, Copy, PartialEq, Eq, Structural)]
pub struct RSSMState {
    /// The number of rows.
    pub batch: usize,
    /// The length of a deterministic part.
    pub deter: usize,
    /// The length of a stochastic part, of its mean and of its spread.
    pub stoch: usize,
}

/// The layers of the model.
#[derive(Debug, Clone, Copy, PartialEq, Eq, Structural)]
pub struct RSSM {
    /// The recurrent unit.
    pub gru: LinearPlan,
    /// Hidden layer of the prior.
    pub prior_h: LinearPlan,
    /// From it to means and spreads.
    pub prior: LinearPlan,
    /// Hidden layer of the posterior.
    pub post_h: LinearPlan,
    /// From it to means and spreads.
    pub post: LinearPlan,
    /// The length of an observation embedding, which is normalised.
    pub norm_obs: usize,
    /// The length of a deterministic part.
    pub deter_size: usize,
    /// The length of a stochastic part.
    pub stoch_size: usize,
    /// The length of the extra context; none if zero.
    pub ctx_size: usize,
}

impl RSSM {
    /// All sizes can be added up.
    pub open spec fn sizes_fit(deter: int, stoch: int, action: int, obs: int, ctx: int) -> bool {
        &&& stoch + action + ctx <= usize::MAX
        &&& deter + obs <= usize::MAX
        &&& stoch * 2 <= usize::MAX
    }

    /// The layers for given sizes.
    pub open spec fn of(deter: usize, stoch: usize, action: usize, obs: usize, ctx: usize) -> Self {
        RSSM {
            gru: LinearPlan { input: (stoch + action + ctx) as usize, output: deter },
            prior_h: LinearPlan { input: deter, output: 128 },
            prior: LinearPlan { input: 128, output: (stoch * 2) as usize },
            post_h: LinearPlan { input: (deter + obs) as usize, output: 128 },
            post: LinearPlan { input: 128, output: (stoch * 2) as usize },
            norm_obs: obs,
            deter_size: deter,
            stoch_size: stoch,
            ctx_size: ctx,
        }
    }

    /// Plans a model without extra context.
    pub fn init(deter: usize, stoch: usize, action: usize, obs: usize) -> (rssm: Self)
        requires
            Self::sizes_fit(deter as int, stoch as int, action as int, obs as int, 0),
        ensures
            rssm == Self::of(deter, stoch, action, obs, 0),
    {
        Self::init_with_ctx(deter, stoch, action, obs, 0)
    }

    /// Plans a model with extra context of length `ctx`.
    pub fn init_with_ctx(deter: usize, stoch: usize, action: usize, obs: usize, ctx: usize) -> (rssm:
        Self)
        requires
            Self::sizes_fit(deter as int, stoch as int, action as int, obs as int, ctx as int),
        ensures
            rssm == Self::of(deter, stoch, action, obs, ctx),
    {
        RSSM {
            gru: LinearPlan { input: stoch + action + ctx, output: deter },
            prior_h: LinearPlan { input: deter, output: RSSM_HIDDEN },
            prior: LinearPlan { input: RSSM_HIDDEN, output: stoch * 2 },
            post_h: LinearPlan { input: deter + obs, output: RSSM_HIDDEN },
            post: LinearPlan { input: RSSM_HIDDEN, output: stoch * 2 },
            norm_obs: obs,
            deter_size: deter,
            stoch_size: stoch,
            ctx_size: ctx,
        }
    }

    /// The shapes of `batch` states.
    pub fn init_state(&self, batch: usize) -> (state: RSSMState)
        ensures
            state == (RSSMState { batch, deter: self.deter_size, stoch: self.stoch_size }),
    {
        RSSMState { batch, deter: self.deter_size, stoch: self.stoch_size }
    }

    /// The length of a row that enters the recurrent unit: state, action and, if there is any,
    /// context.
    pub fn transition_input(&self, action: usize) -> (n: usize)
        requires
            self.stoch_size + action + self.ctx_size <= usize::MAX,
        ensures
            n == self.stoch_size + action + self.ctx_size,
    {
        if self.ctx_size > 0 {
            self.stoch_size + action + self.ctx_size
        } else {
            self.stoch_size + action
        }
    }
}

/// The parts of a transition fit the recurrent unit, and its output fits prior and posterior.
pub proof fn law_transition_fits(
    deter: usize,
    stoch: usize,
    action: usize,
    obs: usize,
    ctx: usize,
)
    requires
        RSSM::sizes_fit(deter as int, stoch as int, action as int, obs as int, ctx as int),
    ensures
        ({
            let m = RSSM::of(deter, stoch, action, obs, ctx);
            &&& m.gru.input == m.stoch_size + action + m.ctx_size
            &&& m.gru.output == m.deter_size
            &&& m.prior_h.input == m.gru.output
            &&& m.prior_h.output == m.prior.input
            &&& m.post_h.input == m.gru.output + m.norm_obs
            &&& m.post_h.output == m.post.input
            &&& m.prior.output == 2 * m.stoch_size
            &&& m.post.output == 2 * m.stoch_size
            &&& m.prior_h.output == 128 && m.post_h.output == 128
            &&& m.deter_size == deter && m.stoch_size == stoch
            &&& m.ctx_size == ctx && m.norm_obs == obs
        }),
{
}

// ---- Steps --------------------------------------------------------------------------------------
/// A state: its deterministic part, which several states may share, and what was drawn from it.
#[derive(Debug, Clone)]
pub struct Latent<H, Z> {
    /// The deterministic part.
    pub deter: Rc<H>,
    /// The stochastic part.
    pub stoch: Z,
}

impl<H, Z> Latent<H, Z> {
    /// `self` holds the deterministic part `h`, and the prior made the rest from it.
    pub open spec fn from_prior<P: Fn(&H) -> Z>(self, h: H, prior: P) -> bool {
        &&& *self.deter == h
        &&& prior.ensures((&h,), self.stoch)
    }

    /// `self` holds the deterministic part `h`, and the posterior made the rest from it and the
    /// observation.
    pub open spec fn from_posterior<O, Q: Fn(&H, &O) -> Z>(self, h: H, obs: O, post: Q) -> bool {
        &&& *self.deter == h
        &&& post.ensures((&h, &obs), self.stoch)
    }
}

/// `next` follows `state` in imagination: it holds what the transition made, and the prior made
/// the rest.
pub open spec fn is_imagined<S, A, H, Z, D: Fn(&S, A) -> H, P: Fn(&H) -> Z>(
    state: S,
    action: A,
    get_deter: D,
    prior: P,
    next: Latent<H, Z>,
) -> bool {
    exists|h: H|
        #[trigger] get_deter.ensures((&state, action), h) && next.from_prior(h, prior)
}

/// `next` follows `state` with an observation: it holds what the transition made, and the
/// posterior made the rest.
pub open spec fn is_observed<S, A, O, H, Z, D: Fn(&S, A) -> H, Q: Fn(&H, &O) -> Z>(
    state: S,
    obs: O,
    action: A,
    get_deter: D,
    post: Q,
    next: Latent<H, Z>,
) -> bool {
    exists|h: H|
        #[trigger] get_deter.ensures((&state, action), h) && next.from_posterior(h, obs, post)
}

/// `both` are the prior and the posterior of one step, made from one deterministic part.
pub open spec fn is_pair<
    S,
    A,
    O,
    H,
    Z,
    D: Fn(&S, A) -> H,
    P: Fn(&H) -> Z,
    Q: Fn(&H, &O) -> Z,
>(
    state: S,
    obs: O,
    action: A,
    get_deter: D,
    prior: P,
    post: Q,
    both: (Latent<H, Z>, Latent<H, Z>),
) -> bool {
    exists|h: H|
        {
            &&& #[trigger] get_deter.ensures((&state, action), h)
            &&& both.0.from_prior(h, prior)
            &&& both.1.from_posterior(h, obs, post)
        }
}

/// A step in imagination.
pub fn img_step<S, A, H, Z, D: Fn(&S, A) -> H, P: Fn(&H) -> Z>(
    state: &S,
    action: A,
    get_deter: D,
    prior: P,
) -> (next: Latent<H, Z>)
    requires
        get_deter.requires((state, action)),
        forall|h: &H| #[trigger] prior.requires((h,)),
    ensures
        is_imagined(*state, action, get_deter, prior, next),
{
    let h = get_deter(state, action);
    let stoch = prior(&h);
    let next = Latent { deter: Rc::new(h), stoch };
    assert(next.from_prior(h, prior));
    next
}

/// A step with an observation.
pub fn obs_step<S, A, O, H, Z, D: Fn(&S, A) -> H, Q: Fn(&H, &O) -> Z>(
    state: &S,
    obs: &O,
    action: A,
    get_deter: D,
    post: Q,
) -> (next: Latent<H, Z>)
    requires
        get_deter.requires((state, action)),
        forall|h: &H| #[trigger] post.requires((h, obs)),
    ensures
        is_observed(*state, *obs, action, get_deter, post, next),
{
    let h = get_deter(state, action);
    let stoch = post(&h, obs);
    let next = Latent { deter: Rc::new(h), stoch };
    assert(next.from_posterior(h, *obs, post));
    next
}

/// Prior and posterior of one step. Both hold the same deterministic part.
pub fn prior_posterior_step<
    S,
    A,
    O,
    H,
    Z,
    D: Fn(&S, A) -> H,
    P: Fn(&H) -> Z,
    Q: Fn(&H, &O) -> Z,
>(state: &S, obs: &O, action: A, get_deter: D, prior: P, post: Q) -> (both: (
    Latent<H, Z>,
    Latent<H, Z>,
))
    requires
        get_deter.requires((state, action)),
        forall|h: &H| #[trigger] prior.requires((h,)),
        forall|h: &H| #[trigger] post.requires((h, obs)),
    ensures
        both.0.deter == both.1.deter,
        is_pair(*state, *obs, action, get_deter, prior, post, both),
{
    let h = get_deter(state, action);
    let guess = prior(&h);
    let seen = post(&h, obs);
    let deter = Rc::new(h);
    let first = Latent { deter: deter.clone(), stoch: guess };
    let second = Latent { deter, stoch: seen };
    assert(first.from_prior(h, prior));
    assert(second.from_posterior(h, *obs, post));
    (first, second)
}

/// All steps from one state and action hold the same deterministic part, whether they are
/// imagined, observed or both, as long as the transition is a function of the state and the
/// action.
pub proof fn law_steps_share_transition<
    S,
    A,
    O,
    H,
    Z,
    D: Fn(&S, A) -> H,
    P: Fn(&H) -> Z,
    Q: Fn(&H, &O) -> Z,
>(
    state: S,
    obs: O,
    action: A,
    get_deter: D,
    prior: P,
    post: Q,
    imagined: Latent<H, Z>,
    observed: Latent<H, Z>,
    both: (Latent<H, Z>, Latent<H, Z>),
)
    requires
        is_imagined(state, action, get_deter, prior, imagined),
        is_observed(state, obs, action, get_deter, post, observed),
        is_pair(state, obs, action, get_deter, prior, post, both),
        forall|g: H, h: H|
            #[trigger] get_deter.ensures((&state, action), g) && #[trigger] get_deter.ensures(
                (&state, action),
                h,
            ) ==> g == h,
    ensures
        both.0.deter == both.1.deter,
        both.0.deter == imagined.deter,
        both.0.deter == observed.deter,
{
}

} // verus!
