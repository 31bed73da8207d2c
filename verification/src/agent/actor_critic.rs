//! The actor and the critic.
use crate::networks::layers::LinearPlan;
use vstd::prelude::*;

verus! {

/// The width of their hidden layers.
pub const HIDDEN: usize = 256;

/// The layers of the actor.
#[derive(Debug, Clone, Copy, PartialEq, Eq, Structural)]
pub struct Actor {
    /// Hidden layer.
    pub hidden: LinearPlan,
    /// From it to the mean of an action.
    pub mean: LinearPlan,
    /// From it to the spread of an action.
    pub log_std: LinearPlan,
}

impl Actor {
    /// Plans the layers.
    pub fn init(deter_size: usize, stoch_size: usize, action_dim: usize) -> (actor: Self)
        requires
            deter_size + stoch_size <= usize::MAX,
        ensures
            actor == (Actor {
                hidden: LinearPlan { input: (deter_size + stoch_size) as usize, output: 256 },
                mean: LinearPlan { input: 256, output: action_dim },
                log_std: LinearPlan { input: 256, output: action_dim },
            }),
    {
        Actor {
            hidden: LinearPlan { input: deter_size + stoch_size, output: HIDDEN },
            mean: LinearPlan { input: HIDDEN, output: action_dim },
            log_std: LinearPlan { input: HIDDEN, output: action_dim },
        }
    }
}

/// The layers of the critic.
#[derive(Debug, Clone, Copy, PartialEq, Eq, Structural)]
pub struct Critic {
    /// Hidden layer.
    pub hidden: LinearPlan,
    /// From it to a value.
    pub value: LinearPlan,
}

impl Critic {
    /// Plans the layers.
    pub fn init(deter_size: usize, stoch_size: usize) -> (critic: Self)
        requires
            deter_size + stoch_size <= usize::MAX,
        ensures
            critic == (Critic {
                hidden: LinearPlan { input: (deter_size + stoch_size) as usize, output: 256 },
                value: LinearPlan { input: 256, output: 1 },
            }),
    {
        Critic {
            hidden: LinearPlan { input: deter_size + stoch_size, output: HIDDEN },
            value: LinearPlan { input: HIDDEN, output: 1 },
        }
    }
}

/// What is expected after step `t`: the return of the next step, or the last value at the end.
pub open spec fn expected_after<T>(totals: Seq<T>, values: Seq<T>, t: int) -> T {
    if t + 1 < totals.len() {
        totals[t + 1]
    } else {
        values[t + 1]
    }
}

/// `totals` are the returns of the steps of a rollout: each mixes the reward of its step, the value
/// of the state after it and what is expected then.
pub open spec fn are_returns<T, F: Fn(&T, &T, &T) -> T>(
    rewards: Seq<T>,
    values: Seq<T>,
    totals: Seq<T>,
    mix: F,
) -> bool {
    &&& totals.len() == rewards.len()
    &&& forall|t: int|
        0 <= t < rewards.len() ==> mix.ensures(
            (&rewards[t], &values[t + 1], &expected_after(totals, values, t)),
            #[trigger] totals[t],
        )
}

/// The return of each step of a rollout, built from its end: `mix` makes a return from the reward
/// of a step, the value of the state after it and the return that follows.
pub fn lambda_returns_list<T, F: Fn(&T, &T, &T) -> T>(
    rewards: &[T],
    values: &[T],
    mix: F,
) -> (totals: Vec<T>)
    requires
        values.len() == rewards.len() + 1,
        forall|r: &T, v: &T, next: &T| #[trigger] mix.requires((r, v, next)),
    ensures
        are_returns(rewards@, values@, totals@, mix),
{
    let horizon: usize = rewards.len();
    let mut backwards: Vec<T> = Vec::new();
    let mut t: usize = horizon;
    while t > 0
        invariant
            t <= horizon,
            horizon == rewards.len(),
            values.len() == horizon + 1,
            forall|r: &T, v: &T, next: &T| #[trigger] mix.requires((r, v, next)),
            backwards.len() == horizon - t,
            forall|i: int|
                0 <= i < backwards.len() ==> mix.ensures(
                    (
                        &rewards[horizon - 1 - i],
                        &values[horizon - i],
                        &(if i == 0 {
                            values[horizon as int]
                        } else {
                            backwards[i - 1]
                        }),
                    ),
                    #[trigger] backwards[i],
                ),
        decreases t,
    {
        t = t - 1;
        let total = if t + 1 == horizon {
            mix(&rewards[t], &values[t + 1], &values[horizon])
        } else {
            mix(&rewards[t], &values[t + 1], &backwards[horizon - t - 2])
        };
        backwards.push(total);
    }
    let ghost all = backwards@;
    let mut totals: Vec<T> = Vec::new();
    while backwards.len() > 0
        invariant
            all.len() == horizon,
            backwards.len() <= horizon,
            backwards@ =~= all.take(backwards.len() as int),
            totals.len() == horizon - backwards.len(),
            forall|k: int|
                0 <= k < totals.len() ==> #[trigger] totals[k] == all[horizon - 1 - k],
        decreases backwards.len(),
    {
        if let Some(total) = backwards.pop() {
            totals.push(total);
        }
    }
    assert forall|t: int| 0 <= t < rewards.len() implies mix.ensures(
        (&rewards[t], &values[t + 1], &expected_after(totals@, values@, t)),
        #[trigger] totals[t],
    ) by {
        let k = horizon - 1 - t;
        assert(totals[t] == all[k]);
        if k > 0 {
            assert(totals[t + 1] == all[k - 1]);
        }
    }
    totals
}

/// An imagined rollout under way.
pub struct Rollout<S, A, R> {
    states: Vec<S>,
    actions: Vec<A>,
    rewards: Vec<R>,
}

impl<S, A, R> Rollout<S, A, R> {
    /// The states, from the first on.
    pub closed spec fn all_states(self) -> Seq<S> {
        self.states@
    }

    /// The action taken in each state but the last.
    pub closed spec fn all_actions(self) -> Seq<A> {
        self.actions@
    }

    /// The reward for arriving at each state but the first.
    pub closed spec fn all_rewards(self) -> Seq<R> {
        self.rewards@
    }

    /// There is one state more than there are actions and rewards.
    pub open spec fn wf(self) -> bool {
        &&& self.all_states().len() == self.all_actions().len() + 1
        &&& self.all_rewards().len() == self.all_actions().len()
    }

    /// Starts with a state.
    pub fn begin(state: S) -> (rollout: Self)
        ensures
            rollout.wf(),
            rollout.all_states() == seq![state],
    {
        let mut states: Vec<S> = Vec::new();
        states.push(state);
        Rollout { states, actions: Vec::new(), rewards: Vec::new() }
    }

    /// Goes on to the next state.
    pub fn advance(&mut self, action: A, reward: R, next: S)
        requires
            old(self).wf(),
        ensures
            final(self).wf(),
            final(self).all_states() == old(self).all_states().push(next),
            final(self).all_actions() == old(self).all_actions().push(action),
            final(self).all_rewards() == old(self).all_rewards().push(reward),
    {
        self.states.push(next);
        self.actions.push(action);
        self.rewards.push(reward);
    }

    /// Imagines `horizon` steps: `step` tells what is done in a state, what it earns and where it
    /// leads.
    pub fn imagine<F: Fn(&S) -> (A, R, S)>(start: S, horizon: usize, step: F) -> (rollout: Self)
        requires
            forall|state: &S| #[trigger] step.requires((state,)),
        ensures
            rollout.wf(),
            rollout.all_actions().len() == horizon,
            rollout.all_states()[0] == start,
            forall|t: int|
                #![trigger rollout.all_actions()[t]]
                0 <= t < horizon ==> step.ensures(
                    (&rollout.all_states()[t],),
                    (
                        rollout.all_actions()[t],
                        rollout.all_rewards()[t],
                        rollout.all_states()[t + 1],
                    ),
                ),
    {
        let mut rollout = Self::begin(start);
        for t in 0..horizon
            invariant
                forall|state: &S| #[trigger] step.requires((state,)),
                rollout.wf(),
                rollout.all_actions().len() == t,
                rollout.all_states()[0] == start,
                forall|i: int|
                    #![trigger rollout.all_actions()[i]]
                    0 <= i < t ==> step.ensures(
                        (&rollout.all_states()[i],),
                        (
                            rollout.all_actions()[i],
                            rollout.all_rewards()[i],
                            rollout.all_states()[i + 1],
                        ),
                    ),
        {
            let ghost before = rollout;
            let (action, reward, next) = step(&rollout.states[t]);
            rollout.advance(action, reward, next);
            assert forall|i: int|
                #![trigger rollout.all_actions()[i]]
                0 <= i < t + 1 implies step.ensures(
                (&rollout.all_states()[i],),
                (
                    rollout.all_actions()[i],
                    rollout.all_rewards()[i],
                    rollout.all_states()[i + 1],
                ),
            ) by {
                if i < t {
                    assert(rollout.all_actions()[i] == before.all_actions()[i]);
                }
            }
        }
        rollout
    }

    /// The states, from the first on.
    pub fn states(&self) -> (states: &[S])
        ensures
            states@ == self.all_states(),
    {
        self.states.as_slice()
    }

    /// The action taken in each state but the last.
    pub fn actions(&self) -> (actions: &[A])
        ensures
            actions@ == self.all_actions(),
    {
        self.actions.as_slice()
    }

    /// The reward for arriving at each state but the first.
    pub fn rewards(&self) -> (rewards: &[R])
        ensures
            rewards@ == self.all_rewards(),
    {
        self.rewards.as_slice()
    }
}

/// `values` are what the critic says of states, and `frozen` the same as targets.
pub open spec fn are_valued<S, V, C: Fn(&S) -> V, Z: Fn(&V) -> V>(
    states: Seq<S>,
    values: Seq<V>,
    frozen: Seq<V>,
    value: C,
    freeze: Z,
) -> bool {
    &&& values.len() == states.len()
    &&& frozen.len() == states.len()
    &&& forall|t: int|
        0 <= t < values.len() ==> value.ensures((&states[t],), #[trigger] values[t])
    &&& forall|t: int|
        0 <= t < frozen.len() ==> freeze.ensures((&values[t],), #[trigger] frozen[t])
}

/// `losses` are the losses of the steps of a rollout: each sees the state and the action of its
/// step, the value of the state, and the return that the step came to.
pub open spec fn are_losses<S, A, V, L, F: Fn(&S, &A, &V, &V) -> L>(
    states: Seq<S>,
    actions: Seq<A>,
    values: Seq<V>,
    totals: Seq<V>,
    losses: Seq<L>,
    loss: F,
) -> bool {
    &&& losses.len() == actions.len()
    &&& forall|t: int|
        0 <= t < losses.len() ==> loss.ensures(
            (&states[t], &actions[t], &values[t], &totals[t]),
            #[trigger] losses[t],
        )
}

/// The losses of an imagined rollout: `value` tells what a state is worth, `freeze` makes a target
/// of a value, returns are mixed from the rewards and the frozen values, and `loss` tells what a
/// step costs.
pub fn imagination_losses<
    S,
    A,
    V,
    L,
    C: Fn(&S) -> V,
    Z: Fn(&V) -> V,
    M: Fn(&V, &V, &V) -> V,
    F: Fn(&S, &A, &V, &V) -> L,
>(rollout: &Rollout<S, A, V>, value: C, freeze: Z, mix: M, loss: F) -> (losses: Vec<L>)
    requires
        rollout.wf(),
        forall|s: &S| #[trigger] value.requires((s,)),
        forall|v: &V| #[trigger] freeze.requires((v,)),
        forall|r: &V, v: &V, next: &V| #[trigger] mix.requires((r, v, next)),
        forall|s: &S, a: &A, v: &V, total: &V| #[trigger] loss.requires((s, a, v, total)),
    ensures
        exists|values: Seq<V>, frozen: Seq<V>, totals: Seq<V>|
            {
                &&& #[trigger] are_valued(rollout.all_states(), values, frozen, value, freeze)
                &&& #[trigger] are_returns(rollout.all_rewards(), frozen, totals, mix)
                &&& are_losses(
                    rollout.all_states(),
                    rollout.all_actions(),
                    values,
                    totals,
                    losses@,
                    loss,
                )
            },
{
    let mut values: Vec<V> = Vec::new();
    let mut frozen: Vec<V> = Vec::new();
    for t in 0..rollout.states.len()
        invariant
            forall|s: &S| #[trigger] value.requires((s,)),
            forall|v: &V| #[trigger] freeze.requires((v,)),
            are_valued(rollout.states@.take(t as int), values@, frozen@, value, freeze),
    {
        let v = value(&rollout.states[t]);
        frozen.push(freeze(&v));
        values.push(v);
    }
    assert(rollout.states@.take(rollout.states.len() as int) =~= rollout.all_states());
    let totals = lambda_returns_list(rollout.rewards.as_slice(), frozen.as_slice(), mix);
    let mut losses: Vec<L> = Vec::new();
    for t in 0..rollout.actions.len()
        invariant
            rollout.wf(),
            values.len() == rollout.states.len(),
            totals.len() == rollout.rewards.len(),
            forall|s: &S, a: &A, v: &V, total: &V| #[trigger] loss.requires((s, a, v, total)),
            losses.len() == t,
            forall|i: int|
                0 <= i < t ==> loss.ensures(
                    (&rollout.states[i], &rollout.actions[i], &values[i], &totals[i]),
                    #[trigger] losses[i],
                ),
    {
        losses.push(loss(&rollout.states[t], &rollout.actions[t], &values[t], &totals[t]));
    }
    assert(are_valued(rollout.all_states(), values@, frozen@, value, freeze));
    assert(are_returns(rollout.all_rewards(), frozen@, totals@, mix));
    losses
}

/// Returns are built from the end: the last one mixes the last reward with the last value, taken
/// both as the value of the state after it and as what is expected then, and without the first
/// step the others are the returns of the rest.
pub proof fn law_returns_are_built_from_the_end<T, F: Fn(&T, &T, &T) -> T>(
    rewards: Seq<T>,
    values: Seq<T>,
    totals: Seq<T>,
    mix: F,
)
    requires
        are_returns(rewards, values, totals, mix),
        values.len() == rewards.len() + 1,
        rewards.len() > 0,
    ensures
        mix.ensures((&rewards.last(), &values.last(), &values.last()), totals.last()),
        are_returns(rewards.drop_first(), values.drop_first(), totals.drop_first(), mix),
        rewards.len() > 1 ==> mix.ensures((&rewards[0], &values[1], &totals[1]), totals[0]),
{
    assert(totals[totals.len() - 1] == totals.last());
    assert(totals[0] == totals[0]);
    let rest = totals.drop_first();
    let after = values.drop_first();
    assert forall|t: int| 0 <= t < rewards.len() - 1 implies mix.ensures(
        (&rewards.drop_first()[t], &after[t + 1], &expected_after(rest, after, t)),
        #[trigger] rest[t],
    ) by {
        assert(rest[t] == totals[t + 1]);
        assert(expected_after(rest, after, t) == expected_after(totals, values, t + 1));
    }
}

/// The loss of a step sees what belongs to that step: without the first step the others are the
/// losses of the rest.
pub proof fn law_losses_go_step_by_step<S, A, V, L, F: Fn(&S, &A, &V, &V) -> L>(
    states: Seq<S>,
    actions: Seq<A>,
    values: Seq<V>,
    totals: Seq<V>,
    losses: Seq<L>,
    loss: F,
)
    requires
        are_losses(states, actions, values, totals, losses, loss),
        actions.len() > 0,
        states.len() == actions.len() + 1,
        values.len() == states.len(),
        totals.len() == actions.len(),
    ensures
        loss.ensures((&states[0], &actions[0], &values[0], &totals[0]), losses[0]),
        are_losses(
            states.drop_first(),
            actions.drop_first(),
            values.drop_first(),
            totals.drop_first(),
            losses.drop_first(),
            loss,
        ),
{
    assert(losses[0] == losses[0]);
    let rest = losses.drop_first();
    assert forall|t: int| 0 <= t < rest.len() implies loss.ensures(
        (
            &states.drop_first()[t],
            &actions.drop_first()[t],
            &values.drop_first()[t],
            &totals.drop_first()[t],
        ),
        #[trigger] rest[t],
    ) by {
        assert(rest[t] == losses[t + 1]);
    }
}

/// The critic looks at each state by itself, and targets are frozen values.
pub proof fn law_values_belong_to_states<S, V, C: Fn(&S) -> V, Z: Fn(&V) -> V>(
    states: Seq<S>,
    values: Seq<V>,
    frozen: Seq<V>,
    value: C,
    freeze: Z,
    t: int,
)
    requires
        are_valued(states, values, frozen, value, freeze),
        0 <= t < states.len(),
    ensures
        value.ensures((&states[t],), values[t]),
        freeze.ensures((&values[t],), frozen[t]),
{
    assert(values[t] == values[t]);
    assert(frozen[t] == frozen[t]);
}

} // verus!
