//! The course of a training run: which environment acts, when models are updated, and when
//! checkpoints, videos and reports are due.
use crate::replay::Episode;
use vstd::math::max;
use vstd::math::min;
use vstd::prelude::*;

verus! {

/// Episodes in which only the world model learns.
pub const WARMUP_EPISODES: usize = 100;

/// Nothing is learnt from fewer episodes in memory than this.
pub const LEAST_REPLAY: usize = 5;

/// Imagined rollouts are never longer than this.
pub const LONGEST_ROLLOUT: usize = 15;

// ---- Recording ----------------------------------------------------------------------------------
/// What came of a step that an environment took.
pub struct Outcome<T> {
    /// The observation that the step led to.
    pub next: T,
    /// The reward for it.
    pub reward: T,
    /// Whether it ended the episode, as it is recorded.
    pub done: T,
    /// Whether it ended the episode.
    pub over: bool,
}

/// An episode under way.
pub struct Recorder<T> {
    action_dim: usize,
    episode: Episode<T>,
}

impl<T> Recorder<T> {
    /// The length of an action.
    pub closed spec fn action_dim(self) -> int {
        self.action_dim as int
    }

    /// What has been recorded.
    pub closed spec fn recorded(self) -> Episode<T> {
        self.episode
    }

    /// The number of steps recorded.
    pub open spec fn steps(self) -> nat {
        self.recorded().action.len() as nat
    }

    /// There is one observation more than there are steps.
    pub open spec fn wf(self) -> bool {
        &&& self.recorded().obs.len() == self.steps() + 1
        &&& self.recorded().reward.len() == self.steps()
        &&& self.recorded().done.len() == self.steps()
    }

    /// `self` is `before` with one step more: `action` and what came of it.
    pub open spec fn goes_on_from(self, before: Self, action: T, outcome: Outcome<T>) -> bool {
        &&& self.wf()
        &&& self.action_dim() == before.action_dim()
        &&& self.recorded().obs@ == before.recorded().obs@.push(outcome.next)
        &&& self.recorded().action@ == before.recorded().action@.push(action)
        &&& self.recorded().reward@ == before.recorded().reward@.push(outcome.reward)
        &&& self.recorded().done@ == before.recorded().done@.push(outcome.done)
    }

    /// Starts with the first observation of an environment whose actions have length
    /// `action_dim`.
    pub fn begin(first: T, action_dim: usize) -> (recorder: Self)
        ensures
            recorder.wf(),
            recorder.action_dim() == action_dim,
            recorder.steps() == 0,
            recorder.recorded().obs@ == seq![first],
    {
        let mut obs: Vec<T> = Vec::new();
        obs.push(first);
        Recorder {
            action_dim,
            episode: Episode { obs, action: Vec::new(), reward: Vec::new(), done: Vec::new() },
        }
    }

    /// Lets an environment take a step and records it. The action that is recorded is packed from
    /// the very values that the environment is given. Says whether the episode is over.
    pub fn act<V, P: Fn(&[V]) -> T, F: FnOnce(&[V]) -> Outcome<T>>(
        &mut self,
        values: &[V],
        pack: P,
        step: F,
    ) -> (over: bool)
        requires
            old(self).wf(),
            values.len() == old(self).action_dim(),
            pack.requires((values,)),
            step.requires((values,)),
        ensures
            exists|action: T, outcome: Outcome<T>|
                {
                    &&& #[trigger] pack.ensures((values,), action)
                    &&& #[trigger] step.ensures((values,), outcome)
                    &&& final(self).goes_on_from(*old(self), action, outcome)
                    &&& over == outcome.over
                },
    {
        let action = pack(values);
        let outcome = step(values);
        let over = outcome.over;
        assert(pack.ensures((values,), action));
        assert(step.ensures((values,), outcome));
        self.record(action, outcome);
        over
    }

    /// Records a step and what came of it.
    fn record(&mut self, action: T, outcome: Outcome<T>)
        requires
            old(self).wf(),
        ensures
            final(self).goes_on_from(*old(self), action, outcome),
    {
        self.episode.obs.push(outcome.next);
        self.episode.action.push(action);
        self.episode.reward.push(outcome.reward);
        self.episode.done.push(outcome.done);
    }

    /// Ends the recording. The last observation is kept.
    pub fn finish(self) -> (episode: Episode<T>)
        requires
            self.wf(),
        ensures
            episode == self.recorded(),
            episode.wf(),
            episode.obs.len() == episode.action.len() + 1,
    {
        self.episode
    }
}

// ---- Schedules ----------------------------------------------------------------------------------
/// Which world model is trained.
#[derive(Clone, Copy, Debug, PartialEq, Eq, Structural)]
pub enum Mode {
    /// One state for the whole scene.
    Monolithic,
    /// A state for each object.
    ObjectCentric,
}

/// What does not change during a run.
#[derive(Clone, Copy, Debug, PartialEq, Eq, Structural)]
pub struct Plan {
    /// The world model.
    pub mode: Mode,
    /// The number of environments.
    pub num_envs: usize,
    /// The episodes asked for.
    pub max_episodes: usize,
    /// Windows in a training batch.
    pub batch_size: usize,
    /// Steps in a training window.
    pub batch_length: usize,
    /// Steps of an imagined rollout.
    pub imag_horizon: usize,
    /// Imagined rollouts at a time.
    pub imag_batch: usize,
    /// Episodes between checkpoints.
    pub save_interval: usize,
    /// Episodes between videos; none if zero.
    pub video_interval: usize,
    /// Whether all updates of the world model share one batch.
    pub overfit: bool,
    /// The probe decoder learns at every update whose number is a multiple of this; never if zero.
    pub probe_interval: usize,
}

impl Plan {
    /// There is an environment, and where there are rounds, checkpoints have an interval if it is
    /// used and updates can be counted if they go by environments.
    pub open spec fn wf(self) -> bool {
        &&& 0 < self.num_envs
        &&& self.rounds() > 0 && self.mode == Mode::Monolithic ==> 0 < self.save_interval
        &&& self.rounds() > 0 && self.mode == Mode::ObjectCentric ==> 3 * self.num_envs
            <= usize::MAX
    }

    /// The number of rounds: in each, every environment runs one episode.
    pub open spec fn rounds(self) -> int {
        self.max_episodes as int / self.num_envs as int
    }

    /// How often the world model is updated after `episodes` episodes with `replay` in memory.
    pub open spec fn model_updates(self, episodes: int, replay: int) -> int {
        if replay < 5 {
            0
        } else if self.mode == Mode::Monolithic {
            if episodes <= 50 {
                20
            } else if episodes <= 150 {
                10
            } else {
                5
            }
        } else if episodes <= 100 {
            3 * self.num_envs
        } else {
            2 * self.num_envs
        }
    }

    /// Whether the actor and the critic are updated.
    pub open spec fn policy_due(self, episodes: int, replay: int) -> bool {
        replay >= 5 && episodes > 100
    }

    /// Whether a checkpoint is due.
    pub open spec fn save_due(self, episodes: int) -> bool {
        if self.mode == Mode::Monolithic {
            episodes > 0 && (episodes % self.save_interval as int == 0 || episodes
                >= self.max_episodes)
        } else {
            episodes > 100 && (episodes - 1) % 50 == 0
        }
    }

    /// Whether a video is due at the end of round `round`.
    pub open spec fn film_due(self, round: int, episodes: int) -> bool {
        &&& self.video_interval > 0
        &&& {
            ||| round == 0
            ||| episodes >= self.max_episodes
            ||| self.mode == Mode::Monolithic && episodes % self.video_interval as int == 0
            ||| self.mode == Mode::ObjectCentric && (episodes - 1) % self.video_interval as int == 0
        }
    }

    /// The stage once all environments have run.
    pub open spec fn after_collecting(self, round: int, episodes: int, replay: int) -> Stage {
        let updates = self.model_updates(episodes, replay);
        if updates > 0 {
            Stage::Model { left: updates as usize }
        } else {
            self.after_model(round, episodes, replay)
        }
    }

    /// The stage once the world model is up to date.
    pub open spec fn after_model(self, round: int, episodes: int, replay: int) -> Stage {
        if self.policy_due(episodes, replay) {
            Stage::Policy
        } else {
            self.after_policy(round, episodes, replay)
        }
    }

    /// The stage once the policy is up to date: one world model saves before it reports, the
    /// other after.
    pub open spec fn after_policy(self, round: int, episodes: int, replay: int) -> Stage {
        if self.mode == Mode::Monolithic {
            self.saving(round, episodes, replay)
        } else {
            Stage::Report
        }
    }

    /// Saving, or what comes after it.
    pub open spec fn saving(self, round: int, episodes: int, replay: int) -> Stage {
        if self.save_due(episodes) {
            Stage::Save
        } else {
            self.after_save(round, episodes, replay)
        }
    }

    /// The stage once the checkpoint is saved.
    pub open spec fn after_save(self, round: int, episodes: int, replay: int) -> Stage {
        if self.film_due(round, episodes) {
            Stage::Film
        } else {
            self.after_film(round, episodes, replay)
        }
    }

    /// The stage once the video is made.
    pub open spec fn after_film(self, round: int, episodes: int, replay: int) -> Stage {
        if self.mode == Mode::Monolithic {
            Stage::Report
        } else {
            self.after_round(round, episodes, replay)
        }
    }

    /// The stage once the round is reported.
    pub open spec fn after_report(self, round: int, episodes: int, replay: int) -> Stage {
        if self.mode == Mode::Monolithic {
            self.after_round(round, episodes, replay)
        } else {
            self.saving(round, episodes, replay)
        }
    }

    /// The stage at the end of a round.
    pub open spec fn after_round(self, round: int, episodes: int, replay: int) -> Stage {
        if round + 1 < self.rounds() {
            Stage::Reset { env: 0 }
        } else {
            Stage::Over
        }
    }

    /// The number of rounds.
    pub fn round_count(&self) -> (n: usize)
        requires
            self.wf(),
        ensures
            n == self.rounds(),
    {
        self.max_episodes / self.num_envs
    }

    fn updates_of_model(&self, episodes: usize, replay: usize) -> (n: usize)
        requires
            self.wf(),
            self.rounds() > 0,
        ensures
            n == self.model_updates(episodes as int, replay as int),
    {
        if replay < LEAST_REPLAY {
            return 0;
        }
        match self.mode {
            Mode::Monolithic => if episodes <= 50 {
                20
            } else if episodes <= 150 {
                10
            } else {
                5
            },
            Mode::ObjectCentric => if episodes <= WARMUP_EPISODES {
                3 * self.num_envs
            } else {
                2 * self.num_envs
            },
        }
    }

    fn is_policy_due(&self, episodes: usize, replay: usize) -> (due: bool)
        ensures
            due == self.policy_due(episodes as int, replay as int),
    {
        replay >= LEAST_REPLAY && episodes > WARMUP_EPISODES
    }

    fn is_save_due(&self, episodes: usize) -> (due: bool)
        requires
            self.wf(),
            self.rounds() > 0,
        ensures
            due == self.save_due(episodes as int),
    {
        match self.mode {
            Mode::Monolithic => episodes > 0 && (episodes % self.save_interval == 0 || episodes
                >= self.max_episodes),
            Mode::ObjectCentric => episodes > WARMUP_EPISODES && (episodes - 1) % 50 == 0,
        }
    }

    fn is_film_due(&self, round: usize, episodes: usize) -> (due: bool)
        requires
            0 < episodes,
        ensures
            due == self.film_due(round as int, episodes as int),
    {
        if self.video_interval == 0 {
            return false;
        }
        let marked = match self.mode {
            Mode::Monolithic => episodes % self.video_interval == 0,
            Mode::ObjectCentric => (episodes - 1) % self.video_interval == 0,
        };
        round == 0 || marked || episodes >= self.max_episodes
    }
}

/// Whether the probe decoder learns at update number `update`, counted from one: at every
/// `interval`-th it does.
pub fn probe_due(update: u128, interval: usize) -> (due: bool)
    ensures
        due == (interval > 0 && update as int % interval as int == 0),
{
    interval > 0 && update % interval as u128 == 0
}

// ---- The run ------------------------------------------------------------------------------------
/// Where a run stands.
#[derive(Clone, Copy, Debug, PartialEq, Eq, Structural)]
pub enum Stage {
    /// An environment is to be reset.
    Reset {
        /// Which one.
        env: usize,
    },
    /// An environment is to take a step.
    Act {
        /// Which one.
        env: usize,
        /// Steps taken.
        taken: usize,
        /// Steps allowed.
        limit: usize,
    },
    /// An episode is to be stored.
    Store {
        /// The environment that it came from.
        env: usize,
        /// Its steps.
        steps: usize,
    },
    /// The world model is to be updated.
    Model {
        /// Updates left.
        left: usize,
    },
    /// The actor and the critic are to be updated.
    Policy,
    /// A checkpoint is to be saved.
    Save,
    /// A video is to be made.
    Film,
    /// The round is to be reported.
    Report,
    /// The run is over.
    Over,
}

/// What is to be done next.
#[derive(Clone, Copy, Debug, PartialEq, Eq, Structural)]
pub enum Command {
    /// Reset an environment.
    Reset {
        /// Which one.
        env: usize,
    },
    /// Let an environment take a step.
    Act {
        /// Which one.
        env: usize,
    },
    /// Store the episode of an environment.
    Store {
        /// The number of the episode.
        episode: usize,
        /// Its steps.
        steps: usize,
        /// Whether to announce it.
        announce: bool,
    },
    /// Update the world model on a batch.
    UpdateModel {
        /// Windows in the batch.
        batch: usize,
        /// Steps in a window.
        length: usize,
        /// Whether to draw the batch; if not, the one drawn last serves again.
        fresh: bool,
        /// Whether the probe decoder learns too.
        probe: bool,
    },
    /// Update the actor and the critic on imagined rollouts.
    UpdatePolicy {
        /// The number of rollouts.
        batch: usize,
        /// Steps in a rollout.
        horizon: usize,
    },
    /// Save a checkpoint.
    Save {
        /// The number of the last episode.
        episode: usize,
    },
    /// Make a video.
    Film {
        /// The number of the last episode.
        episode: usize,
    },
    /// Report the round.
    Report {
        /// The number of the round.
        round: usize,
        /// The number of the last episode.
        episode: usize,
        /// Whether only the world model learns.
        warmup: bool,
    },
    /// Stop.
    Stop,
}

/// What came of a command.
#[derive(Clone, Copy, Debug, PartialEq, Eq, Structural)]
pub enum Event {
    /// An environment was reset.
    Started {
        /// Its episodes last at most this many steps.
        max_steps: usize,
    },
    /// An environment took a step.
    Stepped {
        /// Whether the step ended the episode.
        done: bool,
    },
    /// An episode was stored.
    Stored {
        /// The episodes in memory now.
        replay: usize,
    },
    /// An update, a checkpoint, a video or a report is done.
    Finished,
}

/// A run under way.
#[derive(Clone, Copy, Debug, PartialEq, Eq, Structural)]
pub struct Trainer {
    plan: Plan,
    round: usize,
    episodes: usize,
    round_steps: usize,
    replay: usize,
    updates: u128,
    stage: Stage,
}

impl Trainer {
    /// What does not change.
    pub closed spec fn plan(self) -> Plan {
        self.plan
    }

    /// The round under way, or the number of rounds once the run is over.
    pub closed spec fn round(self) -> int {
        self.round as int
    }

    /// Episodes stored.
    pub closed spec fn episodes(self) -> int {
        self.episodes as int
    }

    /// The steps of the longest episode of the round.
    pub closed spec fn round_steps(self) -> int {
        self.round_steps as int
    }

    /// Episodes in memory.
    pub closed spec fn replay(self) -> int {
        self.replay as int
    }

    /// Updates of the world model that have been made.
    pub closed spec fn updates(self) -> int {
        self.updates as int
    }

    /// Where the run stands.
    pub closed spec fn stage(self) -> Stage {
        self.stage
    }

    /// Episodes of the round that are stored at a stage.
    pub open spec fn stored_in_round(stage: Stage, num_envs: int) -> int {
        match stage {
            Stage::Reset { env } => env as int,
            Stage::Act { env, .. } => env as int,
            Stage::Store { env, .. } => env as int,
            Stage::Over => 0,
            _ => num_envs,
        }
    }

    /// Whether environments are still to run in the round, or all rounds are over.
    pub open spec fn collecting(stage: Stage) -> bool {
        stage is Reset || stage is Act || stage is Store || stage is Over
    }

    /// Updates that are still to be made in the round.
    pub open spec fn updates_left(stage: Stage) -> int {
        match stage {
            Stage::Model { left } => left as int,
            _ => 0,
        }
    }

    /// The most updates that there can have been by the end of a round's learning.
    pub open spec fn most_updates(self) -> int {
        20 * (self.round() * self.plan().num_envs + if Self::collecting(self.stage()) {
            0
        } else {
            self.plan().num_envs as int
        })
    }

    /// The count of episodes agrees with the rounds and environments that are done, updates stay
    /// within bounds, and work is only pending if it is due.
    pub open spec fn wf(self) -> bool {
        &&& self.plan().wf()
        &&& self.episodes() == self.round() * self.plan().num_envs + Self::stored_in_round(
            self.stage(),
            self.plan().num_envs as int,
        )
        &&& 0 <= self.round() <= self.plan().rounds()
        &&& self.stage() == Stage::Over <==> self.round() == self.plan().rounds()
        &&& 0 <= self.updates() <= self.updates() + Self::updates_left(self.stage())
            <= self.most_updates()
        &&& match self.stage() {
            Stage::Reset { env } => env < self.plan().num_envs,
            Stage::Act { env, taken, limit } => env < self.plan().num_envs && taken < limit,
            Stage::Store { env, .. } => env < self.plan().num_envs,
            Stage::Model { left } => 0 < left <= self.plan().model_updates(
                self.episodes(),
                self.replay(),
            ),
            Stage::Policy => self.plan().policy_due(self.episodes(), self.replay()),
            Stage::Save => self.plan().save_due(self.episodes()),
            Stage::Film => self.plan().film_due(self.round(), self.episodes()),
            _ => true,
        }
    }

    /// Nothing but the stage differs.
    pub open spec fn same_counts(self, other: Trainer) -> bool {
        &&& self.plan() == other.plan()
        &&& self.round() == other.round()
        &&& self.episodes() == other.episodes()
        &&& self.round_steps() == other.round_steps()
        &&& self.replay() == other.replay()
        &&& self.updates() == other.updates()
    }

    /// Whether the stage belongs to the next round.
    pub open spec fn opens_round(stage: Stage) -> bool {
        stage is Reset || stage is Over
    }

    /// `self` has gone on from round `round` with these counts to `stage`; a new round starts
    /// counting its steps anew.
    pub open spec fn gone_on(
        self,
        plan: Plan,
        round: int,
        episodes: int,
        replay: int,
        round_steps: int,
        updates: int,
        stage: Stage,
    ) -> bool {
        &&& self.wf()
        &&& self.plan() == plan
        &&& self.episodes() == episodes
        &&& self.replay() == replay
        &&& self.updates() == updates
        &&& self.stage() == stage
        &&& self.round() == round + if Self::opens_round(stage) {
            1int
        } else {
            0
        }
        &&& self.round_steps() == if Self::opens_round(stage) {
            0
        } else {
            round_steps
        }
    }

    /// `self` has gone on from `before` to `stage`.
    pub open spec fn follows(self, before: Trainer, stage: Stage) -> bool {
        self.gone_on(
            before.plan(),
            before.round(),
            before.episodes(),
            before.replay(),
            before.round_steps(),
            before.updates(),
            stage,
        )
    }

    /// The stage that follows an update, a checkpoint, a video or a report.
    pub open spec fn next_stage(self) -> Stage {
        let plan = self.plan();
        match self.stage() {
            Stage::Model { left } => if left > 1 {
                Stage::Model { left: (left - 1) as usize }
            } else {
                plan.after_model(self.round(), self.episodes(), self.replay())
            },
            Stage::Policy => plan.after_policy(self.round(), self.episodes(), self.replay()),
            Stage::Save => plan.after_save(self.round(), self.episodes(), self.replay()),
            Stage::Film => plan.after_film(self.round(), self.episodes(), self.replay()),
            _ => plan.after_report(self.round(), self.episodes(), self.replay()),
        }
    }

    /// The command for a stage.
    pub open spec fn wanted(self) -> Command {
        match self.stage() {
            Stage::Reset { env } => Command::Reset { env },
            Stage::Act { env, .. } => Command::Act { env },
            Stage::Store { steps, .. } => Command::Store {
                episode: self.episodes() as usize,
                steps,
                announce: self.episodes() % 10 == 0,
            },
            Stage::Model { .. } => Command::UpdateModel {
                batch: min(max(self.plan().batch_size as int, 1), self.replay()) as usize,
                length: min(self.plan().batch_length as int, max(self.round_steps(), 2)) as usize,
                fresh: !self.plan().overfit || self.updates() == 0,
                probe: self.plan().probe_interval > 0 && (self.updates() + 1)
                    % self.plan().probe_interval as int == 0,
            },
            Stage::Policy => Command::UpdatePolicy {
                batch: max(min(self.plan().imag_batch as int, self.replay()), 1) as usize,
                horizon: min(self.plan().imag_horizon as int, 15) as usize,
            },
            Stage::Save => Command::Save { episode: (self.episodes() - 1) as usize },
            Stage::Film => Command::Film { episode: (self.episodes() - 1) as usize },
            Stage::Report => Command::Report {
                round: self.round() as usize,
                episode: (self.episodes() - 1) as usize,
                warmup: self.episodes() <= 100,
            },
            Stage::Over => Command::Stop,
        }
    }

    /// A run by `plan` of which nothing has been done yet.
    pub open spec fn is_fresh(self, plan: Plan) -> bool {
        &&& self.wf()
        &&& self.plan() == plan
        &&& self.round() == 0
        &&& self.episodes() == 0
        &&& self.round_steps() == 0
        &&& self.replay() == 0
        &&& self.updates() == 0
        &&& self.stage() == if plan.rounds() > 0 {
            Stage::Reset { env: 0 }
        } else {
            Stage::Over
        }
    }

    /// The run goes on to `after` when `event` has come of what was to be done.
    pub open spec fn goes_on(self, event: Event, after: Trainer) -> bool {
        match event {
            Event::Started { max_steps } => {
                &&& self.stage() is Reset
                &&& after.wf()
                &&& after.same_counts(self)
                &&& after.stage() == if max_steps > 0 {
                    Stage::Act { env: self.stage()->Reset_env, taken: 0, limit: max_steps }
                } else {
                    Stage::Store { env: self.stage()->Reset_env, steps: 0 }
                }
            },
            Event::Stepped { done } => {
                let env = self.stage()->Act_env;
                let taken = (self.stage()->taken + 1) as usize;
                let limit = self.stage()->limit;
                &&& self.stage() is Act
                &&& after.wf()
                &&& after.same_counts(self)
                &&& after.stage() == if done || taken >= limit {
                    Stage::Store { env, steps: taken }
                } else {
                    Stage::Act { env, taken, limit }
                }
            },
            Event::Stored { replay } => {
                let env = self.stage()->Store_env;
                let longest = max(self.round_steps(), self.stage()->steps as int);
                &&& self.stage() is Store
                &&& after.wf()
                &&& after.plan() == self.plan()
                &&& after.replay() == replay
                &&& after.episodes() == self.episodes() + 1
                &&& after.updates() == self.updates()
                &&& if env + 1 < self.plan().num_envs {
                    &&& after.round() == self.round()
                    &&& after.round_steps() == longest
                    &&& after.stage() == Stage::Reset { env: (env + 1) as usize }
                } else {
                    after.gone_on(
                        self.plan(),
                        self.round(),
                        self.episodes() + 1,
                        replay as int,
                        longest,
                        self.updates(),
                        self.plan().after_collecting(
                            self.round(),
                            self.episodes() + 1,
                            replay as int,
                        ),
                    )
                }
            },
            Event::Finished => {
                &&& self.stage() is Model || self.stage() is Policy || self.stage() is Save
                    || self.stage() is Film || self.stage() is Report
                &&& after.gone_on(
                    self.plan(),
                    self.round(),
                    self.episodes(),
                    self.replay(),
                    self.round_steps(),
                    self.updates() + if self.stage() is Model {
                        1int
                    } else {
                        0
                    },
                    self.next_stage(),
                )
            },
        }
    }

    /// The start of a run.
    pub fn new(plan: Plan) -> (trainer: Self)
        requires
            plan.wf(),
        ensures
            trainer.is_fresh(plan),
    {
        let stage = if plan.round_count() > 0 {
            Stage::Reset { env: 0 }
        } else {
            Stage::Over
        };
        assert(0 * plan.num_envs == 0) by (nonlinear_arith);
        Trainer { plan, round: 0, episodes: 0, round_steps: 0, replay: 0, updates: 0, stage }
    }

    /// Episodes never outnumber those asked for.
    proof fn lemma_episode_bound(self)
        requires
            self.wf(),
        ensures
            0 <= self.episodes() <= self.plan().max_episodes,
            self.stage() != Stage::Over && !(self.stage() is Reset || self.stage() is Act
                || self.stage() is Store) ==> 0 < self.episodes(),
            self.stage() is Reset || self.stage() is Act || self.stage() is Store ==> self.episodes()
                + 1 <= self.plan().max_episodes,
    {
        let n = self.plan().num_envs as int;
        let r = self.round();
        let m = self.plan().max_episodes as int;
        assert(0 <= r * n && (m / n) * n <= m) by (nonlinear_arith)
            requires
                0 <= r,
                0 < n,
                0 <= m,
        ;
        if self.stage() != Stage::Over {
            assert(r * n + n <= (m / n) * n) by (nonlinear_arith)
                requires
                    r + 1 <= m / n,
                    0 < n,
            ;
        }
    }

    /// What is to be done now.
    pub fn command(&self) -> (command: Command)
        requires
            self.wf(),
        ensures
            command == self.wanted(),
    {
        proof {
            self.lemma_episode_bound();
        }
        match self.stage {
            Stage::Reset { env } => Command::Reset { env },
            Stage::Act { env, .. } => Command::Act { env },
            Stage::Store { steps, .. } => Command::Store {
                episode: self.episodes,
                steps,
                announce: self.episodes % 10 == 0,
            },
            Stage::Model { .. } => {
                let wanted: usize = if self.plan.batch_size > 1 {
                    self.plan.batch_size
                } else {
                    1
                };
                let longest: usize = if self.round_steps > 2 {
                    self.round_steps
                } else {
                    2
                };
                Command::UpdateModel {
                    batch: if wanted < self.replay {
                        wanted
                    } else {
                        self.replay
                    },
                    length: if self.plan.batch_length < longest {
                        self.plan.batch_length
                    } else {
                        longest
                    },
                    fresh: !self.plan.overfit || self.updates == 0,
                    probe: probe_due(self.updates + 1, self.plan.probe_interval),
                }
            },
            Stage::Policy => {
                let batch: usize = if self.plan.imag_batch < self.replay {
                    self.plan.imag_batch
                } else {
                    self.replay
                };
                Command::UpdatePolicy {
                    batch: if batch > 1 {
                        batch
                    } else {
                        1
                    },
                    horizon: if self.plan.imag_horizon < LONGEST_ROLLOUT {
                        self.plan.imag_horizon
                    } else {
                        LONGEST_ROLLOUT
                    },
                }
            },
            Stage::Save => Command::Save { episode: self.episodes - 1 },
            Stage::Film => Command::Film { episode: self.episodes - 1 },
            Stage::Report => Command::Report {
                round: self.round,
                episode: self.episodes - 1,
                warmup: self.episodes <= WARMUP_EPISODES,
            },
            Stage::Over => Command::Stop,
        }
    }

    /// The environment was reset; its episodes last at most `max_steps` steps.
    pub fn started(&mut self, max_steps: usize)
        requires
            old(self).wf(),
            old(self).stage() is Reset,
        ensures
            old(self).goes_on(Event::Started { max_steps }, *final(self)),
    {
        if let Stage::Reset { env } = self.stage {
            self.stage = if max_steps > 0 {
                Stage::Act { env, taken: 0, limit: max_steps }
            } else {
                Stage::Store { env, steps: 0 }
            };
        }
    }

    /// The environment took a step, which ended the episode or not.
    pub fn stepped(&mut self, done: bool)
        requires
            old(self).wf(),
            old(self).stage() is Act,
        ensures
            old(self).goes_on(Event::Stepped { done }, *final(self)),
    {
        if let Stage::Act { env, taken, limit } = self.stage {
            let taken: usize = taken + 1;
            self.stage = if done || taken >= limit {
                Stage::Store { env, steps: taken }
            } else {
                Stage::Act { env, taken, limit }
            };
        }
    }

    /// The episode was stored; `replay` episodes are in memory now.
    pub fn stored(&mut self, replay: usize)
        requires
            old(self).wf(),
            old(self).stage() is Store,
        ensures
            old(self).goes_on(Event::Stored { replay }, *final(self)),
    {
        proof {
            self.lemma_episode_bound();
        }
        if let Stage::Store { env, steps } = self.stage {
            if steps > self.round_steps {
                self.round_steps = steps;
            }
            self.episodes = self.episodes + 1;
            self.replay = replay;
            if env + 1 < self.plan.num_envs {
                self.stage = Stage::Reset { env: env + 1 };
            } else {
                self.stage = Stage::Report;
                self.go_after_collecting();
            }
        }
    }

    /// An update of the world model, an update of the policy, a checkpoint, a video or a report is
    /// done.
    pub fn finished(&mut self)
        requires
            old(self).wf(),
            old(self).stage() is Model || old(self).stage() is Policy || old(self).stage() is Save
                || old(self).stage() is Film || old(self).stage() is Report,
        ensures
            old(self).goes_on(Event::Finished, *final(self)),
    {
        proof {
            self.lemma_episode_bound();
        }
        match self.stage {
            Stage::Model { left } => {
                self.updates = self.updates + 1;
                if left > 1 {
                    self.stage = Stage::Model { left: left - 1 };
                } else {
                    self.go_after_model();
                }
            },
            Stage::Policy => self.go_after_policy(),
            Stage::Save => self.go_after_save(),
            Stage::Film => self.go_after_film(),
            _ => match self.plan.mode {
                Mode::Monolithic => self.go_after_round(),
                Mode::ObjectCentric => self.go_saving(),
            },
        }
    }

    /// All environments have run, and nothing pends yet.
    spec fn round_collected(self) -> bool {
        &&& self.plan().wf()
        &&& self.episodes() == self.round() * self.plan().num_envs + self.plan().num_envs
        &&& 0 < self.episodes()
        &&& 0 <= self.round() < self.plan().rounds()
        &&& 0 <= self.updates() <= 20 * (self.round() * self.plan().num_envs
            + self.plan().num_envs)
    }

    fn go_after_collecting(&mut self)
        requires
            old(self).round_collected(),
            old(self).updates() <= 20 * (old(self).round() * old(self).plan().num_envs),
        ensures
            final(self).follows(
                *old(self),
                old(self).plan().after_collecting(
                    old(self).round(),
                    old(self).episodes(),
                    old(self).replay(),
                ),
            ),
    {
        let left: usize = self.plan.updates_of_model(self.episodes, self.replay);
        if left > 0 {
            self.stage = Stage::Model { left };
        } else {
            self.go_after_model();
        }
    }

    fn go_after_model(&mut self)
        requires
            old(self).round_collected(),
        ensures
            final(self).follows(
                *old(self),
                old(self).plan().after_model(
                    old(self).round(),
                    old(self).episodes(),
                    old(self).replay(),
                ),
            ),
    {
        if self.plan.is_policy_due(self.episodes, self.replay) {
            self.stage = Stage::Policy;
        } else {
            self.go_after_policy();
        }
    }

    fn go_after_policy(&mut self)
        requires
            old(self).round_collected(),
        ensures
            final(self).follows(
                *old(self),
                old(self).plan().after_policy(
                    old(self).round(),
                    old(self).episodes(),
                    old(self).replay(),
                ),
            ),
    {
        match self.plan.mode {
            Mode::Monolithic => self.go_saving(),
            Mode::ObjectCentric => {
                self.stage = Stage::Report;
            },
        }
    }

    fn go_saving(&mut self)
        requires
            old(self).round_collected(),
        ensures
            final(self).follows(
                *old(self),
                old(self).plan().saving(
                    old(self).round(),
                    old(self).episodes(),
                    old(self).replay(),
                ),
            ),
    {
        if self.plan.is_save_due(self.episodes) {
            self.stage = Stage::Save;
        } else {
            self.go_after_save();
        }
    }

    fn go_after_save(&mut self)
        requires
            old(self).round_collected(),
        ensures
            final(self).follows(
                *old(self),
                old(self).plan().after_save(
                    old(self).round(),
                    old(self).episodes(),
                    old(self).replay(),
                ),
            ),
    {
        if self.plan.is_film_due(self.round, self.episodes) {
            self.stage = Stage::Film;
        } else {
            self.go_after_film();
        }
    }

    fn go_after_film(&mut self)
        requires
            old(self).round_collected(),
        ensures
            final(self).follows(
                *old(self),
                old(self).plan().after_film(
                    old(self).round(),
                    old(self).episodes(),
                    old(self).replay(),
                ),
            ),
    {
        match self.plan.mode {
            Mode::Monolithic => {
                self.stage = Stage::Report;
            },
            Mode::ObjectCentric => self.go_after_round(),
        }
    }

    fn go_after_round(&mut self)
        requires
            old(self).round_collected(),
        ensures
            final(self).follows(
                *old(self),
                old(self).plan().after_round(
                    old(self).round(),
                    old(self).episodes(),
                    old(self).replay(),
                ),
            ),
    {
        proof {
            let n = self.plan().num_envs as int;
            let r = self.round();
            assert((r + 1) * n == r * n + n) by (nonlinear_arith);
            assert(r < usize::MAX) by (nonlinear_arith)
                requires
                    r + 1 <= self.plan().max_episodes as int / n,
                    0 < n,
                    self.plan().max_episodes <= usize::MAX,
            ;
        }
        self.round = self.round + 1;
        self.round_steps = 0;
        self.stage = if self.round < self.plan.round_count() {
            Stage::Reset { env: 0 }
        } else {
            Stage::Over
        };
    }
}

/// At the end of a run, every environment has run one episode in each round.
pub proof fn law_all_rounds_are_run(trainer: Trainer)
    requires
        trainer.wf(),
        trainer.stage() == Stage::Over,
    ensures
        trainer.episodes() == trainer.plan().rounds() * trainer.plan().num_envs,
        trainer.episodes() <= trainer.plan().max_episodes,
        trainer.plan().max_episodes - trainer.episodes() < trainer.plan().num_envs,
{
    let n = trainer.plan().num_envs as int;
    let m = trainer.plan().max_episodes as int;
    assert((m / n) * n <= m && m - (m / n) * n < n) by (nonlinear_arith)
        requires
            0 < n,
            0 <= m,
    ;
}

/// Only the world model learns during warm-up, and nothing learns from too small a memory.
pub proof fn law_learning_waits(trainer: Trainer)
    requires
        trainer.wf(),
    ensures
        trainer.stage() is Policy ==> trainer.episodes() > 100 && trainer.replay() >= 5,
        trainer.stage() is Model ==> trainer.replay() >= 5,
{
}

/// How much of a run is left, most significant part first.
pub open spec fn work_left(trainer: Trainer) -> (int, int, int, int) {
    let plan = trainer.plan();
    let late = plan.mode == Mode::ObjectCentric;
    let (envs, rank, inner): (int, int, int) = match trainer.stage() {
        Stage::Reset { env } => (plan.num_envs - env, 3, 0),
        Stage::Act { env, taken, limit } => (plan.num_envs - env, 2, limit - taken),
        Stage::Store { env, .. } => (plan.num_envs - env, 1, 0),
        Stage::Model { left } => (0, 5, left as int),
        Stage::Policy => (0, 4, 0),
        Stage::Report => (0, if late {
            3
        } else {
            1
        }, 0),
        Stage::Save => (0, if late {
            2
        } else {
            3
        }, 0),
        Stage::Film => (0, if late {
            1
        } else {
            2
        }, 0),
        Stage::Over => (0, 0, 0),
    };
    (plan.rounds() - trainer.round(), envs, rank, inner)
}

/// The first is less than the second, most significant part first, and not negative.
pub open spec fn less_work(a: (int, int, int, int), b: (int, int, int, int)) -> bool {
    &&& 0 <= a.0 && 0 <= a.1 && 0 <= a.2 && 0 <= a.3
    &&& {
        ||| a.0 < b.0
        ||| a.0 == b.0 && a.1 < b.1
        ||| a.0 == b.0 && a.1 == b.1 && a.2 < b.2
        ||| a.0 == b.0 && a.1 == b.1 && a.2 == b.2 && a.3 < b.3
    }
}

/// Every run ends: whatever comes of a command, less work is left.
pub proof fn law_work_shrinks(before: Trainer, event: Event, after: Trainer)
    requires
        before.wf(),
        before.goes_on(event, after),
    ensures
        less_work(work_left(after), work_left(before)),
{
}

// ---- Whole runs ---------------------------------------------------------------------------------
/// A run by `plan`, from its start: `states` are gone through one after the other, and `events`
/// are what came of each.
pub open spec fn is_run(plan: Plan, states: Seq<Trainer>, events: Seq<Event>) -> bool {
    &&& states.len() == events.len() + 1
    &&& states[0].is_fresh(plan)
    &&& forall|k: int|
        #![trigger events[k]]
        0 <= k < events.len() ==> states[k].goes_on(events[k], states[k + 1])
}

/// What happened in a run so far.
pub struct Account {
    /// The environments that were reset, in order.
    pub resets: Seq<int>,
    /// The steps taken since the last reset.
    pub taken: int,
    /// The steps allowed since the last reset.
    pub limit: int,
    /// Whether a step since the last reset ended the episode.
    pub over: bool,
    /// The updates of the world model.
    pub updates: int,
}

/// What happened in the first `k` events of a run.
pub open spec fn account(states: Seq<Trainer>, events: Seq<Event>, k: nat) -> Account
    decreases k,
{
    if k == 0 {
        Account { resets: Seq::empty(), taken: 0, limit: 0, over: false, updates: 0 }
    } else {
        let so_far = account(states, events, (k - 1) as nat);
        let at = states[k - 1].stage();
        match events[k - 1] {
            Event::Started { max_steps } => Account {
                resets: so_far.resets.push(at->Reset_env as int),
                taken: 0,
                limit: max_steps as int,
                over: false,
                updates: so_far.updates,
            },
            Event::Stepped { done } => Account {
                resets: so_far.resets,
                taken: so_far.taken + 1,
                limit: so_far.limit,
                over: so_far.over || done,
                updates: so_far.updates,
            },
            Event::Stored { .. } => so_far,
            Event::Finished => Account {
                resets: so_far.resets,
                taken: so_far.taken,
                limit: so_far.limit,
                over: so_far.over,
                updates: so_far.updates + if at is Model {
                    1int
                } else {
                    0
                },
            },
        }
    }
}

/// How often an environment was reset.
pub open spec fn times(resets: Seq<int>, env: int) -> int
    decreases resets.len(),
{
    if resets.len() == 0 {
        0
    } else {
        times(resets.drop_last(), env) + if resets.last() == env {
            1int
        } else {
            0
        }
    }
}

/// No update of the world model was due in the first `k` states of a run.
pub open spec fn no_update_before(states: Seq<Trainer>, k: int) -> bool {
    forall|j: int| 0 <= j < k ==> !((#[trigger] states[j]).stage() is Model)
}

/// What happened agrees with where a run stands.
proof fn lemma_account(plan: Plan, states: Seq<Trainer>, events: Seq<Event>, k: nat)
    requires
        is_run(plan, states, events),
        k < states.len(),
    ensures
        states[k as int].wf(),
        states[k as int].plan() == plan,
        ({
            let s = states[k as int];
            let t = account(states, events, k);
            let running = s.stage() is Act || s.stage() is Store;
            &&& t.updates == s.updates()
            &&& t.updates == 0 <==> no_update_before(states, k as int)
            &&& t.resets.len() == s.episodes() + if running {
                1int
            } else {
                0
            }
            &&& forall|i: int|
                0 <= i < t.resets.len() ==> #[trigger] t.resets[i] == i % plan.num_envs as int
            &&& s.stage() matches Stage::Act { env, taken, limit } ==> t.resets.last() == env
                && t.taken == taken && t.limit == limit && !t.over
            &&& s.stage() matches Stage::Store { env, steps } ==> t.resets.last() == env && t.taken
                == steps && t.taken <= t.limit && (t.over || t.taken == t.limit)
        }),
    decreases k,
{
    if k > 0 {
        let j = (k - 1) as nat;
        lemma_account(plan, states, events, j);
        let event = events[j as int];
        let before = states[j as int];
        let t = account(states, events, j);
        assert(before.goes_on(event, states[k as int]));
        assert(no_update_before(states, k as int) <==> no_update_before(states, j as int) && !(
        before.stage() is Model)) by {
            if no_update_before(states, k as int) {
                assert(!(states[j as int].stage() is Model));
            }
        }
        if let Stage::Reset { env } = before.stage() {
            let n = plan.num_envs as int;
            assert(before.episodes() == before.round() * n + env);
            vstd::arithmetic::div_mod::lemma_fundamental_div_mod_converse(
                before.episodes(),
                n,
                before.round(),
                env as int,
            );
        }
    }
}

/// How often each environment comes up where they take turns.
proof fn lemma_turns(resets: Seq<int>, n: int, env: int, rounds: int, more: int)
    requires
        0 <= env < n,
        0 <= rounds,
        0 <= more < n,
        resets.len() == rounds * n + more,
        forall|i: int| 0 <= i < resets.len() ==> #[trigger] resets[i] == i % n,
    ensures
        times(resets, env) == rounds + if env < more {
            1int
        } else {
            0
        },
    decreases resets.len(),
{
    if resets.len() == 0 {
        assert(rounds == 0 && more == 0) by (nonlinear_arith)
            requires
                rounds * n + more == 0,
                0 <= rounds,
                0 <= more,
                0 < n,
        ;
    } else if more > 0 {
        lemma_turns(resets.drop_last(), n, env, rounds, more - 1);
        vstd::arithmetic::div_mod::lemma_fundamental_div_mod_converse(
            resets.len() - 1,
            n,
            rounds,
            more - 1,
        );
    } else {
        assert(rounds > 0 && (rounds - 1) * n + (n - 1) == rounds * n - 1) by (nonlinear_arith)
            requires
                rounds * n > 0,
                0 <= rounds,
                0 < n,
        ;
        lemma_turns(resets.drop_last(), n, env, rounds - 1, n - 1);
        vstd::arithmetic::div_mod::lemma_fundamental_div_mod_converse(
            resets.len() - 1,
            n,
            rounds - 1,
            n - 1,
        );
    }
}

/// In a whole run, every environment is reset once in each round, and the environments take turns
/// in order.
pub proof fn law_environments_take_turns(
    plan: Plan,
    states: Seq<Trainer>,
    events: Seq<Event>,
    env: int,
)
    requires
        is_run(plan, states, events),
        states.last().stage() == Stage::Over,
        0 <= env < plan.num_envs,
    ensures
        ({
            let resets = account(states, events, events.len()).resets;
            &&& resets.len() == plan.rounds() * plan.num_envs
            &&& forall|i: int|
                0 <= i < resets.len() ==> #[trigger] resets[i] == i % plan.num_envs as int
            &&& times(resets, env) == plan.rounds()
        }),
{
    lemma_account(plan, states, events, events.len());
    let resets = account(states, events, events.len()).resets;
    law_all_rounds_are_run(states.last());
    lemma_turns(resets, plan.num_envs as int, env, plan.rounds(), 0);
}

/// An environment only acts if it was reset last, has not taken all the steps that it may since,
/// and none of these steps ended the episode. An episode is only stored once it has ended or all
/// steps are taken.
pub proof fn law_episodes_end_in_time(
    plan: Plan,
    states: Seq<Trainer>,
    events: Seq<Event>,
    k: nat,
)
    requires
        is_run(plan, states, events),
        k < states.len(),
    ensures
        ({
            let so_far = account(states, events, k);
            &&& states[k as int].wanted() matches Command::Act { env } ==> so_far.resets.last()
                == env && so_far.taken < so_far.limit && !so_far.over
            &&& states[k as int].wanted() matches Command::Store { steps, .. } ==> steps
                == so_far.taken && so_far.taken <= so_far.limit && (so_far.over || so_far.taken
                == so_far.limit)
        }),
{
    lemma_account(plan, states, events, k);
}

/// Where all updates of the world model share one batch, exactly the first update of a run draws
/// it; otherwise every update draws its own. The probe decoder learns at every update whose number
/// is a multiple of its interval.
pub proof fn law_batches_are_drawn_as_planned(
    plan: Plan,
    states: Seq<Trainer>,
    events: Seq<Event>,
    k: nat,
)
    requires
        is_run(plan, states, events),
        k < states.len(),
    ensures
        states[k as int].wanted() matches Command::UpdateModel { fresh, probe, .. } ==> {
            &&& plan.overfit ==> (fresh <==> no_update_before(states, k as int))
            &&& !plan.overfit ==> fresh
            &&& probe <==> plan.probe_interval > 0 && (account(states, events, k).updates + 1)
                % plan.probe_interval as int == 0
        },
{
    lemma_account(plan, states, events, k);
}

/// What a run has been told to do and what came of it, counted from commands and events alone.
pub struct Ledger {
    /// Episodes stored.
    pub stored: int,
    /// Episodes in memory.
    pub memory: int,
    /// Steps since the last reset.
    pub taken: int,
    /// The steps of the longest episode stored in the round.
    pub longest: int,
    /// Updates of the world model in the round.
    pub model: int,
    /// Updates of the actor and the critic in the round.
    pub policy: int,
    /// Checkpoints in the round.
    pub saves: int,
    /// Videos in the round.
    pub films: int,
    /// Reports in the round.
    pub reports: int,
}

/// One more if it is so.
pub open spec fn counted(so_far: int, once_more: bool) -> int {
    if once_more {
        so_far + 1
    } else {
        so_far
    }
}

/// The ledger after the first `k` events of a run. A round starts when the first environment is
/// reset.
pub open spec fn ledger(states: Seq<Trainer>, events: Seq<Event>, k: nat) -> Ledger
    decreases k,
{
    if k == 0 {
        Ledger {
            stored: 0,
            memory: 0,
            taken: 0,
            longest: 0,
            model: 0,
            policy: 0,
            saves: 0,
            films: 0,
            reports: 0,
        }
    } else {
        let so_far = ledger(states, events, (k - 1) as nat);
        let told = states[k - 1].wanted();
        match events[k - 1] {
            Event::Started { .. } => if told == (Command::Reset { env: 0 }) {
                Ledger {
                    stored: so_far.stored,
                    memory: so_far.memory,
                    taken: 0,
                    longest: 0,
                    model: 0,
                    policy: 0,
                    saves: 0,
                    films: 0,
                    reports: 0,
                }
            } else {
                Ledger { taken: 0, ..so_far }
            },
            Event::Stepped { .. } => Ledger { taken: so_far.taken + 1, ..so_far },
            Event::Stored { replay } => Ledger {
                stored: so_far.stored + 1,
                memory: replay as int,
                longest: if so_far.taken > so_far.longest {
                    so_far.taken
                } else {
                    so_far.longest
                },
                ..so_far
            },
            Event::Finished => Ledger {
                model: counted(so_far.model, told is UpdateModel),
                policy: counted(so_far.policy, told is UpdatePolicy),
                saves: counted(so_far.saves, told is Save),
                films: counted(so_far.films, told is Film),
                reports: counted(so_far.reports, told is Report),
                ..so_far
            },
        }
    }
}

/// One if it is so, else nothing.
spec fn one_if(due: bool) -> int {
    if due {
        1
    } else {
        0
    }
}

/// What the ledger holds at each stage of a round.
spec fn ledger_fits(s: Trainer, l: Ledger) -> bool {
    let plan = s.plan();
    let all = plan.model_updates(s.episodes(), s.replay());
    let policy = one_if(plan.policy_due(s.episodes(), s.replay()));
    let saves = one_if(plan.save_due(s.episodes()));
    let films = one_if(plan.film_due(s.round(), s.episodes()));
    let last_films = one_if(plan.film_due(s.round() - 1, s.episodes()));
    let late = plan.mode == Mode::ObjectCentric;
    let none_after_policy = l.saves == 0 && l.films == 0 && l.reports == 0;
    &&& l.stored == s.episodes()
    &&& l.memory == s.replay()
    &&& s.stage() matches Stage::Act { taken, .. } ==> l.taken == taken
    &&& s.stage() matches Stage::Store { steps, .. } ==> l.taken == steps
    &&& if Trainer::opens_round(s.stage()) && s.stage() != (Stage::Reset { env: 0 })
        && s.stage() != Stage::Over {
        l.longest == s.round_steps() && l.model == 0 && l.policy == 0 && none_after_policy
    } else if Trainer::opens_round(s.stage()) {
        &&& s.round_steps() == 0
        &&& l.stored > 0 ==> l.model == all && l.policy == policy && l.saves == saves && l.films
            == last_films && l.reports == 1
    } else {
        &&& l.longest == s.round_steps()
        &&& match s.stage() {
            Stage::Act { .. } | Stage::Store { .. } => l.model == 0 && l.policy == 0
                && none_after_policy,
            Stage::Model { left } => l.model == all - left && l.policy == 0 && none_after_policy,
            Stage::Policy => l.model == all && l.policy == 0 && none_after_policy,
            Stage::Save => l.model == all && l.policy == policy && l.saves == 0 && l.films == 0
                && l.reports == one_if(late),
            Stage::Film => l.model == all && l.policy == policy && l.saves == saves && l.films == 0
                && l.reports == one_if(late),
            _ => l.model == all && l.policy == policy && l.reports == 0 && if late {
                l.saves == 0 && l.films == 0
            } else {
                l.saves == saves && l.films == films
            },
        }
    }
}

proof fn lemma_ledger(plan: Plan, states: Seq<Trainer>, events: Seq<Event>, k: nat)
    requires
        is_run(plan, states, events),
        k < states.len(),
    ensures
        states[k as int].wf(),
        states[k as int].plan() == plan,
        ledger_fits(states[k as int], ledger(states, events, k)),
    decreases k,
{
    if k > 0 {
        let j = (k - 1) as nat;
        lemma_ledger(plan, states, events, j);
        lemma_account(plan, states, events, j);
        assert(states[j as int].goes_on(events[j as int], states[k as int]));
    }
}

/// The rounds done when `episodes` are, in whole rounds.
proof fn lemma_first_round(round: int, n: int)
    requires
        0 <= round,
        0 < n,
    ensures
        round * n + n == n <==> round == 0,
        (round + 1) * n == round * n + n,
{
    assert(round * n + n == n <==> round == 0) by (nonlinear_arith)
        requires
            0 <= round,
            0 < n,
    ;
    assert((round + 1) * n == round * n + n) by (nonlinear_arith);
}

/// By the end of every round, exactly what was due in it has been done, judged by the episodes
/// stored and in memory: the world model has learnt 20 times up to episode 50, 10 times up to
/// episode 150 and 5 times after that, or three times for each environment up to episode 100 and
/// twice after that if it has slots, and never from fewer than five episodes; the policy has
/// learnt once if more than 100 episodes are stored; there is one video in the first round, at the
/// end of the run and whenever the interval says so, one checkpoint when its interval says so, and
/// one report.
pub proof fn law_rounds_do_what_is_due(
    plan: Plan,
    states: Seq<Trainer>,
    events: Seq<Event>,
    k: nat,
)
    requires
        is_run(plan, states, events),
        0 < k < states.len(),
        states[k as int].wanted() == (Command::Reset { env: 0 }) || states[k as int].wanted()
            == Command::Stop,
    ensures
        ({
            let l = ledger(states, events, k);
            let n = plan.num_envs as int;
            let one_state = plan.mode == Mode::Monolithic;
            let film = plan.video_interval > 0 && (l.stored == n || l.stored >= plan.max_episodes
                || if one_state {
                l.stored % plan.video_interval as int == 0
            } else {
                (l.stored - 1) % plan.video_interval as int == 0
            });
            let save = if one_state {
                l.stored % plan.save_interval as int == 0 || l.stored >= plan.max_episodes
            } else {
                l.stored > 100 && (l.stored - 1) % 50 == 0
            };
            &&& l.stored > 0
            &&& l.reports == 1
            &&& film ==> l.films == 1
            &&& !film ==> l.films == 0
            &&& save ==> l.saves == 1
            &&& !save ==> l.saves == 0
            &&& l.memory >= 5 && l.stored > 100 ==> l.policy == 1
            &&& l.memory < 5 || l.stored <= 100 ==> l.policy == 0
            &&& l.memory < 5 ==> l.model == 0
            &&& l.memory >= 5 && one_state ==> l.model == if l.stored <= 50 {
                20int
            } else if l.stored <= 150 {
                10
            } else {
                5
            }
            &&& l.memory >= 5 && !one_state ==> l.model == if l.stored <= 100 {
                n + n + n
            } else {
                n + n
            }
        }),
{
    lemma_ledger(plan, states, events, k);
    lemma_ledger(plan, states, events, (k - 1) as nat);
    assert(states[k - 1].goes_on(events[k - 1], states[k as int]));
    let s = states[k as int];
    lemma_first_round(s.round() - 1, plan.num_envs as int);
}

/// What commands say agrees with what has happened. Windows are as long as the settings say,
/// unless the longest episode of the round is shorter; batches are as large as the settings say,
/// unless fewer episodes are in memory; rollouts are as long as the settings say, but never longer
/// than fifteen steps; and episodes and rounds are numbered from zero.
pub proof fn law_commands_follow_the_run(
    plan: Plan,
    states: Seq<Trainer>,
    events: Seq<Event>,
    k: nat,
)
    requires
        is_run(plan, states, events),
        k < states.len(),
    ensures
        ({
            let l = ledger(states, events, k);
            match states[k as int].wanted() {
                Command::UpdateModel { batch, length, .. } => {
                    &&& length <= plan.batch_length
                    &&& length <= l.longest || length <= 2
                    &&& l.longest >= plan.batch_length && plan.batch_length >= 2 ==> length
                        == plan.batch_length
                    &&& 2 <= l.longest <= plan.batch_length ==> length == l.longest
                    &&& l.longest < 2 <= plan.batch_length ==> length == 2
                    &&& plan.batch_length < 2 ==> length == plan.batch_length
                    &&& 1 <= batch <= l.memory
                    &&& 1 <= plan.batch_size <= l.memory ==> batch == plan.batch_size
                    &&& plan.batch_size > l.memory ==> batch == l.memory
                    &&& plan.batch_size == 0 ==> batch == 1
                },
                Command::UpdatePolicy { batch, horizon } => {
                    &&& 1 <= batch <= l.memory
                    &&& 1 <= plan.imag_batch <= l.memory ==> batch == plan.imag_batch
                    &&& plan.imag_batch > l.memory ==> batch == l.memory
                    &&& horizon <= 15
                    &&& plan.imag_horizon <= 15 ==> horizon == plan.imag_horizon
                    &&& plan.imag_horizon > 15 ==> horizon == 15
                },
                Command::Store { episode, steps, announce } => {
                    &&& episode == l.stored
                    &&& steps == l.taken
                    &&& announce <==> l.stored % 10 == 0
                },
                Command::Save { episode } => episode + 1 == l.stored,
                Command::Film { episode } => episode + 1 == l.stored,
                Command::Report { round, episode, warmup } => {
                    &&& episode + 1 == l.stored
                    &&& (round + 1) * plan.num_envs == l.stored
                    &&& warmup <==> l.stored <= 100
                },
                Command::Act { .. } | Command::Reset { .. } | Command::Stop => true,
            }
        }),
{
    lemma_ledger(plan, states, events, k);
    let s = states[k as int];
    s.lemma_episode_bound();
    lemma_first_round(s.round(), plan.num_envs as int);
}

/// One world model saves before it makes a video and reports last; the other reports first. Each
/// learns before any of that, the world model before the policy.
pub proof fn law_rounds_keep_their_order(
    plan: Plan,
    states: Seq<Trainer>,
    events: Seq<Event>,
    k: nat,
)
    requires
        is_run(plan, states, events),
        k < states.len(),
    ensures
        ({
            let l = ledger(states, events, k);
            let told = states[k as int].wanted();
            let first_report = plan.mode == Mode::ObjectCentric;
            &&& told is UpdateModel ==> l.policy == 0 && l.saves == 0 && l.films == 0 && l.reports
                == 0
            &&& told is UpdatePolicy ==> l.policy == 0 && l.saves == 0 && l.films == 0 && l.reports
                == 0
            &&& told is Save || told is Film ==> (l.reports == 1 <==> first_report)
            &&& told is Save ==> l.films == 0 && l.saves == 0
            &&& told is Film ==> l.films == 0
            &&& told is Report ==> l.reports == 0
        }),
{
    lemma_ledger(plan, states, events, k);
}

// ---- Windows ------------------------------------------------------------------------------------
/// A walk through a window: `states` starts at `first`, and each step led from one state to the
/// next and cost what `losses` holds for it. A step is told the observation that it explains, the
/// one before, and the action and the reward that led from the one to the other.
pub open spec fn is_walk<S, O, A, R, L, E: Fn(&S, &O, &O, &A, &R) -> (S, L)>(
    first: S,
    obs: Seq<O>,
    action: Seq<A>,
    reward: Seq<R>,
    states: Seq<S>,
    losses: Seq<L>,
    explain: E,
) -> bool {
    &&& losses.len() == max(obs.len() - 1, 0)
    &&& states.len() == losses.len() + 1
    &&& states[0] == first
    &&& forall|t: int|
        #![trigger losses[t]]
        0 <= t < losses.len() ==> explain.ensures(
            (&states[t], &obs[t + 1], &obs[t], &action[t], &reward[t]),
            (states[t + 1], losses[t]),
        )
}

/// Walks through a window of observations from the second on: `explain` tells what state a step
/// leads to and what it costs. Gives the last state and the costs in order.
pub fn walk_window<S, O, A, R, L, E: Fn(&S, &O, &O, &A, &R) -> (S, L)>(
    first: S,
    obs: &[O],
    action: &[A],
    reward: &[R],
    explain: E,
) -> (walk: (S, Vec<L>))
    requires
        obs.len() <= action.len() + 1,
        obs.len() <= reward.len() + 1,
        forall|s: &S, now: &O, before: &O, a: &A, r: &R| #[trigger]
            explain.requires((s, now, before, a, r)),
    ensures
        exists|states: Seq<S>|
            #[trigger] is_walk(first, obs@, action@, reward@, states, walk.1@, explain)
                && states.last() == walk.0,
{
    let ghost start = first;
    let ghost mut states: Seq<S> = seq![first];
    let mut state = first;
    let mut losses: Vec<L> = Vec::new();
    let mut t: usize = 1;
    while t < obs.len()
        invariant
            1 <= t,
            t <= obs.len() || t == 1,
            obs.len() <= action.len() + 1,
            obs.len() <= reward.len() + 1,
            losses.len() == t - 1,
            states.len() == t,
            states[0] == start,
            states.last() == state,
            forall|s: &S, now: &O, before: &O, a: &A, r: &R| #[trigger]
                explain.requires((s, now, before, a, r)),
            forall|i: int|
                #![trigger losses@[i]]
                0 <= i < losses.len() ==> explain.ensures(
                    (&states[i], &obs[i + 1], &obs[i], &action[i], &reward[i]),
                    (states[i + 1], losses@[i]),
                ),
        decreases obs.len() - t,
    {
        let ghost earlier = losses@;
        let ghost shorter = states;
        let (next, loss) = explain(&state, &obs[t], &obs[t - 1], &action[t - 1], &reward[t - 1]);
        losses.push(loss);
        state = next;
        proof {
            states = states.push(state);
            assert forall|i: int|
                #![trigger losses@[i]]
                0 <= i < losses.len() implies explain.ensures(
                (&states[i], &obs[i + 1], &obs[i], &action[i], &reward[i]),
                (states[i + 1], losses@[i]),
            ) by {
                if i < t - 1 {
                    assert(losses@[i] == earlier[i]);
                    assert(states[i] == shorter[i] && states[i + 1] == shorter[i + 1]);
                }
            }
        }
        t = t + 1;
    }
    let walk = (state, losses);
    assert(is_walk(start, obs@, action@, reward@, states, walk.1@, explain) && states.last()
        == walk.0);
    walk
}

/// The last action and the last reward of a window are never used: whatever they are, the walks
/// through the window are the same.
pub proof fn law_last_step_is_not_used<S, O, A, R, L, E: Fn(&S, &O, &O, &A, &R) -> (S, L)>(
    first: S,
    obs: Seq<O>,
    action: Seq<A>,
    reward: Seq<R>,
    other_action: Seq<A>,
    other_reward: Seq<R>,
    states: Seq<S>,
    losses: Seq<L>,
    explain: E,
)
    requires
        forall|t: int|
            0 <= t < obs.len() - 1 ==> #[trigger] action[t] == #[trigger] other_action[t],
        forall|t: int|
            0 <= t < obs.len() - 1 ==> #[trigger] reward[t] == #[trigger] other_reward[t],
        is_walk(first, obs, action, reward, states, losses, explain),
    ensures
        is_walk(first, obs, other_action, other_reward, states, losses, explain),
{
    assert forall|t: int| #![trigger losses[t]] 0 <= t < losses.len() implies explain.ensures(
        (&states[t], &obs[t + 1], &obs[t], &other_action[t], &other_reward[t]),
        (states[t + 1], losses[t]),
    ) by {
        assert(action[t] == other_action[t]);
        assert(reward[t] == other_reward[t]);
    }
}

/// Two walks through windows that agree up to the last action and the last reward lead through the
/// same states at the same costs, as long as a step always comes out the same.
pub proof fn law_windows_are_aligned<S, O, A, R, L, E: Fn(&S, &O, &O, &A, &R) -> (S, L)>(
    first: S,
    obs: Seq<O>,
    action: Seq<A>,
    reward: Seq<R>,
    states: Seq<S>,
    losses: Seq<L>,
    other_action: Seq<A>,
    other_reward: Seq<R>,
    other_states: Seq<S>,
    other_losses: Seq<L>,
    explain: E,
)
    requires
        forall|t: int|
            0 <= t < obs.len() - 1 ==> #[trigger] action[t] == #[trigger] other_action[t],
        forall|t: int|
            0 <= t < obs.len() - 1 ==> #[trigger] reward[t] == #[trigger] other_reward[t],
        is_walk(first, obs, action, reward, states, losses, explain),
        is_walk(first, obs, other_action, other_reward, other_states, other_losses, explain),
        forall|s: &S, now: &O, before: &O, a: &A, r: &R, one: (S, L), two: (S, L)|
            #[trigger] explain.ensures((s, now, before, a, r), one) && #[trigger] explain.ensures(
                (s, now, before, a, r),
                two,
            ) ==> one == two,
    ensures
        states == other_states,
        losses == other_losses,
{
    lemma_same_walk(
        first,
        obs,
        action,
        reward,
        states,
        losses,
        other_action,
        other_reward,
        other_states,
        other_losses,
        explain,
        losses.len(),
    );
    assert(states =~= other_states);
    assert(losses =~= other_losses);
}

proof fn lemma_same_walk<S, O, A, R, L, E: Fn(&S, &O, &O, &A, &R) -> (S, L)>(
    first: S,
    obs: Seq<O>,
    action: Seq<A>,
    reward: Seq<R>,
    states: Seq<S>,
    losses: Seq<L>,
    other_action: Seq<A>,
    other_reward: Seq<R>,
    other_states: Seq<S>,
    other_losses: Seq<L>,
    explain: E,
    n: nat,
)
    requires
        forall|t: int|
            0 <= t < obs.len() - 1 ==> #[trigger] action[t] == #[trigger] other_action[t],
        forall|t: int|
            0 <= t < obs.len() - 1 ==> #[trigger] reward[t] == #[trigger] other_reward[t],
        is_walk(first, obs, action, reward, states, losses, explain),
        is_walk(first, obs, other_action, other_reward, other_states, other_losses, explain),
        forall|s: &S, now: &O, before: &O, a: &A, r: &R, one: (S, L), two: (S, L)|
            #[trigger] explain.ensures((s, now, before, a, r), one) && #[trigger] explain.ensures(
                (s, now, before, a, r),
                two,
            ) ==> one == two,
        n <= losses.len(),
    ensures
        forall|t: int| 0 <= t <= n ==> #[trigger] states[t] == other_states[t],
        forall|t: int| 0 <= t < n ==> #[trigger] losses[t] == other_losses[t],
    decreases n,
{
    if n > 0 {
        let t = n - 1;
        lemma_same_walk(
            first,
            obs,
            action,
            reward,
            states,
            losses,
            other_action,
            other_reward,
            other_states,
            other_losses,
            explain,
            t as nat,
        );
        assert(action[t] == other_action[t] && reward[t] == other_reward[t]);
        let one = (states[t + 1], losses[t]);
        let two = (other_states[t + 1], other_losses[t]);
        assert(explain.ensures((&states[t], &obs[t + 1], &obs[t], &action[t], &reward[t]), one));
        assert(explain.ensures((&states[t], &obs[t + 1], &obs[t], &action[t], &reward[t]), two));
        assert(one == two);
        assert(states[t + 1] == other_states[t + 1] && losses[t] == other_losses[t]);
    }
}

/// An update on a window: the first state comes from the first observation and a blank action, the
/// walk goes on from there, and `total` sums up what its steps cost, divided by `divisor`.
pub open spec fn is_update<
    S,
    O,
    A,
    R,
    L,
    T,
    I: Fn(&O, &A) -> S,
    E: Fn(&S, &O, &O, &A, &R) -> (S, L),
    M: Fn(&S, &Vec<L>, usize) -> T,
>(
    obs: Seq<O>,
    action: Seq<A>,
    reward: Seq<R>,
    blank: A,
    first: S,
    states: Seq<S>,
    losses: Vec<L>,
    total: T,
    start: I,
    explain: E,
    sum_up: M,
) -> bool {
    &&& start.ensures((&obs[0], &blank), first)
    &&& is_walk(first, obs, action, reward, states, losses@, explain)
    &&& sum_up.ensures((&states.last(), &losses, max(obs.len() - 1, 1) as usize), total)
}

/// Makes an update on a window of observations. `start` makes the first state, `explain` tells
/// what state a step leads to and what it costs, and `sum_up` makes the total of the last state,
/// the costs and the number that they are divided by.
pub fn train_window<
    S,
    O,
    A,
    R,
    L,
    T,
    I: Fn(&O, &A) -> S,
    E: Fn(&S, &O, &O, &A, &R) -> (S, L),
    M: Fn(&S, &Vec<L>, usize) -> T,
>(
    obs: &[O],
    action: &[A],
    reward: &[R],
    blank: &A,
    start: I,
    explain: E,
    sum_up: M,
) -> (total: T)
    requires
        0 < obs.len(),
        obs.len() <= action.len() + 1,
        obs.len() <= reward.len() + 1,
        start.requires((&obs[0], blank)),
        forall|s: &S, now: &O, before: &O, a: &A, r: &R| #[trigger]
            explain.requires((s, now, before, a, r)),
        forall|s: &S, losses: &Vec<L>, n: usize| #[trigger] sum_up.requires((s, losses, n)),
    ensures
        exists|first: S, states: Seq<S>, losses: Vec<L>| #[trigger]
            is_update(
                obs@,
                action@,
                reward@,
                *blank,
                first,
                states,
                losses,
                total,
                start,
                explain,
                sum_up,
            ),
{
    let first = start(&obs[0], blank);
    let ghost began = first;
    let (last, losses) = walk_window(first, obs, action, reward, explain);
    let total = sum_up(&last, &losses, step_divisor(obs.len()));
    proof {
        let states = choose|states: Seq<S>|
            #[trigger] is_walk(began, obs@, action@, reward@, states, losses@, explain)
                && states.last() == last;
        assert(is_update(
            obs@,
            action@,
            reward@,
            *blank,
            began,
            states,
            losses,
            total,
            start,
            explain,
            sum_up,
        ));
    }
    total
}

/// Two updates on windows that agree up to the last action and the last reward come to the same
/// total, as long as every part of an update always comes out the same.
pub proof fn law_updates_are_aligned<
    S,
    O,
    A,
    R,
    L,
    T,
    I: Fn(&O, &A) -> S,
    E: Fn(&S, &O, &O, &A, &R) -> (S, L),
    M: Fn(&S, &Vec<L>, usize) -> T,
>(
    obs: Seq<O>,
    action: Seq<A>,
    reward: Seq<R>,
    other_action: Seq<A>,
    other_reward: Seq<R>,
    blank: A,
    first: S,
    states: Seq<S>,
    losses: Vec<L>,
    total: T,
    other_first: S,
    other_states: Seq<S>,
    other_losses: Vec<L>,
    other_total: T,
    start: I,
    explain: E,
    sum_up: M,
)
    requires
        forall|t: int|
            0 <= t < obs.len() - 1 ==> #[trigger] action[t] == #[trigger] other_action[t],
        forall|t: int|
            0 <= t < obs.len() - 1 ==> #[trigger] reward[t] == #[trigger] other_reward[t],
        is_update(
            obs,
            action,
            reward,
            blank,
            first,
            states,
            losses,
            total,
            start,
            explain,
            sum_up,
        ),
        is_update(
            obs,
            other_action,
            other_reward,
            blank,
            other_first,
            other_states,
            other_losses,
            other_total,
            start,
            explain,
            sum_up,
        ),
        forall|o: &O, a: &A, one: S, two: S|
            #[trigger] start.ensures((o, a), one) && #[trigger] start.ensures((o, a), two) ==> one
                == two,
        forall|s: &S, now: &O, before: &O, a: &A, r: &R, one: (S, L), two: (S, L)|
            #[trigger] explain.ensures((s, now, before, a, r), one) && #[trigger] explain.ensures(
                (s, now, before, a, r),
                two,
            ) ==> one == two,
        forall|s: &S, l: &Vec<L>, m: &Vec<L>, n: usize, one: T, two: T|
            #[trigger] sum_up.ensures((s, l, n), one) && #[trigger] sum_up.ensures((s, m, n), two)
                && l@ == m@ ==> one == two,
    ensures
        first == other_first,
        states == other_states,
        losses@ == other_losses@,
        total == other_total,
{
    assert(start.ensures((&obs[0], &blank), first));
    assert(start.ensures((&obs[0], &blank), other_first));
    law_windows_are_aligned(
        first,
        obs,
        action,
        reward,
        states,
        losses@,
        other_action,
        other_reward,
        other_states,
        other_losses@,
        explain,
    );
    let n = max(obs.len() - 1, 1) as usize;
    assert(sum_up.ensures((&states.last(), &losses, n), total));
    assert(sum_up.ensures((&states.last(), &other_losses, n), other_total));
}

/// What losses of a window are divided by: the number of its steps, or one if it has none.
pub fn step_divisor(seq_len: usize) -> (n: usize)
    requires
        0 < seq_len,
    ensures
        n == max(seq_len - 1, 1),
{
    if seq_len > 2 {
        seq_len - 1
    } else {
        1
    }
}

/// The fewest rows whose entries can be told apart.
pub const LEAST_ROWS: usize = 4;

/// Whether there are rows enough to keep slots from being redundant.
pub fn can_decorrelate(rows: usize) -> (yes: bool)
    ensures
        yes == (rows >= LEAST_ROWS),
{
    rows >= LEAST_ROWS
}

/// Which losses make up the total of an update with slots.
#[derive(Clone, Copy, Debug, PartialEq, Eq, Structural)]
pub struct SlotLosses {
    /// Images are reconstructed at all.
    pub reconstruct: bool,
    /// The reconstruction shapes the states, not only the decoder.
    pub through_states: bool,
    /// Moving pixels weigh more.
    pub weigh_motion: bool,
    /// Slots predict slots.
    pub predict: bool,
    /// Slots are kept from being redundant.
    pub decorrelate: bool,
    /// The heads of the ensemble learn.
    pub ensemble: bool,
}

/// The losses of an update with slots.
pub open spec fn losses_for(
    latent: bool,
    probe: bool,
    motion: bool,
    ensemble: bool,
    seq_len: int,
) -> SlotLosses {
    SlotLosses {
        reconstruct: !latent || probe,
        through_states: !latent,
        weigh_motion: !latent && motion,
        predict: latent,
        decorrelate: latent && seq_len > 1,
        ensemble,
    }
}

/// Chooses the losses of an update with slots. Without slot prediction, images are reconstructed
/// through the states; with it, at most a detached probe reconstructs them.
pub fn slot_losses(latent: bool, probe: bool, motion: bool, ensemble: bool, seq_len: usize) -> (losses:
    SlotLosses)
    ensures
        losses.reconstruct == (!latent || probe),
        losses.through_states == !latent,
        losses.weigh_motion == (!latent && motion),
        losses.predict == latent,
        losses.decorrelate == (latent && seq_len > 1),
        losses.ensemble == ensemble,
        losses == losses_for(latent, probe, motion, ensemble, seq_len as int),
{
    SlotLosses {
        reconstruct: !latent || probe,
        through_states: !latent,
        weigh_motion: !latent && motion,
        predict: latent,
        decorrelate: latent && seq_len > 1,
        ensemble,
    }
}

// ---- Totals -------------------------------------------------------------------------------------
/// What an update of a world model may cost. All but reconstruction and the ensemble have a weight
/// among the settings.
#[derive(Clone, Copy, Debug, PartialEq, Eq, Structural)]
pub enum Term {
    /// How far images are off.
    Reconstruction,
    /// How far rewards are off.
    Reward,
    /// How far prior and posterior are apart.
    Divergence,
    /// How far predicted slots are off.
    Prediction,
    /// How redundant slots are.
    Redundancy,
    /// How far the heads of the ensemble are off.
    Ensemble,
}

/// The terms of an update with one state, in the order in which they are added.
pub open spec fn terms_of_state() -> Seq<Term> {
    seq![Term::Reconstruction, Term::Reward, Term::Divergence]
}

/// `term` alone if it is chosen, else nothing.
pub open spec fn if_chosen(chosen: bool, term: Term) -> Seq<Term> {
    if chosen {
        seq![term]
    } else {
        Seq::empty()
    }
}

/// The terms of an update with slots, in the order in which they are added.
pub open spec fn terms_of_slots(chosen: SlotLosses) -> Seq<Term> {
    seq![Term::Reward, Term::Divergence] + if_chosen(chosen.predict, Term::Prediction) + if_chosen(
        chosen.decorrelate,
        Term::Redundancy,
    ) + if_chosen(chosen.reconstruct, Term::Reconstruction) + if_chosen(
        chosen.ensemble,
        Term::Ensemble,
    )
}

/// Lists the terms of an update with one state.
pub fn state_terms() -> (terms: Vec<Term>)
    ensures
        terms@ == terms_of_state(),
{
    let mut terms: Vec<Term> = Vec::new();
    terms.push(Term::Reconstruction);
    terms.push(Term::Reward);
    terms.push(Term::Divergence);
    terms
}

/// Lists the terms of an update with slots.
pub fn slot_terms(chosen: SlotLosses) -> (terms: Vec<Term>)
    ensures
        terms@ == terms_of_slots(chosen),
        terms.len() > 0,
{
    let mut terms: Vec<Term> = Vec::new();
    terms.push(Term::Reward);
    terms.push(Term::Divergence);
    if chosen.predict {
        terms.push(Term::Prediction);
    }
    if chosen.decorrelate {
        terms.push(Term::Redundancy);
    }
    if chosen.reconstruct {
        terms.push(Term::Reconstruction);
    }
    if chosen.ensemble {
        terms.push(Term::Ensemble);
    }
    terms
}

/// `sums` are the sums of the first terms: of the first, the first two and so on. `weigh` tells
/// what a term is worth.
pub open spec fn are_sums<T, W: Fn(Term) -> T, P: Fn(T, T) -> T>(
    terms: Seq<Term>,
    worth: Seq<T>,
    sums: Seq<T>,
    weigh: W,
    plus: P,
) -> bool {
    &&& worth.len() == terms.len()
    &&& sums.len() == terms.len()
    &&& forall|i: int| 0 <= i < terms.len() ==> weigh.ensures((terms[i],), #[trigger] worth[i])
    &&& terms.len() > 0 ==> sums[0] == worth[0]
    &&& forall|i: int, j: int|
        0 < i < sums.len() && j == i - 1 ==> plus.ensures(
            (#[trigger] sums[j], worth[i]),
            #[trigger] sums[i],
        )
}

/// Adds up terms in order.
pub fn weighted_total<T, W: Fn(Term) -> T, P: Fn(T, T) -> T>(
    terms: &[Term],
    weigh: W,
    plus: P,
) -> (total: T)
    requires
        0 < terms.len(),
        forall|term: Term| #[trigger] weigh.requires((term,)),
        forall|a: T, b: T| #[trigger] plus.requires((a, b)),
    ensures
        exists|worth: Seq<T>, sums: Seq<T>|
            #[trigger] are_sums(terms@, worth, sums, weigh, plus) && sums.last() == total,
{
    let mut total = weigh(terms[0]);
    let ghost mut worth: Seq<T> = seq![total];
    let ghost mut sums: Seq<T> = seq![total];
    for i in 1..terms.len()
        invariant
            0 < terms.len(),
            forall|term: Term| #[trigger] weigh.requires((term,)),
            forall|a: T, b: T| #[trigger] plus.requires((a, b)),
            are_sums(terms@.take(i as int), worth, sums, weigh, plus),
            sums.len() == i,
            sums.last() == total,
    {
        let next = weigh(terms[i]);
        let ghost before = total;
        let ghost fewer = sums;
        let ghost older = worth;
        let ghost added = next;
        total = plus(total, next);
        proof {
            worth = worth.push(added);
            sums = sums.push(total);
            let more = terms@.take(i + 1);
            assert forall|k: int| 0 <= k < more.len() implies weigh.ensures(
                (more[k],),
                #[trigger] worth[k],
            ) by {
                if k < i {
                    assert(worth[k] == older[k]);
                    assert(more[k] == terms@.take(i as int)[k]);
                }
            }
            assert forall|k: int, j: int| 0 < k < sums.len() && j == k - 1 implies plus.ensures(
                (#[trigger] sums[j], worth[k]),
                #[trigger] sums[k],
            ) by {
                if k < i {
                    assert(sums[k] == fewer[k] && sums[j] == fewer[j] && worth[k] == older[k]);
                } else {
                    assert(sums[j] == before);
                }
            }
        }
    }
    assert(terms@.take(terms.len() as int) =~= terms@);
    assert(are_sums(terms@, worth, sums, weigh, plus) && sums.last() == total);
    total
}

/// A window is walked one step at a time: the first step sees the second observation, the first one
/// as the one before, and the first action and reward, and the rest is a walk of the rest from
/// where that step led.
pub proof fn law_walks_take_one_step_at_a_time<S, O, A, R, L, E: Fn(&S, &O, &O, &A, &R) -> (S, L)>(
    first: S,
    obs: Seq<O>,
    action: Seq<A>,
    reward: Seq<R>,
    states: Seq<S>,
    losses: Seq<L>,
    explain: E,
)
    requires
        is_walk(first, obs, action, reward, states, losses, explain),
        obs.len() <= action.len() + 1,
        obs.len() <= reward.len() + 1,
    ensures
        obs.len() <= 1 ==> losses.len() == 0 && states == seq![first],
        obs.len() >= 2 ==> losses.len() == obs.len() - 1 && explain.ensures(
            (&first, &obs[1], &obs[0], &action[0], &reward[0]),
            (states[1], losses[0]),
        ) && is_walk(
            states[1],
            obs.drop_first(),
            action.drop_first(),
            reward.drop_first(),
            states.drop_first(),
            losses.drop_first(),
            explain,
        ),
{
    if obs.len() >= 2 {
        assert(losses[0] == losses[0]);
        let rest = losses.drop_first();
        assert forall|t: int|
            #![trigger rest[t]]
            0 <= t < rest.len() implies explain.ensures(
            (
                &states.drop_first()[t],
                &obs.drop_first()[t + 1],
                &obs.drop_first()[t],
                &action.drop_first()[t],
                &reward.drop_first()[t],
            ),
            (states.drop_first()[t + 1], rest[t]),
        ) by {
            assert(rest[t] == losses[t + 1]);
        }
    } else {
        assert(states =~= seq![first]);
    }
}

/// An update of a window starts from the first observation and a blank action, and its sum is
/// shared among the steps, or goes to one where there is none.
pub proof fn law_updates_share_among_steps<
    S,
    O,
    A,
    R,
    L,
    T,
    I: Fn(&O, &A) -> S,
    E: Fn(&S, &O, &O, &A, &R) -> (S, L),
    M: Fn(&S, &Vec<L>, usize) -> T,
>(
    obs: Seq<O>,
    action: Seq<A>,
    reward: Seq<R>,
    blank: A,
    first: S,
    states: Seq<S>,
    losses: Vec<L>,
    total: T,
    start: I,
    explain: E,
    sum_up: M,
)
    requires
        is_update(obs, action, reward, blank, first, states, losses, total, start, explain, sum_up),
        0 < obs.len() <= usize::MAX,
    ensures
        start.ensures((&obs[0], &blank), first),
        losses.len() > 0 ==> sum_up.ensures((&states.last(), &losses, losses.len()), total),
        losses.len() == 0 ==> sum_up.ensures((&first, &losses, 1usize), total),
{
}

/// Which terms count: a reward and a divergence always do, each of the others once if it is chosen
/// and not at all if not.
pub proof fn law_chosen_terms_count_once(chosen: SlotLosses, term: Term)
    ensures
        terms_of_slots(chosen).contains(term) <==> match term {
            Term::Reward | Term::Divergence => true,
            Term::Prediction => chosen.predict,
            Term::Redundancy => chosen.decorrelate,
            Term::Reconstruction => chosen.reconstruct,
            Term::Ensemble => chosen.ensemble,
        },
        terms_of_slots(chosen).no_duplicates(),
        terms_of_state().contains(term) <==> term is Reconstruction || term is Reward
            || term is Divergence,
        terms_of_state().no_duplicates(),
{
    let a = if_chosen(chosen.predict, Term::Prediction);
    let b = if_chosen(chosen.decorrelate, Term::Redundancy);
    let c = if_chosen(chosen.reconstruct, Term::Reconstruction);
    let d = if_chosen(chosen.ensemble, Term::Ensemble);
    let all = terms_of_slots(chosen);
    assert(all =~= seq![Term::Reward, Term::Divergence] + a + b + c + d);
    assert(all[0] == Term::Reward);
    assert(all[1] == Term::Divergence);
    if chosen.predict {
        assert(all[2] == Term::Prediction);
    }
    if chosen.decorrelate {
        assert(all[2int + a.len()] == Term::Redundancy);
    }
    if chosen.reconstruct {
        assert(all[2int + a.len() + b.len()] == Term::Reconstruction);
    }
    if chosen.ensemble {
        assert(all[2int + a.len() + b.len() + c.len()] == Term::Ensemble);
    }
    let few = terms_of_state();
    assert(few[0] == Term::Reconstruction && few[1] == Term::Reward && few[2] == Term::Divergence);
}

/// A total adds one term after another: the first sum is the first term's worth, each further term
/// is added to the sum of those before it, and without the last term the rest is such a sum too.
pub proof fn law_totals_add_terms_in_turn<T, W: Fn(Term) -> T, P: Fn(T, T) -> T>(
    terms: Seq<Term>,
    worth: Seq<T>,
    sums: Seq<T>,
    weigh: W,
    plus: P,
)
    requires
        are_sums(terms, worth, sums, weigh, plus),
        terms.len() > 0,
    ensures
        weigh.ensures((terms.last(),), worth.last()),
        terms.len() == 1 ==> sums.last() == worth.last(),
        terms.len() > 1 ==> plus.ensures((sums.drop_last().last(), worth.last()), sums.last()),
        are_sums(terms.drop_last(), worth.drop_last(), sums.drop_last(), weigh, plus),
{
    assert(worth[worth.len() - 1] == worth.last());
    if terms.len() > 1 {
        assert(sums[sums.len() - 2] == sums.drop_last().last());
        assert(sums[sums.len() - 1] == sums.last());
    }
    let w = worth.drop_last();
    let s = sums.drop_last();
    assert forall|i: int| 0 <= i < w.len() implies weigh.ensures((terms[i],), #[trigger] w[i]) by {
        assert(w[i] == worth[i]);
    }
    assert forall|i: int, j: int| 0 < i < s.len() && j == i - 1 implies plus.ensures(
        (#[trigger] s[j], w[i]),
        #[trigger] s[i],
    ) by {
        assert(s[j] == sums[j] && s[i] == sums[i]);
    }
}

/// The two objectives exclude each other: slots either learn through reconstruction, weighted by
/// motion if asked, or by predicting slots, where images are reconstructed by the probe only and
/// states are not touched by it. Redundancy takes two steps at least, and what the ensemble does
/// depends on nothing else.
pub proof fn law_objectives_exclude_each_other(
    latent: bool,
    probe: bool,
    motion: bool,
    ensemble: bool,
    seq_len: int,
)
    ensures
        ({
            let losses = losses_for(latent, probe, motion, ensemble, seq_len);
            &&& losses.through_states != losses.predict
            &&& latent <==> losses.predict
            &&& losses.through_states ==> losses.reconstruct && !losses.decorrelate
                && losses.weigh_motion == motion
            &&& losses.predict ==> losses.reconstruct == probe && !losses.weigh_motion
            &&& losses.predict && seq_len >= 2 ==> losses.decorrelate
            &&& seq_len < 2 ==> !losses.decorrelate
            &&& losses.ensemble <==> ensemble
        }),
{
}

/// A recorder adds one of each with every step and changes nothing that it has.
pub proof fn law_recordings_only_grow<T>(
    before: Recorder<T>,
    after: Recorder<T>,
    action: T,
    outcome: Outcome<T>,
    i: int,
)
    requires
        before.wf(),
        after.goes_on_from(before, action, outcome),
    ensures
        after.steps() == before.steps() + 1,
        after.action_dim() == before.action_dim(),
        after.recorded().obs@.last() == outcome.next,
        after.recorded().action@.last() == action,
        after.recorded().reward@.last() == outcome.reward,
        after.recorded().done@.last() == outcome.done,
        after.recorded().obs.len() == after.recorded().action.len() + 1,
        0 <= i <= before.steps() ==> after.recorded().obs[i] == before.recorded().obs[i],
        0 <= i < before.steps() ==> after.recorded().action[i] == before.recorded().action[i]
            && after.recorded().reward[i] == before.recorded().reward[i] && after.recorded().done[i]
            == before.recorded().done[i],
{
}

} // verus!
