//! Settings of a training run and how the environment of the process changes them.
use crate::text::decimal_text;
use crate::text::ends_with;
use crate::text::has_suffix;
use crate::text::is_real;
use crate::text::law_signs_are_read;
use crate::text::law_written_numbers_parse;
use crate::text::parse_signed;
use crate::text::parse_unsigned;
use crate::text::place_of;
use crate::text::same_text;
use crate::text::signed_number;
use crate::text::spells_real;
use crate::text::unsigned_number;
use vstd::prelude::*;
use vstd::string::StringExecFns;

verus! {

/// The settings of a training run. Numbers with a fraction are kept as the text that spells them.
#[derive(Debug, Clone)]
pub struct Config {
    /// The seed of the first environment.
    pub seed: u64,
    /// The length of a flat observation. No model reads it.
    pub obs_dim: usize,
    /// The length of an action.
    pub action_dim: usize,
    /// Windows in a training batch.
    pub batch_size: usize,
    /// Steps in a training window.
    pub batch_length: usize,
    /// The length of the deterministic state.
    pub deter_size: usize,
    /// The length of the stochastic state.
    pub stoch_size: usize,
    /// The width of hidden layers. No model reads it.
    pub hidden_size: usize,
    /// The number of hidden layers. No model reads it.
    pub mlp_layers: usize,
    /// The units of a hidden layer. No model reads it.
    pub units: usize,
    /// How much the next reward counts.
    pub discount: String,
    /// How far returns look ahead.
    pub lambda_: String,
    /// Steps of an imagined rollout.
    pub imag_horizon: usize,
    /// Imagined rollouts at a time.
    pub imag_batch: usize,
    /// The learning rate of the world model.
    pub model_lr: String,
    /// The learning rate of the actor.
    pub actor_lr: String,
    /// The learning rate of the critic.
    pub critic_lr: String,
    /// The width and height of an image.
    pub image_size: usize,
    /// The channels of an image.
    pub image_channels: usize,
    /// The length of an image embedding.
    pub embed_dim: usize,
    /// The width and height at which environments render. No model reads it.
    pub render_size: usize,
    /// Classes of a discrete latent. No model reads it.
    pub num_classes: usize,
    /// The width of the attention encoder.
    pub d_model: usize,
    /// The heads of the attention encoder.
    pub num_heads: usize,
    /// The layers of the attention encoder. No model reads it.
    pub attn_layers: usize,
    /// The weight of the exploration bonus.
    pub exploration_scale: String,
    /// Episodes kept in memory.
    pub replay_capacity: usize,
    /// Episodes to collect.
    pub max_episodes: usize,
    /// Steps in an episode.
    pub env_max_steps: usize,
    /// Episodes between videos; none if zero.
    pub video_interval: usize,
    /// Environments that run side by side.
    pub num_envs: usize,
    /// Where checkpoints go.
    pub checkpoint_dir: String,
    /// Episodes between checkpoints.
    pub save_interval: usize,
    /// The checkpoint to start from.
    pub load_checkpoint: Option<String>,
    /// The environment to run.
    pub env_type: String,
    /// Divergence that costs nothing.
    pub free_nats: String,
    /// The weight of the divergence.
    pub kl_scale: String,
    /// The weight of the dynamics side of the divergence.
    pub kl_balance_alpha: String,
    /// The weight of the reward loss.
    pub reward_scale: String,
    /// The weight of the entropy bonus.
    pub entropy_coef: String,
    /// Objects get slots of their own.
    pub use_slot_attention: bool,
    /// The number of slots.
    pub num_slots: usize,
    /// The length of a slot.
    pub slot_dim: usize,
    /// How often slots are refined.
    pub slot_iterations: usize,
    /// How much moving pixels are amplified.
    pub motion_lambda: String,
    /// The largest weight of a moving pixel.
    pub motion_wmax: String,
    /// Moving pixels weigh more.
    pub use_motion_loss: bool,
    /// Images are reconstructed from the mean of the posterior, not from a sample.
    pub decode_from_mean: bool,
    /// Training repeats one batch.
    pub overfit_batch: bool,
    /// The hidden layers of the network that refines a slot.
    pub slot_mlp_layers: usize,
    /// Slots see each other in the transition.
    pub use_slot_interaction: bool,
    /// The length of what slots see of each other.
    pub slot_ctx_dim: usize,
    /// Slots predict slots in place of images.
    pub use_latent_objective: bool,
    /// The weight of slot prediction.
    pub latent_pred_scale: String,
    /// The weight of redundancy reduction.
    pub lambda_bt: String,
    /// The weight of its off-diagonal part.
    pub bt_beta: String,
    /// The probe decoder learns at every update whose number is a multiple of this.
    pub probe_interval: usize,
    /// Disagreement between heads is rewarded.
    pub use_ensemble_exploration: bool,
    /// The number of heads.
    pub ensemble_size: usize,
    /// The decoder of slots.
    pub decoder_type: String,
    /// The hidden width of the spatial broadcast decoder.
    pub decoder_hidden_dim: usize,
}

impl Config {
    /// Every setting has its usual value.
    pub open spec fn is_default(self) -> bool {
        &&& self.seed == 0
        &&& self.obs_dim == 8
        &&& self.action_dim == 1
        &&& self.batch_size == 2
        &&& self.batch_length == 8
        &&& self.deter_size == 64
        &&& self.stoch_size == 16
        &&& self.hidden_size == 128
        &&& self.mlp_layers == 2
        &&& self.units == 128
        &&& self.discount@ == "0.99"@
        &&& self.lambda_@ == "0.95"@
        &&& self.imag_horizon == 15
        &&& self.imag_batch == 16
        &&& self.model_lr@ == "3e-4"@
        &&& self.actor_lr@ == "8e-4"@
        &&& self.critic_lr@ == "8e-4"@
        &&& self.image_size == 64
        &&& self.image_channels == 3
        &&& self.embed_dim == 128
        &&& self.render_size == 64
        &&& self.num_classes == 32
        &&& self.d_model == 64
        &&& self.num_heads == 2
        &&& self.attn_layers == 1
        &&& self.exploration_scale@ == "0.02"@
        &&& self.replay_capacity == 200
        &&& self.max_episodes == 500
        &&& self.env_max_steps == 200
        &&& self.video_interval == 50
        &&& self.num_envs == 4
        &&& self.checkpoint_dir@ == "checkpoints"@
        &&& self.save_interval == 50
        &&& self.load_checkpoint is None
        &&& self.env_type@ == "bouncing_ball"@
        &&& self.free_nats@ == "0.5"@
        &&& self.kl_scale@ == "0.8"@
        &&& self.kl_balance_alpha@ == "0.8"@
        &&& self.reward_scale@ == "0.5"@
        &&& self.entropy_coef@ == "1e-3"@
        &&& self.use_slot_attention
        &&& self.num_slots == 3
        &&& self.slot_dim == 64
        &&& self.slot_iterations == 3
        &&& self.motion_lambda@ == "8.0"@
        &&& self.motion_wmax@ == "50.0"@
        &&& self.use_motion_loss
        &&& !self.decode_from_mean
        &&& !self.overfit_batch
        &&& self.slot_mlp_layers == 1
        &&& !self.use_slot_interaction
        &&& self.slot_ctx_dim == 32
        &&& !self.use_latent_objective
        &&& self.latent_pred_scale@ == "1.0"@
        &&& self.lambda_bt@ == "0.1"@
        &&& self.bt_beta@ == "5e-3"@
        &&& self.probe_interval == 5
        &&& self.use_ensemble_exploration
        &&& self.ensemble_size == 3
        &&& self.decoder_type@ == "hybrid"@
        &&& self.decoder_hidden_dim == 256
    }

    /// Every setting that is a number with a fraction spells one.
    pub open spec fn wf(self) -> bool {
        &&& is_real(self.discount@)
        &&& is_real(self.lambda_@)
        &&& is_real(self.model_lr@)
        &&& is_real(self.actor_lr@)
        &&& is_real(self.critic_lr@)
        &&& is_real(self.exploration_scale@)
        &&& is_real(self.free_nats@)
        &&& is_real(self.kl_scale@)
        &&& is_real(self.kl_balance_alpha@)
        &&& is_real(self.reward_scale@)
        &&& is_real(self.entropy_coef@)
        &&& is_real(self.motion_lambda@)
        &&& is_real(self.motion_wmax@)
        &&& is_real(self.latent_pred_scale@)
        &&& is_real(self.lambda_bt@)
        &&& is_real(self.bt_beta@)
    }
}

/// The usual numbers with a fraction are spelled as they should be.
proof fn lemma_usual_reals()
    ensures
        is_real("0.99"@),
        is_real("0.95"@),
        is_real("3e-4"@),
        is_real("8e-4"@),
        is_real("0.02"@),
        is_real("0.5"@),
        is_real("0.8"@),
        is_real("1e-3"@),
        is_real("8.0"@),
        is_real("50.0"@),
        is_real("1.0"@),
        is_real("0.1"@),
        is_real("5e-3"@),
{
    reveal_with_fuel(place_of, 6);
    assert(is_real("0.99"@)) by {
        reveal_strlit("0.99");
    }
    assert(is_real("0.95"@)) by {
        reveal_strlit("0.95");
    }
    assert(is_real("3e-4"@)) by {
        reveal_strlit("3e-4");
    }
    assert(is_real("8e-4"@)) by {
        reveal_strlit("8e-4");
    }
    assert(is_real("0.02"@)) by {
        reveal_strlit("0.02");
    }
    assert(is_real("0.5"@)) by {
        reveal_strlit("0.5");
    }
    assert(is_real("0.8"@)) by {
        reveal_strlit("0.8");
    }
    assert(is_real("1e-3"@)) by {
        reveal_strlit("1e-3");
    }
    assert(is_real("8.0"@)) by {
        reveal_strlit("8.0");
    }
    assert(is_real("50.0"@)) by {
        reveal_strlit("50.0");
    }
    assert(is_real("1.0"@)) by {
        reveal_strlit("1.0");
    }
    assert(is_real("0.1"@)) by {
        reveal_strlit("0.1");
    }
    assert(is_real("5e-3"@)) by {
        reveal_strlit("5e-3");
    }
}

impl Default for Config {
    fn default() -> (config: Self)
        ensures
            config.is_default(),
            config.wf(),
    {
        proof {
            lemma_usual_reals();
        }
        Config {
            seed: 0,
            obs_dim: 8,
            action_dim: 1,
            batch_size: 2,
            batch_length: 8,
            deter_size: 64,
            stoch_size: 16,
            hidden_size: 128,
            mlp_layers: 2,
            units: 128,
            discount: String::from_str("0.99"),
            lambda_: String::from_str("0.95"),
            imag_horizon: 15,
            imag_batch: 16,
            model_lr: String::from_str("3e-4"),
            actor_lr: String::from_str("8e-4"),
            critic_lr: String::from_str("8e-4"),
            image_size: 64,
            image_channels: 3,
            embed_dim: 128,
            render_size: 64,
            num_classes: 32,
            d_model: 64,
            num_heads: 2,
            attn_layers: 1,
            exploration_scale: String::from_str("0.02"),
            replay_capacity: 200,
            max_episodes: 500,
            env_max_steps: 200,
            video_interval: 50,
            num_envs: 4,
            checkpoint_dir: String::from_str("checkpoints"),
            save_interval: 50,
            load_checkpoint: None,
            env_type: String::from_str("bouncing_ball"),
            free_nats: String::from_str("0.5"),
            kl_scale: String::from_str("0.8"),
            kl_balance_alpha: String::from_str("0.8"),
            reward_scale: String::from_str("0.5"),
            entropy_coef: String::from_str("1e-3"),
            use_slot_attention: true,
            num_slots: 3,
            slot_dim: 64,
            slot_iterations: 3,
            motion_lambda: String::from_str("8.0"),
            motion_wmax: String::from_str("50.0"),
            use_motion_loss: true,
            decode_from_mean: false,
            overfit_batch: false,
            slot_mlp_layers: 1,
            use_slot_interaction: false,
            slot_ctx_dim: 32,
            use_latent_objective: false,
            latent_pred_scale: String::from_str("1.0"),
            lambda_bt: String::from_str("0.1"),
            bt_beta: String::from_str("5e-3"),
            probe_interval: 5,
            use_ensemble_exploration: true,
            ensemble_size: 3,
            decoder_type: String::from_str("hybrid"),
            decoder_hidden_dim: 256,
        }
    }
}

/// The value of the first variable called `key`, if there is one.
pub open spec fn lookup(vars: Seq<(String, String)>, key: Seq<char>) -> Option<Seq<char>>
    decreases vars.len(),
{
    if vars.len() == 0 {
        None
    } else if vars[0].0@ == key {
        Some(vars[0].1@)
    } else {
        lookup(vars.skip(1), key)
    }
}

/// Finds the value of the first variable called `key`.
fn find_var<'a>(vars: &'a [(String, String)], key: &str) -> (value: Option<&'a str>)
    ensures
        match value {
            Some(v) => lookup(vars@, key@) == Some(v@),
            None => lookup(vars@, key@) is None,
        },
{
    assert(vars@.skip(0) =~= vars@);
    for i in 0..vars.len()
        invariant
            lookup(vars@, key@) == lookup(vars@.skip(i as int), key@),
    {
        assert(vars@.skip(i as int)[0] == vars@[i as int]);
        assert(vars@.skip(i as int).skip(1) =~= vars@.skip(i + 1));
        if same_text(vars[i].0.as_str(), key) {
            return Some(vars[i].1.as_str());
        }
    }
    assert(vars@.skip(vars.len() as int) =~= Seq::empty());
    None
}

/// The number that a variable spells, or `usual` if it is not set or spells none up to `max`.
pub open spec fn number_setting(
    vars: Seq<(String, String)>,
    key: Seq<char>,
    max: int,
    usual: int,
) -> int {
    match lookup(vars, key) {
        Some(text) => match unsigned_number(text, max) {
            Some(v) => v,
            None => usual,
        },
        None => usual,
    }
}

/// Whether a variable spells a number that is not zero; nothing if it is not set or spells none.
pub open spec fn switch_setting(vars: Seq<(String, String)>, key: Seq<char>) -> Option<bool> {
    match lookup(vars, key) {
        Some(text) => match signed_number(text, i32::MIN as int, i32::MAX as int) {
            Some(v) => Some(v != 0),
            None => None,
        },
        None => None,
    }
}

/// A switch that is set, or the usual value.
pub open spec fn switch_or(vars: Seq<(String, String)>, key: Seq<char>, usual: bool) -> bool {
    match switch_setting(vars, key) {
        Some(on) => on,
        None => usual,
    }
}

/// The text of a variable if it spells a number with a fraction, else the usual text.
pub open spec fn real_setting(
    vars: Seq<(String, String)>,
    key: Seq<char>,
    usual: Seq<char>,
) -> Seq<char> {
    match lookup(vars, key) {
        Some(text) => if is_real(text) {
            text
        } else {
            usual
        },
        None => usual,
    }
}

/// The text of a variable, or the usual text.
pub open spec fn text_setting(
    vars: Seq<(String, String)>,
    key: Seq<char>,
    usual: Seq<char>,
) -> Seq<char> {
    match lookup(vars, key) {
        Some(text) => text,
        None => usual,
    }
}

/// Reads a number setting.
fn read_number(vars: &[(String, String)], key: &str, max: u64, usual: u64) -> (v: u64)
    ensures
        v == number_setting(vars@, key@, max as int, usual as int),
        v <= max || v == usual,
{
    match find_var(vars, key) {
        Some(text) => match parse_unsigned(text, max) {
            Some(v) => v,
            None => usual,
        },
        None => usual,
    }
}

/// Reads a number setting that counts or measures something in memory.
fn read_size(vars: &[(String, String)], key: &str, usual: usize) -> (v: usize)
    ensures
        v == number_setting(vars@, key@, usize::MAX as int, usual as int),
{
    read_number(vars, key, usize::MAX as u64, usual as u64) as usize
}

/// Reads a switch.
fn read_switch(vars: &[(String, String)], key: &str) -> (on: Option<bool>)
    ensures
        on == switch_setting(vars@, key@),
{
    match find_var(vars, key) {
        Some(text) => match parse_signed(text) {
            Some(v) => Some(v != 0),
            None => None,
        },
        None => None,
    }
}

/// Sets a switch if its variable says so.
fn set_switch(vars: &[(String, String)], key: &str, switch: &mut bool)
    ensures
        *final(switch) == switch_or(vars@, key@, *old(switch)),
{
    if let Some(on) = read_switch(vars, key) {
        *switch = on;
    }
}

/// Sets a number with a fraction if its variable spells one.
fn set_real(vars: &[(String, String)], key: &str, value: &mut String)
    ensures
        final(value)@ == real_setting(vars@, key@, old(value)@),
{
    if let Some(text) = find_var(vars, key) {
        if spells_real(text) {
            *value = String::from_str(text);
        }
    }
}

/// Sets a text if its variable is set.
fn set_text(vars: &[(String, String)], key: &str, value: &mut String)
    ensures
        final(value)@ == text_setting(vars@, key@, old(value)@),
{
    if let Some(text) = find_var(vars, key) {
        *value = String::from_str(text);
    }
}

/// Changes the settings as the variables of the process say. A variable that does not spell a
/// value of the right kind changes nothing.
pub fn apply_env_overrides(config: &mut Config, vars: &[(String, String)])
    ensures
        old(config).wf() ==> final(config).wf(),
        final(config).max_episodes == number_setting(
            vars@,
            "DREAMER_EPISODES"@,
            usize::MAX as int,
            old(config).max_episodes as int,
        ),
        final(config).num_slots == number_setting(
            vars@,
            "DREAMER_SLOTS"@,
            usize::MAX as int,
            old(config).num_slots as int,
        ),
        final(config).video_interval == number_setting(
            vars@,
            "DREAMER_VIDEO_INTERVAL"@,
            usize::MAX as int,
            old(config).video_interval as int,
        ),
        final(config).stoch_size == number_setting(
            vars@,
            "DREAMER_STOCH"@,
            usize::MAX as int,
            old(config).stoch_size as int,
        ),
        final(config).seed == number_setting(
            vars@,
            "DREAMER_SEED"@,
            u64::MAX as int,
            old(config).seed as int,
        ),
        final(config).env_type@ == text_setting(vars@, "DREAMER_ENV"@, old(config).env_type@),
        final(config).use_slot_attention == (match switch_setting(vars@, "DREAMER_MONOLITHIC"@) {
            Some(on) => !on,
            None => old(config).use_slot_attention,
        }),
        final(config).use_motion_loss == switch_or(
            vars@,
            "DREAMER_MOTION"@,
            old(config).use_motion_loss,
        ),
        final(config).overfit_batch == switch_or(
            vars@,
            "DREAMER_OVERFIT"@,
            old(config).overfit_batch,
        ),
        final(config).decode_from_mean == switch_or(
            vars@,
            "DREAMER_DECODE_MEAN"@,
            old(config).decode_from_mean,
        ),
        final(config).use_slot_interaction == switch_or(
            vars@,
            "DREAMER_INTERACTION"@,
            old(config).use_slot_interaction,
        ),
        final(config).use_latent_objective == switch_or(
            vars@,
            "DREAMER_LATENT"@,
            old(config).use_latent_objective,
        ),
        final(config).use_ensemble_exploration == switch_or(
            vars@,
            "DREAMER_ENSEMBLE"@,
            old(config).use_ensemble_exploration,
        ),
        final(config).motion_wmax@ == real_setting(vars@, "DREAMER_MOTION_WMAX"@, old(config).motion_wmax@),
        final(config).kl_scale@ == real_setting(vars@, "DREAMER_KL_SCALE"@, old(config).kl_scale@),
        final(config).free_nats@ == real_setting(vars@, "DREAMER_FREE_NATS"@, old(config).free_nats@),
        final(config).model_lr@ == real_setting(vars@, "DREAMER_LR"@, old(config).model_lr@),
        final(config).decoder_type@ == if switch_or(vars@, "DREAMER_SPATIAL_BROADCAST"@, false) {
            "sbd"@
        } else {
            text_setting(vars@, "DREAMER_DECODER"@, old(config).decoder_type@)
        },
        *final(config) == (Config {
            max_episodes: final(config).max_episodes,
            num_slots: final(config).num_slots,
            video_interval: final(config).video_interval,
            stoch_size: final(config).stoch_size,
            seed: final(config).seed,
            env_type: final(config).env_type,
            use_slot_attention: final(config).use_slot_attention,
            use_motion_loss: final(config).use_motion_loss,
            overfit_batch: final(config).overfit_batch,
            decode_from_mean: final(config).decode_from_mean,
            use_slot_interaction: final(config).use_slot_interaction,
            use_latent_objective: final(config).use_latent_objective,
            use_ensemble_exploration: final(config).use_ensemble_exploration,
            motion_wmax: final(config).motion_wmax,
            kl_scale: final(config).kl_scale,
            free_nats: final(config).free_nats,
            model_lr: final(config).model_lr,
            decoder_type: final(config).decoder_type,
            ..*old(config)
        }),
{
    config.max_episodes = read_size(vars, "DREAMER_EPISODES", config.max_episodes);
    config.seed = read_number(vars, "DREAMER_SEED", u64::MAX, config.seed);
    config.num_slots = read_size(vars, "DREAMER_SLOTS", config.num_slots);
    config.video_interval = read_size(vars, "DREAMER_VIDEO_INTERVAL", config.video_interval);
    set_text(vars, "DREAMER_ENV", &mut config.env_type);
    if let Some(on) = read_switch(vars, "DREAMER_MONOLITHIC") {
        config.use_slot_attention = !on;
    }
    set_switch(vars, "DREAMER_MOTION", &mut config.use_motion_loss);
    set_switch(vars, "DREAMER_OVERFIT", &mut config.overfit_batch);
    set_real(vars, "DREAMER_MOTION_WMAX", &mut config.motion_wmax);
    set_real(vars, "DREAMER_KL_SCALE", &mut config.kl_scale);
    set_real(vars, "DREAMER_FREE_NATS", &mut config.free_nats);
    config.stoch_size = read_size(vars, "DREAMER_STOCH", config.stoch_size);
    set_switch(vars, "DREAMER_DECODE_MEAN", &mut config.decode_from_mean);
    set_real(vars, "DREAMER_LR", &mut config.model_lr);
    set_switch(vars, "DREAMER_INTERACTION", &mut config.use_slot_interaction);
    set_switch(vars, "DREAMER_LATENT", &mut config.use_latent_objective);
    set_switch(vars, "DREAMER_ENSEMBLE", &mut config.use_ensemble_exploration);
    set_text(vars, "DREAMER_DECODER", &mut config.decoder_type);
    if let Some(on) = read_switch(vars, "DREAMER_SPATIAL_BROADCAST") {
        if on {
            config.decoder_type = String::from_str("sbd");
        }
    }
}

/// Without variables, nothing changes.
pub proof fn law_no_variables_no_change(key: Seq<char>, max: int, usual: int, text: Seq<char>)
    ensures
        number_setting(Seq::empty(), key, max, usual) == usual,
        switch_setting(Seq::empty(), key) is None,
        real_setting(Seq::empty(), key, text) == text,
        text_setting(Seq::empty(), key, text) == text,
{
}

/// Whatever the variables say, a number with a fraction still spells one.
pub proof fn law_reals_stay_real(vars: Seq<(String, String)>, key: Seq<char>, usual: Seq<char>)
    requires
        is_real(usual),
    ensures
        is_real(real_setting(vars, key, usual)),
{
}

// ---- Choices ------------------------------------------------------------------------------------
/// An environment that can be trained in.
#[derive(Clone, Copy, Debug, PartialEq, Eq, Structural)]
pub enum EnvKind {
    /// A bouncing ball.
    BouncingBall,
    /// A paddle game.
    PaddleHitting,
}

/// What environment a name stands for.
pub open spec fn env_called(name: Seq<char>) -> Option<EnvKind> {
    if name == "bouncing_ball"@ {
        Some(EnvKind::BouncingBall)
    } else if name == "paddle_hitting"@ {
        Some(EnvKind::PaddleHitting)
    } else {
        None
    }
}

/// The environment called `name`, if there is one.
pub fn select_env(name: &str) -> (kind: Option<EnvKind>)
    ensures
        kind == if name@ == "bouncing_ball"@ {
            Some(EnvKind::BouncingBall)
        } else if name@ == "paddle_hitting"@ {
            Some(EnvKind::PaddleHitting)
        } else {
            None
        },
        kind == env_called(name@),
{
    if same_text(name, "bouncing_ball") {
        Some(EnvKind::BouncingBall)
    } else if same_text(name, "paddle_hitting") {
        Some(EnvKind::PaddleHitting)
    } else {
        None
    }
}

/// A decoder of slots.
#[derive(Clone, Copy, Debug, PartialEq, Eq, Structural)]
pub enum DecoderKind {
    /// A coarse grid that is scaled up.
    Broadcast,
    /// Blobs.
    Gaussian,
    /// Blobs over a coarse grid.
    Hybrid,
    /// A grid at full resolution.
    SpatialBroadcast,
}

/// The decoder called `name`; unknown names get the plain one.
pub open spec fn decoder_called(name: Seq<char>) -> DecoderKind {
    if name == "gaussian"@ {
        DecoderKind::Gaussian
    } else if name == "hybrid"@ {
        DecoderKind::Hybrid
    } else if name == "sbd"@ {
        DecoderKind::SpatialBroadcast
    } else {
        DecoderKind::Broadcast
    }
}

/// Selects a decoder by its name.
pub fn select_decoder(name: &str) -> (kind: DecoderKind)
    ensures
        kind == decoder_called(name@),
{
    if same_text(name, "gaussian") {
        DecoderKind::Gaussian
    } else if same_text(name, "hybrid") {
        DecoderKind::Hybrid
    } else if same_text(name, "sbd") {
        DecoderKind::SpatialBroadcast
    } else {
        DecoderKind::Broadcast
    }
}

impl DecoderKind {
    /// Whether the decoder hands out colours before they are squashed into range.
    pub fn is_raw(self) -> (raw: bool)
        ensures
            raw == (self == DecoderKind::Broadcast || self == DecoderKind::SpatialBroadcast),
    {
        match self {
            DecoderKind::Broadcast => true,
            DecoderKind::SpatialBroadcast => true,
            _ => false,
        }
    }
}

/// A fit test for one part of the perception path.
#[derive(Clone, Copy, Debug, PartialEq, Eq, Structural)]
pub enum FitTest {
    /// The plain decoder.
    Broadcast,
    /// The blob decoder.
    Gaussian,
    /// The hybrid decoder.
    Hybrid,
    /// Encoder, slots and hybrid decoder.
    SlotAutoencoder,
    /// The decoder without slots.
    Deconv,
}

/// What fit test a name stands for.
pub open spec fn fit_test_called(name: Seq<char>) -> FitTest {
    if name == "gaussian"@ || name == "gaussian_weighted"@ {
        FitTest::Gaussian
    } else if name == "hybrid"@ || name == "hybrid_weighted"@ {
        FitTest::Hybrid
    } else if name == "slot_ae"@ || name == "slot_ae_weighted"@ {
        FitTest::SlotAutoencoder
    } else if name == "deconv"@ {
        FitTest::Deconv
    } else {
        FitTest::Broadcast
    }
}

/// The fit test called `name`; unknown names get the one for the plain decoder.
pub fn select_fit_test(name: &str) -> (test: FitTest)
    ensures
        test == if name@ == "gaussian"@ || name@ == "gaussian_weighted"@ {
            FitTest::Gaussian
        } else if name@ == "hybrid"@ || name@ == "hybrid_weighted"@ {
            FitTest::Hybrid
        } else if name@ == "slot_ae"@ || name@ == "slot_ae_weighted"@ {
            FitTest::SlotAutoencoder
        } else if name@ == "deconv"@ {
            FitTest::Deconv
        } else {
            FitTest::Broadcast
        },
        test == fit_test_called(name@),
{
    if same_text(name, "gaussian") || same_text(name, "gaussian_weighted") {
        FitTest::Gaussian
    } else if same_text(name, "hybrid") || same_text(name, "hybrid_weighted") {
        FitTest::Hybrid
    } else if same_text(name, "slot_ae") || same_text(name, "slot_ae_weighted") {
        FitTest::SlotAutoencoder
    } else if same_text(name, "deconv") {
        FitTest::Deconv
    } else {
        FitTest::Broadcast
    }
}

/// Whether a fit test weighs the ball more.
pub fn weighted_flag(name: &str) -> (weighted: bool)
    ensures
        weighted == ends_with(name@, "weighted"@),
{
    has_suffix(name, "weighted")
}

/// The first variable of a name counts, whatever else is set.
pub proof fn law_first_variable_counts(vars: Seq<(String, String)>, key: Seq<char>, i: int)
    requires
        0 <= i <= vars.len(),
        forall|k: int| 0 <= k < i ==> (#[trigger] vars[k]).0@ != key,
    ensures
        i < vars.len() && vars[i].0@ == key ==> lookup(vars, key) == Some(vars[i].1@),
        i == vars.len() ==> lookup(vars, key) is None,
    decreases i,
{
    if i > 0 {
        let rest = vars.skip(1);
        assert(vars[0].0@ != key);
        assert forall|k: int| 0 <= k < i - 1 implies (#[trigger] rest[k]).0@ != key by {
            assert(vars[k + 1].0@ != key);
        }
        law_first_variable_counts(rest, key, i - 1);
    }
}

/// A variable that holds a number sets a number, if it fits, and a switch: zero turns it off,
/// anything else turns it on.
pub proof fn law_numbers_set(
    vars: Seq<(String, String)>,
    key: Seq<char>,
    n: nat,
    max: int,
    usual: int,
    was: bool,
)
    requires
        lookup(vars, key) == Some(decimal_text(n)),
    ensures
        n <= max ==> number_setting(vars, key, max, usual) == n,
        n > max ==> number_setting(vars, key, max, usual) == usual,
        n <= i32::MAX ==> switch_setting(vars, key) == Some(n != 0),
        n <= i32::MAX ==> switch_or(vars, key, was) == (n != 0),
        n > i32::MAX ==> switch_or(vars, key, was) == was,
{
    if n <= max {
        law_written_numbers_parse(n, max);
    }
    if n <= i32::MAX {
        law_written_numbers_parse(n, i32::MAX as int);
    }
    law_signs_are_read(n, i32::MIN as int, max);
    law_signs_are_read(n, i32::MIN as int, i32::MAX as int);
}

/// A variable that makes no sense leaves a setting as it was, and one that does replaces it
/// whatever it was.
pub proof fn law_senseless_variables_leave_settings(
    vars: Seq<(String, String)>,
    key: Seq<char>,
    text: Seq<char>,
    max: int,
    usual: int,
    other: int,
    was: bool,
    spelled: Seq<char>,
)
    requires
        lookup(vars, key) == Some(text),
    ensures
        unsigned_number(text, max) is None ==> number_setting(vars, key, max, usual) == usual,
        unsigned_number(text, max) is Some ==> number_setting(vars, key, max, usual)
            == number_setting(vars, key, max, other),
        signed_number(text, i32::MIN as int, i32::MAX as int) is None ==> switch_or(vars, key, was)
            == was,
        signed_number(text, i32::MIN as int, i32::MAX as int) is Some ==> switch_or(
            vars,
            key,
            true,
        ) == switch_or(vars, key, false),
        !is_real(text) ==> real_setting(vars, key, spelled) == spelled,
        is_real(text) ==> real_setting(vars, key, spelled) == text,
        text_setting(vars, key, spelled) == text,
{
}

/// The usual settings belong together: all rounds are full, memory holds fifty of them, an episode
/// is as long as twenty-five windows, films and checkpoints are made at the same time and ten
/// times, layers that meet have the same width, pictures in colour can be halved four times and
/// decoded again, attention is shared evenly, three slots are refined three times and judged by
/// three heads, and the decoder is one that is known.
pub proof fn law_usual_settings_belong_together(config: Config)
    requires
        config.is_default(),
    ensures
        config.max_episodes == 125 * config.num_envs,
        config.replay_capacity == 50 * config.num_envs,
        config.env_max_steps == 25 * config.batch_length,
        2 * config.batch_size == config.num_envs,
        config.video_interval == config.save_interval,
        config.max_episodes == 10 * config.video_interval,
        config.hidden_size == config.units && config.units == config.embed_dim,
        config.deter_size == config.slot_dim && config.slot_dim == config.d_model,
        config.deter_size == 4 * config.stoch_size,
        config.imag_batch == config.stoch_size,
        config.embed_dim == 2 * config.deter_size,
        config.decoder_hidden_dim == 2 * config.embed_dim,
        config.image_size == config.render_size,
        config.image_size == 16 * config.num_envs,
        config.d_model == config.num_heads * config.num_classes,
        config.slot_ctx_dim == config.num_classes,
        config.num_slots == config.slot_iterations,
        config.num_slots == config.ensemble_size,
        config.image_channels == 3,
        config.obs_dim == config.batch_length,
        config.action_dim == 1 && config.attn_layers == 1 && config.slot_mlp_layers == 1,
        config.mlp_layers == config.num_heads,
        config.imag_horizon == 15 && config.imag_horizon == 3 * config.probe_interval,
        config.actor_lr@ == config.critic_lr@,
        config.kl_scale@ == config.kl_balance_alpha@,
        config.free_nats@ == config.reward_scale@,
        config.use_slot_attention && config.use_motion_loss && config.use_ensemble_exploration,
        !config.decode_from_mean && !config.overfit_batch,
        !config.use_slot_interaction && !config.use_latent_objective,
        decoder_called(config.decoder_type@) == DecoderKind::Hybrid,
{
    reveal_strlit("gaussian");
    reveal_strlit("hybrid");
    assert("hybrid"@.len() != "gaussian"@.len());
}

/// Decoders have names of their own, and any other name gets the broadcast decoder.
pub proof fn law_decoders_are_named(name: Seq<char>)
    ensures
        decoder_called("gaussian"@) == DecoderKind::Gaussian,
        decoder_called("hybrid"@) == DecoderKind::Hybrid,
        decoder_called("sbd"@) == DecoderKind::SpatialBroadcast,
        name != "gaussian"@ && name != "hybrid"@ && name != "sbd"@ ==> decoder_called(name)
            == DecoderKind::Broadcast,
{
    reveal_strlit("gaussian");
    reveal_strlit("hybrid");
    reveal_strlit("sbd");
    assert("hybrid"@.len() == 6 && "gaussian"@.len() == 8 && "sbd"@.len() == 3);
}

/// A fit test is the same with and without weights, and only the weighted names end that way.
pub proof fn law_weighted_tests_are_the_same(name: Seq<char>)
    requires
        name == "gaussian"@ || name == "hybrid"@ || name == "slot_ae"@,
    ensures
        fit_test_called(name + "_weighted"@) == fit_test_called(name),
        !(fit_test_called(name) is Broadcast) && !(fit_test_called(name) is Deconv),
        ends_with(name + "_weighted"@, "weighted"@),
        !ends_with(name, "weighted"@),
        fit_test_called("deconv"@) is Deconv,
        !ends_with("deconv"@, "weighted"@),
{
    reveal_strlit("gaussian");
    reveal_strlit("hybrid");
    reveal_strlit("slot_ae");
    reveal_strlit("deconv");
    reveal_strlit("gaussian_weighted");
    reveal_strlit("hybrid_weighted");
    reveal_strlit("slot_ae_weighted");
    reveal_strlit("_weighted");
    reveal_strlit("weighted");
    assert("gaussian"@ + "_weighted"@ =~= "gaussian_weighted"@);
    assert("hybrid"@ + "_weighted"@ =~= "hybrid_weighted"@);
    assert("slot_ae"@ + "_weighted"@ =~= "slot_ae_weighted"@);
    let long = name + "_weighted"@;
    assert(long.skip(long.len() - 8) =~= "weighted"@);
    assert("gaussian"@.skip(0)[0] == 'g');
    assert("weighted"@[0] == 'w');
    assert("gaussian"@.len() == 8 && "hybrid"@.len() == 6 && "slot_ae"@.len() == 7
        && "deconv"@.len() == 6);
    assert("hybrid"@[0] == 'h' && "deconv"@[0] == 'd');
    assert("gaussian_weighted"@.len() == 17 && "hybrid_weighted"@.len() == 15
        && "slot_ae_weighted"@.len() == 16);
}

/// The usual environment can be trained in, so can the paddle game, and nothing else.
pub proof fn law_environments_are_named(config: Config, name: Seq<char>)
    requires
        config.is_default(),
    ensures
        env_called(config.env_type@) == Some(EnvKind::BouncingBall),
        env_called("paddle_hitting"@) == Some(EnvKind::PaddleHitting),
        name != "bouncing_ball"@ && name != "paddle_hitting"@ ==> env_called(name) is None,
{
    reveal_strlit("bouncing_ball");
    reveal_strlit("paddle_hitting");
    assert("bouncing_ball"@.len() == 13 && "paddle_hitting"@.len() == 14);
}

/// A negative number turns a switch on, and is no number of anything.
pub proof fn law_negative_numbers_switch_on(
    vars: Seq<(String, String)>,
    key: Seq<char>,
    n: nat,
    max: int,
    usual: int,
    was: bool,
)
    requires
        lookup(vars, key) == Some(seq!['-'] + decimal_text(n)),
        0 < n <= i32::MAX,
    ensures
        switch_or(vars, key, was),
        number_setting(vars, key, max, usual) == usual,
{
    law_signs_are_read(n, i32::MIN as int, i32::MAX as int);
    law_signs_are_read(n, i32::MIN as int, max);
}

} // verus!
