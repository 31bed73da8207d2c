//! A world model with a state for each object.
use crate::config::decoder_called;
use crate::config::select_decoder;
use crate::config::Config;
use crate::config::DecoderKind;
use crate::networks::broadcast_decoder::BroadcastDecoder;
use crate::networks::encoder::flat_features;
use crate::networks::encoder::Encoder;
use crate::networks::gaussian_decoder::GaussianDecoder;
use crate::networks::hybrid_decoder::HybridDecoder;
use crate::networks::layers::LinearPlan;
use crate::networks::rssm::RSSM;
use crate::networks::slot_attention::SlotAttention;
use crate::networks::slot_attention::SlotAttentionConfig;
use crate::networks::slot_rssm::SlotRSSM;
use crate::networks::spatial_broadcast_decoder::SpatialBroadcastDecoder;
use vstd::prelude::*;

verus! {

/// The channels of the features that slots attend to.
pub const SLOT_FEATURE_DIM: usize = 64;

/// The length of a projected slot state.
pub const DECODER_PROJ: usize = 64;

/// The length of what enters the decoder: a projected slot state and a place.
pub const DECODER_LATENT: usize = 66;

/// A decoder of slots with its layers.
#[derive(Debug, Clone, Copy, PartialEq, Eq, Structural)]
pub enum DecoderType {
    /// A coarse grid that is scaled up.
    Broadcast(BroadcastDecoder),
    /// Blobs.
    Gaussian(GaussianDecoder),
    /// Blobs over a coarse grid.
    Hybrid(HybridDecoder),
    /// A grid at full resolution.
    SpatialBroadcast(SpatialBroadcastDecoder),
}

/// Plans the decoder with a coarse grid for the images that the settings ask for.
pub fn broadcast_decoder(config: &Config) -> (plan: BroadcastDecoder)
    requires
        config.image_channels + 1 <= usize::MAX,
    ensures
        plan == BroadcastDecoder::of(66, config.image_channels, config.image_size),
{
    BroadcastDecoder::init(DECODER_LATENT, config.image_channels, config.image_size)
}

/// Plans the decoder with blobs for the images that the settings ask for.
pub fn gaussian_decoder(config: &Config) -> (plan: GaussianDecoder)
    requires
        config.image_channels + 1 <= usize::MAX,
    ensures
        plan == GaussianDecoder::of(66, config.image_channels, config.image_size),
{
    GaussianDecoder::init(DECODER_LATENT, config.image_channels, config.image_size)
}

/// Plans the decoder with blobs over a coarse grid for the images that the settings ask for.
pub fn hybrid_decoder(config: &Config) -> (plan: HybridDecoder)
    requires
        config.image_channels + 1 <= usize::MAX,
    ensures
        plan == HybridDecoder::of(66, config.image_channels, config.image_size),
{
    HybridDecoder::init(DECODER_LATENT, config.image_channels, config.image_size)
}

/// Plans the decoder with a grid at full resolution for the images that the settings ask for; the
/// settings also say how wide its hidden layer is.
pub fn spatial_decoder(config: &Config) -> (plan: SpatialBroadcastDecoder)
    requires
        config.image_channels + 1 <= usize::MAX,
        config.decoder_hidden_dim + 2 <= usize::MAX,
    ensures
        plan == SpatialBroadcastDecoder::of(
            66,
            config.decoder_hidden_dim,
            config.image_channels,
            config.image_size,
        ),
{
    SpatialBroadcastDecoder::init(
        DECODER_LATENT,
        config.decoder_hidden_dim,
        config.image_channels,
        config.image_size,
    )
}

/// The parts of the model.
#[derive(Debug, Clone, Copy, PartialEq, Eq, Structural)]
pub struct OCWorldModel {
    /// From features to slots.
    pub slot_attn: SlotAttention,
    /// The dynamics.
    pub slot_rssm: SlotRSSM,
    /// From images to features.
    pub encoder: Encoder,
    /// The decoder of slots.
    pub decoder: DecoderType,
    /// From slot states to the decoder.
    pub slot_proj: LinearPlan,
    /// Hidden layer of the reward head.
    pub reward_hidden: LinearPlan,
    /// From it to rewards.
    pub reward_out: LinearPlan,
    /// First layer that predicts slots.
    pub pred1: LinearPlan,
    /// Second layer that predicts slots.
    pub pred2: LinearPlan,
}

impl OCWorldModel {
    /// The interaction context is only used if slots interact.
    pub open spec fn context(config: Config) -> usize {
        if config.use_slot_interaction {
            config.slot_ctx_dim
        } else {
            0
        }
    }

    /// The ensemble is only used for exploration.
    pub open spec fn heads(config: Config) -> usize {
        if config.use_ensemble_exploration {
            config.ensemble_size
        } else {
            0
        }
    }

    /// All sizes can be added up and multiplied.
    pub open spec fn sizes_fit(config: Config, act_dim: int) -> bool {
        &&& RSSM::sizes_fit(
            config.deter_size as int,
            config.stoch_size as int,
            act_dim,
            config.slot_dim as int,
            Self::context(config) as int,
        )
        &&& config.deter_size + config.stoch_size <= usize::MAX
        &&& config.deter_size + 2 <= usize::MAX
        &&& config.slot_dim * config.num_slots <= usize::MAX
        &&& (config.deter_size + config.stoch_size) * config.num_slots <= usize::MAX
        &&& flat_features(config.image_size as int) <= usize::MAX
        &&& config.image_channels + 1 <= usize::MAX
        &&& decoder_called(config.decoder_type@) == DecoderKind::SpatialBroadcast
            ==> config.decoder_hidden_dim + 2 <= usize::MAX
    }

    /// The decoder that the settings name, for the images that they ask for.
    pub open spec fn decoder_for(config: Config) -> DecoderType {
        let channels = config.image_channels;
        let size = config.image_size;
        match decoder_called(config.decoder_type@) {
            DecoderKind::Broadcast => DecoderType::Broadcast(
                BroadcastDecoder::of(66, channels, size),
            ),
            DecoderKind::Gaussian => DecoderType::Gaussian(GaussianDecoder::of(66, channels, size)),
            DecoderKind::Hybrid => DecoderType::Hybrid(HybridDecoder::of(66, channels, size)),
            DecoderKind::SpatialBroadcast => DecoderType::SpatialBroadcast(
                SpatialBroadcastDecoder::of(66, config.decoder_hidden_dim, channels, size),
            ),
        }
    }

    /// Plans the parts as the settings say.
    pub fn init(config: &Config, act_dim: usize) -> (model: Self)
        requires
            Self::sizes_fit(*config, act_dim as int),
        ensures
            model.slot_attn == SlotAttention::of(
                SlotAttentionConfig {
                    num_slots: config.num_slots,
                    slot_dim: config.slot_dim,
                    num_iterations: config.slot_iterations,
                    feature_dim: 64,
                },
                config.slot_mlp_layers,
            ),
            model.slot_rssm == SlotRSSM::of(
                config.deter_size,
                config.stoch_size,
                act_dim,
                config.slot_dim,
                config.num_slots,
                Self::context(*config),
                Self::heads(*config),
            ),
            model.encoder == Encoder::of(
                config.embed_dim,
                config.image_channels,
                config.image_size,
            ),
            model.decoder == Self::decoder_for(*config),
            model.slot_proj == (LinearPlan {
                input: (config.deter_size + config.stoch_size) as usize,
                output: 64,
            }),
            model.reward_hidden == (LinearPlan {
                input: ((config.deter_size + config.stoch_size) * config.num_slots) as usize,
                output: 128,
            }),
            model.reward_out == (LinearPlan { input: 128, output: 1 }),
            model.pred1 == (LinearPlan {
                input: (config.deter_size + config.stoch_size) as usize,
                output: config.slot_dim,
            }),
            model.pred2 == (LinearPlan { input: config.slot_dim, output: config.slot_dim }),
    {
        let sa_cfg = SlotAttentionConfig {
            num_slots: config.num_slots,
            slot_dim: config.slot_dim,
            num_iterations: config.slot_iterations,
            feature_dim: SLOT_FEATURE_DIM,
        };
        let state_dim: usize = config.deter_size + config.stoch_size;
        let ctx: usize = if config.use_slot_interaction {
            config.slot_ctx_dim
        } else {
            0
        };
        let heads: usize = if config.use_ensemble_exploration {
            config.ensemble_size
        } else {
            0
        };
        let decoder = match select_decoder(config.decoder_type.as_str()) {
            DecoderKind::Broadcast => DecoderType::Broadcast(broadcast_decoder(config)),
            DecoderKind::Gaussian => DecoderType::Gaussian(gaussian_decoder(config)),
            DecoderKind::Hybrid => DecoderType::Hybrid(hybrid_decoder(config)),
            DecoderKind::SpatialBroadcast => DecoderType::SpatialBroadcast(spatial_decoder(config)),
        };
        OCWorldModel {
            slot_attn: SlotAttention::init_with_layers(&sa_cfg, config.slot_mlp_layers),
            slot_rssm: SlotRSSM::init(
                config.deter_size,
                config.stoch_size,
                act_dim,
                config.slot_dim,
                config.num_slots,
                ctx,
                heads,
            ),
            encoder: Encoder::init(config.embed_dim, config.image_channels, config.image_size),
            decoder,
            slot_proj: LinearPlan { input: state_dim, output: DECODER_PROJ },
            reward_hidden: LinearPlan { input: state_dim * config.num_slots, output: 128 },
            reward_out: LinearPlan { input: 128, output: 1 },
            pred1: LinearPlan { input: state_dim, output: config.slot_dim },
            pred2: LinearPlan { input: config.slot_dim, output: config.slot_dim },
        }
    }
}

/// The features that slots attend to are those of the encoder's second convolution, a projected
/// slot state and a place make up what the decoder takes, and predicted slots can be held against
/// slots.
pub proof fn law_slots_fit(config: Config, act_dim: usize)
    requires
        OCWorldModel::sizes_fit(config, act_dim as int),
    ensures
        Encoder::of(config.embed_dim, config.image_channels, config.image_size).conv2.output
            == SLOT_FEATURE_DIM,
        DECODER_PROJ + 2 == DECODER_LATENT,
        match OCWorldModel::decoder_for(config) {
            DecoderType::Broadcast(d) => d.latent_dim == DECODER_LATENT,
            DecoderType::Gaussian(d) => d.blob_hidden.input == DECODER_LATENT + 2,
            DecoderType::Hybrid(d) => d.bg.latent_dim == DECODER_LATENT && d.fg.blob_hidden.input
                == DECODER_LATENT + 2,
            DecoderType::SpatialBroadcast(d) => d.latent_proj.input == DECODER_LATENT,
        },
        RSSM::of(
            config.deter_size,
            config.stoch_size,
            act_dim,
            config.slot_dim,
            OCWorldModel::context(config),
        ).norm_obs == config.slot_dim,
{
}

/// Switches count: slots have a context only if they interact and heads only if they explore.
pub proof fn law_switches_count(config: Config)
    ensures
        OCWorldModel::context(config) == 0 || OCWorldModel::context(config) == config.slot_ctx_dim,
        OCWorldModel::heads(config) == 0 || OCWorldModel::heads(config) == config.ensemble_size,
        config.use_slot_interaction ==> OCWorldModel::context(config) == config.slot_ctx_dim,
        !config.use_slot_interaction ==> OCWorldModel::context(config) == 0,
        config.use_ensemble_exploration ==> OCWorldModel::heads(config) == config.ensemble_size,
        !config.use_ensemble_exploration ==> OCWorldModel::heads(config) == 0,
        OCWorldModel::decoder_for(config) is Gaussian <==> decoder_called(config.decoder_type@)
            == DecoderKind::Gaussian,
        OCWorldModel::decoder_for(config) is Hybrid <==> decoder_called(config.decoder_type@)
            == DecoderKind::Hybrid,
        OCWorldModel::decoder_for(config) is SpatialBroadcast <==> decoder_called(
            config.decoder_type@,
        ) == DecoderKind::SpatialBroadcast,
{
}

} // verus!
