//! A world model with one state for the whole scene.
use crate::networks::decoder::Decoder;
use crate::networks::encoder::flat_features;
use crate::networks::encoder::Encoder;
use crate::networks::layers::Images;
use crate::networks::layers::LinearPlan;
use crate::networks::rssm::RSSM;
use vstd::prelude::*;

verus! {

/// The parts of the model.
#[derive(Debug, Clone, Copy, PartialEq, Eq, Structural)]
pub struct WorldModel {
    /// The dynamics.
    pub rssm: RSSM,
    /// From images to embeddings.
    pub encoder: Encoder,
    /// From states to images.
    pub decoder: Decoder,
    /// From states to rewards.
    pub reward: LinearPlan,
    /// The channels of an image.
    pub image_channels: usize,
    /// The side of an image.
    pub image_size: usize,
}

impl WorldModel {
    /// All sizes can be added up and multiplied.
    pub open spec fn sizes_fit(
        deter: int,
        stoch: int,
        action: int,
        embed: int,
        channels: int,
        size: int,
    ) -> bool {
        &&& RSSM::sizes_fit(deter, stoch, action, embed, 0)
        &&& deter + stoch <= usize::MAX
        &&& flat_features(size) <= usize::MAX
        &&& channels * size * size <= usize::MAX
    }

    /// Plans the parts.
    pub fn init(
        deter: usize,
        stoch: usize,
        action_dim: usize,
        embed_dim: usize,
        image_channels: usize,
        image_size: usize,
    ) -> (model: Self)
        requires
            Self::sizes_fit(
                deter as int,
                stoch as int,
                action_dim as int,
                embed_dim as int,
                image_channels as int,
                image_size as int,
            ),
        ensures
            model.rssm == RSSM::of(deter, stoch, action_dim, embed_dim, 0),
            model.encoder == Encoder::of(embed_dim, image_channels, image_size),
            model.decoder == Decoder::of(
                (deter + stoch) as usize,
                image_channels,
                image_size,
                image_channels,
            ),
            model.reward == (LinearPlan { input: (deter + stoch) as usize, output: 1 }),
            model.image_channels == image_channels,
            model.image_size == image_size,
    {
        WorldModel {
            rssm: RSSM::init(deter, stoch, action_dim, embed_dim),
            encoder: Encoder::init(embed_dim, image_channels, image_size),
            decoder: Decoder::init(deter + stoch, image_channels, image_size),
            reward: LinearPlan { input: deter + stoch, output: 1 },
            image_channels,
            image_size,
        }
    }

    /// The shape that `batch` flat observations take as images.
    pub fn encode(&self, batch: usize) -> (images: Images)
        ensures
            images == (batch, self.image_channels, self.image_size, self.image_size),
    {
        (batch, self.image_channels, self.image_size, self.image_size)
    }
}

/// What of a state is decoded when an image is reconstructed: the mean of its stochastic part if
/// the settings ask for it, else the sample that was drawn from it.
pub fn decoded_part<T>(from_mean: bool, sample: T, mean: T) -> (part: T)
    ensures
        part == if from_mean {
            mean
        } else {
            sample
        },
{
    if from_mean {
        mean
    } else {
        sample
    }
}

/// The parts of a world model fit together: embeddings fit the posterior, states fit the decoder
/// and the reward head, and what comes out is as large as what went in if the side of an image is
/// a multiple of sixteen.
pub proof fn law_world_model_fits(
    deter: usize,
    stoch: usize,
    action: usize,
    embed: usize,
    channels: usize,
    size: usize,
)
    requires
        WorldModel::sizes_fit(
            deter as int,
            stoch as int,
            action as int,
            embed as int,
            channels as int,
            size as int,
        ),
        16 <= size,
        size % 16 == 0,
    ensures
        ({
            let rssm = RSSM::of(deter, stoch, action, embed, 0);
            let encoder = Encoder::of(embed, channels, size);
            let decoder = Decoder::of((deter + stoch) as usize, channels, size, channels);
            &&& encoder.proj.output == rssm.norm_obs
            &&& rssm.deter_size + rssm.stoch_size == decoder.proj.input
            &&& decoder.proj.output == encoder.proj.input
            &&& decoder.deconv4.output == encoder.conv1.input
            &&& 16 * decoder.feature_size == size
        }),
{
}

} // verus!
