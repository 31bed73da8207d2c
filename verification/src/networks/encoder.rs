//! The image encoder: four convolutions, each of which halves the image, and a projection.
use crate::networks::layers::halve;
use crate::networks::layers::halving;
use crate::networks::layers::law_sides;
use crate::networks::layers::ConvPlan;
use crate::networks::layers::Images;
use crate::networks::layers::LinearPlan;
use vstd::prelude::*;

verus! {

/// The layers of the encoder.
#[derive(Debug, Clone, Copy, PartialEq, Eq, Structural)]
pub struct Encoder {
    /// First convolution.
    pub conv1: ConvPlan,
    /// Second convolution.
    pub conv2: ConvPlan,
    /// Third convolution.
    pub conv3: ConvPlan,
    /// Fourth convolution.
    pub conv4: ConvPlan,
    /// From flat features to the embedding.
    pub proj: LinearPlan,
    /// The length of flat features.
    pub flat_dim: usize,
}

/// The length of flat features for images of side `size`.
pub open spec fn flat_features(size: int) -> int {
    256 * (size / 16) * (size / 16)
}

impl Encoder {
    /// The layers for images of side `image_size`.
    pub open spec fn of(embed_dim: usize, image_channels: usize, image_size: usize) -> Encoder {
        Encoder {
            conv1: halving(image_channels, 32),
            conv2: halving(32, 64),
            conv3: halving(64, 128),
            conv4: halving(128, 256),
            proj: LinearPlan {
                input: flat_features(image_size as int) as usize,
                output: embed_dim,
            },
            flat_dim: flat_features(image_size as int) as usize,
        }
    }

    /// Plans the layers for images of side `image_size`.
    pub fn init(embed_dim: usize, image_channels: usize, image_size: usize) -> (encoder: Self)
        requires
            flat_features(image_size as int) <= usize::MAX,
        ensures
            encoder == Self::of(embed_dim, image_channels, image_size),
    {
        let fs: usize = image_size / 16;
        assert(256 * fs <= 256 * fs * fs || fs == 0) by (nonlinear_arith)
            requires
                fs >= 0,
        ;
        let flat_dim: usize = 256 * fs * fs;
        Encoder {
            conv1: halve(image_channels, 32),
            conv2: halve(32, 64),
            conv3: halve(64, 128),
            conv4: halve(128, 256),
            proj: LinearPlan { input: flat_dim, output: embed_dim },
            flat_dim,
        }
    }

    /// The shape of the embeddings of images.
    pub fn forward(&self, images: Images) -> (embeddings: (usize, usize))
        requires
            images.1 == self.conv1.input,
            16 <= images.2,
            16 <= images.3,
            256 * (images.2 as int / 16) * (images.3 as int / 16) == self.flat_dim,
        ensures
            embeddings == (images.0, self.proj.output),
    {
        (images.0, self.proj.output)
    }

    /// The shape of the features after all four convolutions.
    pub fn forward_features(&self, images: Images) -> (features: Images)
        requires
            images.1 == self.conv1.input,
            16 <= images.2,
            16 <= images.3,
        ensures
            features == (images.0, 256usize, images.2 / 16, images.3 / 16),
    {
        (images.0, 256, images.2 / 16, images.3 / 16)
    }

    /// The shape of the features after three convolutions.
    pub fn forward_features_8x8(&self, images: Images) -> (features: Images)
        requires
            images.1 == self.conv1.input,
            8 <= images.2,
            8 <= images.3,
        ensures
            features == (images.0, 128usize, images.2 / 8, images.3 / 8),
    {
        (images.0, 128, images.2 / 8, images.3 / 8)
    }

    /// The shape of the features after two convolutions.
    pub fn forward_features_16x16(&self, images: Images) -> (features: Images)
        requires
            images.1 == self.conv1.input,
            4 <= images.2,
            4 <= images.3,
        ensures
            features == (images.0, 64usize, images.2 / 4, images.3 / 4),
    {
        (images.0, 64, images.2 / 4, images.3 / 4)
    }
}

/// The convolutions fit together, shrink an image as promised, and leave as many features as the
/// projection takes.
pub proof fn law_encoder_fits(embed_dim: usize, channels: usize, size: usize)
    requires
        16 <= size,
        flat_features(size as int) <= usize::MAX,
    ensures
        ({
            let e = Encoder::of(embed_dim, channels, size);
            let s1 = e.conv1.side(size as int);
            let s2 = e.conv2.side(s1);
            let s3 = e.conv3.side(s2);
            let s4 = e.conv4.side(s3);
            &&& e.conv1.input == channels
            &&& e.conv1.output == e.conv2.input
            &&& e.conv2.output == e.conv3.input
            &&& e.conv3.output == e.conv4.input
            &&& e.conv2.output == 64 && s2 == size / 4
            &&& e.conv3.output == 128 && s3 == size / 8
            &&& e.conv4.output == 256 && s4 == size / 16
            &&& e.conv4.output * s4 * s4 == e.proj.input
            &&& e.conv1.output == 32 && s1 == size / 2
            &&& e.flat_dim == e.proj.input && e.proj.output == embed_dim
        }),
{
    law_sides(channels, 32, size as int);
    law_sides(32, 64, size as int / 2);
    law_sides(64, 128, size as int / 4);
    law_sides(128, 256, size as int / 8);
}

} // verus!
