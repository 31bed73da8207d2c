//! The image decoder: a projection and four transposed convolutions, each of which doubles the
//! image.
use crate::networks::encoder::flat_features;
use crate::networks::layers::double;
use crate::networks::layers::doubling;
use crate::networks::layers::law_sides;
use crate::networks::layers::DeconvPlan;
use crate::networks::layers::Images;
use crate::networks::layers::LinearPlan;
use vstd::prelude::*;

verus! {

/// The layers of the decoder.
#[derive(Debug, Clone, Copy, PartialEq, Eq, Structural)]
pub struct Decoder {
    /// From the latent to flat features.
    pub proj: LinearPlan,
    /// First transposed convolution.
    pub deconv1: DeconvPlan,
    /// Second transposed convolution.
    pub deconv2: DeconvPlan,
    /// Third transposed convolution.
    pub deconv3: DeconvPlan,
    /// Fourth transposed convolution.
    pub deconv4: DeconvPlan,
    /// The length of flat features.
    pub flat_dim: usize,
    /// The side of the features.
    pub feature_size: usize,
    /// Channels that are squashed into range; the others stay raw.
    pub rgb_channels: usize,
}

impl Decoder {
    /// The layers for images of side `image_size` with `out_c` channels, `rgb_c` of them colours.
    pub open spec fn of(latent_dim: usize, rgb_c: usize, image_size: usize, out_c: usize) -> Decoder {
        Decoder {
            proj: LinearPlan {
                input: latent_dim,
                output: flat_features(image_size as int) as usize,
            },
            deconv1: doubling(256, 128),
            deconv2: doubling(128, 64),
            deconv3: doubling(64, 32),
            deconv4: doubling(32, out_c),
            flat_dim: flat_features(image_size as int) as usize,
            feature_size: (image_size / 16) as usize,
            rgb_channels: rgb_c,
        }
    }

    /// Plans a decoder all of whose channels are colours.
    pub fn init(latent_dim: usize, image_channels: usize, image_size: usize) -> (decoder: Self)
        requires
            flat_features(image_size as int) <= usize::MAX,
        ensures
            decoder == Self::of(latent_dim, image_channels, image_size, image_channels),
    {
        Self::init_with_out(latent_dim, image_channels, image_size, image_channels)
    }

    /// Plans a decoder with `out_c` channels, the first `rgb_c` of which are colours.
    pub fn init_with_out(latent_dim: usize, rgb_c: usize, image_size: usize, out_c: usize) -> (decoder:
        Self)
        requires
            flat_features(image_size as int) <= usize::MAX,
        ensures
            decoder == Self::of(latent_dim, rgb_c, image_size, out_c),
    {
        let fs: usize = image_size / 16;
        assert(256 * fs <= 256 * fs * fs || fs == 0) by (nonlinear_arith)
            requires
                fs >= 0,
        ;
        let flat_dim: usize = 256 * fs * fs;
        Decoder {
            proj: LinearPlan { input: latent_dim, output: flat_dim },
            deconv1: double(256, 128),
            deconv2: double(128, 64),
            deconv3: double(64, 32),
            deconv4: double(32, out_c),
            flat_dim,
            feature_size: fs,
            rgb_channels: rgb_c,
        }
    }

    /// The shape of the images for `n` latents.
    pub fn forward(&self, n: usize) -> (images: Images)
        requires
            16 * self.feature_size <= usize::MAX,
        ensures
            images == (
                n,
                self.deconv4.output,
                (16 * self.feature_size) as usize,
                (16 * self.feature_size) as usize,
            ),
    {
        (n, self.deconv4.output, 16 * self.feature_size, 16 * self.feature_size)
    }

    /// How many channels are squashed into range and how many stay raw, of `out_c` in all.
    pub fn split_channels(&self, out_c: usize) -> (split: (usize, usize))
        requires
            self.rgb_channels <= out_c,
        ensures
            split.0 == self.rgb_channels,
            split.0 + split.1 == out_c,
    {
        (self.rgb_channels, out_c - self.rgb_channels)
    }
}

/// The layers fit together, and images come out as large as they went in if their side is a
/// multiple of sixteen.
pub proof fn law_decoder_fits(latent_dim: usize, rgb_c: usize, size: usize, out_c: usize)
    requires
        16 <= size,
        flat_features(size as int) <= usize::MAX,
    ensures
        ({
            let d = Decoder::of(latent_dim, rgb_c, size, out_c);
            let s1 = d.deconv1.side(d.feature_size as int);
            let s2 = d.deconv2.side(s1);
            let s3 = d.deconv3.side(s2);
            let s4 = d.deconv4.side(s3);
            &&& d.proj.output == d.deconv1.input * d.feature_size * d.feature_size
            &&& d.deconv1.output == d.deconv2.input
            &&& d.deconv2.output == d.deconv3.input
            &&& d.deconv3.output == d.deconv4.input
            &&& d.deconv4.output == out_c
            &&& d.deconv1.input == 2 * d.deconv1.output && d.deconv2.input == 2 * d.deconv2.output
            &&& d.deconv3.input == 2 * d.deconv3.output && d.deconv4.input == 32
            &&& d.proj.input == latent_dim && d.flat_dim == d.proj.output
            &&& d.rgb_channels == rgb_c
            &&& s4 == 16 * (size as int / 16)
            &&& size % 16 == 0 ==> s4 == size
        }),
{
    let fs = size as int / 16;
    law_sides(256, 128, fs);
    law_sides(128, 64, 2 * fs);
    law_sides(64, 32, 4 * fs);
    law_sides(32, out_c, 8 * fs);
}

} // verus!
