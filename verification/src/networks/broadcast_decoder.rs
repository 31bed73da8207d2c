//! A decoder that tiles a slot over a coarse grid and scales the result up.
use crate::networks::layers::double;
use crate::networks::layers::doubling;
use crate::networks::layers::keep;
use crate::networks::layers::keeping;
use crate::networks::layers::law_sides;
use crate::networks::layers::ConvPlan;
use crate::networks::layers::DeconvPlan;
use crate::networks::layers::Images;
use vstd::prelude::*;

verus! {

/// The layers of the decoder.
#[derive(Debug, Clone, Copy, PartialEq, Eq, Structural)]
pub struct BroadcastDecoder {
    /// First convolution, over the tiled slot and two channels of coordinates.
    pub conv1: ConvPlan,
    /// Second convolution.
    pub conv2: ConvPlan,
    /// First doubling.
    pub up1: DeconvPlan,
    /// Second doubling.
    pub up2: DeconvPlan,
    /// Third doubling.
    pub up3: DeconvPlan,
    /// The length of a slot.
    pub latent_dim: usize,
    /// The side of the coarse grid.
    pub base_size: usize,
    /// Colours and the mask.
    pub out_channels: usize,
}

impl BroadcastDecoder {
    /// The layers for images of side `image_size`.
    pub open spec fn of(latent_dim: usize, image_channels: usize, image_size: usize) -> Self {
        BroadcastDecoder {
            conv1: keeping((latent_dim + 2) as usize, 64),
            conv2: keeping(64, 64),
            up1: doubling(64, 32),
            up2: doubling(32, 16),
            up3: doubling(16, (image_channels + 1) as usize),
            latent_dim,
            base_size: image_size / 8,
            out_channels: (image_channels + 1) as usize,
        }
    }

    /// Plans the layers for images of side `image_size`.
    pub fn init(latent_dim: usize, image_channels: usize, image_size: usize) -> (decoder: Self)
        requires
            latent_dim + 2 <= usize::MAX,
            image_channels + 1 <= usize::MAX,
        ensures
            decoder == Self::of(latent_dim, image_channels, image_size),
    {
        BroadcastDecoder {
            conv1: keep(latent_dim + 2, 64),
            conv2: keep(64, 64),
            up1: double(64, 32),
            up2: double(32, 16),
            up3: double(16, image_channels + 1),
            latent_dim,
            base_size: image_size / 8,
            out_channels: image_channels + 1,
        }
    }

    /// The shape of the images for `n` slots.
    pub fn forward(&self, n: usize) -> (images: Images)
        requires
            8 * self.base_size <= usize::MAX,
        ensures
            images == (
                n,
                self.out_channels,
                (8 * self.base_size) as usize,
                (8 * self.base_size) as usize,
            ),
    {
        (n, self.out_channels, 8 * self.base_size, 8 * self.base_size)
    }

    /// Colours and the mask.
    pub fn out_channels(&self) -> (n: usize)
        ensures
            n == self.out_channels,
    {
        self.out_channels
    }
}

/// The layers fit together, and images have the right size if their side is a multiple of eight.
pub proof fn law_broadcast_fits(latent_dim: usize, channels: usize, size: usize)
    requires
        8 <= size,
        latent_dim + 2 <= usize::MAX,
        channels + 1 <= usize::MAX,
    ensures
        ({
            let d = BroadcastDecoder::of(latent_dim, channels, size);
            let s1 = d.conv1.side(d.base_size as int);
            let s2 = d.conv2.side(s1);
            let s3 = d.up1.side(s2);
            let s4 = d.up2.side(s3);
            let s5 = d.up3.side(s4);
            &&& d.conv1.input == latent_dim + 2
            &&& d.conv1.output == d.conv2.input
            &&& d.conv2.output == d.up1.input
            &&& d.up1.output == d.up2.input
            &&& d.up2.output == d.up3.input
            &&& d.up3.output == d.out_channels
            &&& d.out_channels == channels + 1
            &&& d.latent_dim == latent_dim
            &&& d.conv2.input == 64 && d.conv2.output == 64
            &&& 2 * d.up1.output == d.up1.input && 2 * d.up2.output == d.up2.input
            &&& s5 == 8 * (size as int / 8)
            &&& size % 8 == 0 ==> s5 == size
        }),
{
    let base = size as int / 8;
    law_sides(0, 0, base);
    law_sides(64, 32, base);
    law_sides(32, 16, 2 * base);
    law_sides(16, 0, 4 * base);
}

} // verus!
