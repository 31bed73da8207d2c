//! A decoder that tiles a slot over the whole image.
use crate::networks::layers::coord_grid;
use crate::networks::layers::keep;
use crate::networks::layers::keeping;
use crate::networks::layers::law_sides;
use crate::networks::layers::ConvPlan;
use crate::networks::layers::place_at;
use crate::networks::layers::GridCoord;
use crate::networks::layers::Images;
use crate::networks::layers::LinearPlan;
use vstd::prelude::*;

verus! {

/// The layers of the decoder.
#[derive(Debug, Clone, Copy, PartialEq, Eq, Structural)]
pub struct SpatialBroadcastDecoder {
    /// Widens a slot before it is tiled.
    pub latent_proj: LinearPlan,
    /// First convolution, over the tiled slot and two channels of coordinates.
    pub conv1: ConvPlan,
    /// Second convolution.
    pub conv2: ConvPlan,
    /// Third convolution.
    pub conv3: ConvPlan,
    /// The length of a slot.
    pub latent_dim: usize,
    /// The length of a widened slot.
    pub hidden_dim: usize,
    /// The side of the image.
    pub image_size: usize,
    /// The colours.
    pub image_channels: usize,
}

impl SpatialBroadcastDecoder {
    /// The layers for images of side `image_size`.
    pub open spec fn of(
        latent_dim: usize,
        hidden_dim: usize,
        image_channels: usize,
        image_size: usize,
    ) -> Self {
        SpatialBroadcastDecoder {
            latent_proj: LinearPlan { input: latent_dim, output: hidden_dim },
            conv1: keeping((hidden_dim + 2) as usize, 128),
            conv2: keeping(128, 64),
            conv3: keeping(64, (image_channels + 1) as usize),
            latent_dim,
            hidden_dim,
            image_size,
            image_channels,
        }
    }

    /// Plans the layers for images of side `image_size`.
    pub fn init(
        latent_dim: usize,
        hidden_dim: usize,
        image_channels: usize,
        image_size: usize,
    ) -> (decoder: Self)
        requires
            hidden_dim + 2 <= usize::MAX,
            image_channels + 1 <= usize::MAX,
        ensures
            decoder == Self::of(latent_dim, hidden_dim, image_channels, image_size),
    {
        SpatialBroadcastDecoder {
            latent_proj: LinearPlan { input: latent_dim, output: hidden_dim },
            conv1: keep(hidden_dim + 2, 128),
            conv2: keep(128, 64),
            conv3: keep(64, image_channels + 1),
            latent_dim,
            hidden_dim,
            image_size,
            image_channels,
        }
    }

    /// The places of the pixels, row after row: column first, then row.
    pub fn coord_grid(&self) -> (grid: Vec<(GridCoord, GridCoord)>)
        requires
            self.image_size * self.image_size <= usize::MAX,
        ensures
            grid.len() == self.image_size * self.image_size,
            forall|p: int|
                0 <= p < grid.len() ==> #[trigger] grid[p] == place_at(
                    self.image_size as int,
                    self.image_size as int,
                    p,
                ),
    {
        coord_grid(self.image_size, self.image_size)
    }

    /// The shape of the images for `n` slots.
    pub fn forward(&self, n: usize) -> (images: Images)
        requires
            self.image_channels + 1 <= usize::MAX,
        ensures
            images == (
                n,
                (self.image_channels + 1) as usize,
                self.image_size,
                self.image_size,
            ),
    {
        (n, self.image_channels + 1, self.image_size, self.image_size)
    }

    /// Colours and the mask.
    pub fn out_channels(&self) -> (n: usize)
        requires
            self.image_channels + 1 <= usize::MAX,
        ensures
            n == self.image_channels + 1,
    {
        self.image_channels + 1
    }
}

/// The layers fit together and keep the size of the image.
pub proof fn law_spatial_broadcast_fits(
    latent_dim: usize,
    hidden_dim: usize,
    channels: usize,
    size: usize,
)
    requires
        1 <= size,
        hidden_dim + 2 <= usize::MAX,
        channels + 1 <= usize::MAX,
    ensures
        ({
            let d = SpatialBroadcastDecoder::of(latent_dim, hidden_dim, channels, size);
            &&& d.conv1.input == d.latent_proj.output + 2
            &&& d.conv1.output == d.conv2.input
            &&& d.conv2.output == d.conv3.input
            &&& d.conv3.output == channels + 1
            &&& d.conv1.output == 128 && d.conv2.output == 64
            &&& d.latent_proj.input == latent_dim && d.latent_proj.output == hidden_dim
            &&& d.latent_dim == latent_dim && d.hidden_dim == hidden_dim
            &&& d.image_size == size && d.image_channels == channels
            &&& d.conv3.side(d.conv2.side(d.conv1.side(size as int))) == size
        }),
{
    law_sides(0, 0, size as int);
}

} // verus!
