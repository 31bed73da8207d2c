//! A decoder that paints blobs over a coarse background.
use crate::networks::broadcast_decoder::BroadcastDecoder;
use crate::networks::gaussian_decoder::GaussianDecoder;
use crate::networks::layers::Images;
use vstd::prelude::*;

verus! {

/// The two decoders.
#[derive(Debug, Clone, Copy, PartialEq, Eq, Structural)]
pub struct HybridDecoder {
    /// The background.
    pub bg: BroadcastDecoder,
    /// The blobs.
    pub fg: GaussianDecoder,
    /// Colours and the mask.
    pub out_channels: usize,
}

impl HybridDecoder {
    /// Both decoders for images of side `image_size`.
    pub open spec fn of(latent_dim: usize, image_channels: usize, image_size: usize) -> Self {
        HybridDecoder {
            bg: BroadcastDecoder::of(latent_dim, image_channels, image_size),
            fg: GaussianDecoder::of(latent_dim, image_channels, image_size),
            out_channels: (image_channels + 1) as usize,
        }
    }

    /// Plans both decoders for images of side `image_size`.
    pub fn init(latent_dim: usize, image_channels: usize, image_size: usize) -> (decoder: Self)
        requires
            latent_dim + 2 <= usize::MAX,
            image_channels + 1 <= usize::MAX,
        ensures
            decoder == Self::of(latent_dim, image_channels, image_size),
    {
        HybridDecoder {
            bg: BroadcastDecoder::init(latent_dim, image_channels, image_size),
            fg: GaussianDecoder::init(latent_dim, image_channels, image_size),
            out_channels: image_channels + 1,
        }
    }

    /// The shape of the images for `n` slots: that of the blobs, which are painted over the
    /// background.
    pub fn forward(&self, n: usize) -> (images: Images)
        ensures
            images == (n, self.out_channels, self.fg.image_size, self.fg.image_size),
    {
        (n, self.out_channels, self.fg.image_size, self.fg.image_size)
    }

    /// Colours and the mask.
    pub fn out_channels(&self) -> (n: usize)
        ensures
            n == self.out_channels,
    {
        self.out_channels
    }
}

/// Background and foreground read the same latent and paint pictures of the same channels, one of
/// them for the mask.
pub proof fn law_hybrid_parts_fit(latent_dim: usize, channels: usize, size: usize)
    requires
        latent_dim + 2 <= usize::MAX,
        channels + 1 <= usize::MAX,
    ensures
        ({
            let d = HybridDecoder::of(latent_dim, channels, size);
            &&& d.bg.latent_dim == latent_dim
            &&& d.fg.blob_hidden.input == latent_dim + 2
            &&& d.bg.out_channels == channels + 1
            &&& d.fg.out_channels == channels + 1
            &&& d.out_channels == channels + 1
            &&& d.fg.image_size == size
            &&& d.bg.base_size == size / 8
        }),
{
}

} // verus!
