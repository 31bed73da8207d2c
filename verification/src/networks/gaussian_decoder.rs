//! A decoder that paints blobs.
use crate::networks::layers::Images;
use crate::networks::layers::LinearPlan;
use vstd::prelude::*;

verus! {

/// The numbers that describe a blob: centre, widths, angle, opacity and colour.
pub const PARAMS_PER_BLOB: usize = 9;

/// The number of blobs for each slot.
pub const BLOBS: usize = 12;

/// The layers of the decoder.
#[derive(Debug, Clone, Copy, PartialEq, Eq, Structural)]
pub struct GaussianDecoder {
    /// From a slot and a hint of its place to a hidden layer.
    pub blob_hidden: LinearPlan,
    /// From the hidden layer to the blobs.
    pub blob_mlp: LinearPlan,
    /// The number of blobs.
    pub n_blobs: usize,
    /// The side of the image.
    pub image_size: usize,
    /// Colours and the mask.
    pub out_channels: usize,
}

impl GaussianDecoder {
    /// The layers for images of side `image_size`.
    pub open spec fn of(latent_dim: usize, image_channels: usize, image_size: usize) -> Self {
        GaussianDecoder {
            blob_hidden: LinearPlan { input: (latent_dim + 2) as usize, output: 128 },
            blob_mlp: LinearPlan { input: 128, output: 108 },
            n_blobs: 12,
            image_size,
            out_channels: (image_channels + 1) as usize,
        }
    }

    /// Plans the layers for images of side `image_size`.
    pub fn init(latent_dim: usize, image_channels: usize, image_size: usize) -> (decoder: Self)
        requires
            latent_dim + 2 <= usize::MAX,
            image_channels + 1 <= usize::MAX,
        ensures
            decoder == Self::of(latent_dim, image_channels, image_size),
            decoder.blob_mlp.output == decoder.n_blobs * PARAMS_PER_BLOB,
    {
        GaussianDecoder {
            blob_hidden: LinearPlan { input: latent_dim + 2, output: 128 },
            blob_mlp: LinearPlan { input: 128, output: BLOBS * PARAMS_PER_BLOB },
            n_blobs: BLOBS,
            image_size,
            out_channels: image_channels + 1,
        }
    }

    /// `canvases` starts at `base`; each blob was painted over the canvas before it.
    pub open spec fn composited<C, F: Fn(C, usize) -> C>(
        base: C,
        canvases: Seq<C>,
        paint: F,
    ) -> bool {
        &&& canvases.len() > 0
        &&& canvases[0] == base
        &&& forall|i: int|
            #![trigger canvases[i]]
            0 <= i < canvases.len() - 1 ==> paint.ensures(
                (canvases[i], i as usize),
                canvases[i + 1],
            )
    }

    /// Paints all blobs over `base`, the first at the bottom.
    pub fn composite_over<C, F: Fn(C, usize) -> C>(&self, base: C, paint: F) -> (canvas: C)
        requires
            forall|c: C, i: usize| i < self.n_blobs ==> #[trigger] paint.requires((c, i)),
        ensures
            exists|canvases: Seq<C>|
                {
                    &&& #[trigger] Self::composited(base, canvases, paint)
                    &&& canvases.len() == self.n_blobs + 1
                    &&& canvases.last() == canvas
                },
    {
        let ghost start = base;
        let ghost mut canvases: Seq<C> = seq![base];
        let mut canvas = base;
        for i in 0..self.n_blobs
            invariant
                forall|c: C, k: usize| k < self.n_blobs ==> #[trigger] paint.requires((c, k)),
                Self::composited(start, canvases, paint),
                canvases.len() == i + 1,
                canvases.last() == canvas,
        {
            let ghost shorter = canvases;
            canvas = paint(canvas, i);
            proof {
                canvases = canvases.push(canvas);
                assert forall|k: int|
                    #![trigger canvases[k]]
                    0 <= k < canvases.len() - 1 implies paint.ensures(
                    (canvases[k], k as usize),
                    canvases[k + 1],
                ) by {
                    if k < i {
                        assert(canvases[k] == shorter[k] && canvases[k + 1] == shorter[k + 1]);
                    }
                }
            }
        }
        assert(Self::composited(start, canvases, paint));
        canvas
    }

    /// The shape of the images for `n` slots.
    pub fn forward(&self, n: usize) -> (images: Images)
        ensures
            images == (n, self.out_channels, self.image_size, self.image_size),
    {
        (n, self.out_channels, self.image_size, self.image_size)
    }

    /// Colours and the mask.
    pub fn out_channels(&self) -> (n: usize)
        ensures
            n == self.out_channels,
    {
        self.out_channels
    }
}

/// The hidden layer meets the next one, which gives each of the blobs its nine numbers.
pub proof fn law_blobs_get_their_numbers(latent_dim: usize, channels: usize, size: usize)
    requires
        latent_dim + 2 <= usize::MAX,
        channels + 1 <= usize::MAX,
    ensures
        ({
            let d = GaussianDecoder::of(latent_dim, channels, size);
            &&& d.blob_hidden.input == latent_dim + 2
            &&& d.blob_hidden.output == d.blob_mlp.input
            &&& d.blob_hidden.output == 128
            &&& d.blob_mlp.output == 9 * d.n_blobs
            &&& d.n_blobs == 12
            &&& d.out_channels == channels + 1
            &&& d.image_size == size
        }),
{
}

/// Blobs are painted one after the other: the first on the base, the others on what was painted
/// before them.
pub proof fn law_blobs_are_painted_in_turn<C, F: Fn(C, usize) -> C>(
    base: C,
    canvases: Seq<C>,
    paint: F,
    i: int,
)
    requires
        GaussianDecoder::composited(base, canvases, paint),
        0 <= i < canvases.len() - 1,
    ensures
        paint.ensures(
            (
                if i == 0 {
                    base
                } else {
                    canvases[i]
                },
                i as usize,
            ),
            canvases[i + 1],
        ),
        canvases.len() == 1 ==> canvases.last() == base,
{
    assert(canvases[i] == canvases[i]);
}

} // verus!
