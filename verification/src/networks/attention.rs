//! An encoder of token sequences with several attention heads.
use crate::networks::layers::LinearPlan;
use vstd::prelude::*;

verus! {

/// The layers of the encoder.
#[derive(Debug, Clone, Copy, PartialEq, Eq, Structural)]
pub struct AttentionEncoder {
    /// From tokens to queries, keys and values.
    pub qkv: LinearPlan,
    /// From the heads back to tokens.
    pub out_proj: LinearPlan,
    /// First layer of the feed-forward part.
    pub ffn1: LinearPlan,
    /// Second layer of the feed-forward part.
    pub ffn2: LinearPlan,
    /// From the mean token to the embedding.
    pub out: LinearPlan,
    /// The length of a token.
    pub d_model: usize,
    /// The number of heads.
    pub num_heads: usize,
}

impl AttentionEncoder {
    /// Plans the layers.
    pub fn init(d_model: usize, num_heads: usize, embed_dim: usize) -> (encoder: Self)
        requires
            0 < num_heads,
            3 * d_model <= usize::MAX,
        ensures
            encoder == (AttentionEncoder {
                qkv: LinearPlan { input: d_model, output: (3 * d_model) as usize },
                out_proj: LinearPlan { input: d_model, output: d_model },
                ffn1: LinearPlan { input: d_model, output: (d_model * 2) as usize },
                ffn2: LinearPlan { input: (d_model * 2) as usize, output: d_model },
                out: LinearPlan { input: d_model, output: embed_dim },
                d_model,
                num_heads,
            }),
    {
        AttentionEncoder {
            qkv: LinearPlan { input: d_model, output: 3 * d_model },
            out_proj: LinearPlan { input: d_model, output: d_model },
            ffn1: LinearPlan { input: d_model, output: d_model * 2 },
            ffn2: LinearPlan { input: d_model * 2, output: d_model },
            out: LinearPlan { input: d_model, output: embed_dim },
            d_model,
            num_heads,
        }
    }

    /// The length of a token in one head.
    pub fn head_dim(&self) -> (n: usize)
        requires
            0 < self.num_heads,
        ensures
            n == self.d_model as int / self.num_heads as int,
    {
        self.d_model / self.num_heads
    }

    /// Where queries, keys and values start in a row of all three.
    pub fn chunk_starts(&self) -> (starts: (usize, usize, usize))
        requires
            3 * self.d_model <= usize::MAX,
        ensures
            starts.0 == 0,
            starts.1 == self.d_model,
            starts.2 == 2 * self.d_model,
    {
        (0, self.d_model, 2 * self.d_model)
    }

    /// The shape of the embeddings for `batch` sequences.
    pub fn forward(&self, batch: usize) -> (embeddings: (usize, usize))
        ensures
            embeddings == (batch, self.out.output),
    {
        (batch, self.out.output)
    }
}

/// If heads share a token evenly, splitting tokens into heads keeps every number.
pub proof fn law_heads_share_evenly(batch: int, n: int, d_model: int, heads: int)
    requires
        0 < heads,
        0 <= d_model,
        d_model % heads == 0,
    ensures
        (batch * heads) * n * (d_model / heads) == batch * n * d_model,
{
    let d = d_model / heads;
    assert(d * heads == d_model) by (nonlinear_arith)
        requires
            0 < heads,
            d_model % heads == 0,
            d == d_model / heads,
    ;
    assert((batch * heads) * n * d == batch * n * (d * heads)) by (nonlinear_arith);
}

} // verus!
