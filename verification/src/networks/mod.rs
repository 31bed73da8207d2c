//! The layers of the networks: their sizes and how they fit together.
pub mod attention;
pub mod broadcast_decoder;
pub mod decoder;
pub mod encoder;
pub mod gaussian_decoder;
pub mod hybrid_decoder;
pub mod layers;
pub mod mlp;
pub mod rssm;
pub mod slot_attention;
pub mod slot_rssm;
pub mod spatial_broadcast_decoder;
