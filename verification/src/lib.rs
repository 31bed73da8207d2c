//! Core logic of an object-centric world-model trainer.
pub mod agent;
pub mod canvas;
pub mod chance;
pub mod config;
pub mod diagnostics;
pub mod envs;
pub mod episode;
pub mod eval_object;
pub mod layout;
pub mod networks;
pub mod raster;
pub mod replay;
pub mod text;
pub mod train;
pub mod video;
pub mod xorshift;
