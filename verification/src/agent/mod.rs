//! The agent: world models, actors and critics.
pub mod actor_critic;
pub mod discrete_actor;
pub mod oc_world_model;
pub mod world_model;
