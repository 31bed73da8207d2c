//! The worlds that an agent can act in.
pub mod bodies;
pub mod bouncing_ball;
pub mod maze;
pub mod object3d_world;
pub mod object_world;
pub mod paddle_hitting;
pub mod pendulum;
pub mod visual_navigation;
