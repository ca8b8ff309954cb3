//! Dock topology: the tree of panels, tab groups, tiles and splits, and its name-based
//! projections.

pub mod item;
pub mod edit;
pub mod topology;
pub mod resolve;
pub mod area;
pub mod drag;
pub mod laws;
pub mod shared;
pub mod state;
pub mod named;
pub mod activation;
pub mod reapply;
pub mod restore;
pub mod pins;
pub mod presentation;
pub mod lifecycle;
