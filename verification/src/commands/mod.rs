//! What the app's commands decide.
pub mod resources;
pub mod servers;
