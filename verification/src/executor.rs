//! The builds themselves.
pub mod bake;
pub mod progress;
