//! Which node builds which target, and when.
pub mod dispatcher;
