//! What is shown of a run.
pub mod dashboard;
pub mod fallback;
pub mod laws;
pub mod state;
