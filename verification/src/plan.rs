//! What a run is going to do, and what it has come to.
pub mod nodes;
pub mod outcome;
pub mod targets;
