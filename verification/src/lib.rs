//! Scheduling, selection and reporting rules of a distributed image builder.
pub mod bakeprint;
pub mod builder;
pub mod cli;
pub mod closure;
pub mod compose;
pub mod dag;
pub mod executor;
pub mod hcl;
pub mod json;
pub mod logs;
pub mod names;
pub mod order;
pub mod path;
pub mod plan;
pub mod platform;
pub mod plugin;
pub mod scheduler;
pub mod selection;
pub mod text;
pub mod tui;
pub mod typo;
