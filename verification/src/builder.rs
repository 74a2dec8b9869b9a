//! The builders that builds are spread over.
pub mod inspect;
pub mod node;
pub mod shard;
